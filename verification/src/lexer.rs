use vstd::prelude::*;

use crate::error::{NormError, SpecError};
use crate::text::{chars_to_string, push_char, str_chars};

verus! {

/// One field of a data row: quoted fields keep their content verbatim.
#[derive(Debug, Clone, PartialEq, Eq)]
pub enum Cell {
    Quoted(String),
    Unquoted(String),
}

/// Mathematical model of a `Cell`.
pub enum SCell {
    Quoted(Seq<char>),
    Unquoted(Seq<char>),
}

/// One classified line (or multi-line record) of a NORM document.
#[derive(Debug, Clone, PartialEq, Eq)]
pub enum Token {
    RootDeclaration { array: bool },
    SectionHeader { name: String, array: bool },
    DataRow { cells: Vec<Cell> },
    Blank,
    Comment,
}

/// Mathematical model of a `Token`.
pub enum SToken {
    Root { array: bool },
    Header { name: Seq<char>, array: bool },
    Row { cells: Seq<SCell> },
    Blank,
    Comment,
}

impl Cell {
    pub open spec fn model(&self) -> SCell {
        match self {
            Cell::Quoted(s) => SCell::Quoted(s@),
            Cell::Unquoted(s) => SCell::Unquoted(s@),
        }
    }

    /// True for an unquoted cell with no content.
    pub fn is_empty_unquoted(&self) -> (r: bool)
        ensures
            r == scell_is_empty_unquoted(self.model()),
    {
        match self {
            Cell::Unquoted(s) => s.as_str().is_empty(),
            Cell::Quoted(_) => false,
        }
    }
}

pub open spec fn scell_is_empty_unquoted(c: SCell) -> bool {
    match c {
        SCell::Unquoted(s) => s.len() == 0,
        SCell::Quoted(_) => false,
    }
}

/// The text of a cell, quoted or not.
pub open spec fn scell_text(c: SCell) -> Seq<char> {
    match c {
        SCell::Unquoted(s) => s,
        SCell::Quoted(s) => s,
    }
}

pub open spec fn cells_model(v: Seq<Cell>) -> Seq<SCell> {
    v.map_values(|c: Cell| c.model())
}

impl Token {
    pub open spec fn model(&self) -> SToken {
        match self {
            Token::RootDeclaration { array } => SToken::Root { array: *array },
            Token::SectionHeader { name, array } => SToken::Header { name: name@, array: *array },
            Token::DataRow { cells } => SToken::Row { cells: cells_model(cells@) },
            Token::Blank => SToken::Blank,
            Token::Comment => SToken::Comment,
        }
    }
}

pub open spec fn tokens_model(v: Seq<(usize, Token)>) -> Seq<(nat, SToken)> {
    v.map_values(|p: (usize, Token)| (p.0 as nat, p.1.model()))
}

// ---------------------------------------------------------------------------
// Character classes
// ---------------------------------------------------------------------------

pub open spec fn is_ws(c: char) -> bool {
    c == ' ' || c == '\t'
}

pub open spec fn is_ascii_alpha(c: char) -> bool {
    ('a' <= c && c <= 'z') || ('A' <= c && c <= 'Z')
}

pub open spec fn is_ascii_digit(c: char) -> bool {
    '0' <= c && c <= '9'
}

pub open spec fn is_name_char(c: char) -> bool {
    is_ascii_alpha(c) || is_ascii_digit(c) || c == '_'
}

/// `[a-zA-Z_][a-zA-Z0-9_]*`
pub open spec fn valid_section_name(n: Seq<char>) -> bool {
    &&& n.len() > 0
    &&& (is_ascii_alpha(n[0]) || n[0] == '_')
    &&& forall|i: int| 1 <= i < n.len() ==> #[trigger] is_name_char(n[i])
}

// ---------------------------------------------------------------------------
// Scanning positions (all over the character sequence of the input)
// ---------------------------------------------------------------------------

/// First position at or after `j` holding `'\n'`, or the end.
pub open spec fn find_lf(s: Seq<char>, j: int) -> int
    decreases s.len() - j,
{
    if 0 <= j < s.len() && s[j] != '\n' {
        find_lf(s, j + 1)
    } else {
        j
    }
}

/// First position in `[i, end)` that is not a space or tab, or `end`.
pub open spec fn skip_ws(s: Seq<char>, i: int, end: int) -> int
    decreases end - i,
{
    if 0 <= i < end && end <= s.len() && is_ws(s[i]) {
        skip_ws(s, i + 1, end)
    } else {
        i
    }
}

/// End of `[a, b)` once trailing spaces and tabs are removed.
pub open spec fn back_ws(s: Seq<char>, a: int, b: int) -> int
    decreases b - a,
{
    if 0 <= a < b && b <= s.len() && is_ws(s[b - 1]) {
        back_ws(s, a, b - 1)
    } else {
        b
    }
}

/// First `'#'` in `[i, b)`, or `b`.
pub open spec fn find_hash(s: Seq<char>, i: int, b: int) -> int
    decreases b - i,
{
    if 0 <= i < b && b <= s.len() && s[i] != '#' {
        find_hash(s, i + 1, b)
    } else {
        i
    }
}

/// First position at or after `j` holding `,`, `'\n'` or `'\r'`, or the end.
pub open spec fn unquoted_end(s: Seq<char>, j: int) -> int
    decreases s.len() - j,
{
    if 0 <= j < s.len() && s[j] != ',' && s[j] != '\n' && s[j] != '\r' {
        unquoted_end(s, j + 1)
    } else {
        j
    }
}

pub open spec fn has_null(s: Seq<char>, a: int, b: int) -> bool {
    exists|k: int| a <= k < b && s[k] == '\0'
}

pub open spec fn next_start(s: Seq<char>, eol: int) -> int {
    if eol < s.len() {
        eol + 1
    } else {
        eol
    }
}

/// End of the physical line `[pos, eol)` without a final carriage return.
pub open spec fn phys_end(s: Seq<char>, pos: int, eol: int) -> int {
    if eol > pos && s[eol - 1] == '\r' {
        eol - 1
    } else {
        eol
    }
}

// ---------------------------------------------------------------------------
// Structural lines
// ---------------------------------------------------------------------------

pub open spec fn root_word() -> Seq<char> {
    seq!['r', 'o', 'o', 't']
}

pub open spec fn root_array_word() -> Seq<char> {
    seq!['r', 'o', 'o', 't', '[', ']']
}

/// `root` followed by a space, a tab or `[` and more: a root declaration with trailing
/// garbage.
pub open spec fn root_garbage(rest: Seq<char>) -> bool {
    rest.len() > 4 && rest.subrange(0, 4) == root_word() && (is_ws(rest[4]) || rest[4] == '[')
}

/// A valid section name, alone or followed by `[]`, is no root declaration with garbage.
pub proof fn lemma_name_not_root_garbage(nm: Seq<char>)
    requires
        valid_section_name(nm),
        nm != root_word(),
    ensures
        !root_garbage(nm),
        !root_garbage(nm + seq!['[', ']']),
{
    if nm.len() > 4 {
        assert(is_name_char(nm[4]));
    }
    let w = nm + seq!['[', ']'];
    if w.len() > 4 && w.subrange(0, 4) == root_word() {
        if nm.len() > 4 {
            assert(w[4] == nm[4]);
            assert(is_name_char(nm[4]));
        } else if nm.len() == 4 {
            assert(nm =~= w.subrange(0, 4));
        } else {
            assert(w.subrange(0, 4)[nm.len() as int] == '[');
        }
    }
}

/// Classification of the structural line `s[a..b)` (inline comment already cut). A section
/// name that is not valid is an error when `strict`; otherwise it stands in the header
/// token, and structural collection reports it.
pub open spec fn classify(s: Seq<char>, a: int, b: int, line: nat, strict: bool) -> Result<SToken, SpecError> {
    let t0 = skip_ws(s, a, b);
    let t1 = back_ws(s, t0, b);
    if !(t0 < t1 && s[t0] == ':') {
        Err(SpecError::InvalidRootDeclaration { line })
    } else {
        let r0 = skip_ws(s, t0 + 1, t1);
        let r1 = back_ws(s, r0, t1);
        let rest = s.subrange(r0, r1);
        if rest == root_word() {
            Ok(SToken::Root { array: false })
        } else if rest == root_array_word() {
            Ok(SToken::Root { array: true })
        } else if root_garbage(rest) {
            Err(SpecError::InvalidRootDeclaration { line })
        } else {
            let array = rest.len() >= 2 && rest[rest.len() - 2] == '[' && rest[rest.len() - 1]
                == ']';
            let name = if array {
                rest.subrange(0, rest.len() - 2)
            } else {
                rest
            };
            if valid_section_name(name) || !strict {
                Ok(SToken::Header { name, array })
            } else {
                Err(SpecError::InvalidSectionName { line, name })
            }
        }
    }
}

// ---------------------------------------------------------------------------
// Data records
// ---------------------------------------------------------------------------

/// Content of a quoted field from position `i` (just after the opening quote):
/// the content, the position after the closing quote, and the current line.
pub open spec fn scan_quoted(s: Seq<char>, i: int, line: nat, content: Seq<char>) -> Result<
    (Seq<char>, int, nat),
    SpecError,
>
    decreases s.len() - i,
{
    if i < 0 || i >= s.len() {
        Ok((content, i, line))
    } else if s[i] == '\0' {
        Err(SpecError::NullByte { line })
    } else if s[i] == '"' {
        if i + 1 < s.len() && s[i + 1] == '"' {
            scan_quoted(s, i + 2, line, content.push('"'))
        } else {
            Ok((content, i + 1, line))
        }
    } else if s[i] == '\n' {
        scan_quoted(s, i + 1, line + 1, content.push('\n'))
    } else if s[i] == '\r' {
        if i + 1 < s.len() && s[i + 1] == '\n' {
            scan_quoted(s, i + 2, line + 1, content.push('\n'))
        } else {
            scan_quoted(s, i + 1, line, content.push('\r'))
        }
    } else {
        scan_quoted(s, i + 1, line, content.push(s[i]))
    }
}

/// What follows a field at position `i`: next position, line, and whether the record ends.
pub open spec fn finish_field(s: Seq<char>, i: int, line: nat) -> (int, nat, bool) {
    if i < 0 || i >= s.len() {
        (i, line, true)
    } else if s[i] == ',' {
        (i + 1, line, false)
    } else if s[i] == '\n' {
        (i + 1, line + 1, true)
    } else if s[i] == '\r' {
        if i + 1 < s.len() && s[i + 1] == '\n' {
            (i + 2, line + 1, true)
        } else {
            (i + 1, line, true)
        }
    } else {
        (i, line, true)
    }
}

/// One field starting at `pos`: the cell, next position, line, and whether the record ends.
pub open spec fn parse_field(s: Seq<char>, pos: int, line: nat) -> Result<
    (SCell, int, nat, bool),
    SpecError,
> {
    let i = skip_ws(s, pos, s.len() as int);
    if i < s.len() && s[i] == '"' {
        match scan_quoted(s, i + 1, line, Seq::empty()) {
            Err(e) => Err(e),
            Ok((content, k, l)) => {
                let k2 = skip_ws(s, k, s.len() as int);
                let f = finish_field(s, k2, l);
                Ok((SCell::Quoted(content), f.0, f.1, f.2))
            },
        }
    } else {
        let j = unquoted_end(s, pos);
        if has_null(s, pos, j) {
            Err(SpecError::NullByte { line })
        } else {
            let t0 = skip_ws(s, pos, j);
            let t1 = back_ws(s, t0, j);
            let f = finish_field(s, j, line);
            Ok((SCell::Unquoted(s.subrange(t0, t1)), f.0, f.1, f.2))
        }
    }
}

/// The fields of a record starting at `pos`, appended to `acc`; with the next position and line.
pub open spec fn parse_record(s: Seq<char>, pos: int, line: nat, acc: Seq<SCell>) -> Result<
    (Seq<SCell>, int, nat),
    SpecError,
>
    decreases s.len() - pos,
{
    match parse_field(s, pos, line) {
        Err(e) => Err(e),
        Ok((c, np, nl, end)) => {
            if end || !(0 <= pos <= s.len()) {
                Ok((acc.push(c), np, nl))
            } else {
                proof {
                    lemma_parse_field_bounds(s, pos, line);
                }
                parse_record(s, np, nl, acc.push(c))
            }
        },
    }
}

// ---------------------------------------------------------------------------
// Whole input
// ---------------------------------------------------------------------------

/// The error for a header token whose section name is not valid.
pub open spec fn bad_header(x: (nat, SToken)) -> Option<SpecError> {
    match x.1 {
        SToken::Header { name, .. } => if valid_section_name(name) {
            None
        } else {
            Some(SpecError::InvalidSectionName { line: x.0, name })
        },
        _ => None,
    }
}

/// The error for the first header among `acc[i..]` whose section name is not valid.
pub open spec fn bad_header_from(acc: Seq<(nat, SToken)>, i: int) -> Option<SpecError>
    decreases acc.len() - i,
{
    if i < 0 || i >= acc.len() {
        None
    } else {
        match bad_header(acc[i]) {
            Some(e) => Some(e),
            None => bad_header_from(acc, i + 1),
        }
    }
}

/// The error lexing reports when it stops at `e` after the tokens `acc`: when not `strict`,
/// an invalid section name met earlier comes first, as strict lexing would have stopped
/// there.
pub open spec fn lex_fail(acc: Seq<(nat, SToken)>, e: SpecError, strict: bool) -> SpecError {
    if strict {
        e
    } else {
        match bad_header_from(acc, 0) {
            Some(b) => b,
            None => e,
        }
    }
}

/// The tokens from position `pos` on, appended to `acc`, where invalid section names stand
/// in their header tokens.
pub open spec fn lex_from(s: Seq<char>, pos: int, line: nat, acc: Seq<(nat, SToken)>) -> Result<
    Seq<(nat, SToken)>,
    SpecError,
> {
    lex_mode(s, pos, line, acc, false)
}

/// The tokens from position `pos` on, appended to `acc`; an invalid section name is an
/// error when `strict`.
pub open spec fn lex_mode(s: Seq<char>, pos: int, line: nat, acc: Seq<(nat, SToken)>, strict: bool) -> Result<
    Seq<(nat, SToken)>,
    SpecError,
>
    decreases s.len() - pos,
{
    if pos < 0 || pos >= s.len() {
        Ok(acc)
    } else {
        let eol = find_lf(s, pos);
        proof {
            lemma_find_lf_bounds(s, pos);
        }
        if has_null(s, pos, eol) {
            Err(lex_fail(acc, SpecError::NullByte { line }, strict))
        } else {
            let pe = phys_end(s, pos, eol);
            let lead = skip_ws(s, pos, pe);
            if lead == pe {
                lex_mode(s, next_start(s, eol), line + 1, acc.push((line, SToken::Blank)), strict)
            } else if s[lead] == '#' {
                lex_mode(s, next_start(s, eol), line + 1, acc.push((line, SToken::Comment)), strict)
            } else if s[lead] == ':' {
                match classify(s, pos, find_hash(s, pos, pe), line, strict) {
                    Err(e) => Err(lex_fail(acc, e, strict)),
                    Ok(t) => lex_mode(s, next_start(s, eol), line + 1, acc.push((line, t)), strict),
                }
            } else {
                match parse_record(s, pos, line, Seq::empty()) {
                    Err(e) => Err(lex_fail(acc, e, strict)),
                    Ok((cells, np, nl)) => {
                        proof {
                            lemma_parse_record_bounds(s, pos, line, Seq::empty());
                        }
                        lex_mode(s, np, nl, acc.push((line, SToken::Row { cells })), strict)
                    },
                }
            }
        }
    }
}

/// The tokens of a whole input, each with the line on which it starts, as structural
/// collection reads them (invalid section names stand in their header tokens).
pub open spec fn spec_lex(s: Seq<char>) -> Result<Seq<(nat, SToken)>, SpecError> {
    spec_lex_mode(s, false)
}

/// The tokens of a whole input; an invalid section name is an error.
pub open spec fn spec_lex_strict(s: Seq<char>) -> Result<Seq<(nat, SToken)>, SpecError> {
    spec_lex_mode(s, true)
}

pub open spec fn spec_lex_mode(s: Seq<char>, strict: bool) -> Result<Seq<(nat, SToken)>, SpecError> {
    if s.len() > 0 && s[0] == '\u{feff}' {
        Err(SpecError::BomDetected)
    } else {
        lex_mode(s, 0, 1, Seq::empty(), strict)
    }
}

// ---------------------------------------------------------------------------
// Bounds lemmas
// ---------------------------------------------------------------------------

pub proof fn lemma_find_lf_bounds(s: Seq<char>, j: int)
    requires
        0 <= j <= s.len(),
    ensures
        j <= find_lf(s, j) <= s.len(),
        find_lf(s, j) < s.len() ==> s[find_lf(s, j)] == '\n',
        forall|k: int| j <= k < find_lf(s, j) ==> s[k] != '\n',
    decreases s.len() - j,
{
    if j < s.len() && s[j] != '\n' {
        lemma_find_lf_bounds(s, j + 1);
    }
}

pub proof fn lemma_skip_ws_bounds(s: Seq<char>, i: int, end: int)
    requires
        0 <= i <= end <= s.len(),
    ensures
        i <= skip_ws(s, i, end) <= end,
        skip_ws(s, i, end) < end ==> !is_ws(s[skip_ws(s, i, end)]),
        forall|k: int| i <= k < skip_ws(s, i, end) ==> is_ws(s[k]),
    decreases end - i,
{
    if i < end && is_ws(s[i]) {
        lemma_skip_ws_bounds(s, i + 1, end);
    }
}

pub proof fn lemma_unquoted_end_bounds(s: Seq<char>, j: int)
    requires
        0 <= j <= s.len(),
    ensures
        j <= unquoted_end(s, j) <= s.len(),
        unquoted_end(s, j) < s.len() ==> (s[unquoted_end(s, j)] == ',' || s[unquoted_end(s, j)]
            == '\n' || s[unquoted_end(s, j)] == '\r'),
        forall|k: int|
            j <= k < unquoted_end(s, j) ==> s[k] != ',' && s[k] != '\n' && s[k] != '\r',
    decreases s.len() - j,
{
    if j < s.len() && s[j] != ',' && s[j] != '\n' && s[j] != '\r' {
        lemma_unquoted_end_bounds(s, j + 1);
    }
}

pub proof fn lemma_scan_quoted_bounds(s: Seq<char>, i: int, line: nat, content: Seq<char>)
    requires
        0 <= i <= s.len(),
    ensures
        scan_quoted(s, i, line, content) matches Ok((_, k, l)) ==> i <= k <= s.len() && line <= l
            && l <= line + (k - i),
    decreases s.len() - i,
{
    if i < s.len() && s[i] != '\0' {
        if s[i] == '"' {
            if i + 1 < s.len() && s[i + 1] == '"' {
                lemma_scan_quoted_bounds(s, i + 2, line, content.push('"'));
            }
        } else if s[i] == '\n' {
            lemma_scan_quoted_bounds(s, i + 1, line + 1, content.push('\n'));
        } else if s[i] == '\r' {
            if i + 1 < s.len() && s[i + 1] == '\n' {
                lemma_scan_quoted_bounds(s, i + 2, line + 1, content.push('\n'));
            } else {
                lemma_scan_quoted_bounds(s, i + 1, line, content.push('\r'));
            }
        } else {
            lemma_scan_quoted_bounds(s, i + 1, line, content.push(s[i]));
        }
    }
}

pub proof fn lemma_parse_field_bounds(s: Seq<char>, pos: int, line: nat)
    requires
        0 <= pos <= s.len(),
    ensures
        parse_field(s, pos, line) matches Ok((_, np, nl, end)) ==> {
            &&& pos <= np <= s.len()
            &&& (pos < s.len() ==> pos < np)
            &&& (!end ==> pos < np)
            &&& line <= nl <= line + (np - pos)
        },
{
    let i = skip_ws(s, pos, s.len() as int);
    lemma_skip_ws_bounds(s, pos, s.len() as int);
    if i < s.len() && s[i] == '"' {
        lemma_scan_quoted_bounds(s, i + 1, line, Seq::empty());
        if let Ok((content, k, l)) = scan_quoted(s, i + 1, line, Seq::empty()) {
            lemma_skip_ws_bounds(s, k, s.len() as int);
        }
    } else {
        lemma_unquoted_end_bounds(s, pos);
    }
}

pub proof fn lemma_parse_record_bounds(s: Seq<char>, pos: int, line: nat, acc: Seq<SCell>)
    requires
        0 <= pos <= s.len(),
    ensures
        parse_record(s, pos, line, acc) matches Ok((_, np, nl)) ==> {
            &&& pos <= np <= s.len()
            &&& (pos < s.len() ==> pos < np)
            &&& line <= nl <= line + (np - pos)
        },
    decreases s.len() - pos,
{
    lemma_parse_field_bounds(s, pos, line);
    if let Ok((c, np, nl, end)) = parse_field(s, pos, line) {
        if !end {
            lemma_parse_record_bounds(s, np, nl, acc.push(c));
        }
    }
}

// ---------------------------------------------------------------------------
// Executable lexer
// ---------------------------------------------------------------------------

pub open spec fn token_result_model(r: Result<Token, NormError>) -> Result<SToken, SpecError> {
    match r {
        Ok(t) => Ok(t.model()),
        Err(e) => Err(e.model()),
    }
}

pub open spec fn tokens_result_model(r: Result<Vec<(usize, Token)>, NormError>) -> Result<
    Seq<(nat, SToken)>,
    SpecError,
> {
    match r {
        Ok(t) => Ok(tokens_model(t@)),
        Err(e) => Err(e.model()),
    }
}

fn find_lf_exec(s: &Vec<char>, start: usize) -> (r: (usize, bool))
    requires
        start <= s@.len(),
    ensures
        r.0 == find_lf(s@, start as int),
        r.1 == (r.0 < s@.len()),
        start <= r.0 <= s@.len(),
{
    let mut j = start;
    while j < s.len() && s[j] != '\n'
        invariant
            start <= j <= s@.len(),
            find_lf(s@, start as int) == find_lf(s@, j as int),
        decreases s@.len() - j,
    {
        j += 1;
    }
    (j, j < s.len())
}

fn skip_ws_exec(s: &Vec<char>, i: usize, end: usize) -> (r: usize)
    requires
        i <= end <= s@.len(),
    ensures
        r == skip_ws(s@, i as int, end as int),
        i <= r <= end,
{
    let mut k = i;
    while k < end && (s[k] == ' ' || s[k] == '\t')
        invariant
            i <= k <= end <= s@.len(),
            skip_ws(s@, i as int, end as int) == skip_ws(s@, k as int, end as int),
        decreases end - k,
    {
        k += 1;
    }
    k
}

fn back_ws_exec(s: &Vec<char>, a: usize, b: usize) -> (r: usize)
    requires
        a <= b <= s@.len(),
    ensures
        r == back_ws(s@, a as int, b as int),
        a <= r <= b,
{
    let mut k = b;
    while k > a && (s[k - 1] == ' ' || s[k - 1] == '\t')
        invariant
            a <= k <= b <= s@.len(),
            back_ws(s@, a as int, b as int) == back_ws(s@, a as int, k as int),
        decreases k - a,
    {
        k -= 1;
    }
    k
}

fn find_hash_exec(s: &Vec<char>, i: usize, b: usize) -> (r: usize)
    requires
        i <= b <= s@.len(),
    ensures
        r == find_hash(s@, i as int, b as int),
        i <= r <= b,
{
    let mut k = i;
    while k < b && s[k] != '#'
        invariant
            i <= k <= b <= s@.len(),
            find_hash(s@, i as int, b as int) == find_hash(s@, k as int, b as int),
        decreases b - k,
    {
        k += 1;
    }
    k
}

/// Whether `s[a..b)` equals `w`.
pub(crate) fn range_eq(s: &Vec<char>, a: usize, b: usize, w: &Vec<char>) -> (r: bool)
    requires
        a <= b <= s@.len(),
    ensures
        r == (s@.subrange(a as int, b as int) == w@),
{
    if b - a != w.len() {
        return false;
    }
    let mut k: usize = 0;
    while k < w.len()
        invariant
            b - a == w@.len(),
            a <= b <= s@.len(),
            k <= w@.len(),
            forall|m: int| 0 <= m < k ==> s@[a + m] == w@[m],
        decreases w@.len() - k,
    {
        if s[a + k] != w[k] {
            assert(s@.subrange(a as int, b as int)[k as int] != w@[k as int]);
            return false;
        }
        k += 1;
    }
    assert(s@.subrange(a as int, b as int) =~= w@);
    true
}

/// Whether `s[a..b)` is a valid section name.
pub(crate) fn valid_name_range(s: &Vec<char>, a: usize, b: usize) -> (r: bool)
    requires
        a <= b <= s@.len(),
    ensures
        r == valid_section_name(s@.subrange(a as int, b as int)),
{
    let ghost n = s@.subrange(a as int, b as int);
    if a == b {
        return false;
    }
    let first = s[a];
    if !(('a' <= first && first <= 'z') || ('A' <= first && first <= 'Z') || first == '_') {
        return false;
    }
    let mut k = a + 1;
    while k < b
        invariant
            a < k <= b <= s@.len(),
            n == s@.subrange(a as int, b as int),
            forall|i: int| 1 <= i < k - a ==> #[trigger] is_name_char(n[i]),
        decreases b - k,
    {
        let c = s[k];
        if !(('a' <= c && c <= 'z') || ('A' <= c && c <= 'Z') || ('0' <= c && c <= '9') || c
            == '_') {
            assert(!is_name_char(n[k - a]));
            return false;
        }
        k += 1;
    }
    true
}

/// Whether `name` matches `[a-zA-Z_][a-zA-Z0-9_]*`.
pub fn is_valid_section_name(name: &str) -> (r: bool)
    ensures
        r == valid_section_name(name@),
{
    let v = str_chars(name);
    assert(v@.subrange(0, v@.len() as int) =~= v@);
    valid_name_range(&v, 0, v.len())
}

fn classify_structural(s: &Vec<char>, a: usize, b: usize, line: usize, strict: bool) -> (r: Result<
    Token,
    NormError,
>)
    requires
        a <= b <= s@.len(),
    ensures
        token_result_model(r) == classify(s@, a as int, b as int, line as nat, strict),
{
    let t0 = skip_ws_exec(s, a, b);
    let t1 = back_ws_exec(s, t0, b);
    if !(t0 < t1 && s[t0] == ':') {
        return Err(NormError::InvalidRootDeclaration { line });
    }
    let r0 = skip_ws_exec(s, t0 + 1, t1);
    let r1 = back_ws_exec(s, r0, t1);
    let ghost rest = s@.subrange(r0 as int, r1 as int);
    let root = vec!['r', 'o', 'o', 't'];
    assert(root@ =~= root_word());
    if range_eq(s, r0, r1, &root) {
        return Ok(Token::RootDeclaration { array: false });
    }
    let root_arr = vec!['r', 'o', 'o', 't', '[', ']'];
    assert(root_arr@ =~= root_array_word());
    if range_eq(s, r0, r1, &root_arr) {
        return Ok(Token::RootDeclaration { array: true });
    }
    if r1 - r0 > 4 && range_eq(s, r0, r0 + 4, &root) && (s[r0 + 4] == ' ' || s[r0 + 4] == '\t' || s[r0
        + 4] == '[') {
        assert(rest.subrange(0, 4) =~= s@.subrange(r0 as int, r0 + 4));
        assert(rest[4] == s@[r0 + 4]);
        return Err(NormError::InvalidRootDeclaration { line });
    }
    assert(!root_garbage(rest)) by {
        if rest.len() > 4 {
            assert(rest.subrange(0, 4) =~= s@.subrange(r0 as int, r0 + 4));
            assert(rest[4] == s@[r0 + 4]);
        }
    }
    let array = r1 - r0 >= 2 && s[r1 - 2] == '[' && s[r1 - 1] == ']';
    let name_end = if array {
        r1 - 2
    } else {
        r1
    };
    assert(s@.subrange(r0 as int, name_end as int) =~= (if array {
        rest.subrange(0, rest.len() - 2)
    } else {
        rest
    }));
    let name = chars_to_string(s, r0, name_end);
    if strict && !valid_name_range(s, r0, name_end) {
        return Err(NormError::InvalidSectionName { line, name });
    }
    Ok(Token::SectionHeader { name, array })
}

pub open spec fn field_result_model(r: Result<(Cell, usize, usize, bool), NormError>) -> Result<
    (SCell, int, nat, bool),
    SpecError,
> {
    match r {
        Ok((c, np, nl, end)) => Ok((c.model(), np as int, nl as nat, end)),
        Err(e) => Err(e.model()),
    }
}

fn finish_field_exec(s: &Vec<char>, i: usize, line: usize) -> (r: (usize, usize, bool))
    requires
        i <= s@.len(),
        line <= i + 1,
        s@.len() < usize::MAX,
    ensures
        (r.0 as int, r.1 as nat, r.2) == finish_field(s@, i as int, line as nat),
{
    if i >= s.len() {
        return (i, line, true);
    }
    if s[i] == ',' {
        (i + 1, line, false)
    } else if s[i] == '\n' {
        (i + 1, line + 1, true)
    } else if s[i] == '\r' {
        if i + 1 < s.len() && s[i + 1] == '\n' {
            (i + 2, line + 1, true)
        } else {
            (i + 1, line, true)
        }
    } else {
        (i, line, true)
    }
}

fn scan_quoted_exec(s: &Vec<char>, start: usize, line: usize) -> (r: Result<
    (String, usize, usize),
    NormError,
>)
    requires
        0 < start <= s@.len(),
        line <= start,
        s@.len() < usize::MAX,
    ensures
        match r {
            Ok((c, k, l)) => scan_quoted(s@, start as int, line as nat, Seq::empty()) == Ok::<
                (Seq<char>, int, nat),
                SpecError,
            >((c@, k as int, l as nat)) && l <= k,
            Err(e) => scan_quoted(s@, start as int, line as nat, Seq::empty()) == Err::<
                (Seq<char>, int, nat),
                SpecError,
            >(e.model()),
        },
{
    let mut content = String::new();
    let mut k = start;
    let mut l = line;
    loop
        invariant_except_break
            scan_quoted(s@, start as int, line as nat, Seq::empty()) == scan_quoted(
                s@,
                k as int,
                l as nat,
                content@,
            ),
        invariant
            0 < k <= s@.len(),
            l <= k,
            s@.len() < usize::MAX,
        ensures
            scan_quoted(s@, start as int, line as nat, Seq::empty()) == Ok::<
                (Seq<char>, int, nat),
                SpecError,
            >((content@, k as int, l as nat)),
        decreases s@.len() - k,
    {
        if k >= s.len() {
            break;
        }
        let c = s[k];
        if c == '\0' {
            return Err(NormError::NullByte { line: l });
        }
        if c == '"' {
            if k + 1 < s.len() && s[k + 1] == '"' {
                push_char(&mut content, '"');
                k += 2;
                continue;
            }
            k += 1;
            break;
        }
        if c == '\n' {
            push_char(&mut content, '\n');
            l += 1;
            k += 1;
            continue;
        }
        if c == '\r' {
            if k + 1 < s.len() && s[k + 1] == '\n' {
                push_char(&mut content, '\n');
                l += 1;
                k += 2;
                continue;
            }
            push_char(&mut content, '\r');
            k += 1;
            continue;
        }
        push_char(&mut content, c);
        k += 1;
    }
    Ok((content, k, l))
}

#[verifier::loop_isolation(false)]
fn parse_field_exec(s: &Vec<char>, pos: usize, line: usize) -> (r: Result<
    (Cell, usize, usize, bool),
    NormError,
>)
    requires
        pos <= s@.len(),
        line <= pos + 1,
        s@.len() < usize::MAX,
    ensures
        field_result_model(r) == parse_field(s@, pos as int, line as nat),
{
    proof {
        lemma_parse_field_bounds(s@, pos as int, line as nat);
    }
    let i = skip_ws_exec(s, pos, s.len());
    if i < s.len() && s[i] == '"' {
        match scan_quoted_exec(s, i + 1, line) {
            Err(e) => {
                return Err(e);
            },
            Ok((content, k, l)) => {
                let k2 = skip_ws_exec(s, k, s.len());
                let (np, nl, end) = finish_field_exec(s, k2, l);
                return Ok((Cell::Quoted(content), np, nl, end));
            },
        }
    }
    let mut j = pos;
    while j < s.len() && s[j] != ',' && s[j] != '\n' && s[j] != '\r'
        invariant
            pos <= j <= s@.len(),
            unquoted_end(s@, pos as int) == unquoted_end(s@, j as int),
            !has_null(s@, pos as int, j as int),
        decreases s@.len() - j,
    {
        if s[j] == '\0' {
            proof {
                lemma_unquoted_end_bounds(s@, j as int);
            }
            assert(has_null(s@, pos as int, unquoted_end(s@, pos as int)));
            return Err(NormError::NullByte { line });
        }
        j += 1;
    }
    let t0 = skip_ws_exec(s, pos, j);
    let t1 = back_ws_exec(s, t0, j);
    let text = chars_to_string(s, t0, t1);
    let (np, nl, end) = finish_field_exec(s, j, line);
    Ok((Cell::Unquoted(text), np, nl, end))
}

pub open spec fn record_result_model(r: Result<(Vec<Cell>, usize, usize), NormError>) -> Result<
    (Seq<SCell>, int, nat),
    SpecError,
> {
    match r {
        Ok((c, np, nl)) => Ok((cells_model(c@), np as int, nl as nat)),
        Err(e) => Err(e.model()),
    }
}

fn parse_record_exec(s: &Vec<char>, pos0: usize, line0: usize) -> (r: Result<
    (Vec<Cell>, usize, usize),
    NormError,
>)
    requires
        pos0 <= s@.len(),
        line0 <= pos0 + 1,
        s@.len() < usize::MAX,
    ensures
        record_result_model(r) == parse_record(s@, pos0 as int, line0 as nat, Seq::empty()),
{
    let mut cells: Vec<Cell> = Vec::new();
    let mut pos = pos0;
    let mut line = line0;
    assert(cells_model(cells@) =~= Seq::<SCell>::empty());
    loop
        invariant
            pos <= s@.len(),
            line <= pos + 1,
            s@.len() < usize::MAX,
            parse_record(s@, pos0 as int, line0 as nat, Seq::empty()) == parse_record(
                s@,
                pos as int,
                line as nat,
                cells_model(cells@),
            ),
        decreases s@.len() - pos,
    {
        proof {
            lemma_parse_field_bounds(s@, pos as int, line as nat);
        }
        let ghost acc = cells_model(cells@);
        match parse_field_exec(s, pos, line) {
            Err(e) => {
                return Err(e);
            },
            Ok((cell, np, nl, end)) => {
                let ghost cm = cell.model();
                cells.push(cell);
                assert(cells_model(cells@) =~= acc.push(cm));
                pos = np;
                line = nl;
                if end {
                    return Ok((cells, pos, line));
                }
            },
        }
    }
}

/// The tokens of `input`, each with the line on which it starts; an invalid section name
/// is an error.
pub fn lex(input: &str) -> (r: Result<Vec<(usize, Token)>, NormError>)
    requires
        input@.len() < usize::MAX,
    ensures
        tokens_result_model(r) == spec_lex_strict(input@),
{
    lex_tokens(input, true)
}

/// The error to report when lexing stops at `e` after `tokens` (see `lex_fail`).
fn lex_failure(tokens: &Vec<(usize, Token)>, e: NormError, strict: bool) -> (r: NormError)
    ensures
        r.model() == lex_fail(tokens_model(tokens@), e.model(), strict),
{
    if strict {
        return e;
    }
    let ghost tm = tokens_model(tokens@);
    let mut i: usize = 0;
    while i < tokens.len()
        invariant
            i <= tokens@.len(),
            !strict,
            tm == tokens_model(tokens@),
            bad_header_from(tm, 0) == bad_header_from(tm, i as int),
        decreases tokens@.len() - i,
    {
        assert(tm[i as int] == (tokens@[i as int].0 as nat, tokens@[i as int].1.model()));
        if let Token::SectionHeader { name, .. } = &tokens[i].1 {
            if !is_valid_section_name(name.as_str()) {
                let nm = name.clone();
                let r = NormError::InvalidSectionName { line: tokens[i].0, name: nm };
                assert(r.model() == SpecError::InvalidSectionName { line: tm[i as int].0, name: name@ });
                return r;
            }
        }
        i += 1;
    }
    e
}

/// The tokens of `input`; when not `strict`, an invalid section name stands in its header
/// token.
#[verifier::loop_isolation(false)]
pub(crate) fn lex_tokens(input: &str, strict: bool) -> (r: Result<Vec<(usize, Token)>, NormError>)
    requires
        input@.len() < usize::MAX,
    ensures
        tokens_result_model(r) == spec_lex_mode(input@, strict),
{
    let s = str_chars(input);
    if s.len() > 0 && s[0] == '\u{feff}' {
        return Err(NormError::BomDetected);
    }
    let mut tokens: Vec<(usize, Token)> = Vec::new();
    let mut pos: usize = 0;
    let mut line: usize = 1;
    assert(tokens_model(tokens@) =~= Seq::<(nat, SToken)>::empty());
    while pos < s.len()
        invariant
            pos <= s@.len(),
            1 <= line <= pos + 1,
            s@ == input@,
            s@.len() < usize::MAX,
            !(s@.len() > 0 && s@[0] == '\u{feff}'),
            spec_lex_mode(s@, strict) == lex_mode(s@, pos as int, line as nat, tokens_model(tokens@), strict),
        decreases s@.len() - pos,
    {
        let ghost acc = tokens_model(tokens@);
        let (eol, has_lf) = find_lf_exec(&s, pos);
        let mut k = pos;
        while k < eol
            invariant
                pos <= k <= eol <= s@.len(),
                !has_null(s@, pos as int, k as int),
            decreases eol - k,
        {
            if s[k] == '\0' {
                assert(has_null(s@, pos as int, eol as int));
                return Err(lex_failure(&tokens, NormError::NullByte { line }, strict));
            }
            k += 1;
        }
        let pe = if eol > pos && s[eol - 1] == '\r' {
            eol - 1
        } else {
            eol
        };
        let lead = skip_ws_exec(&s, pos, pe);
        let next = if has_lf {
            eol + 1
        } else {
            eol
        };
        if lead == pe {
            tokens.push((line, Token::Blank));
            assert(tokens_model(tokens@) =~= acc.push((line as nat, SToken::Blank)));
            pos = next;
            line += 1;
        } else if s[lead] == '#' {
            tokens.push((line, Token::Comment));
            assert(tokens_model(tokens@) =~= acc.push((line as nat, SToken::Comment)));
            pos = next;
            line += 1;
        } else if s[lead] == ':' {
            let h = find_hash_exec(&s, pos, pe);
            match classify_structural(&s, pos, h, line, strict) {
                Err(e) => {
                    return Err(lex_failure(&tokens, e, strict));
                },
                Ok(token) => {
                    let ghost tm = token.model();
                    tokens.push((line, token));
                    assert(tokens_model(tokens@) =~= acc.push((line as nat, tm)));
                    pos = next;
                    line += 1;
                },
            }
        } else {
            proof {
                lemma_parse_record_bounds(s@, pos as int, line as nat, Seq::empty());
            }
            match parse_record_exec(&s, pos, line) {
                Err(e) => {
                    return Err(lex_failure(&tokens, e, strict));
                },
                Ok((cells, np, nl)) => {
                    let ghost cm = cells_model(cells@);
                    let token = Token::DataRow { cells };
                    assert(token.model() == SToken::Row { cells: cm });
                    tokens.push((line, token));
                    assert(tokens_model(tokens@) =~= acc.push((line as nat, SToken::Row { cells: cm })));
                    pos = np;
                    line = nl;
                },
            }
        }
    }
    Ok(tokens)
}

} // verus!
