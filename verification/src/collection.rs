use vstd::prelude::*;

use crate::document::SSection;
use crate::error::SpecError;
use crate::lexer::{
    SCell, SToken, bad_header, bad_header_from, classify, lex_fail, lex_mode, parse_record,
    scell_is_empty_unquoted, spec_lex, spec_lex_strict, valid_section_name,
};
use crate::parser::{
    CState, PState, collect_finish, collect_step, collect_upto, has_section_named, name_errors,
    spec_collect_structural,
};

verus! {

/// No two sections share a name.
pub open spec fn distinct_names(secs: Seq<SSection>) -> bool {
    forall|i: int, j: int|
        0 <= i < j < secs.len() ==> #[trigger] secs[i].name != #[trigger] secs[j].name
}

/// Every row has at least one cell, and no row of an array section is one empty unquoted
/// cell.
pub open spec fn rows_well_formed(secs: Seq<SSection>) -> bool {
    forall|si: int, ri: int|
        0 <= si < secs.len() && 0 <= ri < secs[si].rows.len() ==> {
            let r = #[trigger] secs[si].rows[ri];
            &&& r.cells.len() > 0
            &&& secs[si].array ==> !(r.cells.len() == 1 && scell_is_empty_unquoted(r.cells[0]))
        }
}

/// Every row token has at least one cell.
pub open spec fn rows_have_cells(toks: Seq<(nat, SToken)>) -> bool {
    forall|k: int| 0 <= k < toks.len() ==> (#[trigger] toks[k].1 matches SToken::Row { cells } ==> cells.len() > 0)
}

proof fn lemma_record_cells(s: Seq<char>, pos: int, line: nat, acc: Seq<SCell>)
    ensures
        parse_record(s, pos, line, acc) matches Ok((cells, _, _)) ==> cells.len() > acc.len(),
    decreases s.len() - pos,
{
    reveal_with_fuel(parse_record, 1);
    match crate::lexer::parse_field(s, pos, line) {
        Err(e) => {},
        Ok((c, np, nl, end)) => {
            if end || !(0 <= pos <= s.len()) {
            } else {
                crate::lexer::lemma_parse_field_bounds(s, pos, line);
                lemma_record_cells(s, np, nl, acc.push(c));
            }
        },
    }
}

proof fn lemma_lex_rows(s: Seq<char>, pos: int, line: nat, acc: Seq<(nat, SToken)>, strict: bool)
    requires
        rows_have_cells(acc),
    ensures
        lex_mode(s, pos, line, acc, strict) matches Ok(toks) ==> rows_have_cells(toks),
    decreases s.len() - pos,
{
    if pos < 0 || pos >= s.len() {
    } else {
        let eol = crate::lexer::find_lf(s, pos);
        crate::lexer::lemma_find_lf_bounds(s, pos);
        if crate::lexer::has_null(s, pos, eol) {
        } else {
            let pe = crate::lexer::phys_end(s, pos, eol);
            let lead = crate::lexer::skip_ws(s, pos, pe);
            let ns = crate::lexer::next_start(s, eol);
            if lead == pe {
                let a = acc.push((line, SToken::Blank));
                assert(rows_have_cells(a)) by {
                    assert forall|k: int| 0 <= k < a.len() implies (#[trigger] a[k].1 matches SToken::Row { cells } ==> cells.len() > 0) by {
                        if k < acc.len() {
                            assert(a[k] == acc[k]);
                        }
                    }
                }
                lemma_lex_rows(s, ns, line + 1, a, strict);
            } else if s[lead] == '#' {
                let a = acc.push((line, SToken::Comment));
                assert(rows_have_cells(a)) by {
                    assert forall|k: int| 0 <= k < a.len() implies (#[trigger] a[k].1 matches SToken::Row { cells } ==> cells.len() > 0) by {
                        if k < acc.len() {
                            assert(a[k] == acc[k]);
                        }
                    }
                }
                lemma_lex_rows(s, ns, line + 1, a, strict);
            } else if s[lead] == ':' {
                match classify(s, pos, crate::lexer::find_hash(s, pos, pe), line, strict) {
                    Err(e) => {},
                    Ok(t) => {
                        let a = acc.push((line, t));
                        assert(rows_have_cells(a)) by {
                            assert forall|k: int| 0 <= k < a.len() implies (#[trigger] a[k].1 matches SToken::Row { cells } ==> cells.len() > 0) by {
                                if k < acc.len() {
                                    assert(a[k] == acc[k]);
                                }
                            }
                        }
                        lemma_lex_rows(s, ns, line + 1, a, strict);
                    },
                }
            } else {
                lemma_record_cells(s, pos, line, Seq::empty());
                match parse_record(s, pos, line, Seq::empty()) {
                    Err(e) => {},
                    Ok((cells, np, nl)) => {
                        crate::lexer::lemma_parse_record_bounds(s, pos, line, Seq::empty());
                        let a = acc.push((line, SToken::Row { cells }));
                        assert(rows_have_cells(a)) by {
                            assert forall|k: int| 0 <= k < a.len() implies (#[trigger] a[k].1 matches SToken::Row { cells } ==> cells.len() > 0) by {
                                if k < acc.len() {
                                    assert(a[k] == acc[k]);
                                }
                            }
                        }
                        lemma_lex_rows(s, np, nl, a, strict);
                    },
                }
            }
        }
    }
}

/// What structural collection keeps true of its state.
pub open spec fn collect_inv(st: CState) -> bool {
    &&& distinct_names(st.sections)
    &&& rows_well_formed(st.sections)
    &&& st.state matches PState::InSection(i) ==> i < st.sections.len()
}

proof fn lemma_collect_step(st: CState, line: nat, tok: SToken)
    requires
        collect_inv(st),
        tok matches SToken::Row { cells } ==> cells.len() > 0,
    ensures
        collect_inv(collect_step(st, line, tok)),
{
    let st2 = collect_step(st, line, tok);
    match tok {
        SToken::Header { name, array } => {
            if !(st.state is BeforeRoot) && !has_section_named(st.sections, name) {
                let secs = st2.sections;
                assert forall|i: int, j: int| 0 <= i < j < secs.len() implies #[trigger] secs[i].name != #[trigger] secs[j].name by {
                    if j == secs.len() - 1 {
                        assert(st.sections[i] == secs[i]);
                        if secs[i].name == name {
                            assert(has_section_named(st.sections, name));
                        }
                    } else {
                        assert(st.sections[i] == secs[i]);
                        assert(st.sections[j] == secs[j]);
                    }
                }
                assert forall|si: int, ri: int| 0 <= si < secs.len() && 0 <= ri < secs[si].rows.len() implies {
                    let r = #[trigger] secs[si].rows[ri];
                    &&& r.cells.len() > 0
                    &&& secs[si].array ==> !(r.cells.len() == 1 && scell_is_empty_unquoted(r.cells[0]))
                } by {
                    assert(si < st.sections.len());
                    assert(st.sections[si] == secs[si]);
                    let r = st.sections[si].rows[ri];
                }
            }
        },
        SToken::Row { cells } => {
            match st.state {
                PState::InSection(idx) => {
                    let secs = st2.sections;
                    assert(secs.len() == st.sections.len());
                    assert forall|i: int, j: int| 0 <= i < j < secs.len() implies #[trigger] secs[i].name != #[trigger] secs[j].name by {
                        assert(secs[i].name == st.sections[i].name);
                        assert(secs[j].name == st.sections[j].name);
                    }
                    assert forall|si: int, ri: int| 0 <= si < secs.len() && 0 <= ri < secs[si].rows.len() implies {
                        let r = #[trigger] secs[si].rows[ri];
                        &&& r.cells.len() > 0
                        &&& secs[si].array ==> !(r.cells.len() == 1 && scell_is_empty_unquoted(r.cells[0]))
                    } by {
                        if si != idx {
                            assert(secs[si] == st.sections[si]);
                            let r = st.sections[si].rows[ri];
                        } else if ri < st.sections[si].rows.len() {
                            assert(secs[si].rows[ri] == st.sections[si].rows[ri]);
                            assert(secs[si].array == st.sections[si].array);
                            let r = st.sections[si].rows[ri];
                        }
                    }
                },
                _ => {},
            }
        },
        _ => {},
    }
}

proof fn lemma_collect_upto(toks: Seq<(nat, SToken)>, n: int)
    requires
        rows_have_cells(toks),
        n <= toks.len(),
    ensures
        collect_inv(collect_upto(toks, n)),
    decreases n,
{
    if n > 0 {
        lemma_collect_upto(toks, n - 1);
        assert(toks[n - 1].1 matches SToken::Row { cells } ==> cells.len() > 0);
        lemma_collect_step(collect_upto(toks, n - 1), toks[n - 1].0, toks[n - 1].1);
    }
}

proof fn lemma_name_errors(secs: Seq<SSection>, n: int)
    requires
        0 <= n <= secs.len(),
        name_errors(secs, n).len() == 0,
    ensures
        forall|i: int| 0 <= i < n ==> valid_section_name(#[trigger] secs[i].name),
    decreases n,
{
    if n > 0 {
        if !valid_section_name(secs[n - 1].name) {
            assert(name_errors(secs, n).len() == name_errors(secs, n - 1).len() + 1);
        }
        lemma_name_errors(secs, n - 1);
    }
}

/// The document that structural collection gives has sections with distinct names, rows
/// with at least one cell, and no array row made of one empty cell; when collection
/// reports no error, every section name is valid.
pub proof fn lemma_collected_document(s: Seq<char>)
    ensures
        spec_collect_structural(s).0 matches Some(d) ==> {
            &&& distinct_names(d.sections)
            &&& rows_well_formed(d.sections)
            &&& spec_collect_structural(s).1.len() == 0 ==> forall|i: int|
                0 <= i < d.sections.len() ==> valid_section_name(#[trigger] d.sections[i].name)
        },
{
    match spec_lex(s) {
        Err(e) => {},
        Ok(toks) => {
            assert(rows_have_cells(Seq::<(nat, SToken)>::empty()));
            lemma_lex_rows(s, 0, 1, Seq::empty(), false);
            let st = collect_upto(toks, toks.len() as int);
            lemma_collect_upto(toks, toks.len() as int);
            match st.root_array {
                None => {},
                Some(ra) => {
                    let secs = st.sections;
                    let r = collect_finish(st);
                    let ne = name_errors(secs, secs.len() as int);
                    if r.1.len() == 0 {
                        assert(r.1.len() >= ne.len());
                        lemma_name_errors(secs, secs.len() as int);
                    }
                },
            }
        },
    }
}


// ---------------------------------------------------------------------------
// Strict and tolerant lexing
// ---------------------------------------------------------------------------

proof fn lemma_bad_push(acc: Seq<(nat, SToken)>, x: (nat, SToken), i: int)
    requires
        0 <= i <= acc.len(),
    ensures
        bad_header_from(acc, i) is Some ==> bad_header_from(acc.push(x), i) == bad_header_from(acc, i),
        bad_header_from(acc, i) is None ==> bad_header_from(acc.push(x), i) == bad_header(x),
    decreases acc.len() - i,
{
    if i < acc.len() {
        assert(acc.push(x)[i] == acc[i]);
        lemma_bad_push(acc, x, i + 1);
    } else {
        assert(acc.push(x)[i] == x);
        assert(bad_header_from(acc.push(x), i + 1) is None);
    }
}

proof fn lemma_bad_kind(acc: Seq<(nat, SToken)>, i: int)
    ensures
        bad_header_from(acc, i) matches Some(e) ==> e is InvalidSectionName,
    decreases acc.len() - i,
{
    if 0 <= i < acc.len() {
        lemma_bad_kind(acc, i + 1);
    }
}

proof fn lemma_classify_modes(s: Seq<char>, a: int, b: int, line: nat)
    ensures
        classify(s, a, b, line, true) matches Ok(t) ==> classify(s, a, b, line, false) == Ok::<
            SToken,
            SpecError,
        >(t) && bad_header((line, t)) is None,
        classify(s, a, b, line, false) is Err ==> classify(s, a, b, line, true) == classify(
            s,
            a,
            b,
            line,
            false,
        ),
        classify(s, a, b, line, true) matches Err(e) ==> (classify(s, a, b, line, false) matches Ok(
            t,
        ) ==> bad_header((line, t)) == Some(e)),
{
}

/// After an invalid header, tolerant lexing either fails with that header's error or gives
/// tokens whose first invalid header is that one.
proof fn lemma_lex_after_bad(s: Seq<char>, pos: int, line: nat, acc: Seq<(nat, SToken)>, b: SpecError)
    requires
        bad_header_from(acc, 0) == Some(b),
    ensures
        lex_mode(s, pos, line, acc, false) matches Ok(t) ==> bad_header_from(t, 0) == Some(b),
        lex_mode(s, pos, line, acc, false) matches Err(e) ==> e == b,
    decreases s.len() - pos,
{
    if pos < 0 || pos >= s.len() {
    } else {
        let eol = crate::lexer::find_lf(s, pos);
        crate::lexer::lemma_find_lf_bounds(s, pos);
        if crate::lexer::has_null(s, pos, eol) {
        } else {
            let pe = crate::lexer::phys_end(s, pos, eol);
            let lead = crate::lexer::skip_ws(s, pos, pe);
            let ns = crate::lexer::next_start(s, eol);
            if lead == pe {
                lemma_bad_push(acc, (line, SToken::Blank), 0);
                lemma_lex_after_bad(s, ns, line + 1, acc.push((line, SToken::Blank)), b);
            } else if s[lead] == '#' {
                lemma_bad_push(acc, (line, SToken::Comment), 0);
                lemma_lex_after_bad(s, ns, line + 1, acc.push((line, SToken::Comment)), b);
            } else if s[lead] == ':' {
                match classify(s, pos, crate::lexer::find_hash(s, pos, pe), line, false) {
                    Err(e) => {},
                    Ok(t) => {
                        lemma_bad_push(acc, (line, t), 0);
                        lemma_lex_after_bad(s, ns, line + 1, acc.push((line, t)), b);
                    },
                }
            } else {
                match parse_record(s, pos, line, Seq::empty()) {
                    Err(e) => {},
                    Ok((cells, np, nl)) => {
                        crate::lexer::lemma_parse_record_bounds(s, pos, line, Seq::empty());
                        let x = (line, SToken::Row { cells });
                        lemma_bad_push(acc, x, 0);
                        lemma_lex_after_bad(s, np, nl, acc.push(x), b);
                    },
                }
            }
        }
    }
}

/// Strict lexing and tolerant lexing from the same point: when strict lexing succeeds,
/// both give the same tokens; when it fails, tolerant lexing fails the same way or gives
/// tokens whose first invalid header is what stopped strict lexing.
proof fn lemma_lex_modes(s: Seq<char>, pos: int, line: nat, acc: Seq<(nat, SToken)>)
    requires
        bad_header_from(acc, 0) is None,
    ensures
        lex_mode(s, pos, line, acc, true) is Ok ==> lex_mode(s, pos, line, acc, false) == lex_mode(
            s,
            pos,
            line,
            acc,
            true,
        ),
        lex_mode(s, pos, line, acc, true) matches Err(e) ==> (lex_mode(s, pos, line, acc, false)
            == Err::<Seq<(nat, SToken)>, SpecError>(e) || (lex_mode(s, pos, line, acc, false) matches Ok(t)
            && bad_header_from(t, 0) == Some(e))),
    decreases s.len() - pos,
{
    if pos < 0 || pos >= s.len() {
    } else {
        let eol = crate::lexer::find_lf(s, pos);
        crate::lexer::lemma_find_lf_bounds(s, pos);
        if crate::lexer::has_null(s, pos, eol) {
        } else {
            let pe = crate::lexer::phys_end(s, pos, eol);
            let lead = crate::lexer::skip_ws(s, pos, pe);
            let ns = crate::lexer::next_start(s, eol);
            if lead == pe {
                lemma_bad_push(acc, (line, SToken::Blank), 0);
                lemma_lex_modes(s, ns, line + 1, acc.push((line, SToken::Blank)));
            } else if s[lead] == '#' {
                lemma_bad_push(acc, (line, SToken::Comment), 0);
                lemma_lex_modes(s, ns, line + 1, acc.push((line, SToken::Comment)));
            } else if s[lead] == ':' {
                let h = crate::lexer::find_hash(s, pos, pe);
                lemma_classify_modes(s, pos, h, line);
                match classify(s, pos, h, line, true) {
                    Ok(t) => {
                        lemma_bad_push(acc, (line, t), 0);
                        lemma_lex_modes(s, ns, line + 1, acc.push((line, t)));
                    },
                    Err(e) => {
                        match classify(s, pos, h, line, false) {
                            Err(_) => {},
                            Ok(t) => {
                                lemma_bad_push(acc, (line, t), 0);
                                lemma_lex_after_bad(s, ns, line + 1, acc.push((line, t)), e);
                            },
                        }
                    },
                }
            } else {
                match parse_record(s, pos, line, Seq::empty()) {
                    Err(e) => {},
                    Ok((cells, np, nl)) => {
                        crate::lexer::lemma_parse_record_bounds(s, pos, line, Seq::empty());
                        let x = (line, SToken::Row { cells });
                        lemma_bad_push(acc, x, 0);
                        lemma_lex_modes(s, np, nl, acc.push(x));
                    },
                }
            }
        }
    }
}

/// Strict lexing of a whole input against the tolerant lexing that collection uses.
pub proof fn lemma_strict_lexing(s: Seq<char>)
    ensures
        spec_lex_strict(s) is Ok ==> spec_lex(s) == spec_lex_strict(s),
        spec_lex_strict(s) matches Err(e) ==> (spec_lex(s) == Err::<Seq<(nat, SToken)>, SpecError>(e)
            || (spec_lex(s) matches Ok(t) && bad_header_from(t, 0) == Some(e)
            && e is InvalidSectionName)),
        spec_lex(s) matches Ok(t) && bad_header_from(t, 0) is None ==> spec_lex_strict(s) == spec_lex(s),
{
    if !(s.len() > 0 && s[0] == '\u{feff}') {
        lemma_lex_modes(s, 0, 1, Seq::empty());
        match spec_lex(s) {
            Ok(t) => {
                lemma_bad_kind(t, 0);
            },
            Err(_) => {},
        }
    }
}


// ---------------------------------------------------------------------------
// An invalid header is always reported by collection
// ---------------------------------------------------------------------------

proof fn lemma_bad_index(t: Seq<(nat, SToken)>, i: int) -> (k: int)
    requires
        0 <= i,
        bad_header_from(t, i) is Some,
    ensures
        i <= k < t.len(),
        bad_header(t[k]) is Some,
        bad_header_from(t, i) == bad_header(t[k]),
        forall|j: int| i <= j < k ==> bad_header(#[trigger] t[j]) is None,
    decreases t.len() - i,
{
    if bad_header(t[i]) is Some {
        i
    } else {
        lemma_bad_index(t, i + 1)
    }
}

/// The root has been declared exactly when collection has left its first state, and no
/// section is made before that.
spec fn root_inv(st: CState) -> bool {
    &&& (st.state is BeforeRoot <==> st.root_array is None)
    &&& st.state is BeforeRoot ==> st.sections.len() == 0
}

spec fn names_valid(secs: Seq<SSection>) -> bool {
    forall|i: int| 0 <= i < secs.len() ==> valid_section_name(#[trigger] secs[i].name)
}

/// The error `e` is in the list, or a section named `nm` with its header on line `l` exists.
spec fn reported(st: CState, e: SpecError, nm: Seq<char>, l: nat) -> bool {
    ||| st.errors.contains(e)
    ||| exists|i: int|
        0 <= i < st.sections.len() && #[trigger] st.sections[i].name == nm && st.sections[i].header_line
            == l
}

proof fn lemma_step_facts(st: CState, line: nat, tok: SToken, e: SpecError, nm: Seq<char>, l: nat)
    requires
        collect_inv(st),
        root_inv(st),
        tok matches SToken::Row { cells } ==> cells.len() > 0,
    ensures
        root_inv(collect_step(st, line, tok)),
        st.errors.is_prefix_of(collect_step(st, line, tok).errors),
        names_valid(st.sections) && bad_header((line, tok)) is None ==> names_valid(
            collect_step(st, line, tok).sections,
        ),
        reported(st, e, nm, l) ==> reported(collect_step(st, line, tok), e, nm, l),
        ({
            &&& names_valid(st.sections)
            &&& bad_header((line, tok)) == Some(e)
            &&& tok matches SToken::Header { name, .. } && name == nm
            &&& line == l
        }) ==> reported(collect_step(st, line, tok), e, nm, l),
{
    let st2 = collect_step(st, line, tok);
    lemma_collect_step(st, line, tok);
    assert(st.errors.is_prefix_of(st2.errors)) by {
        assert forall|j: int| 0 <= j < st.errors.len() implies st2.errors[j] == st.errors[j] by {}
    }
    assert(st2.sections.len() >= st.sections.len());
    assert forall|i: int| 0 <= i < st.sections.len() implies #[trigger] st2.sections[i].name
        == st.sections[i].name && st2.sections[i].header_line == st.sections[i].header_line by {}
    if st.errors.contains(e) {
        let j = choose|j: int| 0 <= j < st.errors.len() && st.errors[j] == e;
        assert(st2.errors[j] == e);
    } else if reported(st, e, nm, l) {
        let i = choose|i: int|
            0 <= i < st.sections.len() && #[trigger] st.sections[i].name == nm && st.sections[i].header_line
                == l;
        assert(st2.sections[i].name == nm);
    }
    if names_valid(st.sections) && bad_header((line, tok)) is None {
        assert forall|i: int| 0 <= i < st2.sections.len() implies valid_section_name(
            #[trigger] st2.sections[i].name,
        ) by {
            if i < st.sections.len() {
                assert(st2.sections[i].name == st.sections[i].name);
            }
        }
    }
    if names_valid(st.sections) && bad_header((line, tok)) == Some(e) && line == l {
        match tok {
            SToken::Header { name, array } => {
                if name == nm {
                    if st.state is BeforeRoot {
                        let m = crate::parser::report_missing_root(st);
                        assert(st2.errors == m.errors.push(e));
                        assert(st2.errors[m.errors.len() as int] == e);
                    } else {
                        assert(!has_section_named(st.sections, name)) by {
                            if has_section_named(st.sections, name) {
                                let i = choose|i: int| 0 <= i < st.sections.len() && #[trigger] st.sections[i].name == name;
                                assert(valid_section_name(st.sections[i].name));
                            }
                        }
                        let i = st.sections.len() as int;
                        assert(st2.sections[i].name == nm);
                    }
                }
            },
            _ => {},
        }
    }
}

proof fn lemma_upto_reports(toks: Seq<(nat, SToken)>, n: int, k: int, e: SpecError, nm: Seq<char>, l: nat)
    requires
        rows_have_cells(toks),
        0 <= n <= toks.len(),
        0 <= k < toks.len(),
        bad_header(toks[k]) == Some(e),
        toks[k].1 matches SToken::Header { name, .. } && name == nm,
        toks[k].0 == l,
        forall|j: int| 0 <= j < k ==> bad_header(#[trigger] toks[j]) is None,
    ensures
        root_inv(collect_upto(toks, n)),
        n <= k ==> names_valid(collect_upto(toks, n).sections),
        n > k ==> reported(collect_upto(toks, n), e, nm, l),
    decreases n,
{
    if n > 0 {
        lemma_upto_reports(toks, n - 1, k, e, nm, l);
        lemma_collect_upto(toks, n - 1);
        assert(toks[n - 1].1 matches SToken::Row { cells } ==> cells.len() > 0);
        lemma_step_facts(collect_upto(toks, n - 1), toks[n - 1].0, toks[n - 1].1, e, nm, l);
        if n - 1 < k {
            assert(bad_header(toks[n - 1]) is None);
            assert(bad_header((toks[n - 1].0, toks[n - 1].1)) is None);
        } else if n - 1 == k {
            assert((toks[k].0, toks[k].1) == toks[k]);
        }
    }
}

proof fn lemma_name_errors_contain(secs: Seq<SSection>, n: int, i: int)
    requires
        0 <= i < n <= secs.len(),
        !valid_section_name(secs[i].name),
    ensures
        name_errors(secs, n).contains(
            SpecError::InvalidSectionName { line: secs[i].header_line, name: secs[i].name },
        ),
    decreases n,
{
    let x = SpecError::InvalidSectionName { line: secs[i].header_line, name: secs[i].name };
    if i == n - 1 {
        assert(name_errors(secs, n).last() == x);
    } else {
        lemma_name_errors_contain(secs, n - 1, i);
        let prev = name_errors(secs, n - 1);
        let j = choose|j: int| 0 <= j < prev.len() && prev[j] == x;
        assert(name_errors(secs, n)[j] == x);
    }
}

/// Collection of tokens that hold an invalid header reports that header's error.
proof fn lemma_collect_reports(toks: Seq<(nat, SToken)>, e: SpecError)
    requires
        rows_have_cells(toks),
        bad_header_from(toks, 0) == Some(e),
    ensures
        collect_finish(collect_upto(toks, toks.len() as int)).1.contains(e),
{
    let k = lemma_bad_index(toks, 0);
    let (l, tk) = toks[k];
    let nm = match tk {
        SToken::Header { name, .. } => name,
        _ => Seq::empty(),
    };
    lemma_upto_reports(toks, toks.len() as int, k, e, nm, l);
    let st = collect_upto(toks, toks.len() as int);
    let fin = collect_finish(st);
    assert(e == SpecError::InvalidSectionName { line: l, name: nm });
    if st.errors.contains(e) {
        let j = choose|j: int| 0 <= j < st.errors.len() && st.errors[j] == e;
        assert(fin.1[j] == e);
    } else {
        let i = choose|i: int|
            0 <= i < st.sections.len() && #[trigger] st.sections[i].name == nm && st.sections[i].header_line
                == l;
        let secs = st.sections;
        lemma_name_errors_contain(secs, secs.len() as int, i);
        let ne = name_errors(secs, secs.len() as int);
        let j = choose|j: int| 0 <= j < ne.len() && ne[j] == e;
        let e2 = fin.1.subrange(0, fin.1.len() - ne.len());
        assert(fin.1[fin.1.len() - ne.len() + j] == e);
    }
}


/// When collection keeps a document and reports no error, strict lexing accepts the input
/// and gives the tokens that collection read.
pub proof fn lemma_clean_collection_lexes_strictly(s: Seq<char>)
    ensures
        spec_collect_structural(s).0 is Some && spec_collect_structural(s).1.len() == 0
            ==> spec_lex_strict(s) == spec_lex(s),
{
    lemma_strict_lexing(s);
    match spec_lex(s) {
        Err(_) => {},
        Ok(t) => {
            assert(rows_have_cells(Seq::<(nat, SToken)>::empty()));
            lemma_lex_rows(s, 0, 1, Seq::empty(), false);
            match bad_header_from(t, 0) {
                None => {},
                Some(e) => {
                    lemma_collect_reports(t, e);
                },
            }
        },
    }
}

/// When the collected document has a value, `parse` gives it.
pub proof fn lemma_parse_of_document(s: Seq<char>)
    ensures
        crate::parser::spec_parse_document(s) is Ok ==> crate::parser::spec_parse(s)
            == crate::parser::spec_parse_document(s),
{
    lemma_clean_collection_lexes_strictly(s);
}

/// What stops strict lexing, collection reports: as its only error when it is not an
/// invalid section name, among its errors when it is.
pub proof fn lemma_strict_error_collected(s: Seq<char>)
    ensures
        spec_lex_strict(s) matches Err(e) ==> spec_collect_structural(s).1.contains(e) && (!(e is InvalidSectionName)
            ==> spec_collect_structural(s) == (None::<crate::document::SDoc>, seq![e])),
{
    lemma_strict_lexing(s);
    match spec_lex_strict(s) {
        Ok(_) => {},
        Err(e) => {
            match spec_lex(s) {
                Err(e2) => {
                    assert(seq![e][0] == e);
                },
                Ok(t) => {
                    assert(rows_have_cells(Seq::<(nat, SToken)>::empty()));
                    lemma_lex_rows(s, 0, 1, Seq::empty(), false);
                    lemma_collect_reports(t, e);
                },
            }
        },
    }
}


// ---------------------------------------------------------------------------
// Comments
// ---------------------------------------------------------------------------

/// A comment line has no effect on collection: whatever the state and the line, collecting
/// a comment gives the same state back.
pub proof fn lemma_comment_no_effect(st: CState, line: nat)
    ensures
        collect_step(st, line, SToken::Comment) == st,
{
}

proof fn lemma_collect_prefix(t: Seq<(nat, SToken)>, u: Seq<(nat, SToken)>, n: int)
    requires
        0 <= n <= t.len(),
        n <= u.len(),
        forall|j: int| 0 <= j < n ==> t[j] == u[j],
    ensures
        collect_upto(t, n) == collect_upto(u, n),
    decreases n,
{
    if n > 0 {
        lemma_collect_prefix(t, u, n - 1);
    }
}

/// Taking a comment token out of the tokens changes nothing that collection keeps: after
/// the first `n` tokens, the state is the one after the first `n - 1` tokens without it.
pub proof fn lemma_comment_removed(t: Seq<(nat, SToken)>, k: int, n: int)
    requires
        0 <= k < n <= t.len(),
        t[k].1 == SToken::Comment,
    ensures
        collect_upto(t, n) == collect_upto(t.remove(k), n - 1),
    decreases n,
{
    let u = t.remove(k);
    if n == k + 1 {
        lemma_collect_prefix(t, u, k);
        lemma_comment_no_effect(collect_upto(t, k), t[k].0);
    } else {
        lemma_comment_removed(t, k, n - 1);
        assert(u[n - 2] == t[n - 1]);
    }
}

} // verus!
