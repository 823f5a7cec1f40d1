//! What the encoder writes into a cell reads back, through the lexer and resolution, as
//! the value it was written from.
use vstd::prelude::*;
use vstd::pervasive::arbitrary;

use crate::document::SDoc;
use crate::encoder::{
    escape_quotes, has_csv_special, header_needs_quoting, join_comma, spec_csv_field_header, spec_needs_quoting,
    spec_quote_csv, spec_render_scalar,
};
use crate::json::{SpecJson, digit_run, json_trim, scan_json_number, spec_json_number};
use crate::lexer::{
    SCell, back_ws, is_ws, parse_field, parse_record, scan_quoted, scell_text, skip_ws, unquoted_end,
};
use crate::resolve::{Key, Pk, cell_value};

verus! {

// ---------------------------------------------------------------------------
// Texts the lexer keeps as they are
// ---------------------------------------------------------------------------

/// No null character.
pub open spec fn no_nul(t: Seq<char>) -> bool {
    forall|i: int| 0 <= i < t.len() ==> #[trigger] t[i] != '\0'
}

/// No carriage return directly followed by a line feed (inside quotes the pair reads as
/// one line feed).
pub open spec fn no_crlf(t: Seq<char>) -> bool {
    forall|i: int| 0 <= i < t.len() - 1 ==> !(#[trigger] t[i] == '\r' && t[i + 1] == '\n')
}

/// What may follow a field on its line: nothing, a comma, or the end of the line.
pub open spec fn field_follow(post: Seq<char>) -> bool {
    post.len() == 0 || post[0] == ',' || post[0] == '\n'
}

/// A scalar JSON value whose number text, if any, is as `serde_json` keeps it, and whose
/// string, if any, has no null character and no CR-LF pair.
pub open spec fn writable_scalar(v: SpecJson) -> bool {
    match v {
        SpecJson::Null => true,
        SpecJson::Bool(_) => true,
        SpecJson::Number(n) => spec_json_number(n) == Some(n),
        SpecJson::Str(s) => no_nul(s) && no_crlf(s),
        _ => false,
    }
}

/// The cell the lexer makes of the text the encoder writes for a scalar.
pub open spec fn written_cell(v: SpecJson) -> SCell {
    match v {
        SpecJson::Str(s) => if spec_needs_quoting(s) {
            SCell::Quoted(s)
        } else {
            SCell::Unquoted(s)
        },
        _ => SCell::Unquoted(spec_render_scalar(v)),
    }
}

/// The cell the lexer makes of the text the encoder writes for a column name.
pub open spec fn written_header_cell(k: Seq<char>) -> SCell {
    if header_needs_quoting(k) {
        SCell::Quoted(k)
    } else {
        SCell::Unquoted(k)
    }
}

// ---------------------------------------------------------------------------
// Quoted fields
// ---------------------------------------------------------------------------

proof fn lemma_escape_first(t: Seq<char>)
    requires
        t.len() > 0,
    ensures
        escape_quotes(t) == (if t[0] == '"' {
            seq!['"', '"']
        } else {
            seq![t[0]]
        }) + escape_quotes(t.drop_first()),
    decreases t.len(),
{
    if t.len() == 1 {
        assert(t.drop_first() =~= Seq::<char>::empty());
        assert(t.drop_last() =~= Seq::<char>::empty());
        assert(escape_quotes(Seq::<char>::empty()) =~= Seq::<char>::empty());
        if t[0] == '"' {
            assert(escape_quotes(t) =~= seq!['"', '"']);
        } else {
            assert(escape_quotes(t) =~= seq![t[0]]);
        }
    } else {
        let u = t.drop_last();
        lemma_escape_first(u);
        assert(u.drop_first() =~= t.drop_first().drop_last());
        assert(t.drop_first().last() == t.last());
        assert(u[0] == t[0]);
        let head = if t[0] == '"' {
            seq!['"', '"']
        } else {
            seq![t[0]]
        };
        if t.last() == '"' {
            assert(escape_quotes(t) =~= head + escape_quotes(t.drop_first()));
        } else {
            assert(escape_quotes(t) =~= head + escape_quotes(t.drop_first()));
        }
    }
}

proof fn lemma_escape_len(t: Seq<char>)
    ensures
        escape_quotes(t).len() >= t.len(),
        t.len() > 0 ==> escape_quotes(t).len() > 0 && escape_quotes(t)[0] == t[0],
    decreases t.len(),
{
    if t.len() > 0 {
        lemma_escape_first(t);
        lemma_escape_len(t.drop_first());
    }
}

/// The number of line feeds in `t`.
pub open spec fn lf_count(t: Seq<char>) -> nat
    decreases t.len(),
{
    if t.len() == 0 {
        0
    } else {
        (if t[0] == '\n' {
            1nat
        } else {
            0nat
        }) + lf_count(t.drop_first())
    }
}

/// Scanning the escaped text of `t` and its closing quote gives `t` back.
proof fn lemma_scan_escaped(
    pre: Seq<char>,
    t: Seq<char>,
    post: Seq<char>,
    line: nat,
    content: Seq<char>,
)
    requires
        no_nul(t),
        no_crlf(t),
        post.len() == 0 || post[0] != '"',
    ensures
        ({
            let s = pre + escape_quotes(t) + seq!['"'] + post;
            scan_quoted(s, pre.len() as int, line, content) matches Ok((c, k, l)) && c == content + t
                && k == pre.len() + escape_quotes(t).len() + 1 && l == line + lf_count(t)
        }),
    decreases t.len(),
{
    let s = pre + escape_quotes(t) + seq!['"'] + post;
    let i = pre.len() as int;
    if t.len() == 0 {
        assert(escape_quotes(t) =~= Seq::<char>::empty());
        assert(s[i] == '"');
        if i + 1 < s.len() {
            assert(s[i + 1] == post[0]);
        }
        assert(content + t =~= content);
    } else {
        lemma_escape_first(t);
        let c0 = t[0];
        let rest = t.drop_first();
        let head = if c0 == '"' {
            seq!['"', '"']
        } else {
            seq![c0]
        };
        let pre2 = pre + head;
        assert(s =~= pre2 + escape_quotes(rest) + seq!['"'] + post);
        assert forall|k: int| 0 <= k < rest.len() implies #[trigger] rest[k] != '\0' by {
            assert(rest[k] == t[k + 1]);
        }
        assert forall|k: int| 0 <= k < rest.len() - 1 implies !(#[trigger] rest[k] == '\r' && rest[k
            + 1] == '\n') by {
            assert(rest[k] == t[k + 1]);
            assert(rest[k + 1] == t[k + 2]);
        }
        assert(t[0] != '\0');
        assert(s[i] == c0);
        lemma_escape_len(rest);
        if c0 == '"' {
            assert(s[i + 1] == '"');
            lemma_scan_escaped(pre2, rest, post, line, content.push('"'));
            assert(content.push('"') + rest =~= content + t);
        } else if c0 == '\n' {
            lemma_scan_escaped(pre2, rest, post, line + 1, content.push('\n'));
            assert(content.push('\n') + rest =~= content + t);
        } else if c0 == '\r' {
            // the next character is not a line feed
            if rest.len() > 0 {
                assert(t[1] != '\n');
                assert(s[i + 1] == escape_quotes(rest)[0]);
                assert(rest[0] == t[1]);
            } else {
                assert(s[i + 1] == '"');
            }
            lemma_scan_escaped(pre2, rest, post, line, content.push('\r'));
            assert(content.push('\r') + rest =~= content + t);
        } else {
            lemma_scan_escaped(pre2, rest, post, line, content.push(c0));
            assert(content.push(c0) + rest =~= content + t);
        }
    }
}

/// A string quoted as the encoder quotes it, then a line feed, reads back as a quoted field
/// holding the string; the record ends after the line feed, and the line count grows by
/// the line feeds inside the string and the one after it.
pub proof fn lemma_quoted_field_reads_back(t: Seq<char>, line: nat)
    requires
        no_nul(t),
        no_crlf(t),
    ensures
        ({
            let s = spec_quote_csv(t) + seq!['\n'];
            parse_field(s, 0, line) == Ok::<(SCell, int, nat, bool), crate::error::SpecError>(
                (SCell::Quoted(t), s.len() as int, line + lf_count(t) + 1, true),
            )
        }),
{
    let s = spec_quote_csv(t) + seq!['\n'];
    let pre = seq!['"'];
    let post = seq!['\n'];
    assert(s =~= pre + escape_quotes(t) + seq!['"'] + post);
    lemma_scan_escaped(pre, t, post, line, Seq::empty());
    assert(Seq::<char>::empty() + t =~= t);
    assert(s[0] == '"');
    let k = escape_quotes(t).len() as int + 2;
    assert(s.len() == k + 1);
    assert(s[k] == '\n');
}

// ---------------------------------------------------------------------------
// Unquoted fields
// ---------------------------------------------------------------------------

/// Free of the characters that end or change an unquoted field.
pub open spec fn bare_safe(t: Seq<char>) -> bool {
    &&& t.len() > 0
    &&& !is_ws(t[0])
    &&& !is_ws(t.last())
    &&& t[0] != '"'
    &&& forall|i: int|
        0 <= i < t.len() ==> #[trigger] t[i] != ',' && t[i] != '\n' && t[i] != '\r' && t[i] != '\0'
}

proof fn lemma_unquoted_end(pre: Seq<char>, t: Seq<char>, post: Seq<char>)
    requires
        forall|i: int|
            0 <= i < t.len() ==> #[trigger] t[i] != ',' && t[i] != '\n' && t[i] != '\r',
        field_follow(post),
    ensures
        unquoted_end(pre + t + post, pre.len() as int) == pre.len() + t.len(),
    decreases t.len(),
{
    let s = pre + t + post;
    if t.len() == 0 {
        assert(t =~= Seq::<char>::empty());
        if post.len() > 0 {
            assert(s[pre.len() as int] == post[0]);
        }
    } else {
        let pre2 = pre.push(t[0]);
        let rest = t.drop_first();
        assert(s =~= pre2 + rest + post);
        assert(s[pre.len() as int] == t[0]);
        assert forall|i: int| 0 <= i < rest.len() implies #[trigger] rest[i] != ',' && rest[i] != '\n'
            && rest[i] != '\r' by {
            assert(rest[i] == t[i + 1]);
        }
        lemma_unquoted_end(pre2, rest, post);
    }
}

/// The field that a bare text makes, read at its start.
proof fn lemma_bare_field(pre: Seq<char>, t: Seq<char>, post: Seq<char>, line: nat)
    requires
        bare_safe(t),
        field_follow(post),
    ensures
        ({
            let s = pre + t + post;
            parse_field(s, pre.len() as int, line) matches Ok((c, np, _, end)) && c == SCell::Unquoted(t)
                && np == pre.len() + t.len() + (if post.len() > 0 {
                1int
            } else {
                0int
            }) && end == (post.len() == 0 || post[0] == '\n')
        }),
{
    let s = pre + t + post;
    let pos = pre.len() as int;
    let j = pos + t.len();
    assert(s[pos] == t[0]);
    assert(skip_ws(s, pos, s.len() as int) == pos);
    lemma_unquoted_end(pre, t, post);
    assert(!crate::lexer::has_null(s, pos, j)) by {
        if crate::lexer::has_null(s, pos, j) {
            let k = choose|k: int| pos <= k < j && s[k] == '\0';
            assert(s[k] == t[k - pos]);
        }
    }
    assert(skip_ws(s, pos, j) == pos);
    assert(s[j - 1] == t.last());
    assert(back_ws(s, pos, j) == j);
    assert(s.subrange(pos, j) =~= t);
    if post.len() > 0 {
        assert(s[j] == post[0]);
    }
}

// ---------------------------------------------------------------------------
// Numbers as `serde_json` keeps them
// ---------------------------------------------------------------------------

pub open spec fn number_char(c: char) -> bool {
    ('0' <= c && c <= '9') || c == '-' || c == '+' || c == '.' || c == 'e' || c == 'E'
}

proof fn lemma_digit_run(t: Seq<char>, i: int)
    requires
        0 <= i,
    ensures
        i <= digit_run(t, i),
        digit_run(t, i) <= t.len() || digit_run(t, i) == i,
        forall|k: int| i <= k < digit_run(t, i) ==> '0' <= #[trigger] t[k] && t[k] <= '9',
    decreases t.len() - i,
{
    if 0 <= i < t.len() && '0' <= t[i] && t[i] <= '9' {
        lemma_digit_run(t, i + 1);
    }
}

/// A number text that `serde_json` keeps as it is consists of number characters only.
proof fn lemma_number_chars(n: Seq<char>)
    requires
        spec_json_number(n) == Some(n),
    ensures
        n.len() > 0,
        forall|i: int| 0 <= i < n.len() ==> number_char(#[trigger] n[i]),
{
    let t = json_trim(n);
    let i0: int = if t.len() > 0 && t[0] == '-' {
        1
    } else {
        0
    };
    lemma_digit_run(t, i0);
    let i1 = digit_run(t, i0);
    let frac = i1 < t.len() && t[i1] == '.';
    lemma_digit_run(t, i1 + 1);
    let i2 = if frac {
        digit_run(t, i1 + 1)
    } else {
        i1
    };
    assert(forall|k: int| 0 <= k < i2 ==> number_char(#[trigger] t[k]));
    if i2 == t.len() {
        assert(scan_json_number(t) == Some(t));
    } else {
        let signed = i2 + 1 < t.len() && (t[i2 + 1] == '+' || t[i2 + 1] == '-');
        let d0 = if signed {
            i2 + 2
        } else {
            i2 + 1
        };
        lemma_digit_run(t, d0);
        let d1 = digit_run(t, d0);
        let sign = if signed {
            t[i2 + 1]
        } else {
            '+'
        };
        let out = t.subrange(0, i2) + seq!['e', sign] + t.subrange(d0, d1);
        assert(n == out);
        assert forall|i: int| 0 <= i < n.len() implies number_char(#[trigger] n[i]) by {
            if i < i2 {
                assert(n[i] == t[i]);
            } else if i >= i2 + 2 {
                assert(n[i] == t[d0 + i - i2 - 2]);
            }
        }
    }
}

pub(crate) proof fn lemma_number_is_bare(n: Seq<char>)
    requires
        spec_json_number(n) == Some(n),
    ensures
        bare_safe(n),
        n[0] != '@',
{
    lemma_number_chars(n);
    assert(number_char(n[0]));
    assert(number_char(n[n.len() - 1]));
    assert forall|i: int| 0 <= i < n.len() implies #[trigger] n[i] != ',' && n[i] != '\n' && n[i]
        != '\r' && n[i] != '\0' by {
        assert(number_char(n[i]));
    }
}

// ---------------------------------------------------------------------------
// The laws
// ---------------------------------------------------------------------------

/// A scalar the encoder writes into a cell reads back as the same scalar: the lexer makes
/// one field of its text (followed by nothing, a comma or a line end), and that cell
/// resolves to the value, whatever the document around it.
pub proof fn lemma_scalar_reads_back(
    v: SpecJson,
    pre: Seq<char>,
    post: Seq<char>,
    line: nat,
    d: SDoc,
    pk: Pk,
    path: Seq<Key>,
    vis: Seq<bool>,
)
    requires
        writable_scalar(v),
        field_follow(post),
    ensures
        ({
            let text = spec_render_scalar(v);
            let s = pre + text + post;
            parse_field(s, pre.len() as int, line) matches Ok((c, np, _, end)) && np == pre.len()
                + text.len() + (if post.len() > 0 {
                1int
            } else {
                0int
            }) && end == (post.len() == 0 || post[0] == '\n') && c == written_cell(v) && cell_value(
                d,
                pk,
                path,
                vis,
                c,
                line,
            ) == (Ok::<Option<SpecJson>, crate::error::SpecError>(Some(v)), vis)
        }),
{
    let text = spec_render_scalar(v);
    let s = pre + text + post;
    match v {
        SpecJson::Str(st) => {
            if spec_needs_quoting(st) {
                let q = spec_quote_csv(st);
                assert(text == q);
                let pre1 = pre.push('"');
                assert(s =~= pre1 + escape_quotes(st) + seq!['"'] + post);
                if post.len() > 0 {
                    assert(post[0] != '"');
                }
                lemma_scan_escaped(pre1, st, post, line, Seq::empty());
                assert(s[pre.len() as int] == '"');
                assert(skip_ws(s, pre.len() as int, s.len() as int) == pre.len());
                let k: int = (pre.len() + escape_quotes(st).len() + 2) as int;
                assert(k == pre.len() + text.len());
                if post.len() > 0 {
                    assert(s[k] == post[0]);
                }
                assert(skip_ws(s, k, s.len() as int) == k);
                assert(Seq::<char>::empty() + st =~= st);
            } else {
                assert(text == st);
                assert forall|i: int| 0 <= i < st.len() implies #[trigger] st[i] != ',' && st[i] != '\n'
                    && st[i] != '\r' && st[i] != '\0' by {
                    if st[i] == ',' {
                        assert(st.contains(','));
                    }
                    if st[i] == '\n' {
                        assert(st.contains('\n'));
                    }
                    if st[i] == '\r' {
                        assert(st.contains('\r'));
                    }
                }
                assert(st[0] != '"') by {
                    if st[0] == '"' {
                        assert(st.contains('"'));
                    }
                }
                lemma_bare_field(pre, st, post, line);
            }
        },
        SpecJson::Number(n) => {
            lemma_number_is_bare(n);
            lemma_bare_field(pre, n, post, line);
            assert(n != crate::resolve::word_true()) by {
                if n == crate::resolve::word_true() {
                    assert(number_char(n[0]));
                }
            }
            assert(n != crate::resolve::word_false()) by {
                if n == crate::resolve::word_false() {
                    assert(number_char(n[0]));
                }
            }
            assert(n != crate::resolve::word_null()) by {
                if n == crate::resolve::word_null() {
                    assert(number_char(n[0]));
                }
            }
            assert(n != crate::resolve::word_empty_array());
        },
        SpecJson::Bool(b) => {
            let w = if b {
                crate::resolve::word_true()
            } else {
                crate::resolve::word_false()
            };
            assert(text == w);
            assert(bare_safe(w));
            lemma_bare_field(pre, w, post, line);
        },
        SpecJson::Null => {
            assert(bare_safe(crate::resolve::word_null()));
            lemma_bare_field(pre, crate::resolve::word_null(), post, line);
        },
        _ => {},
    }
}

/// A column name written into a table header reads back as the same name, when it has no
/// space or tab at either end, no null character and no CR-LF pair.
pub proof fn lemma_header_reads_back(key: Seq<char>, pre: Seq<char>, post: Seq<char>, line: nat)
    requires
        key.len() == 0 || (!is_ws(key[0]) && !is_ws(key.last())),
        no_nul(key),
        no_crlf(key),
        field_follow(post),
    ensures
        ({
            let text = spec_csv_field_header(key);
            let s = pre + text + post;
            parse_field(s, pre.len() as int, line) matches Ok((c, np, _, end)) && np == pre.len()
                + text.len() + (if post.len() > 0 {
                1int
            } else {
                0int
            }) && end == (post.len() == 0 || post[0] == '\n') && scell_text(c) == key && c
                == written_header_cell(key)
        }),
{
    let text = spec_csv_field_header(key);
    let s = pre + text + post;
    if header_needs_quoting(key) {
        let pre1 = pre.push('"');
        assert(s =~= pre1 + escape_quotes(key) + seq!['"'] + post);
        if post.len() > 0 {
            assert(post[0] != '"');
        }
        lemma_scan_escaped(pre1, key, post, line, Seq::empty());
        assert(s[pre.len() as int] == '"');
        assert(skip_ws(s, pre.len() as int, s.len() as int) == pre.len());
        let k: int = (pre.len() + escape_quotes(key).len() + 2) as int;
        if post.len() > 0 {
            assert(s[k] == post[0]);
        }
        assert(skip_ws(s, k, s.len() as int) == k);
        assert(Seq::<char>::empty() + key =~= key);
    } else if key.len() == 0 {
        let pos = pre.len() as int;
        assert(s =~= pre + post);
        lemma_unquoted_end(pre, key, post);
        if post.len() > 0 {
            assert(s[pos] == post[0]);
        }
        assert(skip_ws(s, pos, s.len() as int) == pos);
        assert(!crate::lexer::has_null(s, pos, pos));
        assert(s.subrange(pos, pos) =~= key);
    } else {
        assert forall|i: int| 0 <= i < key.len() implies #[trigger] key[i] != ',' && key[i] != '\n'
            && key[i] != '\r' && key[i] != '\0' by {
            if key[i] == ',' {
                assert(key.contains(','));
            }
            if key[i] == '\n' {
                assert(key.contains('\n'));
            }
            if key[i] == '\r' {
                assert(key.contains('\r'));
            }
        }
        assert(key[0] != '"') by {
            if key[0] == '"' {
                assert(key.contains('"'));
            }
        }
        lemma_bare_field(pre, key, post, line);
    }
}

// ---------------------------------------------------------------------------
// Records
// ---------------------------------------------------------------------------

proof fn lemma_join_first(parts: Seq<Seq<char>>)
    requires
        parts.len() >= 2,
    ensures
        join_comma(parts) == parts[0] + seq![','] + join_comma(parts.drop_first()),
    decreases parts.len(),
{
    if parts.len() > 2 {
        lemma_join_first(parts.drop_last());
        assert(parts.drop_last().drop_first() =~= parts.drop_first().drop_last());
        assert(parts.drop_first().last() == parts.last());
        assert(parts.drop_last()[0] == parts[0]);
        assert(join_comma(parts) =~= parts[0] + seq![','] + join_comma(parts.drop_first()));
    } else {
        assert(parts.drop_last() =~= seq![parts[0]]);
        assert(parts.drop_first() =~= seq![parts[1]]);
        assert(join_comma(parts.drop_last()) == parts[0]);
        assert(join_comma(parts.drop_first()) == parts[1]);
    }
}

/// A line of scalars, written with commas between them, reads back as their cells.
pub proof fn lemma_value_record(
    vals: Seq<SpecJson>,
    pre: Seq<char>,
    post: Seq<char>,
    line: nat,
    acc: Seq<SCell>,
)
    requires
        vals.len() > 0,
        forall|i: int| 0 <= i < vals.len() ==> writable_scalar(#[trigger] vals[i]),
    ensures
        ({
            let text = join_comma(vals.map_values(|v: SpecJson| spec_render_scalar(v)));
            let s = pre + text + seq!['\n'] + post;
            parse_record(s, pre.len() as int, line, acc) matches Ok((cells, np, _)) && cells == acc
                + vals.map_values(|v: SpecJson| written_cell(v)) && np == pre.len() + text.len() + 1
        }),
    decreases vals.len(),
{
    let parts = vals.map_values(|v: SpecJson| spec_render_scalar(v));
    let text = join_comma(parts);
    let s = pre + text + seq!['\n'] + post;
    let pos = pre.len() as int;
    assert(writable_scalar(vals[0]));
    if vals.len() == 1 {
        assert(text == parts[0]);
        let post1 = seq!['\n'] + post;
        assert(s =~= pre + parts[0] + post1);
        lemma_scalar_reads_back(vals[0], pre, post1, line, arbitrary(), arbitrary(), arbitrary(), arbitrary());
        assert(acc.push(written_cell(vals[0])) =~= acc + vals.map_values(|v: SpecJson| written_cell(v)));
    } else {
        lemma_join_first(parts);
        let rest = vals.drop_first();
        assert(parts.drop_first() =~= rest.map_values(|v: SpecJson| spec_render_scalar(v)));
        let text2 = join_comma(parts.drop_first());
        let post1 = seq![','] + text2 + seq!['\n'] + post;
        assert(s =~= pre + parts[0] + post1);
        lemma_scalar_reads_back(vals[0], pre, post1, line, arbitrary(), arbitrary(), arbitrary(), arbitrary());
        let c = written_cell(vals[0]);
        let pf = parse_field(s, pos, line);
        let nl = pf->Ok_0.2;
        let pre2 = pre + parts[0] + seq![','];
        assert(s =~= pre2 + text2 + seq!['\n'] + post);
        assert forall|i: int| 0 <= i < rest.len() implies writable_scalar(#[trigger] rest[i]) by {
            assert(rest[i] == vals[i + 1]);
        }
        lemma_value_record(rest, pre2, post, nl, acc.push(c));
        assert(acc.push(c) + rest.map_values(|v: SpecJson| written_cell(v)) =~= acc + vals.map_values(
            |v: SpecJson| written_cell(v),
        ));
    }
}

/// A column name the encoder can write so that it reads back: no space or tab at either end,
/// no null character, no CR-LF pair.
pub open spec fn writable_key(k: Seq<char>) -> bool {
    &&& (k.len() == 0 || (!is_ws(k[0]) && !is_ws(k.last())))
    &&& no_nul(k)
    &&& no_crlf(k)
}

/// A header line of column names reads back as the names.
pub proof fn lemma_header_record(
    keys: Seq<Seq<char>>,
    pre: Seq<char>,
    post: Seq<char>,
    line: nat,
    acc: Seq<SCell>,
)
    requires
        keys.len() > 0,
        forall|i: int| 0 <= i < keys.len() ==> writable_key(#[trigger] keys[i]),
    ensures
        ({
            let text = join_comma(keys.map_values(|k: Seq<char>| spec_csv_field_header(k)));
            let s = pre + text + seq!['\n'] + post;
            parse_record(s, pre.len() as int, line, acc) matches Ok((cells, np, _)) && cells == acc
                + keys.map_values(|k: Seq<char>| written_header_cell(k)) && np == pre.len() + text.len()
                + 1
        }),
    decreases keys.len(),
{
    let parts = keys.map_values(|k: Seq<char>| spec_csv_field_header(k));
    let text = join_comma(parts);
    let s = pre + text + seq!['\n'] + post;
    let pos = pre.len() as int;
    assert(writable_key(keys[0]));
    if keys.len() == 1 {
        assert(text == parts[0]);
        let post1 = seq!['\n'] + post;
        assert(s =~= pre + parts[0] + post1);
        lemma_header_reads_back(keys[0], pre, post1, line);
        assert(acc.push(written_header_cell(keys[0])) =~= acc + keys.map_values(
            |k: Seq<char>| written_header_cell(k),
        ));
    } else {
        lemma_join_first(parts);
        let rest = keys.drop_first();
        assert(parts.drop_first() =~= rest.map_values(|k: Seq<char>| spec_csv_field_header(k)));
        let text2 = join_comma(parts.drop_first());
        let post1 = seq![','] + text2 + seq!['\n'] + post;
        assert(s =~= pre + parts[0] + post1);
        lemma_header_reads_back(keys[0], pre, post1, line);
        let c = written_header_cell(keys[0]);
        let pf = parse_field(s, pos, line);
        let nl = pf->Ok_0.2;
        let pre2 = pre + parts[0] + seq![','];
        assert(s =~= pre2 + text2 + seq!['\n'] + post);
        assert forall|i: int| 0 <= i < rest.len() implies writable_key(#[trigger] rest[i]) by {
            assert(rest[i] == keys[i + 1]);
        }
        lemma_header_record(rest, pre2, post, nl, acc.push(c));
        assert(acc.push(c) + rest.map_values(|k: Seq<char>| written_header_cell(k)) =~= acc
            + keys.map_values(|k: Seq<char>| written_header_cell(k)));
    }
}

// ---------------------------------------------------------------------------
// Facts about written texts
// ---------------------------------------------------------------------------

proof fn lemma_escape_no_nul(t: Seq<char>)
    requires
        no_nul(t),
    ensures
        no_nul(escape_quotes(t)),
    decreases t.len(),
{
    if t.len() > 0 {
        assert forall|i: int| 0 <= i < t.drop_last().len() implies #[trigger] t.drop_last()[i] != '\0' by {
            assert(t.drop_last()[i] == t[i]);
        }
        lemma_escape_no_nul(t.drop_last());
        let e = escape_quotes(t);
        let e0 = escape_quotes(t.drop_last());
        assert(t.last() != '\0');
        assert forall|i: int| 0 <= i < e.len() implies #[trigger] e[i] != '\0' by {
            if i < e0.len() {
                assert(e[i] == e0[i]);
            }
        }
    }
}

/// The text written for a scalar is not empty, holds no null character, and starts with
/// neither a space, a tab, nor a line break.
pub(crate) proof fn lemma_scalar_text(v: SpecJson)
    requires
        writable_scalar(v),
    ensures
        spec_render_scalar(v).len() > 0,
        no_nul(spec_render_scalar(v)),
        !is_ws(spec_render_scalar(v)[0]),
        spec_render_scalar(v)[0] != '\n' && spec_render_scalar(v)[0] != '\r',
{
    let t = spec_render_scalar(v);
    match v {
        SpecJson::Str(st) => {
            if spec_needs_quoting(st) {
                lemma_escape_no_nul(st);
                let e = escape_quotes(st);
                assert forall|i: int| 0 <= i < t.len() implies #[trigger] t[i] != '\0' by {
                    if 0 < i < t.len() - 1 {
                        assert(t[i] == e[i - 1]);
                    }
                }
            } else {
                assert(st[0] != '\n') by {
                    if st[0] == '\n' {
                        assert(st.contains('\n'));
                    }
                }
                assert(st[0] != '\r') by {
                    if st[0] == '\r' {
                        assert(st.contains('\r'));
                    }
                }
            }
        },
        SpecJson::Number(n) => {
            lemma_number_is_bare(n);
        },
        SpecJson::Bool(b) => {},
        SpecJson::Null => {},
        _ => {},
    }
}

/// The text written for a column name holds no null character, and, when not empty,
/// starts with neither a space, a tab, nor a line break.
pub(crate) proof fn lemma_key_text(k: Seq<char>)
    requires
        writable_key(k),
    ensures
        no_nul(spec_csv_field_header(k)),
        spec_csv_field_header(k).len() > 0 ==> !is_ws(spec_csv_field_header(k)[0])
            && spec_csv_field_header(k)[0] != '\n' && spec_csv_field_header(k)[0] != '\r',
{
    let t = spec_csv_field_header(k);
    if header_needs_quoting(k) {
        lemma_escape_no_nul(k);
        let e = escape_quotes(k);
        assert forall|i: int| 0 <= i < t.len() implies #[trigger] t[i] != '\0' by {
            if 0 < i < t.len() - 1 {
                assert(t[i] == e[i - 1]);
            }
        }
    } else if k.len() > 0 {
        assert(k[0] != '\n') by {
            if k[0] == '\n' {
                assert(k.contains('\n'));
            }
        }
        assert(k[0] != '\r') by {
            if k[0] == '\r' {
                assert(k.contains('\r'));
            }
        }
    }
}

/// Parts joined by commas: no null character if the parts have none, and the first
/// character is that of the first part, or the first comma.
pub(crate) proof fn lemma_join_text(parts: Seq<Seq<char>>)
    requires
        forall|i: int| 0 <= i < parts.len() ==> no_nul(#[trigger] parts[i]),
    ensures
        no_nul(join_comma(parts)),
        parts.len() > 0 && parts[0].len() > 0 ==> join_comma(parts).len() > 0 && join_comma(parts)[0]
            == parts[0][0],
        parts.len() > 1 && parts[0].len() == 0 ==> join_comma(parts).len() > 0 && join_comma(parts)[0]
            == ',',
    decreases parts.len(),
{
    if parts.len() > 1 {
        let init = parts.drop_last();
        assert forall|i: int| 0 <= i < init.len() implies no_nul(#[trigger] init[i]) by {
            assert(init[i] == parts[i]);
        }
        lemma_join_text(init);
        assert(no_nul(parts.last()));
        let j = join_comma(parts);
        let j0 = join_comma(init);
        assert(j == j0 + seq![','] + parts.last());
        assert forall|i: int| 0 <= i < j.len() implies #[trigger] j[i] != '\0' by {
            if i < j0.len() {
                assert(j[i] == j0[i]);
            } else if i > j0.len() {
                assert(j[i] == parts.last()[i - j0.len() - 1]);
            }
        }
        assert(init[0] == parts[0]);
        if parts[0].len() == 0 {
            if init.len() == 1 {
                assert(j0 == init[0]);
                assert(j[0] == ',');
            } else {
                assert(j[0] == j0[0]);
            }
        } else {
            assert(j[0] == j0[0]);
        }
    } else if parts.len() == 1 {
        assert(no_nul(parts[0]));
    } else {
        assert(join_comma(parts) =~= Seq::<char>::empty());
    }
}

/// The cell written for a scalar resolves to the scalar, whatever the document around it.
pub(crate) proof fn lemma_written_cell_value(
    v: SpecJson,
    d: SDoc,
    pk: Pk,
    path: Seq<Key>,
    vis: Seq<bool>,
    line: nat,
)
    requires
        writable_scalar(v),
    ensures
        cell_value(d, pk, path, vis, written_cell(v), line) == (
            Ok::<Option<SpecJson>, crate::error::SpecError>(Some(v)),
            vis,
        ),
{
    lemma_scalar_reads_back(v, Seq::empty(), Seq::empty(), line, d, pk, path, vis);
}

// ---------------------------------------------------------------------------
// Fields and records in general
// ---------------------------------------------------------------------------

/// The text `text`, standing as a field between anything before it and a comma, a line
/// end or the end of the input after it, makes the cell `cell`.
pub open spec fn field_reads(text: Seq<char>, cell: SCell) -> bool {
    forall|pre: Seq<char>, post: Seq<char>, line: nat|
        field_follow(post) ==> (#[trigger] parse_field(pre + text + post, pre.len() as int, line) matches Ok(
            (c, np, _, end),
        ) && c == cell && np == pre.len() + text.len() + (if post.len() > 0 {
            1int
        } else {
            0int
        }) && end == (post.len() == 0 || post[0] == '\n'))
}

pub(crate) proof fn lemma_scalar_field_reads(v: SpecJson)
    requires
        writable_scalar(v),
    ensures
        field_reads(spec_render_scalar(v), written_cell(v)),
{
    assert forall|pre: Seq<char>, post: Seq<char>, line: nat| field_follow(post) implies (#[trigger] parse_field(
        pre + spec_render_scalar(v) + post,
        pre.len() as int,
        line,
    ) matches Ok((c, np, _, end)) && c == written_cell(v) && np == pre.len() + spec_render_scalar(v).len()
        + (if post.len() > 0 {
        1int
    } else {
        0int
    }) && end == (post.len() == 0 || post[0] == '\n')) by {
        lemma_scalar_reads_back(v, pre, post, line, arbitrary(), arbitrary(), arbitrary(), arbitrary());
    }
}

pub(crate) proof fn lemma_key_field_reads(k: Seq<char>)
    requires
        writable_key(k),
    ensures
        field_reads(spec_csv_field_header(k), written_header_cell(k)),
{
    assert forall|pre: Seq<char>, post: Seq<char>, line: nat| field_follow(post) implies (#[trigger] parse_field(
        pre + spec_csv_field_header(k) + post,
        pre.len() as int,
        line,
    ) matches Ok((c, np, _, end)) && c == written_header_cell(k) && np == pre.len()
        + spec_csv_field_header(k).len() + (if post.len() > 0 {
        1int
    } else {
        0int
    }) && end == (post.len() == 0 || post[0] == '\n')) by {
        lemma_header_reads_back(k, pre, post, line);
    }
}

pub(crate) proof fn lemma_bare_field_reads(t: Seq<char>)
    requires
        bare_safe(t),
    ensures
        field_reads(t, SCell::Unquoted(t)),
{
    assert forall|pre: Seq<char>, post: Seq<char>, line: nat| field_follow(post) implies (#[trigger] parse_field(
        pre + t + post,
        pre.len() as int,
        line,
    ) matches Ok((c, np, _, end)) && c == SCell::Unquoted(t) && np == pre.len() + t.len() + (if post.len()
        > 0 {
        1int
    } else {
        0int
    }) && end == (post.len() == 0 || post[0] == '\n')) by {
        lemma_bare_field(pre, t, post, line);
    }
}

pub(crate) proof fn lemma_empty_field_reads()
    ensures
        field_reads(Seq::<char>::empty(), SCell::Unquoted(Seq::<char>::empty())),
{
    let e = Seq::<char>::empty();
    assert forall|pre: Seq<char>, post: Seq<char>, line: nat| field_follow(post) implies (#[trigger] parse_field(
        pre + e + post,
        pre.len() as int,
        line,
    ) matches Ok((c, np, _, end)) && c == SCell::Unquoted(e) && np == pre.len() + e.len() + (if post.len()
        > 0 {
        1int
    } else {
        0int
    }) && end == (post.len() == 0 || post[0] == '\n')) by {
        let s = pre + e + post;
        let pos = pre.len() as int;
        assert(s =~= pre + post);
        lemma_unquoted_end(pre, e, post);
        if post.len() > 0 {
            assert(s[pos] == post[0]);
        }
        assert(skip_ws(s, pos, s.len() as int) == pos);
        assert(!crate::lexer::has_null(s, pos, pos));
        assert(s.subrange(pos, pos) =~= e);
    }
}

/// Fields joined by commas and ended by a line feed read back as their cells.
pub(crate) proof fn lemma_record(
    texts: Seq<Seq<char>>,
    cells: Seq<SCell>,
    pre: Seq<char>,
    post: Seq<char>,
    line: nat,
    acc: Seq<SCell>,
)
    requires
        texts.len() == cells.len(),
        texts.len() > 0,
        forall|i: int| 0 <= i < texts.len() ==> field_reads(#[trigger] texts[i], cells[i]),
    ensures
        ({
            let s = pre + join_comma(texts) + seq!['\n'] + post;
            parse_record(s, pre.len() as int, line, acc) matches Ok((cs, np, _)) && cs == acc + cells
                && np == pre.len() + join_comma(texts).len() + 1
        }),
    decreases texts.len(),
{
    let text = join_comma(texts);
    let s = pre + text + seq!['\n'] + post;
    let pos = pre.len() as int;
    assert(field_reads(texts[0], cells[0]));
    if texts.len() == 1 {
        assert(text == texts[0]);
        let post1 = seq!['\n'] + post;
        assert(s =~= pre + texts[0] + post1);
        assert(field_follow(post1));
        assert(parse_field(pre + texts[0] + post1, pos, line) is Ok);
        assert(acc.push(cells[0]) =~= acc + cells);
    } else {
        lemma_join_first(texts);
        let text2 = join_comma(texts.drop_first());
        let post1 = seq![','] + text2 + seq!['\n'] + post;
        assert(s =~= pre + texts[0] + post1);
        assert(field_follow(post1));
        assert(parse_field(pre + texts[0] + post1, pos, line) is Ok);
        let pf = parse_field(s, pos, line);
        let nl = pf->Ok_0.2;
        let pre2 = pre + texts[0] + seq![','];
        assert(s =~= pre2 + text2 + seq!['\n'] + post);
        let t2 = texts.drop_first();
        let c2 = cells.drop_first();
        assert forall|i: int| 0 <= i < t2.len() implies field_reads(#[trigger] t2[i], c2[i]) by {
            assert(t2[i] == texts[i + 1]);
            assert(c2[i] == cells[i + 1]);
        }
        lemma_record(t2, c2, pre2, post, nl, acc.push(cells[0]));
        assert(acc.push(cells[0]) + c2 =~= acc + cells);
    }
}

} // verus!
