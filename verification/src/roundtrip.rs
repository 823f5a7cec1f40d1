//! An object of scalar members, written by the encoder, reads back as the same object.
use vstd::prelude::*;

use crate::encoder::{
    SKind, SPlanCell, SPlanRow, SRole, build_field_cell, build_fields, data_word, empty_section,
    find_field, merge_columns, merge_row, plan_init, plan_root, render, reserve_name, sanitise,
    spec_csv_field_header, spec_encode, spec_render_scalar,
};
use crate::document::{SDoc, SRow, SSection};
use crate::json::SpecJson;
use crate::parser::{collect_step, collect_upto, spec_collect_structural, spec_parse};
use crate::lexer::{
    SCell, SToken, back_ws, classify, find_hash, find_lf, has_null, is_ws, lemma_find_lf_bounds,
    lex_from, next_start, parse_record, phys_end, skip_ws, spec_lex,
};
use crate::resolve::{Key, Pk, build_cols, first_unvisited, path_ok, resolve_root, spec_resolve};
use crate::readback::{
    lemma_header_record, lemma_join_text, lemma_key_text, lemma_scalar_text, lemma_value_record,
    lemma_written_cell_value, no_nul, writable_key, writable_scalar, written_cell,
    written_header_cell,
};

verus! {

// ---------------------------------------------------------------------------
// The members of an object
// ---------------------------------------------------------------------------

pub open spec fn keys_of(m: Seq<(Seq<char>, SpecJson)>) -> Seq<Seq<char>> {
    m.map_values(|p: (Seq<char>, SpecJson)| p.0)
}

pub open spec fn values_of(m: Seq<(Seq<char>, SpecJson)>) -> Seq<SpecJson> {
    m.map_values(|p: (Seq<char>, SpecJson)| p.1)
}

/// No two members share a key.
pub open spec fn distinct_keys(m: Seq<(Seq<char>, SpecJson)>) -> bool {
    forall|i: int, j: int| 0 <= i < j < m.len() ==> m[i].0 != m[j].0
}

pub open spec fn is_scalar(v: SpecJson) -> bool {
    !(v is Object) && !(v is Array)
}

pub open spec fn value_fields(m: Seq<(Seq<char>, SpecJson)>) -> Seq<(Seq<char>, SPlanCell)> {
    m.map_values(|p: (Seq<char>, SpecJson)| (p.0, SPlanCell::Value(p.1)))
}

/// The text the encoder writes for an object of scalar members.
pub open spec fn flat_text(m: Seq<(Seq<char>, SpecJson)>) -> Seq<char> {
    seq![':', 'r', 'o', 'o', 't', '\n', ':', 'd', 'a', 't', 'a', '\n'] + crate::encoder::join_comma(
        keys_of(m).map_values(|k: Seq<char>| spec_csv_field_header(k)),
    ) + seq!['\n'] + crate::encoder::join_comma(
        values_of(m).map_values(|v: SpecJson| spec_render_scalar(v)),
    ) + seq!['\n']
}

// ---------------------------------------------------------------------------
// The plan and its text
// ---------------------------------------------------------------------------

pub(crate) proof fn lemma_build_scalar_fields(
    p: crate::encoder::SPlan,
    m: Seq<(Seq<char>, SpecJson)>,
    i: int,
    f: Seq<(Seq<char>, SPlanCell)>,
)
    requires
        0 <= i <= m.len(),
        forall|k: int| 0 <= k < m.len() ==> is_scalar(#[trigger] m[k].1),
    ensures
        build_fields(p, m, i, f) == (p, f + value_fields(m).subrange(i, m.len() as int)),
    decreases m.len() - i,
{
    if i < m.len() {
        assert(is_scalar(m[i].1));
        assert(build_field_cell(p, m[i].1, m[i].0) == (p, SPlanCell::Value(m[i].1)));
        lemma_build_scalar_fields(p, m, i + 1, f.push((m[i].0, SPlanCell::Value(m[i].1))));
        assert(f.push((m[i].0, SPlanCell::Value(m[i].1))) + value_fields(m).subrange(
            i + 1,
            m.len() as int,
        ) =~= f + value_fields(m).subrange(i, m.len() as int));
    } else {
        assert(f + value_fields(m).subrange(i, m.len() as int) =~= f);
    }
}

pub(crate) proof fn lemma_merge_distinct(fields: Seq<(Seq<char>, SPlanCell)>)
    requires
        forall|i: int, j: int| 0 <= i < j < fields.len() ==> fields[i].0 != fields[j].0,
    ensures
        merge_columns(Seq::empty(), fields) == fields.map_values(
            |p: (Seq<char>, SPlanCell)| p.0,
        ),
    decreases fields.len(),
{
    let keys = fields.map_values(|p: (Seq<char>, SPlanCell)| p.0);
    if fields.len() > 0 {
        let init = fields.drop_last();
        lemma_merge_distinct(init);
        let prev = init.map_values(|p: (Seq<char>, SPlanCell)| p.0);
        assert(!prev.contains(fields.last().0)) by {
            if prev.contains(fields.last().0) {
                let i = choose|i: int| 0 <= i < prev.len() && prev[i] == fields.last().0;
                assert(fields[i].0 == fields[fields.len() - 1].0);
            }
        }
        assert(prev.push(fields.last().0) =~= keys);
    } else {
        assert(keys =~= Seq::<Seq<char>>::empty());
    }
}

pub(crate) proof fn lemma_find_distinct(fields: Seq<(Seq<char>, SPlanCell)>, i: int)
    requires
        0 <= i < fields.len(),
        forall|a: int, b: int| 0 <= a < b < fields.len() ==> fields[a].0 != fields[b].0,
    ensures
        find_field(fields, fields[i].0) == Some(fields[i].1),
    decreases i,
{
    if i > 0 {
        let rest = fields.drop_first();
        assert(fields[0].0 != fields[i].0);
        assert(rest[i - 1] == fields[i]);
        assert forall|a: int, b: int| 0 <= a < b < rest.len() implies rest[a].0 != rest[b].0 by {
            assert(rest[a] == fields[a + 1]);
            assert(rest[b] == fields[b + 1]);
        }
        lemma_find_distinct(rest, i - 1);
    }
}

/// The encoder writes an object of scalar members as its header line and its one row.
proof fn lemma_flat_encode(m: Seq<(Seq<char>, SpecJson)>)
    requires
        forall|k: int| 0 <= k < m.len() ==> is_scalar(#[trigger] m[k].1),
        distinct_keys(m),
        m.len() > 0 ==> m[0].0 != crate::parser::pk_word(),
    ensures
        spec_encode(SpecJson::Object(m)) == Ok::<Seq<char>, crate::error::SpecError>(flat_text(m)),
{
    let dw = data_word();
    assert(sanitise(dw) =~= dw) by {
        assert(crate::lexer::is_ascii_alpha(dw[0]));
        assert(crate::lexer::is_name_char(dw[1]));
        assert(crate::lexer::is_name_char(dw[2]));
        assert(crate::lexer::is_name_char(dw[3]));
    }
    let (p0, root_name) = reserve_name(plan_init(), dw);
    assert(root_name == dw);
    let p1 = crate::encoder::SPlan { root_array: false, ..p0 };
    lemma_build_scalar_fields(p1, m, 0, Seq::empty());
    let fields = value_fields(m);
    assert(Seq::<(Seq<char>, SPlanCell)>::empty() + fields.subrange(0, m.len() as int) =~= fields);
    assert forall|a: int, b: int| 0 <= a < b < fields.len() implies fields[a].0 != fields[b].0 by {}
    lemma_merge_distinct(fields);
    let row = SPlanRow { pk: None, fields };
    let sec = merge_row(empty_section(dw, SKind::Table, SRole::Root, false), row);
    let keys = keys_of(m);
    assert(sec.data_columns =~= keys);
    assert(!crate::encoder::pk_first(sec)) by {
        if m.len() > 0 {
            assert(keys[0] == m[0].0);
            assert(crate::parser::pk_word() =~= seq!['p', 'k']);
        }
    }
    crate::encoder::lemma_guard_pk_off(build_fields(p1, m, 0, Seq::empty()).0, sec);
    let plan = plan_root(SpecJson::Object(m));
    assert(plan.sections =~= seq![sec]);
    assert(!plan.root_array);
    let hp = crate::encoder::header_parts(sec);
    assert(hp =~= keys.map_values(|k: Seq<char>| spec_csv_field_header(k)));
    let rp = crate::encoder::row_parts(sec, row);
    assert forall|i: int| 0 <= i < m.len() implies rp[i] == spec_render_scalar(m[i].1) by {
        lemma_find_distinct(fields, i);
    }
    assert(rp =~= values_of(m).map_values(|v: SpecJson| spec_render_scalar(v)));
    assert(sec.rows[0] == row);
    assert(crate::encoder::rows_text(sec, 0) =~= Seq::<char>::empty());
    assert(crate::encoder::rows_text(sec, 1) =~= crate::encoder::join_comma(rp) + seq!['\n']);
    assert(plan.sections[0] == sec);
    assert(crate::encoder::sections_text(plan.sections, 0) =~= Seq::<char>::empty());
    assert(crate::encoder::sections_text(plan.sections, 1) =~= crate::encoder::render_section(sec));
    assert(render(plan) =~= flat_text(m));
}

// ---------------------------------------------------------------------------
// Lines of the written text, through the lexer
// ---------------------------------------------------------------------------

proof fn lemma_find_lf_text(pre: Seq<char>, t: Seq<char>, post: Seq<char>)
    requires
        forall|k: int| 0 <= k < t.len() ==> #[trigger] t[k] != '\n',
        post.len() > 0,
        post[0] == '\n',
    ensures
        find_lf(pre + t + post, pre.len() as int) == pre.len() + t.len(),
    decreases t.len(),
{
    let s = pre + t + post;
    if t.len() == 0 {
        assert(s[pre.len() as int] == post[0]);
    } else {
        assert(s[pre.len() as int] == t[0]);
        let pre2 = pre.push(t[0]);
        assert(s =~= pre2 + t.drop_first() + post);
        assert forall|k: int| 0 <= k < t.drop_first().len() implies #[trigger] t.drop_first()[k] != '\n' by {
            assert(t.drop_first()[k] == t[k + 1]);
        }
        lemma_find_lf_text(pre2, t.drop_first(), post);
    }
}

proof fn lemma_find_hash_text(s: Seq<char>, i: int, b: int)
    requires
        0 <= i <= b <= s.len(),
        forall|k: int| i <= k < b ==> #[trigger] s[k] != '#',
    ensures
        find_hash(s, i, b) == b,
    decreases b - i,
{
    if i < b {
        lemma_find_hash_text(s, i + 1, b);
    }
}

/// The part of `classify` that reads the word after the colon.
pub(crate) open spec fn classify_rest(rest: Seq<char>, line: nat) -> Result<SToken, crate::error::SpecError> {
    if rest == crate::lexer::root_word() {
        Ok(SToken::Root { array: false })
    } else if rest == crate::lexer::root_array_word() {
        Ok(SToken::Root { array: true })
    } else if crate::lexer::root_garbage(rest) {
        Err(crate::error::SpecError::InvalidRootDeclaration { line })
    } else {
        let array = rest.len() >= 2 && rest[rest.len() - 2] == '[' && rest[rest.len() - 1] == ']';
        let name = if array {
            rest.subrange(0, rest.len() - 2)
        } else {
            rest
        };
        Ok(SToken::Header { name, array })
    }
}

/// A structural line `w` (a colon and a word) followed by a line feed.
pub(crate) proof fn lemma_struct_line(
    pre: Seq<char>,
    w: Seq<char>,
    post: Seq<char>,
    line: nat,
    acc: Seq<(nat, SToken)>,
)
    requires
        w.len() >= 2,
        w[0] == ':',
        !is_ws(w[1]),
        !is_ws(w.last()),
        forall|k: int|
            0 <= k < w.len() ==> #[trigger] w[k] != '\n' && w[k] != '\0' && w[k] != '#' && w[k]
                != '\r',
    ensures
        ({
            let s = pre + w + seq!['\n'] + post;
            lex_from(s, pre.len() as int, line, acc) == match classify_rest(w.drop_first(), line) {
                Ok(t) => lex_from(s, (pre.len() + w.len() + 1) as int, line + 1, acc.push((line, t))),
                Err(e) => Err(crate::lexer::lex_fail(acc, e, false)),
            }
        }),
{
    let s = pre + w + seq!['\n'] + post;
    let pos = pre.len() as int;
    let eol = pos + w.len();
    lemma_find_lf_text(pre, w, seq!['\n'] + post);
    assert(s =~= pre + w + (seq!['\n'] + post));
    assert forall|k: int| pos <= k < eol implies s[k] == w[k - pos] by {}
    assert(!has_null(s, pos, eol)) by {
        if has_null(s, pos, eol) {
            let k = choose|k: int| pos <= k < eol && s[k] == '\0';
            assert(w[k - pos] != '\0');
        }
    }
    assert(s[eol - 1] == w.last());
    assert(phys_end(s, pos, eol) == eol);
    assert(s[pos] == ':');
    assert(skip_ws(s, pos, eol) == pos);
    lemma_find_hash_text(s, pos, eol);
    assert(back_ws(s, pos, eol) == eol);
    assert(s[pos + 1] == w[1]);
    assert(skip_ws(s, pos + 1, eol) == pos + 1);
    assert(back_ws(s, pos + 1, eol) == eol);
    assert(s.subrange(pos + 1, eol) =~= w.drop_first());
    assert(s[eol] == '\n');
    assert(next_start(s, eol) == eol + 1);
}

pub(crate) proof fn lemma_blank_line(pre: Seq<char>, post: Seq<char>, line: nat, acc: Seq<(nat, SToken)>)
    ensures
        ({
            let s = pre + seq!['\n'] + post;
            lex_from(s, pre.len() as int, line, acc) == lex_from(
                s,
                (pre.len() + 1) as int,
                line + 1,
                acc.push((line, SToken::Blank)),
            )
        }),
{
    let s = pre + seq!['\n'] + post;
    let pos = pre.len() as int;
    assert(s[pos] == '\n');
    assert(find_lf(s, pos) == pos);
    assert(!has_null(s, pos, pos));
}

/// A data line: its first character opens a record.
pub(crate) proof fn lemma_data_line(s: Seq<char>, pos: int, line: nat, acc: Seq<(nat, SToken)>)
    requires
        0 <= pos < s.len(),
        no_nul(s),
        !is_ws(s[pos]),
        s[pos] != '\n' && s[pos] != '\r' && s[pos] != '#' && s[pos] != ':',
        parse_record(s, pos, line, Seq::empty()) is Ok,
    ensures
        ({
            let r = parse_record(s, pos, line, Seq::empty())->Ok_0;
            lex_from(s, pos, line, acc) == lex_from(
                s,
                r.1,
                r.2,
                acc.push((line, SToken::Row { cells: r.0 })),
            )
        }),
{
    lemma_find_lf_bounds(s, pos + 1);
    let eol = find_lf(s, pos);
    assert(eol == find_lf(s, pos + 1));
    assert(!has_null(s, pos, eol)) by {
        if has_null(s, pos, eol) {
            let k = choose|k: int| pos <= k < eol && s[k] == '\0';
        }
    }
    let pe = phys_end(s, pos, eol);
    assert(pe > pos);
    assert(skip_ws(s, pos, pe) == pos);
}

/// The first character of a line opens a data record.
pub open spec fn opens_data_line(t: Seq<char>) -> bool {
    t.len() > 0 && t[0] != '#' && t[0] != ':'
}

/// The header line the encoder writes for these members.
pub open spec fn header_text(m: Seq<(Seq<char>, SpecJson)>) -> Seq<char> {
    crate::encoder::join_comma(keys_of(m).map_values(|k: Seq<char>| spec_csv_field_header(k)))
}

/// The row line the encoder writes for these members.
pub open spec fn row_text(m: Seq<(Seq<char>, SpecJson)>) -> Seq<char> {
    crate::encoder::join_comma(values_of(m).map_values(|v: SpecJson| spec_render_scalar(v)))
}

/// An object of scalar members that the encoder writes so that it reads back: writable
/// values and names, distinct names, a first column not called `pk`, and lines that the
/// lexer takes for data (neither a comment nor a section header).
pub open spec fn flat_writable(m: Seq<(Seq<char>, SpecJson)>) -> bool {
    &&& forall|k: int| 0 <= k < m.len() ==> writable_scalar(#[trigger] m[k].1)
    &&& forall|k: int| 0 <= k < m.len() ==> writable_key(#[trigger] m[k].0)
    &&& distinct_keys(m)
    &&& m.len() > 0 ==> {
        &&& m[0].0 != crate::parser::pk_word()
        &&& opens_data_line(header_text(m))
        &&& opens_data_line(row_text(m))
    }
}

pub(crate) open spec fn root_w() -> Seq<char> {
    seq![':', 'r', 'o', 'o', 't']
}

spec fn data_w() -> Seq<char> {
    seq![':', 'd', 'a', 't', 'a']
}

/// The written text of a non-empty object of scalar members: no null character, and
/// lines 3 and 4 open data records.
proof fn lemma_flat_chars(m: Seq<(Seq<char>, SpecJson)>)
    requires
        flat_writable(m),
        m.len() > 0,
    ensures
        no_nul(flat_text(m)),
        header_text(m).len() > 0,
        row_text(m).len() > 0,
        !is_ws(header_text(m)[0]),
        header_text(m)[0] != '\n' && header_text(m)[0] != '\r',
        !is_ws(row_text(m)[0]),
        row_text(m)[0] != '\n' && row_text(m)[0] != '\r',
{
    let keys = keys_of(m);
    let vals = values_of(m);
    let h = header_text(m);
    let v = row_text(m);
    let s = flat_text(m);
    let hp = keys.map_values(|k: Seq<char>| spec_csv_field_header(k));
    let vp = vals.map_values(|x: SpecJson| spec_render_scalar(x));
    assert forall|i: int| 0 <= i < hp.len() implies no_nul(#[trigger] hp[i]) by {
        assert(writable_key(m[i].0));
        lemma_key_text(m[i].0);
    }
    assert forall|i: int| 0 <= i < vp.len() implies no_nul(#[trigger] vp[i]) by {
        assert(writable_scalar(m[i].1));
        lemma_scalar_text(m[i].1);
    }
    lemma_join_text(hp);
    lemma_join_text(vp);
    assert(writable_key(m[0].0));
    assert(writable_scalar(m[0].1));
    lemma_key_text(m[0].0);
    lemma_scalar_text(m[0].1);
    assert(hp[0] == spec_csv_field_header(m[0].0));
    assert(vp[0] == spec_render_scalar(m[0].1));
    let nl = seq!['\n'];
    assert(s =~= root_w() + nl + data_w() + nl + h + nl + v + nl);
    assert forall|i: int| 0 <= i < s.len() implies #[trigger] s[i] != '\0' by {
        if 12 <= i < 12 + h.len() {
            assert(s[i] == h[i - 12]);
        } else if 13 + h.len() <= i < 13 + h.len() + v.len() {
            assert(s[i] == v[i - 13 - h.len()]);
        }
    }
}

pub(crate) proof fn lemma_root_line(post: Seq<char>, acc: Seq<(nat, SToken)>)
    ensures
        lex_from(root_w() + seq!['\n'] + post, 0, 1, acc) == lex_from(
            root_w() + seq!['\n'] + post,
            6,
            2,
            acc.push((1nat, SToken::Root { array: false })),
        ),
{
    let s = root_w() + seq!['\n'] + post;
    assert(s =~= Seq::<char>::empty() + root_w() + seq!['\n'] + post);
    lemma_struct_line(Seq::empty(), root_w(), post, 1, acc);
    assert(root_w().drop_first() =~= crate::lexer::root_word());
}

proof fn lemma_data_word_line(pre: Seq<char>, post: Seq<char>, acc: Seq<(nat, SToken)>)
    requires
        pre.len() == 6,
    ensures
        lex_from(pre + data_w() + seq!['\n'] + post, 6, 2, acc) == lex_from(
            pre + data_w() + seq!['\n'] + post,
            12,
            3,
            acc.push((2nat, SToken::Header { name: data_word(), array: false })),
        ),
{
    lemma_struct_line(pre, data_w(), post, 2, acc);
    let dw = data_w().drop_first();
    assert(dw =~= data_word());
    assert(dw != crate::lexer::root_word()) by {
        assert(dw[0] != crate::lexer::root_word()[0]);
    }
    assert(dw != crate::lexer::root_array_word()) by {
        assert(dw.len() != crate::lexer::root_array_word().len());
    }
    assert(crate::lexer::valid_section_name(dw)) by {
        assert(crate::lexer::is_name_char(dw[1]));
        assert(crate::lexer::is_name_char(dw[2]));
        assert(crate::lexer::is_name_char(dw[3]));
    }
}

/// The first two lines of the written text: the root line and the section line.
#[verifier::spinoff_prover]
#[verifier::rlimit(100)]
proof fn lemma_flat_lex_head(m: Seq<(Seq<char>, SpecJson)>)
    ensures
        lex_from(flat_text(m), 0, 1, Seq::empty()) == lex_from(
            flat_text(m),
            12,
            3,
            seq![
                (1nat, SToken::Root { array: false }),
                (2nat, SToken::Header { name: data_word(), array: false }),
            ],
        ),
{
    let h = header_text(m);
    let v = row_text(m);
    let s = flat_text(m);
    let nl = seq!['\n'];
    let rest1 = data_w() + nl + h + nl + v + nl;
    assert(s =~= root_w() + nl + rest1);
    lemma_root_line(rest1, Seq::empty());
    let acc1 = Seq::<(nat, SToken)>::empty().push((1nat, SToken::Root { array: false }));
    let pre2 = root_w() + nl;
    let rest2 = h + nl + v + nl;
    assert(s =~= pre2 + data_w() + nl + rest2);
    lemma_data_word_line(pre2, rest2, acc1);
    assert(acc1.push((2nat, SToken::Header { name: data_word(), array: false })) =~= seq![
        (1nat, SToken::Root { array: false }),
        (2nat, SToken::Header { name: data_word(), array: false }),
    ]);
}

/// The last two lines of the written text of a non-empty object: header and row.
#[verifier::spinoff_prover]
proof fn lemma_flat_lex_body(m: Seq<(Seq<char>, SpecJson)>, acc: Seq<(nat, SToken)>)
    requires
        flat_writable(m),
        m.len() > 0,
    ensures
        lex_from(flat_text(m), 12, 3, acc) matches Ok(toks) && toks.len() == acc.len() + 2 && toks.subrange(
            0,
            acc.len() as int,
        ) == acc && toks[acc.len() as int].1 == (SToken::Row {
            cells: keys_of(m).map_values(|k: Seq<char>| written_header_cell(k)),
        }) && toks[(acc.len() + 1) as int].1 == (SToken::Row {
            cells: values_of(m).map_values(|v: SpecJson| written_cell(v)),
        }),
{
    let keys = keys_of(m);
    let vals = values_of(m);
    let h = header_text(m);
    let v = row_text(m);
    let s = flat_text(m);
    let nl = seq!['\n'];
    lemma_flat_chars(m);
    let pre3 = root_w() + nl + data_w() + nl;
    assert(pre3.len() == 12);
    assert(s =~= pre3 + h + nl + (v + nl));
    assert forall|i: int| 0 <= i < keys.len() implies writable_key(#[trigger] keys[i]) by {
        assert(writable_key(m[i].0));
    }
    lemma_header_record(keys, pre3, v + nl, 3, Seq::empty());
    let hc = keys.map_values(|k: Seq<char>| written_header_cell(k));
    assert(Seq::<SCell>::empty() + hc =~= hc);
    assert(s[12] == h[0]);
    lemma_data_line(s, 12, 3, acc);
    let r3 = parse_record(s, 12, 3, Seq::empty())->Ok_0;
    let acc3 = acc.push((3nat, SToken::Row { cells: hc }));
    let pre4 = pre3 + h + nl;
    assert(s =~= pre4 + v + nl + Seq::<char>::empty());
    assert forall|i: int| 0 <= i < vals.len() implies writable_scalar(#[trigger] vals[i]) by {
        assert(writable_scalar(m[i].1));
    }
    lemma_value_record(vals, pre4, Seq::empty(), r3.2, Seq::empty());
    let vc = vals.map_values(|x: SpecJson| written_cell(x));
    assert(Seq::<SCell>::empty() + vc =~= vc);
    assert(r3.1 == pre4.len());
    assert(s[pre4.len() as int] == v[0]);
    lemma_data_line(s, pre4.len() as int, r3.2, acc3);
    let r4 = parse_record(s, pre4.len() as int, r3.2, Seq::empty())->Ok_0;
    assert(r4.1 == s.len());
    let acc4 = acc3.push((r3.2, SToken::Row { cells: vc }));
    assert(lex_from(s, s.len() as int, r4.2, acc4) == Ok::<Seq<(nat, SToken)>, crate::error::SpecError>(acc4));
    assert(acc4.subrange(0, acc.len() as int) =~= acc);
}

// ---------------------------------------------------------------------------
// Collection, pk index and resolution of the written text
// ---------------------------------------------------------------------------

/// The document collected from the written text of an object of scalar members.
spec fn flat_doc(m: Seq<(Seq<char>, SpecJson)>, row_line: nat) -> SDoc {
    SDoc {
        root_array: false,
        sections: seq![
            SSection {
                name: data_word(),
                array: false,
                header_line: 2,
                header: keys_of(m),
                rows: if m.len() > 0 {
                    seq![SRow { line: row_line, cells: values_of(m).map_values(|v: SpecJson| written_cell(v)) }]
                } else {
                    Seq::empty()
                },
            },
        ],
    }
}

proof fn lemma_valid_data_word()
    ensures
        crate::lexer::valid_section_name(data_word()),
{
    let dw = data_word();
    assert(crate::lexer::is_name_char(dw[1]));
    assert(crate::lexer::is_name_char(dw[2]));
    assert(crate::lexer::is_name_char(dw[3]));
}

proof fn lemma_flat_collect(m: Seq<(Seq<char>, SpecJson)>)
    requires
        flat_writable(m),
    ensures
        exists|row_line: nat| spec_collect_structural(flat_text(m)) == (
            Some(flat_doc(m, row_line)),
            Seq::<crate::error::SpecError>::empty(),
        ),
{
    let s = flat_text(m);
    lemma_flat_lex_head(m);
    lemma_valid_data_word();
    let acc2 = seq![
        (1nat, SToken::Root { array: false }),
        (2nat, SToken::Header { name: data_word(), array: false }),
    ];
    let st0 = crate::parser::cstate_init();
    let st1 = collect_step(st0, 1, SToken::Root { array: false });
    let st2 = collect_step(st1, 2, SToken::Header { name: data_word(), array: false });
    assert(!crate::parser::has_section_named(st1.sections, data_word()));
    assert(st2.sections =~= seq![crate::parser::new_section(data_word(), false, 2)]);
    assert(s[0] == ':');
    if m.len() > 0 {
        lemma_flat_lex_body(m, acc2);
        let toks = spec_lex(s)->Ok_0;
        let hc = keys_of(m).map_values(|k: Seq<char>| written_header_cell(k));
        let vc = values_of(m).map_values(|v: SpecJson| written_cell(v));
        assert(toks[0] == acc2[0]);
        assert(toks[1] == acc2[1]);
        assert(collect_upto(toks, 0) == st0);
        assert(collect_upto(toks, 1) == st1);
        assert(collect_upto(toks, 2) == st2);
        let st3 = collect_upto(toks, 3);
        assert(st3 == collect_step(st2, toks[2].0, SToken::Row { cells: hc }));
        assert(crate::parser::header_of(hc) =~= keys_of(m)) by {
            assert forall|i: int| 0 <= i < m.len() implies crate::lexer::scell_text(#[trigger] hc[i])
                == keys_of(m)[i] by {}
        }
        let st4 = collect_upto(toks, 4);
        assert(st4 == collect_step(st3, toks[3].0, SToken::Row { cells: vc }));
        assert(st3.sections[0].header.len() > 0);
        let d = flat_doc(m, toks[3].0);
        assert(st4.sections =~= d.sections);
        assert(st4.sections[0].name == data_word());
        assert(crate::parser::name_errors(st4.sections, 0) =~= Seq::<crate::error::SpecError>::empty());
        assert(st4.errors =~= Seq::<crate::error::SpecError>::empty());
        assert(crate::parser::name_errors(st4.sections, 1) =~= Seq::<crate::error::SpecError>::empty());
        assert(spec_collect_structural(s) == (Some(d), Seq::<crate::error::SpecError>::empty()));
    } else {
        let nl = seq!['\n'];
        assert(header_text(m) =~= Seq::<char>::empty());
        assert(row_text(m) =~= Seq::<char>::empty());
        let pre3 = root_w() + nl + data_w() + nl;
        assert(s =~= pre3 + nl + nl);
        lemma_blank_line(pre3, nl, 3, acc2);
        let acc3 = acc2.push((3nat, SToken::Blank));
        assert(s =~= (pre3 + nl) + nl + Seq::<char>::empty());
        lemma_blank_line(pre3 + nl, Seq::empty(), 4, acc3);
        let acc4 = acc3.push((4nat, SToken::Blank));
        assert(lex_from(s, 14, 5, acc4) == Ok::<Seq<(nat, SToken)>, crate::error::SpecError>(acc4));
        let toks = acc4;
        assert(collect_upto(toks, 0) == st0);
        assert(collect_upto(toks, 1) == st1);
        assert(collect_upto(toks, 2) == st2);
        assert(toks[2] == (3nat, SToken::Blank));
        assert(toks[3] == (4nat, SToken::Blank));
        let st3 = collect_upto(toks, 3);
        assert(st3 == collect_step(st2, 3, SToken::Blank));
        assert(st3.sections == st2.sections);
        assert(st3.errors == st2.errors);
        let st4 = collect_upto(toks, 4);
        assert(st4 == collect_step(st3, 4, SToken::Blank));
        assert(st4 == st3);
        let d = flat_doc(m, 0);
        assert(keys_of(m) =~= Seq::<Seq<char>>::empty());
        assert(d.sections[0] == st4.sections[0]);
        assert(st4.sections =~= d.sections);
        assert(st4.sections[0].name == data_word());
        assert(crate::parser::name_errors(st4.sections, 0) =~= Seq::<crate::error::SpecError>::empty());
        assert(st4.errors =~= Seq::<crate::error::SpecError>::empty());
        assert(crate::parser::name_errors(st4.sections, 1) =~= Seq::<crate::error::SpecError>::empty());
        assert(spec_collect_structural(s) == (Some(d), Seq::<crate::error::SpecError>::empty()));
    }
}

proof fn lemma_flat_cols(
    m: Seq<(Seq<char>, SpecJson)>,
    row_line: nat,
    pk: Pk,
    path: Seq<Key>,
    vis: Seq<bool>,
    col: int,
)
    requires
        flat_writable(m),
        m.len() > 0,
        0 <= col <= m.len(),
    ensures
        build_cols(flat_doc(m, row_line), pk, path, vis, 0, 0, col, m.subrange(0, col)) == (
            Ok::<SpecJson, crate::error::SpecError>(SpecJson::Object(m)),
            vis,
        ),
    decreases m.len() - col,
{
    let d = flat_doc(m, row_line);
    let sec = d.sections[0];
    let row = sec.rows[0];
    let obj = m.subrange(0, col);
    if col < m.len() {
        assert(sec.header[col] == m[col].0);
        assert(row.cells[col] == written_cell(m[col].1));
        assert(writable_scalar(m[col].1));
        lemma_written_cell_value(m[col].1, d, pk, path, vis, row.line);
        crate::json::lemma_obj_find_first(obj, m[col].0, obj.len() as int);
        assert(crate::json::obj_insert(obj, m[col].0, m[col].1) =~= m.subrange(0, col + 1));
        lemma_flat_cols(m, row_line, pk, path, vis, col + 1);
    } else {
        assert(obj =~= m);
    }
}

proof fn lemma_flat_resolve(m: Seq<(Seq<char>, SpecJson)>, row_line: nat)
    requires
        flat_writable(m),
    ensures
        spec_resolve(flat_doc(m, row_line)) == Ok::<SpecJson, crate::error::SpecError>(SpecJson::Object(m)),
{
    let d = flat_doc(m, row_line);
    let secs = d.sections;
    assert(!crate::parser::is_pk_table(secs[0]));
    assert(crate::parser::pk_sections(secs, 0) == (
        Seq::<(Seq<char>, nat, nat)>::empty(),
        Seq::<crate::error::SpecError>::empty(),
    ));
    assert(crate::parser::spec_pk_collect(secs) == crate::parser::pk_sections(secs, 0));
    let pk = Seq::<(Seq<char>, nat, nat)>::empty();
    let vis0 = Seq::new(1, |i: int| false);
    let vis1 = vis0.update(0, true);
    if m.len() > 0 {
        let pe = Seq::<Key>::empty();
        assert(pe.no_duplicates());
        assert(path_ok(secs, pe));
        let key = Key::Row(0, 0);
        assert(!pe.contains(key));
        crate::resolve::lemma_path_push(secs, pe, key);
        assert(crate::resolve::key_valid(secs, key));
        let vis2 = vis1.update(0, true);
        assert(vis2 =~= vis1);
        assert(m.subrange(0, 0) =~= Seq::<(Seq<char>, SpecJson)>::empty());
        lemma_flat_cols(m, row_line, pk, pe.push(key), vis2, 0);
        assert(crate::resolve::res_object_row(d, pk, pe, vis1, 0, 0) == (
            Ok::<SpecJson, crate::error::SpecError>(SpecJson::Object(m)),
            vis1,
        ));
        assert(resolve_root(d, pk, vis0) == (Ok::<SpecJson, crate::error::SpecError>(SpecJson::Object(m)), vis1));
    } else {
        assert(m =~= Seq::<(Seq<char>, SpecJson)>::empty());
    }
    assert(first_unvisited(vis1, 1) is None);
    assert(first_unvisited(vis1, 0) is None);
}

// ---------------------------------------------------------------------------
// The law
// ---------------------------------------------------------------------------

/// An object whose members are all scalars, written by the encoder, is read back by the
/// parser as the same object (same members, same order), when it is `flat_writable`.
pub proof fn lemma_flat_object_round_trip(m: Seq<(Seq<char>, SpecJson)>)
    requires
        flat_writable(m),
    ensures
        spec_encode(SpecJson::Object(m)) matches Ok(t) && spec_parse(t) == Ok::<
            SpecJson,
            crate::error::SpecError,
        >(SpecJson::Object(m)),
        crate::json::json_equiv(SpecJson::Object(m), SpecJson::Object(m)),
{
    assert forall|k: int| 0 <= k < m.len() implies is_scalar(#[trigger] m[k].1) by {
        assert(writable_scalar(m[k].1));
    }
    lemma_flat_encode(m);
    lemma_flat_collect(m);
    let row_line = choose|row_line: nat| spec_collect_structural(flat_text(m)) == (
        Some(flat_doc(m, row_line)),
        Seq::<crate::error::SpecError>::empty(),
    );
    lemma_flat_resolve(m, row_line);
    crate::collection::lemma_parse_of_document(flat_text(m));
    assert forall|k: int| 0 <= k < m.len() implies !((#[trigger] m[k]).1 is Object) && !(m[k].1 is Array) by {
        assert(writable_scalar(m[k].1));
    }
    crate::json::lemma_equiv_refl_shallow(SpecJson::Object(m));
}

} // verus!
