//! An array of scalars, written by the encoder, reads back as the same array.
use vstd::prelude::*;

use crate::document::{SDoc, SRow, SSection};
use crate::encoder::{
    SKind, SPlan, SPlanCell, SPlanSection, SRole, all_objects, build_array_item, data_word,
    empty_section, insert_front, plan_init, plan_root, render, reserve_name, root_items,
    spec_render_cell, spec_render_scalar, values_text,
};
use crate::json::SpecJson;
use crate::lexer::{SCell, SToken, lex_from, parse_record};
use crate::parser::{CState, PState, collect_step, collect_upto};
use crate::readback::{no_nul, writable_scalar, written_cell};
use crate::resolve::{Key, build_array_rows, path_ok};
use crate::roundtrip::{is_scalar, opens_data_line};

verus! {

/// Items the encoder writes one per line so that each reads back: writable scalars whose
/// lines the lexer takes for data.
pub open spec fn items_writable(arr: Seq<SpecJson>) -> bool {
    forall|i: int|
        0 <= i < arr.len() ==> writable_scalar(#[trigger] arr[i]) && opens_data_line(spec_render_scalar(arr[i]))
}

pub open spec fn value_cells(arr: Seq<SpecJson>) -> Seq<SPlanCell> {
    arr.map_values(|x: SpecJson| SPlanCell::Value(x))
}

proof fn lemma_root_scalar_items(p: SPlan, arr: Seq<SpecJson>, j: int, sec: SPlanSection, base: Seq<char>)
    requires
        0 <= j <= arr.len(),
        forall|i: int| 0 <= i < arr.len() ==> is_scalar(#[trigger] arr[i]),
    ensures
        root_items(p, arr, j, sec, base) == insert_front(
            p,
            SPlanSection { values: sec.values + value_cells(arr).subrange(j, arr.len() as int), ..sec },
        ),
    decreases arr.len() - j,
{
    if j < arr.len() {
        assert(is_scalar(arr[j]));
        assert(build_array_item(p, arr[j], base) == (p, SPlanCell::Value(arr[j])));
        let sec2 = SPlanSection { values: sec.values.push(SPlanCell::Value(arr[j])), ..sec };
        lemma_root_scalar_items(p, arr, j + 1, sec2, base);
        assert(sec2.values + value_cells(arr).subrange(j + 1, arr.len() as int) =~= sec.values + value_cells(
            arr,
        ).subrange(j, arr.len() as int));
    } else {
        assert(sec.values + value_cells(arr).subrange(j, arr.len() as int) =~= sec.values);
    }
}

spec fn head_text() -> Seq<char> {
    seq![':', 'r', 'o', 'o', 't', '[', ']', '\n', ':', 'd', 'a', 't', 'a', '[', ']', '\n']
}

/// The encoder writes an array of scalars as a root array section, one item per line.
proof fn lemma_array_text(arr: Seq<SpecJson>)
    requires
        forall|i: int| 0 <= i < arr.len() ==> is_scalar(#[trigger] arr[i]),
    ensures
        render(plan_root(SpecJson::Array(arr))) == head_text() + values_text(value_cells(arr), arr.len() as int),
{
    let dw = data_word();
    assert(crate::encoder::sanitise(dw) =~= dw) by {
        assert(crate::lexer::is_ascii_alpha(dw[0]));
        assert(crate::lexer::is_name_char(dw[1]));
        assert(crate::lexer::is_name_char(dw[2]));
        assert(crate::lexer::is_name_char(dw[3]));
    }
    let (p0, r) = reserve_name(plan_init(), dw);
    assert(r == dw);
    let p1 = SPlan { root_array: true, ..p0 };
    if arr.len() > 0 {
        assert(!all_objects(arr)) by {
            assert(is_scalar(arr[0]));
            assert(!crate::encoder::is_object(arr[0]));
        }
    }
    let sec0 = empty_section(dw, SKind::Array, SRole::PrimitiveArray, false);
    lemma_root_scalar_items(p1, arr, 0, sec0, dw);
    let sec = SPlanSection { values: sec0.values + value_cells(arr).subrange(0, arr.len() as int), ..sec0 };
    assert(sec.values =~= value_cells(arr));
    let p = plan_root(SpecJson::Array(arr));
    assert(p == insert_front(p1, sec));
    assert(p.sections =~= seq![sec]);
    assert(crate::encoder::sections_text(p.sections, 0) =~= Seq::<char>::empty());
    assert(crate::encoder::sections_text(p.sections, 1) =~= crate::encoder::render_section(sec));
    assert(render(p) =~= head_text() + values_text(value_cells(arr), arr.len() as int));
}

/// The lines of items `i..k`.
pub(crate) open spec fn values_tail(vals: Seq<SPlanCell>, i: int, k: int) -> Seq<char>
    decreases k - i,
{
    if i < 0 || i >= k {
        Seq::empty()
    } else {
        spec_render_cell(vals[i]) + seq!['\n'] + values_tail(vals, i + 1, k)
    }
}

pub(crate) proof fn lemma_values_split(vals: Seq<SPlanCell>, i: int, k: int)
    requires
        0 <= i <= k,
    ensures
        values_text(vals, k) == values_text(vals, i) + values_tail(vals, i, k),
    decreases k - i,
{
    if i < k {
        lemma_values_split(vals, i + 1, k);
        assert(values_text(vals, i + 1) == values_text(vals, i) + spec_render_cell(vals[i]) + seq!['\n']);
        assert(values_text(vals, k) =~= values_text(vals, i) + values_tail(vals, i, k));
    } else {
        assert(values_tail(vals, i, k) =~= Seq::<char>::empty());
        assert(values_text(vals, k) =~= values_text(vals, i) + Seq::<char>::empty());
    }
}

proof fn lemma_values_no_nul(arr: Seq<SpecJson>, k: int)
    requires
        0 <= k <= arr.len(),
        items_writable(arr),
    ensures
        no_nul(values_text(value_cells(arr), k)),
    decreases k,
{
    if k > 0 {
        lemma_values_no_nul(arr, k - 1);
        let a = values_text(value_cells(arr), k - 1);
        assert(writable_scalar(arr[k - 1]));
        crate::readback::lemma_scalar_text(arr[k - 1]);
        let b = spec_render_scalar(arr[k - 1]);
        assert(value_cells(arr)[k - 1] == SPlanCell::Value(arr[k - 1]));
        let t = values_text(value_cells(arr), k);
        assert(t == a + b + seq!['\n']);
        assert forall|i: int| 0 <= i < t.len() implies #[trigger] t[i] != '\0' by {
            if i < a.len() {
                assert(t[i] == a[i]);
            } else if i < a.len() + b.len() {
                assert(t[i] == b[i - a.len()]);
            }
        }
    }
}

/// One item line, through the lexer.
pub(crate) proof fn lemma_item_line(s: Seq<char>, pre: Seq<char>, x: SpecJson, post: Seq<char>, line: nat, acc: Seq<(nat, SToken)>) -> (r: nat)
    requires
        s == pre + spec_render_scalar(x) + seq!['\n'] + post,
        no_nul(s),
        writable_scalar(x),
        opens_data_line(spec_render_scalar(x)),
    ensures
        lex_from(s, pre.len() as int, line, acc) == lex_from(
            s,
            (pre.len() + spec_render_scalar(x).len() + 1) as int,
            r,
            acc.push((line, (SToken::Row { cells: seq![written_cell(x)] }))),
        ),
{
    let t = spec_render_scalar(x);
    crate::readback::lemma_scalar_field_reads(x);
    crate::readback::lemma_scalar_text(x);
    let texts = seq![t];
    let cells = seq![written_cell(x)];
    assert(crate::encoder::join_comma(texts) == t);
    assert forall|i: int| 0 <= i < texts.len() implies crate::readback::field_reads(#[trigger] texts[i], cells[i]) by {}
    crate::readback::lemma_record(texts, cells, pre, post, line, Seq::empty());
    assert(Seq::<SCell>::empty() + cells =~= cells);
    assert(s[pre.len() as int] == t[0]);
    crate::roundtrip::lemma_data_line(s, pre.len() as int, line, acc);
    parse_record(s, pre.len() as int, line, Seq::empty())->Ok_0.2
}

proof fn lemma_item_at(arr: Seq<SpecJson>, s: Seq<char>, i: int)
    requires
        s == head_text() + values_text(value_cells(arr), arr.len() as int),
        0 <= i < arr.len(),
    ensures
        s == (head_text() + values_text(value_cells(arr), i)) + spec_render_scalar(arr[i]) + seq!['\n']
            + values_tail(value_cells(arr), i + 1, arr.len() as int),
        values_text(value_cells(arr), i + 1).len() == values_text(value_cells(arr), i).len()
            + spec_render_scalar(arr[i]).len() + 1,
{
    let vals = value_cells(arr);
    let k = arr.len() as int;
    lemma_values_split(vals, i, k);
    assert(vals[i] == SPlanCell::Value(arr[i]));
    assert(values_tail(vals, i, k) == spec_render_scalar(arr[i]) + seq!['\n'] + values_tail(vals, i + 1, k));
    assert(values_text(vals, i + 1) == values_text(vals, i) + spec_render_scalar(arr[i]) + seq!['\n']);
    assert(s =~= (head_text() + values_text(vals, i)) + spec_render_scalar(arr[i]) + seq!['\n'] + values_tail(
        vals,
        i + 1,
        k,
    ));
}

proof fn lemma_values_end(arr: Seq<SpecJson>, s: Seq<char>)
    requires
        s == head_text() + values_text(value_cells(arr), arr.len() as int),
    ensures
        16 + values_text(value_cells(arr), arr.len() as int).len() == s.len(),
{
}

pub(crate) proof fn lemma_prefix_toks(t: Seq<(nat, SToken)>, a: Seq<(nat, SToken)>, b: Seq<(nat, SToken)>)
    requires
        a.len() <= b.len() <= t.len(),
        t.subrange(0, b.len() as int) == b,
        b.subrange(0, a.len() as int) == a,
    ensures
        t.subrange(0, a.len() as int) == a,
        forall|i: int| 0 <= i < b.len() ==> t[i] == b[i],
{
    assert forall|i: int| 0 <= i < b.len() implies t[i] == b[i] by {
        assert(t.subrange(0, b.len() as int)[i] == t[i]);
    }
    assert(t.subrange(0, a.len() as int) =~= a) by {
        assert forall|i: int| 0 <= i < a.len() implies t.subrange(0, a.len() as int)[i] == a[i] by {
            assert(b.subrange(0, a.len() as int)[i] == b[i]);
        }
    }
}

#[verifier::spinoff_prover]
#[verifier::rlimit(50)]
proof fn lemma_lex_values(arr: Seq<SpecJson>, s: Seq<char>, i: int, line: nat, acc: Seq<(nat, SToken)>) -> (toks: Seq<(nat, SToken)>)
    requires
        s == head_text() + values_text(value_cells(arr), arr.len() as int),
        0 <= i <= arr.len(),
        items_writable(arr),
        no_nul(s),
        acc.len() == 2 + i,
    ensures
        lex_from(s, (16 + values_text(value_cells(arr), i).len()) as int, line, acc) == Ok::<
            Seq<(nat, SToken)>,
            crate::error::SpecError,
        >(toks),
        toks.len() == 2 + arr.len(),
        toks.subrange(0, acc.len() as int) == acc,
        forall|j: int|
            i <= j < arr.len() ==> toks[2 + j].1 == (SToken::Row { cells: seq![written_cell(#[trigger] arr[j])] }),
    decreases arr.len() - i,
{
    let k = arr.len() as int;
    if i == k {
        lemma_values_end(arr, s);
        assert(acc.subrange(0, acc.len() as int) =~= acc);
        acc
    } else {
        lemma_item_at(arr, s, i);
        let pre = head_text() + values_text(value_cells(arr), i);
        let x = arr[i];
        assert(writable_scalar(x) && opens_data_line(spec_render_scalar(x)));
        let l2 = lemma_item_line(s, pre, x, values_tail(value_cells(arr), i + 1, k), line, acc);
        let acc2 = acc.push((line, SToken::Row { cells: seq![written_cell(x)] }));
        let toks = lemma_lex_values(arr, s, i + 1, l2, acc2);
        assert(acc2.subrange(0, acc.len() as int) =~= acc);
        lemma_prefix_toks(toks, acc, acc2);
        toks
    }
}

spec fn root_arr_w() -> Seq<char> {
    seq![':', 'r', 'o', 'o', 't', '[', ']']
}

spec fn data_arr_w() -> Seq<char> {
    seq![':', 'd', 'a', 't', 'a', '[', ']']
}

/// The two head lines: the array root and the root array section.
proof fn lemma_array_head(s: Seq<char>, post: Seq<char>)
    requires
        s == head_text() + post,
    ensures
        lex_from(s, 0, 1, Seq::empty()) == lex_from(
            s,
            16,
            3,
            seq![
                (1nat, SToken::Root { array: true }),
                (2nat, SToken::Header { name: data_word(), array: true }),
            ],
        ),
{
    let nl = seq!['\n'];
    let rest1 = data_arr_w() + nl + post;
    assert(s =~= Seq::<char>::empty() + root_arr_w() + nl + rest1);
    crate::roundtrip::lemma_struct_line(Seq::empty(), root_arr_w(), rest1, 1, Seq::empty());
    assert(root_arr_w().drop_first() =~= crate::lexer::root_array_word());
    assert(root_arr_w().drop_first() != crate::lexer::root_word()) by {
        assert(root_arr_w().drop_first().len() != crate::lexer::root_word().len());
    }
    let acc1 = Seq::<(nat, SToken)>::empty().push((1nat, SToken::Root { array: true }));
    let pre2 = root_arr_w() + nl;
    assert(s =~= pre2 + data_arr_w() + nl + post);
    crate::roundtrip::lemma_struct_line(pre2, data_arr_w(), post, 2, acc1);
    let rest = data_arr_w().drop_first();
    assert(rest != crate::lexer::root_word()) by {
        assert(rest.len() != crate::lexer::root_word().len());
    }
    assert(rest != crate::lexer::root_array_word()) by {
        assert(rest[0] != crate::lexer::root_array_word()[0]);
    }
    assert(rest.subrange(0, rest.len() - 2) =~= data_word());
    assert(crate::lexer::valid_section_name(data_word())) by {
        let dw = data_word();
        assert(crate::lexer::is_name_char(dw[1]));
        assert(crate::lexer::is_name_char(dw[2]));
        assert(crate::lexer::is_name_char(dw[3]));
    }
    assert(acc1.push((2nat, SToken::Header { name: data_word(), array: true })) =~= seq![
        (1nat, SToken::Root { array: true }),
        (2nat, SToken::Header { name: data_word(), array: true }),
    ]);
}

/// The collected rows of the root array section after `i` items.
spec fn rows_upto(toks: Seq<(nat, SToken)>, arr: Seq<SpecJson>, i: int) -> Seq<SRow> {
    Seq::new(i as nat, |j: int| SRow { line: toks[2 + j].0, cells: seq![written_cell(arr[j])] })
}

spec fn array_state(toks: Seq<(nat, SToken)>, arr: Seq<SpecJson>, i: int) -> CState {
    CState {
        root_array: Some(true),
        sections: seq![
            SSection {
                name: data_word(),
                array: true,
                header_line: toks[1].0,
                header: Seq::empty(),
                rows: rows_upto(toks, arr, i),
            },
        ],
        state: PState::InSection(0),
        prev_array_idx: None,
        prev_array_blank_line: None,
        missing_root_reported: false,
        errors: Seq::empty(),
    }
}

proof fn lemma_array_collect(toks: Seq<(nat, SToken)>, arr: Seq<SpecJson>, i: int)
    requires
        toks.len() == 2 + arr.len(),
        toks[0].1 == (SToken::Root { array: true }),
        toks[1].1 == (SToken::Header { name: data_word(), array: true }),
        forall|j: int| 0 <= j < arr.len() ==> toks[2 + j].1 == (SToken::Row { cells: seq![written_cell(#[trigger] arr[j])] }),
        items_writable(arr),
        0 <= i <= arr.len(),
    ensures
        collect_upto(toks, 2 + i) == array_state(toks, arr, i),
    decreases i,
{
    if i == 0 {
        let st0 = crate::parser::cstate_init();
        assert(collect_upto(toks, 0) == st0);
        let st1 = collect_upto(toks, 1);
        assert(st1 == collect_step(st0, toks[0].0, toks[0].1));
        let st2 = collect_upto(toks, 2);
        assert(st2 == collect_step(st1, toks[1].0, toks[1].1));
        assert(!crate::parser::has_section_named(st1.sections, data_word()));
        assert(rows_upto(toks, arr, 0) =~= Seq::<SRow>::empty());
        assert(st2.sections =~= array_state(toks, arr, 0).sections);
    } else {
        lemma_array_collect(toks, arr, i - 1);
        let st = array_state(toks, arr, i - 1);
        let x = arr[i - 1];
        assert(toks[2 + (i - 1)].1 == SToken::Row { cells: seq![written_cell(x)] });
        let c = written_cell(x);
        assert(writable_scalar(x));
        assert(!crate::lexer::scell_is_empty_unquoted(c)) by {
            crate::readback::lemma_scalar_text(x);
            match x {
                SpecJson::Str(t) => {
                    if !crate::encoder::spec_needs_quoting(t) {
                        assert(t.len() > 0);
                    }
                },
                _ => {},
            }
        }
        let st2 = collect_upto(toks, 2 + i);
        assert(st2 == collect_step(st, toks[1 + i].0, toks[1 + i].1));
        assert(rows_upto(toks, arr, i - 1).push(SRow { line: toks[1 + i].0, cells: seq![c] }) =~= rows_upto(
            toks,
            arr,
            i,
        ));
        assert(st2.sections =~= array_state(toks, arr, i).sections);
    }
}

spec fn array_doc(toks: Seq<(nat, SToken)>, arr: Seq<SpecJson>) -> SDoc {
    SDoc { root_array: true, sections: array_state(toks, arr, arr.len() as int).sections }
}

proof fn lemma_array_rows(
    toks: Seq<(nat, SToken)>,
    arr: Seq<SpecJson>,
    path: Seq<Key>,
    vis: Seq<bool>,
    ri: int,
)
    requires
        items_writable(arr),
        0 <= ri <= arr.len(),
    ensures
        build_array_rows(array_doc(toks, arr), Seq::empty(), path, vis, 0, ri, arr.subrange(0, ri)) == (
            Ok::<SpecJson, crate::error::SpecError>(SpecJson::Array(arr)),
            vis,
        ),
    decreases arr.len() - ri,
{
    let d = array_doc(toks, arr);
    let sec = d.sections[0];
    if ri < arr.len() {
        let x = arr[ri];
        let row = sec.rows[ri];
        assert(row == SRow { line: toks[2 + ri].0, cells: seq![written_cell(x)] });
        assert(writable_scalar(x));
        crate::readback::lemma_written_cell_value(x, d, Seq::empty(), path, vis, row.line);
        assert(!crate::lexer::scell_is_empty_unquoted(written_cell(x))) by {
            crate::readback::lemma_scalar_text(x);
            match x {
                SpecJson::Str(t) => {
                    if !crate::encoder::spec_needs_quoting(t) {
                        assert(t.len() > 0);
                    }
                },
                _ => {},
            }
        }
        assert(arr.subrange(0, ri).push(x) =~= arr.subrange(0, ri + 1));
        lemma_array_rows(toks, arr, path, vis, ri + 1);
    } else {
        assert(arr.subrange(0, ri) =~= arr);
    }
}

/// An array of scalars, written by the encoder, is read back by the parser as the same
/// array, when each item is a writable scalar whose line the lexer takes for data.
#[verifier::spinoff_prover]
#[verifier::rlimit(100)]
pub proof fn lemma_scalar_array_round_trip(arr: Seq<SpecJson>)
    requires
        items_writable(arr),
    ensures
        crate::encoder::spec_encode(SpecJson::Array(arr)) matches Ok(t) && crate::parser::spec_parse(t)
            == Ok::<SpecJson, crate::error::SpecError>(SpecJson::Array(arr)),
        crate::json::json_equiv(SpecJson::Array(arr), SpecJson::Array(arr)),
{
    assert forall|i: int| 0 <= i < arr.len() implies is_scalar(#[trigger] arr[i]) by {
        assert(writable_scalar(arr[i]));
    }
    lemma_array_text(arr);
    let k = arr.len() as int;
    let s = head_text() + values_text(value_cells(arr), k);
    assert(render(plan_root(SpecJson::Array(arr))) == s);
    lemma_values_no_nul(arr, k);
    let vt = values_text(value_cells(arr), k);
    assert(no_nul(s)) by {
        assert forall|i: int| 0 <= i < s.len() implies #[trigger] s[i] != '\0' by {
            if i >= 16 {
                assert(s[i] == vt[i - 16]);
            }
        }
    }
    lemma_array_head(s, vt);
    let acc2 = seq![
        (1nat, SToken::Root { array: true }),
        (2nat, SToken::Header { name: data_word(), array: true }),
    ];
    assert(values_text(value_cells(arr), 0) =~= Seq::<char>::empty());
    let toks = lemma_lex_values(arr, s, 0, 3, acc2);
    assert(s[0] == ':');
    assert(crate::lexer::spec_lex(s) == Ok::<Seq<(nat, SToken)>, crate::error::SpecError>(toks));
    assert(toks[0] == acc2[0] && toks[1] == acc2[1]) by {
        assert(toks.subrange(0, 2)[0] == toks[0]);
        assert(toks.subrange(0, 2)[1] == toks[1]);
    }
    lemma_array_collect(toks, arr, k);
    let d = array_doc(toks, arr);
    assert(crate::parser::name_errors(d.sections, 0) =~= Seq::<crate::error::SpecError>::empty());
    assert(crate::lexer::valid_section_name(data_word())) by {
        let dw = data_word();
        assert(crate::lexer::is_name_char(dw[1]));
        assert(crate::lexer::is_name_char(dw[2]));
        assert(crate::lexer::is_name_char(dw[3]));
    }
    assert(crate::parser::name_errors(d.sections, 1) =~= Seq::<crate::error::SpecError>::empty());
    assert(crate::parser::spec_collect_structural(s) == (Some(d), Seq::<crate::error::SpecError>::empty()));
    // the pk index is empty
    assert(crate::parser::pk_sections(d.sections, 0) == (
        Seq::<(Seq<char>, nat, nat)>::empty(),
        Seq::<crate::error::SpecError>::empty(),
    ));
    assert(crate::parser::spec_pk_collect(d.sections) == crate::parser::pk_sections(d.sections, 0));
    // resolution
    let pe = Seq::<Key>::empty();
    assert(pe.no_duplicates());
    assert(path_ok(d.sections, pe));
    let key = Key::Sec(0);
    assert(!pe.contains(key));
    crate::resolve::lemma_path_push(d.sections, pe, key);
    let vis0 = Seq::new(1, |i: int| false);
    let vis1 = vis0.update(0, true);
    assert(vis1.update(0, true) =~= vis1);
    assert(arr.subrange(0, 0) =~= Seq::<SpecJson>::empty());
    lemma_array_rows(toks, arr, pe.push(key), vis1, 0);
    assert(crate::resolve::resolve_root(d, Seq::empty(), vis0) == (
        Ok::<SpecJson, crate::error::SpecError>(SpecJson::Array(arr)),
        vis1,
    ));
    assert(crate::resolve::first_unvisited(vis1, 1) is None);
    assert(crate::resolve::first_unvisited(vis1, 0) is None);
    crate::collection::lemma_parse_of_document(s);
    assert forall|k: int| 0 <= k < arr.len() implies !((#[trigger] arr[k]) is Object) && !(arr[k] is Array) by {
        assert(writable_scalar(arr[k]));
    }
    crate::json::lemma_equiv_refl_shallow(SpecJson::Array(arr));
}

} // verus!
