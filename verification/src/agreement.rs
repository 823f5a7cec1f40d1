//! `parse` and `validate` walk a document the same way: what one accepts, the other
//! accepts, and the first error `validate` lists is the one `parse` stops at.
use vstd::prelude::*;

use crate::document::{SDoc, find_section_from, spec_find_section};
use crate::error::SpecError;
use crate::json::SpecJson;
use crate::lexer::{SCell, scell_is_empty_unquoted};
use crate::lexer::{SToken, spec_lex, spec_lex_strict};
use crate::collection::{lemma_strict_error_collected, lemma_strict_lexing};
use crate::parser::{
    collect_step, collect_upto, pk_lookup, pk_word, spec_collect_structural,
    spec_parse, spec_parse_document, spec_pk_collect, spec_validate,
};
use crate::resolve::{
    CRes, Key, Pk, RRes, WSt, at_text, build_array_rows, build_cols, build_table_rows, cell_value,
    key_valid, lemma_path_push, lemma_pk_lookup_valid, path_ok, pk_entries_valid,
    first_unvisited, lemma_pk_collect_valid, res_array_section, res_named_ref, res_object_row,
    res_row_ref, res_table_as_array, resolve_root, total_keys, unreachable_errors, walk_errors,
    walk_root, walk_array_rows, walk_array_section, walk_cell, walk_cols, walk_named_ref,
    walk_object_row, walk_row_ref, walk_start, walk_table_as_array, walk_table_rows,
};

verus! {

// ---------------------------------------------------------------------------
// The walk only ever appends errors
// ---------------------------------------------------------------------------

proof fn lemma_prefix_trans(a: Seq<SpecError>, b: Seq<SpecError>, c: Seq<SpecError>)
    requires
        a.is_prefix_of(b),
        b.is_prefix_of(c),
    ensures
        a.is_prefix_of(c),
{
    assert(a =~= c.subrange(0, a.len() as int)) by {
        assert forall|i: int| 0 <= i < a.len() implies a[i] == c.subrange(0, a.len() as int)[i] by {
            assert(a[i] == b.subrange(0, a.len() as int)[i]);
            assert(b[i] == c.subrange(0, b.len() as int)[i]);
        }
    }
}

proof fn lemma_prefix_push(a: Seq<SpecError>, e: SpecError)
    ensures
        a.is_prefix_of(a.push(e)),
{
    assert(a =~= a.push(e).subrange(0, a.len() as int));
}

proof fn lemma_grow_object_row(d: SDoc, pk: Pk, path: Seq<Key>, st: WSt, si: nat, ri: nat)
    requires
        st.1.len() == d.sections.len(),
    ensures
        st.0.is_prefix_of(walk_object_row(d, pk, path, st, si, ri).0),
        walk_object_row(d, pk, path, st, si, ri).1.len() == st.1.len(),
    decreases total_keys(d.sections) - path.len(), 0nat, 0int,
{
    let key = Key::Row(si, ri);
    if !path_ok(d.sections, path) || !key_valid(d.sections, key) {
        assert(st.0 =~= st.0.subrange(0, st.0.len() as int));
    } else if path.contains(key) {
        lemma_prefix_push(st.0, SpecError::CircularReference {
            reference: crate::resolve::row_ref_text(d.sections[si as int].name, ri),
        });
    } else {
        lemma_path_push(d.sections, path, key);
        let sec = d.sections[si as int];
        lemma_grow_cols(
            d,
            pk,
            path.push(key),
            (st.0, st.1.update(si as int, true)),
            si,
            ri,
            walk_start(sec),
        );
    }
}

proof fn lemma_grow_cols(d: SDoc, pk: Pk, path: Seq<Key>, st: WSt, si: nat, ri: nat, col: int)
    requires
        st.1.len() == d.sections.len(),
    ensures
        st.0.is_prefix_of(walk_cols(d, pk, path, st, si, ri, col).0),
        walk_cols(d, pk, path, st, si, ri, col).1.len() == st.1.len(),
    decreases total_keys(d.sections) - path.len(), 3nat, d.sections[si as int].header.len() - col,
{
    let sec = d.sections[si as int];
    let row = sec.rows[ri as int];
    if col < 0 || col >= sec.header.len() {
        assert(st.0 =~= st.0.subrange(0, st.0.len() as int));
    } else if col >= row.cells.len() {
        lemma_grow_cols(d, pk, path, st, si, ri, col + 1);
    } else {
        let w1 = walk_cell(d, pk, path, st, row.cells[col], row.line);
        lemma_grow_cell(d, pk, path, st, row.cells[col], row.line);
        lemma_grow_cols(d, pk, path, w1, si, ri, col + 1);
        lemma_prefix_trans(st.0, w1.0, walk_cols(d, pk, path, w1, si, ri, col + 1).0);
    }
}

proof fn lemma_grow_cell(
    d: SDoc,
    pk: Pk,
    path: Seq<Key>,
    st: WSt,
    cell: SCell,
    line: nat,
)
    requires
        st.1.len() == d.sections.len(),
    ensures
        st.0.is_prefix_of(walk_cell(d, pk, path, st, cell, line).0),
        walk_cell(d, pk, path, st, cell, line).1.len() == st.1.len(),
    decreases total_keys(d.sections) - path.len(), 2nat, 0int,
{
    assert(st.0 =~= st.0.subrange(0, st.0.len() as int));
    match cell {
        SCell::Quoted(_) => {},
        SCell::Unquoted(s) => {
            if s.len() == 0 || s == crate::resolve::word_true() || s == crate::resolve::word_false()
                || s == crate::resolve::word_null() || s == crate::resolve::word_empty_array() {
            } else if s[0] != '@' {
            } else {
                let rest = s.subrange(1, s.len() as int);
                if rest.len() > 0 && crate::resolve::all_digits(rest) {
                    lemma_grow_row_ref(d, pk, path, st, rest, line);
                } else if crate::lexer::valid_section_name(rest) {
                    lemma_grow_named_ref(d, pk, path, st, rest, line);
                } else {
                    lemma_prefix_push(st.0, SpecError::UnresolvedReference { line, reference: s });
                }
            }
        },
    }
}

proof fn lemma_grow_row_ref(d: SDoc, pk: Pk, path: Seq<Key>, st: WSt, pks: Seq<char>, line: nat)
    requires
        st.1.len() == d.sections.len(),
    ensures
        st.0.is_prefix_of(walk_row_ref(d, pk, path, st, pks, line).0),
        walk_row_ref(d, pk, path, st, pks, line).1.len() == st.1.len(),
    decreases total_keys(d.sections) - path.len(), 1nat, 0int,
{
    match pk_lookup(pk, pks) {
        None => {
            lemma_prefix_push(st.0, SpecError::UnresolvedReference {
                line,
                reference: crate::resolve::at_text(pks),
            });
        },
        Some((si, ri)) => {
            lemma_grow_object_row(d, pk, path, st, si, ri);
        },
    }
}

proof fn lemma_grow_named_ref(
    d: SDoc,
    pk: Pk,
    path: Seq<Key>,
    st: WSt,
    name: Seq<char>,
    line: nat,
)
    requires
        st.1.len() == d.sections.len(),
    ensures
        st.0.is_prefix_of(walk_named_ref(d, pk, path, st, name, line).0),
        walk_named_ref(d, pk, path, st, name, line).1.len() == st.1.len(),
    decreases total_keys(d.sections) - path.len(), 1nat, 0int,
{
    match spec_find_section(d.sections, name) {
        None => {
            lemma_prefix_push(st.0, SpecError::UnresolvedReference {
                line,
                reference: crate::resolve::at_text(name),
            });
        },
        Some(si) => {
            if d.sections[si as int].array {
                lemma_grow_array_section(d, pk, path, st, si);
            } else {
                lemma_grow_table_as_array(d, pk, path, st, si);
            }
        },
    }
}

proof fn lemma_grow_array_section(d: SDoc, pk: Pk, path: Seq<Key>, st: WSt, si: nat)
    requires
        st.1.len() == d.sections.len(),
    ensures
        st.0.is_prefix_of(walk_array_section(d, pk, path, st, si).0),
        walk_array_section(d, pk, path, st, si).1.len() == st.1.len(),
    decreases total_keys(d.sections) - path.len(), 0nat, 0int,
{
    let key = Key::Sec(si);
    if !path_ok(d.sections, path) || !key_valid(d.sections, key) {
        assert(st.0 =~= st.0.subrange(0, st.0.len() as int));
    } else if path.contains(key) {
        lemma_prefix_push(st.0, SpecError::CircularReference {
            reference: crate::resolve::at_text(d.sections[si as int].name),
        });
    } else {
        lemma_path_push(d.sections, path, key);
        lemma_grow_array_rows(d, pk, path.push(key), (st.0, st.1.update(si as int, true)), si, 0);
    }
}

proof fn lemma_grow_array_rows(d: SDoc, pk: Pk, path: Seq<Key>, st: WSt, si: nat, ri: int)
    requires
        st.1.len() == d.sections.len(),
    ensures
        st.0.is_prefix_of(walk_array_rows(d, pk, path, st, si, ri).0),
        walk_array_rows(d, pk, path, st, si, ri).1.len() == st.1.len(),
    decreases total_keys(d.sections) - path.len(), 3nat, d.sections[si as int].rows.len() - ri,
{
    let sec = d.sections[si as int];
    if ri < 0 || ri >= sec.rows.len() {
        assert(st.0 =~= st.0.subrange(0, st.0.len() as int));
    } else if sec.rows[ri].cells.len() == 0 || scell_is_empty_unquoted(sec.rows[ri].cells[0]) {
        let w1 = (st.0.push(SpecError::EmptyArrayRow { line: sec.rows[ri].line }), st.1);
        lemma_grow_array_rows(d, pk, path, w1, si, ri + 1);
        assert(st.0.is_prefix_of(w1.0)) by {
            assert(w1.0.subrange(0, st.0.len() as int) =~= st.0);
        }
        lemma_prefix_trans(st.0, w1.0, walk_array_rows(d, pk, path, w1, si, ri + 1).0);
    } else {
        let w1 = walk_cell(d, pk, path, st, sec.rows[ri].cells[0], sec.rows[ri].line);
        lemma_grow_cell(d, pk, path, st, sec.rows[ri].cells[0], sec.rows[ri].line);
        lemma_grow_array_rows(d, pk, path, w1, si, ri + 1);
        lemma_prefix_trans(st.0, w1.0, walk_array_rows(d, pk, path, w1, si, ri + 1).0);
    }
}

proof fn lemma_grow_table_as_array(d: SDoc, pk: Pk, path: Seq<Key>, st: WSt, si: nat)
    requires
        st.1.len() == d.sections.len(),
    ensures
        st.0.is_prefix_of(walk_table_as_array(d, pk, path, st, si).0),
        walk_table_as_array(d, pk, path, st, si).1.len() == st.1.len(),
    decreases total_keys(d.sections) - path.len(), 0nat, 0int,
{
    let key = Key::Sec(si);
    if !path_ok(d.sections, path) || !key_valid(d.sections, key) {
        assert(st.0 =~= st.0.subrange(0, st.0.len() as int));
    } else if path.contains(key) {
        lemma_prefix_push(st.0, SpecError::CircularReference {
            reference: crate::resolve::at_text(d.sections[si as int].name),
        });
    } else {
        lemma_path_push(d.sections, path, key);
        lemma_grow_table_rows(d, pk, path.push(key), (st.0, st.1.update(si as int, true)), si, 0);
    }
}

proof fn lemma_grow_table_rows(d: SDoc, pk: Pk, path: Seq<Key>, st: WSt, si: nat, ri: int)
    requires
        st.1.len() == d.sections.len(),
    ensures
        st.0.is_prefix_of(walk_table_rows(d, pk, path, st, si, ri).0),
        walk_table_rows(d, pk, path, st, si, ri).1.len() == st.1.len(),
    decreases total_keys(d.sections) - path.len(), 3nat, d.sections[si as int].rows.len() - ri,
{
    let sec = d.sections[si as int];
    if ri < 0 || ri >= sec.rows.len() {
        assert(st.0 =~= st.0.subrange(0, st.0.len() as int));
    } else {
        let w1 = walk_object_row(d, pk, path, st, si, ri as nat);
        lemma_grow_object_row(d, pk, path, st, si, ri as nat);
        lemma_grow_table_rows(d, pk, path, w1, si, ri + 1);
        lemma_prefix_trans(st.0, w1.0, walk_table_rows(d, pk, path, w1, si, ri + 1).0);
    }
}

// ---------------------------------------------------------------------------
// Resolution and the validation walk, side by side
// ---------------------------------------------------------------------------

/// A resolution result and a walk result that agree: success leaves the walk with no new
/// error and the same sections reached; failure makes the walk report the same error.
spec fn agrees(d: SDoc, r: Result<(), SpecError>, rvis: Seq<bool>, w: WSt, errs: Seq<SpecError>) -> bool {
    match r {
        Ok(_) => w == (errs, rvis),
        Err(e) => {
            &&& errs.len() < w.0.len()
            &&& w.0[errs.len() as int] == e
        },
    }
}

spec fn unit_r(r: RRes) -> Result<(), SpecError> {
    match r.0 {
        Ok(_) => Ok(()),
        Err(e) => Err(e),
    }
}

spec fn unit_c(r: CRes) -> Result<(), SpecError> {
    match r.0 {
        Ok(_) => Ok(()),
        Err(e) => Err(e),
    }
}

proof fn lemma_find_valid(secs: Seq<crate::document::SSection>, name: Seq<char>, i: int)
    requires
        0 <= i,
    ensures
        find_section_from(secs, name, i) matches Some(j) ==> j < secs.len(),
    decreases secs.len() - i,
{
    if i < secs.len() {
        lemma_find_valid(secs, name, i + 1);
    }
}

proof fn lemma_agree_object_row(
    d: SDoc,
    pk: Pk,
    path: Seq<Key>,
    vis: Seq<bool>,
    errs: Seq<SpecError>,
    si: nat,
    ri: nat,
)
    requires
        path_ok(d.sections, path),
        pk_entries_valid(pk, d.sections),
        vis.len() == d.sections.len(),
        key_valid(d.sections, Key::Row(si, ri)),
    ensures
        ({
            let r = res_object_row(d, pk, path, vis, si, ri);
            agrees(d, unit_r(r), r.1, walk_object_row(d, pk, path, (errs, vis), si, ri), errs)
        }),
    decreases total_keys(d.sections) - path.len(), 0nat, 0int,
{
    let key = Key::Row(si, ri);
    if !path.contains(key) {
        lemma_path_push(d.sections, path, key);
        let sec = d.sections[si as int];
        let vis1 = vis.update(si as int, true);
        if sec.header.len() > 0 && sec.header[0] == pk_word() {
            assert(build_cols(d, pk, path.push(key), vis1, si, ri, 0, Seq::empty()) == build_cols(
                d,
                pk,
                path.push(key),
                vis1,
                si,
                ri,
                1,
                Seq::empty(),
            ));
        }
        lemma_agree_cols(d, pk, path.push(key), vis1, errs, si, ri, walk_start(sec), Seq::empty());
    }
}

proof fn lemma_agree_cols(
    d: SDoc,
    pk: Pk,
    path: Seq<Key>,
    vis: Seq<bool>,
    errs: Seq<SpecError>,
    si: nat,
    ri: nat,
    col: int,
    obj: Seq<(Seq<char>, SpecJson)>,
)
    requires
        path_ok(d.sections, path),
        pk_entries_valid(pk, d.sections),
        vis.len() == d.sections.len(),
        key_valid(d.sections, Key::Row(si, ri)),
        col > 0 || !(d.sections[si as int].header.len() > 0 && d.sections[si as int].header[0] == pk_word()),
    ensures
        ({
            let r = build_cols(d, pk, path, vis, si, ri, col, obj);
            agrees(d, unit_r(r), r.1, walk_cols(d, pk, path, (errs, vis), si, ri, col), errs)
        }),
    decreases total_keys(d.sections) - path.len(), 3nat, d.sections[si as int].header.len() - col,
{
    let sec = d.sections[si as int];
    let row = sec.rows[ri as int];
    if col < 0 || col >= sec.header.len() {
    } else if col >= row.cells.len() {
        lemma_agree_cols(d, pk, path, vis, errs, si, ri, col + 1, obj);
    } else {
        let c = cell_value(d, pk, path, vis, row.cells[col], row.line);
        let w1 = walk_cell(d, pk, path, (errs, vis), row.cells[col], row.line);
        lemma_agree_cell(d, pk, path, vis, errs, row.cells[col], row.line);
        lemma_grow_cell(d, pk, path, (errs, vis), row.cells[col], row.line);
        match c.0 {
            Err(e) => {
                lemma_grow_cols(d, pk, path, w1, si, ri, col + 1);
            },
            Ok(None) => {
                lemma_agree_cols(d, pk, path, c.1, errs, si, ri, col + 1, obj);
            },
            Ok(Some(v)) => {
                lemma_agree_cols(
                    d,
                    pk,
                    path,
                    c.1,
                    errs,
                    si,
                    ri,
                    col + 1,
                    crate::json::obj_insert(obj, sec.header[col], v),
                );
            },
        }
    }
}

proof fn lemma_agree_cell(
    d: SDoc,
    pk: Pk,
    path: Seq<Key>,
    vis: Seq<bool>,
    errs: Seq<SpecError>,
    cell: SCell,
    line: nat,
)
    requires
        path_ok(d.sections, path),
        pk_entries_valid(pk, d.sections),
        vis.len() == d.sections.len(),
    ensures
        ({
            let r = cell_value(d, pk, path, vis, cell, line);
            agrees(d, unit_c(r), r.1, walk_cell(d, pk, path, (errs, vis), cell, line), errs)
        }),
    decreases total_keys(d.sections) - path.len(), 2nat, 0int,
{
    match cell {
        SCell::Quoted(_) => {},
        SCell::Unquoted(s) => {
            if s.len() == 0 || s == crate::resolve::word_true() || s == crate::resolve::word_false()
                || s == crate::resolve::word_null() || s == crate::resolve::word_empty_array() {
            } else if s[0] != '@' {
            } else {
                let rest = s.subrange(1, s.len() as int);
                if rest.len() > 0 && crate::resolve::all_digits(rest) {
                    lemma_agree_row_ref(d, pk, path, vis, errs, rest, line);
                } else if crate::lexer::valid_section_name(rest) {
                    lemma_agree_named_ref(d, pk, path, vis, errs, rest, line);
                }
            }
        },
    }
}

proof fn lemma_agree_row_ref(
    d: SDoc,
    pk: Pk,
    path: Seq<Key>,
    vis: Seq<bool>,
    errs: Seq<SpecError>,
    pks: Seq<char>,
    line: nat,
)
    requires
        path_ok(d.sections, path),
        pk_entries_valid(pk, d.sections),
        vis.len() == d.sections.len(),
    ensures
        ({
            let r = res_row_ref(d, pk, path, vis, pks, line);
            agrees(d, unit_r(r), r.1, walk_row_ref(d, pk, path, (errs, vis), pks, line), errs)
        }),
    decreases total_keys(d.sections) - path.len(), 1nat, 0int,
{
    lemma_pk_lookup_valid(pk, d.sections, pks);
    match pk_lookup(pk, pks) {
        None => {},
        Some((si, ri)) => {
            lemma_agree_object_row(d, pk, path, vis, errs, si, ri);
        },
    }
}

proof fn lemma_agree_named_ref(
    d: SDoc,
    pk: Pk,
    path: Seq<Key>,
    vis: Seq<bool>,
    errs: Seq<SpecError>,
    name: Seq<char>,
    line: nat,
)
    requires
        path_ok(d.sections, path),
        pk_entries_valid(pk, d.sections),
        vis.len() == d.sections.len(),
    ensures
        ({
            let r = res_named_ref(d, pk, path, vis, name, line);
            agrees(d, unit_r(r), r.1, walk_named_ref(d, pk, path, (errs, vis), name, line), errs)
        }),
    decreases total_keys(d.sections) - path.len(), 1nat, 0int,
{
    lemma_find_valid(d.sections, name, 0);
    match spec_find_section(d.sections, name) {
        None => {},
        Some(si) => {
            if d.sections[si as int].array {
                lemma_agree_array_section(d, pk, path, vis, errs, si);
            } else {
                lemma_agree_table_as_array(d, pk, path, vis, errs, si);
            }
        },
    }
}

proof fn lemma_agree_array_section(
    d: SDoc,
    pk: Pk,
    path: Seq<Key>,
    vis: Seq<bool>,
    errs: Seq<SpecError>,
    si: nat,
)
    requires
        path_ok(d.sections, path),
        pk_entries_valid(pk, d.sections),
        vis.len() == d.sections.len(),
        si < d.sections.len(),
        d.sections[si as int].array,
    ensures
        ({
            let r = res_array_section(d, pk, path, vis, si);
            agrees(d, unit_r(r), r.1, walk_array_section(d, pk, path, (errs, vis), si), errs)
        }),
    decreases total_keys(d.sections) - path.len(), 0nat, 0int,
{
    let key = Key::Sec(si);
    if !path.contains(key) {
        lemma_path_push(d.sections, path, key);
        lemma_agree_array_rows(
            d,
            pk,
            path.push(key),
            vis.update(si as int, true),
            errs,
            si,
            0,
            Seq::empty(),
        );
    }
}

proof fn lemma_agree_array_rows(
    d: SDoc,
    pk: Pk,
    path: Seq<Key>,
    vis: Seq<bool>,
    errs: Seq<SpecError>,
    si: nat,
    ri: int,
    acc: Seq<SpecJson>,
)
    requires
        path_ok(d.sections, path),
        pk_entries_valid(pk, d.sections),
        vis.len() == d.sections.len(),
        si < d.sections.len(),
        d.sections[si as int].array,
    ensures
        ({
            let r = build_array_rows(d, pk, path, vis, si, ri, acc);
            agrees(d, unit_r(r), r.1, walk_array_rows(d, pk, path, (errs, vis), si, ri), errs)
        }),
    decreases total_keys(d.sections) - path.len(), 3nat, d.sections[si as int].rows.len() - ri,
{
    let sec = d.sections[si as int];
    if ri < 0 || ri >= sec.rows.len() {
    } else {
        let row = sec.rows[ri];
        if row.cells.len() == 0 || scell_is_empty_unquoted(row.cells[0]) {
            let w1 = (errs.push(SpecError::EmptyArrayRow { line: row.line }), vis);
            lemma_grow_array_rows(d, pk, path, w1, si, ri + 1);
            let w = walk_array_rows(d, pk, path, w1, si, ri + 1);
            assert(w.0[errs.len() as int] == w1.0[errs.len() as int]) by {
                assert(w.0.subrange(0, w1.0.len() as int)[errs.len() as int] == w.0[errs.len() as int]);
            }
        } else {
            let c = cell_value(d, pk, path, vis, row.cells[0], row.line);
            let w1 = walk_cell(d, pk, path, (errs, vis), row.cells[0], row.line);
            lemma_agree_cell(d, pk, path, vis, errs, row.cells[0], row.line);
            lemma_grow_cell(d, pk, path, (errs, vis), row.cells[0], row.line);
            match c.0 {
                Err(e) => {
                    lemma_grow_array_rows(d, pk, path, w1, si, ri + 1);
                },
                Ok(None) => {},
                Ok(Some(v)) => {
                    lemma_agree_array_rows(d, pk, path, c.1, errs, si, ri + 1, acc.push(v));
                },
            }
        }
    }
}

proof fn lemma_agree_table_as_array(
    d: SDoc,
    pk: Pk,
    path: Seq<Key>,
    vis: Seq<bool>,
    errs: Seq<SpecError>,
    si: nat,
)
    requires
        path_ok(d.sections, path),
        pk_entries_valid(pk, d.sections),
        vis.len() == d.sections.len(),
        si < d.sections.len(),
        !d.sections[si as int].array,
    ensures
        ({
            let r = res_table_as_array(d, pk, path, vis, si);
            agrees(d, unit_r(r), r.1, walk_table_as_array(d, pk, path, (errs, vis), si), errs)
        }),
    decreases total_keys(d.sections) - path.len(), 0nat, 0int,
{
    let key = Key::Sec(si);
    if !path.contains(key) {
        lemma_path_push(d.sections, path, key);
        lemma_agree_table_rows(
            d,
            pk,
            path.push(key),
            vis.update(si as int, true),
            errs,
            si,
            0,
            Seq::empty(),
        );
    }
}

proof fn lemma_agree_table_rows(
    d: SDoc,
    pk: Pk,
    path: Seq<Key>,
    vis: Seq<bool>,
    errs: Seq<SpecError>,
    si: nat,
    ri: int,
    acc: Seq<SpecJson>,
)
    requires
        path_ok(d.sections, path),
        pk_entries_valid(pk, d.sections),
        vis.len() == d.sections.len(),
        si < d.sections.len(),
    ensures
        ({
            let r = build_table_rows(d, pk, path, vis, si, ri, acc);
            agrees(d, unit_r(r), r.1, walk_table_rows(d, pk, path, (errs, vis), si, ri), errs)
        }),
    decreases total_keys(d.sections) - path.len(), 3nat, d.sections[si as int].rows.len() - ri,
{
    let sec = d.sections[si as int];
    if ri < 0 || ri >= sec.rows.len() {
    } else {
        let r = res_object_row(d, pk, path, vis, si, ri as nat);
        let w1 = walk_object_row(d, pk, path, (errs, vis), si, ri as nat);
        lemma_agree_object_row(d, pk, path, vis, errs, si, ri as nat);
        lemma_grow_object_row(d, pk, path, (errs, vis), si, ri as nat);
        match r.0 {
            Err(e) => {
                lemma_grow_table_rows(d, pk, path, w1, si, ri + 1);
            },
            Ok(v) => {
                lemma_agree_table_rows(d, pk, path, r.1, errs, si, ri + 1, acc.push(v));
            },
        }
    }
}

proof fn lemma_path_empty(secs: Seq<crate::document::SSection>)
    ensures
        path_ok(secs, Seq::<Key>::empty()),
{
    assert(Seq::<Key>::empty().no_duplicates());
}

/// Resolution from the root and the walk from the root agree.
proof fn lemma_agree_root(d: SDoc, pk: Pk, vis: Seq<bool>, errs: Seq<SpecError>)
    requires
        pk_entries_valid(pk, d.sections),
        vis.len() == d.sections.len(),
        d.sections.len() > 0 && !d.root_array ==> !d.sections[0].array && d.sections[0].rows.len()
            <= 1,
    ensures
        ({
            let r = resolve_root(d, pk, vis);
            &&& agrees(
                d,
                unit_r(r),
                r.1,
                walk_root(d, pk, (errs, vis)),
                errs,
            )
            &&& walk_root(d, pk, (errs, vis)).1.len() == vis.len()
            &&& errs.is_prefix_of(walk_root(d, pk, (errs, vis)).0)
        }),
{
    lemma_path_empty(d.sections);
    let pe = Seq::<Key>::empty();
    if d.sections.len() == 0 {
        assert(errs =~= errs.subrange(0, errs.len() as int));
    } else {
        let vis1 = vis.update(0, true);
        let first = d.sections[0];
        if first.array {
            lemma_agree_array_section(d, pk, pe, vis1, errs, 0);
            lemma_grow_array_section(d, pk, pe, (errs, vis1), 0);
        } else if d.root_array {
            lemma_agree_table_as_array(d, pk, pe, vis1, errs, 0);
            lemma_grow_table_as_array(d, pk, pe, (errs, vis1), 0);
        } else {
            lemma_grow_table_rows(d, pk, pe, (errs, vis1), 0, 0);
            if first.rows.len() == 0 {
            } else {
                lemma_agree_object_row(d, pk, pe, vis1, errs, 0, 0);
                let w1 = walk_object_row(d, pk, pe, (errs, vis1), 0, 0);
                assert(walk_table_rows(d, pk, pe, (errs, vis1), 0, 0) == walk_table_rows(d, pk, pe, w1, 0, 1));
                assert(walk_table_rows(d, pk, pe, w1, 0, 1) == w1);
            }
        }
    }
}

// ---------------------------------------------------------------------------
// Unreached sections
// ---------------------------------------------------------------------------

proof fn lemma_first_unvisited(vis: Seq<bool>, j: int)
    requires
        0 <= j,
    ensures
        match first_unvisited(vis, j) {
            Some(i) => j <= i < vis.len() && !vis[i as int] && forall|k: int| j <= k < i ==> vis[k],
            None => forall|k: int| j <= k < vis.len() ==> vis[k],
        },
    decreases vis.len() - j,
{
    if j < vis.len() {
        lemma_first_unvisited(vis, j + 1);
    }
}

proof fn lemma_unreachable_none(secs: Seq<crate::document::SSection>, vis: Seq<bool>, n: int)
    requires
        forall|k: int| 0 <= k < n ==> vis[k],
    ensures
        unreachable_errors(secs, vis, n).len() == 0,
    decreases n,
{
    if n > 0 {
        lemma_unreachable_none(secs, vis, n - 1);
    }
}

proof fn lemma_unreachable_first(secs: Seq<crate::document::SSection>, vis: Seq<bool>, n: int, i: int)
    requires
        0 <= i < n,
        !vis[i],
        forall|k: int| 0 <= k < i ==> vis[k],
    ensures
        unreachable_errors(secs, vis, n).len() > 0,
        unreachable_errors(secs, vis, n)[0] == (SpecError::UnreachableSection { name: secs[i].name }),
    decreases n,
{
    if i < n - 1 {
        lemma_unreachable_first(secs, vis, n - 1, i);
    } else {
        lemma_unreachable_none(secs, vis, n - 1);
    }
}

// ---------------------------------------------------------------------------
// Structural collection
// ---------------------------------------------------------------------------

proof fn lemma_collect_reported(toks: Seq<(nat, SToken)>, n: int)
    requires
        0 <= n,
    ensures
        collect_upto(toks, n).missing_root_reported ==> collect_upto(toks, n).errors.len() > 0,
    decreases n,
{
    if n > 0 {
        lemma_collect_reported(toks, n - 1);
        let st = collect_upto(toks, n - 1);
        let st2 = collect_step(st, toks[n - 1].0, toks[n - 1].1);
        assert(st2.errors.len() >= st.errors.len());
    }
}

/// Collection without a document always reports an error.
proof fn lemma_structural_none(s: Seq<char>)
    ensures
        spec_collect_structural(s).0 is None ==> spec_collect_structural(s).1.len() > 0,
{
    match spec_lex(s) {
        Err(e) => {},
        Ok(toks) => {
            lemma_collect_reported(toks, toks.len() as int);
        },
    }
}

// ---------------------------------------------------------------------------
// The laws
// ---------------------------------------------------------------------------

proof fn lemma_document_validate(s: Seq<char>)
    ensures
        match spec_parse_document(s) {
            Ok(_) => spec_validate(s) is Ok,
            Err(e) => spec_validate(s) matches Err(es) && es.len() > 0 && es[0] == e,
        },
{
    let (dopt, errs1) = spec_collect_structural(s);
    lemma_structural_none(s);
    match dopt {
        None => {},
        Some(d) => {
            if errs1.len() == 0 {
                match spec_lex(s) {
                    Err(_) => {},
                    Ok(toks) => {
                        let st = collect_upto(toks, toks.len() as int);
                        assert(spec_collect_structural(s) == crate::parser::collect_finish(st));
                    },
                }
                let pc = spec_pk_collect(d.sections);
                if pc.1.len() == 0 {
                    let pk = pc.0;
                    lemma_pk_collect_valid(d.sections);
                    let vis0 = Seq::new(d.sections.len(), |i: int| false);
                    lemma_agree_root(d, pk, vis0, Seq::empty());
                    let r = resolve_root(d, pk, vis0);
                    let fin = walk_root(d, pk, (Seq::empty(), vis0));
                    let we = walk_errors(d, pk);
                    let n = d.sections.len() as int;
                    assert(we == fin.0 + unreachable_errors(d.sections, fin.1, n));
                    assert(errs1 + pc.1 + we =~= we);
                    match r.0 {
                        Err(e) => {
                            assert(we[0] == fin.0[0]);
                        },
                        Ok(v) => {
                            assert(fin.0 =~= Seq::<SpecError>::empty());
                            lemma_first_unvisited(r.1, 0);
                            match first_unvisited(r.1, 0) {
                                Some(i) => {
                                    lemma_unreachable_first(d.sections, r.1, n, i as int);
                                },
                                None => {
                                    lemma_unreachable_none(d.sections, r.1, n);
                                },
                            }
                        },
                    }
                } else {
                    let we = walk_errors(d, pc.0);
                    assert((errs1 + pc.1 + we)[0] == pc.1[0]);
                }
            } else {
                let we = walk_errors(d, spec_pk_collect(d.sections).0);
                assert((errs1 + spec_pk_collect(d.sections).1 + we)[0] == errs1[0]);
            }
        },
    }
}

proof fn lemma_parse_validate(s: Seq<char>)
    ensures
        match spec_parse(s) {
            Ok(_) => spec_validate(s) is Ok,
            Err(e) => spec_validate(s) matches Err(es) && es.contains(e) && (!(e is InvalidSectionName)
                ==> es[0] == e),
        },
        spec_validate(s) is Ok ==> spec_parse(s) is Ok,
{
    lemma_strict_lexing(s);
    lemma_strict_error_collected(s);
    match spec_lex_strict(s) {
        Ok(_) => {
            lemma_document_validate(s);
            match spec_parse_document(s) {
                Ok(_) => {},
                Err(e) => {
                    let es = spec_validate(s)->Err_0;
                    assert(es[0] == e);
                },
            }
        },
        Err(e) => {
            let (dopt, errs1) = spec_collect_structural(s);
            let j = choose|j: int| 0 <= j < errs1.len() && errs1[j] == e;
            match dopt {
                None => {},
                Some(d) => {
                    let (pk, errs2) = spec_pk_collect(d.sections);
                    let es = errs1 + errs2 + walk_errors(d, pk);
                    assert(es[j] == e);
                },
            }
        },
    }
}

/// Whatever `parse` accepts, `validate` accepts.
pub proof fn lemma_parse_ok_validate_ok(s: Seq<char>)
    requires
        spec_parse(s) is Ok,
    ensures
        spec_validate(s) is Ok,
{
    lemma_parse_validate(s);
}

/// Whatever `validate` accepts, `parse` accepts.
pub proof fn lemma_validate_ok_parse_ok(s: Seq<char>)
    requires
        spec_validate(s) is Ok,
    ensures
        spec_parse(s) is Ok,
{
    lemma_parse_validate(s);
}

/// The error `parse` stops at is among the errors `validate` lists, and it is the first
/// of them unless it is an invalid section name (which `parse` meets while lexing, before
/// any structural error of earlier lines).
pub proof fn lemma_parse_error_listed(s: Seq<char>, e: SpecError)
    requires
        spec_parse(s) == Err::<SpecJson, SpecError>(e),
    ensures
        spec_validate(s) matches Err(es) && es.contains(e) && (!(e is InvalidSectionName) ==> es[0]
            == e),
{
    lemma_parse_validate(s);
}

/// A lexing error other than an invalid section name (a byte-order mark, a null byte, a
/// malformed root line) is the only error `validate` reports.
pub proof fn lemma_fatal_lex_error_alone(s: Seq<char>, e: SpecError)
    requires
        spec_lex_strict(s) == Err::<Seq<(nat, SToken)>, SpecError>(e),
        !(e is InvalidSectionName),
    ensures
        spec_validate(s) == Err::<(), Seq<SpecError>>(seq![e]),
{
    lemma_strict_error_collected(s);
}

} // verus!
