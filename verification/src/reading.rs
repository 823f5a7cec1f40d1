//! What reading a table row gives, and how the validation walk goes through a table.
use vstd::prelude::*;

use crate::document::{SDoc, SRow, SSection};
use crate::error::SpecError;
use crate::json::{SpecJson, lemma_obj_find, obj_find, obj_insert};
use crate::lexer::{SCell, scell_is_empty_unquoted};
use crate::parser::pk_word;
use crate::resolve::{
    Key, Pk, WSt, build_cols, cell_value, res_object_row, walk_array_rows, walk_array_section,
    walk_cell, walk_cols, walk_named_ref, walk_object_row, walk_row_ref, walk_table_as_array,
    walk_table_rows,
};

verus! {

// ---------------------------------------------------------------------------
// The members of an object read from a row
// ---------------------------------------------------------------------------

/// Some member of `o` is called `k`.
pub open spec fn has_member(o: Seq<(Seq<char>, SpecJson)>, k: Seq<char>) -> bool {
    exists|i: int| 0 <= i < o.len() && #[trigger] o[i].0 == k
}

/// Column `c` of `row` in table `sec` holds a value: it is a data column (not the leading
/// `pk` column), the row has a cell there, and that cell is not empty and unquoted.
pub open spec fn filled_column(sec: SSection, row: SRow, c: int) -> bool {
    &&& 0 <= c < sec.header.len()
    &&& !(c == 0 && sec.header[0] == pk_word())
    &&& c < row.cells.len()
    &&& !scell_is_empty_unquoted(row.cells[c])
}

proof fn lemma_insert_members(obj: Seq<(Seq<char>, SpecJson)>, k: Seq<char>, v: SpecJson)
    ensures
        has_member(obj_insert(obj, k, v), k),
        forall|n: Seq<char>| has_member(obj, n) ==> has_member(obj_insert(obj, k, v), n),
        forall|n: Seq<char>| #[trigger] has_member(obj_insert(obj, k, v), n) ==> has_member(obj, n) || n == k,
{
    lemma_obj_find(obj, k);
    let r = obj_insert(obj, k, v);
    match obj_find(obj, k) {
        Some(i) => {
            assert(r[i as int].0 == k);
            assert forall|n: Seq<char>| has_member(obj, n) implies has_member(r, n) by {
                let j = choose|j: int| 0 <= j < obj.len() && #[trigger] obj[j].0 == n;
                assert(r[j].0 == n);
            }
            assert forall|n: Seq<char>| #[trigger] has_member(r, n) implies has_member(obj, n) || n == k by {
                let j = choose|j: int| 0 <= j < r.len() && #[trigger] r[j].0 == n;
                if j != i {
                    assert(obj[j].0 == n);
                }
            }
        },
        None => {
            assert(r[obj.len() as int].0 == k);
            assert forall|n: Seq<char>| has_member(obj, n) implies has_member(r, n) by {
                let j = choose|j: int| 0 <= j < obj.len() && #[trigger] obj[j].0 == n;
                assert(r[j].0 == n);
            }
            assert forall|n: Seq<char>| #[trigger] has_member(r, n) implies has_member(obj, n) || n == k by {
                let j = choose|j: int| 0 <= j < r.len() && #[trigger] r[j].0 == n;
                if j < obj.len() {
                    assert(obj[j].0 == n);
                }
            }
        },
    }
}

proof fn lemma_cols_members(
    d: SDoc,
    pk: Pk,
    path: Seq<Key>,
    vis: Seq<bool>,
    si: nat,
    ri: nat,
    col: int,
    obj: Seq<(Seq<char>, SpecJson)>,
)
    requires
        si < d.sections.len(),
        ri < d.sections[si as int].rows.len(),
        0 <= col,
    ensures
        build_cols(d, pk, path, vis, si, ri, col, obj).0 matches Ok(v) ==> (v matches SpecJson::Object(o) && {
            let sec = d.sections[si as int];
            let row = sec.rows[ri as int];
            &&& forall|n: Seq<char>|
                #[trigger] has_member(o, n) ==> has_member(obj, n) || exists|c: int|
                    col <= c && filled_column(sec, row, c) && #[trigger] sec.header[c] == n
            &&& forall|n: Seq<char>| has_member(obj, n) ==> #[trigger] has_member(o, n)
            &&& forall|c: int| col <= c && #[trigger] filled_column(sec, row, c) ==> has_member(o, sec.header[c])
        }),
    decreases d.sections[si as int].header.len() - col,
{
    let sec = d.sections[si as int];
    let row = sec.rows[ri as int];
    if col >= sec.header.len() {
    } else if col == 0 && sec.header[0] == pk_word() {
        lemma_cols_members(d, pk, path, vis, si, ri, col + 1, obj);
    } else if col >= row.cells.len() {
        lemma_cols_members(d, pk, path, vis, si, ri, col + 1, obj);
    } else {
        let (r, vis2) = cell_value(d, pk, path, vis, row.cells[col], row.line);
        match r {
            Err(e) => {},
            Ok(None) => {
                assert(scell_is_empty_unquoted(row.cells[col]));
                lemma_cols_members(d, pk, path, vis2, si, ri, col + 1, obj);
            },
            Ok(Some(v)) => {
                let obj2 = obj_insert(obj, sec.header[col], v);
                lemma_insert_members(obj, sec.header[col], v);
                lemma_cols_members(d, pk, path, vis2, si, ri, col + 1, obj2);
                assert(!scell_is_empty_unquoted(row.cells[col]));
                assert(filled_column(sec, row, col));
            },
        }
    }
}

/// The object read from a table row has a member for each column that holds a value (a
/// data column with a cell that is not empty), and no other member: a column the row has
/// no cell for, or an empty cell, adds nothing; the leading `pk` column adds nothing.
pub proof fn lemma_row_members(d: SDoc, pk: Pk, path: Seq<Key>, vis: Seq<bool>, si: nat, ri: nat)
    requires
        si < d.sections.len(),
        ri < d.sections[si as int].rows.len(),
    ensures
        res_object_row(d, pk, path, vis, si, ri).0 matches Ok(v) ==> (v matches SpecJson::Object(o) && {
            let sec = d.sections[si as int];
            let row = sec.rows[ri as int];
            &&& forall|n: Seq<char>|
                #[trigger] has_member(o, n) ==> exists|c: int|
                    filled_column(sec, row, c) && #[trigger] sec.header[c] == n
            &&& forall|c: int| #[trigger] filled_column(sec, row, c) ==> has_member(o, sec.header[c])
        }),
{
    let key = Key::Row(si, ri);
    if crate::resolve::path_ok(d.sections, path) && crate::resolve::key_valid(d.sections, key)
        && !path.contains(key) {
        crate::resolve::lemma_path_push(d.sections, path, key);
        lemma_cols_members(d, pk, path.push(key), vis.update(si as int, true), si, ri, 0, Seq::empty());
    }
}


// ---------------------------------------------------------------------------
// The validation walk only appends errors, and which ones does not depend on what came
// before
// ---------------------------------------------------------------------------

/// No error yet.
pub open spec fn no_errors() -> Seq<SpecError> {
    Seq::empty()
}

proof fn lemma_frame_object_row(d: SDoc, pk: Pk, path: Seq<Key>, e: Seq<SpecError>, v: Seq<bool>, v2: Seq<bool>, si: nat, ri: nat)
    ensures
        walk_object_row(d, pk, path, (e, v), si, ri).0 == e + walk_object_row(d, pk, path, (no_errors(), v2), si, ri).0,
    decreases crate::resolve::total_keys(d.sections) - path.len(), 0nat, 0int,
{
    let key = Key::Row(si, ri);
    if !crate::resolve::path_ok(d.sections, path) || !crate::resolve::key_valid(d.sections, key) {
        assert(e + no_errors() =~= e);
    } else if path.contains(key) {
        let x = SpecError::CircularReference { reference: crate::resolve::row_ref_text(d.sections[si as int].name, ri) };
        assert(e.push(x) =~= e + no_errors().push(x));
    } else {
        crate::resolve::lemma_path_push(d.sections, path, key);
        lemma_frame_cols(
            d,
            pk,
            path.push(key),
            e,
            v.update(si as int, true),
            v2.update(si as int, true),
            si,
            ri,
            crate::resolve::walk_start(d.sections[si as int]),
        );
    }
}

proof fn lemma_frame_cols(d: SDoc, pk: Pk, path: Seq<Key>, e: Seq<SpecError>, v: Seq<bool>, v2: Seq<bool>, si: nat, ri: nat, col: int)
    ensures
        walk_cols(d, pk, path, (e, v), si, ri, col).0 == e + walk_cols(d, pk, path, (no_errors(), v2), si, ri, col).0,
    decreases crate::resolve::total_keys(d.sections) - path.len(), 3nat, d.sections[si as int].header.len() - col,
{
    let sec = d.sections[si as int];
    let row = sec.rows[ri as int];
    if col < 0 || col >= sec.header.len() {
        assert(e + no_errors() =~= e);
    } else if col >= row.cells.len() {
        lemma_frame_cols(d, pk, path, e, v, v2, si, ri, col + 1);
    } else {
        let w1 = walk_cell(d, pk, path, (e, v), row.cells[col], row.line);
        let w2 = walk_cell(d, pk, path, (no_errors(), v2), row.cells[col], row.line);
        lemma_frame_cell(d, pk, path, e, v, v2, row.cells[col], row.line);
        lemma_frame_cell(d, pk, path, no_errors(), v2, v2, row.cells[col], row.line);
        assert(no_errors() + w2.0 =~= w2.0);
        lemma_frame_cols(d, pk, path, w1.0, w1.1, w2.1, si, ri, col + 1);
        lemma_frame_cols(d, pk, path, w2.0, w2.1, w2.1, si, ri, col + 1);
        let rest = walk_cols(d, pk, path, (no_errors(), w2.1), si, ri, col + 1).0;
        assert(w1.0 + rest =~= e + (w2.0 + rest));
    }
}

proof fn lemma_frame_cell(d: SDoc, pk: Pk, path: Seq<Key>, e: Seq<SpecError>, v: Seq<bool>, v2: Seq<bool>, cell: SCell, line: nat)
    ensures
        walk_cell(d, pk, path, (e, v), cell, line).0 == e + walk_cell(d, pk, path, (no_errors(), v2), cell, line).0,
    decreases crate::resolve::total_keys(d.sections) - path.len(), 2nat, 0int,
{
    assert(e + no_errors() =~= e);
    match cell {
        SCell::Quoted(_) => {},
        SCell::Unquoted(s) => {
            if s.len() == 0 || s == crate::resolve::word_true() || s == crate::resolve::word_false()
                || s == crate::resolve::word_null() || s == crate::resolve::word_empty_array() {
            } else if s[0] != '@' {
            } else {
                let rest = s.subrange(1, s.len() as int);
                if rest.len() > 0 && crate::resolve::all_digits(rest) {
                    lemma_frame_row_ref(d, pk, path, e, v, v2, rest, line);
                } else if crate::lexer::valid_section_name(rest) {
                    lemma_frame_named_ref(d, pk, path, e, v, v2, rest, line);
                } else {
                    let x = SpecError::UnresolvedReference { line, reference: s };
                    assert(e.push(x) =~= e + no_errors().push(x));
                }
            }
        },
    }
}

proof fn lemma_frame_row_ref(d: SDoc, pk: Pk, path: Seq<Key>, e: Seq<SpecError>, v: Seq<bool>, v2: Seq<bool>, pks: Seq<char>, line: nat)
    ensures
        walk_row_ref(d, pk, path, (e, v), pks, line).0 == e + walk_row_ref(d, pk, path, (no_errors(), v2), pks, line).0,
    decreases crate::resolve::total_keys(d.sections) - path.len(), 1nat, 0int,
{
    match crate::parser::pk_lookup(pk, pks) {
        None => {
            let x = SpecError::UnresolvedReference { line, reference: crate::resolve::at_text(pks) };
            assert(e.push(x) =~= e + no_errors().push(x));
        },
        Some((si, ri)) => {
            lemma_frame_object_row(d, pk, path, e, v, v2, si, ri);
        },
    }
}

proof fn lemma_frame_named_ref(d: SDoc, pk: Pk, path: Seq<Key>, e: Seq<SpecError>, v: Seq<bool>, v2: Seq<bool>, name: Seq<char>, line: nat)
    ensures
        walk_named_ref(d, pk, path, (e, v), name, line).0 == e + walk_named_ref(d, pk, path, (no_errors(), v2), name, line).0,
    decreases crate::resolve::total_keys(d.sections) - path.len(), 1nat, 0int,
{
    match crate::document::spec_find_section(d.sections, name) {
        None => {
            let x = SpecError::UnresolvedReference { line, reference: crate::resolve::at_text(name) };
            assert(e.push(x) =~= e + no_errors().push(x));
        },
        Some(si) => {
            if d.sections[si as int].array {
                lemma_frame_array_section(d, pk, path, e, v, v2, si);
            } else {
                lemma_frame_table_as_array(d, pk, path, e, v, v2, si);
            }
        },
    }
}

proof fn lemma_frame_array_section(d: SDoc, pk: Pk, path: Seq<Key>, e: Seq<SpecError>, v: Seq<bool>, v2: Seq<bool>, si: nat)
    ensures
        walk_array_section(d, pk, path, (e, v), si).0 == e + walk_array_section(d, pk, path, (no_errors(), v2), si).0,
    decreases crate::resolve::total_keys(d.sections) - path.len(), 0nat, 0int,
{
    let key = Key::Sec(si);
    if !crate::resolve::path_ok(d.sections, path) || !crate::resolve::key_valid(d.sections, key) {
        assert(e + no_errors() =~= e);
    } else if path.contains(key) {
        let x = SpecError::CircularReference { reference: crate::resolve::at_text(d.sections[si as int].name) };
        assert(e.push(x) =~= e + no_errors().push(x));
    } else {
        crate::resolve::lemma_path_push(d.sections, path, key);
        lemma_frame_array_rows(d, pk, path.push(key), e, v.update(si as int, true), v2.update(si as int, true), si, 0);
    }
}

proof fn lemma_frame_array_rows(d: SDoc, pk: Pk, path: Seq<Key>, e: Seq<SpecError>, v: Seq<bool>, v2: Seq<bool>, si: nat, ri: int)
    ensures
        walk_array_rows(d, pk, path, (e, v), si, ri).0 == e + walk_array_rows(d, pk, path, (no_errors(), v2), si, ri).0,
    decreases crate::resolve::total_keys(d.sections) - path.len(), 3nat, d.sections[si as int].rows.len() - ri,
{
    let sec = d.sections[si as int];
    if ri < 0 || ri >= sec.rows.len() {
        assert(e + no_errors() =~= e);
    } else if sec.rows[ri].cells.len() == 0 || scell_is_empty_unquoted(sec.rows[ri].cells[0]) {
        let x = SpecError::EmptyArrayRow { line: sec.rows[ri].line };
        lemma_frame_array_rows(d, pk, path, e.push(x), v, v2, si, ri + 1);
        lemma_frame_array_rows(d, pk, path, no_errors().push(x), v2, v2, si, ri + 1);
        let rest = walk_array_rows(d, pk, path, (no_errors(), v2), si, ri + 1).0;
        assert(e.push(x) + rest =~= e + (no_errors().push(x) + rest));
    } else {
        let c = sec.rows[ri].cells[0];
        let l = sec.rows[ri].line;
        let w1 = walk_cell(d, pk, path, (e, v), c, l);
        let w2 = walk_cell(d, pk, path, (no_errors(), v2), c, l);
        lemma_frame_cell(d, pk, path, e, v, v2, c, l);
        lemma_frame_cell(d, pk, path, no_errors(), v2, v2, c, l);
        assert(no_errors() + w2.0 =~= w2.0);
        lemma_frame_array_rows(d, pk, path, w1.0, w1.1, w2.1, si, ri + 1);
        lemma_frame_array_rows(d, pk, path, w2.0, w2.1, w2.1, si, ri + 1);
        let rest = walk_array_rows(d, pk, path, (no_errors(), w2.1), si, ri + 1).0;
        assert(w1.0 + rest =~= e + (w2.0 + rest));
    }
}

proof fn lemma_frame_table_as_array(d: SDoc, pk: Pk, path: Seq<Key>, e: Seq<SpecError>, v: Seq<bool>, v2: Seq<bool>, si: nat)
    ensures
        walk_table_as_array(d, pk, path, (e, v), si).0 == e + walk_table_as_array(d, pk, path, (no_errors(), v2), si).0,
    decreases crate::resolve::total_keys(d.sections) - path.len(), 0nat, 0int,
{
    let key = Key::Sec(si);
    if !crate::resolve::path_ok(d.sections, path) || !crate::resolve::key_valid(d.sections, key) {
        assert(e + no_errors() =~= e);
    } else if path.contains(key) {
        let x = SpecError::CircularReference { reference: crate::resolve::at_text(d.sections[si as int].name) };
        assert(e.push(x) =~= e + no_errors().push(x));
    } else {
        crate::resolve::lemma_path_push(d.sections, path, key);
        lemma_frame_table_rows(d, pk, path.push(key), e, v.update(si as int, true), v2.update(si as int, true), si, 0);
    }
}

proof fn lemma_frame_table_rows(d: SDoc, pk: Pk, path: Seq<Key>, e: Seq<SpecError>, v: Seq<bool>, v2: Seq<bool>, si: nat, ri: int)
    ensures
        walk_table_rows(d, pk, path, (e, v), si, ri).0 == e + walk_table_rows(d, pk, path, (no_errors(), v2), si, ri).0,
    decreases crate::resolve::total_keys(d.sections) - path.len(), 3nat, d.sections[si as int].rows.len() - ri,
{
    let sec = d.sections[si as int];
    if ri < 0 || ri >= sec.rows.len() {
        assert(e + no_errors() =~= e);
    } else {
        let w1 = walk_object_row(d, pk, path, (e, v), si, ri as nat);
        let w2 = walk_object_row(d, pk, path, (no_errors(), v2), si, ri as nat);
        lemma_frame_object_row(d, pk, path, e, v, v2, si, ri as nat);
        lemma_frame_object_row(d, pk, path, no_errors(), v2, v2, si, ri as nat);
        assert(no_errors() + w2.0 =~= w2.0);
        lemma_frame_table_rows(d, pk, path, w1.0, w1.1, w2.1, si, ri + 1);
        lemma_frame_table_rows(d, pk, path, w2.0, w2.1, w2.1, si, ri + 1);
        let rest = walk_table_rows(d, pk, path, (no_errors(), w2.1), si, ri + 1).0;
        assert(w1.0 + rest =~= e + (w2.0 + rest));
    }
}

/// The errors that the walk finds in row `ri` of table `si`, taken alone.
pub open spec fn row_errors(d: SDoc, pk: Pk, path: Seq<Key>, si: nat, ri: int) -> Seq<SpecError> {
    walk_object_row(d, pk, path, (no_errors(), Seq::empty()), si, ri as nat).0
}

/// The errors of rows `ri..n` of table `si`, each taken alone, one after the other.
pub open spec fn rows_errors(d: SDoc, pk: Pk, path: Seq<Key>, si: nat, ri: int, n: int) -> Seq<SpecError>
    decreases n - ri,
{
    if ri >= n {
        Seq::empty()
    } else {
        row_errors(d, pk, path, si, ri) + rows_errors(d, pk, path, si, ri + 1, n)
    }
}

/// The validation walk of a table goes through every row, whatever errors earlier rows
/// gave: the errors it adds are those of each row taken alone, in row order.
pub proof fn lemma_table_walk_every_row(d: SDoc, pk: Pk, path: Seq<Key>, st: WSt, si: nat, ri: int)
    requires
        0 <= ri,
        si < d.sections.len(),
    ensures
        walk_table_rows(d, pk, path, st, si, ri).0 == st.0 + rows_errors(
            d,
            pk,
            path,
            si,
            ri,
            d.sections[si as int].rows.len() as int,
        ),
    decreases d.sections[si as int].rows.len() - ri,
{
    let n = d.sections[si as int].rows.len() as int;
    if ri >= n {
        assert(st.0 + no_errors() =~= st.0);
    } else {
        let w1 = walk_object_row(d, pk, path, st, si, ri as nat);
        lemma_frame_object_row(d, pk, path, st.0, st.1, Seq::empty(), si, ri as nat);
        lemma_table_walk_every_row(d, pk, path, w1, si, ri + 1);
        let rest = rows_errors(d, pk, path, si, ri + 1, n);
        assert(w1.0 + rest =~= st.0 + (row_errors(d, pk, path, si, ri) + rest));
    }
}

} // verus!
