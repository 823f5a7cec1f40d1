use vstd::prelude::*;

use crate::error::{NormError, SpecError};
use crate::json::{
    JsonValue, SpecJson, items_model, lemma_model_array, lemma_model_object, looks_like_number,
    members_model, spec_json_number,
};
use crate::lexer::{is_ascii_alpha, is_name_char, range_eq, valid_section_name};
use crate::text::{dec, lemma_dec_value, push_decimal, push_str_chars, str_chars, string_of};

verus! {

// ---------------------------------------------------------------------------
// Names
// ---------------------------------------------------------------------------

/// Each character that may not stand at its place in a section name becomes `_`;
/// an empty key becomes `_`.
pub open spec fn sanitise(s: Seq<char>) -> Seq<char> {
    if s.len() == 0 {
        seq!['_']
    } else {
        Seq::new(
            s.len(),
            |i: int|
                if (i == 0 && (is_ascii_alpha(s[0]) || s[0] == '_')) || (i > 0 && is_name_char(s[i])) {
                    s[i]
                } else {
                    '_'
                },
        )
    }
}

/// `base_n`
pub open spec fn candidate(base: Seq<char>, n: nat) -> Seq<char> {
    base + seq!['_'] + dec(n)
}

/// The first suffix `n` (from `n` on) such that `base_n` is not yet used.
pub open spec fn first_free(used: Seq<Seq<char>>, base: Seq<char>, n: nat) -> nat
    decreases used.len() + 2 - n,
{
    if n >= used.len() + 2 {
        n
    } else if !used.contains(candidate(base, n)) {
        n
    } else {
        first_free(used, base, n + 1)
    }
}

// ---------------------------------------------------------------------------
// The plan: sections, rows and cells before rendering
// ---------------------------------------------------------------------------

pub enum SKind {
    Table,
    Array,
}

pub enum SRole {
    Root,
    Object,
    ArrayOfObjects,
    PrimitiveArray,
}

pub enum SPlanCell {
    Value(SpecJson),
    RowRef(nat),
    NamedRef(Seq<char>),
    EmptyArrayRef,
}

pub struct SPlanRow {
    pub pk: Option<nat>,
    pub fields: Seq<(Seq<char>, SPlanCell)>,
}

pub struct SPlanSection {
    pub name: Seq<char>,
    pub kind: SKind,
    pub role: SRole,
    pub has_pk_column: bool,
    pub data_columns: Seq<Seq<char>>,
    pub rows: Seq<SPlanRow>,
    pub values: Seq<SPlanCell>,
}

pub struct SPlan {
    pub sections: Seq<SPlanSection>,
    pub by_key: Seq<(Seq<char>, nat)>,
    pub used: Seq<Seq<char>>,
    pub next_pk: nat,
    pub root_array: bool,
}

pub open spec fn plan_init() -> SPlan {
    SPlan {
        sections: Seq::empty(),
        by_key: Seq::empty(),
        used: Seq::empty(),
        next_pk: 1,
        root_array: false,
    }
}

pub open spec fn empty_section(name: Seq<char>, kind: SKind, role: SRole, has_pk: bool) -> SPlanSection {
    SPlanSection {
        name,
        kind,
        role,
        has_pk_column: has_pk,
        data_columns: Seq::empty(),
        rows: Seq::empty(),
        values: Seq::empty(),
    }
}

/// A fresh section name from `base`, and the plan that now holds it as used.
pub open spec fn reserve_name(p: SPlan, base: Seq<char>) -> (SPlan, Seq<char>) {
    let s = sanitise(base);
    let name = if !p.used.contains(s) {
        s
    } else {
        candidate(s, first_free(p.used, s, 2))
    };
    (SPlan { used: p.used.push(name), ..p }, name)
}

/// The section index recorded for `key`, if any.
pub open spec fn key_lookup(m: Seq<(Seq<char>, nat)>, key: Seq<char>) -> Option<nat>
    decreases m.len(),
{
    if m.len() == 0 {
        None
    } else if m[0].0 == key {
        Some(m[0].1)
    } else {
        key_lookup(m.drop_first(), key)
    }
}

/// Records `key -> idx`, replacing an earlier record of `key`.
pub open spec fn key_put(m: Seq<(Seq<char>, nat)>, key: Seq<char>, idx: nat) -> Seq<(Seq<char>, nat)>
    decreases m.len(),
{
    if m.len() == 0 {
        seq![(key, idx)]
    } else if m[0].0 == key {
        m.update(0, (key, idx))
    } else {
        seq![m[0]] + key_put(m.drop_first(), key, idx)
    }
}

/// Appends to the columns each field name not yet present, then appends the row.
pub open spec fn merge_columns(cols: Seq<Seq<char>>, fields: Seq<(Seq<char>, SPlanCell)>) -> Seq<Seq<char>>
    decreases fields.len(),
{
    if fields.len() == 0 {
        cols
    } else {
        let prev = merge_columns(cols, fields.drop_last());
        if prev.contains(fields.last().0) {
            prev
        } else {
            prev.push(fields.last().0)
        }
    }
}

pub open spec fn merge_row(sec: SPlanSection, row: SPlanRow) -> SPlanSection {
    SPlanSection {
        data_columns: merge_columns(sec.data_columns, row.fields),
        rows: sec.rows.push(row),
        ..sec
    }
}

pub open spec fn merge_into(p: SPlan, idx: nat, row: SPlanRow) -> SPlan {
    SPlan { sections: p.sections.update(idx as int, merge_row(p.sections[idx as int], row)), ..p }
}

pub open spec fn push_value(p: SPlan, idx: nat, c: SPlanCell) -> SPlan {
    let sec = p.sections[idx as int];
    SPlan {
        sections: p.sections.update(idx as int, SPlanSection { values: sec.values.push(c), ..sec }),
        ..p
    }
}

pub open spec fn is_object(v: SpecJson) -> bool {
    v is Object
}

pub open spec fn all_objects(items: Seq<SpecJson>) -> bool {
    forall|i: int| 0 <= i < items.len() ==> #[trigger] is_object(items[i])
}

pub open spec fn get_or_create_object_section(p: SPlan, key: Seq<char>) -> (SPlan, nat) {
    match key_lookup(p.by_key, key) {
        Some(idx) if idx < p.sections.len() && p.sections[idx as int].role is Object => (p, idx),
        _ => {
            let (p1, name) = reserve_name(p, key);
            let idx = p1.sections.len();
            (
                SPlan {
                    sections: p1.sections.push(empty_section(name, SKind::Table, SRole::Object, true)),
                    by_key: key_put(p1.by_key, key, idx),
                    ..p1
                },
                idx,
            )
        },
    }
}

pub open spec fn create_array_of_objects_section(p: SPlan, key: Seq<char>) -> (SPlan, nat) {
    let (p1, name) = reserve_name(p, key);
    let idx = p1.sections.len();
    (
        SPlan {
            sections: p1.sections.push(empty_section(name, SKind::Table, SRole::ArrayOfObjects, false)),
            ..p1
        },
        idx,
    )
}

pub open spec fn item_suffix() -> Seq<char> {
    seq!['_', 'i', 't', 'e', 'm']
}

pub open spec fn row_suffix() -> Seq<char> {
    seq!['_', 'r']
}

/// The fields of members `i..` of an object, appended to `fields`.
pub open spec fn build_fields(
    p: SPlan,
    members: Seq<(Seq<char>, SpecJson)>,
    i: int,
    fields: Seq<(Seq<char>, SPlanCell)>,
) -> (SPlan, Seq<(Seq<char>, SPlanCell)>)
    decreases members, members.len() - i,
{
    if i < 0 || i >= members.len() {
        (p, fields)
    } else {
        proof {
            assert(decreases_to!(members => members[i]));
            assert(decreases_to!(members[i] => members[i].1));
        }
        let (p1, c) = build_field_cell(p, members[i].1, members[i].0);
        build_fields(p1, members, i + 1, fields.push((members[i].0, c)))
    }
}

/// The cell for a field value; nested objects and arrays become sections.
pub open spec fn build_field_cell(p: SPlan, v: SpecJson, key: Seq<char>) -> (SPlan, SPlanCell)
    decreases v, 0int,
{
    match v {
        SpecJson::Object(obj) => {
            let pk = p.next_pk;
            let p1 = SPlan { next_pk: pk + 1, ..p };
            let (p2, idx) = get_or_create_object_section(p1, key);
            let (p3, fields) = build_fields(p2, obj, 0, Seq::empty());
            (merge_into(p3, idx, SPlanRow { pk: Some(pk), fields }), SPlanCell::RowRef(pk))
        },
        SpecJson::Array(arr) => {
            if arr.len() == 0 {
                (p, SPlanCell::EmptyArrayRef)
            } else if all_objects(arr) {
                let (p1, idx) = create_array_of_objects_section(p, key);
                let p2 = guard_section(build_object_items(p1, arr, 0, idx), idx);
                (p2, SPlanCell::NamedRef(p2.sections[idx as int].name))
            } else {
                let (p1, name) = reserve_name(p, key);
                let idx = p1.sections.len();
                let p2 = SPlan {
                    sections: p1.sections.push(
                        empty_section(name, SKind::Array, SRole::PrimitiveArray, false),
                    ),
                    ..p1
                };
                (build_items(p2, arr, 0, idx, name), SPlanCell::NamedRef(name))
            }
        },
        _ => (p, SPlanCell::Value(v)),
    }
}

/// Object items `j..` of an array, each merged as a row (without pk) into section `idx`.
pub open spec fn build_object_items(p: SPlan, arr: Seq<SpecJson>, j: int, idx: nat) -> SPlan
    decreases arr, arr.len() - j,
{
    if j < 0 || j >= arr.len() {
        p
    } else {
        match arr[j] {
            SpecJson::Object(obj) => {
                proof {
                    assert(decreases_to!(arr => arr[j]));
                }
                let (p1, fields) = build_fields(p, obj, 0, Seq::empty());
                build_object_items(merge_into(p1, idx, SPlanRow { pk: None, fields }), arr, j + 1, idx)
            },
            _ => build_object_items(p, arr, j + 1, idx),
        }
    }
}

/// Items `j..` of an array, each appended as a value to array section `idx`.
pub open spec fn build_items(p: SPlan, arr: Seq<SpecJson>, j: int, idx: nat, base: Seq<char>) -> SPlan
    decreases arr, arr.len() - j,
{
    if j < 0 || j >= arr.len() {
        p
    } else {
        proof {
            assert(decreases_to!(arr => arr[j]));
        }
        let (p1, c) = build_array_item(p, arr[j], base);
        build_items(push_value(p1, idx, c), arr, j + 1, idx, base)
    }
}

/// The cell for one item of a primitive array whose section is named `base`.
pub open spec fn build_array_item(p: SPlan, v: SpecJson, base: Seq<char>) -> (SPlan, SPlanCell)
    decreases v, 0int,
{
    match v {
        SpecJson::Object(obj) => {
            let pk = p.next_pk;
            let p1 = SPlan { next_pk: pk + 1, ..p };
            let (p2, idx) = get_or_create_object_section(p1, base + item_suffix());
            let (p3, fields) = build_fields(p2, obj, 0, Seq::empty());
            (merge_into(p3, idx, SPlanRow { pk: Some(pk), fields }), SPlanCell::RowRef(pk))
        },
        SpecJson::Array(arr) => {
            if arr.len() == 0 {
                (p, SPlanCell::EmptyArrayRef)
            } else {
                let (p1, name) = reserve_name(p, base + row_suffix());
                let idx = p1.sections.len();
                if all_objects(arr) {
                    let p2 = SPlan {
                        sections: p1.sections.push(
                            empty_section(name, SKind::Table, SRole::ArrayOfObjects, false),
                        ),
                        ..p1
                    };
                    (guard_section(build_object_items(p2, arr, 0, idx), idx), SPlanCell::NamedRef(name))
                } else {
                    let p2 = SPlan {
                        sections: p1.sections.push(
                            empty_section(name, SKind::Array, SRole::PrimitiveArray, false),
                        ),
                        ..p1
                    };
                    (build_items(p2, arr, 0, idx, name), SPlanCell::NamedRef(name))
                }
            }
        },
        _ => (p, SPlanCell::Value(v)),
    }
}

pub open spec fn data_word() -> Seq<char> {
    seq!['d', 'a', 't', 'a']
}

pub open spec fn insert_front(p: SPlan, sec: SPlanSection) -> SPlan {
    SPlan { sections: seq![sec] + p.sections, ..p }
}

/// A table without a pk column whose first data column is named `pk`: read back, that
/// column would be taken for the structural one.
pub open spec fn pk_first(sec: SPlanSection) -> bool {
    &&& sec.kind is Table
    &&& !sec.has_pk_column
    &&& sec.data_columns.len() > 0
    &&& sec.data_columns[0] == seq!['p', 'k']
}

/// The rows, numbered with pks from `next` on.
pub open spec fn numbered_rows(rows: Seq<SPlanRow>, next: nat) -> Seq<SPlanRow> {
    Seq::new(rows.len(), |i: int| SPlanRow { pk: Some((next + i) as nat), fields: rows[i].fields })
}

/// A `pk_first` table gets a pk column, with a fresh pk for each row, so that its `pk`
/// column reads back as data; any other section is left as it is.
#[verifier::opaque]
pub open spec fn guard_pk(p: SPlan, sec: SPlanSection) -> (SPlan, SPlanSection) {
    if pk_first(sec) {
        (
            SPlan { next_pk: p.next_pk + sec.rows.len(), ..p },
            SPlanSection { has_pk_column: true, rows: numbered_rows(sec.rows, p.next_pk), ..sec },
        )
    } else {
        (p, sec)
    }
}

/// `guard_pk` applied to section `idx` of the plan.
pub open spec fn guard_section(p: SPlan, idx: nat) -> SPlan {
    let (p2, s2) = guard_pk(p, p.sections[idx as int]);
    SPlan { sections: p2.sections.update(idx as int, s2), ..p2 }
}

/// Only a `pk_first` table is changed by `guard_pk`.
pub proof fn lemma_guard_pk_off(p: SPlan, sec: SPlanSection)
    requires
        !pk_first(sec),
    ensures
        guard_pk(p, sec) == (p, sec),
{
    reveal(guard_pk);
}

/// `q` keeps the sections of `p`, their roles, and every table of objects but section
/// `skip` (none when `skip` is negative) as it was.
pub open spec fn keeps_tables(p: SPlan, q: SPlan, skip: int) -> bool {
    &&& p.sections.len() <= q.sections.len()
    &&& forall|i: int| 0 <= i < p.sections.len() ==> (#[trigger] q.sections[i]).role == p.sections[i].role
    &&& forall|i: int|
        0 <= i < p.sections.len() && i != skip && p.sections[i].role is ArrayOfObjects ==> #[trigger] q.sections[i]
            == p.sections[i]
}

proof fn lemma_keeps_trans(p: SPlan, q: SPlan, r: SPlan, a: int, b: int)
    requires
        keeps_tables(p, q, a),
        keeps_tables(q, r, b),
        a < 0 || a >= p.sections.len(),
        b < 0 || b >= p.sections.len(),
    ensures
        keeps_tables(p, r, -1),
{
    assert forall|i: int| 0 <= i < p.sections.len() implies (#[trigger] r.sections[i]).role == p.sections[i].role by {
        assert(q.sections[i].role == p.sections[i].role);
    }
    assert forall|i: int| 0 <= i < p.sections.len() && i != -1 && p.sections[i].role is ArrayOfObjects implies #[trigger] r.sections[i]
        == p.sections[i] by {
        assert(q.sections[i] == p.sections[i]);
    }
}

proof fn lemma_keeps_refl(p: SPlan, q: SPlan)
    requires
        q.sections == p.sections,
    ensures
        keeps_tables(p, q, -1),
{
}

proof fn lemma_keeps_push(p: SPlan, sec: SPlanSection)
    ensures
        keeps_tables(p, SPlan { sections: p.sections.push(sec), ..p }, -1),
{
    let q = SPlan { sections: p.sections.push(sec), ..p };
    assert forall|i: int| 0 <= i < p.sections.len() implies #[trigger] q.sections[i] == p.sections[i] by {}
}

proof fn lemma_keeps_update(p: SPlan, idx: nat, sec: SPlanSection)
    requires
        idx < p.sections.len(),
        sec.role == p.sections[idx as int].role,
    ensures
        keeps_tables(p, SPlan { sections: p.sections.update(idx as int, sec), ..p }, idx as int),
        !(sec.role is ArrayOfObjects) ==> keeps_tables(p, SPlan { sections: p.sections.update(idx as int, sec), ..p }, -1),
{
}

proof fn lemma_keeps_guard(p: SPlan, idx: nat)
    requires
        idx < p.sections.len(),
    ensures
        keeps_tables(p, guard_section(p, idx), idx as int),
        guard_section(p, idx).next_pk == p.next_pk + (if pk_first(p.sections[idx as int]) {
            p.sections[idx as int].rows.len()
        } else {
            0
        }),
{
    reveal(guard_pk);
    lemma_keeps_update(SPlan { next_pk: guard_section(p, idx).next_pk, ..p }, idx, guard_pk(p, p.sections[idx as int]).1);
}

pub(crate) proof fn lemma_keeps_object_section(p: SPlan, key: Seq<char>)
    ensures
        keeps_tables(p, get_or_create_object_section(p, key).0, -1),
        get_or_create_object_section(p, key).1 < get_or_create_object_section(p, key).0.sections.len(),
        get_or_create_object_section(p, key).0.sections[get_or_create_object_section(p, key).1 as int].role is Object,
{
    match key_lookup(p.by_key, key) {
        Some(idx) if idx < p.sections.len() && p.sections[idx as int].role is Object => {},
        _ => {
            let (p1, name) = reserve_name(p, key);
            lemma_keeps_push(p1, empty_section(name, SKind::Table, SRole::Object, true));
        },
    }
}

pub(crate) proof fn lemma_keeps_fields(p: SPlan, members: Seq<(Seq<char>, SpecJson)>, i: int, fields: Seq<(Seq<char>, SPlanCell)>)
    ensures
        keeps_tables(p, build_fields(p, members, i, fields).0, -1),
    decreases members, members.len() - i,
{
    if 0 <= i < members.len() {
        assert(decreases_to!(members => members[i]));
        assert(decreases_to!(members[i] => members[i].1));
        lemma_keeps_cell(p, members[i].1, members[i].0);
        let (p1, c) = build_field_cell(p, members[i].1, members[i].0);
        lemma_keeps_fields(p1, members, i + 1, fields.push((members[i].0, c)));
        lemma_keeps_trans(p, p1, build_fields(p1, members, i + 1, fields.push((members[i].0, c))).0, -1, -1);
    }
}

proof fn lemma_keeps_nested_object(p: SPlan, obj: Seq<(Seq<char>, SpecJson)>, key: Seq<char>)
    ensures
        ({
            let pk = p.next_pk;
            let p1 = SPlan { next_pk: pk + 1, ..p };
            let (p2, idx) = get_or_create_object_section(p1, key);
            let (p3, fields) = build_fields(p2, obj, 0, Seq::empty());
            keeps_tables(p, merge_into(p3, idx, SPlanRow { pk: Some(pk), fields }), -1)
        }),
    decreases obj, obj.len() + 1,
{
    let pk = p.next_pk;
    let p1 = SPlan { next_pk: pk + 1, ..p };
    lemma_keeps_object_section(p1, key);
    let (p2, idx) = get_or_create_object_section(p1, key);
    lemma_keeps_fields(p2, obj, 0, Seq::empty());
    let (p3, fields) = build_fields(p2, obj, 0, Seq::empty());
    assert(p3.sections[idx as int].role is Object);
    lemma_keeps_update(p3, idx, merge_row(p3.sections[idx as int], SPlanRow { pk: Some(pk), fields }));
    lemma_keeps_trans(p1, p2, p3, -1, -1);
    lemma_keeps_trans(p1, p3, merge_into(p3, idx, SPlanRow { pk: Some(pk), fields }), -1, -1);
}

proof fn lemma_keeps_cell(p: SPlan, v: SpecJson, key: Seq<char>)
    ensures
        keeps_tables(p, build_field_cell(p, v, key).0, -1),
    decreases v, 0int,
{
    match v {
        SpecJson::Object(obj) => {
            lemma_keeps_nested_object(p, obj, key);
        },
        SpecJson::Array(arr) => {
            if arr.len() == 0 {
            } else if all_objects(arr) {
                let (p1, idx) = create_array_of_objects_section(p, key);
                let (pr, name) = reserve_name(p, key);
                lemma_keeps_push(pr, empty_section(name, SKind::Table, SRole::ArrayOfObjects, false));
                lemma_keeps_object_items(p1, arr, 0, idx);
                let p2 = build_object_items(p1, arr, 0, idx);
                lemma_keeps_guard(p2, idx);
                lemma_keeps_trans(p, p1, p2, -1, idx as int);
                lemma_keeps_trans(p, p2, guard_section(p2, idx), -1, idx as int);
            } else {
                let (p1, name) = reserve_name(p, key);
                let idx = p1.sections.len();
                let p2 = SPlan {
                    sections: p1.sections.push(empty_section(name, SKind::Array, SRole::PrimitiveArray, false)),
                    ..p1
                };
                lemma_keeps_push(p1, empty_section(name, SKind::Array, SRole::PrimitiveArray, false));
                lemma_keeps_items(p2, arr, 0, idx, name);
                lemma_keeps_trans(p, p2, build_items(p2, arr, 0, idx, name), -1, idx as int);
            }
        },
        _ => {},
    }
}

proof fn lemma_keeps_object_items(p: SPlan, arr: Seq<SpecJson>, j: int, idx: nat)
    requires
        idx < p.sections.len(),
    ensures
        keeps_tables(p, build_object_items(p, arr, j, idx), idx as int),
    decreases arr, arr.len() - j,
{
    if 0 <= j < arr.len() {
        match arr[j] {
            SpecJson::Object(obj) => {
                assert(decreases_to!(arr => arr[j]));
                lemma_keeps_fields(p, obj, 0, Seq::empty());
                let (p1, fields) = build_fields(p, obj, 0, Seq::empty());
                lemma_keeps_update(p1, idx, merge_row(p1.sections[idx as int], SPlanRow { pk: None, fields }));
                let p2 = merge_into(p1, idx, SPlanRow { pk: None, fields });
                lemma_keeps_object_items(p2, arr, j + 1, idx);
                let q = build_object_items(p2, arr, j + 1, idx);
                assert forall|i: int| 0 <= i < p.sections.len() implies (#[trigger] q.sections[i]).role == p.sections[i].role by {
                    assert(p1.sections[i].role == p.sections[i].role);
                    assert(p2.sections[i].role == p1.sections[i].role);
                }
                assert forall|i: int| 0 <= i < p.sections.len() && i != idx && p.sections[i].role is ArrayOfObjects implies #[trigger] q.sections[i]
                    == p.sections[i] by {
                    assert(p1.sections[i] == p.sections[i]);
                    assert(p2.sections[i] == p1.sections[i]);
                }
            },
            _ => {
                lemma_keeps_object_items(p, arr, j + 1, idx);
            },
        }
    }
}

proof fn lemma_keeps_items(p: SPlan, arr: Seq<SpecJson>, j: int, idx: nat, base: Seq<char>)
    requires
        idx < p.sections.len(),
    ensures
        keeps_tables(p, build_items(p, arr, j, idx, base), idx as int),
    decreases arr, arr.len() - j,
{
    if 0 <= j < arr.len() {
        assert(decreases_to!(arr => arr[j]));
        lemma_keeps_item(p, arr[j], base);
        let (p1, c) = build_array_item(p, arr[j], base);
        let sec = p1.sections[idx as int];
        lemma_keeps_update(p1, idx, SPlanSection { values: sec.values.push(c), ..sec });
        let p2 = push_value(p1, idx, c);
        lemma_keeps_items(p2, arr, j + 1, idx, base);
        let q = build_items(p2, arr, j + 1, idx, base);
        assert forall|i: int| 0 <= i < p.sections.len() implies (#[trigger] q.sections[i]).role == p.sections[i].role by {
            assert(p1.sections[i].role == p.sections[i].role);
            assert(p2.sections[i].role == p1.sections[i].role);
        }
        assert forall|i: int| 0 <= i < p.sections.len() && i != idx && p.sections[i].role is ArrayOfObjects implies #[trigger] q.sections[i]
            == p.sections[i] by {
            assert(p1.sections[i] == p.sections[i]);
            assert(p2.sections[i] == p1.sections[i]);
        }
    }
}

proof fn lemma_keeps_item(p: SPlan, v: SpecJson, base: Seq<char>)
    ensures
        keeps_tables(p, build_array_item(p, v, base).0, -1),
    decreases v, 0int,
{
    match v {
        SpecJson::Object(obj) => {
            lemma_keeps_nested_object(p, obj, base + item_suffix());
        },
        SpecJson::Array(arr) => {
            if arr.len() == 0 {
            } else {
                let (p1, name) = reserve_name(p, base + row_suffix());
                let idx = p1.sections.len();
                if all_objects(arr) {
                    let sec = empty_section(name, SKind::Table, SRole::ArrayOfObjects, false);
                    let p2 = SPlan { sections: p1.sections.push(sec), ..p1 };
                    lemma_keeps_push(p1, sec);
                    lemma_keeps_object_items(p2, arr, 0, idx);
                    let p3 = build_object_items(p2, arr, 0, idx);
                    lemma_keeps_guard(p3, idx);
                    lemma_keeps_trans(p, p2, p3, -1, idx as int);
                    lemma_keeps_trans(p, p3, guard_section(p3, idx), -1, idx as int);
                } else {
                    let sec = empty_section(name, SKind::Array, SRole::PrimitiveArray, false);
                    let p2 = SPlan { sections: p1.sections.push(sec), ..p1 };
                    lemma_keeps_push(p1, sec);
                    lemma_keeps_items(p2, arr, 0, idx, name);
                    lemma_keeps_trans(p, p2, build_items(p2, arr, 0, idx, name), -1, idx as int);
                }
            }
        },
        _ => {},
    }
}

/// The plan of a whole object or array value.
pub open spec fn plan_root(v: SpecJson) -> SPlan {
    let (p0, root_name) = reserve_name(plan_init(), data_word());
    match v {
        SpecJson::Object(obj) => {
            let p1 = SPlan { root_array: false, ..p0 };
            let (p2, fields) = build_fields(p1, obj, 0, Seq::empty());
            let sec = merge_row(
                empty_section(root_name, SKind::Table, SRole::Root, false),
                SPlanRow { pk: None, fields },
            );
            let (p3, sec2) = guard_pk(p2, sec);
            insert_front(p3, sec2)
        },
        SpecJson::Array(arr) => {
            let p1 = SPlan { root_array: true, ..p0 };
            if arr.len() > 0 && all_objects(arr) {
                root_object_items(p1, arr, 0, empty_section(root_name, SKind::Table, SRole::ArrayOfObjects, false))
            } else {
                root_items(p1, arr, 0, empty_section(root_name, SKind::Array, SRole::PrimitiveArray, false), root_name)
            }
        },
        _ => p0,
    }
}

/// Root array of objects: items `j..` merged into the (not yet placed) root section.
pub open spec fn root_object_items(p: SPlan, arr: Seq<SpecJson>, j: int, sec: SPlanSection) -> SPlan
    decreases arr.len() - j,
{
    if j < 0 || j >= arr.len() {
        let (p2, sec2) = guard_pk(p, sec);
        insert_front(p2, sec2)
    } else {
        match arr[j] {
            SpecJson::Object(obj) => {
                let (p1, fields) = build_fields(p, obj, 0, Seq::empty());
                root_object_items(p1, arr, j + 1, merge_row(sec, SPlanRow { pk: None, fields }))
            },
            _ => root_object_items(p, arr, j + 1, sec),
        }
    }
}

/// Root primitive array: items `j..` appended to the (not yet placed) root section.
pub open spec fn root_items(p: SPlan, arr: Seq<SpecJson>, j: int, sec: SPlanSection, base: Seq<char>) -> SPlan
    decreases arr.len() - j,
{
    if j < 0 || j >= arr.len() {
        insert_front(p, sec)
    } else {
        let (p1, c) = build_array_item(p, arr[j], base);
        root_items(p1, arr, j + 1, SPlanSection { values: sec.values.push(c), ..sec }, base)
    }
}

// ---------------------------------------------------------------------------
// Rendering
// ---------------------------------------------------------------------------

pub open spec fn is_ws(c: char) -> bool {
    c == ' ' || c == '\t'
}

/// Contains a character that a CSV field must quote.
pub open spec fn has_csv_special(s: Seq<char>) -> bool {
    s.contains(',') || s.contains('"') || s.contains('\n') || s.contains('\r')
}

/// Whether a column name must be quoted: it holds a CSV special character, or it starts
/// with `#` or `:` (a line starting so would be read as a comment or a structural line).
pub open spec fn header_needs_quoting(s: Seq<char>) -> bool {
    has_csv_special(s) || (s.len() > 0 && (s[0] == '#' || s[0] == ':'))
}

/// Whether an unquoted string would read back as something else.
pub open spec fn spec_needs_quoting(s: Seq<char>) -> bool {
    ||| s.len() == 0
    ||| is_ws(s[0])
    ||| is_ws(s.last())
    ||| has_csv_special(s)
    ||| s == crate::resolve::word_true()
    ||| s == crate::resolve::word_false()
    ||| s == crate::resolve::word_null()
    ||| s[0] == '@'
    ||| s[0] == '#'
    ||| s[0] == ':'
    ||| spec_json_number(s) is Some
}

/// `s` with each `"` doubled.
pub open spec fn escape_quotes(s: Seq<char>) -> Seq<char>
    decreases s.len(),
{
    if s.len() == 0 {
        Seq::empty()
    } else if s.last() == '"' {
        escape_quotes(s.drop_last()) + seq!['"', '"']
    } else {
        escape_quotes(s.drop_last()).push(s.last())
    }
}

pub open spec fn spec_quote_csv(s: Seq<char>) -> Seq<char> {
    seq!['"'] + escape_quotes(s) + seq!['"']
}

pub open spec fn spec_csv_field_header(s: Seq<char>) -> Seq<char> {
    if header_needs_quoting(s) {
        spec_quote_csv(s)
    } else {
        s
    }
}

pub open spec fn spec_render_scalar(v: SpecJson) -> Seq<char> {
    match v {
        SpecJson::Str(s) => if spec_needs_quoting(s) {
            spec_quote_csv(s)
        } else {
            s
        },
        SpecJson::Number(n) => n,
        SpecJson::Bool(b) => if b {
            crate::resolve::word_true()
        } else {
            crate::resolve::word_false()
        },
        SpecJson::Null => crate::resolve::word_null(),
        _ => Seq::empty(),
    }
}

pub open spec fn spec_render_cell(c: SPlanCell) -> Seq<char> {
    match c {
        SPlanCell::Value(v) => spec_render_scalar(v),
        SPlanCell::RowRef(n) => seq!['@'] + dec(n),
        SPlanCell::NamedRef(name) => seq!['@'] + name,
        SPlanCell::EmptyArrayRef => crate::resolve::word_empty_array(),
    }
}

/// The parts joined by commas.
pub open spec fn join_comma(parts: Seq<Seq<char>>) -> Seq<char>
    decreases parts.len(),
{
    if parts.len() == 0 {
        Seq::empty()
    } else if parts.len() == 1 {
        parts[0]
    } else {
        join_comma(parts.drop_last()) + seq![','] + parts.last()
    }
}

/// The first field called `col`.
pub open spec fn find_field(fields: Seq<(Seq<char>, SPlanCell)>, col: Seq<char>) -> Option<SPlanCell>
    decreases fields.len(),
{
    if fields.len() == 0 {
        None
    } else if fields[0].0 == col {
        Some(fields[0].1)
    } else {
        find_field(fields.drop_first(), col)
    }
}

pub open spec fn pk_word() -> Seq<char> {
    seq!['p', 'k']
}

pub open spec fn header_parts(sec: SPlanSection) -> Seq<Seq<char>> {
    (if sec.has_pk_column {
        seq![pk_word()]
    } else {
        Seq::empty()
    }) + sec.data_columns.map_values(|c: Seq<char>| spec_csv_field_header(c))
}

pub open spec fn row_parts(sec: SPlanSection, row: SPlanRow) -> Seq<Seq<char>> {
    (if sec.has_pk_column {
        seq![
            match row.pk {
                Some(n) => dec(n),
                None => Seq::empty(),
            },
        ]
    } else {
        Seq::empty()
    }) + sec.data_columns.map_values(|c: Seq<char>| column_text(row.fields, c))
}

/// The rendered cell of column `c` in a row with these fields (empty when absent).
pub open spec fn column_text(fields: Seq<(Seq<char>, SPlanCell)>, c: Seq<char>) -> Seq<char> {
    match find_field(fields, c) {
        Some(cell) => spec_render_cell(cell),
        None => Seq::empty(),
    }
}

pub open spec fn rows_text(sec: SPlanSection, n: int) -> Seq<char>
    decreases n,
{
    if n <= 0 {
        Seq::empty()
    } else {
        rows_text(sec, n - 1) + join_comma(row_parts(sec, sec.rows[n - 1])) + seq!['\n']
    }
}

pub open spec fn values_text(vals: Seq<SPlanCell>, n: int) -> Seq<char>
    decreases n,
{
    if n <= 0 {
        Seq::empty()
    } else {
        values_text(vals, n - 1) + spec_render_cell(vals[n - 1]) + seq!['\n']
    }
}

pub open spec fn render_section(sec: SPlanSection) -> Seq<char> {
    let head = seq![':'] + sec.name + (if sec.kind is Array {
        seq!['[', ']']
    } else {
        Seq::empty()
    }) + seq!['\n'];
    match sec.kind {
        SKind::Table => head + join_comma(header_parts(sec)) + seq!['\n'] + rows_text(
            sec,
            sec.rows.len() as int,
        ),
        SKind::Array => head + values_text(sec.values, sec.values.len() as int),
    }
}

pub open spec fn sections_text(secs: Seq<SPlanSection>, n: int) -> Seq<char>
    decreases n,
{
    if n <= 0 {
        Seq::empty()
    } else {
        sections_text(secs, n - 1) + (if n - 1 > 0 {
            seq!['\n']
        } else {
            Seq::empty()
        }) + render_section(secs[n - 1])
    }
}

pub open spec fn root_line(array: bool) -> Seq<char> {
    if array {
        seq![':', 'r', 'o', 'o', 't', '[', ']', '\n']
    } else {
        seq![':', 'r', 'o', 'o', 't', '\n']
    }
}

pub open spec fn render(p: SPlan) -> Seq<char> {
    root_line(p.root_array) + sections_text(p.sections, p.sections.len() as int)
}

/// JSON value to NORM text; scalars are refused.
pub open spec fn spec_encode(v: SpecJson) -> Result<Seq<char>, SpecError> {
    match v {
        SpecJson::Object(_) | SpecJson::Array(_) => Ok(render(plan_root(v))),
        _ => Err(SpecError::ScalarRoot),
    }
}

// ---------------------------------------------------------------------------
// Executable quoting and names
// ---------------------------------------------------------------------------

fn contains_char(v: &Vec<char>, c: char) -> (r: bool)
    ensures
        r == v@.contains(c),
{
    let mut i: usize = 0;
    while i < v.len()
        invariant
            i <= v@.len(),
            forall|k: int| 0 <= k < i ==> v@[k] != c,
        decreases v@.len() - i,
    {
        if v[i] == c {
            assert(v@[i as int] == c);
            return true;
        }
        i += 1;
    }
    false
}

fn has_special_chars(v: &Vec<char>) -> (r: bool)
    ensures
        r == has_csv_special(v@),
{
    contains_char(v, ',') || contains_char(v, '"') || contains_char(v, '\n') || contains_char(
        v,
        '\r',
    )
}

/// Whether the string `s` must be quoted so that it reads back as the same string.
pub fn needs_quoting(s: &str) -> (r: bool)
    ensures
        r == spec_needs_quoting(s@),
{
    let v = str_chars(s);
    if v.len() == 0 {
        return true;
    }
    if v[0] == ' ' || v[0] == '\t' || v[v.len() - 1] == ' ' || v[v.len() - 1] == '\t' {
        return true;
    }
    if has_special_chars(&v) {
        return true;
    }
    assert(v@.subrange(0, v@.len() as int) =~= v@);
    let w_true = vec!['t', 'r', 'u', 'e'];
    assert(w_true@ =~= crate::resolve::word_true());
    let w_false = vec!['f', 'a', 'l', 's', 'e'];
    assert(w_false@ =~= crate::resolve::word_false());
    let w_null = vec!['n', 'u', 'l', 'l'];
    assert(w_null@ =~= crate::resolve::word_null());
    if range_eq(&v, 0, v.len(), &w_true) || range_eq(&v, 0, v.len(), &w_false) || range_eq(
        &v,
        0,
        v.len(),
        &w_null,
    ) {
        return true;
    }
    if v[0] == '@' || v[0] == '#' || v[0] == ':' {
        return true;
    }
    looks_like_number(s)
}

/// Appends `s` as a quoted CSV field (quotes doubled) to `out`.
fn push_quoted(out: &mut Vec<char>, s: &str)
    ensures
        final(out)@ == old(out)@ + spec_quote_csv(s@),
{
    let v = str_chars(s);
    let ghost o = out@;
    out.push('"');
    let mut i: usize = 0;
    while i < v.len()
        invariant
            i <= v@.len(),
            v@ == s@,
            out@ == o + seq!['"'] + escape_quotes(v@.subrange(0, i as int)),
        decreases v@.len() - i,
    {
        assert(v@.subrange(0, i + 1).drop_last() =~= v@.subrange(0, i as int));
        if v[i] == '"' {
            out.push('"');
            out.push('"');
        } else {
            out.push(v[i]);
        }
        assert(out@ =~= o + seq!['"'] + escape_quotes(v@.subrange(0, i + 1)));
        i += 1;
    }
    out.push('"');
    assert(v@.subrange(0, v@.len() as int) =~= v@);
    assert(out@ =~= o + spec_quote_csv(s@));
}

/// `s` as a quoted CSV field, with each `"` doubled.
pub fn quote_csv(s: &str) -> (r: String)
    ensures
        r@ == spec_quote_csv(s@),
{
    let mut out: Vec<char> = Vec::new();
    push_quoted(&mut out, s);
    assert(out@ =~= spec_quote_csv(s@));
    string_of(&out)
}

/// A header cell: quoted only when it holds a comma, a quote or a line break.
pub fn csv_field_header(s: &str) -> (r: String)
    ensures
        r@ == spec_csv_field_header(s@),
{
    let v = str_chars(s);
    if has_special_chars(&v) || (v.len() > 0 && (v[0] == '#' || v[0] == ':')) {
        quote_csv(s)
    } else {
        string_of(&v)
    }
}

/// A valid section name made from `s`: each character that may not stand at its place
/// becomes `_`, and an empty `s` gives `_`.
pub fn sanitise_name(s: &str) -> (r: String)
    ensures
        r@ == sanitise(s@),
        valid_section_name(r@),
{
    let v = str_chars(s);
    let mut out: Vec<char> = Vec::new();
    let mut i: usize = 0;
    while i < v.len()
        invariant
            i <= v@.len(),
            v@ == s@,
            out@.len() == i,
            forall|k: int| 0 <= k < i ==> out@[k] == sanitise(s@)[k],
        decreases v@.len() - i,
    {
        let ch = v[i];
        let valid = if i == 0 {
            ('a' <= ch && ch <= 'z') || ('A' <= ch && ch <= 'Z') || ch == '_'
        } else {
            ('a' <= ch && ch <= 'z') || ('A' <= ch && ch <= 'Z') || ('0' <= ch && ch <= '9')
                || ch == '_'
        };
        out.push(if valid {
            ch
        } else {
            '_'
        });
        i += 1;
    }
    if out.len() == 0 {
        out.push('_');
    }
    assert(out@ =~= sanitise(s@));
    assert forall|k: int| 1 <= k < out@.len() implies #[trigger] is_name_char(out@[k]) by {}
    string_of(&out)
}

// ---------------------------------------------------------------------------
// Sizes (bound the pk counter)
// ---------------------------------------------------------------------------

/// Number of JSON nodes in a value.
pub open spec fn json_size(v: SpecJson) -> nat
    decreases v, 0int,
{
    match v {
        SpecJson::Object(m) => 1 + members_size(m, m.len() as int),
        SpecJson::Array(a) => 1 + items_size(a, a.len() as int),
        _ => 1,
    }
}

pub open spec fn members_size(m: Seq<(Seq<char>, SpecJson)>, n: int) -> nat
    decreases m, n,
{
    if n <= 0 || n > m.len() {
        0
    } else {
        proof {
            assert(decreases_to!(m => m[n - 1]));
            assert(decreases_to!(m[n - 1] => m[n - 1].1));
        }
        members_size(m, n - 1) + json_size(m[n - 1].1)
    }
}

pub open spec fn items_size(a: Seq<SpecJson>, n: int) -> nat
    decreases a, n,
{
    if n <= 0 || n > a.len() {
        0
    } else {
        proof {
            assert(decreases_to!(a => a[n - 1]));
        }
        items_size(a, n - 1) + json_size(a[n - 1])
    }
}

proof fn lemma_members_size_mono(m: Seq<(Seq<char>, SpecJson)>, k: int, n: int)
    requires
        0 <= k <= n <= m.len(),
    ensures
        members_size(m, k) <= members_size(m, n),
    decreases n,
{
    if k < n {
        lemma_members_size_mono(m, k, n - 1);
    }
}

proof fn lemma_items_size_mono(a: Seq<SpecJson>, k: int, n: int)
    requires
        0 <= k <= n <= a.len(),
    ensures
        items_size(a, k) <= items_size(a, n),
    decreases n,
{
    if k < n {
        lemma_items_size_mono(a, k, n - 1);
    }
}

// ---------------------------------------------------------------------------
// Executable plan
// ---------------------------------------------------------------------------

#[derive(Clone, Copy)]
enum SectionKind {
    Table,
    Array,
}

#[derive(Clone, Copy)]
enum Role {
    Root,
    Object,
    ArrayOfObjects,
    PrimitiveArray,
}

enum PlanCell {
    Value(JsonValue),
    RowRef(u64),
    NamedRef(String),
    EmptyArrayRef,
}

struct PlanRow {
    pk: Option<u64>,
    fields: Vec<(String, PlanCell)>,
}

struct PlanSection {
    name: String,
    kind: SectionKind,
    role: Role,
    has_pk_column: bool,
    data_columns: Vec<String>,
    rows: Vec<PlanRow>,
    values: Vec<PlanCell>,
}

struct Planner {
    sections: Vec<PlanSection>,
    object_section_by_key: Vec<(String, usize)>,
    used_names: Vec<String>,
    next_pk: u64,
    root_array: bool,
}

spec fn kind_model(k: SectionKind) -> SKind {
    match k {
        SectionKind::Table => SKind::Table,
        SectionKind::Array => SKind::Array,
    }
}

spec fn role_model(r: Role) -> SRole {
    match r {
        Role::Root => SRole::Root,
        Role::Object => SRole::Object,
        Role::ArrayOfObjects => SRole::ArrayOfObjects,
        Role::PrimitiveArray => SRole::PrimitiveArray,
    }
}

impl PlanCell {
    spec fn model(&self) -> SPlanCell {
        match self {
            PlanCell::Value(v) => SPlanCell::Value(v.model()),
            PlanCell::RowRef(n) => SPlanCell::RowRef(*n as nat),
            PlanCell::NamedRef(s) => SPlanCell::NamedRef(s@),
            PlanCell::EmptyArrayRef => SPlanCell::EmptyArrayRef,
        }
    }
}

spec fn fields_model(v: Seq<(String, PlanCell)>) -> Seq<(Seq<char>, SPlanCell)> {
    v.map_values(|f: (String, PlanCell)| (f.0@, f.1.model()))
}

spec fn pcells_model(v: Seq<PlanCell>) -> Seq<SPlanCell> {
    v.map_values(|c: PlanCell| c.model())
}

spec fn opt_u64(o: Option<u64>) -> Option<nat> {
    match o {
        Some(n) => Some(n as nat),
        None => None,
    }
}

impl PlanRow {
    spec fn model(&self) -> SPlanRow {
        SPlanRow { pk: opt_u64(self.pk), fields: fields_model(self.fields@) }
    }
}

spec fn prows_model(v: Seq<PlanRow>) -> Seq<SPlanRow> {
    v.map_values(|r: PlanRow| r.model())
}

spec fn names_model(v: Seq<String>) -> Seq<Seq<char>> {
    v.map_values(|s: String| s@)
}

impl PlanSection {
    spec fn model(&self) -> SPlanSection {
        SPlanSection {
            name: self.name@,
            kind: kind_model(self.kind),
            role: role_model(self.role),
            has_pk_column: self.has_pk_column,
            data_columns: names_model(self.data_columns@),
            rows: prows_model(self.rows@),
            values: pcells_model(self.values@),
        }
    }
}

spec fn psections_model(v: Seq<PlanSection>) -> Seq<SPlanSection> {
    v.map_values(|s: PlanSection| s.model())
}

spec fn bykey_model(v: Seq<(String, usize)>) -> Seq<(Seq<char>, nat)> {
    v.map_values(|e: (String, usize)| (e.0@, e.1 as nat))
}

impl Planner {
    spec fn model(&self) -> SPlan {
        SPlan {
            sections: psections_model(self.sections@),
            by_key: bykey_model(self.object_section_by_key@),
            used: names_model(self.used_names@),
            next_pk: self.next_pk as nat,
            root_array: self.root_array,
        }
    }
}

fn new_section(name: String, kind: SectionKind, role: Role, has_pk: bool) -> (r: PlanSection)
    ensures
        r.model() == empty_section(name@, kind_model(kind), role_model(role), has_pk),
{
    let r = PlanSection {
        name,
        kind,
        role,
        has_pk_column: has_pk,
        data_columns: Vec::new(),
        rows: Vec::new(),
        values: Vec::new(),
    };
    assert(names_model(r.data_columns@) =~= Seq::<Seq<char>>::empty());
    assert(prows_model(r.rows@) =~= Seq::<SPlanRow>::empty());
    assert(pcells_model(r.values@) =~= Seq::<SPlanCell>::empty());
    r
}

fn names_contain(names: &Vec<String>, s: &String) -> (r: bool)
    ensures
        r == names_model(names@).contains(s@),
{
    let ghost m = names_model(names@);
    let mut i: usize = 0;
    while i < names.len()
        invariant
            i <= names@.len(),
            m == names_model(names@),
            forall|k: int| 0 <= k < i ==> m[k] != s@,
        decreases names@.len() - i,
    {
        if names[i] == *s {
            assert(m[i as int] == s@);
            return true;
        }
        i += 1;
    }
    false
}

/// `base_n`
fn make_candidate(base: &String, n: u128) -> (r: String)
    ensures
        r@ == candidate(base@, n as nat),
{
    let mut v: Vec<char> = Vec::new();
    push_str_chars(&mut v, base.as_str());
    v.push('_');
    push_decimal(&mut v, n);
    string_of(&v)
}

proof fn lemma_candidate_injective(base: Seq<char>, a: nat, b: nat)
    requires
        candidate(base, a) == candidate(base, b),
    ensures
        a == b,
{
    let k = base.len() + 1;
    assert(candidate(base, a).skip(k as int) =~= dec(a));
    assert(candidate(base, b).skip(k as int) =~= dec(b));
    lemma_dec_value(a);
    lemma_dec_value(b);
}

proof fn lemma_candidate_not_base(base: Seq<char>, a: nat)
    ensures
        candidate(base, a) != base,
{
    lemma_dec_value(a);
    assert(candidate(base, a).len() > base.len());
}

/// While every candidate `base_m` for `2 <= m <= n` is used (and `base` too), `n <= |used|`.
pub(crate) proof fn lemma_candidates_bound(used: Seq<Seq<char>>, base: Seq<char>, n: nat)
    requires
        n >= 2,
        used.contains(base),
        forall|m: nat| 2 <= m <= n ==> used.contains(#[trigger] candidate(base, m)),
    ensures
        n <= used.len(),
{
    let p = seq![base] + Seq::new((n - 1) as nat, |i: int| candidate(base, (i + 2) as nat));
    assert forall|i: int, j: int| 0 <= i < p.len() && 0 <= j < p.len() && i != j implies p[i]
        != p[j] by {
        if i == 0 {
            lemma_candidate_not_base(base, (j + 1) as nat);
        } else if j == 0 {
            lemma_candidate_not_base(base, (i + 1) as nat);
        } else if p[i] == p[j] {
            lemma_candidate_injective(base, (i + 1) as nat, (j + 1) as nat);
        }
    }
    assert forall|i: int| 0 <= i < p.len() implies used.contains(#[trigger] p[i]) by {
        if i > 0 {
            assert(p[i] == candidate(base, (i + 1) as nat));
        }
    }
    crate::resolve::lemma_distinct_within(p, used);
}

proof fn lemma_first_free(used: Seq<Seq<char>>, base: Seq<char>, n: nat)
    requires
        used.contains(base),
        n >= 2,
        forall|m: nat| 2 <= m < n ==> used.contains(#[trigger] candidate(base, m)),
        used.contains(candidate(base, n)),
    ensures
        n < used.len() + 2,
        first_free(used, base, n) == first_free(used, base, n + 1),
{
    lemma_candidates_bound(used, base, n);
}

impl Planner {
    fn new() -> (r: Self)
        ensures
            r.model() == plan_init(),
    {
        let r = Planner {
            sections: Vec::new(),
            object_section_by_key: Vec::new(),
            used_names: Vec::new(),
            next_pk: 1,
            root_array: false,
        };
        assert(psections_model(r.sections@) =~= Seq::<SPlanSection>::empty());
        assert(bykey_model(r.object_section_by_key@) =~= Seq::<(Seq<char>, nat)>::empty());
        assert(names_model(r.used_names@) =~= Seq::<Seq<char>>::empty());
        r
    }

    fn use_name(&mut self, name: &String)
        ensures
            final(self).model() == (SPlan { used: old(self).model().used.push(name@), ..old(self).model() }),
            final(self).sections == old(self).sections,
    {
        let ghost before = self.used_names@;
        self.used_names.push(name.clone());
        assert(names_model(self.used_names@) =~= names_model(before).push(name@));
    }

    fn reserve_name(&mut self, base: &str) -> (r: String)
        ensures
            (final(self).model(), r@) == reserve_name(old(self).model(), base@),
            final(self).sections == old(self).sections,
    {
        let sanitised = sanitise_name(base);
        if !names_contain(&self.used_names, &sanitised) {
            self.use_name(&sanitised);
            return sanitised;
        }
        let ghost used = self.model().used;
        let mut n: u128 = 2;
        loop
            invariant
                used == self.model().used,
                self.model() == old(self).model(),
                self.sections == old(self).sections,
                sanitised@ == sanitise(base@),
                used.contains(sanitised@),
                2 <= n <= used.len() + 1,
                first_free(used, sanitised@, 2) == first_free(used, sanitised@, n as nat),
                forall|m: nat| 2 <= m < n ==> used.contains(#[trigger] candidate(sanitised@, m)),
            decreases used.len() + 2 - n,
        {
            let candidate = make_candidate(&sanitised, n);
            if !names_contain(&self.used_names, &candidate) {
                self.use_name(&candidate);
                return candidate;
            }
            let used_len = self.used_names.len();
            assert(used.len() == used_len);
            proof {
                lemma_first_free(used, sanitised@, n as nat);
                if n + 1 > used.len() + 1 {
                    lemma_candidates_bound(used, sanitised@, n as nat);
                }
            }
            n += 1;
        }
    }
}

proof fn lemma_fields_model_push(v: Seq<(String, PlanCell)>, f: (String, PlanCell))
    ensures
        fields_model(v.push(f)) == fields_model(v).push((f.0@, f.1.model())),
{
    assert(fields_model(v.push(f)) =~= fields_model(v).push((f.0@, f.1.model())));
}

/// Gives a `pk_first` table a pk column and numbers its rows from `*next_pk`.
fn guard_table(next_pk: &mut u64, section: &mut PlanSection)
requires
    *old(next_pk) + old(section).rows@.len() <= u64::MAX,
ensures
    if pk_first(old(section).model()) {
        &&& final(section).model() == (SPlanSection {
            has_pk_column: true,
            rows: numbered_rows(old(section).model().rows, *old(next_pk) as nat),
            ..old(section).model()
        })
        &&& *final(next_pk) == *old(next_pk) + old(section).rows@.len()
        &&& old(section).model().rows.len() == old(section).rows@.len()
    } else {
        &&& *final(section) == *old(section)
        &&& *final(next_pk) == *old(next_pk)
    },
{
    let is_table = match section.kind {
        SectionKind::Table => true,
        SectionKind::Array => false,
    };
    if !is_table || section.has_pk_column || section.data_columns.len() == 0 {
        return;
    }
    let first = crate::text::str_chars(section.data_columns[0].as_str());
    let w = vec!['p', 'k'];
    assert(first@.subrange(0, first@.len() as int) =~= first@);
    if !crate::lexer::range_eq(&first, 0, first.len(), &w) {
        assert(w@ =~= seq!['p', 'k']);
        return;
    }
    assert(w@ =~= seq!['p', 'k']);
    let ghost rows0 = prows_model(section.rows@);
    let start = *next_pk;
    let mut old_rows: Vec<PlanRow> = Vec::new();
    std::mem::swap(&mut old_rows, &mut section.rows);
    let n = old_rows.len();
    let mut numbered: Vec<PlanRow> = Vec::new();
    let mut k: u64 = 0;
    assert(prows_model(old_rows@) == rows0);
    assert(rows0.subrange(0, rows0.len() as int) =~= rows0);
    while old_rows.len() > 0
        invariant
            rows0.len() == n,
            k + old_rows@.len() == n,
            start + n <= u64::MAX,
            prows_model(old_rows@) == rows0.subrange(k as int, n as int),
            prows_model(numbered@) == numbered_rows(rows0, start as nat).subrange(0, k as int),
        decreases old_rows@.len(),
    {
        let ghost rest = old_rows@;
        let row = old_rows.remove(0);
        assert(rest[0] == row);
        assert(prows_model(rest)[0] == rows0[k as int]);
        assert(prows_model(old_rows@) =~= rows0.subrange(k + 1, n as int)) by {
            assert(old_rows@ =~= rest.subrange(1, rest.len() as int));
            assert forall|j: int| 0 <= j < old_rows@.len() implies #[trigger] prows_model(old_rows@)[j]
                == rows0.subrange(k + 1, n as int)[j] by {
                assert(old_rows@[j] == rest[j + 1]);
                assert(prows_model(rest)[j + 1] == rows0.subrange(k as int, n as int)[j + 1]);
            }
        }
        let r = PlanRow { pk: Some(start + k), fields: row.fields };
        assert(r.model() == numbered_rows(rows0, start as nat)[k as int]);
        let ghost before = numbered@;
        let ghost rm = r.model();
        assert(prows_model(before).len() == k);
        numbered.push(r);
        assert(numbered@.len() == k + 1);
        assert(numbered@[k as int].model() == rm);
        assert forall|j: int| 0 <= j <= k implies #[trigger] prows_model(numbered@)[j] == numbered_rows(
            rows0,
            start as nat,
        )[j] by {
            if j < k {
                assert(numbered@[j] == before[j]);
                assert(prows_model(before)[j] == numbered_rows(rows0, start as nat).subrange(0, k as int)[j]);
            }
        }
        assert(prows_model(numbered@) =~= numbered_rows(rows0, start as nat).subrange(0, k + 1));
        k += 1;
    }
    assert(numbered_rows(rows0, start as nat).subrange(0, rows0.len() as int) =~= numbered_rows(rows0, start as nat));
    section.rows = numbered;
    section.has_pk_column = true;
    *next_pk = start + n as u64;
}

/// Adds the row's new field names to the columns, then appends the row.
fn merge_row_into_table(section: &mut PlanSection, row: PlanRow)
    ensures
        final(section).model() == merge_row(old(section).model(), row.model()),
{
    let ghost fm = row.model().fields;
    let ghost cols0 = names_model(section.data_columns@);
    let mut i: usize = 0;
    while i < row.fields.len()
        invariant
            i <= row.fields@.len(),
            fm == row.model().fields,
            fm.len() == row.fields@.len(),
            names_model(section.data_columns@) == merge_columns(cols0, fm.take(i as int)),
            section.name == old(section).name,
            section.kind == old(section).kind,
            section.role == old(section).role,
            section.has_pk_column == old(section).has_pk_column,
            section.rows == old(section).rows,
            section.values == old(section).values,
        decreases row.fields@.len() - i,
    {
        assert(fm.take(i + 1).drop_last() =~= fm.take(i as int));
        assert(fm[i as int].0 == row.fields@[i as int].0@);
        if !names_contain(&section.data_columns, &row.fields[i].0) {
            let ghost before = section.data_columns@;
            section.data_columns.push(row.fields[i].0.clone());
            assert(names_model(section.data_columns@) =~= names_model(before).push(fm[i as int].0));
        }
        i += 1;
    }
    assert(fm.take(fm.len() as int) =~= fm);
    let ghost rm = row.model();
    let ghost rows_before = section.rows@;
    section.rows.push(row);
    assert(prows_model(section.rows@) =~= prows_model(rows_before).push(rm));
}

impl Planner {
    fn merge_into(&mut self, idx: usize, row: PlanRow)
        requires
            idx < old(self).sections@.len(),
        ensures
            final(self).model() == merge_into(old(self).model(), idx as nat, row.model()),
            final(self).sections@.len() == old(self).sections@.len(),
    {
        let ghost before = self.sections@;
        merge_row_into_table(&mut self.sections[idx], row);
        assert(psections_model(self.sections@) =~= psections_model(before).update(
            idx as int,
            merge_row(before[idx as int].model(), row.model()),
        ));
    }
}

proof fn lemma_key_put_split(m: Seq<(Seq<char>, nat)>, k: Seq<char>, v: nat, i: int)
    requires
        0 <= i <= m.len(),
        forall|j: int| 0 <= j < i ==> m[j].0 != k,
    ensures
        key_put(m, k, v) == m.take(i) + key_put(m.skip(i), k, v),
        key_lookup(m, k) == key_lookup(m.skip(i), k),
    decreases i,
{
    if i > 0 {
        lemma_key_put_split(m.drop_first(), k, v, i - 1);
        assert(m.drop_first().skip(i - 1) =~= m.skip(i));
        assert(m.take(i) =~= seq![m[0]] + m.drop_first().take(i - 1));
    } else {
        assert(m.skip(0) =~= m);
        assert(m.take(0) =~= Seq::<(Seq<char>, nat)>::empty());
    }
}

impl Planner {
    fn key_lookup(&self, key: &String) -> (r: Option<usize>)
        ensures
            match r {
                Some(i) => key_lookup(self.model().by_key, key@) == Some(i as nat),
                None => key_lookup(self.model().by_key, key@) is None,
            },
    {
        let ghost m = self.model().by_key;
        let mut i: usize = 0;
        while i < self.object_section_by_key.len()
            invariant
                i <= self.object_section_by_key@.len(),
                m == self.model().by_key,
                forall|j: int| 0 <= j < i ==> m[j].0 != key@,
            decreases self.object_section_by_key@.len() - i,
        {
            assert(m[i as int] == (self.object_section_by_key@[i as int].0@, self.object_section_by_key@[i as int].1 as nat));
            if self.object_section_by_key[i].0 == *key {
                proof {
                    lemma_key_put_split(m, key@, 0, i as int);
                }
                return Some(self.object_section_by_key[i].1);
            }
            i += 1;
        }
        proof {
            lemma_key_put_split(m, key@, 0, i as int);
        }
        None
    }

    fn key_put(&mut self, key: &String, idx: usize)
        ensures
            final(self).model() == (SPlan { by_key: key_put(old(self).model().by_key, key@, idx as nat), ..old(self).model() }),
            final(self).sections == old(self).sections,
    {
        let ghost m = self.model().by_key;
        let mut i: usize = 0;
        while i < self.object_section_by_key.len()
            invariant
                i <= self.object_section_by_key@.len(),
                self.model() == old(self).model(),
                self.sections == old(self).sections,
                m == self.model().by_key,
                forall|j: int| 0 <= j < i ==> m[j].0 != key@,
            decreases self.object_section_by_key@.len() - i,
        {
            assert(m[i as int] == (self.object_section_by_key@[i as int].0@, self.object_section_by_key@[i as int].1 as nat));
            if self.object_section_by_key[i].0 == *key {
                proof {
                    lemma_key_put_split(m, key@, idx as nat, i as int);
                }
                let ghost before = self.object_section_by_key@;
                self.object_section_by_key.set(i, (key.clone(), idx));
                assert(bykey_model(self.object_section_by_key@) =~= m.take(i as int) + m.skip(
                    i as int,
                ).update(0, (key@, idx as nat)));
                return;
            }
            i += 1;
        }
        proof {
            lemma_key_put_split(m, key@, idx as nat, i as int);
        }
        let ghost before = self.object_section_by_key@;
        self.object_section_by_key.push((key.clone(), idx));
        assert(bykey_model(self.object_section_by_key@) =~= m.take(i as int) + seq![(key@, idx as nat)]);
    }

    fn push_section(&mut self, sec: PlanSection)
        ensures
            final(self).model() == (SPlan { sections: old(self).model().sections.push(sec.model()), ..old(self).model() }),
            final(self).sections@.len() == old(self).sections@.len() + 1,
    {
        let ghost before = self.sections@;
        let ghost sm = sec.model();
        self.sections.push(sec);
        assert(psections_model(self.sections@) =~= psections_model(before).push(sm));
    }

    fn get_or_create_object_section(&mut self, key: &String) -> (r: usize)
        ensures
            (final(self).model(), r as nat) == get_or_create_object_section(old(self).model(), key@),
            r < final(self).sections@.len(),
            final(self).sections@.len() >= old(self).sections@.len(),
    {
        if let Some(idx) = self.key_lookup(key) {
            if idx < self.sections.len() {
                assert(self.model().sections[idx as int] == self.sections@[idx as int].model());
                if let Role::Object = self.sections[idx].role {
                    return idx;
                }
            }
        }
        let name = self.reserve_name(key.as_str());
        let idx = self.sections.len();
        self.push_section(new_section(name, SectionKind::Table, Role::Object, true));
        self.key_put(key, idx);
        idx
    }

    fn create_array_of_objects_section(&mut self, key: &String) -> (r: usize)
        ensures
            (final(self).model(), r as nat) == create_array_of_objects_section(old(self).model(), key@),
            r < final(self).sections@.len(),
            final(self).sections@.len() >= old(self).sections@.len(),
    {
        let name = self.reserve_name(key.as_str());
        let idx = self.sections.len();
        self.push_section(new_section(name, SectionKind::Table, Role::ArrayOfObjects, false));
        idx
    }
}

/// A copy of a scalar value.
fn copy_scalar(v: &JsonValue) -> (r: JsonValue)
    requires
        !(v.model() is Object),
        !(v.model() is Array),
    ensures
        r.model() == v.model(),
{
    match v {
        JsonValue::Null => JsonValue::Null,
        JsonValue::Bool(b) => JsonValue::Bool(*b),
        JsonValue::Number(n) => JsonValue::Number(n.clone()),
        JsonValue::String(t) => JsonValue::String(t.clone()),
        JsonValue::Array(_) => {
            proof {
                assert(false);
            }
            JsonValue::Null
        },
        JsonValue::Object(_) => {
            proof {
                assert(false);
            }
            JsonValue::Null
        },
    }
}

fn all_objects_exec(arr: &Vec<JsonValue>) -> (r: bool)
    ensures
        r == all_objects(items_model(arr@)),
{
    let ghost im = items_model(arr@);
    let mut i: usize = 0;
    while i < arr.len()
        invariant
            i <= arr@.len(),
            im == items_model(arr@),
            forall|k: int| 0 <= k < i ==> #[trigger] is_object(im[k]),
        decreases arr@.len() - i,
    {
        assert(im[i as int] == arr@[i as int].model());
        match &arr[i] {
            JsonValue::Object(_) => {},
            _ => {
                assert(!is_object(im[i as int]));
                return false;
            },
        }
        i += 1;
    }
    true
}

/// `base` followed by the characters of `suffix`.
fn with_suffix(base: &String, suffix: &Vec<char>) -> (r: String)
    ensures
        r@ == base@ + suffix@,
{
    let mut v: Vec<char> = Vec::new();
    push_str_chars(&mut v, base.as_str());
    let ghost b = v@;
    let mut i: usize = 0;
    while i < suffix.len()
        invariant
            i <= suffix@.len(),
            b == base@,
            v@ == b + suffix@.subrange(0, i as int),
        decreases suffix@.len() - i,
    {
        v.push(suffix[i]);
        assert(v@ =~= b + suffix@.subrange(0, i + 1));
        i += 1;
    }
    assert(suffix@.subrange(0, suffix@.len() as int) =~= suffix@);
    string_of(&v)
}

impl Planner {
    fn push_value(&mut self, idx: usize, c: PlanCell)
        requires
            idx < old(self).sections@.len(),
        ensures
            final(self).model() == push_value(old(self).model(), idx as nat, c.model()),
            final(self).sections@.len() == old(self).sections@.len(),
    {
        let ghost before = self.sections@;
        let ghost cm = c.model();
        let ghost vb = self.sections@[idx as int].values@;
        self.sections[idx].values.push(c);
        assert(pcells_model(self.sections@[idx as int].values@) =~= pcells_model(vb).push(cm));
        assert(psections_model(self.sections@) =~= psections_model(before).update(
            idx as int,
            SPlanSection { values: pcells_model(vb).push(cm), ..before[idx as int].model() },
        ));
    }

    fn take_pk(&mut self) -> (r: u64)
        requires
            old(self).next_pk < u64::MAX,
        ensures
            r == old(self).next_pk,
            final(self).model() == (SPlan { next_pk: old(self).model().next_pk + 1, ..old(self).model() }),
            final(self).sections == old(self).sections,
            final(self).next_pk == old(self).next_pk + 1,
    {
        let pk = self.next_pk;
        self.next_pk += 1;
        pk
    }

    /// The fields of an object's members, in order.
    fn build_row(&mut self, obj: &Vec<(String, JsonValue)>) -> (r: PlanRow)
        requires
            old(self).next_pk + members_size(members_model(obj@), obj@.len() as int) <= u64::MAX,
        ensures
            (final(self).model(), r.model().fields) == build_fields(
                old(self).model(),
                members_model(obj@),
                0,
                Seq::empty(),
            ),
            r.pk is None,
            final(self).next_pk <= old(self).next_pk + members_size(
                members_model(obj@),
                obj@.len() as int,
            ),
            final(self).sections@.len() >= old(self).sections@.len(),
        decreases obj,
    {
        let ghost mm = members_model(obj@);
        let ghost start = self.next_pk;
        let mut fields: Vec<(String, PlanCell)> = Vec::new();
        assert(fields_model(fields@) =~= Seq::<(Seq<char>, SPlanCell)>::empty());
        let mut i: usize = 0;
        while i < obj.len()
            invariant
                i <= obj@.len(),
                mm == members_model(obj@),
                start == old(self).next_pk,
                start + members_size(mm, obj@.len() as int) <= u64::MAX,
                self.next_pk <= start + members_size(mm, i as int),
                self.sections@.len() >= old(self).sections@.len(),
                build_fields(old(self).model(), mm, 0, Seq::empty()) == build_fields(
                    self.model(),
                    mm,
                    i as int,
                    fields_model(fields@),
                ),
            decreases obj@.len() - i,
        {
            proof {
                lemma_members_size_mono(mm, i + 1, obj@.len() as int);
                assert(decreases_to!(obj => obj@));
                assert(decreases_to!(obj@ => obj@[i as int]));
                assert(decreases_to!(obj@[i as int] => obj@[i as int].1));
            }
            assert(mm[i as int] == (obj@[i as int].0@, obj@[i as int].1.model()));
            let cell = self.build_field_cell(&obj[i].1, &obj[i].0);
            let f = (obj[i].0.clone(), cell);
            proof {
                lemma_fields_model_push(fields@, f);
            }
            fields.push(f);
            i += 1;
        }
        PlanRow { pk: None, fields }
    }

    fn build_field_cell(&mut self, v: &JsonValue, key: &String) -> (r: PlanCell)
        requires
            old(self).next_pk + json_size(v.model()) <= u64::MAX,
        ensures
            (final(self).model(), r.model()) == build_field_cell(old(self).model(), v.model(), key@),
            final(self).next_pk <= old(self).next_pk + json_size(v.model()),
            final(self).sections@.len() >= old(self).sections@.len(),
        decreases v,
    {
        match v {
            JsonValue::Object(obj) => {
                proof {
                    lemma_model_object(*obj);
                }
                let pk = self.take_pk();
                let idx = self.get_or_create_object_section(key);
                let mut row = self.build_row(obj);
                row.pk = Some(pk);
                self.merge_into(idx, row);
                PlanCell::RowRef(pk)
            },
            JsonValue::Array(arr) => {
                proof {
                    lemma_model_array(*arr);
                }
                let ghost am = items_model(arr@);
                if arr.len() == 0 {
                    return PlanCell::EmptyArrayRef;
                }
                if all_objects_exec(arr) {
                    let idx = self.create_array_of_objects_section(key);
                    proof {
                        assert(self.model().sections[idx as int].rows.len() == 0);
                        assert(json_size(v.model()) == 1 + items_size(am, arr@.len() as int));
                    }
                    self.build_object_items(arr, idx);
                    assert(self.model().sections[idx as int] == self.sections@[idx as int].model());
                    assert(self.sections@[idx as int].rows@.len() == self.model().sections[idx as int].rows.len());
                    self.guard_section(idx);
                    assert(self.model().sections[idx as int] == self.sections@[idx as int].model());
                    let name = self.sections[idx].name.clone();
                    PlanCell::NamedRef(name)
                } else {
                    let name = self.reserve_name(key.as_str());
                    let idx = self.sections.len();
                    self.push_section(new_section(name.clone(), SectionKind::Array, Role::PrimitiveArray, false));
                    self.build_items(arr, idx, &name);
                    PlanCell::NamedRef(name)
                }
            },
            _ => PlanCell::Value(copy_scalar(v)),
        }
    }

    /// Merges each object item of `arr` as a row of section `idx`.
    fn build_object_items(&mut self, arr: &Vec<JsonValue>, idx: usize)
        requires
            idx < old(self).sections@.len(),
            old(self).model().sections[idx as int].role is ArrayOfObjects,
            old(self).next_pk + old(self).model().sections[idx as int].rows.len() + items_size(
                items_model(arr@),
                arr@.len() as int,
            ) <= u64::MAX,
        ensures
            final(self).model() == build_object_items(old(self).model(), items_model(arr@), 0, idx as nat),
            final(self).next_pk + final(self).model().sections[idx as int].rows.len() <= old(self).next_pk
                + old(self).model().sections[idx as int].rows.len() + items_size(
                items_model(arr@),
                arr@.len() as int,
            ),
            final(self).sections@.len() >= old(self).sections@.len(),
        decreases arr,
    {
        let ghost am = items_model(arr@);
        let ghost start = self.next_pk;
        let ghost rows0 = self.model().sections[idx as int].rows.len();
        let mut j: usize = 0;
        while j < arr.len()
            invariant
                j <= arr@.len(),
                am == items_model(arr@),
                idx < self.sections@.len(),
                start == old(self).next_pk,
                rows0 == old(self).model().sections[idx as int].rows.len(),
                start + rows0 + items_size(am, arr@.len() as int) <= u64::MAX,
                self.model().sections[idx as int].role is ArrayOfObjects,
                self.next_pk + self.model().sections[idx as int].rows.len() <= start + rows0 + items_size(am, j as int),
                self.sections@.len() >= old(self).sections@.len(),
                build_object_items(old(self).model(), am, 0, idx as nat) == build_object_items(
                    self.model(),
                    am,
                    j as int,
                    idx as nat,
                ),
            decreases arr@.len() - j,
        {
            proof {
                lemma_items_size_mono(am, j + 1, arr@.len() as int);
                assert(decreases_to!(arr => arr@));
                assert(decreases_to!(arr@ => arr@[j as int]));
            }
            assert(am[j as int] == arr@[j as int].model());
            if let JsonValue::Object(obj) = &arr[j] {
                proof {
                    lemma_model_object(*obj);
                    assert(decreases_to!(arr@[j as int] => *obj));
                    assert(am[j as int] == SpecJson::Object(members_model(obj@)));
                    assert(items_size(am, j + 1) == items_size(am, j as int) + json_size(am[j as int]));
                    assert(json_size(am[j as int]) == 1 + members_size(members_model(obj@), obj@.len() as int));
                }
                let ghost pre = self.model();
                let row = self.build_row(obj);
                proof {
                    lemma_keeps_fields(pre, members_model(obj@), 0, Seq::empty());
                    assert(self.model().sections[idx as int] == pre.sections[idx as int]);
                }
                assert(row.model() == (SPlanRow { pk: None, fields: row.model().fields }));
                self.merge_into(idx, row);
            }
            j += 1;
        }
    }

    /// Appends a cell for each item of `arr` to array section `idx`, named `base`.
    fn build_items(&mut self, arr: &Vec<JsonValue>, idx: usize, base: &String)
        requires
            idx < old(self).sections@.len(),
            old(self).next_pk + items_size(items_model(arr@), arr@.len() as int) <= u64::MAX,
        ensures
            final(self).model() == build_items(old(self).model(), items_model(arr@), 0, idx as nat, base@),
            final(self).next_pk <= old(self).next_pk + items_size(items_model(arr@), arr@.len() as int),
            final(self).sections@.len() >= old(self).sections@.len(),
        decreases arr,
    {
        let ghost am = items_model(arr@);
        let ghost start = self.next_pk;
        let mut j: usize = 0;
        while j < arr.len()
            invariant
                j <= arr@.len(),
                am == items_model(arr@),
                idx < self.sections@.len(),
                start == old(self).next_pk,
                start + items_size(am, arr@.len() as int) <= u64::MAX,
                self.next_pk <= start + items_size(am, j as int),
                self.sections@.len() >= old(self).sections@.len(),
                build_items(old(self).model(), am, 0, idx as nat, base@) == build_items(
                    self.model(),
                    am,
                    j as int,
                    idx as nat,
                    base@,
                ),
            decreases arr@.len() - j,
        {
            proof {
                lemma_items_size_mono(am, j + 1, arr@.len() as int);
                assert(decreases_to!(arr => arr@));
                assert(decreases_to!(arr@ => arr@[j as int]));
            }
            assert(am[j as int] == arr@[j as int].model());
            let cell = self.build_array_item(&arr[j], base);
            self.push_value(idx, cell);
            j += 1;
        }
    }

    fn build_array_item(&mut self, v: &JsonValue, parent_base: &String) -> (r: PlanCell)
        requires
            old(self).next_pk + json_size(v.model()) <= u64::MAX,
        ensures
            (final(self).model(), r.model()) == build_array_item(old(self).model(), v.model(), parent_base@),
            final(self).next_pk <= old(self).next_pk + json_size(v.model()),
            final(self).sections@.len() >= old(self).sections@.len(),
        decreases v,
    {
        match v {
            JsonValue::Object(obj) => {
                proof {
                    lemma_model_object(*obj);
                }
                let pk = self.take_pk();
                let suffix = vec!['_', 'i', 't', 'e', 'm'];
                assert(suffix@ =~= item_suffix());
                let section_key = with_suffix(parent_base, &suffix);
                let idx = self.get_or_create_object_section(&section_key);
                let mut row = self.build_row(obj);
                row.pk = Some(pk);
                self.merge_into(idx, row);
                PlanCell::RowRef(pk)
            },
            JsonValue::Array(arr) => {
                proof {
                    lemma_model_array(*arr);
                }
                if arr.len() == 0 {
                    return PlanCell::EmptyArrayRef;
                }
                let suffix = vec!['_', 'r'];
                assert(suffix@ =~= row_suffix());
                let child_base = with_suffix(parent_base, &suffix);
                let name = self.reserve_name(child_base.as_str());
                let idx = self.sections.len();
                if all_objects_exec(arr) {
                    self.push_section(new_section(name.clone(), SectionKind::Table, Role::ArrayOfObjects, false));
                    proof {
                        assert(self.model().sections[idx as int].rows.len() == 0);
                        assert(json_size(v.model()) == 1 + items_size(items_model(arr@), arr@.len() as int));
                    }
                    self.build_object_items(arr, idx);
                    assert(self.model().sections[idx as int] == self.sections@[idx as int].model());
                    assert(self.sections@[idx as int].rows@.len() == self.model().sections[idx as int].rows.len());
                    self.guard_section(idx);
                } else {
                    self.push_section(new_section(name.clone(), SectionKind::Array, Role::PrimitiveArray, false));
                    self.build_items(arr, idx, &name);
                }
                PlanCell::NamedRef(name)
            },
            _ => PlanCell::Value(copy_scalar(v)),
        }
    }
}

impl Planner {
    fn insert_front(&mut self, sec: PlanSection)
        ensures
            final(self).model() == insert_front(old(self).model(), sec.model()),
    {
        let ghost before = self.sections@;
        let ghost sm = sec.model();
        self.sections.insert(0, sec);
        assert(psections_model(self.sections@) =~= seq![sm] + psections_model(before));
    }

    /// The executable `guard_pk`.
    fn guard_pk_table(&mut self, section: &mut PlanSection)
        requires
            old(self).next_pk + old(section).rows@.len() <= u64::MAX,
        ensures
            (final(self).model(), final(section).model()) == guard_pk(old(self).model(), old(section).model()),
    {
        reveal(guard_pk);
        guard_table(&mut self.next_pk, section);
    }

    /// The executable `guard_section`.
    fn guard_section(&mut self, idx: usize)
        requires
            idx < old(self).sections@.len(),
            old(self).next_pk + old(self).sections@[idx as int].rows@.len() <= u64::MAX,
        ensures
            final(self).model() == guard_section(old(self).model(), idx as nat),
            final(self).sections@.len() == old(self).sections@.len(),
            final(self).next_pk <= old(self).next_pk + old(self).sections@[idx as int].rows@.len(),
    {
        reveal(guard_pk);
        let ghost before = self.sections@;
        assert(self.model().sections[idx as int] == before[idx as int].model());
        guard_table(&mut self.next_pk, &mut self.sections[idx]);
        assert(psections_model(self.sections@) =~= psections_model(before).update(
            idx as int,
            self.sections@[idx as int].model(),
        ));
    }

    fn plan_root(&mut self, value: &JsonValue)
        requires
            old(self).model() == plan_init(),
            value.model() is Object || value.model() is Array,
            1 + json_size(value.model()) <= u64::MAX,
        ensures
            final(self).model() == plan_root(value.model()),
    {
        let data_chars = vec!['d', 'a', 't', 'a'];
        let data = string_of(&data_chars);
        assert(data@ =~= data_word());
        let root_name = self.reserve_name(data.as_str());
        match value {
            JsonValue::Object(obj) => {
                proof {
                    lemma_model_object(*obj);
                }
                self.root_array = false;
                let mut section = new_section(root_name, SectionKind::Table, Role::Root, false);
                let row = self.build_row(obj);
                assert(row.model() == (SPlanRow { pk: None, fields: row.model().fields }));
                merge_row_into_table(&mut section, row);
                assert(prows_model(section.rows@).len() == 1);
                assert(section.rows@.len() == 1);
                assert(json_size(value.model()) == 1 + members_size(members_model(obj@), obj@.len() as int));
                self.guard_pk_table(&mut section);
                self.insert_front(section);
            },
            JsonValue::Array(arr) => {
                proof {
                    lemma_model_array(*arr);
                }
                let ghost am = items_model(arr@);
                self.root_array = true;
                if arr.len() > 0 && all_objects_exec(arr) {
                    let mut section = new_section(root_name, SectionKind::Table, Role::ArrayOfObjects, false);
                    let ghost p1 = self.model();
                    let ghost sec0 = section.model();
                    let ghost start = self.next_pk;
                    assert(prows_model(section.rows@).len() == 0);
                    let mut j: usize = 0;
                    while j < arr.len()
                        invariant
                            j <= arr@.len(),
                            am == items_model(arr@),
                            start + items_size(am, arr@.len() as int) <= u64::MAX,
                            self.next_pk + section.rows@.len() <= start + items_size(am, j as int),
                            root_object_items(p1, am, 0, sec0) == root_object_items(
                                self.model(),
                                am,
                                j as int,
                                section.model(),
                            ),
                        decreases arr@.len() - j,
                    {
                        proof {
                            lemma_items_size_mono(am, j + 1, arr@.len() as int);
                        }
                        assert(am[j as int] == arr@[j as int].model());
                        if let JsonValue::Object(obj) = &arr[j] {
                            proof {
                                lemma_model_object(*obj);
                                assert(am[j as int] == SpecJson::Object(members_model(obj@)));
                                assert(items_size(am, j + 1) == items_size(am, j as int) + json_size(am[j as int]));
                                assert(json_size(am[j as int]) == 1 + members_size(members_model(obj@), obj@.len() as int));
                            }
                            let row = self.build_row(obj);
                            assert(row.model() == (SPlanRow { pk: None, fields: row.model().fields }));
                            let ghost n0 = section.rows@.len();
                            merge_row_into_table(&mut section, row);
                            assert(prows_model(section.rows@).len() == n0 + 1);
                        }
                        j += 1;
                    }
                    proof {
                        lemma_items_size_mono(am, arr@.len() as int, arr@.len() as int);
                    }
                    self.guard_pk_table(&mut section);
                    self.insert_front(section);
                } else {
                    let base_name = root_name.clone();
                    let mut section = new_section(root_name, SectionKind::Array, Role::PrimitiveArray, false);
                    let ghost p1 = self.model();
                    let ghost sec0 = section.model();
                    let ghost start = self.next_pk;
                    let mut j: usize = 0;
                    while j < arr.len()
                        invariant
                            j <= arr@.len(),
                            am == items_model(arr@),
                            start + items_size(am, arr@.len() as int) <= u64::MAX,
                            self.next_pk <= start + items_size(am, j as int),
                            root_items(p1, am, 0, sec0, base_name@) == root_items(
                                self.model(),
                                am,
                                j as int,
                                section.model(),
                                base_name@,
                            ),
                        decreases arr@.len() - j,
                    {
                        proof {
                            lemma_items_size_mono(am, j + 1, arr@.len() as int);
                        }
                        assert(am[j as int] == arr@[j as int].model());
                        let cell = self.build_array_item(&arr[j], &base_name);
                        let ghost vb = section.values@;
                        let ghost cm = cell.model();
                        section.values.push(cell);
                        assert(pcells_model(section.values@) =~= pcells_model(vb).push(cm));
                        j += 1;
                    }
                    self.insert_front(section);
                }
            },
            _ => {
                proof {
                    assert(false);
                }
            },
        }
    }
}

// ---------------------------------------------------------------------------
// Executable rendering
// ---------------------------------------------------------------------------

fn push_chars(out: &mut Vec<char>, w: &Vec<char>)
    ensures
        final(out)@ == old(out)@ + w@,
{
    let ghost o = out@;
    let mut i: usize = 0;
    while i < w.len()
        invariant
            i <= w@.len(),
            out@ == o + w@.subrange(0, i as int),
        decreases w@.len() - i,
    {
        out.push(w[i]);
        assert(out@ =~= o + w@.subrange(0, i + 1));
        i += 1;
    }
    assert(w@.subrange(0, w@.len() as int) =~= w@);
}

fn push_scalar(out: &mut Vec<char>, v: &JsonValue)
    ensures
        final(out)@ == old(out)@ + spec_render_scalar(v.model()),
{
    match v {
        JsonValue::String(s) => {
            if needs_quoting(s.as_str()) {
                push_quoted(out, s.as_str());
            } else {
                push_str_chars(out, s.as_str());
            }
        },
        JsonValue::Number(n) => {
            push_str_chars(out, n.as_str());
        },
        JsonValue::Bool(b) => {
            if *b {
                let w = vec!['t', 'r', 'u', 'e'];
                assert(w@ =~= crate::resolve::word_true());
                push_chars(out, &w);
            } else {
                let w = vec!['f', 'a', 'l', 's', 'e'];
                assert(w@ =~= crate::resolve::word_false());
                push_chars(out, &w);
            }
        },
        JsonValue::Null => {
            let w = vec!['n', 'u', 'l', 'l'];
            assert(w@ =~= crate::resolve::word_null());
            push_chars(out, &w);
        },
        JsonValue::Array(a) => {
            assert(out@ =~= old(out)@ + spec_render_scalar(v.model()));
        },
        JsonValue::Object(m) => {
            assert(out@ =~= old(out)@ + spec_render_scalar(v.model()));
        },
    }
}

fn push_cell(out: &mut Vec<char>, c: &PlanCell)
    ensures
        final(out)@ == old(out)@ + spec_render_cell(c.model()),
{
    let ghost o = out@;
    match c {
        PlanCell::Value(v) => push_scalar(out, v),
        PlanCell::RowRef(n) => {
            out.push('@');
            push_decimal(out, *n as u128);
            assert(out@ =~= o + spec_render_cell(c.model()));
        },
        PlanCell::NamedRef(name) => {
            out.push('@');
            push_str_chars(out, name.as_str());
            assert(out@ =~= o + spec_render_cell(c.model()));
        },
        PlanCell::EmptyArrayRef => {
            let w = vec!['@', '[', ']'];
            assert(w@ =~= crate::resolve::word_empty_array());
            push_chars(out, &w);
        },
    }
}

fn cell_string(c: &PlanCell) -> (r: String)
    ensures
        r@ == spec_render_cell(c.model()),
{
    let mut v: Vec<char> = Vec::new();
    push_cell(&mut v, c);
    assert(v@ =~= spec_render_cell(c.model()));
    string_of(&v)
}

proof fn lemma_join_push(ps: Seq<Seq<char>>, x: Seq<char>)
    ensures
        join_comma(ps.push(x)) == if ps.len() == 0 {
            x
        } else {
            join_comma(ps) + seq![','] + x
        },
{
    assert(ps.push(x).drop_last() =~= ps);
}

/// Appends the parts joined by commas.
fn push_joined(out: &mut Vec<char>, parts: &Vec<String>)
    ensures
        final(out)@ == old(out)@ + join_comma(names_model(parts@)),
{
    let ghost o = out@;
    let ghost pm = names_model(parts@);
    let mut i: usize = 0;
    while i < parts.len()
        invariant
            i <= parts@.len(),
            pm == names_model(parts@),
            out@ == o + join_comma(pm.take(i as int)),
        decreases parts@.len() - i,
    {
        proof {
            lemma_join_push(pm.take(i as int), pm[i as int]);
            assert(pm.take(i + 1) =~= pm.take(i as int).push(pm[i as int]));
        }
        let ghost before = out@;
        if i > 0 {
            out.push(',');
        }
        push_str_chars(out, parts[i].as_str());
        assert(out@ =~= o + join_comma(pm.take(i + 1)));
        i += 1;
    }
    assert(pm.take(parts@.len() as int) =~= pm);
}

fn find_field_exec<'a>(fields: &'a Vec<(String, PlanCell)>, col: &String) -> (r: Option<&'a PlanCell>)
    ensures
        match r {
            Some(c) => find_field(fields_model(fields@), col@) == Some(c.model()),
            None => find_field(fields_model(fields@), col@) is None,
        },
{
    let ghost fm = fields_model(fields@);
    assert(fm.skip(0) =~= fm);
    let mut i: usize = 0;
    while i < fields.len()
        invariant
            i <= fields@.len(),
            fm == fields_model(fields@),
            find_field(fm, col@) == find_field(fm.skip(i as int), col@),
        decreases fields@.len() - i,
    {
        assert(fm.skip(i as int).drop_first() =~= fm.skip(i + 1));
        assert(fm[i as int] == (fields@[i as int].0@, fields@[i as int].1.model()));
        if fields[i].0 == *col {
            return Some(&fields[i].1);
        }
        i += 1;
    }
    None
}

proof fn lemma_names_push(v: Seq<String>, s: String)
    ensures
        names_model(v.push(s)) == names_model(v).push(s@),
{
    assert(names_model(v.push(s)) =~= names_model(v).push(s@));
}

fn render_section_into(out: &mut Vec<char>, section: &PlanSection)
    ensures
        final(out)@ == old(out)@ + render_section(section.model()),
{
    let ghost o = out@;
    let ghost sm = section.model();
    out.push(':');
    push_str_chars(out, section.name.as_str());
    let is_array = match section.kind {
        SectionKind::Array => true,
        SectionKind::Table => false,
    };
    if is_array {
        out.push('[');
        out.push(']');
    }
    out.push('\n');
    let ghost head = out@.subrange(o.len() as int, out@.len() as int);
    assert(head =~= seq![':'] + sm.name + (if sm.kind is Array {
        seq!['[', ']']
    } else {
        Seq::empty()
    }) + seq!['\n']);
    assert(out@ =~= o + head);
    if !is_array {
        let mut parts: Vec<String> = Vec::new();
        let ghost pk_part: Seq<Seq<char>> = if sm.has_pk_column {
            seq![pk_word()]
        } else {
            Seq::empty()
        };
        if section.has_pk_column {
            let w = vec!['p', 'k'];
            assert(w@ =~= pk_word());
            let pk = string_of(&w);
            proof {
                lemma_names_push(parts@, pk);
            }
            parts.push(pk);
        }
        assert(names_model(parts@) =~= pk_part);
        let mut c: usize = 0;
        while c < section.data_columns.len()
            invariant
                c <= section.data_columns@.len(),
                sm == section.model(),
                names_model(parts@) == pk_part + sm.data_columns.map_values(
                    |x: Seq<char>| spec_csv_field_header(x),
                ).take(c as int),
            decreases section.data_columns@.len() - c,
        {
            let h = csv_field_header(section.data_columns[c].as_str());
            proof {
                lemma_names_push(parts@, h);
            }
            parts.push(h);
            assert(sm.data_columns[c as int] == section.data_columns@[c as int]@);
            assert(names_model(parts@) =~= pk_part + sm.data_columns.map_values(
                |x: Seq<char>| spec_csv_field_header(x),
            ).take(c + 1));
            c += 1;
        }
        assert(sm.data_columns.map_values(|x: Seq<char>| spec_csv_field_header(x)).take(
            sm.data_columns.len() as int,
        ) =~= sm.data_columns.map_values(|x: Seq<char>| spec_csv_field_header(x)));
        assert(names_model(parts@) == header_parts(sm));
        push_joined(out, &parts);
        out.push('\n');
        let ghost after_header = out@;
        assert(after_header =~= o + head + join_comma(header_parts(sm)) + seq!['\n']);
        let mut r: usize = 0;
        while r < section.rows.len()
            invariant
                r <= section.rows@.len(),
                sm == section.model(),
                !(sm.kind is Array),
                out@ == after_header + rows_text(sm, r as int),
            decreases section.rows@.len() - r,
        {
            let row = &section.rows[r];
            assert(sm.rows[r as int] == row.model());
            let ghost rm = row.model();
            let ghost pk_cell: Seq<Seq<char>> = if sm.has_pk_column {
                seq![
                    match rm.pk {
                        Some(n) => dec(n),
                        None => Seq::empty(),
                    },
                ]
            } else {
                Seq::empty()
            };
            let mut cells: Vec<String> = Vec::new();
            if section.has_pk_column {
                let t = match row.pk {
                    Some(n) => {
                        let mut dv: Vec<char> = Vec::new();
                        push_decimal(&mut dv, n as u128);
                        assert(dv@ =~= dec(n as nat));
                        string_of(&dv)
                    },
                    None => String::new(),
                };
                proof {
                    lemma_names_push(cells@, t);
                }
                cells.push(t);
            }
            assert(names_model(cells@) =~= pk_cell);
            let mut c: usize = 0;
            while c < section.data_columns.len()
                invariant
                    c <= section.data_columns@.len(),
                    sm == section.model(),
                    rm == row.model(),
                    names_model(cells@) == pk_cell + sm.data_columns.map_values(|x: Seq<char>| column_text(rm.fields, x)).take(c as int),
                decreases section.data_columns@.len() - c,
            {
                assert(sm.data_columns[c as int] == section.data_columns@[c as int]@);
                let t = match find_field_exec(&row.fields, &section.data_columns[c]) {
                    Some(cell) => cell_string(cell),
                    None => String::new(),
                };
                assert(rm.fields == fields_model(row.fields@));
                assert(t@ == column_text(rm.fields, sm.data_columns[c as int]));
                proof {
                    lemma_names_push(cells@, t);
                }
                cells.push(t);
                assert(names_model(cells@) =~= pk_cell + sm.data_columns.map_values(|x: Seq<char>| column_text(rm.fields, x)).take(c + 1));
                c += 1;
            }
            assert(sm.data_columns.map_values(|x: Seq<char>| column_text(rm.fields, x)).take(sm.data_columns.len() as int)
                =~= sm.data_columns.map_values(|x: Seq<char>| column_text(rm.fields, x)));
            assert(names_model(cells@) =~= row_parts(sm, rm));
            push_joined(out, &cells);
            out.push('\n');
            assert(out@ =~= after_header + rows_text(sm, r + 1));
            r += 1;
        }
        assert(out@ =~= o + render_section(sm));
    } else {
        let ghost after_head = out@;
        let mut k: usize = 0;
        while k < section.values.len()
            invariant
                k <= section.values@.len(),
                sm == section.model(),
                out@ == after_head + values_text(sm.values, k as int),
            decreases section.values@.len() - k,
        {
            assert(sm.values[k as int] == section.values@[k as int].model());
            push_cell(out, &section.values[k]);
            out.push('\n');
            assert(out@ =~= after_head + values_text(sm.values, k + 1));
            k += 1;
        }
        assert(out@ =~= o + render_section(sm));
    }
}

impl Planner {
    fn render(&self) -> (r: String)
        ensures
            r@ == render(self.model()),
    {
        let mut out: Vec<char> = Vec::new();
        if self.root_array {
            let w = vec![':', 'r', 'o', 'o', 't', '[', ']', '\n'];
            push_chars(&mut out, &w);
        } else {
            let w = vec![':', 'r', 'o', 'o', 't', '\n'];
            push_chars(&mut out, &w);
        }
        let ghost head = out@;
        assert(head =~= root_line(self.root_array));
        let ghost secs = self.model().sections;
        let mut i: usize = 0;
        while i < self.sections.len()
            invariant
                i <= self.sections@.len(),
                secs == self.model().sections,
                out@ == head + sections_text(secs, i as int),
            decreases self.sections@.len() - i,
        {
            if i > 0 {
                out.push('\n');
            }
            assert(secs[i as int] == self.sections@[i as int].model());
            render_section_into(&mut out, &self.sections[i]);
            assert(out@ =~= head + sections_text(secs, i + 1));
            i += 1;
        }
        string_of(&out)
    }
}

/// Encodes a JSON object or array as NORM text; a scalar root is refused.
pub fn encode(value: &JsonValue) -> (r: Result<String, NormError>)
    requires
        json_size(value.model()) < u64::MAX,
    ensures
        match r {
            Ok(s) => spec_encode(value.model()) == Ok::<Seq<char>, SpecError>(s@),
            Err(e) => spec_encode(value.model()) == Err::<Seq<char>, SpecError>(e.model()),
        },
{
    match value {
        JsonValue::Object(_) | JsonValue::Array(_) => {},
        _ => {
            return Err(NormError::ScalarRoot);
        },
    }
    let mut planner = Planner::new();
    planner.plan_root(value);
    Ok(planner.render())
}

} // verus!
