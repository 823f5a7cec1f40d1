//! An object whose members are scalars, objects of scalars, or arrays of scalars or of
//! objects of scalars, written by the encoder, reads back as the same object (the objects
//! of an array coming back with their members in the order of their table's columns): the
//! member objects go through pk rows and references, the member arrays through named
//! sections (or the empty-array word when they have no items).
use vstd::prelude::*;

use crate::encoder::{
    SKind, SPlan, SPlanCell, SPlanRow, SPlanSection, SRole, all_objects, build_field_cell, build_fields,
    empty_section, get_or_create_object_section, key_lookup, key_put, merge_into, merge_row,
    reserve_name,
};
use crate::json::SpecJson;
use crate::document::{SDoc, SRow, SSection};
use crate::lexer::{SCell, SToken, is_ws, lex_from, parse_record, valid_section_name};
use crate::parser::{CState, PState, collect_finish, collect_step, collect_upto};
use crate::readback::{field_reads, lemma_record, no_nul, written_cell};
use crate::resolve::{Key, Pk, build_cols, cell_value, path_ok, res_object_row};
use crate::roundtrip::{
    distinct_keys, is_scalar, keys_of, lemma_build_scalar_fields, lemma_merge_distinct, value_fields,
};

verus! {

// ---------------------------------------------------------------------------
// The values
// ---------------------------------------------------------------------------

/// An object all of whose members are scalars, with distinct keys.
pub open spec fn is_flat_object(x: SpecJson) -> bool {
    match x {
        SpecJson::Object(n) => distinct_keys(n) && forall|k: int| 0 <= k < n.len() ==> is_scalar(#[trigger] n[k].1),
        _ => false,
    }
}

/// An array without items.
pub open spec fn is_empty_array(x: SpecJson) -> bool {
    x matches SpecJson::Array(a) && a.len() == 0
}

/// An array of scalars, at least one.
pub open spec fn is_scalar_list(x: SpecJson) -> bool {
    x matches SpecJson::Array(a) && a.len() > 0 && forall|k: int| 0 <= k < a.len() ==> is_scalar(#[trigger] a[k])
}

/// An array of objects of scalars, at least one.
pub open spec fn is_object_list(x: SpecJson) -> bool {
    x matches SpecJson::Array(a) && a.len() > 0 && forall|k: int| 0 <= k < a.len() ==> is_flat_object(#[trigger] a[k])
}

/// A member value that is a scalar, an object of scalars, or an array of scalars or of
/// objects of scalars.
pub open spec fn shallow(x: SpecJson) -> bool {
    is_scalar(x) || is_flat_object(x) || is_empty_array(x) || is_scalar_list(x) || is_object_list(x)
}

/// A member value that gets a section of its own: an object, or an array with items.
pub open spec fn has_section(x: SpecJson) -> bool {
    x is Object || (x matches SpecJson::Array(a) && a.len() > 0)
}

/// How many of the first `i` members are objects.
pub open spec fn obj_count(m: Seq<(Seq<char>, SpecJson)>, i: int) -> nat
    decreases i,
{
    if i <= 0 {
        0
    } else {
        obj_count(m, i - 1) + (if m[i - 1].1 is Object {
            1nat
        } else {
            0nat
        })
    }
}

/// How many of the first `i` members get a section of their own.
pub open spec fn sec_count(m: Seq<(Seq<char>, SpecJson)>, i: int) -> nat
    decreases i,
{
    if i <= 0 {
        0
    } else {
        sec_count(m, i - 1) + (if has_section(m[i - 1].1) {
            1nat
        } else {
            0nat
        })
    }
}

// ---------------------------------------------------------------------------
// The plan of the members
// ---------------------------------------------------------------------------

/// The root row's cell for member `l`, where `secs` are the members' sections in order: a
/// reference to the row of a member object, a reference to the section of a member array
/// with items, the empty-array word for an empty array, or the scalar itself.
pub open spec fn member_cell(m: Seq<(Seq<char>, SpecJson)>, secs: Seq<SPlanSection>, l: int) -> SPlanCell {
    match m[l].1 {
        SpecJson::Object(_) => SPlanCell::RowRef(obj_count(m, l) + 1),
        SpecJson::Array(a) => if a.len() == 0 {
            SPlanCell::EmptyArrayRef
        } else {
            SPlanCell::NamedRef(secs[sec_count(m, l) as int].name)
        },
        x => SPlanCell::Value(x),
    }
}

/// The section that holds the one row of nested object `n`, whose pk is `pk`.
pub open spec fn object_section(name: Seq<char>, n: Seq<(Seq<char>, SpecJson)>, pk: nat) -> SPlanSection {
    SPlanSection {
        name,
        kind: SKind::Table,
        role: SRole::Object,
        has_pk_column: true,
        data_columns: keys_of(n),
        rows: seq![SPlanRow { pk: Some(pk), fields: value_fields(n) }],
        values: Seq::empty(),
    }
}

/// The section that holds the items of a member array of scalars.
pub open spec fn array_section(name: Seq<char>, a: Seq<SpecJson>) -> SPlanSection {
    SPlanSection {
        name,
        kind: SKind::Array,
        role: SRole::PrimitiveArray,
        has_pk_column: false,
        data_columns: Seq::empty(),
        rows: Seq::empty(),
        values: crate::arrays::value_cells(a),
    }
}

/// The section that holds the items of a member array of objects, one row each.
pub open spec fn objects_section(name: Seq<char>, a: Seq<SpecJson>) -> SPlanSection {
    SPlanSection { name, ..crate::tables::table_section(a, a.len() as int) }
}

/// The planner state and the fields after the first `i` members.
pub open spec fn nest_state(p: SPlan, m: Seq<(Seq<char>, SpecJson)>, i: int) -> (SPlan, Seq<(Seq<char>, SPlanCell)>)
    decreases i,
{
    if i <= 0 {
        (p, Seq::empty())
    } else {
        let (q, f) = nest_state(p, m, i - 1);
        let (q2, c) = build_field_cell(q, m[i - 1].1, m[i - 1].0);
        (q2, f.push((m[i - 1].0, c)))
    }
}

proof fn lemma_nest_state_fields(p: SPlan, m: Seq<(Seq<char>, SpecJson)>, i: int)
    requires
        0 <= i <= m.len(),
    ensures
        build_fields(p, m, 0, Seq::empty()) == build_fields(nest_state(p, m, i).0, m, i, nest_state(p, m, i).1),
    decreases i,
{
    if i > 0 {
        lemma_nest_state_fields(p, m, i - 1);
    }
}

/// The plan state after `i` members: one section per object member and per array member
/// with items, in order; pks of the objects counted from 1; each field as `member_cell`.
pub open spec fn nest_inv(p0: SPlan, m: Seq<(Seq<char>, SpecJson)>, i: int, q: SPlan, f: Seq<(Seq<char>, SPlanCell)>) -> bool {
    &&& q.next_pk == obj_count(m, i) + 1
    &&& q.root_array == p0.root_array
    &&& q.sections.len() == sec_count(m, i)
    &&& f.len() == i
    &&& forall|e: int| 0 <= e < q.by_key.len() ==> exists|l: int| 0 <= l < i && #[trigger] q.by_key[e].0 == m[l].0
    &&& forall|l: int| 0 <= l < i ==> #[trigger] f[l] == (m[l].0, member_cell(m, q.sections, l))
    &&& forall|l: int|
        0 <= l < i && has_section(m[l].1) ==> #[trigger] q.sections[sec_count(m, l) as int].name != root_name()
    &&& forall|l: int|
        0 <= l < i && m[l].1 is Object ==> #[trigger] q.sections[sec_count(m, l) as int] == object_section(
            q.sections[sec_count(m, l) as int].name,
            m[l].1->Object_0,
            obj_count(m, l) + 1,
        )
    &&& forall|l: int|
        0 <= l < i && is_scalar_list(m[l].1) ==> #[trigger] q.sections[sec_count(m, l) as int]
            == array_section(q.sections[sec_count(m, l) as int].name, m[l].1->Array_0)
    &&& forall|l: int|
        0 <= l < i && is_object_list(m[l].1) ==> #[trigger] q.sections[sec_count(m, l) as int]
            == objects_section(q.sections[sec_count(m, l) as int].name, m[l].1->Array_0)
}

proof fn lemma_obj_count_mono(m: Seq<(Seq<char>, SpecJson)>, a: int, b: int)
    requires
        0 <= a <= b,
    ensures
        obj_count(m, a) <= obj_count(m, b),
    decreases b,
{
    if b > a {
        lemma_obj_count_mono(m, a, b - 1);
    }
}

proof fn lemma_sec_count_mono(m: Seq<(Seq<char>, SpecJson)>, a: int, b: int)
    requires
        0 <= a <= b,
    ensures
        sec_count(m, a) <= sec_count(m, b),
    decreases b,
{
    if b > a {
        lemma_sec_count_mono(m, a, b - 1);
    }
}

/// A member with a section comes before the sections of later members.
proof fn lemma_sec_before(m: Seq<(Seq<char>, SpecJson)>, l: int, i: int)
    requires
        0 <= l < i,
        has_section(m[l].1),
    ensures
        sec_count(m, l) < sec_count(m, i),
{
    lemma_sec_count_mono(m, l + 1, i);
}

proof fn lemma_key_lookup_absent(by: Seq<(Seq<char>, nat)>, k: Seq<char>)
    requires
        forall|e: int| 0 <= e < by.len() ==> #[trigger] by[e].0 != k,
    ensures
        key_lookup(by, k) is None,
    decreases by.len(),
{
    if by.len() > 0 {
        assert(by[0].0 != k);
        assert forall|e: int| 0 <= e < by.drop_first().len() implies #[trigger] by.drop_first()[e].0 != k by {
            assert(by.drop_first()[e] == by[e + 1]);
        }
        lemma_key_lookup_absent(by.drop_first(), k);
    }
}

proof fn lemma_key_put_keys(by: Seq<(Seq<char>, nat)>, k: Seq<char>, v: nat)
    ensures
        forall|e: int|
            0 <= e < key_put(by, k, v).len() ==> #[trigger] key_put(by, k, v)[e].0 == k || exists|j: int|
                0 <= j < by.len() && by[j].0 == key_put(by, k, v)[e].0,
    decreases by.len(),
{
    let r = key_put(by, k, v);
    if by.len() == 0 {
    } else if by[0].0 == k {
        assert forall|e: int| 0 <= e < r.len() implies #[trigger] r[e].0 == k || exists|j: int|
            0 <= j < by.len() && by[j].0 == r[e].0 by {
            if e > 0 {
                assert(r[e] == by[e]);
            }
        }
    } else {
        lemma_key_put_keys(by.drop_first(), k, v);
        let r2 = key_put(by.drop_first(), k, v);
        assert forall|e: int| 0 <= e < r.len() implies #[trigger] r[e].0 == k || exists|j: int|
            0 <= j < by.len() && by[j].0 == r[e].0 by {
            if e == 0 {
                assert(by[0].0 == r[0].0);
            } else {
                assert(r[e] == r2[e - 1]);
                if r2[e - 1].0 != k {
                    let j = choose|j: int| 0 <= j < by.drop_first().len() && by.drop_first()[j].0 == r2[e - 1].0;
                    assert(by[j + 1].0 == r[e].0);
                }
            }
        }
    }
}

/// A section name reserved for a key other than `root` is not `root`.
proof fn lemma_reserve_not_root(p: SPlan, key: Seq<char>)
    requires
        key != root_name(),
    ensures
        reserve_name(p, key).1 != root_name(),
{
    let s = crate::encoder::sanitise(key);
    let name = reserve_name(p, key).1;
    let rt = root_name();
    if name == rt {
        if name == s {
            if key.len() == 0 {
                assert(s[0] == '_');
                assert(rt[0] != '_');
            } else {
                assert(s.len() == key.len());
                assert forall|i: int| 0 <= i < key.len() implies key[i] == rt[i] by {
                    assert(s[i] == rt[i]);
                    assert(rt[i] != '_');
                }
                assert(key =~= rt);
            }
        } else {
            let n = crate::encoder::first_free(p.used, s, 2);
            let c = crate::encoder::candidate(s, n);
            assert(name == c);
            crate::text::lemma_dec_value(n);
            if s.len() < 4 {
                assert(c[s.len() as int] == '_');
                assert(rt[s.len() as int] != '_');
            } else {
                assert(c.len() > 4);
            }
        }
    }
}

/// Items `j..` of an array of scalars, appended as values to section `idx`.
proof fn lemma_build_scalar_items(p: SPlan, arr: Seq<SpecJson>, j: int, idx: nat, base: Seq<char>)
    requires
        0 <= j <= arr.len(),
        idx < p.sections.len(),
        forall|k: int| 0 <= k < arr.len() ==> is_scalar(#[trigger] arr[k]),
    ensures
        crate::encoder::build_items(p, arr, j, idx, base) == (SPlan {
            sections: p.sections.update(
                idx as int,
                SPlanSection {
                    values: p.sections[idx as int].values + crate::arrays::value_cells(arr).subrange(j, arr.len() as int),
                    ..p.sections[idx as int]
                },
            ),
            ..p
        }),
    decreases arr.len() - j,
{
    let sec = p.sections[idx as int];
    let vc = crate::arrays::value_cells(arr);
    if j < arr.len() {
        assert(is_scalar(arr[j]));
        assert(crate::encoder::build_array_item(p, arr[j], base) == (p, SPlanCell::Value(arr[j])));
        let p1 = crate::encoder::push_value(p, idx, SPlanCell::Value(arr[j]));
        lemma_build_scalar_items(p1, arr, j + 1, idx, base);
        assert(vc[j] == SPlanCell::Value(arr[j]));
        assert(sec.values.push(SPlanCell::Value(arr[j])) + vc.subrange(j + 1, arr.len() as int) =~= sec.values
            + vc.subrange(j, arr.len() as int));
        assert(p1.sections.update(
            idx as int,
            SPlanSection {
                values: p1.sections[idx as int].values + vc.subrange(j + 1, arr.len() as int),
                ..p1.sections[idx as int]
            },
        ) =~= p.sections.update(
            idx as int,
            SPlanSection { values: sec.values + vc.subrange(j, arr.len() as int), ..sec },
        ));
    } else {
        assert(sec.values + vc.subrange(j, arr.len() as int) =~= sec.values);
        assert(p.sections.update(idx as int, SPlanSection { values: sec.values, ..sec }) =~= p.sections);
    }
}

/// Items `j..` of an array of objects of scalars, merged as rows into section `idx`.
proof fn lemma_build_object_items(p: SPlan, arr: Seq<SpecJson>, j: int, idx: nat, name: Seq<char>)
    requires
        0 <= j <= arr.len(),
        idx < p.sections.len(),
        forall|k: int| 0 <= k < arr.len() ==> is_flat_object(#[trigger] arr[k]),
        p.sections[idx as int] == (SPlanSection { name, ..crate::tables::table_section(arr, j) }),
    ensures
        crate::encoder::build_object_items(p, arr, j, idx) == (SPlan {
            sections: p.sections.update(idx as int, objects_section(name, arr)),
            ..p
        }),
    decreases arr.len() - j,
{
    if j < arr.len() {
        let x = arr[j];
        assert(is_flat_object(x));
        let o = x->Object_0;
        assert forall|k: int| 0 <= k < o.len() implies is_scalar(#[trigger] o[k].1) by {}
        lemma_build_scalar_fields(p, o, 0, Seq::empty());
        assert(Seq::<(Seq<char>, SPlanCell)>::empty() + value_fields(o).subrange(0, o.len() as int) =~= value_fields(o));
        let row = SPlanRow { pk: None, fields: value_fields(o) };
        assert(crate::tables::members_of(x) == o);
        let p1 = crate::encoder::merge_into(p, idx, row);
        assert(p1.sections[idx as int] == (SPlanSection { name, ..crate::tables::table_section(arr, j + 1) })) by {
            assert(crate::tables::table_section(arr, j).rows.push(row) =~= crate::tables::table_section(arr, j + 1).rows);
        }
        lemma_build_object_items(p1, arr, j + 1, idx, name);
        assert(p1.sections.update(idx as int, objects_section(name, arr)) =~= p.sections.update(
            idx as int,
            objects_section(name, arr),
        ));
    } else {
        assert(p.sections.update(idx as int, objects_section(name, arr)) =~= p.sections);
    }
}

/// No member array of objects makes a table whose first column is called `pk`.
pub open spec fn no_pk_lists(m: Seq<(Seq<char>, SpecJson)>) -> bool {
    forall|k: int|
        0 <= k < m.len() && is_object_list(#[trigger] m[k].1) ==> !crate::encoder::pk_first(
            crate::tables::full_table(m[k].1->Array_0),
        )
}

#[verifier::rlimit(50)]
proof fn lemma_nest_step(p0: SPlan, m: Seq<(Seq<char>, SpecJson)>, i: int)
    requires
        0 <= i < m.len(),
        distinct_keys(m),
        forall|k: int| 0 <= k < m.len() ==> shallow(#[trigger] m[k].1),
        forall|k: int| 0 <= k < m.len() && has_section(m[k].1) ==> #[trigger] m[k].0 != root_name(),
        no_pk_lists(m),
        nest_inv(p0, m, i, nest_state(p0, m, i).0, nest_state(p0, m, i).1),
    ensures
        nest_inv(p0, m, i + 1, nest_state(p0, m, i + 1).0, nest_state(p0, m, i + 1).1),
{
    let (q, f) = nest_state(p0, m, i);
    let x = m[i].1;
    let key = m[i].0;
    let (q2, c) = build_field_cell(q, x, key);
    let f2 = f.push((key, c));
    assert(nest_state(p0, m, i + 1) == (q2, f2));
    assert(shallow(x));
    match x {
        SpecJson::Object(n) => {
            let pk = q.next_pk;
            let q1 = SPlan { next_pk: pk + 1, ..q };
            assert forall|e: int| 0 <= e < q1.by_key.len() implies #[trigger] q1.by_key[e].0 != key by {
                let l = choose|l: int| 0 <= l < i && q.by_key[e].0 == m[l].0;
                assert(m[l].0 != m[i].0);
            }
            lemma_key_lookup_absent(q1.by_key, key);
            let (qr, name) = reserve_name(q1, key);
            lemma_reserve_not_root(q1, key);
            let idx = qr.sections.len();
            let qs = SPlan {
                sections: qr.sections.push(empty_section(name, SKind::Table, SRole::Object, true)),
                by_key: key_put(qr.by_key, key, idx),
                ..qr
            };
            assert(get_or_create_object_section(q1, key) == (qs, idx));
            assert(is_flat_object(x));
            assert forall|k: int| 0 <= k < n.len() implies is_scalar(#[trigger] n[k].1) by {}
            lemma_build_scalar_fields(qs, n, 0, Seq::empty());
            let fields = value_fields(n);
            assert(Seq::<(Seq<char>, SPlanCell)>::empty() + fields.subrange(0, n.len() as int) =~= fields);
            assert(build_fields(qs, n, 0, Seq::empty()) == (qs, fields));
            let row = SPlanRow { pk: Some(pk), fields };
            assert(q2 == merge_into(qs, idx, row));
            assert forall|a: int, b: int| 0 <= a < b < fields.len() implies fields[a].0 != fields[b].0 by {}
            lemma_merge_distinct(fields);
            assert(fields.map_values(|p: (Seq<char>, SPlanCell)| p.0) =~= keys_of(n));
            let sec = merge_row(empty_section(name, SKind::Table, SRole::Object, true), row);
            assert(sec.rows =~= seq![row]);
            assert(sec == object_section(name, n, pk));
            assert(q2.sections =~= q.sections.push(sec));
            assert(obj_count(m, i + 1) == obj_count(m, i) + 1);
            assert(sec_count(m, i + 1) == sec_count(m, i) + 1);
            lemma_key_put_keys(qr.by_key, key, idx);
            assert forall|e: int| 0 <= e < q2.by_key.len() implies exists|l: int| 0 <= l < i + 1
                && #[trigger] q2.by_key[e].0 == m[l].0 by {
                if q2.by_key[e].0 != key {
                    let j = choose|j: int| 0 <= j < qr.by_key.len() && qr.by_key[j].0 == q2.by_key[e].0;
                    let l = choose|l: int| 0 <= l < i && q.by_key[j].0 == m[l].0;
                    assert(q2.by_key[e].0 == m[l].0);
                } else {
                    assert(q2.by_key[e].0 == m[i].0);
                }
            }
        },
        SpecJson::Array(a) => {
            if a.len() > 0 && all_objects(a) {
                assert(is_object_list(x)) by {
                    if is_scalar_list(x) {
                        assert(crate::encoder::is_object(a[0]));
                    }
                }
                let (q1, name) = reserve_name(q, key);
                lemma_reserve_not_root(q, key);
                let idx = q1.sections.len();
                let qa = SPlan {
                    sections: q1.sections.push(empty_section(name, SKind::Table, SRole::ArrayOfObjects, false)),
                    ..q1
                };
                assert(crate::encoder::create_array_of_objects_section(q, key) == (qa, idx));
                assert(qa.sections[idx as int] == SPlanSection { name, ..crate::tables::table_section(a, 0) }) by {
                    assert(crate::tables::table_section(a, 0).rows =~= Seq::<SPlanRow>::empty());
                }
                assert forall|k: int| 0 <= k < a.len() implies is_flat_object(#[trigger] a[k]) by {}
                lemma_build_object_items(qa, a, 0, idx, name);
                let qb = crate::encoder::build_object_items(qa, a, 0, idx);
                assert(m[i].1 == x);
                assert(!crate::encoder::pk_first(crate::tables::full_table(a)));
                crate::encoder::lemma_guard_pk_off(qb, qb.sections[idx as int]);
                assert(qb.sections.update(idx as int, qb.sections[idx as int]) =~= qb.sections);
                let sec = objects_section(name, a);
                assert(q2.sections =~= q.sections.push(sec));
                assert(sec_count(m, i + 1) == sec_count(m, i) + 1);
                assert(obj_count(m, i + 1) == obj_count(m, i));
            } else if a.len() > 0 {
                assert(is_scalar_list(x)) by {
                    if is_object_list(x) {
                        assert forall|k: int| 0 <= k < a.len() implies #[trigger] crate::encoder::is_object(a[k]) by {
                            assert(is_flat_object(a[k]));
                        }
                    }
                }
                let (q1, name) = reserve_name(q, key);
                lemma_reserve_not_root(q, key);
                let idx = q1.sections.len();
                let qa = SPlan {
                    sections: q1.sections.push(empty_section(name, SKind::Array, SRole::PrimitiveArray, false)),
                    ..q1
                };
                assert(build_field_cell(q, x, key) == (crate::encoder::build_items(qa, a, 0, idx, name), SPlanCell::NamedRef(name)));
                lemma_build_scalar_items(qa, a, 0, idx, name);
                let sec = SPlanSection {
                    values: Seq::empty() + crate::arrays::value_cells(a).subrange(0, a.len() as int),
                    ..empty_section(name, SKind::Array, SRole::PrimitiveArray, false)
                };
                assert(sec == array_section(name, a)) by {
                    assert(sec.values =~= crate::arrays::value_cells(a));
                }
                assert(q2.sections =~= q.sections.push(sec));
                assert(sec_count(m, i + 1) == sec_count(m, i) + 1);
                assert(obj_count(m, i + 1) == obj_count(m, i));
            } else {
                assert(build_field_cell(q, x, key) == (q, SPlanCell::EmptyArrayRef));
                assert(obj_count(m, i + 1) == obj_count(m, i));
                assert(sec_count(m, i + 1) == sec_count(m, i));
            }
        },
        _ => {
            assert(is_scalar(x));
            assert(build_field_cell(q, x, key) == (q, SPlanCell::Value(x)));
            assert(obj_count(m, i + 1) == obj_count(m, i));
            assert(sec_count(m, i + 1) == sec_count(m, i));
        },
    }
    // the sections of earlier members stay where they are
    assert(q2.sections.len() >= q.sections.len());
    assert(forall|k: int| 0 <= k < q.sections.len() ==> #[trigger] q2.sections[k] == q.sections[k]);
    assert forall|l: int| 0 <= l < i implies member_cell(m, q2.sections, l) == member_cell(m, q.sections, l) by {
        if has_section(m[l].1) {
            lemma_sec_before(m, l, i);
        }
    }
    assert forall|l: int| 0 <= l < i && has_section(m[l].1) implies #[trigger] q2.sections[sec_count(m, l) as int]
        == q.sections[sec_count(m, l) as int] by {
        lemma_sec_before(m, l, i);
    }
    assert forall|l: int| 0 <= l < i + 1 implies #[trigger] f2[l] == (m[l].0, member_cell(m, q2.sections, l)) by {
        if l < i {
            assert(f2[l] == f[l]);
        }
    }
}

proof fn lemma_nest_all(p0: SPlan, m: Seq<(Seq<char>, SpecJson)>, i: int)
    requires
        0 <= i <= m.len(),
        distinct_keys(m),
        forall|k: int| 0 <= k < m.len() ==> shallow(#[trigger] m[k].1),
        forall|k: int| 0 <= k < m.len() && has_section(m[k].1) ==> #[trigger] m[k].0 != root_name(),
        no_pk_lists(m),
        p0.next_pk == 1,
        p0.sections.len() == 0,
        p0.by_key.len() == 0,
    ensures
        nest_inv(p0, m, i, nest_state(p0, m, i).0, nest_state(p0, m, i).1),
    decreases i,
{
    if i > 0 {
        lemma_nest_all(p0, m, i - 1);
        lemma_nest_step(p0, m, i - 1);
    } else {
        assert(nest_state(p0, m, 0) == (p0, Seq::<(Seq<char>, SPlanCell)>::empty()));
    }
}

/// The fields of the root row, where `secs` are the members' sections in order.
pub open spec fn root_fields(m: Seq<(Seq<char>, SpecJson)>, secs: Seq<SPlanSection>) -> Seq<(Seq<char>, SPlanCell)> {
    Seq::new(m.len(), |l: int| (m[l].0, member_cell(m, secs, l)))
}

/// The root section of the plan of the object `m`.
pub open spec fn root_section(m: Seq<(Seq<char>, SpecJson)>, secs: Seq<SPlanSection>) -> SPlanSection {
    SPlanSection {
        name: crate::encoder::data_word(),
        kind: SKind::Table,
        role: SRole::Root,
        has_pk_column: false,
        data_columns: keys_of(m),
        rows: seq![SPlanRow { pk: None, fields: root_fields(m, secs) }],
        values: Seq::empty(),
    }
}

/// The plan of an object whose members are shallow: the root table, then one section per
/// member object (with pks counted from 1) and per member array with items, in order.
proof fn lemma_nested_plan(m: Seq<(Seq<char>, SpecJson)>)
    requires
        distinct_keys(m),
        forall|k: int| 0 <= k < m.len() ==> shallow(#[trigger] m[k].1),
        forall|k: int| 0 <= k < m.len() && has_section(m[k].1) ==> #[trigger] m[k].0 != root_name(),
        m.len() > 0 ==> m[0].0 != crate::parser::pk_word(),
        no_pk_lists(m),
    ensures
        ({
            let p = crate::encoder::plan_root(SpecJson::Object(m));
            &&& !p.root_array
            &&& p.sections.len() == sec_count(m, m.len() as int) + 1
            &&& p.sections[0] == root_section(m, p.sections.drop_first())
            &&& forall|l: int|
                0 <= l < m.len() && has_section(m[l].1) ==> #[trigger] p.sections[(sec_count(m, l) + 1) as int].name
                    != root_name()
            &&& forall|l: int|
                0 <= l < m.len() && m[l].1 is Object ==> #[trigger] p.sections[(sec_count(m, l) + 1) as int]
                    == object_section(p.sections[(sec_count(m, l) + 1) as int].name, m[l].1->Object_0, obj_count(m, l) + 1)
            &&& forall|l: int|
                0 <= l < m.len() && is_scalar_list(m[l].1) ==> #[trigger] p.sections[(sec_count(m, l)
                    + 1) as int] == array_section(p.sections[(sec_count(m, l) + 1) as int].name, m[l].1->Array_0)
            &&& forall|l: int|
                0 <= l < m.len() && is_object_list(m[l].1) ==> #[trigger] p.sections[(sec_count(m, l)
                    + 1) as int] == objects_section(p.sections[(sec_count(m, l) + 1) as int].name, m[l].1->Array_0)
        }),
{
    let dw = crate::encoder::data_word();
    assert(crate::encoder::sanitise(dw) =~= dw) by {
        assert(crate::lexer::is_ascii_alpha(dw[0]));
        assert(crate::lexer::is_name_char(dw[1]));
        assert(crate::lexer::is_name_char(dw[2]));
        assert(crate::lexer::is_name_char(dw[3]));
    }
    let (p0, r) = reserve_name(crate::encoder::plan_init(), dw);
    assert(r == dw);
    let p1 = SPlan { root_array: false, ..p0 };
    let n = m.len() as int;
    lemma_nest_all(p1, m, n);
    lemma_nest_state_fields(p1, m, n);
    let (p2, f) = nest_state(p1, m, n);
    assert(build_fields(p2, m, n, f) == (p2, f));
    assert(f =~= root_fields(m, p2.sections));
    assert forall|a: int, b: int| 0 <= a < b < f.len() implies f[a].0 != f[b].0 by {}
    lemma_merge_distinct(f);
    assert(f.map_values(|p: (Seq<char>, SPlanCell)| p.0) =~= keys_of(m));
    let row = SPlanRow { pk: None, fields: f };
    let sec = merge_row(empty_section(dw, SKind::Table, SRole::Root, false), row);
    assert(sec.rows =~= seq![row]);
    assert(!crate::encoder::pk_first(sec)) by {
        if m.len() > 0 {
            assert(keys_of(m)[0] == m[0].0);
            assert(sec.data_columns[0] == keys_of(m)[0]);
            assert(crate::parser::pk_word() =~= seq!['p', 'k']);
        }
    }
    crate::encoder::lemma_guard_pk_off(p2, sec);
    let p = crate::encoder::plan_root(SpecJson::Object(m));
    assert(p == crate::encoder::insert_front(p2, sec));
    assert(p.sections.drop_first() =~= p2.sections);
    assert(sec == root_section(m, p.sections.drop_first()));
    assert forall|l: int| 0 <= l < m.len() && has_section(m[l].1) implies p.sections[(sec_count(m, l) + 1) as int]
        == p2.sections[sec_count(m, l) as int] by {
        lemma_sec_before(m, l, n);
    }
}

// ---------------------------------------------------------------------------
// A table section with one row, through the lexer
// ---------------------------------------------------------------------------

/// The first character of a line opens a data record, and is no space or line break.
pub open spec fn lead_ok(t: Seq<char>) -> bool {
    &&& t.len() > 0
    &&& !is_ws(t[0])
    &&& t[0] != '\n' && t[0] != '\r' && t[0] != '#' && t[0] != ':'
}

pub open spec fn root_name() -> Seq<char> {
    seq!['r', 'o', 'o', 't']
}

/// The text of a table section with one row.
pub open spec fn table_text(name: Seq<char>, ht: Seq<Seq<char>>, rt: Seq<Seq<char>>) -> Seq<char> {
    seq![':'] + name + seq!['\n'] + crate::encoder::join_comma(ht) + seq!['\n'] + crate::encoder::join_comma(rt)
        + seq!['\n']
}

pub(crate) proof fn lemma_header_line(pre: Seq<char>, name: Seq<char>, post: Seq<char>, line: nat, acc: Seq<(nat, SToken)>)
    requires
        valid_section_name(name),
        name != root_name(),
    ensures
        ({
            let s = pre + (seq![':'] + name) + seq!['\n'] + post;
            lex_from(s, pre.len() as int, line, acc) == lex_from(
                s,
                (pre.len() + name.len() + 2) as int,
                line + 1,
                acc.push((line, SToken::Header { name, array: false })),
            )
        }),
{
    let w = seq![':'] + name;
    assert(w.drop_first() =~= name);
    assert(crate::lexer::is_ascii_alpha(name[0]) || name[0] == '_');
    assert forall|k: int| 0 <= k < w.len() implies #[trigger] w[k] != '\n' && w[k] != '\0' && w[k] != '#'
        && w[k] != '\r' by {
        if k > 1 {
            assert(crate::lexer::is_name_char(name[k - 1]));
        }
    }
    assert(!is_ws(w.last())) by {
        if name.len() > 1 {
            assert(crate::lexer::is_name_char(name[name.len() - 1]));
        }
    }
    crate::roundtrip::lemma_struct_line(pre, w, post, line, acc);
    assert(name != crate::lexer::root_word()) by {
        assert(root_name() =~= crate::lexer::root_word());
    }
    crate::lexer::lemma_name_not_root_garbage(name);
    assert(name != crate::lexer::root_array_word()) by {
        if name == crate::lexer::root_array_word() {
            assert(crate::lexer::is_name_char(name[4]));
        }
    }
    assert(!(name.len() >= 2 && name[name.len() - 2] == '[')) by {
        if name.len() >= 2 {
            assert(crate::lexer::is_name_char(name[name.len() - 2]));
        }
    }
}

/// A table section with one row: its header line, header record and row record.
#[verifier::spinoff_prover]
#[verifier::rlimit(50)]
proof fn lemma_table_section(
    pre: Seq<char>,
    name: Seq<char>,
    ht: Seq<Seq<char>>,
    hc: Seq<SCell>,
    rt: Seq<Seq<char>>,
    rc: Seq<SCell>,
    post: Seq<char>,
    line: nat,
    acc: Seq<(nat, SToken)>,
) -> (r: (nat, nat))
    requires
        valid_section_name(name),
        name != root_name(),
        ht.len() == hc.len() && ht.len() > 0,
        rt.len() == rc.len() && rt.len() > 0,
        forall|i: int| 0 <= i < ht.len() ==> field_reads(#[trigger] ht[i], hc[i]),
        forall|i: int| 0 <= i < rt.len() ==> field_reads(#[trigger] rt[i], rc[i]),
        lead_ok(crate::encoder::join_comma(ht)),
        lead_ok(crate::encoder::join_comma(rt)),
        no_nul(pre + table_text(name, ht, rt) + post),
    ensures
        ({
            let s = pre + table_text(name, ht, rt) + post;
            lex_from(s, pre.len() as int, line, acc) == lex_from(
                s,
                (pre.len() + table_text(name, ht, rt).len()) as int,
                r.1,
                acc + seq![
                    (line, SToken::Header { name, array: false }),
                    (line + 1, SToken::Row { cells: hc }),
                    (r.0, SToken::Row { cells: rc }),
                ],
            )
        }),
{
    let h = crate::encoder::join_comma(ht);
    let v = crate::encoder::join_comma(rt);
    let nl = seq!['\n'];
    let s = pre + table_text(name, ht, rt) + post;
    assert(s =~= pre + (seq![':'] + name) + nl + (h + nl + v + nl + post));
    lemma_header_line(pre, name, h + nl + v + nl + post, line, acc);
    let acc1 = acc.push((line, SToken::Header { name, array: false }));
    let pre2 = pre + (seq![':'] + name) + nl;
    assert(pre2.len() == pre.len() + name.len() + 2);
    assert(s =~= pre2 + h + nl + (v + nl + post));
    lemma_record(ht, hc, pre2, v + nl + post, line + 1, Seq::empty());
    assert(Seq::<SCell>::empty() + hc =~= hc);
    assert(s[pre2.len() as int] == h[0]);
    crate::roundtrip::lemma_data_line(s, pre2.len() as int, line + 1, acc1);
    let r3 = parse_record(s, pre2.len() as int, line + 1, Seq::empty())->Ok_0;
    let acc2 = acc1.push((line + 1, SToken::Row { cells: hc }));
    let pre3 = pre2 + h + nl;
    assert(s =~= pre3 + v + nl + post);
    lemma_record(rt, rc, pre3, post, r3.2, Seq::empty());
    assert(Seq::<SCell>::empty() + rc =~= rc);
    assert(r3.1 == pre3.len());
    assert(s[pre3.len() as int] == v[0]);
    crate::roundtrip::lemma_data_line(s, pre3.len() as int, r3.2, acc2);
    let r4 = parse_record(s, pre3.len() as int, r3.2, Seq::empty())->Ok_0;
    assert(r4.1 == pre.len() + table_text(name, ht, rt).len());
    assert(acc2.push((r3.2, SToken::Row { cells: rc })) =~= acc + seq![
        (line, SToken::Header { name, array: false }),
        (line + 1, SToken::Row { cells: hc }),
        (r3.2, SToken::Row { cells: rc }),
    ]);
    (r3.2, r4.2)
}

// ---------------------------------------------------------------------------
// Sections whose lines read back
// ---------------------------------------------------------------------------

/// `@n`
pub open spec fn ref_text(n: nat) -> Seq<char> {
    seq!['@'] + crate::text::dec(n)
}

/// The cell the lexer makes of the text written for a plan cell.
pub open spec fn plan_cell(c: SPlanCell) -> SCell {
    match c {
        SPlanCell::Value(x) => crate::readback::written_cell(x),
        SPlanCell::RowRef(n) => SCell::Unquoted(ref_text(n)),
        SPlanCell::NamedRef(name) => SCell::Unquoted(seq!['@'] + name),
        SPlanCell::EmptyArrayRef => SCell::Unquoted(crate::resolve::word_empty_array()),
    }
}

pub open spec fn row_pk(r: SPlanRow) -> nat {
    match r.pk {
        Some(n) => n,
        None => 0,
    }
}

/// The header cells of a section.
pub open spec fn sec_hc(sec: SPlanSection) -> Seq<SCell> {
    (if sec.has_pk_column {
        seq![SCell::Unquoted(crate::parser::pk_word())]
    } else {
        Seq::empty()
    }) + sec.data_columns.map_values(|k: Seq<char>| crate::readback::written_header_cell(k))
}

/// The cells of the one row of a section.
pub open spec fn sec_rc(sec: SPlanSection) -> Seq<SCell> {
    (if sec.has_pk_column {
        seq![SCell::Unquoted(crate::text::dec(row_pk(sec.rows[0])))]
    } else {
        Seq::empty()
    }) + sec.rows[0].fields.map_values(|f: (Seq<char>, SPlanCell)| plan_cell(f.1))
}

/// A table section with one row whose columns are the row's fields, in order, each a
/// writable name holding a writable scalar or a row reference.
pub open spec fn sec_base(sec: SPlanSection) -> bool {
    &&& sec.kind is Table
    &&& sec.rows.len() == 1
    &&& sec.data_columns == sec.rows[0].fields.map_values(|f: (Seq<char>, SPlanCell)| f.0)
    &&& forall|a: int, b: int|
        0 <= a < b < sec.rows[0].fields.len() ==> sec.rows[0].fields[a].0 != sec.rows[0].fields[b].0
    &&& forall|i: int|
        0 <= i < sec.data_columns.len() ==> crate::readback::writable_key(#[trigger] sec.data_columns[i])
    &&& forall|i: int|
        0 <= i < sec.rows[0].fields.len() ==> match #[trigger] sec.rows[0].fields[i].1 {
            SPlanCell::Value(x) => crate::readback::writable_scalar(x),
            SPlanCell::RowRef(_) => true,
            SPlanCell::EmptyArrayRef => true,
            SPlanCell::NamedRef(name) => valid_section_name(name),
        }
    &&& sec.has_pk_column ==> sec.rows[0].pk is Some
    &&& sec.has_pk_column || sec.data_columns.len() > 0
}

/// Such a section whose two lines open data records.
pub open spec fn sec_ok(sec: SPlanSection) -> bool {
    &&& sec_base(sec)
    &&& lead_ok(crate::encoder::join_comma(crate::encoder::header_parts(sec)))
    &&& lead_ok(crate::encoder::join_comma(crate::encoder::row_parts(sec, sec.rows[0])))
}

proof fn lemma_ref_bare(n: nat)
    ensures
        crate::readback::bare_safe(ref_text(n)),
        crate::readback::bare_safe(crate::text::dec(n)),
{
    crate::text::lemma_dec_value(n);
    let t = ref_text(n);
    assert forall|i: int| 0 <= i < t.len() implies #[trigger] t[i] != ',' && t[i] != '\n' && t[i] != '\r'
        && t[i] != '\0' by {
        if i > 0 {
            assert(t[i] == crate::text::dec(n)[i - 1]);
        }
    }
    let d = crate::text::dec(n);
    assert(t.last() == d.last());
    assert(d.last() == d[d.len() - 1]);
}

/// `@name`, for a valid section name, stands bare in a field.
proof fn lemma_named_ref_bare(name: Seq<char>)
    requires
        valid_section_name(name),
    ensures
        crate::readback::bare_safe(seq!['@'] + name),
{
    let t = seq!['@'] + name;
    assert forall|i: int| 0 <= i < t.len() implies #[trigger] t[i] != ',' && t[i] != '\n' && t[i] != '\r'
        && t[i] != '\0' by {
        if i > 1 {
            assert(t[i] == name[i - 1]);
            assert(crate::lexer::is_name_char(name[i - 1]));
        }
    }
    assert(t.last() == name.last());
    if name.len() > 1 {
        assert(crate::lexer::is_name_char(name[name.len() - 1]));
    }
}

/// The lines of a good section read back as its cells, and hold no null character.
proof fn lemma_sec_reads(sec: SPlanSection)
    requires
        sec_base(sec),
    ensures
        ({
            let ht = crate::encoder::header_parts(sec);
            let rt = crate::encoder::row_parts(sec, sec.rows[0]);
            &&& ht.len() == sec_hc(sec).len() && ht.len() > 0
            &&& rt.len() == sec_rc(sec).len() && rt.len() > 0
            &&& forall|i: int| 0 <= i < ht.len() ==> field_reads(#[trigger] ht[i], sec_hc(sec)[i])
            &&& forall|i: int| 0 <= i < rt.len() ==> field_reads(#[trigger] rt[i], sec_rc(sec)[i])
            &&& forall|i: int| 0 <= i < ht.len() ==> no_nul(#[trigger] ht[i])
            &&& forall|i: int| 0 <= i < rt.len() ==> no_nul(#[trigger] rt[i])
        }),
{
    let ht = crate::encoder::header_parts(sec);
    let row = sec.rows[0];
    let rt = crate::encoder::row_parts(sec, row);
    let hc = sec_hc(sec);
    let rc = sec_rc(sec);
    let fields = row.fields;
    let off: int = if sec.has_pk_column {
        1
    } else {
        0
    };
    let pkw = crate::parser::pk_word();
    assert(crate::readback::bare_safe(pkw));
    lemma_ref_bare(row_pk(row));
    assert forall|i: int| 0 <= i < ht.len() implies field_reads(#[trigger] ht[i], hc[i]) && no_nul(ht[i]) by {
        if i < off {
            assert(ht[i] == pkw);
            assert(hc[i] == SCell::Unquoted(pkw));
            crate::readback::lemma_bare_field_reads(pkw);
        } else {
            let k = sec.data_columns[i - off];
            assert(ht[i] == crate::encoder::spec_csv_field_header(k));
            assert(hc[i] == crate::readback::written_header_cell(k));
            assert(crate::readback::writable_key(k));
            crate::readback::lemma_key_field_reads(k);
            crate::readback::lemma_key_text(k);
        }
    }
    assert forall|i: int| 0 <= i < rt.len() implies field_reads(#[trigger] rt[i], rc[i]) && no_nul(rt[i]) by {
        if i < off {
            assert(rt[i] == crate::text::dec(row_pk(row)));
            crate::readback::lemma_bare_field_reads(crate::text::dec(row_pk(row)));
        } else {
            let j = i - off;
            let k = sec.data_columns[j];
            assert(k == fields[j].0);
            crate::roundtrip::lemma_find_distinct(fields, j);
            assert(rt[i] == crate::encoder::column_text(fields, k));
            assert(rc[i] == plan_cell(fields[j].1));
            match fields[j].1 {
                SPlanCell::Value(x) => {
                    crate::readback::lemma_scalar_field_reads(x);
                    crate::readback::lemma_scalar_text(x);
                },
                SPlanCell::RowRef(n) => {
                    lemma_ref_bare(n);
                    crate::readback::lemma_bare_field_reads(ref_text(n));
                },
                SPlanCell::EmptyArrayRef => {
                    let w = crate::resolve::word_empty_array();
                    assert(crate::readback::bare_safe(w));
                    crate::readback::lemma_bare_field_reads(w);
                },
                SPlanCell::NamedRef(name) => {
                    lemma_named_ref_bare(name);
                    crate::readback::lemma_bare_field_reads(seq!['@'] + name);
                },
            }
        }
    }
}

/// An object of scalars whose values and names the encoder writes so that they read back.
pub open spec fn flat_ok(n: Seq<(Seq<char>, SpecJson)>) -> bool {
    &&& distinct_keys(n)
    &&& forall|i: int| 0 <= i < n.len() ==> crate::readback::writable_scalar(#[trigger] n[i].1)
    &&& forall|i: int| 0 <= i < n.len() ==> crate::readback::writable_key(#[trigger] n[i].0)
}


// ---------------------------------------------------------------------------
// The whole text, through the lexer
// ---------------------------------------------------------------------------

/// The text of sections `k..n`, each after a blank line but the first of all.
pub open spec fn tail_text(secs: Seq<SPlanSection>, k: int, n: int) -> Seq<char>
    decreases n - k,
{
    if k < 0 || k >= n {
        Seq::empty()
    } else {
        (if k > 0 {
            seq!['\n']
        } else {
            Seq::empty()
        }) + crate::encoder::render_section(secs[k]) + tail_text(secs, k + 1, n)
    }
}

proof fn lemma_sections_split(secs: Seq<SPlanSection>, k: int, n: int)
    requires
        0 <= k <= n,
    ensures
        crate::encoder::sections_text(secs, n) == crate::encoder::sections_text(secs, k) + tail_text(secs, k, n),
    decreases n - k,
{
    if k < n {
        lemma_sections_split(secs, k + 1, n);
        assert(crate::encoder::sections_text(secs, k + 1) == crate::encoder::sections_text(secs, k) + (if k > 0 {
            seq!['\n']
        } else {
            Seq::empty()
        }) + crate::encoder::render_section(secs[k]));
        assert(crate::encoder::sections_text(secs, n) =~= crate::encoder::sections_text(secs, k) + tail_text(
            secs,
            k,
            n,
        ));
    } else {
        assert(tail_text(secs, k, n) =~= Seq::<char>::empty());
        assert(crate::encoder::sections_text(secs, n) =~= crate::encoder::sections_text(secs, k) + Seq::<char>::empty());
    }
}

/// An array section whose lines read back: at least one item, each a writable scalar on
/// a line that the lexer takes for data.
pub open spec fn arr_ok(sec: SPlanSection) -> bool {
    &&& sec.kind is Array
    &&& sec.values.len() > 0
    &&& forall|v: int|
        0 <= v < sec.values.len() ==> match #[trigger] sec.values[v] {
            SPlanCell::Value(x) => crate::readback::writable_scalar(x) && crate::roundtrip::opens_data_line(
                crate::encoder::spec_render_scalar(x),
            ),
            _ => false,
        }
}

/// A table section of the rows of an array of objects.
pub open spec fn is_list(sec: SPlanSection) -> bool {
    sec.kind is Table && sec.role is ArrayOfObjects
}

/// The cells of row `r` of such a section.
pub open spec fn list_rc(sec: SPlanSection, r: int) -> Seq<SCell> {
    sec.data_columns.map_values(|c: Seq<char>| crate::tables::col_cell(sec.rows[r].fields, c))
}

/// The `:name` line, header line and row lines of such a section.
pub open spec fn list_text(sec: SPlanSection) -> Seq<char> {
    seq![':'] + sec.name + seq!['\n'] + crate::encoder::join_comma(crate::encoder::header_parts(sec)) + seq!['\n']
        + crate::encoder::rows_text(sec, sec.rows.len() as int)
}

/// Such a section whose lines read back: at least one row and one column, the first column
/// not called `pk`; writable column names; rows of writable scalars; lines that the lexer
/// takes for data.
pub open spec fn list_ok(sec: SPlanSection) -> bool {
    &&& is_list(sec)
    &&& !sec.has_pk_column
    &&& sec.rows.len() > 0
    &&& sec.data_columns.len() > 0
    &&& sec.data_columns[0] != crate::parser::pk_word()
    &&& forall|i: int| 0 <= i < sec.data_columns.len() ==> crate::readback::writable_key(#[trigger] sec.data_columns[i])
    &&& forall|r: int, i: int|
        0 <= r < sec.rows.len() && 0 <= i < sec.rows[r].fields.len() ==> ((#[trigger] sec.rows[r].fields[i]).1 matches SPlanCell::Value(x)
            && crate::readback::writable_scalar(x))
    &&& lead_ok(crate::encoder::join_comma(crate::encoder::header_parts(sec)))
    &&& forall|r: int| 0 <= r < sec.rows.len() ==> lead_ok(crate::encoder::join_comma(crate::encoder::row_parts(sec, #[trigger] sec.rows[r])))
}

/// A section that reads back, with a name the lexer takes for a section.
pub open spec fn sec_good(sec: SPlanSection) -> bool {
    &&& valid_section_name(sec.name)
    &&& sec.name != root_name()
    &&& if sec.kind is Array {
        arr_ok(sec)
    } else if is_list(sec) {
        list_ok(sec)
    } else {
        sec_ok(sec)
    }
}

/// The `:name[]` line of an array section.
pub open spec fn array_head(name: Seq<char>) -> Seq<char> {
    seq![':'] + name + seq!['[', ']'] + seq!['\n']
}

/// The text of column `c` in a row of writable scalars reads back as its cell.
proof fn lemma_col_reads_gen(fields: Seq<(Seq<char>, SPlanCell)>, c: Seq<char>)
    requires
        forall|i: int|
            0 <= i < fields.len() ==> ((#[trigger] fields[i]).1 matches SPlanCell::Value(x)
                && crate::readback::writable_scalar(x)),
    ensures
        field_reads(crate::encoder::column_text(fields, c), crate::tables::col_cell(fields, c)),
        no_nul(crate::encoder::column_text(fields, c)),
        crate::encoder::column_text(fields, c).len() > 0 ==> !is_ws(crate::encoder::column_text(fields, c)[0]),
{
    crate::tables::lemma_find_some(fields, c);
    match crate::encoder::find_field(fields, c) {
        Some(cell) => {
            let i = choose|i: int| 0 <= i < fields.len() && #[trigger] fields[i] == (c, cell);
            let x = cell->Value_0;
            assert(fields[i].1 == SPlanCell::Value(x));
            crate::readback::lemma_scalar_field_reads(x);
            crate::readback::lemma_scalar_text(x);
        },
        None => {
            crate::readback::lemma_empty_field_reads();
        },
    }
}

/// The header line of a section of rows reads back as its cells.
proof fn lemma_list_head_reads(sec: SPlanSection)
    requires
        list_ok(sec),
    ensures
        ({
            let ht = crate::encoder::header_parts(sec);
            &&& ht.len() == sec_hc(sec).len() && ht.len() > 0
            &&& forall|i: int| 0 <= i < ht.len() ==> field_reads(#[trigger] ht[i], sec_hc(sec)[i])
            &&& no_nul(crate::encoder::join_comma(ht))
        }),
{
    let ht = crate::encoder::header_parts(sec);
    let cols = sec.data_columns;
    assert(ht =~= cols.map_values(|k: Seq<char>| crate::encoder::spec_csv_field_header(k)));
    assert forall|i: int| 0 <= i < ht.len() implies field_reads(#[trigger] ht[i], sec_hc(sec)[i]) && no_nul(ht[i]) by {
        crate::readback::lemma_key_field_reads(cols[i]);
        crate::readback::lemma_key_text(cols[i]);
    }
    crate::readback::lemma_join_text(ht);
}

/// Row `r` of a section of rows reads back as its cells.
proof fn lemma_list_row_reads(sec: SPlanSection, r: int)
    requires
        list_ok(sec),
        0 <= r < sec.rows.len(),
    ensures
        ({
            let rt = crate::encoder::row_parts(sec, sec.rows[r]);
            &&& rt.len() == list_rc(sec, r).len() && rt.len() > 0
            &&& forall|i: int| 0 <= i < rt.len() ==> field_reads(#[trigger] rt[i], list_rc(sec, r)[i])
            &&& no_nul(crate::encoder::join_comma(rt))
            &&& lead_ok(crate::encoder::join_comma(rt))
        }),
{
    let cols = sec.data_columns;
    let fields = sec.rows[r].fields;
    let rt = crate::encoder::row_parts(sec, sec.rows[r]);
    assert(rt =~= cols.map_values(|c: Seq<char>| crate::encoder::column_text(fields, c)));
    assert forall|i: int|
        0 <= i < fields.len() implies ((#[trigger] fields[i]).1 matches SPlanCell::Value(x)
            && crate::readback::writable_scalar(x)) by {
        assert(sec.rows[r].fields[i] == fields[i]);
    }
    assert forall|i: int| 0 <= i < rt.len() implies field_reads(#[trigger] rt[i], list_rc(sec, r)[i]) && no_nul(
        rt[i],
    ) by {
        lemma_col_reads_gen(fields, cols[i]);
    }
    crate::readback::lemma_join_text(rt);
    assert(lead_ok(crate::encoder::join_comma(crate::encoder::row_parts(sec, sec.rows[r]))));
}

proof fn lemma_list_rows_no_nul(sec: SPlanSection, k: int)
    requires
        list_ok(sec),
        0 <= k <= sec.rows.len(),
    ensures
        no_nul(crate::encoder::rows_text(sec, k)),
    decreases k,
{
    if k > 0 {
        lemma_list_rows_no_nul(sec, k - 1);
        lemma_list_row_reads(sec, k - 1);
        let a = crate::encoder::rows_text(sec, k - 1);
        let rt = crate::encoder::row_parts(sec, sec.rows[k - 1]);
        let b = crate::encoder::join_comma(rt);
        let t = crate::encoder::rows_text(sec, k);
        assert(t == a + b + seq!['\n']);
        assert forall|i: int| 0 <= i < t.len() implies #[trigger] t[i] != '\0' by {
            if i < a.len() {
                assert(t[i] == a[i]);
            } else if i < a.len() + b.len() {
                assert(t[i] == b[i - a.len()]);
            }
        }
    }
}

/// The row lines of a section of rows, through the lexer, one row token each.
#[verifier::spinoff_prover]
#[verifier::rlimit(100)]
proof fn lemma_lex_list_rows(
    s: Seq<char>,
    base: Seq<char>,
    sec: SPlanSection,
    post: Seq<char>,
    i: int,
    line: nat,
    acc: Seq<(nat, SToken)>,
) -> (r: (Seq<(nat, SToken)>, nat))
    requires
        list_ok(sec),
        s == base + crate::encoder::rows_text(sec, sec.rows.len() as int) + post,
        0 <= i <= sec.rows.len(),
        no_nul(s),
    ensures
        lex_from(s, (base.len() + crate::encoder::rows_text(sec, i).len()) as int, line, acc) == lex_from(
            s,
            (base.len() + crate::encoder::rows_text(sec, sec.rows.len() as int).len()) as int,
            r.1,
            r.0,
        ),
        r.0.len() == acc.len() + sec.rows.len() - i,
        r.0.subrange(0, acc.len() as int) == acc,
        forall|j: int| i <= j < sec.rows.len() ==> r.0[acc.len() + j - i].1 == (SToken::Row { cells: #[trigger] list_rc(sec, j) }),
    decreases sec.rows.len() - i,
{
    let k = sec.rows.len() as int;
    if i == k {
        assert(acc.subrange(0, acc.len() as int) =~= acc);
        (acc, line)
    } else {
        crate::tables::lemma_rows_split(sec, i, k);
        let rt = crate::encoder::row_parts(sec, sec.rows[i]);
        let v = crate::encoder::join_comma(rt);
        let tail = crate::tables::rows_tail(sec, i + 1, k);
        assert(crate::tables::rows_tail(sec, i, k) == v + seq!['\n'] + tail);
        assert(crate::encoder::rows_text(sec, i + 1) == crate::encoder::rows_text(sec, i) + v + seq!['\n']);
        let pre = base + crate::encoder::rows_text(sec, i);
        assert(s =~= pre + v + seq!['\n'] + (tail + post));
        lemma_list_row_reads(sec, i);
        let rc = list_rc(sec, i);
        lemma_record(rt, rc, pre, tail + post, line, Seq::empty());
        assert(Seq::<SCell>::empty() + rc =~= rc);
        assert(s[pre.len() as int] == v[0]);
        crate::roundtrip::lemma_data_line(s, pre.len() as int, line, acc);
        let pr = parse_record(s, pre.len() as int, line, Seq::empty())->Ok_0;
        let acc2 = acc.push((line, SToken::Row { cells: rc }));
        let r = lemma_lex_list_rows(s, base, sec, post, i + 1, pr.2, acc2);
        assert(acc2.subrange(0, acc.len() as int) =~= acc);
        lemma_prefix_of_prefix(r.0, acc, acc2);
        r
    }
}

proof fn lemma_section_text(sec: SPlanSection)
    requires
        sec_good(sec),
    ensures
        sec.kind is Table && !is_list(sec) ==> crate::encoder::render_section(sec) == table_text(
            sec.name,
            crate::encoder::header_parts(sec),
            crate::encoder::row_parts(sec, sec.rows[0]),
        ),
        is_list(sec) ==> crate::encoder::render_section(sec) == list_text(sec),
        sec.kind is Array ==> crate::encoder::render_section(sec) == array_head(sec.name)
            + crate::encoder::values_text(sec.values, sec.values.len() as int),
        no_nul(crate::encoder::render_section(sec)),
{
    let nm = sec.name;
    if is_list(sec) {
        assert(crate::encoder::render_section(sec) =~= list_text(sec));
        lemma_list_head_reads(sec);
        lemma_list_rows_no_nul(sec, sec.rows.len() as int);
        let h = crate::encoder::join_comma(crate::encoder::header_parts(sec));
        let b = crate::encoder::rows_text(sec, sec.rows.len() as int);
        let t = list_text(sec);
        assert forall|i: int| 0 <= i < t.len() implies #[trigger] t[i] != '\0' by {
            if 1 <= i < 1 + nm.len() {
                assert(t[i] == nm[i - 1]);
                if i > 1 {
                    assert(crate::lexer::is_name_char(nm[i - 1]));
                }
            } else if 2 + nm.len() <= i < 2 + nm.len() + h.len() {
                assert(t[i] == h[i - 2 - nm.len()]);
            } else if i >= 3 + nm.len() + h.len() {
                assert(t[i] == b[i - 3 - nm.len() - h.len()]);
            }
        }
    } else if sec.kind is Table {
        let ht = crate::encoder::header_parts(sec);
        let rt = crate::encoder::row_parts(sec, sec.rows[0]);
        assert(crate::encoder::rows_text(sec, 0) =~= Seq::<char>::empty());
        assert(crate::encoder::rows_text(sec, 1) =~= crate::encoder::join_comma(rt) + seq!['\n']);
        assert(crate::encoder::render_section(sec) =~= table_text(sec.name, ht, rt));
        lemma_sec_reads(sec);
        crate::readback::lemma_join_text(ht);
        crate::readback::lemma_join_text(rt);
        let t = table_text(sec.name, ht, rt);
        let h = crate::encoder::join_comma(ht);
        let v = crate::encoder::join_comma(rt);
        assert forall|i: int| 0 <= i < t.len() implies #[trigger] t[i] != '\0' by {
            if 1 <= i < 1 + nm.len() {
                assert(t[i] == nm[i - 1]);
                if i > 1 {
                    assert(crate::lexer::is_name_char(nm[i - 1]));
                }
            } else if 2 + nm.len() <= i < 2 + nm.len() + h.len() {
                assert(t[i] == h[i - 2 - nm.len()]);
            } else if 3 + nm.len() + h.len() <= i < 3 + nm.len() + h.len() + v.len() {
                assert(t[i] == v[i - 3 - nm.len() - h.len()]);
            }
        }
    } else {
        let vals = sec.values;
        let k = vals.len() as int;
        assert(crate::encoder::render_section(sec) =~= array_head(nm) + crate::encoder::values_text(vals, k));
        lemma_items_no_nul(vals, k);
        let hd = array_head(nm);
        let vt = crate::encoder::values_text(vals, k);
        let t = hd + vt;
        assert forall|i: int| 0 <= i < t.len() implies #[trigger] t[i] != '\0' by {
            if 1 <= i < 1 + nm.len() {
                assert(t[i] == nm[i - 1]);
                if i > 1 {
                    assert(crate::lexer::is_name_char(nm[i - 1]));
                }
            } else if i >= hd.len() {
                assert(t[i] == vt[i - hd.len()]);
            }
        }
    }
}

proof fn lemma_items_no_nul(vals: Seq<SPlanCell>, k: int)
    requires
        0 <= k <= vals.len(),
        forall|v: int|
            0 <= v < vals.len() ==> match #[trigger] vals[v] {
                SPlanCell::Value(x) => crate::readback::writable_scalar(x),
                _ => false,
            },
    ensures
        no_nul(crate::encoder::values_text(vals, k)),
    decreases k,
{
    if k > 0 {
        lemma_items_no_nul(vals, k - 1);
        let a = crate::encoder::values_text(vals, k - 1);
        let x = vals[k - 1]->Value_0;
        assert(crate::readback::writable_scalar(x));
        crate::readback::lemma_scalar_text(x);
        let b = crate::encoder::spec_render_scalar(x);
        let t = crate::encoder::values_text(vals, k);
        assert(t == a + b + seq!['\n']);
        assert forall|i: int| 0 <= i < t.len() implies #[trigger] t[i] != '\0' by {
            if i < a.len() {
                assert(t[i] == a[i]);
            } else if i < a.len() + b.len() {
                assert(t[i] == b[i - a.len()]);
            }
        }
    }
}

/// How many tokens the lexer makes of a section's own lines.
pub open spec fn ntok(sec: SPlanSection) -> int {
    if sec.kind is Array {
        (1 + sec.values.len()) as int
    } else if is_list(sec) {
        (2 + sec.rows.len()) as int
    } else {
        3
    }
}

/// Where the tokens of section `j` start: after the root line, and after the tokens of the
/// sections before it, each but the first after a blank line.
pub open spec fn tok_start(secs: Seq<SPlanSection>, j: int) -> int
    decreases j,
{
    if j <= 0 {
        1
    } else {
        tok_start(secs, j - 1) + (if j - 1 > 0 {
            1int
        } else {
            0int
        }) + ntok(secs[j - 1])
    }
}

/// The index of the header token of section `j`.
pub open spec fn hd(secs: Seq<SPlanSection>, j: int) -> int {
    tok_start(secs, j) + (if j > 0 {
        1int
    } else {
        0int
    })
}

pub open spec fn sep(blank: bool) -> Seq<char> {
    if blank {
        seq!['\n']
    } else {
        Seq::empty()
    }
}

/// The tokens of section `j`, from index `hd(secs, j)` on.
pub open spec fn sec_toks(toks: Seq<(nat, SToken)>, secs: Seq<SPlanSection>, j: int) -> bool {
    let h = hd(secs, j);
    let sec = secs[j];
    &&& j > 0 ==> toks[tok_start(secs, j)].1 == SToken::Blank
    &&& toks[h].1 == SToken::Header { name: sec.name, array: sec.kind is Array }
    &&& sec.kind is Table ==> toks[h + 1].1 == SToken::Row { cells: sec_hc(sec) }
    &&& sec.kind is Table && !is_list(sec) ==> toks[h + 2].1 == SToken::Row { cells: sec_rc(sec) }
    &&& is_list(sec) ==> forall|r: int|
        0 <= r < sec.rows.len() ==> toks[h + 2 + r].1 == SToken::Row { cells: list_rc(sec, r) }
    &&& sec.kind is Array ==> forall|v: int|
        0 <= v < sec.values.len() ==> toks[h + 1 + v].1 == SToken::Row { cells: seq![plan_cell(#[trigger] sec.values[v])] }
}

/// The item lines of an array section, through the lexer, one row token each.
#[verifier::rlimit(50)]
proof fn lemma_lex_items(
    s: Seq<char>,
    base: Seq<char>,
    vals: Seq<SPlanCell>,
    post: Seq<char>,
    i: int,
    line: nat,
    acc: Seq<(nat, SToken)>,
) -> (r: (Seq<(nat, SToken)>, nat))
    requires
        s == base + crate::encoder::values_text(vals, vals.len() as int) + post,
        0 <= i <= vals.len(),
        no_nul(s),
        forall|v: int|
            0 <= v < vals.len() ==> match #[trigger] vals[v] {
                SPlanCell::Value(x) => crate::readback::writable_scalar(x) && crate::roundtrip::opens_data_line(
                    crate::encoder::spec_render_scalar(x),
                ),
                _ => false,
            },
    ensures
        lex_from(s, (base.len() + crate::encoder::values_text(vals, i).len()) as int, line, acc) == lex_from(
            s,
            (base.len() + crate::encoder::values_text(vals, vals.len() as int).len()) as int,
            r.1,
            r.0,
        ),
        r.0.len() == acc.len() + vals.len() - i,
        r.0.subrange(0, acc.len() as int) == acc,
        forall|v: int| i <= v < vals.len() ==> r.0[acc.len() + v - i].1 == (SToken::Row { cells: seq![plan_cell(#[trigger] vals[v])] }),
    decreases vals.len() - i,
{
    let k = vals.len() as int;
    if i == k {
        assert(acc.subrange(0, acc.len() as int) =~= acc);
        (acc, line)
    } else {
        crate::arrays::lemma_values_split(vals, i, k);
        let x = vals[i]->Value_0;
        assert(vals[i] == SPlanCell::Value(x));
        let vt = crate::encoder::values_text(vals, i);
        let tail = crate::arrays::values_tail(vals, i + 1, k);
        assert(crate::arrays::values_tail(vals, i, k) == crate::encoder::spec_render_scalar(x) + seq!['\n'] + tail);
        assert(crate::encoder::values_text(vals, i + 1) == vt + crate::encoder::spec_render_scalar(x) + seq!['\n']);
        let pre = base + vt;
        assert(s =~= pre + crate::encoder::spec_render_scalar(x) + seq!['\n'] + (tail + post));
        let l2 = crate::arrays::lemma_item_line(s, pre, x, tail + post, line, acc);
        let acc2 = acc.push((line, SToken::Row { cells: seq![written_cell(x)] }));
        let r = lemma_lex_items(s, base, vals, post, i + 1, l2, acc2);
        assert(acc2.subrange(0, acc.len() as int) =~= acc);
        lemma_prefix_of_prefix(r.0, acc, acc2);
        assert(plan_cell(vals[i]) == written_cell(x));
        r
    }
}

/// The `:name[]` line of an array section, through the lexer.
#[verifier::spinoff_prover]
proof fn lemma_array_head_line(pre: Seq<char>, nm: Seq<char>, post: Seq<char>, line: nat, acc: Seq<(nat, SToken)>)
    requires
        valid_section_name(nm),
        nm != root_name(),
    ensures
        ({
            let s = pre + (seq![':'] + nm + seq!['[', ']']) + seq!['\n'] + post;
            lex_from(s, pre.len() as int, line, acc) == lex_from(
                s,
                (pre.len() + nm.len() + 4) as int,
                line + 1,
                acc.push((line, SToken::Header { name: nm, array: true })),
            )
        }),
{
    let w = seq![':'] + nm + seq!['[', ']'];
    assert(crate::lexer::is_ascii_alpha(nm[0]) || nm[0] == '_');
    assert forall|i: int| 0 <= i < w.len() implies #[trigger] w[i] != '\n' && w[i] != '\0' && w[i] != '#'
        && w[i] != '\r' by {
        if 1 < i < 1 + nm.len() {
            assert(w[i] == nm[i - 1]);
            assert(crate::lexer::is_name_char(nm[i - 1]));
        }
    }
    crate::roundtrip::lemma_struct_line(pre, w, post, line, acc);
    let wr = w.drop_first();
    assert(wr =~= nm + seq!['[', ']']);
    assert(nm != crate::lexer::root_word()) by {
        assert(root_name() =~= crate::lexer::root_word());
    }
    crate::lexer::lemma_name_not_root_garbage(nm);
    assert(wr != crate::lexer::root_word()) by {
        assert(wr[wr.len() - 1] == ']');
        if wr.len() == crate::lexer::root_word().len() {
            assert(crate::lexer::root_word()[wr.len() - 1] != ']');
        }
    }
    assert(wr != crate::lexer::root_array_word()) by {
        if wr == crate::lexer::root_array_word() {
            assert(nm =~= root_name()) by {
                assert(nm.len() == 4);
                assert forall|i: int| 0 <= i < 4 implies nm[i] == root_name()[i] by {
                    assert(wr[i] == nm[i]);
                }
            }
        }
    }
    assert(wr.subrange(0, wr.len() - 2) =~= nm);
}

/// The lines of an array section, through the lexer.
#[verifier::spinoff_prover]
#[verifier::rlimit(100)]
proof fn lemma_lex_array_sec(
    pre: Seq<char>,
    sec: SPlanSection,
    rest: Seq<char>,
    line: nat,
    acc: Seq<(nat, SToken)>,
) -> (r: (Seq<(nat, SToken)>, nat))
    requires
        sec_good(sec),
        sec.kind is Array,
        no_nul(pre + crate::encoder::render_section(sec) + rest),
    ensures
        ({
            let s = pre + crate::encoder::render_section(sec) + rest;
            lex_from(s, pre.len() as int, line, acc) == lex_from(
                s,
                (pre.len() + crate::encoder::render_section(sec).len()) as int,
                r.1,
                r.0,
            )
        }),
        r.0.len() == acc.len() + ntok(sec),
        r.0.subrange(0, acc.len() as int) == acc,
        r.0[acc.len() as int].1 == (SToken::Header { name: sec.name, array: true }),
        forall|v: int|
            0 <= v < sec.values.len() ==> r.0[acc.len() + 1 + v].1 == (SToken::Row {
                cells: seq![plan_cell(#[trigger] sec.values[v])],
            }),
{
    lemma_section_text(sec);
    let body = crate::encoder::render_section(sec);
    let s = pre + body + rest;
    let nm = sec.name;
    let vals = sec.values;
    let k = vals.len() as int;
    let vt = crate::encoder::values_text(vals, k);
    assert(s =~= pre + (seq![':'] + nm + seq!['[', ']']) + seq!['\n'] + (vt + rest));
    lemma_array_head_line(pre, nm, vt + rest, line, acc);
    let acc2 = acc.push((line, SToken::Header { name: nm, array: true }));
    let base = pre + array_head(nm);
    assert(s =~= base + vt + rest);
    assert(crate::encoder::values_text(vals, 0) =~= Seq::<char>::empty());
    let r = lemma_lex_items(s, base, vals, rest, 0, line + 1, acc2);
    assert(acc2.subrange(0, acc.len() as int) =~= acc);
    lemma_prefix_of_prefix(r.0, acc, acc2);
    r
}

/// The `:name` line and the header line of a section of rows, through the lexer.
#[verifier::spinoff_prover]
#[verifier::rlimit(50)]
proof fn lemma_lex_list_head(
    s: Seq<char>,
    pre: Seq<char>,
    sec: SPlanSection,
    post: Seq<char>,
    line: nat,
    acc: Seq<(nat, SToken)>,
) -> (r: nat)
    requires
        sec_good(sec),
        is_list(sec),
        s == pre + (seq![':'] + sec.name) + seq!['\n'] + crate::encoder::join_comma(crate::encoder::header_parts(sec))
            + seq!['\n'] + post,
        no_nul(s),
    ensures
        lex_from(s, pre.len() as int, line, acc) == lex_from(
            s,
            (pre.len() + sec.name.len() + 3 + crate::encoder::join_comma(crate::encoder::header_parts(sec)).len()) as int,
            r,
            acc.push((line, SToken::Header { name: sec.name, array: false })).push(
                (line + 1, SToken::Row { cells: sec_hc(sec) }),
            ),
        ),
{
    lemma_list_head_reads(sec);
    let nm = sec.name;
    let ht = crate::encoder::header_parts(sec);
    let h = crate::encoder::join_comma(ht);
    let nl = seq!['\n'];
    assert(s =~= pre + (seq![':'] + nm) + nl + (h + nl + post));
    lemma_header_line(pre, nm, h + nl + post, line, acc);
    let acc1 = acc.push((line, SToken::Header { name: nm, array: false }));
    let pre2 = pre + (seq![':'] + nm) + nl;
    assert(s =~= pre2 + h + nl + post);
    let hc = sec_hc(sec);
    lemma_record(ht, hc, pre2, post, line + 1, Seq::empty());
    assert(Seq::<SCell>::empty() + hc =~= hc);
    assert(s[pre2.len() as int] == h[0]);
    crate::roundtrip::lemma_data_line(s, pre2.len() as int, line + 1, acc1);
    let r3 = parse_record(s, pre2.len() as int, line + 1, Seq::empty())->Ok_0;
    r3.2
}

/// The lines of a section of rows, through the lexer.
#[verifier::spinoff_prover]
#[verifier::rlimit(50)]
proof fn lemma_lex_list_sec(
    pre: Seq<char>,
    sec: SPlanSection,
    rest: Seq<char>,
    line: nat,
    acc: Seq<(nat, SToken)>,
) -> (r: (Seq<(nat, SToken)>, nat))
    requires
        sec_good(sec),
        is_list(sec),
        no_nul(pre + crate::encoder::render_section(sec) + rest),
    ensures
        ({
            let s = pre + crate::encoder::render_section(sec) + rest;
            lex_from(s, pre.len() as int, line, acc) == lex_from(
                s,
                (pre.len() + crate::encoder::render_section(sec).len()) as int,
                r.1,
                r.0,
            )
        }),
        r.0.len() == acc.len() + ntok(sec),
        r.0.subrange(0, acc.len() as int) == acc,
        r.0[acc.len() as int].1 == (SToken::Header { name: sec.name, array: false }),
        r.0[acc.len() + 1int].1 == (SToken::Row { cells: sec_hc(sec) }),
        forall|j: int| 0 <= j < sec.rows.len() ==> r.0[acc.len() + 2 + j].1 == (SToken::Row { cells: #[trigger] list_rc(sec, j) }),
{
    lemma_section_text(sec);
    let nm = sec.name;
    let h = crate::encoder::join_comma(crate::encoder::header_parts(sec));
    let k = sec.rows.len() as int;
    let b = crate::encoder::rows_text(sec, k);
    let nl = seq!['\n'];
    let s = pre + crate::encoder::render_section(sec) + rest;
    assert(s =~= pre + (seq![':'] + nm) + nl + h + nl + (b + rest));
    let l2 = lemma_lex_list_head(s, pre, sec, b + rest, line, acc);
    let acc2 = acc.push((line, SToken::Header { name: nm, array: false })).push(
        (line + 1, SToken::Row { cells: sec_hc(sec) }),
    );
    let base = pre + (seq![':'] + nm) + nl + h + nl;
    assert(s =~= base + b + rest);
    assert(crate::encoder::rows_text(sec, 0) =~= Seq::<char>::empty());
    let r = lemma_lex_list_rows(s, base, sec, rest, 0, l2, acc2);
    assert(acc2.subrange(0, acc.len() as int) =~= acc);
    lemma_prefix_of_prefix(r.0, acc, acc2);
    r
}

/// One section, through the lexer: a blank line before it when `blank`, then its lines.
#[verifier::spinoff_prover]
#[verifier::rlimit(50)]
proof fn lemma_lex_one(
    pre: Seq<char>,
    sec: SPlanSection,
    rest: Seq<char>,
    blank: bool,
    line: nat,
    acc: Seq<(nat, SToken)>,
) -> (r: (Seq<(nat, SToken)>, nat))
    requires
        sec_good(sec),
        no_nul(pre + sep(blank) + crate::encoder::render_section(sec) + rest),
    ensures
        ({
            let s = pre + sep(blank) + crate::encoder::render_section(sec) + rest;
            lex_from(s, pre.len() as int, line, acc) == lex_from(
                s,
                (pre.len() + sep(blank).len() + crate::encoder::render_section(sec).len()) as int,
                r.1,
                r.0,
            )
        }),
        r.0.len() == acc.len() + (if blank {
            1int
        } else {
            0int
        }) + ntok(sec),
        r.0.subrange(0, acc.len() as int) == acc,
        blank ==> r.0[acc.len() as int].1 == SToken::Blank,
        ({
            let h = acc.len() + (if blank {
                1int
            } else {
                0int
            });
            &&& r.0[h].1 == (SToken::Header { name: sec.name, array: sec.kind is Array })
            &&& sec.kind is Table ==> r.0[h + 1].1 == (SToken::Row { cells: sec_hc(sec) })
            &&& sec.kind is Table && !is_list(sec) ==> r.0[h + 2].1 == (SToken::Row { cells: sec_rc(sec) })
            &&& is_list(sec) ==> forall|j: int|
                0 <= j < sec.rows.len() ==> r.0[h + 2 + j].1 == (SToken::Row { cells: #[trigger] list_rc(sec, j) })
            &&& sec.kind is Array ==> forall|v: int|
                0 <= v < sec.values.len() ==> r.0[h + 1 + v].1 == (SToken::Row {
                    cells: seq![plan_cell(#[trigger] sec.values[v])],
                })
        }),
{
    lemma_section_text(sec);
    let body = crate::encoder::render_section(sec);
    let s = pre + sep(blank) + body + rest;
    let (pre1, line1, acc1) = if blank {
        assert(s =~= pre + seq!['\n'] + (body + rest));
        crate::roundtrip::lemma_blank_line(pre, body + rest, line, acc);
        (pre + seq!['\n'], line + 1, acc.push((line, SToken::Blank)))
    } else {
        (pre, line, acc)
    };
    assert(s =~= pre1 + body + rest);
    assert(acc1.subrange(0, acc.len() as int) =~= acc);
    if is_list(sec) {
        let r = lemma_lex_list_sec(pre1, sec, rest, line1, acc1);
        lemma_prefix_of_prefix(r.0, acc, acc1);
        r
    } else if sec.kind is Table {
        let ht = crate::encoder::header_parts(sec);
        let rt = crate::encoder::row_parts(sec, sec.rows[0]);
        lemma_sec_reads(sec);
        let r = lemma_table_section(pre1, sec.name, ht, sec_hc(sec), rt, sec_rc(sec), rest, line1, acc1);
        let acc2 = acc1 + seq![
            (line1, SToken::Header { name: sec.name, array: false }),
            (line1 + 1, SToken::Row { cells: sec_hc(sec) }),
            (r.0, SToken::Row { cells: sec_rc(sec) }),
        ];
        assert(acc2.subrange(0, acc.len() as int) =~= acc);
        (acc2, r.1)
    } else {
        let r = lemma_lex_array_sec(pre1, sec, rest, line1, acc1);
        lemma_prefix_of_prefix(r.0, acc, acc1);
        r
    }
}

/// The text split at section `k`: what comes before it, its separator and text, and what
/// comes after.
#[verifier::rlimit(50)]
proof fn lemma_text_at(secs: Seq<SPlanSection>, s: Seq<char>, k: int)
    requires
        s == crate::encoder::root_line(false) + crate::encoder::sections_text(secs, secs.len() as int),
        0 <= k < secs.len(),
    ensures
        s == (crate::encoder::root_line(false) + crate::encoder::sections_text(secs, k)) + sep(k > 0)
            + crate::encoder::render_section(secs[k]) + tail_text(secs, k + 1, secs.len() as int),
        crate::encoder::sections_text(secs, k + 1).len() == crate::encoder::sections_text(secs, k).len()
            + sep(k > 0).len() + crate::encoder::render_section(secs[k]).len(),
        crate::encoder::root_line(false).len() == 6,
{
    let n = secs.len() as int;
    lemma_sections_split(secs, k, n);
    assert(tail_text(secs, k, n) == sep(k > 0) + crate::encoder::render_section(secs[k]) + tail_text(
        secs,
        k + 1,
        n,
    ));
    assert(crate::encoder::sections_text(secs, k + 1) == crate::encoder::sections_text(secs, k) + sep(k > 0)
        + crate::encoder::render_section(secs[k]));
    assert(s =~= (crate::encoder::root_line(false) + crate::encoder::sections_text(secs, k)) + sep(k > 0)
        + crate::encoder::render_section(secs[k]) + tail_text(secs, k + 1, n));
}

proof fn lemma_text_end(secs: Seq<SPlanSection>, s: Seq<char>)
    requires
        s == crate::encoder::root_line(false) + crate::encoder::sections_text(secs, secs.len() as int),
    ensures
        6 + crate::encoder::sections_text(secs, secs.len() as int).len() == s.len(),
{
}

proof fn lemma_prefix_of_prefix(t: Seq<(nat, SToken)>, a: Seq<(nat, SToken)>, b: Seq<(nat, SToken)>)
    requires
        a.len() <= b.len() <= t.len(),
        t.subrange(0, b.len() as int) == b,
        b.subrange(0, a.len() as int) == a,
    ensures
        t.subrange(0, a.len() as int) == a,
        forall|i: int| 0 <= i < b.len() ==> t[i] == b[i],
{
    assert forall|i: int| 0 <= i < b.len() implies t[i] == b[i] by {
        assert(t.subrange(0, b.len() as int)[i] == t[i]);
    }
    assert(t.subrange(0, a.len() as int) =~= a) by {
        assert forall|i: int| 0 <= i < a.len() implies t.subrange(0, a.len() as int)[i] == a[i] by {
            assert(b.subrange(0, a.len() as int)[i] == b[i]);
        }
    }
}

/// Sections `k..`, through the lexer.
#[verifier::spinoff_prover]
#[verifier::rlimit(50)]
proof fn lemma_lex_sections(
    secs: Seq<SPlanSection>,
    s: Seq<char>,
    k: int,
    line: nat,
    acc: Seq<(nat, SToken)>,
) -> (toks: Seq<(nat, SToken)>)
    requires
        s == crate::encoder::root_line(false) + crate::encoder::sections_text(secs, secs.len() as int),
        0 <= k <= secs.len(),
        no_nul(s),
        forall|j: int| 0 <= j < secs.len() ==> sec_good(#[trigger] secs[j]),
        acc.len() == tok_start(secs, k),
    ensures
        lex_from(s, (6 + crate::encoder::sections_text(secs, k).len()) as int, line, acc) == Ok::<
            Seq<(nat, SToken)>,
            crate::error::SpecError,
        >(toks),
        toks.len() == tok_start(secs, secs.len() as int),
        acc.len() <= toks.len(),
        toks.subrange(0, acc.len() as int) == acc,
        forall|j: int| k <= j < secs.len() ==> #[trigger] sec_toks(toks, secs, j),
    decreases secs.len() - k,
{
    let n = secs.len() as int;
    if k == n {
        lemma_text_end(secs, s);
        assert(acc.subrange(0, acc.len() as int) =~= acc);
        acc
    } else {
        lemma_text_at(secs, s, k);
        let pre = crate::encoder::root_line(false) + crate::encoder::sections_text(secs, k);
        let rest = tail_text(secs, k + 1, n);
        let r = lemma_lex_one(pre, secs[k], rest, k > 0, line, acc);
        let acc2 = r.0;
        assert(tok_start(secs, k + 1) == tok_start(secs, k) + (if k > 0 {
            1int
        } else {
            0int
        }) + ntok(secs[k]));
        let toks = lemma_lex_sections(secs, s, k + 1, r.1, acc2);
        lemma_prefix_of_prefix(toks, acc, acc2);
        assert(sec_toks(toks, secs, k)) by {
            let h = hd(secs, k);
            assert(h == acc.len() + (if k > 0 {
                1int
            } else {
                0int
            }));
            if secs[k].kind is Array {
                assert forall|v: int| 0 <= v < secs[k].values.len() implies toks[h + 1 + v].1 == SToken::Row {
                    cells: seq![plan_cell(#[trigger] secs[k].values[v])],
                } by {
                    assert(toks[h + 1 + v] == acc2[h + 1 + v]);
                }
            }
        }
        toks
    }
}

// ---------------------------------------------------------------------------
// Collection of the tokens
// ---------------------------------------------------------------------------

/// The first `v` item rows of array section `j`.
pub open spec fn item_rows(toks: Seq<(nat, SToken)>, secs: Seq<SPlanSection>, j: int, v: int) -> Seq<SRow> {
    Seq::new(
        v as nat,
        |i: int| SRow { line: toks[hd(secs, j) + 1 + i].0, cells: seq![plan_cell(secs[j].values[i])] },
    )
}

/// The collected section `j`.
/// The first `r` rows of the section of rows `j`.
pub open spec fn list_rows(toks: Seq<(nat, SToken)>, secs: Seq<SPlanSection>, j: int, r: int) -> Seq<SRow> {
    Seq::new(r as nat, |i: int| SRow { line: toks[hd(secs, j) + 2 + i].0, cells: list_rc(secs[j], i) })
}

pub open spec fn doc_sec(toks: Seq<(nat, SToken)>, secs: Seq<SPlanSection>, j: int) -> SSection {
    let h = hd(secs, j);
    if is_list(secs[j]) {
        SSection {
            name: secs[j].name,
            array: false,
            header_line: toks[h].0,
            header: crate::parser::header_of(sec_hc(secs[j])),
            rows: list_rows(toks, secs, j, secs[j].rows.len() as int),
        }
    } else if secs[j].kind is Table {
        SSection {
            name: secs[j].name,
            array: false,
            header_line: toks[h].0,
            header: crate::parser::header_of(sec_hc(secs[j])),
            rows: seq![SRow { line: toks[h + 2].0, cells: sec_rc(secs[j]) }],
        }
    } else {
        SSection {
            name: secs[j].name,
            array: true,
            header_line: toks[h].0,
            header: Seq::empty(),
            rows: item_rows(toks, secs, j, secs[j].values.len() as int),
        }
    }
}

pub open spec fn doc_secs(toks: Seq<(nat, SToken)>, secs: Seq<SPlanSection>, k: int) -> Seq<SSection> {
    Seq::new(k as nat, |j: int| doc_sec(toks, secs, j))
}

pub open spec fn collect_at(toks: Seq<(nat, SToken)>, secs: Seq<SPlanSection>, k: int) -> CState {
    CState {
        root_array: Some(false),
        sections: doc_secs(toks, secs, k),
        state: PState::InSection((k - 1) as nat),
        prev_array_idx: None,
        prev_array_blank_line: None,
        missing_root_reported: false,
        errors: Seq::empty(),
    }
}

/// The tokens of the written text, as the lexer makes them.
pub open spec fn toks_ok(toks: Seq<(nat, SToken)>, secs: Seq<SPlanSection>) -> bool {
    &&& toks.len() == tok_start(secs, secs.len() as int)
    &&& toks[0].1 == SToken::Root { array: false }
    &&& forall|j: int| 0 <= j < secs.len() ==> #[trigger] sec_toks(toks, secs, j)
}

proof fn lemma_header_nonempty(sec: SPlanSection)
    requires
        sec_ok(sec),
    ensures
        crate::parser::header_of(sec_hc(sec)).len() > 0,
{
}

proof fn lemma_tok_start_mono(secs: Seq<SPlanSection>, a: int, b: int)
    requires
        0 <= a <= b <= secs.len(),
    ensures
        tok_start(secs, a) <= tok_start(secs, b),
        a < b ==> hd(secs, a) + ntok(secs[a]) <= tok_start(secs, b),
    decreases b - a,
{
    if a < b {
        lemma_tok_start_mono(secs, a, b - 1);
        lemma_tok_start_mono(secs, a + 1, b);
    }
}

/// The cell written for a writable scalar is not an empty unquoted one.
proof fn lemma_written_not_empty(x: SpecJson)
    requires
        crate::readback::writable_scalar(x),
    ensures
        !crate::lexer::scell_is_empty_unquoted(written_cell(x)),
{
    crate::readback::lemma_scalar_text(x);
    match x {
        SpecJson::Str(t) => {
            if !crate::encoder::spec_needs_quoting(t) {
                assert(t.len() > 0);
            }
        },
        _ => {},
    }
}

/// The table section `k`, once its header token is collected.
proof fn lemma_collect_table_lines(toks: Seq<(nat, SToken)>, secs: Seq<SPlanSection>, k: int)
    requires
        toks_ok(toks, secs),
        0 <= k < secs.len(),
        sec_good(secs[k]),
        secs[k].kind is Table,
        !is_list(secs[k]),
        collect_upto(toks, hd(secs, k) + 1) == (CState {
            sections: doc_secs(toks, secs, k).push(
                crate::parser::new_section(secs[k].name, false, toks[hd(secs, k)].0),
            ),
            state: PState::InSection(k as nat),
            ..collect_at(toks, secs, k)
        }),
    ensures
        collect_upto(toks, hd(secs, k) + 3) == collect_at(toks, secs, k + 1),
{
    let h = hd(secs, k);
    assert(sec_toks(toks, secs, k));
    lemma_tok_start_mono(secs, k, secs.len() as int);
    if k + 1 < secs.len() {
        lemma_tok_start_mono(secs, k, k + 1);
    }
    let sa = collect_upto(toks, h + 1);
    let sb = collect_upto(toks, h + 2);
    assert(sb == collect_step(sa, toks[h + 1].0, toks[h + 1].1));
    let sc = collect_upto(toks, h + 3);
    assert(sc == collect_step(sb, toks[h + 2].0, toks[h + 2].1));
    lemma_header_nonempty(secs[k]);
    assert(sc.sections =~= doc_secs(toks, secs, k + 1));
}

/// The section of rows `k`, once its header token, its header row and `r` rows are collected.
#[verifier::rlimit(50)]
proof fn lemma_collect_list_rows(toks: Seq<(nat, SToken)>, secs: Seq<SPlanSection>, k: int, r: int)
    requires
        toks_ok(toks, secs),
        0 <= k < secs.len(),
        sec_good(secs[k]),
        is_list(secs[k]),
        0 <= r <= secs[k].rows.len(),
        collect_upto(toks, hd(secs, k) + 1) == (CState {
            sections: doc_secs(toks, secs, k).push(
                crate::parser::new_section(secs[k].name, false, toks[hd(secs, k)].0),
            ),
            state: PState::InSection(k as nat),
            ..collect_at(toks, secs, k)
        }),
    ensures
        collect_upto(toks, hd(secs, k) + 2 + r) == (CState {
            sections: doc_secs(toks, secs, k).push(
                SSection {
                    header: crate::parser::header_of(sec_hc(secs[k])),
                    rows: list_rows(toks, secs, k, r),
                    ..crate::parser::new_section(secs[k].name, false, toks[hd(secs, k)].0)
                },
            ),
            state: PState::InSection(k as nat),
            ..collect_at(toks, secs, k)
        }),
    decreases r,
{
    let h = hd(secs, k);
    assert(sec_toks(toks, secs, k));
    lemma_tok_start_mono(secs, k, secs.len() as int);
    if k + 1 < secs.len() {
        lemma_tok_start_mono(secs, k, k + 1);
    }
    assert(crate::parser::header_of(sec_hc(secs[k])).len() > 0);
    if r == 0 {
        let sa = collect_upto(toks, h + 1);
        let sb = collect_upto(toks, h + 2);
        assert(sb == collect_step(sa, toks[h + 1].0, toks[h + 1].1));
        assert(list_rows(toks, secs, k, 0) =~= Seq::<SRow>::empty());
        assert(sb.sections =~= doc_secs(toks, secs, k).push(
            SSection {
                header: crate::parser::header_of(sec_hc(secs[k])),
                rows: list_rows(toks, secs, k, 0),
                ..crate::parser::new_section(secs[k].name, false, toks[h].0)
            },
        ));
    } else {
        lemma_collect_list_rows(toks, secs, k, r - 1);
        let st = collect_upto(toks, h + 1 + r);
        let st2 = collect_upto(toks, h + 2 + r);
        assert(st2 == collect_step(st, toks[h + 1 + r].0, toks[h + 1 + r].1));
        assert(toks[h + 2 + (r - 1)].1 == SToken::Row { cells: list_rc(secs[k], r - 1) });
        assert(list_rows(toks, secs, k, r - 1).push(SRow { line: toks[h + 1 + r].0, cells: list_rc(secs[k], r - 1) })
            =~= list_rows(toks, secs, k, r));
        assert(st2.sections =~= doc_secs(toks, secs, k).push(
            SSection {
                header: crate::parser::header_of(sec_hc(secs[k])),
                rows: list_rows(toks, secs, k, r),
                ..crate::parser::new_section(secs[k].name, false, toks[h].0)
            },
        ));
    }
}

/// The array section `k`, once its header token and `v` item rows are collected.
proof fn lemma_collect_items(toks: Seq<(nat, SToken)>, secs: Seq<SPlanSection>, k: int, v: int)
    requires
        toks_ok(toks, secs),
        0 <= k < secs.len(),
        sec_good(secs[k]),
        secs[k].kind is Array,
        0 <= v <= secs[k].values.len(),
        collect_upto(toks, hd(secs, k) + 1) == (CState {
            sections: doc_secs(toks, secs, k).push(
                crate::parser::new_section(secs[k].name, true, toks[hd(secs, k)].0),
            ),
            state: PState::InSection(k as nat),
            ..collect_at(toks, secs, k)
        }),
    ensures
        collect_upto(toks, hd(secs, k) + 1 + v) == (CState {
            sections: doc_secs(toks, secs, k).push(
                SSection {
                    rows: item_rows(toks, secs, k, v),
                    ..crate::parser::new_section(secs[k].name, true, toks[hd(secs, k)].0)
                },
            ),
            state: PState::InSection(k as nat),
            ..collect_at(toks, secs, k)
        }),
    decreases v,
{
    let h = hd(secs, k);
    if v == 0 {
        assert(item_rows(toks, secs, k, 0) =~= Seq::<SRow>::empty());
        assert(crate::parser::new_section(secs[k].name, true, toks[h].0) == SSection {
            rows: item_rows(toks, secs, k, 0),
            ..crate::parser::new_section(secs[k].name, true, toks[h].0)
        });
    } else {
        lemma_collect_items(toks, secs, k, v - 1);
        assert(sec_toks(toks, secs, k));
        let c = secs[k].values[v - 1];
        assert(toks[h + 1 + (v - 1)].1 == SToken::Row { cells: seq![plan_cell(c)] });
        let x = c->Value_0;
        assert(crate::readback::writable_scalar(x));
        lemma_written_not_empty(x);
        lemma_tok_start_mono(secs, k, secs.len() as int);
        if k + 1 < secs.len() {
            lemma_tok_start_mono(secs, k, k + 1);
        }
        let st = collect_upto(toks, h + v);
        let st2 = collect_upto(toks, h + 1 + v);
        assert(st2 == collect_step(st, toks[h + v].0, toks[h + v].1));
        assert(item_rows(toks, secs, k, v - 1).push(SRow { line: toks[h + v].0, cells: seq![plan_cell(c)] })
            =~= item_rows(toks, secs, k, v));
        assert(st2.sections =~= doc_secs(toks, secs, k).push(
            SSection {
                rows: item_rows(toks, secs, k, v),
                ..crate::parser::new_section(secs[k].name, true, toks[h].0)
            },
        ));
    }
}

/// The header token of section `k`, after the collection of the sections before it.
proof fn lemma_collect_head(toks: Seq<(nat, SToken)>, secs: Seq<SPlanSection>, k: int)
    requires
        toks_ok(toks, secs),
        0 <= k < secs.len(),
        forall|j: int| 0 <= j < k ==> #[trigger] secs[j].name != secs[k].name,
        k == 0 ==> collect_upto(toks, 1) == (CState { sections: Seq::empty(), state: PState::AwaitingSection, ..collect_at(toks, secs, 0) }),
        k > 0 ==> collect_upto(toks, tok_start(secs, k)) == collect_at(toks, secs, k),
    ensures
        collect_upto(toks, hd(secs, k) + 1) == (CState {
            sections: doc_secs(toks, secs, k).push(
                crate::parser::new_section(secs[k].name, secs[k].kind is Array, toks[hd(secs, k)].0),
            ),
            state: PState::InSection(k as nat),
            ..collect_at(toks, secs, k)
        }),
{
    let h = hd(secs, k);
    assert(sec_toks(toks, secs, k));
    lemma_tok_start_mono(secs, k, secs.len() as int);
    let sa = if k > 0 {
        let st = collect_at(toks, secs, k);
        assert(toks[tok_start(secs, k)].1 == SToken::Blank);
        let sa = collect_upto(toks, tok_start(secs, k) + 1);
        assert(sa == collect_step(st, toks[tok_start(secs, k)].0, toks[tok_start(secs, k)].1));
        sa
    } else {
        assert(doc_secs(toks, secs, 0) =~= Seq::<SSection>::empty());
        collect_upto(toks, 1)
    };
    assert(h == tok_start(secs, k) + (if k > 0 {
        1int
    } else {
        0int
    }));
    assert(sa.sections =~= doc_secs(toks, secs, k));
    assert(sa.state is AwaitingSection);
    let sb = collect_upto(toks, h + 1);
    assert(sb == collect_step(sa, toks[h].0, toks[h].1));
    assert(!crate::parser::has_section_named(sa.sections, secs[k].name)) by {
        if crate::parser::has_section_named(sa.sections, secs[k].name) {
            let i = choose|i: int| 0 <= i < sa.sections.len() && #[trigger] sa.sections[i].name == secs[k].name;
            assert(sa.sections[i] == doc_sec(toks, secs, i));
        }
    }
}

/// Sections `0..k`, collected.
proof fn lemma_collect_all(toks: Seq<(nat, SToken)>, secs: Seq<SPlanSection>, k: int)
    requires
        toks_ok(toks, secs),
        1 <= k <= secs.len(),
        secs[0].kind is Table,
        !is_list(secs[0]),
        forall|j: int| 0 <= j < secs.len() ==> sec_good(#[trigger] secs[j]),
        forall|i: int, j: int| 0 <= i < j < secs.len() ==> secs[i].name != secs[j].name,
    ensures
        collect_upto(toks, tok_start(secs, k)) == collect_at(toks, secs, k),
    decreases k,
{
    let j = k - 1;
    if j > 0 {
        lemma_collect_all(toks, secs, j);
    } else {
        let st0 = crate::parser::cstate_init();
        assert(collect_upto(toks, 0) == st0);
        assert(collect_upto(toks, 1) == collect_step(st0, toks[0].0, toks[0].1));
    }
    assert forall|i: int| 0 <= i < j implies #[trigger] secs[i].name != secs[j].name by {}
    lemma_collect_head(toks, secs, j);
    assert(tok_start(secs, k) == hd(secs, j) + ntok(secs[j]));
    if is_list(secs[j]) {
        let nr = secs[j].rows.len() as int;
        lemma_collect_list_rows(toks, secs, j, nr);
        let st = collect_upto(toks, hd(secs, j) + 2 + nr);
        assert(st.sections =~= doc_secs(toks, secs, k));
    } else if secs[j].kind is Table {
        lemma_collect_table_lines(toks, secs, j);
    } else {
        let nv = secs[j].values.len() as int;
        lemma_collect_items(toks, secs, j, nv);
        let st = collect_upto(toks, hd(secs, j) + 1 + nv);
        assert(st.sections =~= doc_secs(toks, secs, k));
    }
}

proof fn lemma_collect_doc(toks: Seq<(nat, SToken)>, secs: Seq<SPlanSection>)
    requires
        toks_ok(toks, secs),
        secs.len() >= 1,
        secs[0].kind is Table,
        !is_list(secs[0]),
        forall|j: int| 0 <= j < secs.len() ==> sec_good(#[trigger] secs[j]),
        forall|i: int, j: int| 0 <= i < j < secs.len() ==> secs[i].name != secs[j].name,
    ensures
        collect_finish(collect_upto(toks, toks.len() as int)) == (
            Some(SDoc { root_array: false, sections: doc_secs(toks, secs, secs.len() as int) }),
            Seq::<crate::error::SpecError>::empty(),
        ),
{
    let n = secs.len() as int;
    lemma_collect_all(toks, secs, n);
    let ds = doc_secs(toks, secs, n);
    assert(ds[0] == doc_sec(toks, secs, 0));
    assert forall|j: int| 0 <= j < ds.len() implies valid_section_name(#[trigger] ds[j].name) by {
        assert(ds[j] == doc_sec(toks, secs, j));
        assert(sec_good(secs[j]));
    }
    lemma_name_errors_none(ds, n);
}

proof fn lemma_name_errors_none(ds: Seq<SSection>, k: int)
    requires
        0 <= k <= ds.len(),
        forall|j: int| 0 <= j < ds.len() ==> valid_section_name(#[trigger] ds[j].name),
    ensures
        crate::parser::name_errors(ds, k) == Seq::<crate::error::SpecError>::empty(),
    decreases k,
{
    if k > 0 {
        lemma_name_errors_none(ds, k - 1);
        assert(valid_section_name(ds[k - 1].name));
    }
}

// ---------------------------------------------------------------------------
// The pk index of the collected document
// ---------------------------------------------------------------------------

/// The pk entries of the first `i` members: each member object's pk, with its section and
/// its one row.
pub open spec fn pk_list(m: Seq<(Seq<char>, SpecJson)>, i: int) -> Seq<(Seq<char>, nat, nat)>
    decreases i,
{
    if i <= 0 {
        Seq::empty()
    } else if m[i - 1].1 is Object {
        pk_list(m, i - 1).push(
            (crate::text::dec(obj_count(m, i - 1) + 1), sec_count(m, i - 1) + 1, 0nat),
        )
    } else {
        pk_list(m, i - 1)
    }
}

/// The sections of the plan, as the members lay them out: the root table first, then a pk
/// table per member object and an array section per member array with items.
pub open spec fn sec_layout(secs: Seq<SPlanSection>, m: Seq<(Seq<char>, SpecJson)>) -> bool {
    &&& secs.len() == sec_count(m, m.len() as int) + 1
    &&& secs[0].kind is Table
    &&& !is_list(secs[0])
    &&& !secs[0].has_pk_column
    &&& secs[0].data_columns[0] != crate::parser::pk_word()
    &&& forall|l: int|
        0 <= l < m.len() && (#[trigger] m[l]).1 is Object ==> {
            let sec = secs[(sec_count(m, l) + 1) as int];
            sec.kind is Table && !is_list(sec) && sec.has_pk_column && row_pk(sec.rows[0]) == obj_count(m, l) + 1
        }
    &&& forall|l: int|
        0 <= l < m.len() && (#[trigger] m[l]).1 is Array && has_section(m[l].1) ==> secs[(sec_count(m, l)
            + 1) as int].kind is Array || is_list(secs[(sec_count(m, l) + 1) as int])
}

proof fn lemma_dec_injective(a: nat, b: nat)
    requires
        crate::text::dec(a) == crate::text::dec(b),
    ensures
        a == b,
{
    crate::text::lemma_dec_value(a);
    crate::text::lemma_dec_value(b);
}

proof fn lemma_pk_lookup_at(map: Seq<(Seq<char>, nat, nat)>, key: Seq<char>, idx: int)
    requires
        0 <= idx < map.len(),
        map[idx].0 == key,
        forall|j: int| 0 <= j < idx ==> #[trigger] map[j].0 != key,
    ensures
        crate::parser::pk_lookup(map, key) == Some((map[idx].1, map[idx].2)),
    decreases idx,
{
    if idx > 0 {
        let rest = map.drop_first();
        assert(map[0].0 != key);
        assert forall|j: int| 0 <= j < idx - 1 implies #[trigger] rest[j].0 != key by {
            assert(rest[j] == map[j + 1]);
        }
        assert(rest[idx - 1] == map[idx]);
        lemma_pk_lookup_at(rest, key, idx - 1);
    }
}

proof fn lemma_pk_lookup_absent(map: Seq<(Seq<char>, nat, nat)>, key: Seq<char>)
    requires
        forall|j: int| 0 <= j < map.len() ==> #[trigger] map[j].0 != key,
    ensures
        crate::parser::pk_lookup(map, key) is None,
    decreases map.len(),
{
    if map.len() > 0 {
        let rest = map.drop_first();
        assert(map[0].0 != key);
        assert forall|j: int| 0 <= j < rest.len() implies #[trigger] rest[j].0 != key by {
            assert(rest[j] == map[j + 1]);
        }
        lemma_pk_lookup_absent(rest, key);
    }
}

/// The entries of the first `i` members: the `e`-th has pk `e + 1`, and each member object
/// has its entry.
#[verifier::spinoff_prover]
#[verifier::rlimit(50)]
proof fn lemma_pk_list(m: Seq<(Seq<char>, SpecJson)>, i: int)
    requires
        0 <= i <= m.len(),
    ensures
        pk_list(m, i).len() == obj_count(m, i),
        forall|e: int| 0 <= e < pk_list(m, i).len() ==> (#[trigger] pk_list(m, i)[e]).0 == crate::text::dec((e + 1) as nat),
        forall|l: int|
            0 <= l < i && (#[trigger] m[l]).1 is Object ==> pk_list(m, i)[obj_count(m, l) as int] == (
                crate::text::dec(obj_count(m, l) + 1),
                sec_count(m, l) + 1,
                0nat,
            ),
    decreases i,
{
    if i > 0 {
        lemma_pk_list(m, i - 1);
        let prev = pk_list(m, i - 1);
        let cur = pk_list(m, i);
        assert(forall|e: int| 0 <= e < prev.len() ==> #[trigger] cur[e] == prev[e]);
        assert forall|l: int| 0 <= l < i && (#[trigger] m[l]).1 is Object implies cur[obj_count(m, l) as int]
            == (crate::text::dec(obj_count(m, l) + 1), sec_count(m, l) + 1, 0nat) by {
            if l < i - 1 {
                lemma_obj_count_mono(m, l + 1, i - 1);
                assert(cur[obj_count(m, l) as int] == prev[obj_count(m, l) as int]);
            }
        }
    }
}

/// The pk index after the sections of the first `i` members (and the root).
#[verifier::spinoff_prover]
#[verifier::rlimit(100)]
proof fn lemma_pk_sections(toks: Seq<(nat, SToken)>, secs: Seq<SPlanSection>, m: Seq<(Seq<char>, SpecJson)>, i: int)
    requires
        0 <= i <= m.len(),
        forall|j: int| 0 <= j < secs.len() ==> sec_good(#[trigger] secs[j]),
        sec_layout(secs, m),
    ensures
        crate::parser::pk_sections(doc_secs(toks, secs, secs.len() as int), (sec_count(m, i) + 1) as int) == (
            pk_list(m, i),
            Seq::<crate::error::SpecError>::empty(),
        ),
    decreases i,
{
    let ds = doc_secs(toks, secs, secs.len() as int);
    lemma_sec_count_mono(m, i, m.len() as int);
    if i == 0 {
        let d0 = ds[0];
        assert(d0 == doc_sec(toks, secs, 0));
        assert(sec_ok(secs[0]));
        assert(secs[0].data_columns.len() > 0);
        assert(d0.header[0] == secs[0].data_columns[0]) by {
            let c = crate::readback::written_header_cell(secs[0].data_columns[0]);
            assert(sec_hc(secs[0])[0] == c);
        }
        assert(!crate::parser::is_pk_table(d0));
        assert(crate::parser::pk_sections(ds, 0) == (
            Seq::<(Seq<char>, nat, nat)>::empty(),
            Seq::<crate::error::SpecError>::empty(),
        ));
    } else {
        lemma_pk_sections(toks, secs, m, i - 1);
        let l = i - 1;
        let x = m[l].1;
        if has_section(x) {
            lemma_sec_before(m, l, m.len() as int);
            let j = sec_count(m, l) + 1;
            assert(sec_count(m, i) + 1 == j + 1);
            let dj = ds[j as int];
            assert(dj == doc_sec(toks, secs, j as int));
            let sec = secs[j as int];
            if x is Object {
                assert(sec.kind is Table && sec.has_pk_column && row_pk(sec.rows[0]) == obj_count(m, l) + 1);
                assert(sec_ok(sec));
                assert(sec_hc(sec)[0] == SCell::Unquoted(crate::parser::pk_word()));
                assert(dj.header[0] == crate::parser::pk_word());
                assert(crate::parser::is_pk_table(dj));
                let st = (pk_list(m, l), Seq::<crate::error::SpecError>::empty());
                let pkv = obj_count(m, l) + 1;
                let d = crate::text::dec(pkv);
                assert(dj.rows[0].cells[0] == SCell::Unquoted(d));
                crate::text::lemma_dec_value(pkv);
                assert(crate::parser::valid_pk(d));
                lemma_pk_list(m, l);
                assert forall|e: int| 0 <= e < st.0.len() implies #[trigger] st.0[e].0 != d by {
                    if st.0[e].0 == d {
                        lemma_dec_injective((e + 1) as nat, pkv);
                    }
                }
                lemma_pk_lookup_absent(st.0, d);
                assert(crate::parser::pk_rows(ds, j as int, 1, st) == crate::parser::pk_step(
                    ds,
                    j as int,
                    0,
                    crate::parser::pk_rows(ds, j as int, 0, st),
                ));
            } else if sec.kind is Array {
                assert(dj.array);
                assert(!crate::parser::is_pk_table(dj));
            } else {
                assert(is_list(sec));
                assert(list_ok(sec));
                assert(dj.header[0] == sec.data_columns[0]) by {
                    assert(sec_hc(sec)[0] == crate::readback::written_header_cell(sec.data_columns[0]));
                }
                assert(!crate::parser::is_pk_table(dj));
            }
        } else {
            assert(sec_count(m, i) == sec_count(m, l));
            assert(!(x is Object));
        }
    }
}


// ---------------------------------------------------------------------------
// Resolution of the collected document
// ---------------------------------------------------------------------------

/// The columns of an object section, read from column `1 + c` on, give the object.
proof fn lemma_nested_cols(
    d: SDoc,
    pk: Pk,
    path: Seq<Key>,
    vis: Seq<bool>,
    si: nat,
    n: Seq<(Seq<char>, SpecJson)>,
    c: int,
)
    requires
        flat_ok(n),
        si < d.sections.len(),
        d.sections[si as int].rows.len() == 1,
        d.sections[si as int].header.len() == n.len() + 1,
        d.sections[si as int].rows[0].cells.len() == n.len() + 1,
        forall|i: int|
            0 <= i < n.len() ==> d.sections[si as int].header[i + 1] == (#[trigger] n[i]).0
                && d.sections[si as int].rows[0].cells[i + 1] == crate::readback::written_cell(n[i].1),
        0 <= c <= n.len(),
    ensures
        build_cols(d, pk, path, vis, si, 0, 1 + c, n.subrange(0, c)) == (
            Ok::<SpecJson, crate::error::SpecError>(SpecJson::Object(n)),
            vis,
        ),
    decreases n.len() - c,
{
    let sec = d.sections[si as int];
    let row = sec.rows[0];
    let obj = n.subrange(0, c);
    if c < n.len() {
        assert(sec.header[1 + c] == n[c].0);
        assert(row.cells[1 + c] == crate::readback::written_cell(n[c].1));
        crate::readback::lemma_written_cell_value(n[c].1, d, pk, path, vis, row.line);
        crate::json::lemma_obj_find_first(obj, n[c].0, obj.len() as int);
        assert(crate::json::obj_insert(obj, n[c].0, n[c].1) =~= n.subrange(0, c + 1));
        lemma_nested_cols(d, pk, path, vis, si, n, c + 1);
    } else {
        assert(obj =~= n);
    }
}

/// The members, each readable: a writable scalar, an object of writable scalars, an array
/// of writable scalars on lines that the lexer takes for data, or an array of objects of
/// writable scalars whose table reads back.
pub open spec fn members_ok(m: Seq<(Seq<char>, SpecJson)>) -> bool {
    &&& distinct_keys(m)
    &&& forall|l: int|
        0 <= l < m.len() ==> match #[trigger] m[l].1 {
            SpecJson::Object(n) => flat_ok(n),
            SpecJson::Array(a) => if a.len() > 0 && all_objects(a) {
                crate::tables::table_writable(a)
            } else {
                crate::arrays::items_writable(a)
            },
            x => crate::readback::writable_scalar(x),
        }
}

/// What a member value reads back as: an array of objects as its objects with their
/// members in the order of the columns of its table; anything else as itself.
pub open spec fn read_member(x: SpecJson) -> SpecJson {
    match x {
        SpecJson::Array(a) => if a.len() > 0 && all_objects(a) {
            SpecJson::Array(crate::tables::table_objects(a))
        } else {
            x
        },
        _ => x,
    }
}

/// The members as they read back.
pub open spec fn read_members(m: Seq<(Seq<char>, SpecJson)>) -> Seq<(Seq<char>, SpecJson)> {
    Seq::new(m.len(), |l: int| (m[l].0, read_member(m[l].1)))
}

/// The cell the root row of the collected document `d` holds for member `l`.
pub open spec fn root_cell(m: Seq<(Seq<char>, SpecJson)>, d: SDoc, l: int) -> SCell {
    match m[l].1 {
        SpecJson::Object(_) => SCell::Unquoted(ref_text(obj_count(m, l) + 1)),
        SpecJson::Array(a) => if a.len() == 0 {
            SCell::Unquoted(crate::resolve::word_empty_array())
        } else {
            SCell::Unquoted(seq!['@'] + d.sections[(sec_count(m, l) + 1) as int].name)
        },
        x => crate::readback::written_cell(x),
    }
}

/// The collected document: the root table holds the members' cells; the section of each
/// member object holds its pk and the object's cells; the section of each member array
/// holds its items; the sections have distinct, valid names.
pub open spec fn doc_layout(d: SDoc, m: Seq<(Seq<char>, SpecJson)>) -> bool {
    &&& d.sections.len() == sec_count(m, m.len() as int) + 1
    &&& d.sections[0].rows.len() == 1
    &&& d.sections[0].header.len() == m.len()
    &&& d.sections[0].rows[0].cells.len() == m.len()
    &&& forall|i: int, j: int| 0 <= i < j < d.sections.len() ==> d.sections[i].name != d.sections[j].name
    &&& forall|l: int|
        0 <= l < m.len() ==> d.sections[0].header[l] == (#[trigger] m[l]).0 && d.sections[0].rows[0].cells[l]
            == root_cell(m, d, l)
    &&& forall|l: int|
        0 <= l < m.len() && (#[trigger] m[l]).1 is Object ==> {
            let j = sec_count(m, l) + 1;
            let n = m[l].1->Object_0;
            &&& d.sections[j as int].rows.len() == 1
            &&& d.sections[j as int].header.len() == n.len() + 1
            &&& d.sections[j as int].rows[0].cells.len() == n.len() + 1
            &&& d.sections[j as int].header[0] == crate::parser::pk_word()
            &&& forall|i: int|
                0 <= i < n.len() ==> d.sections[j as int].header[i + 1] == (#[trigger] n[i]).0
                    && d.sections[j as int].rows[0].cells[i + 1] == crate::readback::written_cell(n[i].1)
        }
    &&& forall|l: int|
        0 <= l < m.len() && (#[trigger] m[l]).1 is Array && has_section(m[l].1) ==> {
            let j = sec_count(m, l) + 1;
            let a = m[l].1->Array_0;
            &&& valid_section_name(d.sections[j as int].name)
            &&& d.sections[j as int].rows.len() == a.len()
            &&& !all_objects(a) ==> d.sections[j as int].array
            &&& !all_objects(a) ==> forall|v: int|
                0 <= v < a.len() ==> d.sections[j as int].rows[v].cells == seq![crate::readback::written_cell(#[trigger] a[v])]
            &&& all_objects(a) ==> !d.sections[j as int].array
            &&& all_objects(a) ==> d.sections[j as int].header == crate::tables::full_table(a).data_columns
            &&& all_objects(a) ==> forall|r: int|
                0 <= r < a.len() ==> d.sections[j as int].rows[r].cells == #[trigger] crate::tables::row_cells(a, r)
        }
}

/// The sections reached once the first `c` columns of the root row are read.
pub open spec fn vis_at(m: Seq<(Seq<char>, SpecJson)>, c: int) -> Seq<bool> {
    Seq::new(sec_count(m, m.len() as int) + 1, |j: int| j <= sec_count(m, c))
}

/// The pk of member object `c` names row 0 of its section.
proof fn lemma_pk_of_object(m: Seq<(Seq<char>, SpecJson)>, c: int)
    requires
        0 <= c < m.len(),
        m[c].1 is Object,
    ensures
        crate::parser::pk_lookup(pk_list(m, m.len() as int), crate::text::dec(obj_count(m, c) + 1)) == Some(
            (sec_count(m, c) + 1, 0nat),
        ),
{
    let pk = pk_list(m, m.len() as int);
    let pkv = obj_count(m, c) + 1;
    let dj = crate::text::dec(pkv);
    lemma_pk_list(m, m.len() as int);
    lemma_obj_count_mono(m, c + 1, m.len() as int);
    assert(pk[obj_count(m, c) as int] == (dj, sec_count(m, c) + 1, 0nat));
    assert forall|i: int| 0 <= i < obj_count(m, c) implies #[trigger] pk[i].0 != dj by {
        if pk[i].0 == dj {
            lemma_dec_injective((i + 1) as nat, pkv);
        }
    }
    lemma_pk_lookup_at(pk, dj, obj_count(m, c) as int);
}

#[verifier::spinoff_prover]
#[verifier::rlimit(50)]
proof fn lemma_ref_cell(
    d: SDoc,
    m: Seq<(Seq<char>, SpecJson)>,
    path: Seq<Key>,
    c: int,
)
    requires
        members_ok(m),
        doc_layout(d, m),
        0 <= c < m.len(),
        m[c].1 is Object,
        path == seq![Key::Row(0, 0)],
    ensures
        cell_value(
            d,
            pk_list(m, m.len() as int),
            path,
            vis_at(m, c),
            root_cell(m, d, c),
            d.sections[0].rows[0].line,
        ) == (Ok::<Option<SpecJson>, crate::error::SpecError>(Some(read_member(m[c].1))), vis_at(m, c + 1)),
{
    let pk = pk_list(m, m.len() as int);
    let pkv = obj_count(m, c) + 1;
    let j = sec_count(m, c) + 1;
    let n = m[c].1->Object_0;
    assert(flat_ok(n));
    lemma_sec_before(m, c, m.len() as int);
    assert(sec_count(m, c + 1) == j);
    let t = ref_text(pkv);
    let rest = t.subrange(1, t.len() as int);
    let dj = crate::text::dec(pkv);
    assert(rest =~= dj);
    crate::text::lemma_dec_value(pkv);
    assert(t != crate::resolve::word_true());
    assert(t != crate::resolve::word_false());
    assert(t != crate::resolve::word_null());
    assert(t != crate::resolve::word_empty_array()) by {
        if t == crate::resolve::word_empty_array() {
            assert(t[1] == dj[0]);
        }
    }
    assert(crate::resolve::all_digits(rest));
    lemma_pk_of_object(m, c);
    // resolving that row
    let key = Key::Row(j, 0);
    assert(path_ok(d.sections, path)) by {
        assert(path.no_duplicates());
        assert(crate::resolve::key_valid(d.sections, path[0]));
    }
    assert(!path.contains(key)) by {
        if path.contains(key) {
            let i = choose|i: int| 0 <= i < path.len() && path[i] == key;
            assert(path[0] == Key::Row(0, 0));
        }
    }
    crate::resolve::lemma_path_push(d.sections, path, key);
    let vis = vis_at(m, c);
    let vis2 = vis.update(j as int, true);
    assert(vis2 =~= vis_at(m, c + 1));
    let p2 = path.push(key);
    lemma_nested_cols(d, pk, p2, vis2, j, n, 0);
    assert(n.subrange(0, 0) =~= Seq::<(Seq<char>, SpecJson)>::empty());
    assert(build_cols(d, pk, p2, vis2, j, 0, 0, Seq::empty()) == build_cols(d, pk, p2, vis2, j, 0, 1, Seq::empty()));
    assert(res_object_row(d, pk, path, vis, j, 0) == (Ok::<SpecJson, crate::error::SpecError>(SpecJson::Object(n)), vis2));
}

proof fn lemma_find_named(secs: Seq<SSection>, name: Seq<char>, j: int, i: int)
    requires
        0 <= i <= j < secs.len(),
        secs[j].name == name,
        forall|a: int| 0 <= a < j ==> #[trigger] secs[a].name != name,
    ensures
        crate::document::find_section_from(secs, name, i) == Some(j as nat),
    decreases j - i,
{
    if i < j {
        lemma_find_named(secs, name, j, i + 1);
    }
}

/// The items of array section `si`, from row `ri` on, after those before it.
proof fn lemma_items_rows(
    d: SDoc,
    pk: Pk,
    path: Seq<Key>,
    vis: Seq<bool>,
    si: nat,
    a: Seq<SpecJson>,
    ri: int,
)
    requires
        crate::arrays::items_writable(a),
        si < d.sections.len(),
        d.sections[si as int].rows.len() == a.len(),
        forall|v: int| 0 <= v < a.len() ==> d.sections[si as int].rows[v].cells == seq![crate::readback::written_cell(#[trigger] a[v])],
        0 <= ri <= a.len(),
    ensures
        crate::resolve::build_array_rows(d, pk, path, vis, si, ri, a.subrange(0, ri)) == (
            Ok::<SpecJson, crate::error::SpecError>(SpecJson::Array(a)),
            vis,
        ),
    decreases a.len() - ri,
{
    if ri < a.len() {
        let x = a[ri];
        let row = d.sections[si as int].rows[ri];
        assert(row.cells == seq![crate::readback::written_cell(x)]);
        assert(crate::readback::writable_scalar(x));
        crate::readback::lemma_written_cell_value(x, d, pk, path, vis, row.line);
        lemma_written_not_empty(x);
        assert(a.subrange(0, ri).push(x) =~= a.subrange(0, ri + 1));
        lemma_items_rows(d, pk, path, vis, si, a, ri + 1);
    } else {
        assert(a.subrange(0, ri) =~= a);
    }
}

#[verifier::spinoff_prover]
#[verifier::rlimit(50)]
proof fn lemma_named_cell(
    d: SDoc,
    m: Seq<(Seq<char>, SpecJson)>,
    path: Seq<Key>,
    c: int,
)
    requires
        members_ok(m),
        doc_layout(d, m),
        0 <= c < m.len(),
        m[c].1 is Array,
        has_section(m[c].1),
        path == seq![Key::Row(0, 0)],
    ensures
        cell_value(
            d,
            pk_list(m, m.len() as int),
            path,
            vis_at(m, c),
            root_cell(m, d, c),
            d.sections[0].rows[0].line,
        ) == (Ok::<Option<SpecJson>, crate::error::SpecError>(Some(read_member(m[c].1))), vis_at(m, c + 1)),
{
    let pk = pk_list(m, m.len() as int);
    let j = sec_count(m, c) + 1;
    let a = m[c].1->Array_0;
    lemma_sec_before(m, c, m.len() as int);
    assert(sec_count(m, c + 1) == j);
    let name = d.sections[j as int].name;
    assert(valid_section_name(name));
    let t = seq!['@'] + name;
    assert(root_cell(m, d, c) == SCell::Unquoted(t));
    let rest = t.subrange(1, t.len() as int);
    assert(rest =~= name);
    assert(t != crate::resolve::word_true()) by {
        assert(t[0] != crate::resolve::word_true()[0]);
    }
    assert(t != crate::resolve::word_false()) by {
        assert(t[0] != crate::resolve::word_false()[0]);
    }
    assert(t != crate::resolve::word_null()) by {
        assert(t[0] != crate::resolve::word_null()[0]);
    }
    assert(t != crate::resolve::word_empty_array()) by {
        if t == crate::resolve::word_empty_array() {
            assert(t[1] == name[0]);
        }
    }
    assert(!crate::resolve::all_digits(rest)) by {
        assert(!crate::lexer::is_ascii_digit(rest[0]));
    }
    lemma_find_named(d.sections, name, j as int, 0);
    assert(crate::document::spec_find_section(d.sections, name) == Some(j));
    let key = Key::Sec(j);
    assert(path_ok(d.sections, path)) by {
        assert(path.no_duplicates());
        assert(crate::resolve::key_valid(d.sections, path[0]));
    }
    assert(!path.contains(key)) by {
        if path.contains(key) {
            let i = choose|i: int| 0 <= i < path.len() && path[i] == key;
            assert(path[0] == Key::Row(0, 0));
        }
    }
    crate::resolve::lemma_path_push(d.sections, path, key);
    let vis = vis_at(m, c);
    let vis2 = vis.update(j as int, true);
    assert(vis2 =~= vis_at(m, c + 1));
    let p2 = path.push(key);
    if all_objects(a) {
        assert(crate::tables::table_writable(a));
        let outs = crate::tables::table_objects(a);
        assert(outs.subrange(0, 0) =~= Seq::<SpecJson>::empty());
        assert forall|r: nat| !p2.contains(Key::Row(j, r)) by {
            if p2.contains(Key::Row(j, r)) {
                let i = choose|i: int| 0 <= i < p2.len() && p2[i] == Key::Row(j, r);
                assert(p2[0] == Key::Row(0, 0));
                assert(p2[1] == key);
            }
        }
        crate::tables::lemma_table_rows(d, pk, p2, vis2, j, a, 0);
        assert(crate::resolve::res_table_as_array(d, pk, path, vis, j) == (
            Ok::<SpecJson, crate::error::SpecError>(SpecJson::Array(outs)),
            vis2,
        ));
    } else {
        assert(crate::arrays::items_writable(a));
        assert(a.subrange(0, 0) =~= Seq::<SpecJson>::empty());
        lemma_items_rows(d, pk, p2, vis2, j, a, 0);
        assert(crate::resolve::res_array_section(d, pk, path, vis, j) == (
            Ok::<SpecJson, crate::error::SpecError>(SpecJson::Array(a)),
            vis2,
        ));
    }
}

#[verifier::spinoff_prover]
#[verifier::rlimit(50)]
proof fn lemma_root_cols(d: SDoc, m: Seq<(Seq<char>, SpecJson)>, c: int)
    requires
        members_ok(m),
        doc_layout(d, m),
        m.len() > 0,
        m[0].0 != crate::parser::pk_word(),
        0 <= c <= m.len(),
    ensures
        build_cols(
            d,
            pk_list(m, m.len() as int),
            seq![Key::Row(0, 0)],
            vis_at(m, c),
            0,
            0,
            c,
            read_members(m).subrange(0, c),
        ) == (Ok::<SpecJson, crate::error::SpecError>(SpecJson::Object(read_members(m))), vis_at(m, m.len() as int)),
    decreases m.len() - c,
{
    let pk = pk_list(m, m.len() as int);
    let path = seq![Key::Row(0, 0)];
    let sec = d.sections[0];
    let row = sec.rows[0];
    let rm = read_members(m);
    let obj = rm.subrange(0, c);
    if c < m.len() {
        assert(sec.header[c] == m[c].0);
        assert(row.cells[c] == root_cell(m, d, c));
        if c == 0 {
            assert(sec.header[0] != crate::parser::pk_word());
        }
        match m[c].1 {
            SpecJson::Object(_) => {
                lemma_ref_cell(d, m, path, c);
            },
            SpecJson::Array(a) => {
                if a.len() == 0 {
                    let w = crate::resolve::word_empty_array();
                    assert(row.cells[c] == SCell::Unquoted(w));
                    assert(w != crate::resolve::word_true() && w != crate::resolve::word_false()
                        && w != crate::resolve::word_null()) by {
                        assert(w.len() == 3);
                    }
                    assert(a =~= Seq::<SpecJson>::empty());
                    assert(sec_count(m, c + 1) == sec_count(m, c));
                    assert(vis_at(m, c + 1) =~= vis_at(m, c));
                    assert(read_member(m[c].1) == m[c].1);
                    assert(cell_value(d, pk, path, vis_at(m, c), row.cells[c], row.line) == (
                        Ok::<Option<SpecJson>, crate::error::SpecError>(Some(read_member(m[c].1))),
                        vis_at(m, c + 1),
                    ));
                } else {
                    lemma_named_cell(d, m, path, c);
                }
            },
            x => {
                crate::readback::lemma_written_cell_value(x, d, pk, path, vis_at(m, c), row.line);
                assert(sec_count(m, c + 1) == sec_count(m, c));
                assert(vis_at(m, c + 1) =~= vis_at(m, c));
                assert(read_member(x) == x);
            },
        }
        assert(rm[c] == (m[c].0, read_member(m[c].1)));
        assert forall|k: int| 0 <= k < obj.len() implies obj[k].0 != m[c].0 by {
            assert(obj[k] == rm[k]);
            assert(m[k].0 != m[c].0);
        }
        crate::json::lemma_obj_find_first(obj, m[c].0, obj.len() as int);
        assert(crate::json::obj_insert(obj, m[c].0, read_member(m[c].1)) =~= rm.subrange(0, c + 1));
        lemma_root_cols(d, m, c + 1);
    } else {
        assert(obj =~= rm);
    }
}

/// Resolution of the collected document gives the object back.
proof fn lemma_nested_resolve(d: SDoc, m: Seq<(Seq<char>, SpecJson)>)
    requires
        members_ok(m),
        doc_layout(d, m),
        !d.root_array,
        m.len() > 0,
        m[0].0 != crate::parser::pk_word(),
        crate::parser::spec_pk_collect(d.sections) == (
            pk_list(m, m.len() as int),
            Seq::<crate::error::SpecError>::empty(),
        ),
    ensures
        crate::resolve::spec_resolve(d) == Ok::<SpecJson, crate::error::SpecError>(SpecJson::Object(read_members(m))),
{
    let pk = pk_list(m, m.len() as int);
    let n = d.sections.len();
    let vis0 = Seq::new(n, |i: int| false);
    let vis1 = vis0.update(0, true);
    assert(vis1 =~= vis_at(m, 0));
    let pe = Seq::<Key>::empty();
    assert(pe.no_duplicates());
    assert(path_ok(d.sections, pe));
    let key = Key::Row(0, 0);
    assert(!pe.contains(key));
    crate::resolve::lemma_path_push(d.sections, pe, key);
    assert(pe.push(key) =~= seq![Key::Row(0, 0)]);
    assert(vis1.update(0, true) =~= vis1);
    assert(read_members(m).subrange(0, 0) =~= Seq::<(Seq<char>, SpecJson)>::empty());
    lemma_root_cols(d, m, 0);
    let vf = vis_at(m, m.len() as int);
    let v = SpecJson::Object(read_members(m));
    assert(res_object_row(d, pk, pe, vis1, 0, 0) == (Ok::<SpecJson, crate::error::SpecError>(v), vf));
    assert(crate::resolve::resolve_root(d, pk, vis0) == (Ok::<SpecJson, crate::error::SpecError>(v), vf));
    assert forall|j: int| 0 <= j < vf.len() implies vf[j] by {}
    lemma_first_unvisited_none(vf, 0);
}

proof fn lemma_first_unvisited_none(v: Seq<bool>, i: int)
    requires
        0 <= i,
        forall|j: int| 0 <= j < v.len() ==> v[j],
    ensures
        crate::resolve::first_unvisited(v, i) is None,
    decreases v.len() - i,
{
    if i < v.len() {
        lemma_first_unvisited_none(v, i + 1);
    }
}


// ---------------------------------------------------------------------------
// The plan's sections read back
// ---------------------------------------------------------------------------

/// The text written for member `l` in the root row, where `secs` are the members' sections.
pub open spec fn root_part(m: Seq<(Seq<char>, SpecJson)>, secs: Seq<SPlanSection>, l: int) -> Seq<char> {
    crate::encoder::spec_render_cell(member_cell(m, secs, l))
}

/// Some member among the first `i` is the `j`-th to get a section of its own.
proof fn lemma_sec_index(m: Seq<(Seq<char>, SpecJson)>, i: int, j: int)
    requires
        0 <= j < sec_count(m, i),
        0 <= i,
    ensures
        exists|l: int| 0 <= l < i && has_section(#[trigger] m[l].1) && sec_count(m, l) == j,
    decreases i,
{
    if i > 0 {
        if j < sec_count(m, i - 1) {
            lemma_sec_index(m, i - 1, j);
            let l = choose|l: int| 0 <= l < i - 1 && has_section(#[trigger] m[l].1) && sec_count(m, l) == j;
        } else {
            assert(has_section(m[i - 1].1));
        }
    }
}

/// A line opening with a given first part: it opens a data record when the part does.
proof fn lemma_lead(parts: Seq<Seq<char>>)
    requires
        parts.len() > 0,
        parts[0].len() > 0,
        forall|i: int| 0 <= i < parts.len() ==> no_nul(#[trigger] parts[i]),
    ensures
        crate::encoder::join_comma(parts).len() > 0,
        crate::encoder::join_comma(parts)[0] == parts[0][0],
{
    crate::readback::lemma_join_text(parts);
}

proof fn lemma_object_section_ok(name: Seq<char>, n: Seq<(Seq<char>, SpecJson)>, j: nat)
    requires
        flat_ok(n),
    ensures
        sec_ok(object_section(name, n, j)),
        object_section(name, n, j).has_pk_column,
        row_pk(object_section(name, n, j).rows[0]) == j,
{
    let sec = object_section(name, n, j);
    let fields = value_fields(n);
    assert(sec.data_columns =~= fields.map_values(|f: (Seq<char>, SPlanCell)| f.0));
    assert forall|i: int| 0 <= i < sec.data_columns.len() implies crate::readback::writable_key(
        #[trigger] sec.data_columns[i],
    ) by {
        assert(sec.data_columns[i] == n[i].0);
    }
    assert forall|i: int| 0 <= i < fields.len() implies match #[trigger] fields[i].1 {
        SPlanCell::Value(x) => crate::readback::writable_scalar(x),
        SPlanCell::RowRef(_) => true,
        SPlanCell::EmptyArrayRef => true,
        SPlanCell::NamedRef(nm) => valid_section_name(nm),
    } by {
        assert(crate::readback::writable_scalar(n[i].1));
    }
    lemma_sec_reads(sec);
    let ht = crate::encoder::header_parts(sec);
    let rt = crate::encoder::row_parts(sec, sec.rows[0]);
    assert(ht[0] == crate::parser::pk_word());
    lemma_lead(ht);
    crate::text::lemma_dec_value(j);
    assert(rt[0] == crate::text::dec(j));
    lemma_lead(rt);
}

proof fn lemma_objects_section_ok(name: Seq<char>, a: Seq<SpecJson>)
    requires
        crate::tables::table_writable(a),
    ensures
        list_ok(objects_section(name, a)),
{
    let sec = objects_section(name, a);
    let full = crate::tables::full_table(a);
    crate::tables::lemma_head_reads(a);
    assert(crate::encoder::header_parts(sec) == crate::encoder::header_parts(full));
    assert forall|r: int, i: int|
        0 <= r < sec.rows.len() && 0 <= i < sec.rows[r].fields.len() implies ((#[trigger] sec.rows[r].fields[i]).1 matches SPlanCell::Value(x)
            && crate::readback::writable_scalar(x)) by {
        let o = crate::tables::members_of(a[r]);
        assert(a[r] is Object && flat_ok(o));
        assert(sec.rows[r].fields == value_fields(o));
        assert(crate::readback::writable_scalar(o[i].1));
    }
    assert forall|r: int| 0 <= r < sec.rows.len() implies lead_ok(
        crate::encoder::join_comma(crate::encoder::row_parts(sec, #[trigger] sec.rows[r])),
    ) by {
        crate::tables::lemma_row_reads(a, r);
        assert(crate::encoder::row_parts(sec, sec.rows[r]) == crate::encoder::row_parts(full, full.rows[r]));
        assert(crate::roundtrip::opens_data_line(crate::tables::table_row_line(a, r)));
    }
}

proof fn lemma_array_section_ok(name: Seq<char>, a: Seq<SpecJson>)
    requires
        a.len() > 0,
        crate::arrays::items_writable(a),
    ensures
        arr_ok(array_section(name, a)),
{
    let sec = array_section(name, a);
    assert forall|v: int| 0 <= v < sec.values.len() implies match #[trigger] sec.values[v] {
        SPlanCell::Value(x) => crate::readback::writable_scalar(x) && crate::roundtrip::opens_data_line(
            crate::encoder::spec_render_scalar(x),
        ),
        _ => false,
    } by {
        assert(sec.values[v] == SPlanCell::Value(a[v]));
    }
}

/// An object the encoder writes so that it reads back through references: at least one
/// member; each a writable scalar, an object of writable scalars, an array of writable
/// scalars on lines that the lexer takes for data, or an array of objects of writable
/// scalars whose table reads back; writable, distinct names; no member object or array with
/// items called `root`; a first column not called `pk`; a header line that the lexer takes
/// for data, and a first member that, when a scalar, is written so too.
pub open spec fn nested_writable(m: Seq<(Seq<char>, SpecJson)>) -> bool {
    &&& m.len() > 0
    &&& members_ok(m)
    &&& forall|l: int| 0 <= l < m.len() ==> crate::readback::writable_key(#[trigger] m[l].0)
    &&& forall|l: int| 0 <= l < m.len() && has_section(#[trigger] m[l].1) ==> m[l].0 != root_name()
    &&& m[0].0 != crate::parser::pk_word()
    &&& crate::roundtrip::opens_data_line(crate::roundtrip::header_text(m))
    &&& is_scalar(m[0].1) ==> crate::roundtrip::opens_data_line(crate::encoder::spec_render_scalar(m[0].1))
}

proof fn lemma_no_pk_lists(m: Seq<(Seq<char>, SpecJson)>)
    requires
        nested_writable(m),
    ensures
        no_pk_lists(m),
{
    assert forall|k: int| 0 <= k < m.len() && is_object_list(#[trigger] m[k].1) implies !crate::encoder::pk_first(
        crate::tables::full_table(m[k].1->Array_0),
    ) by {
        let a = m[k].1->Array_0;
        assert(all_objects(a)) by {
            assert forall|j: int| 0 <= j < a.len() implies #[trigger] crate::encoder::is_object(a[j]) by {
                assert(is_flat_object(a[j]));
            }
        }
        assert(crate::tables::table_writable(a));
        assert(crate::parser::pk_word() =~= seq!['p', 'k']);
    }
}

proof fn lemma_members_shallow(m: Seq<(Seq<char>, SpecJson)>)
    requires
        members_ok(m),
    ensures
        forall|k: int| 0 <= k < m.len() ==> shallow(#[trigger] m[k].1),
        forall|k: int| 0 <= k < m.len() && (#[trigger] m[k]).1 is Object ==> flat_ok(m[k].1->Object_0),
        forall|k: int|
            0 <= k < m.len() && (#[trigger] m[k]).1 is Array ==> if m[k].1->Array_0.len() > 0 && all_objects(
                m[k].1->Array_0,
            ) {
                crate::tables::table_writable(m[k].1->Array_0) && is_object_list(m[k].1)
            } else {
                crate::arrays::items_writable(m[k].1->Array_0) && (m[k].1->Array_0.len() > 0 ==> is_scalar_list(m[k].1))
            },
{
    assert forall|k: int| 0 <= k < m.len() implies shallow(#[trigger] m[k].1) && (m[k].1 is Array ==> if m[k].1->Array_0.len()
        > 0 && all_objects(m[k].1->Array_0) {
        crate::tables::table_writable(m[k].1->Array_0) && is_object_list(m[k].1)
    } else {
        crate::arrays::items_writable(m[k].1->Array_0) && (m[k].1->Array_0.len() > 0 ==> is_scalar_list(m[k].1))
    }) by {
        match m[k].1 {
            SpecJson::Object(n) => {
                assert(flat_ok(n));
                assert forall|i: int| 0 <= i < n.len() implies is_scalar(#[trigger] n[i].1) by {
                    assert(crate::readback::writable_scalar(n[i].1));
                }
            },
            SpecJson::Array(a) => {
                if a.len() > 0 && all_objects(a) {
                    assert(crate::tables::table_writable(a));
                    assert forall|i: int| 0 <= i < a.len() implies is_flat_object(#[trigger] a[i]) by {
                        assert(a[i] is Object && flat_ok(crate::tables::members_of(a[i])));
                        let n = a[i]->Object_0;
                        assert forall|q: int| 0 <= q < n.len() implies is_scalar(#[trigger] n[q].1) by {
                            assert(crate::readback::writable_scalar(n[q].1));
                        }
                    }
                    assert(is_object_list(m[k].1));
                } else {
                    assert(crate::arrays::items_writable(a));
                    if a.len() > 0 {
                        assert forall|i: int| 0 <= i < a.len() implies is_scalar(#[trigger] a[i]) by {
                            assert(crate::readback::writable_scalar(a[i]));
                        }
                        assert(is_scalar_list(m[k].1));
                    } else {
                        assert(is_empty_array(m[k].1));
                    }
                }
            },
            _ => {},
        }
    }
}

/// The root section of the plan reads back.
#[verifier::spinoff_prover]
#[verifier::rlimit(50)]
proof fn lemma_root_section_ok(m: Seq<(Seq<char>, SpecJson)>, secs: Seq<SPlanSection>)
    requires
        nested_writable(m),
        forall|l: int|
            0 <= l < m.len() && has_section(#[trigger] m[l].1) ==> valid_section_name(secs[sec_count(m, l) as int].name),
    ensures
        sec_ok(root_section(m, secs)),
        crate::encoder::row_parts(root_section(m, secs), root_section(m, secs).rows[0]) == Seq::new(
            m.len(),
            |l: int| root_part(m, secs, l),
        ),
{
    let sec = root_section(m, secs);
    let fields = root_fields(m, secs);
    assert(sec.data_columns =~= fields.map_values(|f: (Seq<char>, SPlanCell)| f.0));
    assert forall|i: int| 0 <= i < fields.len() implies match #[trigger] fields[i].1 {
        SPlanCell::Value(x) => crate::readback::writable_scalar(x),
        SPlanCell::RowRef(_) => true,
        SPlanCell::EmptyArrayRef => true,
        SPlanCell::NamedRef(nm) => valid_section_name(nm),
    } by {
        match m[i].1 {
            SpecJson::Object(_) => {},
            SpecJson::Array(a) => {
                if a.len() > 0 {
                    assert(has_section(m[i].1));
                }
            },
            x => {
                assert(crate::readback::writable_scalar(x));
            },
        }
    }
    assert forall|i: int| 0 <= i < sec.data_columns.len() implies crate::readback::writable_key(
        #[trigger] sec.data_columns[i],
    ) by {
        assert(sec.data_columns[i] == m[i].0);
    }
    assert forall|a: int, b: int| 0 <= a < b < sec.rows[0].fields.len() implies sec.rows[0].fields[a].0
        != sec.rows[0].fields[b].0 by {}
    assert(sec_base(sec));
    lemma_sec_reads(sec);
    let ht = crate::encoder::header_parts(sec);
    let rt = crate::encoder::row_parts(sec, sec.rows[0]);
    assert(ht =~= keys_of(m).map_values(|k: Seq<char>| crate::encoder::spec_csv_field_header(k)));
    assert forall|l: int| 0 <= l < m.len() implies rt[l] == root_part(m, secs, l) by {
        crate::roundtrip::lemma_find_distinct(fields, l);
    }
    assert(rt =~= Seq::new(m.len(), |l: int| root_part(m, secs, l)));
    // the header line
    crate::readback::lemma_join_text(ht);
    assert(crate::readback::writable_key(m[0].0));
    crate::readback::lemma_key_text(m[0].0);
    assert(ht[0] == crate::encoder::spec_csv_field_header(m[0].0));
    if ht[0].len() == 0 && ht.len() == 1 {
        assert(crate::encoder::join_comma(ht) == ht[0]);
    }
    // the row line
    crate::readback::lemma_join_text(rt);
    match m[0].1 {
        SpecJson::Object(_) => {
            assert(rt[0] == ref_text(1));
        },
        SpecJson::Array(a) => {
            if a.len() == 0 {
                assert(rt[0] == crate::resolve::word_empty_array());
            } else {
                assert(rt[0][0] == '@');
            }
        },
        x => {
            assert(crate::readback::writable_scalar(x));
            crate::readback::lemma_scalar_text(x);
        },
    }
}

proof fn lemma_sections_text_no_nul(secs: Seq<SPlanSection>, n: int)
    requires
        0 <= n <= secs.len(),
        forall|j: int| 0 <= j < secs.len() ==> sec_good(#[trigger] secs[j]),
    ensures
        no_nul(crate::encoder::sections_text(secs, n)),
    decreases n,
{
    if n > 0 {
        lemma_sections_text_no_nul(secs, n - 1);
        lemma_section_text(secs[n - 1]);
        let a = crate::encoder::sections_text(secs, n - 1);
        let b = sep(n - 1 > 0);
        let c = crate::encoder::render_section(secs[n - 1]);
        let t = crate::encoder::sections_text(secs, n);
        assert(t == a + b + c);
        assert forall|i: int| 0 <= i < t.len() implies #[trigger] t[i] != '\0' by {
            if i < a.len() {
                assert(t[i] == a[i]);
            } else if i >= a.len() + b.len() {
                assert(t[i] == c[i - a.len() - b.len()]);
            }
        }
    }
}

/// The section of a member reads back.
#[verifier::spinoff_prover]
#[verifier::rlimit(50)]
proof fn lemma_member_section_good(m: Seq<(Seq<char>, SpecJson)>, j: int)
    requires
        nested_writable(m),
        1 <= j < crate::encoder::plan_root(SpecJson::Object(m)).sections.len(),
    ensures
        sec_good(crate::encoder::plan_root(SpecJson::Object(m)).sections[j]),
{
    lemma_members_shallow(m);
    lemma_no_pk_lists(m);
    lemma_nested_plan(m);
    let secs = crate::encoder::plan_root(SpecJson::Object(m)).sections;
    crate::naming::lemma_section_names(SpecJson::Object(m));
    lemma_sec_index(m, m.len() as int, j - 1);
    let l = choose|l: int| 0 <= l < m.len() && has_section(#[trigger] m[l].1) && sec_count(m, l) == j - 1;
    assert(secs[(sec_count(m, l) + 1) as int].name != root_name());
    assert(valid_section_name(secs[j].name));
    match m[l].1 {
        SpecJson::Object(n) => {
            assert(flat_ok(n));
            lemma_object_section_ok(secs[j].name, n, obj_count(m, l) + 1);
        },
        SpecJson::Array(a) => {
            if all_objects(a) {
                lemma_objects_section_ok(secs[j].name, a);
            } else {
                lemma_array_section_ok(secs[j].name, a);
            }
        },
        _ => {},
    }
}

/// The root section of the plan reads back.
#[verifier::spinoff_prover]
#[verifier::rlimit(100)]
proof fn lemma_root_section_good(m: Seq<(Seq<char>, SpecJson)>)
    requires
        nested_writable(m),
    ensures
        sec_good(crate::encoder::plan_root(SpecJson::Object(m)).sections[0]),
        crate::encoder::plan_root(SpecJson::Object(m)).sections[0].data_columns[0] == m[0].0,
{
    lemma_members_shallow(m);
    lemma_no_pk_lists(m);
    lemma_nested_plan(m);
    let secs = crate::encoder::plan_root(SpecJson::Object(m)).sections;
    let tail = secs.drop_first();
    crate::naming::lemma_section_names(SpecJson::Object(m));
    assert forall|l: int| 0 <= l < m.len() && has_section(#[trigger] m[l].1) implies valid_section_name(
        tail[sec_count(m, l) as int].name,
    ) by {
        lemma_sec_before(m, l, m.len() as int);
        assert(tail[sec_count(m, l) as int] == secs[(sec_count(m, l) + 1) as int]);
    }
    lemma_root_section_ok(m, tail);
    assert(crate::encoder::data_word() != root_name()) by {
        assert(crate::encoder::data_word()[0] != root_name()[0]);
    }
}

/// The sections of the plan of such an object: each reads back, with distinct names, laid
/// out as the members say.
#[verifier::spinoff_prover]
#[verifier::rlimit(50)]
proof fn lemma_nested_sections(m: Seq<(Seq<char>, SpecJson)>)
    requires
        nested_writable(m),
    ensures
        ({
            let secs = crate::encoder::plan_root(SpecJson::Object(m)).sections;
            &&& forall|j: int| 0 <= j < secs.len() ==> sec_good(#[trigger] secs[j])
            &&& forall|i: int, j: int| 0 <= i < j < secs.len() ==> secs[i].name != secs[j].name
            &&& sec_layout(secs, m)
        }),
{
    let secs = crate::encoder::plan_root(SpecJson::Object(m)).sections;
    assert forall|j: int| 0 <= j < secs.len() implies sec_good(#[trigger] secs[j]) by {
        if j == 0 {
            lemma_root_section_good(m);
        } else {
            lemma_member_section_good(m, j);
        }
    }
    crate::naming::lemma_section_names(SpecJson::Object(m));
    lemma_sections_layout(m);
}

/// The sections of the plan are laid out as the members say.
#[verifier::spinoff_prover]
#[verifier::rlimit(50)]
proof fn lemma_sections_layout(m: Seq<(Seq<char>, SpecJson)>)
    requires
        nested_writable(m),
    ensures
        sec_layout(crate::encoder::plan_root(SpecJson::Object(m)).sections, m),
{
    let secs = crate::encoder::plan_root(SpecJson::Object(m)).sections;
    lemma_root_section_good(m);
    lemma_members_shallow(m);
    lemma_no_pk_lists(m);
    lemma_nested_plan(m);
    assert forall|l: int| 0 <= l < m.len() && (#[trigger] m[l]).1 is Object implies {
        let sec = secs[(sec_count(m, l) + 1) as int];
        sec.kind is Table && !is_list(sec) && sec.has_pk_column && row_pk(sec.rows[0]) == obj_count(m, l) + 1
    } by {
        lemma_sec_before(m, l, m.len() as int);
    }
    assert forall|l: int| 0 <= l < m.len() && (#[trigger] m[l]).1 is Array && has_section(m[l].1) implies secs[(
    sec_count(m, l) + 1) as int].kind is Array || is_list(secs[(sec_count(m, l) + 1) as int]) by {
        lemma_sec_before(m, l, m.len() as int);
        assert(shallow(m[l].1));
    }
}

/// The tokens of the written text.
#[verifier::spinoff_prover]
#[verifier::rlimit(50)]
proof fn lemma_nested_tokens(m: Seq<(Seq<char>, SpecJson)>) -> (toks: Seq<(nat, SToken)>)
    requires
        nested_writable(m),
    ensures
        crate::lexer::spec_lex(crate::encoder::render(crate::encoder::plan_root(SpecJson::Object(m)))) == Ok::<
            Seq<(nat, SToken)>,
            crate::error::SpecError,
        >(toks),
        toks_ok(toks, crate::encoder::plan_root(SpecJson::Object(m)).sections),
{
    lemma_nested_sections(m);
    let p = crate::encoder::plan_root(SpecJson::Object(m));
    let secs = p.sections;
    let n = secs.len() as int;
    let s = crate::encoder::render(p);
    assert(!p.root_array) by {
        lemma_members_shallow(m);
        lemma_no_pk_lists(m);
        lemma_nested_plan(m);
    }
    let st = crate::encoder::sections_text(secs, n);
    lemma_sections_text_no_nul(secs, n);
    assert(no_nul(s)) by {
        assert forall|i: int| 0 <= i < s.len() implies #[trigger] s[i] != '\0' by {
            if i >= 6 {
                assert(s[i] == st[i - 6]);
            }
        }
    }
    assert(s =~= crate::roundtrip::root_w() + seq!['\n'] + st);
    crate::roundtrip::lemma_root_line(st, Seq::empty());
    let acc1 = Seq::<(nat, SToken)>::empty().push((1nat, SToken::Root { array: false }));
    assert(crate::encoder::sections_text(secs, 0) =~= Seq::<char>::empty());
    let toks = lemma_lex_sections(secs, s, 0, 2, acc1);
    assert(s[0] == ':');
    assert(toks[0] == acc1[0]) by {
        assert(toks.subrange(0, 1)[0] == toks[0]);
    }
    toks
}

/// The collected section of a member array has the expected layout.
#[verifier::spinoff_prover]
#[verifier::rlimit(50)]
proof fn lemma_layout_array(m: Seq<(Seq<char>, SpecJson)>, toks: Seq<(nat, SToken)>, l: int)
    requires
        nested_writable(m),
        0 <= l < m.len(),
        m[l].1 is Array,
        has_section(m[l].1),
    ensures
        ({
            let secs = crate::encoder::plan_root(SpecJson::Object(m)).sections;
            let ds = doc_secs(toks, secs, secs.len() as int);
            let j = sec_count(m, l) + 1;
            let a = m[l].1->Array_0;
            &&& valid_section_name(ds[j as int].name)
            &&& ds[j as int].rows.len() == a.len()
            &&& !all_objects(a) ==> ds[j as int].array
            &&& !all_objects(a) ==> forall|v: int|
                0 <= v < a.len() ==> ds[j as int].rows[v].cells == seq![crate::readback::written_cell(#[trigger] a[v])]
            &&& all_objects(a) ==> !ds[j as int].array
            &&& all_objects(a) ==> ds[j as int].header == crate::tables::full_table(a).data_columns
            &&& all_objects(a) ==> forall|r: int|
                0 <= r < a.len() ==> ds[j as int].rows[r].cells == #[trigger] crate::tables::row_cells(a, r)
        }),
{
    lemma_members_shallow(m);
    lemma_no_pk_lists(m);
    lemma_nested_plan(m);
    lemma_nested_sections(m);
    let secs = crate::encoder::plan_root(SpecJson::Object(m)).sections;
    let n = secs.len() as int;
    let ds = doc_secs(toks, secs, n);
    let j = sec_count(m, l) + 1;
    let a = m[l].1->Array_0;
    lemma_sec_before(m, l, m.len() as int);
    let sec = secs[j as int];
    assert(ds[j as int] == doc_sec(toks, secs, j as int));
    assert(sec_good(sec));
    if all_objects(a) {
        assert(is_object_list(m[l].1));
        assert(sec == objects_section(sec.name, a));
        assert(is_list(sec));
        let full = crate::tables::full_table(a);
        crate::tables::lemma_table_header(a);
        assert(sec_hc(sec) =~= crate::tables::head_cells(a));
        assert forall|r: int| 0 <= r < a.len() implies ds[j as int].rows[r].cells == #[trigger] crate::tables::row_cells(a, r) by {
            assert(list_rc(sec, r) =~= crate::tables::row_cells(a, r));
        }
    } else {
        assert(is_scalar_list(m[l].1));
        assert(sec == array_section(sec.name, a));
        assert forall|v: int| 0 <= v < a.len() implies ds[j as int].rows[v].cells == seq![
            crate::readback::written_cell(#[trigger] a[v]),
        ] by {
            assert(sec.values[v] == SPlanCell::Value(a[v]));
        }
    }
}

/// The collected section of a member object has the expected layout.
#[verifier::spinoff_prover]
#[verifier::rlimit(50)]
proof fn lemma_layout_object(m: Seq<(Seq<char>, SpecJson)>, toks: Seq<(nat, SToken)>, l: int)
    requires
        nested_writable(m),
        0 <= l < m.len(),
        m[l].1 is Object,
    ensures
        ({
            let secs = crate::encoder::plan_root(SpecJson::Object(m)).sections;
            let ds = doc_secs(toks, secs, secs.len() as int);
            let j = sec_count(m, l) + 1;
            let nn = m[l].1->Object_0;
            &&& ds[j as int].rows.len() == 1
            &&& ds[j as int].header.len() == nn.len() + 1
            &&& ds[j as int].rows[0].cells.len() == nn.len() + 1
            &&& ds[j as int].header[0] == crate::parser::pk_word()
            &&& forall|i: int|
                0 <= i < nn.len() ==> ds[j as int].header[i + 1] == (#[trigger] nn[i]).0 && ds[j as int].rows[0].cells[i
                    + 1] == crate::readback::written_cell(nn[i].1)
        }),
{
    lemma_members_shallow(m);
    lemma_no_pk_lists(m);
    lemma_nested_plan(m);
    lemma_nested_sections(m);
    let secs = crate::encoder::plan_root(SpecJson::Object(m)).sections;
    let n = secs.len() as int;
    let ds = doc_secs(toks, secs, n);
    let j = sec_count(m, l) + 1;
    let nn = m[l].1->Object_0;
    lemma_sec_before(m, l, m.len() as int);
    let sec = secs[j as int];
    assert(sec == object_section(sec.name, nn, obj_count(m, l) + 1));
    assert(!is_list(sec));
    assert(ds[j as int] == doc_sec(toks, secs, j as int));
    assert forall|i: int| 0 <= i < nn.len() implies ds[j as int].header[i + 1] == (#[trigger] nn[i]).0
        && ds[j as int].rows[0].cells[i + 1] == crate::readback::written_cell(nn[i].1) by {
        assert(sec_hc(sec)[i + 1] == crate::readback::written_header_cell(nn[i].0));
        assert(sec_rc(sec)[i + 1] == plan_cell(value_fields(nn)[i].1));
    }
}

/// The document collected from those tokens has the expected layout.
#[verifier::spinoff_prover]
#[verifier::rlimit(50)]
proof fn lemma_nested_layout(m: Seq<(Seq<char>, SpecJson)>, toks: Seq<(nat, SToken)>)
    requires
        nested_writable(m),
    ensures
        ({
            let secs = crate::encoder::plan_root(SpecJson::Object(m)).sections;
            doc_layout(SDoc { root_array: false, sections: doc_secs(toks, secs, secs.len() as int) }, m)
        }),
{
    lemma_members_shallow(m);
    lemma_no_pk_lists(m);
    lemma_nested_plan(m);
    lemma_nested_sections(m);
    let secs = crate::encoder::plan_root(SpecJson::Object(m)).sections;
    let tail = secs.drop_first();
    let n = secs.len() as int;
    let ds = doc_secs(toks, secs, n);
    let d = SDoc { root_array: false, sections: ds };
    let fields = root_fields(m, tail);
    assert(ds[0] == doc_sec(toks, secs, 0));
    assert(!is_list(secs[0]));
    assert forall|i: int, j: int| 0 <= i < j < ds.len() implies ds[i].name != ds[j].name by {
        assert(ds[i] == doc_sec(toks, secs, i));
        assert(ds[j] == doc_sec(toks, secs, j));
    }
    assert forall|l: int| 0 <= l < m.len() implies ds[0].header[l] == (#[trigger] m[l]).0 && ds[0].rows[0].cells[l]
        == root_cell(m, d, l) by {
        assert(sec_hc(secs[0])[l] == crate::readback::written_header_cell(m[l].0));
        assert(sec_rc(secs[0])[l] == plan_cell(fields[l].1));
        if has_section(m[l].1) {
            lemma_sec_before(m, l, m.len() as int);
            assert(ds[(sec_count(m, l) + 1) as int] == doc_sec(toks, secs, (sec_count(m, l) + 1) as int));
            assert(tail[sec_count(m, l) as int] == secs[(sec_count(m, l) + 1) as int]);
        }
    }
    assert forall|l: int| 0 <= l < m.len() && (#[trigger] m[l]).1 is Object implies {
        let j = sec_count(m, l) + 1;
        let nn = m[l].1->Object_0;
        &&& ds[j as int].rows.len() == 1
        &&& ds[j as int].header.len() == nn.len() + 1
        &&& ds[j as int].rows[0].cells.len() == nn.len() + 1
        &&& ds[j as int].header[0] == crate::parser::pk_word()
        &&& forall|i: int|
            0 <= i < nn.len() ==> ds[j as int].header[i + 1] == (#[trigger] nn[i]).0 && ds[j as int].rows[0].cells[i
                + 1] == crate::readback::written_cell(nn[i].1)
    } by {
        lemma_layout_object(m, toks, l);
    }
    assert forall|l: int| 0 <= l < m.len() && (#[trigger] m[l]).1 is Array && has_section(m[l].1) implies {
        let j = sec_count(m, l) + 1;
        let a = m[l].1->Array_0;
        &&& valid_section_name(ds[j as int].name)
        &&& ds[j as int].rows.len() == a.len()
        &&& !all_objects(a) ==> ds[j as int].array
        &&& !all_objects(a) ==> forall|v: int|
            0 <= v < a.len() ==> ds[j as int].rows[v].cells == seq![crate::readback::written_cell(#[trigger] a[v])]
        &&& all_objects(a) ==> !ds[j as int].array
        &&& all_objects(a) ==> ds[j as int].header == crate::tables::full_table(a).data_columns
        &&& all_objects(a) ==> forall|r: int|
            0 <= r < a.len() ==> ds[j as int].rows[r].cells == #[trigger] crate::tables::row_cells(a, r)
    } by {
        lemma_layout_array(m, toks, l);
    }
}

/// An object whose members are scalars, objects of scalars, arrays of scalars or arrays of
/// objects of scalars, written by the encoder, is read back by the parser as the same object
/// when it is `nested_writable`, but for the members of the objects in its arrays of
/// objects, which come back in the order of their table's columns: each member object goes
/// into a section of its own, as a row with a pk that the root row refers to; each member
/// array with items goes into a section that the root row names; an empty array is written
/// as the empty-array word.
#[verifier::spinoff_prover]
#[verifier::rlimit(50)]
pub proof fn lemma_nested_object_round_trip(m: Seq<(Seq<char>, SpecJson)>)
    requires
        nested_writable(m),
    ensures
        crate::encoder::spec_encode(SpecJson::Object(m)) matches Ok(t) && crate::parser::spec_parse(t)
            == Ok::<SpecJson, crate::error::SpecError>(SpecJson::Object(read_members(m))),
        crate::json::json_equiv(SpecJson::Object(read_members(m)), SpecJson::Object(m)),
        forall|l: int|
            0 <= l < m.len() && !(m[l].1 is Array) ==> #[trigger] read_members(m)[l] == m[l],
        forall|l: int, j: int|
            0 <= l < m.len() && m[l].1 is Array && 0 <= j < m[l].1->Array_0.len() && all_objects(m[l].1->Array_0)
                ==> crate::tables::same_members(
                #[trigger] crate::tables::table_objects(m[l].1->Array_0)[j]->Object_0,
                crate::tables::members_of(#[trigger] m[l].1->Array_0[j]),
            ),
{
    lemma_nested_read_back(m);
    lemma_members_shallow(m);
    assert forall|l: int, j: int|
        0 <= l < m.len() && m[l].1 is Array && 0 <= j < m[l].1->Array_0.len() && all_objects(m[l].1->Array_0)
            implies crate::tables::same_members(
        #[trigger] crate::tables::table_objects(m[l].1->Array_0)[j]->Object_0,
        crate::tables::members_of(#[trigger] m[l].1->Array_0[j]),
    ) by {
        assert(crate::tables::table_writable(m[l].1->Array_0));
        crate::tables::lemma_objects_members(m[l].1->Array_0, j);
    }
    lemma_nested_equiv(m);
}

/// The members read back equal the written ones, up to the order of the members of the
/// objects in arrays of objects.
proof fn lemma_nested_equiv(m: Seq<(Seq<char>, SpecJson)>)
    requires
        nested_writable(m),
    ensures
        crate::json::json_equiv(SpecJson::Object(read_members(m)), SpecJson::Object(m)),
{
    let r = read_members(m);
    assert(members_ok(m));
    crate::json::lemma_obj_find(m, Seq::empty());
    assert forall|j: int| 0 <= j < m.len() implies crate::json::obj_find(r, #[trigger] m[j].0) is Some by {
        crate::json::lemma_obj_find(r, m[j].0);
        assert(r[j].0 == m[j].0);
    }
    assert forall|i: int| 0 <= i < r.len() implies match crate::json::obj_find(m, #[trigger] r[i].0) {
        Some(j) => j < m.len() && crate::json::json_equiv(r[i].1, m[j as int].1),
        None => false,
    } by {
        crate::json::lemma_obj_find(m, m[i].0);
        assert(r[i] == (m[i].0, read_member(m[i].1)));
        assert(crate::json::obj_find(m, m[i].0) == Some(i as nat));
        match m[i].1 {
            SpecJson::Object(n) => {
                assert(flat_ok(n));
                assert forall|k: int| 0 <= k < n.len() implies !((#[trigger] n[k]).1 is Object) && !(n[k].1 is Array) by {
                    assert(crate::readback::writable_scalar(n[k].1));
                }
                crate::json::lemma_equiv_refl_shallow(m[i].1);
            },
            SpecJson::Array(a) => {
                if a.len() > 0 && all_objects(a) {
                    assert(crate::tables::table_writable(a));
                    crate::tables::lemma_table_equiv(a);
                } else {
                    assert(crate::arrays::items_writable(a));
                    assert forall|k: int| 0 <= k < a.len() implies !((#[trigger] a[k]) is Object) && !(a[k] is Array) by {
                        assert(crate::readback::writable_scalar(a[k]));
                    }
                    crate::json::lemma_equiv_refl_shallow(m[i].1);
                }
            },
            _ => {},
        }
    }
}

/// Encoding then parsing gives the members as they read back.
#[verifier::spinoff_prover]
#[verifier::rlimit(50)]
proof fn lemma_nested_read_back(m: Seq<(Seq<char>, SpecJson)>)
    requires
        nested_writable(m),
    ensures
        crate::encoder::spec_encode(SpecJson::Object(m)) matches Ok(t) && crate::parser::spec_parse(t)
            == Ok::<SpecJson, crate::error::SpecError>(SpecJson::Object(read_members(m))),
{
    lemma_nested_sections(m);
    let p = crate::encoder::plan_root(SpecJson::Object(m));
    let secs = p.sections;
    let n = secs.len() as int;
    let s = crate::encoder::render(p);
    assert(secs[0].kind is Table && !is_list(secs[0]));
    let toks = lemma_nested_tokens(m);
    lemma_collect_doc(toks, secs);
    let ds = doc_secs(toks, secs, n);
    let d = SDoc { root_array: false, sections: ds };
    assert(crate::parser::spec_collect_structural(s) == (Some(d), Seq::<crate::error::SpecError>::empty()));
    lemma_nested_layout(m, toks);
    lemma_pk_sections(toks, secs, m, m.len() as int);
    assert(crate::parser::spec_pk_collect(ds) == crate::parser::pk_sections(ds, n));
    lemma_members_shallow(m);
    lemma_nested_resolve(d, m);
    crate::collection::lemma_parse_of_document(s);
}

} // verus!
