//! The rows the encoder gives a pk to get pairwise distinct pks, counted from 1.
use vstd::prelude::*;

use crate::encoder::{
    SKind, SPlan, SPlanCell, SPlanRow, SPlanSection, SRole, all_objects, build_array_item,
    build_field_cell, build_fields, build_items, build_object_items, create_array_of_objects_section,
    data_word, empty_section, get_or_create_object_section, insert_front, item_suffix, merge_into,
    merge_row, plan_init, plan_root, push_value, reserve_name, root_items, root_object_items,
    row_suffix,
};
use crate::json::SpecJson;

verus! {

/// Row `k` of section `i` exists in `p`.
pub open spec fn has_row(p: SPlan, i: int, k: int) -> bool {
    0 <= i < p.sections.len() && 0 <= k < p.sections[i].rows.len()
}

/// Every pk of a row is at least 1 and below the next pk to hand out, and no two rows
/// share a pk.
pub open spec fn pks_ok(p: SPlan) -> bool {
    &&& p.next_pk >= 1
    &&& forall|i: int, k: int|
        has_row(p, i, k) ==> (#[trigger] p.sections[i].rows[k].pk matches Some(n) ==> 1 <= n
            < p.next_pk)
    &&& forall|i: int, k: int, i2: int, k2: int|
        has_row(p, i, k) && has_row(p, i2, k2) && (i != i2 || k != k2) && p.sections[i].rows[k].pk
            is Some ==> #[trigger] p.sections[i].rows[k].pk != #[trigger] p.sections[i2].rows[k2].pk
}

/// `q` keeps the sections and rows of `p` with their pks; rows added since carry no pk, or
/// one handed out since.
pub open spec fn grows_pk(p: SPlan, q: SPlan) -> bool {
    &&& p.next_pk <= q.next_pk
    &&& p.sections.len() <= q.sections.len()
    &&& forall|i: int|
        0 <= i < p.sections.len() ==> p.sections[i].rows.len() <= #[trigger] q.sections[i].rows.len()
    &&& forall|i: int, k: int|
        has_row(q, i, k) ==> if has_row(p, i, k) {
            #[trigger] q.sections[i].rows[k].pk == p.sections[i].rows[k].pk
        } else {
            q.sections[i].rows[k].pk matches Some(n) ==> n >= p.next_pk
        }
}

proof fn lemma_grows_pk_trans(p: SPlan, q: SPlan, t: SPlan)
    requires
        grows_pk(p, q),
        grows_pk(q, t),
    ensures
        grows_pk(p, t),
{
    assert forall|i: int, k: int| has_row(t, i, k) implies if has_row(p, i, k) {
        #[trigger] t.sections[i].rows[k].pk == p.sections[i].rows[k].pk
    } else {
        t.sections[i].rows[k].pk matches Some(n) ==> n >= p.next_pk
    } by {
        if has_row(p, i, k) {
            assert(q.sections[i].rows.len() >= p.sections[i].rows.len());
            assert(has_row(q, i, k));
            assert(q.sections[i].rows[k].pk == p.sections[i].rows[k].pk);
        } else if has_row(q, i, k) {
            assert(t.sections[i].rows[k].pk == q.sections[i].rows[k].pk);
        }
    }
    assert forall|i: int| 0 <= i < p.sections.len() implies p.sections[i].rows.len()
        <= #[trigger] t.sections[i].rows.len() by {
        assert(q.sections[i].rows.len() >= p.sections[i].rows.len());
    }
}

/// A new section, with no rows.
proof fn lemma_push_section(p: SPlan, sec: SPlanSection)
    requires
        pks_ok(p),
        sec.rows.len() == 0,
    ensures
        pks_ok(SPlan { sections: p.sections.push(sec), ..p }),
        grows_pk(p, SPlan { sections: p.sections.push(sec), ..p }),
{
    let q = SPlan { sections: p.sections.push(sec), ..p };
    assert forall|i: int, k: int| has_row(q, i, k) implies has_row(p, i, k) && #[trigger] q.sections[i].rows[k]
        == p.sections[i].rows[k] by {
        assert(q.sections[i] == p.sections[i]);
    }
    assert forall|i: int| 0 <= i < p.sections.len() implies p.sections[i].rows.len()
        <= #[trigger] q.sections[i].rows.len() by {
        assert(q.sections[i] == p.sections[i]);
    }
}

/// Changing section `idx` without touching its rows.
proof fn lemma_same_rows(p: SPlan, idx: nat, sec: SPlanSection)
    requires
        pks_ok(p),
        idx < p.sections.len(),
        sec.rows == p.sections[idx as int].rows,
    ensures
        pks_ok(SPlan { sections: p.sections.update(idx as int, sec), ..p }),
        grows_pk(p, SPlan { sections: p.sections.update(idx as int, sec), ..p }),
{
    let q = SPlan { sections: p.sections.update(idx as int, sec), ..p };
    assert forall|i: int| 0 <= i < q.sections.len() implies #[trigger] q.sections[i].rows == p.sections[i].rows by {}
    assert forall|i: int, k: int| has_row(q, i, k) implies has_row(p, i, k) && #[trigger] q.sections[i].rows[k]
        == p.sections[i].rows[k] by {
        assert(q.sections[i].rows == p.sections[i].rows);
    }
}

/// Appending `row` to section `idx`: old rows keep their pks; the one new row is `row`.
proof fn lemma_merge(p: SPlan, idx: nat, row: SPlanRow)
    requires
        idx < p.sections.len(),
    ensures
        ({
            let q = merge_into(p, idx, row);
            &&& q.next_pk == p.next_pk
            &&& q.sections.len() == p.sections.len()
            &&& forall|i: int|
                0 <= i < p.sections.len() ==> p.sections[i].rows.len() <= #[trigger] q.sections[i].rows.len()
            &&& forall|i: int, k: int|
                has_row(q, i, k) ==> if has_row(p, i, k) {
                    #[trigger] q.sections[i].rows[k] == p.sections[i].rows[k]
                } else {
                    i == idx && k == p.sections[idx as int].rows.len() && q.sections[i].rows[k] == row
                }
        }),
{
    let q = merge_into(p, idx, row);
    assert forall|i: int| 0 <= i < p.sections.len() implies p.sections[i].rows.len()
        <= #[trigger] q.sections[i].rows.len() by {
        if i == idx {
            assert(q.sections[i].rows == p.sections[i].rows.push(row));
        }
    }
    assert forall|i: int, k: int| has_row(q, i, k) implies if has_row(p, i, k) {
        #[trigger] q.sections[i].rows[k] == p.sections[i].rows[k]
    } else {
        i == idx && k == p.sections[idx as int].rows.len() && q.sections[i].rows[k] == row
    } by {
        if i == idx {
            assert(q.sections[i].rows == p.sections[i].rows.push(row));
        } else {
            assert(q.sections[i] == p.sections[i]);
        }
    }
}

/// Appending a row without a pk.
proof fn lemma_merge_plain(p: SPlan, idx: nat, fields: Seq<(Seq<char>, SPlanCell)>)
    requires
        pks_ok(p),
        idx < p.sections.len(),
    ensures
        pks_ok(merge_into(p, idx, SPlanRow { pk: None, fields })),
        grows_pk(p, merge_into(p, idx, SPlanRow { pk: None, fields })),
{
    let row = SPlanRow { pk: None, fields };
    lemma_merge(p, idx, row);
    let q = merge_into(p, idx, row);
    assert forall|i: int, k: int, i2: int, k2: int|
        has_row(q, i, k) && has_row(q, i2, k2) && (i != i2 || k != k2) && q.sections[i].rows[k].pk
            is Some implies #[trigger] q.sections[i].rows[k].pk != #[trigger] q.sections[i2].rows[k2].pk by {
        if has_row(p, i, k) && has_row(p, i2, k2) {
            assert(q.sections[i].rows[k] == p.sections[i].rows[k]);
            assert(q.sections[i2].rows[k2] == p.sections[i2].rows[k2]);
        }
    }
    assert forall|i: int, k: int| has_row(q, i, k) implies (#[trigger] q.sections[i].rows[k].pk matches Some(
        n,
    ) ==> 1 <= n < q.next_pk) by {
        if has_row(p, i, k) {
            assert(q.sections[i].rows[k] == p.sections[i].rows[k]);
        }
    }
}

/// Appending the row of a nested object, whose pk `n0` was handed out before the rows
/// added since `p`.
proof fn lemma_merge_nested(p: SPlan, p3: SPlan, idx: nat, n0: nat, fields: Seq<(Seq<char>, SPlanCell)>)
    requires
        pks_ok(p),
        p.next_pk == n0,
        pks_ok(p3),
        grows_pk(SPlan { next_pk: n0 + 1, ..p }, p3),
        idx < p3.sections.len(),
    ensures
        pks_ok(merge_into(p3, idx, SPlanRow { pk: Some(n0), fields })),
        grows_pk(p, merge_into(p3, idx, SPlanRow { pk: Some(n0), fields })),
{
    let p1 = SPlan { next_pk: n0 + 1, ..p };
    let row = SPlanRow { pk: Some(n0), fields };
    lemma_merge(p3, idx, row);
    let q = merge_into(p3, idx, row);
    // every row of p3 has a pk other than n0
    assert forall|i: int, k: int| has_row(p3, i, k) implies #[trigger] p3.sections[i].rows[k].pk != Some(
        n0,
    ) by {
        if has_row(p1, i, k) {
            assert(p3.sections[i].rows[k].pk == p1.sections[i].rows[k].pk);
            assert(p1.sections[i] == p.sections[i]);
            assert(has_row(p, i, k));
        }
    }
    assert forall|i: int, k: int, i2: int, k2: int|
        has_row(q, i, k) && has_row(q, i2, k2) && (i != i2 || k != k2) && q.sections[i].rows[k].pk
            is Some implies #[trigger] q.sections[i].rows[k].pk != #[trigger] q.sections[i2].rows[k2].pk by {
        if has_row(p3, i, k) && has_row(p3, i2, k2) {
            assert(q.sections[i].rows[k] == p3.sections[i].rows[k]);
            assert(q.sections[i2].rows[k2] == p3.sections[i2].rows[k2]);
        } else if has_row(p3, i, k) {
            assert(q.sections[i].rows[k] == p3.sections[i].rows[k]);
        } else if has_row(p3, i2, k2) {
            assert(q.sections[i2].rows[k2] == p3.sections[i2].rows[k2]);
        }
    }
    assert forall|i: int, k: int| has_row(q, i, k) implies (#[trigger] q.sections[i].rows[k].pk matches Some(
        n,
    ) ==> 1 <= n < q.next_pk) by {
        if has_row(p3, i, k) {
            assert(q.sections[i].rows[k] == p3.sections[i].rows[k]);
        }
    }
    assert forall|i: int, k: int| has_row(q, i, k) implies if has_row(p, i, k) {
        #[trigger] q.sections[i].rows[k].pk == p.sections[i].rows[k].pk
    } else {
        q.sections[i].rows[k].pk matches Some(n) ==> n >= p.next_pk
    } by {
        if has_row(p3, i, k) {
            assert(q.sections[i].rows[k] == p3.sections[i].rows[k]);
            if has_row(p, i, k) {
                assert(p1.sections[i] == p.sections[i]);
                assert(has_row(p1, i, k));
            }
        }
    }
    assert forall|i: int| 0 <= i < p.sections.len() implies p.sections[i].rows.len()
        <= #[trigger] q.sections[i].rows.len() by {
        assert(p1.sections[i] == p.sections[i]);
        assert(p3.sections[i].rows.len() >= p1.sections[i].rows.len());
    }
}

// ---------------------------------------------------------------------------
// Planning hands out fresh pks
// ---------------------------------------------------------------------------

proof fn lemma_pk_object_section(p: SPlan, key: Seq<char>)
    requires
        pks_ok(p),
    ensures
        pks_ok(get_or_create_object_section(p, key).0),
        grows_pk(p, get_or_create_object_section(p, key).0),
        get_or_create_object_section(p, key).1 < get_or_create_object_section(p, key).0.sections.len(),
        get_or_create_object_section(p, key).0.next_pk == p.next_pk,
{
    match crate::encoder::key_lookup(p.by_key, key) {
        Some(idx) if idx < p.sections.len() && p.sections[idx as int].role is Object => {},
        _ => {
            let (p1, name) = reserve_name(p, key);
            lemma_push_section(p1, empty_section(name, SKind::Table, SRole::Object, true));
        },
    }
}

proof fn lemma_pk_fields(p: SPlan, members: Seq<(Seq<char>, SpecJson)>, i: int, fields: Seq<(Seq<char>, SPlanCell)>)
    requires
        pks_ok(p),
    ensures
        pks_ok(build_fields(p, members, i, fields).0),
        grows_pk(p, build_fields(p, members, i, fields).0),
    decreases members, members.len() - i,
{
    if 0 <= i < members.len() {
        assert(decreases_to!(members => members[i]));
        assert(decreases_to!(members[i] => members[i].1));
        lemma_pk_field_cell(p, members[i].1, members[i].0);
        let (p1, c) = build_field_cell(p, members[i].1, members[i].0);
        lemma_pk_fields(p1, members, i + 1, fields.push((members[i].0, c)));
        lemma_grows_pk_trans(p, p1, build_fields(p1, members, i + 1, fields.push((members[i].0, c))).0);
    }
}

proof fn lemma_pk_nested_object(p: SPlan, obj: Seq<(Seq<char>, SpecJson)>, key: Seq<char>)
    requires
        pks_ok(p),
    ensures
        ({
            let pk = p.next_pk;
            let p1 = SPlan { next_pk: pk + 1, ..p };
            let (p2, idx) = get_or_create_object_section(p1, key);
            let (p3, fields) = build_fields(p2, obj, 0, Seq::empty());
            let q = merge_into(p3, idx, SPlanRow { pk: Some(pk), fields });
            pks_ok(q) && grows_pk(p, q)
        }),
    decreases obj, obj.len() + 1,
{
    let pk = p.next_pk;
    let p1 = SPlan { next_pk: pk + 1, ..p };
    assert(pks_ok(p1));
    lemma_pk_object_section(p1, key);
    let (p2, idx) = get_or_create_object_section(p1, key);
    lemma_pk_fields(p2, obj, 0, Seq::empty());
    let (p3, fields) = build_fields(p2, obj, 0, Seq::empty());
    lemma_grows_pk_trans(p1, p2, p3);
    lemma_merge_nested(p, p3, idx, pk, fields);
}

/// Numbering the rows of a table made since `p0` keeps the pks distinct and fresh.
proof fn lemma_pk_guard(p0: SPlan, p: SPlan, idx: nat)
    requires
        pks_ok(p),
        grows_pk(p0, p),
        p0.sections.len() <= idx < p.sections.len(),
    ensures
        pks_ok(crate::encoder::guard_section(p, idx)),
        grows_pk(p0, crate::encoder::guard_section(p, idx)),
{
    reveal(crate::encoder::guard_pk);
    let q = crate::encoder::guard_section(p, idx);
    let sec = p.sections[idx as int];
    if crate::encoder::pk_first(sec) {
        let n = sec.rows.len() as int;
        assert(q.sections.len() == p.sections.len());
        assert(q.next_pk == p.next_pk + n);
        assert forall|i: int| 0 <= i < q.sections.len() && i != idx implies #[trigger] q.sections[i] == p.sections[i] by {}
        assert(q.sections[idx as int].rows.len() == n);
        assert forall|k: int| 0 <= k < n implies #[trigger] q.sections[idx as int].rows[k].pk == Some((p.next_pk + k) as nat) by {}
        assert forall|i: int, k: int| has_row(q, i, k) implies (#[trigger] q.sections[i].rows[k].pk matches Some(
            m,
        ) ==> 1 <= m < q.next_pk) by {
            if i == idx {
                assert(q.sections[i].rows[k].pk == Some((p.next_pk + k) as nat));
            } else {
                assert(q.sections[i] == p.sections[i]);
                assert(has_row(p, i, k));
            }
        }
        assert forall|i: int, k: int, i2: int, k2: int|
            has_row(q, i, k) && has_row(q, i2, k2) && (i != i2 || k != k2) && q.sections[i].rows[k].pk
                is Some implies #[trigger] q.sections[i].rows[k].pk != #[trigger] q.sections[i2].rows[k2].pk by {
            if i == idx {
                assert(q.sections[i].rows[k].pk == Some((p.next_pk + k) as nat));
            } else {
                assert(q.sections[i] == p.sections[i]);
                assert(has_row(p, i, k));
            }
            if i2 == idx {
                assert(q.sections[i2].rows[k2].pk == Some((p.next_pk + k2) as nat));
            } else {
                assert(q.sections[i2] == p.sections[i2]);
                assert(has_row(p, i2, k2));
            }
            if i != idx && i2 != idx {
                assert(p.sections[i].rows[k].pk != p.sections[i2].rows[k2].pk);
            }
        }
        assert forall|i: int, k: int| has_row(q, i, k) implies if has_row(p0, i, k) {
            #[trigger] q.sections[i].rows[k].pk == p0.sections[i].rows[k].pk
        } else {
            q.sections[i].rows[k].pk matches Some(m) ==> m >= p0.next_pk
        } by {
            if i == idx {
                assert(q.sections[i].rows[k].pk == Some((p.next_pk + k) as nat));
            } else {
                assert(q.sections[i] == p.sections[i]);
                assert(has_row(p, i, k));
            }
        }
        assert forall|i: int| 0 <= i < p0.sections.len() implies p0.sections[i].rows.len()
            <= #[trigger] q.sections[i].rows.len() by {
            assert(q.sections[i] == p.sections[i]);
        }
    } else {
        assert(q.sections =~= p.sections);
    }
}

proof fn lemma_pk_field_cell(p: SPlan, v: SpecJson, key: Seq<char>)
    requires
        pks_ok(p),
    ensures
        pks_ok(build_field_cell(p, v, key).0),
        grows_pk(p, build_field_cell(p, v, key).0),
    decreases v, 0int,
{
    match v {
        SpecJson::Object(obj) => {
            lemma_pk_nested_object(p, obj, key);
        },
        SpecJson::Array(arr) => {
            if arr.len() == 0 {
            } else if all_objects(arr) {
                let (p1, idx) = create_array_of_objects_section(p, key);
                let (pr, name) = reserve_name(p, key);
                lemma_push_section(pr, empty_section(name, SKind::Table, SRole::ArrayOfObjects, false));
                lemma_pk_object_items(p1, arr, 0, idx);
                lemma_grows_pk_trans(p, p1, build_object_items(p1, arr, 0, idx));
                lemma_pk_guard(p, build_object_items(p1, arr, 0, idx), idx);
            } else {
                let (p1, name) = reserve_name(p, key);
                let idx = p1.sections.len();
                let p2 = SPlan {
                    sections: p1.sections.push(empty_section(name, SKind::Array, SRole::PrimitiveArray, false)),
                    ..p1
                };
                lemma_push_section(p1, empty_section(name, SKind::Array, SRole::PrimitiveArray, false));
                lemma_pk_items(p2, arr, 0, idx, name);
                lemma_grows_pk_trans(p, p2, build_items(p2, arr, 0, idx, name));
            }
        },
        _ => {},
    }
}

proof fn lemma_pk_object_items(p: SPlan, arr: Seq<SpecJson>, j: int, idx: nat)
    requires
        pks_ok(p),
        idx < p.sections.len(),
    ensures
        pks_ok(build_object_items(p, arr, j, idx)),
        grows_pk(p, build_object_items(p, arr, j, idx)),
    decreases arr, arr.len() - j,
{
    if 0 <= j < arr.len() {
        match arr[j] {
            SpecJson::Object(obj) => {
                assert(decreases_to!(arr => arr[j]));
                lemma_pk_fields(p, obj, 0, Seq::empty());
                let (p1, fields) = build_fields(p, obj, 0, Seq::empty());
                lemma_merge_plain(p1, idx, fields);
                let p2 = merge_into(p1, idx, SPlanRow { pk: None, fields });
                lemma_pk_object_items(p2, arr, j + 1, idx);
                lemma_grows_pk_trans(p, p1, p2);
                lemma_grows_pk_trans(p, p2, build_object_items(p2, arr, j + 1, idx));
            },
            _ => {
                lemma_pk_object_items(p, arr, j + 1, idx);
            },
        }
    }
}

proof fn lemma_pk_items(p: SPlan, arr: Seq<SpecJson>, j: int, idx: nat, base: Seq<char>)
    requires
        pks_ok(p),
        idx < p.sections.len(),
    ensures
        pks_ok(build_items(p, arr, j, idx, base)),
        grows_pk(p, build_items(p, arr, j, idx, base)),
    decreases arr, arr.len() - j,
{
    if 0 <= j < arr.len() {
        assert(decreases_to!(arr => arr[j]));
        lemma_pk_array_item(p, arr[j], base);
        let (p1, c) = build_array_item(p, arr[j], base);
        let sec = p1.sections[idx as int];
        lemma_same_rows(p1, idx, SPlanSection { values: sec.values.push(c), ..sec });
        let p2 = push_value(p1, idx, c);
        lemma_pk_items(p2, arr, j + 1, idx, base);
        lemma_grows_pk_trans(p, p1, p2);
        lemma_grows_pk_trans(p, p2, build_items(p2, arr, j + 1, idx, base));
    }
}

proof fn lemma_pk_array_item(p: SPlan, v: SpecJson, base: Seq<char>)
    requires
        pks_ok(p),
    ensures
        pks_ok(build_array_item(p, v, base).0),
        grows_pk(p, build_array_item(p, v, base).0),
    decreases v, 0int,
{
    match v {
        SpecJson::Object(obj) => {
            lemma_pk_nested_object(p, obj, base + item_suffix());
        },
        SpecJson::Array(arr) => {
            if arr.len() == 0 {
            } else {
                let (p1, name) = reserve_name(p, base + row_suffix());
                let idx = p1.sections.len();
                if all_objects(arr) {
                    let sec = empty_section(name, SKind::Table, SRole::ArrayOfObjects, false);
                    let p2 = SPlan { sections: p1.sections.push(sec), ..p1 };
                    lemma_push_section(p1, sec);
                    lemma_pk_object_items(p2, arr, 0, idx);
                    lemma_grows_pk_trans(p, p2, build_object_items(p2, arr, 0, idx));
                    lemma_pk_guard(p, build_object_items(p2, arr, 0, idx), idx);
                } else {
                    let sec = empty_section(name, SKind::Array, SRole::PrimitiveArray, false);
                    let p2 = SPlan { sections: p1.sections.push(sec), ..p1 };
                    lemma_push_section(p1, sec);
                    lemma_pk_items(p2, arr, 0, idx, name);
                    lemma_grows_pk_trans(p, p2, build_items(p2, arr, 0, idx, name));
                }
            }
        },
        _ => {},
    }
}

// ---------------------------------------------------------------------------
// The whole plan
// ---------------------------------------------------------------------------

/// No row of `sec` carries a pk.
spec fn no_pks(sec: SPlanSection) -> bool {
    forall|k: int| 0 <= k < sec.rows.len() ==> #[trigger] sec.rows[k].pk is None
}

proof fn lemma_insert_front_pks(p: SPlan, sec: SPlanSection)
    requires
        pks_ok(p),
        no_pks(sec),
    ensures
        pks_ok(insert_front(p, sec)),
{
    let q = insert_front(p, sec);
    assert forall|i: int, k: int| has_row(q, i, k) && i > 0 implies has_row(p, i - 1, k)
        && #[trigger] q.sections[i].rows[k] == p.sections[i - 1].rows[k] by {
        assert(q.sections[i] == p.sections[i - 1]);
    }
    assert forall|i: int, k: int| has_row(q, i, k) implies (#[trigger] q.sections[i].rows[k].pk matches Some(
        n,
    ) ==> 1 <= n < q.next_pk) by {
        if i == 0 {
            assert(q.sections[0] == sec);
        }
    }
    assert forall|i: int, k: int, i2: int, k2: int|
        has_row(q, i, k) && has_row(q, i2, k2) && (i != i2 || k != k2) && q.sections[i].rows[k].pk
            is Some implies #[trigger] q.sections[i].rows[k].pk != #[trigger] q.sections[i2].rows[k2].pk by {
        assert(q.sections[0] == sec);
        if i > 0 && i2 > 0 {
            assert(q.sections[i].rows[k] == p.sections[i - 1].rows[k]);
            assert(q.sections[i2].rows[k2] == p.sections[i2 - 1].rows[k2]);
        }
    }
}

/// Placing a table at the front after `guard_pk` keeps the pks distinct: the rows it
/// numbers get pks from the next one on.
proof fn lemma_insert_guarded_pks(p: SPlan, sec: SPlanSection)
    requires
        pks_ok(p),
        no_pks(sec),
    ensures
        pks_ok(insert_front(crate::encoder::guard_pk(p, sec).0, crate::encoder::guard_pk(p, sec).1)),
{
    reveal(crate::encoder::guard_pk);
    if !crate::encoder::pk_first(sec) {
        lemma_insert_front_pks(p, sec);
    } else {
        let (p2, s2) = crate::encoder::guard_pk(p, sec);
        let q = insert_front(p2, s2);
        let n = sec.rows.len() as int;
        assert(q.sections[0] == s2);
        assert(q.next_pk == p.next_pk + n);
        assert forall|i: int, k: int| has_row(q, i, k) && i > 0 implies has_row(p, i - 1, k)
            && #[trigger] q.sections[i].rows[k] == p.sections[i - 1].rows[k] by {
            assert(q.sections[i] == p.sections[i - 1]);
        }
        assert forall|k: int| 0 <= k < n implies #[trigger] s2.rows[k].pk == Some((p.next_pk + k) as nat) by {}
        assert forall|i: int, k: int| has_row(q, i, k) implies (#[trigger] q.sections[i].rows[k].pk matches Some(
            m,
        ) ==> 1 <= m < q.next_pk) by {
            if i == 0 {
                assert(q.sections[0].rows[k].pk == Some((p.next_pk + k) as nat));
            } else {
                assert(q.sections[i].rows[k] == p.sections[i - 1].rows[k]);
            }
        }
        assert forall|i: int, k: int, i2: int, k2: int|
            has_row(q, i, k) && has_row(q, i2, k2) && (i != i2 || k != k2) && q.sections[i].rows[k].pk
                is Some implies #[trigger] q.sections[i].rows[k].pk != #[trigger] q.sections[i2].rows[k2].pk by {
            if i == 0 {
                assert(q.sections[0].rows[k].pk == Some((p.next_pk + k) as nat));
            } else {
                assert(q.sections[i].rows[k] == p.sections[i - 1].rows[k]);
            }
            if i2 == 0 {
                assert(q.sections[0].rows[k2].pk == Some((p.next_pk + k2) as nat));
            } else {
                assert(q.sections[i2].rows[k2] == p.sections[i2 - 1].rows[k2]);
            }
        }
    }
}

proof fn lemma_pk_root_object_items(p: SPlan, arr: Seq<SpecJson>, j: int, sec: SPlanSection)
    requires
        pks_ok(p),
        no_pks(sec),
    ensures
        pks_ok(root_object_items(p, arr, j, sec)),
    decreases arr.len() - j,
{
    if j < 0 || j >= arr.len() {
        lemma_insert_guarded_pks(p, sec);
    } else {
        match arr[j] {
            SpecJson::Object(obj) => {
                lemma_pk_fields(p, obj, 0, Seq::empty());
                let (p1, fields) = build_fields(p, obj, 0, Seq::empty());
                let sec2 = merge_row(sec, SPlanRow { pk: None, fields });
                assert(no_pks(sec2)) by {
                    assert forall|k: int| 0 <= k < sec2.rows.len() implies #[trigger] sec2.rows[k].pk is None by {
                        if k < sec.rows.len() {
                            assert(sec2.rows[k] == sec.rows[k]);
                        }
                    }
                }
                lemma_pk_root_object_items(p1, arr, j + 1, sec2);
            },
            _ => {
                lemma_pk_root_object_items(p, arr, j + 1, sec);
            },
        }
    }
}

proof fn lemma_pk_root_items(p: SPlan, arr: Seq<SpecJson>, j: int, sec: SPlanSection, base: Seq<char>)
    requires
        pks_ok(p),
        no_pks(sec),
    ensures
        pks_ok(root_items(p, arr, j, sec, base)),
    decreases arr.len() - j,
{
    if j < 0 || j >= arr.len() {
        lemma_insert_front_pks(p, sec);
    } else {
        lemma_pk_array_item(p, arr[j], base);
        let (p1, c) = build_array_item(p, arr[j], base);
        lemma_pk_root_items(p1, arr, j + 1, SPlanSection { values: sec.values.push(c), ..sec }, base);
    }
}

/// The encoder numbers the rows of nested objects from 1 and never gives two rows the same
/// pk: every pk it writes is at least 1 and below the next one it would hand out.
pub proof fn lemma_pks_distinct(v: SpecJson)
    ensures
        pks_ok(plan_root(v)),
{
    let (p0, r) = reserve_name(plan_init(), data_word());
    assert(pks_ok(p0));
    match v {
        SpecJson::Object(obj) => {
            let p1 = SPlan { root_array: false, ..p0 };
            lemma_pk_fields(p1, obj, 0, Seq::empty());
            let (p2, fields) = build_fields(p1, obj, 0, Seq::empty());
            reveal(crate::encoder::guard_pk);
            let sec = merge_row(empty_section(r, SKind::Table, SRole::Root, false), SPlanRow { pk: None, fields });
            assert(sec.rows =~= seq![SPlanRow { pk: None, fields }]);
            lemma_insert_front_pks(p2, sec);
        },
        SpecJson::Array(arr) => {
            let p1 = SPlan { root_array: true, ..p0 };
            if arr.len() > 0 && all_objects(arr) {
                lemma_pk_root_object_items(p1, arr, 0, empty_section(r, SKind::Table, SRole::ArrayOfObjects, false));
            } else {
                lemma_pk_root_items(p1, arr, 0, empty_section(r, SKind::Array, SRole::PrimitiveArray, false), r);
            }
        },
        _ => {},
    }
}


// ---------------------------------------------------------------------------
// References to rows
// ---------------------------------------------------------------------------

/// The names of some fields.
pub open spec fn field_names(f: Seq<(Seq<char>, SPlanCell)>) -> Seq<Seq<char>> {
    f.map_values(|x: (Seq<char>, SPlanCell)| x.0)
}

/// The names of some members.
pub open spec fn member_names(m: Seq<(Seq<char>, SpecJson)>) -> Seq<Seq<char>> {
    m.map_values(|x: (Seq<char>, SpecJson)| x.0)
}

proof fn lemma_fields_names(p: SPlan, m: Seq<(Seq<char>, SpecJson)>, i: int, f: Seq<(Seq<char>, SPlanCell)>)
    requires
        0 <= i <= m.len(),
    ensures
        field_names(build_fields(p, m, i, f).1) == field_names(f) + member_names(m).subrange(i, m.len() as int),
    decreases m.len() - i,
{
    if i < m.len() {
        let (p1, c) = build_field_cell(p, m[i].1, m[i].0);
        lemma_fields_names(p1, m, i + 1, f.push((m[i].0, c)));
        assert(field_names(f.push((m[i].0, c))) + member_names(m).subrange(i + 1, m.len() as int)
            =~= field_names(f) + member_names(m).subrange(i, m.len() as int));
    } else {
        assert(field_names(f) + member_names(m).subrange(i, m.len() as int) =~= field_names(f));
    }
}

/// A row with pk `n` holding fields named as the members of `obj`.
pub open spec fn names_row(q: SPlan, n: nat, obj: Seq<(Seq<char>, SpecJson)>) -> bool {
    exists|i: int, k: int|
        has_row(q, i, k) && #[trigger] q.sections[i].rows[k].pk == Some(n) && field_names(
            q.sections[i].rows[k].fields,
        ) == member_names(obj)
}

proof fn lemma_nested_row(p: SPlan, obj: Seq<(Seq<char>, SpecJson)>, key: Seq<char>)
    ensures
        ({
            let pk = p.next_pk;
            let p1 = SPlan { next_pk: pk + 1, ..p };
            let (p2, idx) = get_or_create_object_section(p1, key);
            let (p3, fields) = build_fields(p2, obj, 0, Seq::empty());
            names_row(merge_into(p3, idx, SPlanRow { pk: Some(pk), fields }), pk, obj)
        }),
{
    let pk = p.next_pk;
    let p1 = SPlan { next_pk: pk + 1, ..p };
    crate::encoder::lemma_keeps_object_section(p1, key);
    let (p2, idx) = get_or_create_object_section(p1, key);
    crate::encoder::lemma_keeps_fields(p2, obj, 0, Seq::empty());
    lemma_fields_names(p2, obj, 0, Seq::empty());
    let (p3, fields) = build_fields(p2, obj, 0, Seq::empty());
    assert(field_names(Seq::<(Seq<char>, SPlanCell)>::empty()) + member_names(obj).subrange(0, obj.len() as int)
        =~= member_names(obj));
    let row = SPlanRow { pk: Some(pk), fields };
    let q = merge_into(p3, idx, row);
    let k = p3.sections[idx as int].rows.len() as int;
    assert(idx < p2.sections.len());
    assert(p2.sections.len() <= p3.sections.len());
    assert(q.sections[idx as int].rows == p3.sections[idx as int].rows.push(row));
    assert(q.sections[idx as int].rows[k] == row);
    assert(has_row(q, idx as int, k));
    assert(q.sections[idx as int].rows[k].pk == Some(pk));
    assert(field_names(q.sections[idx as int].rows[k].fields) == member_names(obj));
}

/// An object member is written as a reference to a row of the plan whose fields are named
/// as the object's members; with the plan's pks distinct before, they stay distinct, so
/// that row is the only one the reference names.
pub proof fn lemma_member_object_ref(p: SPlan, obj: Seq<(Seq<char>, SpecJson)>, key: Seq<char>)
    ensures
        build_field_cell(p, SpecJson::Object(obj), key).1 matches SPlanCell::RowRef(n) && names_row(
            build_field_cell(p, SpecJson::Object(obj), key).0,
            n,
            obj,
        ),
        pks_ok(p) ==> pks_ok(build_field_cell(p, SpecJson::Object(obj), key).0),
{
    lemma_nested_row(p, obj, key);
    if pks_ok(p) {
        lemma_pk_field_cell(p, SpecJson::Object(obj), key);
    }
}

/// An object item of an array is written as a reference to a row of the plan whose fields
/// are named as the object's members; with the plan's pks distinct before, they stay
/// distinct, so that row is the only one the reference names.
pub proof fn lemma_item_object_ref(p: SPlan, obj: Seq<(Seq<char>, SpecJson)>, base: Seq<char>)
    ensures
        build_array_item(p, SpecJson::Object(obj), base).1 matches SPlanCell::RowRef(n) && names_row(
            build_array_item(p, SpecJson::Object(obj), base).0,
            n,
            obj,
        ),
        pks_ok(p) ==> pks_ok(build_array_item(p, SpecJson::Object(obj), base).0),
{
    lemma_nested_row(p, obj, base + item_suffix());
    if pks_ok(p) {
        lemma_pk_array_item(p, SpecJson::Object(obj), base);
    }
}

} // verus!
