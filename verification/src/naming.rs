//! The sections the encoder plans have distinct, valid names.
use vstd::prelude::*;

use crate::encoder::{
    SKind, SPlan, SPlanCell, SPlanRow, SPlanSection, SRole, all_objects, build_array_item,
    build_field_cell, build_fields, build_items, build_object_items, candidate, data_word,
    empty_section, first_free, get_or_create_object_section, create_array_of_objects_section,
    insert_front, item_suffix, merge_into, merge_row, plan_init, plan_root, push_value,
    reserve_name, root_items, root_object_items, row_suffix, sanitise,
};
use crate::json::SpecJson;
use crate::lexer::{is_name_char, valid_section_name};

verus! {

// ---------------------------------------------------------------------------
// Reserving a name
// ---------------------------------------------------------------------------

proof fn lemma_sanitise_valid(s: Seq<char>)
    ensures
        valid_section_name(sanitise(s)),
{
    let t = sanitise(s);
    assert forall|i: int| 1 <= i < t.len() implies #[trigger] is_name_char(t[i]) by {}
}

proof fn lemma_candidate_valid(s: Seq<char>, n: nat)
    requires
        valid_section_name(s),
    ensures
        valid_section_name(candidate(s, n)),
{
    let c = candidate(s, n);
    crate::text::lemma_dec_value(n);
    assert forall|i: int| 1 <= i < c.len() implies #[trigger] is_name_char(c[i]) by {
        if i < s.len() {
            assert(c[i] == s[i]);
        } else if i > s.len() {
            assert(c[i] == crate::text::dec(n)[i - s.len() - 1]);
        }
    }
}

/// The first free suffix from `n` on gives an unused name, while all suffixes before `n`
/// are used.
proof fn lemma_first_free_unused(used: Seq<Seq<char>>, s: Seq<char>, n: nat)
    requires
        n >= 2,
        used.contains(s),
        forall|m: nat| 2 <= m < n ==> used.contains(#[trigger] candidate(s, m)),
    ensures
        !used.contains(candidate(s, first_free(used, s, n))),
    decreases used.len() + 2 - n,
{
    if n >= used.len() + 2 {
        if n - 1 >= 2 {
            crate::encoder::lemma_candidates_bound(used, s, (n - 1) as nat);
        }
    } else if used.contains(candidate(s, n)) {
        lemma_first_free_unused(used, s, n + 1);
    }
}

/// Names of a plan: every used name is valid and used once; `r` (the root section's name)
/// is used; each section's name is used, differs from `r` and from the other sections'.
pub open spec fn names_ok(p: SPlan, r: Seq<char>) -> bool {
    &&& p.used.no_duplicates()
    &&& p.used.contains(r)
    &&& forall|k: int| 0 <= k < p.used.len() ==> valid_section_name(#[trigger] p.used[k])
    &&& forall|i: int|
        0 <= i < p.sections.len() ==> p.used.contains(#[trigger] p.sections[i].name)
            && p.sections[i].name != r
    &&& forall|i: int, j: int|
        0 <= i < j < p.sections.len() ==> p.sections[i].name != p.sections[j].name
}

/// The sections of `q` extend those of `p`, with the same names.
pub open spec fn grows(p: SPlan, q: SPlan) -> bool {
    &&& p.sections.len() <= q.sections.len()
    &&& forall|i: int| 0 <= i < p.sections.len() ==> #[trigger] q.sections[i].name == p.sections[i].name
}

proof fn lemma_reserve(p: SPlan, base: Seq<char>, r: Seq<char>)
    requires
        names_ok(p, r),
    ensures
        ({
            let (p1, name) = reserve_name(p, base);
            &&& !p.used.contains(name)
            &&& valid_section_name(name)
            &&& names_ok(p1, r)
            &&& p1.sections == p.sections
            &&& p1.used == p.used.push(name)
        }),
{
    let s = sanitise(base);
    lemma_sanitise_valid(base);
    let (p1, name) = reserve_name(p, base);
    if p.used.contains(s) {
        lemma_first_free_unused(p.used, s, 2);
        lemma_candidate_valid(s, first_free(p.used, s, 2));
    }
    assert(p1.used.no_duplicates()) by {
        assert forall|i: int, j: int| 0 <= i < p1.used.len() && 0 <= j < p1.used.len() && i != j implies p1.used[i]
            != p1.used[j] by {
            if i == p.used.len() {
                assert(p.used.contains(p1.used[j]) ==> p1.used[j] != name);
                assert(p1.used[j] == p.used[j]);
            } else if j == p.used.len() {
                assert(p1.used[i] == p.used[i]);
            } else {
                assert(p1.used[i] == p.used[i]);
                assert(p1.used[j] == p.used[j]);
            }
        }
    }
    assert forall|k: int| 0 <= k < p1.used.len() implies valid_section_name(#[trigger] p1.used[k]) by {
        if k < p.used.len() {
            assert(p1.used[k] == p.used[k]);
        }
    }
    assert(p1.used.contains(r)) by {
        let k = choose|k: int| 0 <= k < p.used.len() && p.used[k] == r;
        assert(p1.used[k] == r);
    }
    assert forall|i: int| 0 <= i < p1.sections.len() implies p1.used.contains(#[trigger] p1.sections[i].name)
        && p1.sections[i].name != r by {
        let k = choose|k: int| 0 <= k < p.used.len() && p.used[k] == p.sections[i].name;
        assert(p1.used[k] == p.used[k]);
    }
}

/// Reserving a name and adding a section with it.
proof fn lemma_reserve_push(p: SPlan, base: Seq<char>, r: Seq<char>, kind: SKind, role: SRole, has_pk: bool)
    requires
        names_ok(p, r),
    ensures
        ({
            let (p1, name) = reserve_name(p, base);
            let p2 = SPlan { sections: p1.sections.push(empty_section(name, kind, role, has_pk)), ..p1 };
            names_ok(p2, r) && grows(p, p2)
        }),
{
    lemma_reserve(p, base, r);
    let (p1, name) = reserve_name(p, base);
    let p2 = SPlan { sections: p1.sections.push(empty_section(name, kind, role, has_pk)), ..p1 };
    assert(p2.used.contains(name)) by {
        assert(p2.used[p.used.len() as int] == name);
    }
    assert(name != r) by {
        if name == r {
            assert(p.used.contains(r));
        }
    }
    assert forall|i: int| 0 <= i < p2.sections.len() implies p2.used.contains(#[trigger] p2.sections[i].name)
        && p2.sections[i].name != r by {
        if i < p.sections.len() {
            assert(p2.sections[i] == p.sections[i]);
            let k = choose|k: int| 0 <= k < p1.used.len() && p1.used[k] == p.sections[i].name;
        }
    }
    assert forall|i: int, j: int| 0 <= i < j < p2.sections.len() implies p2.sections[i].name
        != p2.sections[j].name by {
        assert(p2.sections[i] == p.sections[i]);
        if j == p.sections.len() {
            assert(p.used.contains(p.sections[i].name));
        } else {
            assert(p2.sections[j] == p.sections[j]);
        }
    }
}

proof fn lemma_grows_trans(p: SPlan, q: SPlan, t: SPlan)
    requires
        grows(p, q),
        grows(q, t),
    ensures
        grows(p, t),
{
    assert forall|i: int| 0 <= i < p.sections.len() implies #[trigger] t.sections[i].name
        == p.sections[i].name by {
        assert(t.sections[i].name == q.sections[i].name);
    }
}

/// Changing the rows or values of section `idx` keeps the names.
proof fn lemma_update_keeps(p: SPlan, idx: nat, sec: SPlanSection, r: Seq<char>)
    requires
        names_ok(p, r),
        idx < p.sections.len(),
        sec.name == p.sections[idx as int].name,
    ensures
        names_ok(SPlan { sections: p.sections.update(idx as int, sec), ..p }, r),
        grows(p, SPlan { sections: p.sections.update(idx as int, sec), ..p }),
{
    let q = SPlan { sections: p.sections.update(idx as int, sec), ..p };
    assert forall|i: int| 0 <= i < q.sections.len() implies #[trigger] q.sections[i].name
        == p.sections[i].name by {}
    assert forall|i: int| 0 <= i < q.sections.len() implies q.used.contains(#[trigger] q.sections[i].name)
        && q.sections[i].name != r by {
        assert(q.sections[i].name == p.sections[i].name);
    }
    assert forall|i: int, j: int| 0 <= i < j < q.sections.len() implies q.sections[i].name
        != q.sections[j].name by {
        assert(q.sections[i].name == p.sections[i].name);
        assert(q.sections[j].name == p.sections[j].name);
    }
}

// ---------------------------------------------------------------------------
// Planning keeps the names apart
// ---------------------------------------------------------------------------

proof fn lemma_names_fields(
    p: SPlan,
    members: Seq<(Seq<char>, SpecJson)>,
    i: int,
    fields: Seq<(Seq<char>, SPlanCell)>,
    r: Seq<char>,
)
    requires
        names_ok(p, r),
    ensures
        names_ok(build_fields(p, members, i, fields).0, r),
        grows(p, build_fields(p, members, i, fields).0),
    decreases members, members.len() - i,
{
    if 0 <= i < members.len() {
        assert(decreases_to!(members => members[i]));
        assert(decreases_to!(members[i] => members[i].1));
        lemma_names_field_cell(p, members[i].1, members[i].0, r);
        let (p1, c) = build_field_cell(p, members[i].1, members[i].0);
        lemma_names_fields(p1, members, i + 1, fields.push((members[i].0, c)), r);
        lemma_grows_trans(p, p1, build_fields(p1, members, i + 1, fields.push((members[i].0, c))).0);
    }
}

proof fn lemma_names_object_section(p: SPlan, key: Seq<char>, r: Seq<char>)
    requires
        names_ok(p, r),
    ensures
        names_ok(get_or_create_object_section(p, key).0, r),
        grows(p, get_or_create_object_section(p, key).0),
        get_or_create_object_section(p, key).1 < get_or_create_object_section(p, key).0.sections.len(),
{
    match crate::encoder::key_lookup(p.by_key, key) {
        Some(idx) if idx < p.sections.len() && p.sections[idx as int].role is Object => {},
        _ => {
            lemma_reserve_push(p, key, r, SKind::Table, SRole::Object, true);
        },
    }
}

/// `guard_section` changes no name.
proof fn lemma_names_guard(p: SPlan, idx: nat, r: Seq<char>)
    requires
        names_ok(p, r),
        idx < p.sections.len(),
    ensures
        names_ok(crate::encoder::guard_section(p, idx), r),
        grows(p, crate::encoder::guard_section(p, idx)),
{
    reveal(crate::encoder::guard_pk);
    let pn = SPlan { next_pk: crate::encoder::guard_section(p, idx).next_pk, ..p };
    lemma_update_keeps(pn, idx, crate::encoder::guard_pk(p, p.sections[idx as int]).1, r);
}

proof fn lemma_names_field_cell(p: SPlan, v: SpecJson, key: Seq<char>, r: Seq<char>)
    requires
        names_ok(p, r),
    ensures
        names_ok(build_field_cell(p, v, key).0, r),
        grows(p, build_field_cell(p, v, key).0),
    decreases v, 0int,
{
    match v {
        SpecJson::Object(obj) => {
            let pk = p.next_pk;
            let p1 = SPlan { next_pk: pk + 1, ..p };
            lemma_names_object_section(p1, key, r);
            let (p2, idx) = get_or_create_object_section(p1, key);
            lemma_names_fields(p2, obj, 0, Seq::empty(), r);
            let (p3, fields) = build_fields(p2, obj, 0, Seq::empty());
            let sec = merge_row(p3.sections[idx as int], SPlanRow { pk: Some(pk), fields });
            lemma_update_keeps(p3, idx, sec, r);
            lemma_grows_trans(p1, p2, p3);
            lemma_grows_trans(p1, p3, merge_into(p3, idx, SPlanRow { pk: Some(pk), fields }));
        },
        SpecJson::Array(arr) => {
            if arr.len() == 0 {
            } else if all_objects(arr) {
                lemma_reserve_push(p, key, r, SKind::Table, SRole::ArrayOfObjects, false);
                let (p1, idx) = create_array_of_objects_section(p, key);
                lemma_names_object_items(p1, arr, 0, idx, r);
                let p2 = build_object_items(p1, arr, 0, idx);
                lemma_grows_trans(p, p1, p2);
                lemma_names_guard(p2, idx, r);
                lemma_grows_trans(p, p2, crate::encoder::guard_section(p2, idx));
            } else {
                lemma_reserve_push(p, key, r, SKind::Array, SRole::PrimitiveArray, false);
                let (p1, name) = reserve_name(p, key);
                let idx = p1.sections.len();
                let p2 = SPlan {
                    sections: p1.sections.push(empty_section(name, SKind::Array, SRole::PrimitiveArray, false)),
                    ..p1
                };
                lemma_names_items(p2, arr, 0, idx, name, r);
                lemma_grows_trans(p, p2, build_items(p2, arr, 0, idx, name));
            }
        },
        _ => {},
    }
}

proof fn lemma_names_object_items(p: SPlan, arr: Seq<SpecJson>, j: int, idx: nat, r: Seq<char>)
    requires
        names_ok(p, r),
        idx < p.sections.len(),
    ensures
        names_ok(build_object_items(p, arr, j, idx), r),
        grows(p, build_object_items(p, arr, j, idx)),
    decreases arr, arr.len() - j,
{
    if 0 <= j < arr.len() {
        match arr[j] {
            SpecJson::Object(obj) => {
                assert(decreases_to!(arr => arr[j]));
                lemma_names_fields(p, obj, 0, Seq::empty(), r);
                let (p1, fields) = build_fields(p, obj, 0, Seq::empty());
                let row = SPlanRow { pk: None, fields };
                lemma_update_keeps(p1, idx, merge_row(p1.sections[idx as int], row), r);
                let p2 = merge_into(p1, idx, row);
                lemma_names_object_items(p2, arr, j + 1, idx, r);
                lemma_grows_trans(p, p1, p2);
                lemma_grows_trans(p, p2, build_object_items(p2, arr, j + 1, idx));
            },
            _ => {
                lemma_names_object_items(p, arr, j + 1, idx, r);
            },
        }
    }
}

proof fn lemma_names_items(p: SPlan, arr: Seq<SpecJson>, j: int, idx: nat, base: Seq<char>, r: Seq<char>)
    requires
        names_ok(p, r),
        idx < p.sections.len(),
    ensures
        names_ok(build_items(p, arr, j, idx, base), r),
        grows(p, build_items(p, arr, j, idx, base)),
    decreases arr, arr.len() - j,
{
    if 0 <= j < arr.len() {
        assert(decreases_to!(arr => arr[j]));
        lemma_names_array_item(p, arr[j], base, r);
        let (p1, c) = build_array_item(p, arr[j], base);
        let sec = p1.sections[idx as int];
        lemma_update_keeps(p1, idx, SPlanSection { values: sec.values.push(c), ..sec }, r);
        let p2 = push_value(p1, idx, c);
        lemma_names_items(p2, arr, j + 1, idx, base, r);
        lemma_grows_trans(p, p1, p2);
        lemma_grows_trans(p, p2, build_items(p2, arr, j + 1, idx, base));
    }
}

proof fn lemma_names_array_item(p: SPlan, v: SpecJson, base: Seq<char>, r: Seq<char>)
    requires
        names_ok(p, r),
    ensures
        names_ok(build_array_item(p, v, base).0, r),
        grows(p, build_array_item(p, v, base).0),
    decreases v, 0int,
{
    match v {
        SpecJson::Object(obj) => {
            let pk = p.next_pk;
            let p1 = SPlan { next_pk: pk + 1, ..p };
            lemma_names_object_section(p1, base + item_suffix(), r);
            let (p2, idx) = get_or_create_object_section(p1, base + item_suffix());
            lemma_names_fields(p2, obj, 0, Seq::empty(), r);
            let (p3, fields) = build_fields(p2, obj, 0, Seq::empty());
            let sec = merge_row(p3.sections[idx as int], SPlanRow { pk: Some(pk), fields });
            lemma_update_keeps(p3, idx, sec, r);
            lemma_grows_trans(p1, p2, p3);
            lemma_grows_trans(p1, p3, merge_into(p3, idx, SPlanRow { pk: Some(pk), fields }));
        },
        SpecJson::Array(arr) => {
            if arr.len() == 0 {
            } else {
                let (p1, name) = reserve_name(p, base + row_suffix());
                let idx = p1.sections.len();
                if all_objects(arr) {
                    lemma_reserve_push(p, base + row_suffix(), r, SKind::Table, SRole::ArrayOfObjects, false);
                    let p2 = SPlan {
                        sections: p1.sections.push(empty_section(name, SKind::Table, SRole::ArrayOfObjects, false)),
                        ..p1
                    };
                    lemma_names_object_items(p2, arr, 0, idx, r);
                    let p3 = build_object_items(p2, arr, 0, idx);
                    lemma_grows_trans(p, p2, p3);
                    lemma_names_guard(p3, idx, r);
                    lemma_grows_trans(p, p3, crate::encoder::guard_section(p3, idx));
                } else {
                    lemma_reserve_push(p, base + row_suffix(), r, SKind::Array, SRole::PrimitiveArray, false);
                    let p2 = SPlan {
                        sections: p1.sections.push(empty_section(name, SKind::Array, SRole::PrimitiveArray, false)),
                        ..p1
                    };
                    lemma_names_items(p2, arr, 0, idx, name, r);
                    lemma_grows_trans(p, p2, build_items(p2, arr, 0, idx, name));
                }
            }
        },
        _ => {},
    }
}

// ---------------------------------------------------------------------------
// The whole plan
// ---------------------------------------------------------------------------

/// Every section has a valid name, and no two sections share one.
pub open spec fn names_distinct_valid(p: SPlan) -> bool {
    &&& forall|i: int, j: int|
        0 <= i < j < p.sections.len() ==> p.sections[i].name != p.sections[j].name
    &&& forall|i: int| 0 <= i < p.sections.len() ==> valid_section_name(#[trigger] p.sections[i].name)
}

proof fn lemma_insert_root(p: SPlan, sec: SPlanSection, r: Seq<char>)
    requires
        names_ok(p, r),
        sec.name == r,
    ensures
        names_distinct_valid(insert_front(p, sec)),
{
    let q = insert_front(p, sec);
    assert forall|i: int| 0 <= i < q.sections.len() implies valid_section_name(#[trigger] q.sections[i].name) by {
        let n = q.sections[i].name;
        assert(p.used.contains(n)) by {
            if i > 0 {
                assert(q.sections[i] == p.sections[i - 1]);
            }
        }
        let k = choose|k: int| 0 <= k < p.used.len() && p.used[k] == n;
        assert(valid_section_name(p.used[k]));
    }
    assert forall|i: int, j: int| 0 <= i < j < q.sections.len() implies q.sections[i].name
        != q.sections[j].name by {
        assert(q.sections[j] == p.sections[j - 1]);
        if i > 0 {
            assert(q.sections[i] == p.sections[i - 1]);
        }
    }
}

proof fn lemma_names_root_object_items(p: SPlan, arr: Seq<SpecJson>, j: int, sec: SPlanSection, r: Seq<char>)
    requires
        names_ok(p, r),
        sec.name == r,
    ensures
        names_distinct_valid(root_object_items(p, arr, j, sec)),
    decreases arr.len() - j,
{
    if j < 0 || j >= arr.len() {
        reveal(crate::encoder::guard_pk);
        lemma_insert_root(p, sec, r);
    } else {
        match arr[j] {
            SpecJson::Object(obj) => {
                lemma_names_fields(p, obj, 0, Seq::empty(), r);
                let (p1, fields) = build_fields(p, obj, 0, Seq::empty());
                lemma_names_root_object_items(p1, arr, j + 1, merge_row(sec, SPlanRow { pk: None, fields }), r);
            },
            _ => {
                lemma_names_root_object_items(p, arr, j + 1, sec, r);
            },
        }
    }
}

proof fn lemma_names_root_items(
    p: SPlan,
    arr: Seq<SpecJson>,
    j: int,
    sec: SPlanSection,
    base: Seq<char>,
    r: Seq<char>,
)
    requires
        names_ok(p, r),
        sec.name == r,
    ensures
        names_distinct_valid(root_items(p, arr, j, sec, base)),
    decreases arr.len() - j,
{
    if j < 0 || j >= arr.len() {
        lemma_insert_root(p, sec, r);
    } else {
        lemma_names_array_item(p, arr[j], base, r);
        let (p1, c) = build_array_item(p, arr[j], base);
        lemma_names_root_items(p1, arr, j + 1, SPlanSection { values: sec.values.push(c), ..sec }, base, r);
    }
}

/// The encoder gives every section it writes a valid name, and no two sections the same one.
pub proof fn lemma_section_names(v: SpecJson)
    ensures
        names_distinct_valid(plan_root(v)),
{
    let (p0, r) = reserve_name(plan_init(), data_word());
    lemma_sanitise_valid(data_word());
    assert(p0.used =~= seq![r]);
    assert(p0.used.no_duplicates());
    assert(p0.used[0] == r);
    assert(names_ok(p0, r));
    match v {
        SpecJson::Object(obj) => {
            let p1 = SPlan { root_array: false, ..p0 };
            lemma_names_fields(p1, obj, 0, Seq::empty(), r);
            reveal(crate::encoder::guard_pk);
            let (p2, fields) = build_fields(p1, obj, 0, Seq::empty());
            lemma_insert_root(
                p2,
                merge_row(empty_section(r, SKind::Table, SRole::Root, false), SPlanRow { pk: None, fields }),
                r,
            );
        },
        SpecJson::Array(arr) => {
            let p1 = SPlan { root_array: true, ..p0 };
            if arr.len() > 0 && all_objects(arr) {
                lemma_names_root_object_items(p1, arr, 0, empty_section(r, SKind::Table, SRole::ArrayOfObjects, false), r);
            } else {
                lemma_names_root_items(p1, arr, 0, empty_section(r, SKind::Array, SRole::PrimitiveArray, false), r, r);
            }
        },
        _ => {},
    }
}

} // verus!
