use vstd::prelude::*;

verus! {

/// A JSON value. Object members keep their order.
#[derive(Debug, PartialEq)]
pub enum JsonValue {
    Null,
    Bool(bool),
    Number(String),
    String(String),
    Array(Vec<JsonValue>),
    Object(Vec<(String, JsonValue)>),
}

/// Mathematical model of a JSON value.
pub enum SpecJson {
    Null,
    Bool(bool),
    Number(Seq<char>),
    Str(Seq<char>),
    Array(Seq<SpecJson>),
    Object(Seq<(Seq<char>, SpecJson)>),
}

impl JsonValue {
    pub open spec fn model(&self) -> SpecJson
        decreases self,
    {
        match self {
            JsonValue::Null => SpecJson::Null,
            JsonValue::Bool(b) => SpecJson::Bool(*b),
            JsonValue::Number(n) => SpecJson::Number(n@),
            JsonValue::String(s) => SpecJson::Str(s@),
            JsonValue::Array(items) => SpecJson::Array(
                Seq::new(items@.len(), |i: int| {
                    if 0 <= i < items@.len() {
                        proof {
                            assert(decreases_to!(items => items@));
                            assert(decreases_to!(items@ => items@[i]));
                        }
                        items@[i].model()
                    } else {
                        SpecJson::Null
                    }
                }),
            ),
            JsonValue::Object(members) => SpecJson::Object(
                Seq::new(members@.len(), |i: int| {
                    if 0 <= i < members@.len() {
                        proof {
                            assert(decreases_to!(members => members@));
                            assert(decreases_to!(members@ => members@[i]));
                            assert(decreases_to!(members@[i] => members@[i].1));
                        }
                        (members@[i].0@, members@[i].1.model())
                    } else {
                        (Seq::empty(), SpecJson::Null)
                    }
                }),
            ),
        }
    }
}

pub open spec fn members_model(v: Seq<(String, JsonValue)>) -> Seq<(Seq<char>, SpecJson)> {
    Seq::new(v.len(), |i: int| (v[i].0@, v[i].1.model()))
}

pub open spec fn items_model(v: Seq<JsonValue>) -> Seq<SpecJson> {
    Seq::new(v.len(), |i: int| v[i].model())
}

pub proof fn lemma_model_object(members: Vec<(String, JsonValue)>)
    ensures
        JsonValue::Object(members).model() == SpecJson::Object(members_model(members@)),
{
    assert(JsonValue::Object(members).model()->Object_0 =~= members_model(members@));
}

pub proof fn lemma_model_array(items: Vec<JsonValue>)
    ensures
        JsonValue::Array(items).model() == SpecJson::Array(items_model(items@)),
{
    assert(JsonValue::Array(items).model()->Array_0 =~= items_model(items@));
}

// ---------------------------------------------------------------------------
// Object members: insertion keeps the first position of a key
// ---------------------------------------------------------------------------

/// Index of the member called `k`, if any.
pub open spec fn obj_find(obj: Seq<(Seq<char>, SpecJson)>, k: Seq<char>) -> Option<nat>
    decreases obj.len(),
{
    if obj.len() == 0 {
        None
    } else if obj.last().0 == k && obj_find(obj.drop_last(), k) is None {
        Some((obj.len() - 1) as nat)
    } else {
        obj_find(obj.drop_last(), k)
    }
}

/// Sets member `k` to `v`: in place if `k` is present, else at the end.
pub open spec fn obj_insert(obj: Seq<(Seq<char>, SpecJson)>, k: Seq<char>, v: SpecJson) -> Seq<
    (Seq<char>, SpecJson),
> {
    match obj_find(obj, k) {
        Some(i) => obj.update(i as int, (k, v)),
        None => obj.push((k, v)),
    }
}

pub proof fn lemma_obj_find_first(obj: Seq<(Seq<char>, SpecJson)>, k: Seq<char>, n: int)
    requires
        0 <= n <= obj.len(),
        forall|j: int| 0 <= j < n ==> obj[j].0 != k,
    ensures
        (n < obj.len() && obj[n].0 == k) ==> obj_find(obj, k) == Some(n as nat),
        n == obj.len() ==> obj_find(obj, k) is None,
    decreases obj.len(),
{
    if obj.len() > 0 {
        if n < obj.len() {
            if n < obj.len() - 1 {
                lemma_obj_find_first(obj.drop_last(), k, n);
            } else {
                lemma_obj_find_first(obj.drop_last(), k, n);
            }
        } else {
            lemma_obj_find_first(obj.drop_last(), k, n - 1);
        }
    }
}

/// Sets member `k` of `members` to `v`, as `obj_insert` says.
pub fn members_insert(members: &mut Vec<(String, JsonValue)>, k: String, v: JsonValue)
    ensures
        members_model(final(members)@) == obj_insert(members_model(old(members)@), k@, v.model()),
{
    let ghost m = members_model(members@);
    let ghost km = k@;
    let ghost vm = v.model();
    let mut i: usize = 0;
    let mut found = false;
    while i < members.len()
        invariant_except_break
            forall|j: int| 0 <= j < i ==> m[j].0 != k@,
            !found,
        invariant
            i <= members@.len(),
            m == members_model(members@),
        ensures
            found ==> i < members@.len() && m[i as int].0 == k@ && forall|j: int|
                0 <= j < i ==> m[j].0 != k@,
            !found ==> i == members@.len() && forall|j: int| 0 <= j < i ==> m[j].0 != k@,
        decreases members@.len() - i,
    {
        assert(m[i as int].0 == members@[i as int].0@);
        if members[i].0 == k {
            found = true;
            break;
        }
        i += 1;
    }
    proof {
        lemma_obj_find_first(m, km, i as int);
    }
    if found {
        members.set(i, (k, v));
        assert(members_model(members@) =~= m.update(i as int, (km, vm)));
    } else {
        members.push((k, v));
        assert(members_model(members@) =~= m.push((km, vm)));
    }
}

// ---------------------------------------------------------------------------
// JSON numbers
// ---------------------------------------------------------------------------

pub open spec fn is_json_ws(c: char) -> bool {
    c == ' ' || c == '\t' || c == '\n' || c == '\r'
}

/// `s` without leading or trailing JSON whitespace.
pub open spec fn json_trim(s: Seq<char>) -> Seq<char>
    decreases s.len(),
{
    if s.len() > 0 && is_json_ws(s[0]) {
        json_trim(s.drop_first())
    } else if s.len() > 0 && is_json_ws(s.last()) {
        json_trim(s.drop_last())
    } else {
        s
    }
}

/// End of the run of decimal digits that starts at `i`.
pub open spec fn digit_run(t: Seq<char>, i: int) -> int
    decreases t.len() - i,
{
    if 0 <= i < t.len() && '0' <= t[i] && t[i] <= '9' {
        digit_run(t, i + 1)
    } else {
        i
    }
}

/// If `t` is exactly one JSON number (RFC 8259 grammar), its text with the exponent
/// written as `e` followed by an explicit sign; otherwise `None`.
pub open spec fn scan_json_number(t: Seq<char>) -> Option<Seq<char>> {
    let i0: int = if t.len() > 0 && t[0] == '-' {
        1
    } else {
        0
    };
    let i1 = digit_run(t, i0);
    if i1 == i0 || (t[i0] == '0' && i1 > i0 + 1) {
        None
    } else {
        let frac = i1 < t.len() && t[i1] == '.';
        let i2 = if frac {
            digit_run(t, i1 + 1)
        } else {
            i1
        };
        if frac && i2 == i1 + 1 {
            None
        } else if i2 == t.len() {
            Some(t)
        } else if t[i2] == 'e' || t[i2] == 'E' {
            let signed = i2 + 1 < t.len() && (t[i2 + 1] == '+' || t[i2 + 1] == '-');
            let d0 = if signed {
                i2 + 2
            } else {
                i2 + 1
            };
            let d1 = digit_run(t, d0);
            if d1 == d0 || d1 != t.len() {
                None
            } else {
                let sign = if signed {
                    t[i2 + 1]
                } else {
                    '+'
                };
                Some(t.subrange(0, i2) + seq!['e', sign] + t.subrange(d0, d1))
            }
        } else {
            None
        }
    }
}

/// What `serde_json` (with arbitrary precision) reads from `s` when `s` is one JSON number:
/// the number's text; `None` when `s` is anything else.
pub open spec fn spec_json_number(s: Seq<char>) -> Option<Seq<char>> {
    scan_json_number(json_trim(s))
}

/// `serde_json::from_str::<Value>`, keeping only whether the text is one JSON number.
/// Claimed: the result is `Some(text)` exactly when the input, without surrounding JSON
/// whitespace, follows the JSON number grammar, and `text` is the number as `serde_json`
/// keeps it with the `arbitrary_precision` feature (exponent written `e` with a sign).
#[verifier::external_body]
fn json_number_text(s: &str) -> (r: Option<String>)
    ensures
        match r {
            Some(t) => spec_json_number(s@) == Some(t@),
            None => spec_json_number(s@) is None,
        },
{
    match serde_json::from_str::<serde_json::Value>(s) {
        Ok(serde_json::Value::Number(n)) => Some(n.to_string()),
        _ => None,
    }
}

/// A bare (unquoted, non-keyword, non-reference) cell: a number if it reads as one,
/// else the string itself.
pub open spec fn spec_bare_value(s: Seq<char>) -> SpecJson {
    match spec_json_number(s) {
        Some(n) => SpecJson::Number(n),
        None => SpecJson::Str(s),
    }
}

pub fn parse_bare_value(s: &String) -> (r: JsonValue)
    ensures
        r.model() == spec_bare_value(s@),
{
    match json_number_text(s.as_str()) {
        Some(n) => JsonValue::Number(n),
        None => JsonValue::String(s.clone()),
    }
}

/// Whether `s` reads as one JSON number.
pub fn looks_like_number(s: &str) -> (r: bool)
    ensures
        r == (spec_json_number(s@) is Some),
{
    json_number_text(s).is_some()
}


// ---------------------------------------------------------------------------
// Equality up to the order of object members
// ---------------------------------------------------------------------------

/// No two members share a name.
pub open spec fn member_names_distinct(m: Seq<(Seq<char>, SpecJson)>) -> bool {
    forall|i: int, j: int| 0 <= i < j < m.len() ==> m[i].0 != m[j].0
}

/// The same JSON value, objects compared as sets of name-value pairs (as JSON objects
/// are): two objects are equal when their members have distinct names, the same names,
/// and equal values under each name.
pub open spec fn json_equiv(a: SpecJson, b: SpecJson) -> bool
    decreases a,
{
    match a {
        SpecJson::Object(ma) => match b {
            SpecJson::Object(mb) => {
                &&& member_names_distinct(ma)
                &&& member_names_distinct(mb)
                &&& forall|j: int| 0 <= j < mb.len() ==> obj_find(ma, #[trigger] mb[j].0) is Some
                &&& forall|i: int|
                    0 <= i < ma.len() ==> match obj_find(mb, #[trigger] ma[i].0) {
                        Some(j) => j < mb.len() && json_equiv(ma[i].1, mb[j as int].1),
                        None => false,
                    }
            },
            _ => false,
        },
        SpecJson::Array(xa) => match b {
            SpecJson::Array(xb) => xa.len() == xb.len() && forall|i: int|
                0 <= i < xa.len() ==> json_equiv(#[trigger] xa[i], xb[i]),
            _ => false,
        },
        _ => a == b,
    }
}

/// `obj_find` gives the position of a name, or `None` when no member has it.
pub proof fn lemma_obj_find(obj: Seq<(Seq<char>, SpecJson)>, k: Seq<char>)
    ensures
        obj_find(obj, k) matches Some(i) ==> i < obj.len() && obj[i as int].0 == k,
        obj_find(obj, k) is None ==> forall|i: int| 0 <= i < obj.len() ==> (#[trigger] obj[i]).0 != k,
        member_names_distinct(obj) ==> forall|i: int|
            0 <= i < obj.len() && (#[trigger] obj[i]).0 == k ==> obj_find(obj, k) == Some(i as nat),
    decreases obj.len(),
{
    if obj.len() > 0 {
        let init = obj.drop_last();
        lemma_obj_find(init, k);
        assert forall|i: int| 0 <= i < init.len() implies #[trigger] init[i] == obj[i] by {}
        if obj_find(obj, k) is None {
            assert forall|i: int| 0 <= i < obj.len() implies (#[trigger] obj[i]).0 != k by {
                if i < init.len() {
                    assert(obj[i] == init[i]);
                }
            }
        }
        if member_names_distinct(obj) {
            assert forall|a: int, b: int| 0 <= a < b < init.len() implies init[a].0 != init[b].0 by {
                assert(init[a] == obj[a] && init[b] == obj[b]);
            }
            assert forall|i: int| 0 <= i < obj.len() && (#[trigger] obj[i]).0 == k implies obj_find(obj, k)
                == Some(i as nat) by {
                if i < init.len() {
                    assert(init[i].0 == k);
                    assert(obj.last().0 != k);
                } else {
                    assert(obj_find(init, k) is None) by {
                        if obj_find(init, k) is Some {
                            let x = obj_find(init, k)->0;
                            assert(obj[x as int] == init[x as int]);
                        }
                    }
                }
            }
        }
    }
}

/// Two objects with the same members, in any order, each with distinct names and no
/// member holding an object or an array, are equal up to member order.
pub proof fn lemma_equiv_same_members(a: Seq<(Seq<char>, SpecJson)>, b: Seq<(Seq<char>, SpecJson)>)
    requires
        member_names_distinct(a),
        member_names_distinct(b),
        forall|i: int| 0 <= i < a.len() ==> b.contains(#[trigger] a[i]),
        forall|j: int| 0 <= j < b.len() ==> a.contains(#[trigger] b[j]),
        forall|i: int| 0 <= i < a.len() ==> !((#[trigger] a[i]).1 is Object) && !(a[i].1 is Array),
    ensures
        json_equiv(SpecJson::Object(a), SpecJson::Object(b)),
{
    assert forall|j: int| 0 <= j < b.len() implies obj_find(a, #[trigger] b[j].0) is Some by {
        assert(a.contains(b[j]));
        let i = choose|i: int| 0 <= i < a.len() && a[i] == b[j];
        lemma_obj_find(a, b[j].0);
    }
    assert forall|i: int| 0 <= i < a.len() implies match obj_find(b, #[trigger] a[i].0) {
        Some(j) => j < b.len() && json_equiv(a[i].1, b[j as int].1),
        None => false,
    } by {
        assert(b.contains(a[i]));
        let j = choose|j: int| 0 <= j < b.len() && b[j] == a[i];
        lemma_obj_find(b, a[i].0);
        assert(obj_find(b, a[i].0) == Some(j as nat));
        assert(b[j].1 == a[i].1);
    }
}

/// A value equals itself up to member order, when it is a scalar, an array of scalars, or
/// an object of scalars with distinct names.
pub proof fn lemma_equiv_refl_shallow(v: SpecJson)
    requires
        match v {
            SpecJson::Object(m) => member_names_distinct(m) && forall|i: int|
                0 <= i < m.len() ==> !((#[trigger] m[i]).1 is Object) && !(m[i].1 is Array),
            SpecJson::Array(xs) => forall|i: int|
                0 <= i < xs.len() ==> !((#[trigger] xs[i]) is Object) && !(xs[i] is Array),
            _ => true,
        },
    ensures
        json_equiv(v, v),
{
    match v {
        SpecJson::Object(m) => {
            assert forall|i: int| 0 <= i < m.len() implies m.contains(#[trigger] m[i]) by {}
            lemma_equiv_same_members(m, m);
        },
        SpecJson::Array(xs) => {
            assert forall|i: int| 0 <= i < xs.len() implies json_equiv(#[trigger] xs[i], xs[i]) by {
                assert(!(xs[i] is Object) && !(xs[i] is Array));
            }
        },
        _ => {},
    }
}

} // verus!
