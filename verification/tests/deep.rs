use norm_codec::{encode, parse, JsonValue};

fn num(s: &str) -> JsonValue {
    JsonValue::Number(s.to_string())
}

fn st(s: &str) -> JsonValue {
    JsonValue::String(s.to_string())
}

fn obj(members: Vec<(&str, JsonValue)>) -> JsonValue {
    JsonValue::Object(members.into_iter().map(|(k, v)| (k.to_string(), v)).collect())
}

fn arr(items: Vec<JsonValue>) -> JsonValue {
    JsonValue::Array(items)
}

/// Equality with object members compared as sets of name-value pairs.
fn same_json(a: &JsonValue, b: &JsonValue) -> bool {
    match (a, b) {
        (JsonValue::Object(ma), JsonValue::Object(mb)) => {
            ma.len() == mb.len()
                && ma.iter().all(|(k, v)| mb.iter().any(|(k2, v2)| k == k2 && same_json(v, v2)))
        }
        (JsonValue::Array(xa), JsonValue::Array(xb)) => {
            xa.len() == xb.len() && xa.iter().zip(xb.iter()).all(|(x, y)| same_json(x, y))
        }
        _ => a == b,
    }
}

fn round_trip(v: &JsonValue) -> JsonValue {
    let text = encode(v).unwrap();
    parse(&text).unwrap()
}

#[test]
fn arrays_of_arrays_round_trip() {
    let v = arr(vec![
        arr(vec![num("1"), num("2")]),
        arr(vec![num("3"), arr(vec![num("4"), st("five")])]),
        arr(vec![]),
        st("x"),
    ]);
    assert_eq!(round_trip(&v), v);
}

#[test]
fn member_arrays_of_arrays_round_trip() {
    let v = obj(vec![(
        "grid",
        arr(vec![arr(vec![num("1"), num("0")]), arr(vec![num("0"), num("1")])]),
    )]);
    assert_eq!(round_trip(&v), v);
}

#[test]
fn deeply_nested_objects_round_trip() {
    let v = obj(vec![(
        "a",
        obj(vec![("b", obj(vec![("c", obj(vec![("d", num("1")), ("e", st("deep"))]))]))]),
    )]);
    assert_eq!(round_trip(&v), v);
}

#[test]
fn objects_sharing_a_section_round_trip() {
    let v = obj(vec![
        ("left", obj(vec![("p", obj(vec![("x", num("1"))]))])),
        ("right", obj(vec![("p", obj(vec![("y", num("2"))]))])),
    ]);
    assert_eq!(round_trip(&v), v);
}

#[test]
fn arrays_of_objects_holding_arrays_and_objects_round_trip() {
    let v = obj(vec![(
        "planets",
        arr(vec![
            obj(vec![
                ("name", st("Earth")),
                ("moons", arr(vec![obj(vec![("name", st("Moon"))])])),
                ("orbit", obj(vec![("days", num("365.25"))])),
            ]),
            obj(vec![
                ("name", st("Mars")),
                ("moons", arr(vec![obj(vec![("name", st("Phobos"))]), obj(vec![("name", st("Deimos"))])])),
                ("orbit", obj(vec![("days", num("687"))])),
            ]),
        ]),
    )]);
    assert!(same_json(&round_trip(&v), &v));
}

#[test]
fn members_of_table_rows_come_back_in_column_order() {
    let v = arr(vec![
        obj(vec![("a", num("1")), ("b", num("2"))]),
        obj(vec![("b", num("3")), ("a", num("4"))]),
    ]);
    let back = round_trip(&v);
    assert!(same_json(&back, &v));
    assert_eq!(
        back,
        arr(vec![
            obj(vec![("a", num("1")), ("b", num("2"))]),
            obj(vec![("a", num("4")), ("b", num("3"))]),
        ])
    );
}

#[test]
fn nested_tables_with_a_pk_data_key_round_trip() {
    let v = obj(vec![(
        "items",
        arr(vec![obj(vec![("pk", num("1")), ("a", num("2"))]), obj(vec![("pk", num("3")), ("a", num("4"))])]),
    )]);
    let text = encode(&v).unwrap();
    assert_eq!(text, ":root\n:data\nitems\n@items\n\n:items\npk,pk,a\n1,1,2\n2,3,4\n");
    assert_eq!(parse(&text).unwrap(), v);
    let w = arr(vec![arr(vec![obj(vec![("pk", st("x"))])]), num("7")]);
    assert_eq!(round_trip(&w), w);
}
