use norm_codec::encoder::{csv_field_header, needs_quoting, quote_csv, sanitise_name};
use norm_codec::{encode, parse, JsonValue, NormError};

fn num(s: &str) -> JsonValue {
    JsonValue::Number(s.to_string())
}

fn st(s: &str) -> JsonValue {
    JsonValue::String(s.to_string())
}

fn obj(members: Vec<(&str, JsonValue)>) -> JsonValue {
    JsonValue::Object(members.into_iter().map(|(k, v)| (k.to_string(), v)).collect())
}

#[test]
fn rejects_scalar_root() {
    assert_eq!(encode(&num("42")), Err(NormError::ScalarRoot));
    assert_eq!(encode(&st("hi")), Err(NormError::ScalarRoot));
    assert_eq!(encode(&JsonValue::Null), Err(NormError::ScalarRoot));
    assert_eq!(encode(&JsonValue::Bool(true)), Err(NormError::ScalarRoot));
}

#[test]
fn encodes_empty_object() {
    let out = encode(&obj(vec![])).unwrap();
    assert!(out.contains(":root"));
}

#[test]
fn encodes_empty_array() {
    let out = encode(&JsonValue::Array(vec![])).unwrap();
    assert!(out.contains(":root[]"));
}

#[test]
fn needs_quoting_rules() {
    assert!(needs_quoting(""));
    assert!(needs_quoting("42"));
    assert!(needs_quoting("true"));
    assert!(needs_quoting("false"));
    assert!(needs_quoting("null"));
    assert!(needs_quoting("@foo"));
    assert!(needs_quoting("a,b"));
    assert!(needs_quoting("a\"b"));
    assert!(needs_quoting("a\nb"));
    assert!(needs_quoting("  padded  "));
    assert!(!needs_quoting("hello"));
    assert!(!needs_quoting("color #FF0000"));
}

#[test]
fn sanitise_name_rules() {
    assert_eq!(sanitise_name("foo"), "foo");
    assert_eq!(sanitise_name("foo-bar"), "foo_bar");
    assert_eq!(sanitise_name("1foo"), "_foo");
    assert_eq!(sanitise_name(""), "_");
    assert_eq!(sanitise_name("my.key.name"), "my_key_name");
}

#[test]
fn quote_csv_doubles_quotes() {
    assert_eq!(quote_csv("a\"b"), "\"a\"\"b\"");
    assert_eq!(quote_csv("plain"), "\"plain\"");
}

#[test]
fn assigns_sequential_pks_to_nested_objects() {
    let v = obj(vec![
        ("a", obj(vec![("x", num("1"))])),
        ("b", obj(vec![("x", num("2"))])),
        ("c", obj(vec![("x", num("3"))])),
    ]);
    let out = encode(&v).unwrap();
    assert!(out.contains("@1"), "expected @1 ref, got:\n{}", out);
    assert!(out.contains("@2"), "expected @2 ref, got:\n{}", out);
    assert!(out.contains("@3"), "expected @3 ref, got:\n{}", out);
    assert!(out.contains("1,1\n"), "expected pk=1 row, got:\n{}", out);
    assert!(out.contains("2,2\n"), "expected pk=2 row, got:\n{}", out);
    assert!(out.contains("3,3\n"), "expected pk=3 row, got:\n{}", out);
}

#[test]
fn section_name_collision_suffixes() {
    let v = obj(vec![("data", obj(vec![("x", num("1"))]))]);
    let out = encode(&v).unwrap();
    assert!(out.contains(":data\n"), "expected root :data section, got:\n{}", out);
    assert!(out.contains(":data_2\n"), "expected suffixed :data_2 section, got:\n{}", out);
}

#[test]
fn repeated_collisions_increment_suffix() {
    let v = obj(vec![
        ("data", obj(vec![("x", num("1"))])),
        ("Data", obj(vec![("y", num("2"))])),
    ]);
    let out = encode(&v).unwrap();
    assert!(out.contains(":data\n"), "got:\n{}", out);
    assert!(out.contains(":data_2\n"), "got:\n{}", out);
    assert!(out.contains(":Data\n"), "got:\n{}", out);
}

#[test]
fn literal_pk_key_produces_double_pk_header() {
    let v = obj(vec![("item", obj(vec![("pk", st("XYZ-001")), ("name", st("Alice"))]))]);
    let out = encode(&v).unwrap();
    assert!(out.contains("pk,pk,name\n"), "expected pk,pk,name header, got:\n{}", out);
    assert!(
        out.contains("1,XYZ-001,Alice\n"),
        "expected row with structural pk=1 followed by data pk, got:\n{}",
        out
    );
}

#[test]
fn sanitises_invalid_key_characters_in_section_name() {
    let v = obj(vec![("foo-bar", obj(vec![("x", num("1"))]))]);
    let out = encode(&v).unwrap();
    assert!(out.contains(":foo_bar\n"), "expected sanitised section name, got:\n{}", out);
}

#[test]
fn rejects_scalar_root_number() {
    let err = encode(&num("42")).unwrap_err();
    assert!(matches!(err, NormError::ScalarRoot));
}

#[test]
fn rejects_scalar_root_string() {
    let err = encode(&st("hello")).unwrap_err();
    assert!(matches!(err, NormError::ScalarRoot));
}

#[test]
fn rejects_scalar_root_null() {
    let err = encode(&JsonValue::Null).unwrap_err();
    assert!(matches!(err, NormError::ScalarRoot));
}

#[test]
fn rejects_scalar_root_bool() {
    let err = encode(&JsonValue::Bool(true)).unwrap_err();
    assert!(matches!(err, NormError::ScalarRoot));
}

#[test]
fn encoder_rejects_scalar_root() {
    let err = encode(&num("42")).unwrap_err();
    assert!(matches!(err, NormError::ScalarRoot), "got {:?}", err);
}

#[test]
fn encodes_flat_object_exactly() {
    let v = obj(vec![("name", st("Alice")), ("age", num("30"))]);
    assert_eq!(encode(&v).unwrap(), ":root\n:data\nname,age\nAlice,30\n");
}

#[test]
fn encodes_empty_object_exactly() {
    assert_eq!(encode(&obj(vec![])).unwrap(), ":root\n:data\n\n\n");
    assert_eq!(encode(&JsonValue::Array(vec![])).unwrap(), ":root[]\n:data[]\n");
}

#[test]
fn quotes_strings_that_look_like_other_values() {
    let v = obj(vec![
        ("a", st("42")),
        ("b", st("true")),
        ("c", st("@x")),
        ("d", st("")),
        ("e", JsonValue::Null),
    ]);
    let out = encode(&v).unwrap();
    assert!(out.contains("\"42\",\"true\",\"@x\",\"\",null\n"), "got:\n{}", out);
}

#[test]
fn csv_field_header_quotes_only_when_needed() {
    assert_eq!(csv_field_header("name"), "name");
    assert_eq!(csv_field_header("a,b"), "\"a,b\"");
    assert_eq!(csv_field_header(" x"), " x");
    assert_eq!(csv_field_header("a\"b"), "\"a\"\"b\"");
}

#[test]
fn roundtrip_flat_object() {
    let v = obj(vec![("name", st("Alice")), ("age", num("30")), ("ok", JsonValue::Bool(false))]);
    let text = encode(&v).unwrap();
    assert_eq!(parse(&text).unwrap(), v);
}

#[test]
fn roundtrip_nested_and_arrays() {
    let v = obj(vec![
        ("title", st("a, \"quoted\" title")),
        ("owner", obj(vec![("name", st("Bob")), ("tags", JsonValue::Array(vec![st("x"), st("y")]))])),
        (
            "items",
            JsonValue::Array(vec![
                obj(vec![("id", num("1")), ("label", st("one"))]),
                obj(vec![("id", num("2")), ("label", st("two"))]),
            ]),
        ),
        ("matrix", JsonValue::Array(vec![JsonValue::Array(vec![num("1"), num("2")]), JsonValue::Array(vec![])])),
        ("empty", obj(vec![])),
    ]);
    let text = encode(&v).unwrap();
    assert_eq!(parse(&text).unwrap(), v, "NORM was:\n{}", text);
}

#[test]
fn roundtrip_array_root() {
    let v = JsonValue::Array(vec![
        obj(vec![("name", st("Alice")), ("age", num("30"))]),
        obj(vec![("name", st("Bob")), ("age", num("25"))]),
    ]);
    let text = encode(&v).unwrap();
    assert_eq!(parse(&text).unwrap(), v, "NORM was:\n{}", text);
}

#[test]
fn scalars_read_back_after_encoding() {
    let v = obj(vec![
        ("s", st("a, \"b\"\nc")),
        ("t", st("  padded ")),
        ("n", num("-1.5e+3")),
        ("k", st("true")),
        ("z", JsonValue::Bool(false)),
        ("u", JsonValue::Null),
        ("e", st("")),
        ("r", st("a\rb")),
    ]);
    let text = encode(&v).unwrap();
    assert_eq!(parse(&text).unwrap(), v, "NORM was:\n{}", text);
}

#[test]
fn section_names_are_distinct_and_valid() {
    let v = obj(vec![
        ("data", obj(vec![("x", num("1"))])),
        ("Data", obj(vec![("y", num("2"))])),
        ("data_2", obj(vec![("z", num("3"))])),
        ("a", JsonValue::Array(vec![num("1"), num("2")])),
        ("a-", JsonValue::Array(vec![num("3")])),
        ("9", obj(vec![("w", num("4"))])),
    ]);
    let out = encode(&v).unwrap();
    let names: Vec<&str> = out
        .lines()
        .filter(|l| l.starts_with(':') && !l.starts_with(":root"))
        .map(|l| l.trim_start_matches(':').trim_end_matches("[]"))
        .collect();
    for (i, a) in names.iter().enumerate() {
        assert!(norm_codec::lexer::is_valid_section_name(a), "invalid name {:?} in:\n{}", a, out);
        for b in names.iter().skip(i + 1) {
            assert_ne!(a, b, "repeated name in:\n{}", out);
        }
    }
    assert!(names.contains(&"data_2_2"), "got:\n{}", out);
    assert!(names.contains(&"_"), "got:\n{}", out);
    assert_eq!(parse(&out).unwrap(), v, "NORM was:\n{}", out);
}

#[test]
fn flat_object_round_trip_keeps_member_order() {
    let v = obj(vec![("z", num("1")), ("a", st("x y")), ("m", JsonValue::Null)]);
    let text = encode(&v).unwrap();
    assert_eq!(text, ":root\n:data\nz,a,m\n1,x y,null\n");
    assert_eq!(parse(&text).unwrap(), v);
}

#[test]
fn flat_object_whose_first_value_starts_with_a_hash_reads_back() {
    let v = obj(vec![("a", st("#tag"))]);
    let text = encode(&v).unwrap();
    assert_eq!(text, ":root\n:data\na\n\"#tag\"\n");
    assert_eq!(parse(&text).unwrap(), v);
}

#[test]
fn nested_objects_round_trip_through_references() {
    let v = obj(vec![
        ("title", st("report")),
        ("author", obj(vec![("name", st("Ada")), ("born", num("1815"))])),
        ("count", num("3")),
        ("meta", obj(vec![("pk", st("XYZ")), ("ok", JsonValue::Bool(true))])),
        ("empty", obj(vec![])),
    ]);
    let text = encode(&v).unwrap();
    assert_eq!(
        text,
        ":root\n:data\ntitle,author,count,meta,empty\nreport,@1,3,@2,@3\n\n:author\npk,name,born\n1,Ada,1815\n\n:meta\npk,pk,ok\n2,XYZ,true\n\n:empty\npk\n3\n"
    );
    assert_eq!(parse(&text).unwrap(), v);
}

#[test]
fn member_object_called_root_does_not_read_back() {
    let v = obj(vec![("root", obj(vec![("a", num("1"))]))]);
    let text = encode(&v).unwrap();
    assert!(text.contains("\n:root\n"), "got:\n{}", text);
    assert_eq!(parse(&text).unwrap_err(), NormError::InvalidRootDeclaration { line: 6 });
}

#[test]
fn scalar_array_round_trip() {
    let v = JsonValue::Array(vec![num("1"), st("two"), st("3"), JsonValue::Null, st("a,b"), JsonValue::Bool(true)]);
    let text = encode(&v).unwrap();
    assert_eq!(text, ":root[]\n:data[]\n1\ntwo\n\"3\"\nnull\n\"a,b\"\ntrue\n");
    assert_eq!(parse(&text).unwrap(), v);
    let empty = JsonValue::Array(vec![]);
    assert_eq!(parse(&encode(&empty).unwrap()).unwrap(), empty);
}

#[test]
fn object_array_round_trip_in_column_order() {
    let v = JsonValue::Array(vec![
        obj(vec![("a", num("1")), ("b", st("x"))]),
        obj(vec![("b", st("y")), ("c", JsonValue::Bool(true))]),
    ]);
    let text = encode(&v).unwrap();
    assert_eq!(text, ":root[]\n:data\na,b,c\n1,x,\n,y,true\n");
    assert_eq!(parse(&text).unwrap(), v);
}

#[test]
fn object_array_reads_back_members_in_column_order() {
    let v = JsonValue::Array(vec![
        obj(vec![("b", num("1")), ("a", num("2"))]),
        obj(vec![("a", num("3")), ("b", num("4"))]),
    ]);
    let text = encode(&v).unwrap();
    assert_eq!(text, ":root[]\n:data\nb,a\n1,2\n4,3\n");
    let back = JsonValue::Array(vec![
        obj(vec![("b", num("1")), ("a", num("2"))]),
        obj(vec![("b", num("4")), ("a", num("3"))]),
    ]);
    assert_eq!(parse(&text).unwrap(), back);
}

#[test]
fn single_column_table_with_a_missing_member_loses_the_row() {
    let v = JsonValue::Array(vec![obj(vec![("a", num("1"))]), obj(vec![])]);
    let text = encode(&v).unwrap();
    assert_eq!(text, ":root[]\n:data\na\n1\n\n");
    assert_eq!(parse(&text).unwrap(), JsonValue::Array(vec![obj(vec![("a", num("1"))])]));
}

#[test]
fn nested_object_with_an_empty_array_member_round_trips() {
    let v = obj(vec![
        ("name", st("probe")),
        ("tags", JsonValue::Array(vec![])),
        ("pos", obj(vec![("x", num("1")), ("y", num("-2.5"))])),
    ]);
    let text = encode(&v).unwrap();
    assert_eq!(text, ":root\n:data\nname,tags,pos\nprobe,@[],@1\n\n:pos\npk,x,y\n1,1,-2.5\n");
    assert_eq!(parse(&text).unwrap(), v);
}

#[test]
fn object_with_scalar_array_members_round_trips() {
    let v = obj(vec![
        ("id", num("7")),
        ("tags", JsonValue::Array(vec![st("a"), st("b,c"), JsonValue::Null])),
        ("owner", obj(vec![("name", st("Ada"))])),
        ("scores", JsonValue::Array(vec![num("1"), num("2")])),
    ]);
    let text = encode(&v).unwrap();
    assert_eq!(
        text,
        ":root\n:data\nid,tags,owner,scores\n7,@tags,@1,@scores\n\n:tags[]\na\n\"b,c\"\nnull\n\n:owner\npk,name\n1,Ada\n\n:scores[]\n1\n2\n"
    );
    assert_eq!(parse(&text).unwrap(), v);
}

#[test]
fn object_with_an_array_of_objects_reads_back_in_column_order() {
    let v = obj(vec![
        ("team", st("x")),
        (
            "people",
            JsonValue::Array(vec![
                obj(vec![("name", st("Ada")), ("age", num("36"))]),
                obj(vec![("age", num("41")), ("name", st("Alan"))]),
            ]),
        ),
    ]);
    let text = encode(&v).unwrap();
    assert_eq!(text, ":root\n:data\nteam,people\nx,@people\n\n:people\nname,age\nAda,36\nAlan,41\n");
    let back = obj(vec![
        ("team", st("x")),
        (
            "people",
            JsonValue::Array(vec![
                obj(vec![("name", st("Ada")), ("age", num("36"))]),
                obj(vec![("name", st("Alan")), ("age", num("41"))]),
            ]),
        ),
    ]);
    assert_eq!(parse(&text).unwrap(), back);
}

#[test]
fn leading_hash_or_colon_is_quoted_and_round_trips() {
    assert!(needs_quoting("#tag"));
    assert!(needs_quoting(":x"));
    assert_eq!(csv_field_header("#a"), "\"#a\"");
    let v = JsonValue::Array(vec![st("#tag")]);
    let text = encode(&v).unwrap();
    assert_eq!(parse(&text).unwrap(), v);
    let w = obj(vec![("#k", num("1")), (":c", st("#v"))]);
    let text = encode(&w).unwrap();
    assert_eq!(parse(&text).unwrap(), w);
}

#[test]
fn root_data_key_named_pk_reads_back() {
    let v = obj(vec![("pk", num("1")), ("a", num("2"))]);
    let text = encode(&v).unwrap();
    assert_eq!(text, ":root\n:data\npk,pk,a\n1,1,2\n");
    assert_eq!(parse(&text).unwrap(), v);
    let w = obj(vec![("pk", st("x")), ("inner", obj(vec![("k", num("3"))]))]);
    let text = encode(&w).unwrap();
    assert_eq!(parse(&text).unwrap(), w);
}

#[test]
fn table_of_objects_with_a_pk_data_key_reads_back() {
    let v = JsonValue::Array(vec![
        obj(vec![("pk", num("7")), ("a", st("x"))]),
        obj(vec![("pk", num("8")), ("a", st("y"))]),
    ]);
    let text = encode(&v).unwrap();
    assert_eq!(text, ":root[]\n:data\npk,pk,a\n1,7,x\n2,8,y\n");
    assert_eq!(parse(&text).unwrap(), v);
}
