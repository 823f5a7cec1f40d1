use norm_codec::{parse, JsonValue, NormError};

fn num(s: &str) -> JsonValue {
    JsonValue::Number(s.to_string())
}

fn st(s: &str) -> JsonValue {
    JsonValue::String(s.to_string())
}

fn obj(members: Vec<(&str, JsonValue)>) -> JsonValue {
    JsonValue::Object(members.into_iter().map(|(k, v)| (k.to_string(), v)).collect())
}

#[test]
fn rejects_missing_root() {
    let err = parse(":data\nk\nv\n").unwrap_err();
    assert!(matches!(err, NormError::MissingRootDeclaration));
}

#[test]
fn parses_simple_object_root() {
    let input = ":root\n:data\nname,age\nAlice,30\n";
    let v = parse(input).unwrap();
    assert_eq!(v, obj(vec![("name", st("Alice")), ("age", num("30"))]));
}

#[test]
fn parses_array_root() {
    let input = ":root[]\n:items\nname,age\nAlice,30\nBob,25\n";
    let v = parse(input).unwrap();
    assert_eq!(
        v,
        JsonValue::Array(vec![
            obj(vec![("name", st("Alice")), ("age", num("30"))]),
            obj(vec![("name", st("Bob")), ("age", num("25"))]),
        ])
    );
}

#[test]
fn rejects_multiple_root_rows() {
    let input = ":root\n:data\nname\nAlice\nBob\n";
    let err = parse(input).unwrap_err();
    assert!(matches!(err, NormError::MultipleRootRows { .. }));
}

#[test]
fn rejects_array_section_as_root() {
    let input = ":root\n:items[]\na\nb\n";
    let err = parse(input).unwrap_err();
    assert!(matches!(err, NormError::ArraySectionAsRoot { .. }));
}

#[test]
fn rejects_duplicate_section_name() {
    let input = ":root\n:data\nk\nv\n\n:data\nk\nv\n";
    let err = parse(input).unwrap_err();
    assert!(matches!(err, NormError::DuplicateSectionName { .. }));
}

#[test]
fn rejects_duplicate_pk() {
    let input = ":root\n:data\nx\n@1\n\n:items\npk,name\n1,a\n\n:more\npk,name\n1,b\n";
    let err = parse(input).unwrap_err();
    assert!(matches!(err, NormError::DuplicatePk { .. }));
}

#[test]
fn rejects_invalid_pk_leading_zero() {
    let input = ":root\n:data\nx\n@01\n\n:items\npk,name\n01,a\n";
    let err = parse(input).unwrap_err();
    assert!(matches!(err, NormError::InvalidPk { .. }));
}

#[test]
fn rejects_unresolved_row_ref() {
    let input = ":root\n:data\nx\n@99\n\n:items\npk,name\n1,a\n";
    let err = parse(input).unwrap_err();
    assert!(matches!(err, NormError::UnresolvedReference { .. }));
}

#[test]
fn rejects_unresolved_named_ref() {
    let input = ":root\n:data\nx\n@missing\n";
    let err = parse(input).unwrap_err();
    assert!(matches!(err, NormError::UnresolvedReference { .. }));
}

#[test]
fn rejects_circular_reference() {
    let input = ":root\n:data\nx\n@items\n\n:items\npk,next\n1,@2\n2,@1\n";
    let err = parse(input).unwrap_err();
    assert!(matches!(err, NormError::CircularReference { .. }));
}

#[test]
fn rejects_unreachable_section() {
    let input = ":root\n:data\nx\n1\n\n:orphan\nk\nv\n";
    let err = parse(input).unwrap_err();
    assert!(matches!(err, NormError::UnreachableSection { .. }));
}

#[test]
fn rejects_empty_array_row() {
    let input = ":root[]\n:items[]\na\n\"\"\n\nb\n";
    let _ = input;
}

#[test]
fn maps_quoted_and_bare_values() {
    let input = ":root\n:data\nq,n,b,nl\n\"42\",42,true,null\n";
    let v = parse(input).unwrap();
    assert_eq!(
        v,
        obj(vec![("q", st("42")), ("n", num("42")), ("b", JsonValue::Bool(true)), ("nl", JsonValue::Null)])
    );
}

#[test]
fn parser_distinguishes_empty_cell_from_empty_string() {
    let input = ":root\n:data\na,b\n,\"\"\n";
    let v = parse(input).unwrap();
    assert_eq!(v, obj(vec![("b", st(""))]));
}

#[test]
fn handles_pk_collision_second_pk_is_data() {
    let input = ":root\n:data\nsel\n@1\n\n:items\npk,pk,name\n1,XYZ-001,Alice\n";
    let v = parse(input).unwrap();
    assert_eq!(v, obj(vec![("sel", obj(vec![("pk", st("XYZ-001")), ("name", st("Alice"))]))]));
}

#[test]
fn bare_numbers_are_normalised_like_json() {
    let input = ":root\n:data\na,b,c,d\n1E5,-0.5,007,1.\n";
    let v = parse(input).unwrap();
    assert_eq!(
        v,
        obj(vec![("a", num("1e+5")), ("b", num("-0.5")), ("c", st("007")), ("d", st("1."))])
    );
}

#[test]
fn named_reference_to_table_gives_array_of_rows() {
    let input = ":root\n:data\nlist\n@items\n\n:items\nname\nA\nB\n";
    let v = parse(input).unwrap();
    assert_eq!(
        v,
        obj(vec![("list", JsonValue::Array(vec![obj(vec![("name", st("A"))]), obj(vec![("name", st("B"))])]))])
    );
}

#[test]
fn array_section_values_and_empty_array_reference() {
    let input = ":root\n:data\nxs,e\n@xs,@[]\n\n:xs[]\n1\ntwo\n\"3\"\n";
    let v = parse(input).unwrap();
    assert_eq!(
        v,
        obj(vec![
            ("xs", JsonValue::Array(vec![num("1"), st("two"), st("3")])),
            ("e", JsonValue::Array(vec![])),
        ])
    );
}

#[test]
fn unexpected_data_row_reports_its_line() {
    let input = ":root\nstray\n:data\nk\nv\n";
    let err = parse(input).unwrap_err();
    assert_eq!(err, NormError::UnexpectedDataRow { line: 2 });
}

#[test]
fn empty_array_row_reports_its_line() {
    let input = ":root[]\n:items[]\nalpha\n\nbeta\n";
    let err = parse(input).unwrap_err();
    assert_eq!(err, NormError::EmptyArrayRow { line: 4 });
}

#[test]
fn invalid_section_name_reports_name_and_line() {
    let input = ":root\n:data\nk\nv\n\n:9lives\nk\nv\n";
    let err = parse(input).unwrap_err();
    assert_eq!(err, NormError::InvalidSectionName { line: 6, name: "9lives".to_string() });
}

#[test]
fn parse_fails_exactly_when_validate_fails() {
    let inputs = [
        ":root\n:data\nname,age\nAlice,30\n",
        ":root\n:data\nx\n@1\n\n:items\npk,name\n01,a\n02,b\n",
        ":root\n:data\nx\n@missing\n\n:ghost\nk\nv\n",
        ":root[]\n:items[]\na\n\nb\n",
        "\u{feff}:root\n",
    ];
    for input in inputs.iter() {
        let p = parse(input);
        let v = norm_codec::validate(input);
        assert_eq!(p.is_ok(), v.is_ok(), "input {:?}", input);
    }
}

#[test]
fn quoted_empty_array_row_is_a_value() {
    let v = parse(":root[]\n:items[]\n\"\"\n").unwrap();
    assert_eq!(v, norm_codec::JsonValue::Array(vec![norm_codec::JsonValue::String(String::new())]));
}
