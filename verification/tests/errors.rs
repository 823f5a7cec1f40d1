use norm_codec::NormError;

#[test]
fn bom_detected() {
    let input = "\u{feff}:root\n:data\nk\nv\n";
    let err = norm_codec::parse(input).unwrap_err();
    assert!(matches!(err, NormError::BomDetected), "got {:?}", err);
}

#[test]
fn null_byte_detected() {
    let input = ":root\n:data\nk\nv\n\0\n";
    let err = norm_codec::parse(input).unwrap_err();
    assert!(matches!(err, NormError::NullByte { .. }), "got {:?}", err);
}

#[test]
fn invalid_root_declaration() {
    let input = ":root\n:data\nk\nv\n\n:root\nk\nv\n";
    let err = norm_codec::parse(input).unwrap_err();
    assert!(matches!(err, NormError::InvalidRootDeclaration { .. }), "got {:?}", err);
}

#[test]
fn null_byte_reports_its_line() {
    let input = ":root\n:data\nk\nv\n\0\n";
    let err = norm_codec::parse(input).unwrap_err();
    assert_eq!(err, NormError::NullByte { line: 5 });
}

#[test]
fn repeated_root_reports_its_line() {
    let input = ":root\n:data\nk\nv\n\n:root\nk\nv\n";
    let err = norm_codec::parse(input).unwrap_err();
    assert_eq!(err, NormError::InvalidRootDeclaration { line: 6 });
}

#[test]
fn duplicate_pk_reports_second_line_and_value() {
    let input = ":root\n:data\nx\n@1\n\n:items\npk,name\n1,a\n\n:more\npk,name\n1,b\n";
    let err = norm_codec::parse(input).unwrap_err();
    assert_eq!(err, NormError::DuplicatePk { line: 12, pk: "1".to_string() });
}

#[test]
fn circular_reference_names_the_row() {
    let input = ":root\n:data\nx\n@items\n\n:items\npk,next\n1,@2\n2,@1\n";
    let err = norm_codec::parse(input).unwrap_err();
    assert!(matches!(err, NormError::CircularReference { .. }), "got {:?}", err);
}

#[test]
fn unresolved_reference_carries_the_reference_text() {
    let input = ":root\n:data\nx\n@99\n\n:items\npk,name\n1,a\n";
    let err = norm_codec::parse(input).unwrap_err();
    assert_eq!(err, NormError::UnresolvedReference { line: 4, reference: "@99".to_string() });
}

#[test]
fn unreachable_section_names_the_section() {
    let input = ":root\n:data\nx\n1\n\n:orphan\nk\nv\n";
    let err = norm_codec::parse(input).unwrap_err();
    assert_eq!(err, NormError::UnreachableSection { name: "orphan".to_string() });
}

#[test]
fn missing_root_when_section_comes_first() {
    let err = norm_codec::parse("# note\n:data\nk\nv\n").unwrap_err();
    assert_eq!(err, NormError::MissingRootDeclaration);
    let err = norm_codec::parse("").unwrap_err();
    assert_eq!(err, NormError::MissingRootDeclaration);
}

#[test]
fn messages_name_the_line_and_the_value() {
    assert_eq!(NormError::NullByte { line: 5 }.message(), "null byte at line 5");
    assert_eq!(
        NormError::InvalidSectionName { line: 6, name: "1bad".to_string() }.message(),
        "invalid section name \"1bad\" at line 6"
    );
    assert_eq!(
        NormError::InvalidPk { line: 8, value: "01".to_string() }.message(),
        "invalid pk value \"01\" at line 8 (leading zeros not permitted)"
    );
    assert_eq!(
        NormError::DuplicatePk { line: 12, pk: "1".to_string() }.message(),
        "duplicate pk 1 at line 12"
    );
    assert_eq!(
        NormError::MultipleRootRows { line: 3 }.message(),
        ":root document has multiple rows in its root section (line 3)"
    );
    assert_eq!(
        NormError::CircularReference { reference: "a\"b\n".to_string() }.message(),
        "circular reference detected involving \"a\\\"b\\n\""
    );
    assert_eq!(
        NormError::UnreachableSection { name: "ghost".to_string() }.message(),
        "section \"ghost\" is unreachable from the root"
    );
    assert_eq!(
        NormError::ScalarRoot.message(),
        "encoder: root JSON value must be an object or array, not a scalar"
    );
}
