use norm_codec::NormError;

fn count<F: Fn(&NormError) -> bool>(errors: &[NormError], pred: F) -> usize {
    errors.iter().filter(|e| pred(e)).count()
}

#[test]
fn collects_multiple_invalid_pks() {
    let input = ":root\n:data\nx\n@1\n\n:items\npk,name\n01,a\n02,b\n03,c\n";
    let errors = norm_codec::validate(input).unwrap_err();
    let invalid_pks = count(&errors, |e| matches!(e, NormError::InvalidPk { .. }));
    assert_eq!(invalid_pks, 3, "expected 3 InvalidPk errors, got {:?}", errors);
}

#[test]
fn collects_multiple_duplicate_pks() {
    let input = ":root\n:data\nx\n@1\n\n:items\npk,name\n1,a\n1,b\n1,c\n";
    let errors = norm_codec::validate(input).unwrap_err();
    let dup_pks = count(&errors, |e| matches!(e, NormError::DuplicatePk { .. }));
    assert_eq!(dup_pks, 2, "expected 2 DuplicatePk errors, got {:?}", errors);
}

#[test]
fn collects_multiple_unresolved_refs() {
    let input = ":root\n:data\na,b,c\n@missing1,@missing2,@missing3\n";
    let errors = norm_codec::validate(input).unwrap_err();
    let unresolved = count(&errors, |e| matches!(e, NormError::UnresolvedReference { .. }));
    assert_eq!(unresolved, 3, "expected 3 UnresolvedReference errors, got {:?}", errors);
}

#[test]
fn collects_mixed_error_types() {
    let input =
        ":root\n:data\na,b\n@missing,@1\n\n:items\npk,name\n01,alpha\n02,beta\n\n:items\nk\nv\n";
    let errors = norm_codec::validate(input).unwrap_err();
    assert!(
        count(&errors, |e| matches!(e, NormError::InvalidPk { .. })) >= 2,
        "expected multiple InvalidPk, got {:?}",
        errors
    );
    assert!(
        count(&errors, |e| matches!(e, NormError::UnresolvedReference { .. })) >= 1,
        "expected UnresolvedReference, got {:?}",
        errors
    );
    assert!(
        count(&errors, |e| matches!(e, NormError::DuplicateSectionName { .. })) >= 1,
        "expected DuplicateSectionName, got {:?}",
        errors
    );
}

#[test]
fn collects_multiple_empty_array_rows() {
    let input = ":root[]\n:items[]\nalpha\n\nbeta\n\ngamma\n";
    let errors = norm_codec::validate(input).unwrap_err();
    let empty_rows = count(&errors, |e| matches!(e, NormError::EmptyArrayRow { .. }));
    assert!(empty_rows >= 2, "expected multiple EmptyArrayRow errors, got {:?}", errors);
}

#[test]
fn collects_unreachable_plus_resolution_errors() {
    let input = ":root\n:data\nx\n@missing\n\n:ghost1\nk\nv\n\n:ghost2\nk\nv\n";
    let errors = norm_codec::validate(input).unwrap_err();
    assert_eq!(count(&errors, |e| matches!(e, NormError::UnresolvedReference { .. })), 1);
    assert_eq!(
        count(&errors, |e| matches!(e, NormError::UnreachableSection { .. })),
        2,
        "expected 2 UnreachableSection, got {:?}",
        errors
    );
}

#[test]
fn fatal_lex_error_short_circuits() {
    let input = "\u{feff}:root\n:data\nx\n@missing\n";
    let errors = norm_codec::validate(input).unwrap_err();
    assert_eq!(errors.len(), 1);
    assert!(matches!(errors[0], NormError::BomDetected));
}

#[test]
fn valid_document_returns_ok() {
    let input = ":root\n:data\nname,age\nAlice,30\n";
    assert!(norm_codec::validate(input).is_ok());
}

#[test]
fn parse_still_returns_first_error_only() {
    let input = ":root\n:data\nx\n@1\n\n:items\npk,name\n01,a\n02,b\n";
    let err = norm_codec::parse(input).unwrap_err();
    assert!(matches!(err, NormError::InvalidPk { .. }));
}

#[test]
fn validate_lists_invalid_pks_in_order() {
    let input = ":root\n:data\nx\n@1\n\n:items\npk,name\n01,a\n02,b\n";
    let errors = norm_codec::validate(input).unwrap_err();
    assert_eq!(errors[0], NormError::InvalidPk { line: 8, value: "01".to_string() });
    assert_eq!(errors[1], NormError::InvalidPk { line: 9, value: "02".to_string() });
    let first = norm_codec::parse(input).unwrap_err();
    assert_eq!(first, errors[0]);
}

#[test]
fn validate_reports_every_unreachable_section_in_order() {
    let input = ":root\n:data\nx\n1\n\n:b\nk\nv\n\n:a\nk\nv\n";
    let errors = norm_codec::validate(input).unwrap_err();
    assert_eq!(
        errors,
        vec![
            NormError::UnreachableSection { name: "b".to_string() },
            NormError::UnreachableSection { name: "a".to_string() },
        ]
    );
}

#[test]
fn parse_and_validate_accept_the_same_documents() {
    let inputs = [
        ":root\n:data\nname,age\nAlice,30\n",
        ":root[]\n:items\nname\nA\nB\n",
        ":root\n:data\nsel\n@1\n\n:items\npk,pk,name\n1,XYZ-001,Alice\n",
        ":root\n:data\nx\n@items\n\n:items\npk,next\n1,@2\n2,@1\n",
    ];
    for input in inputs.iter() {
        let p = norm_codec::parse(input);
        let v = norm_codec::validate(input);
        assert_eq!(p.is_ok(), v.is_ok(), "input {:?}", input);
        if let Err(e) = p {
            assert_eq!(v.unwrap_err()[0], e, "input {:?}", input);
        }
    }
}

#[test]
fn array_row_with_empty_first_cell_fails_both() {
    let input = ":root[]\n:items[]\n,a\n";
    assert_eq!(norm_codec::parse(input).unwrap_err(), NormError::EmptyArrayRow { line: 3 });
    let errors = norm_codec::validate(input).unwrap_err();
    assert_eq!(errors, vec![NormError::EmptyArrayRow { line: 3 }]);
}

#[test]
fn empty_array_rows_report_their_own_lines() {
    let input = ":root[]\n:items[]\nalpha\n\nbeta\n\ngamma\n";
    let errors = norm_codec::validate(input).unwrap_err();
    assert!(errors.contains(&NormError::EmptyArrayRow { line: 4 }), "got {:?}", errors);
    assert!(errors.contains(&NormError::EmptyArrayRow { line: 6 }), "got {:?}", errors);
}

#[test]
fn invalid_section_name_does_not_hide_other_errors() {
    let input = ":root\n:data\nx\n@missing\n\n:1bad\nk\nv\n";
    let errors = norm_codec::validate(input).unwrap_err();
    assert!(
        errors.contains(&NormError::InvalidSectionName { line: 6, name: "1bad".to_string() }),
        "got {:?}",
        errors
    );
    assert!(
        errors.iter().any(|e| matches!(e, NormError::UnresolvedReference { line: 4, .. })),
        "got {:?}",
        errors
    );
}

#[test]
fn root_table_cycle_is_reported_alike() {
    let input = ":root[]\n:items\nname,sub\nA,@items\n";
    assert_eq!(
        norm_codec::parse(input).unwrap_err(),
        NormError::CircularReference { reference: "@items".to_string() }
    );
    let errors = norm_codec::validate(input).unwrap_err();
    assert_eq!(errors, vec![NormError::CircularReference { reference: "@items".to_string() }]);
}

#[test]
fn parse_stops_at_an_invalid_section_name_first() {
    assert_eq!(
        norm_codec::parse(":root\n:1bad\n\0\n").unwrap_err(),
        NormError::InvalidSectionName { line: 2, name: "1bad".to_string() }
    );
    assert_eq!(
        norm_codec::parse(":root\n:1bad\nk\nv\n\n:root\n").unwrap_err(),
        NormError::InvalidSectionName { line: 2, name: "1bad".to_string() }
    );
}

#[test]
fn lexing_error_after_an_invalid_name_reports_the_name() {
    let errors = norm_codec::validate(":root\n:1bad\n\0\n").unwrap_err();
    assert_eq!(errors, vec![NormError::InvalidSectionName { line: 2, name: "1bad".to_string() }]);
}

#[test]
fn null_byte_is_the_only_error_reported() {
    let errors = norm_codec::validate(":root\n:data\nx\n@missing\n\0\n").unwrap_err();
    assert_eq!(errors, vec![NormError::NullByte { line: 5 }]);
}

#[test]
fn invalid_name_before_the_root_is_reported() {
    let input = ":1bad\n:root\n";
    assert_eq!(
        norm_codec::parse(input).unwrap_err(),
        NormError::InvalidSectionName { line: 1, name: "1bad".to_string() }
    );
    let errors = norm_codec::validate(input).unwrap_err();
    assert!(
        errors.contains(&NormError::InvalidSectionName { line: 1, name: "1bad".to_string() }),
        "got {:?}",
        errors
    );
}
