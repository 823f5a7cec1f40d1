use norm_codec::lexer::{lex, Cell, Token};
use norm_codec::NormError;

fn lex_ok(s: &str) -> Vec<(usize, Token)> {
    lex(s).expect("lex should succeed")
}

#[test]
fn rejects_bom() {
    let input = "\u{feff}:root\n";
    assert_eq!(lex(input), Err(NormError::BomDetected));
}

#[test]
fn rejects_null_byte() {
    let input = ":root\n\0\n";
    assert_eq!(lex(input), Err(NormError::NullByte { line: 2 }));
}

#[test]
fn classifies_root_declarations() {
    let toks = lex_ok(":root\n");
    assert_eq!(toks, vec![(1, Token::RootDeclaration { array: false })]);
    let toks = lex_ok(":root[]\n");
    assert_eq!(toks, vec![(1, Token::RootDeclaration { array: true })]);
}

#[test]
fn classifies_section_headers() {
    let toks = lex_ok(":root\n:items\n:tags[]\n");
    assert_eq!(
        toks,
        vec![
            (1, Token::RootDeclaration { array: false }),
            (
                2,
                Token::SectionHeader {
                    name: "items".into(),
                    array: false,
                }
            ),
            (
                3,
                Token::SectionHeader {
                    name: "tags".into(),
                    array: true,
                }
            ),
        ]
    );
}

#[test]
fn rejects_invalid_section_name() {
    let err = lex(":root\n:123bad\n").unwrap_err();
    assert!(matches!(err, NormError::InvalidSectionName { line: 2, .. }));
}

#[test]
fn strips_inline_comments_on_structural_lines() {
    let toks = lex_ok(":root[]  # array root\n:data  # the data\n");
    assert_eq!(
        toks,
        vec![
            (1, Token::RootDeclaration { array: true }),
            (
                2,
                Token::SectionHeader {
                    name: "data".into(),
                    array: false,
                }
            ),
        ]
    );
}

#[test]
fn classifies_blank_and_comment() {
    let toks = lex_ok("# comment\n\n:root\n");
    assert_eq!(
        toks,
        vec![
            (1, Token::Comment),
            (2, Token::Blank),
            (3, Token::RootDeclaration { array: false }),
        ]
    );
}

#[test]
fn parses_simple_data_row() {
    let toks = lex_ok(":root\n:data\na,b,c\n1,2,3\n");
    let row1 = &toks[2].1;
    let row2 = &toks[3].1;
    assert!(matches!(row1, Token::DataRow { .. }));
    assert!(matches!(row2, Token::DataRow { .. }));
    if let Token::DataRow { cells } = row1 {
        assert_eq!(
            cells,
            &vec![
                Cell::Unquoted("a".into()),
                Cell::Unquoted("b".into()),
                Cell::Unquoted("c".into()),
            ]
        );
    }
}

#[test]
fn lexer_distinguishes_empty_cell_from_empty_string() {
    let toks = lex_ok(":root\n:data\na,b\n\"\",\n");
    if let Token::DataRow { cells } = &toks[3].1 {
        assert_eq!(cells[0], Cell::Quoted("".into()));
        assert_eq!(cells[1], Cell::Unquoted("".into()));
    } else {
        panic!("expected data row");
    }
}

#[test]
fn preserves_hash_in_data_row() {
    let toks = lex_ok(":root\n:data\ncolor\ncolor #FF0000\n");
    if let Token::DataRow { cells } = &toks[3].1 {
        assert_eq!(cells[0], Cell::Unquoted("color #FF0000".into()));
    } else {
        panic!("expected data row");
    }
}

#[test]
fn handles_quoted_field_with_newline() {
    let toks = lex_ok(":root\n:data\na\n\"line one\nline two\"\n");
    if let Token::DataRow { cells } = &toks[3].1 {
        assert_eq!(cells[0], Cell::Quoted("line one\nline two".into()));
    } else {
        panic!("expected data row");
    }
}

#[test]
fn handles_escaped_double_quote() {
    let toks = lex_ok(":root\n:data\na\n\"he said \"\"hi\"\"\"\n");
    if let Token::DataRow { cells } = &toks[3].1 {
        assert_eq!(cells[0], Cell::Quoted("he said \"hi\"".into()));
    } else {
        panic!("expected data row");
    }
}

#[test]
fn trims_unquoted_whitespace() {
    let toks = lex_ok(":root\n:data\na\n  hello  \n");
    if let Token::DataRow { cells } = &toks[3].1 {
        assert_eq!(cells[0], Cell::Unquoted("hello".into()));
    } else {
        panic!("expected data row");
    }
}

#[test]
fn preserves_quoted_whitespace() {
    let toks = lex_ok(":root\n:data\na\n\"  spaced  \"\n");
    if let Token::DataRow { cells } = &toks[3].1 {
        assert_eq!(cells[0], Cell::Quoted("  spaced  ".into()));
    } else {
        panic!("expected data row");
    }
}

#[test]
fn strips_crlf() {
    let toks = lex_ok(":root\r\n:data\r\na\r\n1\r\n");
    assert_eq!(toks.len(), 4);
}

#[test]
fn quoted_field_spanning_lines_advances_line_numbers() {
    let toks = lex_ok(":root\n:data\na\n\"x\ny\"\n:next\n");
    assert_eq!(toks[3].0, 4);
    assert_eq!(
        toks[4],
        (
            6,
            Token::SectionHeader {
                name: "next".into(),
                array: false,
            }
        )
    );
}

#[test]
fn quoted_crlf_becomes_lf() {
    let toks = lex_ok(":root\n:data\na\n\"x\r\ny\"\n");
    if let Token::DataRow { cells } = &toks[3].1 {
        assert_eq!(cells[0], Cell::Quoted("x\ny".into()));
    } else {
        panic!("expected data row");
    }
}

#[test]
fn null_byte_inside_quoted_field_reports_its_line() {
    assert_eq!(
        lex(":root\n:data\na\n\"x\ny\0\"\n"),
        Err(NormError::NullByte { line: 5 })
    );
}

#[test]
fn bare_colon_is_an_invalid_section_name() {
    assert_eq!(
        lex(":root\n: \n"),
        Err(NormError::InvalidSectionName {
            line: 2,
            name: String::new()
        })
    );
}

#[test]
fn section_name_validity() {
    assert!(norm_codec::lexer::is_valid_section_name("_a1"));
    assert!(norm_codec::lexer::is_valid_section_name("Items"));
    assert!(!norm_codec::lexer::is_valid_section_name("1a"));
    assert!(!norm_codec::lexer::is_valid_section_name(""));
    assert!(!norm_codec::lexer::is_valid_section_name("a-b"));
}

#[test]
fn root_line_with_trailing_garbage_is_an_invalid_root() {
    assert_eq!(lex(":root garbage\n"), Err(NormError::InvalidRootDeclaration { line: 1 }));
    assert_eq!(
        norm_codec::parse(":root garbage\n:data\nk\nv\n").unwrap_err(),
        NormError::InvalidRootDeclaration { line: 1 }
    );
}

#[test]
fn quoted_field_reads_back_and_counts_its_lines() {
    let q = norm_codec::encoder::quote_csv("a\"b\nc");
    let input = format!(":root\n:data\nk\n{}\n:next\n", q);
    let toks = lex_ok(&input);
    assert_eq!(toks[3], (4, Token::DataRow { cells: vec![Cell::Quoted("a\"b\nc".into())] }));
    assert_eq!(toks[4], (6, Token::SectionHeader { name: "next".into(), array: false }));
}
