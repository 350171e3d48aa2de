use neo_tokens::lexer::word;
use neo_tokens::paragraph::paragraph;
use neo_tokens::section::{keyword_policy, section};
use neo_tokens::{nom_parse, tokenize, BodyPolicy, ErrorKind, NomToken, ParseError, Source};

fn st(t: &str, a: usize, b: usize) -> NomToken {
    NomToken::String(t.to_string(), a, b)
}

#[test]
fn title_section_scenario() {
    let doc = tokenize("-- title\n\nAlfa");
    assert_eq!(
        doc.tokens,
        vec![
            NomToken::Decorator("--".to_string(), 0, 2),
            NomToken::Class("title".to_string(), 3, 8),
            st("A", 10, 11),
            st("lfa", 11, 14),
        ]
    );
    assert!(doc.errors.is_empty());
}

#[test]
fn boolean_attribute_scenario() {
    let doc = tokenize("-- h1\n-- b\n\nAlfa");
    assert_eq!(
        doc.tokens,
        vec![
            NomToken::Decorator("--".to_string(), 0, 2),
            NomToken::Class("h1".to_string(), 3, 5),
            NomToken::Decorator("--".to_string(), 6, 8),
            NomToken::Comment("b".to_string(), 9, 10),
            st("A", 12, 13),
            st("lfa", 13, 16),
        ]
    );
    assert!(doc.errors.is_empty());
}

#[test]
fn metadata_scenario() {
    let doc = tokenize("-- metadata\n-- id: asdf");
    assert_eq!(
        doc.tokens,
        vec![
            NomToken::Decorator("--".to_string(), 0, 2),
            NomToken::Class("metadata".to_string(), 3, 11),
            NomToken::Decorator("--".to_string(), 12, 14),
            NomToken::Comment("id".to_string(), 15, 17),
            NomToken::Comment(":".to_string(), 17, 18),
            NomToken::Comment("asdf".to_string(), 19, 23),
        ]
    );
    assert!(doc.errors.is_empty());
}

#[test]
fn list_item_scenario() {
    let doc = tokenize("-- list\n\n- Alfa");
    assert_eq!(
        doc.tokens,
        vec![
            NomToken::Decorator("--".to_string(), 0, 2),
            NomToken::Class("list".to_string(), 3, 7),
            NomToken::ListDash("-".to_string(), 9, 10),
            st("A", 11, 12),
            st("lfa", 12, 15),
        ]
    );
}

#[test]
fn unrecognized_keyword_scenario() {
    let doc = tokenize("-- bogus\n\nAlfa");
    assert!(doc.tokens.is_empty());
    assert_eq!(
        doc.errors,
        vec![
            ParseError { offset: 3, kind: ErrorKind::UnrecognizedKeyword },
            ParseError { offset: 10, kind: ErrorKind::ExpectedSection },
        ]
    );
}

#[test]
fn two_sections_scenario() {
    let doc = tokenize("-- title\n\nAlfa\n\n-- h2\n\nBravo a b");
    assert_eq!(
        doc.tokens,
        vec![
            NomToken::Decorator("--".to_string(), 0, 2),
            NomToken::Class("title".to_string(), 3, 8),
            st("A", 10, 11),
            st("lfa", 11, 14),
            NomToken::Decorator("--".to_string(), 16, 18),
            NomToken::Class("h2".to_string(), 19, 21),
            st("B", 23, 24),
            st("ravo", 24, 28),
            st("a", 29, 30),
            st("b", 31, 32),
        ]
    );
    assert!(doc.errors.is_empty());
}

#[test]
fn recovery_keeps_later_sections() {
    let doc = tokenize("-- bogus\n\n-- h2\n\nBravo");
    assert_eq!(
        doc.tokens,
        vec![
            NomToken::Decorator("--".to_string(), 10, 12),
            NomToken::Class("h2".to_string(), 13, 15),
            st("B", 17, 18),
            st("ravo", 18, 22),
        ]
    );
    assert_eq!(doc.errors, vec![ParseError { offset: 3, kind: ErrorKind::UnrecognizedKeyword }]);
}

#[test]
fn malformed_attribute_error() {
    let doc = tokenize("-- title\n-- a:\n\nAlfa");
    assert!(doc.tokens.is_empty());
    assert_eq!(doc.errors[0], ParseError { offset: 9, kind: ErrorKind::MalformedAttribute });
}

#[test]
fn missing_separator_error() {
    let doc = tokenize("-- title\nAlfa");
    assert!(doc.tokens.is_empty());
    assert_eq!(doc.errors, vec![ParseError { offset: 9, kind: ErrorKind::MissingSeparator }]);
}

#[test]
fn missing_line_break_after_keyword() {
    let src = Source::new("-- title Alfa\n\nBravo");
    assert_eq!(section(&src, 0), Err((9, ErrorKind::MissingSeparator)));
}

#[test]
fn empty_body_error() {
    let doc = tokenize("-- title\n\n-- h2\n\nBravo");
    assert_eq!(doc.errors[0], ParseError { offset: 10, kind: ErrorKind::EmptyBody });
}

#[test]
fn expected_section_error_descriptions() {
    assert_eq!(ErrorKind::ExpectedSection.expected(), "a section header");
    assert_eq!(ErrorKind::EmptyBody.expected(), "at least one paragraph");
    assert_eq!(ErrorKind::UnrecognizedKeyword.expected(), "a recognized section keyword");
}

#[test]
fn nom_parse_reports_first_failure() {
    assert_eq!(
        nom_parse("Alfa"),
        Err(ParseError { offset: 0, kind: ErrorKind::ExpectedSection })
    );
    assert_eq!(
        nom_parse("-- nope\n\nAlfa"),
        Err(ParseError { offset: 3, kind: ErrorKind::UnrecognizedKeyword })
    );
}

#[test]
fn nom_parse_stops_at_first_bad_section() {
    let (stop, toks) = nom_parse("-- title\n\nAlfa\n\n-- bogus\n\nBravo").unwrap();
    assert_eq!(stop, 16);
    assert_eq!(toks.len(), 4);
}

#[test]
fn empty_document() {
    let doc = tokenize("");
    assert!(doc.tokens.is_empty());
    assert!(doc.errors.is_empty());
}

#[test]
fn trailing_newline_is_no_error() {
    let doc = tokenize("-- title\n\nAlfa\n");
    assert_eq!(doc.tokens.len(), 4);
    assert!(doc.errors.is_empty());
}

#[test]
fn byte_offsets_of_multibyte_text() {
    let doc = tokenize("-- title\n\nÉtoile ün");
    assert_eq!(
        doc.tokens[2..].to_vec(),
        vec![st("É", 10, 12), st("toile", 12, 17), st("ü", 18, 20), st("n", 20, 21)]
    );
}

#[test]
fn keyword_table() {
    let src = Source::new("warnings script group youtube warn");
    assert_eq!(keyword_policy(&src, 0, 8), Some(BodyPolicy::List));
    assert_eq!(keyword_policy(&src, 9, 15), Some(BodyPolicy::Code));
    assert_eq!(keyword_policy(&src, 16, 21), Some(BodyPolicy::Metadata));
    assert_eq!(keyword_policy(&src, 22, 29), Some(BodyPolicy::Paragraphs));
    assert_eq!(keyword_policy(&src, 30, 34), None);
}

#[test]
fn keyword_prefix_is_not_a_keyword() {
    let doc = tokenize("-- h10\n\nAlfa");
    assert!(doc.tokens.is_empty());
    assert_eq!(doc.errors[0], ParseError { offset: 3, kind: ErrorKind::UnrecognizedKeyword });
}

#[test]
fn word_of_two_characters_splits_in_two() {
    let src = Source::new("ab cd");
    assert_eq!(word(&src, 0), Some((2, vec![st("a", 0, 1), st("b", 1, 2)])));
}

#[test]
fn word_of_one_character_is_one_token() {
    let src = Source::new("x y");
    assert_eq!(word(&src, 0), Some((1, vec![st("x", 0, 1)])));
}

#[test]
fn marker_followed_by_one_character() {
    let src = Source::new("<f");
    assert_eq!(word(&src, 0), Some((2, vec![st("<", 0, 1), st("f", 1, 2)])));
}

#[test]
fn repeated_markers_split_one_by_one() {
    let src = Source::new("<<ab");
    assert_eq!(
        word(&src, 0),
        Some((4, vec![st("<", 0, 1), st("<", 1, 2), st("a", 2, 3), st("b", 3, 4)]))
    );
}

#[test]
fn paragraph_never_starts_with_decorator() {
    let src = Source::new("--x alfa");
    assert_eq!(paragraph(&src, 0), None);
    let src = Source::new("-x alfa");
    assert_eq!(
        paragraph(&src, 0),
        Some((7, vec![st("-", 0, 1), st("x", 1, 2), st("a", 3, 4), st("lfa", 4, 7)]))
    );
}

#[test]
fn paragraph_spans_single_newlines() {
    let src = Source::new("ab\ncd  \n\nef");
    assert_eq!(
        paragraph(&src, 0),
        Some((7, vec![st("a", 0, 1), st("b", 1, 2), st("c", 3, 4), st("d", 4, 5)]))
    );
}

#[test]
fn list_with_two_items() {
    let doc = tokenize("-- list\n\n- ab\n\n- cd");
    assert_eq!(
        doc.tokens[2..].to_vec(),
        vec![
            NomToken::ListDash("-".to_string(), 9, 10),
            st("a", 11, 12),
            st("b", 12, 13),
            NomToken::ListDash("-".to_string(), 15, 16),
            st("c", 17, 18),
            st("d", 18, 19),
        ]
    );
    assert!(doc.errors.is_empty());
}

#[test]
fn empty_list_is_allowed() {
    let doc = tokenize("-- notes\n\n");
    assert_eq!(doc.tokens.len(), 2);
    assert!(doc.errors.is_empty());
}

#[test]
fn blank_line_run_collapses() {
    let doc = tokenize("-- title\n\n\n  \n\nAlfa\n\n\n\nBravo");
    assert_eq!(
        doc.tokens[2..].to_vec(),
        vec![st("A", 15, 16), st("lfa", 16, 19), st("B", 23, 24), st("ravo", 24, 28)]
    );
    assert!(doc.errors.is_empty());
}

#[test]
fn code_section_is_split_into_words() {
    let doc = tokenize("-- code\n\nfn main()");
    assert_eq!(
        doc.tokens[2..].to_vec(),
        vec![st("f", 9, 10), st("n", 10, 11), st("m", 12, 13), st("ain()", 13, 18)]
    );
}

#[test]
fn spans_are_ordered_and_texts_match() {
    let text = "-- title\n-- id: x\n\nAlfa <b>bravo</b> c\n\n-- list\n\n- d e\n\n- <f";
    let doc = tokenize(text);
    assert!(doc.errors.is_empty());
    let mut last = 0;
    for t in &doc.tokens {
        let (txt, a, b) = match t {
            NomToken::Decorator(x, a, b)
            | NomToken::Class(x, a, b)
            | NomToken::Comment(x, a, b)
            | NomToken::String(x, a, b)
            | NomToken::ListDash(x, a, b) => (x.clone(), *a, *b),
            _ => panic!("unexpected token kind"),
        };
        assert!(last <= a && a < b);
        assert_eq!(&text[a..b], txt);
        last = b;
    }
}

#[test]
fn paragraph_retokenized_alone_has_same_kinds() {
    let text = "-- title\n\nAlfa <b bravo\ncharlie";
    let src = Source::new(text);
    let (_, whole) = paragraph(&src, 10).unwrap();
    let alone = Source::new(&text[10..]);
    let (_, again) = paragraph(&alone, 0).unwrap();
    assert_eq!(whole.len(), again.len());
    for (a, b) in whole.iter().zip(again.iter()) {
        assert_eq!(std::mem::discriminant(a), std::mem::discriminant(b));
    }
}
