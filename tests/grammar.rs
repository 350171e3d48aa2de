use neo_tokens::attribute::{attributes, boolean_attribute, key_value_attribute};
use neo_tokens::lexer::{
    blank_line, dashes, empty_line, following_word_chars, initial_word_chars,
    lt_with_non_lt_char, non_lt_char, single_character_word, single_newline, whitespace, word,
    word_without_leading_dash, wordbreak,
};
use neo_tokens::paragraph::{initial_paragraph_word, list_item, paragraph, paragraphs};
use neo_tokens::section::{
    code_type_section, list_type_section, metadata_type_section, paragraph_type_section, section,
};
use neo_tokens::{nom_parse, NomToken, Source};

fn s(text: &str) -> Source {
    Source::new(text)
}

#[test]
fn test_attributes() {
    let source = s("-- sierra\n-- bravo\n");
    let left = vec![
        NomToken::Decorator("--".to_string(), 0, 2),
        NomToken::Comment("sierra".to_string(), 3, 9),
        NomToken::Decorator("--".to_string(), 10, 12),
        NomToken::Comment("bravo".to_string(), 13, 18),
    ];
    let right = attributes(&source, 0).unwrap().1;
    assert_eq!(left, right);
}

#[test]
fn test_blank_line() {
    let source = s("  \n");
    let right = blank_line(&source, 0).unwrap().0;
    assert_eq!(3, right);
}

#[test]
fn test_boolean_attribute() {
    let source = s("-- sierra\n");
    let left = vec![
        NomToken::Decorator("--".to_string(), 0, 2),
        NomToken::Comment("sierra".to_string(), 3, 9),
    ];
    let right = boolean_attribute(&source, 0).unwrap().1;
    assert_eq!(left, right);
}

#[test]
fn test_dashes() {
    let source = s("-- ");
    let left = vec![NomToken::Decorator("--".to_string(), 0, 2)];
    let right = dashes(&source, 0).unwrap().1;
    assert_eq!(left, right);
}

#[test]
fn test_empty_line() {
    let source = s("\n\n");
    let left = vec![NomToken::Whitespace];
    let right = empty_line(&source, 0).unwrap().1;
    assert_eq!(left, right);
}

#[test]
fn test_empty_line_including_whitespace() {
    let source = s("\n  \n\n\n \n");
    let left = vec![NomToken::Whitespace];
    let right = empty_line(&source, 0).unwrap().1;
    assert_eq!(left, right);
}

#[test]
fn test_following_word_chars_test() {
    let source = s("lfa");
    let left = vec![NomToken::String("lfa".to_string(), 0, 3)];
    let right = following_word_chars(&source, 0).unwrap().1;
    assert_eq!(left, right);
}

#[test]
fn test_initial_paragraph_word_via_just_text() {
    let source = s("alfa ");
    let left = vec![
        NomToken::String("a".to_string(), 0, 1),
        NomToken::String("lfa".to_string(), 1, 4),
    ];
    let right = initial_paragraph_word(&source, 0).unwrap().1;
    assert_eq!(left, right);
}

#[test]
fn nom_parser_test_initial_word_chars_via_lt() {
    let source = s("<f");
    let left = vec![
        NomToken::String("<".to_string(), 0, 1),
        NomToken::String("f".to_string(), 1, 2),
    ];
    let right = initial_word_chars(&source, 0).unwrap().1;
    assert_eq!(left, right);
}

#[test]
fn test_key_value_attribute() {
    let source = s("-- alfa: bravo");
    let left = vec![
        NomToken::Decorator("--".to_string(), 0, 2),
        NomToken::Comment("alfa".to_string(), 3, 7),
        NomToken::Comment(":".to_string(), 7, 8),
        NomToken::Comment("bravo".to_string(), 9, 14),
    ];
    let right = key_value_attribute(&source, 0).unwrap().1;
    assert_eq!(left, right);
}

#[test]
fn test_list_item() {
    let source = s("- papa sierra");
    let left = vec![
        NomToken::ListDash("-".to_string(), 0, 1),
        NomToken::String("p".to_string(), 2, 3),
        NomToken::String("apa".to_string(), 3, 6),
        NomToken::String("s".to_string(), 7, 8),
        NomToken::String("ierra".to_string(), 8, 13),
    ];
    let right = list_item(&source, 0).unwrap().1;
    assert_eq!(left, right);
}

#[test]
fn test_nom_parse_basic() {
    let source = "-- title\n\nsierra";
    let left = vec![
        NomToken::Decorator("--".to_string(), 0, 2),
        NomToken::Class("title".to_string(), 3, 8),
        NomToken::String("s".to_string(), 10, 11),
        NomToken::String("ierra".to_string(), 11, 16),
    ];
    let right = nom_parse(source).unwrap().1;
    assert_eq!(left, right);
}

#[test]
fn test_non_less_than_char_test() {
    let source = s("a");
    let left = vec![NomToken::String("a".to_string(), 0, 1)];
    let right = non_lt_char(&source, 0).unwrap().1;
    assert_eq!(left, right);
}

#[test]
fn test_non_less_than_char_via_skip_lt() {
    let source = s("<");
    match non_lt_char(&source, 0) {
        Some(_) => {
            assert_eq!(1, 2)
        }
        None => {
            assert_eq!(1, 1)
        }
    }
}

#[test]
fn test_lt_with_non_lt_chars() {
    let source = s("<a");
    let left = vec![
        NomToken::String("<".to_string(), 0, 1),
        NomToken::String("a".to_string(), 1, 2),
    ];
    let right = lt_with_non_lt_char(&source, 0).unwrap().1;
    assert_eq!(left, right);
}

#[test]
fn test_paragraph() {
    let source = s("echo <foxtrot hotel");
    let left = vec![
        NomToken::String("e".to_string(), 0, 1),
        NomToken::String("cho".to_string(), 1, 4),
        NomToken::String("<".to_string(), 5, 6),
        NomToken::String("f".to_string(), 6, 7),
        NomToken::String("oxtrot".to_string(), 7, 13),
        NomToken::String("h".to_string(), 14, 15),
        NomToken::String("otel".to_string(), 15, 19),
    ];
    let right = paragraph(&source, 0).unwrap().1;
    assert_eq!(left, right);
}

#[test]
fn test_paragraphs() {
    let source = s("alfa\n\nbravo\n\ncharlie");
    let left = vec![
        NomToken::String("a".to_string(), 0, 1),
        NomToken::String("lfa".to_string(), 1, 4),
        NomToken::String("b".to_string(), 6, 7),
        NomToken::String("ravo".to_string(), 7, 11),
        NomToken::String("c".to_string(), 13, 14),
        NomToken::String("harlie".to_string(), 14, 20),
    ];
    let right = paragraphs(&source, 0).unwrap().1;
    assert_eq!(left, right);
}

#[test]
fn test_single_character_word() {
    let source = s("<");
    let left = vec![NomToken::String("<".to_string(), 0, 1)];
    let right = single_character_word(&source, 0).unwrap().1;
    assert_eq!(left, right);
}

#[test]
fn test_single_newline() {
    let source = s("\n");
    let left = vec![NomToken::Whitespace];
    let right = single_newline(&source, 0).unwrap().1;
    assert_eq!(left, right);
}

#[test]
fn test_whitespace() {
    let source = s("  ");
    let left = vec![NomToken::Whitespace];
    let right = whitespace(&source, 0).unwrap().1;
    assert_eq!(left, right);
}

#[test]
fn test_word_via_lt() {
    let source = s("<delta");
    let left = vec![
        NomToken::String("<".to_string(), 0, 1),
        NomToken::String("d".to_string(), 1, 2),
        NomToken::String("elta".to_string(), 2, 6),
    ];
    let right = word(&source, 0).unwrap().1;
    assert_eq!(left, right);
}

#[test]
fn test_wordbreak() {
    let source = s("\n");
    let left = vec![NomToken::Whitespace];
    let right = wordbreak(&source, 0).unwrap().1;
    assert_eq!(left, right);
}

#[test]
fn test_paragraph_type_section() {
    let source = s("-- h1\n\nAlfa");
    let left = vec![
        NomToken::Decorator("--".to_string(), 0, 2),
        NomToken::Class("h1".to_string(), 3, 5),
        NomToken::String("A".to_string(), 7, 8),
        NomToken::String("lfa".to_string(), 8, 11),
    ];
    let right = paragraph_type_section(&source, 0).unwrap().1;
    assert_eq!(left, right);
}

#[test]
fn test_code_section() {
    let source = s("-- code\n-- b\n\nAlfa");
    let left = vec![
        NomToken::Decorator("--".to_string(), 0, 2),
        NomToken::Class("code".to_string(), 3, 7),
        NomToken::Decorator("--".to_string(), 8, 10),
        NomToken::Comment("b".to_string(), 11, 12),
        NomToken::String("A".to_string(), 14, 15),
        NomToken::String("lfa".to_string(), 15, 18),
    ];
    let right = code_type_section(&source, 0).unwrap().1;
    assert_eq!(left, right);
}

#[test]
fn test_section() {
    let source = s("-- h1\n\nAlfa");
    let left = vec![
        NomToken::Decorator("--".to_string(), 0, 2),
        NomToken::Class("h1".to_string(), 3, 5),
        NomToken::String("A".to_string(), 7, 8),
        NomToken::String("lfa".to_string(), 8, 11),
    ];
    let right = section(&source, 0).unwrap().1;
    assert_eq!(left, right);
}

#[test]
fn test_list_type_section() {
    let source = s("-- notes\n-- b\n\n- Alfa");
    let left = vec![
        NomToken::Decorator("--".to_string(), 0, 2),
        NomToken::Class("notes".to_string(), 3, 8),
        NomToken::Decorator("--".to_string(), 9, 11),
        NomToken::Comment("b".to_string(), 12, 13),
        NomToken::ListDash("-".to_string(), 15, 16),
        NomToken::String("A".to_string(), 17, 18),
        NomToken::String("lfa".to_string(), 18, 21),
    ];
    let right = list_type_section(&source, 0).unwrap().1;
    assert_eq!(left, right);
}

#[test]
fn test_metadata_type_section_basic() {
    let source = s("-- metadata\n-- id: asdf");
    let left = vec![
        NomToken::Decorator("--".to_string(), 0, 2),
        NomToken::Class("metadata".to_string(), 3, 11),
        NomToken::Decorator("--".to_string(), 12, 14),
        NomToken::Comment("id".to_string(), 15, 17),
        NomToken::Comment(":".to_string(), 17, 18),
        NomToken::Comment("asdf".to_string(), 19, 23),
    ];
    let right = metadata_type_section(&source, 0).unwrap().1;
    assert_eq!(left, right);
}

#[test]
fn test_metadata_type_sections_next_to_each_other() {
    let source = "-- categories\n-- Rust\n\n-- metadata\n-- id: tango";
    let left = vec![
        NomToken::Decorator("--".to_string(), 0, 2),
        NomToken::Class("categories".to_string(), 3, 13),
        NomToken::Decorator("--".to_string(), 14, 16),
        NomToken::Comment("Rust".to_string(), 17, 21),
        NomToken::Decorator("--".to_string(), 23, 25),
        NomToken::Class("metadata".to_string(), 26, 34),
        NomToken::Decorator("--".to_string(), 35, 37),
        NomToken::Comment("id".to_string(), 38, 40),
        NomToken::Comment(":".to_string(), 40, 41),
        NomToken::Comment("tango".to_string(), 42, 47),
    ];
    let right = nom_parse(source).unwrap().1;
    assert_eq!(left, right);
}

#[test]
fn test_h1_section() {
    let source = s("-- h1\n\nAlfa");
    let left = vec![
        NomToken::Decorator("--".to_string(), 0, 2),
        NomToken::Class("h1".to_string(), 3, 5),
        NomToken::String("A".to_string(), 7, 8),
        NomToken::String("lfa".to_string(), 8, 11),
    ];
    let right = paragraph_type_section(&source, 0).unwrap().1;
    assert_eq!(left, right);
}

#[test]
fn test_title_section() {
    let source = s("-- title\n\nAlfa\n\nBravo");
    let left = vec![
        NomToken::Decorator("--".to_string(), 0, 2),
        NomToken::Class("title".to_string(), 3, 8),
        NomToken::String("A".to_string(), 10, 11),
        NomToken::String("lfa".to_string(), 11, 14),
        NomToken::String("B".to_string(), 16, 17),
        NomToken::String("ravo".to_string(), 17, 21),
    ];
    let right = paragraph_type_section(&source, 0).unwrap().1;
    assert_eq!(left, right);
}

#[test]
fn test_title_with_key_value_attributes() {
    let source = s("-- title\n-- autofocus\n-- delta: echo\n\nAlfa\n\nBravo");
    let left = vec![
        NomToken::Decorator("--".to_string(), 0, 2),
        NomToken::Class("title".to_string(), 3, 8),
        NomToken::Decorator("--".to_string(), 9, 11),
        NomToken::Comment("autofocus".to_string(), 12, 21),
        NomToken::Decorator("--".to_string(), 22, 24),
        NomToken::Comment("delta".to_string(), 25, 30),
        NomToken::Comment(":".to_string(), 30, 31),
        NomToken::Comment("echo".to_string(), 32, 36),
        NomToken::String("A".to_string(), 38, 39),
        NomToken::String("lfa".to_string(), 39, 42),
        NomToken::String("B".to_string(), 44, 45),
        NomToken::String("ravo".to_string(), 45, 49),
    ];
    let right = paragraph_type_section(&source, 0).unwrap().1;
    assert_eq!(left, right);
}

#[test]
fn test_title_with_boolean_attributes() {
    let source = s("-- title\n-- b\n\nAlfa");
    let left = vec![
        NomToken::Decorator("--".to_string(), 0, 2),
        NomToken::Class("title".to_string(), 3, 8),
        NomToken::Decorator("--".to_string(), 9, 11),
        NomToken::Comment("b".to_string(), 12, 13),
        NomToken::String("A".to_string(), 15, 16),
        NomToken::String("lfa".to_string(), 16, 19),
    ];
    let right = paragraph_type_section(&source, 0).unwrap().1;
    assert_eq!(left, right);
}

#[test]
fn test_integration_basic() {
    let source = "-- title\n\nAlfa\n\n-- h2\n\nBravo a b";
    let left = vec![
        NomToken::Decorator("--".to_string(), 0, 2),
        NomToken::Class("title".to_string(), 3, 8),
        NomToken::String("A".to_string(), 10, 11),
        NomToken::String("lfa".to_string(), 11, 14),
        NomToken::Decorator("--".to_string(), 16, 18),
        NomToken::Class("h2".to_string(), 19, 21),
        NomToken::String("B".to_string(), 23, 24),
        NomToken::String("ravo".to_string(), 24, 28),
        NomToken::String("a".to_string(), 29, 30),
        NomToken::String("b".to_string(), 31, 32),
    ];
    let right = nom_parse(source).unwrap().1;
    assert_eq!(left, right);
}

#[test]
fn test_word_without_leading_dash() {
    let source = s("<delta");
    let left = vec![
        NomToken::String("<".to_string(), 0, 1),
        NomToken::String("delta".to_string(), 1, 6),
    ];
    let right = word_without_leading_dash(&source, 0).unwrap().1;
    assert_eq!(left, right);
}

#[test]
fn non_less_than_char_test_skip_lt() {
    let source = s("<");
    match non_lt_char(&source, 0) {
        Some(_) => {
            assert_eq!(1, 2)
        }
        None => {
            assert_eq!(1, 1)
        }
    }
}
