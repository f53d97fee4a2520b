use amber::diagnostic::{Diagnostic, Listener, Severity};
use amber::location::{Location, Offset};
use amber::manager::Manager;
use amber::scanner::{
    continues_identifier, continues_number, starts_identifier, unknown_character, CharCategory,
    Scanner,
};
use amber::source::Source;
use amber::token::{Token, TokenType};

#[derive(Default)]
struct Collected {
    diagnostics: Vec<Diagnostic>,
}

impl Listener for Collected {
    fn report(&mut self, diagnostic: Diagnostic) {
        self.diagnostics.push(diagnostic);
    }
}

fn describe(token: &Token) -> (TokenType, String, u32, u32) {
    let location = token.get_location();
    (
        token.get_type(),
        token.get_lexeme().unwrap().to_string(),
        location.get_start().0,
        location.get_end().0,
    )
}

/// Scans the last of `texts`, placed after the others.
fn scan(texts: &[&str]) -> (Vec<(TokenType, String, u32, u32)>, Vec<(String, u32, u32)>) {
    let mut manager = Manager::new();
    let (last, before) = texts.split_last().unwrap();
    for text in before {
        manager.add_source(Source::new("test.ab", text.as_bytes().to_vec()).unwrap());
    }
    let mut collected = Collected::default();
    let mut tokens = Vec::new();
    {
        let source = manager.add_source(Source::new("test.ab", last.as_bytes().to_vec()).unwrap());
        let mut scanner = Scanner::new(source, &mut collected);
        while let Some(token) = scanner.next() {
            tokens.push(describe(&token));
        }
        assert!(scanner.next().is_none());
    }
    let reports = collected
        .diagnostics
        .iter()
        .map(|d| {
            assert_eq!(d.get_severity().as_str(), "error");
            (d.get_message().to_string(), d.get_location().get_start().0, d.get_location().get_end().0)
        })
        .collect();
    (tokens, reports)
}

fn token(kind: TokenType, text: &str, start: u32, end: u32) -> (TokenType, String, u32, u32) {
    (kind, text.to_string(), start, end)
}

#[test]
fn splits_identifiers_numbers_and_illegal_characters() {
    let (tokens, reports) = scan(&["abc 12 3.5 x9"]);
    assert_eq!(
        tokens,
        vec![
            token(TokenType::Identifier, "abc", 0, 3),
            token(TokenType::Illegal, " ", 3, 4),
            token(TokenType::Integer, "12", 4, 6),
            token(TokenType::Illegal, " ", 6, 7),
            token(TokenType::Float, "3.5", 7, 10),
            token(TokenType::Illegal, " ", 10, 11),
            token(TokenType::Identifier, "x9", 11, 13),
        ]
    );
    assert_eq!(
        reports,
        vec![
            ("Unknown character: \" \"".to_string(), 3, 4),
            ("Unknown character: \" \"".to_string(), 6, 7),
            ("Unknown character: \" \"".to_string(), 10, 11),
        ]
    );
}

#[test]
fn takes_one_dot_into_a_number() {
    let (tokens, reports) = scan(&["1.2.3"]);
    assert_eq!(
        tokens,
        vec![
            token(TokenType::Float, "1.2", 0, 3),
            token(TokenType::Illegal, ".", 3, 4),
            token(TokenType::Integer, "3", 4, 5),
        ]
    );
    assert_eq!(reports, vec![("Unknown character: \".\"".to_string(), 3, 4)]);
}

#[test]
fn ends_a_number_with_a_trailing_dot() {
    let (tokens, _) = scan(&["7."]);
    assert_eq!(tokens, vec![token(TokenType::Float, "7.", 0, 2)]);
}

#[test]
fn reads_letters_beyond_ascii() {
    let (tokens, reports) = scan(&["été1\n"]);
    assert_eq!(
        tokens,
        vec![
            token(TokenType::Identifier, "été1", 0, 6),
            token(TokenType::Illegal, "\n", 6, 7),
        ]
    );
    assert_eq!(reports, vec![("Unknown character: \"\\n\"".to_string(), 6, 7)]);
}

#[test]
fn places_tokens_at_the_offset_of_their_source() {
    let (tokens, _) = scan(&["ab\n", "cd 4"]);
    assert_eq!(
        tokens,
        vec![
            token(TokenType::Identifier, "cd", 3, 5),
            token(TokenType::Illegal, " ", 5, 6),
            token(TokenType::Integer, "4", 6, 7),
        ]
    );
}

#[test]
fn finds_no_token_in_an_empty_source() {
    let (tokens, reports) = scan(&["x", ""]);
    assert!(tokens.is_empty());
    assert!(reports.is_empty());
}

#[test]
fn does_not_start_an_identifier_with_a_digit() {
    let (tokens, _) = scan(&["9a"]);
    assert_eq!(
        tokens,
        vec![token(TokenType::Integer, "9", 0, 1), token(TokenType::Identifier, "a", 1, 2)]
    );
}

#[test]
fn reports_unknown_characters_quoted() {
    let location = Location::new(Offset(2), 1);
    let diagnostic = unknown_character("$", location);
    assert_eq!(diagnostic.get_message(), "Unknown character: \"$\"");
    assert!(matches!(diagnostic.get_severity(), Severity::Error));
    assert_eq!(diagnostic.get_location(), location);
    assert!(diagnostic.get_labels().is_empty());
    let quote = unknown_character("\"", location);
    assert_eq!(quote.get_message(), "Unknown character: \"\\\"\"");
}

#[test]
fn tells_categories_apart() {
    assert!(starts_identifier(CharCategory::UppercaseLetter));
    assert!(starts_identifier(CharCategory::OtherLetter));
    assert!(!starts_identifier(CharCategory::DecimalNumber));
    assert!(!starts_identifier(CharCategory::Other));
    assert!(continues_identifier(CharCategory::DecimalNumber));
    assert!(continues_identifier(CharCategory::ModifierLetter));
    assert!(!continues_identifier(CharCategory::Other));
    assert_eq!(continues_number(CharCategory::DecimalNumber, '5', true), Some(true));
    assert_eq!(continues_number(CharCategory::DecimalNumber, '5', false), Some(false));
    assert_eq!(continues_number(CharCategory::Other, '.', false), Some(true));
    assert_eq!(continues_number(CharCategory::Other, '.', true), None);
    assert_eq!(continues_number(CharCategory::LowercaseLetter, 'e', false), None);
}

#[test]
fn builds_tokens() {
    let location = Location::new(Offset(1), 2);
    let token = Token::new(TokenType::Identifier, Some("ab"), location);
    assert_eq!(token.get_type(), TokenType::Identifier);
    assert_eq!(token.get_lexeme(), Some("ab"));
    assert_eq!(token.get_location(), location);
    let bare = Token::new(TokenType::Illegal, None, location);
    assert_eq!(bare.get_lexeme(), None);
}

#[test]
fn lexemes_rebuild_the_text() {
    let text = "let x1 = 4.25 + ü_2;\n\t9..0 €";
    let (tokens, _) = scan(&["prefix\n", text]);
    let rebuilt: String = tokens.iter().map(|t| t.1.as_str()).collect();
    assert_eq!(rebuilt, text);
    let mut expected = 7;
    for (_, lexeme, start, end) in &tokens {
        assert!(!lexeme.is_empty());
        assert_eq!(*start, expected);
        assert_eq!(*end - *start, lexeme.len() as u32);
        expected = *end;
    }
    assert_eq!(expected, 7 + text.len() as u32);
}
