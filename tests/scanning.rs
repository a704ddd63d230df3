use json_parser::scanner::{scan, ScanError, Token};

fn s(text: &str) -> String {
    text.to_string()
}

#[test]
fn scan_empty_input_gives_no_tokens() {
    assert_eq!(scan(s("")), Ok(vec![]));
}

#[test]
fn scan_whitespace_only_gives_no_tokens() {
    assert_eq!(scan(s(" \t\r\n\u{a0}\u{3000}")), Ok(vec![]));
}

#[test]
fn scan_punctuation() {
    assert_eq!(
        scan(s("{ } [ ] , :")),
        Ok(vec![
            Token::OpenBrace,
            Token::ClosingBrace,
            Token::OpenBracket,
            Token::ClosingBracket,
            Token::Comma,
            Token::Colon,
        ])
    );
}

#[test]
fn scan_keywords() {
    assert_eq!(scan(s("true false null")), Ok(vec![Token::True, Token::False, Token::Null]));
}

#[test]
fn scan_numbers_keep_their_text() {
    assert_eq!(
        scan(s("12.46 -3 0 7. -.5")),
        Ok(vec![
            Token::Number(s("12.46")),
            Token::Number(s("-3")),
            Token::Number(s("0")),
            Token::Number(s("7.")),
            Token::Number(s("-.5")),
        ])
    );
}

#[test]
fn scan_number_ends_at_other_characters() {
    assert_eq!(
        scan(s("[1,2]")),
        Ok(vec![
            Token::OpenBracket,
            Token::Number(s("1")),
            Token::Comma,
            Token::Number(s("2")),
            Token::ClosingBracket,
        ])
    );
}

#[test]
fn scan_malformed_number_names_the_lexeme() {
    assert_eq!(scan(s("12.46.5")), Err(ScanError::InvalidNumber(s("12.46.5"))));
}

#[test]
fn scan_lone_minus_is_not_a_number() {
    assert_eq!(scan(s("- 1")), Err(ScanError::InvalidNumber(s("-"))));
}

#[test]
fn scan_string_keeps_escapes_verbatim() {
    assert_eq!(
        scan(s(r#""a\"b\n" "x""#)),
        Ok(vec![Token::StringLiteral(s(r#"a\"b\n"#)), Token::StringLiteral(s("x"))])
    );
}

#[test]
fn scan_empty_string() {
    assert_eq!(scan(s(r#""""#)), Ok(vec![Token::StringLiteral(s(""))]));
}

#[test]
fn scan_unicode_string_contents() {
    assert_eq!(scan(s("\"h\u{e9}llo\"")), Ok(vec![Token::StringLiteral(s("h\u{e9}llo"))]));
}

#[test]
fn scan_unterminated_string() {
    assert_eq!(scan(s("\"abc")), Err(ScanError::UnterminatedString));
}

#[test]
fn scan_string_ending_in_backslash_is_unterminated() {
    assert_eq!(scan(s("\"abc\\\"")), Err(ScanError::UnterminatedString));
}

#[test]
fn scan_unknown_identifier() {
    assert_eq!(scan(s("nul")), Err(ScanError::UnexpectedIdentifier(s("nul"))));
}

#[test]
fn scan_identifier_takes_all_alphanumerics() {
    assert_eq!(scan(s("true1")), Err(ScanError::UnexpectedIdentifier(s("true1"))));
    assert_eq!(scan(s("trueX")), Err(ScanError::UnexpectedIdentifier(s("trueX"))));
    assert_eq!(
        scan(s("null\u{e9}")),
        Err(ScanError::UnexpectedIdentifier(s("null\u{e9}")))
    );
}

#[test]
fn scan_identifier_stops_at_punctuation() {
    assert_eq!(scan(s("true,")), Ok(vec![Token::True, Token::Comma]));
}

#[test]
fn scan_invalid_character() {
    assert_eq!(scan(s("True")), Err(ScanError::InvalidCharacter('T')));
    assert_eq!(scan(s("[1] +")), Err(ScanError::InvalidCharacter('+')));
}

#[test]
fn scan_first_error_wins() {
    assert_eq!(scan(s("@ \"abc")), Err(ScanError::InvalidCharacter('@')));
}

#[test]
fn rescanning_gives_equal_tokens() {
    let text = "{\"a\": [1, 2.5, true], \"b\": null}";
    assert_eq!(scan(s(text)), scan(s(text)));
}
