use json::tokens::{Lexer, Token};

fn assert_lex(source: &str, tokens: &[Token]) {
    let mut lexer = Lexer::new(source);
    for tok in tokens {
        let token = lexer.next_token();
        assert_eq!(&token, tok);
    }
}

#[test]
fn tokens_parse_simple() {
    assert_lex(
        r#"{"a": "b", "c": "d"}"#,
        &vec![
            Token::ObjectStart,
            Token::String("a".to_string()),
            Token::Colon,
            Token::String("b".to_string()),
            Token::Comma,
            Token::String("c".to_string()),
            Token::Colon,
            Token::String("d".to_string()),
            Token::ObjectEnd,
            Token::EndOfFile,
        ],
    );
}

#[test]
fn tokens_parse_nested() {
    assert_lex(
        r#"{"a": [1, 2], "b": {"c": 3}}"#,
        &vec![
            Token::ObjectStart,
            Token::String("a".to_string()),
            Token::Colon,
            Token::ArrayStart,
            Token::Number("1".to_string()),
            Token::Comma,
            Token::Number("2".to_string()),
            Token::ArrayEnd,
            Token::Comma,
            Token::String("b".to_string()),
            Token::Colon,
            Token::ObjectStart,
            Token::String("c".to_string()),
            Token::Colon,
            Token::Number("3".to_string()),
            Token::ObjectEnd,
            Token::ObjectEnd,
            Token::EndOfFile,
        ],
    );
}

#[test]
fn tokens_grammar() {
    assert_lex("  \t\n\r", &vec![]);
    assert_lex("null", &vec![Token::Null]);
    assert_lex("[]", &vec![Token::ArrayStart, Token::ArrayEnd]);
    assert_lex("{}", &vec![Token::ObjectStart, Token::ObjectEnd]);
    assert_lex("15.2", &vec![Token::Number("15.2".to_string())]);
    assert_lex("0.2", &vec![Token::Number("0.2".to_string())]);
    assert_lex("5e9", &vec![Token::Number("5e9".to_string())]);
    assert_lex("-4E-3", &vec![Token::Number("-4E-3".to_string())]);
    assert_lex("true", &vec![Token::True]);
    assert_lex("false", &vec![Token::False]);
    assert_lex(r#"" ""#, &vec![Token::String(" ".to_string())]);
    assert_lex(r#""a""#, &vec![Token::String("a".to_string())]);
    assert_lex(
        "[null,]",
        &vec![
            Token::ArrayStart,
            Token::Null,
            Token::Comma,
            Token::ArrayEnd,
        ],
    );
}

#[test]
fn next_token_reports_end_of_file_repeatedly() {
    let mut lexer = Lexer::new(" [ ");
    assert_eq!(lexer.next_token(), Token::ArrayStart);
    assert_eq!(lexer.next_token(), Token::EndOfFile);
    assert_eq!(lexer.next_token(), Token::EndOfFile);
}

#[test]
fn failed_keyword_consumes_one_character() {
    let mut lexer = Lexer::new("nab");
    assert_eq!(lexer.next_token(), Token::Error);
    assert_eq!(lexer.next_token(), Token::Error);
    assert_eq!(lexer.next_token(), Token::Error);
    assert_eq!(lexer.next_token(), Token::EndOfFile);
}
