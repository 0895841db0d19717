use json::loose::{Lexer, Token};

fn assert_lex(source: &str, tokens: &[Token]) {
    let mut lexer = Lexer::new(source);
    for tok in tokens {
        let token = lexer.next_token();
        assert_eq!(&token, tok);
    }
}

#[test]
fn json_parse_simple() {
    assert_lex(
        r#"{"a": "b", "c": "d"}"#,
        &vec![
            Token::ObjectStart("{"),
            Token::String("a".to_string()),
            Token::Colon(":"),
            Token::String("b".to_string()),
            Token::Comma(","),
            Token::String("c".to_string()),
            Token::Colon(":"),
            Token::String("d".to_string()),
            Token::ObjectEnd("}"),
            Token::EndOfFile,
        ],
    );
}

#[test]
fn json_parse_nested() {
    assert_lex(
        r#"{"a": [1, 2], "b": {"c": 3}}"#,
        &vec![
            Token::ObjectStart("{"),
            Token::String("a".to_string()),
            Token::Colon(":"),
            Token::ArrayStart("["),
            Token::Number("1".to_string()),
            Token::Comma(","),
            Token::Number("2".to_string()),
            Token::ArrayEnd("]"),
            Token::Comma(","),
            Token::String("b".to_string()),
            Token::Colon(":"),
            Token::ObjectStart("{"),
            Token::String("c".to_string()),
            Token::Colon(":"),
            Token::Number("3".to_string()),
            Token::ObjectEnd("}"),
            Token::ObjectEnd("}"),
            Token::EndOfFile,
        ],
    );
}

#[test]
fn json_grammar() {
    assert_lex("  \t\n\r", &vec![]);
    assert_lex("null", &vec![Token::String("null".to_string())]);
    assert_lex("[]", &vec![Token::ArrayStart("["), Token::ArrayEnd("]")]);
    assert_lex("{}", &vec![Token::ObjectStart("{"), Token::ObjectEnd("}")]);
    assert_lex("15.2", &vec![Token::Number("15.2".to_string())]);
    assert_lex("0.2", &vec![Token::Number("0.2".to_string())]);
    assert_lex("5e9", &vec![Token::Number("5e9".to_string())]);
    assert_lex("-4E-3", &vec![Token::Number("-4E-3".to_string())]);
    assert_lex("true", &vec![Token::String("true".to_string())]);
    assert_lex("false", &vec![Token::String("false".to_string())]);
    assert_lex(r#""""#, &vec![Token::String("\"".to_string())]);
    assert_lex(r#""a""#, &vec![Token::String("a".to_string())]);
    assert_lex(r#""\\""#, &vec![Token::String("\\".to_string())]);
    assert_lex(
        "[null,]",
        &vec![
            Token::ArrayStart("["),
            Token::String("null".to_string()),
            Token::Comma(","),
            Token::ArrayEnd("]"),
        ],
    );
}

#[test]
fn loose_words_and_quotes() {
    assert_lex(
        "'abc' null éa",
        &vec![
            Token::String("abc".to_string()),
            Token::String("null".to_string()),
            Token::String("éa".to_string()),
            Token::EndOfFile,
        ],
    );
    assert_lex(r#""ab1"#, &vec![Token::String("ab".to_string()), Token::EndOfFile]);
    assert_lex("\"", &vec![Token::String(String::new()), Token::EndOfFile]);
}

#[test]
fn loose_numbers_take_number_characters_only() {
    assert_lex(
        "-1.5e+3x 7\u{3000}8",
        &vec![
            Token::Number("-1.5e+3".to_string()),
            Token::String("x".to_string()),
            Token::Number("7".to_string()),
            Token::Number("8".to_string()),
            Token::EndOfFile,
        ],
    );
}

#[test]
fn loose_errors() {
    assert_lex(
        "* :",
        &vec![Token::Error, Token::Colon(":"), Token::EndOfFile],
    );
}
