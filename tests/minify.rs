use json::minify::{Minify, RenderError};
use json::tokens::{Lexer, Token};

#[test]
fn small() {
    let input = r#"{
  "a": "b",
  "c": "d"
}"#;
    let minified = Minify::new(input);
    assert_eq!(r#"{"a":"b","c":"d"}"#.to_owned(), minified.to_string());
}

#[test]
fn medium() {
    let input = r#"{
  "name": "ola nordmann",
  "age": 100,
  "messages": ["hello", "world", "!"]
}"#;
    let minified = Minify::new(input);
    assert_eq!(
        r#"{"name":"ola nordmann","age":100,"messages":["hello","world","!"]}"#,
        minified.to_string()
    );
}

// https://github.com/getify/JSON.minify/blob/javascript/tests.js
#[test]
fn json_minify_js_1() {
    let source = "\
			{\n\
				\"foo\": \"bar\",	\n\
				\"bar\": [\n\
					\"baz\", \"bum\", \"zam\"\n\
				],\n\
                \n
				\"something\": 10,\n\
				\"else\": 20\n\
			}\n\
			\n\
			*/\n";
    assert_eq!(
        "{\"foo\":\"bar\",\"bar\":[\"baz\",\"bum\",\"zam\"],\"something\":10,\"else\":20}",
        Minify::new(source).to_string()
    );
}

fn minify(input: &str) -> String {
    Minify::new(input).to_string()
}

fn lex(input: &str) -> Vec<Token> {
    Lexer::new(input).read_to_end()
}

#[test]
fn whitespace_only_renders_empty() {
    for input in ["  \t\n\r", " ", "\u{3000}\u{a0}\n"] {
        assert_eq!(lex(input), vec![Token::EndOfFile]);
        assert_eq!(minify(input), "");
    }
    assert_eq!(lex(""), vec![]);
    assert_eq!(minify(""), "");
}

#[test]
fn minified_document_is_a_fixed_point() {
    let documents = [
        r#"{"a":"b","c":"d"}"#,
        r#"{"name":"ola nordmann","age":100,"messages":["hello","world","!"]}"#,
        r#"{"quote":"say \"hi\""}"#,
        r#"[-4E-3,5e9,15.2,0.2,null,true,false,{}]"#,
        "[null,]",
    ];
    for doc in documents {
        assert_eq!(minify(doc), doc);
        assert_eq!(minify(&minify(doc)), doc);
    }
}

#[test]
fn escaped_quote_survives_round_trip() {
    let doc = r#"["a\"b"]"#;
    assert_eq!(
        lex(doc),
        vec![Token::ArrayStart, Token::String(r#"a\"b"#.to_string()), Token::ArrayEnd]
    );
    assert_eq!(minify(doc), doc);
}

#[test]
fn whitespace_placement_changes_nothing() {
    let spaced = lex(r#"{ "a" : "b" }"#);
    let compact = lex(r#"{"a":"b"}"#);
    assert_eq!(spaced, compact);
    assert_eq!(minify(r#"{ "a" : "b" }"#), minify(r#"{"a":"b"}"#));
    assert_eq!(minify(" {\n\t\"a\" :\r\n [ 1 , 2 ] }"), r#"{"a":[1,2]}"#);
}

#[test]
fn numbers_pass_through_verbatim() {
    for number in ["-4E-3", "5e9", "15.2", "0.2", "1.2.3", "-", "12:3"] {
        assert_eq!(lex(number), vec![Token::Number(number.to_string())]);
        assert_eq!(minify(number), number);
    }
}

#[test]
fn number_ends_at_delimiters() {
    assert_eq!(
        lex("[1,2]"),
        vec![
            Token::ArrayStart,
            Token::Number("1".to_string()),
            Token::Comma,
            Token::Number("2".to_string()),
            Token::ArrayEnd,
        ]
    );
    assert_eq!(
        lex("{\"k\":7}"),
        vec![
            Token::ObjectStart,
            Token::String("k".to_string()),
            Token::Colon,
            Token::Number("7".to_string()),
            Token::ObjectEnd,
        ]
    );
    assert_eq!(
        lex("3\u{2003}4"),
        vec![Token::Number("3".to_string()), Token::Number("4".to_string())]
    );
}

#[test]
fn non_ascii_digit_starts_number() {
    assert_eq!(lex("٣٤"), vec![Token::Number("٣٤".to_string())]);
    assert_eq!(lex("x"), vec![Token::Error]);
}

#[test]
fn keyword_needs_exact_suffix() {
    assert_eq!(lex("truex"), vec![Token::True, Token::Error]);
    assert_eq!(lex("nope"), vec![Token::Error; 4]);
    assert_eq!(lex("nul"), vec![Token::Error, Token::Error, Token::Error]);
    assert_eq!(lex("fals"), vec![Token::Error, Token::Error, Token::Error, Token::Error]);
    assert_eq!(lex("nulll"), vec![Token::Null, Token::Error]);
    assert_eq!(lex("tru e"), vec![Token::Error, Token::Error, Token::Error, Token::Error]);
}

#[test]
fn trailing_comma_is_kept() {
    assert_eq!(minify("[null,]"), "[null,]");
    assert_eq!(minify("[ null , ]"), "[null,]");
}

#[test]
fn drain_ends_without_end_of_file_when_input_is_used_up() {
    assert_eq!(lex("null"), vec![Token::Null]);
    assert_eq!(lex("null "), vec![Token::Null, Token::EndOfFile]);
}

#[test]
fn drain_continues_after_error() {
    assert_eq!(lex("x1"), vec![Token::Error, Token::Number("1".to_string())]);
}

#[test]
fn string_scan_edge_cases() {
    assert_eq!(lex("\""), vec![Token::String(String::new())]);
    assert_eq!(lex("\"\""), vec![Token::String("\"".to_string())]);
    assert_eq!(lex(r#""\""#), vec![Token::String("\\".to_string())]);
    assert_eq!(lex("\"abc"), vec![Token::String("abc".to_string())]);
    assert_eq!(lex(r#""a\bc"d" 1"#), vec![
        Token::String(r#"a\bc"d"#.to_string()),
        Token::Number("1".to_string()),
    ]);
    assert_eq!(lex("\" x \""), vec![Token::String(" x ".to_string())]);
}

#[test]
fn render_stops_at_end_of_file() {
    let m = Minify::new("[1] ");
    match m.render() {
        Ok(out) => assert_eq!(out, "[1]"),
        Err(_) => panic!("no error token"),
    }
}

#[test]
fn render_reports_error_position() {
    let m = Minify::new("[1, x, 2]");
    match m.render() {
        Ok(_) => panic!("an error token was expected"),
        Err(RenderError { output, index }) => {
            assert_eq!(output, "[1,");
            assert_eq!(index, 3);
        }
    }
    assert_eq!(Minify::new("[1, x, 2]").to_string(), "[1,");
}

#[test]
fn render_error_on_truncated_keyword() {
    let m = Minify::new("truex");
    match m.render() {
        Ok(_) => panic!("an error token was expected"),
        Err(e) => {
            assert_eq!(e.output, "true");
            assert_eq!(e.index, 1);
        }
    }
}
