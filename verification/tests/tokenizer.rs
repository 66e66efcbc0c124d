use json_parser::lexer::{tokenize, Constant, JsonLexError, Token, Tokenizer};

fn string(text: &str) -> Token {
    Token::Constant(Constant::StringLiteral(text.to_string()))
}

fn integer(value: isize) -> Token {
    Token::Constant(Constant::Int(value))
}

fn float(text: &str) -> Token {
    Token::Constant(Constant::Float(text.to_string()))
}

fn tokens_of(json: &str) -> Vec<Token> {
    match tokenize(json) {
        Ok(tokens) => tokens,
        Err(err) => panic!("Error returned: {:?}", err),
    }
}

fn syntax_error(json: &str) -> String {
    match tokenize(json) {
        Ok(tokens) => panic!("**Tokens**: {:?}", tokens),
        Err(JsonLexError::InvalidSyntax(snippet)) => snippet,
    }
}

fn pull_all(json: &str) -> Vec<Result<Token, String>> {
    let mut tokenizer = Tokenizer::new(json);
    let mut items = Vec::new();
    while let Some(item) = tokenizer.next() {
        let failed = item.is_err();
        items.push(match item {
            Ok(token) => Ok(token),
            Err(JsonLexError::InvalidSyntax(snippet)) => Err(snippet),
        });
        if failed {
            break;
        }
    }
    items
}

const NESTED: &str = r#"
        {
            "key1": 1,
            "key2": "value2",
            "key3": [1, 2, 3],
            "key4": {
                "key5": "value5",
                "key6": 6
            }
        }
        "#;

const UNQUOTED_KEY: &str = r#"
        {
            "key1": 1,
            "key2": "value2",
            "key3": [1, 2, 3],
            "key4": {
                "key5": "value5",
                key6": 6
            }
        }
        "#;

#[test]
fn test_tokenize_1() {
    let json = r#"{"key": "value"}"#;
    let tokens = tokenize(json).expect("This should not crash");
    println!("**Tokens**: {:?}", tokens);
    assert_eq!(
        tokens,
        vec![
            Token::StartOfDict,
            string("key"),
            Token::Colon,
            string("value"),
            Token::EndOfDict,
        ]
    );
}

#[test]
fn test_tokenizer_1() {
    let json = r#"{"key": "value"}"#;
    let mut tokenizer = Tokenizer::new(json);
    let mut tokens = Vec::new();
    while let Some(token) = tokenizer.next() {
        let token = token.expect("should not crash");
        println!("Token: {:?}", token);
        tokens.push(token);
    }
    assert_eq!(
        tokens,
        vec![
            Token::StartOfDict,
            string("key"),
            Token::Colon,
            string("value"),
            Token::EndOfDict,
        ]
    );
}

#[test]
#[should_panic(expected = "Error returned")]
fn test_tokenize_invalid_json() {
    let tokens = match tokenize(UNQUOTED_KEY) {
        Ok(tokens) => tokens,
        Err(err) => panic!("Error returned: {:?}", err),
    };
    println!("**Tokens**: {:?}", tokens);
}

#[test]
#[should_panic(expected = "Error returned")]
fn test_tokenizer_invalid_json() {
    let mut tokenizer = Tokenizer::new(UNQUOTED_KEY);
    while let Some(token) = tokenizer.next() {
        let token = match token {
            Ok(token) => token,
            Err(err) => panic!("Error returned: {:?}", err),
        };
        println!("Token: {:?}", token);
    }
}

#[test]
fn tokenize_nested_document() {
    assert_eq!(
        tokens_of(NESTED),
        vec![
            Token::StartOfDict,
            string("key1"),
            Token::Colon,
            integer(1),
            Token::Comma,
            string("key2"),
            Token::Colon,
            string("value2"),
            Token::Comma,
            string("key3"),
            Token::Colon,
            Token::StartOfList,
            integer(1),
            Token::Comma,
            integer(2),
            Token::Comma,
            integer(3),
            Token::EndOfList,
            Token::Comma,
            string("key4"),
            Token::Colon,
            Token::StartOfDict,
            string("key5"),
            Token::Colon,
            string("value5"),
            Token::Comma,
            string("key6"),
            Token::Colon,
            integer(6),
            Token::EndOfDict,
            Token::EndOfDict,
        ]
    );
}

#[test]
fn tokenize_reports_the_unquoted_key() {
    assert_eq!(syntax_error(UNQUOTED_KEY), "k");
}

#[test]
fn tokenizer_gives_the_tokens_before_the_error() {
    let items = pull_all(r#"{"a": x}"#);
    assert_eq!(
        items,
        vec![
            Ok(Token::StartOfDict),
            Ok(string("a")),
            Ok(Token::Colon),
            Err("x".to_string()),
        ]
    );
}

#[test]
fn tokenizer_and_tokenize_agree() {
    for json in [
        "",
        "   ",
        "{}",
        "[]",
        NESTED,
        "[1, 2.5, null, \"x\"]",
        "1 2 3",
        "\"a\\\"b\"",
        "[.5]",
        "12.",
    ] {
        let pulled: Vec<Token> = pull_all(json)
            .into_iter()
            .map(|item| item.expect("should not crash"))
            .collect();
        assert_eq!(pulled, tokens_of(json));
    }
    for json in [UNQUOTED_KEY, "[1.2.3]", "nul", "[nil]", "\"open", "{\"a\": tru}", "."] {
        let snippet = syntax_error(json);
        assert_eq!(pull_all(json).last(), Some(&Err(snippet)));
    }
}

#[test]
fn empty_and_blank_texts_have_no_tokens() {
    assert_eq!(tokens_of(""), vec![]);
    assert_eq!(tokens_of(" \t\n  "), vec![]);
    let mut tokenizer = Tokenizer::new(" \n");
    assert!(tokenizer.next().is_none());
    assert!(tokenizer.next().is_none());
}

#[test]
fn blanks_between_tokens_are_skipped() {
    assert_eq!(
        tokens_of(" [ 1 ,\t2\n] "),
        vec![
            Token::StartOfList,
            integer(1),
            Token::Comma,
            integer(2),
            Token::EndOfList,
        ]
    );
}

#[test]
fn a_carriage_return_is_no_blank() {
    assert_eq!(syntax_error("[1,\r2]"), "\r");
}

#[test]
fn symbols_end_at_once() {
    assert_eq!(
        tokens_of("{}[]:,"),
        vec![
            Token::StartOfDict,
            Token::EndOfDict,
            Token::StartOfList,
            Token::EndOfList,
            Token::Colon,
            Token::Comma,
        ]
    );
    assert_eq!(tokens_of(","), vec![Token::Comma]);
}

#[test]
fn numbers() {
    assert_eq!(tokens_of("0"), vec![integer(0)]);
    assert_eq!(tokens_of("007"), vec![integer(7)]);
    assert_eq!(tokens_of("123456789"), vec![integer(123456789)]);
    assert_eq!(tokens_of("12 34"), vec![integer(12), integer(34)]);
    assert_eq!(tokens_of("1.5"), vec![float("1.5")]);
    assert_eq!(tokens_of("12."), vec![float("12.")]);
    assert_eq!(tokens_of(".5"), vec![float(".5")]);
    assert_eq!(tokens_of("[3.25]"), vec![Token::StartOfList, float("3.25"), Token::EndOfList]);
}

#[test]
fn an_integer_too_large_for_the_machine_is_a_float() {
    let text = "99999999999999999999999999";
    assert_eq!(tokens_of(text), vec![float(text)]);
    assert_eq!(
        tokens_of(&isize::MAX.to_string()),
        vec![integer(isize::MAX)]
    );
}

#[test]
fn a_second_decimal_point_is_an_error() {
    assert_eq!(syntax_error("1.2.3"), "1.2.");
    assert_eq!(syntax_error("[1..]"), "1..");
    assert_eq!(syntax_error(".."), "..");
}

#[test]
fn a_lone_decimal_point_is_no_number() {
    assert_eq!(syntax_error("."), ".");
    assert_eq!(syntax_error("[.]"), ".");
}

#[test]
fn a_sign_is_no_start_of_a_token() {
    assert_eq!(syntax_error("-1"), "-");
    assert_eq!(syntax_error("[+1]"), "+");
}

#[test]
fn numeric_characters_beyond_ascii_are_no_numbers() {
    assert_eq!(syntax_error("\u{663}"), "\u{663}");
    assert_eq!(syntax_error("[1\u{bc}]"), "1\u{bc}");
}

#[test]
fn strings_keep_their_escapes() {
    assert_eq!(tokens_of(r#""""#), vec![string("")]);
    assert_eq!(tokens_of(r#""a b""#), vec![string("a b")]);
    assert_eq!(tokens_of(r#""a\"b""#), vec![string(r#"a\"b"#)]);
    assert_eq!(tokens_of(r#""a\nb""#), vec![string(r#"a\nb"#)]);
    assert_eq!(tokens_of(r#""{[:,]}""#), vec![string("{[:,]}")]);
    assert_eq!(tokens_of("\"\u{e9}\u{4e09}\""), vec![string("\u{e9}\u{4e09}")]);
    assert_eq!(
        tokens_of(r#""a""b""#),
        vec![string("a"), string("b")]
    );
}

#[test]
fn a_quote_after_a_backslash_does_not_close() {
    assert_eq!(tokens_of(r#""a\\" ""#), vec![string(r#"a\\" "#)]);
    assert_eq!(tokens_of(r#""\""#), vec![string("\\")]);
}

#[test]
fn an_open_string_is_an_error() {
    assert_eq!(syntax_error(r#""abc"#), r#""abc"#);
    assert_eq!(syntax_error(r#"""#), r#"""#);
    assert_eq!(syntax_error(r#"["abc ]"#), r#""abc ]"#);
}

#[test]
fn null_is_spelled_out() {
    assert_eq!(tokens_of("null"), vec![Token::Constant(Constant::Null)]);
    assert_eq!(
        tokens_of("[null,null]"),
        vec![
            Token::StartOfList,
            Token::Constant(Constant::Null),
            Token::Comma,
            Token::Constant(Constant::Null),
            Token::EndOfList,
        ]
    );
    assert_eq!(
        tokens_of("null null"),
        vec![Token::Constant(Constant::Null), Token::Constant(Constant::Null)]
    );
    assert_eq!(syntax_error("n"), "n");
    assert_eq!(syntax_error("nu"), "nu");
    assert_eq!(syntax_error("nul"), "nul");
    assert_eq!(syntax_error("nul "), "nul ");
    assert_eq!(syntax_error("nil"), "ni");
    assert_eq!(syntax_error("nulll"), "l");
    assert_eq!(syntax_error("[nan]"), "na");
}

#[test]
fn true_and_false_do_not_start_a_token() {
    assert_eq!(syntax_error("true"), "t");
    assert_eq!(syntax_error("[false]"), "f");
}

#[test]
fn the_first_error_is_the_one_reported() {
    assert_eq!(syntax_error("[1, x, y]"), "x");
    assert_eq!(syntax_error("x"), "x");
    assert_eq!(syntax_error("[1,x"), "x");
}

#[test]
fn failure_is_permanent() {
    let mut tokenizer = Tokenizer::new("[?, 1, 2]");
    assert_eq!(tokenizer.next().map(|item| item.ok()), Some(Some(Token::StartOfList)));
    for _ in 0..5 {
        match tokenizer.next() {
            Some(Err(JsonLexError::InvalidSyntax(snippet))) => assert_eq!(snippet, "?"),
            other => panic!("Token: {:?}", other),
        }
    }
}

#[test]
fn failure_at_the_end_of_the_text_is_permanent() {
    let mut tokenizer = Tokenizer::new("[nul");
    assert_eq!(tokenizer.next().map(|item| item.ok()), Some(Some(Token::StartOfList)));
    for _ in 0..3 {
        match tokenizer.next() {
            Some(Err(JsonLexError::InvalidSyntax(snippet))) => assert_eq!(snippet, "nul"),
            other => panic!("Token: {:?}", other),
        }
    }
}

#[test]
fn a_token_that_is_no_token_fails_where_it_ends() {
    let mut tokenizer = Tokenizer::new(". 1");
    for _ in 0..3 {
        match tokenizer.next() {
            Some(Err(JsonLexError::InvalidSyntax(snippet))) => assert_eq!(snippet, "."),
            other => panic!("Token: {:?}", other),
        }
    }
}

#[test]
fn the_end_is_permanent() {
    let mut tokenizer = Tokenizer::new("1");
    assert_eq!(tokenizer.next().map(|item| item.ok()), Some(Some(integer(1))));
    for _ in 0..3 {
        assert!(tokenizer.next().is_none());
    }
}

#[test]
fn a_token_in_progress_is_the_last_item() {
    assert_eq!(tokens_of("[1"), vec![Token::StartOfList, integer(1)]);
    assert_eq!(tokens_of("1.5"), vec![float("1.5")]);
    assert_eq!(tokens_of("\"s\""), vec![string("s")]);
    assert_eq!(tokens_of("["), vec![Token::StartOfList]);
}
