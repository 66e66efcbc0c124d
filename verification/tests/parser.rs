use json_parser::lexer::{tokenize, Constant, JsonLexError, Token};
use json_parser::parser::{
    parse, parse_dict, parse_list, parse_tokens, Json, JsonDict, JsonError, JsonParseError,
};

fn integer(value: isize) -> Json {
    Json::Value(Constant::Int(value))
}

fn string(text: &str) -> Json {
    Json::Value(Constant::StringLiteral(text.to_string()))
}

fn dict(entries: Vec<(&str, Json)>) -> Json {
    let mut map = JsonDict::new();
    for (key, value) in entries {
        map.insert(key.to_string(), value);
    }
    Json::Dict(map)
}

fn parsed(json: &str) -> Json {
    match parse(json) {
        Ok(p) => p,
        Err(e) => panic!("{:?}", e),
    }
}

fn tokens(json: &str) -> Vec<Token> {
    tokenize(json).expect("should not error")
}

fn unexpected_token(json: &str) -> Token {
    match parse(json) {
        Err(JsonError::JsonParseError(JsonParseError::UnexpectedToken(token))) => token,
        other => panic!("{:?}", other),
    }
}

fn assert_unexpected_end(json: &str) {
    match parse(json) {
        Err(JsonError::JsonParseError(JsonParseError::UnexpectedEndOfInput)) => {}
        other => panic!("{:?} for {:?}", other, json),
    }
}

fn lex_error(json: &str) -> String {
    match parse(json) {
        Err(JsonError::JsonLexError(JsonLexError::InvalidSyntax(snippet))) => snippet,
        other => panic!("{:?}", other),
    }
}

fn count(tokens: &[Token], wanted: &Token) -> usize {
    tokens.iter().filter(|token| *token == wanted).count()
}

fn balanced(tokens: &[Token]) -> bool {
    count(tokens, &Token::StartOfDict) == count(tokens, &Token::EndOfDict)
        && count(tokens, &Token::StartOfList) == count(tokens, &Token::EndOfList)
}

#[test]
fn test_full_valid_json() {
    let json = r#"
        {
            "key1": 1,
            "key2": "value2",
            "key3": [1, 2, 3],
            "key4": {
                "key5": "value5",
                "key6": 6
            }
        }
        "#;
    let parsed = match parse(json) {
        Ok(p) => p,
        Err(e) => panic!("{:?}", e),
    };

    let expected_json = {
        let mut expected_output = JsonDict::new();
        expected_output.insert("key1".to_string(), Json::Value(Constant::Int(1)));
        expected_output.insert(
            "key2".to_string(),
            Json::Value(Constant::StringLiteral("value2".to_string())),
        );
        expected_output.insert(
            "key3".to_string(),
            Json::List(vec![
                Json::Value(Constant::Int(1)),
                Json::Value(Constant::Int(2)),
                Json::Value(Constant::Int(3)),
            ]),
        );
        let mut key4_map = JsonDict::new();
        key4_map.insert(
            "key5".to_string(),
            Json::Value(Constant::StringLiteral("value5".to_string())),
        );
        key4_map.insert("key6".to_string(), Json::Value(Constant::Int(6)));
        expected_output.insert("key4".to_string(), Json::Dict(key4_map));
        Json::Dict(expected_output)
    };
    assert_eq!(parsed, expected_json);
    println!("{:?}", parsed);
}

#[test]
#[should_panic]
fn test_full_invalid_json() {
    let json = r#"
        {
            "key1": 1,
            "key2": "value2",
            "key3": [1, 2, 3],
            "key4": {
                "key5": "value5",
                key6": 6
            }
        }
        "#;
    let parsed = match parse(json) {
        Ok(p) => p,
        Err(e) => panic!("{:?}", e),
    };

    let expected_json = {
        let mut expected_output = JsonDict::new();
        expected_output.insert("key1".to_string(), Json::Value(Constant::Int(1)));
        expected_output.insert(
            "key2".to_string(),
            Json::Value(Constant::StringLiteral("value2".to_string())),
        );
        expected_output.insert(
            "key3".to_string(),
            Json::List(vec![
                Json::Value(Constant::Int(1)),
                Json::Value(Constant::Int(2)),
                Json::Value(Constant::Int(3)),
            ]),
        );
        let mut key4_map = JsonDict::new();
        key4_map.insert(
            "key5".to_string(),
            Json::Value(Constant::StringLiteral("value5".to_string())),
        );
        key4_map.insert("key6".to_string(), Json::Value(Constant::Int(6)));
        expected_output.insert("key4".to_string(), Json::Dict(key4_map));
        Json::Dict(expected_output)
    };
    assert_eq!(parsed, expected_json);
    println!("{:?}", parsed);
}

#[test]
fn parse_json() {
    // The first dictionary of this text is never closed.
    let raw_json = r#"
        [{"id":"2489651045","type":"CreateEvent","actor":{"id":665991,"login":"petroav","gravatar_id":"","url":"https://api.github.com/users/petroav","avatar_url":"https://avatars.githubusercontent.com/u/665991?"}]
    "#;
    assert!(!balanced(&tokens(raw_json)));
    assert_unexpected_end(raw_json);

    let raw_json = r#"
        [{"id":"2489651045","type":"CreateEvent","actor":{"id":665991,"login":"petroav","gravatar_id":"","url":"https://api.github.com/users/petroav","avatar_url":"https://avatars.githubusercontent.com/u/665991?"}}]
    "#;
    let json = parse(raw_json).expect("should not error");
    match json {
        Json::List(x) => match &x[0] {
            Json::Dict(x) => match x.get("actor").unwrap() {
                Json::Dict(x) => match x.get("login").unwrap() {
                    Json::Value(Constant::StringLiteral(x)) => {
                        assert_eq!(x, "petroav");
                        println!("login: {}", x);
                    }
                    _ => panic!("should be a string"),
                },
                _ => panic!("should be a dict"),
            },
            _ => panic!("should be a dict"),
        },
        _ => panic!("should be a list"),
    }
}

#[test]
fn a_dictionary_with_one_entry() {
    assert_eq!(parsed(r#"{"key": "value"}"#), dict(vec![("key", string("value"))]));
}

#[test]
fn a_list_of_three_integers() {
    assert_eq!(parsed("[1,2,3]"), Json::List(vec![integer(1), integer(2), integer(3)]));
}

#[test]
fn a_dictionary_in_a_dictionary() {
    assert_eq!(
        parsed(r#"{"a": {"b": 1}}"#),
        dict(vec![("a", dict(vec![("b", integer(1))]))])
    );
}

#[test]
fn empty_structures() {
    assert_eq!(parsed("{}"), Json::Dict(JsonDict::new()));
    assert_eq!(parsed("[]"), Json::List(vec![]));
    assert_eq!(parsed(" { } "), dict(vec![]));
    assert_eq!(parsed("[[], {}]"), Json::List(vec![Json::List(vec![]), dict(vec![])]));
    assert_eq!(
        parsed(r#"{"a": [], "b": {}}"#),
        dict(vec![("a", Json::List(vec![])), ("b", dict(vec![]))])
    );
    match parsed("{}") {
        Json::Dict(map) => assert_eq!(map.len(), 0),
        other => panic!("{:?}", other),
    }
}

#[test]
fn a_key_without_its_opening_quote() {
    assert_eq!(lex_error(r#"{"key1":1, key2": 2}"#), "k");
    let rest = [
        Token::StartOfDict,
        Token::Constant(Constant::StringLiteral("key1".to_string())),
        Token::Colon,
        Token::Constant(Constant::Int(1)),
        Token::Comma,
        Token::Constant(Constant::Int(2)),
        Token::EndOfDict,
    ];
    match parse_tokens(&rest) {
        Err(JsonParseError::UnexpectedToken(token)) => {
            assert_eq!(token, Token::Constant(Constant::Int(2)))
        }
        other => panic!("{:?}", other),
    }
}

#[test]
fn a_missing_closing_brace() {
    assert_eq!(unexpected_token(r#"{"a": 1"#), Token::Constant(Constant::Int(1)));
    assert_unexpected_end(r#"[{"a": 1]"#);
    assert_unexpected_end(r#"{"b": {"a": 1}"#);
    assert_unexpected_end("{");
    assert_unexpected_end("[");
    assert_eq!(unexpected_token("[["), Token::StartOfList);
    assert_eq!(unexpected_token(r#"{"a": {"#), Token::StartOfDict);
}

#[test]
fn a_partial_dictionary_is_never_returned() {
    for json in [
        r#"{"a": 1"#,
        r#"{"a": 1,"#,
        r#"{"a": 1, "b"}"#,
        r#"{"a": 1, "b":}"#,
        r#"{"a": 1, "b": {}"#,
        r#"{"a": 1, "b": [}"#,
        r#"[{"a": 1]"#,
    ] {
        assert!(parse(json).is_err(), "{:?}", json);
    }
}

#[test]
fn too_few_tokens() {
    assert_unexpected_end("");
    assert_unexpected_end("   ");
    assert_unexpected_end("1");
    assert_unexpected_end("}");
    assert_unexpected_end("\"text\"");
    match parse_tokens(&[]) {
        Err(JsonParseError::UnexpectedEndOfInput) => {}
        other => panic!("{:?}", other),
    }
    match parse_tokens(&[Token::StartOfDict]) {
        Err(JsonParseError::UnexpectedEndOfInput) => {}
        other => panic!("{:?}", other),
    }
}

#[test]
fn the_first_token_must_open_a_structure() {
    assert_eq!(unexpected_token("1 2"), Token::Constant(Constant::Int(1)));
    assert_eq!(unexpected_token("}{"), Token::EndOfDict);
    assert_eq!(unexpected_token("][]"), Token::EndOfList);
    assert_eq!(unexpected_token(", []"), Token::Comma);
    assert_eq!(unexpected_token("null null"), Token::Constant(Constant::Null));
}

#[test]
fn the_last_token_must_close_the_first() {
    assert_eq!(unexpected_token("{]"), Token::EndOfList);
    assert_eq!(unexpected_token("[}"), Token::EndOfDict);
    assert_eq!(unexpected_token("[1, 2"), Token::Constant(Constant::Int(2)));
    assert_eq!(unexpected_token("[] 1"), Token::Constant(Constant::Int(1)));
    assert_eq!(unexpected_token("{} ,"), Token::Comma);
    assert_eq!(unexpected_token("[] ["), Token::StartOfList);
}

#[test]
fn a_key_is_a_string_literal() {
    assert_eq!(unexpected_token("{1: 2}"), Token::Constant(Constant::Int(1)));
    assert_eq!(unexpected_token("{null: 2}"), Token::Constant(Constant::Null));
    assert_eq!(unexpected_token("{: 2}"), Token::Colon);
    assert_eq!(unexpected_token("{, }"), Token::Comma);
    assert_eq!(unexpected_token("{[]: 2}"), Token::StartOfList);
    assert_eq!(unexpected_token(r#"{"a": 1, 2: 3}"#), Token::Constant(Constant::Int(2)));
    assert_eq!(unexpected_token(r#"{{"a": 1}}"#), Token::StartOfDict);
}

#[test]
fn a_colon_follows_the_key() {
    assert_eq!(unexpected_token(r#"{"a" 1}"#), Token::Constant(Constant::Int(1)));
    assert_eq!(unexpected_token(r#"{"a", "b"}"#), Token::Comma);
    assert_eq!(
        unexpected_token(r#"{"a" "b": 1}"#),
        Token::Constant(Constant::StringLiteral("b".to_string()))
    );
    assert_unexpected_end(r#"{"a"}"#);
}

#[test]
fn a_value_follows_the_colon() {
    assert_unexpected_end(r#"{"a":}"#);
    assert_eq!(unexpected_token(r#"{"a": ,"b": 1}"#), Token::Comma);
    assert_eq!(unexpected_token(r#"{"a": : 1}"#), Token::Colon);
    assert_eq!(unexpected_token(r#"{"a": ] }"#), Token::EndOfList);
    assert_unexpected_end(r#"[{"a": } ]"#);
    assert_eq!(unexpected_token(r#"{"a": } }"#), Token::EndOfDict);
}

#[test]
fn a_comma_separates_what_a_body_holds() {
    assert_eq!(unexpected_token("[1 2]"), Token::Constant(Constant::Int(2)));
    assert_eq!(unexpected_token("[1: 2]"), Token::Colon);
    assert_eq!(unexpected_token("[[] []]"), Token::StartOfList);
    assert_eq!(
        unexpected_token(r#"{"a": 1 "b": 2}"#),
        Token::Constant(Constant::StringLiteral("b".to_string()))
    );
    assert_eq!(unexpected_token(r#"{"a": 1 : 2}"#), Token::Colon);
    assert_eq!(unexpected_token(r#"{"a": {} {}}"#), Token::StartOfDict);
    assert_eq!(unexpected_token("[,]"), Token::Comma);
    assert_eq!(unexpected_token("[1,,2]"), Token::Comma);
    assert_eq!(unexpected_token("[:]"), Token::Colon);
}

#[test]
fn a_comma_at_the_end_of_a_body_awaits_more() {
    assert_unexpected_end("[1,]");
    assert_unexpected_end(r#"{"a": 1,}"#);
    assert_unexpected_end("[[1,]]");
    assert_unexpected_end(r#"[{"a": 1,}]"#);
}

#[test]
fn a_closing_token_inside_a_body_is_unexpected() {
    assert_eq!(unexpected_token(r#"{"a": 1} }"#), Token::EndOfDict);
    assert_eq!(unexpected_token(r#"{"a": 1 } , "b": 2}"#), Token::EndOfDict);
    assert_eq!(unexpected_token("[1] ]"), Token::EndOfList);
    assert_eq!(unexpected_token("[1 } ]"), Token::EndOfDict);
}

#[test]
fn the_count_of_open_brackets_goes_by_kind() {
    assert_eq!(unexpected_token("[ { ] } ]"), Token::EndOfList);
    assert_eq!(unexpected_token("[ [ } ] ]"), Token::EndOfDict);
    assert_unexpected_end("[ { ] ]");
    assert_unexpected_end("{ \"a\": [ } }");
    assert_eq!(unexpected_token("{ ] [ }"), Token::EndOfList);
    assert_eq!(unexpected_token(r#"{ "a": [ } ] }"#), Token::EndOfDict);
    assert_eq!(
        parsed("[[1, [2]], [[3]]]"),
        Json::List(vec![
            Json::List(vec![integer(1), Json::List(vec![integer(2)])]),
            Json::List(vec![Json::List(vec![integer(3)])]),
        ])
    );
}

#[test]
fn a_syntax_error_comes_before_any_parse_error() {
    assert_eq!(lex_error("]x"), "x");
    assert_eq!(lex_error(r#"{"a" 1} tru"#), "t");
    assert_eq!(lex_error("{k"), "k");
    assert_eq!(lex_error(r#"{"a": 1.2.3}"#), "1.2.");
    assert_eq!(lex_error(r#"{"a": "open}"#), r#""open}"#);
}

#[test]
fn unbalanced_brackets_never_parse() {
    for json in [
        "{", "}", "[", "]", "{{}", "{}}", "[[]", "[]]", "[{]", "[}]", "{[}", "[[],[]", "[{},{]",
        r#"{"a": {"b": 1}"#,
        r#"{"a": [1, 2}"#,
        r#"{"a": {"b": [1, 2, {"c": 3}]}"#,
        r#"[1, [2, [3, [4]]]"#,
        r#"[{"a": 1}, {"b": 2]"#,
        "[[[[[[[[[[]]]]]]]]]",
    ] {
        let tokens = tokens(json);
        assert!(!balanced(&tokens), "{:?}", json);
        match parse(json) {
            Err(JsonError::JsonParseError(JsonParseError::UnexpectedToken(_))) => {}
            Err(JsonError::JsonParseError(JsonParseError::UnexpectedEndOfInput)) => {}
            other => panic!("{:?} for {:?}", other, json),
        }
        assert!(parse_tokens(&tokens).is_err());
    }
}

#[test]
fn what_parses_is_balanced() {
    for json in [
        "{}",
        "[]",
        "[[], [[]], {}]",
        r#"{"a": {"b": {"c": [1, {"d": []}]}}, "e": [{}, {}]}"#,
        r#"["{", "]", "}}"]"#,
    ] {
        assert!(parse(json).is_ok(), "{:?}", json);
        assert!(balanced(&tokens(json)), "{:?}", json);
    }
}

#[test]
fn one_entry_for_each_key() {
    let json = r#"{"a": 1, "b": 2, "a": 3, "c": 4, "b": {"a": 5}, "a": [6]}"#;
    match parsed(json) {
        Json::Dict(map) => {
            assert_eq!(map.len(), 3);
            assert_eq!(map.get("a"), Some(&Json::List(vec![integer(6)])));
            assert_eq!(map.get("b"), Some(&dict(vec![("a", integer(5))])));
            assert_eq!(map.get("c"), Some(&integer(4)));
            assert_eq!(map.get("d"), None);
        }
        other => panic!("{:?}", other),
    }
    assert_eq!(
        parsed(json),
        dict(vec![
            ("c", integer(4)),
            ("b", dict(vec![("a", integer(5))])),
            ("a", Json::List(vec![integer(6)])),
        ])
    );
}

#[test]
fn the_last_write_wins() {
    assert_eq!(parsed(r#"{"k": 1, "k": 2}"#), dict(vec![("k", integer(2))]));
    assert_eq!(parsed(r#"{"k": 1, "k": 2, "k": 1}"#), dict(vec![("k", integer(1))]));
    assert_ne!(parsed(r#"{"k": 1, "k": 2}"#), dict(vec![("k", integer(1))]));
    assert_eq!(
        parsed(r#"{"": 1, " ": 2, "": 3}"#),
        dict(vec![(" ", integer(2)), ("", integer(3))])
    );
}

#[test]
fn the_order_of_entries_is_not_significant() {
    assert_eq!(parsed(r#"{"a": 1, "b": 2}"#), parsed(r#"{"b": 2, "a": 1}"#));
    assert_ne!(parsed(r#"{"a": 1, "b": 2}"#), parsed(r#"{"a": 2, "b": 1}"#));
    assert_ne!(parsed(r#"{"a": 1, "b": 2}"#), parsed(r#"{"a": 1}"#));
    assert_ne!(parsed(r#"{"a": 1}"#), parsed(r#"{"a": 1, "b": 2}"#));
    assert_ne!(parsed(r#"{"a": 1, "b": 2}"#), parsed(r#"{"a": 1, "c": 2}"#));
}

#[test]
fn a_list_keeps_the_order_of_the_source() {
    assert_eq!(
        parsed(r#"[3, "b", 1, [2, 1], {"k": 0}, null, 3]"#),
        Json::List(vec![
            integer(3),
            string("b"),
            integer(1),
            Json::List(vec![integer(2), integer(1)]),
            dict(vec![("k", integer(0))]),
            Json::Value(Constant::Null),
            integer(3),
        ])
    );
    assert_ne!(parsed("[1, 2]"), parsed("[2, 1]"));
    assert_ne!(parsed("[1, 2]"), parsed("[1, 2, 2]"));
    let numbers: Vec<String> = (0..500).map(|i| (i * 7 % 501).to_string()).collect();
    let json = format!("[{}]", numbers.join(", "));
    let expected: Vec<Json> = (0..500).map(|i| integer(i * 7 % 501)).collect();
    assert_eq!(parsed(&json), Json::List(expected));
}

#[test]
fn constants_of_every_kind() {
    assert_eq!(
        parsed(r#"[1, 2.5, "s", null, 12345678901234567890123]"#),
        Json::List(vec![
            integer(1),
            Json::Value(Constant::Float("2.5".to_string())),
            string("s"),
            Json::Value(Constant::Null),
            Json::Value(Constant::Float("12345678901234567890123".to_string())),
        ])
    );
    let tokens = [
        Token::StartOfList,
        Token::Constant(Constant::Boolean(true)),
        Token::Comma,
        Token::Constant(Constant::Boolean(false)),
        Token::EndOfList,
    ];
    match parse_tokens(&tokens) {
        Ok(json) => assert_eq!(
            json,
            Json::List(vec![
                Json::Value(Constant::Boolean(true)),
                Json::Value(Constant::Boolean(false)),
            ])
        ),
        Err(e) => panic!("{:?}", e),
    }
}

#[test]
fn nesting_to_a_great_depth() {
    let depth = 300;
    let mut json = String::new();
    let mut expected = dict(vec![("leaf", integer(7))]);
    for level in 0..depth {
        if level % 2 == 0 {
            json.push('[');
        } else {
            json.push_str(r#"{"in": "#);
        }
    }
    json.push_str(r#"{"leaf": 7}"#);
    for level in (0..depth).rev() {
        if level % 2 == 0 {
            json.push(']');
            expected = Json::List(vec![expected]);
        } else {
            json.push('}');
            expected = dict(vec![("in", expected)]);
        }
    }
    assert_eq!(parsed(&json), expected);

    let inner = parsed(r#"{"a": [1, {"b": []}]}"#);
    assert_eq!(
        parsed(r#"[{"a": [1, {"b": []}]}]"#),
        Json::List(vec![inner])
    );
    let inner = parsed(r#"{"a": [1, {"b": []}]}"#);
    assert_eq!(
        parsed(r#"{"k": {"a": [1, {"b": []}]}}"#),
        dict(vec![("k", inner)])
    );
}

#[test]
fn each_level_ends_at_its_own_closing_token() {
    assert_eq!(
        parsed(r#"{"a": {"b": {"c": 1}, "d": 2}, "e": 3}"#),
        dict(vec![
            ("a", dict(vec![("b", dict(vec![("c", integer(1))])), ("d", integer(2))])),
            ("e", integer(3)),
        ])
    );
    assert_eq!(
        parsed("[[1, [2, 3]], 4, [[5]]]"),
        Json::List(vec![
            Json::List(vec![integer(1), Json::List(vec![integer(2), integer(3)])]),
            integer(4),
            Json::List(vec![Json::List(vec![integer(5)])]),
        ])
    );
}

#[test]
fn bodies_on_their_own() {
    let body = tokens(r#""a": 1, "b": [2]"#);
    match parse_dict(&body) {
        Ok(json) => assert_eq!(
            json,
            dict(vec![("a", integer(1)), ("b", Json::List(vec![integer(2)]))])
        ),
        Err(e) => panic!("{:?}", e),
    }
    let body = tokens(r#"1, {"a": 2}, []"#);
    match parse_list(&body) {
        Ok(json) => assert_eq!(
            json,
            Json::List(vec![integer(1), dict(vec![("a", integer(2))]), Json::List(vec![])])
        ),
        Err(e) => panic!("{:?}", e),
    }
    assert_eq!(parse_dict(&[]).ok(), Some(dict(vec![])));
    assert_eq!(parse_list(&[]).ok(), Some(Json::List(vec![])));
    match parse_dict(&tokens(r#""a": 1 }"#)) {
        Err(JsonParseError::UnexpectedToken(token)) => assert_eq!(token, Token::EndOfDict),
        other => panic!("{:?}", other),
    }
    match parse_list(&tokens("1, ]")) {
        Err(JsonParseError::UnexpectedToken(token)) => assert_eq!(token, Token::EndOfList),
        other => panic!("{:?}", other),
    }
    match parse_list(&tokens("1, [2")) {
        Err(JsonParseError::UnexpectedEndOfInput) => {}
        other => panic!("{:?}", other),
    }
    match parse_dict(&tokens(r#""a": "#)) {
        Err(JsonParseError::UnexpectedEndOfInput) => {}
        other => panic!("{:?}", other),
    }
}

#[test]
fn parse_is_tokenize_and_then_parse_tokens() {
    for json in [
        "{}",
        "[1, 2]",
        r#"{"a": [1, {"b": null}]}"#,
        "[1,]",
        "[1 2]",
        "{",
        "",
        r#"{"a": 1"#,
    ] {
        let by_steps = parse_tokens(&tokens(json));
        match (parse(json), by_steps) {
            (Ok(whole), Ok(steps)) => assert_eq!(whole, steps),
            (
                Err(JsonError::JsonParseError(JsonParseError::UnexpectedToken(whole))),
                Err(JsonParseError::UnexpectedToken(steps)),
            ) => assert_eq!(whole, steps),
            (
                Err(JsonError::JsonParseError(JsonParseError::UnexpectedEndOfInput)),
                Err(JsonParseError::UnexpectedEndOfInput),
            ) => {}
            other => panic!("{:?}", other),
        }
    }
}
