use rjson::json::{Json, Number};
use rjson::lexer::Lexer;
use rjson::query::{parse_query, Failure, PanicSite};
use rjson::token::{Token, TokenError};
use serde_json::Value;

fn from_value(v: &Value) -> Json {
    match v {
        Value::Null => Json::Null,
        Value::Bool(b) => Json::Bool(*b),
        Value::Number(n) => {
            if let Some(u) = n.as_u64() {
                Json::Number(Number::PosInt(u))
            } else if let Some(i) = n.as_i64() {
                Json::Number(Number::NegInt(i))
            } else {
                Json::Number(Number::Float(n.as_f64().unwrap().to_bits(), n.to_string()))
            }
        }
        Value::String(s) => Json::String(s.clone()),
        Value::Array(items) => Json::Array(items.iter().map(from_value).collect()),
        Value::Object(map) => Json::Object(map.iter().map(|(k, v)| (k.clone(), from_value(v))).collect()),
    }
}

fn to_value(j: &Json) -> Value {
    match j {
        Json::Null => Value::Null,
        Json::Bool(b) => Value::Bool(*b),
        Json::Number(Number::PosInt(u)) => Value::from(*u),
        Json::Number(Number::NegInt(i)) => Value::from(*i),
        Json::Number(Number::Float(b, _)) => Value::from(f64::from_bits(*b)),
        Json::String(s) => Value::String(s.clone()),
        Json::Array(items) => Value::Array(items.iter().map(to_value).collect()),
        Json::Object(members) => {
            Value::Object(members.iter().map(|(k, v)| (k.clone(), to_value(v))).collect())
        }
    }
}

fn doc(text: &str) -> Json {
    from_value(&serde_json::from_str::<Value>(text).unwrap())
}

fn parse(text: &str) -> Value {
    serde_json::from_str(text).unwrap()
}

const PEOPLE: &str = r#"{
    "people": [
        {"name": "Ann", "age": 30, "score": 2.5, "tags": ["a", "b"]},
        {"name": "Bob", "age": 40, "score": 3.5, "tags": ["b"]},
        {"name": "Cid", "age": 50, "score": 4.0, "tags": ["c", "a", "a"]}
    ],
    "nested": {"inner": {"leaf": 7}},
    "neg": -3
}"#;

fn ok(expression: &str) -> Value {
    to_value(&doc(PEOPLE).rjson_get(expression).expect("lookup failed"))
}

fn err(expression: &str) -> TokenError {
    match doc(PEOPLE).evaluate(expression) {
        Err(Failure::Error(e)) => e,
        other => panic!("expected an error, got {:?}", other),
    }
}

fn halt(expression: &str) -> PanicSite {
    match doc(PEOPLE).evaluate(expression) {
        Err(Failure::Panic(p)) => p,
        other => panic!("expected a halt, got {:?}", other),
    }
}

fn msg(e: TokenError) -> String {
    match e {
        TokenError::Msg(m) => m,
        other => panic!("expected a message, got {:?}", other),
    }
}

#[test]
fn nested_keys_walk_down() {
    assert_eq!(ok("nested.inner.leaf"), parse("7"));
}

#[test]
fn key_path_composes() {
    let first = doc(PEOPLE).rjson_get("nested").unwrap();
    let second = first.rjson_get("inner").unwrap();
    let whole = doc(PEOPLE).rjson_get("nested.inner").unwrap();
    assert!(second.same(&whole));
}

#[test]
fn count_of_items() {
    assert_eq!(ok("people.#"), parse("3"));
}

#[test]
fn integer_comparisons() {
    assert_eq!(ok("people.#(age>30)#.name"), parse(r#"["Bob", "Cid"]"#));
    assert_eq!(ok("people.#(age>=40)#.name"), parse(r#"["Bob", "Cid"]"#));
    assert_eq!(ok("people.#(age<40)#.name"), parse(r#"["Ann"]"#));
    assert_eq!(ok("people.#(age<=40)#.name"), parse(r#"["Ann", "Bob"]"#));
    assert_eq!(ok("people.#(age==50)#.name"), parse(r#"["Cid"]"#));
    assert_eq!(ok("people.#(age!=50)#.name"), parse(r#"["Ann", "Bob"]"#));
}

#[test]
fn double_comparisons() {
    assert_eq!(ok("people.#(score>2.5)#.name"), parse(r#"["Bob", "Cid"]"#));
    assert_eq!(ok("people.#(score>=3.5)#.name"), parse(r#"["Bob", "Cid"]"#));
    assert_eq!(ok("people.#(score<3.5)#.name"), parse(r#"["Ann"]"#));
    assert_eq!(ok("people.#(score==4.0)#.name"), parse(r#"["Cid"]"#));
    assert_eq!(ok("people.#(score!=4.0)#.name"), parse(r#"["Ann", "Bob"]"#));
}

#[test]
fn less_or_equal_on_a_double_is_strict() {
    assert_eq!(ok("people.#(score<=3.5)#.name"), parse(r#"["Ann"]"#));
}

#[test]
fn integers_compare_with_doubles() {
    assert_eq!(ok("people.#(age>35.5)#.name"), parse(r#"["Bob", "Cid"]"#));
    assert_eq!(ok("people.#(age==40.0)#.name"), parse(r#"["Bob"]"#));
}

#[test]
fn string_equality() {
    assert_eq!(ok(r#"people.#(name=="Bob")#.age"#), parse("[40]"));
    assert_eq!(ok(r#"people.#(name!="Bob")#.age"#), parse("[30, 50]"));
}

#[test]
fn equal_and_not_equal_split_the_items() {
    let eq = ok(r#"people.#(name=="Ann")#"#);
    let ne = ok(r#"people.#(name!="Ann")#"#);
    assert_eq!(eq.as_array().unwrap().len() + ne.as_array().unwrap().len(), 3);
}

#[test]
fn prefix_and_suffix_patterns() {
    assert_eq!(ok(r#"people.#(name%"B*")#.age"#), parse("[40]"));
    assert_eq!(ok(r#"people.#(name%"**d")#.age"#), parse("[50]"));
    assert_eq!(ok(r#"people.#(name!%"*n")#.age"#), parse("[40, 50]"));
    assert_eq!(ok(r#"people.#(name%"A*x")#.age"#), parse("[30]"));
}

#[test]
fn first_match_is_first_of_all_matches() {
    let all = ok("people.#(age>30)#");
    let one = ok("people.#(age>30)");
    assert_eq!(all.as_array().unwrap()[0], one);
}

#[test]
fn matches_keep_array_order() {
    assert_eq!(ok("people.#(age<100)#.name"), parse(r#"["Ann", "Bob", "Cid"]"#));
}

#[test]
fn nested_query_repeats_item_per_match() {
    assert_eq!(ok(r#"people.#(tags.#(=="a"))#.name"#), parse(r#"["Ann", "Cid", "Cid"]"#));
}

#[test]
fn nested_not_equal_on_integer_keeps_equal_values() {
    let d = doc(r#"{"xs": [{"v": [1, 2]}, {"v": [3]}]}"#);
    let r = d.rjson_get("xs.#(v.#(!=1))#").unwrap();
    assert_eq!(to_value(&r), parse(r#"[{"v": [1, 2]}]"#));
}

#[test]
fn identical_items_count_once() {
    let d = doc(r#"{"xs": [{"v": 1}, {"v": 1}, {"v": 2}]}"#);
    let r = d.rjson_get("xs.#(v>0)#").unwrap();
    assert_eq!(to_value(&r), parse(r#"[{"v": 1}, {"v": 2}]"#));
}

#[test]
fn float_token_in_path_is_an_error() {
    assert_eq!(msg(err("people.1.5")), "Float: 1.5");
}

#[test]
fn integer_overflow_is_an_error() {
    assert_eq!(
        msg(err("people.99999999999999999999")),
        "Could not parse int.\nReason: ParseIntError { kind: PosOverflow }"
    );
}

#[test]
fn two_dots_in_a_number_is_an_error() {
    assert_eq!(
        msg(err("people.#(score>1.2.3)#")),
        "Could not parse float.\nReason: ParseFloatError { kind: Invalid }"
    );
}

#[test]
fn unexpected_character() {
    match err("people$") {
        TokenError::UnexpectedCharacter(c) => assert_eq!(c, "$"),
        other => panic!("{:?}", other),
    }
    match err("people.#(age=5)") {
        TokenError::UnexpectedCharacter(c) => assert_eq!(c, "=5"),
        other => panic!("{:?}", other),
    }
    match err("people.#x") {
        TokenError::UnexpectedCharacter(c) => assert_eq!(c, "x"),
        other => panic!("{:?}", other),
    }
}

#[test]
fn unterminated_string() {
    assert!(matches!(err(r#"people.#(name=="Ann)"#), TokenError::UnexpectedEOF));
    assert!(matches!(err("people.#(age<"), TokenError::UnexpectedEOF));
}

#[test]
fn error_messages() {
    assert_eq!(msg(err("people.#.zzz")), "Could not get key\nKey: \"zzz\"");
    assert_eq!(msg(err("people.#.tags.x")), "Could not get Object.");
    assert_eq!(msg(err("nested.#")), "Could not get Array");
    assert_eq!(msg(err("nested.#(a==1)#")), "Need Array for Query Parsing!");
    assert_eq!(msg(err("people.#(age>100)")), "Nothing to return.");
    assert_eq!(msg(err(r#"people.#(age%"x")#"#)), "Expected String");
    assert_eq!(msg(err("people.#(name%5)#")), "Expected String.");
    assert_eq!(msg(err("people.#(name%)#")), "Could not get string");
    assert_eq!(msg(err(r#"people.#(name%"")#"#)), "Empty String.");
    assert_eq!(msg(err(r#"people.#(age>"x")#"#)), "Expected Float/Integer");
    assert_eq!(msg(err("people.#(name>1)#")), "Value is not Integer.");
    assert_eq!(msg(err("people.#(name>1.5)#")), "Value is not Float.");
    assert_eq!(msg(err("people.#(name==)#")), "Expected Integer, Float or String");
    assert_eq!(msg(err("people.#(zzz==1)#")), "Could not get Key: `zzz`");
    assert_eq!(msg(err("people.#.tags.#(a==1)#")), "Could not get object");
}

#[test]
fn error_texts() {
    assert_eq!(TokenError::UnexpectedEOF.message(), "Unexpected End of File!");
    assert_eq!(
        TokenError::UnexpectedCharacter("$".to_string()).message(),
        "Unexpected Character! ~$~"
    );
    assert_eq!(TokenError::Msg("m".to_string()).message(), "Error Message: ~m~");
}

#[test]
fn comparison_without_value_is_unexpected() {
    match err("people.#(age>)#") {
        TokenError::UnexpectedCharacter(c) => assert_eq!(c, ">"),
        other => panic!("{:?}", other),
    }
}

#[test]
fn halts() {
    assert!(matches!(halt("nope"), PanicSite::MissingKey(k) if k == "nope"));
    assert!(matches!(halt("people.7"), PanicSite::MissingIndex(7)));
    assert!(matches!(halt(r#"people.#(tags.#(=="a"age))#"#), PanicSite::QueryArity));
    assert!(matches!(halt(r#"people.#(name.#(=="a"))#"#), PanicSite::NotArray));
    assert!(matches!(halt(r#"people.#(tags.#(==x))#"#), PanicSite::NestedQuery(_)));
}

#[test]
fn token_texts() {
    let mut lexer = Lexer::new(r#"a.#(b>=1.5)#"#);
    let tokens = lexer.tokens().unwrap();
    let texts: Vec<String> = tokens.iter().map(|t| t.to_text()).collect();
    assert_eq!(texts, vec!["Key: a", ".", "Query: Key: b>=Float: 1.5"]);
}

#[test]
fn token_predicates() {
    let s = Token::String("x".to_string());
    assert!(s.is_string() && !s.is_num());
    assert_eq!(s.as_string(), Some("x".to_string()));
    assert!(Token::Int(3).is_num());
    assert_eq!(Token::Int(3).to_text(), "Integer: 3");
    assert_eq!(Token::Null.to_text(), "NULL");
    assert_eq!(Token::Dot.as_string(), None);
}

#[test]
fn escaped_quote_in_string() {
    let mut lexer = Lexer::new(r#"(a=="x\"y")"#);
    let tokens = lexer.tokens().unwrap();
    match &tokens[0] {
        Token::QueryOnce(q) => match &q[2] {
            Token::String(s) => assert_eq!(s, "x\\\"y"),
            other => panic!("{:?}", other),
        },
        other => panic!("{:?}", other),
    }
}

#[test]
fn query_on_items_directly() {
    let arr = doc(r#"[{"a": 1}, {"a": 2}]"#);
    let q = vec![Token::Key("a".to_string()), Token::GreaterThan, Token::Int(1)];
    let r = parse_query(&q, arr, true, None).unwrap();
    assert_eq!(to_value(&r), parse(r#"[{"a": 2}]"#));
}

#[test]
fn negative_numbers_compare() {
    let d = doc(r#"{"xs": [{"v": -3}, {"v": 2}]}"#);
    let r = d.rjson_get("xs.#(v<0)#").unwrap();
    assert_eq!(to_value(&r), parse(r#"[{"v": -3}]"#));
}

#[test]
fn query_results_are_items_of_the_array() {
    let all = doc(PEOPLE).rjson_get("people").unwrap();
    let kept = doc(PEOPLE).rjson_get(r#"people.#(name%"*d")#"#).unwrap();
    let all_items = to_value(&all);
    for item in to_value(&kept).as_array().unwrap() {
        assert!(all_items.as_array().unwrap().contains(item));
    }
}

#[test]
fn like_and_not_like_split_the_items() {
    let like = ok(r#"people.#(name%"*b")#"#);
    let unlike = ok(r#"people.#(name!%"*b")#"#);
    assert_eq!(like, parse(r#"[{"name": "Bob", "age": 40, "score": 3.5, "tags": ["b"]}]"#));
    assert_eq!(like.as_array().unwrap().len() + unlike.as_array().unwrap().len(), 3);
}

#[test]
fn negative_integers_compare_with_doubles() {
    let d = doc(r#"{"xs": [{"v": -3}, {"v": 2}]}"#);
    let r = d.rjson_get("xs.#(v<0.5)#").unwrap();
    assert_eq!(to_value(&r), parse(r#"[{"v": -3}]"#));
}

#[test]
fn huge_double_is_infinity() {
    let digits = "9".repeat(400);
    assert_eq!(msg(err(&format!("people.{}.0", digits))), "Float: inf");
    let d = doc(r#"{"xs": [{"v": 1e300}, {"v": 2}]}"#);
    let r = d.rjson_get(&format!("xs.#(v<{}.0)#", digits)).unwrap();
    assert_eq!(r.rjson_get("#").unwrap().same(&Json::Number(Number::PosInt(2))), true);
}

#[test]
fn checked_lookup_reports_halts() {
    assert!(doc(PEOPLE).rjson_get_checked("nope").is_none());
    assert!(doc(PEOPLE).rjson_get_checked("people.7").is_none());
    match doc(PEOPLE).rjson_get_checked("people.1") {
        Some(Ok(v)) => assert_eq!(to_value(&v)["name"], parse(r#""Bob""#)),
        other => panic!("{:?}", other),
    }
    match doc(PEOPLE).rjson_get_checked("people.#.zzz") {
        Some(Err(e)) => assert_eq!(msg(e), "Could not get key\nKey: \"zzz\""),
        other => panic!("{:?}", other),
    }
}

#[test]
fn empty_text_has_no_tokens() {
    let mut lexer = Lexer::new("");
    assert_eq!(lexer.tokens().unwrap().len(), 0);
}

#[test]
fn empty_path_gives_the_document() {
    assert_eq!(ok(""), parse(PEOPLE));
}

#[test]
fn leading_dot_changes_nothing() {
    assert_eq!(ok(".nested.inner"), ok("nested.inner"));
    assert_eq!(ok(".people.#(age>30)#.name"), ok("people.#(age>30)#.name"));
    assert_eq!(msg(err(".people.#.zzz")), msg(err("people.#.zzz")));
}

#[test]
fn key_chains_split_at_a_dot() {
    let d = doc(PEOPLE);
    let step = d.rjson_get("nested").unwrap();
    assert!(step.rjson_get("inner.leaf").unwrap().same(&d.rjson_get("nested.inner.leaf").unwrap()));
    let first = d.rjson_get("people.#(age==40)").unwrap();
    assert_eq!(to_value(&first.rjson_get("name").unwrap()), ok("people.#(age==40).name"));
}

#[test]
fn index_then_dot_reads_a_double() {
    assert_eq!(msg(err("people.1.name")), "Float: 1");
}

#[test]
fn query_needs_an_array() {
    let q = vec![Token::Key("a".to_string()), Token::Equal, Token::Int(1)];
    match parse_query(&q, doc(r#"{"a": 1}"#), true, None) {
        Err(Failure::Error(e)) => assert_eq!(msg(e), "Need Array for Query Parsing!"),
        other => panic!("{:?}", other),
    }
    assert!(parse_query(&q, doc(r#"[{"a": 1}]"#), true, None).is_ok());
}

#[test]
fn operand_checks() {
    assert_eq!(msg(err(r#"people.#(name%5)#"#)), "Expected String.");
    assert_eq!(msg(err(r#"people.#(name%"")#"#)), "Empty String.");
    assert_eq!(msg(err(r#"people.#(age<"x")#"#)), "Expected Float/Integer");
}

#[test]
fn negative_integer_text() {
    assert_eq!(Token::Int(-42).to_text(), "Integer: -42");
    assert_eq!(Token::Int(0).to_text(), "Integer: 0");
    assert_eq!(Token::Int(i64::MIN).to_text(), "Integer: -9223372036854775808");
}

fn float_item(bits: u64, text: &str) -> Json {
    Json::Object(vec![
        ("v".to_string(), Json::Number(Number::Float(bits, text.to_string()))),
        ("k".to_string(), Json::Number(Number::PosInt(1))),
    ])
}

#[test]
fn kept_items_are_read_back_from_their_text() {
    let text = r#"{"xs": [{"k": 1, "v": 0.30000000000000004}, {"k": 2, "v": 1.7976931348623157e308}, {"k": 3, "v": 5e-324}]}"#;
    let d = doc(text);
    let kept = to_value(&d.rjson_get("xs.#(k>0)#").unwrap());
    let items = parse(text)["xs"].clone();
    let again: Vec<Value> = items
        .as_array()
        .unwrap()
        .iter()
        .map(|item| serde_json::from_str::<Value>(&item.to_string()).unwrap())
        .collect();
    assert_eq!(kept, Value::Array(again));
}

#[test]
fn a_double_is_read_back_from_its_text() {
    let d = Json::Object(vec![("xs".to_string(), Json::Array(vec![float_item(1.5f64.to_bits(), "2.5")]))]);
    let kept = d.rjson_get("xs.#(k==1)").unwrap();
    match kept.get("v") {
        Some(Json::Number(Number::Float(b, t))) => {
            assert_eq!(*b, 2.5f64.to_bits());
            assert_eq!(t, "2.5");
        }
        other => panic!("{:?}", other),
    }
}

#[test]
fn unreadable_number_text_halts() {
    let d = Json::Object(vec![("xs".to_string(), Json::Array(vec![float_item(1.5f64.to_bits(), "x")]))]);
    assert!(matches!(d.evaluate("xs.#(k==1)"), Err(Failure::Panic(PanicSite::BadJson))));
    assert!(d.rjson_get_checked("xs.#(k==1)").is_none());
}

#[test]
fn hashtag_after_close_asks_for_every_match() {
    let mut lexer = Lexer::new("a==1)#.b");
    assert!(matches!(lexer.tokenize_query().unwrap(), Token::QueryAll(_)));
    let rest: Vec<String> = lexer.tokens().unwrap().iter().map(|t| t.to_text()).collect();
    assert_eq!(rest, vec![".", "Key: b"]);
    let mut lexer = Lexer::new("a==1).b");
    assert!(matches!(lexer.tokenize_query().unwrap(), Token::QueryOnce(_)));
    let rest: Vec<String> = lexer.tokens().unwrap().iter().map(|t| t.to_text()).collect();
    assert_eq!(rest, vec![".", "Key: b"]);
}

#[test]
fn nested_query_on_a_non_array_needs_an_array() {
    let q = vec![Token::Equal, Token::Int(1)];
    let entries = vec![(doc(r#"{"a": 1}"#), doc("1"))];
    match parse_query(&q, doc("3"), true, Some(entries)) {
        Err(Failure::Error(e)) => assert_eq!(msg(e), "Need Array for Query Parsing!"),
        other => panic!("{:?}", other),
    }
}
