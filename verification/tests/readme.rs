use rjson::json::{Json, Number};
use rjson::query::Failure;
use serde_json::Value;

const DATA: &str = r#"
    {
        "name": "John Doe",
        "age": 43,
        "phones": [
            "+44 1234567",
            "+44 2345678"
        ],
        "friends": [
            {
                "first": "Dale",
                "last": "Murphy",
                "age": 44,
                "nets": ["ig", "fb", "tw"]
            },
            {
                "first": "Roger",
                "last": "Craig",
                "age": 68,
                "nets": ["fb", "tw"]
            },
            {
                "first": "Jane",
                "last": "Murphy",
                "age": 47,
                "nets": ["ig", "tw"]
            }
        ]
    }"#;

fn from_value(v: &Value) -> Json {
    match v {
        Value::Null => Json::Null,
        Value::Bool(b) => Json::Bool(*b),
        Value::Number(n) => {
            if let Some(u) = n.as_u64() {
                Json::Number(Number::PosInt(u))
            } else if let Some(i) = n.as_i64() {
                Json::Number(Number::NegInt(i))
            } else {
                Json::Number(Number::Float(n.as_f64().unwrap().to_bits(), n.to_string()))
            }
        }
        Value::String(s) => Json::String(s.clone()),
        Value::Array(items) => Json::Array(items.iter().map(from_value).collect()),
        Value::Object(map) => Json::Object(map.iter().map(|(k, v)| (k.clone(), from_value(v))).collect()),
    }
}

fn to_value(j: &Json) -> Value {
    match j {
        Json::Null => Value::Null,
        Json::Bool(b) => Value::Bool(*b),
        Json::Number(Number::PosInt(u)) => Value::from(*u),
        Json::Number(Number::NegInt(i)) => Value::from(*i),
        Json::Number(Number::Float(b, _)) => Value::from(f64::from_bits(*b)),
        Json::String(s) => Value::String(s.clone()),
        Json::Array(items) => Value::Array(items.iter().map(to_value).collect()),
        Json::Object(members) => {
            Value::Object(members.iter().map(|(k, v)| (k.clone(), to_value(v))).collect())
        }
    }
}

fn data() -> Json {
    from_value(&serde_json::from_str::<Value>(DATA).unwrap())
}

fn get(expression: &str) -> Value {
    to_value(&data().rjson_get(expression).expect("lookup failed"))
}

fn parse(text: &str) -> Value {
    serde_json::from_str(text).unwrap()
}

fn sorted(v: Value) -> Vec<String> {
    let mut items: Vec<String> = v.as_array().unwrap().iter().map(|x| x.to_string()).collect();
    items.sort();
    items
}

#[test]
fn readme_count_of_phones() {
    assert_eq!(get("phones.#"), parse("2"));
}

#[test]
fn readme_second_phone() {
    assert_eq!(get("phones.1"), parse(r#""+44 2345678""#));
}

#[test]
fn readme_first_names() {
    assert_eq!(get("friends.#.first"), parse(r#"["Dale", "Roger", "Jane"]"#));
}

#[test]
fn readme_nets_of_friends() {
    assert_eq!(
        get("friends.#.nets"),
        parse(r#"[["ig", "fb", "tw"], ["fb", "tw"], ["ig", "tw"]]"#)
    );
}

#[test]
fn readme_younger_than_fifty() {
    assert_eq!(sorted(get("friends.#(age<50)#.first")), sorted(parse(r#"["Jane", "Dale"]"#)));
}

#[test]
fn readme_friends_on_ig() {
    assert_eq!(
        sorted(get(r#"friends.#(nets.#(=="ig"))#.first"#)),
        sorted(parse(r#"["Jane", "Dale"]"#))
    );
}

#[test]
fn readme_third_net_of_d_friend() {
    assert_eq!(get(r#"friends.#(first%"D*").nets.2"#), parse(r#""tw""#));
}

#[test]
fn readme_friends_not_starting_with_d() {
    let expected = parse(
        r#"[
            {"age": 47, "first": "Jane", "last": "Murphy", "nets": ["ig", "tw"]},
            {"age": 68, "first": "Roger", "last": "Craig", "nets": ["fb", "tw"]}
        ]"#,
    );
    assert_eq!(sorted(get(r#"friends.#(first!%"D*")#"#)), sorted(expected));
}

#[test]
fn readme_friends_ending_with_e() {
    let expected = parse(
        r#"[
            {"age": 44, "first": "Dale", "last": "Murphy", "nets": ["ig", "fb", "tw"]},
            {"age": 47, "first": "Jane", "last": "Murphy", "nets": ["ig", "tw"]}
        ]"#,
    );
    assert_eq!(sorted(get(r#"friends.#(first%"*e")#"#)), sorted(expected));
}

#[test]
fn readme_lookups_never_halt() {
    for e in ["phones.#", "phones.1", "friends.#.first", "friends.#(age<50)#.first"] {
        assert!(!matches!(data().evaluate(e), Err(Failure::Panic(_))));
    }
}
