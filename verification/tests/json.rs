use pluely::json::Json;

#[test]
fn values_cross_from_and_to_serde_json() {
    let mut map = serde_json::Map::new();
    map.insert("b".to_string(), serde_json::Value::Bool(true));
    map.insert(
        "a".to_string(),
        serde_json::Value::Array(vec![
            serde_json::Value::Null,
            serde_json::Value::from(7),
            serde_json::Value::from("x"),
        ]),
    );
    let value = serde_json::Value::Object(map);
    let json = Json::from_value(value.clone());
    assert_eq!(json.to_value(), value);
    assert_eq!(json.to_text(), r#"{"a":[null,7,"x"],"b":true}"#);
    assert_eq!(json.duplicate(), json);
}

#[test]
fn compact_text_reads_back() {
    let text = r#"{"":[],"a":{"b":"\u0007\"\\/","c":[-1,1.5,18446744073709551615]},"z":false}"#;
    let json = Json::parse(text).unwrap();
    assert_eq!(json.to_text(), text);
}

#[test]
fn the_last_of_equal_keys_counts() {
    assert_eq!(
        Json::parse(r#"{"a":1,"b":2,"a":3}"#).unwrap().to_text(),
        r#"{"a":3,"b":2}"#
    );
}

#[test]
fn a_text_that_is_no_json_has_a_message() {
    assert_eq!(
        Json::parse("[1,").unwrap_err(),
        "EOF while parsing a value at line 1 column 3"
    );
}

#[test]
fn nesting_is_read_up_to_its_limit() {
    let deep = |n: usize| format!("{}{}", "[".repeat(n), "]".repeat(n));
    assert_eq!(Json::parse(&deep(127)).unwrap().to_text(), deep(127));
    assert!(Json::parse(&deep(128)).is_err());
}

#[test]
fn entries_go_where_their_keys_belong() {
    let json = Json::object()
        .with("b", Json::text("1"))
        .with("a", Json::parse("2").unwrap())
        .with("b", Json::Null)
        .with("ab", Json::Bool(false));
    assert_eq!(json.to_text(), r#"{"a":2,"ab":false,"b":null}"#);
    assert_eq!(json.get("ab"), Some(&Json::Bool(false)));
    assert_eq!(json.get("c"), None);
    assert_eq!(Json::text("x").with("a", Json::Null), Json::text("x"));
    assert_eq!(Json::text("x").as_text(), Some(&"x".to_string()));
    assert_eq!(Json::Null.as_text(), None);
}

#[test]
fn items_are_found_by_place() {
    let json = Json::parse("[1,[2]]").unwrap();
    assert_eq!(json.at(1).unwrap().to_text(), "[2]");
    assert_eq!(json.at(2), None);
    assert_eq!(Json::Null.at(0), None);
}

#[test]
fn numbers_have_their_texts() {
    assert_eq!(Json::parse("2.50").unwrap().number_text(), Some("2.5".to_string()));
    assert_eq!(Json::parse("-7").unwrap().number_text(), Some("-7".to_string()));
    assert_eq!(Json::text("7").number_text(), None);
}

#[test]
fn integers_read_back() {
    for text in ["0", "-1", "-9223372036854775808", "9223372036854775808", "18446744073709551615"] {
        assert_eq!(Json::parse(text).unwrap().number_text(), Some(text.to_string()));
    }
}
