use peripherio::json::{merge_value, Json};

fn j(v: &serde_json::Value) -> Json {
    match v {
        serde_json::Value::Null => Json::Null,
        serde_json::Value::Bool(b) => Json::Bool(*b),
        serde_json::Value::Number(n) => Json::Number(n.clone()),
        serde_json::Value::String(s) => Json::Str(s.clone()),
        serde_json::Value::Array(a) => Json::Array(a.iter().map(j).collect()),
        serde_json::Value::Object(o) => Json::Object(o.iter().map(|(k, v)| (k.clone(), j(v))).collect()),
    }
}

fn parse(text: &str) -> Json {
    j(&serde_json::from_str::<serde_json::Value>(text).unwrap())
}

#[test]
fn merge_adds_new_keys_after_existing_ones() {
    let mut a = parse(r#"{"type": "integer"}"#);
    merge_value(&mut a, &parse(r#"{"minimum": 0, "maximum": 7}"#));
    assert_eq!(a, parse(r#"{"type": "integer", "minimum": 0, "maximum": 7}"#));
}

#[test]
fn merge_overwrites_leaf_values() {
    let mut a = parse(r#"{"type": "string", "enum": ["i2c", "spi", "uart"]}"#);
    merge_value(&mut a, &parse(r#"{"enum": ["i2c"]}"#));
    assert_eq!(a, parse(r#"{"type": "string", "enum": ["i2c"]}"#));
}

#[test]
fn merge_recurses_into_objects() {
    let mut a = parse(r#"{"x": {"a": 1, "b": 2}, "y": true}"#);
    merge_value(&mut a, &parse(r#"{"x": {"b": 3, "c": 4}}"#));
    assert_eq!(a, parse(r#"{"x": {"a": 1, "b": 3, "c": 4}, "y": true}"#));
}

#[test]
fn merge_non_object_replaces() {
    let mut a = parse(r#"{"x": 1}"#);
    merge_value(&mut a, &parse(r#"[1, 2]"#));
    assert_eq!(a, parse(r#"[1, 2]"#));
    let mut b = parse(r#""text""#);
    merge_value(&mut b, &parse(r#"{"x": 1}"#));
    assert_eq!(b, parse(r#"{"x": 1}"#));
    let mut c = Json::Null;
    merge_value(&mut c, &Json::Bool(false));
    assert_eq!(c, Json::Bool(false));
}

#[test]
fn merge_into_itself_changes_nothing() {
    let original = parse(r#"{"a": {"b": [1, {"c": null}]}, "d": "e"}"#);
    let mut a = original.deep_copy();
    merge_value(&mut a, &original);
    assert_eq!(a, original);
}

#[test]
fn merge_with_empty_object_changes_nothing() {
    let original = parse(r#"{"a": 1, "b": {"c": 2}}"#);
    let mut a = original.deep_copy();
    merge_value(&mut a, &parse("{}"));
    assert_eq!(a, original);
}

#[test]
fn deep_copy_is_equal() {
    let v = parse(r#"{"a": [1, 2.5, "x", null, false, {"b": {}}]}"#);
    assert_eq!(v.deep_copy(), v);
}

#[test]
fn well_formed_values_have_distinct_keys() {
    assert!(parse(r#"{"a": [{"b": 1}, {"b": 2}], "c": {}}"#).well_formed());
    let dup = Json::Object(vec![("a".to_string(), Json::Null), ("a".to_string(), Json::Bool(true))]);
    assert!(!dup.well_formed());
    let nested = Json::Array(vec![Json::Null, dup]);
    assert!(!nested.well_formed());
}

#[test]
fn merging_well_formed_values_stays_well_formed() {
    let mut a = parse(r#"{"x": {"y": 1}, "z": 2}"#);
    merge_value(&mut a, &parse(r#"{"x": {"w": 3}, "q": [1]}"#));
    assert!(a.well_formed());
}

#[test]
fn merging_twice_is_merging_once() {
    let b = parse(r#"{"x": {"w": 3}, "q": [1], "z": {"a": null}}"#);
    let mut once = parse(r#"{"x": {"y": 1}, "z": 2}"#);
    merge_value(&mut once, &b);
    let mut twice = once.deep_copy();
    merge_value(&mut twice, &b);
    assert_eq!(twice, once);
}
