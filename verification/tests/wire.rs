use peripherio::json::Json;
use peripherio::wire::{config_from_bytes, config_from_pairs, from_serde, pack_config, pack_json, unpack_json};

fn num(n: i64) -> Json {
    Json::Number(serde_json::Number::from(n))
}

#[test]
fn later_pairs_win_and_keys_stay_once() {
    let pairs = vec![
        ("a".to_string(), vec![0x01]),
        ("b".to_string(), vec![0xa1, b'x']),
        ("a".to_string(), vec![0x02]),
    ];
    let c = config_from_pairs(&pairs).unwrap();
    assert_eq!(c.len(), 2);
    let a = c.iter().find(|(k, _)| k == "a").unwrap();
    assert_eq!(a.1, num(2));
    let b = c.iter().find(|(k, _)| k == "b").unwrap();
    assert_eq!(b.1, Json::Str("x".to_string()));
}

#[test]
fn bytes_without_a_value_give_no_configuration() {
    let pairs = vec![("a".to_string(), vec![0x01]), ("b".to_string(), vec![0xc1])];
    assert!(config_from_pairs(&pairs).is_none());
    assert!(config_from_pairs(&vec![("a".to_string(), Vec::new())]).is_none());
    assert_eq!(config_from_pairs(&Vec::new()), Some(Vec::new()));
}

#[test]
fn a_configuration_travels_as_a_map() {
    let c = vec![("a".to_string(), num(1)), ("s".to_string(), Json::Str("hi".to_string()))];
    let bytes = pack_config(&c);
    assert_eq!(bytes, vec![0x82, 0xa1, b'a', 0x01, 0xa1, b's', 0xa2, b'h', b'i']);
    assert_eq!(config_from_bytes(&bytes), Some(c));
}

#[test]
fn only_a_map_is_a_configuration() {
    assert!(config_from_bytes(&[0x05]).is_none());
    assert!(config_from_bytes(&[0xc1]).is_none());
    assert_eq!(config_from_bytes(&[0x80]), Some(Vec::new()));
}

#[test]
fn values_read_back() {
    let v = Json::Array(vec![Json::Null, Json::Bool(true), num(-3), Json::Object(vec![("k".to_string(), Json::Str(String::new()))])]);
    let bytes = pack_json(&v);
    assert_eq!(bytes, vec![0x94, 0xc0, 0xc3, 0xfd, 0x81, 0xa1, b'k', 0xa0]);
    assert_eq!(unpack_json(&bytes), Some(v));
    assert_eq!(unpack_json(&[0xc1]), None);
}

#[test]
fn serde_values_become_json() {
    let v: serde_json::Value = serde_json::from_str(r#"{"b": [1, "x", null], "a": {"c": false}}"#).unwrap();
    let j = from_serde(&v);
    assert_eq!(
        j,
        Json::Object(vec![
            ("b".to_string(), Json::Array(vec![num(1), Json::Str("x".to_string()), Json::Null])),
            ("a".to_string(), Json::Object(vec![("c".to_string(), Json::Bool(false))])),
        ])
    );
}
