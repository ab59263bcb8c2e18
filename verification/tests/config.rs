use peripherio::config::{
    global_schema, try_validate_config, try_validate_config_value, validate_config, validate_config_value,
};
use peripherio::json::Json;
use peripherio::validation::check_schema;

fn j(v: &serde_json::Value) -> Json {
    match v {
        serde_json::Value::Null => Json::Null,
        serde_json::Value::Bool(b) => Json::Bool(*b),
        serde_json::Value::Number(n) => Json::Number(n.clone()),
        serde_json::Value::String(s) => Json::Str(s.clone()),
        serde_json::Value::Array(a) => Json::Array(a.iter().map(j).collect()),
        serde_json::Value::Object(o) => Json::Object(o.iter().map(|(k, v)| (k.clone(), j(v))).collect()),
    }
}

fn parse(text: &str) -> Json {
    j(&serde_json::from_str::<serde_json::Value>(text).unwrap())
}

#[test]
fn global_schema_of_interface_type() {
    assert_eq!(
        global_schema("if.type"),
        Some(parse(r#"{"type": "string", "enum": ["i2c", "spi", "uart"]}"#))
    );
    assert_eq!(global_schema("if.i2c.busnum"), Some(parse(r#"{"type": "integer"}"#)));
    assert_eq!(global_schema("if.i2c.address"), Some(parse(r#"{"type": "integer"}"#)));
    assert_eq!(global_schema("if.spi.mode"), None);
}

#[test]
fn interface_type_must_be_known() {
    assert!(validate_config_value("if.type", &parse(r#""i2c""#)));
    assert!(validate_config_value("if.type", &parse(r#""uart""#)));
    assert!(!validate_config_value("if.type", &parse(r#""usb""#)));
    assert!(!validate_config_value("if.type", &parse("3")));
}

#[test]
fn bus_number_must_be_an_integer() {
    assert!(validate_config_value("if.i2c.busnum", &parse("1")));
    assert!(!validate_config_value("if.i2c.busnum", &parse(r#""one""#)));
    assert!(!validate_config_value("if.i2c.address", &parse("1.5")));
}

#[test]
fn unknown_keys_accept_anything() {
    assert!(validate_config_value("sensor.rate", &parse(r#"{"any": ["thing"]}"#)));
    assert_eq!(try_validate_config_value("sensor.rate", &Json::Null), Some(true));
}

#[test]
fn a_configuration_is_valid_when_every_entry_is() {
    let good = vec![
        ("if.type".to_string(), parse(r#""spi""#)),
        ("if.i2c.busnum".to_string(), parse("2")),
    ];
    assert!(validate_config(&good));
    let bad = vec![
        ("if.type".to_string(), parse(r#""spi""#)),
        ("if.i2c.address".to_string(), parse(r#""0x40""#)),
    ];
    assert!(!validate_config(&bad));
    assert_eq!(try_validate_config(&Vec::new()), Some(true));
}

#[test]
fn a_schema_that_does_not_compile_gives_no_verdict() {
    assert_eq!(check_schema(&parse(r#"{"type": 5}"#), &parse("1")), None);
    assert_eq!(check_schema(&parse(r#"{"type": "integer", "minimum": 3}"#), &parse("2")), Some(false));
    assert_eq!(check_schema(&parse(r#"{"type": "integer", "minimum": 3}"#), &parse("4")), Some(true));
}
