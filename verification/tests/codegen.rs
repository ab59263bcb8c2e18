use peripherio::category::{Category, CategoryMetadata, Signature};
use peripherio::codegen::{ctype, field_strs, header, impl_skeleton, merge_map, merge_signatures};
use peripherio::json::Json;
use peripherio::schema_map::{schema_map_entries, schema_map_insert, schema_map_new, SchemaMap};

fn j(v: &serde_json::Value) -> Json {
    match v {
        serde_json::Value::Null => Json::Null,
        serde_json::Value::Bool(b) => Json::Bool(*b),
        serde_json::Value::Number(n) => Json::Number(n.clone()),
        serde_json::Value::String(s) => Json::Str(s.clone()),
        serde_json::Value::Array(a) => Json::Array(a.iter().map(j).collect()),
        serde_json::Value::Object(o) => Json::Object(o.iter().map(|(k, v)| (k.clone(), j(v))).collect()),
    }
}

fn parse(text: &str) -> Json {
    j(&serde_json::from_str::<serde_json::Value>(text).unwrap())
}

fn schemas(entries: &[(&str, &str)]) -> SchemaMap {
    let mut m = schema_map_new();
    for (k, v) in entries {
        schema_map_insert(&mut m, k.to_string(), parse(v));
    }
    m
}

fn category(name: &str, sigs: Vec<(&str, Signature)>) -> Category {
    Category::new(
        format!("/ctg/{}", name),
        CategoryMetadata {
            name: name.to_string(),
            version: "1".to_string(),
            author: None,
            signatures: sigs.into_iter().map(|(n, s)| (n.to_string(), s)).collect(),
        },
    )
}

#[test]
fn c_types() {
    assert_eq!(ctype("number"), "double");
    assert_eq!(ctype("integer"), "long");
    assert_eq!(ctype("string"), "const char*");
}

#[test]
fn field_declarations() {
    let m = schemas(&[("if.i2c.address", r#"{"type": "integer"}"#), ("rate", r#"{"type": "number"}"#)]);
    assert_eq!(field_strs(&m), "  long if_i2c_address;\n  double rate;\n");
    assert_eq!(field_strs(&schema_map_new()), "");
}

#[test]
fn merge_map_keeps_the_first_maps_keys() {
    let first = schemas(&[("a", r#"{"type": "integer"}"#), ("b", r#"{"type": "string"}"#)]);
    let second = schemas(&[("a", r#"{"type": "number", "minimum": 0}"#), ("c", r#"{"type": "string"}"#)]);
    let m = merge_map(&first, &second);
    assert_eq!(
        schema_map_entries(&m),
        vec![
            ("a".to_string(), parse(r#"{"type": "integer", "minimum": 0}"#)),
            ("b".to_string(), parse(r#"{"type": "string"}"#)),
        ]
    );
}

#[test]
fn signatures_of_one_command_are_combined() {
    let c1 = category(
        "a",
        vec![("read", Signature { args: Some(schemas(&[("n", r#"{"type": "integer"}"#)])), returns: None })],
    );
    let c2 = category(
        "b",
        vec![
            ("read", Signature { args: Some(schemas(&[("n", r#"{"minimum": 1}"#)])), returns: None }),
            ("write", Signature { args: None, returns: None }),
        ],
    );
    let merged = merge_signatures(&vec![c1, c2]);
    assert_eq!(merged.len(), 2);
    assert_eq!(merged[0].0, "read");
    assert_eq!(
        schema_map_entries(merged[0].1.args.as_ref().unwrap()),
        vec![("n".to_string(), parse(r#"{"minimum": 1, "type": "integer"}"#))]
    );
    assert!(schema_map_entries(merged[0].1.returns.as_ref().unwrap()).is_empty());
    assert_eq!(merged[1].0, "write");
    assert!(merged[1].1.args.is_none());
}

#[test]
fn generated_header_and_skeleton() {
    let config = schemas(&[("if.i2c.busnum", r#"{"type": "integer"}"#)]);
    let sigs = vec![(
        "get_gyro".to_string(),
        Signature { args: None, returns: Some(schemas(&[("x", r#"{"type": "number"}"#)])) },
    )];
    assert_eq!(
        header(&config, &sigs),
        "typedef struct Config_ {\n  long if_i2c_busnum;\n} __attribute__((__packed__)) Config;\n\
typedef struct get_gyro_args_ {\n} __attribute__((__packed__)) get_gyro_args;\n\
typedef struct get_gyro_returns_ {\n  double x;\n} __attribute__((__packed__)) get_gyro_returns;\n\
get_gyro_returns* get_gyro(get_gyro_args* args, Config* conf);\n"
    );
    assert_eq!(
        impl_skeleton(&sigs),
        "#include \"rami.gen.h\"\n\nvoid init() {\n  /* Your Implementation! */\n}\n\n\
Config** detect(Config* conf, size_t* size) {\n  /* Your Implementation! */\n}\n\n\
get_gyro_returns* get_gyro(get_gyro_args* args, Config* conf) {\n  /* Your Implementation! */\n}\n\n"
    );
}
