use peripherio::category::{Category, CategoryMetadata, Signature};
use peripherio::driver::{common_symbols, Driver, DriverData, DriverMetadata};
use peripherio::driver_manager::DriverManager;
use peripherio::driver_spec::DriverSpec;
use peripherio::json::Json;
use peripherio::schema_map::{schema_map_entries, schema_map_insert, schema_map_new, SchemaMap};

fn j(v: &serde_json::Value) -> Json {
    match v {
        serde_json::Value::Null => Json::Null,
        serde_json::Value::Bool(b) => Json::Bool(*b),
        serde_json::Value::Number(n) => Json::Number(n.clone()),
        serde_json::Value::String(s) => Json::Str(s.clone()),
        serde_json::Value::Array(a) => Json::Array(a.iter().map(j).collect()),
        serde_json::Value::Object(o) => Json::Object(o.iter().map(|(k, v)| (k.clone(), j(v))).collect()),
    }
}

fn parse(text: &str) -> Json {
    j(&serde_json::from_str::<serde_json::Value>(text).unwrap())
}

fn schemas(entries: &[(&str, &str)]) -> SchemaMap {
    let mut m = schema_map_new();
    for (k, v) in entries {
        schema_map_insert(&mut m, k.to_string(), parse(v));
    }
    m
}

fn gyro() -> Category {
    Category::new(
        "/ctg/gyro".to_string(),
        CategoryMetadata {
            name: "gyro".to_string(),
            version: "0.1".to_string(),
            author: None,
            signatures: vec![
                (
                    "get_gyro".to_string(),
                    Signature { args: None, returns: Some(schemas(&[("x", r#"{"type": "number"}"#)])) },
                ),
                (
                    "set_range".to_string(),
                    Signature { args: Some(schemas(&[("range", r#"{"type": "integer"}"#)])), returns: None },
                ),
            ],
        },
    )
}

fn thermo() -> Category {
    Category::new(
        "/ctg/thermo".to_string(),
        CategoryMetadata {
            name: "thermo".to_string(),
            version: "1.0".to_string(),
            author: Some("someone".to_string()),
            signatures: vec![("get_temp".to_string(), Signature { args: None, returns: None })],
        },
    )
}

fn metadata(name: &str, vendor: Option<&str>) -> DriverMetadata {
    DriverMetadata {
        name: name.to_string(),
        version: "1.2.3".to_string(),
        author: None,
        vendor: vendor.map(|v| v.to_string()),
        category: vec!["gyro".to_string()],
        driver: None,
        requires: Some(vec!["if.type".to_string(), "if.i2c.address".to_string()]),
        detects: None,
        schemas: Some(schemas(&[("if.type", r#"{"enum": ["i2c"]}"#)])),
    }
}

fn l3gd20() -> DriverData {
    DriverData::new("/pkg/l3gd20".to_string(), metadata("l3gd20", Some("st")), vec![gyro()]).unwrap()
}

#[test]
fn category_lists_its_symbols() {
    let c = gyro();
    assert_eq!(c.name(), "gyro");
    assert_eq!(c.required_symbols(), vec!["get_gyro".to_string(), "set_range".to_string()]);
}

#[test]
fn driver_data_from_metadata() {
    let d = l3gd20();
    assert_eq!(d.name(), "l3gd20");
    assert_eq!(d.path(), "/pkg/l3gd20");
    assert_eq!(d.version(), "1.2.3");
    assert_eq!(d.vendor(), &Some("st".to_string()));
    assert_eq!(d.driver_file(), "l3gd20.so");
    assert_eq!(d.category().len(), 1);
    assert_eq!(
        schema_map_entries(d.schemas()),
        vec![
            ("if.type".to_string(), parse(r#"{"type": "string", "enum": ["i2c"]}"#)),
            ("if.i2c.address".to_string(), parse(r#"{"type": "integer"}"#)),
        ]
    );
}

#[test]
fn driver_file_given_by_metadata() {
    let mut m = metadata("x", None);
    m.driver = Some("libx.so.1".to_string());
    let d = DriverData::new("/pkg/x".to_string(), m, vec![]).unwrap();
    assert_eq!(d.driver_file(), "libx.so.1");
}

#[test]
fn driver_without_schema_for_a_required_key_fails() {
    let mut m = metadata("x", None);
    m.requires = Some(vec!["if.type".to_string(), "gain".to_string()]);
    let e = DriverData::new("/pkg/x".to_string(), m, vec![]).unwrap_err();
    assert_eq!(e.name, "gain");
}

#[test]
fn required_symbols_end_with_the_common_ones() {
    let d = DriverData::new("/p".to_string(), metadata("t", None), vec![gyro(), thermo()]).unwrap();
    assert_eq!(
        d.required_symbol_names(),
        vec!["get_gyro", "set_range", "get_temp", "init", "detect"].into_iter().map(String::from).collect::<Vec<_>>()
    );
    assert_eq!(common_symbols(), vec!["init".to_string(), "detect".to_string()]);
    let all: Vec<String> = d.required_symbol_names();
    assert!(d.validate_symbols(&all));
    let mut more = all.clone();
    more.push("extra".to_string());
    assert!(d.validate_symbols(&more));
    let without_temp: Vec<String> = all.iter().filter(|s| s.as_str() != "get_temp").cloned().collect();
    assert!(!d.validate_symbols(&without_temp));
    assert!(!d.validate_symbols(&Vec::new()));
    let e = d.symbols_not_enough();
    assert_eq!(e.name, "t");
    let e2 = DriverData::new("/p".to_string(), metadata("t", None), vec![gyro(), thermo()])
        .unwrap()
        .check_symbols(&without_temp)
        .unwrap_err();
    assert_eq!(e2.message(), e.message());
    let kept = DriverData::new("/p".to_string(), metadata("t", None), vec![gyro(), thermo()])
        .unwrap()
        .check_symbols(&all)
        .unwrap();
    assert_eq!(kept.name(), "t");
    assert_eq!(
        e.message(),
        "Cannot find all required symbols [\"get_gyro\", \"set_range\", \"get_temp\"] and [\"init\", \"detect\"] in driver t"
    );
}

#[test]
fn command_schemas_come_from_the_declaring_category() {
    let d = l3gd20();
    let (args, rets) = d.command_schemas("get_gyro").unwrap();
    assert!(schema_map_entries(&args).is_empty());
    assert_eq!(schema_map_entries(&rets), vec![("x".to_string(), parse(r#"{"type": "number"}"#))]);
    let (args, rets) = d.command_schemas("set_range").unwrap();
    assert_eq!(schema_map_entries(&args), vec![("range".to_string(), parse(r#"{"type": "integer"}"#))]);
    assert!(schema_map_entries(&rets).is_empty());
    let e = d.command_schemas("reset").unwrap_err();
    assert_eq!(e.name, "reset");
    assert_eq!(e.message(), "Unknown command: reset");
}

#[test]
fn driver_config_validation() {
    let d = l3gd20();
    assert!(d.validate_config_value("if.type", &parse(r#""i2c""#)));
    assert!(!d.validate_config_value("if.type", &parse(r#""spi""#)));
    assert!(d.validate_config_value("unrelated", &parse("1")));
    assert!(d.validate_config(&vec![("if.i2c.address".to_string(), parse("104"))]));
    assert!(!d.validate_config(&vec![("if.i2c.address".to_string(), parse(r#""104""#))]));
}

#[test]
fn specs_match_by_name_category_and_vendor() {
    let d = l3gd20();
    assert!(DriverSpec::new(None, None, None).is_conforming(&d));
    assert!(DriverSpec::new(Some("st".to_string()), Some("gyro".to_string()), Some("l3gd20".to_string())).is_conforming(&d));
    assert!(!DriverSpec::new(None, None, Some("mpu6050".to_string())).is_conforming(&d));
    assert!(!DriverSpec::new(None, Some("thermo".to_string()), None).is_conforming(&d));
    assert!(!DriverSpec::new(Some("bosch".to_string()), None, None).is_conforming(&d));
    let no_vendor = DriverData::new("/p".to_string(), metadata("n", None), vec![gyro()]).unwrap();
    assert!(!DriverSpec::new(Some("st".to_string()), None, None).is_conforming(&no_vendor));
}

#[test]
fn empty_specification_fields_request_nothing() {
    let d = l3gd20();
    assert!(DriverSpec::from_specification("", "", "").is_conforming(&d));
    assert!(DriverSpec::from_specification("", "gyro", "").is_conforming(&d));
    assert!(!DriverSpec::from_specification("", "", "other").is_conforming(&d));
}

#[test]
fn manager_holds_loaded_drivers_by_id() {
    let mut m = DriverManager::new();
    assert!(m.drivers().is_empty());
    assert!(m.get_data(&Driver::new(0)).is_err());
    let other = DriverData::new("/pkg/t".to_string(), metadata("tmp", Some("ti")), vec![thermo()]).unwrap();
    m.load_all(vec![l3gd20(), other]);
    assert_eq!(m.drivers(), vec![Driver::new(0), Driver::new(1)]);
    assert_eq!(m.get_data(&Driver::new(1)).unwrap().name(), "tmp");
    let e = m.get_data(&Driver::new(2)).unwrap_err();
    assert_eq!(e.message(), "Internal Error: Use of unknown driver id");
    let pairs = m.driver_data();
    assert_eq!(pairs.len(), 2);
    assert_eq!(pairs[0].0, Driver::new(0));
    assert_eq!(pairs[0].1.name(), "l3gd20");
}

#[test]
fn suitable_drivers_conform_and_accept_the_config() {
    let mut m = DriverManager::new();
    let other = DriverData::new("/pkg/t".to_string(), metadata("tmp", Some("ti")), vec![thermo()]).unwrap();
    m.load_all(vec![l3gd20(), other]);
    let any = DriverSpec::new(None, None, None);
    assert_eq!(m.suitable_drivers(&any, &Vec::new()), vec![Driver::new(0), Driver::new(1)]);
    let gyros = DriverSpec::new(None, Some("gyro".to_string()), None);
    assert_eq!(m.suitable_drivers(&gyros, &Vec::new()), vec![Driver::new(0)]);
    let spi = vec![("if.type".to_string(), parse(r#""spi""#))];
    assert_eq!(m.suitable_drivers(&any, &spi), Vec::<Driver>::new());
    let i2c = vec![("if.type".to_string(), parse(r#""i2c""#))];
    assert_eq!(m.try_suitable_drivers(&any, &i2c), Some(vec![Driver::new(0), Driver::new(1)]));
}

#[test]
fn schemas_with_a_reference_are_told_apart() {
    assert!(parse(r#"{"type": "integer", "enum": [1, 2]}"#).is_ref_free());
    assert!(!parse(r##"{"$ref": "#"}"##).is_ref_free());
    assert!(parse(r#"{"title": "$ref"}"#).is_ref_free());
    assert!(parse(r#"{"type": "integer"}"#).refs_terminate());
    assert!(!parse(r##"{"$ref": "#"}"##).refs_terminate());
    assert!(parse(r##"{"$ref": "#/"}"##).refs_terminate());
    assert!(parse(r##"{"definitions": {"n": {"type": "integer"}}, "$ref": "#/definitions/n"}"##).refs_terminate());
    assert!(parse(r##"{"$ref": "#/definitions/missing"}"##).refs_terminate());
    assert!(!parse(r##"{"definitions": {"a": {"$ref": "#/definitions/b"}, "b": {"$ref": "#/definitions/a"}}, "$ref": "#/definitions/a"}"##).refs_terminate());
    assert!(!parse(r##"{"items": [{"type": "string"}, {"$ref": "#/items"}]}"##).refs_terminate());
    assert!(!parse(r##"{"$id": "http://x/", "definitions": {"n": {}}, "$ref": "#/definitions/n"}"##).refs_terminate());
    assert!(!parse(r##"{"$ref": "other.json#/a"}"##).refs_terminate());
    assert!(!parse(r##"{"$ref": "#/a b"}"##).refs_terminate());
    let d = l3gd20();
    assert!(d.schemas_refs_terminate());
    let mut manager = DriverManager::new();
    let mut md = metadata("looping", None);
    md.schemas = Some(schemas(&[("if.type", r##"{"$ref": "#"}"##)]));
    let looping = DriverData::new("/pkg/looping".to_string(), md, vec![gyro()]).unwrap();
    assert!(!looping.schemas_refs_terminate());
    manager.load_all(vec![d]);
    assert!(manager.schemas_refs_terminate());
    manager.load_all(vec![l3gd20(), looping]);
    assert!(!manager.schemas_refs_terminate());
}

#[test]
fn a_reference_that_ends_is_followed() {
    let mut md = metadata("referring", None);
    md.schemas = Some(schemas(&[
        ("if.type", r#"{"enum": ["i2c"]}"#),
        ("if.i2c.address", r##"{"definitions": {"small": {"maximum": 127}}, "$ref": "#/definitions/small"}"##),
    ]));
    let d = DriverData::new("/pkg/referring".to_string(), md, vec![gyro()]).unwrap();
    assert!(d.schemas_refs_terminate());
    assert!(d.validate_config_value("if.i2c.address", &parse("104")));
    assert!(!d.validate_config_value("if.i2c.address", &parse("200")));
}
