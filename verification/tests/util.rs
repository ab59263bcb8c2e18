use peripherio::json::Json;
use peripherio::schema_map::{schema_map_entries, schema_map_get, schema_map_insert, schema_map_new, SchemaMap};
use peripherio::util::{
    assemble_c_struct, c_struct_to_value, config_get, merge_schema_with_global, size_of_type, split_c_struct,
    struct_layout, typed_layout, typed_prefix_checked, value_to_c_struct,
};

fn j(v: &serde_json::Value) -> Json {
    match v {
        serde_json::Value::Null => Json::Null,
        serde_json::Value::Bool(b) => Json::Bool(*b),
        serde_json::Value::Number(n) => Json::Number(n.clone()),
        serde_json::Value::String(s) => Json::Str(s.clone()),
        serde_json::Value::Array(a) => Json::Array(a.iter().map(j).collect()),
        serde_json::Value::Object(o) => Json::Object(o.iter().map(|(k, v)| (k.clone(), j(v))).collect()),
    }
}

fn parse(text: &str) -> Json {
    j(&serde_json::from_str::<serde_json::Value>(text).unwrap())
}

fn schemas(entries: &[(&str, &str)]) -> SchemaMap {
    let mut m = schema_map_new();
    for (k, v) in entries {
        schema_map_insert(&mut m, k.to_string(), parse(v));
    }
    m
}

#[test]
fn sizes_of_types() {
    assert_eq!(size_of_type("bool"), 1);
    assert_eq!(size_of_type("integer"), 8);
    assert_eq!(size_of_type("number"), 8);
    assert_eq!(size_of_type("string"), 8);
    assert_eq!(size_of_type("array"), 8);
}

#[test]
fn schema_map_insert_moves_an_existing_key_last() {
    let mut m = schemas(&[("a", "1"), ("b", "2")]);
    let old = schema_map_insert(&mut m, "a".to_string(), parse("3"));
    assert_eq!(old, Some(parse("1")));
    let e = schema_map_entries(&m);
    assert_eq!(e, vec![("b".to_string(), parse("2")), ("a".to_string(), parse("3"))]);
    assert_eq!(schema_map_get(&m, "a"), Some(&parse("3")));
    assert_eq!(schema_map_get(&m, "c"), None);
}

#[test]
fn layout_places_fields_one_after_another() {
    let m = schemas(&[
        ("flag", r#"{"type": "bool"}"#),
        ("count", r#"{"type": "integer"}"#),
        ("label", r#"{"type": "string"}"#),
    ]);
    let plan = struct_layout(&m).unwrap();
    assert_eq!(plan.size, 17);
    let got: Vec<(String, String, usize, usize)> =
        plan.fields.iter().map(|f| (f.name.clone(), f.type_str.clone(), f.offset, f.size)).collect();
    assert_eq!(
        got,
        vec![
            ("flag".to_string(), "bool".to_string(), 0, 1),
            ("count".to_string(), "integer".to_string(), 1, 8),
            ("label".to_string(), "string".to_string(), 9, 8),
        ]
    );
}

#[test]
fn layout_reports_the_first_field_without_a_type() {
    let m = schemas(&[
        ("a", r#"{"type": "bool"}"#),
        ("b", r#"{"minimum": 1}"#),
        ("c", r#"{"type": 3}"#),
    ]);
    let e = struct_layout(&m).unwrap_err();
    assert_eq!(e.field, "b");
    assert_eq!(e.message(), "Cannot find type from schema \"b\"");
}

#[test]
fn empty_layout() {
    let plan = struct_layout(&schema_map_new()).unwrap();
    assert_eq!(plan.size, 0);
    assert!(plan.fields.is_empty());
}

#[test]
fn value_to_c_struct_takes_values_by_name() {
    let m = schemas(&[("on", r#"{"type": "bool"}"#), ("n", r#"{"type": "integer"}"#)]);
    let conf = vec![("n".to_string(), parse("5")), ("other".to_string(), parse("1"))];
    let plan = value_to_c_struct(&m, &conf).unwrap();
    assert_eq!(plan.fields[0].value, None);
    assert_eq!(plan.fields[1].value, Some(parse("5")));
    assert_eq!(config_get(&conf, "other"), Some(&parse("1")));
    assert_eq!(config_get(&conf, "on"), None);
}

#[test]
fn assembled_struct_reads_back() {
    let m = schemas(&[
        ("a", r#"{"type": "bool"}"#),
        ("b", r#"{"type": "integer"}"#),
        ("c", r#"{"type": "bool"}"#),
    ]);
    let plan = struct_layout(&m).unwrap();
    let enc = vec![Some(vec![1u8]), None, Some(vec![0u8])];
    let buf = assemble_c_struct(&plan, &enc);
    assert_eq!(buf, vec![1, 0, 0, 0, 0, 0, 0, 0, 0, 0]);
    let parts = split_c_struct(&plan, &buf);
    assert_eq!(parts, vec![vec![1u8], vec![0u8; 8], vec![0u8]]);
    let enc2 = vec![None, Some(7i64.to_le_bytes().to_vec()), None];
    let buf2 = assemble_c_struct(&plan, &enc2);
    assert_eq!(split_c_struct(&plan, &buf2)[1], 7i64.to_le_bytes().to_vec());
}

#[test]
fn c_struct_values_keep_field_names() {
    let m = schemas(&[("x", r#"{"type": "integer"}"#), ("y", r#"{"type": "bool"}"#)]);
    let plan = struct_layout(&m).unwrap();
    let conf = c_struct_to_value(&plan, vec![parse("3"), parse("true")]);
    assert_eq!(conf, vec![("x".to_string(), parse("3")), ("y".to_string(), parse("true"))]);
}

#[test]
fn required_keys_get_merged_schemas_in_order() {
    let own = schemas(&[
        ("rate", r#"{"type": "number"}"#),
        ("if.type", r#"{"enum": ["i2c"], "description": "bus"}"#),
    ]);
    let keys = vec!["if.type".to_string(), "rate".to_string(), "if.i2c.address".to_string()];
    let merged = merge_schema_with_global(&keys, &own).unwrap();
    assert_eq!(
        schema_map_entries(&merged),
        vec![
            ("if.type".to_string(), parse(r#"{"type": "string", "enum": ["i2c"], "description": "bus"}"#)),
            ("rate".to_string(), parse(r#"{"type": "number"}"#)),
            ("if.i2c.address".to_string(), parse(r#"{"type": "integer"}"#)),
        ]
    );
}

#[test]
fn a_required_key_met_twice_moves_last() {
    let keys = vec!["if.type".to_string(), "if.i2c.busnum".to_string(), "if.type".to_string()];
    let merged = merge_schema_with_global(&keys, &schema_map_new()).unwrap();
    let names: Vec<String> = schema_map_entries(&merged).into_iter().map(|(k, _)| k).collect();
    assert_eq!(names, vec!["if.i2c.busnum".to_string(), "if.type".to_string()]);
}

#[test]
fn a_required_key_without_any_schema_is_unknown() {
    let keys = vec!["if.type".to_string(), "speed".to_string(), "mode".to_string()];
    let e = merge_schema_with_global(&keys, &schemas(&[("mode", r#"{"type": "string"}"#)])).unwrap_err();
    assert_eq!(e.name, "speed");
    assert_eq!(e.message(), "Use of unknown config key: speed");
}

#[test]
fn keys_outside_the_schema_leave_the_struct_unchanged() {
    let m = schemas(&[("on", r#"{"type": "bool"}"#), ("n", r#"{"type": "integer"}"#)]);
    let a = vec![("n".to_string(), parse("5")), ("other".to_string(), parse("1"))];
    let b = vec![("extra".to_string(), parse("\"x\"")), ("n".to_string(), parse("5"))];
    let pa = value_to_c_struct(&m, &a).unwrap();
    let pb = value_to_c_struct(&m, &b).unwrap();
    assert_eq!(pa.size, pb.size);
    assert_eq!(pa.fields.len(), pb.fields.len());
    for (f, g) in pa.fields.iter().zip(pb.fields.iter()) {
        assert_eq!((&f.name, &f.type_str, f.offset, f.size, &f.value), (&g.name, &g.type_str, g.offset, g.size, &g.value));
    }
}

#[test]
fn fields_before_a_missing_type_are_laid_out() {
    let m = schemas(&[("a", r#"{"type": "bool"}"#), ("b", r#"{"type": "integer"}"#), ("c", "{}"), ("d", r#"{"type": "weird"}"#)]);
    assert!(typed_prefix_checked(&m));
    let (plan, missing) = typed_layout(&m);
    assert_eq!(plan.fields.len(), 2);
    assert_eq!(plan.size, 9);
    assert_eq!(missing.unwrap().field, "c");
    let whole = schemas(&[("a", r#"{"type": "bool"}"#)]);
    let (plan, missing) = typed_layout(&whole);
    assert_eq!(plan.fields.len(), 1);
    assert!(missing.is_none());
    assert!(!typed_prefix_checked(&schemas(&[("a", r#"{"type": "weird"}"#), ("c", "{}")])));
}
