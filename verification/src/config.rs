use vstd::prelude::*;

use crate::json::{entries_view, lemma_object_view, Json, JsonView};
use crate::schema_map::keys_unique;
use crate::validation::{check_schema, json_wf, ref_free, ref_key, refs_terminate, schema_verdict};

verus! {

/// A value given for a configuration key.
pub type ConfigValue = Json;

/// A configuration: values by key. Keys are meant to be distinct; lookups take
/// the first entry with a key.
pub type Config = Vec<(String, ConfigValue)>;

/// Every value of a configuration is well-formed JSON.
pub open spec fn config_wf(c: Seq<(String, Json)>) -> bool {
    forall|i: int| 0 <= i < c.len() ==> json_wf(#[trigger] c[i].1@)
}

/// The global schemas are well-formed.
pub proof fn lemma_global_schema_wf(key: Seq<char>)
    ensures
        global_schema_view(key) matches Some(g) ==> json_wf(g),
{
    let t = type_schema_view("integer"@);
    let es = seq![("type"@, JsonView::Str("integer"@))];
    assert(json_wf(es[0].1));
    assert(t == JsonView::Object(es));
    assert(json_wf(t));
    reveal_strlit("type");
    reveal_strlit("enum");
    assert("type"@[0] != "enum"@[0]);
    let items = seq![JsonView::Str("i2c"@), JsonView::Str("spi"@), JsonView::Str("uart"@)];
    assert forall|i: int| 0 <= i < items.len() implies json_wf(#[trigger] items[i]) by {
        assert(decreases_to!(JsonView::Array(items) => JsonView::Array(items)->Array_0));
        assert(decreases_to!(items => items[i]));
    }
    assert(json_wf(JsonView::Array(items)));
    let fs = interface_type_schema_view()->Object_0;
    assert(json_wf(fs[0].1));
    assert(json_wf(fs[1].1));
    assert(json_wf(JsonView::Object(fs)));
}

/// The global schemas refer to no other schema.
pub proof fn lemma_global_schema_ref_free(key: Seq<char>)
    ensures
        global_schema_view(key) matches Some(g) ==> ref_free(g) && refs_terminate(g),
{
    reveal_strlit("type");
    reveal_strlit("enum");
    assert("type"@[0] != ref_key()[0]);
    assert("enum"@[0] != ref_key()[0]);
    let t = type_schema_view("integer"@);
    let es = seq![("type"@, JsonView::Str("integer"@))];
    assert(t == JsonView::Object(es));
    assert(ref_free(es[0].1));
    assert(ref_free(t));
    let items = seq![JsonView::Str("i2c"@), JsonView::Str("spi"@), JsonView::Str("uart"@)];
    assert forall|i: int| 0 <= i < items.len() implies ref_free(#[trigger] items[i]) by {
        assert(decreases_to!(JsonView::Array(items) => JsonView::Array(items)->Array_0));
        assert(decreases_to!(items => items[i]));
    }
    assert(ref_free(JsonView::Array(items)));
    let fs = interface_type_schema_view()->Object_0;
    assert(ref_free(fs[0].1));
    assert(ref_free(fs[1].1));
    assert(ref_free(JsonView::Object(fs)));
}

/// The schema `{"type": <t>}`.
pub open spec fn type_schema_view(t: Seq<char>) -> JsonView {
    JsonView::Object(seq![("type"@, JsonView::Str(t))])
}

/// The schema of the interface type: a string, one of "i2c", "spi" and "uart".
pub open spec fn interface_type_schema_view() -> JsonView {
    JsonView::Object(
        seq![
            ("type"@, JsonView::Str("string"@)),
            ("enum"@, JsonView::Array(seq![JsonView::Str("i2c"@), JsonView::Str("spi"@), JsonView::Str("uart"@)])),
        ],
    )
}

/// The schemas that hold for every driver: "if.type" is one of the known
/// interfaces, "if.i2c.busnum" and "if.i2c.address" are integers.
pub open spec fn global_schema_view(key: Seq<char>) -> Option<JsonView> {
    if key == "if.type"@ {
        Some(interface_type_schema_view())
    } else if key == "if.i2c.busnum"@ {
        Some(type_schema_view("integer"@))
    } else if key == "if.i2c.address"@ {
        Some(type_schema_view("integer"@))
    } else {
        None
    }
}

fn json_string(s: &str) -> (r: Json)
    ensures
        r@ == JsonView::Str(s@),
{
    Json::Str(String::from_str(s))
}

fn type_schema(t: &str) -> (r: Json)
    ensures
        r@ == type_schema_view(t@),
        json_wf(r@),
{
    let mut ps: Vec<(String, Json)> = Vec::new();
    ps.push((String::from_str("type"), json_string(t)));
    proof {
        lemma_object_view(ps);
        let es = seq![("type"@, JsonView::Str(t@))];
        assert(entries_view(ps@) =~= es);
        assert(json_wf(es[0].1));
        assert(json_wf(JsonView::Object(es)));
    }
    Json::Object(ps)
}

fn interface_type_schema() -> (r: Json)
    ensures
        r@ == interface_type_schema_view(),
        json_wf(r@),
{
    let mut kinds: Vec<Json> = Vec::new();
    kinds.push(json_string("i2c"));
    kinds.push(json_string("spi"));
    kinds.push(json_string("uart"));
    let mut ps: Vec<(String, Json)> = Vec::new();
    ps.push((String::from_str("type"), json_string("string")));
    proof {
        crate::json::lemma_array_view(kinds);
        assert(crate::json::items_view(kinds@) =~= seq![JsonView::Str("i2c"@), JsonView::Str("spi"@), JsonView::Str("uart"@)]);
    }
    ps.push((String::from_str("enum"), Json::Array(kinds)));
    proof {
        lemma_object_view(ps);
        reveal_strlit("type");
        reveal_strlit("enum");
        assert(entries_view(ps@) =~= interface_type_schema_view()->Object_0);
        assert("type"@[0] != "enum"@[0]);
        assert("type"@ != "enum"@);
        let items = seq![JsonView::Str("i2c"@), JsonView::Str("spi"@), JsonView::Str("uart"@)];
        assert forall|i: int| 0 <= i < items.len() implies json_wf(#[trigger] items[i]) by {
            assert(decreases_to!(JsonView::Array(items) => JsonView::Array(items)->Array_0));
            assert(decreases_to!(items => items[i]));
        }
        assert(json_wf(JsonView::Array(items)));
        let es = interface_type_schema_view()->Object_0;
        assert(json_wf(es[0].1));
        assert(json_wf(es[1].1));
        assert(json_wf(JsonView::Object(es)));
    }
    Json::Object(ps)
}

/// The schema that holds for `key` on every driver, if there is one.
pub fn global_schema(key: &str) -> (r: Option<Json>)
    ensures
        r matches Some(s) ==> json_wf(s@),
        match (r, global_schema_view(key@)) {
            (Some(s), Some(g)) => s@ == g,
            (None, None) => true,
            _ => false,
        },
{
    if crate::text::str_eq(key, "if.type") {
        Some(interface_type_schema())
    } else if crate::text::str_eq(key, "if.i2c.busnum") {
        Some(type_schema("integer"))
    } else if crate::text::str_eq(key, "if.i2c.address") {
        Some(type_schema("integer"))
    } else {
        None
    }
}

/// What checking `value` against an optional schema gives: any value passes
/// when there is no schema, and `None` stands for a schema that does not compile.
pub open spec fn optional_schema_verdict(schema: Option<JsonView>, value: JsonView) -> Option<bool> {
    match schema {
        Some(s) => schema_verdict(s, value),
        None => Some(true),
    }
}

/// Checks `value` against an optional schema.
pub fn check_optional_schema(schema: Option<&Json>, value: &Json) -> (r: Option<bool>)
    requires
        schema matches Some(s) ==> json_wf(s@) && refs_terminate(s@),
        json_wf(value@),
    ensures
        r == optional_schema_verdict(
            match schema {
                Some(s) => Some(s@),
                None => None,
            },
            value@,
        ),
{
    match schema {
        Some(s) => check_schema(s, value),
        None => Some(true),
    }
}

/// Checks `value` against the global schema of `key`: `None` when that schema
/// does not compile.
pub fn try_validate_config_value(key: &str, value: &ConfigValue) -> (r: Option<bool>)
    requires
        json_wf(value@),
    ensures
        r == optional_schema_verdict(global_schema_view(key@), value@),
{
    let g = global_schema(key);
    proof {
        lemma_global_schema_ref_free(key@);
    }
    match &g {
        Some(s) => check_optional_schema(Some(s), value),
        None => check_optional_schema(None, value),
    }
}

/// Whether `value` is valid for `key` under the global schemas; a key without
/// a global schema accepts any value.
pub fn validate_config_value(key: &str, value: &ConfigValue) -> (r: bool)
    requires
        json_wf(value@),
        optional_schema_verdict(global_schema_view(key@), value@) is Some,
    ensures
        Some(r) == optional_schema_verdict(global_schema_view(key@), value@),
{
    match try_validate_config_value(key, value) {
        Some(b) => b,
        None => false,
    }
}


/// The outcome of checking every entry of a configuration in order with
/// `check`: the first entry whose check is not `Some(true)` decides.
pub open spec fn config_verdict(
    c: Seq<(String, Json)>,
    check: spec_fn(Seq<char>, JsonView) -> Option<bool>,
) -> Option<bool>
    decreases c.len(),
{
    if c.len() == 0 {
        Some(true)
    } else {
        match check(c[0].0@, c[0].1@) {
            Some(true) => config_verdict(c.drop_first(), check),
            other => other,
        }
    }
}

/// The check of an entry against the global schemas.
pub open spec fn global_check() -> spec_fn(Seq<char>, JsonView) -> Option<bool> {
    |k: Seq<char>, v: JsonView| optional_schema_verdict(global_schema_view(k), v)
}

/// Checks every entry of `config` against the global schemas, in order.
pub fn try_validate_config(config: &Config) -> (r: Option<bool>)
    requires
        config_wf(config@),
    ensures
        r == config_verdict(config@, global_check()),
{
    let mut i: usize = 0;
    assert(config@.skip(0) =~= config@);
    while i < config.len()
        invariant
            i <= config.len(),
            config_wf(config@),
            config_verdict(config@, global_check()) == config_verdict(config@.skip(i as int), global_check()),
        decreases config.len() - i,
    {
        let ghost rest = config@.skip(i as int);
        assert(rest.drop_first() =~= config@.skip(i + 1));
        assert(rest[0] == config@[i as int]);
        let v = try_validate_config_value(config[i].0.as_str(), &config[i].1);
        match v {
            Some(true) => {},
            other => {
                return other;
            },
        }
        i = i + 1;
    }
    assert(config@.skip(i as int).len() == 0);
    Some(true)
}

/// Whether every entry of `config` is valid under the global schemas.
pub fn validate_config(config: &Config) -> (r: bool)
    requires
        config_wf(config@),
        config_verdict(config@, global_check()) is Some,
    ensures
        Some(r) == config_verdict(config@, global_check()),
{
    match try_validate_config(config) {
        Some(b) => b,
        None => false,
    }
}

} // verus!
