use vstd::prelude::*;

use crate::config::config_wf;
use crate::json::{entries_view, items_view, key_index, lemma_array_view, lemma_key_index, lemma_object_view, Json, JsonView};
use crate::laws::{keys_of, lemma_key_index_keys, lemma_key_index_push};
use crate::schema_map::keys_unique;
use crate::util::config_lookup;
use crate::validation::{json_wf, lemma_wf_array_intro, to_serde, value_model};

verus! {

/// A `serde_json::Value` taken apart one level: its kind, and its items or
/// entries still as `serde_json::Value`s.
pub enum SerdeNode {
    Null,
    Bool(bool),
    Number(serde_json::Number),
    Str(String),
    Array(Vec<serde_json::Value>),
    Object(Vec<(String, serde_json::Value)>),
}

/// The variant of a `serde_json::Value`, with copies of its items or entries.
/// A `serde_json::Map` holds each key once, in its order (`preserve_order`).
#[verifier::external_body]
fn serde_node(v: &serde_json::Value) -> (r: SerdeNode)
    ensures
        match r {
            SerdeNode::Null => value_model(*v) == JsonView::Null,
            SerdeNode::Bool(b) => value_model(*v) == JsonView::Bool(b),
            SerdeNode::Number(n) => value_model(*v) == JsonView::Number(n),
            SerdeNode::Str(s) => value_model(*v) == JsonView::Str(s@),
            SerdeNode::Array(items) => value_model(*v) == JsonView::Array(
                Seq::new(items.len() as nat, |i: int| value_model(items@[i])),
            ),
            SerdeNode::Object(es) => value_model(*v) == JsonView::Object(
                Seq::new(es.len() as nat, |i: int| (es@[i].0@, value_model(es@[i].1))),
            ) && keys_unique(Seq::new(es.len() as nat, |i: int| (es@[i].0@, value_model(es@[i].1)))),
        },
{
    match v {
        serde_json::Value::Null => SerdeNode::Null,
        serde_json::Value::Bool(b) => SerdeNode::Bool(*b),
        serde_json::Value::Number(n) => SerdeNode::Number(n.clone()),
        serde_json::Value::String(s) => SerdeNode::Str(s.clone()),
        serde_json::Value::Array(a) => SerdeNode::Array(a.clone()),
        serde_json::Value::Object(m) => SerdeNode::Object(m.iter().map(|(k, x)| (k.clone(), x.clone())).collect()),
    }
}

/// The value that a `serde_json::Value` holds, as a `Json`.
pub fn from_serde(v: &serde_json::Value) -> (r: Json)
    ensures
        r@ == value_model(*v),
        json_wf(r@),
    decreases value_model(*v),
{
    match serde_node(v) {
        SerdeNode::Null => Json::Null,
        SerdeNode::Bool(b) => Json::Bool(b),
        SerdeNode::Number(n) => Json::Number(n),
        SerdeNode::Str(s) => Json::Str(s),
        SerdeNode::Array(items) => {
            let ghost ms = Seq::new(items.len() as nat, |i: int| value_model(items@[i]));
            let mut out: Vec<Json> = Vec::new();
            let mut i: usize = 0;
            while i < items.len()
                invariant
                    value_model(*v) == JsonView::Array(ms),
                    ms == Seq::new(items.len() as nat, |i: int| value_model(items@[i])),
                    i <= items.len(),
                    out.len() == i,
                    forall|k: int| 0 <= k < i ==> (#[trigger] out@[k])@ == ms[k] && json_wf(out@[k]@),
                decreases items.len() - i,
            {
                proof {
                    assert(decreases_to!(value_model(*v) => value_model(*v)->Array_0));
                    assert(decreases_to!(ms => ms[i as int]));
                }
                let x = from_serde(&items[i]);
                out.push(x);
                i = i + 1;
            }
            proof {
                lemma_array_view(out);
                assert(items_view(out@) =~= ms);
                lemma_wf_array_intro(ms);
            }
            Json::Array(out)
        },
        SerdeNode::Object(es) => {
            let ghost ms = Seq::new(es.len() as nat, |i: int| (es@[i].0@, value_model(es@[i].1)));
            let mut out: Vec<(String, Json)> = Vec::new();
            let mut i: usize = 0;
            while i < es.len()
                invariant
                    value_model(*v) == JsonView::Object(ms),
                    ms == Seq::new(es.len() as nat, |i: int| (es@[i].0@, value_model(es@[i].1))),
                    keys_unique(ms),
                    i <= es.len(),
                    out.len() == i,
                    forall|k: int|
                        0 <= k < i ==> (#[trigger] out@[k]).0@ == ms[k].0 && out@[k].1@ == ms[k].1 && json_wf(
                            out@[k].1@,
                        ),
                decreases es.len() - i,
            {
                proof {
                    assert(decreases_to!(value_model(*v) => value_model(*v)->Object_0));
                    assert(decreases_to!(ms => ms[i as int]));
                    assert(decreases_to!(ms[i as int] => ms[i as int].1));
                }
                let x = from_serde(&es[i].1);
                out.push((es[i].0.clone(), x));
                i = i + 1;
            }
            proof {
                lemma_object_view(out);
                assert(entries_view(out@) =~= ms);
            }
            Json::Object(out)
        },
    }
}

/// What `rmp_serde::from_slice::<serde_json::Value>` reads from the bytes:
/// `None` when they are no MessagePack value that a `serde_json::Value` can hold.
pub uninterp spec fn msgpack_json(bytes: Seq<u8>) -> Option<JsonView>;

/// The bytes that `rmp_serde::to_vec` writes for a `serde_json::Value` holding
/// the value: an object becomes a map with its entries in order.
pub uninterp spec fn msgpack_of(value: JsonView) -> Seq<u8>;

/// `rmp_serde::from_slice` into a `serde_json::Value`; any decoding error is `None`.
#[verifier::external_body]
fn unpack_value(bytes: &[u8]) -> (r: Option<serde_json::Value>)
    ensures
        match r {
            Some(v) => msgpack_json(bytes@) == Some(value_model(v)),
            None => msgpack_json(bytes@) is None,
        },
{
    rmp_serde::from_slice::<serde_json::Value>(bytes).ok()
}

/// `rmp_serde::to_vec` on a `serde_json::Value`. The encoder writes into a
/// growable buffer and fails only when that buffer cannot grow, an allocation
/// failure that is not stated here.
#[verifier::external_body]
fn pack_value(v: &serde_json::Value) -> (r: Vec<u8>)
    ensures
        r@ == msgpack_of(value_model(*v)),
{
    rmp_serde::to_vec(v).unwrap()
}

/// The JSON value that MessagePack bytes hold; `None` when they hold none.
pub fn unpack_json(bytes: &[u8]) -> (r: Option<Json>)
    ensures
        match r {
            Some(j) => msgpack_json(bytes@) == Some(j@) && json_wf(j@),
            None => msgpack_json(bytes@) is None,
        },
{
    match unpack_value(bytes) {
        Some(v) => Some(from_serde(&v)),
        None => None,
    }
}

/// Every pair's bytes hold a value.
pub open spec fn pairs_decode(ps: Seq<(String, Vec<u8>)>) -> bool {
    forall|i: int| 0 <= i < ps.len() ==> msgpack_json((#[trigger] ps[i]).1@) is Some
}

/// The value that the last pair with key `k` holds, if any pair has it.
pub open spec fn pairs_lookup(ps: Seq<(String, Vec<u8>)>, k: Seq<char>) -> Option<JsonView>
    decreases ps.len(),
{
    if ps.len() == 0 {
        None
    } else if ps.last().0@ == k {
        msgpack_json(ps.last().1@)
    } else {
        pairs_lookup(ps.drop_last(), k)
    }
}

/// The configuration that key and MessagePack value pairs describe: each key
/// once, with the value of the last pair that has it. `None` when the bytes of
/// some pair hold no value.
pub fn config_from_pairs(pairs: &Vec<(String, Vec<u8>)>) -> (r: Option<Vec<(String, Json)>>)
    ensures
        (r is Some) == pairs_decode(pairs@),
        r matches Some(c) ==> {
            &&& keys_unique(entries_view(c@))
            &&& config_wf(c@)
            &&& forall|k: Seq<char>| #[trigger] config_lookup(c@, k) == pairs_lookup(pairs@, k)
        },
{
    let mut res: Vec<(String, Json)> = Vec::new();
    let mut i: usize = 0;
    while i < pairs.len()
        invariant
            i <= pairs.len(),
            keys_unique(entries_view(res@)),
            config_wf(res@),
            pairs_decode(pairs@.take(i as int)),
            forall|k: Seq<char>| #[trigger] config_lookup(res@, k) == pairs_lookup(pairs@.take(i as int), k),
        decreases pairs.len() - i,
    {
        let ghost before = res@;
        let ghost key = pairs@[i as int].0@;
        assert(pairs@.take(i + 1).drop_last() =~= pairs@.take(i as int));
        assert(pairs@.take(i + 1).last() == pairs@[i as int]);
        let bytes = pairs[i].1.as_slice();
        assert(bytes@ == pairs@[i as int].1@);
        match unpack_json(bytes) {
            None => {
                assert(!pairs_decode(pairs@));
                return None;
            },
            Some(j) => {
                let ghost jv = j@;
                proof {
                    lemma_key_index(entries_view(before), key);
                }
                match crate::json::find_key(&res, pairs[i].0.as_str()) {
                    Some(x) => {
                        res.set(x, (pairs[i].0.clone(), j));
                        proof {
                            assert(keys_of(entries_view(res@)) =~= keys_of(entries_view(before)));
                            assert forall|k: Seq<char>| #[trigger] config_lookup(res@, k) == pairs_lookup(pairs@.take(i + 1), k) by {
                                lemma_key_index_keys(entries_view(res@), entries_view(before), k);
                                lemma_key_index(entries_view(before), k);
                                assert(pairs_lookup(pairs@.take(i + 1), k) == if key == k {
                                    Some(jv)
                                } else {
                                    pairs_lookup(pairs@.take(i as int), k)
                                });
                                assert(config_lookup(before, k) == pairs_lookup(pairs@.take(i as int), k));
                                let t = key_index(entries_view(before), k);
                                if t >= 0 {
                                    assert(entries_view(before)[t].0 == k);
                                    if t == x {
                                        assert(entries_view(res@)[t].1 == jv);
                                    } else {
                                        assert(entries_view(res@)[t] == entries_view(before)[t]);
                                        assert(entries_view(before)[x as int].0 == key);
                                    }
                                }
                            }
                            assert forall|a: int, b: int|
                                0 <= a < res@.len() && 0 <= b < res@.len() && a != b implies entries_view(res@)[a].0 != entries_view(res@)[b].0 by {
                                assert(keys_of(entries_view(res@))[a] == keys_of(entries_view(before))[a]);
                                assert(keys_of(entries_view(res@))[b] == keys_of(entries_view(before))[b]);
                            }
                        }
                    },
                    None => {
                        res.push((pairs[i].0.clone(), j));
                        proof {
                            assert(entries_view(res@) =~= entries_view(before).push((key, jv)));
                            assert forall|k: Seq<char>| #[trigger] config_lookup(res@, k) == pairs_lookup(pairs@.take(i + 1), k) by {
                                lemma_key_index_push(entries_view(before), (key, jv), k);
                                lemma_key_index(entries_view(before), k);
                                assert(pairs_lookup(pairs@.take(i + 1), k) == if key == k {
                                    Some(jv)
                                } else {
                                    pairs_lookup(pairs@.take(i as int), k)
                                });
                                assert(config_lookup(before, k) == pairs_lookup(pairs@.take(i as int), k));
                                let t = key_index(entries_view(before), k);
                                if t >= 0 {
                                    assert(entries_view(res@)[t] == entries_view(before)[t]);
                                }
                            }
                        }
                    },
                }
                assert forall|q: int| 0 <= q < i + 1 implies msgpack_json((#[trigger] pairs@.take(i + 1)[q]).1@) is Some by {
                    if q < i {
                        assert(pairs@.take(i + 1)[q] == pairs@.take(i as int)[q]);
                    }
                }
            },
        }
        i = i + 1;
    }
    assert(pairs@.take(i as int) =~= pairs@);
    Some(res)
}

/// The configuration that MessagePack bytes of a map hold; `None` when they
/// hold no value or a value that is not a map.
pub fn config_from_bytes(bytes: &[u8]) -> (r: Option<Vec<(String, Json)>>)
    ensures
        (r is Some) == (msgpack_json(bytes@) matches Some(JsonView::Object(_))),
        r matches Some(c) ==> msgpack_json(bytes@) == Some(JsonView::Object(entries_view(c@))) && config_wf(c@)
            && keys_unique(entries_view(c@)),
{
    match unpack_json(bytes) {
        Some(Json::Object(es)) => {
            proof {
                lemma_object_view(es);
                assert forall|i: int| 0 <= i < es.len() implies json_wf(#[trigger] es@[i].1@) by {
                    assert(entries_view(es@)[i].1 == es@[i].1@);
                    crate::validation::lemma_wf_entry(entries_view(es@), i);
                }
            }
            Some(es)
        },
        _ => None,
    }
}

/// The MessagePack bytes of a JSON value.
pub fn pack_json(j: &Json) -> (r: Vec<u8>)
    requires
        json_wf(j@),
    ensures
        r@ == msgpack_of(j@),
{
    let v = to_serde(j);
    pack_value(&v)
}

/// The MessagePack bytes of a configuration: a map with its entries in order.
pub fn pack_config(c: &Vec<(String, Json)>) -> (r: Vec<u8>)
    requires
        config_wf(c@),
        keys_unique(entries_view(c@)),
    ensures
        r@ == msgpack_of(JsonView::Object(entries_view(c@))),
{
    let mut copy: Vec<(String, Json)> = Vec::new();
    let mut i: usize = 0;
    while i < c.len()
        invariant
            i <= c.len(),
            copy.len() == i,
            forall|k: int| 0 <= k < i ==> (#[trigger] copy@[k]).0@ == c@[k].0@ && copy@[k].1@ == c@[k].1@,
        decreases c.len() - i,
    {
        copy.push((c[i].0.clone(), c[i].1.deep_copy()));
        i = i + 1;
    }
    assert(entries_view(copy@) =~= entries_view(c@));
    let obj = Json::Object(copy);
    proof {
        lemma_object_view(copy);
        assert forall|k: int| 0 <= k < entries_view(c@).len() implies json_wf(#[trigger] entries_view(c@)[k].1) by {
            assert(entries_view(c@)[k].1 == c@[k].1@);
        }
    }
    pack_json(&obj)
}

} // verus!
