use vstd::prelude::*;

use crate::json::{entries_view, key_index, lemma_key_index, Json, JsonView};

verus! {

/// `linked_hash_map::LinkedHashMap`, whose contents `schema_entries` names.
#[verifier::external_type_specification]
#[verifier::external_body]
#[verifier::reject_recursive_types(K)]
#[verifier::reject_recursive_types(V)]
#[verifier::reject_recursive_types(S)]
pub struct ExLinkedHashMap<K, V, S>(linked_hash_map::LinkedHashMap<K, V, S>);

/// A map from a field name to its JSON schema, in insertion order.
pub type SchemaMap = linked_hash_map::LinkedHashMap<String, Json>;

/// The entries that a `SchemaMap` holds, oldest first, taken by their views.
pub uninterp spec fn schema_entries(m: linked_hash_map::LinkedHashMap<String, Json>) -> Seq<(Seq<char>, JsonView)>;

/// No two entries share a key.
pub open spec fn keys_unique<V>(es: Seq<(Seq<char>, V)>) -> bool {
    forall|i: int, j: int| 0 <= i < es.len() && 0 <= j < es.len() && i != j ==> es[i].0 != es[j].0
}

/// The entries after inserting `(k, v)`: an entry already holding `k` leaves its
/// place, and the new entry goes last.
pub open spec fn entries_after_insert(
    es: Seq<(Seq<char>, JsonView)>,
    k: Seq<char>,
    v: JsonView,
) -> Seq<(Seq<char>, JsonView)> {
    let i = key_index(es, k);
    if i >= 0 {
        es.remove(i).push((k, v))
    } else {
        es.push((k, v))
    }
}

/// `LinkedHashMap::new`: a map with no entries.
#[verifier::external_body]
pub fn schema_map_new() -> (m: SchemaMap)
    ensures
        schema_entries(m) == Seq::<(Seq<char>, JsonView)>::empty(),
{
    linked_hash_map::LinkedHashMap::new()
}

/// `LinkedHashMap::insert`: a new key is appended; for a key already present the
/// value is replaced, the entry moves to the back, and the old value is returned.
#[verifier::external_body]
pub fn schema_map_insert(m: &mut SchemaMap, k: String, v: Json) -> (r: Option<Json>)
    ensures
        schema_entries(*final(m)) == entries_after_insert(schema_entries(*old(m)), k@, v@),
        keys_unique(schema_entries(*final(m))),
        (r is Some) == (key_index(schema_entries(*old(m)), k@) >= 0),
        r matches Some(x) ==> x@ == schema_entries(*old(m))[key_index(schema_entries(*old(m)), k@)].1,
{
    m.insert(k, v)
}

/// `LinkedHashMap::get`: the value stored under `k`, if any.
#[verifier::external_body]
pub fn schema_map_get<'a>(m: &'a SchemaMap, k: &str) -> (r: Option<&'a Json>)
    ensures
        (r is Some) == (key_index(schema_entries(*m), k@) >= 0),
        r matches Some(x) ==> x@ == schema_entries(*m)[key_index(schema_entries(*m), k@)].1,
{
    m.get(k)
}

/// `LinkedHashMap::iter`, each entry copied out: the entries in order.
#[verifier::external_body]
pub fn schema_map_entries(m: &SchemaMap) -> (r: Vec<(String, Json)>)
    ensures
        entries_view(r@) == schema_entries(*m),
        keys_unique(entries_view(r@)),
{
    m.iter().map(|(k, v)| (k.clone(), v.deep_copy())).collect()
}


/// A copy of a schema map, with the same entries in the same order.
pub fn copy_schema_map(m: &SchemaMap) -> (r: SchemaMap)
    ensures
        schema_entries(r) == schema_entries(*m),
{
    let entries = schema_map_entries(m);
    let ghost es = entries_view(entries@);
    let mut r = schema_map_new();
    let mut i: usize = 0;
    assert(es.take(0) =~= Seq::<(Seq<char>, JsonView)>::empty());
    while i < entries.len()
        invariant
            i <= entries.len(),
            es == entries_view(entries@),
            keys_unique(es),
            schema_entries(r) == es.take(i as int),
        decreases entries.len() - i,
    {
        let k = entries[i].0.clone();
        let v = entries[i].1.deep_copy();
        proof {
            let p = es.take(i as int);
            lemma_key_index(p, es[i as int].0);
            if key_index(p, es[i as int].0) >= 0 {
                let j = key_index(p, es[i as int].0);
                assert(p[j] == es[j]);
            }
            assert(es.take(i + 1) =~= p.push((k@, v@)));
        }
        let _ = schema_map_insert(&mut r, k, v);
        i = i + 1;
    }
    assert(es.take(i as int) =~= es);
    r
}

} // verus!
