use vstd::prelude::*;

use crate::json::{
    entries_view, items_view, key_index, lemma_array_view, lemma_key_index, lemma_object_view, merged,
    merged_entries, Json, JsonView,
};
use crate::schema_map::keys_unique;

verus! {

/// `serde_json::Value`, the input of valico; `value_model` names what it holds.
#[verifier::external_type_specification]
#[verifier::external_body]
pub struct ExValue(serde_json::Value);

/// The JSON value that a `serde_json::Value` holds, as the constructors below
/// put it there.
pub uninterp spec fn value_model(v: serde_json::Value) -> JsonView;

/// `serde_json::Value::Null`.
#[verifier::external_body]
fn serde_null() -> (r: serde_json::Value)
    ensures
        value_model(r) == JsonView::Null,
{
    serde_json::Value::Null
}

/// `serde_json::Value::Bool`.
#[verifier::external_body]
fn serde_bool(b: bool) -> (r: serde_json::Value)
    ensures
        value_model(r) == JsonView::Bool(b),
{
    serde_json::Value::Bool(b)
}

/// `serde_json::Value::Number`.
#[verifier::external_body]
fn serde_number(n: serde_json::Number) -> (r: serde_json::Value)
    ensures
        value_model(r) == JsonView::Number(n),
{
    serde_json::Value::Number(n)
}

/// `serde_json::Value::String`.
#[verifier::external_body]
fn serde_string(s: String) -> (r: serde_json::Value)
    ensures
        value_model(r) == JsonView::Str(s@),
{
    serde_json::Value::String(s)
}

/// `serde_json::Value::Array`: the array holds the items in order.
#[verifier::external_body]
fn serde_array(items: Vec<serde_json::Value>) -> (r: serde_json::Value)
    ensures
        value_model(r) == JsonView::Array(items@.map_values(|x: serde_json::Value| value_model(x))),
{
    serde_json::Value::Array(items)
}

/// `serde_json::Value::Object` collected from distinct keys; with the
/// `preserve_order` feature the map keeps the order in which they came.
#[verifier::external_body]
fn serde_object(entries: Vec<(String, serde_json::Value)>) -> (r: serde_json::Value)
    requires
        keys_unique(entries@.map_values(|e: (String, serde_json::Value)| (e.0@, value_model(e.1)))),
    ensures
        value_model(r) == JsonView::Object(
            entries@.map_values(|e: (String, serde_json::Value)| (e.0@, value_model(e.1))),
        ),
{
    serde_json::Value::Object(entries.into_iter().collect())
}

/// Whether every object in a value has distinct keys.
pub open spec fn json_wf(j: JsonView) -> bool
    decreases j,
{
    match j {
        JsonView::Array(items) => forall|i: int| 0 <= i < items.len() ==> json_wf(#[trigger] items[i]),
        JsonView::Object(es) => keys_unique(es) && forall|i: int| 0 <= i < es.len() ==> json_wf(#[trigger] es[i].1),
        _ => true,
    }
}

/// The key by which a JSON schema refers to another schema.
pub open spec fn ref_key() -> Seq<char> {
    seq!['$', 'r', 'e', 'f']
}

/// No object anywhere in the value has a `$ref` key. A schema without
/// references never sends valico's validation back into itself.
pub open spec fn ref_free(j: JsonView) -> bool
    decreases j,
{
    match j {
        JsonView::Array(items) => forall|i: int| 0 <= i < items.len() ==> ref_free(#[trigger] items[i]),
        JsonView::Object(es) => forall|i: int|
            0 <= i < es.len() ==> (#[trigger] es[i]).0 != ref_key() && ref_free(es[i].1),
        _ => true,
    }
}

/// An item of a reference-free array is reference-free.
pub proof fn lemma_ref_free_item(items: Seq<JsonView>, q: int)
    requires
        ref_free(JsonView::Array(items)),
        0 <= q < items.len(),
    ensures
        ref_free(items[q]),
{
    assert(decreases_to!(JsonView::Array(items) => JsonView::Array(items)->Array_0));
    assert(decreases_to!(items => items[q]));
}

/// An entry of a reference-free object has another key than `$ref` and a
/// reference-free value.
pub proof fn lemma_ref_free_entry(es: Seq<(Seq<char>, JsonView)>, q: int)
    requires
        ref_free(JsonView::Object(es)),
        0 <= q < es.len(),
    ensures
        es[q].0 != ref_key(),
        ref_free(es[q].1),
{
    assert(decreases_to!(JsonView::Object(es) => JsonView::Object(es)->Object_0));
    assert(decreases_to!(es => es[q]));
    assert(decreases_to!(es[q] => es[q].1));
}

/// The key by which a JSON schema gives a part of itself its own base URL.
pub open spec fn id_key() -> Seq<char> {
    seq!['$', 'i', 'd']
}

/// A character that a URL fragment keeps as it is and that valico holds in its
/// schema keys without encoding.
pub open spec fn plain_pointer_char(c: char) -> bool {
    ('a' <= c && c <= 'z') || ('A' <= c && c <= 'Z') || ('0' <= c && c <= '9') || c == '_' || c == '-' || c == '.'
        || c == '/'
}

/// What the pointer segments `segs` lead to inside `j` holds no `$ref`. A path
/// that leads nowhere asks nothing; one that enters an array asks the whole array.
pub open spec fn pointer_target_ref_free(j: JsonView, segs: Seq<Seq<char>>) -> bool
    decreases segs.len(),
{
    if segs.len() == 0 {
        ref_free(j)
    } else {
        match j {
            JsonView::Object(es) => {
                let i = key_index(es, segs[0]);
                i < 0 || pointer_target_ref_free(es[i].1, segs.drop_first())
            },
            JsonView::Array(_) => ref_free(j),
            _ => true,
        }
    }
}

/// `s` is a reference `#/...` into `root`, written in plain characters, whose
/// target holds no further reference.
pub open spec fn bounded_ref(root: JsonView, s: Seq<char>) -> bool {
    &&& s.len() >= 2
    &&& s[0] == '#'
    &&& s[1] == '/'
    &&& forall|i: int| 2 <= i < s.len() ==> plain_pointer_char(#[trigger] s[i])
    &&& pointer_target_ref_free(root, crate::resolve::split_on(s.skip(2), '/'))
}

/// No object in `j` has an `$id` key, and every text `$ref` in `j` is a bounded
/// reference into `root`.
pub open spec fn refs_bounded(root: JsonView, j: JsonView) -> bool
    decreases j,
{
    match j {
        JsonView::Array(items) => forall|i: int| 0 <= i < items.len() ==> refs_bounded(root, #[trigger] items[i]),
        JsonView::Object(es) => forall|i: int|
            0 <= i < es.len() ==> {
                &&& (#[trigger] es[i]).0 != id_key()
                &&& (es[i].0 == ref_key() && es[i].1 is Str) ==> bounded_ref(root, es[i].1->Str_0)
                &&& refs_bounded(root, es[i].1)
            },
        _ => true,
    }
}

/// A schema whose validation never comes back into a part of it that is being
/// validated: it holds no reference, or every reference leads within it to a
/// part that holds none (and no part takes another base URL).
pub open spec fn refs_terminate(schema: JsonView) -> bool {
    ref_free(schema) || refs_bounded(schema, schema)
}

/// Every schema among the entries has references that terminate.
pub open spec fn entries_refs_terminate(es: Seq<(Seq<char>, JsonView)>) -> bool {
    forall|i: int| 0 <= i < es.len() ==> refs_terminate(#[trigger] es[i].1)
}

/// An item of an array whose references are bounded has bounded references.
pub proof fn lemma_refs_bounded_item(root: JsonView, items: Seq<JsonView>, q: int)
    requires
        refs_bounded(root, JsonView::Array(items)),
        0 <= q < items.len(),
    ensures
        refs_bounded(root, items[q]),
{
    assert(decreases_to!(JsonView::Array(items) => JsonView::Array(items)->Array_0));
    assert(decreases_to!(items => items[q]));
}

/// An entry of an object whose references are bounded has no `$id` key, a
/// bounded reference when it is a text `$ref`, and a value with bounded references.
pub proof fn lemma_refs_bounded_entry(root: JsonView, es: Seq<(Seq<char>, JsonView)>, q: int)
    requires
        refs_bounded(root, JsonView::Object(es)),
        0 <= q < es.len(),
    ensures
        es[q].0 != id_key(),
        (es[q].0 == ref_key() && es[q].1 is Str) ==> bounded_ref(root, es[q].1->Str_0),
        refs_bounded(root, es[q].1),
{
    assert(decreases_to!(JsonView::Object(es) => JsonView::Object(es)->Object_0));
    assert(decreases_to!(es => es[q]));
    assert(decreases_to!(es[q] => es[q].1));
}

/// An item of a well-formed array is well-formed.
pub proof fn lemma_wf_item(items: Seq<JsonView>, q: int)
    requires
        json_wf(JsonView::Array(items)),
        0 <= q < items.len(),
    ensures
        json_wf(items[q]),
{
    assert(decreases_to!(JsonView::Array(items) => JsonView::Array(items)->Array_0));
    assert(decreases_to!(items => items[q]));
}

/// The value of an entry of a well-formed object is well-formed.
pub proof fn lemma_wf_entry(es: Seq<(Seq<char>, JsonView)>, q: int)
    requires
        json_wf(JsonView::Object(es)),
        0 <= q < es.len(),
    ensures
        json_wf(es[q].1),
{
}

/// Merging well-formed values gives a well-formed value: keys stay distinct.
pub proof fn lemma_merged_wf(a: JsonView, b: JsonView)
    requires
        json_wf(a),
        json_wf(b),
    ensures
        json_wf(merged(a, b)),
    decreases b,
{
    if let JsonView::Object(pb) = b {
        if let JsonView::Object(pa) = a {
            assert(decreases_to!(b => b->Object_0));
            lemma_merged_entries_wf(pa, pb);
        }
    }
}

/// Merging the entries of a well-formed object into well-formed entries with
/// distinct keys keeps the keys distinct and the values well-formed.
pub proof fn lemma_merged_entries_wf(acc: Seq<(Seq<char>, JsonView)>, pb: Seq<(Seq<char>, JsonView)>)
    requires
        keys_unique(acc),
        forall|i: int| 0 <= i < acc.len() ==> json_wf(#[trigger] acc[i].1),
        forall|i: int| 0 <= i < pb.len() ==> json_wf(#[trigger] pb[i].1),
    ensures
        keys_unique(merged_entries(acc, pb)),
        forall|i: int| 0 <= i < merged_entries(acc, pb).len() ==> json_wf(#[trigger] merged_entries(acc, pb)[i].1),
    decreases pb,
{
    if pb.len() > 0 {
        let d = pb.drop_last();
        assert forall|i: int| 0 <= i < d.len() implies json_wf(#[trigger] d[i].1) by {
            assert(d[i] == pb[i]);
        }
        assert(decreases_to!(pb => d));
        lemma_merged_entries_wf(acc, d);
        let prev = merged_entries(acc, d);
        let k = pb[pb.len() - 1].0;
        let v = pb[pb.len() - 1].1;
        let i = key_index(prev, k);
        lemma_key_index(prev, k);
        assert(json_wf(v));
        if i >= 0 {
            assert(decreases_to!(pb => pb[pb.len() - 1]));
            assert(decreases_to!(pb[pb.len() - 1] => pb[pb.len() - 1].1));
            lemma_merged_wf(prev[i].1, v);
            let r = prev.update(i, (k, merged(prev[i].1, v)));
            assert(r == merged_entries(acc, pb));
            assert forall|x: int, y: int| 0 <= x < r.len() && 0 <= y < r.len() && x != y implies r[x].0 != r[y].0 by {
                assert(r[x].0 == prev[x].0);
                assert(r[y].0 == prev[y].0);
            }
            assert forall|x: int| 0 <= x < r.len() implies json_wf(#[trigger] r[x].1) by {
                if x != i {
                    assert(r[x] == prev[x]);
                }
            }
        } else {
            let r = prev.push((k, v));
            assert(r == merged_entries(acc, pb));
            assert forall|x: int, y: int| 0 <= x < r.len() && 0 <= y < r.len() && x != y implies r[x].0 != r[y].0 by {
                if x < prev.len() {
                    assert(r[x] == prev[x]);
                }
                if y < prev.len() {
                    assert(r[y] == prev[y]);
                }
            }
            assert forall|x: int| 0 <= x < r.len() implies json_wf(#[trigger] r[x].1) by {
                if x < prev.len() {
                    assert(r[x] == prev[x]);
                }
            }
        }
    }
}

/// Whether no two entries share a key.
pub fn entries_keys_distinct(ps: &Vec<(String, Json)>) -> (r: bool)
    ensures
        r == keys_unique(entries_view(ps@)),
{
    let ghost es = entries_view(ps@);
    let mut i: usize = 0;
    while i < ps.len()
        invariant
            i <= ps.len(),
            es == entries_view(ps@),
            forall|x: int, y: int| 0 <= x < i && 0 <= y < ps.len() && x != y ==> es[x].0 != es[y].0,
        decreases ps.len() - i,
    {
        let mut j: usize = 0;
        while j < ps.len()
            invariant
                i < ps.len(),
                j <= ps.len(),
                es == entries_view(ps@),
                forall|x: int, y: int| 0 <= x < i && 0 <= y < ps.len() && x != y ==> es[x].0 != es[y].0,
                forall|y: int| 0 <= y < j && y != i ==> es[i as int].0 != es[y].0,
            decreases ps.len() - j,
        {
            if j != i && crate::text::str_eq(ps[i].0.as_str(), ps[j].0.as_str()) {
                assert(es[i as int].0 == es[j as int].0);
                return false;
            }
            j = j + 1;
        }
        i = i + 1;
    }
    true
}

impl Json {
    /// Whether every object in this value has distinct keys.
    pub fn well_formed(&self) -> (r: bool)
        ensures
            r == json_wf(self@),
        decreases self,
    {
        match self {
            Json::Array(v) => {
                proof {
                    lemma_array_view(*v);
                }
                let mut i: usize = 0;
                while i < v.len()
                    invariant
                        *self == Json::Array(*v),
                        self@ == JsonView::Array(items_view(v@)),
                        i <= v.len(),
                        forall|k: int| 0 <= k < i ==> json_wf(#[trigger] items_view(v@)[k]),
                    decreases v.len() - i,
                {
                    proof {
                        assert(decreases_to!(*self => (*self)->Array_0));
                        assert(decreases_to!(*v => v@));
                        assert(decreases_to!(v@ => v@[i as int]));
                    }
                    if !v[i].well_formed() {
                        proof {
                            if json_wf(self@) {
                                lemma_wf_item(items_view(v@), i as int);
                            }
                        }
                        return false;
                    }
                    i = i + 1;
                }
                proof {
                    let items = items_view(v@);
                    assert forall|k: int| 0 <= k < items.len() implies json_wf(#[trigger] items[k]) by {}
                    lemma_wf_array_intro(items);
                }
                true
            },
            Json::Object(ps) => {
                proof {
                    lemma_object_view(*ps);
                }
                if !entries_keys_distinct(ps) {
                    return false;
                }
                let mut i: usize = 0;
                while i < ps.len()
                    invariant
                        *self == Json::Object(*ps),
                        self@ == JsonView::Object(entries_view(ps@)),
                        keys_unique(entries_view(ps@)),
                        i <= ps.len(),
                        forall|k: int| 0 <= k < i ==> json_wf(#[trigger] entries_view(ps@)[k].1),
                    decreases ps.len() - i,
                {
                    proof {
                        assert(decreases_to!(*self => (*self)->Object_0));
                        assert(decreases_to!(*ps => ps@));
                        assert(decreases_to!(ps@ => ps@[i as int]));
                        assert(decreases_to!(ps@[i as int] => ps@[i as int].1));
                    }
                    if !ps[i].1.well_formed() {
                        proof {
                            if json_wf(self@) {
                                lemma_wf_entry(entries_view(ps@), i as int);
                            }
                        }
                        return false;
                    }
                    i = i + 1;
                }
                true
            },
            _ => true,
        }
    }
}

impl Json {
    /// Whether no object anywhere in this value has a `$ref` key.
    pub fn is_ref_free(&self) -> (r: bool)
        ensures
            r == ref_free(self@),
        decreases self,
    {
        match self {
            Json::Array(v) => {
                proof {
                    lemma_array_view(*v);
                }
                let mut i: usize = 0;
                while i < v.len()
                    invariant
                        *self == Json::Array(*v),
                        self@ == JsonView::Array(items_view(v@)),
                        i <= v.len(),
                        forall|k: int| 0 <= k < i ==> ref_free(#[trigger] items_view(v@)[k]),
                    decreases v.len() - i,
                {
                    proof {
                        assert(decreases_to!(*self => (*self)->Array_0));
                        assert(decreases_to!(*v => v@));
                        assert(decreases_to!(v@ => v@[i as int]));
                    }
                    if !v[i].is_ref_free() {
                        proof {
                            let items = items_view(v@);
                            assert(items[i as int] == v@[i as int]@);
                            if ref_free(JsonView::Array(items)) {
                                lemma_ref_free_item(items, i as int);
                            }
                        }
                        return false;
                    }
                    i = i + 1;
                }
                true
            },
            Json::Object(ps) => {
                proof {
                    lemma_object_view(*ps);
                    reveal_strlit("$ref");
                    assert("$ref"@ =~= ref_key());
                }
                let mut i: usize = 0;
                while i < ps.len()
                    invariant
                        *self == Json::Object(*ps),
                        self@ == JsonView::Object(entries_view(ps@)),
                        "$ref"@ == ref_key(),
                        i <= ps.len(),
                        forall|k: int|
                            0 <= k < i ==> (#[trigger] entries_view(ps@)[k]).0 != ref_key() && ref_free(
                                entries_view(ps@)[k].1,
                            ),
                    decreases ps.len() - i,
                {
                    proof {
                        assert(decreases_to!(*self => (*self)->Object_0));
                        assert(decreases_to!(*ps => ps@));
                        assert(decreases_to!(ps@ => ps@[i as int]));
                        assert(decreases_to!(ps@[i as int] => ps@[i as int].1));
                    }
                    let ghost e = entries_view(ps@)[i as int];
                    assert(e == (ps@[i as int].0@, ps@[i as int].1@));
                    if crate::text::str_eq(ps[i].0.as_str(), "$ref") {
                        proof {
                            if ref_free(JsonView::Object(entries_view(ps@))) {
                                lemma_ref_free_entry(entries_view(ps@), i as int);
                            }
                        }
                        return false;
                    }
                    if !ps[i].1.is_ref_free() {
                        proof {
                            if ref_free(JsonView::Object(entries_view(ps@))) {
                                lemma_ref_free_entry(entries_view(ps@), i as int);
                            }
                        }
                        return false;
                    }
                    i = i + 1;
                }
                true
            },
            _ => true,
        }
    }
}

/// Whether what `segs[k..]` lead to inside `j` holds no `$ref`.
fn pointer_target_ref_free_from(j: &Json, segs: &Vec<String>, k: usize) -> (r: bool)
    requires
        k <= segs.len(),
    ensures
        r == pointer_target_ref_free(j@, crate::util::strings_view(segs@).skip(k as int)),
    decreases segs.len() - k,
{
    let ghost rest = crate::util::strings_view(segs@).skip(k as int);
    if k == segs.len() {
        assert(rest.len() == 0);
        return j.is_ref_free();
    }
    assert(rest[0] == segs@[k as int]@);
    match j {
        Json::Object(ps) => {
            proof {
                lemma_object_view(*ps);
                lemma_key_index(entries_view(ps@), segs@[k as int]@);
            }
            match crate::json::find_key(ps, segs[k].as_str()) {
                Some(i) => {
                    assert(rest.drop_first() =~= crate::util::strings_view(segs@).skip(k + 1));
                    assert(entries_view(ps@)[i as int].1 == ps@[i as int].1@);
                    pointer_target_ref_free_from(&ps[i].1, segs, k + 1)
                },
                None => true,
            }
        },
        Json::Array(_) => j.is_ref_free(),
        _ => true,
    }
}

/// Whether `s` is a bounded reference into `root`.
fn bounded_ref_text(root: &Json, s: &str) -> (r: bool)
    ensures
        r == bounded_ref(root@, s@),
{
    let cs = crate::text::chars_of(s);
    if cs.len() < 2 || cs[0] != '#' || cs[1] != '/' {
        return false;
    }
    let mut rest = String::new();
    let mut i: usize = 2;
    while i < cs.len()
        invariant
            cs@ == s@,
            2 <= i <= cs.len(),
            rest@ == cs@.subrange(2, i as int),
            forall|q: int| 2 <= q < i ==> plain_pointer_char(#[trigger] cs@[q]),
        decreases cs.len() - i,
    {
        let c = cs[i];
        if !(('a' <= c && c <= 'z') || ('A' <= c && c <= 'Z') || ('0' <= c && c <= '9') || c == '_' || c == '-'
            || c == '.' || c == '/') {
            assert(!plain_pointer_char(cs@[i as int]));
            return false;
        }
        rest.push(c);
        assert(cs@.subrange(2, i + 1) =~= cs@.subrange(2, i as int).push(c));
        i = i + 1;
    }
    assert(rest@ =~= s@.skip(2));
    let segs = crate::resolve::split_text(rest.as_str(), '/');
    assert(crate::util::strings_view(segs@).skip(0) =~= crate::util::strings_view(segs@));
    pointer_target_ref_free_from(root, &segs, 0)
}

impl Json {
    /// Whether no object in this value has an `$id` key and every text `$ref`
    /// in it is a bounded reference into `root`.
    pub fn refs_bounded_in(&self, root: &Json) -> (r: bool)
        ensures
            r == refs_bounded(root@, self@),
        decreases self,
    {
        match self {
            Json::Array(v) => {
                proof {
                    lemma_array_view(*v);
                }
                let mut i: usize = 0;
                while i < v.len()
                    invariant
                        *self == Json::Array(*v),
                        self@ == JsonView::Array(items_view(v@)),
                        i <= v.len(),
                        forall|k: int| 0 <= k < i ==> refs_bounded(root@, #[trigger] items_view(v@)[k]),
                    decreases v.len() - i,
                {
                    proof {
                        assert(decreases_to!(*self => (*self)->Array_0));
                        assert(decreases_to!(*v => v@));
                        assert(decreases_to!(v@ => v@[i as int]));
                    }
                    if !v[i].refs_bounded_in(root) {
                        proof {
                            let items = items_view(v@);
                            assert(items[i as int] == v@[i as int]@);
                            if refs_bounded(root@, JsonView::Array(items)) {
                                lemma_refs_bounded_item(root@, items, i as int);
                            }
                        }
                        return false;
                    }
                    i = i + 1;
                }
                true
            },
            Json::Object(ps) => {
                proof {
                    lemma_object_view(*ps);
                    reveal_strlit("$ref");
                    reveal_strlit("$id");
                    assert("$ref"@ =~= ref_key());
                    assert("$id"@ =~= id_key());
                }
                let ghost es = entries_view(ps@);
                let mut i: usize = 0;
                while i < ps.len()
                    invariant
                        *self == Json::Object(*ps),
                        es == entries_view(ps@),
                        self@ == JsonView::Object(es),
                        "$ref"@ == ref_key(),
                        "$id"@ == id_key(),
                        i <= ps.len(),
                        forall|k: int|
                            0 <= k < i ==> {
                                &&& (#[trigger] es[k]).0 != id_key()
                                &&& (es[k].0 == ref_key() && es[k].1 is Str) ==> bounded_ref(root@, es[k].1->Str_0)
                                &&& refs_bounded(root@, es[k].1)
                            },
                    decreases ps.len() - i,
                {
                    proof {
                        assert(decreases_to!(*self => (*self)->Object_0));
                        assert(decreases_to!(*ps => ps@));
                        assert(decreases_to!(ps@ => ps@[i as int]));
                        assert(decreases_to!(ps@[i as int] => ps@[i as int].1));
                    }
                    assert(es[i as int] == (ps@[i as int].0@, ps@[i as int].1@));
                    let ok = if crate::text::str_eq(ps[i].0.as_str(), "$id") {
                        false
                    } else if crate::text::str_eq(ps[i].0.as_str(), "$ref") {
                        match &ps[i].1 {
                            Json::Str(t) => bounded_ref_text(root, t.as_str()) && ps[i].1.refs_bounded_in(root),
                            _ => ps[i].1.refs_bounded_in(root),
                        }
                    } else {
                        ps[i].1.refs_bounded_in(root)
                    };
                    if !ok {
                        proof {
                            if refs_bounded(root@, JsonView::Object(es)) {
                                lemma_refs_bounded_entry(root@, es, i as int);
                            }
                        }
                        return false;
                    }
                    i = i + 1;
                }
                true
            },
            _ => true,
        }
    }

    /// Whether validation against this schema never comes back into a part of it
    /// that is being validated: see `refs_terminate`.
    pub fn refs_terminate(&self) -> (r: bool)
        ensures
            r == refs_terminate(self@),
    {
        self.is_ref_free() || self.refs_bounded_in(self)
    }
}

/// An array whose items are well-formed is well-formed.
pub proof fn lemma_wf_array_intro(items: Seq<JsonView>)
    requires
        forall|k: int| 0 <= k < items.len() ==> json_wf(#[trigger] items[k]),
    ensures
        json_wf(JsonView::Array(items)),
{
}

/// The same value as a `serde_json::Value`.
pub fn to_serde(j: &Json) -> (r: serde_json::Value)
    requires
        json_wf(j@),
    ensures
        value_model(r) == j@,
    decreases j,
{
    match j {
        Json::Null => serde_null(),
        Json::Bool(b) => serde_bool(*b),
        Json::Number(n) => serde_number(n.clone()),
        Json::Str(s) => serde_string(s.clone()),
        Json::Array(v) => {
            proof {
                lemma_array_view(*v);
            }
            let mut items: Vec<serde_json::Value> = Vec::new();
            let mut i: usize = 0;
            while i < v.len()
                invariant
                    *j == Json::Array(*v),
                    j@ == JsonView::Array(items_view(v@)),
                    json_wf(j@),
                    i <= v.len(),
                    items.len() == i,
                    forall|k: int| 0 <= k < i ==> value_model(#[trigger] items@[k]) == v@[k]@,
                decreases v.len() - i,
            {
                proof {
                    assert(decreases_to!(*j => (*j)->Array_0));
                    assert(decreases_to!(*v => v@));
                    assert(decreases_to!(v@ => v@[i as int]));
                    assert(items_view(v@)[i as int] == v@[i as int]@);
                    lemma_wf_item(items_view(v@), i as int);
                }
                let x = to_serde(&v[i]);
                items.push(x);
                i = i + 1;
            }
            let r = serde_array(items);
            assert(items@.map_values(|x: serde_json::Value| value_model(x)) =~= items_view(v@));
            r
        },
        Json::Object(ps) => {
            proof {
                lemma_object_view(*ps);
            }
            let mut es: Vec<(String, serde_json::Value)> = Vec::new();
            let mut i: usize = 0;
            while i < ps.len()
                invariant
                    *j == Json::Object(*ps),
                    j@ == JsonView::Object(entries_view(ps@)),
                    json_wf(j@),
                    i <= ps.len(),
                    es.len() == i,
                    forall|k: int| 0 <= k < i ==> (#[trigger] es@[k]).0@ == ps@[k].0@ && value_model(es@[k].1) == ps@[k].1@,
                decreases ps.len() - i,
            {
                proof {
                    assert(decreases_to!(*j => (*j)->Object_0));
                    assert(decreases_to!(*ps => ps@));
                    assert(decreases_to!(ps@ => ps@[i as int]));
                    assert(decreases_to!(ps@[i as int] => ps@[i as int].1));
                    assert(entries_view(ps@)[i as int].1 == ps@[i as int].1@);
                    lemma_wf_entry(entries_view(ps@), i as int);
                }
                let k = ps[i].0.clone();
                let x = to_serde(&ps[i].1);
                es.push((k, x));
                i = i + 1;
            }
            assert(es@.map_values(|e: (String, serde_json::Value)| (e.0@, value_model(e.1))) =~= entries_view(ps@));
            serde_object(es)
        },
    }
}

/// The outcome of checking `value` against the JSON schema `schema` with
/// valico: `None` when the schema does not compile, else whether the value is valid.
pub uninterp spec fn schema_verdict(schema: JsonView, value: JsonView) -> Option<bool>;

/// valico's `Scope::compile_and_return` (unknown keywords banned) and
/// `ScopedSchema::validate(..).is_valid()` in a fresh scope. The id that valico
/// gives the compiled schema is random, but a fresh scope holds no other schema,
/// so the verdict is taken as a function of the two values alone. A `$ref` can
/// lead validation back to the part of the schema that it stands in
/// (`{"$ref": "#"}` recurses until the stack overflows), so only schemas whose
/// references end are admitted: valico resolves `#/a/b` against the schema's
/// base URL, which no `$id` changes, by walking its compiled parts key by key,
/// and a part without `$ref` sends validation nowhere else.
#[verifier::external_body]
fn valico_verdict(schema: serde_json::Value, value: &serde_json::Value) -> (r: Option<bool>)
    requires
        refs_terminate(value_model(schema)),
    ensures
        r == schema_verdict(value_model(schema), value_model(*value)),
{
    let mut scope = valico::json_schema::Scope::new();
    match scope.compile_and_return(schema, true) {
        Ok(compiled) => Some(compiled.validate(value).is_valid()),
        Err(_) => None,
    }
}

/// Checks `value` against the JSON schema `schema`, whose references end.
pub fn check_schema(schema: &Json, value: &Json) -> (r: Option<bool>)
    requires
        json_wf(schema@),
        refs_terminate(schema@),
        json_wf(value@),
    ensures
        r == schema_verdict(schema@, value@),
{
    let s = to_serde(schema);
    let v = to_serde(value);
    valico_verdict(s, &v)
}

} // verus!
