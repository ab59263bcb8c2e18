use vstd::prelude::*;

verus! {

/// `serde_json::Number`, carried through as it is: nothing here reads inside it.
#[verifier::external_type_specification]
#[verifier::external_body]
pub struct ExNumber(serde_json::Number);

/// A JSON value as the configuration and schema logic reads it.
/// Objects keep their entries in insertion order.
#[derive(Debug, PartialEq)]
pub enum Json {
    Null,
    Bool(bool),
    Number(serde_json::Number),
    Str(String),
    Array(Vec<Json>),
    Object(Vec<(String, Json)>),
}

/// The mathematical model of a `Json` value.
pub enum JsonView {
    Null,
    Bool(bool),
    Number(serde_json::Number),
    Str(Seq<char>),
    Array(Seq<JsonView>),
    Object(Seq<(Seq<char>, JsonView)>),
}

impl Json {
    pub open spec fn view(&self) -> JsonView
        decreases self,
    {
        match self {
            Json::Null => JsonView::Null,
            Json::Bool(b) => JsonView::Bool(*b),
            Json::Number(n) => JsonView::Number(*n),
            Json::Str(s) => JsonView::Str(s@),
            Json::Array(v) => JsonView::Array(
                Seq::new(v.len() as nat, |i: int| if 0 <= i < v.len() { v@[i].view() } else { JsonView::Null }),
            ),
            Json::Object(ps) => JsonView::Object(
                Seq::new(ps.len() as nat, |i: int| if 0 <= i < ps.len() { (ps@[i].0@, ps@[i].1.view()) } else { (Seq::empty(), JsonView::Null) }),
            ),
        }
    }
}


/// The items of an array, taken by their views.
pub open spec fn items_view(v: Seq<Json>) -> Seq<JsonView> {
    Seq::new(v.len(), |i: int| v[i]@)
}

/// The view of an array is the view of its items.
pub proof fn lemma_array_view(v: Vec<Json>)
    ensures
        Json::Array(v)@ == JsonView::Array(items_view(v@)),
{
    if let JsonView::Array(x) = Json::Array(v)@ {
        assert(x =~= items_view(v@));
    }
}

/// The view of an object is the view of its entries.
pub proof fn lemma_object_view(ps: Vec<(String, Json)>)
    ensures
        Json::Object(ps)@ == JsonView::Object(entries_view(ps@)),
{
    if let JsonView::Object(x) = Json::Object(ps)@ {
        assert(x =~= entries_view(ps@));
    }
}

/// The entries of an object, taken by their views.
pub open spec fn entries_view(ps: Seq<(String, Json)>) -> Seq<(Seq<char>, JsonView)> {
    Seq::new(ps.len(), |i: int| (ps[i].0@, ps[i].1@))
}

/// The index of the first entry with key `k`, or -1 when there is none.
pub open spec fn key_index<V>(es: Seq<(Seq<char>, V)>, k: Seq<char>) -> int
    decreases es.len(),
{
    if es.len() == 0 {
        -1
    } else {
        let r = key_index(es.drop_last(), k);
        if r >= 0 {
            r
        } else if es.last().0 == k {
            es.len() - 1
        } else {
            -1
        }
    }
}

/// The value that merging `b` into `a` leaves in `a`: two objects merge key by
/// key (recursively for a key that both hold, appending the keys that only `b`
/// holds), and in every other case `b` replaces `a`.
pub open spec fn merged(a: JsonView, b: JsonView) -> JsonView
    decreases b,
{
    match b {
        JsonView::Object(pb) => match a {
            JsonView::Object(pa) => JsonView::Object(merged_entries(pa, pb)),
            _ => b,
        },
        _ => b,
    }
}

/// The entries of `acc` after the entries of `pb` have been merged into them in order.
pub open spec fn merged_entries(
    acc: Seq<(Seq<char>, JsonView)>,
    pb: Seq<(Seq<char>, JsonView)>,
) -> Seq<(Seq<char>, JsonView)>
    decreases pb,
{
    if pb.len() == 0 {
        acc
    } else {
        let prev = merged_entries(acc, pb.drop_last());
        let k = pb[pb.len() - 1].0;
        let v = pb[pb.len() - 1].1;
        let i = key_index(prev, k);
        if i >= 0 {
            prev.update(i, (k, merged(prev[i].1, v)))
        } else {
            prev.push((k, v))
        }
    }
}


/// `serde_json::Number`'s `Clone` (derived): the copy is the same number.
pub assume_specification[ <serde_json::Number as std::clone::Clone>::clone ](n: &serde_json::Number) -> (r: serde_json::Number)
    ensures
        r == *n,
;

impl Json {
    /// A copy of this value.
    pub fn deep_copy(&self) -> (r: Json)
        ensures
            r@ == self@,
        decreases self,
    {
        match self {
            Json::Null => Json::Null,
            Json::Bool(b) => Json::Bool(*b),
            Json::Number(n) => Json::Number(n.clone()),
            Json::Str(s) => Json::Str(s.clone()),
            Json::Array(v) => {
                let mut r: Vec<Json> = Vec::new();
                let mut i: usize = 0;
                while i < v.len()
                    invariant
                        *self == Json::Array(*v),
                        i <= v.len(),
                        r.len() == i,
                        forall|j: int| 0 <= j < i ==> #[trigger] r@[j]@ == v@[j]@,
                    decreases v.len() - i,
                {
                    proof {
                        assert(decreases_to!(*self => (*self)->Array_0));
                        assert(decreases_to!(*v => v@));
                        assert(decreases_to!(v@ => v@[i as int]));
                    }
                    let c = v[i].deep_copy();
                    r.push(c);
                    i = i + 1;
                }
                proof {
                    lemma_array_view(r);
                    lemma_array_view(*v);
                    assert(items_view(r@) =~= items_view(v@));
                }
                Json::Array(r)
            },
            Json::Object(ps) => {
                let r = copy_entries(ps);
                proof {
                    lemma_object_view(r);
                    lemma_object_view(*ps);
                }
                Json::Object(r)
            },
        }
    }
}

/// A copy of a list of object entries.
pub fn copy_entries(ps: &Vec<(String, Json)>) -> (r: Vec<(String, Json)>)
    ensures
        entries_view(r@) == entries_view(ps@),
    decreases ps,
{
    let mut r: Vec<(String, Json)> = Vec::new();
    let mut i: usize = 0;
    while i < ps.len()
        invariant
            i <= ps.len(),
            r.len() == i,
            forall|j: int| 0 <= j < i ==> #[trigger] r@[j].0@ == ps@[j].0@ && r@[j].1@ == ps@[j].1@,
        decreases ps.len() - i,
    {
        let k = ps[i].0.clone();
        let c = ps[i].1.deep_copy();
        r.push((k, c));
        i = i + 1;
    }
    assert(entries_view(r@) =~= entries_view(ps@));
    r
}


/// `key_index` is -1 or the index of an entry that holds `k`, and it is -1
/// exactly when no entry holds `k`.
pub proof fn lemma_key_index<V>(es: Seq<(Seq<char>, V)>, k: Seq<char>)
    ensures
        -1 <= key_index(es, k) < es.len(),
        key_index(es, k) >= 0 ==> es[key_index(es, k)].0 == k,
        key_index(es, k) >= 0 ==> forall|j: int| 0 <= j < key_index(es, k) ==> es[j].0 != k,
        key_index(es, k) == -1 <==> forall|j: int| 0 <= j < es.len() ==> es[j].0 != k,
    decreases es.len(),
{
    if es.len() > 0 {
        let d = es.drop_last();
        lemma_key_index(d, k);
        assert forall|j: int| 0 <= j < d.len() implies #[trigger] d[j] == es[j] by {}
        if key_index(es, k) >= 0 {
            assert forall|j: int| 0 <= j < key_index(es, k) implies es[j].0 != k by {
                assert(d[j] == es[j]);
            }
        }
        if key_index(es, k) == -1 {
            assert forall|j: int| 0 <= j < es.len() implies es[j].0 != k by {
                if j < d.len() {
                    assert(d[j] == es[j]);
                }
            }
        }
    }
}

/// A key found in a prefix is found at the same place in the whole sequence.
pub proof fn lemma_key_index_prefix<V>(es: Seq<(Seq<char>, V)>, k: Seq<char>, n: int)
    requires
        0 <= n <= es.len(),
        key_index(es.take(n), k) >= 0,
    ensures
        key_index(es, k) == key_index(es.take(n), k),
    decreases es.len(),
{
    if n < es.len() {
        assert(es.drop_last().take(n) =~= es.take(n));
        lemma_key_index_prefix(es.drop_last(), k, n);
    } else {
        assert(es.take(n) =~= es);
    }
}

/// The index of the first entry of `ps` whose key is `k`.
pub fn find_key(ps: &Vec<(String, Json)>, k: &str) -> (r: Option<usize>)
    ensures
        match r {
            Some(i) => i as int == key_index(entries_view(ps@), k@),
            None => key_index(entries_view(ps@), k@) == -1,
        },
{
    let ghost es = entries_view(ps@);
    let mut i: usize = 0;
    while i < ps.len()
        invariant
            i <= ps.len(),
            es == entries_view(ps@),
            key_index(es.take(i as int), k@) == -1,
        decreases ps.len() - i,
    {
        assert(es.take(i + 1).drop_last() =~= es.take(i as int));
        if crate::text::str_eq(ps[i].0.as_str(), k) {
            proof {
                lemma_key_index_prefix(es, k@, i + 1);
            }
            return Some(i);
        }
        i = i + 1;
    }
    assert(es.take(i as int) =~= es);
    None
}

/// Merges `b` into `a`: when both are objects, each entry of `b` is merged into
/// the entry of `a` with the same key, or appended when `a` has none; otherwise
/// `a` becomes a copy of `b`.
pub fn merge_value(a: &mut Json, b: &Json)
    ensures
        final(a)@ == merged(old(a)@, b@),
    decreases b,
{
    match b {
        Json::Object(pb) => {
            match a {
                Json::Object(pa) => {
                    proof {
                        assert(decreases_to!(*b => (*b)->Object_0));
                        lemma_object_view(*pa);
                        lemma_object_view(*pb);
                    }
                    merge_entries(pa, pb);
                    proof {
                        lemma_object_view(*pa);
                    }
                },
                _ => {
                    *a = b.deep_copy();
                },
            }
        },
        _ => {
            *a = b.deep_copy();
        },
    }
}

/// Merges the entries `pb` into the entries `pa`, in order.
pub fn merge_entries(pa: &mut Vec<(String, Json)>, pb: &Vec<(String, Json)>)
    ensures
        entries_view(final(pa)@) == merged_entries(entries_view(old(pa)@), entries_view(pb@)),
    decreases pb,
{
    let ghost acc = entries_view(pa@);
    let ghost bs = entries_view(pb@);
    let mut i: usize = 0;
    assert(bs.take(0) =~= Seq::<(Seq<char>, JsonView)>::empty());
    while i < pb.len()
        invariant
            i <= pb.len(),
            bs == entries_view(pb@),
            entries_view(pa@) == merged_entries(acc, bs.take(i as int)),
        decreases pb.len() - i,
    {
        assert(bs.take(i + 1).drop_last() =~= bs.take(i as int));
        let ghost prev = entries_view(pa@);
        match find_key(pa, pb[i].0.as_str()) {
            Some(j) => {
                proof {
                    lemma_key_index(prev, pb@[i as int].0@);
                }
                let (kk, mut v) = pa.remove(j);
                proof {
                    assert(decreases_to!(*pb => pb@));
                    assert(decreases_to!(pb@ => pb@[i as int]));
                    assert(decreases_to!(pb@[i as int] => pb@[i as int].1));
                }
                merge_value(&mut v, &pb[i].1);
                pa.insert(j, (kk, v));
                assert(entries_view(pa@) =~= prev.update(
                    j as int,
                    (pb@[i as int].0@, merged(prev[j as int].1, pb@[i as int].1@)),
                ));
            },
            None => {
                let k = pb[i].0.clone();
                let c = pb[i].1.deep_copy();
                pa.push((k, c));
                assert(entries_view(pa@) =~= prev.push((pb@[i as int].0@, pb@[i as int].1@)));
            },
        }
        i = i + 1;
    }
    assert(bs.take(i as int) =~= bs);
}

} // verus!
