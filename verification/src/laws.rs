use vstd::prelude::*;

use crate::json::{key_index, lemma_key_index, merged, merged_entries, JsonView};
use crate::schema_map::{entries_after_insert, keys_unique};
use crate::codegen::{
    c_identifier, config_typedef_text, ctype_text, field_strs_text, header_text, merge_signature_into, merged_signatures, or_empty,
    signature_decl_text, signature_decls_text, impl_text, signature_stub_text, signature_stubs_text,
};
use crate::driver_manager::{is_suitable, suitable_ids};
use crate::driver::{category_of, category_symbols, common_symbol_names, exports_required, signature_of, DriverDataView};
use crate::category::{symbol_names, CategoryView, SignatureView};
use crate::driver_spec::{conforms, DriverSpecView};
use crate::json::Json;
use crate::literal::first_index;
use crate::resolve::{kept_entries, lemma_first_index_bound, split_on};
use crate::util::{schema_type, config_lookup, field_byte, encoding_fits, plan_contiguous, plan_matches, slot_value, slots_filled_from, CStructPlan, first_unresolved, merged_schema_entries, resolved_schema, schema_lookup};
use crate::validation::json_wf;

verus! {

/// Merging a value that is not an object leaves exactly that value.
pub proof fn law_merge_non_object_replaces(a: JsonView, b: JsonView)
    requires
        !(b is Object),
    ensures
        merged(a, b) == b,
{
}

/// Merging into a value that is not an object leaves exactly the merged value.
pub proof fn law_merge_into_non_object_replaces(a: JsonView, b: JsonView)
    requires
        !(a is Object),
    ensures
        merged(a, b) == b,
{
}

/// Merging a well-formed value into itself changes nothing.
pub proof fn law_merge_self(a: JsonView)
    requires
        json_wf(a),
    ensures
        merged(a, a) == a,
    decreases a, 0nat,
{
    if let JsonView::Object(pa) = a {
        assert(decreases_to!(a => a->Object_0));
        assert(pa.take(pa.len() as int) =~= pa);
        lemma_merge_entries_self(pa, pa.len() as nat);
    }
}

/// Merging the first `n` entries of well-formed entries with distinct keys into
/// those entries changes nothing.
proof fn lemma_merge_entries_self(pa: Seq<(Seq<char>, JsonView)>, n: nat)
    requires
        keys_unique(pa),
        forall|i: int| 0 <= i < pa.len() ==> json_wf(#[trigger] pa[i].1),
        n <= pa.len(),
    ensures
        merged_entries(pa, pa.take(n as int)) == pa,
    decreases pa, n,
{
    if n > 0 {
        let m = (n - 1) as nat;
        lemma_merge_entries_self(pa, m);
        let pb = pa.take(n as int);
        assert(pb.drop_last() =~= pa.take(m as int));
        let k = pa[m as int].0;
        assert(pb[pb.len() - 1] == pa[m as int]);
        lemma_key_index(pa, k);
        let i = key_index(pa, k);
        assert(i == m as int);
        assert(decreases_to!(pa => pa[m as int]));
        assert(decreases_to!(pa[m as int] => pa[m as int].1));
        law_merge_self(pa[m as int].1);
        assert(pa.update(i, (k, merged(pa[i].1, pa[m as int].1))) =~= pa);
    }
}


/// Some entry holds the key `k`.
pub open spec fn has_key<V>(es: Seq<(Seq<char>, V)>, k: Seq<char>) -> bool {
    exists|i: int| 0 <= i < es.len() && #[trigger] es[i].0 == k
}

/// The keys of a sequence of entries.
pub open spec fn keys_of<V>(es: Seq<(Seq<char>, V)>) -> Seq<Seq<char>> {
    Seq::new(es.len(), |i: int| es[i].0)
}

/// `key_index` depends on the keys alone.
pub proof fn lemma_key_index_keys<V, W>(a: Seq<(Seq<char>, V)>, b: Seq<(Seq<char>, W)>, k: Seq<char>)
    requires
        keys_of(a) == keys_of(b),
    ensures
        key_index(a, k) == key_index(b, k),
    decreases a.len(),
{
    assert(a.len() == keys_of(a).len());
    assert(b.len() == keys_of(b).len());
    if a.len() > 0 {
        assert forall|x: int| 0 <= x < a.len() - 1 implies #[trigger] keys_of(a.drop_last())[x] == keys_of(b.drop_last())[x] by {
            assert(keys_of(a)[x] == keys_of(b)[x]);
        }
        assert(keys_of(a.drop_last()) =~= keys_of(b.drop_last()));
        assert(a.last().0 == keys_of(a)[a.len() - 1]);
        assert(b.last().0 == keys_of(b)[b.len() - 1]);
        lemma_key_index_keys(a.drop_last(), b.drop_last(), k);
    }
}

/// Appending an entry keeps the place of a key already present, and puts a new
/// key at the end.
pub proof fn lemma_key_index_push<V>(es: Seq<(Seq<char>, V)>, x: (Seq<char>, V), k: Seq<char>)
    ensures
        key_index(es, k) >= 0 ==> key_index(es.push(x), k) == key_index(es, k),
        key_index(es, k) < 0 && x.0 == k ==> key_index(es.push(x), k) == es.len(),
        key_index(es, k) < 0 && x.0 != k ==> key_index(es.push(x), k) == -1,
{
    assert(es.push(x).drop_last() =~= es);
}

/// Merging keeps every key of both objects, and adds no other.
pub proof fn law_merge_keys(pa: Seq<(Seq<char>, JsonView)>, pb: Seq<(Seq<char>, JsonView)>, k: Seq<char>)
    ensures
        has_key(merged_entries(pa, pb), k) <==> (has_key(pa, k) || has_key(pb, k)),
    decreases pb.len(),
{
    if pb.len() > 0 {
        let d = pb.drop_last();
        law_merge_keys(pa, d, k);
        let prev = merged_entries(pa, d);
        let kk = pb[pb.len() - 1].0;
        let i = key_index(prev, kk);
        lemma_key_index(prev, kk);
        let r = merged_entries(pa, pb);
        if has_key(pb, k) && !has_key(d, k) {
            let j = choose|j: int| 0 <= j < pb.len() && #[trigger] pb[j].0 == k;
            if j < d.len() {
                assert(d[j] == pb[j]);
            }
            assert(kk == k);
        }
        if has_key(d, k) {
            let j = choose|j: int| 0 <= j < d.len() && #[trigger] d[j].0 == k;
            assert(pb[j] == d[j]);
        }
        if i >= 0 {
            assert(keys_of(r) =~= keys_of(prev));
            if has_key(prev, k) {
                let j = choose|j: int| 0 <= j < prev.len() && #[trigger] prev[j].0 == k;
                assert(keys_of(r)[j] == k);
            }
            if has_key(r, k) {
                let j = choose|j: int| 0 <= j < r.len() && #[trigger] r[j].0 == k;
                assert(keys_of(prev)[j] == k);
            }
        } else {
            if has_key(prev, k) {
                let j = choose|j: int| 0 <= j < prev.len() && #[trigger] prev[j].0 == k;
                assert(r[j] == prev[j]);
            }
            if has_key(r, k) {
                let j = choose|j: int| 0 <= j < r.len() && #[trigger] r[j].0 == k;
                if j < prev.len() {
                    assert(r[j] == prev[j]);
                }
            }
            assert(r[prev.len() as int].0 == kk);
        }
    }
}

/// A key of `b` whose value is not an object keeps `b`'s value after merging.
pub proof fn law_merge_leaf_wins(pa: Seq<(Seq<char>, JsonView)>, pb: Seq<(Seq<char>, JsonView)>, j: int)
    requires
        keys_unique(pb),
        0 <= j < pb.len(),
        !(pb[j].1 is Object),
    ensures
        schema_lookup(merged_entries(pa, pb), pb[j].0) == Some(pb[j].1),
    decreases pb.len(),
{
    let d = pb.drop_last();
    let prev = merged_entries(pa, d);
    let kk = pb[pb.len() - 1].0;
    let v = pb[pb.len() - 1].1;
    let i = key_index(prev, kk);
    lemma_key_index(prev, kk);
    let r = merged_entries(pa, pb);
    let k = pb[j].0;
    assert(r == (if i >= 0 { prev.update(i, (kk, merged(prev[i].1, v))) } else { prev.push((kk, v)) }));
    if j < pb.len() - 1 {
        assert(d[j] == pb[j]);
        assert forall|x: int, y: int| 0 <= x < d.len() && 0 <= y < d.len() && x != y implies d[x].0 != d[y].0 by {
            assert(d[x] == pb[x]);
            assert(d[y] == pb[y]);
        }
        law_merge_leaf_wins(pa, d, j);
        assert(k != kk);
        lemma_key_index(prev, k);
        if i >= 0 {
            assert(keys_of(r) =~= keys_of(prev));
            lemma_key_index_keys(r, prev, k);
            assert(r[key_index(prev, k)] == prev[key_index(prev, k)]);
        } else {
            lemma_key_index_push(prev, (kk, v), k);
        }
    } else {
        assert(k == kk);
        assert(v == pb[j].1);
        assert(merged(prev[i].1, v) == v);
        if i >= 0 {
            assert(keys_of(r) =~= keys_of(prev));
            lemma_key_index_keys(r, prev, k);
            assert(r[i].1 == v);
        } else {
            lemma_key_index_push(prev, (kk, v), k);
            assert(r[prev.len() as int] == (kk, v));
        }
    }
}

/// After inserting `(k, v)`, `k` looks up `v` and every other key looks up what it did before.
pub proof fn law_insert_lookup(es: Seq<(Seq<char>, JsonView)>, k: Seq<char>, v: JsonView, k2: Seq<char>)
    requires
        keys_unique(es),
    ensures
        schema_lookup(entries_after_insert(es, k, v), k2) == if k2 == k {
            Some(v)
        } else {
            schema_lookup(es, k2)
        },
        keys_unique(entries_after_insert(es, k, v)),
{
    let i = key_index(es, k);
    lemma_key_index(es, k);
    lemma_key_index(es, k2);
    let base = if i >= 0 { es.remove(i) } else { es };
    assert forall|x: int| 0 <= x < base.len() implies #[trigger] base[x] == es[if i >= 0 && x >= i { x + 1 } else { x }] by {}
    assert forall|x: int| 0 <= x < base.len() implies base[x].0 != k by {
        let y = if i >= 0 && x >= i { x + 1 } else { x };
        assert(base[x] == es[y]);
    }
    assert forall|x: int, y: int| 0 <= x < base.len() && 0 <= y < base.len() && x != y implies base[x].0 != base[y].0 by {
        let x2 = if i >= 0 && x >= i { x + 1 } else { x };
        let y2 = if i >= 0 && y >= i { y + 1 } else { y };
        assert(base[x] == es[x2]);
        assert(base[y] == es[y2]);
    }
    let r = base.push((k, v));
    assert(r == entries_after_insert(es, k, v));
    assert forall|x: int, y: int| 0 <= x < r.len() && 0 <= y < r.len() && x != y implies r[x].0 != r[y].0 by {
        if x < base.len() {
            assert(r[x] == base[x]);
        }
        if y < base.len() {
            assert(r[y] == base[y]);
        }
    }
    lemma_key_index(base, k2);
    lemma_key_index_push(base, (k, v), k2);
    if k2 == k {
        assert(key_index(base, k) == -1);
    } else {
        let j = key_index(es, k2);
        if j >= 0 {
            let jb = if i >= 0 && j > i { j - 1 } else { j };
            assert(base[jb] == es[j]);
            assert(key_index(base, k2) >= 0);
            let q = key_index(base, k2);
            assert(base[q].0 == k2);
            let q2 = if i >= 0 && q >= i { q + 1 } else { q };
            assert(base[q] == es[q2]);
            assert(q2 == j);
        } else {
            if key_index(base, k2) >= 0 {
                let q = key_index(base, k2);
                let q2 = if i >= 0 && q >= i { q + 1 } else { q };
                assert(base[q] == es[q2]);
            }
        }
    }
}


/// The merged schemas give each required key its resolved schema, hold no
/// other key, and hold each key once.
pub proof fn law_merged_schemas_lookup(es: Seq<(Seq<char>, JsonView)>, reqs: Seq<Seq<char>>, k: Seq<char>)
    requires
        first_unresolved(es, reqs) == -1,
    ensures
        keys_unique(merged_schema_entries(es, reqs)),
        reqs.contains(k) ==> schema_lookup(merged_schema_entries(es, reqs), k) == resolved_schema(es, k),
        !reqs.contains(k) ==> schema_lookup(merged_schema_entries(es, reqs), k) is None,
    decreases reqs.len(),
{
    let m = merged_schema_entries(es, reqs);
    if reqs.len() == 0 {
        lemma_key_index(m, k);
    } else {
        let d = reqs.drop_last();
        law_merged_schemas_lookup(es, d, k);
        let last = reqs.last();
        law_insert_lookup(merged_schema_entries(es, d), last, resolved_schema(es, last)->0, k);
        if k != last {
            if reqs.contains(k) {
                let j = choose|j: int| 0 <= j < reqs.len() && reqs[j] == k;
                assert(d[j] == k);
            }
            if d.contains(k) {
                let j = choose|j: int| 0 <= j < d.len() && d[j] == k;
                assert(reqs[j] == k);
            }
        } else {
            assert(reqs[reqs.len() - 1] == k);
            assert(reqs.contains(k));
        }
    }
}


/// Reading back the fields of an assembled C struct gives each field's bytes,
/// or zeros for a field that had no value.
pub proof fn law_c_struct_roundtrip(plan: CStructPlan, encoded: Seq<Option<Vec<u8>>>, buf: Seq<u8>, i: int)
    requires
        plan_contiguous(plan),
        encoding_fits(plan, encoded),
        buf.len() == plan.size,
        forall|a: int, j: int|
            0 <= a < plan.fields.len() && 0 <= j < plan.fields@[a].size ==> buf[plan.fields@[a].offset + j]
                == field_byte(encoded, a, j),
        0 <= i < plan.fields.len(),
    ensures
        buf.subrange(plan.fields@[i].offset as int, plan.fields@[i].offset + plan.fields@[i].size) == match encoded[i] {
            Some(b) => b@,
            None => Seq::new(plan.fields@[i].size as nat, |_j: int| 0u8),
        },
{
    let f = plan.fields@[i];
    let sub = buf.subrange(f.offset as int, f.offset + f.size);
    assert(f.offset + f.size <= plan.size);
    match encoded[i] {
        Some(b) => {
            assert forall|j: int| 0 <= j < f.size implies #[trigger] sub[j] == b@[j] by {
                assert(buf[f.offset + j] == field_byte(encoded, i, j));
            }
            assert(sub =~= b@);
        },
        None => {
            assert forall|j: int| 0 <= j < f.size implies #[trigger] sub[j] == 0u8 by {
                assert(buf[f.offset + j] == field_byte(encoded, i, j));
            }
            assert(sub =~= Seq::new(f.size as nat, |_j: int| 0u8));
        },
    }
}

/// The C struct filled from a configuration depends on the schema and on the
/// configuration's values for the schema's keys alone: two configurations that
/// agree on every key of the schema give the same size, the same fields at the
/// same offsets, and the same value in every field.
pub proof fn law_c_struct_depends_on_schema_keys(
    es: Seq<(Seq<char>, JsonView)>,
    c1: Seq<(String, Json)>,
    c2: Seq<(String, Json)>,
    p1: CStructPlan,
    p2: CStructPlan,
)
    requires
        plan_matches(p1, es),
        plan_matches(p2, es),
        slots_filled_from(p1, c1),
        slots_filled_from(p2, c2),
        forall|i: int| 0 <= i < es.len() ==> config_lookup(c1, (#[trigger] es[i]).0) == config_lookup(c2, es[i].0),
    ensures
        p1.size == p2.size,
        p1.fields.len() == p2.fields.len(),
        forall|i: int|
            0 <= i < p1.fields.len() ==> {
                let (f, g) = (#[trigger] p1.fields@[i], p2.fields@[i]);
                &&& f.name@ == g.name@
                &&& f.type_str@ == g.type_str@
                &&& f.offset == g.offset
                &&& f.size == g.size
                &&& slot_value(f) == slot_value(g)
            },
{
    assert forall|i: int| 0 <= i < p1.fields.len() implies {
        let (f, g) = (#[trigger] p1.fields@[i], p2.fields@[i]);
        &&& f.name@ == g.name@
        &&& f.type_str@ == g.type_str@
        &&& f.offset == g.offset
        &&& f.size == g.size
        &&& slot_value(f) == slot_value(g)
    } by {
        let f = p1.fields@[i];
        let g = p2.fields@[i];
        assert(f.name@ == es[i].0);
        assert(g.name@ == es[i].0);
        assert(slot_value(f) == config_lookup(c1, f.name@));
        assert(slot_value(g) == config_lookup(c2, g.name@));
    }
}

/// The pieces joined with `sep` between them.
pub open spec fn join_on(pieces: Seq<Seq<char>>, sep: char) -> Seq<char>
    decreases pieces.len(),
{
    if pieces.len() == 0 {
        Seq::empty()
    } else if pieces.len() == 1 {
        pieces[0]
    } else {
        pieces[0] + seq![sep] + join_on(pieces.drop_first(), sep)
    }
}

/// Splitting a search path on `sep` and joining the pieces with `sep` gives it back.
pub proof fn law_split_join(s: Seq<char>, sep: char)
    ensures
        split_on(s, sep).len() >= 1,
        join_on(split_on(s, sep), sep) == s,
    decreases s.len(),
{
    let i = first_index(s, sep, sep);
    lemma_first_index_bound(s, sep, sep);
    if i >= 0 {
        crate::literal::lemma_first_index(s, sep, sep, 0);
        lemma_first_index_is_sep(s, sep);
        let rest = s.skip(i + 1);
        law_split_join(rest, sep);
        let p = split_on(s, sep);
        assert(p == seq![s.take(i)] + split_on(rest, sep));
        assert(p.drop_first() =~= split_on(rest, sep));
        assert(s =~= s.take(i) + seq![sep] + rest);
    }
}

/// Where `first_index` finds something, it is `a` or `b`.
proof fn lemma_first_index_is_sep(s: Seq<char>, sep: char)
    ensures
        first_index(s, sep, sep) >= 0 ==> s[first_index(s, sep, sep)] == sep,
    decreases s.len(),
{
    if s.len() > 0 && s[0] != sep {
        let t = s.drop_first();
        lemma_first_index_is_sep(t, sep);
        lemma_first_index_bound(t, sep, sep);
        let r = first_index(t, sep, sep);
        if r >= 0 {
            assert(s[r + 1] == t[r]);
        }
    }
}

/// The suitable drivers are exactly the drivers that conform to the request
/// and accept the configuration, each listed once, in increasing order of id.
pub proof fn law_suitable_ids_exact(ds: Seq<DriverDataView>, s: DriverSpecView, conf: Seq<(String, Json)>, x: int)
    ensures
        suitable_ids(ds, s, conf).contains(x) ==> 0 <= x && x < ds.len() && is_suitable(s, conf, ds[x]),
        0 <= x < ds.len() && is_suitable(s, conf, ds[x]) ==> suitable_ids(ds, s, conf).contains(x),
        forall|a: int, b: int|
            0 <= a < b < suitable_ids(ds, s, conf).len() ==> suitable_ids(ds, s, conf)[a] < suitable_ids(ds, s, conf)[b],
        forall|a: int| 0 <= a < suitable_ids(ds, s, conf).len() ==> 0 <= #[trigger] suitable_ids(ds, s, conf)[a] < ds.len(),
    decreases ds.len(),
{
    if ds.len() > 0 {
        let d = ds.drop_last();
        law_suitable_ids_exact(d, s, conf, x);
        let prev = suitable_ids(d, s, conf);
        let r = suitable_ids(ds, s, conf);
        let n = ds.len() - 1;
        if 0 <= x < d.len() {
            assert(d[x] == ds[x]);
        }
        if is_suitable(s, conf, ds.last()) {
            assert(r == prev.push(n));
            if r.contains(x) {
                let j = choose|j: int| 0 <= j < r.len() && r[j] == x;
                if j < prev.len() {
                    assert(prev[j] == r[j]);
                    assert(prev.contains(x));
                }
            }
            if 0 <= x < d.len() && is_suitable(s, conf, ds[x]) {
                let j = choose|j: int| 0 <= j < prev.len() && prev[j] == x;
                assert(r[j] == prev[j]);
            }
            if x == n {
                assert(r[prev.len() as int] == n);
            }
        } else {
            assert(r == prev);
            if x == n && r.contains(x) {
                let j = choose|j: int| 0 <= j < r.len() && r[j] == x;
                assert(prev[j] < d.len());
                assert(prev[j] == x);
            }
        }
    }
}

/// A request that asks for nothing is met by every driver.
pub proof fn law_empty_request_matches_all(d: DriverDataView)
    ensures
        conforms(DriverSpecView { vendor: None, category: None, name: None }, d),
{
}

/// Merging signatures keeps one signature per command name, and every command
/// name that some category declares.
pub proof fn law_merged_signatures_names(sigs: Seq<(Seq<char>, crate::category::SignatureView)>, k: Seq<char>)
    ensures
        keys_unique(merged_signatures(sigs)),
        has_key(merged_signatures(sigs), k) <==> has_key(sigs, k),
    decreases sigs.len(),
{
    if sigs.len() > 0 {
        let d = sigs.drop_last();
        law_merged_signatures_names(d, k);
        let prev = merged_signatures(d);
        let name = sigs.last().0;
        let i = key_index(prev, name);
        lemma_key_index(prev, name);
        let r = merged_signatures(sigs);
        assert(r == merge_signature_into(prev, name, sigs.last().1));
        if has_key(d, k) {
            let j = choose|j: int| 0 <= j < d.len() && #[trigger] d[j].0 == k;
            assert(sigs[j] == d[j]);
        }
        if has_key(sigs, k) && !has_key(d, k) {
            let j = choose|j: int| 0 <= j < sigs.len() && #[trigger] sigs[j].0 == k;
            if j < d.len() {
                assert(d[j] == sigs[j]);
            }
        }
        if i >= 0 {
            assert forall|x: int| 0 <= x < r.len() implies #[trigger] r[x].0 == prev[x].0 by {}
            if has_key(prev, k) {
                let j = choose|j: int| 0 <= j < prev.len() && #[trigger] prev[j].0 == k;
                assert(r[j].0 == k);
            }
            if has_key(r, k) {
                let j = choose|j: int| 0 <= j < r.len() && #[trigger] r[j].0 == k;
                assert(prev[j].0 == k);
            }
        } else {
            assert forall|x: int| 0 <= x < prev.len() implies #[trigger] r[x] == prev[x] by {}
            if has_key(prev, k) {
                let j = choose|j: int| 0 <= j < prev.len() && #[trigger] prev[j].0 == k;
                assert(r[j].0 == k);
            }
            if has_key(r, k) {
                let j = choose|j: int| 0 <= j < r.len() && #[trigger] r[j].0 == k;
                if j < prev.len() {
                    assert(prev[j].0 == k);
                }
            }
            assert(r[prev.len() as int].0 == name);
            assert forall|x: int, y: int| 0 <= x < r.len() && 0 <= y < r.len() && x != y implies r[x].0 != r[y].0 by {
                if x < prev.len() && y < prev.len() {
                } else if x < prev.len() {
                    assert(prev[x].0 != name);
                } else if y < prev.len() {
                    assert(prev[y].0 != name);
                }
            }
        }
    }
}


/// Merging entries whose keys differ from `k` leaves what `k` looks up unchanged.
pub proof fn lemma_merge_untouched(pa: Seq<(Seq<char>, JsonView)>, pb: Seq<(Seq<char>, JsonView)>, k: Seq<char>)
    requires
        !has_key(pb, k),
    ensures
        schema_lookup(merged_entries(pa, pb), k) == schema_lookup(pa, k),
    decreases pb.len(),
{
    if pb.len() > 0 {
        let d = pb.drop_last();
        if has_key(d, k) {
            let j = choose|j: int| 0 <= j < d.len() && #[trigger] d[j].0 == k;
            assert(pb[j] == d[j]);
        }
        lemma_merge_untouched(pa, d, k);
        let prev = merged_entries(pa, d);
        let kk = pb[pb.len() - 1].0;
        let v = pb[pb.len() - 1].1;
        assert(pb[pb.len() - 1].0 != k);
        let i = key_index(prev, kk);
        lemma_key_index(prev, kk);
        lemma_key_index(prev, k);
        let r = merged_entries(pa, pb);
        assert(r == (if i >= 0 { prev.update(i, (kk, merged(prev[i].1, v))) } else { prev.push((kk, v)) }));
        if i >= 0 {
            assert(keys_of(r) =~= keys_of(prev));
            lemma_key_index_keys(r, prev, k);
            if key_index(prev, k) >= 0 {
                assert(key_index(prev, k) != i);
            }
        } else {
            lemma_key_index_push(prev, (kk, v), k);
        }
    }
}

/// After merging entries with distinct keys, each of their keys looks up its
/// value merged into the old value of that key, or the value itself where
/// there was none.
pub proof fn law_merge_lookup(pa: Seq<(Seq<char>, JsonView)>, pb: Seq<(Seq<char>, JsonView)>, j: int)
    requires
        keys_unique(pb),
        0 <= j < pb.len(),
    ensures
        schema_lookup(merged_entries(pa, pb), pb[j].0) == Some(
            match schema_lookup(pa, pb[j].0) {
                Some(x) => merged(x, pb[j].1),
                None => pb[j].1,
            },
        ),
    decreases pb.len(),
{
    let d = pb.drop_last();
    let prev = merged_entries(pa, d);
    let kk = pb[pb.len() - 1].0;
    let v = pb[pb.len() - 1].1;
    let i = key_index(prev, kk);
    lemma_key_index(prev, kk);
    let r = merged_entries(pa, pb);
    let k = pb[j].0;
    assert(r == (if i >= 0 { prev.update(i, (kk, merged(prev[i].1, v))) } else { prev.push((kk, v)) }));
    if j < pb.len() - 1 {
        assert(d[j] == pb[j]);
        assert forall|x: int, y: int| 0 <= x < d.len() && 0 <= y < d.len() && x != y implies d[x].0 != d[y].0 by {
            assert(d[x] == pb[x]);
            assert(d[y] == pb[y]);
        }
        law_merge_lookup(pa, d, j);
        assert(k != kk);
        lemma_key_index(prev, k);
        if i >= 0 {
            assert(keys_of(r) =~= keys_of(prev));
            lemma_key_index_keys(r, prev, k);
            assert(r[key_index(prev, k)] == prev[key_index(prev, k)]);
        } else {
            lemma_key_index_push(prev, (kk, v), k);
        }
    } else {
        assert(k == kk);
        if has_key(d, k) {
            let q = choose|q: int| 0 <= q < d.len() && #[trigger] d[q].0 == k;
            assert(pb[q] == d[q]);
        }
        lemma_merge_untouched(pa, d, k);
        if i >= 0 {
            assert(keys_of(r) =~= keys_of(prev));
            lemma_key_index_keys(r, prev, k);
        } else {
            lemma_key_index_push(prev, (kk, v), k);
            assert(r[prev.len() as int] == (kk, v));
        }
    }
}

/// Merging the same value a second time changes nothing.
pub proof fn law_merge_idempotent(a: JsonView, b: JsonView)
    requires
        json_wf(a),
        json_wf(b),
    ensures
        merged(merged(a, b), b) == merged(a, b),
    decreases b, 0nat,
{
    if let JsonView::Object(pb) = b {
        if let JsonView::Object(pa) = a {
            assert(decreases_to!(b => b->Object_0));
            let m = merged_entries(pa, pb);
            assert(pb.take(pb.len() as int) =~= pb);
            lemma_merge_idempotent_entries(pa, pb, pb.len() as nat);
            assert(merged(a, b) == JsonView::Object(m));
        } else {
            law_merge_self(b);
        }
    }
}

/// Merging the first `n` entries of `pb` again into the merged entries changes nothing.
proof fn lemma_merge_idempotent_entries(pa: Seq<(Seq<char>, JsonView)>, pb: Seq<(Seq<char>, JsonView)>, n: nat)
    requires
        keys_unique(pa),
        forall|i: int| 0 <= i < pa.len() ==> json_wf(#[trigger] pa[i].1),
        keys_unique(pb),
        forall|i: int| 0 <= i < pb.len() ==> json_wf(#[trigger] pb[i].1),
        n <= pb.len(),
    ensures
        merged_entries(merged_entries(pa, pb), pb.take(n as int)) == merged_entries(pa, pb),
    decreases pb, n,
{
    let m = merged_entries(pa, pb);
    if n > 0 {
        let q = (n - 1) as nat;
        lemma_merge_idempotent_entries(pa, pb, q);
        let t = pb.take(n as int);
        assert(t.drop_last() =~= pb.take(q as int));
        assert(t[t.len() - 1] == pb[q as int]);
        let k = pb[q as int].0;
        let v = pb[q as int].1;
        law_merge_lookup(pa, pb, q as int);
        lemma_key_index(m, k);
        let i = key_index(m, k);
        assert(i >= 0);
        lemma_key_index(pa, k);
        assert(decreases_to!(pb => pb[q as int]));
        assert(decreases_to!(pb[q as int] => pb[q as int].1));
        match schema_lookup(pa, k) {
            Some(x) => {
                assert(json_wf(pa[key_index(pa, k)].1));
                law_merge_idempotent(x, v);
            },
            None => {
                law_merge_self(v);
            },
        }
        assert(m.update(i, (k, merged(m[i].1, v))) =~= m);
    }
}

/// A driver conforms to a request exactly when it has the requested name, has a
/// category of the requested name at some position among its categories, and
/// has the requested vendor, each as far as it is requested.
pub proof fn law_conforms_iff(s: DriverSpecView, d: DriverDataView)
    ensures
        conforms(s, d) <==> {
            &&& (s.name is Some ==> s.name == Some(d.name))
            &&& (s.category is Some ==> exists|i: int|
                0 <= i < d.categories.len() && Some(#[trigger] d.categories[i].name) == s.category)
            &&& (s.vendor is Some ==> d.vendor == s.vendor)
        },
{
    if s.category is Some {
        let c = s.category->0;
        if exists|i: int| 0 <= i < d.categories.len() && Some(#[trigger] d.categories[i].name) == s.category {
            let i = choose|i: int| 0 <= i < d.categories.len() && Some(#[trigger] d.categories[i].name) == s.category;
            assert(d.categories[i].name == c);
        }
        if exists|i: int| 0 <= i < d.categories.len() && #[trigger] d.categories[i].name == c {
            let i = choose|i: int| 0 <= i < d.categories.len() && #[trigger] d.categories[i].name == c;
            assert(Some(d.categories[i].name) == s.category);
        }
    }
}

/// A driver that implements the requested category at any position among its
/// categories conforms to a request for that category alone.
pub proof fn law_conforms_category_anywhere(d: DriverDataView, c: Seq<char>, i: int)
    requires
        0 <= i < d.categories.len(),
        d.categories[i].name == c,
    ensures
        conforms(DriverSpecView { vendor: None, category: Some(c), name: None }, d),
{
    law_conforms_iff(DriverSpecView { vendor: None, category: Some(c), name: None }, d);
}

/// The category that declares a command is the first one, at any position among
/// the categories, with a signature of that name; no category declares a
/// command that no signature names.
pub proof fn law_category_of_first_declaring(cs: Seq<CategoryView>, cmd: Seq<char>)
    ensures
        category_of(cs, cmd) >= 0 <==> exists|i: int, j: int|
            0 <= i < cs.len() && 0 <= j < cs[i].signatures.len() && (#[trigger] cs[i].signatures[j]).0 == cmd,
        category_of(cs, cmd) >= 0 ==> {
            let c = category_of(cs, cmd);
            &&& c < cs.len()
            &&& exists|j: int| 0 <= j < cs[c].signatures.len() && (#[trigger] cs[c].signatures[j]).0 == cmd
            &&& forall|i: int, j: int|
                0 <= i < c && 0 <= j < cs[i].signatures.len() ==> (#[trigger] cs[i].signatures[j]).0 != cmd
        },
    decreases cs.len(),
{
    if cs.len() > 0 {
        let d = cs.drop_last();
        law_category_of_first_declaring(d, cmd);
        assert forall|i: int| 0 <= i < d.len() implies #[trigger] d[i] == cs[i] by {}
        let last = cs.last();
        let names = symbol_names(last);
        if exists|j: int| 0 <= j < last.signatures.len() && (#[trigger] last.signatures[j]).0 == cmd {
            let j = choose|j: int| 0 <= j < last.signatures.len() && (#[trigger] last.signatures[j]).0 == cmd;
            assert(names[j] == cmd);
            assert(names.contains(cmd));
        }
        if names.contains(cmd) {
            let j = choose|j: int| 0 <= j < names.len() && names[j] == cmd;
            assert(last.signatures[j].0 == cmd);
        }
        if exists|i: int, j: int|
            0 <= i < cs.len() && 0 <= j < cs[i].signatures.len() && (#[trigger] cs[i].signatures[j]).0 == cmd {
            let (i, j) = choose|i: int, j: int|
                0 <= i < cs.len() && 0 <= j < cs[i].signatures.len() && (#[trigger] cs[i].signatures[j]).0 == cmd;
            if i < cs.len() - 1 {
                assert(d[i].signatures[j].0 == cmd);
            } else {
                assert(last.signatures[j].0 == cmd);
            }
        }
        if category_of(d, cmd) >= 0 {
            let c = category_of(d, cmd);
            let j = choose|j: int| 0 <= j < d[c].signatures.len() && (#[trigger] d[c].signatures[j]).0 == cmd;
            assert(cs[c].signatures[j].0 == cmd);
            assert forall|i: int, j: int| 0 <= i < c && 0 <= j < cs[i].signatures.len() implies (#[trigger] cs[i].signatures[j]).0 != cmd by {
                assert(d[i] == cs[i]);
                assert(d[i].signatures[j].0 != cmd);
            }
        } else {
            assert forall|i: int, j: int| 0 <= i < d.len() && 0 <= j < cs[i].signatures.len() implies (#[trigger] cs[i].signatures[j]).0 != cmd by {
                assert(d[i] == cs[i]);
                if d[i].signatures[j].0 == cmd {
                    assert(0 <= i < d.len() && 0 <= j < d[i].signatures.len() && d[i].signatures[j].0 == cmd);
                }
            }
        }
    }
}

/// The signature that a category declares for a command is that of its first
/// entry with the command's name.
pub proof fn law_signature_of_first_entry(c: CategoryView, cmd: Seq<char>, j: int)
    requires
        0 <= j < c.signatures.len(),
        c.signatures[j].0 == cmd,
        forall|q: int| 0 <= q < j ==> (#[trigger] c.signatures[q]).0 != cmd,
    ensures
        signature_of(c, cmd) == c.signatures[j].1,
{
    lemma_key_index(c.signatures, cmd);
    let k = key_index(c.signatures, cmd);
    if k >= 0 && k != j {
        if k < j {
            assert(c.signatures[k].0 != cmd);
        }
    }
}

/// Some signature of some category has the name `x`.
pub open spec fn declared_by(cs: Seq<CategoryView>, x: Seq<char>) -> bool {
    exists|i: int, j: int| 0 <= i < cs.len() && 0 <= j < cs[i].signatures.len() && (#[trigger] cs[i].signatures[j]).0 == x
}

/// The symbols that the categories require are exactly the names of their signatures.
pub proof fn lemma_category_symbols_names(cs: Seq<CategoryView>)
    ensures
        forall|k: int| 0 <= k < category_symbols(cs).len() ==> declared_by(cs, #[trigger] category_symbols(cs)[k]),
        forall|i: int, j: int|
            0 <= i < cs.len() && 0 <= j < cs[i].signatures.len() ==> category_symbols(cs).contains(
                (#[trigger] cs[i].signatures[j]).0,
            ),
    decreases cs.len(),
{
    if cs.len() > 0 {
        let d = cs.drop_last();
        lemma_category_symbols_names(d);
        let prev = category_symbols(d);
        let names = symbol_names(cs.last());
        let all = category_symbols(cs);
        assert(all == prev + names);
        assert forall|k: int| 0 <= k < all.len() implies declared_by(cs, #[trigger] all[k]) by {
            if k < prev.len() {
                assert(all[k] == prev[k]);
                assert(declared_by(d, prev[k]));
                let (i, j) = choose|i: int, j: int|
                    0 <= i < d.len() && 0 <= j < d[i].signatures.len() && (#[trigger] d[i].signatures[j]).0 == prev[k];
                assert(d[i] == cs[i]);
                assert(cs[i].signatures[j].0 == all[k]);
            } else {
                let j = k - prev.len();
                let i = cs.len() - 1;
                assert(all[k] == names[j]);
                assert(cs[i].signatures[j].0 == all[k]);
            }
        }
        assert forall|i: int, j: int| 0 <= i < cs.len() && 0 <= j < cs[i].signatures.len() implies all.contains(
            (#[trigger] cs[i].signatures[j]).0,
        ) by {
            if i < d.len() {
                assert(d[i] == cs[i]);
                assert(prev.contains(d[i].signatures[j].0));
                let k = choose|k: int| 0 <= k < prev.len() && prev[k] == d[i].signatures[j].0;
                assert(all[k] == prev[k]);
            } else {
                assert(names[j] == cs[i].signatures[j].0);
                assert(all[prev.len() + j] == names[j]);
            }
        }
    } else {
        assert(category_symbols(cs).len() == 0);
    }
}

/// A driver library exports what the driver needs exactly when it exports
/// `init`, `detect`, and the name of every signature of every category of the
/// driver.
pub proof fn law_exports_required_iff(d: DriverDataView, exported: Seq<Seq<char>>)
    ensures
        exports_required(d, exported) <==> {
            &&& exported.contains("init"@)
            &&& exported.contains("detect"@)
            &&& forall|i: int, j: int|
                0 <= i < d.categories.len() && 0 <= j < d.categories[i].signatures.len() ==> exported.contains(
                    (#[trigger] d.categories[i].signatures[j]).0,
                )
        },
{
    let cs = d.categories;
    lemma_category_symbols_names(cs);
    let prev = category_symbols(cs);
    let req = prev + common_symbol_names();
    assert(common_symbol_names() == seq!["init"@, "detect"@]);
    if exports_required(d, exported) {
        assert(req[prev.len() as int] == "init"@);
        assert(req[prev.len() as int + 1] == "detect"@);
        assert(exported.contains(req[prev.len() as int]));
        assert(exported.contains(req[prev.len() as int + 1]));
        assert forall|i: int, j: int|
            0 <= i < cs.len() && 0 <= j < cs[i].signatures.len() implies exported.contains(
                (#[trigger] cs[i].signatures[j]).0,
            ) by {
            assert(prev.contains(cs[i].signatures[j].0));
            let k = choose|k: int| 0 <= k < prev.len() && prev[k] == cs[i].signatures[j].0;
            assert(req[k] == prev[k]);
            assert(exported.contains(req[k]));
        }
    }
    if exported.contains("init"@) && exported.contains("detect"@) && forall|i: int, j: int|
        0 <= i < cs.len() && 0 <= j < cs[i].signatures.len() ==> exported.contains(
            (#[trigger] cs[i].signatures[j]).0,
        ) {
        assert forall|k: int| 0 <= k < req.len() implies exported.contains(#[trigger] req[k]) by {
            if k < prev.len() {
                assert(req[k] == prev[k]);
                assert(declared_by(cs, prev[k]));
                let (i, j) = choose|i: int, j: int|
                    0 <= i < cs.len() && 0 <= j < cs[i].signatures.len() && (#[trigger] cs[i].signatures[j]).0 == prev[k];
                assert(exported.contains(cs[i].signatures[j].0));
            } else if k == prev.len() {
                assert(req[k] == "init"@);
            } else {
                assert(req[k] == "detect"@);
            }
        }
    }
}

/// The declarations of two lists of commands, one after the other, are those of
/// the joined list.
pub proof fn lemma_signature_decls_concat(a: Seq<(Seq<char>, SignatureView)>, b: Seq<(Seq<char>, SignatureView)>)
    ensures
        signature_decls_text(a + b) == signature_decls_text(a) + signature_decls_text(b),
    decreases b.len(),
{
    if b.len() == 0 {
        assert(a + b =~= a);
        assert(signature_decls_text(b) =~= Seq::<char>::empty());
        assert(signature_decls_text(a) + signature_decls_text(b) =~= signature_decls_text(a));
    } else {
        lemma_signature_decls_concat(a, b.drop_last());
        assert((a + b).drop_last() =~= a + b.drop_last());
        assert((a + b).last() == b.last());
        assert(signature_decls_text(a + b) =~= signature_decls_text(a) + signature_decls_text(b.drop_last())
            + signature_decl_text(b.last().0, b.last().1));
    }
}

/// The generated header for more commands is the header for the first ones
/// followed by the declarations of the others.
pub proof fn law_header_extends(
    config: Seq<(Seq<char>, JsonView)>,
    sigs: Seq<(Seq<char>, SignatureView)>,
    more: Seq<(Seq<char>, SignatureView)>,
)
    ensures
        header_text(config, sigs + more) == header_text(config, sigs) + signature_decls_text(more),
{
    lemma_signature_decls_concat(sigs, more);
    assert(header_text(config, sigs + more) =~= header_text(config, sigs) + signature_decls_text(more));
}

/// The generated header starts with the configuration struct and holds, for
/// every command in turn, its argument struct, its return struct and its
/// prototype: the header for all commands is the header for those before
/// command `i`, then the declarations of command `i`, then those after it.
pub proof fn law_header_declares_each_command(
    config: Seq<(Seq<char>, JsonView)>,
    sigs: Seq<(Seq<char>, SignatureView)>,
    i: int,
)
    requires
        0 <= i < sigs.len(),
    ensures
        header_text(config, sigs).take(
            ("typedef struct Config_ {\n"@ + field_strs_text(config) + "} __attribute__((__packed__)) Config;\n"@).len() as int,
        ) == "typedef struct Config_ {\n"@ + field_strs_text(config) + "} __attribute__((__packed__)) Config;\n"@,
        ({
            let name = sigs[i].0;
            let sig = sigs[i].1;
            header_text(config, sigs) == header_text(config, sigs.take(i)) + ("typedef struct "@ + name + "_args_ {\n"@
                + field_strs_text(or_empty(sig.args)) + "} __attribute__((__packed__)) "@ + name + "_args;\n"@
                + "typedef struct "@ + name + "_returns_ {\n"@ + field_strs_text(or_empty(sig.returns))
                + "} __attribute__((__packed__)) "@ + name + "_returns;\n"@ + name + "_returns* "@ + name + "("@ + name
                + "_args* args, Config* conf);\n"@) + signature_decls_text(sigs.skip(i + 1))
        }),
{
    let one = seq![sigs[i]];
    assert(sigs =~= sigs.take(i) + one + sigs.skip(i + 1));
    lemma_signature_decls_concat(sigs.take(i) + one, sigs.skip(i + 1));
    lemma_signature_decls_concat(sigs.take(i), one);
    assert(one.drop_last() =~= Seq::<(Seq<char>, SignatureView)>::empty());
    assert(one.last() == sigs[i]);
    assert(signature_decls_text(one.drop_last()) =~= Seq::<char>::empty());
    assert(signature_decls_text(one) == signature_decls_text(one.drop_last()) + signature_decl_text(sigs[i].0, sigs[i].1));
    assert(signature_decls_text(one) =~= signature_decl_text(sigs[i].0, sigs[i].1));
    let cfg = config_typedef_text(config);
    assert(header_text(config, sigs).take(cfg.len() as int) =~= cfg);
    assert(header_text(config, sigs) =~= header_text(config, sigs.take(i)) + signature_decl_text(sigs[i].0, sigs[i].1)
        + signature_decls_text(sigs.skip(i + 1)));
}

/// The number of set flags.
pub open spec fn set_count(flags: Seq<bool>) -> nat
    decreases flags.len(),
{
    if flags.len() == 0 {
        0
    } else {
        set_count(flags.drop_last()) + if flags.last() { 1nat } else { 0nat }
    }
}

/// Among the first `n` flags no more are set than among all of them, and fewer
/// when flag `n` itself is set.
pub proof fn lemma_set_count_prefix(flags: Seq<bool>, n: int)
    requires
        0 <= n < flags.len(),
    ensures
        set_count(flags.take(n)) + (if flags[n] { 1int } else { 0int }) <= set_count(flags),
    decreases flags.len(),
{
    if n < flags.len() - 1 {
        let d = flags.drop_last();
        assert(d.take(n) =~= flags.take(n));
        lemma_set_count_prefix(d, n);
    } else {
        assert(flags.drop_last() =~= flags.take(n));
    }
}

/// The entries kept for the search are exactly those whose flag is set, each
/// once and in their order: as many as there are set flags, and the entry at
/// position `i`, when its flag is set, at the place that counts the set flags
/// before it. The first entry is no exception.
pub proof fn law_kept_entries_exact(es: Seq<Seq<char>>, flags: Seq<bool>)
    requires
        es.len() == flags.len(),
    ensures
        kept_entries(es, flags).len() == set_count(flags),
        forall|i: int|
            0 <= i < es.len() && #[trigger] flags[i] ==> kept_entries(es, flags)[set_count(flags.take(i)) as int] == es[i],
    decreases es.len(),
{
    if es.len() > 0 {
        let de = es.drop_last();
        let df = flags.drop_last();
        law_kept_entries_exact(de, df);
        let prev = kept_entries(de, df);
        let n = es.len() - 1;
        assert(df =~= flags.take(n));
        assert forall|i: int| 0 <= i < es.len() && #[trigger] flags[i] implies kept_entries(es, flags)[set_count(
            flags.take(i),
        ) as int] == es[i] by {
            if i < n {
                assert(df[i] == flags[i]);
                assert(df.take(i) =~= flags.take(i));
                lemma_set_count_prefix(df, i);
                assert(prev[set_count(df.take(i)) as int] == de[i]);
            } else {
                assert(flags.take(i) =~= df);
            }
        }
    } else {
        assert(kept_entries(es, flags).len() == 0);
    }
}

/// Every entry kept for the search has its flag set.
pub proof fn law_kept_entries_flagged(es: Seq<Seq<char>>, flags: Seq<bool>, x: Seq<char>)
    requires
        es.len() == flags.len(),
        kept_entries(es, flags).contains(x),
    ensures
        exists|i: int| 0 <= i < es.len() && flags[i] && #[trigger] es[i] == x,
    decreases es.len(),
{
    let de = es.drop_last();
    let df = flags.drop_last();
    let prev = kept_entries(de, df);
    if es.len() > 0 {
        if prev.contains(x) {
            law_kept_entries_flagged(de, df, x);
            let i = choose|i: int| 0 <= i < de.len() && df[i] && #[trigger] de[i] == x;
            assert(es[i] == x);
        } else {
            let n = es.len() - 1;
            let k = choose|k: int| 0 <= k < kept_entries(es, flags).len() && kept_entries(es, flags)[k] == x;
            if flags.last() {
                if k < prev.len() {
                    assert(prev[k] == x);
                }
                assert(es[n] == x);
            } else {
                assert(prev[k] == x);
            }
        }
    }
}

/// The stubs of two lists of commands, one after the other, are those of the joined list.
pub proof fn lemma_signature_stubs_concat(a: Seq<(Seq<char>, SignatureView)>, b: Seq<(Seq<char>, SignatureView)>)
    ensures
        signature_stubs_text(a + b) == signature_stubs_text(a) + signature_stubs_text(b),
    decreases b.len(),
{
    if b.len() == 0 {
        assert(a + b =~= a);
        assert(signature_stubs_text(b) =~= Seq::<char>::empty());
        assert(signature_stubs_text(a) + signature_stubs_text(b) =~= signature_stubs_text(a));
    } else {
        lemma_signature_stubs_concat(a, b.drop_last());
        assert((a + b).drop_last() =~= a + b.drop_last());
        assert((a + b).last() == b.last());
        assert(signature_stubs_text(a + b) =~= signature_stubs_text(a) + signature_stubs_text(b.drop_last())
            + signature_stub_text(b.last().0));
    }
}

/// The generated implementation skeleton holds `init`, `detect`, and a stub for
/// every command in turn: the skeleton for all commands is the skeleton for those
/// before command `i`, then the stub of command `i`, then the stubs after it.
pub proof fn law_impl_stubs_each_command(sigs: Seq<(Seq<char>, SignatureView)>, i: int)
    requires
        0 <= i < sigs.len(),
    ensures
        ({
            let name = sigs[i].0;
            impl_text(sigs) == impl_text(sigs.take(i)) + (name + "_returns* "@ + name + "("@ + name
                + "_args* args, Config* conf) {\n  /* Your Implementation! */\n}\n\n"@) + signature_stubs_text(
                sigs.skip(i + 1),
            )
        }),
        impl_text(sigs).take(
            ("#include \"rami.gen.h\"\n\n"@ + "void init() {\n  /* Your Implementation! */\n}\n\n"@
                + "Config** detect(Config* conf, size_t* size) {\n  /* Your Implementation! */\n}\n\n"@).len() as int,
        ) == "#include \"rami.gen.h\"\n\n"@ + "void init() {\n  /* Your Implementation! */\n}\n\n"@
            + "Config** detect(Config* conf, size_t* size) {\n  /* Your Implementation! */\n}\n\n"@,
{
    let one = seq![sigs[i]];
    assert(sigs =~= sigs.take(i) + one + sigs.skip(i + 1));
    lemma_signature_stubs_concat(sigs.take(i) + one, sigs.skip(i + 1));
    lemma_signature_stubs_concat(sigs.take(i), one);
    assert(one.drop_last() =~= Seq::<(Seq<char>, SignatureView)>::empty());
    assert(one.last() == sigs[i]);
    assert(signature_stubs_text(one.drop_last()) =~= Seq::<char>::empty());
    assert(signature_stubs_text(one) == signature_stubs_text(one.drop_last()) + signature_stub_text(sigs[i].0));
    assert(signature_stubs_text(one) =~= signature_stub_text(sigs[i].0));
    let head = "#include \"rami.gen.h\"\n\n"@ + "void init() {\n  /* Your Implementation! */\n}\n\n"@
        + "Config** detect(Config* conf, size_t* size) {\n  /* Your Implementation! */\n}\n\n"@;
    assert(impl_text(sigs).take(head.len() as int) =~= head);
    assert(impl_text(sigs) =~= impl_text(sigs.take(i)) + signature_stub_text(sigs[i].0) + signature_stubs_text(
        sigs.skip(i + 1),
    ));
}

/// The field lines of two lists of fields, one after the other, are those of the joined list.
pub proof fn lemma_field_strs_concat(a: Seq<(Seq<char>, JsonView)>, b: Seq<(Seq<char>, JsonView)>)
    ensures
        field_strs_text(a + b) == field_strs_text(a) + field_strs_text(b),
    decreases b.len(),
{
    if b.len() == 0 {
        assert(a + b =~= a);
        assert(field_strs_text(b) =~= Seq::<char>::empty());
        assert(field_strs_text(a) + field_strs_text(b) =~= field_strs_text(a));
    } else {
        lemma_field_strs_concat(a, b.drop_last());
        assert((a + b).drop_last() =~= a + b.drop_last());
        assert((a + b).last() == b.last());
    }
}

/// Every field of a C struct gets a line of its own, in order: its C type and
/// its name with `.` written as `_`.
pub proof fn law_field_strs_each_field(es: Seq<(Seq<char>, JsonView)>, i: int)
    requires
        0 <= i < es.len(),
    ensures
        field_strs_text(es) == field_strs_text(es.take(i)) + ("  "@ + ctype_text(schema_type(es[i].1)->0) + " "@
            + c_identifier(es[i].0) + ";\n"@) + field_strs_text(es.skip(i + 1)),
{
    let one = seq![es[i]];
    assert(es =~= es.take(i) + one + es.skip(i + 1));
    lemma_field_strs_concat(es.take(i) + one, es.skip(i + 1));
    lemma_field_strs_concat(es.take(i), one);
    assert(one.drop_last() =~= Seq::<(Seq<char>, JsonView)>::empty());
    assert(one.last() == es[i]);
    assert(field_strs_text(one.drop_last()) =~= Seq::<char>::empty());
    assert(field_strs_text(one) =~= "  "@ + ctype_text(schema_type(es[i].1)->0) + " "@ + c_identifier(es[i].0)
        + ";\n"@);
    assert(field_strs_text(es) =~= field_strs_text(es.take(i)) + ("  "@ + ctype_text(schema_type(es[i].1)->0) + " "@
        + c_identifier(es[i].0) + ";\n"@) + field_strs_text(es.skip(i + 1)));
}

} // verus!
