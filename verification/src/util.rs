use vstd::prelude::*;

use crate::config::{global_schema, global_schema_view, lemma_global_schema_wf};
use crate::schema_map::keys_unique;
use crate::validation::{json_wf, lemma_merged_wf};
use crate::error::{TypeNotFoundError, UnknownConfigError};
use crate::json::{entries_view, find_key, key_index, lemma_key_index, lemma_object_view, merge_value, merged, Json, JsonView};
use crate::schema_map::{
    entries_after_insert, schema_entries, schema_map_entries, schema_map_get, schema_map_insert,
    schema_map_new, SchemaMap,
};
use crate::text::str_eq;

verus! {

/// A type name that the C layout knows.
pub open spec fn known_type(t: Seq<char>) -> bool {
    t == "string"@ || t == "integer"@ || t == "number"@ || t == "array"@ || t == "bool"@
}

/// The number of bytes that a field of type `t` takes in a C struct.
pub open spec fn type_size(t: Seq<char>) -> nat {
    if t == "bool"@ {
        1
    } else {
        8
    }
}

/// The size in bytes of a field of the given type: strings, numbers and arrays
/// are stored as 8-byte words, booleans as one byte.
pub fn size_of_type(typestr: &str) -> (r: usize)
    requires
        known_type(typestr@),
    ensures
        r == type_size(typestr@),
{
    if str_eq(typestr, "bool") {
        1
    } else {
        8
    }
}

/// The `"type"` string of a schema, if it is an object that has one.
pub open spec fn schema_type(schema: JsonView) -> Option<Seq<char>> {
    match schema {
        JsonView::Object(es) => {
            let i = key_index(es, "type"@);
            if i >= 0 {
                match es[i].1 {
                    JsonView::Str(t) => Some(t),
                    _ => None,
                }
            } else {
                None
            }
        },
        _ => None,
    }
}

/// The `"type"` string of a schema.
pub fn schema_type_of(schema: &Json) -> (r: Option<String>)
    ensures
        match r {
            Some(t) => schema_type(schema@) == Some(t@),
            None => schema_type(schema@) is None,
        },
{
    match schema {
        Json::Object(ps) => {
            proof {
                lemma_object_view(*ps);
            }
            match find_key(ps, "type") {
                Some(i) => {
                    proof {
                        lemma_key_index(entries_view(ps@), "type"@);
                        assert(entries_view(ps@)[i as int].1 == ps@[i as int].1@);
                    }
                    match &ps[i].1 {
                        Json::Str(t) => Some(t.clone()),
                        _ => None,
                    }
                },
                None => None,
            }
        },
        _ => None,
    }
}

/// The index of the first entry whose schema has no `"type"` string, or -1.
pub open spec fn first_untyped(es: Seq<(Seq<char>, JsonView)>) -> int
    decreases es.len(),
{
    if es.len() == 0 {
        -1
    } else {
        let r = first_untyped(es.drop_last());
        if r >= 0 {
            r
        } else if schema_type(es.last().1) is None {
            es.len() - 1
        } else {
            -1
        }
    }
}

/// Where `value_to_c_struct` does not give up: when every field has a type,
/// every type is one that the layout knows.
pub open spec fn layout_types_known(es: Seq<(Seq<char>, JsonView)>) -> bool {
    first_untyped(es) == -1 ==> forall|i: int| 0 <= i < es.len() ==> known_type(#[trigger] schema_type(es[i].1)->0)
}

/// The sum of the sizes of the first `n` fields.
pub open spec fn offset_of(es: Seq<(Seq<char>, JsonView)>, n: int) -> nat
    decreases n,
{
    if n <= 0 {
        0
    } else {
        offset_of(es, n - 1) + type_size(schema_type(es[n - 1].1)->0)
    }
}

/// One field of a C struct: its name, type, place and size, and the
/// configuration value that fills it, if any.
#[derive(Debug)]
pub struct FieldSlot {
    pub name: String,
    pub type_str: String,
    pub offset: usize,
    pub size: usize,
    pub value: Option<Json>,
}

/// The layout of a C struct built from a schema map.
#[derive(Debug)]
pub struct CStructPlan {
    pub fields: Vec<FieldSlot>,
    pub size: usize,
}

/// `plan` lays out the fields of the schema entries `es` in order, each at the
/// sum of the sizes before it.
pub open spec fn plan_matches(plan: CStructPlan, es: Seq<(Seq<char>, JsonView)>) -> bool {
    &&& plan.fields.len() == es.len()
    &&& plan.size == offset_of(es, es.len() as int)
    &&& forall|i: int|
        0 <= i < es.len() ==> {
            let f = #[trigger] plan.fields@[i];
            &&& f.name@ == es[i].0
            &&& schema_type(es[i].1) == Some(f.type_str@)
            &&& f.offset == offset_of(es, i)
            &&& f.size == type_size(f.type_str@)
        }
}

/// The fields of `plan` lie one after the other from offset 0, and the struct
/// ends where the last one ends.
pub open spec fn plan_contiguous(plan: CStructPlan) -> bool {
    &&& forall|i: int| 0 <= i < plan.fields.len() ==> #[trigger] plan.fields@[i].offset + plan.fields@[i].size <= plan.size
    &&& plan.fields.len() == 0 ==> plan.size == 0
    &&& plan.fields.len() > 0 ==> plan.fields@[0].offset == 0
        && plan.fields@[plan.fields.len() - 1].offset + plan.fields@[plan.fields.len() - 1].size == plan.size
    &&& forall|i: int| 0 <= i < plan.fields.len() - 1 ==>
        #[trigger] plan.fields@[i + 1].offset == plan.fields@[i].offset + plan.fields@[i].size
}

/// The layout of the C struct for a schema map: the fields in the order of the
/// map, with their types and byte offsets, or the first field without a type.
pub fn struct_layout(schemas: &SchemaMap) -> (r: Result<CStructPlan, TypeNotFoundError>)
    requires
        layout_types_known(schema_entries(*schemas)),
        schema_entries(*schemas).len() * 8 <= usize::MAX,
    ensures
        (r is Ok) == (first_untyped(schema_entries(*schemas)) == -1),
        r matches Ok(plan) ==> plan_matches(plan, schema_entries(*schemas)) && plan_contiguous(plan)
            && forall|i: int| 0 <= i < plan.fields.len() ==> (#[trigger] plan.fields@[i]).value is None,
        r matches Err(e) ==> e.field@ == schema_entries(*schemas)[first_untyped(schema_entries(*schemas))].0,
{
    let entries = schema_map_entries(schemas);
    let ghost es = schema_entries(*schemas);
    let mut types: Vec<String> = Vec::new();
    let mut i: usize = 0;
    while i < entries.len()
        invariant
            i <= entries.len(),
            es == entries_view(entries@),
            es == schema_entries(*schemas),
            types.len() == i,
            first_untyped(es.take(i as int)) == -1,
            forall|j: int| 0 <= j < i ==> schema_type(es[j].1) == Some((#[trigger] types@[j])@),
        decreases entries.len() - i,
    {
        assert(es.take(i + 1).drop_last() =~= es.take(i as int));
        assert(es.take(i + 1).last() == es[i as int]);
        assert(es[i as int].1 == entries@[i as int].1@);
        match schema_type_of(&entries[i].1) {
            Some(t) => {
                types.push(t);
            },
            None => {
                proof {
                    assert(schema_type(es.take(i + 1).last().1) is None);
                    assert(first_untyped(es.take(i + 1)) == i);
                    lemma_first_untyped_prefix(es, i + 1);
                }
                return Err(TypeNotFoundError { field: entries[i].0.clone() });
            },
        }
        i = i + 1;
    }
    assert(es.take(i as int) =~= es);
    let mut fields: Vec<FieldSlot> = Vec::new();
    let mut offset: usize = 0;
    let mut k: usize = 0;
    while k < entries.len()
        invariant
            k <= entries.len(),
            es == entries_view(entries@),
            es == schema_entries(*schemas),
            es.len() * 8 <= usize::MAX,
            types.len() == entries.len(),
            first_untyped(es) == -1,
            layout_types_known(es),
            forall|j: int| 0 <= j < es.len() ==> schema_type(es[j].1) == Some((#[trigger] types@[j])@),
            fields.len() == k,
            offset == offset_of(es, k as int),
            offset <= 8 * k,
            forall|j: int| 0 <= j < k ==> #[trigger] fields@[j].offset + fields@[j].size <= offset,
            k > 0 ==> fields@[0].offset == 0,
            k > 0 ==> fields@[k - 1].offset + fields@[k - 1].size == offset,
            forall|j: int| 0 <= j < k - 1 ==> #[trigger] fields@[j + 1].offset == fields@[j].offset + fields@[j].size,
            forall|j: int|
                0 <= j < k ==> {
                    let f = #[trigger] fields@[j];
                    &&& f.name@ == es[j].0
                    &&& schema_type(es[j].1) == Some(f.type_str@)
                    &&& f.offset == offset_of(es, j)
                    &&& f.size == type_size(f.type_str@)
                    &&& f.value is None
                },
        decreases entries.len() - k,
    {
        assert(known_type(schema_type(es[k as int].1)->0));
        let size = size_of_type(types[k].as_str());
        fields.push(FieldSlot {
            name: entries[k].0.clone(),
            type_str: types[k].clone(),
            offset,
            size,
            value: None,
        });
        offset = offset + size;
        k = k + 1;
    }
    Ok(CStructPlan { fields, size: offset })
}

/// The number of fields before the first one without a type; all of them when
/// every field has one.
pub open spec fn typed_count(es: Seq<(Seq<char>, JsonView)>) -> int {
    if first_untyped(es) >= 0 {
        first_untyped(es)
    } else {
        es.len() as int
    }
}

/// Every field before the first one without a type has a type that the layout knows.
pub open spec fn typed_prefix_known(es: Seq<(Seq<char>, JsonView)>) -> bool {
    forall|i: int| 0 <= i < typed_count(es) ==> known_type(#[trigger] schema_type(es[i].1)->0)
}

/// The layout of the fields before the first field without a type, and the
/// error for that field if there is one. A C struct is read field by field,
/// so these fields are read, and their errors reported, before the missing type.
pub fn typed_layout(schemas: &SchemaMap) -> (r: (CStructPlan, Option<TypeNotFoundError>))
    requires
        typed_prefix_known(schema_entries(*schemas)),
        schema_entries(*schemas).len() * 8 <= usize::MAX,
    ensures
        plan_matches(r.0, schema_entries(*schemas).take(typed_count(schema_entries(*schemas)))),
        plan_contiguous(r.0),
        (r.1 is Some) == (first_untyped(schema_entries(*schemas)) >= 0),
        r.1 matches Some(e) ==> e.field@ == schema_entries(*schemas)[first_untyped(schema_entries(*schemas))].0,
{
    let entries = schema_map_entries(schemas);
    let ghost es = schema_entries(*schemas);
    proof {
        lemma_first_untyped_bound(es);
    }
    let mut prefix = schema_map_new();
    let mut n: usize = 0;
    let mut missing: Option<TypeNotFoundError> = None;
    assert(es.take(0) =~= Seq::<(Seq<char>, JsonView)>::empty());
    while n < entries.len() && missing.is_none()
        invariant
            n <= entries.len(),
            es == entries_view(entries@),
            es == schema_entries(*schemas),
            keys_unique(es),
            first_untyped(es.take(n as int)) == -1,
            schema_entries(prefix) == es.take(n as int),
            missing matches Some(e) ==> n < entries.len() && first_untyped(es) == n && e.field@ == es[n as int].0,
        decreases entries.len() - n + if missing is None { 1int } else { 0int },
    {
        assert(es.take(n + 1).drop_last() =~= es.take(n as int));
        assert(es.take(n + 1).last() == es[n as int]);
        assert(es[n as int].1 == entries@[n as int].1@);
        if schema_type_of(&entries[n].1).is_none() {
            proof {
                assert(first_untyped(es.take(n + 1)) == n);
                lemma_first_untyped_prefix(es, n + 1);
            }
            missing = Some(TypeNotFoundError { field: entries[n].0.clone() });
        } else {
            proof {
                lemma_key_index(es.take(n as int), es[n as int].0);
                assert forall|j: int| 0 <= j < n implies es.take(n as int)[j].0 != es[n as int].0 by {
                    assert(es.take(n as int)[j] == es[j]);
                }
            }
            let _ = schema_map_insert(&mut prefix, entries[n].0.clone(), entries[n].1.deep_copy());
            assert(es.take(n as int).push(es[n as int]) =~= es.take(n + 1));
            n = n + 1;
        }
    }
    proof {
        if missing is None {
            assert(n == entries.len());
            assert(es.take(n as int) =~= es);
            assert(first_untyped(es) == -1);
        }
        assert(n as int == typed_count(es));
        let p = es.take(n as int);
        assert forall|i: int| 0 <= i < p.len() implies known_type(#[trigger] schema_type(p[i].1)->0) by {
            assert(p[i] == es[i]);
        }
        assert(layout_types_known(p));
    }
    let plan = match struct_layout(&prefix) {
        Ok(p) => p,
        Err(_) => {
            proof {
                assert(false);
            }
            CStructPlan { fields: Vec::new(), size: 0 }
        },
    };
    (plan, missing)
}

/// Whether every field before the first one without a type has a type that the
/// layout knows.
pub fn typed_prefix_checked(m: &SchemaMap) -> (r: bool)
    ensures
        r == typed_prefix_known(schema_entries(*m)),
{
    let entries = schema_map_entries(m);
    let ghost es = entries_view(entries@);
    let mut i: usize = 0;
    assert(es.take(0) =~= Seq::<(Seq<char>, JsonView)>::empty());
    proof {
        lemma_first_untyped_bound(es);
    }
    while i < entries.len()
        invariant
            i <= entries.len(),
            es == entries_view(entries@),
            es == schema_entries(*m),
            first_untyped(es.take(i as int)) == -1,
            forall|k: int| 0 <= k < i ==> known_type(#[trigger] schema_type(es[k].1)->0),
        decreases entries.len() - i,
    {
        assert(es.take(i + 1).drop_last() =~= es.take(i as int));
        assert(es.take(i + 1).last() == es[i as int]);
        assert(es[i as int].1 == entries@[i as int].1@);
        match schema_type_of(&entries[i].1) {
            Some(t) => {
                if !is_known_type(t.as_str()) {
                    proof {
                        if first_untyped(es) >= 0 {
                            lemma_first_untyped_prefix_none(es, i + 1);
                        }
                        assert(i < typed_count(es));
                    }
                    return false;
                }
            },
            None => {
                proof {
                    assert(first_untyped(es.take(i + 1)) == i);
                    lemma_first_untyped_prefix(es, i + 1);
                }
                return true;
            },
        }
        i = i + 1;
    }
    assert(es.take(i as int) =~= es);
    true
}

/// A prefix without untyped entries ends at or before the first untyped entry.
pub proof fn lemma_first_untyped_prefix_none(es: Seq<(Seq<char>, JsonView)>, n: int)
    requires
        0 <= n <= es.len(),
        first_untyped(es.take(n)) == -1,
    ensures
        first_untyped(es) == -1 || first_untyped(es) >= n,
    decreases es.len(),
{
    if n < es.len() {
        assert(es.drop_last().take(n) =~= es.take(n));
        lemma_first_untyped_prefix_none(es.drop_last(), n);
    } else {
        assert(es.take(n) =~= es);
    }
}

/// An untyped entry found in a prefix is the first untyped entry of the whole.
pub proof fn lemma_first_untyped_prefix(es: Seq<(Seq<char>, JsonView)>, n: int)
    requires
        0 <= n <= es.len(),
        first_untyped(es.take(n)) >= 0,
    ensures
        first_untyped(es) == first_untyped(es.take(n)),
        0 <= first_untyped(es) < n,
    decreases es.len(),
{
    if n < es.len() {
        assert(es.drop_last().take(n) =~= es.take(n));
        lemma_first_untyped_prefix(es.drop_last(), n);
    } else {
        assert(es.take(n) =~= es);
        lemma_first_untyped_bound(es);
    }
}

/// `first_untyped` is -1 or an index of the sequence.
pub proof fn lemma_first_untyped_bound(es: Seq<(Seq<char>, JsonView)>)
    ensures
        -1 <= first_untyped(es) < es.len(),
    decreases es.len(),
{
    if es.len() > 0 {
        lemma_first_untyped_bound(es.drop_last());
    }
}


/// The value stored under `k` in a configuration: that of its first entry with key `k`.
pub open spec fn config_lookup(c: Seq<(String, Json)>, k: Seq<char>) -> Option<JsonView> {
    let i = key_index(entries_view(c), k);
    if i >= 0 {
        Some(entries_view(c)[i].1)
    } else {
        None
    }
}

/// The value stored under `k` in a configuration.
pub fn config_get<'a>(c: &'a Vec<(String, Json)>, k: &str) -> (r: Option<&'a Json>)
    ensures
        match r {
            Some(v) => config_lookup(c@, k@) == Some(v@),
            None => config_lookup(c@, k@) is None,
        },
{
    match find_key(c, k) {
        Some(i) => {
            proof {
                lemma_key_index(entries_view(c@), k@);
            }
            Some(&c[i].1)
        },
        None => None,
    }
}

/// The value that a field slot holds, by its view.
pub open spec fn slot_value(f: FieldSlot) -> Option<JsonView> {
    match f.value {
        Some(v) => Some(v@),
        None => None,
    }
}

/// Each field of `plan` holds the value that the configuration `c` stores
/// under the field's name, or nothing when `c` stores none.
pub open spec fn slots_filled_from(plan: CStructPlan, c: Seq<(String, Json)>) -> bool {
    forall|i: int| 0 <= i < plan.fields.len() ==> slot_value(#[trigger] plan.fields@[i]) == config_lookup(
        c,
        plan.fields@[i].name@,
    )
}

/// The layout of the C struct for a schema map, each field holding the
/// configuration value of the same name, if any.
pub fn value_to_c_struct(schemas: &SchemaMap, value: &Vec<(String, Json)>) -> (r: Result<CStructPlan, TypeNotFoundError>)
    requires
        layout_types_known(schema_entries(*schemas)),
        schema_entries(*schemas).len() * 8 <= usize::MAX,
    ensures
        (r is Ok) == (first_untyped(schema_entries(*schemas)) == -1),
        r matches Ok(plan) ==> plan_matches(plan, schema_entries(*schemas)) && plan_contiguous(plan)
            && slots_filled_from(plan, value@),
        r matches Err(e) ==> e.field@ == schema_entries(*schemas)[first_untyped(schema_entries(*schemas))].0,
{
    let layout = struct_layout(schemas)?;
    let mut fields: Vec<FieldSlot> = Vec::new();
    let mut i: usize = 0;
    while i < layout.fields.len()
        invariant
            i <= layout.fields.len(),
            fields.len() == i,
            forall|j: int| 0 <= j < i ==> {
                let f = #[trigger] fields@[j];
                let g = layout.fields@[j];
                &&& f.name == g.name
                &&& f.type_str == g.type_str
                &&& f.offset == g.offset
                &&& f.size == g.size
                &&& slot_value(f) == config_lookup(value@, f.name@)
            },
        decreases layout.fields.len() - i,
    {
        let g = &layout.fields[i];
        let v = match config_get(value, g.name.as_str()) {
            Some(x) => Some(x.deep_copy()),
            None => None,
        };
        fields.push(FieldSlot {
            name: g.name.clone(),
            type_str: g.type_str.clone(),
            offset: g.offset,
            size: g.size,
            value: v,
        });
        i = i + 1;
    }
    Ok(CStructPlan { fields, size: layout.size })
}

/// The bytes of each field fit its size.
pub open spec fn encoding_fits(plan: CStructPlan, encoded: Seq<Option<Vec<u8>>>) -> bool {
    &&& encoded.len() == plan.fields.len()
    &&& forall|i: int| 0 <= i < encoded.len() ==> (#[trigger] encoded[i] matches Some(b) ==> b.len() == plan.fields@[i].size)
}

/// The byte at `j` of field `i`: its encoding, or zero for a field without a value.
pub open spec fn field_byte(encoded: Seq<Option<Vec<u8>>>, i: int, j: int) -> u8 {
    match encoded[i] {
        Some(b) => b@[j],
        None => 0,
    }
}

/// The buffer of a C struct: each field's bytes at its offset, and zeros for a
/// field that has no value.
pub fn assemble_c_struct(plan: &CStructPlan, encoded: &Vec<Option<Vec<u8>>>) -> (buf: Vec<u8>)
    requires
        plan_contiguous(*plan),
        encoding_fits(*plan, encoded@),
    ensures
        buf.len() == plan.size,
        forall|i: int, j: int|
            0 <= i < plan.fields.len() && 0 <= j < plan.fields@[i].size ==> buf@[plan.fields@[i].offset + j]
                == field_byte(encoded@, i, j),
{
    let mut buf: Vec<u8> = Vec::new();
    let mut i: usize = 0;
    while i < plan.fields.len()
        invariant
            plan_contiguous(*plan),
            encoding_fits(*plan, encoded@),
            i <= plan.fields.len(),
            i == 0 ==> buf.len() == 0,
            i > 0 ==> buf.len() == plan.fields@[i - 1].offset + plan.fields@[i - 1].size,
            forall|a: int, j: int|
                0 <= a < i && 0 <= j < plan.fields@[a].size ==> buf@[plan.fields@[a].offset + j]
                    == field_byte(encoded@, a, j),
        decreases plan.fields.len() - i,
    {
        let size = plan.fields[i].size;
        proof {
            if i > 0 {
                assert(plan.fields@[(i - 1) + 1].offset == plan.fields@[i - 1].offset + plan.fields@[i - 1].size);
            }
            assert(plan.fields@[i as int].offset + plan.fields@[i as int].size <= plan.size);
        }
        let ghost start = buf.len();
        assert(start == plan.fields@[i as int].offset);
        assert forall|a: int| 0 <= a < i implies #[trigger] plan.fields@[a].offset + plan.fields@[a].size <= start by {
            lemma_field_before(*plan, a, i as int);
        }
        let mut j: usize = 0;
        while j < size
            invariant
                plan_contiguous(*plan),
                encoding_fits(*plan, encoded@),
                i < plan.fields.len(),
                size == plan.fields@[i as int].size,
                start == plan.fields@[i as int].offset,
                j <= size,
                buf.len() == start + j,
                forall|a: int| 0 <= a < i ==> #[trigger] plan.fields@[a].offset + plan.fields@[a].size <= start,
                forall|a: int, q: int|
                    0 <= a < i && 0 <= q < plan.fields@[a].size ==> buf@[plan.fields@[a].offset + q]
                        == field_byte(encoded@, a, q),
                forall|q: int| 0 <= q < j ==> buf@[start + q] == field_byte(encoded@, i as int, q),
            decreases size - j,
        {
            let byte: u8 = match &encoded[i] {
                Some(b) => b[j],
                None => 0,
            };
            buf.push(byte);
            j = j + 1;
        }
        i = i + 1;
    }
    proof {
        if plan.fields.len() > 0 {
            assert(buf.len() == plan.size);
        }
    }
    buf
}

/// A field that comes before field `i` ends where field `i` starts or earlier.
pub proof fn lemma_field_before(plan: CStructPlan, a: int, i: int)
    requires
        plan_contiguous(plan),
        0 <= a < i < plan.fields.len(),
    ensures
        plan.fields@[a].offset + plan.fields@[a].size <= plan.fields@[i].offset,
    decreases i - a,
{
    assert(plan.fields@[(i - 1) + 1].offset == plan.fields@[i - 1].offset + plan.fields@[i - 1].size);
    if a < i - 1 {
        lemma_field_before(plan, a, i - 1);
    }
}

/// The bytes of each field of a C struct buffer.
pub fn split_c_struct(plan: &CStructPlan, buf: &Vec<u8>) -> (r: Vec<Vec<u8>>)
    requires
        plan_contiguous(*plan),
        buf.len() >= plan.size,
    ensures
        r.len() == plan.fields.len(),
        forall|i: int| 0 <= i < r.len() ==> (#[trigger] r@[i])@ == buf@.subrange(
            plan.fields@[i].offset as int,
            plan.fields@[i].offset + plan.fields@[i].size,
        ),
{
    let mut r: Vec<Vec<u8>> = Vec::new();
    let mut i: usize = 0;
    while i < plan.fields.len()
        invariant
            plan_contiguous(*plan),
            buf.len() >= plan.size,
            i <= plan.fields.len(),
            r.len() == i,
            forall|a: int| 0 <= a < i ==> (#[trigger] r@[a])@ == buf@.subrange(
                plan.fields@[a].offset as int,
                plan.fields@[a].offset + plan.fields@[a].size,
            ),
        decreases plan.fields.len() - i,
    {
        let off = plan.fields[i].offset;
        let size = plan.fields[i].size;
        assert(plan.fields@[i as int].offset + plan.fields@[i as int].size <= plan.size);
        let mut field: Vec<u8> = Vec::new();
        let mut j: usize = 0;
        while j < size
            invariant
                off + size <= buf.len(),
                j <= size,
                field@ == buf@.subrange(off as int, off + j),
            decreases size - j,
        {
            field.push(buf[off + j]);
            assert(buf@.subrange(off as int, off + j + 1) =~= buf@.subrange(off as int, off + j).push(buf@[off + j]));
            j = j + 1;
        }
        r.push(field);
        i = i + 1;
    }
    r
}

/// The configuration read back from a C struct: each field's name with its decoded value.
pub fn c_struct_to_value(plan: &CStructPlan, decoded: Vec<Json>) -> (r: Vec<(String, Json)>)
    requires
        decoded.len() == plan.fields.len(),
    ensures
        r.len() == plan.fields.len(),
        forall|i: int| 0 <= i < r.len() ==> (#[trigger] r@[i]).0@ == plan.fields@[i].name@ && r@[i].1@ == decoded@[i]@,
{
    let mut r: Vec<(String, Json)> = Vec::new();
    let mut i: usize = 0;
    while i < decoded.len()
        invariant
            decoded.len() == plan.fields.len(),
            i <= decoded.len(),
            r.len() == i,
            forall|a: int| 0 <= a < i ==> (#[trigger] r@[a]).0@ == plan.fields@[a].name@ && r@[a].1@ == decoded@[a]@,
        decreases decoded.len() - i,
    {
        r.push((plan.fields[i].name.clone(), decoded[i].deep_copy()));
        i = i + 1;
    }
    r
}


/// The schema of `k` in the entries `es`, if any.
pub open spec fn schema_lookup(es: Seq<(Seq<char>, JsonView)>, k: Seq<char>) -> Option<JsonView> {
    let i = key_index(es, k);
    if i >= 0 {
        Some(es[i].1)
    } else {
        None
    }
}

/// The schema of a required key: the global schema merged with the driver's
/// own schema where both exist, else whichever exists.
pub open spec fn resolved_schema(es: Seq<(Seq<char>, JsonView)>, k: Seq<char>) -> Option<JsonView> {
    match (schema_lookup(es, k), global_schema_view(k)) {
        (Some(s), Some(g)) => Some(merged(g, s)),
        (Some(s), None) => Some(s),
        (None, Some(g)) => Some(g),
        (None, None) => None,
    }
}

/// The index of the first required key that has no schema, or -1.
pub open spec fn first_unresolved(es: Seq<(Seq<char>, JsonView)>, reqs: Seq<Seq<char>>) -> int
    decreases reqs.len(),
{
    if reqs.len() == 0 {
        -1
    } else {
        let r = first_unresolved(es, reqs.drop_last());
        if r >= 0 {
            r
        } else if resolved_schema(es, reqs.last()) is None {
            reqs.len() - 1
        } else {
            -1
        }
    }
}

/// The entries of the merged schema map: each required key in turn inserted
/// with its resolved schema.
pub open spec fn merged_schema_entries(
    es: Seq<(Seq<char>, JsonView)>,
    reqs: Seq<Seq<char>>,
) -> Seq<(Seq<char>, JsonView)>
    decreases reqs.len(),
{
    if reqs.len() == 0 {
        Seq::empty()
    } else {
        entries_after_insert(
            merged_schema_entries(es, reqs.drop_last()),
            reqs.last(),
            resolved_schema(es, reqs.last())->0,
        )
    }
}

/// The views of a list of strings.
pub open spec fn strings_view(v: Seq<String>) -> Seq<Seq<char>> {
    Seq::new(v.len(), |i: int| v[i]@)
}

/// An unresolved key found in a prefix is the first unresolved key of the whole.
pub proof fn lemma_first_unresolved_prefix(es: Seq<(Seq<char>, JsonView)>, reqs: Seq<Seq<char>>, n: int)
    requires
        0 <= n <= reqs.len(),
        first_unresolved(es, reqs.take(n)) >= 0,
    ensures
        first_unresolved(es, reqs) == first_unresolved(es, reqs.take(n)),
        0 <= first_unresolved(es, reqs) < n,
    decreases reqs.len(),
{
    if n < reqs.len() {
        assert(reqs.drop_last().take(n) =~= reqs.take(n));
        lemma_first_unresolved_prefix(es, reqs.drop_last(), n);
    } else {
        assert(reqs.take(n) =~= reqs);
        lemma_first_unresolved_bound(es, reqs);
    }
}

/// `first_unresolved` is -1 or an index of the required keys.
pub proof fn lemma_first_unresolved_bound(es: Seq<(Seq<char>, JsonView)>, reqs: Seq<Seq<char>>)
    ensures
        -1 <= first_unresolved(es, reqs) < reqs.len(),
    decreases reqs.len(),
{
    if reqs.len() > 0 {
        lemma_first_unresolved_bound(es, reqs.drop_last());
    }
}

/// The schema of `key`: the global schema merged with the driver's own schema,
/// or whichever of the two exists.
pub fn resolve_schema(key: &str, schemas: &SchemaMap) -> (r: Option<Json>)
    ensures
        match r {
            Some(s) => resolved_schema(schema_entries(*schemas), key@) == Some(s@),
            None => resolved_schema(schema_entries(*schemas), key@) is None,
        },
{
    let own = schema_map_get(schemas, key);
    let global = global_schema(key);
    match (own, global) {
        (Some(schema), Some(g)) => {
            let mut new_val = g;
            merge_value(&mut new_val, schema);
            Some(new_val)
        },
        (Some(schema), None) => Some(schema.deep_copy()),
        (None, Some(g)) => Some(g),
        (None, None) => None,
    }
}

/// The schemas of the required keys, in the order they are required: each is
/// the global schema merged with the driver's own, or whichever exists; the
/// first required key that has neither is reported.
pub fn merge_schema_with_global(
    requires_keys: &Vec<String>,
    schemas: &SchemaMap,
) -> (r: Result<SchemaMap, UnknownConfigError>)
    ensures
        (r is Ok) == (first_unresolved(schema_entries(*schemas), strings_view(requires_keys@)) == -1),
        r matches Ok(m) ==> schema_entries(m) == merged_schema_entries(
            schema_entries(*schemas),
            strings_view(requires_keys@),
        ),
        r matches Err(e) ==> e.name@ == requires_keys@[first_unresolved(
            schema_entries(*schemas),
            strings_view(requires_keys@),
        )]@,
{
    let ghost es = schema_entries(*schemas);
    let ghost reqs = strings_view(requires_keys@);
    let mut m = schema_map_new();
    let mut i: usize = 0;
    assert(reqs.take(0) =~= Seq::<Seq<char>>::empty());
    while i < requires_keys.len()
        invariant
            i <= requires_keys.len(),
            es == schema_entries(*schemas),
            reqs == strings_view(requires_keys@),
            first_unresolved(es, reqs.take(i as int)) == -1,
            schema_entries(m) == merged_schema_entries(es, reqs.take(i as int)),
        decreases requires_keys.len() - i,
    {
        assert(reqs.take(i + 1).drop_last() =~= reqs.take(i as int));
        assert(reqs.take(i + 1).last() == requires_keys@[i as int]@);
        match resolve_schema(requires_keys[i].as_str(), schemas) {
            Some(s) => {
                let _ = schema_map_insert(&mut m, requires_keys[i].clone(), s);
            },
            None => {
                proof {
                    assert(first_unresolved(es, reqs.take(i + 1)) == i);
                    lemma_first_unresolved_prefix(es, reqs, i + 1);
                }
                return Err(UnknownConfigError { name: requires_keys[i].clone() });
            },
        }
        i = i + 1;
    }
    assert(reqs.take(i as int) =~= reqs);
    Ok(m)
}


/// Schema entries with distinct keys and well-formed values.
pub open spec fn schema_entries_wf(es: Seq<(Seq<char>, JsonView)>) -> bool {
    keys_unique(es) && forall|i: int| 0 <= i < es.len() ==> json_wf(#[trigger] es[i].1)
}

/// Inserting a well-formed value keeps the entries well-formed.
pub proof fn lemma_insert_wf(es: Seq<(Seq<char>, JsonView)>, k: Seq<char>, v: JsonView)
    requires
        schema_entries_wf(es),
        json_wf(v),
    ensures
        schema_entries_wf(entries_after_insert(es, k, v)),
{
    let i = key_index(es, k);
    lemma_key_index(es, k);
    let base = if i >= 0 { es.remove(i) } else { es };
    assert forall|x: int| 0 <= x < base.len() implies #[trigger] base[x] == es[if i >= 0 && x >= i { x + 1 } else { x }] by {}
    assert forall|x: int| 0 <= x < base.len() implies base[x].0 != k by {
        let y = if i >= 0 && x >= i { x + 1 } else { x };
        assert(base[x] == es[y]);
        if i >= 0 {
            assert(y != i);
        }
    }
    let r = base.push((k, v));
    assert(r == entries_after_insert(es, k, v));
    assert forall|x: int, y: int| 0 <= x < r.len() && 0 <= y < r.len() && x != y implies r[x].0 != r[y].0 by {
        if x < base.len() && y < base.len() {
            let x2 = if i >= 0 && x >= i { x + 1 } else { x };
            let y2 = if i >= 0 && y >= i { y + 1 } else { y };
            assert(base[x] == es[x2]);
            assert(base[y] == es[y2]);
        } else if x < base.len() {
            assert(r[x] == base[x]);
        } else if y < base.len() {
            assert(r[y] == base[y]);
        }
    }
    assert forall|x: int| 0 <= x < r.len() implies json_wf(#[trigger] r[x].1) by {
        if x < base.len() {
            let x2 = if i >= 0 && x >= i { x + 1 } else { x };
            assert(r[x] == es[x2]);
        }
    }
}

/// A resolved schema is well-formed when the driver's schemas are.
pub proof fn lemma_resolved_schema_wf(es: Seq<(Seq<char>, JsonView)>, k: Seq<char>)
    requires
        schema_entries_wf(es),
    ensures
        resolved_schema(es, k) matches Some(s) ==> json_wf(s),
{
    lemma_global_schema_wf(k);
    lemma_key_index(es, k);
    if let (Some(s), Some(g)) = (schema_lookup(es, k), global_schema_view(k)) {
        lemma_merged_wf(g, s);
    }
}

/// The merged schema entries are well-formed when the driver's schemas are
/// and every required key is resolved.
pub proof fn lemma_merged_schema_entries_wf(es: Seq<(Seq<char>, JsonView)>, reqs: Seq<Seq<char>>)
    requires
        schema_entries_wf(es),
        first_unresolved(es, reqs) == -1,
    ensures
        schema_entries_wf(merged_schema_entries(es, reqs)),
    decreases reqs.len(),
{
    if reqs.len() > 0 {
        lemma_merged_schema_entries_wf(es, reqs.drop_last());
        lemma_resolved_schema_wf(es, reqs.last());
        lemma_insert_wf(merged_schema_entries(es, reqs.drop_last()), reqs.last(), resolved_schema(es, reqs.last())->0);
    }
}


/// Whether a schema map has well-formed values (its keys are always distinct).
pub fn schema_map_well_formed(m: &SchemaMap) -> (r: bool)
    ensures
        r == schema_entries_wf(schema_entries(*m)),
{
    let entries = schema_map_entries(m);
    let ghost es = entries_view(entries@);
    let mut i: usize = 0;
    while i < entries.len()
        invariant
            i <= entries.len(),
            es == entries_view(entries@),
            es == schema_entries(*m),
            keys_unique(es),
            forall|k: int| 0 <= k < i ==> json_wf(#[trigger] es[k].1),
        decreases entries.len() - i,
    {
        assert(es[i as int].1 == entries@[i as int].1@);
        if !entries[i].1.well_formed() {
            return false;
        }
        i = i + 1;
    }
    true
}

/// Whether a type name is one that the C layout knows.
pub fn is_known_type(t: &str) -> (r: bool)
    ensures
        r == known_type(t@),
{
    str_eq(t, "string") || str_eq(t, "integer") || str_eq(t, "number") || str_eq(t, "array") || str_eq(t, "bool")
}

/// Whether the C layout of a schema map can be computed without meeting an
/// unknown type: some field has no type, or every type is known.
pub fn layout_types_checked(m: &SchemaMap) -> (r: bool)
    ensures
        r == layout_types_known(schema_entries(*m)),
{
    let entries = schema_map_entries(m);
    let ghost es = entries_view(entries@);
    let mut all_known = true;
    let mut i: usize = 0;
    assert(es.take(0) =~= Seq::<(Seq<char>, JsonView)>::empty());
    while i < entries.len()
        invariant
            i <= entries.len(),
            es == entries_view(entries@),
            es == schema_entries(*m),
            first_untyped(es.take(i as int)) == -1,
            all_known == forall|k: int| 0 <= k < i ==> known_type(#[trigger] schema_type(es[k].1)->0),
        decreases entries.len() - i,
    {
        assert(es.take(i + 1).drop_last() =~= es.take(i as int));
        assert(es.take(i + 1).last() == es[i as int]);
        assert(es[i as int].1 == entries@[i as int].1@);
        match schema_type_of(&entries[i].1) {
            Some(t) => {
                if !is_known_type(t.as_str()) {
                    all_known = false;
                }
            },
            None => {
                proof {
                    assert(first_untyped(es.take(i + 1)) == i);
                    lemma_first_untyped_prefix(es, i + 1);
                }
                return true;
            },
        }
        i = i + 1;
    }
    assert(es.take(i as int) =~= es);
    all_known
}

} // verus!
