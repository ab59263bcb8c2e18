use vstd::prelude::*;

use crate::category::{signatures_view, Category, CategoryView, Signature, SignatureView};
use crate::driver::categories_view;
use crate::json::{entries_view, key_index, lemma_key_index, merge_value, merged, JsonView};
use crate::schema_map::{
    entries_after_insert, keys_unique, schema_entries, schema_map_entries, schema_map_get, schema_map_insert,
    schema_map_new, SchemaMap,
};
use crate::text::str_eq;
use crate::util::{schema_lookup, schema_type, schema_type_of};

verus! {

/// A schema type that has a C type.
pub open spec fn has_ctype(t: Seq<char>) -> bool {
    t == "number"@ || t == "integer"@ || t == "string"@
}

/// The C type of a schema type.
pub open spec fn ctype_text(t: Seq<char>) -> Seq<char> {
    if t == "number"@ {
        "double"@
    } else if t == "integer"@ {
        "long"@
    } else {
        "const char*"@
    }
}

/// The C type that stores a value of the schema type `type_str`.
pub fn ctype(type_str: &str) -> (r: String)
    requires
        has_ctype(type_str@),
    ensures
        r@ == ctype_text(type_str@),
{
    if str_eq(type_str, "number") {
        String::from_str("double")
    } else if str_eq(type_str, "integer") {
        String::from_str("long")
    } else {
        String::from_str("const char*")
    }
}

/// `s` with every `.` written as `_`.
pub open spec fn c_identifier(s: Seq<char>) -> Seq<char> {
    Seq::new(s.len(), |i: int| if s[i] == '.' { '_' } else { s[i] })
}

/// Every field of the schema entries has a type with a C type.
pub open spec fn fields_have_ctypes(es: Seq<(Seq<char>, JsonView)>) -> bool {
    forall|i: int| 0 <= i < es.len() ==> (#[trigger] schema_type(es[i].1) matches Some(t) && has_ctype(t))
}

/// The C field declarations of the schema entries, one line each.
pub open spec fn field_strs_text(es: Seq<(Seq<char>, JsonView)>) -> Seq<char>
    decreases es.len(),
{
    if es.len() == 0 {
        Seq::empty()
    } else {
        field_strs_text(es.drop_last()) + "  "@ + ctype_text(schema_type(es.last().1)->0) + " "@ + c_identifier(
            es.last().0,
        ) + ";\n"@
    }
}

fn c_identifier_of(s: &str) -> (r: String)
    ensures
        r@ == c_identifier(s@),
{
    let cs = crate::text::chars_of(s);
    let mut r = String::new();
    let mut i: usize = 0;
    while i < cs.len()
        invariant
            i <= cs.len(),
            cs@ == s@,
            r@ == c_identifier(s@).take(i as int),
        decreases cs.len() - i,
    {
        let c = if cs[i] == '.' { '_' } else { cs[i] };
        r.push(c);
        assert(c_identifier(s@).take(i + 1) =~= c_identifier(s@).take(i as int).push(c));
        i = i + 1;
    }
    assert(c_identifier(s@).take(i as int) =~= c_identifier(s@));
    r
}

/// The C field declarations of a schema map: `  <ctype> <name>;` for each
/// field, with `.` in names written as `_`.
pub fn field_strs(fields: &SchemaMap) -> (r: String)
    requires
        fields_have_ctypes(schema_entries(*fields)),
    ensures
        r@ == field_strs_text(schema_entries(*fields)),
{
    let entries = schema_map_entries(fields);
    let ghost es = entries_view(entries@);
    let mut acc = String::new();
    let mut i: usize = 0;
    assert(es.take(0) =~= Seq::<(Seq<char>, JsonView)>::empty());
    while i < entries.len()
        invariant
            i <= entries.len(),
            es == entries_view(entries@),
            es == schema_entries(*fields),
            fields_have_ctypes(es),
            acc@ == field_strs_text(es.take(i as int)),
        decreases entries.len() - i,
    {
        assert(es.take(i + 1).drop_last() =~= es.take(i as int));
        assert(es.take(i + 1).last() == es[i as int]);
        assert(es[i as int].1 == entries@[i as int].1@);
        assert(schema_type(es[i as int].1) matches Some(t) && has_ctype(t));
        let t = match schema_type_of(&entries[i].1) {
            Some(t) => t,
            None => String::new(),
        };
        let ct = ctype(t.as_str());
        let id = c_identifier_of(entries[i].0.as_str());
        acc.append("  ");
        acc.append(ct.as_str());
        acc.append(" ");
        acc.append(id.as_str());
        acc.append(";\n");
        assert(acc@ =~= field_strs_text(es.take(i + 1)));
        i = i + 1;
    }
    assert(es.take(i as int) =~= es);
    acc
}

/// The schema map that merges the entries of `map1` into those of `map2`: for
/// each key of `map1`, in order, the value of `map2` with `map1`'s merged into
/// it, or `map1`'s value where `map2` has none.
pub open spec fn merge_map_entries(
    es1: Seq<(Seq<char>, JsonView)>,
    es2: Seq<(Seq<char>, JsonView)>,
) -> Seq<(Seq<char>, JsonView)> {
    Seq::new(
        es1.len(),
        |i: int|
            (
                es1[i].0,
                match schema_lookup(es2, es1[i].0) {
                    Some(v) => merged(v, es1[i].1),
                    None => es1[i].1,
                },
            ),
    )
}

/// Merges two schema maps: each schema of `map1` merged into the schema of
/// the same key in `map2`, or taken as it is.
pub fn merge_map(map1: &SchemaMap, map2: &SchemaMap) -> (r: SchemaMap)
    ensures
        schema_entries(r) == merge_map_entries(schema_entries(*map1), schema_entries(*map2)),
{
    let entries = schema_map_entries(map1);
    let ghost es1 = entries_view(entries@);
    let ghost es2 = schema_entries(*map2);
    let ghost want = merge_map_entries(es1, es2);
    let mut r = schema_map_new();
    let mut i: usize = 0;
    assert(want.take(0) =~= Seq::<(Seq<char>, JsonView)>::empty());
    while i < entries.len()
        invariant
            i <= entries.len(),
            es1 == entries_view(entries@),
            es1 == schema_entries(*map1),
            es2 == schema_entries(*map2),
            want == merge_map_entries(es1, es2),
            keys_unique(es1),
            schema_entries(r) == want.take(i as int),
        decreases entries.len() - i,
    {
        let schema = &entries[i].1;
        let v = match schema_map_get(map2, entries[i].0.as_str()) {
            Some(v) => {
                let mut new_val = v.deep_copy();
                merge_value(&mut new_val, schema);
                new_val
            },
            None => schema.deep_copy(),
        };
        proof {
            let p = want.take(i as int);
            lemma_key_index(p, es1[i as int].0);
            if key_index(p, es1[i as int].0) >= 0 {
                let j = key_index(p, es1[i as int].0);
                assert(p[j].0 == es1[j].0);
            }
            lemma_key_index(es2, es1[i as int].0);
            assert(want.take(i + 1) =~= p.push((entries@[i as int].0@, v@)));
        }
        let _ = schema_map_insert(&mut r, entries[i].0.clone(), v);
        i = i + 1;
    }
    assert(want.take(i as int) =~= want);
    r
}


/// The entries of an optional schema map; none when it is absent.
pub open spec fn or_empty(e: Option<Seq<(Seq<char>, JsonView)>>) -> Seq<(Seq<char>, JsonView)> {
    match e {
        Some(x) => x,
        None => Seq::empty(),
    }
}

/// The signature that two categories' signatures of one command combine into:
/// the earlier one's schema maps merged into the later one's.
pub open spec fn combine_signature(existing: SignatureView, sign: SignatureView) -> SignatureView {
    SignatureView {
        args: Some(
            match existing.args {
                Some(v) => merge_map_entries(v, or_empty(sign.args)),
                None => or_empty(sign.args),
            },
        ),
        returns: Some(
            match existing.returns {
                Some(v) => merge_map_entries(v, or_empty(sign.returns)),
                None => or_empty(sign.returns),
            },
        ),
    }
}

/// The named signatures after `(name, sign)` is merged in: combined with an
/// existing signature of that name in its place, else appended.
pub open spec fn merge_signature_into(
    acc: Seq<(Seq<char>, SignatureView)>,
    name: Seq<char>,
    sign: SignatureView,
) -> Seq<(Seq<char>, SignatureView)> {
    let i = key_index(acc, name);
    if i >= 0 {
        acc.update(i, (name, combine_signature(acc[i].1, sign)))
    } else {
        acc.push((name, sign))
    }
}

/// The signatures of the categories, category by category.
pub open spec fn all_signatures(cats: Seq<CategoryView>) -> Seq<(Seq<char>, SignatureView)>
    decreases cats.len(),
{
    if cats.len() == 0 {
        Seq::empty()
    } else {
        all_signatures(cats.drop_last()) + cats.last().signatures
    }
}

/// The named signatures merged in order.
pub open spec fn merged_signatures(sigs: Seq<(Seq<char>, SignatureView)>) -> Seq<(Seq<char>, SignatureView)>
    decreases sigs.len(),
{
    if sigs.len() == 0 {
        Seq::empty()
    } else {
        merge_signature_into(merged_signatures(sigs.drop_last()), sigs.last().0, sigs.last().1)
    }
}

/// A copy of an optional schema map, or an empty map.
fn map_or_empty(m: &Option<SchemaMap>) -> (r: SchemaMap)
    ensures
        schema_entries(r) == or_empty(crate::category::optional_entries(*m)),
{
    match m {
        Some(x) => crate::schema_map::copy_schema_map(x),
        None => schema_map_new(),
    }
}

/// Combines the signature of a command met again with the one met before.
fn combine(existing: &Signature, sign: &Signature) -> (r: Signature)
    ensures
        r@ == combine_signature(existing@, sign@),
{
    let new_args = map_or_empty(&sign.args);
    let args = match &existing.args {
        Some(v) => merge_map(v, &new_args),
        None => new_args,
    };
    let new_returns = map_or_empty(&sign.returns);
    let rets = match &existing.returns {
        Some(v) => merge_map(v, &new_returns),
        None => new_returns,
    };
    Signature { args: Some(args), returns: Some(rets) }
}

/// The index of the first signature named `name`.
fn find_named(sigs: &Vec<(String, Signature)>, name: &str) -> (r: Option<usize>)
    ensures
        match r {
            Some(i) => i as int == key_index(signatures_view(sigs@), name@),
            None => key_index(signatures_view(sigs@), name@) == -1,
        },
{
    let ghost es = signatures_view(sigs@);
    let mut i: usize = 0;
    while i < sigs.len()
        invariant
            i <= sigs.len(),
            es == signatures_view(sigs@),
            key_index(es.take(i as int), name@) == -1,
        decreases sigs.len() - i,
    {
        assert(es.take(i + 1).drop_last() =~= es.take(i as int));
        if str_eq(sigs[i].0.as_str(), name) {
            proof {
                crate::json::lemma_key_index_prefix(es, name@, i + 1);
            }
            return Some(i);
        }
        i = i + 1;
    }
    assert(es.take(i as int) =~= es);
    None
}

/// The signatures of all commands of the categories, one per command name:
/// where several categories declare a command, their signatures are combined.
pub fn merge_signatures(categories: &Vec<Category>) -> (r: Vec<(String, Signature)>)
    ensures
        signatures_view(r@) == merged_signatures(all_signatures(categories_view(categories@))),
{
    let ghost cats = categories_view(categories@);
    let mut merged_signs: Vec<(String, Signature)> = Vec::new();
    let mut c: usize = 0;
    assert(cats.take(0) =~= Seq::<CategoryView>::empty());
    assert(signatures_view(merged_signs@) =~= merged_signatures(all_signatures(cats.take(0))));
    while c < categories.len()
        invariant
            c <= categories.len(),
            cats == categories_view(categories@),
            signatures_view(merged_signs@) == merged_signatures(all_signatures(cats.take(c as int))),
        decreases categories.len() - c,
    {
        let sigs = categories[c].signatures();
        let ghost base = all_signatures(cats.take(c as int));
        let ghost these = signatures_view(sigs@);
        assert(these == cats[c as int].signatures);
        let mut j: usize = 0;
        assert(base + these.take(0) =~= base);
        while j < sigs.len()
            invariant
                j <= sigs.len(),
                these == signatures_view(sigs@),
                signatures_view(merged_signs@) == merged_signatures(base + these.take(j as int)),
            decreases sigs.len() - j,
        {
            let name = &sigs[j].0;
            let sign = &sigs[j].1;
            let ghost before = signatures_view(merged_signs@);
            assert((base + these.take(j + 1)).drop_last() =~= base + these.take(j as int));
            assert((base + these.take(j + 1)).last() == (name@, sign@));
            match find_named(&merged_signs, name.as_str()) {
                Some(k) => {
                    proof {
                        lemma_key_index(before, name@);
                    }
                    let combined = combine(&merged_signs[k].1, sign);
                    merged_signs.set(k, (name.clone(), combined));
                    assert(signatures_view(merged_signs@) =~= merge_signature_into(before, name@, sign@));
                },
                None => {
                    merged_signs.push((name.clone(), sign.copy()));
                    assert(signatures_view(merged_signs@) =~= merge_signature_into(before, name@, sign@));
                },
            }
            j = j + 1;
        }
        assert(these.take(j as int) =~= these);
        assert(cats.take(c + 1).drop_last() =~= cats.take(c as int));
        assert(all_signatures(cats.take(c + 1)) =~= base + these);
        c = c + 1;
    }
    assert(cats.take(c as int) =~= cats);
    merged_signs
}


/// The C typedef of the configuration struct.
pub open spec fn config_typedef_text(es: Seq<(Seq<char>, JsonView)>) -> Seq<char> {
    "typedef struct Config_ {\n"@ + field_strs_text(es) + "} __attribute__((__packed__)) Config;\n"@
}

/// The C declarations of a command: its argument and return structs and its prototype.
pub open spec fn signature_decl_text(name: Seq<char>, sig: SignatureView) -> Seq<char> {
    "typedef struct "@ + name + "_args_ {\n"@ + field_strs_text(or_empty(sig.args))
        + "} __attribute__((__packed__)) "@ + name + "_args;\n"@ + "typedef struct "@ + name + "_returns_ {\n"@
        + field_strs_text(or_empty(sig.returns)) + "} __attribute__((__packed__)) "@ + name + "_returns;\n"@
        + name + "_returns* "@ + name + "("@ + name + "_args* args, Config* conf);\n"@
}

/// The declarations of all commands, in order.
pub open spec fn signature_decls_text(sigs: Seq<(Seq<char>, SignatureView)>) -> Seq<char>
    decreases sigs.len(),
{
    if sigs.len() == 0 {
        Seq::empty()
    } else {
        signature_decls_text(sigs.drop_last()) + signature_decl_text(sigs.last().0, sigs.last().1)
    }
}

/// The generated header: the configuration struct, then each command's declarations.
pub open spec fn header_text(config: Seq<(Seq<char>, JsonView)>, sigs: Seq<(Seq<char>, SignatureView)>) -> Seq<char> {
    config_typedef_text(config) + signature_decls_text(sigs)
}

/// The stub of a command's implementation.
pub open spec fn signature_stub_text(name: Seq<char>) -> Seq<char> {
    name + "_returns* "@ + name + "("@ + name + "_args* args, Config* conf) {\n  /* Your Implementation! */\n}\n\n"@
}

/// The stubs of all commands, in order.
pub open spec fn signature_stubs_text(sigs: Seq<(Seq<char>, SignatureView)>) -> Seq<char>
    decreases sigs.len(),
{
    if sigs.len() == 0 {
        Seq::empty()
    } else {
        signature_stubs_text(sigs.drop_last()) + signature_stub_text(sigs.last().0)
    }
}

/// The generated implementation skeleton: the header include, `init`,
/// `detect`, then a stub for each command.
pub open spec fn impl_text(sigs: Seq<(Seq<char>, SignatureView)>) -> Seq<char> {
    "#include \"rami.gen.h\"\n\n"@ + "void init() {\n  /* Your Implementation! */\n}\n\n"@
        + "Config** detect(Config* conf, size_t* size) {\n  /* Your Implementation! */\n}\n\n"@
        + signature_stubs_text(sigs)
}

/// Every command's schema maps have C types for all their fields.
pub open spec fn signatures_have_ctypes(sigs: Seq<(Seq<char>, SignatureView)>) -> bool {
    forall|i: int| 0 <= i < sigs.len() ==> fields_have_ctypes(or_empty(#[trigger] sigs[i].1.args))
        && fields_have_ctypes(or_empty(sigs[i].1.returns))
}

/// The declarations of one command.
fn signature_decl(name: &String, sig: &Signature) -> (r: String)
    requires
        fields_have_ctypes(or_empty(sig@.args)),
        fields_have_ctypes(or_empty(sig@.returns)),
    ensures
        r@ == signature_decl_text(name@, sig@),
{
    let args = map_or_empty(&sig.args);
    let rets = map_or_empty(&sig.returns);
    let arg_fields = field_strs(&args);
    let return_fields = field_strs(&rets);
    let n = name.as_str();
    let mut r = String::from_str("typedef struct ");
    r.append(n);
    r.append("_args_ {\n");
    r.append(arg_fields.as_str());
    r.append("} __attribute__((__packed__)) ");
    r.append(n);
    r.append("_args;\n");
    r.append("typedef struct ");
    r.append(n);
    r.append("_returns_ {\n");
    r.append(return_fields.as_str());
    r.append("} __attribute__((__packed__)) ");
    r.append(n);
    r.append("_returns;\n");
    r.append(n);
    r.append("_returns* ");
    r.append(n);
    r.append("(");
    r.append(n);
    r.append("_args* args, Config* conf);\n");
    assert(r@ =~= signature_decl_text(name@, sig@));
    r
}

/// The generated header for a driver whose configuration fields are `config`
/// and whose commands are `sigs`.
pub fn header(config: &SchemaMap, sigs: &Vec<(String, Signature)>) -> (r: String)
    requires
        fields_have_ctypes(schema_entries(*config)),
        signatures_have_ctypes(signatures_view(sigs@)),
    ensures
        r@ == header_text(schema_entries(*config), signatures_view(sigs@)),
{
    let fields = field_strs(config);
    let mut r = String::from_str("typedef struct Config_ {\n");
    r.append(fields.as_str());
    r.append("} __attribute__((__packed__)) Config;\n");
    let ghost start = r@;
    assert(start =~= config_typedef_text(schema_entries(*config)));
    let ghost sv = signatures_view(sigs@);
    let mut i: usize = 0;
    assert(sv.take(0) =~= Seq::<(Seq<char>, SignatureView)>::empty());
    assert(start + signature_decls_text(sv.take(0)) =~= start);
    while i < sigs.len()
        invariant
            i <= sigs.len(),
            sv == signatures_view(sigs@),
            signatures_have_ctypes(sv),
            r@ == start + signature_decls_text(sv.take(i as int)),
        decreases sigs.len() - i,
    {
        assert(sv.take(i + 1).drop_last() =~= sv.take(i as int));
        assert(sv[i as int] == (sigs@[i as int].0@, sigs@[i as int].1@));
        assert(fields_have_ctypes(or_empty(sv[i as int].1.args)));
        let d = signature_decl(&sigs[i].0, &sigs[i].1);
        r.append(d.as_str());
        assert(r@ =~= start + signature_decls_text(sv.take(i + 1)));
        i = i + 1;
    }
    assert(sv.take(i as int) =~= sv);
    r
}

/// The generated implementation skeleton for commands `sigs`.
pub fn impl_skeleton(sigs: &Vec<(String, Signature)>) -> (r: String)
    ensures
        r@ == impl_text(signatures_view(sigs@)),
{
    let mut r = String::from_str("#include \"rami.gen.h\"\n\n");
    r.append("void init() {\n  /* Your Implementation! */\n}\n\n");
    r.append("Config** detect(Config* conf, size_t* size) {\n  /* Your Implementation! */\n}\n\n");
    let ghost start = r@;
    let ghost sv = signatures_view(sigs@);
    let mut i: usize = 0;
    assert(sv.take(0) =~= Seq::<(Seq<char>, SignatureView)>::empty());
    assert(start + signature_stubs_text(sv.take(0)) =~= start);
    while i < sigs.len()
        invariant
            i <= sigs.len(),
            sv == signatures_view(sigs@),
            r@ == start + signature_stubs_text(sv.take(i as int)),
        decreases sigs.len() - i,
    {
        assert(sv.take(i + 1).drop_last() =~= sv.take(i as int));
        assert(sv[i as int].0 == sigs@[i as int].0@);
        let n = sigs[i].0.as_str();
        r.append(n);
        r.append("_returns* ");
        r.append(n);
        r.append("(");
        r.append(n);
        r.append("_args* args, Config* conf) {\n  /* Your Implementation! */\n}\n\n");
        assert(r@ =~= start + signature_stubs_text(sv.take(i + 1)));
        i = i + 1;
    }
    assert(sv.take(i as int) =~= sv);
    assert(r@ =~= impl_text(sv));
    r
}


/// Whether a schema type has a C type.
pub fn has_ctype_exec(t: &str) -> (r: bool)
    ensures
        r == has_ctype(t@),
{
    str_eq(t, "number") || str_eq(t, "integer") || str_eq(t, "string")
}

/// Whether every field of a schema map has a type with a C type.
pub fn fields_checked(m: &SchemaMap) -> (r: bool)
    ensures
        r == fields_have_ctypes(schema_entries(*m)),
{
    let entries = schema_map_entries(m);
    let ghost es = entries_view(entries@);
    let mut i: usize = 0;
    while i < entries.len()
        invariant
            i <= entries.len(),
            es == entries_view(entries@),
            es == schema_entries(*m),
            forall|k: int| 0 <= k < i ==> (#[trigger] schema_type(es[k].1) matches Some(t) && has_ctype(t)),
        decreases entries.len() - i,
    {
        assert(es[i as int].1 == entries@[i as int].1@);
        match schema_type_of(&entries[i].1) {
            Some(t) => {
                if !has_ctype_exec(t.as_str()) {
                    return false;
                }
            },
            None => {
                return false;
            },
        }
        i = i + 1;
    }
    true
}

} // verus!
