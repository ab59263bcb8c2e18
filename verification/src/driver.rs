use vstd::prelude::*;

use crate::category::{
    copy_optional_schema_map, optional_entries, optional_view, signatures_view, symbol_names, Category,
    CategoryView, Signature,
};
use crate::config::{check_optional_schema, config_verdict, config_wf, optional_schema_verdict, ConfigValue};
use crate::error::{SymbolsNotEnoughError, UnknownCommandError, UnknownConfigError};
use crate::json::{entries_view, key_index, lemma_key_index, lemma_key_index_prefix, Json, JsonView};
use crate::schema_map::{copy_schema_map, schema_entries, schema_map_get, schema_map_new, SchemaMap};
use crate::util::{
    first_unresolved, lemma_merged_schema_entries_wf, merge_schema_with_global, merged_schema_entries,
    schema_entries_wf, schema_lookup, strings_view,
};
use crate::validation::{entries_refs_terminate, json_wf};

verus! {

/// A loaded driver, known by its id.
#[derive(Debug, Clone, Copy, PartialEq, Eq, Hash, Structural)]
pub struct Driver(usize);

impl View for Driver {
    type V = usize;

    closed spec fn view(&self) -> usize {
        self.0
    }
}

/// Two drivers are equal exactly when their ids are, so `Driver::new` gives equal
/// values for equal ids and distinct values for distinct ones.
pub proof fn lemma_driver_eq(a: Driver, b: Driver)
    ensures
        (a == b) == (a@ == b@),
{
}

impl Driver {
    /// The driver with the given id.
    pub fn new(id: usize) -> (r: Self)
        ensures
            r@ == id,
    {
        Driver(id)
    }

    /// The id of this driver.
    pub(crate) fn index(&self) -> (r: usize)
        ensures
            r == self@,
    {
        self.0
    }
}

/// What a driver package description holds.
#[derive(Debug)]
pub struct DriverMetadata {
    pub name: String,
    pub version: String,
    pub author: Option<String>,
    pub vendor: Option<String>,
    /// The names of the categories that the driver implements.
    pub category: Vec<String>,
    /// The file of the driver library, if not `<name>.so`.
    pub driver: Option<String>,
    /// The configuration keys that a user must give.
    pub requires: Option<Vec<String>>,
    /// The configuration keys that the driver can detect.
    pub detects: Option<Vec<String>>,
    /// The driver's own schemas of configuration keys.
    pub schemas: Option<SchemaMap>,
}

/// A driver package: its description, its categories and the schema of each
/// configuration key it requires.
#[derive(Debug)]
pub struct DriverData {
    path: String,
    name: String,
    version: String,
    author: Option<String>,
    vendor: Option<String>,
    category: Vec<Category>,
    requires: Vec<String>,
    detects: Vec<String>,
    merged_schemas: SchemaMap,
    driver_file: String,
}

/// The model of a `DriverData`.
pub struct DriverDataView {
    pub path: Seq<char>,
    pub name: Seq<char>,
    pub version: Seq<char>,
    pub author: Option<Seq<char>>,
    pub vendor: Option<Seq<char>>,
    pub categories: Seq<CategoryView>,
    pub requires: Seq<Seq<char>>,
    pub detects: Seq<Seq<char>>,
    pub schemas: Seq<(Seq<char>, JsonView)>,
    pub driver_file: Seq<char>,
}

/// The views of a list of categories.
pub open spec fn categories_view(cs: Seq<Category>) -> Seq<CategoryView> {
    Seq::new(cs.len(), |i: int| cs[i]@)
}

impl View for DriverData {
    type V = DriverDataView;

    closed spec fn view(&self) -> DriverDataView {
        DriverDataView {
            path: self.path@,
            name: self.name@,
            version: self.version@,
            author: optional_view(self.author),
            vendor: optional_view(self.vendor),
            categories: categories_view(self.category@),
            requires: strings_view(self.requires@),
            detects: strings_view(self.detects@),
            schemas: schema_entries(self.merged_schemas),
            driver_file: self.driver_file@,
        }
    }
}

/// The entries of an optional schema map; none when it is absent.
pub open spec fn entries_or_empty(m: Option<SchemaMap>) -> Seq<(Seq<char>, JsonView)> {
    match optional_entries(m) {
        Some(es) => es,
        None => Seq::empty(),
    }
}

/// The views of an optional list of strings; none when it is absent.
pub open spec fn strings_or_empty(v: Option<Vec<String>>) -> Seq<Seq<char>> {
    match v {
        Some(x) => strings_view(x@),
        None => Seq::empty(),
    }
}

/// The symbols that the categories require, category by category.
pub open spec fn category_symbols(cs: Seq<CategoryView>) -> Seq<Seq<char>>
    decreases cs.len(),
{
    if cs.len() == 0 {
        Seq::empty()
    } else {
        category_symbols(cs.drop_last()) + symbol_names(cs.last())
    }
}

/// The names `exported` cover every symbol of the driver's categories and the
/// common ones.
pub open spec fn exports_required(d: DriverDataView, exported: Seq<Seq<char>>) -> bool {
    forall|i: int|
        0 <= i < (category_symbols(d.categories) + common_symbol_names()).len() ==> exported.contains(
            #[trigger] (category_symbols(d.categories) + common_symbol_names())[i],
        )
}

/// The symbols that every driver exports.
pub open spec fn common_symbol_names() -> Seq<Seq<char>> {
    seq!["init"@, "detect"@]
}

/// The check of a configuration entry against a driver's schemas.
pub open spec fn driver_check(es: Seq<(Seq<char>, JsonView)>) -> spec_fn(Seq<char>, JsonView) -> Option<bool> {
    |k: Seq<char>, v: JsonView| optional_schema_verdict(schema_lookup(es, k), v)
}

/// The index of the first category that declares `cmd`, or -1.
pub open spec fn category_of(cs: Seq<CategoryView>, cmd: Seq<char>) -> int
    decreases cs.len(),
{
    if cs.len() == 0 {
        -1
    } else {
        let r = category_of(cs.drop_last(), cmd);
        if r >= 0 {
            r
        } else if symbol_names(cs.last()).contains(cmd) {
            cs.len() - 1
        } else {
            -1
        }
    }
}

/// The signature that a category declares for `cmd`: that of its first entry named `cmd`.
pub open spec fn signature_of(c: CategoryView, cmd: Seq<char>) -> crate::category::SignatureView {
    c.signatures[key_index(c.signatures, cmd)].1
}

/// A category found in a prefix is the first that declares the command.
pub proof fn lemma_category_of_prefix(cs: Seq<CategoryView>, cmd: Seq<char>, n: int)
    requires
        0 <= n <= cs.len(),
        category_of(cs.take(n), cmd) >= 0,
    ensures
        category_of(cs, cmd) == category_of(cs.take(n), cmd),
    decreases cs.len(),
{
    if n < cs.len() {
        assert(cs.drop_last().take(n) =~= cs.take(n));
        lemma_category_of_prefix(cs.drop_last(), cmd, n);
    } else {
        assert(cs.take(n) =~= cs);
    }
}

/// The symbols that every driver exports.
pub fn common_symbols() -> (r: Vec<String>)
    ensures
        strings_view(r@) == common_symbol_names(),
{
    let mut r: Vec<String> = Vec::new();
    r.push(String::from_str("init"));
    r.push(String::from_str("detect"));
    assert(strings_view(r@) =~= common_symbol_names());
    r
}

/// The index of the first signature named `cmd`.
fn find_signature(sigs: &Vec<(String, Signature)>, cmd: &str) -> (r: Option<usize>)
    ensures
        match r {
            Some(i) => i as int == key_index(signatures_view(sigs@), cmd@),
            None => key_index(signatures_view(sigs@), cmd@) == -1,
        },
{
    let ghost es = signatures_view(sigs@);
    let mut i: usize = 0;
    while i < sigs.len()
        invariant
            i <= sigs.len(),
            es == signatures_view(sigs@),
            key_index(es.take(i as int), cmd@) == -1,
        decreases sigs.len() - i,
    {
        assert(es.take(i + 1).drop_last() =~= es.take(i as int));
        if crate::text::str_eq(sigs[i].0.as_str(), cmd) {
            proof {
                lemma_key_index_prefix(es, cmd@, i + 1);
            }
            return Some(i);
        }
        i = i + 1;
    }
    assert(es.take(i as int) =~= es);
    None
}

/// The entries of an optional schema map, or a new empty map.
fn schema_map_or_empty(m: &Option<SchemaMap>) -> (r: SchemaMap)
    ensures
        schema_entries(r) == match optional_entries(*m) {
            Some(es) => es,
            None => Seq::empty(),
        },
{
    match copy_optional_schema_map(m) {
        Some(x) => x,
        None => schema_map_new(),
    }
}

impl DriverData {
    /// The well-formedness of a driver: its schemas have distinct keys and
    /// well-formed values.
    #[verifier::type_invariant]
    closed spec fn inv(self) -> bool {
        schema_entries_wf(schema_entries(self.merged_schemas))
    }

    /// The driver package at `path` described by `metadata`, implementing
    /// `categories`: the schema of each required key is the global schema merged
    /// with the driver's own, or whichever exists; the first required key with
    /// neither is reported.
    pub fn new(path: String, metadata: DriverMetadata, categories: Vec<Category>) -> (r: Result<DriverData, UnknownConfigError>)
        requires
            schema_entries_wf(entries_or_empty(metadata.schemas)),
        ensures
            (r is Ok) == (first_unresolved(entries_or_empty(metadata.schemas), strings_or_empty(metadata.requires)) == -1),
            r matches Ok(d) ==> {
                &&& d@.path == path@
                &&& d@.name == metadata.name@
                &&& d@.version == metadata.version@
                &&& d@.author == optional_view(metadata.author)
                &&& d@.vendor == optional_view(metadata.vendor)
                &&& d@.categories == categories_view(categories@)
                &&& d@.requires == strings_or_empty(metadata.requires)
                &&& d@.detects == strings_or_empty(metadata.detects)
                &&& d@.schemas == merged_schema_entries(
                    entries_or_empty(metadata.schemas),
                    strings_or_empty(metadata.requires),
                )
                &&& d@.driver_file == match metadata.driver {
                    Some(f) => f@,
                    None => metadata.name@ + ".so"@,
                }
            },
            r matches Err(e) ==> e.name@ == strings_or_empty(metadata.requires)[first_unresolved(
                entries_or_empty(metadata.schemas),
                strings_or_empty(metadata.requires),
            )],
    {
        let driver_file = match metadata.driver {
            Some(f) => f,
            None => metadata.name.clone().concat(".so"),
        };
        let required = match metadata.requires {
            Some(v) => v,
            None => Vec::new(),
        };
        let schemas = match metadata.schemas {
            Some(m) => m,
            None => schema_map_new(),
        };
        assert(strings_view(required@) == strings_or_empty(metadata.requires)) by {
            if metadata.requires is None {
                assert(strings_view(required@) =~= Seq::<Seq<char>>::empty());
            }
        }
        let merged_schemas = match merge_schema_with_global(&required, &schemas) {
            Ok(m) => m,
            Err(e) => {
                proof {
                    crate::util::lemma_first_unresolved_bound(schema_entries(schemas), strings_view(required@));
                }
                return Err(e);
            },
        };
        proof {
            lemma_merged_schema_entries_wf(schema_entries(schemas), strings_view(required@));
        }
        let detects = match metadata.detects {
            Some(v) => v,
            None => Vec::new(),
        };
        assert(strings_view(detects@) == strings_or_empty(metadata.detects)) by {
            if metadata.detects is None {
                assert(strings_view(detects@) =~= Seq::<Seq<char>>::empty());
            }
        }
        let d = DriverData {
            path,
            name: metadata.name,
            version: metadata.version,
            author: metadata.author,
            vendor: metadata.vendor,
            category: categories,
            requires: required,
            detects,
            merged_schemas,
            driver_file,
        };
        Ok(d)
    }

    /// Where the driver package lies.
    pub fn path(&self) -> (r: &String)
        ensures
            r@ == self@.path,
    {
        &self.path
    }

    /// The name of the driver.
    pub fn name(&self) -> (r: &String)
        ensures
            r@ == self@.name,
    {
        &self.name
    }

    /// The version of the driver.
    pub fn version(&self) -> (r: &String)
        ensures
            r@ == self@.version,
    {
        &self.version
    }

    /// The categories that the driver implements.
    pub fn category(&self) -> (r: &Vec<Category>)
        ensures
            categories_view(r@) == self@.categories,
    {
        &self.category
    }

    /// The vendor of the driver, if given.
    pub fn vendor(&self) -> (r: &Option<String>)
        ensures
            optional_view(*r) == self@.vendor,
    {
        &self.vendor
    }

    /// The file of the driver library, relative to its package.
    pub fn driver_file(&self) -> (r: &String)
        ensures
            r@ == self@.driver_file,
    {
        &self.driver_file
    }

    /// The schema of each required configuration key, in order.
    pub fn schemas(&self) -> (r: &SchemaMap)
        ensures
            schema_entries(*r) == self@.schemas,
    {
        &self.merged_schemas
    }

    /// The names of the symbols that the driver library must export: those of
    /// each category in turn, then the common ones.
    pub fn required_symbol_names(&self) -> (r: Vec<String>)
        ensures
            strings_view(r@) == category_symbols(self@.categories) + common_symbol_names(),
    {
        let mut r = self.category_symbol_list();
        let common = common_symbols();
        let ghost before = strings_view(r@);
        let mut i: usize = 0;
        while i < common.len()
            invariant
                i <= common.len(),
                strings_view(common@) == common_symbol_names(),
                strings_view(r@) == before + strings_view(common@).take(i as int),
            decreases common.len() - i,
        {
            let ghost prev = strings_view(r@);
            r.push(common[i].clone());
            assert(strings_view(r@) =~= prev.push(common@[i as int]@));
            assert(strings_view(common@).take(i + 1) =~= strings_view(common@).take(i as int).push(common@[i as int]@));
            assert(strings_view(r@) =~= before + strings_view(common@).take(i + 1));
            i = i + 1;
        }
        assert(strings_view(common@).take(i as int) =~= strings_view(common@));
        r
    }

    /// The symbols that the categories require, category by category.
    fn category_symbol_list(&self) -> (r: Vec<String>)
        ensures
            strings_view(r@) == category_symbols(self@.categories),
    {
        let mut r: Vec<String> = Vec::new();
        let mut c: usize = 0;
        let ghost cs = self@.categories;
        assert(cs.take(0) =~= Seq::<CategoryView>::empty());
        while c < self.category.len()
            invariant
                c <= self.category.len(),
                cs == categories_view(self.category@),
                strings_view(r@) == category_symbols(cs.take(c as int)),
            decreases self.category.len() - c,
        {
            let syms = self.category[c].required_symbols();
            let ghost before = strings_view(r@);
            let mut i: usize = 0;
            while i < syms.len()
                invariant
                    i <= syms.len(),
                    strings_view(r@) == before + strings_view(syms@).take(i as int),
                decreases syms.len() - i,
            {
                let ghost prev = strings_view(r@);
                r.push(syms[i].clone());
                assert(strings_view(r@) =~= prev.push(syms@[i as int]@));
                assert(strings_view(syms@).take(i + 1) =~= strings_view(syms@).take(i as int).push(syms@[i as int]@));
                assert(strings_view(r@) =~= before + strings_view(syms@).take(i + 1));
                i = i + 1;
            }
            assert(strings_view(syms@).take(i as int) =~= strings_view(syms@));
            assert(cs.take(c + 1).drop_last() =~= cs.take(c as int));
            c = c + 1;
        }
        assert(cs.take(c as int) =~= cs);
        r
    }

    /// Whether the driver library exports every required symbol, given the
    /// names that it was found to export.
    pub fn validate_symbols(&self, exported: &Vec<String>) -> (r: bool)
        ensures
            r == exports_required(self@, strings_view(exported@)),
    {
        let names = self.required_symbol_names();
        let ghost req = category_symbols(self@.categories) + common_symbol_names();
        let ghost ex = strings_view(exported@);
        let mut i: usize = 0;
        while i < names.len()
            invariant
                i <= names.len(),
                req == category_symbols(self@.categories) + common_symbol_names(),
                strings_view(names@) == req,
                ex == strings_view(exported@),
                forall|k: int| 0 <= k < i ==> ex.contains(#[trigger] req[k]),
            decreases names.len() - i,
        {
            assert(req[i as int] == names@[i as int]@);
            let mut found = false;
            let mut j: usize = 0;
            while j < exported.len()
                invariant
                    i < names.len(),
                    j <= exported.len(),
                    req == category_symbols(self@.categories) + common_symbol_names(),
                    strings_view(names@) == req,
                    ex == strings_view(exported@),
                    req[i as int] == names@[i as int]@,
                    found ==> ex.contains(req[i as int]),
                    !found ==> forall|q: int| 0 <= q < j ==> ex[q] != req[i as int],
                decreases exported.len() - j,
            {
                if crate::text::str_eq(exported[j].as_str(), names[i].as_str()) {
                    assert(ex[j as int] == req[i as int]);
                    found = true;
                }
                j = j + 1;
            }
            if !found {
                assert(!ex.contains(req[i as int]));
                assert(!strings_view(exported@).contains(
                    (category_symbols(self@.categories) + common_symbol_names())[i as int],
                ));
                return false;
            }
            i = i + 1;
        }
        true
    }

    /// The error for a driver library that lacks a required symbol.
    pub fn symbols_not_enough(&self) -> (r: SymbolsNotEnoughError)
        ensures
            strings_view(r.requires@) == category_symbols(self@.categories),
            r.common@ == "[\"init\", \"detect\"]"@,
            r.name@ == self@.name,
    {
        SymbolsNotEnoughError {
            name: self.name.clone(),
            requires: self.category_symbol_list(),
            common: String::from_str("[\"init\", \"detect\"]"),
        }
    }

    /// The driver, given the names that its library was found to export: kept
    /// when they cover every category's symbols and the common ones, else the
    /// error that names the driver and the symbols it must export.
    pub fn check_symbols(self, exported: &Vec<String>) -> (r: Result<DriverData, SymbolsNotEnoughError>)
        ensures
            (r is Ok) == exports_required(self@, strings_view(exported@)),
            r matches Ok(d) ==> d@ == self@,
            r matches Err(e) ==> {
                &&& strings_view(e.requires@) == category_symbols(self@.categories)
                &&& e.common@ == "[\"init\", \"detect\"]"@
                &&& e.name@ == self@.name
            },
    {
        if self.validate_symbols(exported) {
            Ok(self)
        } else {
            Err(self.symbols_not_enough())
        }
    }

    /// The argument and return schemas of `command`, taken from the first
    /// category that declares it (an absent schema map is an empty one).
    pub fn command_schemas(&self, command: &str) -> (r: Result<(SchemaMap, SchemaMap), UnknownCommandError>)
        ensures
            (r is Ok) == (category_of(self@.categories, command@) >= 0),
            r matches Ok(p) ==> {
                let sig = signature_of(self@.categories[category_of(self@.categories, command@)], command@);
                &&& schema_entries(p.0) == match sig.args {
                    Some(es) => es,
                    None => Seq::empty(),
                }
                &&& schema_entries(p.1) == match sig.returns {
                    Some(es) => es,
                    None => Seq::empty(),
                }
            },
            r matches Err(e) ==> e.name@ == command@,
    {
        let ghost cs = self@.categories;
        let mut c: usize = 0;
        assert(cs.take(0) =~= Seq::<CategoryView>::empty());
        while c < self.category.len()
            invariant
                c <= self.category.len(),
                cs == categories_view(self.category@),
                category_of(cs.take(c as int), command@) == -1,
            decreases self.category.len() - c,
        {
            assert(cs.take(c + 1).drop_last() =~= cs.take(c as int));
            assert(cs.take(c + 1).last() == self.category@[c as int]@);
            let sigs = self.category[c].signatures();
            match find_signature(sigs, command) {
                Some(j) => {
                    proof {
                        lemma_key_index(signatures_view(sigs@), command@);
                        let names = symbol_names(cs[c as int]);
                        assert(names[j as int] == command@);
                        assert(names.contains(command@));
                        assert(category_of(cs.take(c + 1), command@) == c);
                        lemma_category_of_prefix(cs, command@, c + 1);
                    }
                    let args = schema_map_or_empty(&sigs[j].1.args);
                    let rets = schema_map_or_empty(&sigs[j].1.returns);
                    return Ok((args, rets));
                },
                None => {
                    proof {
                        lemma_key_index(signatures_view(sigs@), command@);
                        let names = symbol_names(cs[c as int]);
                        assert forall|q: int| 0 <= q < names.len() implies names[q] != command@ by {
                            assert(names[q] == signatures_view(sigs@)[q].0);
                        }
                    }
                },
            }
            c = c + 1;
        }
        assert(cs.take(c as int) =~= cs);
        Err(UnknownCommandError { name: String::from_str(command) })
    }

    /// Whether the references of every schema of the driver end.
    pub fn schemas_refs_terminate(&self) -> (r: bool)
        ensures
            r == entries_refs_terminate(self@.schemas),
    {
        let entries = crate::schema_map::schema_map_entries(&self.merged_schemas);
        let ghost es = entries_view(entries@);
        let mut i: usize = 0;
        while i < entries.len()
            invariant
                i <= entries.len(),
                es == entries_view(entries@),
                es == self@.schemas,
                forall|k: int| 0 <= k < i ==> crate::validation::refs_terminate(#[trigger] es[k].1),
            decreases entries.len() - i,
        {
            assert(es[i as int].1 == entries@[i as int].1@);
            if !entries[i].1.refs_terminate() {
                return false;
            }
            i = i + 1;
        }
        true
    }

    /// Checks `value` against the driver's schema for `key`: `None` when that
    /// schema does not compile.
    pub fn try_validate_config_value(&self, key: &str, value: &ConfigValue) -> (r: Option<bool>)
        requires
            json_wf(value@),
            entries_refs_terminate(self@.schemas),
        ensures
            r == optional_schema_verdict(schema_lookup(self@.schemas, key@), value@),
    {
        proof {
            use_type_invariant(self);
            crate::json::lemma_key_index(schema_entries(self.merged_schemas), key@);
        }
        let s = schema_map_get(&self.merged_schemas, key);
        check_optional_schema(s, value)
    }

    /// Whether `value` is valid for `key` under the driver's schemas; a key
    /// without a schema accepts any value.
    pub fn validate_config_value(&self, key: &str, value: &ConfigValue) -> (r: bool)
        requires
            json_wf(value@),
            entries_refs_terminate(self@.schemas),
            optional_schema_verdict(schema_lookup(self@.schemas, key@), value@) is Some,
        ensures
            Some(r) == optional_schema_verdict(schema_lookup(self@.schemas, key@), value@),
    {
        match self.try_validate_config_value(key, value) {
            Some(b) => b,
            None => false,
        }
    }

    /// Checks every entry of `config` against the driver's schemas, in order.
    pub fn try_validate_config(&self, config: &Vec<(String, Json)>) -> (r: Option<bool>)
        requires
            config_wf(config@),
            entries_refs_terminate(self@.schemas),
        ensures
            r == config_verdict(config@, driver_check(self@.schemas)),
    {
        let mut i: usize = 0;
        assert(config@.skip(0) =~= config@);
        while i < config.len()
            invariant
                i <= config.len(),
                config_wf(config@),
                config_verdict(config@, driver_check(self@.schemas)) == config_verdict(
                    config@.skip(i as int),
                    driver_check(self@.schemas),
                ),
                entries_refs_terminate(self@.schemas),
            decreases config.len() - i,
        {
            let ghost rest = config@.skip(i as int);
            assert(rest.drop_first() =~= config@.skip(i + 1));
            assert(rest[0] == config@[i as int]);
            let v = self.try_validate_config_value(config[i].0.as_str(), &config[i].1);
            match v {
                Some(true) => {},
                other => {
                    return other;
                },
            }
            i = i + 1;
        }
        Some(true)
    }

    /// Whether every entry of `config` is valid under the driver's schemas.
    pub fn validate_config(&self, config: &Vec<(String, Json)>) -> (r: bool)
        requires
            config_wf(config@),
            entries_refs_terminate(self@.schemas),
            config_verdict(config@, driver_check(self@.schemas)) is Some,
        ensures
            Some(r) == config_verdict(config@, driver_check(self@.schemas)),
    {
        match self.try_validate_config(config) {
            Some(b) => b,
            None => false,
        }
    }
}

} // verus!
