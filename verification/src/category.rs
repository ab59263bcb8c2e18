use vstd::prelude::*;

use crate::schema_map::{copy_schema_map, schema_entries, SchemaMap};
use crate::json::JsonView;

verus! {

/// The argument and return schemas of a command.
#[derive(Debug)]
pub struct Signature {
    pub args: Option<SchemaMap>,
    pub returns: Option<SchemaMap>,
}

/// The model of a `Signature`: the entries of its schema maps.
pub struct SignatureView {
    pub args: Option<Seq<(Seq<char>, JsonView)>>,
    pub returns: Option<Seq<(Seq<char>, JsonView)>>,
}

/// The entries of an optional schema map.
pub open spec fn optional_entries(m: Option<SchemaMap>) -> Option<Seq<(Seq<char>, JsonView)>> {
    match m {
        Some(x) => Some(schema_entries(x)),
        None => None,
    }
}

impl View for Signature {
    type V = SignatureView;

    open spec fn view(&self) -> SignatureView {
        SignatureView { args: optional_entries(self.args), returns: optional_entries(self.returns) }
    }
}

/// A copy of an optional schema map.
pub fn copy_optional_schema_map(m: &Option<SchemaMap>) -> (r: Option<SchemaMap>)
    ensures
        optional_entries(r) == optional_entries(*m),
{
    match m {
        Some(x) => Some(copy_schema_map(x)),
        None => None,
    }
}

impl Signature {
    /// A copy of this signature.
    pub fn copy(&self) -> (r: Signature)
        ensures
            r@ == self@,
    {
        Signature { args: copy_optional_schema_map(&self.args), returns: copy_optional_schema_map(&self.returns) }
    }
}

/// The views of a list of named signatures.
pub open spec fn signatures_view(s: Seq<(String, Signature)>) -> Seq<(Seq<char>, SignatureView)> {
    Seq::new(s.len(), |i: int| (s[i].0@, s[i].1@))
}

/// What a category description holds.
#[derive(Debug)]
pub struct CategoryMetadata {
    pub name: String,
    pub version: String,
    pub author: Option<String>,
    pub signatures: Vec<(String, Signature)>,
}

/// A device category: the commands that its drivers implement, with their signatures.
#[derive(Debug)]
pub struct Category {
    name: String,
    path: String,
    version: String,
    author: Option<String>,
    required_signatures: Vec<(String, Signature)>,
}

/// The model of a `Category`.
pub struct CategoryView {
    pub name: Seq<char>,
    pub path: Seq<char>,
    pub version: Seq<char>,
    pub author: Option<Seq<char>>,
    pub signatures: Seq<(Seq<char>, SignatureView)>,
}

/// The view of an optional string.
pub open spec fn optional_view(s: Option<String>) -> Option<Seq<char>> {
    match s {
        Some(x) => Some(x@),
        None => None,
    }
}

impl View for Category {
    type V = CategoryView;

    closed spec fn view(&self) -> CategoryView {
        CategoryView {
            name: self.name@,
            path: self.path@,
            version: self.version@,
            author: optional_view(self.author),
            signatures: signatures_view(self.required_signatures@),
        }
    }
}

/// The names of the commands of a category, in order.
pub open spec fn symbol_names(c: CategoryView) -> Seq<Seq<char>> {
    Seq::new(c.signatures.len(), |i: int| c.signatures[i].0)
}

impl Category {
    /// The category described by `metadata`, found at `path`.
    pub fn new(path: String, metadata: CategoryMetadata) -> (r: Category)
        ensures
            r@.name == metadata.name@,
            r@.path == path@,
            r@.version == metadata.version@,
            r@.author == optional_view(metadata.author),
            r@.signatures == signatures_view(metadata.signatures@),
    {
        Category {
            path,
            name: metadata.name,
            author: metadata.author,
            version: metadata.version,
            required_signatures: metadata.signatures,
        }
    }

    /// The name of the category.
    pub fn name(&self) -> (r: &String)
        ensures
            r@ == self@.name,
    {
        &self.name
    }

    /// The commands of the category, with their signatures.
    pub fn signatures(&self) -> (r: &Vec<(String, Signature)>)
        ensures
            signatures_view(r@) == self@.signatures,
    {
        &self.required_signatures
    }

    /// The names of the symbols that a driver of this category must export.
    pub fn required_symbols(&self) -> (r: Vec<String>)
        ensures
            crate::util::strings_view(r@) == symbol_names(self@),
    {
        let mut r: Vec<String> = Vec::new();
        let mut i: usize = 0;
        while i < self.required_signatures.len()
            invariant
                i <= self.required_signatures.len(),
                r.len() == i,
                forall|j: int| 0 <= j < i ==> (#[trigger] r@[j])@ == self.required_signatures@[j].0@,
            decreases self.required_signatures.len() - i,
        {
            r.push(self.required_signatures[i].0.clone());
            i = i + 1;
        }
        assert(crate::util::strings_view(r@) =~= symbol_names(self@));
        r
    }
}

} // verus!
