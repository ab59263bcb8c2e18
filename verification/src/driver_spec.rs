use vstd::prelude::*;

use crate::category::optional_view;
use crate::driver::{categories_view, DriverData, DriverDataView};
use crate::text::str_eq;

verus! {

/// A request for drivers: each field that is given must match.
#[derive(Debug)]
pub struct DriverSpec {
    vendor: Option<String>,
    category: Option<String>,
    name: Option<String>,
}

/// The model of a `DriverSpec`.
pub struct DriverSpecView {
    pub vendor: Option<Seq<char>>,
    pub category: Option<Seq<char>>,
    pub name: Option<Seq<char>>,
}

impl View for DriverSpec {
    type V = DriverSpecView;

    closed spec fn view(&self) -> DriverSpecView {
        DriverSpecView {
            vendor: optional_view(self.vendor),
            category: optional_view(self.category),
            name: optional_view(self.name),
        }
    }
}

/// A driver conforms to a request when it has the requested name, implements a
/// category of the requested name, and has the requested vendor, as far as
/// each is requested.
pub open spec fn conforms(s: DriverSpecView, d: DriverDataView) -> bool {
    &&& s.name matches Some(n) ==> n == d.name
    &&& s.category matches Some(c) ==> exists|i: int| 0 <= i < d.categories.len() && #[trigger] d.categories[i].name == c
    &&& s.vendor matches Some(v) ==> d.vendor == Some(v)
}

/// `None` for an empty string, else the string.
pub open spec fn empty_or(s: Seq<char>) -> Option<Seq<char>> {
    if s.len() == 0 {
        None
    } else {
        Some(s)
    }
}

fn empty_or_string(s: &str) -> (r: Option<String>)
    ensures
        optional_view(r) == empty_or(s@),
{
    if s.is_empty() {
        None
    } else {
        Some(String::from_str(s))
    }
}

impl DriverSpec {
    /// The request for the given vendor, category and name.
    pub fn new(vendor: Option<String>, category: Option<String>, name: Option<String>) -> (r: Self)
        ensures
            r@.vendor == optional_view(vendor),
            r@.category == optional_view(category),
            r@.name == optional_view(name),
    {
        DriverSpec { vendor, category, name }
    }

    /// The request read from the fields of a driver specification message, in
    /// which an empty field requests nothing.
    pub fn from_specification(vendor: &str, category: &str, name: &str) -> (r: Self)
        ensures
            r@.vendor == empty_or(vendor@),
            r@.category == empty_or(category@),
            r@.name == empty_or(name@),
    {
        DriverSpec::new(empty_or_string(vendor), empty_or_string(category), empty_or_string(name))
    }

    /// Whether `driver` conforms to this request.
    pub fn is_conforming(&self, driver: &DriverData) -> (r: bool)
        ensures
            r == conforms(self@, driver@),
    {
        let name_ok = match &self.name {
            Some(n) => str_eq(n.as_str(), driver.name().as_str()),
            None => true,
        };
        let category_ok = match &self.category {
            Some(n) => {
                let cats = driver.category();
                let mut found = false;
                let mut i: usize = 0;
                while i < cats.len()
                    invariant
                        i <= cats.len(),
                        categories_view(cats@) == driver@.categories,
                        found == exists|j: int| 0 <= j < i && #[trigger] driver@.categories[j].name == n@,
                    decreases cats.len() - i,
                {
                    assert(driver@.categories[i as int] == cats@[i as int]@);
                    if str_eq(cats[i].name().as_str(), n.as_str()) {
                        found = true;
                    }
                    i = i + 1;
                }
                found
            },
            None => true,
        };
        let vendor_ok = match &self.vendor {
            Some(n) => match driver.vendor() {
                Some(v) => str_eq(n.as_str(), v.as_str()),
                None => false,
            },
            None => true,
        };
        name_ok && category_ok && vendor_ok
    }
}

} // verus!
