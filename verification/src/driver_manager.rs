use vstd::prelude::*;

use crate::config::{config_verdict, config_wf};
use crate::driver::{driver_check, Driver, DriverData, DriverDataView};
use crate::driver_spec::{conforms, DriverSpec, DriverSpecView};
use crate::error::DriverNotFoundError;
use crate::json::Json;
use crate::validation::entries_refs_terminate;

verus! {

/// The loaded drivers; the driver with id `i` is the `i`-th one loaded.
#[derive(Debug)]
pub struct DriverManager {
    drivers: Vec<DriverData>,
}

/// The views of a list of driver packages.
pub open spec fn drivers_view(ds: Seq<DriverData>) -> Seq<DriverDataView> {
    Seq::new(ds.len(), |i: int| ds[i]@)
}

impl View for DriverManager {
    type V = Seq<DriverDataView>;

    closed spec fn view(&self) -> Seq<DriverDataView> {
        drivers_view(self.drivers@)
    }
}

/// A driver is suitable when it conforms to the request and accepts the configuration.
pub open spec fn is_suitable(s: DriverSpecView, conf: Seq<(String, Json)>, d: DriverDataView) -> bool {
    conforms(s, d) && config_verdict(conf, driver_check(d.schemas)) == Some(true)
}

/// The ids of the suitable drivers among the first `ds.len()`, in order.
pub open spec fn suitable_ids(ds: Seq<DriverDataView>, s: DriverSpecView, conf: Seq<(String, Json)>) -> Seq<int>
    decreases ds.len(),
{
    if ds.len() == 0 {
        Seq::empty()
    } else {
        let prev = suitable_ids(ds.drop_last(), s, conf);
        if is_suitable(s, conf, ds.last()) {
            prev.push(ds.len() - 1)
        } else {
            prev
        }
    }
}

/// The references of every schema of every driver end.
pub open spec fn drivers_refs_terminate(ds: Seq<DriverDataView>) -> bool {
    forall|i: int| 0 <= i < ds.len() ==> entries_refs_terminate(#[trigger] ds[i].schemas)
}

/// Some conforming driver has a schema that does not compile for the configuration.
pub open spec fn some_check_fails(ds: Seq<DriverDataView>, s: DriverSpecView, conf: Seq<(String, Json)>) -> bool {
    exists|i: int| 0 <= i < ds.len() && conforms(s, #[trigger] ds[i]) && config_verdict(conf, driver_check(ds[i].schemas)) is None
}

impl DriverManager {
    /// A manager without drivers.
    pub fn new() -> (r: Self)
        ensures
            r@ == Seq::<DriverDataView>::empty(),
    {
        let r = DriverManager { drivers: Vec::new() };
        assert(r@ =~= Seq::<DriverDataView>::empty());
        r
    }

    /// Replaces the drivers with those loaded, which take the ids 0, 1, ... in order.
    pub fn load_all(&mut self, loaded: Vec<DriverData>)
        ensures
            final(self)@ == drivers_view(loaded@),
    {
        self.drivers = loaded;
    }

    /// The drivers with their ids, in order of id.
    pub fn driver_data(&self) -> (r: Vec<(Driver, &DriverData)>)
        ensures
            r.len() == self@.len(),
            forall|i: int| 0 <= i < r.len() ==> (#[trigger] r@[i]).0@ == i && r@[i].1@ == self@[i],
    {
        let mut r: Vec<(Driver, &DriverData)> = Vec::new();
        let mut i: usize = 0;
        while i < self.drivers.len()
            invariant
                i <= self.drivers.len(),
                r.len() == i,
                forall|j: int| 0 <= j < i ==> (#[trigger] r@[j]).0@ == j && r@[j].1@ == self@[j],
            decreases self.drivers.len() - i,
        {
            r.push((Driver::new(i), &self.drivers[i]));
            i = i + 1;
        }
        r
    }

    /// The ids of the drivers, in order.
    pub fn drivers(&self) -> (r: Vec<Driver>)
        ensures
            r.len() == self@.len(),
            forall|i: int| 0 <= i < r.len() ==> (#[trigger] r@[i])@ == i,
    {
        let mut r: Vec<Driver> = Vec::new();
        let mut i: usize = 0;
        while i < self.drivers.len()
            invariant
                i <= self.drivers.len(),
                r.len() == i,
                forall|j: int| 0 <= j < i ==> (#[trigger] r@[j])@ == j,
            decreases self.drivers.len() - i,
        {
            r.push(Driver::new(i));
            i = i + 1;
        }
        r
    }

    /// The package of the driver `drv`; an id that was never loaded is an error.
    pub fn get_data(&self, drv: &Driver) -> (r: Result<&DriverData, DriverNotFoundError>)
        ensures
            (r is Ok) == (drv@ < self@.len()),
            r matches Ok(d) ==> d@ == self@[drv@ as int],
    {
        let id = drv.index();
        if id < self.drivers.len() {
            Ok(&self.drivers[id])
        } else {
            Err(DriverNotFoundError)
        }
    }

    /// Whether the references of every schema of every driver end.
    pub fn schemas_refs_terminate(&self) -> (r: bool)
        ensures
            r == drivers_refs_terminate(self@),
    {
        let ghost ds = self@;
        let mut i: usize = 0;
        while i < self.drivers.len()
            invariant
                i <= self.drivers.len(),
                ds == self@,
                ds == drivers_view(self.drivers@),
                forall|k: int| 0 <= k < i ==> entries_refs_terminate(#[trigger] ds[k].schemas),
            decreases self.drivers.len() - i,
        {
            assert(ds[i as int] == self.drivers@[i as int]@);
            if !self.drivers[i].schemas_refs_terminate() {
                return false;
            }
            i = i + 1;
        }
        true
    }

    /// The drivers that conform to `spec` and accept `conf`, in order of id;
    /// `None` when a conforming driver has a schema that does not compile.
    pub fn try_suitable_drivers(&self, spec: &DriverSpec, conf: &Vec<(String, Json)>) -> (r: Option<Vec<Driver>>)
        requires
            config_wf(conf@),
            drivers_refs_terminate(self@),
        ensures
            (r is None) == some_check_fails(self@, spec@, conf@),
            r matches Some(v) ==> v@.map_values(|d: Driver| d@ as int) == suitable_ids(self@, spec@, conf@),
    {
        let ghost ds = self@;
        let mut r: Vec<Driver> = Vec::new();
        let mut failed = false;
        let mut i: usize = 0;
        assert(ds.take(0) =~= Seq::<DriverDataView>::empty());
        assert(r@.map_values(|d: Driver| d@ as int) =~= Seq::<int>::empty());
        while i < self.drivers.len()
            invariant
                i <= self.drivers.len(),
                ds == self@,
                ds == drivers_view(self.drivers@),
                config_wf(conf@),
                drivers_refs_terminate(ds),
                r@.map_values(|d: Driver| d@ as int) == suitable_ids(ds.take(i as int), spec@, conf@),
                failed == some_check_fails(ds.take(i as int), spec@, conf@),
            decreases self.drivers.len() - i,
        {
            let ghost prefix = ds.take(i as int);
            let ghost next = ds.take(i + 1);
            assert(next.drop_last() =~= prefix);
            assert(next.last() == self.drivers@[i as int]@);
            let data = &self.drivers[i];
            if spec.is_conforming(data) {
                match data.try_validate_config(conf) {
                    Some(true) => {
                        let ghost before = r@.map_values(|d: Driver| d@ as int);
                        r.push(Driver::new(i));
                        assert(r@.map_values(|d: Driver| d@ as int) =~= before.push(i as int));
                    },
                    Some(false) => {},
                    None => {
                        failed = true;
                    },
                }
            }
            proof {
                assert forall|j: int| 0 <= j < prefix.len() implies #[trigger] next[j] == prefix[j] by {}
                if some_check_fails(next, spec@, conf@) && !some_check_fails(prefix, spec@, conf@) {
                    let j = choose|j: int| 0 <= j < next.len() && conforms(spec@, #[trigger] next[j])
                        && config_verdict(conf@, driver_check(next[j].schemas)) is None;
                    assert(j == i);
                }
                if some_check_fails(prefix, spec@, conf@) {
                    let j = choose|j: int| 0 <= j < prefix.len() && conforms(spec@, #[trigger] prefix[j])
                        && config_verdict(conf@, driver_check(prefix[j].schemas)) is None;
                    assert(next[j] == prefix[j]);
                }
            }
            i = i + 1;
        }
        assert(ds.take(i as int) =~= ds);
        if failed {
            None
        } else {
            Some(r)
        }
    }

    /// The drivers that conform to `spec` and accept `conf`, in order of id.
    pub fn suitable_drivers(&self, spec: &DriverSpec, conf: &Vec<(String, Json)>) -> (r: Vec<Driver>)
        requires
            config_wf(conf@),
            drivers_refs_terminate(self@),
            !some_check_fails(self@, spec@, conf@),
        ensures
            r@.map_values(|d: Driver| d@ as int) == suitable_ids(self@, spec@, conf@),
    {
        match self.try_suitable_drivers(spec, conf) {
            Some(v) => v,
            None => Vec::new(),
        }
    }
}

} // verus!
