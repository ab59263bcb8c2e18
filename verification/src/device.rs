use vstd::prelude::*;

verus! {

/// A detected device, known by its id.
#[derive(Debug, Clone, Copy, PartialEq, Eq, Hash, Structural)]
pub struct Device(usize);

impl View for Device {
    type V = usize;

    closed spec fn view(&self) -> usize {
        self.0
    }
}

/// Two devices are equal exactly when their ids are, so `Device::with_id` gives equal
/// values for equal ids and distinct values for distinct ones.
pub proof fn lemma_device_eq(a: Device, b: Device)
    ensures
        (a == b) == (a@ == b@),
{
}

impl Device {
    /// The device with the given id.
    pub fn with_id(id: usize) -> (r: Self)
        ensures
            r@ == id,
    {
        Device(id)
    }

    /// The id of this device.
    pub fn id(&self) -> (r: usize)
        ensures
            r == self@,
    {
        self.0
    }
}

/// A peripheral interface: its name and speed.
pub trait Interface {
    fn name(&self) -> String;

    fn speed(&self) -> u32;

    fn set_speed(&self);
}

} // verus!
