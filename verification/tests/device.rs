use peripherio::device::Device;
use peripherio::driver::Driver;

#[test]
fn device_keeps_its_id() {
    let d = Device::with_id(7);
    assert_eq!(d.id(), 7);
    assert_eq!(Device::with_id(7), d);
    assert_ne!(Device::with_id(8), d);
}

#[test]
fn drivers_with_equal_ids_are_equal() {
    assert_eq!(Driver::new(3), Driver::new(3));
    assert_ne!(Driver::new(3), Driver::new(4));
}
