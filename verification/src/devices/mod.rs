use vstd::prelude::*;

pub mod gic_v2;
pub mod serial;

use crate::bus::pcie::PciDevice;
use vstd::string::StringSliceAdditionalSpecFns;

verus! {

/// The handlers of devices, by device type; a handler is known by its number.
#[verifier::external_body]
pub struct DeviceHandlers {
    map: hashbrown::HashMap<&'static str, usize>,
}

/// The handlers registered in `h`: device type (as bytes) to handler.
pub uninterp spec fn handlers_map(h: DeviceHandlers) -> Map<Seq<u8>, usize>;

impl DeviceHandlers {
    /// `hashbrown::HashMap::new`: no handler.
    #[verifier::external_body]
    pub fn new() -> (r: DeviceHandlers)
        ensures
            handlers_map(r).is_empty(),
    {
        DeviceHandlers { map: hashbrown::HashMap::new() }
    }

    /// `hashbrown::HashMap::contains_key`: whether a handler is registered for `device_type`.
    #[verifier::external_body]
    pub(crate) fn contains_key(&self, device_type: &str) -> (r: bool)
        ensures
            r == handlers_map(*self).contains_key(device_type.spec_bytes()),
    {
        self.map.contains_key(device_type)
    }

    /// `hashbrown::HashMap::insert`: `handler` becomes the handler of `device_type`.
    #[verifier::external_body]
    pub(crate) fn insert(&mut self, device_type: &'static str, handler: usize)
        ensures
            handlers_map(*final(self)) == handlers_map(*old(self)).insert(device_type.spec_bytes(), handler),
    {
        self.map.insert(device_type, handler);
    }

    /// `hashbrown::HashMap::get`: the handler of `device_type`, if any.
    #[verifier::external_body]
    pub(crate) fn get(&self, device_type: &str) -> (r: Option<usize>)
        ensures
            r == if handlers_map(*self).contains_key(device_type.spec_bytes()) {
                Some(handlers_map(*self)[device_type.spec_bytes()])
            } else {
                None
            },
    {
        self.map.get(device_type).copied()
    }
}

/// Register `handler` for the devices `device_type`. If there is already a handler, return
/// `Err(())` and leave the handlers as they are.
pub fn register_device_handler(handlers: &mut DeviceHandlers, device_type: &'static str, handler: usize) -> (r:
    Result<(), ()>)
    ensures
        handlers_map(*old(handlers)).contains_key(device_type.spec_bytes()) ==> r is Err && handlers_map(*final(handlers))
            == handlers_map(*old(handlers)),
        !handlers_map(*old(handlers)).contains_key(device_type.spec_bytes()) ==> r is Ok && handlers_map(*final(handlers))
            == handlers_map(*old(handlers)).insert(device_type.spec_bytes(), handler),
{
    if handlers.contains_key(device_type) {
        Err(())
    } else {
        handlers.insert(device_type, handler);
        Ok(())
    }
}

/// The handler to give the device `device` of type `device_type` to, if one is registered.
/// The handler is the entry point of a driver, which the caller calls with the device: a call
/// through a code address is not one that can be made or proved here.
pub fn register_device(handlers: &DeviceHandlers, device_type: &str, device: &PciDevice) -> (r: Option<usize>)
    ensures
        r == if handlers_map(*handlers).contains_key(device_type.spec_bytes()) {
            Some(handlers_map(*handlers)[device_type.spec_bytes()])
        } else {
            None
        },
{
    handlers.get(device_type)
}

} // verus!
