use vstd::prelude::*;

use super::mount::{lt_prefix, mount_node, paths_of, MountPoint, MountTable};
use crate::devices::{handlers_map, DeviceHandlers};
use crate::error::{Error, FsError};
use vstd::string::StringSliceAdditionalSpecFns;

verus! {

/// A file system driver: it finds the root node of the file system on a device. Drivers
/// implement it.
pub trait FsDriver<N> {
    /// The root node of the file system on the device `device`, or why there is none.
    fn get_root_node(&self, device: usize) -> (r: Result<N, Error>);
}

/// Register the driver numbered `driver` for the file systems of type `fs_type`, in place of
/// the one registered before, if any.
pub fn register_driver(drivers: &mut DeviceHandlers, fs_type: &'static str, driver: usize)
    ensures
        handlers_map(*final(drivers)) == handlers_map(*old(drivers)).insert(fs_type.spec_bytes(), driver),
{
    drivers.insert(fs_type, driver);
}

/// The number of the driver of the file systems of type `fs_type`, if one is registered.
pub fn get_driver_for_type(drivers: &DeviceHandlers, fs_type: &str) -> (r: Option<usize>)
    ensures
        r == if handlers_map(*drivers).contains_key(fs_type.spec_bytes()) {
            Some(handlers_map(*drivers)[fs_type.spec_bytes()])
        } else {
            None
        },
{
    drivers.get(fs_type)
}

/// The error of a file system type that no driver handles.
pub open spec fn unknown_type_message(fs_type: Seq<char>) -> Seq<char> {
    "Unknown filesystem type: "@ + fs_type
}

/// Mount at `path` the file system of type `fs_type` on the device `device`: the driver
/// registered for the type (its number indexes `impls`) gives the root node, which is mounted
/// as `mount_node` does. An unknown type, an error of the driver or a path already mounted
/// stops it, the table left as it is.
pub fn mount_device<N: Copy, D: FsDriver<N>>(
    table: &mut MountTable<N>,
    drivers: &DeviceHandlers,
    impls: &Vec<D>,
    path: &'static str,
    device: usize,
    fs_type: &str,
) -> (r: Result<(), Error>)
    requires
        old(table).wf(),
    ensures
        final(table).wf(),
        !handlers_map(*drivers).contains_key(fs_type.spec_bytes()) ==> (r matches Err(Error::Fs(
            FsError::Custom(s),
        )) && s@ == unknown_type_message(fs_type@)) && final(table)@ == old(table)@,
        handlers_map(*drivers).contains_key(fs_type.spec_bytes()) && handlers_map(*drivers)[fs_type.spec_bytes()]
            >= impls@.len() ==> (r matches Err(Error::Fs(FsError::NotFound))) && final(table)@ == old(table)@,
        r is Err ==> final(table)@ == old(table)@,
        r is Ok ==> paths_of(old(table)@).contains(path.spec_bytes()) == false && exists|root: N|
            final(table)@ == old(table)@.insert(
                lt_prefix(paths_of(old(table)@), path.spec_bytes()) as int,
                MountPoint { path, node: root },
            ),
{
    let driver = match get_driver_for_type(drivers, fs_type) {
        Some(d) => d,
        None => {
            let mut message = String::from_str("Unknown filesystem type: ");
            message.append(fs_type);
            return Err(Error::Fs(FsError::Custom(message)));
        },
    };
    if driver >= impls.len() {
        return Err(Error::Fs(FsError::NotFound));
    }
    let root = impls[driver].get_root_node(device)?;
    mount_node(table, path, root)
}

} // verus!
