//! Block devices as a topology listing describes them: a tree of devices,
//! each with its capacity in bytes.

use vstd::prelude::*;
use crate::error::UtilsError;
use crate::size::{capacity_of, parse_capacity, saturated};

verus! {

/// A block device of a topology listing.
#[derive(Debug)]
pub struct Device {
    pub name: String,
    /// The major and the minor number, as `maj:min`.
    pub maj_min: String,
    /// The capacity in bytes.
    pub size: u64,
    /// Whether the device is read-only.
    pub ro: bool,
    pub d_type: String,
    /// Where the device is mounted; an entry may hold no path.
    pub mountpoints: Vec<Option<String>>,
    /// The devices below this one, in the order of the listing.
    pub children: Vec<Device>,
}

impl Device {
    /// The device with the given fields, its capacity read from `size`; an
    /// error where `size` writes no capacity.
    pub fn new(
        name: String,
        maj_min: String,
        size: &str,
        ro: bool,
        d_type: String,
        mountpoints: Vec<Option<String>>,
        children: Vec<Device>,
    ) -> (r: Result<Device, UtilsError>)
        ensures
            match capacity_of(size@) {
                Some(n) => r matches Ok(d) && d.name == name && d.maj_min == maj_min && d.size
                    == saturated(n) && d.ro == ro && d.d_type == d_type && d.mountpoints
                    == mountpoints && d.children == children,
                None => r matches Err(UtilsError::BlockError(m)) && m@ == "invalid size: "@
                    + size@,
            },
    {
        match parse_capacity(size) {
            Ok(bytes) => Ok(Device { name, maj_min, size: bytes, ro, d_type, mountpoints, children }),
            Err(e) => Err(e),
        }
    }
}

/// A topology listing: the devices at the top of the tree.
#[derive(Debug)]
pub struct Block {
    pub blockdevices: Vec<Device>,
}

} // verus!
