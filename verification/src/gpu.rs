//! What the hardware monitor reports about processes resident on a device.
//! Querying the hardware and delivering signals happen outside the library;
//! the enforcement decision over these records is made in [`crate::clobberd`].

use crate::comms::User;
use vstd::prelude::*;

verus! {

/// One process resident on a GPU, as the monitor reports it.
#[derive(Clone, Debug)]
pub struct GPUprocess {
    pub name: String,
    pub pid: usize,
    pub device_number: usize,
    pub user: User,
}

} // verus!
