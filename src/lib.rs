//! Zero-configuration peer discovery on a local network segment: the choice
//! of the local interface, the registry of discovered peers, and the
//! decisions taken on each received datagram and each sweep.

use vstd::prelude::*;

pub mod adapter;
pub mod addr;
pub mod config;
pub mod registry;

verus! {

} // verus!
