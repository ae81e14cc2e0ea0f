//! A change-detection job for a host's public IPv4 address.
//!
//! The crate owns the append-only, comma-delimited record store and the
//! decision logic of one reconciliation cycle: find the latest recorded
//! observation, compare it with the current address, and decide whether to
//! append a new row and notify. File and network I/O stay outside; the
//! library works on plain byte strings.

use vstd::prelude::*;

pub mod text;
pub mod addr;
pub mod timestamp;
pub mod store;
pub mod reconcile;
mod clock;

verus! {

} // verus!
