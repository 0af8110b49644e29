//! Incremental extraction and reconciliation of shared music-track links.
//!
//! The library scans message records from a local store for track links of a
//! music service, extracts the unique track references in chronological
//! order, tracks a checkpoint so that repeated runs are idempotent, and plans
//! the reconciliation of the extracted references against the current
//! contents of a remote playlist.  Every function here is verified; the I/O
//! around it (the message database, the remote playlist service, the
//! checkpoint file) lives outside the library and hands it plain values.

pub mod checkpoint;
pub mod extraction;
pub mod messages;
pub mod payload;
pub mod playlist;

use vstd::prelude::*;

verus! {

/// Adds two numbers.
pub fn add(a: i32, b: i32) -> (r: i32)
    requires
        i32::MIN <= a + b <= i32::MAX,
    ensures
        r == a + b,
{
    a + b
}

} // verus!
