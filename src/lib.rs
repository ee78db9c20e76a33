//! A small content-addressed object store with a sorted, checksummed
//! staging index, in the manner of a version-control system's plumbing.

use vstd::prelude::*;

pub mod bytes;
pub mod digest;
pub mod error;
pub mod index;
pub mod object;
pub mod store;

verus! {

} // verus!
