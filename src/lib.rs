use vstd::prelude::*;

pub mod address;
pub mod batch;
pub mod state;
pub mod submit;
pub mod sync;

verus! {

/// Number of polling rounds after which synchronisation gives up.
pub const MAX_WAIT_COMMIT_ITERATIONS: u64 = 10_000;

} // verus!
