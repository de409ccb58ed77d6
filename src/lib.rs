use vstd::prelude::*;

pub mod memory;
pub mod server;
pub mod tune;
pub mod runtime;
pub mod client;

verus! {

/// Number of tasks batched before a forced flush, when nothing else is configured.
pub const DEFAULT_MAX_TASKS: usize = 64;

} // verus!
