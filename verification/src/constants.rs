use vstd::prelude::*;

verus! {

/// Number of calls of the instance the program is configured for.
pub const NCALLS: usize = 130;

/// Number of vehicles of the instance the program is configured for.
pub const NVEHICLES: usize = 40;

/// Number of nodes of every instance: the travel tables always cover 39 nodes.
pub const NNODES: usize = 39;

/// How long the search may run to find a better solution.
pub const MAX_RUNTIME_IN_SECONDS: u64 = 0;

/// Number of searches that run side by side.
pub const N_THREADS: usize = 8;

/// Length of a solution: every call is picked up and delivered.
pub const SOLUTION_SIZE: usize = 260;

} // verus!
