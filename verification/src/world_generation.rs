//! World-generation versioning shared with the save format.

use vstd::prelude::*;

verus! {

/// Version of the deterministic world-generation algorithm compiled into
/// this build. A save records the value it was written with, so a loader can
/// tell whether unvisited terrain would regenerate identically.
pub const GENERATION_VERSION: u32 = 1;

} // verus!
