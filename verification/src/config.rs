//! Constants shared by both tables.

use vstd::prelude::*;

verus! {

/// Control-byte group width; scans operate one group at a time.
pub const GROUP_SIZE_U32: u32 = 16;

/// [`GROUP_SIZE_U32`] as a slot count.
pub const GROUP_SIZE: usize = 16;

/// Alignment of the control-byte region, one cache line.
pub const CACHE_LINE: usize = 64;

/// First-allocation slot count when a map grows from empty.
pub const INITIAL_CAPACITY: usize = GROUP_SIZE;

} // verus!
