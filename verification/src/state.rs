//! Cell state constants for multi-state automata.

use vstd::prelude::*;

verus! {

/// Dead / empty.
pub const DEAD: u8 = 0;

/// Live (binary) or firing (Brian's Brain).
pub const LIVE: u8 = 1;

/// Refractory (Brian's Brain only).
pub const REFRACTORY: u8 = 2;

} // verus!
