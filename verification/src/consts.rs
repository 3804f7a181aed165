//! Height limits the terrain rules depend on.
use vstd::prelude::*;

verus! {

/// Largest height that randomly generated floor tiles may take.
pub const MAX_FLOOR_HEIGHT: u8 = 2;

/// Hard ceiling: a tile whose effective height reaches this value is never
/// traversable, however small the height difference to its neighbor is.
pub const MAX_BRICK_HEIGHT: u8 = 4;

} // verus!
