//! The player's vitals.

use vstd::prelude::*;
use crate::entity::ONE_BITS;

verus! {

/// Whether the single-precision number with these bits is greater than zero:
/// the sign bit is clear, the number is not zero and it is not a NaN.
pub open spec fn positive(bits: u32) -> bool {
    0 < bits <= 0x7F80_0000u32
}

/// What the player entity carries. Both values are normalized to the range
/// from 0 to 1 by whoever writes them, and are held as the bit patterns of
/// single-precision floats.
#[derive(Clone, Copy, Debug, PartialEq, Eq, Structural)]
pub struct Player {
    pub health: u32,
    pub hallucination_severity: u32,
}

impl Default for Player {
    /// Full health, no hallucination.
    fn default() -> (p: Player)
        ensures
            p == (Player { health: ONE_BITS, hallucination_severity: 0 }),
    {
        Player { health: ONE_BITS, hallucination_severity: 0 }
    }
}

impl Player {
    /// The player lives as long as the health is above zero.
    pub fn is_alive(&self) -> (alive: bool)
        ensures
            alive == positive(self.health),
    {
        0 < self.health && self.health <= 0x7F80_0000u32
    }
}

} // verus!
