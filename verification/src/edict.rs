//! A transfer of runes to an output.

use vstd::prelude::*;
use crate::rune_id::RuneId;

verus! {

/// Moves `amount` of the rune `id` to the output of index `output`.
#[derive(Clone, Copy, Debug, PartialEq, Eq)]
pub struct Edict {
    pub id: RuneId,
    pub amount: u128,
    pub output: u32,
}

impl Default for Edict {
    fn default() -> (r: Edict)
        ensures
            r == (Edict { id: RuneId { block: 0, tx: 0 }, amount: 0, output: 0 }),
    {
        Edict { id: RuneId { block: 0, tx: 0 }, amount: 0, output: 0 }
    }
}

impl Edict {
    /// The edict that the integers spell, where the output has 32 bits.
    pub open spec fn spec_from_integers(id: RuneId, amount: u128, output: u128) -> Option<Edict> {
        if output <= u32::MAX {
            Some(Edict { id, amount, output: output as u32 })
        } else {
            None
        }
    }

    /// The edict that the integers spell, or `None` where the output does
    /// not have 32 bits. Whether the transaction has such an output is not
    /// looked at.
    pub fn from_integers(id: RuneId, amount: u128, output: u128) -> (r: Option<Edict>)
        ensures
            r == Edict::spec_from_integers(id, amount, output),
    {
        if output > u32::MAX as u128 {
            return None;
        }
        Some(Edict { id, amount, output: output as u32 })
    }
}

} // verus!
