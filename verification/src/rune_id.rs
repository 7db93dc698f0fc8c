//! The identifier of a rune: the block and the place in that block of the
//! transaction that etched it.

use vstd::prelude::*;

verus! {

/// A rune's identifier. Identifiers are ordered by block, then by `tx`.
#[derive(Clone, Copy, Debug, PartialEq, Eq, Structural, PartialOrd, Ord, Hash)]
pub struct RuneId {
    pub block: u64,
    pub tx: u32,
}

impl Default for RuneId {
    fn default() -> (r: RuneId)
        ensures
            r == (RuneId { block: 0, tx: 0 }),
    {
        RuneId { block: 0, tx: 0 }
    }
}

impl RuneId {
    /// No transaction of block zero but the first can be named.
    pub open spec fn well_formed(self) -> bool {
        self.block > 0 || self.tx == 0
    }

    /// The order of identifiers: `self` is `other` or comes before it.
    pub open spec fn spec_le(self, other: RuneId) -> bool {
        self.block < other.block || (self.block == other.block && self.tx <= other.tx)
    }

    /// The step from `self` forward to `next`: the difference of the blocks,
    /// and `next.tx` itself, or the difference of the two `tx` where the
    /// blocks are equal. There is none where `next` comes before `self`.
    pub open spec fn spec_delta(self, next: RuneId) -> Option<(u128, u128)> {
        if !self.spec_le(next) {
            None
        } else if self.block == next.block {
            Some((0u128, (next.tx - self.tx) as u128))
        } else {
            Some(((next.block - self.block) as u128, next.tx as u128))
        }
    }

    /// The identifier a step away from `self`, where the step stays within
    /// 64 and 32 bits and leads to a well-formed identifier.
    pub open spec fn spec_next(self, block: u128, tx: u128) -> Option<RuneId> {
        let next_block = self.block + block;
        let next_tx = if block == 0 {
            self.tx + tx
        } else {
            tx as int
        };
        if next_block > u64::MAX || next_tx > u32::MAX || (next_block == 0 && next_tx > 0) {
            None
        } else {
            Some(RuneId { block: next_block as u64, tx: next_tx as u32 })
        }
    }

    /// The identifier `(block, tx)`, if it is well formed.
    pub fn new(block: u64, tx: u32) -> (r: Option<RuneId>)
        ensures
            r == if block == 0 && tx > 0 {
                None
            } else {
                Some(RuneId { block, tx })
            },
            r matches Some(id) ==> id.well_formed(),
    {
        if block == 0 && tx > 0 {
            return None;
        }
        Some(RuneId { block, tx })
    }

    /// Whether `self` is `other` or comes before it.
    pub fn le(self, other: RuneId) -> (r: bool)
        ensures
            r == self.spec_le(other),
    {
        self.block < other.block || (self.block == other.block && self.tx <= other.tx)
    }

    /// The step from `self` forward to `next`, or `None` where `next` comes
    /// before `self`.
    pub fn delta(self, next: RuneId) -> (r: Option<(u128, u128)>)
        ensures
            r == self.spec_delta(next),
    {
        if next.block < self.block {
            return None;
        }
        let block: u64 = next.block - self.block;
        let tx: u32 = if block == 0 {
            if next.tx < self.tx {
                return None;
            }
            next.tx - self.tx
        } else {
            next.tx
        };
        Some((block as u128, tx as u128))
    }

    /// The identifier a step away from `self`, or `None` where the step
    /// leaves the range or leads to an identifier that is not well formed.
    pub fn next(self, block: u128, tx: u128) -> (r: Option<RuneId>)
        ensures
            r == self.spec_next(block, tx),
    {
        if block > u64::MAX as u128 || tx > u32::MAX as u128 {
            return None;
        }
        let next_block: u64 = match self.block.checked_add(block as u64) {
            Some(b) => b,
            None => {
                return None;
            },
        };
        let next_tx: u32 = if block == 0 {
            match self.tx.checked_add(tx as u32) {
                Some(t) => t,
                None => {
                    return None;
                },
            }
        } else {
            tx as u32
        };
        RuneId::new(next_block, next_tx)
    }

    /// A step forward and back: `next` undoes `delta`.
    pub proof fn lemma_next_of_delta(self, later: RuneId)
        requires
            self.spec_le(later),
            later.well_formed(),
        ensures
            self.spec_delta(later) matches Some(step) && self.spec_next(step.0, step.1) == Some(
                later,
            ),
    {
    }

    /// A step that `next` takes is the step that `delta` finds.
    pub proof fn lemma_delta_of_next(self, block: u128, tx: u128)
        requires
            self.spec_next(block, tx) is Some,
        ensures
            self.spec_le(self.spec_next(block, tx)->0),
            self.spec_delta(self.spec_next(block, tx)->0) == Some((block, tx)),
    {
    }

    /// The order is total: it is reflexive, transitive and antisymmetric,
    /// and any two identifiers compare.
    pub proof fn lemma_order_is_total(a: RuneId, b: RuneId, c: RuneId)
        ensures
            a.spec_le(a),
            a.spec_le(b) || b.spec_le(a),
            a.spec_le(b) && b.spec_le(a) ==> a == b,
            a.spec_le(b) && b.spec_le(c) ==> a.spec_le(c),
    {
    }
}

} // verus!
