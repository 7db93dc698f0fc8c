//! The terms of an open mint.

use vstd::prelude::*;

verus! {

/// How much each mint gives, how many mints there are, and when they are
/// open: between two block heights, and between two offsets from the block
/// of the etching. Every bound may be left open.
#[derive(Clone, Copy, Debug, PartialEq, Eq)]
pub struct Terms {
    pub amount: Option<u128>,
    pub cap: Option<u128>,
    pub height: (Option<u64>, Option<u64>),
    pub offset: (Option<u64>, Option<u64>),
}

impl Default for Terms {
    fn default() -> (r: Terms)
        ensures
            r == (Terms { amount: None, cap: None, height: (None, None), offset: (None, None) }),
    {
        Terms { amount: None, cap: None, height: (None, None), offset: (None, None) }
    }
}

} // verus!
