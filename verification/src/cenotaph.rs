//! What is left of a runestone that was rejected.

use vstd::prelude::*;
use crate::flaw::Flaw;
use crate::rune::Rune;
use crate::rune_id::RuneId;

verus! {

/// A rejected runestone. It keeps the name it would have etched and the
/// rune it would have minted, and moves nothing.
#[derive(Clone, Copy, Debug, PartialEq, Eq)]
pub struct Cenotaph {
    pub etching: Option<Rune>,
    pub flaw: Option<Flaw>,
    pub mint: Option<RuneId>,
}

impl Default for Cenotaph {
    fn default() -> (r: Cenotaph)
        ensures
            r == (Cenotaph { etching: None, flaw: None, mint: None }),
    {
        Cenotaph { etching: None, flaw: None, mint: None }
    }
}

} // verus!
