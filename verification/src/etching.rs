//! The creation of a rune.

use vstd::prelude::*;
use crate::rune::Rune;
use crate::terms::Terms;

verus! {

/// What a runestone says of the rune that it etches.
#[derive(Clone, Copy, Debug, PartialEq, Eq)]
pub struct Etching {
    pub divisibility: Option<u8>,
    pub premine: Option<u128>,
    pub rune: Option<Rune>,
    pub spacers: Option<u32>,
    pub symbol: Option<char>,
    pub terms: Option<Terms>,
    pub turbo: bool,
}

impl Default for Etching {
    fn default() -> (r: Etching)
        ensures
            r == (Etching {
                divisibility: None,
                premine: None,
                rune: None,
                spacers: None,
                symbol: None,
                terms: None,
                turbo: false,
            }),
    {
        Etching {
            divisibility: None,
            premine: None,
            rune: None,
            spacers: None,
            symbol: None,
            terms: None,
            turbo: false,
        }
    }
}

impl Etching {
    /// The most decimal places that an amount can have.
    pub const MAX_DIVISIBILITY: u8 = 38;

    /// The spacers between the letters of the longest name: 27 bits.
    pub const MAX_SPACERS: u32 = 0b00000111_11111111_11111111_11111111;

    /// The premine, or 0.
    pub open spec fn spec_premine(self) -> nat {
        match self.premine {
            Some(p) => p as nat,
            None => 0,
        }
    }

    /// The number of mints, or 0.
    pub open spec fn spec_cap(self) -> nat {
        match self.terms {
            Some(Terms { cap: Some(c), .. }) => c as nat,
            _ => 0,
        }
    }

    /// What each mint gives, or 0.
    pub open spec fn spec_amount(self) -> nat {
        match self.terms {
            Some(Terms { amount: Some(a), .. }) => a as nat,
            _ => 0,
        }
    }

    /// All that can ever exist of the rune: the premine and every mint.
    pub open spec fn spec_supply(self) -> nat {
        self.spec_premine() + self.spec_cap() * self.spec_amount()
    }

    /// All that can ever exist of the rune, or `None` where that exceeds
    /// 128 bits.
    pub fn supply(&self) -> (r: Option<u128>)
        ensures
            r == if self.spec_supply() <= u128::MAX {
                Some(self.spec_supply() as u128)
            } else {
                None
            },
    {
        let premine: u128 = match self.premine {
            Some(p) => p,
            None => 0,
        };
        let cap: u128 = match self.terms {
            Some(Terms { cap: Some(c), .. }) => c,
            _ => 0,
        };
        let amount: u128 = match self.terms {
            Some(Terms { amount: Some(a), .. }) => a,
            _ => 0,
        };
        match cap.checked_mul(amount) {
            Some(minted) => premine.checked_add(minted),
            None => None,
        }
    }
}

} // verus!
