//! The bits of the flags field.

use vstd::prelude::*;

verus! {

/// A bit of the flags field.
#[derive(Clone, Copy, Debug, PartialEq, Eq, Structural)]
pub enum Flag {
    /// The runestone etches a rune. Bit 0.
    Etching,
    /// The etching has open mint terms. Bit 1.
    Terms,
    /// The etching opts in to future protocol changes. Bit 2.
    Turbo,
    /// Set by no valid runestone. Bit 127.
    Cenotaph,
}

impl Flag {
    /// The field with only this flag's bit set.
    pub open spec fn spec_mask(self) -> u128 {
        match self {
            Flag::Etching => 1u128,
            Flag::Terms => 2u128,
            Flag::Turbo => 4u128,
            Flag::Cenotaph => 0x8000_0000_0000_0000_0000_0000_0000_0000u128,
        }
    }

    /// The field with only this flag's bit set.
    pub fn mask(self) -> (m: u128)
        ensures
            m == self.spec_mask(),
    {
        match self {
            Flag::Etching => 1u128,
            Flag::Terms => 2u128,
            Flag::Turbo => 4u128,
            Flag::Cenotaph => 0x8000_0000_0000_0000_0000_0000_0000_0000u128,
        }
    }

    /// Clears this flag in `flags` and says whether it was set.
    pub fn take(self, flags: &mut u128) -> (set: bool)
        ensures
            set == (*old(flags) & self.spec_mask() != 0),
            *final(flags) == *old(flags) & !self.spec_mask(),
    {
        let mask: u128 = self.mask();
        let set: bool = *flags & mask != 0;
        *flags = *flags & !mask;
        set
    }

    /// Sets this flag in `flags`.
    pub fn set(self, flags: &mut u128)
        ensures
            *final(flags) == *old(flags) | self.spec_mask(),
    {
        *flags = *flags | self.mask();
    }

    /// A flag that was set is taken once, and taking it leaves the other
    /// bits as they were.
    pub proof fn lemma_take_after_set(self, flags: u128)
        ensures
            (flags | self.spec_mask()) & self.spec_mask() != 0,
            (flags | self.spec_mask()) & !self.spec_mask() == flags & !self.spec_mask(),
            (flags & !self.spec_mask()) & self.spec_mask() == 0,
    {
        let m = self.spec_mask();
        assert(m != 0);
        assert((flags | m) & m != 0) by (bit_vector)
            requires
                m != 0,
        ;
        assert((flags | m) & !m == flags & !m) by (bit_vector);
        assert((flags & !m) & m == 0) by (bit_vector);
    }
}

} // verus!
