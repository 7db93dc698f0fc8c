//! The reasons for which a runestone is rejected.

use vstd::prelude::*;

verus! {

/// What is wrong with a runestone that turns it into a cenotaph.
#[derive(Clone, Copy, Debug, PartialEq, Eq, Structural, Hash)]
pub enum Flaw {
    /// An edict's output does not have 32 bits.
    EdictOutput,
    /// An edict's identifier leaves the range or is not well formed.
    EdictRuneId,
    /// The script after the protocol's opcodes could not be read.
    InvalidScript,
    /// An opcode that pushes no data follows the protocol's opcodes.
    Opcode,
    /// Premine and mints together exceed 128 bits.
    SupplyOverflow,
    /// The integers after the body tag do not come in fours.
    TrailingIntegers,
    /// A tag is the last integer, without a value.
    TruncatedField,
    /// An even tag that this decoder does not know, or could not take.
    UnrecognizedEvenTag,
    /// A flag that this decoder does not know.
    UnrecognizedFlag,
    /// The payload is not a sequence of varints.
    Varint,
}

} // verus!
