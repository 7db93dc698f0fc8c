//! Transactions and scripts as this library sees them: through the
//! instructions that a script reader yields.

use vstd::prelude::*;

verus! {

/// One instruction of a script.
#[derive(Clone, Debug, PartialEq, Eq)]
pub enum Instruction {
    /// An opcode that pushes no data.
    Op(u8),
    /// A push of these bytes.
    PushBytes(Vec<u8>),
}

/// The view of an instruction.
pub enum InstructionView {
    Op(u8),
    PushBytes(Seq<u8>),
}

impl View for Instruction {
    type V = InstructionView;

    open spec fn view(&self) -> InstructionView {
        match self {
            Instruction::Op(op) => InstructionView::Op(*op),
            Instruction::PushBytes(bytes) => InstructionView::PushBytes(bytes@),
        }
    }
}

/// The views of `instructions`.
pub open spec fn instructions_view(instructions: Seq<Instruction>) -> Seq<InstructionView> {
    Seq::new(instructions.len(), |i: int| instructions[i]@)
}

/// What a script reader yields for one script: the instructions it read, in
/// order, and whether it then met bytes that are no instruction.
#[derive(Clone, Debug, PartialEq, Eq)]
pub struct Script {
    pub instructions: Vec<Instruction>,
    pub malformed: bool,
}

/// The view of a script.
pub struct ScriptView {
    pub instructions: Seq<InstructionView>,
    pub malformed: bool,
}

impl View for Script {
    type V = ScriptView;

    open spec fn view(&self) -> ScriptView {
        ScriptView {
            instructions: instructions_view(self.instructions@),
            malformed: self.malformed,
        }
    }
}

/// A transaction, by the scripts of its outputs.
#[derive(Clone, Debug, PartialEq, Eq)]
pub struct Transaction {
    pub output: Vec<Script>,
}

impl View for Transaction {
    type V = Seq<ScriptView>;

    open spec fn view(&self) -> Seq<ScriptView> {
        Seq::new(self.output@.len(), |i: int| self.output@[i]@)
    }
}

} // verus!
