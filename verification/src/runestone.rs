//! Runestones, and their passage to and from the script of an output.

use vstd::prelude::*;
use vstd::slice::{slice_subrange, slice_to_vec};
use crate::artifact::{Artifact, ArtifactView};
use crate::cenotaph::Cenotaph;
use crate::edict::Edict;
use crate::etching::Etching;
use crate::flag::Flag;
use crate::flaw::Flaw;
use crate::message::{spec_from_integers, Message, MessageView};
use crate::rune::Rune;
use crate::rune_id::RuneId;
use crate::tag::{first_values, keyed, no_empty_queue, queues, without_first, Fields, Tag};
use crate::terms::Terms;
use crate::transaction::{
    instructions_view, Instruction, InstructionView, Script, ScriptView, Transaction,
};
use crate::varint;

verus! {

/// The opcode that marks an output as a carrier of data.
pub const OP_RETURN: u8 = 0x6a;

/// The most bytes that one push of a script may hold.
pub const MAX_SCRIPT_ELEMENT_SIZE: usize = 520;

/// A message of the protocol: transfers, and at most one etching, one mint
/// and one pointer to the output that takes what no edict moves.
#[derive(Clone, Debug, PartialEq, Eq)]
pub struct Runestone {
    pub edicts: Vec<Edict>,
    pub etching: Option<Etching>,
    pub mint: Option<RuneId>,
    pub pointer: Option<u32>,
}

/// The view of a runestone.
pub struct RunestoneView {
    pub edicts: Seq<Edict>,
    pub etching: Option<Etching>,
    pub mint: Option<RuneId>,
    pub pointer: Option<u32>,
}

impl View for Runestone {
    type V = RunestoneView;

    open spec fn view(&self) -> RunestoneView {
        RunestoneView {
            edicts: self.edicts@,
            etching: self.etching,
            mint: self.mint,
            pointer: self.pointer,
        }
    }
}

impl Default for Runestone {
    fn default() -> (r: Runestone)
        ensures
            r@ == (RunestoneView {
                edicts: Seq::empty(),
                etching: None,
                mint: None,
                pointer: None,
            }),
    {
        Runestone { edicts: Vec::new(), etching: None, mint: None, pointer: None }
    }
}

/// The bytes that a transaction carries for the protocol, or the flaw of
/// the script that carries them.
#[derive(Clone, Debug, PartialEq, Eq)]
pub enum Payload {
    Valid(Vec<u8>),
    Invalid(Flaw),
}

/// The view of a payload.
pub enum PayloadView {
    Valid(Seq<u8>),
    Invalid(Flaw),
}

impl View for Payload {
    type V = PayloadView;

    open spec fn view(&self) -> PayloadView {
        match self {
            Payload::Valid(bytes) => PayloadView::Valid(bytes@),
            Payload::Invalid(flaw) => PayloadView::Invalid(*flaw),
        }
    }
}

/// Whether a script starts with the two opcodes of the protocol.
pub open spec fn carries_runestone(script: ScriptView) -> bool {
    &&& script.instructions.len() >= 2
    &&& script.instructions[0] == InstructionView::Op(OP_RETURN)
    &&& script.instructions[1] == InstructionView::Op(Runestone::MAGIC_NUMBER)
}

/// The bytes of the pushes among `instructions`, one after the other.
pub open spec fn pushed(instructions: Seq<InstructionView>) -> Seq<u8>
    decreases instructions.len(),
{
    if instructions.len() == 0 {
        Seq::empty()
    } else {
        pushed(instructions.drop_last()) + match instructions.last() {
            InstructionView::PushBytes(bytes) => bytes,
            InstructionView::Op(_) => Seq::empty(),
        }
    }
}

/// The payload of a script that starts with the two opcodes of the
/// protocol: what it pushes after them. An opcode among the pushes is a
/// flaw, and so is, after pushes only, an end that cannot be read.
pub open spec fn script_payload(script: ScriptView) -> PayloadView {
    let data = script.instructions.skip(2);
    if exists|k: int| 0 <= k < data.len() && data[k] is Op {
        PayloadView::Invalid(Flaw::Opcode)
    } else if script.malformed {
        PayloadView::Invalid(Flaw::InvalidScript)
    } else {
        PayloadView::Valid(pushed(data))
    }
}

/// The payload of the first output whose script starts with the two
/// opcodes of the protocol, if there is such an output.
pub open spec fn spec_payload(outputs: Seq<ScriptView>) -> Option<PayloadView>
    decreases outputs.len(),
{
    if outputs.len() == 0 {
        None
    } else if carries_runestone(outputs[0]) {
        Some(script_payload(outputs[0]))
    } else {
        spec_payload(outputs.drop_first())
    }
}

/// `first` before the integers of `rest`, where there are any.
pub open spec fn prepended(first: Seq<u128>, rest: Result<Seq<u128>, varint::Error>) -> Result<
    Seq<u128>,
    varint::Error,
> {
    match rest {
        Ok(ints) => Ok(first + ints),
        Err(e) => Err(e),
    }
}

/// The integers that `bytes` hold as varints, one after the other, or the
/// reason why the first of them that cannot be read is no varint.
pub open spec fn spec_integers(bytes: Seq<u8>) -> Result<Seq<u128>, varint::Error>
    decreases bytes.len(),
{
    if bytes.len() == 0 {
        Ok(Seq::empty())
    } else {
        match varint::spec_decode(bytes) {
            Err(e) => Err(e),
            Ok((n, length)) => if 0 < length <= bytes.len() {
                prepended(seq![n], spec_integers(bytes.skip(length as int)))
            } else {
                Err(varint::Error::Unterminated)
            },
        }
    }
}

/// `std`'s `char::from_u32` gives the character with the scalar value `i`,
/// and none where `i` is a surrogate or beyond the last code point.
pub assume_specification[ char::from_u32 ](i: u32) -> (r: Option<char>)
    ensures
        r == if i <= 0xD7FF || 0xE000 <= i <= 0x10FFFF {
            Some(i as char)
        } else {
            None
        },
;

/// What `with` makes of the first `n` values under `tag`, where the field
/// has as many.
pub open spec fn taken<T>(
    fields: Map<u128, Seq<u128>>,
    tag: Tag,
    n: nat,
    with: spec_fn(Seq<u128>) -> Option<T>,
) -> Option<T> {
    match first_values(fields, tag.spec_key(), n) {
        Some(values) => with(values),
        None => None,
    }
}

/// The fields after a take of `n` values under `tag`: without the first
/// `n` values of that field, or without the field where it has no more.
pub open spec fn left(fields: Map<u128, Seq<u128>>, tag: Tag, n: nat) -> Map<u128, Seq<u128>> {
    if fields.contains_key(tag.spec_key()) {
        without_first(fields, tag.spec_key(), n)
    } else {
        fields
    }
}

/// Any integer is accepted as it is.
pub open spec fn spec_integer(values: Seq<u128>) -> Option<u128> {
    Some(values[0])
}

/// An integer of 64 bits is accepted.
pub open spec fn spec_u64(values: Seq<u128>) -> Option<u64> {
    if values[0] <= u64::MAX {
        Some(values[0] as u64)
    } else {
        None
    }
}

/// A divisibility up to the maximum is accepted.
pub open spec fn spec_divisibility(values: Seq<u128>) -> Option<u8> {
    if values[0] <= Etching::MAX_DIVISIBILITY {
        Some(values[0] as u8)
    } else {
        None
    }
}

/// Spacers up to the maximum are accepted.
pub open spec fn spec_spacers(values: Seq<u128>) -> Option<u32> {
    if values[0] <= Etching::MAX_SPACERS {
        Some(values[0] as u32)
    } else {
        None
    }
}

/// The scalar value of a character is accepted.
pub open spec fn spec_symbol(values: Seq<u128>) -> Option<char> {
    if values[0] <= 0xD7FF || 0xE000 <= values[0] <= 0x10FFFF {
        Some((values[0] as u32) as char)
    } else {
        None
    }
}

/// A block and a transaction that make a well-formed identifier are
/// accepted.
pub open spec fn spec_mint(values: Seq<u128>) -> Option<RuneId> {
    if values[0] <= u64::MAX && values[1] <= u32::MAX && !(values[0] == 0 && values[1] > 0) {
        Some(RuneId { block: values[0] as u64, tx: values[1] as u32 })
    } else {
        None
    }
}

/// The index of one of the transaction's `outputs` outputs is accepted.
pub open spec fn spec_pointer(outputs: nat, values: Seq<u128>) -> Option<u32> {
    if values[0] <= u32::MAX && values[0] < outputs {
        Some(values[0] as u32)
    } else {
        None
    }
}

/// The terms that the fields hold, and the fields that are left.
pub open spec fn spec_terms(fields: Map<u128, Seq<u128>>) -> (Terms, Map<u128, Seq<u128>>) {
    let integer = |v: Seq<u128>| spec_integer(v);
    let bounded = |v: Seq<u128>| spec_u64(v);
    let cap = taken(fields, Tag::Cap, 1, integer);
    let f1 = left(fields, Tag::Cap, 1);
    let height_start = taken(f1, Tag::HeightStart, 1, bounded);
    let f2 = left(f1, Tag::HeightStart, 1);
    let height_end = taken(f2, Tag::HeightEnd, 1, bounded);
    let f3 = left(f2, Tag::HeightEnd, 1);
    let amount = taken(f3, Tag::Amount, 1, integer);
    let f4 = left(f3, Tag::Amount, 1);
    let offset_start = taken(f4, Tag::OffsetStart, 1, bounded);
    let f5 = left(f4, Tag::OffsetStart, 1);
    let offset_end = taken(f5, Tag::OffsetEnd, 1, bounded);
    let f6 = left(f5, Tag::OffsetEnd, 1);
    (
        Terms {
            amount,
            cap,
            height: (height_start, height_end),
            offset: (offset_start, offset_end),
        },
        f6,
    )
}

/// The etching that the flags and the fields hold, with the flags and the
/// fields that are left. The flag of the etching itself is taken before.
pub open spec fn spec_etching(flags: u128, fields: Map<u128, Seq<u128>>) -> (
    Etching,
    u128,
    Map<u128, Seq<u128>>,
) {
    let integer = |v: Seq<u128>| spec_integer(v);
    let divisible = |v: Seq<u128>| spec_divisibility(v);
    let spaced = |v: Seq<u128>| spec_spacers(v);
    let scalar = |v: Seq<u128>| spec_symbol(v);
    let divisibility = taken(fields, Tag::Divisibility, 1, divisible);
    let f1 = left(fields, Tag::Divisibility, 1);
    let premine = taken(f1, Tag::Premine, 1, integer);
    let f2 = left(f1, Tag::Premine, 1);
    let rune = taken(f2, Tag::Rune, 1, integer);
    let f3 = left(f2, Tag::Rune, 1);
    let spacers = taken(f3, Tag::Spacers, 1, spaced);
    let f4 = left(f3, Tag::Spacers, 1);
    let symbol = taken(f4, Tag::Symbol, 1, scalar);
    let f5 = left(f4, Tag::Symbol, 1);
    let with_terms = flags & Flag::Terms.spec_mask() != 0;
    let flags1 = flags & !Flag::Terms.spec_mask();
    let terms = if with_terms {
        Some(spec_terms(f5).0)
    } else {
        None
    };
    let f6 = if with_terms {
        spec_terms(f5).1
    } else {
        f5
    };
    let turbo = flags1 & Flag::Turbo.spec_mask() != 0;
    let flags2 = flags1 & !Flag::Turbo.spec_mask();
    (
        Etching {
            divisibility,
            premine,
            rune: match rune {
                Some(n) => Some(Rune(n)),
                None => None,
            },
            spacers,
            symbol,
            terms,
            turbo,
        },
        flags2,
        f6,
    )
}

/// Whether a key that every reader must understand is left in the fields.
pub open spec fn even_key_left(fields: Map<u128, Seq<u128>>) -> bool {
    exists|key: u128| fields.contains_key(key) && key % 2 == 0
}

/// The flaw of a message, if it has one: the first of the flaw met while
/// reading, a supply beyond 128 bits, a flag that is left, and an even key
/// that is left.
pub open spec fn spec_flaw(
    first: Option<Flaw>,
    etching: Option<Etching>,
    flags: u128,
    fields: Map<u128, Seq<u128>>,
) -> Option<Flaw> {
    if first is Some {
        first
    } else if etching is Some && etching->0.spec_supply() > u128::MAX {
        Some(Flaw::SupplyOverflow)
    } else if flags != 0 {
        Some(Flaw::UnrecognizedFlag)
    } else if even_key_left(fields) {
        Some(Flaw::UnrecognizedEvenTag)
    } else {
        None
    }
}

/// What decoding takes from the fields of a message, and what it leaves.
pub struct Taken {
    pub etching: Option<Etching>,
    /// The flags that are left.
    pub flags: u128,
    pub mint: Option<RuneId>,
    pub pointer: Option<u32>,
    /// The fields that are left.
    pub fields: Map<u128, Seq<u128>>,
}

/// What is taken from the fields of a message found in a transaction of
/// `outputs` outputs: the flags, the etching where its flag is set, the
/// mint and the pointer, in this order.
#[verifier::opaque]
pub open spec fn spec_taken(outputs: nat, fields: Map<u128, Seq<u128>>) -> Taken {
    let integer = |v: Seq<u128>| spec_integer(v);
    let minted = |v: Seq<u128>| spec_mint(v);
    let pointed = |v: Seq<u128>| spec_pointer(outputs, v);
    let flags0 = match taken(fields, Tag::Flags, 1, integer) {
        Some(flags) => flags,
        None => 0u128,
    };
    let f0 = left(fields, Tag::Flags, 1);
    let etches = flags0 & Flag::Etching.spec_mask() != 0;
    let flags1 = flags0 & !Flag::Etching.spec_mask();
    let etching = if etches {
        Some(spec_etching(flags1, f0).0)
    } else {
        None
    };
    let flags2 = if etches {
        spec_etching(flags1, f0).1
    } else {
        flags1
    };
    let f1 = if etches {
        spec_etching(flags1, f0).2
    } else {
        f0
    };
    let mint = taken(f1, Tag::Mint, 2, minted);
    let f2 = left(f1, Tag::Mint, 2);
    let pointer = taken(f2, Tag::Pointer, 1, pointed);
    let f3 = left(f2, Tag::Pointer, 1);
    Taken { etching, flags: flags2, mint, pointer, fields: f3 }
}

/// What a message found in a transaction of `outputs` outputs amounts to.
///
/// A message with a flaw is a cenotaph, which keeps the flaw, the mint and
/// the etched name and nothing else. A message without one is a runestone
/// of all that was taken from its fields, and of its edicts.
pub open spec fn spec_artifact(outputs: nat, message: MessageView) -> ArtifactView {
    let parts = spec_taken(outputs, message.fields);
    let flaw = spec_flaw(message.flaw, parts.etching, parts.flags, parts.fields);
    if flaw is Some {
        ArtifactView::Cenotaph(
            Cenotaph {
                etching: match parts.etching {
                    Some(e) => e.rune,
                    None => None,
                },
                flaw,
                mint: parts.mint,
            },
        )
    } else {
        ArtifactView::Runestone(
            RunestoneView {
                edicts: message.edicts,
                etching: parts.etching,
                mint: parts.mint,
                pointer: parts.pointer,
            },
        )
    }
}

/// What the outputs of a transaction amount to: nothing where no script
/// carries a payload; a cenotaph with nothing but the flaw where the script
/// or the varints cannot be read; else what the message amounts to.
pub open spec fn spec_decipher(outputs: Seq<ScriptView>) -> Option<ArtifactView> {
    match spec_payload(outputs) {
        None => None,
        Some(PayloadView::Invalid(flaw)) => Some(
            ArtifactView::Cenotaph(Cenotaph { etching: None, flaw: Some(flaw), mint: None }),
        ),
        Some(PayloadView::Valid(bytes)) => match spec_integers(bytes) {
            Err(_) => Some(
                ArtifactView::Cenotaph(
                    Cenotaph { etching: None, flaw: Some(Flaw::Varint), mint: None },
                ),
            ),
            Ok(ints) => Some(
                spec_artifact(outputs.len(), spec_from_integers(ints)),
            ),
        },
    }
}

/// The view of an artifact, or of none.
pub open spec fn artifact_view(artifact: Option<Artifact>) -> Option<ArtifactView> {
    match artifact {
        Some(a) => Some(a@),
        None => None,
    }
}

/// The key of `tag` and the value, where there is one.
pub open spec fn field(tag: Tag, value: Option<u128>) -> Seq<u128> {
    match value {
        Some(v) => seq![tag.spec_key(), v],
        None => Seq::empty(),
    }
}

/// A bounded integer as one of 128 bits.
pub open spec fn wide(value: Option<u64>) -> Option<u128> {
    match value {
        Some(v) => Some(v as u128),
        None => None,
    }
}

/// The flags of a runestone that etches `etching`.
pub open spec fn spec_flags(etching: Etching) -> u128 {
    let etches = 0u128 | Flag::Etching.spec_mask();
    let with_terms = if etching.terms is Some {
        etches | Flag::Terms.spec_mask()
    } else {
        etches
    };
    if etching.turbo {
        with_terms | Flag::Turbo.spec_mask()
    } else {
        with_terms
    }
}

/// The fields of the terms of a mint.
pub open spec fn terms_integers(terms: Terms) -> Seq<u128> {
    field(Tag::Amount, terms.amount) + field(Tag::Cap, terms.cap) + field(
        Tag::HeightStart,
        wide(terms.height.0),
    ) + field(Tag::HeightEnd, wide(terms.height.1)) + field(
        Tag::OffsetStart,
        wide(terms.offset.0),
    ) + field(Tag::OffsetEnd, wide(terms.offset.1))
}

/// The fields of an etching, the flags first.
pub open spec fn etching_integers(etching: Etching) -> Seq<u128> {
    field(Tag::Flags, Some(spec_flags(etching))) + field(
        Tag::Rune,
        match etching.rune {
            Some(rune) => Some(rune.0),
            None => None,
        },
    ) + field(
        Tag::Divisibility,
        match etching.divisibility {
            Some(d) => Some(d as u128),
            None => None,
        },
    ) + field(
        Tag::Spacers,
        match etching.spacers {
            Some(s) => Some(s as u128),
            None => None,
        },
    ) + field(
        Tag::Symbol,
        match etching.symbol {
            Some(c) => Some(c as u128),
            None => None,
        },
    ) + field(Tag::Premine, etching.premine) + match etching.terms {
        Some(terms) => terms_integers(terms),
        None => Seq::empty(),
    }
}

/// Where a stable sort puts `edict` among `sorted`: behind every edict
/// whose identifier is not greater.
pub open spec fn place(sorted: Seq<Edict>, edict: Edict) -> nat
    decreases sorted.len(),
{
    if sorted.len() == 0 || sorted.last().id.spec_le(edict.id) {
        sorted.len()
    } else {
        place(sorted.drop_last(), edict)
    }
}

/// The edicts in ascending order of their identifiers, those of one
/// identifier in the order in which they stand in `edicts`.
pub open spec fn sorted(edicts: Seq<Edict>) -> Seq<Edict>
    decreases edicts.len(),
{
    if edicts.len() == 0 {
        Seq::empty()
    } else {
        let before = sorted(edicts.drop_last());
        before.insert(place(before, edicts.last()) as int, edicts.last())
    }
}

/// Whether the identifiers of `edicts` never descend.
pub open spec fn ascending(edicts: Seq<Edict>) -> bool {
    forall|i: int, j: int| 0 <= i <= j < edicts.len() ==> edicts[i].id.spec_le(edicts[j].id)
}

/// The four integers of each edict: the step from the identifier before it
/// (from `previous` at first), the amount and the output.
pub open spec fn edict_integers(previous: RuneId, edicts: Seq<Edict>) -> Seq<u128>
    decreases edicts.len(),
{
    if edicts.len() == 0 {
        Seq::empty()
    } else {
        let edict = edicts[0];
        let step = previous.spec_delta(edict.id)->0;
        seq![step.0, step.1, edict.amount, edict.output as u128] + edict_integers(
            edict.id,
            edicts.drop_first(),
        )
    }
}

/// The body tag and the integers of the edicts in ascending order, or
/// nothing where there is no edict.
pub open spec fn body_integers(edicts: Seq<Edict>) -> Seq<u128> {
    if edicts.len() == 0 {
        Seq::empty()
    } else {
        seq![Tag::Body.spec_key()] + edict_integers(RuneId { block: 0, tx: 0 }, sorted(edicts))
    }
}

/// The integers of a runestone: the etching, the mint, the pointer, and
/// the edicts last.
pub open spec fn runestone_integers(runestone: RunestoneView) -> Seq<u128> {
    (match runestone.etching {
        Some(etching) => etching_integers(etching),
        None => Seq::empty(),
    }) + (match runestone.mint {
        Some(id) => keyed(Tag::Mint.spec_key(), seq![id.block as u128, id.tx as u128]),
        None => Seq::empty(),
    }) + field(
        Tag::Pointer,
        match runestone.pointer {
            Some(p) => Some(p as u128),
            None => None,
        },
    ) + body_integers(runestone.edicts)
}

/// `bytes` in pieces of `size` bytes, the last of which may be shorter.
pub open spec fn chunks(bytes: Seq<u8>, size: nat) -> Seq<Seq<u8>>
    decreases bytes.len(),
{
    if bytes.len() == 0 || size == 0 {
        Seq::empty()
    } else if bytes.len() <= size {
        seq![bytes]
    } else {
        seq![bytes.take(size as int)] + chunks(bytes.skip(size as int), size)
    }
}

/// One push for each of `pieces`.
pub open spec fn pushes(pieces: Seq<Seq<u8>>) -> Seq<InstructionView> {
    Seq::new(pieces.len(), |i: int| InstructionView::PushBytes(pieces[i]))
}

/// The script of a runestone: the two opcodes of the protocol, then the
/// varints of its integers, in pushes of the greatest size that a script
/// admits.
pub open spec fn spec_encipher(runestone: RunestoneView) -> Seq<InstructionView> {
    seq![InstructionView::Op(OP_RETURN), InstructionView::Op(Runestone::MAGIC_NUMBER)] + pushes(
        chunks(
            varint::encoding_of_all(runestone_integers(runestone)),
            MAX_SCRIPT_ELEMENT_SIZE as nat,
        ),
    )
}

/// The view of a payload, or of none.
pub open spec fn payload_view(payload: Option<Payload>) -> Option<PayloadView> {
    match payload {
        Some(p) => Some(p@),
        None => None,
    }
}

/// Whether `script` starts with the two opcodes of the protocol.
fn starts_runestone(script: &Script) -> (r: bool)
    ensures
        r == carries_runestone(script@),
{
    if script.instructions.len() < 2 {
        return false;
    }
    let first: bool = match &script.instructions[0] {
        Instruction::Op(op) => *op == OP_RETURN,
        Instruction::PushBytes(_) => false,
    };
    let second: bool = match &script.instructions[1] {
        Instruction::Op(op) => *op == Runestone::MAGIC_NUMBER,
        Instruction::PushBytes(_) => false,
    };
    first && second
}

/// The payload of a script that starts with the two opcodes of the protocol.
fn payload_of_script(script: &Script) -> (r: Payload)
    requires
        carries_runestone(script@),
    ensures
        r@ == script_payload(script@),
{
    let ghost data = script@.instructions.skip(2);
    let mut payload: Vec<u8> = Vec::new();
    let mut j: usize = 2;
    assert(data.take(0) =~= Seq::<InstructionView>::empty());
    while j < script.instructions.len()
        invariant
            2 <= j <= script.instructions@.len(),
            data == script@.instructions.skip(2),
            forall|k: int| 0 <= k < j - 2 ==> !(data[k] is Op),
            payload@ == pushed(data.take(j - 2)),
        decreases script.instructions@.len() - j,
    {
        assert(data[j - 2] == script.instructions@[j as int]@);
        assert(data.take(j - 1).drop_last() =~= data.take(j - 2));
        match &script.instructions[j] {
            Instruction::PushBytes(push) => {
                payload.extend_from_slice(push.as_slice());
            },
            Instruction::Op(_) => {
                return Payload::Invalid(Flaw::Opcode);
            },
        }
        j += 1;
    }
    assert(data.take(data.len() as int) =~= data);
    if script.malformed {
        return Payload::Invalid(Flaw::InvalidScript);
    }
    Payload::Valid(payload)
}

/// The varints of a sequence of integers are read back as that sequence,
/// and the reading goes on with the bytes that follow them.
pub proof fn lemma_integers_of_encoding_before(ints: Seq<u128>, tail: Seq<u8>)
    ensures
        spec_integers(varint::encoding_of_all(ints) + tail) == prepended(ints, spec_integers(tail)),
    decreases ints.len(),
{
    if ints.len() == 0 {
        assert(varint::encoding_of_all(ints) + tail =~= tail);
        match spec_integers(tail) {
            Ok(read) => {
                assert(ints + read =~= read);
            },
            Err(_) => {},
        }
    } else {
        let first = ints[0];
        let rest = ints.drop_first();
        let bytes = varint::encoding_of_all(ints) + tail;
        let after = varint::encoding_of_all(rest) + tail;
        assert(ints =~= seq![first] + rest);
        varint::lemma_encoding_of_all_concat(seq![first], rest);
        varint::lemma_encoding_of_all_push(Seq::<u128>::empty(), first);
        assert(Seq::<u128>::empty().push(first) =~= seq![first]);
        assert(varint::encoding_of_all(Seq::<u128>::empty()) =~= Seq::<u8>::empty());
        assert(varint::encoding_of_all(seq![first]) =~= varint::encoding(first as nat));
        varint::lemma_decode_encoding(first, after);
        let length = varint::encoding(first as nat).len();
        assert(bytes =~= varint::encoding(first as nat) + after);
        assert(bytes.len() > 0);
        assert(varint::spec_decode(bytes) == Ok::<(u128, usize), varint::Error>(
            (first, length as usize),
        ));
        assert(bytes.skip(length as int) =~= after);
        lemma_integers_of_encoding_before(rest, tail);
        assert(spec_integers(bytes) == prepended(seq![first], spec_integers(after)));
        match spec_integers(tail) {
            Ok(read) => {
                assert(seq![first] + (rest + read) =~= ints + read);
            },
            Err(_) => {},
        }
    }
}

/// The varints of a sequence of integers are read back as that sequence.
pub proof fn lemma_integers_of_encoding(ints: Seq<u128>)
    ensures
        spec_integers(varint::encoding_of_all(ints)) == Ok::<Seq<u128>, varint::Error>(ints),
{
    let none = Seq::<u8>::empty();
    lemma_integers_of_encoding_before(ints, none);
    assert(varint::encoding_of_all(ints) + none =~= varint::encoding_of_all(ints));
    assert(ints + Seq::<u128>::empty() =~= ints);
}

/// What was appended in two steps was appended in one.
proof fn lemma_appended(base: Seq<u8>, ints: Seq<u128>, more: Seq<u128>)
    ensures
        base + varint::encoding_of_all(ints) + varint::encoding_of_all(more) == base
            + varint::encoding_of_all(ints + more),
{
    varint::lemma_encoding_of_all_concat(ints, more);
    assert(base + varint::encoding_of_all(ints) + varint::encoding_of_all(more) =~= base + (
        varint::encoding_of_all(ints) + varint::encoding_of_all(more)));
}

/// An integer of 64 bits, where there is one, as one of 128 bits.
fn widen(value: Option<u64>) -> (r: Option<u128>)
    ensures
        r == wide(value),
{
    match value {
        Some(v) => Some(v as u128),
        None => None,
    }
}

/// Appends the fields of `terms`.
fn encode_terms(terms: &Terms, payload: &mut Vec<u8>)
    ensures
        final(payload)@ == old(payload)@ + varint::encoding_of_all(terms_integers(*terms)),
{
    let ghost base = payload@;
    let ghost a = field(Tag::Amount, terms.amount);
    let ghost b = a + field(Tag::Cap, terms.cap);
    let ghost c = b + field(Tag::HeightStart, wide(terms.height.0));
    let ghost d = c + field(Tag::HeightEnd, wide(terms.height.1));
    let ghost e = d + field(Tag::OffsetStart, wide(terms.offset.0));
    Tag::Amount.encode_option(terms.amount, payload);
    Tag::Cap.encode_option(terms.cap, payload);
    proof {
        lemma_appended(base, a, field(Tag::Cap, terms.cap));
    }
    Tag::HeightStart.encode_option(widen(terms.height.0), payload);
    proof {
        lemma_appended(base, b, field(Tag::HeightStart, wide(terms.height.0)));
    }
    Tag::HeightEnd.encode_option(widen(terms.height.1), payload);
    proof {
        lemma_appended(base, c, field(Tag::HeightEnd, wide(terms.height.1)));
    }
    Tag::OffsetStart.encode_option(widen(terms.offset.0), payload);
    proof {
        lemma_appended(base, d, field(Tag::OffsetStart, wide(terms.offset.0)));
    }
    Tag::OffsetEnd.encode_option(widen(terms.offset.1), payload);
    proof {
        lemma_appended(base, e, field(Tag::OffsetEnd, wide(terms.offset.1)));
    }
}

/// Appends the fields of `etching`, the flags first.
fn encode_etching(etching: &Etching, payload: &mut Vec<u8>)
    ensures
        final(payload)@ == old(payload)@ + varint::encoding_of_all(etching_integers(*etching)),
{
    let ghost base = payload@;
    let mut flags: u128 = 0;
    Flag::Etching.set(&mut flags);
    if etching.terms.is_some() {
        Flag::Terms.set(&mut flags);
    }
    if etching.turbo {
        Flag::Turbo.set(&mut flags);
    }
    let rune: Option<u128> = match etching.rune {
        Some(rune) => Some(rune.0),
        None => None,
    };
    let divisibility: Option<u128> = match etching.divisibility {
        Some(d) => Some(d as u128),
        None => None,
    };
    let spacers: Option<u128> = match etching.spacers {
        Some(s) => Some(s as u128),
        None => None,
    };
    let symbol: Option<u128> = match etching.symbol {
        Some(c) => Some(c as u128),
        None => None,
    };
    let ghost a = field(Tag::Flags, Some(flags));
    let ghost b = a + field(Tag::Rune, rune);
    let ghost c = b + field(Tag::Divisibility, divisibility);
    let ghost d = c + field(Tag::Spacers, spacers);
    let ghost e = d + field(Tag::Symbol, symbol);
    let ghost f = e + field(Tag::Premine, etching.premine);
    Tag::Flags.encode_option(Some(flags), payload);
    Tag::Rune.encode_option(rune, payload);
    proof {
        lemma_appended(base, a, field(Tag::Rune, rune));
    }
    Tag::Divisibility.encode_option(divisibility, payload);
    proof {
        lemma_appended(base, b, field(Tag::Divisibility, divisibility));
    }
    Tag::Spacers.encode_option(spacers, payload);
    proof {
        lemma_appended(base, c, field(Tag::Spacers, spacers));
    }
    Tag::Symbol.encode_option(symbol, payload);
    proof {
        lemma_appended(base, d, field(Tag::Symbol, symbol));
    }
    Tag::Premine.encode_option(etching.premine, payload);
    proof {
        lemma_appended(base, e, field(Tag::Premine, etching.premine));
    }
    match etching.terms {
        Some(terms) => {
            encode_terms(&terms, payload);
            proof {
                lemma_appended(base, f, terms_integers(terms));
            }
        },
        None => {
            assert(f + Seq::<u128>::empty() =~= f);
        },
    }
}

/// Where a stable sort puts `edict` among `sorted`.
fn place_of(sorted: &Vec<Edict>, edict: &Edict) -> (r: usize)
    ensures
        r == place(sorted@, *edict),
        r <= sorted@.len(),
{
    let mut p: usize = sorted.len();
    assert(sorted@.take(p as int) =~= sorted@);
    while p > 0
        invariant
            p <= sorted@.len(),
            place(sorted@, *edict) == place(sorted@.take(p as int), *edict),
        decreases p,
    {
        if sorted[p - 1].id.le(edict.id) {
            return p;
        }
        assert(sorted@.take(p as int).drop_last() =~= sorted@.take(p - 1));
        p -= 1;
    }
    p
}

/// The edicts in ascending order of their identifiers.
fn sort_edicts(edicts: &Vec<Edict>) -> (r: Vec<Edict>)
    ensures
        r@ == sorted(edicts@),
{
    let mut out: Vec<Edict> = Vec::new();
    let mut i: usize = 0;
    assert(edicts@.take(0) =~= Seq::<Edict>::empty());
    while i < edicts.len()
        invariant
            i <= edicts@.len(),
            out@ == sorted(edicts@.take(i as int)),
        decreases edicts@.len() - i,
    {
        let edict: Edict = edicts[i];
        let p: usize = place_of(&out, &edict);
        assert(edicts@.take(i + 1).drop_last() =~= edicts@.take(i as int));
        out.insert(p, edict);
        i += 1;
    }
    assert(edicts@.take(edicts@.len() as int) =~= edicts@);
    out
}

/// Sorting keeps the number of edicts and puts them in ascending order.
pub proof fn lemma_sorted_ascends(edicts: Seq<Edict>)
    ensures
        sorted(edicts).len() == edicts.len(),
        ascending(sorted(edicts)),
    decreases edicts.len(),
{
    if edicts.len() > 0 {
        let before = sorted(edicts.drop_last());
        let edict = edicts.last();
        lemma_sorted_ascends(edicts.drop_last());
        lemma_place(before, edict);
        let p = place(before, edict) as int;
        let after = before.insert(p, edict);
        assert forall|i: int, j: int| 0 <= i <= j < after.len() implies after[i].id.spec_le(
            after[j].id,
        ) by {
            RuneId::lemma_order_is_total(after[i].id, after[j].id, edict.id);
            if i < p && j > p {
                assert(after[i] == before[i] && after[j] == before[j - 1]);
            } else if i < p && j < p {
                assert(after[i] == before[i] && after[j] == before[j]);
            } else if i > p {
                assert(after[i] == before[i - 1] && after[j] == before[j - 1]);
            } else if i < p && j == p {
                assert(after[i] == before[i]);
            } else if i == p && j > p {
                assert(after[j] == before[j - 1]);
            }
        }
    }
}

/// Among ascending edicts, those before the place of `edict` are not
/// greater than it, and those from its place on are greater.
proof fn lemma_place(sorted: Seq<Edict>, edict: Edict)
    requires
        ascending(sorted),
    ensures
        place(sorted, edict) <= sorted.len(),
        forall|i: int| 0 <= i < place(sorted, edict) ==> sorted[i].id.spec_le(edict.id),
        forall|i: int|
            place(sorted, edict) <= i < sorted.len() ==> !sorted[i].id.spec_le(edict.id),
    decreases sorted.len(),
{
    if sorted.len() > 0 {
        if sorted.last().id.spec_le(edict.id) {
            assert forall|i: int| 0 <= i < sorted.len() implies sorted[i].id.spec_le(
                edict.id,
            ) by {
                RuneId::lemma_order_is_total(sorted[i].id, sorted.last().id, edict.id);
            }
        } else {
            let shorter = sorted.drop_last();
            assert forall|i: int, j: int| 0 <= i <= j < shorter.len() implies shorter[i].id.spec_le(
                shorter[j].id,
            ) by {
                assert(shorter[i] == sorted[i] && shorter[j] == sorted[j]);
            }
            lemma_place(shorter, edict);
            assert forall|i: int| 0 <= i < place(sorted, edict) implies sorted[i].id.spec_le(
                edict.id,
            ) by {
                assert(sorted[i] == shorter[i]);
            }
            assert forall|i: int| place(sorted, edict) <= i < sorted.len() implies !sorted[i].id.spec_le(
                edict.id,
            ) by {
                if i < shorter.len() {
                    assert(sorted[i] == shorter[i]);
                }
            }
        }
    }
}

/// Edicts that ascend already are sorted.
pub proof fn lemma_sorted_of_ascending(edicts: Seq<Edict>)
    requires
        ascending(edicts),
    ensures
        sorted(edicts) == edicts,
    decreases edicts.len(),
{
    if edicts.len() > 0 {
        let shorter = edicts.drop_last();
        assert forall|i: int, j: int| 0 <= i <= j < shorter.len() implies shorter[i].id.spec_le(
            shorter[j].id,
        ) by {
            assert(shorter[i] == edicts[i] && shorter[j] == edicts[j]);
        }
        lemma_sorted_of_ascending(shorter);
        if shorter.len() > 0 {
            assert(shorter.last() == edicts[shorter.len() - 1]);
        }
        assert(place(shorter, edicts.last()) == shorter.len());
        assert(shorter.insert(shorter.len() as int, edicts.last()) =~= edicts);
    }
}

/// Appends the body tag and the edicts in ascending order, where there are
/// edicts.
fn encode_edicts(edicts: &Vec<Edict>, payload: &mut Vec<u8>)
    ensures
        final(payload)@ == old(payload)@ + varint::encoding_of_all(body_integers(edicts@)),
{
    let ghost base = payload@;
    if edicts.len() == 0 {
        assert(payload@ + varint::encoding_of_all(Seq::<u128>::empty()) =~= payload@);
        return ;
    }
    let ghost zero = RuneId { block: 0, tx: 0 };
    let ordered: Vec<Edict> = sort_edicts(edicts);
    let ghost all = edict_integers(zero, ordered@);
    let ghost mut done: Seq<u128> = seq![Tag::Body.spec_key()];
    varint::encode_to_vec(Tag::Body.key(), payload);
    proof {
        lemma_sorted_ascends(edicts@);
        varint::lemma_encoding_of_all_push(Seq::<u128>::empty(), Tag::Body.spec_key());
        assert(Seq::<u128>::empty().push(Tag::Body.spec_key()) =~= done);
        assert(base + varint::encoding_of_all(Seq::<u128>::empty()) =~= base);
        assert(ordered@.skip(0) =~= ordered@);
    }
    let mut previous: RuneId = RuneId::default();
    let mut i: usize = 0;
    while i < ordered.len()
        invariant
            i <= ordered@.len(),
            ascending(ordered@),
            zero == (RuneId { block: 0, tx: 0 }),
            all == edict_integers(zero, ordered@),
            i == 0 ==> previous == zero,
            i > 0 ==> previous == ordered@[i - 1].id,
            payload@ == base + varint::encoding_of_all(done),
            done + edict_integers(previous, ordered@.skip(i as int)) == seq![
                Tag::Body.spec_key(),
            ] + all,
        decreases ordered@.len() - i,
    {
        let edict: Edict = ordered[i];
        let ghost rest = ordered@.skip(i as int);
        assert(rest[0] == edict);
        assert(rest.drop_first() =~= ordered@.skip(i + 1));
        if i > 0 {
            assert(ordered@[i - 1].id.spec_le(ordered@[i as int].id));
        }
        assert(previous.spec_le(edict.id));
        let (block, tx) = match previous.delta(edict.id) {
            Some(step) => step,
            None => (0, 0),
        };
        let ghost four = seq![block, tx, edict.amount, edict.output as u128];
        let ghost before = payload@;
        varint::encode_to_vec(block, payload);
        varint::encode_to_vec(tx, payload);
        varint::encode_to_vec(edict.amount, payload);
        varint::encode_to_vec(edict.output as u128, payload);
        proof {
            let none = Seq::<u128>::empty();
            varint::lemma_encoding_of_all_push(none, block);
            varint::lemma_encoding_of_all_push(none.push(block), tx);
            varint::lemma_encoding_of_all_push(none.push(block).push(tx), edict.amount);
            varint::lemma_encoding_of_all_push(
                none.push(block).push(tx).push(edict.amount),
                edict.output as u128,
            );
            assert(none.push(block).push(tx).push(edict.amount).push(edict.output as u128) =~= four);
            assert(varint::encoding_of_all(none) =~= Seq::<u8>::empty());
            assert(payload@ =~= before + varint::encoding_of_all(four));
            lemma_appended(base, done, four);
            assert((done + four) + edict_integers(edict.id, ordered@.skip(i + 1)) =~= done + (four
                + edict_integers(edict.id, ordered@.skip(i + 1))));
            done = done + four;
        }
        previous = edict.id;
        i += 1;
    }
    proof {
        assert(ordered@.skip(i as int).len() == 0);
        assert(done + Seq::<u128>::empty() =~= done);
    }
}

/// One push for each piece of `payload`.
fn push_chunks(payload: &Vec<u8>, instructions: &mut Vec<Instruction>)
    ensures
        instructions_view(final(instructions)@) == instructions_view(old(instructions)@) + pushes(
            chunks(payload@, MAX_SCRIPT_ELEMENT_SIZE as nat),
        ),
{
    let ghost size = MAX_SCRIPT_ELEMENT_SIZE as nat;
    let ghost base = instructions_view(instructions@);
    let ghost all = chunks(payload@, size);
    let ghost mut done: Seq<Seq<u8>> = Seq::empty();
    let mut i: usize = 0;
    proof {
        assert(payload@.skip(0) =~= payload@);
        assert(done + all =~= all);
        assert(base + pushes(done) =~= base);
    }
    while i < payload.len()
        invariant
            i <= payload@.len(),
            size == MAX_SCRIPT_ELEMENT_SIZE,
            all == chunks(payload@, size),
            all == done + chunks(payload@.skip(i as int), size),
            instructions_view(instructions@) == base + pushes(done),
        decreases payload@.len() - i,
    {
        let ghost rest = payload@.skip(i as int);
        let end: usize = if payload.len() - i > MAX_SCRIPT_ELEMENT_SIZE {
            i + MAX_SCRIPT_ELEMENT_SIZE
        } else {
            payload.len()
        };
        let chunk: Vec<u8> = slice_to_vec(slice_subrange(payload.as_slice(), i, end));
        proof {
            assert(rest.len() == payload@.len() - i);
            if end < payload@.len() {
                assert(chunk@ =~= rest.take(size as int));
                assert(rest.skip(size as int) =~= payload@.skip(end as int));
                assert(done.push(chunk@) + chunks(payload@.skip(end as int), size) =~= done + (
                    seq![chunk@] + chunks(payload@.skip(end as int), size)));
            } else {
                assert(chunk@ =~= rest);
                assert(payload@.skip(end as int).len() == 0);
                assert(done.push(chunk@) + chunks(payload@.skip(end as int), size) =~= done
                    + seq![chunk@]);
            }
            let pushed_chunk = Instruction::PushBytes(chunk);
            assert(instructions_view(instructions@.push(pushed_chunk)) =~= instructions_view(
                instructions@,
            ).push(pushed_chunk@));
            assert(pushes(done.push(chunk@)) =~= pushes(done).push(pushed_chunk@));
            assert(base + pushes(done).push(pushed_chunk@) =~= (base + pushes(done)).push(
                pushed_chunk@,
            ));
            done = done.push(chunk@);
        }
        instructions.push(Instruction::PushBytes(chunk));
        i = end;
    }
    proof {
        assert(payload@.skip(i as int).len() == 0);
        assert(done + Seq::<Seq<u8>>::empty() =~= done);
    }
}

/// Takes one integer from the field of `tag`.
fn take_integer(tag: Tag, fields: &mut Fields) -> (r: Option<u128>)
    requires
        no_empty_queue(queues(old(fields)@)),
    ensures
        r == taken(queues(old(fields)@), tag, 1, |v: Seq<u128>| spec_integer(v)),
        queues(final(fields)@) == left(
            queues(old(fields)@),
            tag,
            1,
        ),
        no_empty_queue(queues(final(fields)@)),
{
    let with = |values: &Vec<u128>| -> (r: Option<u128>)
        requires
            values@.len() == 1,
        ensures
            r == spec_integer(values@),
    {
        Some(values[0])
    };
    tag.take(1, fields, with)
}

/// Takes one integer of 64 bits from the field of `tag`.
fn take_u64(tag: Tag, fields: &mut Fields) -> (r: Option<u64>)
    requires
        no_empty_queue(queues(old(fields)@)),
    ensures
        r == taken(queues(old(fields)@), tag, 1, |v: Seq<u128>| spec_u64(v)),
        queues(final(fields)@) == left(queues(old(fields)@), tag, 1),
        no_empty_queue(queues(final(fields)@)),
{
    let with = |values: &Vec<u128>| -> (r: Option<u64>)
        requires
            values@.len() == 1,
        ensures
            r == spec_u64(values@),
    {
        let value: u128 = values[0];
        if value <= u64::MAX as u128 {
            Some(value as u64)
        } else {
            None
        }
        
    };
    tag.take(1, fields, with)
}

/// Takes the divisibility.
fn take_divisibility(fields: &mut Fields) -> (r: Option<u8>)
    requires
        no_empty_queue(queues(old(fields)@)),
    ensures
        r == taken(queues(old(fields)@), Tag::Divisibility, 1, |v: Seq<u128>| spec_divisibility(v)),
        queues(final(fields)@) == left(
            queues(old(fields)@),
            Tag::Divisibility,
            1,
        ),
        no_empty_queue(queues(final(fields)@)),
{
    let with = |values: &Vec<u128>| -> (r: Option<u8>)
        requires
            values@.len() == 1,
        ensures
            r == spec_divisibility(values@),
    {
        let value: u128 = values[0];
        if value <= Etching::MAX_DIVISIBILITY as u128 {
            Some(value as u8)
        } else {
            None
        }
        
    };
    Tag::Divisibility.take(1, fields, with)
}

/// Takes the spacers.
fn take_spacers(fields: &mut Fields) -> (r: Option<u32>)
    requires
        no_empty_queue(queues(old(fields)@)),
    ensures
        r == taken(queues(old(fields)@), Tag::Spacers, 1, |v: Seq<u128>| spec_spacers(v)),
        queues(final(fields)@) == left(
            queues(old(fields)@),
            Tag::Spacers,
            1,
        ),
        no_empty_queue(queues(final(fields)@)),
{
    let with = |values: &Vec<u128>| -> (r: Option<u32>)
        requires
            values@.len() == 1,
        ensures
            r == spec_spacers(values@),
    {
        let value: u128 = values[0];
        if value <= Etching::MAX_SPACERS as u128 {
            Some(value as u32)
        } else {
            None
        }
        
    };
    Tag::Spacers.take(1, fields, with)
}

/// Takes the symbol.
fn take_symbol(fields: &mut Fields) -> (r: Option<char>)
    requires
        no_empty_queue(queues(old(fields)@)),
    ensures
        r == taken(queues(old(fields)@), Tag::Symbol, 1, |v: Seq<u128>| spec_symbol(v)),
        queues(final(fields)@) == left(
            queues(old(fields)@),
            Tag::Symbol,
            1,
        ),
        no_empty_queue(queues(final(fields)@)),
{
    let with = |values: &Vec<u128>| -> (r: Option<char>)
        requires
            values@.len() == 1,
        ensures
            r == spec_symbol(values@),
    {
        let value: u128 = values[0];
        if value <= u32::MAX as u128 {
            char::from_u32(value as u32)
        } else {
            None
        }
        
    };
    Tag::Symbol.take(1, fields, with)
}

/// Takes the identifier of the rune to mint.
fn take_mint(fields: &mut Fields) -> (r: Option<RuneId>)
    requires
        no_empty_queue(queues(old(fields)@)),
    ensures
        r == taken(queues(old(fields)@), Tag::Mint, 2, |v: Seq<u128>| spec_mint(v)),
        queues(final(fields)@) == left(
            queues(old(fields)@),
            Tag::Mint,
            2,
        ),
        no_empty_queue(queues(final(fields)@)),
{
    let with = |values: &Vec<u128>| -> (r: Option<RuneId>)
        requires
            values@.len() == 2,
        ensures
            r == spec_mint(values@),
    {
        let block: u128 = values[0];
        let tx: u128 = values[1];
        if block <= u64::MAX as u128 && tx <= u32::MAX as u128 {
            RuneId::new(block as u64, tx as u32)
        } else {
            None
        }
        
    };
    Tag::Mint.take(2, fields, with)
}

/// Takes the pointer, which must name one of the `outputs` outputs.
fn take_pointer(fields: &mut Fields, outputs: usize) -> (r: Option<u32>)
    requires
        no_empty_queue(queues(old(fields)@)),
    ensures
        r == taken(
            queues(old(fields)@),
            Tag::Pointer,
            1,
            |v: Seq<u128>| spec_pointer(outputs as nat, v),
        ),
        queues(final(fields)@) == left(
            queues(old(fields)@),
            Tag::Pointer,
            1,
        ),
        no_empty_queue(queues(final(fields)@)),
{
    let with = |values: &Vec<u128>| -> (r: Option<u32>)
        requires
            values@.len() == 1,
        ensures
            r == spec_pointer(outputs as nat, values@),
    {
        let value: u128 = values[0];
        if value <= u32::MAX as u128 && value < outputs as u128 {
            Some(value as u32)
        } else {
            None
        }
        
    };
    Tag::Pointer.take(1, fields, with)
}

/// Takes the terms of a mint.
fn take_terms(fields: &mut Fields) -> (r: Terms)
    requires
        no_empty_queue(queues(old(fields)@)),
    ensures
        (r, queues(final(fields)@)) == spec_terms(queues(old(fields)@)),
        no_empty_queue(queues(final(fields)@)),
{
    let cap: Option<u128> = take_integer(Tag::Cap, fields);
    let height_start: Option<u64> = take_u64(Tag::HeightStart, fields);
    let height_end: Option<u64> = take_u64(Tag::HeightEnd, fields);
    let amount: Option<u128> = take_integer(Tag::Amount, fields);
    let offset_start: Option<u64> = take_u64(Tag::OffsetStart, fields);
    let offset_end: Option<u64> = take_u64(Tag::OffsetEnd, fields);
    Terms { amount, cap, height: (height_start, height_end), offset: (offset_start, offset_end) }
}

/// Takes an etching, with its flags.
fn take_etching(flags: &mut u128, fields: &mut Fields) -> (r: Etching)
    requires
        no_empty_queue(queues(old(fields)@)),
    ensures
        (r, *final(flags), queues(final(fields)@)) == spec_etching(
            *old(flags),
            queues(old(fields)@),
        ),
        no_empty_queue(queues(final(fields)@)),
{
    let divisibility: Option<u8> = take_divisibility(fields);
    let premine: Option<u128> = take_integer(Tag::Premine, fields);
    let rune: Option<Rune> = match take_integer(Tag::Rune, fields) {
        Some(n) => Some(Rune(n)),
        None => None,
    };
    let spacers: Option<u32> = take_spacers(fields);
    let symbol: Option<char> = take_symbol(fields);
    let terms: Option<Terms> = if Flag::Terms.take(flags) {
        Some(take_terms(fields))
    } else {
        None
    };
    let turbo: bool = Flag::Turbo.take(flags);
    Etching { divisibility, premine, rune, spacers, symbol, terms, turbo }
}

/// Whether a key that every reader must understand is left in `fields`.
fn has_even_key(fields: &Fields) -> (r: bool)
    ensures
        r == even_key_left(queues(fields@)),
{
    for key in it: fields.keys()
        invariant
            it.seq().unref().to_set() == fields@.dom(),
            forall|k: u128|
                fields@.contains_key(k) && k % 2 == 0 ==> exists|j: int|
                    it.index() <= j < it.seq().len() && *(#[trigger] it.seq()[j]) == k,
    {
        if *key % 2 == 0 {
            assert(it.seq().unref()[it.index() as int] == *key);
            assert(it.seq().unref().to_set().contains(*key));
            assert(queues(fields@).contains_key(*key));
            return true;
        }
    }
    false
}

impl Runestone {
    /// The opcode that follows `OP_RETURN` in the script of a runestone.
    pub const MAGIC_NUMBER: u8 = 0x5d;

    /// The confirmations that a commitment to a name needs before the name
    /// is etched.
    pub const COMMIT_CONFIRMATIONS: u16 = 6;

    /// The payload that `transaction` carries for the protocol, if any.
    pub fn payload(transaction: &Transaction) -> (r: Option<Payload>)
        ensures
            payload_view(r) == spec_payload(transaction@),
    {
        let mut i: usize = 0;
        assert(transaction@.skip(0) =~= transaction@);
        while i < transaction.output.len()
            invariant
                i <= transaction.output@.len(),
                spec_payload(transaction@) == spec_payload(transaction@.skip(i as int)),
            decreases transaction.output@.len() - i,
        {
            let script: &Script = &transaction.output[i];
            proof {
                let rest = transaction@.skip(i as int);
                assert(rest[0] == script@);
                assert(rest.drop_first() =~= transaction@.skip(i + 1));
            }
            if starts_runestone(script) {
                return Some(payload_of_script(script));
            }
            i += 1;
        }
        None
    }

    /// The script that carries this runestone.
    pub fn encipher(&self) -> (script: Script)
        ensures
            script@ == (ScriptView { instructions: spec_encipher(self@), malformed: false }),
    {
        let mut payload: Vec<u8> = Vec::new();
        let ghost none = Seq::<u128>::empty();
        let ghost etched = match self.etching {
            Some(etching) => etching_integers(etching),
            None => none,
        };
        let ghost minted = etched + match self.mint {
            Some(id) => keyed(Tag::Mint.spec_key(), seq![id.block as u128, id.tx as u128]),
            None => none,
        };
        let pointer: Option<u128> = match self.pointer {
            Some(p) => Some(p as u128),
            None => None,
        };
        let ghost pointed = minted + field(Tag::Pointer, pointer);
        proof {
            assert(varint::encoding_of_all(none) =~= Seq::<u8>::empty());
        }
        match self.etching {
            Some(etching) => {
                encode_etching(&etching, &mut payload);
            },
            None => {},
        }
        assert(payload@ =~= Seq::<u8>::empty() + varint::encoding_of_all(etched));
        match self.mint {
            Some(id) => {
                let values: Vec<u128> = vec![id.block as u128, id.tx as u128];
                assert(values@ =~= seq![id.block as u128, id.tx as u128]);
                Tag::Mint.encode(&values, &mut payload);
                proof {
                    lemma_appended(
                        Seq::<u8>::empty(),
                        etched,
                        keyed(Tag::Mint.spec_key(), values@),
                    );
                }
            },
            None => {
                assert(etched + none =~= etched);
            },
        }
        assert(payload@ =~= Seq::<u8>::empty() + varint::encoding_of_all(minted));
        Tag::Pointer.encode_option(pointer, &mut payload);
        proof {
            lemma_appended(Seq::<u8>::empty(), minted, field(Tag::Pointer, pointer));
        }
        encode_edicts(&self.edicts, &mut payload);
        proof {
            lemma_appended(Seq::<u8>::empty(), pointed, body_integers(self.edicts@));
            assert(payload@ =~= varint::encoding_of_all(runestone_integers(self@)));
        }
        let mut instructions: Vec<Instruction> = Vec::new();
        instructions.push(Instruction::Op(OP_RETURN));
        instructions.push(Instruction::Op(Runestone::MAGIC_NUMBER));
        assert(instructions_view(instructions@) =~= seq![
            InstructionView::Op(OP_RETURN),
            InstructionView::Op(Runestone::MAGIC_NUMBER),
        ]);
        push_chunks(&payload, &mut instructions);
        Script { instructions, malformed: false }
    }

    /// Reads the runestone of `transaction`: `None` where it carries none,
    /// a cenotaph where what it carries has a flaw.
    pub fn decipher(transaction: &Transaction) -> (r: Option<Artifact>)
        ensures
            artifact_view(r) == spec_decipher(transaction@),
    {
        let payload: Vec<u8> = match Runestone::payload(transaction) {
            Some(Payload::Valid(payload)) => payload,
            Some(Payload::Invalid(flaw)) => {
                return Some(
                    Artifact::Cenotaph(Cenotaph { etching: None, flaw: Some(flaw), mint: None }),
                );
            },
            None => {
                return None;
            },
        };
        let integers: Vec<u128> = match Runestone::integers(payload.as_slice()) {
            Ok(integers) => integers,
            Err(_) => {
                return Some(
                    Artifact::Cenotaph(
                        Cenotaph { etching: None, flaw: Some(Flaw::Varint), mint: None },
                    ),
                );
            },
        };
        let message: Message = Message::from_integers(integers.as_slice());
        let ghost read = message@;
        let mut flaw: Option<Flaw> = message.flaw;
        let edicts: Vec<Edict> = message.edicts;
        let mut fields: Fields = message.fields;
        let mut flags: u128 = match take_integer(Tag::Flags, &mut fields) {
            Some(flags) => flags,
            None => 0,
        };
        let etching: Option<Etching> = if Flag::Etching.take(&mut flags) {
            Some(take_etching(&mut flags, &mut fields))
        } else {
            None
        };
        let mint: Option<RuneId> = take_mint(&mut fields);
        let pointer: Option<u32> = take_pointer(&mut fields, transaction.output.len());
        if flaw.is_none() {
            if let Some(etching) = etching {
                if etching.supply().is_none() {
                    flaw = Some(Flaw::SupplyOverflow);
                }
            }
        }
        if flaw.is_none() && flags != 0 {
            flaw = Some(Flaw::UnrecognizedFlag);
        }
        if flaw.is_none() && has_even_key(&fields) {
            flaw = Some(Flaw::UnrecognizedEvenTag);
        }
        proof {
            reveal(spec_taken);
        }
        assert(flaw == spec_flaw(read.flaw, etching, flags, queues(fields@)));
        match flaw {
            Some(_) => Some(
                Artifact::Cenotaph(
                    Cenotaph {
                        etching: match etching {
                            Some(etching) => etching.rune,
                            None => None,
                        },
                        flaw,
                        mint,
                    },
                ),
            ),
            None => Some(Artifact::Runestone(Runestone { edicts, etching, mint, pointer })),
        }
    }

    /// The integers that `payload` holds as varints.
    pub fn integers(payload: &[u8]) -> (r: Result<Vec<u128>, varint::Error>)
        ensures
            match r {
                Ok(ints) => spec_integers(payload@) == Ok::<Seq<u128>, varint::Error>(ints@),
                Err(e) => spec_integers(payload@) == Err::<Seq<u128>, varint::Error>(e),
            },
    {
        let mut integers: Vec<u128> = Vec::new();
        let mut i: usize = 0;
        proof {
            assert(payload@.skip(0) =~= payload@);
            let all = spec_integers(payload@);
            if let Ok(ints) = all {
                assert(integers@ + ints =~= ints);
            }
        }
        while i < payload.len()
            invariant
                i <= payload@.len(),
                spec_integers(payload@) == prepended(
                    integers@,
                    spec_integers(payload@.skip(i as int)),
                ),
            decreases payload@.len() - i,
        {
            let rest: &[u8] = slice_subrange(payload, i, payload.len());
            assert(rest@ =~= payload@.skip(i as int));
            let (integer, length) = match varint::decode(rest) {
                Ok(pair) => pair,
                Err(e) => {
                    return Err(e);
                },
            };
            proof {
                assert(0 < length <= rest@.len());
                assert(rest@.skip(length as int) =~= payload@.skip(i + length));
                let after = spec_integers(payload@.skip(i + length));
                if let Ok(ints) = after {
                    assert(integers@.push(integer) + ints =~= integers@ + (seq![integer] + ints));
                }
            }
            integers.push(integer);
            i += length;
        }
        proof {
            assert(payload@.skip(i as int).len() == 0);
            assert(integers@ + Seq::<u128>::empty() =~= integers@);
        }
        Ok(integers)
    }
}

} // verus!
