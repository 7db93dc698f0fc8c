//! What holds of encoding and decoding together.

use vstd::prelude::*;
use vstd::seq_lib::{to_multiset_build, to_multiset_contains, to_multiset_insert};
use crate::artifact::ArtifactView;
use crate::cenotaph::Cenotaph;
use crate::edict::Edict;
use crate::etching::Etching;
use crate::flag::Flag;
use crate::flaw::Flaw;
use crate::message::{spec_edicts, spec_from_integers, with_first, MessageView};
use crate::rune_id::RuneId;
use crate::runestone::{
    ascending, body_integers, carries_runestone, chunks, edict_integers, etching_integers,
    even_key_left, field, left, lemma_integers_of_encoding, lemma_integers_of_encoding_before,
    lemma_sorted_ascends,
    lemma_sorted_of_ascending, place, pushed, pushes, runestone_integers, script_payload, sorted,
    spec_artifact, spec_decipher, spec_divisibility, spec_encipher, spec_etching, spec_flags,
    spec_integer, spec_integers, spec_mint, spec_payload, spec_pointer, spec_spacers, spec_symbol,
    spec_taken, spec_terms, spec_u64, taken, terms_integers, wide, PayloadView, Runestone,
    RunestoneView, Taken, MAX_SCRIPT_ELEMENT_SIZE, OP_RETURN,
};
use crate::tag::{keyed, Tag};
use crate::terms::Terms;
use crate::transaction::{InstructionView, ScriptView};
use crate::varint;

verus! {

/// Sorting moves edicts and neither adds nor drops one.
pub proof fn lemma_sorted_permutes(edicts: Seq<Edict>)
    ensures
        sorted(edicts).to_multiset() == edicts.to_multiset(),
        forall|edict: Edict| sorted(edicts).contains(edict) <==> edicts.contains(edict),
    decreases edicts.len(),
{
    if edicts.len() > 0 {
        let init = edicts.drop_last();
        let before = sorted(init);
        let last = edicts.last();
        lemma_sorted_permutes(init);
        lemma_sorted_ascends(init);
        assert(init.push(last) =~= edicts);
        to_multiset_build(init, last);
        let p = place(before, last);
        assert(p <= before.len()) by {
            lemma_place_in_range(before, last);
        }
        to_multiset_insert(before, p as int, last);
        assert(sorted(edicts) == before.insert(p as int, last));
        assert(sorted(edicts).to_multiset() == before.to_multiset().insert(last));
        assert(edicts.to_multiset() =~= init.to_multiset().insert(last));
    } else {
        assert(edicts =~= Seq::<Edict>::empty());
    }
    assert forall|edict: Edict| sorted(edicts).contains(edict) <==> edicts.contains(edict) by {
        to_multiset_contains(sorted(edicts), edict);
        to_multiset_contains(edicts, edict);
    }
}

proof fn lemma_place_in_range(edicts: Seq<Edict>, edict: Edict)
    ensures
        place(edicts, edict) <= edicts.len(),
    decreases edicts.len(),
{
    if edicts.len() > 0 && !edicts.last().id.spec_le(edict.id) {
        lemma_place_in_range(edicts.drop_last(), edict);
    }
}

/// The pushes of two sequences of instructions, one after the other.
proof fn lemma_pushed_concat(a: Seq<InstructionView>, b: Seq<InstructionView>)
    ensures
        pushed(a + b) == pushed(a) + pushed(b),
    decreases b.len(),
{
    if b.len() == 0 {
        assert(a + b =~= a);
        assert(pushed(a) + pushed(b) =~= pushed(a));
    } else {
        lemma_pushed_concat(a, b.drop_last());
        assert((a + b).drop_last() =~= a + b.drop_last());
        assert((a + b).last() == b.last());
        assert(pushed(a + b) =~= pushed(a) + pushed(b));
    }
}

/// The pieces of a payload are not empty and no longer than the size, and
/// pushed one after the other they are the payload.
pub proof fn lemma_chunks(bytes: Seq<u8>, size: nat)
    requires
        size > 0,
    ensures
        forall|i: int|
            0 <= i < chunks(bytes, size).len() ==> 0 < (#[trigger] chunks(bytes, size)[i]).len()
                <= size,
        pushed(pushes(chunks(bytes, size))) == bytes,
    decreases bytes.len(),
{
    let pieces = chunks(bytes, size);
    if bytes.len() == 0 {
        assert(pushes(pieces) =~= Seq::<InstructionView>::empty());
        assert(bytes =~= Seq::<u8>::empty());
    } else if bytes.len() <= size {
        let one = pushes(pieces);
        assert(one.drop_last() =~= Seq::<InstructionView>::empty());
        assert(one.last() == InstructionView::PushBytes(bytes));
        assert(pushed(one.drop_last()) =~= Seq::<u8>::empty());
        assert(pushed(one) =~= bytes);
    } else {
        let head = bytes.take(size as int);
        let tail = bytes.skip(size as int);
        lemma_chunks(tail, size);
        let rest = chunks(tail, size);
        assert(pieces == seq![head] + rest);
        assert forall|i: int| 0 <= i < pieces.len() implies 0 < (#[trigger] pieces[i]).len()
            <= size by {
            if i > 0 {
                assert(pieces[i] == rest[i - 1]);
            }
        }
        let one = pushes(seq![head]);
        assert(pushes(pieces) =~= one + pushes(rest));
        lemma_pushed_concat(one, pushes(rest));
        assert(one.drop_last() =~= Seq::<InstructionView>::empty());
        assert(one.last() == InstructionView::PushBytes(head));
        assert(pushed(one.drop_last()) =~= Seq::<u8>::empty());
        assert(pushed(one) =~= head);
        assert(head + tail =~= bytes);
    }
}

/// The script of a runestone starts with the two opcodes of the protocol,
/// and its payload is the varints of the runestone's integers.
pub proof fn lemma_payload_of_encipher(runestone: RunestoneView)
    ensures
        carries_runestone(ScriptView { instructions: spec_encipher(runestone), malformed: false }),
        script_payload(ScriptView { instructions: spec_encipher(runestone), malformed: false })
            == PayloadView::Valid(varint::encoding_of_all(runestone_integers(runestone))),
{
    let bytes = varint::encoding_of_all(runestone_integers(runestone));
    let data = pushes(chunks(bytes, MAX_SCRIPT_ELEMENT_SIZE as nat));
    let instructions = spec_encipher(runestone);
    lemma_chunks(bytes, MAX_SCRIPT_ELEMENT_SIZE as nat);
    assert(instructions.skip(2) =~= data);
    assert(instructions[0] == InstructionView::Op(OP_RETURN));
    assert(instructions[1] == InstructionView::Op(Runestone::MAGIC_NUMBER));
}

/// The payload of a transaction is that of its first output that starts
/// with the two opcodes of the protocol.
pub proof fn lemma_payload_of_first_carrier(outputs: Seq<ScriptView>, index: int)
    requires
        0 <= index < outputs.len(),
        forall|j: int| 0 <= j < index ==> !carries_runestone(outputs[j]),
        carries_runestone(outputs[index]),
    ensures
        spec_payload(outputs) == Some(script_payload(outputs[index])),
    decreases index,
{
    if index > 0 {
        let rest = outputs.drop_first();
        assert forall|j: int| 0 <= j < index - 1 implies !carries_runestone(rest[j]) by {
            assert(rest[j] == outputs[j + 1]);
        }
        assert(rest[index - 1] == outputs[index]);
        lemma_payload_of_first_carrier(rest, index - 1);
    }
}

/// A transaction without an output that starts with the two opcodes of the
/// protocol carries no runestone: decoding gives nothing, not a cenotaph.
pub proof fn lemma_no_carrier_no_artifact(outputs: Seq<ScriptView>)
    requires
        forall|j: int| 0 <= j < outputs.len() ==> !carries_runestone(outputs[j]),
    ensures
        spec_payload(outputs) is None,
        spec_decipher(outputs) is None,
    decreases outputs.len(),
{
    if outputs.len() > 0 {
        let rest = outputs.drop_first();
        assert forall|j: int| 0 <= j < rest.len() implies !carries_runestone(rest[j]) by {
            assert(rest[j] == outputs[j + 1]);
        }
        lemma_no_carrier_no_artifact(rest);
        assert(!carries_runestone(outputs[0]));
    }
}

/// Where an output carries a payload, decoding gives an artifact; where
/// none does, it gives nothing.
pub proof fn lemma_artifact_iff_carrier(outputs: Seq<ScriptView>)
    ensures
        spec_decipher(outputs) is Some <==> exists|j: int|
            0 <= j < outputs.len() && carries_runestone(outputs[j]),
    decreases outputs.len(),
{
    if outputs.len() > 0 {
        if carries_runestone(outputs[0]) {
        } else {
            let rest = outputs.drop_first();
            lemma_artifact_iff_carrier(rest);
            if spec_decipher(outputs) is Some {
                let j = choose|j: int| 0 <= j < rest.len() && carries_runestone(rest[j]);
                assert(carries_runestone(outputs[j + 1]));
            }
            if exists|j: int| 0 <= j < outputs.len() && carries_runestone(outputs[j]) {
                let j = choose|j: int| 0 <= j < outputs.len() && carries_runestone(outputs[j]);
                assert(carries_runestone(rest[j - 1]));
            }
        }
    }
}

/// A payload that is no sequence of varints gives a cenotaph that holds
/// the flaw and nothing else: no mint and no name.
pub proof fn lemma_varint_flaw(outputs: Seq<ScriptView>, bytes: Seq<u8>)
    requires
        spec_payload(outputs) == Some(PayloadView::Valid(bytes)),
        spec_integers(bytes) is Err,
    ensures
        spec_decipher(outputs) == Some(
            ArtifactView::Cenotaph(
                Cenotaph { etching: None, flaw: Some(Flaw::Varint), mint: None },
            ),
        ),
{
}

/// A varint that does not end within nineteen bytes spoils the payload,
/// whatever integers stand before it.
pub proof fn lemma_endless_varint(ints: Seq<u128>, tail: Seq<u8>)
    requires
        tail.len() >= 19,
        forall|j: int| 0 <= j < 19 ==> tail[j] >= 128,
    ensures
        spec_integers(varint::encoding_of_all(ints) + tail) is Err,
{
    varint::lemma_continued_from_high_bits(tail, 19);
    lemma_integers_of_encoding_before(ints, tail);
}

/// Edicts that ascend from `previous` on are read back from their
/// integers, where their identifiers are well formed.
pub proof fn lemma_edicts_read_back(previous: RuneId, edicts: Seq<Edict>)
    requires
        ascending(edicts),
        edicts.len() > 0 ==> previous.spec_le(edicts[0].id),
        forall|i: int| 0 <= i < edicts.len() ==> edicts[i].id.well_formed(),
    ensures
        spec_edicts(previous, edict_integers(previous, edicts)) == (
            edicts,
            None::<Flaw>,
        ),
    decreases edicts.len(),
{
    let ints = edict_integers(previous, edicts);
    if edicts.len() == 0 {
        assert(edicts =~= Seq::<Edict>::empty());
    } else {
        let edict = edicts[0];
        let rest = edicts.drop_first();
        let step = previous.spec_delta(edict.id)->0;
        let four = seq![step.0, step.1, edict.amount, edict.output as u128];
        previous.lemma_next_of_delta(edict.id);
        assert(ints == four + edict_integers(edict.id, rest));
        assert(ints.skip(4) =~= edict_integers(edict.id, rest));
        assert(ints[0] == step.0 && ints[1] == step.1 && ints[2] == edict.amount && ints[3]
            == edict.output as u128);
        assert forall|i: int, j: int| 0 <= i <= j < rest.len() implies rest[i].id.spec_le(
            rest[j].id,
        ) by {
            assert(rest[i] == edicts[i + 1] && rest[j] == edicts[j + 1]);
        }
        assert forall|i: int| 0 <= i < rest.len() implies rest[i].id.well_formed() by {
            assert(rest[i] == edicts[i + 1]);
        }
        if rest.len() > 0 {
            assert(rest[0] == edicts[1]);
        }
        lemma_edicts_read_back(edict.id, rest);
        assert(Edict::spec_from_integers(edict.id, edict.amount, edict.output as u128)
            == Some(edict));
        assert(seq![edict] + rest =~= edicts);
    }
}

/// The fields with the value, where there is one, before the others under
/// the key of `tag`.
pub open spec fn put(tag: Tag, value: Option<u128>, fields: Map<u128, Seq<u128>>) -> Map<
    u128,
    Seq<u128>,
> {
    match value {
        Some(v) => with_first(fields, tag.spec_key(), v),
        None => fields,
    }
}

/// The fields of `terms`, before `fields`.
pub open spec fn terms_fields(terms: Terms, fields: Map<u128, Seq<u128>>) -> Map<u128, Seq<u128>> {
    put(
        Tag::Amount,
        terms.amount,
        put(
            Tag::Cap,
            terms.cap,
            put(
                Tag::HeightStart,
                wide(terms.height.0),
                put(
                    Tag::HeightEnd,
                    wide(terms.height.1),
                    put(
                        Tag::OffsetStart,
                        wide(terms.offset.0),
                        put(Tag::OffsetEnd, wide(terms.offset.1), fields),
                    ),
                ),
            ),
        ),
    )
}

/// The fields of `etching` but for the flags, before `fields`.
pub open spec fn etching_fields(etching: Etching, fields: Map<u128, Seq<u128>>) -> Map<
    u128,
    Seq<u128>,
> {
    put(
        Tag::Rune,
        match etching.rune {
            Some(rune) => Some(rune.0),
            None => None,
        },
        put(
            Tag::Divisibility,
            match etching.divisibility {
                Some(d) => Some(d as u128),
                None => None,
            },
            put(
                Tag::Spacers,
                match etching.spacers {
                    Some(s) => Some(s as u128),
                    None => None,
                },
                put(
                    Tag::Symbol,
                    match etching.symbol {
                        Some(c) => Some(c as u128),
                        None => None,
                    },
                    put(
                        Tag::Premine,
                        etching.premine,
                        match etching.terms {
                            Some(terms) => terms_fields(terms, fields),
                            None => fields,
                        },
                    ),
                ),
            ),
        ),
    )
}

/// The fields of the mint and the pointer of `runestone`.
pub open spec fn transfer_fields(runestone: RunestoneView) -> Map<u128, Seq<u128>> {
    let pointer = put(
        Tag::Pointer,
        match runestone.pointer {
            Some(p) => Some(p as u128),
            None => None,
        },
        Map::empty(),
    );
    match runestone.mint {
        Some(id) => put(
            Tag::Mint,
            Some(id.block as u128),
            put(Tag::Mint, Some(id.tx as u128), pointer),
        ),
        None => pointer,
    }
}

/// The fields of `runestone`, as its integers spell them.
pub open spec fn runestone_fields(runestone: RunestoneView) -> Map<u128, Seq<u128>> {
    match runestone.etching {
        Some(etching) => put(
            Tag::Flags,
            Some(spec_flags(etching)),
            etching_fields(etching, transfer_fields(runestone)),
        ),
        None => transfer_fields(runestone),
    }
}

/// Three sequences, one after the other.
proof fn lemma_regroup(a: Seq<u128>, b: Seq<u128>, c: Seq<u128>)
    ensures
        (a + b) + c == a + (b + c),
{
    assert((a + b) + c =~= a + (b + c));
}

/// A field at the start of the integers is read first, and stands before
/// what the rest of the integers spell.
proof fn lemma_field_first(tag: Tag, value: Option<u128>, rest: Seq<u128>)
    requires
        tag != Tag::Body,
    ensures
        spec_from_integers(field(tag, value) + rest).flaw == spec_from_integers(rest).flaw,
        spec_from_integers(field(tag, value) + rest).edicts == spec_from_integers(rest).edicts,
        spec_from_integers(field(tag, value) + rest).fields == put(
            tag,
            value,
            spec_from_integers(rest).fields,
        ),
{
    let ints = field(tag, value) + rest;
    match value {
        Some(v) => {
            assert(ints[0] == tag.spec_key());
            assert(ints[1] == v);
            assert(ints.skip(2) =~= rest);
        },
        None => {
            assert(ints =~= rest);
        },
    }
}

/// The fields of terms at the start of the integers.
proof fn lemma_terms_first(terms: Terms, rest: Seq<u128>)
    ensures
        spec_from_integers(terms_integers(terms) + rest).flaw == spec_from_integers(rest).flaw,
        spec_from_integers(terms_integers(terms) + rest).edicts == spec_from_integers(rest).edicts,
        spec_from_integers(terms_integers(terms) + rest).fields == terms_fields(
            terms,
            spec_from_integers(rest).fields,
        ),
{
    let a = field(Tag::Amount, terms.amount);
    let b = field(Tag::Cap, terms.cap);
    let c = field(Tag::HeightStart, wide(terms.height.0));
    let d = field(Tag::HeightEnd, wide(terms.height.1));
    let e = field(Tag::OffsetStart, wide(terms.offset.0));
    let f = field(Tag::OffsetEnd, wide(terms.offset.1));
    let r5 = f + rest;
    let r4 = e + r5;
    let r3 = d + r4;
    let r2 = c + r3;
    let r1 = b + r2;
    lemma_field_first(Tag::OffsetEnd, wide(terms.offset.1), rest);
    lemma_field_first(Tag::OffsetStart, wide(terms.offset.0), r5);
    lemma_field_first(Tag::HeightEnd, wide(terms.height.1), r4);
    lemma_field_first(Tag::HeightStart, wide(terms.height.0), r3);
    lemma_field_first(Tag::Cap, terms.cap, r2);
    lemma_field_first(Tag::Amount, terms.amount, r1);
    lemma_regroup(a + b + c + d + e, f, rest);
    lemma_regroup(a + b + c + d, e, r5);
    lemma_regroup(a + b + c, d, r4);
    lemma_regroup(a + b, c, r3);
    lemma_regroup(a, b, r2);
}

/// The fields of an etching at the start of the integers.
proof fn lemma_etching_first(etching: Etching, rest: Seq<u128>)
    ensures
        spec_from_integers(etching_integers(etching) + rest).flaw == spec_from_integers(rest).flaw,
        spec_from_integers(etching_integers(etching) + rest).edicts
            == spec_from_integers(rest).edicts,
        spec_from_integers(etching_integers(etching) + rest).fields == put(
            Tag::Flags,
            Some(spec_flags(etching)),
            etching_fields(etching, spec_from_integers(rest).fields),
        ),
{
    let rune: Option<u128> = match etching.rune {
        Some(rune) => Some(rune.0),
        None => None,
    };
    let divisibility: Option<u128> = match etching.divisibility {
        Some(d) => Some(d as u128),
        None => None,
    };
    let spacers: Option<u128> = match etching.spacers {
        Some(s) => Some(s as u128),
        None => None,
    };
    let symbol: Option<u128> = match etching.symbol {
        Some(c) => Some(c as u128),
        None => None,
    };
    let a = field(Tag::Flags, Some(spec_flags(etching)));
    let b = field(Tag::Rune, rune);
    let c = field(Tag::Divisibility, divisibility);
    let d = field(Tag::Spacers, spacers);
    let e = field(Tag::Symbol, symbol);
    let f = field(Tag::Premine, etching.premine);
    let g = match etching.terms {
        Some(terms) => terms_integers(terms),
        None => Seq::<u128>::empty(),
    };
    let r6 = g + rest;
    let r5 = f + r6;
    let r4 = e + r5;
    let r3 = d + r4;
    let r2 = c + r3;
    let r1 = b + r2;
    match etching.terms {
        Some(terms) => {
            lemma_terms_first(terms, rest);
        },
        None => {
            assert(r6 =~= rest);
        },
    }
    lemma_field_first(Tag::Premine, etching.premine, r6);
    lemma_field_first(Tag::Symbol, symbol, r5);
    lemma_field_first(Tag::Spacers, spacers, r4);
    lemma_field_first(Tag::Divisibility, divisibility, r3);
    lemma_field_first(Tag::Rune, rune, r2);
    lemma_field_first(Tag::Flags, Some(spec_flags(etching)), r1);
    assert(etching_integers(etching) == a + b + c + d + e + f + g);
    lemma_regroup(a + b + c + d + e + f, g, rest);
    lemma_regroup(a + b + c + d + e, f, r6);
    lemma_regroup(a + b + c + d, e, r5);
    lemma_regroup(a + b + c, d, r4);
    lemma_regroup(a + b, c, r3);
    lemma_regroup(a, b, r2);
}

/// The flags of an etching are taken one by one, and none is left.
proof fn lemma_flags_of_etching(etching: Etching)
    ensures
        ({
            let flags = spec_flags(etching);
            let flags1 = flags & !Flag::Etching.spec_mask();
            let flags2 = flags1 & !Flag::Terms.spec_mask();
            let flags3 = flags2 & !Flag::Turbo.spec_mask();
            &&& flags & Flag::Etching.spec_mask() != 0
            &&& (flags1 & Flag::Terms.spec_mask() != 0) == (etching.terms is Some)
            &&& (flags2 & Flag::Turbo.spec_mask() != 0) == etching.turbo
            &&& flags3 == 0
        }),
{
    assert({
        let flags = 0u128 | 1u128;
        &&& flags & 1u128 != 0
        &&& (flags & !1u128) & 2u128 == 0
        &&& ((flags & !1u128) & !2u128) & 4u128 == 0
        &&& ((flags & !1u128) & !2u128) & !4u128 == 0
    }) by (bit_vector);
    assert({
        let flags = (0u128 | 1u128) | 2u128;
        &&& flags & 1u128 != 0
        &&& (flags & !1u128) & 2u128 != 0
        &&& ((flags & !1u128) & !2u128) & 4u128 == 0
        &&& ((flags & !1u128) & !2u128) & !4u128 == 0
    }) by (bit_vector);
    assert({
        let flags = (0u128 | 1u128) | 4u128;
        &&& flags & 1u128 != 0
        &&& (flags & !1u128) & 2u128 == 0
        &&& ((flags & !1u128) & !2u128) & 4u128 != 0
        &&& ((flags & !1u128) & !2u128) & !4u128 == 0
    }) by (bit_vector);
    assert({
        let flags = ((0u128 | 1u128) | 2u128) | 4u128;
        &&& flags & 1u128 != 0
        &&& (flags & !1u128) & 2u128 != 0
        &&& ((flags & !1u128) & !2u128) & 4u128 != 0
        &&& ((flags & !1u128) & !2u128) & !4u128 == 0
    }) by (bit_vector);
}

/// A field that stands first in the fields is taken, and the others are
/// left.
proof fn lemma_take_put<T>(
    tag: Tag,
    value: Option<u128>,
    inner: Map<u128, Seq<u128>>,
    with: spec_fn(Seq<u128>) -> Option<T>,
    expected: Option<T>,
)
    requires
        !inner.contains_key(tag.spec_key()),
        match value {
            Some(v) => forall|values: Seq<u128>|
                values.len() == 1 && values[0] == v ==> #[trigger] with(values) == expected,
            None => expected is None,
        },
    ensures
        taken(put(tag, value, inner), tag, 1, with) == expected,
        left(put(tag, value, inner), tag, 1) == inner,
{
    let fields = put(tag, value, inner);
    match value {
        Some(v) => {
            let values = fields[tag.spec_key()].take(1);
            assert(values.len() == 1 && values[0] == v);
            assert(fields.remove(tag.spec_key()) =~= inner);
        },
        None => {},
    }
}

/// A field of another key does not stand in the way of a take.
proof fn lemma_take_under<T>(
    other: Tag,
    value: Option<u128>,
    inner: Map<u128, Seq<u128>>,
    tag: Tag,
    n: nat,
    with: spec_fn(Seq<u128>) -> Option<T>,
)
    requires
        other.spec_key() != tag.spec_key(),
    ensures
        taken(put(other, value, inner), tag, n, with) == taken(inner, tag, n, with),
        left(put(other, value, inner), tag, n) == put(
            other,
            value,
            left(inner, tag, n),
        ),
{
    assert(left(put(other, value, inner), tag, n) =~= put(
        other,
        value,
        left(inner, tag, n),
    ));
}

/// Whether `fields` hold nothing under the keys of terms.
pub open spec fn lacks_terms(fields: Map<u128, Seq<u128>>) -> bool {
    &&& !fields.contains_key(Tag::Cap.spec_key())
    &&& !fields.contains_key(Tag::Amount.spec_key())
    &&& !fields.contains_key(Tag::HeightStart.spec_key())
    &&& !fields.contains_key(Tag::HeightEnd.spec_key())
    &&& !fields.contains_key(Tag::OffsetStart.spec_key())
    &&& !fields.contains_key(Tag::OffsetEnd.spec_key())
}

/// The terms that were written are the terms that are taken, and what
/// stood behind them is left.
proof fn lemma_terms_taken(terms: Terms, inner: Map<u128, Seq<u128>>)
    requires
        lacks_terms(inner),
    ensures
        spec_terms(terms_fields(terms, inner)) == (terms, inner),
{
    let integer = |v: Seq<u128>| spec_integer(v);
    let bounded = |v: Seq<u128>| spec_u64(v);
    let f6 = put(Tag::OffsetEnd, wide(terms.offset.1), inner);
    let f5 = put(Tag::OffsetStart, wide(terms.offset.0), f6);
    let f4 = put(Tag::HeightEnd, wide(terms.height.1), f5);
    let f3 = put(Tag::HeightStart, wide(terms.height.0), f4);
    let f2 = put(Tag::Cap, terms.cap, f3);
    let f1 = put(Tag::Amount, terms.amount, f2);
    assert(f1 == terms_fields(terms, inner));
    // the cap, behind the amount
    lemma_take_under(Tag::Amount, terms.amount, f2, Tag::Cap, 1, integer);
    lemma_take_put(Tag::Cap, terms.cap, f3, integer, terms.cap);
    let g1 = put(Tag::Amount, terms.amount, f3);
    assert(left(f1, Tag::Cap, 1) == g1);
    // the start of the heights
    lemma_take_under(Tag::Amount, terms.amount, f3, Tag::HeightStart, 1, bounded);
    lemma_take_put(Tag::HeightStart, wide(terms.height.0), f4, bounded, terms.height.0);
    let g2 = put(Tag::Amount, terms.amount, f4);
    assert(left(g1, Tag::HeightStart, 1) == g2);
    // their end
    lemma_take_under(Tag::Amount, terms.amount, f4, Tag::HeightEnd, 1, bounded);
    lemma_take_put(Tag::HeightEnd, wide(terms.height.1), f5, bounded, terms.height.1);
    let g3 = put(Tag::Amount, terms.amount, f5);
    assert(left(g2, Tag::HeightEnd, 1) == g3);
    // the amount, and the offsets
    lemma_take_put(Tag::Amount, terms.amount, f5, integer, terms.amount);
    lemma_take_put(Tag::OffsetStart, wide(terms.offset.0), f6, bounded, terms.offset.0);
    lemma_take_put(Tag::OffsetEnd, wide(terms.offset.1), inner, bounded, terms.offset.1);
}

/// Whether `fields` hold nothing under the keys of an etching.
pub open spec fn lacks_etching(fields: Map<u128, Seq<u128>>) -> bool {
    &&& lacks_terms(fields)
    &&& !fields.contains_key(Tag::Flags.spec_key())
    &&& !fields.contains_key(Tag::Rune.spec_key())
    &&& !fields.contains_key(Tag::Divisibility.spec_key())
    &&& !fields.contains_key(Tag::Spacers.spec_key())
    &&& !fields.contains_key(Tag::Symbol.spec_key())
    &&& !fields.contains_key(Tag::Premine.spec_key())
}

/// The fields of terms bring the keys of terms and no other.
proof fn lemma_terms_fields_keys(terms: Terms, inner: Map<u128, Seq<u128>>, key: u128)
    requires
        !inner.contains_key(key),
        key != Tag::Cap.spec_key(),
        key != Tag::Amount.spec_key(),
        key != Tag::HeightStart.spec_key(),
        key != Tag::HeightEnd.spec_key(),
        key != Tag::OffsetStart.spec_key(),
        key != Tag::OffsetEnd.spec_key(),
    ensures
        !terms_fields(terms, inner).contains_key(key),
{
}

/// The etching that was written is the etching that is taken, with all of
/// its flags, and what stood behind its fields is left.
proof fn lemma_etching_taken(etching: Etching, inner: Map<u128, Seq<u128>>)
    requires
        lacks_etching(inner),
        etching.divisibility matches Some(d) ==> d <= Etching::MAX_DIVISIBILITY,
        etching.spacers matches Some(s) ==> s <= Etching::MAX_SPACERS,
    ensures
        spec_etching(
            spec_flags(etching) & !Flag::Etching.spec_mask(),
            etching_fields(etching, inner),
        ) == (etching, 0u128, inner),
{
    let integer = |v: Seq<u128>| spec_integer(v);
    let divisible = |v: Seq<u128>| spec_divisibility(v);
    let spaced = |v: Seq<u128>| spec_spacers(v);
    let scalar = |v: Seq<u128>| spec_symbol(v);
    let rune: Option<u128> = match etching.rune {
        Some(rune) => Some(rune.0),
        None => None,
    };
    let divisibility: Option<u128> = match etching.divisibility {
        Some(d) => Some(d as u128),
        None => None,
    };
    let spacers: Option<u128> = match etching.spacers {
        Some(s) => Some(s as u128),
        None => None,
    };
    let symbol: Option<u128> = match etching.symbol {
        Some(c) => Some(c as u128),
        None => None,
    };
    let behind = match etching.terms {
        Some(terms) => terms_fields(terms, inner),
        None => inner,
    };
    match etching.terms {
        Some(terms) => {
            lemma_terms_fields_keys(terms, inner, Tag::Rune.spec_key());
            lemma_terms_fields_keys(terms, inner, Tag::Divisibility.spec_key());
            lemma_terms_fields_keys(terms, inner, Tag::Spacers.spec_key());
            lemma_terms_fields_keys(terms, inner, Tag::Symbol.spec_key());
            lemma_terms_fields_keys(terms, inner, Tag::Premine.spec_key());
            lemma_terms_taken(terms, inner);
        },
        None => {},
    }
    match etching.symbol {
        Some(c) => {
            vstd::utf8::char_is_scalar(c);
            vstd::utf8::char_u32_cast(c, c as u32);
        },
        None => {},
    }
    let f5 = put(Tag::Premine, etching.premine, behind);
    let f4 = put(Tag::Symbol, symbol, f5);
    let f3 = put(Tag::Spacers, spacers, f4);
    let f2 = put(Tag::Divisibility, divisibility, f3);
    let f1 = put(Tag::Rune, rune, f2);
    assert(f1 == etching_fields(etching, inner));
    // the divisibility, behind the rune
    lemma_take_under(Tag::Rune, rune, f2, Tag::Divisibility, 1, divisible);
    lemma_take_put(Tag::Divisibility, divisibility, f3, divisible, etching.divisibility);
    let g1 = put(Tag::Rune, rune, f3);
    assert(left(f1, Tag::Divisibility, 1) == g1);
    // the premine, behind the rune, the spacers and the symbol
    lemma_take_put(Tag::Premine, etching.premine, behind, integer, etching.premine);
    lemma_take_under(Tag::Symbol, symbol, f5, Tag::Premine, 1, integer);
    lemma_take_under(Tag::Spacers, spacers, f4, Tag::Premine, 1, integer);
    lemma_take_under(Tag::Rune, rune, f3, Tag::Premine, 1, integer);
    let h4 = put(Tag::Symbol, symbol, behind);
    let h3 = put(Tag::Spacers, spacers, h4);
    let g2 = put(Tag::Rune, rune, h3);
    assert(left(g1, Tag::Premine, 1) == g2);
    // the rune, the spacers and the symbol
    lemma_take_put(Tag::Rune, rune, h3, integer, rune);
    lemma_take_put(Tag::Spacers, spacers, h4, spaced, etching.spacers);
    lemma_take_put(Tag::Symbol, symbol, behind, scalar, etching.symbol);
    lemma_flags_of_etching(etching);
}

/// The fields of the mint and the pointer bring no key of an etching.
proof fn lemma_transfer_fields_keys(runestone: RunestoneView)
    ensures
        lacks_etching(transfer_fields(runestone)),
{
}

/// The fields of a runestone amount to the runestone, or to a cenotaph
/// where the supply exceeds 128 bits.
proof fn lemma_artifact_of_fields(runestone: RunestoneView, edicts: Seq<Edict>, outputs: nat)
    requires
        in_bounds(runestone, outputs),
    ensures
        spec_artifact(
            outputs,
            MessageView { flaw: None, edicts, fields: runestone_fields(runestone) },
        ) == if supply_fits(runestone) {
            ArtifactView::Runestone(
                RunestoneView {
                    edicts,
                    etching: runestone.etching,
                    mint: runestone.mint,
                    pointer: runestone.pointer,
                },
            )
        } else {
            ArtifactView::Cenotaph(overflowed(runestone))
        },
{
    let integer = |v: Seq<u128>| spec_integer(v);
    let minted = |v: Seq<u128>| spec_mint(v);
    let pointed = |v: Seq<u128>| spec_pointer(outputs, v);
    reveal(spec_taken);
    let transfer = transfer_fields(runestone);
    let pointer: Option<u128> = match runestone.pointer {
        Some(p) => Some(p as u128),
        None => None,
    };
    let last = put(Tag::Pointer, pointer, Map::empty());
    lemma_transfer_fields_keys(runestone);
    // the flags and the etching
    match runestone.etching {
        Some(etching) => {
            let behind = etching_fields(etching, transfer);
            assert(!behind.contains_key(Tag::Flags.spec_key())) by {
                match etching.terms {
                    Some(terms) => {
                        lemma_terms_fields_keys(terms, transfer, Tag::Flags.spec_key());
                    },
                    None => {},
                }
            }
            lemma_take_put(
                Tag::Flags,
                Some(spec_flags(etching)),
                behind,
                integer,
                Some(spec_flags(etching)),
            );
            lemma_flags_of_etching(etching);
            lemma_etching_taken(etching, transfer);
        },
        None => {
            assert(0u128 & 1u128 == 0 && 0u128 & !1u128 == 0) by (bit_vector);
        },
    }
    // the mint
    match runestone.mint {
        Some(id) => {
            let key = Tag::Mint.spec_key();
            let queue = transfer[key];
            assert(queue =~= seq![id.block as u128, id.tx as u128]);
            let values = queue.take(2);
            assert(values[0] == id.block as u128 && values[1] == id.tx as u128);
            assert(spec_mint(values) == Some(id));
            assert(transfer.remove(key) =~= last);
            assert(left(transfer, Tag::Mint, 2) == last);
        },
        None => {
            assert(transfer == last);
        },
    }
    assert(taken(transfer, Tag::Mint, 2, minted) == runestone.mint);
    assert(left(transfer, Tag::Mint, 2) == last);
    // the pointer
    lemma_take_put(Tag::Pointer, pointer, Map::empty(), pointed, runestone.pointer);
    assert(!even_key_left(Map::<u128, Seq<u128>>::empty()));
}

/// Whether what `runestone` holds is within the bounds that decoding
/// enforces in a transaction of `outputs` outputs.
///
/// The identifiers of the edicts and of the mint are well formed, the
/// pointer names an output that there is, and divisibility and spacers are
/// within their maxima.
pub open spec fn in_bounds(runestone: RunestoneView, outputs: nat) -> bool {
    &&& forall|i: int|
        0 <= i < runestone.edicts.len() ==> (#[trigger] runestone.edicts[i]).id.well_formed()
    &&& match runestone.etching {
        Some(etching) => {
            &&& etching.divisibility matches Some(d) ==> d <= Etching::MAX_DIVISIBILITY
            &&& etching.spacers matches Some(s) ==> s <= Etching::MAX_SPACERS
        },
        None => true,
    }
    &&& runestone.mint matches Some(id) ==> id.well_formed()
    &&& runestone.pointer matches Some(p) ==> p < outputs
}

/// Whether the supply of the rune that `runestone` etches, if it etches
/// one, has 128 bits.
pub open spec fn supply_fits(runestone: RunestoneView) -> bool {
    match runestone.etching {
        Some(etching) => etching.spec_supply() <= u128::MAX,
        None => true,
    }
}

/// Which runestones are read back from what they are written to, in a
/// transaction of `outputs` outputs: those within the bounds, with a supply
/// of 128 bits.
pub open spec fn readable(runestone: RunestoneView, outputs: nat) -> bool {
    in_bounds(runestone, outputs) && supply_fits(runestone)
}

/// What is left of a runestone whose supply exceeds 128 bits: the flaw, the
/// mint and the name.
pub open spec fn overflowed(runestone: RunestoneView) -> Cenotaph {
    Cenotaph {
        etching: match runestone.etching {
            Some(etching) => etching.rune,
            None => None,
        },
        flaw: Some(Flaw::SupplyOverflow),
        mint: runestone.mint,
    }
}

/// The integers of a runestone spell its fields and its edicts in
/// ascending order, without a flaw.
pub proof fn lemma_message_of_runestone(runestone: RunestoneView, outputs: nat)
    requires
        in_bounds(runestone, outputs),
    ensures
        spec_from_integers(runestone_integers(runestone)) == (MessageView {
            flaw: None,
            edicts: sorted(runestone.edicts),
            fields: runestone_fields(runestone),
        }),
{
    let zero = RuneId { block: 0, tx: 0 };
    let ordered = sorted(runestone.edicts);
    let body = body_integers(runestone.edicts);
    let pointer: Option<u128> = match runestone.pointer {
        Some(p) => Some(p as u128),
        None => None,
    };
    let etched = match runestone.etching {
        Some(etching) => etching_integers(etching),
        None => Seq::<u128>::empty(),
    };
    let minted = match runestone.mint {
        Some(id) => keyed(Tag::Mint.spec_key(), seq![id.block as u128, id.tx as u128]),
        None => Seq::<u128>::empty(),
    };
    // the body
    lemma_sorted_ascends(runestone.edicts);
    lemma_sorted_permutes(runestone.edicts);
    assert forall|i: int| 0 <= i < ordered.len() implies ordered[i].id.well_formed() by {
        assert(ordered.contains(ordered[i]));
        assert(runestone.edicts.contains(ordered[i]));
        let j = choose|j: int|
            0 <= j < runestone.edicts.len() && runestone.edicts[j] == ordered[i];
        assert(runestone.edicts[j].id.well_formed());
    }
    lemma_edicts_read_back(zero, ordered);
    let read_body = spec_from_integers(body);
    assert(read_body == MessageView {
        flaw: None,
        edicts: ordered,
        fields: Map::<u128, Seq<u128>>::empty(),
    }) by {
        if runestone.edicts.len() == 0 {
            assert(ordered =~= Seq::<Edict>::empty());
        } else {
            assert(body[0] == Tag::Body.spec_key());
            assert(body.skip(1) =~= edict_integers(zero, ordered));
        }
    }
    // the pointer and the mint
    let r3 = field(Tag::Pointer, pointer) + body;
    lemma_field_first(Tag::Pointer, pointer, body);
    let r2 = minted + r3;
    match runestone.mint {
        Some(id) => {
            let block = field(Tag::Mint, Some(id.block as u128));
            let tx = field(Tag::Mint, Some(id.tx as u128));
            let values = seq![id.block as u128, id.tx as u128];
            assert(values.drop_last() =~= seq![id.block as u128]);
            assert(seq![id.block as u128].drop_last() =~= Seq::<u128>::empty());
            assert(keyed(Tag::Mint.spec_key(), Seq::<u128>::empty()) =~= Seq::<u128>::empty());
            assert(keyed(Tag::Mint.spec_key(), seq![id.block as u128]) =~= block);
            assert(minted =~= block + tx);
            lemma_field_first(Tag::Mint, Some(id.tx as u128), r3);
            lemma_field_first(Tag::Mint, Some(id.block as u128), tx + r3);
            assert(r2 =~= block + (tx + r3));
        },
        None => {
            assert(r2 =~= r3);
        },
    }
    assert(spec_from_integers(r2).fields == transfer_fields(runestone));
    // the etching
    match runestone.etching {
        Some(etching) => {
            lemma_etching_first(etching, r2);
        },
        None => {
            assert(etched + r2 =~= r2);
        },
    }
    assert(runestone_integers(runestone) == etched + minted + field(Tag::Pointer, pointer)
        + body);
    lemma_regroup(etched + minted, field(Tag::Pointer, pointer), body);
    lemma_regroup(etched, minted, r3);
}

/// The integers of a runestone amount to the runestone, its edicts in
/// ascending order.
pub proof fn lemma_integers_round_trip(runestone: RunestoneView, outputs: nat)
    requires
        readable(runestone, outputs),
    ensures
        spec_artifact(outputs, spec_from_integers(runestone_integers(runestone)))
            == ArtifactView::Runestone(
            RunestoneView {
                edicts: sorted(runestone.edicts),
                etching: runestone.etching,
                mint: runestone.mint,
                pointer: runestone.pointer,
            },
        ),
{
    lemma_message_of_runestone(runestone, outputs);
    lemma_artifact_of_fields(runestone, sorted(runestone.edicts), outputs);
}

/// A runestone is read back from the transaction that carries its script
/// in its first output that starts with the opcodes of the protocol: the
/// same runestone, with its edicts in ascending order.
pub proof fn lemma_decipher_of_encipher(
    runestone: RunestoneView,
    outputs: Seq<ScriptView>,
    index: int,
)
    requires
        0 <= index < outputs.len(),
        forall|j: int| 0 <= j < index ==> !carries_runestone(outputs[j]),
        outputs[index] == (ScriptView {
            instructions: spec_encipher(runestone),
            malformed: false,
        }),
        readable(runestone, outputs.len()),
    ensures
        spec_decipher(outputs) == Some(
            ArtifactView::Runestone(
                RunestoneView {
                    edicts: sorted(runestone.edicts),
                    etching: runestone.etching,
                    mint: runestone.mint,
                    pointer: runestone.pointer,
                },
            ),
        ),
{
    lemma_payload_of_encipher(runestone);
    lemma_payload_of_first_carrier(outputs, index);
    lemma_integers_of_encoding(runestone_integers(runestone));
    lemma_integers_round_trip(runestone, outputs.len());
}

/// A runestone whose edicts ascend already is read back as it is.
pub proof fn lemma_round_trip(runestone: RunestoneView, outputs: Seq<ScriptView>, index: int)
    requires
        0 <= index < outputs.len(),
        forall|j: int| 0 <= j < index ==> !carries_runestone(outputs[j]),
        outputs[index] == (ScriptView {
            instructions: spec_encipher(runestone),
            malformed: false,
        }),
        readable(runestone, outputs.len()),
        ascending(runestone.edicts),
    ensures
        spec_decipher(outputs) == Some(ArtifactView::Runestone(runestone)),
{
    lemma_decipher_of_encipher(runestone, outputs, index);
    lemma_sorted_of_ascending(runestone.edicts);
}

/// A runestone that etches a rune with a supply beyond 128 bits is read
/// back as a cenotaph: it keeps the flaw, the mint and the name, and its
/// edicts are gone.
pub proof fn lemma_supply_overflow(
    runestone: RunestoneView,
    outputs: Seq<ScriptView>,
    index: int,
)
    requires
        0 <= index < outputs.len(),
        forall|j: int| 0 <= j < index ==> !carries_runestone(outputs[j]),
        outputs[index] == (ScriptView {
            instructions: spec_encipher(runestone),
            malformed: false,
        }),
        in_bounds(runestone, outputs.len()),
        !supply_fits(runestone),
    ensures
        spec_decipher(outputs) == Some(ArtifactView::Cenotaph(overflowed(runestone))),
{
    lemma_payload_of_encipher(runestone);
    lemma_payload_of_first_carrier(outputs, index);
    lemma_integers_of_encoding(runestone_integers(runestone));
    lemma_message_of_runestone(runestone, outputs.len());
    lemma_artifact_of_fields(runestone, sorted(runestone.edicts), outputs.len());
}

/// The edicts that are read ascend from `previous` on, and their
/// identifiers are well formed.
pub proof fn lemma_edicts_ascend(previous: RuneId, ints: Seq<u128>)
    ensures
        ascending(spec_edicts(previous, ints).0),
        forall|i: int|
            0 <= i < spec_edicts(previous, ints).0.len() ==> (#[trigger] spec_edicts(
                previous,
                ints,
            ).0[i]).id.well_formed() && previous.spec_le(spec_edicts(previous, ints).0[i].id),
    decreases ints.len(),
{
    let edicts = spec_edicts(previous, ints).0;
    if ints.len() >= 4 {
        match previous.spec_next(ints[0], ints[1]) {
            Some(id) => match Edict::spec_from_integers(id, ints[2], ints[3]) {
                Some(edict) => {
                    let rest = spec_edicts(id, ints.skip(4)).0;
                    lemma_edicts_ascend(id, ints.skip(4));
                    previous.lemma_delta_of_next(ints[0], ints[1]);
                    assert(edicts == seq![edict] + rest);
                    assert forall|i: int| 0 <= i < edicts.len() implies (#[trigger] edicts[i]).id.well_formed()
                        && previous.spec_le(edicts[i].id) by {
                        if i > 0 {
                            assert(edicts[i] == rest[i - 1]);
                            RuneId::lemma_order_is_total(previous, id, rest[i - 1].id);
                        }
                    }
                    assert forall|i: int, j: int| 0 <= i <= j < edicts.len() implies edicts[i].id.spec_le(
                        edicts[j].id,
                    ) by {
                        RuneId::lemma_order_is_total(edicts[i].id, edicts[j].id, id);
                        if i > 0 {
                            assert(edicts[i] == rest[i - 1] && edicts[j] == rest[j - 1]);
                        } else if j > 0 {
                            assert(edicts[j] == rest[j - 1]);
                        }
                    }
                },
                None => {},
            },
            None => {},
        }
    }
}

/// The edicts of a message ascend, and their identifiers are well formed.
pub proof fn lemma_message_edicts_ascend(ints: Seq<u128>)
    ensures
        ascending(spec_from_integers(ints).edicts),
        forall|i: int|
            0 <= i < spec_from_integers(ints).edicts.len() ==> (#[trigger] spec_from_integers(
                ints,
            ).edicts[i]).id.well_formed(),
    decreases ints.len(),
{
    if ints.len() > 0 {
        if ints[0] == Tag::Body.spec_key() {
            lemma_edicts_ascend(RuneId { block: 0, tx: 0 }, ints.skip(1));
        } else if ints.len() >= 2 {
            lemma_message_edicts_ascend(ints.skip(2));
        }
    }
}

/// A runestone that was read from a transaction is one that is read back
/// from what it is written to, as it is: what it holds is within the
/// bounds, its supply has 128 bits, and its edicts ascend.
pub proof fn lemma_deciphered_is_readable(outputs: Seq<ScriptView>)
    ensures
        spec_decipher(outputs) matches Some(ArtifactView::Runestone(runestone)) ==> readable(
            runestone,
            outputs.len(),
        ) && ascending(runestone.edicts),
{
    reveal(spec_taken);
    match spec_payload(outputs) {
        Some(PayloadView::Valid(bytes)) => match spec_integers(bytes) {
            Ok(ints) => {
                lemma_message_edicts_ascend(ints);
            },
            Err(_) => {},
        },
        _ => {},
    }
}

/// The first flaw stands: a message with a flaw from its reading is a
/// cenotaph with that flaw.
pub proof fn lemma_first_flaw_stands(outputs: nat, message: MessageView)
    requires
        message.flaw is Some,
    ensures
        spec_artifact(outputs, message) matches ArtifactView::Cenotaph(cenotaph) && cenotaph.flaw
            == message.flaw,
{
}

/// A cenotaph always has a flaw, and a runestone comes only from a message
/// that was read without one, whose edicts it keeps.
pub proof fn lemma_cenotaph_has_flaw(outputs: nat, message: MessageView)
    ensures
        match spec_artifact(outputs, message) {
            ArtifactView::Cenotaph(cenotaph) => cenotaph.flaw is Some,
            ArtifactView::Runestone(runestone) => message.flaw is None && runestone.edicts
                == message.edicts,
        },
{
}

/// Whether `key` is one of the even keys that decoding takes.
pub open spec fn taken_even_key(key: u128) -> bool {
    ||| key == Tag::Flags.spec_key()
    ||| key == Tag::Rune.spec_key()
    ||| key == Tag::Premine.spec_key()
    ||| key == Tag::Cap.spec_key()
    ||| key == Tag::Amount.spec_key()
    ||| key == Tag::HeightStart.spec_key()
    ||| key == Tag::HeightEnd.spec_key()
    ||| key == Tag::OffsetStart.spec_key()
    ||| key == Tag::OffsetEnd.spec_key()
    ||| key == Tag::Mint.spec_key()
    ||| key == Tag::Pointer.spec_key()
}

/// Whether `key` is one of the odd keys that decoding takes.
pub open spec fn taken_odd_key(key: u128) -> bool {
    ||| key == Tag::Divisibility.spec_key()
    ||| key == Tag::Spacers.spec_key()
    ||| key == Tag::Symbol.spec_key()
}

/// A take leaves the fields of other keys as they are.
proof fn lemma_take_keeps<T>(
    fields: Map<u128, Seq<u128>>,
    key: u128,
    tag: Tag,
    n: nat,
    with: spec_fn(Seq<u128>) -> Option<T>,
)
    requires
        key != tag.spec_key(),
    ensures
        left(fields, tag, n).contains_key(key) == fields.contains_key(key),
        taken(fields.remove(key), tag, n, with) == taken(fields, tag, n, with),
        left(fields.remove(key), tag, n) == left(fields, tag, n).remove(key),
{
    assert(left(fields.remove(key), tag, n) =~= left(fields, tag, n).remove(key));
}

/// Taking the terms leaves the fields of other keys as they are.
proof fn lemma_terms_keep(fields: Map<u128, Seq<u128>>, key: u128)
    requires
        !taken_even_key(key),
        !taken_odd_key(key),
    ensures
        spec_terms(fields).1.contains_key(key) == fields.contains_key(key),
        spec_terms(fields.remove(key)) == (spec_terms(fields).0, spec_terms(fields).1.remove(key)),
{
    let integer = |v: Seq<u128>| spec_integer(v);
    let bounded = |v: Seq<u128>| spec_u64(v);
    let f1 = left(fields, Tag::Cap, 1);
    let f2 = left(f1, Tag::HeightStart, 1);
    let f3 = left(f2, Tag::HeightEnd, 1);
    let f4 = left(f3, Tag::Amount, 1);
    let f5 = left(f4, Tag::OffsetStart, 1);
    lemma_take_keeps(fields, key, Tag::Cap, 1, integer);
    lemma_take_keeps(f1, key, Tag::HeightStart, 1, bounded);
    lemma_take_keeps(f2, key, Tag::HeightEnd, 1, bounded);
    lemma_take_keeps(f3, key, Tag::Amount, 1, integer);
    lemma_take_keeps(f4, key, Tag::OffsetStart, 1, bounded);
    lemma_take_keeps(f5, key, Tag::OffsetEnd, 1, bounded);
}

/// Taking the etching leaves the fields of other keys as they are.
proof fn lemma_etching_keeps(flags: u128, fields: Map<u128, Seq<u128>>, key: u128)
    requires
        !taken_even_key(key),
        !taken_odd_key(key),
    ensures
        spec_etching(flags, fields).2.contains_key(key) == fields.contains_key(key),
        spec_etching(flags, fields.remove(key)) == (
            spec_etching(flags, fields).0,
            spec_etching(flags, fields).1,
            spec_etching(flags, fields).2.remove(key),
        ),
{
    let integer = |v: Seq<u128>| spec_integer(v);
    let divisible = |v: Seq<u128>| spec_divisibility(v);
    let spaced = |v: Seq<u128>| spec_spacers(v);
    let scalar = |v: Seq<u128>| spec_symbol(v);
    let f1 = left(fields, Tag::Divisibility, 1);
    let f2 = left(f1, Tag::Premine, 1);
    let f3 = left(f2, Tag::Rune, 1);
    let f4 = left(f3, Tag::Spacers, 1);
    let f5 = left(f4, Tag::Symbol, 1);
    lemma_take_keeps(fields, key, Tag::Divisibility, 1, divisible);
    lemma_take_keeps(f1, key, Tag::Premine, 1, integer);
    lemma_take_keeps(f2, key, Tag::Rune, 1, integer);
    lemma_take_keeps(f3, key, Tag::Spacers, 1, spaced);
    lemma_take_keeps(f4, key, Tag::Symbol, 1, scalar);
    lemma_terms_keep(f5, key);
}

/// Taking the flags, the etching, the mint and the pointer leaves the
/// fields of other keys as they are.
proof fn lemma_taken_keeps(outputs: nat, fields: Map<u128, Seq<u128>>, key: u128)
    requires
        !taken_even_key(key),
        !taken_odd_key(key),
    ensures
        spec_taken(outputs, fields).fields.contains_key(key) == fields.contains_key(key),
        spec_taken(outputs, fields.remove(key)) == (Taken {
            fields: spec_taken(outputs, fields).fields.remove(key),
            ..spec_taken(outputs, fields)
        }),
{
    let integer = |v: Seq<u128>| spec_integer(v);
    let minted = |v: Seq<u128>| spec_mint(v);
    let pointed = |v: Seq<u128>| spec_pointer(outputs, v);
    let flags0 = match taken(fields, Tag::Flags, 1, integer) {
        Some(flags) => flags,
        None => 0u128,
    };
    let f0 = left(fields, Tag::Flags, 1);
    let etches = flags0 & Flag::Etching.spec_mask() != 0;
    let flags1 = flags0 & !Flag::Etching.spec_mask();
    let f1 = if etches {
        spec_etching(flags1, f0).2
    } else {
        f0
    };
    let f2 = left(f1, Tag::Mint, 2);
    reveal(spec_taken);
    lemma_take_keeps(fields, key, Tag::Flags, 1, integer);
    lemma_etching_keeps(flags1, f0, key);
    lemma_take_keeps(f1, key, Tag::Mint, 2, minted);
    lemma_take_keeps(f2, key, Tag::Pointer, 1, pointed);
}

/// An even key that decoding does not take makes the message a cenotaph.
/// Where the message has no earlier flaw, the flaw is that of the supply,
/// of a flag that is left, or of the even key.
pub proof fn lemma_even_key_is_flaw(outputs: nat, message: MessageView, key: u128)
    requires
        message.fields.contains_key(key),
        key % 2 == 0,
        !taken_even_key(key),
    ensures
        spec_artifact(outputs, message) matches ArtifactView::Cenotaph(cenotaph) && ({
            ||| cenotaph.flaw == message.flaw && message.flaw is Some
            ||| cenotaph.flaw == Some(Flaw::SupplyOverflow)
            ||| cenotaph.flaw == Some(Flaw::UnrecognizedFlag)
            ||| cenotaph.flaw == Some(Flaw::UnrecognizedEvenTag)
        }),
{
    lemma_taken_keeps(outputs, message.fields, key);
    assert(even_key_left(spec_taken(outputs, message.fields).fields));
}

/// An odd key that decoding does not take is passed over: the message
/// amounts to what it amounts to without the field of that key.
pub proof fn lemma_odd_key_is_ignored(outputs: nat, message: MessageView, key: u128)
    requires
        key % 2 == 1,
        !taken_odd_key(key),
    ensures
        spec_artifact(
            outputs,
            MessageView {
                flaw: message.flaw,
                edicts: message.edicts,
                fields: message.fields.remove(key),
            },
        ) == spec_artifact(outputs, message),
{
    let with_key = spec_taken(outputs, message.fields).fields;
    let without_key = with_key.remove(key);
    lemma_taken_keeps(outputs, message.fields, key);
    assert(even_key_left(with_key) == even_key_left(without_key)) by {
        if even_key_left(with_key) {
            let k = choose|k: u128| with_key.contains_key(k) && k % 2 == 0;
            assert(without_key.contains_key(k));
        }
        if even_key_left(without_key) {
            let k = choose|k: u128| without_key.contains_key(k) && k % 2 == 0;
            assert(with_key.contains_key(k));
        }
    }
}

} // verus!
