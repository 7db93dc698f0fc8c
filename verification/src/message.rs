//! The first reading of a payload's integers: fields and edicts.

use vstd::prelude::*;
use std::collections::HashMap;
use std::collections::VecDeque;
use crate::edict::Edict;
use crate::flaw::Flaw;
use crate::rune_id::RuneId;
use crate::tag::{no_empty_queue, queues, Fields, Tag};

verus! {

/// What the integers of a payload spell before any field is understood:
/// the values under each key, the edicts, and the first flaw met.
pub struct Message {
    pub flaw: Option<Flaw>,
    pub edicts: Vec<Edict>,
    pub fields: Fields,
}

/// The view of a message.
pub struct MessageView {
    pub flaw: Option<Flaw>,
    pub edicts: Seq<Edict>,
    pub fields: Map<u128, Seq<u128>>,
}

impl View for Message {
    type V = MessageView;

    open spec fn view(&self) -> MessageView {
        MessageView { flaw: self.flaw, edicts: self.edicts@, fields: queues(self.fields@) }
    }
}

/// The values under `key`, none where the key is absent.
pub open spec fn queue(fields: Map<u128, Seq<u128>>, key: u128) -> Seq<u128> {
    if fields.contains_key(key) {
        fields[key]
    } else {
        Seq::empty()
    }
}

/// The fields with `value` before the other values under `key`.
pub open spec fn with_first(fields: Map<u128, Seq<u128>>, key: u128, value: u128) -> Map<
    u128,
    Seq<u128>,
> {
    fields.insert(key, seq![value] + queue(fields, key))
}

/// The fields with `value` after the other values under `key`.
pub open spec fn with_last(fields: Map<u128, Seq<u128>>, key: u128, value: u128) -> Map<
    u128,
    Seq<u128>,
> {
    fields.insert(key, queue(fields, key).push(value))
}

/// Under each key the values of `first`, then those of `second`.
pub open spec fn joined(first: Map<u128, Seq<u128>>, second: Map<u128, Seq<u128>>) -> Map<
    u128,
    Seq<u128>,
> {
    Map::new(
        |key: u128| first.contains_key(key) || second.contains_key(key),
        |key: u128| queue(first, key) + queue(second, key),
    )
}

/// The edicts that `ints` spell in fours, and the flaw that ends them.
///
/// Each four is a step from the identifier before it (from `previous` at
/// first), an amount and an output. Integers that are left over, a step
/// that leads nowhere and an output beyond 32 bits each end the edicts with
/// a flaw; the edicts before stand.
pub open spec fn spec_edicts(previous: RuneId, ints: Seq<u128>) -> (
    Seq<Edict>,
    Option<Flaw>,
)
    decreases ints.len(),
{
    if ints.len() == 0 {
        (Seq::empty(), None)
    } else if ints.len() < 4 {
        (Seq::empty(), Some(Flaw::TrailingIntegers))
    } else {
        match previous.spec_next(ints[0], ints[1]) {
            None => (Seq::empty(), Some(Flaw::EdictRuneId)),
            Some(id) => match Edict::spec_from_integers(id, ints[2], ints[3]) {
                None => (Seq::empty(), Some(Flaw::EdictOutput)),
                Some(edict) => {
                    let rest = spec_edicts(id, ints.skip(4));
                    (seq![edict] + rest.0, rest.1)
                },
            },
        }
    }
}

/// The message that `ints` spell.
///
/// The integers are read in pairs of key and value until the body key,
/// after which all are edicts. A key without a value ends the reading with
/// a flaw; the fields before it stand.
pub open spec fn spec_from_integers(ints: Seq<u128>) -> MessageView
    decreases ints.len(),
{
    if ints.len() == 0 {
        MessageView { flaw: None, edicts: Seq::empty(), fields: Map::empty() }
    } else if ints[0] == Tag::Body.spec_key() {
        let body = spec_edicts(RuneId { block: 0, tx: 0 }, ints.skip(1));
        MessageView { flaw: body.1, edicts: body.0, fields: Map::empty() }
    } else if ints.len() == 1 {
        MessageView {
            flaw: Some(Flaw::TruncatedField),
            edicts: Seq::empty(),
            fields: Map::empty(),
        }
    } else {
        let rest = spec_from_integers(ints.skip(2));
        MessageView {
            flaw: rest.flaw,
            edicts: rest.edicts,
            fields: with_first(rest.fields, ints[0], ints[1]),
        }
    }
}

/// No message keeps a key without a value.
pub proof fn lemma_from_integers_no_empty_queue(ints: Seq<u128>)
    ensures
        no_empty_queue(spec_from_integers(ints).fields),
    decreases ints.len(),
{
    if ints.len() >= 2 && ints[0] != Tag::Body.spec_key() {
        lemma_from_integers_no_empty_queue(ints.skip(2));
    }
}

/// Reads the edicts from `payload[start..]`.
fn edicts_from_integers(payload: &[u128], start: usize) -> (r: (Vec<Edict>, Option<Flaw>))
    requires
        start <= payload@.len(),
    ensures
        (r.0@, r.1) == spec_edicts(RuneId { block: 0, tx: 0 }, payload@.skip(start as int)),
{
    let ghost all = spec_edicts(RuneId { block: 0, tx: 0 }, payload@.skip(start as int));
    let mut edicts: Vec<Edict> = Vec::new();
    let mut id: RuneId = RuneId::default();
    let mut j: usize = start;
    assert(Seq::<Edict>::empty() + all.0 =~= all.0);
    while j < payload.len()
        invariant
            start <= j <= payload@.len(),
            all == spec_edicts(RuneId { block: 0, tx: 0 }, payload@.skip(start as int)),
            all == (
                edicts@ + spec_edicts(id, payload@.skip(j as int)).0,
                spec_edicts(id, payload@.skip(j as int)).1,
            ),
        decreases payload@.len() - j,
    {
        let ghost rest = payload@.skip(j as int);
        assert(rest.len() == payload@.len() - j);
        if payload.len() - j < 4 {
            assert(spec_edicts(id, rest) == (
                Seq::<Edict>::empty(),
                Some(Flaw::TrailingIntegers),
            ));
            assert(edicts@ + Seq::<Edict>::empty() =~= edicts@);
            return (edicts, Some(Flaw::TrailingIntegers));
        }
        assert(rest[0] == payload@[j as int] && rest[1] == payload@[j + 1] && rest[2] == payload@[j
            + 2] && rest[3] == payload@[j + 3]);
        let next: RuneId = match id.next(payload[j], payload[j + 1]) {
            Some(next) => next,
            None => {
                assert(spec_edicts(id, rest) == (
                    Seq::<Edict>::empty(),
                    Some(Flaw::EdictRuneId),
                ));
                assert(edicts@ + Seq::<Edict>::empty() =~= edicts@);
                return (edicts, Some(Flaw::EdictRuneId));
            },
        };
        let edict: Edict = match Edict::from_integers(next, payload[j + 2], payload[j + 3]) {
            Some(edict) => edict,
            None => {
                assert(spec_edicts(id, rest) == (
                    Seq::<Edict>::empty(),
                    Some(Flaw::EdictOutput),
                ));
                assert(edicts@ + Seq::<Edict>::empty() =~= edicts@);
                return (edicts, Some(Flaw::EdictOutput));
            },
        };
        proof {
            assert(rest.skip(4) =~= payload@.skip(j + 4));
            let after = spec_edicts(next, payload@.skip(j + 4));
            assert(spec_edicts(id, rest) == (seq![edict] + after.0, after.1));
            assert(edicts@.push(edict) + after.0 =~= edicts@ + (seq![edict] + after.0));
        }
        id = next;
        edicts.push(edict);
        j += 4;
    }
    assert(payload@.skip(j as int).len() == 0);
    assert(edicts@ + Seq::<Edict>::empty() =~= edicts@);
    (edicts, None)
}

/// Puts `value` after the other values under `key`.
fn push_value(fields: &mut Fields, key: u128, value: u128)
    ensures
        queues(final(fields)@) == with_last(queues(old(fields)@), key, value),
{
    let mut values: VecDeque<u128> = match fields.remove(&key) {
        Some(values) => values,
        None => VecDeque::new(),
    };
    values.push_back(value);
    fields.insert(key, values);
    assert(queues(fields@) =~= with_last(queues(old(fields)@), key, value));
}

impl Message {
    /// Reads the integers of a payload.
    pub fn from_integers(payload: &[u128]) -> (r: Message)
        ensures
            r@ == spec_from_integers(payload@),
            no_empty_queue(r@.fields),
    {
            let ghost all = spec_from_integers(payload@);
        let mut fields: Fields = HashMap::new();
        let mut i: usize = 0;
        proof {
            lemma_from_integers_no_empty_queue(payload@);
            assert(payload@.skip(0) =~= payload@);
            assert(joined(queues(fields@), all.fields) =~= all.fields);
        }
        while i < payload.len()
            invariant
                i <= payload@.len(),
                    all == spec_from_integers(payload@),
                no_empty_queue(all.fields),
                all.flaw == spec_from_integers(payload@.skip(i as int)).flaw,
                all.edicts == spec_from_integers(payload@.skip(i as int)).edicts,
                all.fields == joined(
                    queues(fields@),
                    spec_from_integers(payload@.skip(i as int)).fields,
                ),
            decreases payload@.len() - i,
        {
            let ghost rest = payload@.skip(i as int);
            assert(rest.len() == payload@.len() - i);
            assert(rest[0] == payload@[i as int]);
            let tag: u128 = payload[i];
            if tag == Tag::Body.key() {
                assert(rest.skip(1) =~= payload@.skip(i + 1));
                let (edicts, flaw) = edicts_from_integers(payload, i + 1);
                let message = Message { flaw, edicts, fields };
                proof {
                    let body = spec_edicts(RuneId { block: 0, tx: 0 }, rest.skip(1));
                    assert(spec_from_integers(rest) == MessageView {
                        flaw: body.1,
                        edicts: body.0,
                        fields: Map::empty(),
                    });
                    assert(joined(queues(message.fields@), Map::<u128, Seq<u128>>::empty())
                        =~= queues(message.fields@));
                }
                return message;
            }
            if i + 1 >= payload.len() {
                let message = Message {
                    flaw: Some(Flaw::TruncatedField),
                    edicts: Vec::new(),
                    fields,
                };
                proof {
                    assert(spec_from_integers(rest) == MessageView {
                        flaw: Some(Flaw::TruncatedField),
                        edicts: Seq::empty(),
                        fields: Map::empty(),
                    });
                    assert(joined(queues(message.fields@), Map::<u128, Seq<u128>>::empty())
                        =~= queues(message.fields@));
                }
                return message;
            }
            let value: u128 = payload[i + 1];
            proof {
                assert(rest[1] == value);
                assert(rest.skip(2) =~= payload@.skip(i + 2));
                let after = spec_from_integers(payload@.skip(i + 2)).fields;
                let now = with_last(queues(fields@), tag, value);
                assert forall|key: u128|
                    queue(now, key) + queue(after, key) == queue(queues(fields@), key) + queue(
                        with_first(after, tag, value),
                        key,
                    ) by {
                    assert(queue(now, key) + queue(after, key) =~= queue(queues(fields@), key)
                        + queue(with_first(after, tag, value), key));
                }
                assert(joined(now, after) =~= joined(queues(fields@), with_first(after, tag, value)));
            }
            push_value(&mut fields, tag, value);
            i += 2;
        }
        proof {
            assert(payload@.skip(i as int).len() == 0);
            assert(joined(queues(fields@), Map::<u128, Seq<u128>>::empty()) =~= queues(fields@));
        }
        Message { flaw: None, edicts: Vec::new(), fields }
    }
}

} // verus!
