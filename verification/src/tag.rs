//! The keys of a runestone's fields, and the fields themselves.

use vstd::prelude::*;
use std::collections::HashMap;
use std::collections::VecDeque;
use crate::varint;

verus! {

/// The fields of a message: under each key the values that came with it, in
/// the order in which they came. No key is kept without a value.
pub type Fields = HashMap<u128, VecDeque<u128>>;

/// The key of a field. Even keys must be understood by whoever reads the
/// message; odd keys may be passed over.
#[derive(Clone, Copy, Debug, PartialEq, Eq, Structural)]
pub enum Tag {
    Body,
    Flags,
    Rune,
    Premine,
    Cap,
    Amount,
    HeightStart,
    HeightEnd,
    OffsetStart,
    OffsetEnd,
    Mint,
    Pointer,
    Cenotaph,
    Divisibility,
    Spacers,
    Symbol,
    Nop,
}

/// The view of the fields: the queue of values under each key.
pub open spec fn queues(fields: Map<u128, VecDeque<u128>>) -> Map<u128, Seq<u128>> {
    fields.map_values(|queue: VecDeque<u128>| queue@)
}

/// No key is kept without a value.
pub open spec fn no_empty_queue(fields: Map<u128, Seq<u128>>) -> bool {
    forall|key: u128| fields.contains_key(key) ==> (#[trigger] fields[key]).len() > 0
}

/// The first `n` values under `key`, where it has as many.
pub open spec fn first_values(fields: Map<u128, Seq<u128>>, key: u128, n: nat) -> Option<
    Seq<u128>,
> {
    if fields.contains_key(key) && fields[key].len() >= n {
        Some(fields[key].take(n as int))
    } else {
        None
    }
}

/// The fields without the first `n` values under `key`, and without the key
/// where no value is left.
pub open spec fn without_first(fields: Map<u128, Seq<u128>>, key: u128, n: nat) -> Map<
    u128,
    Seq<u128>,
> {
    if fields[key].len() <= n {
        fields.remove(key)
    } else {
        fields.insert(key, fields[key].skip(n as int))
    }
}

/// `key` before each of `values`.
pub open spec fn keyed(key: u128, values: Seq<u128>) -> Seq<u128>
    decreases values.len(),
{
    if values.len() == 0 {
        Seq::empty()
    } else {
        keyed(key, values.drop_last()).push(key).push(values.last())
    }
}

impl Tag {
    /// The integer that stands for this tag in a message.
    pub open spec fn spec_key(self) -> u128 {
        match self {
            Tag::Body => 0,
            Tag::Flags => 2,
            Tag::Rune => 4,
            Tag::Premine => 6,
            Tag::Cap => 8,
            Tag::Amount => 10,
            Tag::HeightStart => 12,
            Tag::HeightEnd => 14,
            Tag::OffsetStart => 16,
            Tag::OffsetEnd => 18,
            Tag::Mint => 20,
            Tag::Pointer => 22,
            Tag::Cenotaph => 126,
            Tag::Divisibility => 1,
            Tag::Spacers => 3,
            Tag::Symbol => 5,
            Tag::Nop => 127,
        }
    }

    /// The integer that stands for this tag in a message.
    pub fn key(self) -> (k: u128)
        ensures
            k == self.spec_key(),
    {
        match self {
            Tag::Body => 0,
            Tag::Flags => 2,
            Tag::Rune => 4,
            Tag::Premine => 6,
            Tag::Cap => 8,
            Tag::Amount => 10,
            Tag::HeightStart => 12,
            Tag::HeightEnd => 14,
            Tag::OffsetStart => 16,
            Tag::OffsetEnd => 18,
            Tag::Mint => 20,
            Tag::Pointer => 22,
            Tag::Cenotaph => 126,
            Tag::Divisibility => 1,
            Tag::Spacers => 3,
            Tag::Symbol => 5,
            Tag::Nop => 127,
        }
    }

    /// Takes up to `n` values from the front of this tag's field, and the
    /// key with the last value. Where they are `n`, the result is what
    /// `with` makes of them; where they are fewer, or the field is absent,
    /// there is none.
    pub fn take<T, F: Fn(&Vec<u128>) -> Option<T>>(self, n: usize, fields: &mut Fields, with: F) -> (r:
        Option<T>)
        requires
            forall|values: Vec<u128>| values@.len() == n ==> call_requires(with, (&values,)),
        ensures
            match first_values(queues(old(fields)@), self.spec_key(), n as nat) {
                None => r is None,
                Some(values) => exists|v: Vec<u128>| v@ == values && call_ensures(with, (&v,), r),
            },
            queues(final(fields)@) == if queues(old(fields)@).contains_key(self.spec_key()) {
                without_first(queues(old(fields)@), self.spec_key(), n as nat)
            } else {
                queues(old(fields)@)
            },
            no_empty_queue(queues(old(fields)@)) ==> no_empty_queue(queues(final(fields)@)),
    {
        let key: u128 = self.key();
        let mut queue: VecDeque<u128> = match fields.remove(&key) {
            None => {
                assert(queues(fields@) =~= queues(old(fields)@));
                return None;
            },
            Some(queue) => queue,
        };
        let ghost before = queue@;
        let mut values: Vec<u128> = Vec::new();
        while values.len() < n && queue.len() > 0
            invariant
                values@.len() <= n,
                values@.len() <= before.len(),
                values@ == before.take(values@.len() as int),
                queue@ == before.skip(values@.len() as int),
            decreases queue@.len(),
        {
            let ghost taken = values@.len() as int;
            let value: u128 = match queue.pop_front() {
                Some(value) => value,
                None => 0,
            };
            values.push(value);
            assert(before.take(taken).push(before[taken]) =~= before.take(taken + 1));
            assert(before.skip(taken).drop_first() =~= before.skip(taken + 1));
        }
        if queue.len() > 0 {
            fields.insert(key, queue);
        }
        assert(queues(fields@) =~= without_first(queues(old(fields)@), key, n as nat));
        if values.len() < n {
            return None;
        }
        with(&values)
    }

    /// Appends this tag's key and a value, for each of `values`.
    pub fn encode(self, values: &Vec<u128>, payload: &mut Vec<u8>)
        ensures
            final(payload)@ == old(payload)@ + varint::encoding_of_all(
                keyed(self.spec_key(), values@),
            ),
    {
        let mut i: usize = 0;
        assert(keyed(self.spec_key(), values@.take(0)) =~= Seq::<u128>::empty());
        assert(payload@ + varint::encoding_of_all(Seq::<u128>::empty()) =~= payload@);
        while i < values.len()
            invariant
                i <= values@.len(),
                payload@ == old(payload)@ + varint::encoding_of_all(
                    keyed(self.spec_key(), values@.take(i as int)),
                ),
            decreases values@.len() - i,
        {
            let ghost done = keyed(self.spec_key(), values@.take(i as int));
            varint::encode_to_vec(self.key(), payload);
            varint::encode_to_vec(values[i], payload);
            i += 1;
            proof {
                let now = keyed(self.spec_key(), values@.take(i as int));
                assert(values@.take(i as int).drop_last() =~= values@.take(i - 1));
                assert(now == done.push(self.spec_key()).push(values@[i - 1]));
                varint::lemma_encoding_of_all_push(done, self.spec_key());
                varint::lemma_encoding_of_all_push(done.push(self.spec_key()), values@[i - 1]);
                assert(payload@ =~= old(payload)@ + varint::encoding_of_all(now));
            }
        }
        assert(values@.take(values@.len() as int) =~= values@);
    }

    /// Appends this tag's key and `value`, where there is one.
    pub fn encode_option(self, value: Option<u128>, payload: &mut Vec<u8>)
        ensures
            final(payload)@ == old(payload)@ + varint::encoding_of_all(
                match value {
                    Some(v) => seq![self.spec_key(), v],
                    None => Seq::empty(),
                },
            ),
    {
        match value {
            Some(v) => {
                varint::encode_to_vec(self.key(), payload);
                varint::encode_to_vec(v, payload);
                proof {
                    let both = seq![self.spec_key(), v];
                    let none = Seq::<u128>::empty();
                    assert(both =~= none.push(self.spec_key()).push(v));
                    varint::lemma_encoding_of_all_push(none, self.spec_key());
                    varint::lemma_encoding_of_all_push(none.push(self.spec_key()), v);
                    assert(payload@ =~= old(payload)@ + varint::encoding_of_all(both));
                }
            },
            None => {
                assert(payload@ =~= old(payload)@ + varint::encoding_of_all(Seq::<u128>::empty()));
            },
        }
    }
}

} // verus!
