//! Unsigned integers of up to 128 bits as little-endian base-128 groups,
//! each byte but the last with its high bit set.

use vstd::prelude::*;

verus! {

/// Why a byte string does not start with a varint.
#[derive(Clone, Copy, Debug, PartialEq, Eq, Structural)]
pub enum Error {
    /// More than nineteen groups before a final one.
    Overlong,
    /// The nineteenth group carries bits beyond the 128th.
    Overflow,
    /// The bytes end before a final group.
    Unterminated,
}

/// The longest encoding of a 128-bit value, in bytes.
pub const MAX_LEN: usize = 19;

/// `128` to the power `i`.
pub open spec fn radix(i: nat) -> nat
    decreases i,
{
    if i == 0 {
        1
    } else {
        128 * radix((i - 1) as nat)
    }
}

/// The encoding of `n`: its 7-bit groups, low-order first, every byte but
/// the last with the high bit set.
pub open spec fn encoding(n: nat) -> Seq<u8>
    decreases n,
{
    if n < 128 {
        seq![n as u8]
    } else {
        seq![(n % 128 + 128) as u8] + encoding(n / 128)
    }
}

/// The encodings of the integers of `ints`, one after the other.
pub open spec fn encoding_of_all(ints: Seq<u128>) -> Seq<u8>
    decreases ints.len(),
{
    if ints.len() == 0 {
        Seq::empty()
    } else {
        encoding_of_all(ints.drop_last()) + encoding(ints.last() as nat)
    }
}

/// How many bytes at the start of `bytes` have the high bit set.
pub open spec fn continued(bytes: Seq<u8>) -> nat
    decreases bytes.len(),
{
    if bytes.len() == 0 || bytes[0] < 128 {
        0
    } else {
        1 + continued(bytes.drop_first())
    }
}

/// The number whose 7-bit groups, low-order first, are the low seven bits of
/// each byte of `bytes`.
pub open spec fn groups_value(bytes: Seq<u8>) -> nat
    decreases bytes.len(),
{
    if bytes.len() == 0 {
        0
    } else {
        (bytes[0] % 128) as nat + 128 * groups_value(bytes.drop_first())
    }
}

/// What decoding makes of the start of `bytes`: the value and the number of
/// bytes it took, or the reason why there is none.
///
/// A final group within the first eighteen bytes ends the value. The
/// nineteenth byte may carry two bits only; with more it overflows, final or
/// not. A twentieth byte is never read as part of a value.
pub open spec fn spec_decode(bytes: Seq<u8>) -> Result<(u128, usize), Error> {
    let c = continued(bytes);
    if c < 18 {
        if c < bytes.len() {
            Ok((groups_value(bytes.take(c + 1 as int)) as u128, (c + 1) as usize))
        } else {
            Err(Error::Unterminated)
        }
    } else if bytes.len() == 18 {
        Err(Error::Unterminated)
    } else if bytes[18] % 128 >= 4 {
        Err(Error::Overflow)
    } else if bytes[18] < 128 {
        Ok((groups_value(bytes.take(19)) as u128, 19usize))
    } else if bytes.len() == 19 {
        Err(Error::Unterminated)
    } else {
        Err(Error::Overlong)
    }
}

proof fn lemma_radix_values()
    ensures
        radix(0) == 1,
        radix(17) == 0x80_0000_0000_0000_0000_0000_0000_0000,
        radix(18) == 0x4000_0000_0000_0000_0000_0000_0000_0000,
        radix(19) == 0x20_0000_0000_0000_0000_0000_0000_0000_0000,
        forall|i: nat, j: nat| i <= j ==> radix(i) <= radix(j),
{
    assert(radix(0) == 1);
    assert(radix(1) == 128);
    assert(radix(2) == 0x4000);
    assert(radix(3) == 0x20_0000);
    assert(radix(4) == 0x1000_0000);
    assert(radix(5) == 0x8_0000_0000);
    assert(radix(6) == 0x400_0000_0000);
    assert(radix(7) == 0x2_0000_0000_0000);
    assert(radix(8) == 0x100_0000_0000_0000);
    assert(radix(9) == 0x8000_0000_0000_0000);
    assert(radix(10) == 0x40_0000_0000_0000_0000);
    assert(radix(11) == 0x2000_0000_0000_0000_0000);
    assert(radix(12) == 0x10_0000_0000_0000_0000_0000);
    assert(radix(13) == 0x800_0000_0000_0000_0000_0000);
    assert(radix(14) == 0x4_0000_0000_0000_0000_0000_0000);
    assert(radix(15) == 0x200_0000_0000_0000_0000_0000_0000);
    assert(radix(16) == 0x1_0000_0000_0000_0000_0000_0000_0000);
    assert(radix(17) == 0x80_0000_0000_0000_0000_0000_0000_0000);
    assert(radix(18) == 0x4000_0000_0000_0000_0000_0000_0000_0000);
    assert forall|i: nat, j: nat| i <= j implies radix(i) <= radix(j) by {
        lemma_radix_increases(i, j);
    }
}

proof fn lemma_radix_increases(i: nat, j: nat)
    requires
        i <= j,
    ensures
        1 <= radix(i) <= radix(j),
    decreases j,
{
    if j > 0 {
        if i < j {
            lemma_radix_increases(i, (j - 1) as nat);
        } else {
            lemma_radix_increases((i - 1) as nat, (j - 1) as nat);
        }
    }
}

/// `continued` is the place of the first byte without the high bit.
proof fn lemma_continued(bytes: Seq<u8>, i: nat)
    requires
        i <= bytes.len(),
        forall|j: int| 0 <= j < i ==> bytes[j] >= 128,
        i < bytes.len() ==> bytes[i as int] < 128,
    ensures
        continued(bytes) == i,
    decreases i,
{
    if i > 0 {
        let rest = bytes.drop_first();
        assert forall|j: int| 0 <= j < i - 1 implies rest[j] >= 128 by {
            assert(rest[j] == bytes[j + 1]);
        }
        lemma_continued(rest, (i - 1) as nat);
    }
}

/// At least `i` bytes are continued where the first `i` have the high bit.
proof fn lemma_continued_at_least(bytes: Seq<u8>, i: nat)
    requires
        i <= bytes.len(),
        forall|j: int| 0 <= j < i ==> bytes[j] >= 128,
    ensures
        continued(bytes) >= i,
    decreases i,
{
    if i > 0 {
        let rest = bytes.drop_first();
        assert forall|j: int| 0 <= j < i - 1 implies rest[j] >= 128 by {
            assert(rest[j] == bytes[j + 1]);
        }
        lemma_continued_at_least(rest, (i - 1) as nat);
    }
}

/// One more group at the end adds its seven bits at the next place.
proof fn lemma_groups_value_push(bytes: Seq<u8>, b: u8)
    ensures
        groups_value(bytes.push(b)) == groups_value(bytes) + (b % 128) * radix(bytes.len()),
        groups_value(bytes) < radix(bytes.len()),
    decreases bytes.len(),
{
    let x = (b % 128) as nat;
    if bytes.len() == 0 {
        assert(bytes.push(b).drop_first() =~= Seq::<u8>::empty());
        assert(groups_value(bytes.push(b).drop_first()) == 0);
        assert(bytes.push(b)[0] == b);
        assert(groups_value(bytes.push(b)) == x + 128 * 0);
        assert(radix(0) == 1);
        assert(x * 1 == x);
    } else {
        let rest = bytes.drop_first();
        lemma_groups_value_push(rest, b);
        assert(bytes.push(b).drop_first() =~= rest.push(b));
        assert(bytes.push(b)[0] == bytes[0]);
        let r = radix(rest.len());
        assert(radix(bytes.len()) == 128 * r);
        let g = groups_value(rest);
        assert(groups_value(bytes.push(b)) == (bytes[0] % 128) as nat + 128 * (g + x * r));
        assert(128 * (g + x * r) == 128 * g + x * (128 * r)) by (nonlinear_arith);
    }
}

/// Appends the encoding of `n` to `v`.
pub fn encode_to_vec(n: u128, v: &mut Vec<u8>)
    ensures
        final(v)@ == old(v)@ + encoding(n as nat),
{
    let mut rest: u128 = n;
    while rest >= 128
        invariant
            v@ + encoding(rest as nat) == old(v)@ + encoding(n as nat),
        decreases rest,
    {
        let low: u8 = (rest % 128) as u8;
        proof {
            assert(v@.push((low + 128) as u8) + encoding((rest / 128) as nat) =~= v@ + encoding(
                rest as nat,
            ));
        }
        v.push(low + 128);
        rest = rest / 128;
    }
    proof {
        assert(v@.push(rest as u8) =~= v@ + encoding(rest as nat));
    }
    v.push(rest as u8);
}

/// Reads one value from the start of `buffer`, and says how many bytes it
/// took.
pub fn decode(buffer: &[u8]) -> (r: Result<(u128, usize), Error>)
    ensures
        r == spec_decode(buffer@),
        r matches Ok(pair) ==> 0 < pair.1 <= buffer@.len(),
{
    let mut n: u128 = 0;
    let mut scale: u128 = 1;
    let mut i: usize = 0;
    proof {
        lemma_radix_values();
        assert(buffer@.take(0) =~= Seq::<u8>::empty());
    }
    while i < buffer.len()
        invariant
            i <= buffer.len(),
            i <= 19,
            forall|j: int| 0 <= j < i ==> buffer@[j] >= 128,
            i <= 18 ==> scale == radix(i as nat),
            i <= 18 ==> n == groups_value(buffer@.take(i as int)),
            i == 19 ==> buffer@[18] % 128 < 4,
        decreases buffer.len() - i,
    {
        proof {
            lemma_radix_values();
            lemma_continued_at_least(buffer@, i as nat);
        }
        if i > 18 {
            return Err(Error::Overlong);
        }
        let byte: u8 = buffer[i];
        let value: u128 = (byte % 128) as u128;
        if i == 18 && value >= 4 {
            return Err(Error::Overflow);
        }
        proof {
            lemma_groups_value_push(buffer@.take(i as int), byte);
            assert(buffer@.take(i as int).push(byte) =~= buffer@.take(i + 1));
            assert(value * scale <= 127 * scale) by (nonlinear_arith)
                requires
                    value <= 127,
                    scale >= 0,
            ;
            if i < 18 {
                assert(radix(i as nat) <= radix(17));
            } else {
                assert(value * scale <= 3 * scale) by (nonlinear_arith)
                    requires
                        value <= 3,
                        scale >= 0,
                ;
            }
        }
        n = n + value * scale;
        if byte < 128 {
            proof {
                lemma_continued(buffer@, i as nat);
            }
            return Ok((n, i + 1));
        }
        if i < 18 {
            proof {
                assert(radix((i + 1) as nat) <= radix(18));
            }
            scale = scale * 128;
        }
        i += 1;
    }
    proof {
        lemma_continued(buffer@, i as nat);
    }
    Err(Error::Unterminated)
}

/// A value that was read took at least one byte, and none beyond the end.
pub proof fn lemma_decode_length(bytes: Seq<u8>)
    ensures
        spec_decode(bytes) matches Ok(pair) ==> 0 < pair.1 <= bytes.len(),
{
    lemma_continued_at_most(bytes);
}

proof fn lemma_continued_at_most(bytes: Seq<u8>)
    ensures
        continued(bytes) <= bytes.len(),
    decreases bytes.len(),
{
    if bytes.len() > 0 && bytes[0] >= 128 {
        lemma_continued_at_most(bytes.drop_first());
    }
}

/// Bytes of which the first `n`, nineteen or more, have the high bit set do
/// not start with a varint.
pub proof fn lemma_continued_from_high_bits(bytes: Seq<u8>, n: nat)
    requires
        19 <= n <= bytes.len(),
        forall|j: int| 0 <= j < n ==> bytes[j] >= 128,
    ensures
        spec_decode(bytes) is Err,
{
    lemma_continued_at_least(bytes, n);
}

/// One more integer adds its encoding at the end.
pub proof fn lemma_encoding_of_all_push(ints: Seq<u128>, n: u128)
    ensures
        encoding_of_all(ints.push(n)) == encoding_of_all(ints) + encoding(n as nat),
{
    assert(ints.push(n).drop_last() =~= ints);
}

/// The encoding of two sequences, one after the other, is their encodings
/// one after the other.
pub proof fn lemma_encoding_of_all_concat(a: Seq<u128>, b: Seq<u128>)
    ensures
        encoding_of_all(a + b) == encoding_of_all(a) + encoding_of_all(b),
    decreases b.len(),
{
    if b.len() == 0 {
        assert(a + b =~= a);
        assert(encoding_of_all(a) + encoding_of_all(b) =~= encoding_of_all(a));
    } else {
        lemma_encoding_of_all_concat(a, b.drop_last());
        assert((a + b).drop_last() =~= a + b.drop_last());
        assert((a + b).last() == b.last());
        assert(encoding_of_all(a + b) =~= encoding_of_all(a) + encoding_of_all(b));
    }
}

/// The shape of an encoding: every byte but the last has the high bit, the
/// groups spell `n`, and a value below `128^k` takes at most `k` bytes.
pub proof fn lemma_encoding_shape(n: nat)
    ensures
        encoding(n).len() >= 1,
        forall|j: int| 0 <= j < encoding(n).len() - 1 ==> encoding(n)[j] >= 128,
        encoding(n).last() < 128,
        groups_value(encoding(n)) == n,
        forall|k: nat| k >= 1 && n < radix(k) ==> encoding(n).len() <= k,
    decreases n,
{
    let e = encoding(n);
    if n < 128 {
        assert(e.drop_first() =~= Seq::<u8>::empty());
        assert(groups_value(e.drop_first()) == 0);
    } else {
        let tail = encoding(n / 128);
        lemma_encoding_shape(n / 128);
        let head = (n % 128 + 128) as u8;
        assert(e =~= seq![head] + tail);
        assert(e.drop_first() =~= tail);
        assert(e[0] == head);
        assert forall|j: int| 0 <= j < e.len() - 1 implies e[j] >= 128 by {
            if j > 0 {
                assert(e[j] == tail[j - 1]);
            }
        }
        assert(e.last() == tail.last());
        assert forall|k: nat| k >= 1 && n < radix(k) implies e.len() <= k by {
            assert(radix(1) == 128 * radix(0));
            assert(radix(0) == 1);
            if k >= 2 {
                assert(n / 128 < radix((k - 1) as nat));
            }
        }
    }
}

/// Decoding reads back what encoding wrote, whatever bytes follow it.
pub proof fn lemma_decode_encoding(n: u128, rest: Seq<u8>)
    ensures
        1 <= encoding(n as nat).len() <= MAX_LEN,
        spec_decode(encoding(n as nat) + rest) == Ok::<(u128, usize), Error>(
            (n, encoding(n as nat).len() as usize),
        ),
{
    let e = encoding(n as nat);
    let bytes = e + rest;
    let last = (e.len() - 1) as nat;
    lemma_encoding_shape(n as nat);
    lemma_radix_values();
    assert(n < radix(19));
    assert(bytes.take(e.len() as int) =~= e);
    lemma_continued(bytes, last);
    if last == 18 {
        lemma_groups_value_push(e.drop_last(), e.last());
        assert(e.drop_last().push(e.last()) =~= e);
        assert(e.last() % 128 < 4) by (nonlinear_arith)
            requires
                (e.last() % 128) * radix(18) <= n,
                radix(18) == 0x4000_0000_0000_0000_0000_0000_0000_0000,
                n <= u128::MAX,
        ;
    }
}

} // verus!
