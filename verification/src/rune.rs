//! The name of a rune: a 128-bit number, written in capital letters.
//!
//! The letters are the digits of a bijective base-26 numeral: `A` to `Z` are
//! the names of 0 to 25, `AA` follows `Z`, and every number has exactly one
//! spelling.

use vstd::prelude::*;

verus! {

/// A rune's name, as the number that its letters spell.
#[derive(Clone, Copy, Debug, PartialEq, Eq, Structural, PartialOrd, Ord, Hash)]
pub struct Rune(pub u128);

/// Why a string is not the name of a rune.
#[derive(Clone, Copy, Debug, PartialEq, Eq, Structural)]
pub enum Error {
    /// The string holds this character, which is no capital letter.
    Character(char),
    /// The letters spell a number beyond 128 bits.
    Range,
}

/// `std`'s `String::push` appends one character to the string.
pub assume_specification[ String::push ](s: &mut String, c: char)
    ensures
        final(s)@ == old(s)@.push(c),
;

/// Whether `c` is one of `A` to `Z`.
pub open spec fn is_letter(c: char) -> bool {
    65 <= c as u32 <= 90
}

/// The letter that stands for the digit `d`, for `d` below 26.
pub open spec fn letter(d: nat) -> char {
    ((d + 65) as u32) as char
}

/// The digit that the letter `c` stands for.
pub open spec fn digit(c: char) -> nat {
    (c as u32 - 65) as nat
}

/// The number that the letters of `s` spell as a bijective base-26 numeral:
/// nothing spells 0, `A` spells 1, `Z` 26, `AA` 27.
pub open spec fn numeral(s: Seq<char>) -> nat
    decreases s.len(),
{
    if s.len() == 0 {
        0
    } else {
        numeral(s.drop_last()) * 26 + digit(s.last()) + 1
    }
}

/// The letters that spell `m` as a bijective base-26 numeral.
pub open spec fn spelling(m: nat) -> Seq<char>
    decreases m,
{
    if m == 0 {
        Seq::empty()
    } else {
        spelling(((m - 1) / 26) as nat).push(letter(((m - 1) % 26) as nat))
    }
}

/// How many characters at the start of `s` are letters.
pub open spec fn leading_letters(s: Seq<char>) -> nat
    decreases s.len(),
{
    if s.len() == 0 || !is_letter(s[0]) {
        0
    } else {
        1 + leading_letters(s.drop_first())
    }
}

/// What parsing makes of `s`.
///
/// A string of letters is the name of the number one below the one it
/// spells, if that has 128 bits; the empty string is read as 0. Characters
/// are read from the left: the first that is no letter is reported, unless
/// the letters before it already leave no room for another.
pub open spec fn spec_from_str(s: Seq<char>) -> Result<Rune, Error> {
    let k = leading_letters(s);
    if k == s.len() {
        if k == 0 {
            Ok(Rune(0))
        } else if numeral(s) - 1 <= u128::MAX {
            Ok(Rune((numeral(s) - 1) as u128))
        } else {
            Err(Error::Range)
        }
    } else if numeral(s.take(k as int)) * 26 <= u128::MAX {
        Err(Error::Character(s[k as int]))
    } else {
        Err(Error::Range)
    }
}

/// The bytes of `n`, low-order first, up to its last byte that is not zero.
pub open spec fn significant_bytes(n: nat) -> Seq<u8>
    decreases n,
{
    if n == 0 {
        Seq::empty()
    } else {
        seq![(n % 256) as u8] + significant_bytes(n / 256)
    }
}

/// The number whose bytes, low-order first, are `bytes`.
pub open spec fn le_value(bytes: Seq<u8>) -> nat
    decreases bytes.len(),
{
    if bytes.len() == 0 {
        0
    } else {
        bytes[0] as nat + 256 * le_value(bytes.drop_first())
    }
}

/// `leading_letters` is the place of the first character that is no letter.
proof fn lemma_leading_letters(s: Seq<char>, k: nat)
    requires
        k <= s.len(),
        forall|j: int| 0 <= j < k ==> is_letter(s[j]),
        k < s.len() ==> !is_letter(s[k as int]),
    ensures
        leading_letters(s) == k,
    decreases k,
{
    if k > 0 {
        let rest = s.drop_first();
        assert forall|j: int| 0 <= j < k - 1 implies is_letter(rest[j]) by {
            assert(rest[j] == s[j + 1]);
        }
        lemma_leading_letters(rest, (k - 1) as nat);
    }
}

/// With `k` letters at its start, `s` has at least `k` leading letters.
proof fn lemma_leading_letters_at_least(s: Seq<char>, k: nat)
    requires
        k <= s.len(),
        forall|j: int| 0 <= j < k ==> is_letter(s[j]),
    ensures
        leading_letters(s) >= k,
        leading_letters(s) <= s.len(),
        forall|j: int| 0 <= j < leading_letters(s) ==> is_letter(s[j]),
        leading_letters(s) < s.len() ==> !is_letter(s[leading_letters(s) as int]),
    decreases s.len(),
{
    if s.len() > 0 && is_letter(s[0]) {
        let rest = s.drop_first();
        let k1 = if k > 0 {
            (k - 1) as nat
        } else {
            0
        };
        assert forall|j: int| 0 <= j < k1 implies is_letter(rest[j]) by {
            assert(rest[j] == s[j + 1]);
        }
        lemma_leading_letters_at_least(rest, k1);
        assert forall|j: int| 0 <= j < leading_letters(s) implies is_letter(s[j]) by {
            if j > 0 {
                assert(s[j] == rest[j - 1]);
            }
        }
        if leading_letters(s) < s.len() {
            assert(s[leading_letters(s) as int] == rest[leading_letters(rest) as int]);
        }
    }
}

/// A longer prefix spells a larger number: more than 26 times as large.
proof fn lemma_numeral_grows(s: Seq<char>, i: nat, k: nat)
    requires
        i < k <= s.len(),
    ensures
        numeral(s.take(i as int)) * 26 + 1 <= numeral(s.take(k as int)),
    decreases k,
{
    let shorter = s.take(k - 1);
    assert(s.take(k as int).drop_last() =~= shorter);
    if i < k - 1 {
        lemma_numeral_grows(s, i, (k - 1) as nat);
        assert(numeral(shorter) * 26 >= numeral(shorter)) by (nonlinear_arith);
    }
}

/// Every number has a spelling in letters, and the spelling spells it.
pub proof fn lemma_numeral_of_spelling(m: nat)
    ensures
        numeral(spelling(m)) == m,
        forall|j: int| 0 <= j < spelling(m).len() ==> is_letter(#[trigger] spelling(m)[j]),
        m > 0 ==> spelling(m).len() > 0,
    decreases m,
{
    if m > 0 {
        let q = ((m - 1) / 26) as nat;
        let d = ((m - 1) % 26) as nat;
        lemma_numeral_of_spelling(q);
        let s = spelling(m);
        assert(s == spelling(q).push(letter(d)));
        assert(s.drop_last() =~= spelling(q));
        assert(s.last() == letter(d));
        assert(digit(letter(d)) == d);
        assert forall|j: int| 0 <= j < s.len() implies is_letter(#[trigger] s[j]) by {
            if j < s.len() - 1 {
                assert(s[j] == spelling(q)[j]);
            }
        }
    }
}

/// No number has a second spelling: letters spell a number whose spelling
/// they are.
pub proof fn lemma_spelling_of_numeral(s: Seq<char>)
    requires
        forall|j: int| 0 <= j < s.len() ==> is_letter(s[j]),
    ensures
        spelling(numeral(s)) == s,
    decreases s.len(),
{
    if s.len() > 0 {
        let init = s.drop_last();
        assert forall|j: int| 0 <= j < init.len() implies is_letter(init[j]) by {
            assert(init[j] == s[j]);
        }
        lemma_spelling_of_numeral(init);
        let m = numeral(s);
        let d = digit(s.last());
        assert(is_letter(s.last()));
        assert(m == numeral(init) * 26 + d + 1);
        assert((m - 1) / 26 == numeral(init));
        assert((m - 1) % 26 == d);
        let c: char = s.last();
        vstd::utf8::char_u32_cast(c, c as u32);
        assert(d + 65 == c as u32);
        assert(letter(d) == c);
        assert(spelling(m) == spelling(numeral(init)).push(letter(d)));
        assert(init.push(s.last()) =~= s);
    }
}

/// Every name parses back to the number that it names.
pub proof fn lemma_name_parses_back(n: u128)
    ensures
        spec_from_str(Rune(n).name()) == Ok::<Rune, Error>(Rune(n)),
{
    let s = Rune(n).name();
    lemma_numeral_of_spelling((n + 1) as nat);
    lemma_leading_letters(s, s.len());
}

/// A string that parses, if it is not empty, is the name of what it parses
/// to.
pub proof fn lemma_parsed_is_named(s: Seq<char>)
    requires
        s.len() > 0,
        spec_from_str(s) is Ok,
    ensures
        spec_from_str(s)->Ok_0.name() == s,
{
    lemma_leading_letters_at_least(s, 0);
    lemma_spelling_of_numeral(s);
    if Rune(0).name().len() == 0 {
        lemma_numeral_of_spelling(1);
    }
    assert(numeral(s) >= 1) by {
        assert(numeral(s) == numeral(s.drop_last()) * 26 + digit(s.last()) + 1);
    }
}

/// The significant bytes of a number are its bytes, low-order first, and
/// the last of them is not zero.
pub proof fn lemma_significant_bytes(n: nat)
    ensures
        le_value(significant_bytes(n)) == n,
        significant_bytes(n).len() == 0 <==> n == 0,
        n > 0 ==> significant_bytes(n).last() != 0,
    decreases n,
{
    if n > 0 {
        let bytes = significant_bytes(n);
        let tail = significant_bytes(n / 256);
        lemma_significant_bytes(n / 256);
        assert(bytes.drop_first() =~= tail);
        assert(bytes[0] == (n % 256) as u8);
        if tail.len() > 0 {
            assert(bytes.last() == tail.last());
        }
    }
}

/// The exec form of `letter`.
fn letter_of(d: u8) -> (c: char)
    requires
        d < 26,
    ensures
        c == letter(d as nat),
        is_letter(c),
        digit(c) == d,
{
    (d + 65) as char
}

/// The letters for `digits`, last digit first.
spec fn letters_reversed(digits: Seq<u8>) -> Seq<char> {
    Seq::new(digits.len(), |i: int| letter(digits[digits.len() - 1 - i] as nat))
}

impl Error {
    /// What the failure is, in words.
    pub open spec fn message(self) -> Seq<char> {
        match self {
            Error::Character(c) => "invalid character `"@.push(c).push('`'),
            Error::Range => "name out of range"@,
        }
    }

    /// What the failure is, in words.
    pub fn to_string(&self) -> (s: String)
        ensures
            s@ == self.message(),
    {
        match self {
            Error::Character(c) => {
                let mut s: String = "invalid character `".to_owned();
                s.push(*c);
                s.push('`');
                s
            },
            Error::Range => "name out of range".to_owned(),
        }
    }
}

impl Default for Rune {
    fn default() -> (r: Rune)
        ensures
            r == Rune(0),
    {
        Rune(0)
    }
}

impl Rune {
    /// The first of the names that only the protocol assigns.
    pub const RESERVED: u128 = 6402364363415443603228541259936211926;

    /// The letters of this name.
    pub open spec fn name(self) -> Seq<char> {
        spelling((self.0 + 1) as nat)
    }

    /// The name as a number.
    pub fn n(self) -> (n: u128)
        ensures
            n == self.0,
    {
        self.0
    }

    /// Whether this is one of the names that only the protocol assigns.
    pub fn is_reserved(self) -> (r: bool)
        ensures
            r == (self.0 >= Rune::RESERVED),
    {
        self.0 >= Rune::RESERVED
    }

    /// The name that the protocol assigns to a rune etched without one by
    /// the transaction `tx` of `block`.
    pub fn reserved(block: u64, tx: u32) -> (r: Rune)
        ensures
            r.0 == Rune::RESERVED + block * 0x1_0000_0000 + tx,
            r.0 >= Rune::RESERVED,
    {
        let b: u128 = block as u128;
        let t: u128 = tx as u128;
        let offset: u128 = b << 32 | t;
        assert(offset == b * 0x1_0000_0000 + t) by (bit_vector)
            requires
                offset == b << 32 | t,
                b <= 0xffff_ffff_ffff_ffff,
                t <= 0xffff_ffff,
        ;
        Rune(Rune::RESERVED + offset)
    }

    /// The bytes of the name, low-order first, without the zero bytes at
    /// their end: what a commitment to this name holds.
    pub fn commitment(self) -> (bytes: Vec<u8>)
        ensures
            bytes@ == significant_bytes(self.0 as nat),
    {
        let mut bytes: Vec<u8> = Vec::new();
        let mut rest: u128 = self.0;
        while rest > 0
            invariant
                bytes@ + significant_bytes(rest as nat) == significant_bytes(self.0 as nat),
            decreases rest,
        {
            proof {
                assert(bytes@.push((rest % 256) as u8) + significant_bytes((rest / 256) as nat)
                    =~= bytes@ + significant_bytes(rest as nat));
            }
            bytes.push((rest % 256) as u8);
            rest = rest / 256;
        }
        proof {
            assert(bytes@ + significant_bytes(0) =~= bytes@);
        }
        bytes
    }

    /// The name in letters.
    pub fn to_string(&self) -> (s: String)
        ensures
            s@ == self.name(),
    {
        let mut digits: Vec<u8> = Vec::new();
        digits.push((self.0 % 26) as u8);
        let mut m: u128 = self.0 / 26;
        proof {
            assert(spelling(m as nat) + letters_reversed(digits@) =~= self.name());
        }
        while m > 0
            invariant
                spelling(m as nat) + letters_reversed(digits@) == self.name(),
                forall|j: int| 0 <= j < digits@.len() ==> digits@[j] < 26,
            decreases m,
        {
            let d: u8 = ((m - 1) % 26) as u8;
            proof {
                assert(spelling(((m - 1) / 26) as nat) + letters_reversed(digits@.push(d))
                    =~= spelling(m as nat) + letters_reversed(digits@));
            }
            digits.push(d);
            m = (m - 1) / 26;
        }
        let mut s: String = String::new();
        let mut k: usize = digits.len();
        while k > 0
            invariant
                k <= digits@.len(),
                forall|j: int| 0 <= j < digits@.len() ==> digits@[j] < 26,
                s@ == letters_reversed(digits@).take(digits@.len() - k),
            decreases k,
        {
            k -= 1;
            let c: char = letter_of(digits[k]);
            proof {
                assert(s@.push(c) =~= letters_reversed(digits@).take(digits@.len() - k));
            }
            s.push(c);
        }
        proof {
            assert(letters_reversed(digits@).take(digits@.len() as int) =~= letters_reversed(
                digits@,
            ));
            assert(spelling(0) + letters_reversed(digits@) =~= letters_reversed(digits@));
        }
        s
    }

    /// Reads a name in letters.
    pub fn from_str(s: &str) -> (r: Result<Rune, Error>)
        ensures
            r == spec_from_str(s@),
    {
        let mut x: u128 = 0;
        let mut first: bool = true;
        for c in it: s.chars()
            invariant
                it.seq() == s@,
                first == (it.index() == 0),
                forall|j: int| 0 <= j < it.index() ==> is_letter(s@[j]),
                first ==> x == 0,
                !first ==> x == numeral(s@.take(it.index() as int)) - 1,
        {
            let ghost i = it.index() as nat;
            let ghost w = numeral(s@.take(i as int));
            proof {
                lemma_leading_letters_at_least(s@, i);
                assert(s@.take(i + 1 as int).drop_last() =~= s@.take(i as int));
                assert(s@.take(i + 1 as int).last() == c);
                if i + 1 < leading_letters(s@) {
                    lemma_numeral_grows(s@, i + 1, leading_letters(s@));
                }
                if i < leading_letters(s@) {
                    lemma_numeral_grows(s@, i, leading_letters(s@));
                }
                assert(s@.take(s@.len() as int) =~= s@);
                assert(first ==> s@.take(0) =~= Seq::<char>::empty());
            }
            if !first {
                x = match x.checked_add(1) {
                    Some(y) => y,
                    None => {
                        return Err(Error::Range);
                    },
                };
            }
            assert(x == w);
            x = match x.checked_mul(26) {
                Some(y) => y,
                None => {
                    return Err(Error::Range);
                },
            };
            let code: u32 = c as u32;
            if 65 <= code && code <= 90 {
                let d: u128 = (code - 65) as u128;
                x = match x.checked_add(d) {
                    Some(y) => y,
                    None => {
                        return Err(Error::Range);
                    },
                };
            } else {
                proof {
                    lemma_leading_letters(s@, i);
                }
                return Err(Error::Character(c));
            }
            first = false;
        }
        proof {
            lemma_leading_letters(s@, s@.len());
            assert(s@.take(s@.len() as int) =~= s@);
        }
        Ok(Rune(x))
    }
}

} // verus!
