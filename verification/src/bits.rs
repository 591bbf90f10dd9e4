//! The shared bit-level model: bitstrings as sequences of the characters
//! '0' and '1', counting of one-bits, and fixed-width binary encodings of
//! natural numbers.

use vstd::arithmetic::power2::{lemma_pow2_pos, lemma_pow2_unfold, pow2};
use vstd::prelude::*;

verus! {

/// A sequence made of the characters '0' and '1' only.
pub open spec fn is_bits(s: Seq<char>) -> bool {
    forall|i: int| 0 <= i < s.len() ==> s[i] == '0' || s[i] == '1'
}

/// The numeric value of one bit character.
pub open spec fn bit_val(c: char) -> nat {
    if c == '1' {
        1
    } else {
        0
    }
}

/// How many '1' characters a sequence holds.
pub open spec fn ones(s: Seq<char>) -> nat
    decreases s.len(),
{
    if s.len() == 0 {
        0
    } else {
        ones(s.drop_last()) + bit_val(s.last())
    }
}

/// The value of a big-endian binary string: the first character is the most
/// significant bit.
pub open spec fn nat_of_bits(s: Seq<char>) -> nat
    decreases s.len(),
{
    if s.len() == 0 {
        0
    } else {
        nat_of_bits(s.drop_last()) * 2 + bit_val(s.last())
    }
}

/// The big-endian binary string of `n`, zero-padded to `width` characters.
/// Bits of `n` above the width are dropped.
pub open spec fn bits_of_nat(n: nat, width: nat) -> Seq<char>
    decreases width,
{
    if width == 0 {
        Seq::empty()
    } else {
        bits_of_nat(n / 2, (width - 1) as nat).push(if n % 2 == 1 {
            '1'
        } else {
            '0'
        })
    }
}

/// The character a bit flip turns `c` into: '1' becomes '0', anything else
/// becomes '1'.
pub open spec fn flip_char(c: char) -> char {
    if c == '1' {
        '0'
    } else {
        '1'
    }
}

/// `s` with the character at `i` flipped.
pub open spec fn flip_at(s: Seq<char>, i: int) -> Seq<char> {
    s.update(i, flip_char(s[i]))
}

/// Extending a sequence by one character adds that character's bit value to
/// the count of ones.
pub proof fn lemma_ones_extend(s: Seq<char>, i: int)
    requires
        0 <= i < s.len(),
    ensures
        ones(s.subrange(0, i + 1)) == ones(s.subrange(0, i)) + bit_val(s[i]),
{
    let t = s.subrange(0, i + 1);
    assert(t.drop_last() =~= s.subrange(0, i));
    assert(t.last() == s[i]);
}

/// Counts the '1' characters of `v`.
pub fn count_ones(v: &Vec<char>) -> (n: usize)
    ensures
        n == ones(v@),
{
    let mut n: usize = 0;
    let mut i: usize = 0;
    while i < v.len()
        invariant
            i <= v.len(),
            n <= i,
            n == ones(v@.subrange(0, i as int)),
        decreases v.len() - i,
    {
        proof {
            lemma_ones_extend(v@, i as int);
        }
        if v[i] == '1' {
            n = n + 1;
        }
        i = i + 1;
    }
    assert(v@.subrange(0, v@.len() as int) =~= v@);
    n
}

/// A fixed-width binary string has exactly `width` characters, all bits.
pub proof fn lemma_bits_of_nat_shape(n: nat, width: nat)
    ensures
        bits_of_nat(n, width).len() == width,
        is_bits(bits_of_nat(n, width)),
    decreases width,
{
    if width > 0 {
        lemma_bits_of_nat_shape(n / 2, (width - 1) as nat);
    }
}

/// The value of a binary string is below two to its length.
pub proof fn lemma_nat_of_bits_bound(s: Seq<char>)
    ensures
        nat_of_bits(s) < pow2(s.len()),
    decreases s.len(),
{
    if s.len() == 0 {
        assert(pow2(0) == 1) by { vstd::arithmetic::power2::lemma2_to64() }
        assert(pow2(s.len()) >= 1) by { lemma_pow2_pos(s.len()) }
    } else {
        lemma_nat_of_bits_bound(s.drop_last());
        lemma_pow2_unfold(s.len());
        assert(nat_of_bits(s.drop_last()) <= pow2((s.len() - 1) as nat) - 1);
        assert(nat_of_bits(s) <= (pow2((s.len() - 1) as nat) - 1) * 2 + 1);
        assert((pow2((s.len() - 1) as nat) - 1) * 2 + 1 < 2 * pow2((s.len() - 1) as nat));
    }
}

/// Encoding a number below two to the width and decoding it again gives the
/// number back.
pub proof fn lemma_bits_of_nat_round_trip(n: nat, width: nat)
    requires
        n < pow2(width),
    ensures
        nat_of_bits(bits_of_nat(n, width)) == n,
    decreases width,
{
    if width == 0 {
        assert(pow2(0) == 1) by { vstd::arithmetic::power2::lemma2_to64() }
    } else {
        lemma_pow2_unfold(width);
        assert(n / 2 < pow2((width - 1) as nat));
        lemma_bits_of_nat_round_trip(n / 2, (width - 1) as nat);
        lemma_bits_of_nat_shape(n / 2, (width - 1) as nat);
        let s = bits_of_nat(n, width);
        assert(s.drop_last() =~= bits_of_nat(n / 2, (width - 1) as nat));
        assert(nat_of_bits(s) == (n / 2) * 2 + n % 2);
        assert((n / 2) * 2 + n % 2 == n) by {
            vstd::arithmetic::div_mod::lemma_fundamental_div_mod(n as int, 2);
        }
    }
}

/// Updating one character trades its bit value for the new one in the count
/// of ones.
pub proof fn lemma_ones_update(s: Seq<char>, i: int, c: char)
    requires
        0 <= i < s.len(),
    ensures
        ones(s.update(i, c)) + bit_val(s[i]) == ones(s) + bit_val(c),
    decreases s.len(),
{
    let t = s.update(i, c);
    if i == s.len() - 1 {
        assert(t.drop_last() =~= s.drop_last());
    } else {
        assert(t.drop_last() =~= s.drop_last().update(i, c));
        lemma_ones_update(s.drop_last(), i, c);
        assert(t.last() == s.last());
    }
}

/// The count of ones of a concatenation is the sum of the counts.
pub proof fn lemma_ones_concat(a: Seq<char>, b: Seq<char>)
    ensures
        ones(a + b) == ones(a) + ones(b),
    decreases b.len(),
{
    if b.len() == 0 {
        assert(a + b =~= a);
    } else {
        assert((a + b).drop_last() =~= a + b.drop_last());
        assert((a + b).last() == b.last());
        lemma_ones_concat(a, b.drop_last());
    }
}

/// The parity character of `s`: '0' when the count of ones is even, '1' when
/// it is odd, so that the whole frame always has an even count of ones.
pub open spec fn parity_bit_char(s: Seq<char>) -> char {
    if ones(s) % 2 == 0 {
        '0'
    } else {
        '1'
    }
}

/// The parity frame: the parity character followed by the payload.
pub open spec fn parity_frame(s: Seq<char>) -> Seq<char> {
    seq![parity_bit_char(s)] + s
}

/// Flipping a character always yields a bit, so a bitstring stays a
/// bitstring under a flip.
pub proof fn lemma_flip_preserves_bits(s: Seq<char>, i: int)
    requires
        is_bits(s),
        0 <= i < s.len(),
    ensures
        is_bits(flip_at(s, i)),
{
}

/// Flipping one bit of a bitstring flips the parity of its count of ones.
pub proof fn lemma_ones_flip(s: Seq<char>, i: int)
    requires
        0 <= i < s.len(),
        s[i] == '0' || s[i] == '1',
    ensures
        ones(flip_at(s, i)) % 2 != ones(s) % 2,
        ones(flip_at(s, i)) + bit_val(s[i]) == ones(s) + bit_val(flip_char(s[i])),
{
    lemma_ones_update(s, i, flip_char(s[i]));
}

/// The big-endian binary string of `n`, zero-padded to `width` characters.
pub fn to_binary(n: u64, width: usize) -> (r: Vec<char>)
    ensures
        r@ == bits_of_nat(n as nat, width as nat),
    decreases width,
{
    if width == 0 {
        let r: Vec<char> = Vec::new();
        assert(r@ =~= bits_of_nat(n as nat, 0));
        r
    } else {
        let mut r = to_binary(n / 2, width - 1);
        let c: char = if n % 2 == 1 {
            '1'
        } else {
            '0'
        };
        r.push(c);
        r
    }
}

/// Reads `v[from..to]` as a big-endian binary number.
pub fn parse_binary(v: &Vec<char>, from: usize, to: usize) -> (r: u64)
    requires
        from <= to <= v@.len(),
        to - from <= 64,
    ensures
        r as nat == nat_of_bits(v@.subrange(from as int, to as int)),
    decreases to - from,
{
    if to == from {
        assert(v@.subrange(from as int, to as int) =~= Seq::<char>::empty());
        0
    } else {
        let hi = parse_binary(v, from, to - 1);
        let ghost s = v@.subrange(from as int, to as int);
        proof {
            assert(s.drop_last() =~= v@.subrange(from as int, to - 1));
            assert(s.last() == v@[to - 1]);
            lemma_nat_of_bits_bound(s.drop_last());
            assert(s.drop_last().len() <= 63);
            assert(pow2(s.drop_last().len()) <= pow2(63)) by {
                if s.drop_last().len() < 63 {
                    vstd::arithmetic::power2::lemma_pow2_strictly_increases(
                        s.drop_last().len(),
                        63,
                    );
                }
            }
            assert(pow2(63) == 0x8000000000000000) by {
                vstd::arithmetic::power2::lemma2_to64_rest();
            }
        }
        let b: u64 = if v[to - 1] == '1' {
            1
        } else {
            0
        };
        hi * 2 + b
    }
}

/// Builds the `String` whose characters are exactly those of `v`.
///
/// Relies on `String`'s `FromIterator` impl: collecting characters yields the
/// string made of those characters in order.
#[verifier::external_body]
pub fn chars_to_string(v: &Vec<char>) -> (s: String)
    ensures
        s@ == v@,
{
    v.iter().collect()
}

/// The characters of `s`, in order, as a vector.
pub fn str_to_chars(s: &str) -> (v: Vec<char>)
    ensures
        v@ == s@,
{
    let n = s.unicode_len();
    let mut v: Vec<char> = Vec::new();
    let mut i: usize = 0;
    while i < n
        invariant
            i <= n,
            n == s@.len(),
            v@ =~= s@.subrange(0, i as int),
        decreases n - i,
    {
        v.push(s.get_char(i));
        i = i + 1;
    }
    assert(s@.subrange(0, n as int) =~= s@);
    v
}

} // verus!

