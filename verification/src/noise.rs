//! Channel-noise simulation: flips randomly chosen bits of an encoded
//! frame, with the positions drawn to suit the chosen correction scheme.

use crate::bits::{chars_to_string, flip_at, str_to_chars};
use crate::correction::CorrectionType;
use rand::RngExt;
use vstd::prelude::*;

verus! {

/// A handle to the thread-local random generator.
///
/// Relies on `rand::rngs::ThreadRng` being an opaque generator handle; its
/// draws are made through `draw_in_range`.
#[verifier::external_type_specification]
#[verifier::external_body]
pub struct ExThreadRng(rand::rngs::ThreadRng);

/// Obtains the thread-local random generator.
///
/// Relies on `rand::rng`: it returns a handle to the thread's generator,
/// and promises nothing about the values later drawn from it.
#[verifier::external_body]
fn fresh_rng() -> rand::rngs::ThreadRng {
    rand::rng()
}

/// Draws a number in `[lo, hi)`.
///
/// Relies on `rand::RngExt::random_range`, which panics only on an empty
/// range and returns a value of the given range.
#[verifier::external_body]
fn draw_in_range(rng: &mut rand::rngs::ThreadRng, lo: usize, hi: usize) -> (r: usize)
    requires
        lo < hi,
    ensures
        lo <= r < hi,
{
    rng.random_range(lo..hi)
}

/// Flips the bit at `index`: '1' becomes '0', anything else becomes '1'.
/// An index at or past the end leaves the message unchanged.
pub fn flip_bit(message: &mut String, index: usize)
    ensures
        index < old(message)@.len() ==> final(message)@ == flip_at(old(message)@, index as int),
        index >= old(message)@.len() ==> final(message)@ == old(message)@,
{
    let mut v = str_to_chars(message.as_str());
    if index < v.len() {
        let bit = v[index];
        let flipped: char = if bit == '1' {
            '0'
        } else {
            '1'
        };
        v[index] = flipped;
        proof {
            assert(v@ =~= flip_at(old(message)@, index as int));
        }
        *message = chars_to_string(&v);
    }
}

/// How many positions of `s` differ from `t`.
pub open spec fn diff_count(s: Seq<char>, t: Seq<char>) -> nat
    decreases s.len(),
{
    if s.len() == 0 || s.len() != t.len() {
        0
    } else {
        diff_count(s.drop_last(), t.drop_last()) + if s.last() == t.last() {
            0nat
        } else {
            1nat
        }
    }
}

/// Flipping one position changes the distance to the original by at most
/// one, and only at that position.
proof fn lemma_diff_count_flip(orig: Seq<char>, cur: Seq<char>, i: int)
    requires
        orig.len() == cur.len(),
        0 <= i < cur.len(),
    ensures
        diff_count(orig, flip_at(cur, i)) <= diff_count(orig, cur) + 1,
    decreases cur.len(),
{
    let f = flip_at(cur, i);
    if i == cur.len() - 1 {
        assert(f.drop_last() =~= cur.drop_last());
    } else {
        assert(f.drop_last() =~= flip_at(cur.drop_last(), i));
        assert(f.last() == cur.last());
        lemma_diff_count_flip(orig.drop_last(), cur.drop_last(), i);
    }
}

/// Positions outside `[lo, hi)` are untouched when every flip lands inside
/// that window.
pub open spec fn differs_only_in(orig: Seq<char>, cur: Seq<char>, lo: int, hi: int) -> bool {
    orig.len() == cur.len() && forall|j: int|
        0 <= j < orig.len() && !(lo <= j < hi) ==> orig[j] == cur[j]
}

/// Flips a bounded number of distinct bits of the frame, in the window the
/// chosen scheme tolerates: one bit anywhere past the prefix for the
/// parity scheme, up to half a draw's worth of bits inside the first copy
/// for the triple scheme, and one or two bits for the Hamming scheme.
/// Every flip lands inside the stated window, so the rest of the frame is
/// returned unchanged.
pub fn add_noise(message: String, correction_type: &CorrectionType) -> (r: String)
    requires
        (match correction_type {
            CorrectionType::Parity => message@.len() >= 12,
            CorrectionType::Triple => true,
            CorrectionType::Hamming => message@.len() >= 3,
        }),
    ensures
        r@.len() == message@.len(),
        (match correction_type {
            CorrectionType::Parity => differs_only_in(
                message@,
                r@,
                10,
                message@.len() as int - 1,
            ) && diff_count(message@, r@) <= 1,
            CorrectionType::Triple => {
                if message@.len() < 10 {
                    r@ == message@
                } else {
                    differs_only_in(message@, r@, 11, message@.len() as int / 3)
                }
            },
            CorrectionType::Hamming => differs_only_in(message@, r@, 1, message@.len() as int - 1)
                && diff_count(message@, r@) <= 2,
        }),
{
    let len_message = message.as_str().unicode_len();
    let mut rng = fresh_rng();
    let mut output = clone_string(&message);
    proof {
        lemma_diff_count_refl(message@);
    }
    match correction_type {
        CorrectionType::Parity => {
            let where_to_flip = draw_in_range(&mut rng, 10, len_message - 1);
            proof {
                lemma_diff_count_flip(message@, output@, where_to_flip as int);
            }
            flip_bit(&mut output, where_to_flip);
        },
        CorrectionType::Triple => {
            if len_message < 10 {
                return output;
            }
            let x = draw_in_range(&mut rng, 1, len_message / 3 + 1);
            let first_chunk_start: usize = 11;
            let first_chunk_end = len_message / 3;
            let num_bits_to_flip = x / 2;
            if first_chunk_start < first_chunk_end {
                let mut flipped: usize = 0;
                while flipped < num_bits_to_flip
                    invariant
                        first_chunk_start < first_chunk_end <= output@.len(),
                        output@.len() == message@.len(),
                        11 == first_chunk_start,
                        first_chunk_end == message@.len() as int / 3,
                        differs_only_in(
                            message@,
                            output@,
                            11,
                            message@.len() as int / 3,
                        ),
                    decreases num_bits_to_flip - flipped,
                {
                    let pos = draw_in_range(&mut rng, first_chunk_start, first_chunk_end);
                    let ghost before = output@;
                    flip_bit(&mut output, pos);
                    proof {
                        assert(output@ == flip_at(before, pos as int));
                        assert(differs_only_in(
                            message@,
                            output@,
                            11,
                            message@.len() as int / 3,
                        ));
                    }
                    flipped = flipped + 1;
                }
            }
        },
        CorrectionType::Hamming => {
            let num_bits_to_flip = draw_in_range(&mut rng, 1, 3);
            let mut flipped: usize = 0;
            while flipped < num_bits_to_flip
                invariant
                    flipped <= num_bits_to_flip <= 2,
                    message@.len() >= 3,
                    len_message == message@.len(),
                    output@.len() == message@.len(),
                    differs_only_in(message@, output@, 1, message@.len() as int - 1),
                    diff_count(message@, output@) <= flipped,
                decreases num_bits_to_flip - flipped,
            {
                let pos = draw_in_range(&mut rng, 1, len_message - 1);
                proof {
                    lemma_diff_count_flip(message@, output@, pos as int);
                }
                let ghost before = output@;
                flip_bit(&mut output, pos);
                proof {
                    assert(output@ == flip_at(before, pos as int));
                    assert(differs_only_in(message@, output@, 1, message@.len() as int - 1));
                }
                flipped = flipped + 1;
            }
        },
    }
    output
}

/// The distance of a sequence to itself is zero.
proof fn lemma_diff_count_refl(s: Seq<char>)
    ensures
        diff_count(s, s) == 0,
    decreases s.len(),
{
    if s.len() > 0 {
        lemma_diff_count_refl(s.drop_last());
    }
}

/// A copy of the string.
fn clone_string(s: &String) -> (r: String)
    ensures
        r@ == s@,
{
    let v = str_to_chars(s.as_str());
    chars_to_string(&v)
}

} // verus!
