//! Forward-error-correction codecs over ASCII '0'/'1' strings.
//!
//! Three schemes share one interface: `encode` returns `(ok, frame)` where
//! `ok == false` signals that the payload exceeds the scheme's capacity, and
//! `decode` returns `(error_detected, corrected, original_extract,
//! corrected_extract)`.

use crate::bits::{
    bit_val, bits_of_nat, chars_to_string, count_ones, flip_at, is_bits,
    lemma_bits_of_nat_round_trip, lemma_bits_of_nat_shape, lemma_nat_of_bits_bound,
    lemma_ones_concat, lemma_ones_flip, nat_of_bits, ones, parity_bit_char, parity_frame,
    parse_binary, str_to_chars, to_binary,
};
use crate::hamming::{
    decode_hamming, encode_hamming, extract_data, ham_corrected, ham_has_error, ham_syndrome,
    hamming_frame_ok,
};
use vstd::arithmetic::power2::pow2;
use vstd::prelude::*;

verus! {

/// Which error-correction scheme a frame was produced with.
pub enum CorrectionType {
    Parity,
    Triple,
    Hamming,
}

/// Prepends an even-parity bit: '0' when the payload has an even count of
/// ones, '1' otherwise. Always succeeds.
pub fn encode_parity_bit(encoded_string: &String) -> (r: (bool, String))
    ensures
        r.0 == true,
        r.1@ == parity_frame(encoded_string@),
{
    let mut v = str_to_chars(encoded_string.as_str());
    let n = count_ones(&v);
    let c: char = if n % 2 == 0 {
        '0'
    } else {
        '1'
    };
    v.insert(0, c);
    proof {
        assert(v@ =~= parity_frame(encoded_string@));
    }
    (true, chars_to_string(&v))
}

/// Recomputes the parity over the whole received frame, prefix bit included:
/// an odd count of ones means a detected error. The scheme never corrects,
/// so both extracts are empty and `corrected` is false.
pub fn decode_parity_bit(encoded_string: &String) -> (r: (bool, bool, String, String))
    ensures
        r.0 == (ones(encoded_string@) % 2 == 1),
        r.1 == false,
        r.2@ == Seq::<char>::empty(),
        r.3@ == Seq::<char>::empty(),
{
    let v = str_to_chars(encoded_string.as_str());
    let n = count_ones(&v);
    (n % 2 == 1, false, String::new(), String::new())
}

/// A frame made from a parity encode always carries an even count of ones,
/// so decoding an uncorrupted frame reports no error.
pub proof fn lemma_parity_round_trip(s: Seq<char>)
    ensures
        ones(parity_frame(s)) % 2 == 0,
{
    lemma_ones_concat(seq![parity_bit_char(s)], s);
    let p = seq![parity_bit_char(s)];
    assert(p.drop_last() =~= Seq::<char>::empty());
    assert(ones(p.drop_last()) == 0);
    assert(p.last() == parity_bit_char(s));
    assert(ones(p) == bit_val(parity_bit_char(s)));
}

/// Flipping exactly one bit of a parity frame makes the recomputed parity
/// odd, so the decoder reports the error.
pub proof fn lemma_parity_detects_single_flip(s: Seq<char>, i: int)
    requires
        is_bits(s),
        0 <= i < parity_frame(s).len(),
    ensures
        ones(flip_at(parity_frame(s), i)) % 2 == 1,
{
    let f = parity_frame(s);
    assert(f[i] == '0' || f[i] == '1');
    lemma_ones_flip(f, i);
    lemma_parity_round_trip(s);
}

/// The triple-redundancy frame: a 9-bit binary length prefix followed by the
/// payload three times.
pub open spec fn triple_frame(s: Seq<char>) -> Seq<char> {
    bits_of_nat(s.len(), 9) + s + s + s
}

/// The majority value of the three transmitted copies of one bit; ties where
/// neither value reaches two votes go to '1', as a count comparison.
pub open spec fn triple_vote(a: char, b: char, c: char) -> char {
    if count_val(a, '1') + count_val(b, '1') + count_val(c, '1') >= count_val(a, '0')
        + count_val(b, '0') + count_val(c, '0') {
        '1'
    } else {
        '0'
    }
}

/// One vote: 1 when the character equals the candidate value.
pub open spec fn count_val(x: char, v: char) -> int {
    if x == v {
        1
    } else {
        0
    }
}

/// Whether the three copies of position `i` in frame `f` (payload length `l`)
/// are not unanimous.
pub open spec fn triple_disagree(f: Seq<char>, l: nat, i: int) -> bool {
    !(f[9 + i] == f[9 + l + i] && f[9 + l + i] == f[9 + 2 * l + i])
}

/// The majority-voted payload recovered from frame `f` with payload length `l`.
pub open spec fn triple_voted(f: Seq<char>, l: nat) -> Seq<char> {
    Seq::new(l, |i: int| triple_vote(f[9 + i], f[9 + l + i], f[9 + 2 * l + i]))
}

/// Whether any position of frame `f` has disagreeing copies.
pub open spec fn triple_has_error(f: Seq<char>, l: nat) -> bool {
    exists|i: int| 0 <= i < l && triple_disagree(f, l, i)
}

/// The payload length a received triple frame declares in its 9-bit prefix.
pub open spec fn triple_declared_len(f: Seq<char>) -> nat {
    nat_of_bits(f.subrange(0, 9))
}

/// Encodes with triple redundancy: payloads of 511 bits or more are rejected
/// with `ok == false`; otherwise the frame is the 9-bit length prefix
/// followed by three copies of the payload.
pub fn encode_triple(encoded_string: &String) -> (r: (bool, String))
    ensures
        r.0 == (encoded_string@.len() < 511),
        encoded_string@.len() < 511 ==> r.1@ == triple_frame(encoded_string@),
        encoded_string@.len() >= 511 ==> r.1@ == "Exceeded the length of allowed message size"@,
{
    let v = str_to_chars(encoded_string.as_str());
    if v.len() >= 511 {
        return (false, String::from_str("Exceeded the length of allowed message size"));
    }
    let mut frame = to_binary(v.len() as u64, 9);
    frame.extend_from_slice(v.as_slice());
    frame.extend_from_slice(v.as_slice());
    frame.extend_from_slice(v.as_slice());
    proof {
        assert(frame@ =~= triple_frame(encoded_string@));
    }
    (true, chars_to_string(&frame))
}

/// Decodes a triple-redundancy frame. A frame too short to hold its 9-bit
/// prefix or the three payload copies it declares is a detected,
/// uncorrectable error with empty extracts. Otherwise the first copy is
/// returned verbatim as `original_extract`, the per-position majority vote as
/// `corrected_extract`, and any position with disagreeing copies raises both
/// `error_detected` and `corrected`.
pub fn decode_triple(encoded_string: &String) -> (r: (bool, bool, String, String))
    requires
        is_bits(encoded_string@),
    ensures
        ({
            let f = encoded_string@;
            let l = triple_declared_len(f);
            if f.len() < 9 || f.len() < 9 + 3 * l {
                r.0 == true && r.1 == false && r.2@ == Seq::<char>::empty() && r.3@
                    == Seq::<char>::empty()
            } else {
                r.0 == triple_has_error(f, l) && r.1 == triple_has_error(f, l) && r.2@
                    == f.subrange(9, 9 + l as int) && r.3@ == triple_voted(f, l)
            }
        }),
{
    let v = str_to_chars(encoded_string.as_str());
    let ghost f = encoded_string@;
    if v.len() < 9 {
        return (true, false, String::new(), String::new());
    }
    let l64 = parse_binary(&v, 0, 9);
    proof {
        lemma_nat_of_bits_bound(f.subrange(0, 9));
        assert(pow2(9) == 512) by { vstd::arithmetic::power2::lemma2_to64() }
    }
    let l = l64 as usize;
    if v.len() < 9 + 3 * l {
        return (true, false, String::new(), String::new());
    }
    let mut original: Vec<char> = Vec::new();
    let mut voted: Vec<char> = Vec::new();
    let mut num_errors: usize = 0;
    let mut i: usize = 0;
    while i < l
        invariant
            i <= l,
            l < 512,
            v@ == f,
            is_bits(f),
            v@.len() >= 9 + 3 * l,
            num_errors <= i,
            (num_errors > 0) == exists|k: int| 0 <= k < i && triple_disagree(f, l as nat, k),
            original@.len() == i,
            forall|k: int| 0 <= k < i ==> original@[k] == f[9 + k],
            voted@.len() == i,
            forall|k: int|
                0 <= k < i ==> voted@[k] == triple_vote(f[9 + k], f[9 + l + k], f[9 + 2 * l + k]),
        decreases l - i,
    {
        let a = v[9 + i];
        let b = v[9 + l + i];
        let c = v[9 + 2 * l + i];
        let count_0: u32 = (if a == '0' {
            1
        } else {
            0
        }) + (if b == '0' {
            1
        } else {
            0
        }) + (if c == '0' {
            1
        } else {
            0
        });
        let count_1: u32 = (if a == '1' {
            1
        } else {
            0
        }) + (if b == '1' {
            1
        } else {
            0
        }) + (if c == '1' {
            1
        } else {
            0
        });
        if !(count_0 == 3 || count_1 == 3) {
            num_errors = num_errors + 1;
        }
        original.push(a);
        voted.push(
            if count_1 >= count_0 {
                '1'
            } else {
                '0'
            },
        );
        proof {
            assert(a == '0' || a == '1');
            assert(b == '0' || b == '1');
            assert(c == '0' || c == '1');
            assert((count_0 == 3 || count_1 == 3) == !triple_disagree(f, l as nat, i as int));
        }
        i = i + 1;
    }
    proof {
        assert(original@ =~= f.subrange(9, 9 + l));
        assert(voted@ =~= triple_voted(f, l as nat));
    }
    (num_errors > 0, num_errors > 0, chars_to_string(&original), chars_to_string(&voted))
}

/// When for every position at least two of the three received copies still
/// hold the sent bit, the majority vote recovers the payload exactly.
/// `r` is the received frame: as long as its length prefix is intact and it
/// is long enough, `corrected_extract` equals the sent payload.
pub proof fn lemma_triple_corrects(s: Seq<char>, r: Seq<char>)
    requires
        is_bits(s),
        s.len() < 511,
        r.len() >= 9 + 3 * s.len(),
        r.subrange(0, 9) == bits_of_nat(s.len(), 9),
        forall|i: int|
            0 <= i < s.len() ==> (count_val(#[trigger] r[9 + i], s[i]) + count_val(
                r[9 + s.len() + i],
                s[i],
            ) + count_val(r[9 + 2 * s.len() + i], s[i]) >= 2),
    ensures
        triple_declared_len(r) == s.len(),
        triple_voted(r, s.len()) == s,
{
    let l = s.len();
    assert(pow2(9) == 512) by { vstd::arithmetic::power2::lemma2_to64() }
    lemma_bits_of_nat_round_trip(l, 9);
    assert(forall|i: int| 0 <= i < l ==> #[trigger] triple_voted(r, l)[i] == s[i]) by {
        assert forall|i: int| 0 <= i < l implies #[trigger] triple_voted(r, l)[i] == s[i] by {
            let a = r[9 + i];
            let b = r[9 + l + i];
            let c = r[9 + 2 * l + i];
            assert(count_val(a, s[i]) + count_val(b, s[i]) + count_val(c, s[i]) >= 2);
            assert(s[i] == '0' || s[i] == '1');
        }
    }
    assert(triple_voted(r, l) =~= s);
}

/// The correction scheme a frame's trailing tag character names: 'P' is
/// parity, 'T' is triple redundancy, and anything else is Hamming.
pub fn correction_type_of_tag(tag: char) -> (r: CorrectionType)
    ensures
        tag == 'P' ==> matches!(r, CorrectionType::Parity),
        tag == 'T' ==> matches!(r, CorrectionType::Triple),
        tag != 'P' && tag != 'T' ==> matches!(r, CorrectionType::Hamming),
{
    if tag == 'P' {
        CorrectionType::Parity
    } else if tag == 'T' {
        CorrectionType::Triple
    } else {
        CorrectionType::Hamming
    }
}

/// Encodes `encoded_string` with the chosen scheme: a parity bit, triple
/// redundancy, or a (non-extended) Hamming frame.
pub fn encode_correction(correction_type: &CorrectionType, encoded_string: &String) -> (r: (
    bool,
    String,
))
    requires
        is_bits(encoded_string@),
    ensures
        ({
            let s = encoded_string@;
            match correction_type {
                CorrectionType::Parity => r.0 == true && r.1@ == parity_frame(s),
                CorrectionType::Triple => r.0 == (s.len() < 511) && (r.0 ==> r.1@
                    == triple_frame(s)),
                CorrectionType::Hamming => r.0 == (s.len() < 502) && (r.0 ==> hamming_frame_ok(
                    r.1@,
                    s.len(),
                ) && extract_data(r.1@) == s),
            }
        }),
{
    match correction_type {
        CorrectionType::Parity => encode_parity_bit(encoded_string),
        CorrectionType::Triple => encode_triple(encoded_string),
        CorrectionType::Hamming => encode_hamming(encoded_string, false),
    }
}

/// Decodes a received frame with the chosen scheme, returning
/// `(error_detected, corrected, original_extract, corrected_extract)`.
/// `is_extended` only matters for the Hamming scheme.
pub fn decode_correction(
    correction_type: CorrectionType,
    encoded_string: &String,
    is_extended: bool,
) -> (r: (bool, bool, String, String))
    requires
        is_bits(encoded_string@),
        matches!(correction_type, CorrectionType::Hamming) && is_extended
            ==> encoded_string@.len() >= 1,
    ensures
        ({
            let f = encoded_string@;
            match correction_type {
                CorrectionType::Parity => {
                    &&& r.0 == (ones(f) % 2 == 1)
                    &&& r.1 == false
                    &&& r.2@ == Seq::<char>::empty()
                    &&& r.3@ == Seq::<char>::empty()
                },
                CorrectionType::Triple => {
                    let l = triple_declared_len(f);
                    if f.len() < 9 || f.len() < 9 + 3 * l {
                        r.0 == true && r.1 == false && r.2@ == Seq::<char>::empty() && r.3@
                            == Seq::<char>::empty()
                    } else {
                        r.0 == triple_has_error(f, l) && r.1 == triple_has_error(f, l) && r.2@
                            == f.subrange(9, 9 + l as int) && r.3@ == triple_voted(f, l)
                    }
                },
                CorrectionType::Hamming => {
                    let inner = if is_extended {
                        f.drop_first()
                    } else {
                        f
                    };
                    let syn = ham_syndrome(inner);
                    let corrected = ham_corrected(inner);
                    &&& r.0 == ham_has_error(inner)
                    &&& r.1 == (ham_has_error(inner) && !(is_extended && syn >= 1 && ((ones(
                        corrected,
                    ) % 2 == 0) != (f[0] == '0'))))
                    &&& r.2@ == extract_data(inner)
                    &&& r.3@ == extract_data(corrected)
                },
            }
        }),
{
    match correction_type {
        CorrectionType::Parity => decode_parity_bit(encoded_string),
        CorrectionType::Triple => decode_triple(encoded_string),
        CorrectionType::Hamming => decode_hamming(encoded_string, is_extended),
    }
}

/// Decoding an uncorrupted triple frame reports no error and returns the
/// payload in both extracts.
pub proof fn lemma_triple_round_trip(s: Seq<char>)
    requires
        is_bits(s),
        s.len() < 511,
    ensures
        triple_declared_len(triple_frame(s)) == s.len(),
        triple_frame(s).len() == 9 + 3 * s.len(),
        !triple_has_error(triple_frame(s), s.len()),
        triple_frame(s).subrange(9, 9 + s.len() as int) == s,
        triple_voted(triple_frame(s), s.len()) == s,
{
    let f = triple_frame(s);
    let l = s.len();
    lemma_bits_of_nat_shape(l, 9);
    assert(f.subrange(0, 9) =~= bits_of_nat(l, 9));
    assert(f.subrange(9, 9 + l as int) =~= s);
    assert(forall|i: int| 0 <= i < l ==> #[trigger] f[9 + i] == s[i]);
    assert(forall|i: int| 0 <= i < l ==> #[trigger] f[9 + l + i] == s[i]);
    assert(forall|i: int| 0 <= i < l ==> #[trigger] f[9 + 2 * l + i] == s[i]);
    lemma_triple_corrects(s, f);
}

} // verus!
