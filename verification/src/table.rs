//! Serialization of a Huffman code map to a self-delimiting bitstring, so
//! that a peer can rebuild the decode map with no prior knowledge of the
//! vocabulary.
//!
//! Wire layout: the maximum code length in unary (that many '0's closed by
//! a '1'), then one record per entry: a 5-bit alphabet index (the character
//! minus 'a'), the code length in as many bits as the maximum needs, and
//! the code itself. No record count is sent; records end where the string
//! ends. Only lowercase 'a'..'z' fit the 5-bit index space.

use crate::bits::{bits_of_nat, is_bits, lemma_bits_of_nat_round_trip, lemma_bits_of_nat_shape,
    lemma_nat_of_bits_bound, nat_of_bits, chars_to_string, parse_binary, str_to_chars, to_binary};
use crate::hamming::{groups_for, lemma_groups_for_is, lemma_groups_from_least};
use crate::huffman::{enc_pairs, pairs_of, HuffmanEncoding};
use vstd::arithmetic::power2::pow2;
use vstd::prelude::*;

verus! {

/// The field width used for code lengths when the longest code has `m`
/// bits: the least number of bits whose range exceeds `m`.
pub open spec fn width_for(m: nat) -> nat {
    groups_for(m + 1)
}

/// A run of `n` '0' characters.
pub open spec fn zeros(n: nat) -> Seq<char> {
    Seq::new(n, |i: int| '0')
}

/// The alphabet index of a character: 0 for 'a' through 25 for 'z', and
/// 26 for anything else.
pub open spec fn alpha_index(c: char) -> nat {
    if c == 'a' {
        0
    } else if c == 'b' {
        1
    } else if c == 'c' {
        2
    } else if c == 'd' {
        3
    } else if c == 'e' {
        4
    } else if c == 'f' {
        5
    } else if c == 'g' {
        6
    } else if c == 'h' {
        7
    } else if c == 'i' {
        8
    } else if c == 'j' {
        9
    } else if c == 'k' {
        10
    } else if c == 'l' {
        11
    } else if c == 'm' {
        12
    } else if c == 'n' {
        13
    } else if c == 'o' {
        14
    } else if c == 'p' {
        15
    } else if c == 'q' {
        16
    } else if c == 'r' {
        17
    } else if c == 's' {
        18
    } else if c == 't' {
        19
    } else if c == 'u' {
        20
    } else if c == 'v' {
        21
    } else if c == 'w' {
        22
    } else if c == 'x' {
        23
    } else if c == 'y' {
        24
    } else if c == 'z' {
        25
    } else {
        26
    }
}

/// Whether a character fits the 5-bit alphabet index space.
pub open spec fn is_lower(c: char) -> bool {
    alpha_index(c) < 26
}

/// The character an alphabet index names: 'a' plus the index, as the wire
/// format computes it for any 5-bit value.
pub open spec fn alpha_char(n: nat) -> char {
    if n == 0 {
        'a'
    } else if n == 1 {
        'b'
    } else if n == 2 {
        'c'
    } else if n == 3 {
        'd'
    } else if n == 4 {
        'e'
    } else if n == 5 {
        'f'
    } else if n == 6 {
        'g'
    } else if n == 7 {
        'h'
    } else if n == 8 {
        'i'
    } else if n == 9 {
        'j'
    } else if n == 10 {
        'k'
    } else if n == 11 {
        'l'
    } else if n == 12 {
        'm'
    } else if n == 13 {
        'n'
    } else if n == 14 {
        'o'
    } else if n == 15 {
        'p'
    } else if n == 16 {
        'q'
    } else if n == 17 {
        'r'
    } else if n == 18 {
        's'
    } else if n == 19 {
        't'
    } else if n == 20 {
        'u'
    } else if n == 21 {
        'v'
    } else if n == 22 {
        'w'
    } else if n == 23 {
        'x'
    } else if n == 24 {
        'y'
    } else if n == 25 {
        'z'
    } else if n == 26 {
        '{'
    } else if n == 27 {
        '|'
    } else if n == 28 {
        '}'
    } else if n == 29 {
        '~'
    } else if n == 30 {
        '\u{7f}'
    } else {
        '\u{80}'
    }
}

/// One wire record: 5-bit alphabet index, `w`-bit code length, then the
/// code.
pub open spec fn record_bits(c: char, code: Seq<char>, w: nat) -> Seq<char> {
    bits_of_nat(alpha_index(c), 5) + bits_of_nat(code.len(), w) + code
}

/// The concatenated records of all the entries, in order.
pub open spec fn records_bits(pairs: Seq<(char, Seq<char>)>, w: nat) -> Seq<char>
    decreases pairs.len(),
{
    if pairs.len() == 0 {
        Seq::empty()
    } else {
        records_bits(pairs.drop_last(), w) + record_bits(
            pairs.last().0,
            pairs.last().1,
            w,
        )
    }
}

/// The whole serialized table.
pub open spec fn table_bits(pairs: Seq<(char, Seq<char>)>, max: nat) -> Seq<char> {
    zeros(max) + seq!['1'] + records_bits(pairs, width_for(max))
}

/// What the serializer requires of a table: a positive maximum length,
/// lowercase characters, and codes of bits no longer than the maximum.
pub open spec fn table_wf(pairs: Seq<(char, Seq<char>)>, max: nat) -> bool {
    &&& max >= 1
    &&& forall|k: int| 0 <= k < pairs.len() ==> is_lower((#[trigger] pairs[k]).0)
    &&& forall|k: int| 0 <= k < pairs.len() ==> 1 <= (#[trigger] pairs[k]).1.len() <= max
    &&& forall|k: int| 0 <= k < pairs.len() ==> is_bits((#[trigger] pairs[k]).1)
}

/// The count of '0' characters before the first other character.
pub open spec fn leading_zeros(s: Seq<char>) -> nat
    decreases s.len(),
{
    if s.len() == 0 || s[0] != '0' {
        0
    } else {
        1 + leading_zeros(s.drop_first())
    }
}

/// The records read from `s` starting at `idx` with length fields of `w`
/// bits: read a 5-bit index, a `w`-bit length, and that many code
/// characters, until a whole record no longer fits.
pub open spec fn parse_records(s: Seq<char>, idx: nat, w: nat) -> Seq<(char, Seq<char>)>
    decreases s.len() - idx,
{
    if idx + 5 + w > s.len() {
        Seq::empty()
    } else {
        let num = nat_of_bits(s.subrange(idx as int, idx as int + 5));
        let codelen = nat_of_bits(s.subrange(idx as int + 5, idx as int + 5 + w as int));
        if idx + 5 + w + codelen > s.len() {
            Seq::empty()
        } else {
            seq![
                (
                    alpha_char(num),
                    s.subrange(idx as int + 5 + w as int, idx as int + 5 + w as int + codelen as int),
                ),
            ] + parse_records(s, idx + 5 + w + codelen, w)
        }
    }
}

/// The maximum code length a serialized table declares.
pub open spec fn parse_max(s: Seq<char>) -> nat {
    leading_zeros(s)
}

/// The entries a serialized table holds.
pub open spec fn parse_pairs(s: Seq<char>) -> Seq<(char, Seq<char>)> {
    parse_records(s, parse_max(s) + 1, width_for(parse_max(s)))
}

/// The alphabet index of a lowercase character.
fn lower_index(c: char) -> (r: u8)
    requires
        is_lower(c),
    ensures
        r as nat == alpha_index(c),
{
    match c {
        'a' => 0,
        'b' => 1,
        'c' => 2,
        'd' => 3,
        'e' => 4,
        'f' => 5,
        'g' => 6,
        'h' => 7,
        'i' => 8,
        'j' => 9,
        'k' => 10,
        'l' => 11,
        'm' => 12,
        'n' => 13,
        'o' => 14,
        'p' => 15,
        'q' => 16,
        'r' => 17,
        's' => 18,
        't' => 19,
        'u' => 20,
        'v' => 21,
        'w' => 22,
        'x' => 23,
        'y' => 24,
        'z' => 25,
        _ => 0,
    }
}

/// The character an alphabet index names.
fn lower_char(n: u8) -> (r: char)
    ensures
        r == alpha_char(n as nat),
{
    match n {
        0 => 'a',
        1 => 'b',
        2 => 'c',
        3 => 'd',
        4 => 'e',
        5 => 'f',
        6 => 'g',
        7 => 'h',
        8 => 'i',
        9 => 'j',
        10 => 'k',
        11 => 'l',
        12 => 'm',
        13 => 'n',
        14 => 'o',
        15 => 'p',
        16 => 'q',
        17 => 'r',
        18 => 's',
        19 => 't',
        20 => 'u',
        21 => 'v',
        22 => 'w',
        23 => 'x',
        24 => 'y',
        25 => 'z',
        26 => '{',
        27 => '|',
        28 => '}',
        29 => '~',
        30 => '\u{7f}',
        _ => '\u{80}',
    }
}

impl HuffmanEncoding {
    /// Serializes the code map: the maximum code length in unary, then one
    /// record per entry in map order.
    pub fn encode_table(hf: &HuffmanEncoding) -> (r: String)
        requires
            table_wf(enc_pairs(*hf), hf.max_size as nat),
        ensures
            r@ == table_bits(enc_pairs(*hf), hf.max_size as nat),
    {
        let max = hf.max_size;
        let ghost pairs = enc_pairs(*hf);
        let mut out: Vec<char> = Vec::new();
        let mut z: usize = 0;
        while z < max
            invariant
                z <= max,
                out@ =~= zeros(z as nat),
            decreases max - z,
        {
            out.push('0');
            proof {
                assert(out@ =~= zeros((z + 1) as nat));
            }
            z = z + 1;
        }
        out.push('1');
        proof {
            assert(out@ =~= zeros(max as nat) + seq!['1']);
        }
        // the least w with 2^w > max
        proof {
            assert(pow2(0) == 1) by { vstd::arithmetic::power2::lemma2_to64() }
        }
        let mut w: usize = 0;
        let mut wp: u128 = 1;
        while wp < (max as u128) + 1
            invariant
                wp as nat == pow2(w as nat),
                forall|c: nat| c < w ==> pow2(c) < max as nat + 1,
                w <= 64,
            decreases 64 - w,
        {
            proof {
                crate::hamming::lemma_pow2_above(w as nat);
                vstd::arithmetic::power2::lemma_pow2_unfold((w + 1) as nat);
                if w == 64 {
                    assert(pow2(64) == 0x10000000000000000) by {
                        vstd::arithmetic::power2::lemma2_to64_rest();
                    }
                    assert(max as nat <= 0xffffffffffffffffnat);
                }
            }
            wp = wp * 2;
            w = w + 1;
        }
        proof {
            lemma_groups_for_is(max as nat + 1, w as nat);
            assert(w as nat == width_for(max as nat));
        }
        let ghost base = out@;
        let mut k: usize = 0;
        proof {
            assert(pairs.subrange(0, 0) =~= Seq::<(char, Seq<char>)>::empty());
            assert(records_bits(pairs.subrange(0, 0), w as nat) == Seq::<char>::empty());
            assert(out@ =~= base + records_bits(pairs.subrange(0, 0), w as nat));
        }
        while k < hf.encoding.len()
            invariant
                k <= hf.encoding@.len(),
                pairs == enc_pairs(*hf),
                table_wf(pairs, max as nat),
                max == hf.max_size,
                wp as nat == pow2(w as nat),
                w as nat == width_for(max as nat),
                base == zeros(max as nat) + seq!['1'],
                out@ == base + records_bits(pairs.subrange(0, k as int), w as nat),
            decreases hf.encoding@.len() - k,
        {
            let ghost old_out = out@;
            let c: char = hf.encoding[k].0;
            let code = str_to_chars(hf.encoding[k].1.as_str());
            proof {
                assert(pairs[k as int] == (c, code@));
                assert(is_lower(c));
                lemma_nat_of_bits_bound(code@);
            }
            let num: u8 = lower_index(c);
            let mut field = to_binary(num as u64, 5);
            out.append(&mut field);
            proof {
                assert(code@.len() <= max < pow2(w as nat)) by {
                    lemma_groups_from_least(max as nat + 1, 0);
                }
            }
            let mut lenfield = to_binary(code.len() as u64, w);
            out.append(&mut lenfield);
            let mut codecopy = str_to_chars(hf.encoding[k].1.as_str());
            out.append(&mut codecopy);
            proof {
                let sub = pairs.subrange(0, k + 1);
                assert(sub.drop_last() =~= pairs.subrange(0, k as int));
                assert(sub.last() == pairs[k as int]);
                assert(num as nat == alpha_index(c));
                assert(out@ =~= old_out + record_bits(c, code@, w as nat));
                assert(out@ =~= base + records_bits(sub, w as nat));
            }
            k = k + 1;
        }
        proof {
            assert(pairs.subrange(0, pairs.len() as int) =~= pairs);
            assert(out@ =~= table_bits(pairs, max as nat));
        }
        chars_to_string(&out)
    }

    /// Parses a serialized table: an empty input is the distinguished "no
    /// table" result; otherwise the unary maximum is read, then records
    /// until the input ends.
    pub fn decode_table(s: &str) -> (r: Option<HuffmanEncoding>)
        requires
            is_bits(s@),
            s@.len() < usize::MAX,
        ensures
            r is Some <==> s@.len() > 0,
            match r {
                Some(h) => enc_pairs(h) == parse_pairs(s@) && h.max_size as nat == parse_max(
                    s@,
                ),
                None => true,
            },
    {
        let v = str_to_chars(s);
        if v.len() == 0 {
            return None;
        }
        // unary maximum: count '0's up to the closing '1'
        let mut max: usize = 0;
        while max < v.len() && v[max] == '0'
            invariant
                max <= v@.len(),
                v@ == s@,
                forall|j: int| 0 <= j < max ==> s@[j] == '0',
            decreases v@.len() - max,
        {
            max = max + 1;
        }
        proof {
            lemma_leading_zeros_value(s@, max as nat);
        }
        // the least w with 2^w > max
        proof {
            assert(pow2(0) == 1) by { vstd::arithmetic::power2::lemma2_to64() }
        }
        let mut w: usize = 0;
        let mut wp: u128 = 1;
        while wp < (max as u128) + 1
            invariant
                wp as nat == pow2(w as nat),
                forall|c: nat| c < w ==> pow2(c) < max as nat + 1,
                w <= 64,
            decreases 64 - w,
        {
            proof {
                crate::hamming::lemma_pow2_above(w as nat);
                vstd::arithmetic::power2::lemma_pow2_unfold((w + 1) as nat);
                if w == 64 {
                    assert(pow2(64) == 0x10000000000000000) by {
                        vstd::arithmetic::power2::lemma2_to64_rest();
                    }
                    assert(max as nat <= 0xffffffffffffffffnat);
                }
            }
            wp = wp * 2;
            w = w + 1;
        }
        proof {
            lemma_groups_for_is(max as nat + 1, w as nat);
            assert(w as nat == width_for(max as nat));
        }
        let mut encoding: Vec<(char, String)> = Vec::new();
        let mut index: usize = max + 1;
        proof {
            assert(pairs_of(encoding@) =~= Seq::<(char, Seq<char>)>::empty());
        }
        loop
            invariant
                v@ == s@,
                v@.len() < usize::MAX,
                w <= 64,
                w as nat == width_for(max as nat),
                pairs_of(encoding@) + parse_records(s@, index as nat, w as nat)
                    == parse_records(s@, max as nat + 1, w as nat),
            ensures
                pairs_of(encoding@) == parse_records(s@, max as nat + 1, w as nat),
            decreases v@.len() + 6 + w - index,
        {
            if index > v.len() || v.len() - index < 5 + w {
                proof {
                    assert(parse_records(s@, index as nat, w as nat) =~= Seq::<
                        (char, Seq<char>),
                    >::empty());
                    assert(pairs_of(encoding@) + Seq::<(char, Seq<char>)>::empty()
                        =~= pairs_of(encoding@));
                }
                break ;
            }
            let ghost old_pairs = pairs_of(encoding@);
            let num64 = parse_binary(&v, index, index + 5);
            proof {
                lemma_nat_of_bits_bound(s@.subrange(index as int, index + 5));
                assert(pow2(5) == 32) by { vstd::arithmetic::power2::lemma2_to64() }
            }
            let num = num64 as u8;
            let codelen64 = parse_binary(&v, index + 5, index + 5 + w);
            // a 64-bit length field can name a length beyond any input;
            // compare against what is left without overflowing
            let remaining = (v.len() - index - 5 - w) as u64;
            if codelen64 > remaining {
                proof {
                    assert(parse_records(s@, index as nat, w as nat) =~= Seq::<
                        (char, Seq<char>),
                    >::empty());
                    assert(pairs_of(encoding@) + Seq::<(char, Seq<char>)>::empty()
                        =~= pairs_of(encoding@));
                }
                break ;
            }
            let codelen = codelen64 as usize;
            let mut code: Vec<char> = Vec::new();
            let start = index + 5 + w;
            let mut j: usize = 0;
            while j < codelen
                invariant
                    j <= codelen,
                    v@ == s@,
                    start + codelen <= v@.len(),
                    v@.len() < usize::MAX,
                    code@ =~= s@.subrange(start as int, start + j),
                decreases codelen - j,
            {
                code.push(v[start + j]);
                proof {
                    assert(code@ =~= s@.subrange(start as int, start + j + 1));
                }
                j = j + 1;
            }
            let ch: char = lower_char(num);
            encoding.push((ch, chars_to_string(&code)));
            proof {
                assert(pairs_of(encoding@) =~= old_pairs + seq![(ch, code@)]);
                assert(parse_records(s@, index as nat, w as nat) == seq![(ch, code@)]
                    + parse_records(s@, (index + 5 + w + codelen) as nat, w as nat)) by {
                    assert((ch, code@) == (
                        alpha_char(num64 as nat),
                        s@.subrange(index as int + 5 + w as int, index as int + 5 + w as int + codelen as int),
                    ));
                }
                assert((old_pairs + seq![(ch, code@)]) + parse_records(
                    s@,
                    (index + 5 + w + codelen) as nat,
                    w as nat,
                ) =~= old_pairs + (seq![(ch, code@)] + parse_records(
                    s@,
                    (index + 5 + w + codelen) as nat,
                    w as nat,
                )));
            }
            index = index + 5 + w + codelen;
        }
        Some(HuffmanEncoding { encoding, max_size: max })
    }
}

/// If the first `k` characters are '0' and the next, if any, is not, the
/// leading-zero count is exactly `k`.
pub proof fn lemma_leading_zeros_value(s: Seq<char>, k: nat)
    requires
        k <= s.len(),
        forall|j: int| 0 <= j < k ==> s[j] == '0',
        k < s.len() ==> s[k as int] != '0',
    ensures
        leading_zeros(s) == k,
    decreases s.len(),
{
    if s.len() > 0 && s[0] == '0' {
        assert(k >= 1);
        let t = s.drop_first();
        assert(forall|j: int| 0 <= j < k - 1 ==> t[j] == s[j + 1]);
        lemma_leading_zeros_value(t, (k - 1) as nat);
    }
}

/// A lowercase character survives the index round trip.
pub proof fn lemma_alpha_round(c: char)
    requires
        is_lower(c),
    ensures
        alpha_char(alpha_index(c)) == c,
{
}

/// The records of a nonempty table split off their first record.
proof fn lemma_records_bits_front(pairs: Seq<(char, Seq<char>)>, w: nat)
    requires
        pairs.len() >= 1,
    ensures
        records_bits(pairs, w) == record_bits(pairs[0].0, pairs[0].1, w) + records_bits(
            pairs.drop_first(),
            w,
        ),
    decreases pairs.len(),
{
    if pairs.len() == 1 {
        assert(pairs.drop_last() =~= Seq::<(char, Seq<char>)>::empty());
        assert(pairs.drop_first() =~= Seq::<(char, Seq<char>)>::empty());
        assert(pairs.last() == pairs[0]);
        assert(records_bits(pairs, w) =~= record_bits(pairs[0].0, pairs[0].1, w)
            + records_bits(pairs.drop_first(), w));
    } else {
        lemma_records_bits_front(pairs.drop_last(), w);
        assert(pairs.drop_last()[0] == pairs[0]);
        assert(pairs.drop_last().drop_first() =~= pairs.drop_first().drop_last());
        assert(pairs.drop_first().last() == pairs.last());
        assert(records_bits(pairs.drop_first(), w) == records_bits(
            pairs.drop_first().drop_last(),
            w,
        ) + record_bits(pairs.last().0, pairs.last().1, w));
        assert(records_bits(pairs, w) =~= record_bits(pairs[0].0, pairs[0].1, w)
            + records_bits(pairs.drop_first(), w));
    }
}

/// A run of zeros followed by a '1' has that many leading zeros.
proof fn lemma_leading_zeros_concat(n: nat, t: Seq<char>)
    requires
        t.len() >= 1,
        t[0] == '1',
    ensures
        leading_zeros(zeros(n) + t) == n,
    decreases n,
{
    let s = zeros(n) + t;
    if n == 0 {
        assert(s =~= t);
    } else {
        assert(s[0] == '0');
        assert(s.drop_first() =~= zeros((n - 1) as nat) + t);
        lemma_leading_zeros_concat((n - 1) as nat, t);
    }
}

/// Parsing inverts serialization record by record: a tail of the input that
/// is exactly the records of a table yields that table back.
proof fn lemma_parse_records_inverts(
    s: Seq<char>,
    idx: nat,
    pairs: Seq<(char, Seq<char>)>,
    w: nat,
    max: nat,
)
    requires
        idx <= s.len(),
        s.subrange(idx as int, s.len() as int) == records_bits(pairs, w),
        pow2(w) > max,
        forall|k: int| 0 <= k < pairs.len() ==> is_lower((#[trigger] pairs[k]).0),
        forall|k: int| 0 <= k < pairs.len() ==> (#[trigger] pairs[k]).1.len() <= max,
    ensures
        parse_records(s, idx, w) == pairs,
    decreases pairs.len(),
{
    if pairs.len() == 0 {
        assert(records_bits(pairs, w).len() == 0);
        assert(s.len() == idx);
        assert(parse_records(s, idx, w) =~= pairs);
    } else {
        let c0 = pairs[0].0;
        let code0 = pairs[0].1;
        let ll = code0.len();
        lemma_records_bits_front(pairs, w);
        let rec0 = record_bits(c0, code0, w);
        let f5 = bits_of_nat(alpha_index(c0), 5);
        let fw = bits_of_nat(ll, w);
        lemma_bits_of_nat_shape(alpha_index(c0), 5);
        lemma_bits_of_nat_shape(ll, w);
        assert(rec0.len() == 5 + w + ll);
        let tail = s.subrange(idx as int, s.len() as int);
        assert(tail.len() >= rec0.len());
        assert(idx + 5 + w + ll <= s.len());
        assert(forall|j: int| 0 <= j < tail.len() ==> tail[j] == s[idx + j]);
        assert(forall|j: int| 0 <= j < rec0.len() ==> tail[j] == rec0[j]);
        assert forall|j: int| 0 <= j < 5 implies s[idx + j] == f5[j] by {
            assert(rec0[j] == (f5 + fw)[j]);
        }
        assert(s.subrange(idx as int, idx as int + 5) =~= f5);
        assert forall|j: int| 0 <= j < w implies s[idx + 5 + j] == fw[j] by {
            assert(rec0[5 + j] == (f5 + fw)[5 + j]);
            assert((f5 + fw)[5 + j] == fw[j]);
        }
        assert(s.subrange(idx as int + 5, idx as int + 5 + w as int) =~= fw);
        assert forall|j: int| 0 <= j < ll implies s[idx + 5 + w + j] == code0[j] by {
            assert(rec0[5 + w + j] == code0[j]);
        }
        assert(s.subrange(idx as int + 5 + w as int, idx as int + 5 + w as int + ll as int)
            =~= code0);
        assert(alpha_index(c0) < pow2(5)) by {
            assert(pow2(5) == 32) by { vstd::arithmetic::power2::lemma2_to64() }
        }
        lemma_bits_of_nat_round_trip(alpha_index(c0), 5);
        lemma_bits_of_nat_round_trip(ll, w);
        lemma_alpha_round(c0);
        let idx2 = idx + 5 + w + ll;
        let rest_bits = records_bits(pairs.drop_first(), w);
        assert forall|j: int| 0 <= j < rest_bits.len() implies s[idx2 + j] == rest_bits[j] by {
            assert(tail[rec0.len() + j] == (rec0 + rest_bits)[rec0.len() + j]);
            assert((rec0 + rest_bits)[rec0.len() + j] == rest_bits[j]);
        }
        assert(s.subrange(idx2 as int, s.len() as int) =~= records_bits(pairs.drop_first(), w));
        assert(forall|k: int|
            0 <= k < pairs.drop_first().len() ==> pairs.drop_first()[k] == pairs[k + 1]);
        lemma_parse_records_inverts(s, idx2, pairs.drop_first(), w, max);
        assert(parse_records(s, idx, w) == seq![(c0, code0)] + pairs.drop_first());
        assert(seq![(c0, code0)] + pairs.drop_first() =~= pairs);
    }
}

/// Serializing a well-formed table and parsing the result yields the same
/// maximum code length and the same entries, in the same order.
pub proof fn lemma_table_round_trip(pairs: Seq<(char, Seq<char>)>, max: nat)
    requires
        table_wf(pairs, max),
    ensures
        parse_max(table_bits(pairs, max)) == max,
        parse_pairs(table_bits(pairs, max)) == pairs,
{
    let w = width_for(max);
    let rec = records_bits(pairs, w);
    let t = seq!['1'] + rec;
    assert(t[0] == '1');
    assert(table_bits(pairs, max) =~= zeros(max) + t);
    lemma_leading_zeros_concat(max, t);
    let s = table_bits(pairs, max);
    assert(parse_max(s) == max);
    assert(s.subrange(max as int + 1, s.len() as int) =~= rec);
    assert(pow2(w) > max) by {
        lemma_groups_from_least(max + 1, 0);
    }
    lemma_parse_records_inverts(s, max + 1, pairs, w, max);
}

} // verus!
