//! Encoding text against a code map, and the greedy prefix-matching
//! decoder that inverts it.

use crate::bits::{chars_to_string, str_to_chars};
use crate::huffman::{
    enc_pairs, is_prefix, lemma_code_map_prefix_free, prefix_free, spec_code_map, HuffmanEncoding,
};
use vstd::prelude::*;

verus! {

/// The character of the first entry whose code is exactly `cand`.
pub open spec fn lookup_code(pairs: Seq<(char, Seq<char>)>, cand: Seq<char>) -> Option<char>
    decreases pairs.len(),
{
    if pairs.len() == 0 {
        None
    } else if pairs[0].1 == cand {
        Some(pairs[0].0)
    } else {
        lookup_code(pairs.drop_first(), cand)
    }
}

/// The code of the first entry for character `c`.
pub open spec fn lookup_char(pairs: Seq<(char, Seq<char>)>, c: char) -> Option<Seq<char>>
    decreases pairs.len(),
{
    if pairs.len() == 0 {
        None
    } else if pairs[0].0 == c {
        Some(pairs[0].1)
    } else {
        lookup_char(pairs.drop_first(), c)
    }
}

/// The concatenation of the codes of the characters of `text`, in order;
/// a character without a code contributes nothing.
pub open spec fn encode_text(text: Seq<char>, pairs: Seq<(char, Seq<char>)>) -> Seq<char>
    decreases text.len(),
{
    if text.len() == 0 {
        Seq::empty()
    } else {
        encode_text(text.drop_last(), pairs) + (match lookup_char(pairs, text.last()) {
            Some(code) => code,
            None => Seq::empty(),
        })
    }
}

/// Greedy prefix matching from candidate `bits[l..r]`: grow the candidate
/// one bit at a time; on a match emit the character and restart just after
/// it; stop when the candidate would run past the end.
pub open spec fn greedy_from(bits: Seq<char>, pairs: Seq<(char, Seq<char>)>, l: nat, r: nat) -> Seq<
    char,
>
    decreases bits.len() - l, bits.len() + 1 - r,
    when l < r
{
    if !(r <= bits.len() && l < bits.len()) {
        Seq::empty()
    } else {
        match lookup_code(pairs, bits.subrange(l as int, r as int)) {
            Some(c) => seq![c] + greedy_from(bits, pairs, r, r + 1),
            None => greedy_from(bits, pairs, l, r + 1),
        }
    }
}

/// Looks `c` up in the entry list, returning its code's characters.
fn find_code(hf: &HuffmanEncoding, c: char) -> (r: Option<Vec<char>>)
    ensures
        match r {
            Some(v) => lookup_char(enc_pairs(*hf), c) == Some(v@),
            None => lookup_char(enc_pairs(*hf), c) is None,
        },
{
    let mut k: usize = 0;
    proof {
        assert(enc_pairs(*hf).skip(0) =~= enc_pairs(*hf));
    }
    while k < hf.encoding.len()
        invariant
            k <= hf.encoding@.len(),
            lookup_char(enc_pairs(*hf), c) == lookup_char(
                enc_pairs(*hf).skip(k as int),
                c,
            ),
        decreases hf.encoding@.len() - k,
    {
        proof {
            assert(enc_pairs(*hf).skip(k as int)[0] == enc_pairs(*hf)[k as int]);
            assert(enc_pairs(*hf).skip(k as int).drop_first() =~= enc_pairs(*hf).skip(k + 1));
        }
        if hf.encoding[k].0 == c {
            let code = str_to_chars(hf.encoding[k].1.as_str());
            return Some(code);
        }
        k = k + 1;
    }
    proof {
        assert(enc_pairs(*hf).skip(hf.encoding@.len() as int) =~= Seq::<
            (char, Seq<char>),
        >::empty());
    }
    None
}

/// Encodes `message` by concatenating each character's code in input
/// order. A character with no entry in the map makes the whole encode
/// fail.
pub fn encode_message(message: &str, hf: &HuffmanEncoding) -> (r: Option<String>)
    ensures
        (r is Some) == (forall|i: int|
            0 <= i < message@.len() ==> lookup_char(enc_pairs(*hf), #[trigger] message@[i])
                is Some),
        match r {
            Some(out) => out@ == encode_text(message@, enc_pairs(*hf)),
            None => true,
        },
{
    let v = str_to_chars(message);
    let mut out: Vec<char> = Vec::new();
    let mut i: usize = 0;
    proof {
        assert(v@.subrange(0, 0) =~= Seq::<char>::empty());
    }
    while i < v.len()
        invariant
            i <= v@.len(),
            v@ == message@,
            out@ == encode_text(v@.subrange(0, i as int), enc_pairs(*hf)),
            forall|j: int|
                0 <= j < i ==> lookup_char(enc_pairs(*hf), #[trigger] v@[j]) is Some,
        decreases v@.len() - i,
    {
        match find_code(hf, v[i]) {
            Some(mut code) => {
                out.append(&mut code);
                proof {
                    let sub = v@.subrange(0, i + 1);
                    assert(sub.drop_last() =~= v@.subrange(0, i as int));
                    assert(sub.last() == v@[i as int]);
                }
            },
            None => {
                return None;
            },
        }
        i = i + 1;
    }
    proof {
        assert(v@.subrange(0, v@.len() as int) =~= v@);
    }
    Some(chars_to_string(&out))
}

/// Whether the code of the entry at `k` equals `v[l..r]`.
fn code_matches(code: &str, v: &Vec<char>, l: usize, r: usize) -> (m: bool)
    requires
        l <= r <= v@.len(),
    ensures
        m == (code@ == v@.subrange(l as int, r as int)),
{
    let n = code.unicode_len();
    if n != r - l {
        return false;
    }
    let mut j: usize = 0;
    while j < n
        invariant
            j <= n,
            n == code@.len(),
            l + n == r,
            r <= v@.len(),
            forall|t: int| 0 <= t < j ==> code@[t] == v@[l + t],
        decreases n - j,
    {
        if code.get_char(j) != v[l + j] {
            return false;
        }
        j = j + 1;
    }
    proof {
        assert(code@ =~= v@.subrange(l as int, r as int));
    }
    true
}

/// The first entry whose code equals `v[l..r]`.
fn find_match(hf: &HuffmanEncoding, v: &Vec<char>, l: usize, r: usize) -> (m: Option<char>)
    requires
        l <= r <= v@.len(),
    ensures
        m == lookup_code(enc_pairs(*hf), v@.subrange(l as int, r as int)),
{
    let mut k: usize = 0;
    proof {
        assert(enc_pairs(*hf).skip(0) =~= enc_pairs(*hf));
    }
    while k < hf.encoding.len()
        invariant
            k <= hf.encoding@.len(),
            l <= r <= v@.len(),
            lookup_code(enc_pairs(*hf), v@.subrange(l as int, r as int)) == lookup_code(
                enc_pairs(*hf).skip(k as int),
                v@.subrange(l as int, r as int),
            ),
        decreases hf.encoding@.len() - k,
    {
        proof {
            assert(enc_pairs(*hf).skip(k as int)[0] == enc_pairs(*hf)[k as int]);
            assert(enc_pairs(*hf).skip(k as int).drop_first() =~= enc_pairs(*hf).skip(k + 1));
        }
        if code_matches(hf.encoding[k].1.as_str(), v, l, r) {
            return Some(hf.encoding[k].0);
        }
        k = k + 1;
    }
    proof {
        assert(enc_pairs(*hf).skip(hf.encoding@.len() as int) =~= Seq::<
            (char, Seq<char>),
        >::empty());
    }
    None
}

/// Decodes a bitstring by greedy prefix matching against the code map: a
/// growing candidate substring is matched against the entries; each match
/// emits a character and restarts the candidate. Input left over when no
/// match can complete is dropped, so a malformed tail yields a truncated
/// result. A map without codes decodes everything to the empty string.
pub fn decode_message(message: &str, hd: &HuffmanEncoding) -> (r: String)
    requires
        message@.len() < usize::MAX,
    ensures
        hd.max_size == 0 ==> r@ == Seq::<char>::empty(),
        hd.max_size != 0 ==> r@ == greedy_from(message@, enc_pairs(*hd), 0, 1),
{
    if hd.max_size == 0 {
        return String::new();
    }
    let v = str_to_chars(message);
    let mut out: Vec<char> = Vec::new();
    let mut left: usize = 0;
    let mut right: usize = 1;
    while right <= v.len() && left < v.len()
        invariant
            left < right,
            right <= v@.len() + 1,
            v@.len() < usize::MAX,
            v@ == message@,
            out@ + greedy_from(v@, enc_pairs(*hd), left as nat, right as nat) == greedy_from(
                v@,
                enc_pairs(*hd),
                0,
                1,
            ),
        decreases v@.len() - left, v@.len() + 1 - right,
    {
        let ghost old_out = out@;
        match find_match(hd, &v, left, right) {
            Some(c) => {
                out.push(c);
                proof {
                    assert(out@ =~= old_out + seq![c]);
                    assert((old_out + seq![c]) + greedy_from(
                        v@,
                        enc_pairs(*hd),
                        right as nat,
                        right as nat + 1,
                    ) =~= old_out + (seq![c] + greedy_from(
                        v@,
                        enc_pairs(*hd),
                        right as nat,
                        right as nat + 1,
                    )));
                }
                left = right;
                right = right + 1;
            },
            None => {
                right = right + 1;
            },
        }
    }
    proof {
        assert(greedy_from(v@, enc_pairs(*hd), left as nat, right as nat) =~= Seq::<
            char,
        >::empty());
        assert(out@ + Seq::<char>::empty() =~= out@);
    }
    chars_to_string(&out)
}

/// The words of `s` split on spaces, scanning from `i` with the current
/// word starting at `start`; adjacent separators yield empty words, as
/// splitting on a single space does.
pub open spec fn split_from(s: Seq<char>, i: nat, start: nat) -> Seq<Seq<char>>
    decreases s.len() - i,
{
    if i >= s.len() {
        seq![s.subrange(start as int, s.len() as int)]
    } else if s[i as int] == ' ' {
        seq![s.subrange(start as int, i as int)] + split_from(s, i + 1, i + 1)
    } else {
        split_from(s, i + 1, start)
    }
}

/// The words of `s`, split on single spaces.
pub open spec fn split_spaces(s: Seq<char>) -> Seq<Seq<char>> {
    split_from(s, 0, 0)
}

/// Whether some vocabulary entry is exactly `word`.
pub open spec fn vocab_contains(vocab: Seq<String>, word: Seq<char>) -> bool {
    exists|j: int| 0 <= j < vocab.len() && vocab[j]@ == word
}

/// Whether some vocabulary entry equals `v[l..r]`.
fn vocab_has_slice(vocab: &Vec<String>, v: &Vec<char>, l: usize, r: usize) -> (m: bool)
    requires
        l <= r <= v@.len(),
    ensures
        m == vocab_contains(vocab@, v@.subrange(l as int, r as int)),
{
    let mut j: usize = 0;
    while j < vocab.len()
        invariant
            j <= vocab@.len(),
            l <= r <= v@.len(),
            forall|t: int| 0 <= t < j ==> vocab@[t]@ != v@.subrange(l as int, r as int),
        decreases vocab@.len() - j,
    {
        if code_matches(vocab[j].as_str(), v, l, r) {
            return true;
        }
        j = j + 1;
    }
    false
}

/// Checks that every space-separated word of `message` is a vocabulary
/// entry.
pub fn uses_valid_vocab(message: &str, vocab: &Vec<String>) -> (r: bool)
    ensures
        r == (forall|k: int|
            0 <= k < split_spaces(message@).len() ==> vocab_contains(
                vocab@,
                #[trigger] split_spaces(message@)[k],
            )),
{
    let v = str_to_chars(message);
    let ghost words = split_spaces(message@);
    let mut i: usize = 0;
    let mut start: usize = 0;
    let ghost mut done: int = 0;
    proof {
        assert(words.skip(0) =~= words);
    }
    while i < v.len()
        invariant
            start <= i <= v@.len(),
            v@ == message@,
            words == split_spaces(message@),
            0 <= done,
            done + split_from(v@, i as nat, start as nat).len() == words.len(),
            split_from(v@, i as nat, start as nat) == words.skip(done),
            forall|k: int| 0 <= k < done ==> vocab_contains(vocab@, #[trigger] words[k]),
        decreases v@.len() - i,
    {
        if v[i] == ' ' {
            proof {
                assert(words.skip(done)[0] == words[done]);
                assert(words[done] == v@.subrange(start as int, i as int));
                assert(words.skip(done).drop_first() =~= words.skip(done + 1));
            }
            let w_ok = vocab_has_slice(vocab, &v, start, i);
            if !w_ok {
                proof {
                    assert(!vocab_contains(vocab@, words[done]));
                    assert(0 <= done < words.len());
                    assert(!(forall|k: int|
                        0 <= k < words.len() ==> vocab_contains(vocab@, #[trigger] words[k])));
                }
                return false;
            }
            start = i + 1;
            proof {
                done = done + 1;
            }
        }
        i = i + 1;
    }
    proof {
        assert(words.skip(done)[0] == words[done]);
        assert(words[done] == v@.subrange(start as int, v@.len() as int));
        assert(words.len() == done + 1);
    }
    let w_ok = vocab_has_slice(vocab, &v, start, v.len());
    if !w_ok {
        proof {
            assert(!vocab_contains(vocab@, words[done]));
            assert(0 <= done < words.len());
            assert(!(forall|k: int|
                0 <= k < words.len() ==> vocab_contains(vocab@, #[trigger] words[k])));
        }
        return false;
    }
    true
}

/// The code of `c` in the map, or the empty sequence when it has none.
pub open spec fn code_of(pairs: Seq<(char, Seq<char>)>, c: char) -> Seq<char> {
    match lookup_char(pairs, c) {
        Some(code) => code,
        None => Seq::empty(),
    }
}

/// An encoded text splits off its first character's code.
proof fn lemma_encode_text_front(text: Seq<char>, pairs: Seq<(char, Seq<char>)>)
    requires
        text.len() >= 1,
    ensures
        encode_text(text, pairs) == code_of(pairs, text[0]) + encode_text(
            text.drop_first(),
            pairs,
        ),
    decreases text.len(),
{
    if text.len() == 1 {
        assert(text.drop_last() =~= Seq::<char>::empty());
        assert(text.drop_first() =~= Seq::<char>::empty());
        assert(text.last() == text[0]);
        assert(encode_text(text, pairs) =~= code_of(pairs, text[0]) + encode_text(
            text.drop_first(),
            pairs,
        ));
    } else {
        lemma_encode_text_front(text.drop_last(), pairs);
        assert(text.drop_last()[0] == text[0]);
        assert(text.drop_last().drop_first() =~= text.drop_first().drop_last());
        assert(text.drop_first().last() == text.last());
        assert(encode_text(text.drop_first(), pairs) == encode_text(
            text.drop_first().drop_last(),
            pairs,
        ) + code_of(pairs, text.last()));
        assert(encode_text(text, pairs) =~= code_of(pairs, text[0]) + encode_text(
            text.drop_first(),
            pairs,
        ));
    }
}

/// A found character lookup names an actual entry.
proof fn lemma_lookup_char_entry(pairs: Seq<(char, Seq<char>)>, c: char)
    requires
        lookup_char(pairs, c) is Some,
    ensures
        exists|k: int|
            0 <= k < pairs.len() && (#[trigger] pairs[k]).0 == c && pairs[k].1 == code_of(
                pairs,
                c,
            ),
    decreases pairs.len(),
{
    if pairs[0].0 == c {
        assert(pairs[0].0 == c && pairs[0].1 == code_of(pairs, c));
    } else {
        lemma_lookup_char_entry(pairs.drop_first(), c);
        let k = choose|k: int|
            0 <= k < pairs.drop_first().len() && (#[trigger] pairs.drop_first()[k]).0 == c
                && pairs.drop_first()[k].1 == code_of(pairs.drop_first(), c);
        assert(pairs[k + 1].0 == c && pairs[k + 1].1 == code_of(pairs, c));
    }
}

/// A found code lookup names an actual entry.
proof fn lemma_lookup_code_entry(pairs: Seq<(char, Seq<char>)>, cand: Seq<char>)
    requires
        lookup_code(pairs, cand) is Some,
    ensures
        exists|k: int| 0 <= k < pairs.len() && (#[trigger] pairs[k]).1 == cand,
    decreases pairs.len(),
{
    if pairs[0].1 == cand {
        assert(pairs[0].1 == cand);
    } else {
        lemma_lookup_code_entry(pairs.drop_first(), cand);
        let k = choose|k: int|
            0 <= k < pairs.drop_first().len() && (#[trigger] pairs.drop_first()[k]).1 == cand;
        assert(pairs[k + 1].1 == cand);
    }
}

/// In a prefix-free map the code of any entry looks up to that entry's
/// character.
proof fn lemma_lookup_code_of_entry(pairs: Seq<(char, Seq<char>)>, k: int)
    requires
        prefix_free(pairs),
        0 <= k < pairs.len(),
    ensures
        lookup_code(pairs, pairs[k].1) == Some(pairs[k].0),
    decreases pairs.len(),
{
    if k == 0 {
    } else {
        assert(!is_prefix(pairs[0].1, pairs[k].1));
        assert(pairs[0].1 != pairs[k].1) by {
            if pairs[0].1 == pairs[k].1 {
                assert(is_prefix(pairs[0].1, pairs[k].1));
            }
        }
        let rest = pairs.drop_first();
        assert forall|i: int, j: int|
            0 <= i < rest.len() && 0 <= j < rest.len() && i != j implies !is_prefix(
            (#[trigger] rest[i]).1,
            (#[trigger] rest[j]).1,
        ) by {
            assert(rest[i] == pairs[i + 1] && rest[j] == pairs[j + 1]);
        }
        assert(rest[k - 1] == pairs[k]);
        lemma_lookup_code_of_entry(rest, k - 1);
    }
}

/// Greedy decoding from the start of an encoded suffix recovers the text:
/// candidates shorter than the next code match nothing (a match would
/// break prefix-freeness), and the candidate that completes the next code
/// matches exactly its character.
proof fn lemma_greedy_matches_encode(
    bits: Seq<char>,
    pairs: Seq<(char, Seq<char>)>,
    text: Seq<char>,
    l: nat,
    r: nat,
)
    requires
        prefix_free(pairs),
        forall|k: int| 0 <= k < pairs.len() ==> (#[trigger] pairs[k]).1.len() >= 1,
        forall|i: int| 0 <= i < text.len() ==> lookup_char(pairs, #[trigger] text[i]) is Some,
        l <= bits.len(),
        bits.subrange(l as int, bits.len() as int) == encode_text(text, pairs),
        text.len() == 0 ==> r == l + 1,
        text.len() >= 1 ==> l < r <= l + code_of(pairs, text[0]).len(),
    ensures
        greedy_from(bits, pairs, l, r) == text,
    decreases text.len(), l + code_of(pairs, text[0]).len() - r,
{
    let n = bits.len();
    if text.len() == 0 {
        assert(bits.subrange(l as int, n as int).len() == 0);
        assert(l == n);
    } else {
        let c0 = text[0];
        let code0 = code_of(pairs, c0);
        let ll = code0.len();
        lemma_encode_text_front(text, pairs);
        let rest_enc = encode_text(text.drop_first(), pairs);
        assert(bits.subrange(l as int, n as int) == code0 + rest_enc);
        lemma_lookup_char_entry(pairs, c0);
        let k0 = choose|k: int|
            0 <= k < pairs.len() && (#[trigger] pairs[k]).0 == c0 && pairs[k].1 == code0;
        assert(ll >= 1);
        assert(l + ll <= n) by {
            assert((code0 + rest_enc).len() == n - l);
        }
        let cand = bits.subrange(l as int, r as int);
        assert forall|j: int| 0 <= j < r - l implies cand[j] == code0[j] by {
            assert(bits[l + j] == bits.subrange(l as int, n as int)[j]);
            assert((code0 + rest_enc)[j] == code0[j]);
        }
        if r == l + ll {
            assert(cand =~= code0);
            lemma_lookup_code_of_entry(pairs, k0);
            assert(lookup_code(pairs, cand) == Some(c0));
            assert(greedy_from(bits, pairs, l, r) == seq![c0] + greedy_from(
                bits,
                pairs,
                r,
                r + 1,
            ));
            let rest = text.drop_first();
            assert(bits.subrange(r as int, n as int) =~= rest_enc) by {
                assert forall|j: int| 0 <= j < n - r implies bits[r + j] == rest_enc[j] by {
                    assert(bits[l + (ll + j)] == bits.subrange(l as int, n as int)[ll + j]);
                    assert((code0 + rest_enc)[ll + j] == rest_enc[j]);
                }
            }
            assert(forall|i: int|
                0 <= i < rest.len() ==> lookup_char(pairs, #[trigger] rest[i]) is Some) by {
                assert(forall|i: int| 0 <= i < rest.len() ==> rest[i] == text[i + 1]);
            }
            if rest.len() >= 1 {
                lemma_lookup_char_entry(pairs, rest[0]);
            }
            lemma_greedy_matches_encode(bits, pairs, rest, r, r + 1);
            assert(seq![c0] + rest =~= text);
        } else {
            assert(r < l + ll);
            assert(lookup_code(pairs, cand) is None) by {
                if lookup_code(pairs, cand) is Some {
                    lemma_lookup_code_entry(pairs, cand);
                    let k = choose|k: int|
                        0 <= k < pairs.len() && (#[trigger] pairs[k]).1 == cand;
                    assert(is_prefix(pairs[k].1, pairs[k0].1));
                    assert(k != k0) by {
                        assert(pairs[k].1.len() < pairs[k0].1.len());
                    }
                }
            }
            lemma_greedy_matches_encode(bits, pairs, text, l, r + 1);
        }
    }
}

/// Greedy decoding with a prefix-free map of nonempty codes inverts
/// encoding exactly: decoding a message encoded with the map reproduces
/// the original text.
pub proof fn lemma_decode_inverts_encode(text: Seq<char>, pairs: Seq<(char, Seq<char>)>)
    requires
        prefix_free(pairs),
        forall|k: int| 0 <= k < pairs.len() ==> (#[trigger] pairs[k]).1.len() >= 1,
        forall|i: int| 0 <= i < text.len() ==> lookup_char(pairs, #[trigger] text[i]) is Some,
    ensures
        greedy_from(encode_text(text, pairs), pairs, 0, 1) == text,
{
    let bits = encode_text(text, pairs);
    assert(bits.subrange(0, bits.len() as int) =~= bits);
    if text.len() >= 1 {
        lemma_lookup_char_entry(pairs, text[0]);
    }
    lemma_greedy_matches_encode(bits, pairs, text, 0, 1);
}

/// The full source-coding round trip: a message over the vocabulary's
/// characters, encoded with the code map a vocabulary determines, is
/// decoded back to the original text exactly, because such a map is a
/// prefix code of nonempty codes.
pub proof fn lemma_pipeline_round_trip(words: Seq<String>, text: Seq<char>)
    requires
        forall|i: int|
            0 <= i < text.len() ==> lookup_char(spec_code_map(words), #[trigger] text[i])
                is Some,
    ensures
        greedy_from(
            encode_text(text, spec_code_map(words)),
            spec_code_map(words),
            0,
            1,
        ) == text,
{
    lemma_code_map_prefix_free(words);
    lemma_decode_inverts_encode(text, spec_code_map(words));
}

} // verus!
