//! Hamming coding over '0'/'1' strings, with an optional extended mode that
//! prepends one overall even-parity bit.
//!
//! A frame of length `n` is 1-indexed. Positions that are exact powers of
//! two carry parity bits; the remaining positions carry the payload in
//! order. Parity group `i` covers every position whose binary representation
//! has bit `i` set, and each group has even parity in a well-formed frame.
//! On decode, the sum of the weights `2^i` of the groups found odd is the
//! 1-indexed position of a single flipped bit.

use crate::bits::{
    bit_val, chars_to_string, count_ones, flip_at, flip_char, is_bits, lemma_flip_preserves_bits,
    lemma_ones_flip, ones, parity_bit_char, str_to_chars,
};
use vstd::arithmetic::power2::{
    lemma_pow2_pos, lemma_pow2_strictly_increases, lemma_pow2_unfold, pow2,
};
use vstd::prelude::*;

verus! {

/// Whether 1-indexed position `p` belongs to parity group `i`: bit `i` of
/// `p` is set.
pub open spec fn in_group(p: nat, i: nat) -> bool {
    (p / pow2(i)) % 2 == 1
}

/// Whether `p` is an exact power of two, and so a parity-bit position.
pub open spec fn is_parity_pos(p: nat) -> bool {
    exists|e: nat| p == pow2(e)
}

/// The count of ones among the first `upto` positions of `f` that lie in
/// parity group `i`.
pub open spec fn group_ones_upto(f: Seq<char>, i: nat, upto: nat) -> nat
    decreases upto,
{
    if upto == 0 {
        0
    } else {
        group_ones_upto(f, i, (upto - 1) as nat) + if in_group(upto, i) {
            bit_val(f[upto - 1])
        } else {
            0
        }
    }
}

/// The count of ones of parity group `i` over the whole frame.
pub open spec fn group_ones(f: Seq<char>, i: nat) -> nat {
    group_ones_upto(f, i, f.len())
}

/// The syndrome restricted to groups below `q`: the sum of the weights
/// `2^i` of the groups with odd parity.
pub open spec fn syndrome_upto(f: Seq<char>, q: nat) -> nat
    decreases q,
{
    if q == 0 {
        0
    } else {
        syndrome_upto(f, (q - 1) as nat) + if group_ones(f, (q - 1) as nat) % 2 == 1 {
            pow2((q - 1) as nat)
        } else {
            0
        }
    }
}

/// The number of parity bits for a payload of `m` bits, continued from
/// candidate `p`: the least `p` with `2^p >= m + p + 1`.
pub open spec fn parity_bits_from(m: nat, p: nat) -> nat
    decreases m + 1 - p,
    via parity_bits_from_decreases
{
    if pow2(p) >= m + p + 1 {
        p
    } else {
        parity_bits_from(m, p + 1)
    }
}

/// The number of parity bits a Hamming frame for an `m`-bit payload holds.
pub open spec fn parity_bits(m: nat) -> nat {
    parity_bits_from(m, 0)
}

/// Two to the power `p` is at least `2 * p` for positive `p`.
pub proof fn lemma_pow2_at_least_double(p: nat)
    requires
        p >= 1,
    ensures
        pow2(p) >= 2 * p,
    decreases p,
{
    if p == 1 {
        assert(pow2(1) == 2) by { vstd::arithmetic::power2::lemma2_to64() }
    } else {
        lemma_pow2_at_least_double((p - 1) as nat);
        lemma_pow2_unfold(p);
    }
}

/// Two to the power `p` exceeds `p`.
pub proof fn lemma_pow2_above(p: nat)
    ensures
        pow2(p) >= p + 1,
    decreases p,
{
    if p == 0 {
        assert(pow2(0) == 1) by { vstd::arithmetic::power2::lemma2_to64() }
    } else {
        lemma_pow2_above((p - 1) as nat);
        lemma_pow2_unfold(p);
    }
}

#[via_fn]
proof fn parity_bits_from_decreases(m: nat, p: nat) {
    if pow2(p) < m + p + 1 {
        if p >= 1 {
            lemma_pow2_at_least_double(p);
            assert(2 * p < m + p + 1);
            assert(p <= m);
        }
    }
}

/// The number of parity groups a decoder checks for a frame of `n` bits,
/// continued from candidate `q`: the least `q` with `2^q >= n`.
pub open spec fn groups_from(n: nat, q: nat) -> nat
    decreases n - q,
    via groups_from_decreases
{
    if pow2(q) >= n {
        q
    } else {
        groups_from(n, q + 1)
    }
}

/// The number of parity groups a decoder checks for a frame of `n` bits.
pub open spec fn groups_for(n: nat) -> nat {
    groups_from(n, 0)
}

#[via_fn]
proof fn groups_from_decreases(n: nat, q: nat) {
    if pow2(q) < n {
        lemma_pow2_above(q);
    }
}

/// The payload of a frame: the characters at the positions, among the first
/// `k`, that are not powers of two.
pub open spec fn extract_upto(f: Seq<char>, k: nat) -> Seq<char>
    decreases k,
{
    if k == 0 {
        Seq::empty()
    } else {
        extract_upto(f, (k - 1) as nat) + if is_parity_pos(k) {
            Seq::<char>::empty()
        } else {
            seq![f[k - 1]]
        }
    }
}

/// The payload of a whole frame: every position that is not a power of two,
/// in order.
pub open spec fn extract_data(f: Seq<char>) -> Seq<char> {
    extract_upto(f, f.len())
}

/// How many positions among `1..=k` are powers of two.
pub open spec fn parity_pos_count(k: nat) -> nat
    decreases k,
{
    if k == 0 {
        0
    } else {
        parity_pos_count((k - 1) as nat) + if is_parity_pos(k) {
            1nat
        } else {
            0nat
        }
    }
}

/// `parity_bits_from` yields the least admissible count: the recursion's
/// result satisfies the bound and every smaller candidate fails it.
pub proof fn lemma_parity_bits_from_least(m: nat, p: nat)
    requires
        forall|p2: nat| p2 < p ==> pow2(p2) < m + p2 + 1,
    ensures
        pow2(parity_bits_from(m, p)) >= m + parity_bits_from(m, p) + 1,
        forall|p2: nat| p2 < parity_bits_from(m, p) ==> pow2(p2) < m + p2 + 1,
        parity_bits_from(m, p) >= p,
    decreases m + 1 - p,
{
    if pow2(p) >= m + p + 1 {
    } else {
        if p >= 1 {
            lemma_pow2_at_least_double(p);
        }
        lemma_parity_bits_from_least(m, p + 1);
    }
}

/// `groups_from` yields the least admissible count.
pub proof fn lemma_groups_from_least(n: nat, q: nat)
    requires
        forall|q2: nat| q2 < q ==> pow2(q2) < n,
    ensures
        pow2(groups_from(n, q)) >= n,
        forall|q2: nat| q2 < groups_from(n, q) ==> pow2(q2) < n,
        groups_from(n, q) >= q,
    decreases n - q,
{
    if pow2(q) >= n {
    } else {
        lemma_pow2_above(q);
        lemma_groups_from_least(n, q + 1);
    }
}

/// A least count is unique: anything admissible whose predecessor is not
/// admissible equals `groups_for(n)`.
pub proof fn lemma_groups_for_is(n: nat, q: nat)
    requires
        pow2(q) >= n,
        forall|q2: nat| q2 < q ==> pow2(q2) < n,
    ensures
        groups_for(n) == q,
{
    lemma_groups_from_least(n, 0);
    let g = groups_for(n);
    if g < q {
        assert(pow2(g) < n);
    }
    if q < g {
        assert(pow2(q) < n);
    }
}

/// For a payload of `m >= 1` bits, the decoder's group count over the frame
/// length `m + parity_bits(m)` equals the encoder's parity-bit count.
pub proof fn lemma_groups_match_parity_bits(m: nat)
    requires
        m >= 1,
    ensures
        groups_for(m + parity_bits(m)) == parity_bits(m),
        parity_bits(m) >= 1,
        pow2(parity_bits(m)) > m + parity_bits(m),
{
    let p = parity_bits(m);
    lemma_parity_bits_from_least(m, 0);
    assert(pow2(0) == 1) by { vstd::arithmetic::power2::lemma2_to64() }
    assert(p >= 1) by {
        if p == 0 {
            assert(pow2(0) >= m + 1);
        }
    }
    assert(pow2(p) >= m + p + 1 > m + p);
    assert forall|q2: nat| q2 < p implies pow2(q2) < m + p by {
        assert(pow2(q2) < m + q2 + 1);
        assert(m + q2 + 1 <= m + p);
    }
    lemma_groups_for_is(m + p, p);
}

/// If `pos <= 2^e < 2 * pos`, then `pos` is a power of two exactly when it
/// equals `2^e`.
pub proof fn lemma_parity_pos_bracket(pos: nat, e: nat)
    requires
        pos <= pow2(e) < 2 * pos,
    ensures
        is_parity_pos(pos) <==> pos == pow2(e),
{
    if is_parity_pos(pos) {
        let c = choose|c: nat| pos == pow2(c);
        if c < e {
            lemma_pow2_strictly_increases(c, e);
            lemma_pow2_unfold((c + 1) as nat);
            if c + 1 < e {
                lemma_pow2_strictly_increases((c + 1) as nat, e);
            }
            assert(pow2(e) >= 2 * pos);
        }
        if e < c {
            lemma_pow2_strictly_increases(e, c);
        }
    }
}

/// A power of two belongs to exactly one parity group: its own exponent.
pub proof fn lemma_in_group_pow2(j: nat, i: nat)
    ensures
        in_group(pow2(j), i) <==> i == j,
{
    if i == j {
        lemma_pow2_pos(i);
        vstd::arithmetic::div_mod::lemma_div_by_self(pow2(i) as int);
    } else if i < j {
        vstd::arithmetic::power2::lemma_pow2_subtracts(i, j);
        assert(pow2(j) / pow2(i) == pow2((j - i) as nat));
        assert(pow2((j - i) as nat) % 2 == 0) by {
            lemma_pow2_unfold((j - i) as nat);
        }
    } else {
        lemma_pow2_strictly_increases(j, i);
        lemma_pow2_pos(i);
        vstd::arithmetic::div_mod::lemma_basic_div(pow2(j) as int, pow2(i) as int);
    }
}

/// Group counts depend only on the first `k` characters of the frame.
pub proof fn lemma_group_ones_upto_prefix(f: Seq<char>, g: Seq<char>, i: nat, k: nat)
    requires
        forall|t: int| 0 <= t < k ==> f[t] == g[t],
    ensures
        group_ones_upto(f, i, k) == group_ones_upto(g, i, k),
    decreases k,
{
    if k > 0 {
        lemma_group_ones_upto_prefix(f, g, i, (k - 1) as nat);
    }
}

/// Updating 1-indexed position `t` trades its old bit value for the new one
/// in the count of every group that holds `t`, and leaves the other groups
/// unchanged.
pub proof fn lemma_group_ones_upto_update(f: Seq<char>, t: nat, c: char, i: nat, k: nat)
    requires
        1 <= t <= f.len(),
        k <= f.len(),
    ensures
        t <= k && in_group(t, i) ==> group_ones_upto(f.update(t - 1, c), i, k) + bit_val(
            f[t - 1],
        ) == group_ones_upto(f, i, k) + bit_val(c),
        !(t <= k && in_group(t, i)) ==> group_ones_upto(f.update(t - 1, c), i, k)
            == group_ones_upto(f, i, k),
    decreases k,
{
    let g = f.update(t - 1, c);
    if k > 0 {
        lemma_group_ones_upto_update(f, t, c, i, (k - 1) as nat);
        if k == t {
            assert(g[k - 1] == c);
        } else {
            assert(g[k - 1] == f[k - 1]);
        }
    }
}

/// The extracted payload depends only on the first `k` characters.
pub proof fn lemma_extract_upto_prefix(f: Seq<char>, g: Seq<char>, k: nat)
    requires
        forall|t: int| 0 <= t < k ==> f[t] == g[t],
    ensures
        extract_upto(f, k) == extract_upto(g, k),
    decreases k,
{
    if k > 0 {
        lemma_extract_upto_prefix(f, g, (k - 1) as nat);
        assert(extract_upto(f, k) =~= extract_upto(g, k));
    }
}

/// Updating a parity-bit position does not change the extracted payload.
pub proof fn lemma_extract_upto_update_parity(f: Seq<char>, t: nat, c: char, k: nat)
    requires
        1 <= t <= f.len(),
        is_parity_pos(t),
        k <= f.len(),
    ensures
        extract_upto(f.update(t - 1, c), k) == extract_upto(f, k),
    decreases k,
{
    let g = f.update(t - 1, c);
    if k > 0 {
        lemma_extract_upto_update_parity(f, t, c, (k - 1) as nat);
        if k == t {
            assert(extract_upto(g, k) =~= extract_upto(f, k));
        } else {
            assert(g[k - 1] == f[k - 1]);
            assert(extract_upto(g, k) =~= extract_upto(f, k));
        }
    }
}

/// The extracted payload of the first `k` positions has `k` minus the count
/// of parity positions characters.
pub proof fn lemma_extract_upto_len(f: Seq<char>, k: nat)
    ensures
        parity_pos_count(k) <= k,
        extract_upto(f, k).len() == k - parity_pos_count(k),
    decreases k,
{
    if k > 0 {
        lemma_extract_upto_len(f, (k - 1) as nat);
    }
}

/// The count of parity positions among `1..=k` is the least `e` with
/// `2^e > k`, which is `groups_for(k + 1)`.
pub proof fn lemma_parity_pos_count_val(k: nat)
    ensures
        parity_pos_count(k) == groups_for(k + 1),
    decreases k,
{
    assert(pow2(0) == 1) by { vstd::arithmetic::power2::lemma2_to64() }
    if k == 0 {
        lemma_groups_for_is(1, 0);
    } else {
        lemma_parity_pos_count_val((k - 1) as nat);
        let c = groups_for(k);
        lemma_groups_from_least(k, 0);
        if is_parity_pos(k) {
            let e = choose|e: nat| k == pow2(e);
            // groups_for(k) == e: 2^e >= k and smaller powers are below k
            assert forall|q2: nat| q2 < e implies pow2(q2) < k by {
                lemma_pow2_strictly_increases(q2, e);
            }
            lemma_groups_for_is(k, e);
            // groups_for(k + 1) == e + 1
            lemma_pow2_unfold((e + 1) as nat);
            assert(pow2((e + 1) as nat) >= k + 1);
            assert forall|q2: nat| q2 < e + 1 implies pow2(q2) < k + 1 by {
                if q2 < e {
                    lemma_pow2_strictly_increases(q2, e);
                }
            }
            lemma_groups_for_is(k + 1, (e + 1) as nat);
        } else {
            // 2^c >= k but 2^c != k, so 2^c >= k + 1 and the least stays c
            assert(pow2(c) >= k);
            assert(pow2(c) != k);
            assert forall|q2: nat| q2 < c implies pow2(q2) < k + 1 by {
                assert(pow2(q2) < k);
            }
            lemma_groups_for_is(k + 1, c);
        }
    }
}

/// A frame whose checked groups are all even has syndrome zero.
pub proof fn lemma_syndrome_upto_even(f: Seq<char>, q: nat)
    requires
        forall|i: nat| i < q ==> #[trigger] group_ones(f, i) % 2 == 0,
    ensures
        syndrome_upto(f, q) == 0,
    decreases q,
{
    if q > 0 {
        lemma_syndrome_upto_even(f, (q - 1) as nat);
    }
}

/// The sum of the weights of the low `q` bits of `t` that are set.
pub open spec fn low_bits_sum(t: nat, q: nat) -> nat
    decreases q,
{
    if q == 0 {
        0
    } else {
        low_bits_sum(t, (q - 1) as nat) + if in_group(t, (q - 1) as nat) {
            pow2((q - 1) as nat)
        } else {
            0nat
        }
    }
}

/// The low bits of `t` sum to `t` modulo `2^q`.
pub proof fn lemma_low_bits_sum(t: nat, q: nat)
    ensures
        low_bits_sum(t, q) == t % pow2(q),
    decreases q,
{
    if q == 0 {
        assert(pow2(0) == 1) by { vstd::arithmetic::power2::lemma2_to64() }
        assert(t % 1 == 0) by {
            vstd::arithmetic::div_mod::lemma_mod_bound(t as int, 1);
        }
    } else {
        lemma_low_bits_sum(t, (q - 1) as nat);
        let h = pow2((q - 1) as nat);
        lemma_pow2_pos((q - 1) as nat);
        lemma_pow2_unfold(q);
        assert(t % (h * 2) == h * ((t / h) % 2) + t % h) by {
            vstd::arithmetic::div_mod::lemma_breakdown(t as int, h as int, 2);
        }
        assert(pow2(q) == h * 2);
    }
}

/// Flipping one bit at 1-indexed position `t` of a frame with all-even
/// checked groups gives the syndrome made of the low bits of `t`.
pub proof fn lemma_syndrome_single_flip(f: Seq<char>, t: nat, q: nat)
    requires
        1 <= t <= f.len(),
        f[t - 1] == '0' || f[t - 1] == '1',
        forall|i: nat| i < q ==> #[trigger] group_ones(f, i) % 2 == 0,
    ensures
        syndrome_upto(flip_at(f, t - 1 as int), q) == low_bits_sum(t, q),
    decreases q,
{
    let g = flip_at(f, t - 1 as int);
    if q > 0 {
        lemma_syndrome_single_flip(f, t, (q - 1) as nat);
        let i = (q - 1) as nat;
        lemma_group_ones_upto_update(f, t, flip_char(f[t - 1]), i, f.len());
        assert(g.len() == f.len());
        assert(g == f.update(t - 1, flip_char(f[t - 1])));
        let cf = group_ones_upto(f, i, f.len());
        let cg = group_ones_upto(g, i, f.len());
        assert(group_ones(f, i) == cf);
        assert(group_ones(g, i) == cg);
        assert(cf % 2 == 0);
        assert(bit_val(f[t - 1]) + bit_val(flip_char(f[t - 1])) == 1);
        if in_group(t, i) {
            assert(cg + bit_val(f[t - 1]) == cf + bit_val(flip_char(f[t - 1])));
            assert(cg % 2 == 1);
        } else {
            assert(cg == cf);
        }
    }
}

/// The sum of the weights of the low `q` bits where `t1` and `t2` differ.
pub open spec fn xor_bits_sum(t1: nat, t2: nat, q: nat) -> nat
    decreases q,
{
    if q == 0 {
        0
    } else {
        xor_bits_sum(t1, t2, (q - 1) as nat) + if in_group(t1, (q - 1) as nat) != in_group(
            t2,
            (q - 1) as nat,
        ) {
            pow2((q - 1) as nat)
        } else {
            0nat
        }
    }
}

/// Flipping two distinct positions of a frame with all-even checked groups
/// gives the syndrome made of the bits where the two positions differ.
pub proof fn lemma_syndrome_double_flip(f: Seq<char>, t1: nat, t2: nat, q: nat)
    requires
        1 <= t1 <= f.len(),
        1 <= t2 <= f.len(),
        t1 != t2,
        f[t1 - 1] == '0' || f[t1 - 1] == '1',
        f[t2 - 1] == '0' || f[t2 - 1] == '1',
        forall|i: nat| i < q ==> #[trigger] group_ones(f, i) % 2 == 0,
    ensures
        syndrome_upto(flip_at(flip_at(f, t1 - 1 as int), t2 - 1 as int), q) == xor_bits_sum(
            t1,
            t2,
            q,
        ),
    decreases q,
{
    let g1 = flip_at(f, t1 - 1 as int);
    let g2 = flip_at(g1, t2 - 1 as int);
    if q > 0 {
        lemma_syndrome_double_flip(f, t1, t2, (q - 1) as nat);
        let i = (q - 1) as nat;
        lemma_group_ones_upto_update(f, t1, flip_char(f[t1 - 1]), i, f.len());
        assert(g1 == f.update(t1 - 1, flip_char(f[t1 - 1])));
        assert(g1.len() == f.len());
        assert(g1[t2 - 1] == f[t2 - 1]);
        lemma_group_ones_upto_update(g1, t2, flip_char(g1[t2 - 1]), i, g1.len());
        assert(g2 == g1.update(t2 - 1, flip_char(g1[t2 - 1])));
        assert(g2.len() == f.len());
        let cf = group_ones_upto(f, i, f.len());
        let c1 = group_ones_upto(g1, i, f.len());
        let c2 = group_ones_upto(g2, i, f.len());
        assert(group_ones(f, i) == cf);
        assert(group_ones(g1, i) == c1);
        assert(group_ones(g2, i) == c2);
        assert(cf % 2 == 0);
        assert(bit_val(f[t1 - 1]) + bit_val(flip_char(f[t1 - 1])) == 1);
        assert(bit_val(g1[t2 - 1]) + bit_val(flip_char(g1[t2 - 1])) == 1);
        if in_group(t1, i) {
            assert(c1 + bit_val(f[t1 - 1]) == cf + bit_val(flip_char(f[t1 - 1])));
            assert(c1 % 2 == 1);
        } else {
            assert(c1 == cf);
        }
        if in_group(t2, i) {
            assert(c2 + bit_val(g1[t2 - 1]) == c1 + bit_val(flip_char(g1[t2 - 1])));
            assert(c2 % 2 != c1 % 2);
        } else {
            assert(c2 == c1);
        }
    }
}

/// Two distinct positions below `2^q` differ in at least one low bit, so
/// their differing-bit weight sum is not zero.
pub proof fn lemma_xor_bits_sum_nonzero(t1: nat, t2: nat, q: nat)
    requires
        t1 != t2,
        t1 < pow2(q),
        t2 < pow2(q),
    ensures
        xor_bits_sum(t1, t2, q) != 0,
{
    if xor_bits_sum(t1, t2, q) == 0 {
        lemma_xor_bits_sum_zero_bits(t1, t2, q);
        lemma_equal_low_bits(t1, t2, q);
        lemma_low_bits_sum(t1, q);
        lemma_low_bits_sum(t2, q);
        vstd::arithmetic::div_mod::lemma_small_mod(t1, pow2(q));
        vstd::arithmetic::div_mod::lemma_small_mod(t2, pow2(q));
    }
}

/// A zero differing-bit weight sum means every low bit agrees.
proof fn lemma_xor_bits_sum_zero_bits(t1: nat, t2: nat, q: nat)
    requires
        xor_bits_sum(t1, t2, q) == 0,
    ensures
        forall|i: nat| i < q ==> in_group(t1, i) == in_group(t2, i),
    decreases q,
{
    if q > 0 {
        lemma_pow2_pos((q - 1) as nat);
        lemma_xor_bits_sum_zero_bits(t1, t2, (q - 1) as nat);
        assert forall|i: nat| i < q implies in_group(t1, i) == in_group(t2, i) by {
            if i == (q - 1) as nat {
                assert(xor_bits_sum(t1, t2, q) >= pow2((q - 1) as nat) || in_group(t1, i)
                    == in_group(t2, i));
            }
        }
    }
}

/// Numbers whose low `q` bits agree have equal low-bit sums.
proof fn lemma_equal_low_bits(t1: nat, t2: nat, q: nat)
    requires
        forall|i: nat| i < q ==> in_group(t1, i) == in_group(t2, i),
    ensures
        low_bits_sum(t1, q) == low_bits_sum(t2, q),
    decreases q,
{
    if q > 0 {
        lemma_equal_low_bits(t1, t2, (q - 1) as nat);
        assert(in_group(t1, (q - 1) as nat) == in_group(t2, (q - 1) as nat));
    }
}

/// The syndrome over `q` groups is below `2^q`.
pub proof fn lemma_syndrome_upto_bound(f: Seq<char>, q: nat)
    ensures
        syndrome_upto(f, q) < pow2(q),
    decreases q,
{
    if q == 0 {
        assert(pow2(0) == 1) by { vstd::arithmetic::power2::lemma2_to64() }
    } else {
        lemma_syndrome_upto_bound(f, (q - 1) as nat);
        lemma_pow2_unfold(q);
    }
}

/// The syndrome a decoder computes over frame `f`: the checked groups are
/// those below the least `q` with `2^q` at least the frame length.
pub open spec fn ham_syndrome(f: Seq<char>) -> nat {
    syndrome_upto(f, groups_for(f.len()))
}

/// Whether a received frame makes the decoder report a detected error: the
/// syndrome points at a position inside the frame.
pub open spec fn ham_has_error(f: Seq<char>) -> bool {
    1 <= ham_syndrome(f) <= f.len()
}

/// The working frame after the decoder's single-bit correction: the bit the
/// syndrome points at is flipped when it is in range.
pub open spec fn ham_corrected(f: Seq<char>) -> Seq<char> {
    if ham_has_error(f) {
        flip_at(f, ham_syndrome(f) - 1)
    } else {
        f
    }
}

/// A well-formed Hamming frame for an `m`-bit payload: right length, bits
/// only, and every one of its parity groups even.
pub open spec fn hamming_frame_ok(f: Seq<char>, m: nat) -> bool {
    &&& f.len() == m + parity_bits(m)
    &&& is_bits(f)
    &&& forall|i: nat| i < parity_bits(m) ==> #[trigger] group_ones(f, i) % 2 == 0
}

/// Whether parity group `i` (with weight `pw == 2^i`) holds an odd count of
/// ones in `code`.
fn group_parity_odd(code: &Vec<char>, pw: u128, Ghost(i): Ghost<nat>) -> (odd: bool)
    requires
        pw as nat == pow2(i),
    ensures
        odd == (group_ones(code@, i) % 2 == 1),
{
    proof {
        lemma_pow2_pos(i);
    }
    let mut odd = false;
    let mut idx: usize = 0;
    while idx < code.len()
        invariant
            idx <= code@.len(),
            pw as nat == pow2(i),
            pw >= 1,
            odd == (group_ones_upto(code@, i, idx as nat) % 2 == 1),
        decreases code@.len() - idx,
    {
        let pos = idx + 1;
        if (pos as u128 / pw) % 2 == 1 {
            assert(in_group(pos as nat, i));
            if code[idx] == '1' {
                odd = !odd;
            }
        } else {
            assert(!in_group(pos as nat, i));
        }
        idx = pos;
    }
    odd
}

/// The payload characters of `code`: every position that is not a power of
/// two, in order.
fn extract_payload(code: &Vec<char>) -> (out: Vec<char>)
    ensures
        out@ == extract_data(code@),
{
    let mut out: Vec<char> = Vec::new();
    let mut idx: usize = 0;
    let mut next_p: u128 = 1;
    let ghost mut e: nat = 0;
    proof {
        assert(pow2(0) == 1) by { vstd::arithmetic::power2::lemma2_to64() }
    }
    while idx < code.len()
        invariant
            idx <= code@.len(),
            next_p as nat == pow2(e),
            idx + 1 <= next_p,
            next_p < 2 * (idx + 1),
            out@ == extract_upto(code@, idx as nat),
        decreases code@.len() - idx,
    {
        proof {
            lemma_parity_pos_bracket((idx + 1) as nat, e);
        }
        if (idx + 1) as u128 == next_p {
            proof {
                lemma_pow2_unfold((e + 1) as nat);
            }
            next_p = next_p * 2;
            proof {
                e = e + 1;
            }
            assert(is_parity_pos((idx + 1) as nat));
            assert(out@ =~= extract_upto(code@, (idx + 1) as nat));
        } else {
            assert(!is_parity_pos((idx + 1) as nat));
            out.push(code[idx]);
            assert(out@ =~= extract_upto(code@, (idx + 1) as nat));
        }
        idx = idx + 1;
    }
    out
}

/// The count of parity positions in a full frame for an `m`-bit payload is
/// exactly the number of parity bits.
pub proof fn lemma_parity_pos_count_total(m: nat)
    ensures
        parity_pos_count(m + parity_bits(m)) == parity_bits(m),
{
    let p = parity_bits(m);
    lemma_parity_bits_from_least(m, 0);
    lemma_parity_pos_count_val(m + p);
    assert forall|q2: nat| q2 < p implies pow2(q2) < m + p + 1 by {
        assert(pow2(q2) < m + q2 + 1);
    }
    lemma_groups_for_is(m + p + 1, p);
}

/// The count of non-parity positions never shrinks as the range grows.
pub proof fn lemma_data_count_monotone(k1: nat, k2: nat)
    requires
        k1 <= k2,
    ensures
        parity_pos_count(k1) <= k1,
        parity_pos_count(k2) <= k2,
        k1 - parity_pos_count(k1) <= k2 - parity_pos_count(k2),
    decreases k2,
{
    if k1 < k2 {
        lemma_data_count_monotone(k1, (k2 - 1) as nat);
    } else {
        lemma_extract_upto_len(Seq::empty(), k1);
        lemma_extract_upto_len(Seq::empty(), k2);
    }
}

/// A least parity-bit count is unique.
pub proof fn lemma_parity_bits_is(m: nat, p: nat)
    requires
        pow2(p) >= m + p + 1,
        forall|p2: nat| p2 < p ==> pow2(p2) < m + p2 + 1,
    ensures
        parity_bits(m) == p,
{
    lemma_parity_bits_from_least(m, 0);
    let g = parity_bits(m);
    if g < p {
        assert(pow2(g) < m + g + 1);
    }
    if p < g {
        assert(pow2(p) < m + p + 1);
    }
}

/// Lays out and fills a Hamming frame for the payload: rejects payloads of
/// 502 bits or more with `ok == false`; otherwise returns a frame whose
/// non-power-of-two positions carry the payload in order and whose parity
/// groups are all even. In extended mode one overall even-parity bit is
/// prepended to the frame.
pub fn encode_hamming(encoded_string: &String, is_extended: bool) -> (r: (bool, String))
    requires
        is_bits(encoded_string@),
    ensures
        r.0 == (encoded_string@.len() < 502),
        encoded_string@.len() >= 502 ==> r.1@ == "Exceeded the length of allowed message size"@,
        ({
            let s = encoded_string@;
            let m = s.len();
            r.0 ==> if is_extended {
                &&& r.1@.len() == 1 + m + parity_bits(m)
                &&& r.1@[0] == parity_bit_char(r.1@.drop_first())
                &&& hamming_frame_ok(r.1@.drop_first(), m)
                &&& extract_data(r.1@.drop_first()) == s
            } else {
                &&& hamming_frame_ok(r.1@, m)
                &&& extract_data(r.1@) == s
            }
        }),
{
    let v = str_to_chars(encoded_string.as_str());
    let ghost s = encoded_string@;
    let m = v.len();
    if m >= 502 {
        return (false, String::from_str("Exceeded the length of allowed message size"));
    }
    proof {
        assert(pow2(0) == 1) by { vstd::arithmetic::power2::lemma2_to64() }
    }
    // the least p with 2^p >= m + p + 1
    let mut p: usize = 0;
    let mut p2: u64 = 1;
    while p2 < (m + p + 1) as u64
        invariant
            p2 as nat == pow2(p as nat),
            forall|c: nat| c < p ==> pow2(c) < m + c + 1,
            p <= 9,
            m < 502,
        decreases 10 - p,
    {
        proof {
            if p == 9 {
                assert(pow2(9) == 512) by { vstd::arithmetic::power2::lemma2_to64() }
            }
            lemma_pow2_unfold((p + 1) as nat);
        }
        p2 = p2 * 2;
        p = p + 1;
    }
    proof {
        lemma_parity_bits_is(m as nat, p as nat);
    }
    let total = m + p;
    proof {
        assert forall|i2: nat| i2 < p as nat implies pow2(i2) < total as nat by {
            assert(pow2(i2) < m + i2 + 1);
        }
    }
    // lay the payload out, reserving '0' at each power-of-two position
    let mut code: Vec<char> = Vec::new();
    let mut j: usize = 0;
    let mut next_p: u64 = 1;
    let ghost mut e: nat = 0;
    let mut idx: usize = 0;
    proof {
        assert forall|i2: nat|
            i2 < p as nat && pow2(i2) <= idx as nat implies code@[pow2(i2) - 1] == '0' by {
            lemma_pow2_pos(i2);
        }
    }
    while idx < total
        invariant
            is_bits(s),
            v@ == s,
            m == s.len(),
            m < 502,
            p <= 9,
            total == m + p,
            p == parity_bits(m as nat),
            forall|i2: nat| i2 < p as nat ==> pow2(i2) < total as nat,
            code@.len() == idx,
            idx <= total,
            next_p as nat == pow2(e),
            idx + 1 <= next_p,
            next_p < 2 * (idx + 1),
            parity_pos_count(idx as nat) == e,
            j + parity_pos_count(idx as nat) == idx,
            j <= m,
            extract_upto(code@, idx as nat) == s.subrange(0, j as int),
            is_bits(code@),
            forall|i2: nat|
                i2 < p as nat && pow2(i2) <= idx as nat ==> code@[pow2(i2) - 1] == '0',
        decreases total - idx,
    {
        let ghost old_code = code@;
        proof {
            lemma_parity_pos_bracket((idx + 1) as nat, e);
        }
        if (idx + 1) as u64 == next_p {
            code.push('0');
            proof {
                assert(is_parity_pos((idx + 1) as nat));
                lemma_pow2_unfold((e + 1) as nat);
                lemma_extract_upto_prefix(code@, old_code, idx as nat);
                assert(extract_upto(code@, (idx + 1) as nat) =~= s.subrange(0, j as int));
                e = e + 1;
            }
            next_p = next_p * 2;
            proof {
                assert forall|i2: nat|
                    i2 < p as nat && pow2(i2) <= (idx + 1) as nat implies code@[pow2(i2)
                    - 1] == '0' by {
                    lemma_pow2_pos(i2);
                    if pow2(i2) == (idx + 1) as nat {
                        assert(code@[idx as int] == '0');
                    } else {
                        assert(pow2(i2) <= idx as nat);
                        assert(code@[pow2(i2) - 1] == old_code[pow2(i2) - 1]);
                    }
                }
            }
        } else {
            proof {
                assert(!is_parity_pos((idx + 1) as nat));
                lemma_data_count_monotone((idx + 1) as nat, total as nat);
                lemma_parity_pos_count_total(m as nat);
                assert(parity_pos_count((idx + 1) as nat) == parity_pos_count(idx as nat));
                assert(j < m);
            }
            code.push(v[j]);
            j = j + 1;
            proof {
                lemma_extract_upto_prefix(code@, old_code, idx as nat);
                assert(extract_upto(code@, (idx + 1) as nat) =~= s.subrange(0, j as int));
                assert forall|i2: nat|
                    i2 < p as nat && pow2(i2) <= (idx + 1) as nat implies code@[pow2(i2)
                    - 1] == '0' by {
                    lemma_pow2_pos(i2);
                    if pow2(i2) == (idx + 1) as nat {
                        assert(is_parity_pos((idx + 1) as nat));
                    } else {
                        assert(pow2(i2) <= idx as nat);
                        assert(code@[pow2(i2) - 1] == old_code[pow2(i2) - 1]);
                    }
                }
            }
        }
        idx = idx + 1;
    }
    proof {
        lemma_extract_upto_len(code@, total as nat);
        lemma_parity_pos_count_total(m as nat);
        assert(j == m);
        assert(extract_data(code@) =~= s);
        assert forall|i2: nat| i2 < p as nat implies code@[pow2(i2) - 1] == '0' by {
            lemma_pow2_pos(i2);
            assert(pow2(i2) <= idx as nat);
        }
    }
    // set each parity bit so that its group's count of ones is even
    let mut i: usize = 0;
    let mut pw: u128 = 1;
    while i < p
        invariant
            i <= p,
            pw as nat == pow2(i as nat),
            m == s.len(),
            m < 502,
            p <= 9,
            total == m + p,
            p == parity_bits(m as nat),
            forall|i2: nat| i2 < p as nat ==> pow2(i2) < total as nat,
            code@.len() == total,
            is_bits(code@),
            extract_data(code@) == s,
            forall|i2: nat| i2 < i as nat ==> #[trigger] group_ones(code@, i2) % 2 == 0,
            forall|i2: nat|
                i as nat <= i2 < p as nat ==> code@[pow2(i2) - 1] == '0',
        decreases p - i,
    {
        let ghost old_code = code@;
        let odd = group_parity_odd(&code, pw, Ghost(i as nat));
        proof {
            lemma_pow2_pos(i as nat);
            assert(pow2(i as nat) < total as nat);
        }
        let pos = pw as usize;
        let c: char = if odd {
            '1'
        } else {
            '0'
        };
        assert(pos as nat == pow2(i as nat) < total as nat);
        code[pos - 1] = c;
        proof {
            assert(code@ == old_code.update(pos - 1, c));
            lemma_extract_upto_update_parity(old_code, pos as nat, c, total as nat);
            assert(extract_data(code@) == s);
            assert forall|i2: nat|
                i as nat + 1 <= i2 < p as nat implies code@[pow2(i2) - 1] == '0' by {
                lemma_pow2_pos(i2);
                lemma_pow2_strictly_increases(i as nat, i2);
                assert(pow2(i2) != pos as nat);
                assert(code@[pow2(i2) - 1] == old_code[pow2(i2) - 1]);
            }
            assert(code@.len() == old_code.len());
            assert forall|i2: nat| i2 < i as nat + 1 implies #[trigger] group_ones(code@, i2)
                % 2 == 0 by {
                lemma_group_ones_upto_update(old_code, pos as nat, c, i2, old_code.len());
                lemma_in_group_pow2(i as nat, i2);
                assert(group_ones(code@, i2) == group_ones_upto(code@, i2, old_code.len()));
                if i2 < i as nat {
                    assert(!in_group(pos as nat, i2));
                    assert(group_ones_upto(code@, i2, old_code.len()) == group_ones_upto(
                        old_code,
                        i2,
                        old_code.len(),
                    ));
                    assert(group_ones(old_code, i2) % 2 == 0);
                } else {
                    assert(in_group(pos as nat, i2));
                    assert(old_code[pos - 1] == '0');
                    assert(group_ones_upto(code@, i2, old_code.len()) + bit_val(
                        old_code[pos - 1],
                    ) == group_ones_upto(old_code, i2, old_code.len()) + bit_val(c));
                    assert(odd == (group_ones_upto(old_code, i2, old_code.len()) % 2 == 1));
                }
            }
        }
        proof {
            if i + 1 < p {
                lemma_pow2_unfold((i + 1) as nat);
                assert(pow2((i + 1) as nat) < total as nat);
            }
            lemma_pow2_unfold((i + 1) as nat);
        }
        pw = pw * 2;
        i = i + 1;
    }
    if is_extended {
        let n1 = count_ones(&code);
        let ghost inner = code@;
        let c0: char = if n1 % 2 == 0 {
            '0'
        } else {
            '1'
        };
        code.insert(0, c0);
        proof {
            assert(code@.drop_first() =~= inner);
            assert(code@[0] == parity_bit_char(inner));
        }
        (true, chars_to_string(&code))
    } else {
        (true, chars_to_string(&code))
    }
}

/// Recomputes every parity group over the received frame and adds the
/// weights of the odd groups: the sum is the 1-indexed position of a single
/// flipped bit, or zero when no group is odd. A position inside the frame is
/// flipped back; in extended mode the leading overall-parity bit is then
/// compared against the corrected frame's parity, and a mismatch marks the
/// error as a double error that cannot be corrected. The extracts are the
/// payload positions of the received and of the corrected frame.
pub fn decode_hamming(received_code: &String, is_extended: bool) -> (r: (bool, bool, String, String))
    requires
        is_bits(received_code@),
        is_extended ==> received_code@.len() >= 1,
    ensures
        ({
            let inner = if is_extended {
                received_code@.drop_first()
            } else {
                received_code@
            };
            let syn = ham_syndrome(inner);
            let corrected = ham_corrected(inner);
            &&& r.0 == ham_has_error(inner)
            &&& r.1 == (ham_has_error(inner) && !(is_extended && syn >= 1 && ((ones(corrected)
                % 2 == 0) != (received_code@[0] == '0'))))
            &&& r.2@ == extract_data(inner)
            &&& r.3@ == extract_data(corrected)
        }),
{
    let mut v = str_to_chars(received_code.as_str());
    let mut received_flag = false;
    if is_extended {
        let c0 = v.remove(0);
        received_flag = c0 == '0';
        proof {
            assert(v@ =~= received_code@.drop_first());
        }
    }
    let ghost inner = v@;
    let n = v.len();
    proof {
        assert(pow2(0) == 1) by { vstd::arithmetic::power2::lemma2_to64() }
    }
    // the least q with 2^q >= n
    let mut q: usize = 0;
    let mut qp: u128 = 1;
    while qp < n as u128
        invariant
            qp as nat == pow2(q as nat),
            forall|c: nat| c < q ==> pow2(c) < n as nat,
            q <= n,
        decreases n - q,
    {
        proof {
            lemma_pow2_above(q as nat);
            lemma_pow2_unfold((q + 1) as nat);
        }
        qp = qp * 2;
        q = q + 1;
    }
    proof {
        lemma_groups_for_is(n as nat, q as nat);
        if q >= 65 {
            assert(pow2(64) < n as nat);
            assert(pow2(64) == 0x10000000000000000) by {
                vstd::arithmetic::power2::lemma2_to64_rest();
            }
            assert(n as nat <= 0xffffffffffffffff);
        }
        assert(q <= 64);
    }
    // sum of the weights of the odd parity groups
    let mut acc: u64 = 0;
    let mut i: usize = 0;
    let mut pw: u128 = 1;
    while i < q
        invariant
            i <= q,
            q <= 64,
            q == groups_for(n as nat),
            pw as nat == pow2(i as nat),
            v@ == inner,
            n == inner.len(),
            acc as nat == syndrome_upto(inner, i as nat),
        decreases q - i,
    {
        let odd = group_parity_odd(&v, pw, Ghost(i as nat));
        proof {
            lemma_syndrome_upto_bound(inner, (i + 1) as nat);
            assert(pow2((i + 1) as nat) <= pow2(64)) by {
                if ((i + 1) as nat) < 64 {
                    lemma_pow2_strictly_increases((i + 1) as nat, 64);
                }
            }
            assert(pow2(64) == 0x10000000000000000) by {
                vstd::arithmetic::power2::lemma2_to64_rest();
            }
            assert(pow2(i as nat) < pow2(64)) by {
                lemma_pow2_strictly_increases(i as nat, 64);
            }
            lemma_pow2_unfold((i + 1) as nat);
        }
        if odd {
            acc = acc + (pw as u64);
        }
        pw = pw * 2;
        i = i + 1;
    }
    proof {
        assert(acc as nat == ham_syndrome(inner));
    }
    let original = extract_payload(&v);
    let mut has_error = false;
    if acc > 0 && acc <= n as u64 {
        let t = (acc - 1) as usize;
        let oldc = v[t];
        let newc: char = if oldc == '1' {
            '0'
        } else {
            '1'
        };
        v[t] = newc;
        has_error = true;
        proof {
            assert(v@ =~= flip_at(inner, acc as int - 1));
        }
    }
    proof {
        assert(v@ == ham_corrected(inner));
    }
    let cnt = count_ones(&v);
    let computed_even = cnt % 2 == 0;
    let has_double = is_extended && acc > 0 && computed_even != received_flag;
    let corrected = extract_payload(&v);
    (has_error, has_error && !has_double, chars_to_string(&original), chars_to_string(&corrected))
}

/// A frame of positive length holds a payload of at least one bit.
proof fn lemma_frame_payload_positive(f: Seq<char>, m: nat)
    requires
        f.len() == m + parity_bits(m),
        f.len() >= 1,
    ensures
        m >= 1,
{
    assert(pow2(0) == 1) by { vstd::arithmetic::power2::lemma2_to64() }
    if m == 0 {
        assert(parity_bits(0) == 0);
    }
}

/// Decoding an uncorrupted Hamming frame finds syndrome zero: no error is
/// reported, nothing is flipped, and both extracts carry the payload.
pub proof fn lemma_hamming_round_trip(f: Seq<char>, m: nat)
    requires
        hamming_frame_ok(f, m),
    ensures
        ham_syndrome(f) == 0,
        !ham_has_error(f),
        ham_corrected(f) == f,
{
    let p = parity_bits(m);
    assert(pow2(0) == 1) by { vstd::arithmetic::power2::lemma2_to64() }
    if m == 0 {
        assert(parity_bits(0) == 0);
        assert(f.len() == 0);
        assert(groups_for(0) == 0);
    } else {
        lemma_groups_match_parity_bits(m);
        lemma_syndrome_upto_even(f, p);
    }
}

/// Flipping exactly one bit of a well-formed Hamming frame gives the
/// syndrome that names the flipped position, so the decoder reports an
/// error, corrects it, and recovers the frame exactly.
pub proof fn lemma_hamming_corrects_single_flip(f: Seq<char>, m: nat, t: nat)
    requires
        hamming_frame_ok(f, m),
        1 <= t <= f.len(),
    ensures
        ham_syndrome(flip_at(f, t - 1 as int)) == t,
        ham_has_error(flip_at(f, t - 1 as int)),
        ham_corrected(flip_at(f, t - 1 as int)) == f,
{
    let g = flip_at(f, t - 1 as int);
    let p = parity_bits(m);
    lemma_frame_payload_positive(f, m);
    lemma_groups_match_parity_bits(m);
    assert(g.len() == f.len());
    let q = groups_for(f.len());
    assert(q == p);
    lemma_syndrome_single_flip(f, t, q);
    lemma_low_bits_sum(t, q);
    vstd::arithmetic::div_mod::lemma_small_mod(t, pow2(q));
    assert(ham_syndrome(g) == t);
    assert(ham_corrected(g) =~= f);
}

/// Two simultaneous bit flips anywhere in an extended-mode frame are
/// detected and reported as uncorrectable, as long as the resulting
/// syndrome still points inside the frame: the decoder sees a nonzero
/// syndrome, and the overall-parity bit contradicts the frame it corrects.
pub proof fn lemma_extended_hamming_detects_double_flip(ext: Seq<char>, m: nat, j1: int, j2: int)
    requires
        ext.len() == 1 + m + parity_bits(m),
        is_bits(ext),
        ext[0] == parity_bit_char(ext.drop_first()),
        hamming_frame_ok(ext.drop_first(), m),
        0 <= j1 < j2 < ext.len(),
        ham_syndrome(flip_at(flip_at(ext, j1), j2).drop_first()) <= m + parity_bits(m),
    ensures
        ({
            let rr = flip_at(flip_at(ext, j1), j2);
            let rin = rr.drop_first();
            &&& ham_has_error(rin)
            &&& (ones(ham_corrected(rin)) % 2 == 0) != (rr[0] == '0')
        }),
{
    let inner = ext.drop_first();
    let p = parity_bits(m);
    let n = inner.len();
    let rr = flip_at(flip_at(ext, j1), j2);
    let rin = rr.drop_first();
    lemma_frame_payload_positive(inner, m);
    lemma_groups_match_parity_bits(m);
    let q = groups_for(n);
    assert(q == p);
    assert(ext[0] == '0' || ext[0] == '1');
    if j1 == 0 {
        let t = j2 as nat;
        assert(rin =~= flip_at(inner, t - 1 as int));
        assert(rin.len() == n);
        lemma_syndrome_single_flip(inner, t, q);
        lemma_low_bits_sum(t, q);
        vstd::arithmetic::div_mod::lemma_small_mod(t, pow2(q));
        assert(ham_syndrome(rin) == t);
        assert(ham_has_error(rin));
        assert(ham_corrected(rin) =~= inner);
        assert(rr[0] == flip_char(ext[0]));
        if ext[0] == '0' {
            assert(ones(inner) % 2 == 0);
            assert(rr[0] == '1');
        } else {
            assert(ones(inner) % 2 == 1);
            assert(rr[0] == '0');
        }
    } else {
        let t1 = j1 as nat;
        let t2 = j2 as nat;
        assert(rin =~= flip_at(flip_at(inner, t1 - 1 as int), t2 - 1 as int));
        assert(rin.len() == n);
        assert(inner[t1 - 1] == ext[j1] && inner[t2 - 1] == ext[j2]);
        lemma_syndrome_double_flip(inner, t1, t2, q);
        assert(t1 < pow2(q) && t2 < pow2(q));
        lemma_xor_bits_sum_nonzero(t1, t2, q);
        let syn = ham_syndrome(rin);
        assert(syn == xor_bits_sum(t1, t2, q));
        assert(syn >= 1);
        assert(syn <= n);
        assert(ham_has_error(rin));
        // three flips in all: the corrected frame's parity is opposite to
        // the sent frame's, while the overall-parity bit is untouched
        let g1 = flip_at(inner, t1 - 1 as int);
        lemma_flip_preserves_bits(inner, t1 - 1 as int);
        lemma_flip_preserves_bits(g1, t2 - 1 as int);
        lemma_ones_flip(inner, t1 - 1 as int);
        lemma_ones_flip(g1, t2 - 1 as int);
        assert(ham_corrected(rin) == flip_at(rin, syn - 1));
        lemma_ones_flip(rin, syn - 1);
        assert(ones(ham_corrected(rin)) % 2 != ones(inner) % 2);
        assert(rr[0] == ext[0]);
        if ext[0] == '0' {
            assert(ones(inner) % 2 == 0);
        } else {
            assert(ones(inner) % 2 == 1);
        }
    }
}

} // verus!
