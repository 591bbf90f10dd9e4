//! The Huffman source codec: a frequency-ordered binary tree built from a
//! vocabulary, and the code map read off its leaves.
//!
//! Ties in the greedy merge are broken deterministically: among nodes of
//! least frequency the one created or inserted earliest is taken first, so
//! rebuilding from the same vocabulary always yields the same code map.

use crate::bits::chars_to_string;
use crate::bits::str_to_chars;
use vstd::prelude::*;

verus! {

/// A reference to a tree node, present or absent.
pub type HuffmanNodeRef = Option<Box<HuffmanNode>>;

/// One node of the Huffman tree: leaves carry a character, internal nodes
/// carry two children; every node carries the combined frequency of the
/// leaves below it.
pub struct HuffmanNode {
    pub frequency: usize,
    pub is_leaf: bool,
    pub character: Option<char>,
    pub left_node: HuffmanNodeRef,
    pub right_node: HuffmanNodeRef,
}

/// A code map: one `(character, code)` entry per distinct character, with
/// the length of the longest code.
pub struct HuffmanEncoding {
    pub encoding: Vec<(char, String)>,
    pub max_size: usize,
}

/// The `(character, code)` pairs a depth-first walk of `node` yields, each
/// code extending `prefix` by '0' for a left edge and '1' for a right edge.
/// Only leaves that carry a character are recorded.
pub open spec fn code_pairs(node: HuffmanNode, prefix: Seq<char>) -> Seq<(char, Seq<char>)>
    decreases node,
{
    if node.is_leaf {
        match node.character {
            Some(c) => seq![(c, prefix)],
            None => Seq::empty(),
        }
    } else {
        (match node.left_node {
            Some(l) => code_pairs(*l, prefix.push('0')),
            None => Seq::empty(),
        }) + (match node.right_node {
            Some(r) => code_pairs(*r, prefix.push('1')),
            None => Seq::empty(),
        })
    }
}

/// The pairs below a node reference: none when the reference is absent.
pub open spec fn ref_code_pairs(root: HuffmanNodeRef, prefix: Seq<char>) -> Seq<
    (char, Seq<char>),
> {
    match root {
        Some(node) => code_pairs(*node, prefix),
        None => Seq::empty(),
    }
}

/// The entries of a code map as `(character, code characters)` pairs.
pub open spec fn pairs_of(entries: Seq<(char, String)>) -> Seq<(char, Seq<char>)> {
    entries.map_values(|e: (char, String)| (e.0, e.1@))
}

/// The pairs a `HuffmanEncoding` holds.
pub open spec fn enc_pairs(h: HuffmanEncoding) -> Seq<(char, Seq<char>)> {
    pairs_of(h.encoding@)
}

/// The larger of two naturals.
pub open spec fn spec_max(a: nat, b: nat) -> nat {
    if a >= b {
        a
    } else {
        b
    }
}

/// The length of the longest code among the pairs; zero when there are
/// none.
pub open spec fn max_len(pairs: Seq<(char, Seq<char>)>) -> nat
    decreases pairs.len(),
{
    if pairs.len() == 0 {
        0
    } else {
        spec_max(max_len(pairs.drop_last()), pairs.last().1.len())
    }
}

/// The longest code of a concatenation is the longer of the two longest
/// codes.
pub proof fn lemma_max_len_concat(a: Seq<(char, Seq<char>)>, b: Seq<(char, Seq<char>)>)
    ensures
        max_len(a + b) == spec_max(max_len(a), max_len(b)),
    decreases b.len(),
{
    if b.len() == 0 {
        assert(a + b =~= a);
    } else {
        assert((a + b).drop_last() =~= a + b.drop_last());
        assert((a + b).last() == b.last());
        lemma_max_len_concat(a, b.drop_last());
    }
}

/// The whole text of a vocabulary: every word's characters, in order.
pub open spec fn text_of(words: Seq<String>) -> Seq<char>
    decreases words.len(),
{
    if words.len() == 0 {
        Seq::empty()
    } else {
        text_of(words.drop_last()) + words.last()@
    }
}

/// How often `c` occurs in `s`.
pub open spec fn count_in(s: Seq<char>, c: char) -> nat
    decreases s.len(),
{
    if s.len() == 0 {
        0
    } else {
        count_in(s.drop_last(), c) + if s.last() == c {
            1nat
        } else {
            0nat
        }
    }
}

/// The distinct characters of `s`, in order of first occurrence.
pub open spec fn firsts(s: Seq<char>) -> Seq<char>
    decreases s.len(),
{
    if s.len() == 0 {
        Seq::empty()
    } else {
        let f = firsts(s.drop_last());
        if f.contains(s.last()) {
            f
        } else {
            f.push(s.last())
        }
    }
}

/// The frequency table of a vocabulary: each distinct character of its text
/// in first-occurrence order, with its count.
pub open spec fn freq_pairs(words: Seq<String>) -> Seq<(char, nat)> {
    let t = text_of(words);
    Seq::new(firsts(t).len(), |k: int| (firsts(t)[k], count_in(t, firsts(t)[k])))
}

/// A leaf for one character and its frequency.
pub open spec fn leaf_node(c: char, f: nat) -> HuffmanNode {
    HuffmanNode {
        frequency: f as usize,
        is_leaf: true,
        character: Some(c),
        left_node: None,
        right_node: None,
    }
}

/// One leaf per frequency-table entry, in table order.
pub open spec fn leaves_of(fr: Seq<(char, nat)>) -> Seq<HuffmanNode> {
    fr.map_values(|p: (char, nat)| leaf_node(p.0, p.1))
}

/// The index of the leftmost node of least frequency.
pub open spec fn min_index(ns: Seq<HuffmanNode>) -> int
    decreases ns.len(),
{
    if ns.len() <= 1 {
        0
    } else {
        let m = min_index(ns.drop_last());
        if ns.last().frequency < ns[m].frequency {
            ns.len() - 1
        } else {
            m
        }
    }
}

/// The merge of the two least nodes: the first-popped becomes the left
/// child, the second the right child, and the frequencies add.
pub open spec fn internal_node(a: HuffmanNode, b: HuffmanNode) -> HuffmanNode {
    HuffmanNode {
        frequency: (a.frequency + b.frequency) as usize,
        is_leaf: false,
        character: None,
        left_node: Some(Box::new(a)),
        right_node: Some(Box::new(b)),
    }
}

/// One greedy step: take out the leftmost least node, then the leftmost
/// least of the rest, and append their merge at the end.
pub open spec fn merge_step(ns: Seq<HuffmanNode>) -> Seq<HuffmanNode> {
    let i1 = min_index(ns);
    let first = ns[i1];
    let rest = ns.remove(i1);
    let i2 = min_index(rest);
    let second = rest[i2];
    rest.remove(i2).push(internal_node(first, second))
}

/// `min_index` names a position of least frequency, and every earlier
/// position is strictly larger.
pub proof fn lemma_min_index_props(ns: Seq<HuffmanNode>)
    requires
        ns.len() >= 1,
    ensures
        0 <= min_index(ns) < ns.len(),
        forall|k: int|
            0 <= k < ns.len() ==> ns[min_index(ns)].frequency <= #[trigger] ns[k].frequency,
        forall|k: int|
            0 <= k < min_index(ns) ==> ns[min_index(ns)].frequency < #[trigger] ns[k].frequency,
    decreases ns.len(),
{
    if ns.len() > 1 {
        lemma_min_index_props(ns.drop_last());
        assert(forall|k: int| 0 <= k < ns.len() - 1 ==> ns.drop_last()[k] == ns[k]);
    }
}

/// Greedy merging until one node remains.
pub open spec fn build_tree_list(ns: Seq<HuffmanNode>) -> Seq<HuffmanNode>
    decreases ns.len(),
    via build_tree_list_decreases
{
    if ns.len() <= 1 {
        ns
    } else {
        build_tree_list(merge_step(ns))
    }
}

#[via_fn]
proof fn build_tree_list_decreases(ns: Seq<HuffmanNode>) {
    if ns.len() > 1 {
        lemma_min_index_props(ns);
        lemma_min_index_props(ns.remove(min_index(ns)));
    }
}

/// The root of the tree built from a vocabulary.
pub open spec fn build_root(words: Seq<String>) -> HuffmanNode {
    build_tree_list(leaves_of(freq_pairs(words)))[0]
}

/// The code map a vocabulary determines: the depth-first walk of its tree,
/// except that a root that is itself a leaf is assigned the one-bit code
/// "0", since a zero-length code could never be transmitted.
pub open spec fn spec_code_map(words: Seq<String>) -> Seq<(char, Seq<char>)> {
    let root = build_root(words);
    if root.is_leaf {
        match root.character {
            Some(c) => seq![(c, seq!['0'])],
            None => Seq::empty(),
        }
    } else {
        code_pairs(root, Seq::empty())
    }
}

/// The sum of the counts of a frequency table.
pub open spec fn sum_counts(s: Seq<(char, usize)>) -> nat
    decreases s.len(),
{
    if s.len() == 0 {
        0
    } else {
        sum_counts(s.drop_last()) + s.last().1 as nat
    }
}

/// The sum of the frequencies of a node list.
pub open spec fn sum_freqs(ns: Seq<HuffmanNode>) -> nat
    decreases ns.len(),
{
    if ns.len() == 0 {
        0
    } else {
        sum_freqs(ns.drop_last()) + ns.last().frequency as nat
    }
}

/// Replacing one entry trades its count for the new one in the sum.
pub proof fn lemma_sum_counts_update(s: Seq<(char, usize)>, k: int, p: (char, usize))
    requires
        0 <= k < s.len(),
    ensures
        sum_counts(s.update(k, p)) + s[k].1 == sum_counts(s) + p.1,
    decreases s.len(),
{
    let t = s.update(k, p);
    if k == s.len() - 1 {
        assert(t.drop_last() =~= s.drop_last());
    } else {
        assert(t.drop_last() =~= s.drop_last().update(k, p));
        lemma_sum_counts_update(s.drop_last(), k, p);
        assert(t.last() == s.last());
    }
}

/// Taking one node out removes exactly its frequency from the sum.
pub proof fn lemma_sum_freqs_remove(ns: Seq<HuffmanNode>, k: int)
    requires
        0 <= k < ns.len(),
    ensures
        sum_freqs(ns.remove(k)) + ns[k].frequency == sum_freqs(ns),
    decreases ns.len(),
{
    let t = ns.remove(k);
    if k == ns.len() - 1 {
        assert(t =~= ns.drop_last());
    } else {
        assert(t.drop_last() =~= ns.drop_last().remove(k));
        lemma_sum_freqs_remove(ns.drop_last(), k);
        assert(t.last() == ns.last());
    }
}

/// A nonempty text has at least one distinct character.
pub proof fn lemma_firsts_nonempty(s: Seq<char>)
    requires
        s.len() >= 1,
    ensures
        firsts(s).len() >= 1,
    decreases s.len(),
{
    if s.len() > 1 {
        lemma_firsts_nonempty(s.drop_last());
    }
}

/// A copy of `code` with `c` appended.
fn extended(code: &Vec<char>, c: char) -> (r: Vec<char>)
    ensures
        r@ == code@.push(c),
{
    let mut r: Vec<char> = Vec::new();
    let mut i: usize = 0;
    while i < code.len()
        invariant
            i <= code@.len(),
            r@ == code@.subrange(0, i as int),
        decreases code@.len() - i,
    {
        r.push(code[i]);
        proof {
            assert(r@ =~= code@.subrange(0, i + 1));
        }
        i = i + 1;
    }
    proof {
        assert(r@ =~= code@);
    }
    r.push(c);
    r
}

/// The characters of all the words of the vocabulary, in order.
fn build_text(words: &Vec<String>) -> (t: Vec<char>)
    ensures
        t@ == text_of(words@),
{
    let mut t: Vec<char> = Vec::new();
    let mut w: usize = 0;
    while w < words.len()
        invariant
            w <= words@.len(),
            t@ == text_of(words@.subrange(0, w as int)),
        decreases words@.len() - w,
    {
        let mut chunk = str_to_chars(words[w].as_str());
        t.append(&mut chunk);
        proof {
            let sub = words@.subrange(0, w + 1);
            assert(sub.drop_last() =~= words@.subrange(0, w as int));
            assert(sub.last() == words@[w as int]);
        }
        w = w + 1;
    }
    proof {
        assert(words@.subrange(0, words@.len() as int) =~= words@);
    }
    t
}

/// The position of `c` in the table, if it already has an entry.
fn find_char(counts: &Vec<(char, usize)>, c: char) -> (r: Option<usize>)
    ensures
        match r {
            Some(k) => k < counts@.len() && counts@[k as int].0 == c,
            None => forall|k: int| 0 <= k < counts@.len() ==> (#[trigger] counts@[k]).0 != c,
        },
{
    let mut k: usize = 0;
    while k < counts.len()
        invariant
            k <= counts@.len(),
            forall|j: int| 0 <= j < k ==> (#[trigger] counts@[j]).0 != c,
        decreases counts@.len() - k,
    {
        if counts[k].0 == c {
            return Some(k);
        }
        k = k + 1;
    }
    None
}

/// Counts the occurrences of each distinct character of `text`, keeping
/// first-occurrence order.
fn build_counts(text: &Vec<char>) -> (counts: Vec<(char, usize)>)
    ensures
        counts@.len() == firsts(text@).len(),
        forall|k: int|
            0 <= k < counts@.len() ==> (#[trigger] counts@[k]).0 == firsts(text@)[k] && counts@[
                k
            ].1 as nat == count_in(text@, counts@[k].0),
        sum_counts(counts@) == text@.len(),
{
    let mut counts: Vec<(char, usize)> = Vec::new();
    let mut i: usize = 0;
    proof {
        assert(text@.subrange(0, 0) =~= Seq::<char>::empty());
    }
    while i < text.len()
        invariant
            i <= text@.len(),
            counts@.map_values(|p: (char, usize)| p.0) =~= firsts(text@.subrange(0, i as int)),
            forall|k: int|
                0 <= k < counts@.len() ==> (#[trigger] counts@[k]).1 as nat == count_in(
                    text@.subrange(0, i as int),
                    counts@[k].0,
                ),
            forall|k: int| 0 <= k < counts@.len() ==> (#[trigger] counts@[k]).1 <= i,
            sum_counts(counts@) == i,
        decreases text@.len() - i,
    {
        let c = text[i];
        let ghost old_counts = counts@;
        let ghost pre = text@.subrange(0, i as int);
        let ghost post = text@.subrange(0, i + 1);
        proof {
            assert(post.drop_last() =~= pre);
            assert(post.last() == text@[i as int]);
        }
        match find_char(&counts, c) {
            Some(k) => {
                proof {
                    assert(firsts(pre).contains(c)) by {
                        assert(counts@.map_values(|p: (char, usize)| p.0)[k as int] == c);
                    }
                    assert(firsts(post) =~= firsts(pre));
                }
                let entry = counts[k];
                counts[k] = (entry.0, entry.1 + 1);
                proof {
                    lemma_sum_counts_update(old_counts, k as int, (entry.0, (entry.1 + 1) as usize));
                    assert(counts@.map_values(|p: (char, usize)| p.0) =~= old_counts.map_values(
                        |p: (char, usize)| p.0,
                    ));
                    assert forall|k2: int|
                        0 <= k2 < counts@.len() implies (#[trigger] counts@[k2]).1 as nat
                        == count_in(post, counts@[k2].0) by {
                        if k2 == k {
                            assert(counts@[k2].0 == c);
                        } else {
                            assert(counts@[k2] == old_counts[k2]);
                            // a character has one entry: the key list mirrors
                            // `firsts`, whose entries are distinct
                            assert(old_counts[k2].0 != c) by {
                                let keys = old_counts.map_values(|p: (char, usize)| p.0);
                                assert(keys[k2] == old_counts[k2].0);
                                assert(keys[k as int] == c);
                                lemma_firsts_distinct(pre);
                            }
                        }
                    }
                }
            },
            None => {
                proof {
                    assert(!firsts(pre).contains(c)) by {
                        if firsts(pre).contains(c) {
                            let j = choose|j: int|
                                0 <= j < firsts(pre).len() && firsts(pre)[j] == c;
                            assert(counts@.map_values(|p: (char, usize)| p.0)[j] == c);
                            assert(counts@[j].0 == c);
                        }
                    }
                    assert(firsts(post) =~= firsts(pre).push(c));
                }
                counts.push((c, 1));
                proof {
                    assert(counts@.drop_last() =~= old_counts);
                    assert(counts@.map_values(|p: (char, usize)| p.0) =~= old_counts.map_values(
                        |p: (char, usize)| p.0,
                    ).push(c));
                    assert forall|k2: int|
                        0 <= k2 < counts@.len() implies (#[trigger] counts@[k2]).1 as nat
                        == count_in(post, counts@[k2].0) by {
                        if k2 < counts@.len() - 1 {
                            assert(counts@[k2] == old_counts[k2]);
                            assert(old_counts[k2].0 != c);
                        } else {
                            assert(counts@[k2] == (c, 1usize));
                            lemma_count_in_absent(pre, c);
                        }
                    }
                }
            },
        }
        i = i + 1;
    }
    proof {
        assert(text@.subrange(0, text@.len() as int) =~= text@);
        assert forall|k: int| 0 <= k < counts@.len() implies (#[trigger] counts@[k]).0 == firsts(
            text@,
        )[k] by {
            assert(counts@.map_values(|p: (char, usize)| p.0)[k] == counts@[k].0);
        }
    }
    counts
}

/// A character that `firsts` does not list does not occur.
proof fn lemma_count_in_absent(s: Seq<char>, c: char)
    requires
        !firsts(s).contains(c),
    ensures
        count_in(s, c) == 0,
    decreases s.len(),
{
    if s.len() > 0 {
        assert(firsts(s.drop_last()).len() <= firsts(s).len());
        if firsts(s.drop_last()).contains(c) {
            let j = choose|j: int|
                0 <= j < firsts(s.drop_last()).len() && firsts(s.drop_last())[j] == c;
            assert(firsts(s)[j] == c);
        }
        lemma_count_in_absent(s.drop_last(), c);
        assert(firsts(s).contains(s.last())) by {
            let f = firsts(s.drop_last());
            if f.contains(s.last()) {
                let j = choose|j: int| 0 <= j < f.len() && f[j] == s.last();
                assert(firsts(s)[j] == s.last());
            } else {
                assert(firsts(s) == f.push(s.last()));
                assert(firsts(s)[firsts(s).len() - 1] == s.last());
            }
        }
        assert(s.last() != c);
    }
}

/// The distinct-character list holds each character once.
proof fn lemma_firsts_distinct(s: Seq<char>)
    ensures
        forall|a: int, b: int|
            0 <= a < b < firsts(s).len() ==> #[trigger] firsts(s)[a] != #[trigger] firsts(s)[b],
    decreases s.len(),
{
    if s.len() > 0 {
        lemma_firsts_distinct(s.drop_last());
        let f = firsts(s.drop_last());
        if !f.contains(s.last()) {
            assert forall|a: int, b: int|
                0 <= a < b < firsts(s).len() implies #[trigger] firsts(s)[a] != #[trigger] firsts(
                s,
            )[b] by {
                if b == firsts(s).len() - 1 {
                    assert(firsts(s)[a] == f[a]);
                    assert(f.contains(f[a]));
                }
            }
        }
    }
}

/// Merging always ends with exactly one node; with two or more to start,
/// that node is an internal node.
pub proof fn lemma_build_tree_shape(ns: Seq<HuffmanNode>)
    requires
        ns.len() >= 1,
    ensures
        build_tree_list(ns).len() == 1,
        ns.len() >= 2 ==> !build_tree_list(ns)[0].is_leaf,
    decreases ns.len(),
{
    if ns.len() >= 2 {
        lemma_min_index_props(ns);
        let i1 = min_index(ns);
        let rest = ns.remove(i1);
        lemma_min_index_props(rest);
        let i2 = min_index(rest);
        let stepped = merge_step(ns);
        assert(stepped == rest.remove(i2).push(internal_node(ns[i1], rest[i2])));
        assert(stepped.len() == ns.len() - 1);
        if ns.len() == 2 {
            assert(build_tree_list(ns) == build_tree_list(stepped));
            assert(build_tree_list(stepped) == stepped);
            assert(stepped[0] == internal_node(ns[i1], rest[i2]));
            assert(!internal_node(ns[i1], rest[i2]).is_leaf);
        } else {
            lemma_build_tree_shape(stepped);
        }
    }
}

/// The position of the leftmost node of least frequency.
fn find_min(nodes: &Vec<HuffmanNode>) -> (r: usize)
    requires
        nodes@.len() >= 1,
    ensures
        r as int == min_index(nodes@),
{
    let mut r: usize = 0;
    let mut k: usize = 1;
    while k < nodes.len()
        invariant
            1 <= k <= nodes@.len(),
            r < k,
            r as int == min_index(nodes@.subrange(0, k as int)),
        decreases nodes@.len() - k,
    {
        proof {
            let sub = nodes@.subrange(0, k + 1);
            assert(sub.drop_last() =~= nodes@.subrange(0, k as int));
            assert(sub.last() == nodes@[k as int]);
            assert(forall|j: int| 0 <= j < k + 1 ==> sub[j] == nodes@[j]);
        }
        if nodes[k].frequency < nodes[r].frequency {
            r = k;
        }
        k = k + 1;
    }
    proof {
        assert(nodes@.subrange(0, nodes@.len() as int) =~= nodes@);
    }
    r
}

impl HuffmanNode {
    /// Walks the tree below `root` and collects one entry per recorded
    /// leaf, with `curr_code` as the code prefix of `root`.
    pub fn save_encoding(root: &HuffmanNodeRef, curr_code: String) -> (r: HuffmanEncoding)
        ensures
            enc_pairs(r) == ref_code_pairs(*root, curr_code@),
            r.max_size == max_len(ref_code_pairs(*root, curr_code@)),
    {
        let mut map = HuffmanEncoding { encoding: Vec::new(), max_size: 0 };
        proof {
            assert(enc_pairs(map) =~= Seq::<(char, Seq<char>)>::empty());
        }
        let code = str_to_chars(curr_code.as_str());
        Self::save_encoding_helper(root, code, &mut map);
        map
    }

    /// Appends the entries below `root` to `map`, raising `max_size` to the
    /// longest code seen.
    fn save_encoding_helper(root: &HuffmanNodeRef, curr_code: Vec<char>, map: &mut HuffmanEncoding)
        ensures
            enc_pairs(*final(map)) == enc_pairs(*old(map)) + ref_code_pairs(*root, curr_code@),
            final(map).max_size == spec_max(
                old(map).max_size as nat,
                max_len(ref_code_pairs(*root, curr_code@)),
            ),
        decreases *root,
    {
        match root {
            None => {
                proof {
                    assert(enc_pairs(*map) =~= enc_pairs(*map) + Seq::<
                        (char, Seq<char>),
                    >::empty());
                }
            },
            Some(node) => {
                if node.is_leaf {
                    match node.character {
                        Some(c) => {
                            if curr_code.len() > map.max_size {
                                map.max_size = curr_code.len();
                            }
                            let code_str = chars_to_string(&curr_code);
                            map.encoding.push((c, code_str));
                            proof {
                                assert(enc_pairs(*map) =~= enc_pairs(*old(map))
                                    + ref_code_pairs(*root, curr_code@));
                                let ps = ref_code_pairs(*root, curr_code@);
                                assert(ps == seq![(c, curr_code@)]);
                                assert(ps.len() == 1);
                                assert(ps.last() == (c, curr_code@));
                                assert(ps.drop_last() =~= Seq::<(char, Seq<char>)>::empty());
                                assert(max_len(ps.drop_last()) == 0);
                                assert(max_len(ps) == curr_code@.len());
                            }
                        },
                        None => {
                            proof {
                                assert(enc_pairs(*map) =~= enc_pairs(*map) + Seq::<
                                    (char, Seq<char>),
                                >::empty());
                            }
                        },
                    }
                } else {
                    let left_code = extended(&curr_code, '0');
                    let right_code = extended(&curr_code, '1');
                    Self::save_encoding_helper(&node.left_node, left_code, map);
                    Self::save_encoding_helper(&node.right_node, right_code, map);
                    proof {
                        assert(enc_pairs(*map) =~= enc_pairs(*old(map)) + ref_code_pairs(
                            *root,
                            curr_code@,
                        ));
                        lemma_max_len_concat(
                            ref_code_pairs(node.left_node, curr_code@.push('0')),
                            ref_code_pairs(node.right_node, curr_code@.push('1')),
                        );
                    }
                }
            },
        }
    }
}

impl HuffmanEncoding {
    /// Builds the code map of a vocabulary: counts character frequencies
    /// across every word, then repeatedly merges the two least-frequency
    /// nodes (leftmost first on ties) until one tree remains, and reads the
    /// codes off its leaves. A vocabulary with a single distinct character
    /// gets the one-bit code "0".
    pub fn new(words: &Vec<String>) -> (r: HuffmanEncoding)
        requires
            text_of(words@).len() >= 1,
        ensures
            enc_pairs(r) == spec_code_map(words@),
            r.max_size as nat == max_len(spec_code_map(words@)),
    {
        let text = build_text(words);
        let counts = build_counts(&text);
        proof {
            lemma_firsts_nonempty(text@);
        }
        let mut nodes: Vec<HuffmanNode> = Vec::new();
        let mut k: usize = 0;
        proof {
            assert(counts@.subrange(0, 0) =~= Seq::<(char, usize)>::empty());
        }
        while k < counts.len()
            invariant
                k <= counts@.len(),
                nodes@.len() == k,
                forall|j: int|
                    0 <= j < k ==> nodes@[j] == leaf_node(
                        (#[trigger] counts@[j]).0,
                        counts@[j].1 as nat,
                    ),
                sum_freqs(nodes@) == sum_counts(counts@.subrange(0, k as int)),
            decreases counts@.len() - k,
        {
            let ghost old_nodes = nodes@;
            let c = counts[k];
            nodes.push(
                HuffmanNode {
                    frequency: c.1,
                    is_leaf: true,
                    character: Some(c.0),
                    left_node: None,
                    right_node: None,
                },
            );
            proof {
                assert(nodes@.drop_last() =~= old_nodes);
                let sub = counts@.subrange(0, k + 1);
                assert(sub.drop_last() =~= counts@.subrange(0, k as int));
                assert(sub.last() == counts@[k as int]);
            }
            k = k + 1;
        }
        proof {
            assert(counts@.subrange(0, counts@.len() as int) =~= counts@);
            assert(nodes@ =~= leaves_of(freq_pairs(words@))) by {
                assert(freq_pairs(words@).len() == counts@.len());
                assert forall|j: int| 0 <= j < counts@.len() implies nodes@[j] == leaves_of(
                    freq_pairs(words@),
                )[j] by {
                    assert(freq_pairs(words@)[j] == (
                        firsts(text@)[j],
                        count_in(text@, firsts(text@)[j]),
                    ));
                    assert(counts@[j].0 == firsts(text@)[j]);
                    assert(counts@[j].1 as nat == count_in(text@, counts@[j].0));
                }
            }
            assert(nodes@.len() >= 1);
        }
        let ghost init_nodes = nodes@;
        let text_len = text.len();
        let ghost total = text_len as nat;
        while nodes.len() > 1
            invariant
                nodes@.len() >= 1,
                sum_freqs(nodes@) == total,
                total <= usize::MAX,
                build_tree_list(nodes@) == build_tree_list(init_nodes),
            decreases nodes@.len(),
        {
            let ghost before = nodes@;
            proof {
                lemma_min_index_props(before);
            }
            let i1 = find_min(&nodes);
            let first = nodes.remove(i1);
            let ghost rest = nodes@;
            proof {
                lemma_min_index_props(rest);
                lemma_sum_freqs_remove(before, i1 as int);
            }
            let i2 = find_min(&nodes);
            let second = nodes.remove(i2);
            proof {
                lemma_sum_freqs_remove(rest, i2 as int);
                assert(first.frequency + second.frequency <= total);
            }
            let ghost gfirst = first;
            let ghost gsecond = second;
            let merged = HuffmanNode {
                frequency: first.frequency + second.frequency,
                is_leaf: false,
                character: None,
                left_node: Some(Box::new(first)),
                right_node: Some(Box::new(second)),
            };
            nodes.push(merged);
            proof {
                assert(merged == internal_node(gfirst, gsecond));
                assert(nodes@ =~= merge_step(before));
                assert(build_tree_list(before) == build_tree_list(merge_step(before)));
                assert(nodes@.drop_last() =~= rest.remove(i2 as int));
                assert(sum_freqs(nodes@) == total);
            }
        }
        let root = nodes.remove(0);
        proof {
            assert(build_tree_list(nodes@.insert(0, root)) == build_tree_list(init_nodes));
            assert(nodes@.insert(0, root) =~= seq![root]);
            assert(seq![root].len() == 1);
            assert(build_tree_list(seq![root]) == seq![root]);
            assert(root == build_root(words@));
        }
        if root.is_leaf {
            match root.character {
                Some(c) => {
                    let mut encv: Vec<(char, String)> = Vec::new();
                    encv.push((c, String::from_str("0")));
                    let result = HuffmanEncoding { encoding: encv, max_size: 1 };
                    proof {
                        reveal_strlit("0");
                        assert("0"@ =~= seq!['0']);
                        assert(enc_pairs(result) =~= spec_code_map(words@));
                        let ps = spec_code_map(words@);
                        assert(ps.len() == 1);
                        assert(ps.last().1.len() == 1);
                        assert(ps.drop_last() =~= Seq::<(char, Seq<char>)>::empty());
                        assert(max_len(Seq::<(char, Seq<char>)>::empty()) == 0);
                        assert(max_len(ps.drop_last()) == 0);
                        assert(max_len(ps) == 1);
                    }
                    result
                },
                None => {
                    let result = HuffmanEncoding { encoding: Vec::new(), max_size: 0 };
                    proof {
                        assert(enc_pairs(result) =~= spec_code_map(words@));
                        assert(max_len(spec_code_map(words@)) == 0);
                    }
                    result
                },
            }
        } else {
            let rootref: HuffmanNodeRef = Some(Box::new(root));
            let empty_code = String::new();
            let enc = HuffmanNode::save_encoding(&rootref, empty_code);
            proof {
                assert(ref_code_pairs(rootref, Seq::empty()) == spec_code_map(words@));
            }
            enc
        }
    }
}

/// Building twice from the same vocabulary yields an identical code map:
/// the build's contract pins the entries and the maximum code length to the
/// vocabulary alone.
pub proof fn lemma_build_idempotent(a: HuffmanEncoding, b: HuffmanEncoding, words: Seq<String>)
    requires
        enc_pairs(a) == spec_code_map(words),
        a.max_size as nat == max_len(spec_code_map(words)),
        enc_pairs(b) == spec_code_map(words),
        b.max_size as nat == max_len(spec_code_map(words)),
    ensures
        enc_pairs(a) == enc_pairs(b),
        a.max_size == b.max_size,
{
}

/// Whether `a` is a prefix of `b`.
pub open spec fn is_prefix(a: Seq<char>, b: Seq<char>) -> bool {
    a.len() <= b.len() && forall|i: int| 0 <= i < a.len() ==> a[i] == b[i]
}

/// A true prefix code: no entry's code is a prefix of another entry's code
/// (equal codes included).
pub open spec fn prefix_free(pairs: Seq<(char, Seq<char>)>) -> bool {
    forall|i: int, j: int|
        0 <= i < pairs.len() && 0 <= j < pairs.len() && i != j ==> !is_prefix(
            (#[trigger] pairs[i]).1,
            (#[trigger] pairs[j]).1,
        )
}

/// The codes a tree walk yields form a prefix code: every code extends the
/// walk's prefix, codes under an internal node are strictly longer than its
/// prefix, and no code is a prefix of another.
pub proof fn lemma_code_pairs_prefix_free(node: HuffmanNode, prefix: Seq<char>)
    ensures
        prefix_free(code_pairs(node, prefix)),
        forall|k: int|
            0 <= k < code_pairs(node, prefix).len() ==> is_prefix(
                prefix,
                (#[trigger] code_pairs(node, prefix)[k]).1,
            ),
        !node.is_leaf ==> forall|k: int|
            0 <= k < code_pairs(node, prefix).len() ==> (#[trigger] code_pairs(node, prefix)[k]).1.len()
                > prefix.len(),
        node.is_leaf ==> forall|k: int|
            0 <= k < code_pairs(node, prefix).len() ==> (#[trigger] code_pairs(node, prefix)[k]).1
                == prefix,
    decreases node,
{
    let ps = code_pairs(node, prefix);
    if node.is_leaf {
    } else {
        let lp = match node.left_node {
            Some(l) => code_pairs(*l, prefix.push('0')),
            None => Seq::empty(),
        };
        let rp = match node.right_node {
            Some(r) => code_pairs(*r, prefix.push('1')),
            None => Seq::empty(),
        };
        match node.left_node {
            Some(l) => {
                lemma_code_pairs_prefix_free(*l, prefix.push('0'));
            },
            None => {},
        }
        match node.right_node {
            Some(r) => {
                lemma_code_pairs_prefix_free(*r, prefix.push('1'));
            },
            None => {},
        }
        assert(ps == lp + rp);
        // every left code starts with prefix then '0'; every right code
        // with prefix then '1'
        assert forall|k: int| 0 <= k < lp.len() implies is_prefix(prefix, (#[trigger] lp[k]).1)
            && lp[k].1.len() > prefix.len() && lp[k].1[prefix.len() as int] == '0' by {
            assert(is_prefix(prefix.push('0'), lp[k].1));
            assert(prefix.push('0')[prefix.len() as int] == '0');
        }
        assert forall|k: int| 0 <= k < rp.len() implies is_prefix(prefix, (#[trigger] rp[k]).1)
            && rp[k].1.len() > prefix.len() && rp[k].1[prefix.len() as int] == '1' by {
            assert(is_prefix(prefix.push('1'), rp[k].1));
            assert(prefix.push('1')[prefix.len() as int] == '1');
        }
        assert forall|i: int, j: int|
            0 <= i < ps.len() && 0 <= j < ps.len() && i != j implies !is_prefix(
            (#[trigger] ps[i]).1,
            (#[trigger] ps[j]).1,
        ) by {
            if i < lp.len() && j < lp.len() {
                assert(ps[i] == lp[i] && ps[j] == lp[j]);
            } else if i >= lp.len() && j >= lp.len() {
                assert(ps[i] == rp[i - lp.len()] && ps[j] == rp[j - lp.len()]);
            } else if i < lp.len() {
                assert(ps[i] == lp[i] && ps[j] == rp[j - lp.len()]);
                if is_prefix(ps[i].1, ps[j].1) {
                    assert(ps[i].1[prefix.len() as int] == ps[j].1[prefix.len() as int]);
                }
            } else {
                assert(ps[i] == rp[i - lp.len()] && ps[j] == lp[j]);
                if is_prefix(ps[i].1, ps[j].1) {
                    assert(ps[i].1[prefix.len() as int] == ps[j].1[prefix.len() as int]);
                }
            }
        }
    }
}

/// The code map a vocabulary determines is a prefix code of nonempty
/// codes.
pub proof fn lemma_code_map_prefix_free(words: Seq<String>)
    ensures
        prefix_free(spec_code_map(words)),
        forall|k: int|
            0 <= k < spec_code_map(words).len() ==> (#[trigger] spec_code_map(words)[k]).1.len()
                >= 1,
{
    let root = build_root(words);
    let ps = spec_code_map(words);
    if root.is_leaf {
        assert(ps.len() <= 1);
    } else {
        lemma_code_pairs_prefix_free(root, Seq::empty());
    }
}

} // verus!
