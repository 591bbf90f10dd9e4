use channel_codec::huffman::{HuffmanEncoding, HuffmanNode};

fn vocab(words: &[&str]) -> Vec<String> {
    words.iter().map(|w| w.to_string()).collect()
}

#[test]
fn test_build_two_symbols() {
    let words = vocab(&["ab", "b"]);
    let hf = HuffmanEncoding::new(&words);
    // 'a' occurs once, 'b' twice: the rarer symbol is popped first and
    // becomes the left child, so 'a' gets "0" and 'b' gets "1"
    assert_eq!(
        hf.encoding,
        vec![('a', String::from("0")), ('b', String::from("1"))]
    );
    assert_eq!(hf.max_size, 1);
}

#[test]
fn test_build_single_symbol_gets_nonempty_code() {
    let words = vocab(&["aaa"]);
    let hf = HuffmanEncoding::new(&words);
    assert_eq!(hf.encoding, vec![('a', String::from("0"))]);
    assert_eq!(hf.max_size, 1);
}

#[test]
fn test_build_three_symbols_depth_first_order() {
    let words = vocab(&["abc", "ab", "a"]);
    let hf = HuffmanEncoding::new(&words);
    // frequencies: a=3, b=2, c=1; 'c' and 'b' merge first, then the pair
    // joins 'a'; the walk lists 'a', then the left ('c') and right ('b')
    // leaves of the subtree
    assert_eq!(
        hf.encoding,
        vec![
            ('a', String::from("0")),
            ('c', String::from("10")),
            ('b', String::from("11")),
        ]
    );
    assert_eq!(hf.max_size, 2);
}

#[test]
fn test_build_is_deterministic() {
    let words = vocab(&["hello", "world", "of", "codes"]);
    let first = HuffmanEncoding::new(&words);
    let second = HuffmanEncoding::new(&words);
    assert_eq!(first.encoding, second.encoding);
    assert_eq!(first.max_size, second.max_size);
}

#[test]
fn test_save_encoding_walks_leaves() {
    let leaf_a = HuffmanNode {
        frequency: 1,
        is_leaf: true,
        character: Some('a'),
        left_node: None,
        right_node: None,
    };
    let leaf_b = HuffmanNode {
        frequency: 2,
        is_leaf: true,
        character: Some('b'),
        left_node: None,
        right_node: None,
    };
    let root = HuffmanNode {
        frequency: 3,
        is_leaf: false,
        character: None,
        left_node: Some(Box::new(leaf_a)),
        right_node: Some(Box::new(leaf_b)),
    };
    let map = HuffmanNode::save_encoding(&Some(Box::new(root)), String::new());
    assert_eq!(
        map.encoding,
        vec![('a', String::from("0")), ('b', String::from("1"))]
    );
    assert_eq!(map.max_size, 1);
}

#[test]
fn test_table_round_trip() {
    let words = vocab(&["abc", "ab", "a"]);
    let hf = HuffmanEncoding::new(&words);
    let wire = HuffmanEncoding::encode_table(&hf);
    // unary max length "001", then records of (index, length, code)
    assert_eq!(wire, String::from("00100000010000101010000011011"));
    let back = HuffmanEncoding::decode_table(&wire).expect("a nonempty table parses");
    assert_eq!(back.encoding, hf.encoding);
    assert_eq!(back.max_size, hf.max_size);
}

#[test]
fn test_table_round_trip_large_vocab() {
    let words = vocab(&["the", "quick", "brown", "fox", "jumps", "over", "lazy", "dog"]);
    let hf = HuffmanEncoding::new(&words);
    let wire = HuffmanEncoding::encode_table(&hf);
    let back = HuffmanEncoding::decode_table(&wire).expect("a nonempty table parses");
    assert_eq!(back.encoding, hf.encoding);
    assert_eq!(back.max_size, hf.max_size);
}

#[test]
fn test_decode_table_empty_is_no_table() {
    assert!(HuffmanEncoding::decode_table("").is_none());
}

#[test]
fn test_decode_table_bare_sentinel_is_empty_table() {
    let back = HuffmanEncoding::decode_table("1").expect("nonempty input parses");
    assert!(back.encoding.is_empty());
    assert_eq!(back.max_size, 0);
}
