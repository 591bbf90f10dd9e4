use channel_codec::correction::{decode_correction, encode_correction, CorrectionType};
use channel_codec::huffman::HuffmanEncoding;
use channel_codec::message::{decode_message, encode_message, uses_valid_vocab};
use channel_codec::noise::{add_noise, flip_bit};

fn vocab(words: &[&str]) -> Vec<String> {
    words.iter().map(|w| w.to_string()).collect()
}

#[test]
fn test_encode_message_concatenates_codes() {
    let words = vocab(&["abc", "ab", "a"]);
    let hf = HuffmanEncoding::new(&words);
    // a = "0", c = "10", b = "11"
    let encoded = encode_message("abc", &hf).expect("all symbols have codes");
    assert_eq!(encoded, String::from("01110"));
}

#[test]
fn test_encode_message_unknown_symbol_fails() {
    let words = vocab(&["abc", "ab", "a"]);
    let hf = HuffmanEncoding::new(&words);
    assert!(encode_message("abd", &hf).is_none());
}

#[test]
fn test_decode_message_round_trip() {
    let words = vocab(&["abc", "ab", "a"]);
    let hf = HuffmanEncoding::new(&words);
    let encoded = encode_message("cabba", &hf).expect("all symbols have codes");
    assert_eq!(decode_message(&encoded, &hf), String::from("cabba"));
}

#[test]
fn test_decode_message_through_deserialized_table() {
    let words = vocab(&["abc", "ab", "a"]);
    let hf = HuffmanEncoding::new(&words);
    let wire = HuffmanEncoding::encode_table(&hf);
    let peer = HuffmanEncoding::decode_table(&wire).expect("a nonempty table parses");
    let encoded = encode_message("bacaba", &hf).expect("all symbols have codes");
    assert_eq!(decode_message(&encoded, &peer), String::from("bacaba"));
}

#[test]
fn test_decode_message_truncates_malformed_tail() {
    let words = vocab(&["abc", "ab", "a"]);
    let hf = HuffmanEncoding::new(&words);
    // "0" decodes to 'a'; the dangling "1" never completes a code
    assert_eq!(decode_message("01", &hf), String::from("a"));
}

#[test]
fn test_decode_message_empty_map_yields_empty() {
    let hf = HuffmanEncoding {
        encoding: Vec::new(),
        max_size: 0,
    };
    assert_eq!(decode_message("0101", &hf), String::from(""));
}

#[test]
fn test_uses_valid_vocab_accepts_known_words() {
    let words = vocab(&["hello", "there"]);
    assert!(uses_valid_vocab("hello there hello", &words));
}

#[test]
fn test_uses_valid_vocab_rejects_unknown_word() {
    let words = vocab(&["hello", "there"]);
    assert!(!uses_valid_vocab("hello world", &words));
}

#[test]
fn test_parity_detects_single_flip() {
    let input = String::from("1100");
    let (ok, frame) = encode_correction(&CorrectionType::Parity, &input);
    assert!(ok);
    let mut corrupted = frame.clone();
    flip_bit(&mut corrupted, 2);
    let clean = decode_correction(CorrectionType::Parity, &frame, false);
    let noisy = decode_correction(CorrectionType::Parity, &corrupted, false);
    assert!(!clean.0);
    assert!(noisy.0);
}

#[test]
fn test_triple_rejects_oversized_payload() {
    let input = "1".repeat(511);
    let (ok, _) = encode_correction(&CorrectionType::Triple, &input);
    assert!(!ok);
}

#[test]
fn test_hamming_rejects_oversized_payload() {
    let input = "0".repeat(502);
    let (ok, _) = encode_correction(&CorrectionType::Hamming, &input);
    assert!(!ok);
}

#[test]
fn test_triple_frame_too_short_is_uncorrectable() {
    // the prefix declares three payload bits but no copies follow
    let input = String::from("000000011");
    let expected = (true, false, String::from(""), String::from(""));
    assert_eq!(
        decode_correction(CorrectionType::Triple, &input, false),
        expected
    );
}

#[test]
fn test_flip_bit_flips_and_restores() {
    let mut s = String::from("0110");
    flip_bit(&mut s, 0);
    assert_eq!(s, String::from("1110"));
    flip_bit(&mut s, 0);
    assert_eq!(s, String::from("0110"));
    // out of range: unchanged
    flip_bit(&mut s, 9);
    assert_eq!(s, String::from("0110"));
}

#[test]
fn test_add_noise_parity_flips_one_bit_in_window() {
    let input = String::from("11111111111111");
    let noisy = add_noise(input.clone(), &CorrectionType::Parity);
    assert_eq!(noisy.len(), input.len());
    let diffs: Vec<usize> = input
        .chars()
        .zip(noisy.chars())
        .enumerate()
        .filter(|(_, (a, b))| a != b)
        .map(|(i, _)| i)
        .collect();
    assert_eq!(diffs.len(), 1);
    assert!(10 <= diffs[0] && diffs[0] < input.len() - 1);
}

#[test]
fn test_add_noise_hamming_stays_in_window() {
    let input = String::from("000000000000");
    let noisy = add_noise(input.clone(), &CorrectionType::Hamming);
    assert_eq!(noisy.len(), input.len());
    for (i, (a, b)) in input.chars().zip(noisy.chars()).enumerate() {
        if a != b {
            assert!(1 <= i && i < input.len() - 1);
        }
    }
}

#[test]
fn test_hamming_extended_flipped_overall_bit_alone_goes_unnoticed() {
    // a flip of the overall-parity bit alone leaves the inner frame's
    // syndrome at zero, and the parity comparison only runs after a
    // nonzero syndrome, so nothing is reported
    let input = String::from("0001011");
    let expected = (false, false, String::from("111"), String::from("111"));
    assert_eq!(
        decode_correction(CorrectionType::Hamming, &input, true),
        expected
    );
}
