use channel_codec::correction::{decode_correction, encode_correction, CorrectionType};

// Parity Bit Tests
#[test]
fn test_encode_parity_bit_even_ones() {
    let input = String::from("1100");
    let expected = (true, String::from("01100"));
    assert_eq!(encode_correction(&CorrectionType::Parity, &input), expected);
}

#[test]
fn test_encode_parity_bit_odd_ones() {
    let input = String::from("1101");
    let expected = (true, String::from("11101"));
    assert_eq!(encode_correction(&CorrectionType::Parity, &input), expected);
}

#[test]
fn test_decode_parity_bit_no_error() {
    let input = String::from("01100");
    let expected = (false, false, String::from(""), String::from(""));
    assert_eq!(
        decode_correction(CorrectionType::Parity, &input, false),
        expected
    );
}

#[test]
fn test_decode_parity_bit_with_error() {
    let input = String::from("111011");
    let expected = (true, false, String::from(""), String::from(""));
    assert_eq!(
        decode_correction(CorrectionType::Parity, &input, false),
        expected
    );
}

// Triple Redundancy Tests
#[test]
fn test_encode_triple() {
    let input = String::from("111101");
    let expected = (true, String::from("000000110111101111101111101"));
    assert_eq!(encode_correction(&CorrectionType::Triple, &input), expected);
}

#[test]
fn test_decode_triple_without_flip() {
    let input = String::from("000000110111101111101111101");
    let expected = (false, false, String::from("111101"), String::from("111101"));
    assert_eq!(
        decode_correction(CorrectionType::Triple, &input, false),
        expected
    );
}

#[test]
fn test_decode_triple_with_one_flip() {
    let input = String::from("000000110101101111101111101"); // Error in the first chunk
    let expected = (true, true, String::from("101101"), String::from("111101"));
    assert_eq!(
        decode_correction(CorrectionType::Triple, &input, false),
        expected
    );
}

#[test]
fn test_decode_triple_with_two_flip() {
    let input = String::from("000000110100101111101111101"); // Errors in the first chunk
    let expected = (true, true, String::from("100101"), String::from("111101"));
    assert_eq!(
        decode_correction(CorrectionType::Triple, &input, false),
        expected
    );
}

// Hamming Code Tests
#[test]
fn test_encode_hamming_one() {
    let input = String::from("11101");
    let expected = (true, String::from("101011011"));
    assert_eq!(
        encode_correction(&CorrectionType::Hamming, &input),
        expected
    );
}

#[test]
fn test_decode_hamming_one() {
    let input = String::from("101011011");
    let expected = (false, false, String::from("11101"), String::from("11101"));
    assert_eq!(
        decode_correction(CorrectionType::Hamming, &input, false),
        expected
    );
}

#[test]
fn test_decode_hamming_with_single_bit_error() {
    let input = String::from("101001011"); // Error introduced at position 4
    let expected = (true, true, String::from("10101"), String::from("11101")); // Corrected
    assert_eq!(
        decode_correction(CorrectionType::Hamming, &input, false),
        expected
    );
}

// Edge Cases
#[test]
fn test_empty_string_parity() {
    let input = String::from("");
    let expected = (true, String::from("0")); // Encodes as "0"
    assert_eq!(encode_correction(&CorrectionType::Parity, &input), expected);
}

#[test]
fn test_empty_string_hamming() {
    let input = String::from("");
    let expected = (true, String::from("")); // No encoding needed
    assert_eq!(
        encode_correction(&CorrectionType::Hamming, &input),
        expected
    );
}

#[test]
fn test_single_bit_message() {
    let input = String::from("1");
    let expected = (true, String::from("111"));
    assert_eq!(
        encode_correction(&CorrectionType::Hamming, &input),
        expected
    );
}

#[test]
fn test_large_message_triple_encoding() {
    let input = "1010101010".repeat(20); // Large input
    let result = encode_correction(&CorrectionType::Triple, &input);
    assert!(result.0, "Encoding failed for a large message");
    assert!(
        result.1.len() > input.len(),
        "Triple encoding should be longer"
    );
}

#[test]
fn test_large_message_hamming_encoding() {
    let input = "11001100".repeat(20); // Large input
    let result = encode_correction(&CorrectionType::Hamming, &input);
    assert!(result.0, "Encoding failed for a large message");
    assert!(
        result.1.len() > input.len(),
        "Hamming encoding should add redundancy"
    );
}

// Extended Hamming Code Tests
#[test]
fn test_decode_hamming_extended_no_error() {
    let input = String::from("1001011"); // Correct message
    let expected = (false, false, String::from("111"), String::from("111")); // No error
    assert_eq!(
        decode_correction(CorrectionType::Hamming, &input, true),
        expected
    );
}

#[test]
fn test_decode_hamming_extended_single_bit_error() {
    let input = String::from("1001010"); // One bit error
    let expected = (true, true, String::from("110"), String::from("111")); // Corrected
    assert_eq!(
        decode_correction(CorrectionType::Hamming, &input, true),
        expected
    );
}

#[test]
fn test_decode_hamming_extended_double_bit_error() {
    let input = String::from("0011011"); // Two-bit error
    let expected = (true, false, String::from("111"), String::from("111")); // Detected but not corrected
    assert_eq!(
        decode_correction(CorrectionType::Hamming, &input, true),
        expected
    );
}
