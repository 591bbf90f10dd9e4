use channel_codec::parity::add_parity_bit;

#[test]
fn test_add_parity_bit_even_ones() {
    let input = String::from("1100");
    let expected = String::from("01100");
    assert_eq!(add_parity_bit(input), expected);
}

#[test]
fn test_add_parity_bit_odd_ones() {
    let input = String::from("1101");
    let expected = String::from("11101");
    assert_eq!(add_parity_bit(input), expected);
}

#[test]
fn test_add_parity_bit_no_ones() {
    let input = String::from("0000");
    let expected = String::from("00000");
    assert_eq!(add_parity_bit(input), expected);
}

#[test]
fn test_add_parity_bit_all_ones() {
    let input = String::from("1111");
    let expected = String::from("01111");
    assert_eq!(add_parity_bit(input), expected);
}
