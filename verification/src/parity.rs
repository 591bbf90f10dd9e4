//! The standalone parity-bit helper: prepends one even-parity bit to a
//! bitstring, consuming its input.

use crate::bits::{chars_to_string, count_ones, parity_frame, str_to_chars};
use vstd::prelude::*;

verus! {

/// Prepends '0' when `encoded_string` has an even count of ones and '1'
/// when it has an odd count, so the returned frame always has an even count
/// of ones.
pub fn add_parity_bit(encoded_string: String) -> (r: String)
    ensures
        r@ == parity_frame(encoded_string@),
{
    let mut v = str_to_chars(encoded_string.as_str());
    let n = count_ones(&v);
    let c: char = if n % 2 == 0 {
        '0'
    } else {
        '1'
    };
    v.insert(0, c);
    proof {
        assert(v@ =~= parity_frame(encoded_string@));
    }
    chars_to_string(&v)
}

} // verus!
