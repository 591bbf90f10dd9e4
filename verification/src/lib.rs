//! A small channel-coding library: a Huffman source codec whose code table
//! can itself be serialized to a bitstring, and three forward-error-correction
//! schemes (single parity bit, triple redundancy, Hamming with an optional
//! extended overall-parity bit) over ASCII '0'/'1' strings.

pub mod bits;
pub mod correction;
pub mod hamming;
pub mod huffman;
pub mod message;
pub mod noise;
pub mod parity;
pub mod table;
