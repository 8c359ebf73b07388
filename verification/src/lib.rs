//! Base64 encoding and decoding of byte data held in memory.
//!
//! The encoder maps every group of three bytes to four symbols of a fixed
//! alphabet of 64 and fills a shorter last group up with padding markers. The
//! decoder maps every group of four characters back to three bytes. Both are
//! stated against one arithmetic model: a group is a 24-bit number, written
//! either as three bytes or as four 6-bit fields.

pub mod alphabet;
pub mod decoder;
pub mod encoder;
pub mod group;
pub mod laws;
pub mod whitespace;

pub use crate::alphabet::{ReverseTable, ALPHABET, PAD};
pub use crate::decoder::{decode, decode_with, strip_padding, PaddingPolicy};
pub use crate::encoder::encode;
pub use crate::group::{join_group, split_group};
pub use crate::whitespace::{is_whitespace, strip_whitespace};
