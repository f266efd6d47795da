//! The Hill cipher over the 26 letters `A`..`Z`: text is cut into blocks of
//! the key's order, and each block is multiplied by the key modulo 26.

pub mod blocks;
pub mod hill;
pub mod inverse;
pub mod matrix;
pub mod round_trip;
pub mod text;

pub use blocks::process_chunks;
pub use hill::{check_key_validity, decode_hill, encode_hill, HillError};
pub use matrix::{determinant, mod_26};
pub use text::{numbers_to_text, text_to_numbers};
