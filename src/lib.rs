//! Hides a text payload in RGB pixel buffers and reads it back.
//!
//! The payload is turned into standard base64 text, each base64 character
//! into a 6-bit symbol, and the symbols are either packed densely into a
//! synthesized image (static mode) or merged into the low bits of the channels
//! of a carrier image (hidden mode).

pub mod alphabet;
pub mod bridge;
pub mod error;
pub mod header;
pub mod framing;
pub mod dense;
pub mod stego;
pub mod codec;

pub use codec::{
    decode, decode_bytes_from_u8s, decode_file_data, decode_from_u8s, decode_pixels,
    decode_pixels_to_bytes, depixelize, encode, encode_bytes, encode_to_u8s, pixelize, Image,
};
pub use header::{write_meta_pixel, Mode};
pub use error::{DecodeError, EncodeError};
