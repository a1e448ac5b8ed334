//! What can go wrong while encoding or decoding.
use vstd::prelude::*;

verus! {

/// Why a payload could not be encoded.
#[derive(Debug, Clone, Copy, PartialEq, Eq, Structural)]
pub enum EncodeError {
    /// The carrier has fewer bytes than the payload needs at this depth.
    Capacity { required: usize, available: usize },
    /// The mode cannot pack symbols at this depth.
    NotSupported { depth: u8 },
    /// Hidden mode was asked for without a carrier.
    MissingCarrier,
    /// The carrier's byte count is not width × height × 3.
    MalformedCarrier,
}

/// Why a pixel buffer or symbol stream could not be decoded.
#[derive(Debug, Clone, Copy, PartialEq, Eq, Structural)]
pub enum DecodeError {
    /// The buffer is shorter than the meta header.
    MissingHeader,
    /// The buffer's length is not a whole number of three-byte pixels.
    PartialPixel { len: usize },
    /// The meta header names a depth that has no unpacking routine.
    NotSupported { depth: u8 },
    /// The symbol stream holds no nonzero pad marker.
    MissingPadMarker,
    /// The pad marker is not one of 1, 2 and 3.
    InvalidPadMarker { marker: u8 },
    /// The symbol at this position of the stream has no alphabet character.
    InvalidSymbol { index: usize },
    /// The rebuilt text is not standard base64.
    Base64,
    /// The decoded bytes are not valid UTF-8.
    Utf8,
    /// The PNG data could not be read.
    Image,
}

} // verus!
