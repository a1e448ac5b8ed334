//! The outside calls the codec relies on: base64 text, UTF-8 text and PNG data.
use vstd::prelude::*;
use vstd::utf8::{valid_utf8, decode_utf8};
use crate::alphabet::is_alphabet;

verus! {

/// The ASCII bytes of the standard, `=`-padded base64 encoding of `b`.
pub uninterp spec fn base64_text(b: Seq<u8>) -> Seq<u8>;

/// The bytes that the standard base64 text `t` decodes to, `None` where it is malformed.
pub uninterp spec fn base64_bytes(t: Seq<u8>) -> Option<Seq<u8>>;

/// The bytes of the first frame of the PNG data `d`, in the layout that the
/// decoder's default expansion gives (three bytes per pixel for 8-bit RGB),
/// `None` where it cannot be read.
pub uninterp spec fn png_frame(d: Seq<u8>) -> Option<Seq<u8>>;

/// The ASCII code of `=`, the base64 padding character.
pub const PAD: u8 = 61;

/// Standard base64 text: alphabet characters followed by at most two `=`.
pub open spec fn base64_shaped(t: Seq<u8>) -> bool {
    &&& forall|i: int| 0 <= i < t.len() ==> is_alphabet(#[trigger] t[i]) || t[i] == PAD
    &&& forall|i: int| 0 <= i < t.len() && #[trigger] t[i] == PAD ==> i + 2 >= t.len()
    &&& forall|i: int, j: int|
        0 <= i < j < t.len() && #[trigger] t[i] == PAD ==> #[trigger] t[j] == PAD
}

/// Relies on base64::encode (standard alphabet, with padding): four characters
/// for every started group of three bytes, `(3 - len % 3) % 3` trailing `=`
/// to fill the last group, and base64::decode gives the bytes back.
#[verifier::external_body]
pub(crate) fn base64_encode(b: &[u8]) -> (r: Vec<u8>)
    requires
        4 * ((b@.len() + 2) / 3) <= usize::MAX,
    ensures
        r@ == base64_text(b@),
        r@.len() == 4 * ((b@.len() + 2) / 3),
        base64_shaped(r@),
        forall|i: int|
            0 <= i < r@.len() ==> (#[trigger] r@[i] == PAD <==> i >= r@.len() - (3 - b@.len() % 3)
                % 3),
        base64_bytes(r@) == Some(b@),
{
    base64::encode(b).into_bytes()
}

/// Relies on base64::decode (standard alphabet): the bytes of the text, or an
/// error where the text is not base64.
#[verifier::external_body]
pub(crate) fn base64_decode(t: &[u8]) -> (r: Option<Vec<u8>>)
    requires
        t@.len() + 3 <= usize::MAX,
    ensures
        r is None <==> base64_bytes(t@) is None,
        r matches Some(v) ==> base64_bytes(t@) == Some(v@),
{
    base64::decode(t).ok()
}

/// Relies on String::from_utf8: it accepts exactly the valid UTF-8 byte
/// sequences, and the text holds the characters that they encode.
#[verifier::external_body]
pub(crate) fn utf8_text(v: Vec<u8>) -> (r: Option<String>)
    ensures
        r is Some <==> valid_utf8(v@),
        r matches Some(s) ==> s@ == decode_utf8(v@),
{
    String::from_utf8(v).ok()
}

/// Relies on png::Decoder (with its default transformations): the bytes of
/// the first frame of a PNG stream, or an error where the stream cannot be read.
#[verifier::external_body]
pub(crate) fn png_decode(d: &[u8]) -> (r: Option<Vec<u8>>)
    ensures
        r is None <==> png_frame(d@) is None,
        r matches Some(v) ==> png_frame(d@) == Some(v@),
{
    match png::Decoder::new(d).read_info() {
        Ok((info, mut reader)) => {
            let mut buf = vec![0; info.buffer_size()];
            match reader.next_frame(&mut buf) {
                Ok(()) => Some(buf),
                Err(_) => None,
            }
        },
        Err(_) => None,
    }
}

} // verus!
