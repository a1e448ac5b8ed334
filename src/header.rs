//! The meta header: three bytes (mode, depth, version) at the head of every
//! pixel buffer, each held in its low three bits.
use vstd::prelude::*;

verus! {

/// How the payload is carried.
#[derive(Debug, Clone, Copy, PartialEq, Eq, Structural)]
pub enum Mode {
    /// A dedicated image is synthesized to hold the payload.
    Static,
    /// The payload rides in the low bits of a carrier image.
    Hidden,
}

/// The header code of a mode.
pub open spec fn mode_code(mode: Mode) -> u8 {
    match mode {
        Mode::Static => 1,
        Mode::Hidden => 2,
    }
}

/// The format version written into every header.
pub const VERSION: u8 = 1;

/// The header of `mode` at `depth`: depth 8 is written as 0.
pub open spec fn meta_tag(mode: Mode, depth: u8) -> Seq<u8> {
    seq![mode_code(mode), depth % 8, VERSION]
}

/// The header bytes of `mode` at `depth`.
pub fn write_meta_pixel(mode: Mode, depth: u8) -> (r: Vec<u8>)
    ensures
        r@ == meta_tag(mode, depth),
        forall|i: int| 0 <= i < 3 ==> #[trigger] r@[i] < 8,
{
    let mut pixel_data: Vec<u8> = Vec::new();
    match mode {
        Mode::Static => pixel_data.push(1),
        Mode::Hidden => pixel_data.push(2),
    }
    pixel_data.push(depth % 8);
    pixel_data.push(VERSION);
    assert(pixel_data@ =~= meta_tag(mode, depth));
    pixel_data
}

} // verus!
