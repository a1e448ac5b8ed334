//! Encoding text into pixel buffers and decoding it back.
use vstd::prelude::*;
use vstd::arithmetic::div_mod::{lemma_fundamental_div_mod, lemma_mod_mod};
use vstd::utf8::{valid_utf8, decode_utf8, encode_utf8, encode_utf8_decode_utf8, encode_utf8_valid_utf8};
use crate::bridge::{base64_shaped, base64_bytes, base64_text, base64_decode, base64_encode, png_decode, png_frame, utf8_text};
use crate::dense::{all_symbols, lemma_unpack_append, lemma_unpack_pack, lemma_unpack_zeros, pack, pack_spec, unpack, unpack_spec};
use crate::error::{DecodeError, EncodeError};
use crate::header::{meta_tag, write_meta_pixel, Mode};
use crate::framing::{body_codes, filler_len, frame, frame_spec, lemma_body_codes_valid, lemma_body_len, lemma_frame_symbols, lemma_pad_count_exact, lemma_unframe_marked, marked, pad_count, unframe, unframe_spec, zeros};
use crate::stego::{body_pixels, extract, extract_spec, lemma_extract_merge, merge, merge_spec, per_pixel, required_len, supported_depth};

verus! {

/// A row-major RGB pixel buffer with its dimensions.
#[derive(Debug, Clone, PartialEq, Eq)]
pub struct Image {
    pub pixels: Vec<u8>,
    pub width: u32,
    pub height: u32,
}

impl Image {
    /// Whether the buffer holds exactly three bytes per pixel.
    pub open spec fn wf(&self) -> bool {
        self.pixels@.len() == self.width * self.height * 3
    }
}

/// The meta header of static mode: mode 1, depth 8 (written 0), version 1.
pub open spec fn static_tag() -> Seq<u8> {
    meta_tag(Mode::Static, 8)
}

/// The outcome of packing symbol stream `s` for `mode` at `depth`, with
/// carrier bytes `c` in hidden mode.
pub open spec fn pixelize_spec(s: Seq<u8>, mode: Mode, depth: u8, c: Seq<u8>) -> Result<
    Seq<u8>,
    EncodeError,
> {
    match mode {
        Mode::Static => if depth != 8 {
            Err(EncodeError::NotSupported { depth })
        } else {
            Ok(static_tag() + pack_spec(s))
        },
        Mode::Hidden => if !supported_depth(depth) {
            Err(EncodeError::NotSupported { depth })
        } else if c.len() < required_len(s.len(), depth) {
            Err(
                EncodeError::Capacity {
                    required: required_len(s.len(), depth) as usize,
                    available: c.len() as usize,
                },
            )
        } else {
            Ok(merge_spec(c, s, depth))
        },
    }
}

/// The symbol stream that pixel buffer `b` carries, as its header says.
pub open spec fn depixelize_spec(b: Seq<u8>) -> Result<Seq<u8>, DecodeError> {
    if b.len() < 3 {
        Err(DecodeError::MissingHeader)
    } else if b.len() % 3 != 0 {
        Err(DecodeError::PartialPixel { len: b.len() as usize })
    } else if b[1] & 7u8 == 0 {
        Ok(unpack_spec(b.subrange(3, b.len() as int)))
    } else if supported_depth(b[1] & 7u8) {
        Ok(extract_spec(b, b[1] & 7u8))
    } else {
        Err(DecodeError::NotSupported { depth: b[1] & 7u8 })
    }
}

/// The bytes that symbol stream `s` stands for: its base64 text, decoded.
pub open spec fn bytes_of_symbols(s: Seq<u8>) -> Result<Seq<u8>, DecodeError> {
    match unframe_spec(s) {
        Err(e) => Err(e),
        Ok(t) => match base64_bytes(t) {
            None => Err(DecodeError::Base64),
            Some(b) => Ok(b),
        },
    }
}

/// Decoded bytes read as UTF-8 text.
pub open spec fn text_of_bytes(r: Result<Seq<u8>, DecodeError>) -> Result<Seq<char>, DecodeError> {
    match r {
        Err(e) => Err(e),
        Ok(b) => if valid_utf8(b) {
            Ok(decode_utf8(b))
        } else {
            Err(DecodeError::Utf8)
        },
    }
}

/// The text that symbol stream `s` stands for.
pub open spec fn text_of_symbols(s: Seq<u8>) -> Result<Seq<char>, DecodeError> {
    text_of_bytes(bytes_of_symbols(s))
}

/// The bytes that pixel buffer `b` carries.
pub open spec fn decode_bytes_spec(b: Seq<u8>) -> Result<Seq<u8>, DecodeError> {
    match depixelize_spec(b) {
        Err(e) => Err(e),
        Ok(s) => bytes_of_symbols(s),
    }
}

/// The text that pixel buffer `b` carries.
pub open spec fn decode_spec(b: Seq<u8>) -> Result<Seq<char>, DecodeError> {
    text_of_bytes(decode_bytes_spec(b))
}

/// The pixel bytes of symbol stream `data`: the meta header, then the symbols
/// packed densely (static mode, depth 8) or merged into the carrier bytes
/// `src_pixels` (hidden mode, depth 2, 4 or 6).
pub fn pixelize(data: &[u8], mode: Mode, depth: u8, src_pixels: &[u8]) -> (r: Result<Vec<u8>, EncodeError>)
    requires
        mode == Mode::Static ==> data@.len() % 4 == 0,
        mode == Mode::Hidden && supported_depth(depth) ==> data@.len() as int % per_pixel(depth) == 0,
        data@.len() <= usize::MAX / 4,
    ensures
        match pixelize_spec(data@, mode, depth, src_pixels@) {
            Ok(p) => r is Ok && r->Ok_0@ == p,
            Err(e) => r == Err::<Vec<u8>, EncodeError>(e),
        },
{
    match mode {
        Mode::Static => {
            if depth != 8 {
                return Err(EncodeError::NotSupported { depth });
            }
            let mut out = write_meta_pixel(mode, depth);
            let mut packed = pack(data);
            out.append(&mut packed);
            assert(out@ =~= static_tag() + pack_spec(data@));
            Ok(out)
        },
        Mode::Hidden => {
            if !(depth == 2 || depth == 4 || depth == 6) {
                return Err(EncodeError::NotSupported { depth });
            }
            let k: usize = (depth / 2) as usize;
            let required = 3 + 3 * (data.len() / k);
            if src_pixels.len() < required {
                return Err(EncodeError::Capacity { required, available: src_pixels.len() });
            }
            Ok(merge(src_pixels, data, depth))
        },
    }
}

/// The symbol stream that pixel buffer `pixels` carries: its meta header names
/// the depth, and with it the unpacking routine.
pub fn depixelize(pixels: &[u8]) -> (r: Result<Vec<u8>, DecodeError>)
    requires
        pixels@.len() <= usize::MAX / 2,
    ensures
        match depixelize_spec(pixels@) {
            Ok(s) => r is Ok && r->Ok_0@ == s,
            Err(e) => r == Err::<Vec<u8>, DecodeError>(e),
        },
        r matches Ok(s) ==> all_symbols(s@) && s@.len() * 3 <= pixels@.len() * 4,
{
    if pixels.len() < 3 {
        return Err(DecodeError::MissingHeader);
    }
    if pixels.len() % 3 != 0 {
        return Err(DecodeError::PartialPixel { len: pixels.len() });
    }
    let depth = pixels[1] & 7u8;
    if depth == 0 {
        let body = &pixels[3..pixels.len()];
        let r = unpack(body);
        Ok(r)
    } else if depth == 2 || depth == 4 || depth == 6 {
        let r = extract(pixels, depth);
        proof {
            assert(r@.len() <= pixels@.len()) by (nonlinear_arith)
                requires r@.len() == (if pixels@.len() < 3 { 0 } else { (pixels@.len() - 3) / 3 })
                    * (depth / 2) as int, depth <= 6;
        }
        Ok(r)
    } else {
        Err(DecodeError::NotSupported { depth })
    }
}

/// The bytes that symbol stream `data` stands for: its base64 text, decoded.
pub fn decode_bytes_from_u8s(data: Vec<u8>) -> (r: Result<Vec<u8>, DecodeError>)
    requires
        data@.len() <= usize::MAX - 8,
    ensures
        match bytes_of_symbols(data@) {
            Ok(b) => r is Ok && r->Ok_0@ == b,
            Err(e) => r == Err::<Vec<u8>, DecodeError>(e),
        },
{
    let text = match unframe(data.as_slice()) {
        Ok(t) => t,
        Err(e) => {
            return Err(e);
        },
    };
    match base64_decode(text.as_slice()) {
        Some(b) => Ok(b),
        None => Err(DecodeError::Base64),
    }
}

/// The text that symbol stream `data` stands for: its base64 text, decoded,
/// read as UTF-8.
pub fn decode_from_u8s(data: Vec<u8>) -> (r: Result<String, DecodeError>)
    requires
        data@.len() <= usize::MAX - 8,
    ensures
        match text_of_symbols(data@) {
            Ok(t) => r is Ok && r->Ok_0@ == t,
            Err(e) => r == Err::<String, DecodeError>(e),
        },
{
    match decode_bytes_from_u8s(data) {
        Ok(b) => match utf8_text(b) {
            Some(t) => Ok(t),
            None => Err(DecodeError::Utf8),
        },
        Err(e) => Err(e),
    }
}

/// The bytes that pixel buffer `pparts` carries, for payloads that are not text.
pub fn decode_pixels_to_bytes(pparts: &[u8]) -> (r: Result<Vec<u8>, DecodeError>)
    requires
        pparts@.len() <= usize::MAX / 2,
    ensures
        match decode_bytes_spec(pparts@) {
            Ok(b) => r is Ok && r->Ok_0@ == b,
            Err(e) => r == Err::<Vec<u8>, DecodeError>(e),
        },
{
    match depixelize(pparts) {
        Ok(s) => decode_bytes_from_u8s(s),
        Err(e) => Err(e),
    }
}

/// The text that pixel buffer `pparts` carries.
pub fn decode_pixels(pparts: &[u8]) -> (r: Result<String, DecodeError>)
    requires
        pparts@.len() <= usize::MAX / 2,
    ensures
        match decode_spec(pparts@) {
            Ok(t) => r is Ok && r->Ok_0@ == t,
            Err(e) => r == Err::<String, DecodeError>(e),
        },
{
    match depixelize(pparts) {
        Ok(s) => decode_from_u8s(s),
        Err(e) => Err(e),
    }
}

/// The text that image `img` carries.
pub fn decode(img: &Image) -> (r: Result<String, DecodeError>)
    requires
        img.pixels@.len() <= usize::MAX / 2,
    ensures
        match decode_spec(img.pixels@) {
            Ok(t) => r is Ok && r->Ok_0@ == t,
            Err(e) => r == Err::<String, DecodeError>(e),
        },
{
    decode_pixels(img.pixels.as_slice())
}

/// The text that the PNG data `in_data` carries; `DecodeError::Image` where
/// the PNG cannot be read, or its frame is too large to unpack.
pub fn decode_file_data(in_data: &[u8]) -> (r: Result<String, DecodeError>)
    ensures
        match png_frame(in_data@) {
            None => r == Err::<String, DecodeError>(DecodeError::Image),
            Some(p) => if p.len() > usize::MAX / 2 {
                r == Err::<String, DecodeError>(DecodeError::Image)
            } else {
                match decode_spec(p) {
                    Ok(t) => r is Ok && r->Ok_0@ == t,
                    Err(e) => r == Err::<String, DecodeError>(e),
                }
            },
        },
{
    match png_decode(in_data) {
        None => Err(DecodeError::Image),
        Some(p) => {
            if p.len() > usize::MAX / 2 {
                Err(DecodeError::Image)
            } else {
                decode_pixels(p.as_slice())
            }
        },
    }
}

/// Whether `w` is the side of the smallest square canvas of three-byte
/// pixels that holds `total` bytes.
pub open spec fn is_canvas_side(total: int, w: int) -> bool {
    &&& w >= 1
    &&& w * w * 3 >= total
    &&& (w - 1) * (w - 1) * 3 < total
}

/// The bytes of a `w`-sided square canvas that `total` bytes leave blank.
pub open spec fn blank_bytes(total: int, w: int) -> int {
    w * w * 3 - total
}

/// Whether `img` is the static-mode image of pixel bytes `body`: as wide as
/// the smallest square canvas that holds them, without the rows that would
/// stay blank, and with the rest of its last row zero.
pub open spec fn static_image_ok(img: Image, body: Seq<u8>) -> bool {
    let w = img.width as int;
    let total = body.len() as int;
    &&& is_canvas_side(total, w)
    &&& img.height == w - blank_bytes(total, w) / (3 * w)
    &&& img.pixels@ == body + zeros((blank_bytes(total, w) % (3 * w)) as nat)
}

/// The side of the smallest square canvas of three-byte pixels that holds
/// `total` bytes.
fn canvas_side(total: usize) -> (w: usize)
    requires
        1 <= total <= usize::MAX / 4,
    ensures
        is_canvas_side(total as int, w as int),
        w * w * 3 <= usize::MAX,
        w <= 0xffff_ffff,
{
    let mut w: usize = 1;
    while w * w * 3 < total
        invariant
            1 <= w,
            (w - 1) * (w - 1) * 3 < total <= usize::MAX / 4,
            w * w * 3 <= 4 * (usize::MAX / 4),
        decreases total - w,
    {
        proof {
            assert(w <= w * w) by (nonlinear_arith)
                requires w >= 1;
            let bound = usize::MAX / 4;
            assert((w + 1) * (w + 1) * 3 <= 4 * bound) by (nonlinear_arith)
                requires w * w * 3 < total, total <= bound, w >= 1;
        }
        w += 1;
    }
    proof {
        assert(usize::MAX <= 0xffff_ffff_ffff_ffff);
        assert(w <= 0xffff_ffff) by (nonlinear_arith)
            requires w * w * 3 <= 0xffff_ffff_ffff_ffff, w >= 1;
    }
    w
}

/// The hidden-mode pixels of payload `b` in carrier `c` at `depth`, or why
/// there are none.
pub open spec fn hidden_spec(b: Seq<u8>, depth: u8, c: Image) -> Result<Seq<u8>, EncodeError> {
    if !c.wf() {
        Err(EncodeError::MalformedCarrier)
    } else {
        pixelize_spec(
            frame_spec(base64_text(b), per_pixel(depth) as nat),
            Mode::Hidden,
            depth,
            c.pixels@,
        )
    }
}

/// Whether `r` is the outcome of hiding payload `b` in carrier `c` at `depth`.
pub open spec fn hidden_outcome(r: Result<Image, EncodeError>, b: Seq<u8>, depth: u8, c: Image) -> bool {
    match hidden_spec(b, depth, c) {
        Ok(p) => r is Ok && r->Ok_0.pixels@ == p && r->Ok_0.width == c.width && r->Ok_0.height
            == c.height,
        Err(e) => r == Err::<Image, EncodeError>(e),
    }
}

/// Decoding a static-mode buffer, with any whole pixels of zeros after it,
/// gives back the bytes whose base64 text was framed.
pub proof fn lemma_static_decodes(t: Seq<u8>, b: Seq<u8>, pad: nat)
    requires
        base64_shaped(t),
        base64_bytes(t) == Some(b),
        pad % 3 == 0,
    ensures
        decode_bytes_spec(static_tag() + pack_spec(frame_spec(t, 4)) + zeros(pad)) == Ok::<
            Seq<u8>,
            DecodeError,
        >(b),
{
    let fill = filler_len(marked(t).len(), 4);
    let f = frame_spec(t, 4);
    let p = static_tag() + pack_spec(f) + zeros(pad);
    assert(f.len() % 4 == 0);
    assert(p[1] == 0u8);
    assert(0u8 & 7u8 == 0u8) by (bit_vector);
    assert(p.subrange(3, p.len() as int) =~= pack_spec(f) + zeros(pad));
    lemma_frame_symbols(t, fill);
    lemma_unpack_pack(f);
    lemma_unpack_append(pack_spec(f), zeros(pad));
    lemma_unpack_zeros(zeros(pad));
    let q = (pad / 3 * 4) as nat;
    assert(unpack_spec(zeros(pad)) =~= zeros(q));
    assert(f + zeros(q) =~= marked(t) + zeros(fill + q));
    lemma_unframe_marked(t, fill + q);
}

/// A frame's length is a multiple of its alignment.
proof fn lemma_frame_aligned(t: Seq<u8>, k: nat)
    requires
        1 <= k <= 3,
    ensures
        frame_spec(t, k).len() as int % (k as int) == 0,
{
    let m = marked(t).len();
    let f = frame_spec(t, k);
    assert(f.len() == m + filler_len(m, k));
    if k == 3 {
        if m % 3 == 1 {
            assert(filler_len(m, 3) == 2);
        } else if m % 3 == 2 {
            assert(filler_len(m, 3) == 1);
        }
        assert(f.len() as int % 3 == 0);
    } else if k == 2 {
        if m % 2 == 1 {
            assert(filler_len(m, 2) == 1);
        }
        assert(f.len() as int % 2 == 0);
    } else {
        assert(f.len() as int % 1 == 0);
    }
}

/// Decoding a carrier with a frame merged into it gives back the bytes whose
/// base64 text was framed: at depth 2 for any carrier that is large enough,
/// at depths 4 and 6 for a carrier with no byte to spare.
pub proof fn lemma_hidden_decodes(t: Seq<u8>, b: Seq<u8>, c: Seq<u8>, d: u8, a: nat)
    requires
        base64_shaped(t),
        base64_bytes(t) == Some(b),
        supported_depth(d),
        frame_spec(t, a).len() as int % per_pixel(d) == 0,
        c.len() % 3 == 0,
        c.len() >= required_len(frame_spec(t, a).len(), d),
        d == 2 || c.len() == required_len(frame_spec(t, a).len(), d),
    ensures
        decode_bytes_spec(merge_spec(c, frame_spec(t, a), d)) == Ok::<Seq<u8>, DecodeError>(b),
{
    let k = per_pixel(d);
    let fill = filler_len(marked(t).len(), a);
    let f = frame_spec(t, a);
    let o = merge_spec(c, f, d);
    let c1 = c[1];
    assert(o[1] == (c1 & 248u8) | d);
    assert(((c1 & 248u8) | d) & 7u8 == d) by (bit_vector)
        requires d < 8u8;
    lemma_frame_symbols(t, fill);
    lemma_extract_merge(c, f, d);
    let e = extract_spec(o, d);
    let extra = (e.len() - f.len()) as nat;
    if d != 2 {
        assert(body_pixels(c) == f.len() as int / k);
        lemma_fundamental_div_mod(f.len() as int, k);
        assert(e.len() == body_pixels(c) * k);
        let q = f.len() as int / k;
        assert(q * k == k * q) by (nonlinear_arith);
        assert(f.len() as int == k * q + f.len() as int % k);
        assert(e.len() == f.len());
    }
    assert(e =~= f + zeros(extra));
    assert(f + zeros(extra) =~= marked(t) + zeros(fill + extra));
    lemma_unframe_marked(t, fill + extra);
}

/// The static-mode pixels of a text's symbol stream, with any whole pixels of
/// zeros after them, decode back to the text.
pub proof fn lemma_static_text_decodes(s: Seq<char>, pad: nat)
    requires
        base64_shaped(base64_text(encode_utf8(s))),
        base64_bytes(base64_text(encode_utf8(s))) == Some(encode_utf8(s)),
        pad % 3 == 0,
    ensures
        pixelize_spec(frame_spec(base64_text(encode_utf8(s)), 4), Mode::Static, 8, seq![]) == Ok::<
            Seq<u8>,
            EncodeError,
        >(static_tag() + pack_spec(frame_spec(base64_text(encode_utf8(s)), 4))),
        decode_spec(static_tag() + pack_spec(frame_spec(base64_text(encode_utf8(s)), 4)) + zeros(pad))
            == Ok::<Seq<char>, DecodeError>(s),
{
    lemma_static_decodes(base64_text(encode_utf8(s)), encode_utf8(s), pad);
    encode_utf8_valid_utf8(s);
    encode_utf8_decode_utf8(s);
}

/// A text's symbol stream, at any alignment, merged at depth 2 into a carrier
/// of whole pixels that is large enough, decodes back to the text.
pub proof fn lemma_hidden_text_decodes(s: Seq<char>, c: Seq<u8>, a: nat)
    requires
        base64_shaped(base64_text(encode_utf8(s))),
        base64_bytes(base64_text(encode_utf8(s))) == Some(encode_utf8(s)),
        c.len() % 3 == 0,
        c.len() >= required_len(frame_spec(base64_text(encode_utf8(s)), a).len(), 2),
    ensures
        pixelize_spec(frame_spec(base64_text(encode_utf8(s)), a), Mode::Hidden, 2, c) == Ok::<
            Seq<u8>,
            EncodeError,
        >(merge_spec(c, frame_spec(base64_text(encode_utf8(s)), a), 2)),
        decode_spec(merge_spec(c, frame_spec(base64_text(encode_utf8(s)), a), 2)) == Ok::<
            Seq<char>,
            DecodeError,
        >(s),
{
    let t = base64_text(encode_utf8(s));
    assert(frame_spec(t, a).len() as int % 1 == 0);
    lemma_hidden_decodes(t, encode_utf8(s), c, 2, a);
    encode_utf8_valid_utf8(s);
    encode_utf8_decode_utf8(s);
}

/// Encodes the bytes `payload` into an image.
///
/// Static mode (at depth 8) synthesizes the image; hidden mode (at depth 2, 4
/// or 6) merges the payload into a copy of `carrier`, which must be large enough.
pub fn encode_bytes(payload: &[u8], mode: Mode, depth: u8, carrier: Option<&Image>) -> (r: Result<Image, EncodeError>)
    requires
        payload@.len() <= usize::MAX / 8,
    ensures
        mode == Mode::Static && depth != 8 ==> r == Err::<Image, EncodeError>(
            EncodeError::NotSupported { depth },
        ),
        mode == Mode::Static && depth == 8 ==> r is Ok && static_image_ok(
            r->Ok_0,
            static_tag() + pack_spec(frame_spec(base64_text(payload@), 4)),
        ),
        mode == Mode::Hidden && !supported_depth(depth) ==> r == Err::<Image, EncodeError>(
            EncodeError::NotSupported { depth },
        ),
        mode == Mode::Hidden && supported_depth(depth) && carrier is None ==> r == Err::<
            Image,
            EncodeError,
        >(EncodeError::MissingCarrier),
        mode == Mode::Hidden && supported_depth(depth) && carrier is Some ==> hidden_outcome(
            r,
            payload@,
            depth,
            *carrier->Some_0,
        ),
        mode == Mode::Static && r is Ok ==> decode_bytes_spec(r->Ok_0.pixels@) == Ok::<
            Seq<u8>,
            DecodeError,
        >(payload@),
        mode == Mode::Hidden && r is Ok && (depth == 2 || r->Ok_0.pixels@.len() == required_len(
            frame_spec(base64_text(payload@), per_pixel(depth) as nat).len(),
            depth,
        )) ==> decode_bytes_spec(r->Ok_0.pixels@) == Ok::<Seq<u8>, DecodeError>(payload@),
{
    let bytes = payload;
    match mode {
        Mode::Static => {
            if depth != 8 {
                return Err(EncodeError::NotSupported { depth });
            }
            let text = base64_encode(bytes);
            assert(text@.len() <= usize::MAX / 6 + 4);
            let syms = frame(text.as_slice(), 4);
            let empty: Vec<u8> = Vec::new();
            let mut pixels = match pixelize(syms.as_slice(), mode, depth, empty.as_slice()) {
                Ok(p) => p,
                Err(e) => {
                    return Err(e);
                },
            };
            let total = pixels.len();
            assert(total == 3 + syms@.len() / 4 * 3);
            let w = canvas_side(total);
            let blank = w * w * 3 - total;
            assert(3 * w <= w * w * 3) by (nonlinear_arith)
                requires w >= 1;
            let rows = blank / (3 * w);
            let pad = blank % (3 * w);
            proof {
                assert(pad <= blank) by (nonlinear_arith)
                    requires pad as int == blank as int % (3 * w as int), w >= 1;
                assert(rows < w) by (nonlinear_arith)
                    requires rows as int == blank as int / (3 * w as int), blank < w * w * 3, w >= 1;
            }
            let ghost body = pixels@;
            let mut i: usize = 0;
            while i < pad
                invariant
                    i <= pad,
                    pixels@ == body + zeros(i as nat),
                    body.len() == total,
                    total + pad <= usize::MAX,
                decreases pad - i,
            {
                pixels.push(0);
                i += 1;
                assert(pixels@ =~= body + zeros(i as nat));
            }
            proof {
                assert(blank as int % 3 == 0) by (nonlinear_arith)
                    requires blank as int == w * w * 3 - total, total as int % 3 == 0;
                lemma_mod_mod(blank as int, 3, w as int);
                lemma_static_decodes(text@, payload@, pad as nat);
            }
            Ok(Image { pixels, width: w as u32, height: (w - rows) as u32 })
        },
        Mode::Hidden => {
            if !(depth == 2 || depth == 4 || depth == 6) {
                return Err(EncodeError::NotSupported { depth });
            }
            let c = match carrier {
                Some(c) => c,
                None => {
                    return Err(EncodeError::MissingCarrier);
                },
            };
            assert((c.width as u128) * (c.height as u128) <= 0xffff_ffff_ffff_ffff_ffff_ffff) by (nonlinear_arith)
                requires c.width <= 0xffff_ffffu32, c.height <= 0xffff_ffffu32;
            if (c.pixels.len() as u128) != (c.width as u128) * (c.height as u128) * 3 {
                return Err(EncodeError::MalformedCarrier);
            }
            let text = base64_encode(bytes);
            assert(text@.len() <= usize::MAX / 6 + 4);
            let syms = frame(text.as_slice(), (depth / 2) as usize);
            match pixelize(syms.as_slice(), mode, depth, c.pixels.as_slice()) {
                Ok(p) => {
                    proof {
                        assert(c.pixels@.len() % 3 == 0) by (nonlinear_arith)
                            requires c.pixels@.len() == c.width * c.height * 3;
                        if depth == 2 || p@.len() == required_len(syms@.len(), depth) {
                            lemma_frame_aligned(text@, (depth / 2) as nat);
                            lemma_hidden_decodes(text@, payload@, c.pixels@, depth, (depth / 2) as nat);
                        }
                    }
                    Ok(Image { pixels: p, width: c.width, height: c.height })
                },
                Err(e) => Err(e),
            }
        },
    }
}

/// Encodes text `raw` into an image: its UTF-8 bytes, as `encode_bytes` does.
pub fn encode(raw: &str, mode: Mode, depth: u8, carrier: Option<&Image>) -> (r: Result<Image, EncodeError>)
    requires
        encode_utf8(raw@).len() <= usize::MAX / 8,
    ensures
        mode == Mode::Static && depth != 8 ==> r == Err::<Image, EncodeError>(
            EncodeError::NotSupported { depth },
        ),
        mode == Mode::Static && depth == 8 ==> r is Ok && static_image_ok(
            r->Ok_0,
            static_tag() + pack_spec(frame_spec(base64_text(encode_utf8(raw@)), 4)),
        ),
        mode == Mode::Hidden && !supported_depth(depth) ==> r == Err::<Image, EncodeError>(
            EncodeError::NotSupported { depth },
        ),
        mode == Mode::Hidden && supported_depth(depth) && carrier is None ==> r == Err::<
            Image,
            EncodeError,
        >(EncodeError::MissingCarrier),
        mode == Mode::Hidden && supported_depth(depth) && carrier is Some ==> hidden_outcome(
            r,
            encode_utf8(raw@),
            depth,
            *carrier->Some_0,
        ),
        mode == Mode::Static && r is Ok ==> decode_spec(r->Ok_0.pixels@) == Ok::<
            Seq<char>,
            DecodeError,
        >(raw@),
        mode == Mode::Hidden && r is Ok && (depth == 2 || r->Ok_0.pixels@.len() == required_len(
            frame_spec(base64_text(encode_utf8(raw@)), per_pixel(depth) as nat).len(),
            depth,
        )) ==> decode_spec(r->Ok_0.pixels@) == Ok::<Seq<char>, DecodeError>(raw@),
{
    let r = encode_bytes(raw.as_bytes(), mode, depth, carrier);
    proof {
        encode_utf8_valid_utf8(raw@);
        encode_utf8_decode_utf8(raw@);
    }
    r
}

/// The number of alphabet characters in the base64 text of `n` bytes.
pub open spec fn base64_chars(n: int) -> int {
    4 * ((n + 2) / 3) - (3 - n % 3) % 3
}

/// The symbol stream of text `raw`, aligned for static mode. However many
/// zero bytes follow it, the stream decodes back to `raw`.
pub fn encode_to_u8s(raw: &str) -> (r: Vec<u8>)
    requires
        encode_utf8(raw@).len() <= usize::MAX / 2,
    ensures
        r@ == frame_spec(base64_text(encode_utf8(raw@)), 4),
        r@.len() % 4 == 0,
        base64_shaped(base64_text(encode_utf8(raw@))),
        base64_bytes(base64_text(encode_utf8(raw@))) == Some(encode_utf8(raw@)),
        pad_count(base64_text(encode_utf8(raw@))) == (3 - encode_utf8(raw@).len() % 3) % 3,
        base64_text(encode_utf8(raw@)).len() == 4 * ((encode_utf8(raw@).len() + 2) / 3),
        r@.len() > base64_chars(encode_utf8(raw@).len() as int),
        forall|k: int|
            0 <= k < base64_chars(encode_utf8(raw@).len() as int) ==> #[trigger] r@[k] < 64,
        r@[base64_chars(encode_utf8(raw@).len() as int)] == 1 + (3 - encode_utf8(raw@).len() % 3)
            % 3,
        forall|k: int|
            base64_chars(encode_utf8(raw@).len() as int) < k < r@.len() ==> #[trigger] r@[k] == 0,
        r@.len() - (base64_chars(encode_utf8(raw@).len() as int) + 1) < 4,
        forall|k: nat| #[trigger] text_of_symbols(r@ + zeros(k)) == Ok::<Seq<char>, DecodeError>(raw@),
{
    let bytes = raw.as_bytes();
    assert(4 * ((bytes@.len() + 2) / 3) + 8 <= usize::MAX);
    let text = base64_encode(bytes);
    let r = frame(text.as_slice(), 4);
    proof {
        encode_utf8_valid_utf8(raw@);
        encode_utf8_decode_utf8(raw@);
        let t = text@;
        lemma_pad_count_exact(t, (3 - bytes@.len() % 3) % 3);
        let fill = filler_len(marked(t).len(), 4);
        lemma_body_len(t);
        lemma_body_codes_valid(t);
        let m = body_codes(t).len() as int;
        assert(m == base64_chars(bytes@.len() as int));
        assert(r@ == marked(t) + zeros(fill));
        assert forall|k: int| 0 <= k < m implies #[trigger] r@[k] < 64 by {
            assert(r@[k] == body_codes(t)[k]);
        }
        assert(r@[m] == marked(t)[m]);
        assert forall|k: int| m < k < r@.len() implies #[trigger] r@[k] == 0 by {
            assert(r@[k] == zeros(fill)[k - m - 1]);
        }
        assert forall|k: nat| #[trigger] text_of_symbols(r@ + zeros(k)) == Ok::<Seq<char>, DecodeError>(raw@) by {
            assert(r@ + zeros(k) =~= marked(t) + zeros(fill + k));
            lemma_unframe_marked(t, fill + k);
        }
    }
    r
}

} // verus!
