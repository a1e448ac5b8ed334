use zorro::alphabet::{forward, reverse};
use zorro::dense::{pack, unpack};
use zorro::framing::{frame, unframe};
use zorro::stego::{extract, merge};
use zorro::{
    decode, decode_bytes_from_u8s, decode_file_data, decode_from_u8s, decode_pixels,
    decode_pixels_to_bytes, depixelize, encode, encode_bytes, encode_to_u8s, pixelize, DecodeError,
    EncodeError, Image, Mode,
};
use zorro::write_meta_pixel;

const DAYS: &str = "{\"days\": [\"Su\", \"Mo\", \"Tu\", \"We\", \"Th\", \"Fr\", \"Sa\"]}";

const DAYS_SYMBOLS: [u8; 72] = [
    30, 50, 9, 36, 24, 23, 37, 51, 8, 35, 40, 32, 22, 50, 9, 19, 29, 18, 8, 44, 8, 2, 9, 13, 27,
    50, 8, 44, 8, 2, 9, 20, 29, 18, 8, 44, 8, 2, 9, 23, 25, 18, 8, 44, 8, 2, 9, 20, 26, 2, 8, 44,
    8, 2, 9, 6, 28, 34, 8, 44, 8, 2, 9, 19, 24, 18, 9, 29, 31, 16, 3, 0,
];

fn carrier(width: u32, height: u32) -> Image {
    let n = (width * height * 3) as usize;
    let pixels = (0..n).map(|i| ((i * 37 + 11) % 256) as u8).collect();
    Image { pixels, width, height }
}

fn to_png(img: &Image) -> Vec<u8> {
    let mut out: Vec<u8> = Vec::new();
    {
        let mut encoder = png::Encoder::new(&mut out, img.width, img.height);
        encoder.set_color(png::ColorType::RGB);
        encoder.set_depth(png::BitDepth::Eight);
        let mut writer = encoder.write_header().unwrap();
        writer.write_image_data(&img.pixels).unwrap();
    }
    out
}

#[test]
fn it_encodes_to_u8s() {
    let resp = encode_to_u8s(DAYS);
    assert_eq!(DAYS_SYMBOLS.to_vec(), resp);
}

#[test]
fn it_encodes_to_png() {
    let img = encode(DAYS, Mode::Static, 8, None).unwrap();
    assert_eq!(img.pixels.len(), (img.width * img.height * 3) as usize);
    assert_eq!(&img.pixels[0..3], &[1, 0, 1]);
    assert!(!to_png(&img).is_empty());
}

#[test]
fn it_decodes_from_png() {
    let img = encode(DAYS, Mode::Static, 8, None).unwrap();
    let found_data = decode(&img).unwrap();
    assert_eq!(DAYS, found_data);
}

#[test]
fn it_decodes_from_png_data() {
    let img = encode(DAYS, Mode::Static, 8, None).unwrap();
    let raw_data = to_png(&img);
    let found_data = decode_file_data(&raw_data).unwrap();
    assert_eq!(DAYS, found_data);
}

#[test]
fn it_encodes_in_hidden_mode_depth_2() {
    let src = carrier(32, 32);
    let img = encode(DAYS, Mode::Hidden, 2, Some(&src)).unwrap();
    assert_eq!((img.width, img.height), (32, 32));
    assert_eq!(img.pixels.len(), src.pixels.len());
    assert!(!to_png(&img).is_empty());
}

#[test]
fn it_decodes_from_hidden_mode_depth_2() {
    let src = carrier(32, 32);
    let img = encode(DAYS, Mode::Hidden, 2, Some(&src)).unwrap();
    let found_data = decode_file_data(&to_png(&img)).unwrap();
    assert_eq!(DAYS, found_data);
}

#[test]
fn it_encodes_in_hidden_mode_depth_6() {
    let src = carrier(32, 32);
    let img = encode(DAYS, Mode::Hidden, 6, Some(&src)).unwrap();
    assert_eq!((img.width, img.height), (32, 32));
    assert_eq!(img.pixels[1] & 7, 6);
    let symbols = depixelize(&img.pixels).unwrap();
    assert_eq!(&symbols[0..72], &DAYS_SYMBOLS[..]);
}

#[test]
fn static_round_trip_of_fixture() {
    let img = encode(DAYS, Mode::Static, 8, None).unwrap();
    assert_eq!(decode_pixels(&img.pixels), Ok(DAYS.to_string()));
}

#[test]
fn static_round_trip_of_other_texts() {
    for s in ["", "a", "ab", "abc", "héllo wörld ✓", "line\nbreak\ttab"] {
        let img = encode(s, Mode::Static, 8, None).unwrap();
        assert_eq!(decode(&img), Ok(s.to_string()));
    }
}

#[test]
fn static_geometry_of_fixture() {
    // 72 symbols pack into 54 bytes, 57 with the header: 19 pixels, a 5-wide
    // canvas of which one row stays blank, and one blank pixel padded.
    let img = encode(DAYS, Mode::Static, 8, None).unwrap();
    assert_eq!((img.width, img.height), (5, 4));
    assert_eq!(img.pixels.len(), 60);
    assert_eq!(&img.pixels[57..], &[0, 0, 0]);
}

#[test]
fn static_geometry_of_empty_text() {
    // "" frames to [1, 0, 0, 0]: one packed pixel after the header.
    let img = encode("", Mode::Static, 8, None).unwrap();
    assert_eq!((img.width, img.height), (2, 1));
    assert_eq!(img.pixels, vec![1, 0, 1, 4, 0, 0]);
}

#[test]
fn hidden_round_trip_at_each_depth() {
    for depth in [2u8, 4, 6] {
        let symbols = frame(&base64_of(DAYS), (depth / 2) as usize);
        let required = 3 + 3 * symbols.len() / (depth / 2) as usize;
        let pixels = (0..required).map(|i| ((i * 91 + 5) % 256) as u8).collect();
        let src = Image { pixels, width: 1, height: (required / 3) as u32 };
        let img = encode(DAYS, Mode::Hidden, depth, Some(&src)).unwrap();
        assert_eq!(decode(&img), Ok(DAYS.to_string()));
    }
}

#[test]
fn hidden_depth_2_keeps_carrier_bits() {
    let src = carrier(32, 32);
    let img = encode(DAYS, Mode::Hidden, 2, Some(&src)).unwrap();
    assert_eq!(decode(&img), Ok(DAYS.to_string()));
    for i in 0..3 {
        assert_eq!(img.pixels[i] & 0xF8, src.pixels[i] & 0xF8);
    }
    for i in 3..src.pixels.len() {
        assert_eq!(img.pixels[i] & 0xFC, src.pixels[i] & 0xFC);
    }
    assert_eq!(&img.pixels[0..3].iter().map(|b| b & 7).collect::<Vec<u8>>(), &[2, 2, 1]);
}

#[test]
fn hidden_mode_reports_small_carrier() {
    let src = carrier(4, 4);
    let r = encode(DAYS, Mode::Hidden, 2, Some(&src));
    assert_eq!(r, Err(EncodeError::Capacity { required: 3 + 3 * 71, available: 48 }));
    let r = encode(DAYS, Mode::Hidden, 6, Some(&src));
    assert_eq!(r, Err(EncodeError::Capacity { required: 3 + 3 * 24, available: 48 }));
}

#[test]
fn unsupported_depths_are_refused() {
    let src = carrier(32, 32);
    for depth in [0u8, 1, 3, 5, 7, 8] {
        let r = encode(DAYS, Mode::Hidden, depth, Some(&src));
        assert_eq!(r, Err(EncodeError::NotSupported { depth }));
    }
    assert_eq!(encode(DAYS, Mode::Static, 6, None), Err(EncodeError::NotSupported { depth: 6 }));
}

#[test]
fn hidden_mode_needs_a_wellformed_carrier() {
    assert_eq!(encode(DAYS, Mode::Hidden, 2, None), Err(EncodeError::MissingCarrier));
    let mut src = carrier(32, 32);
    src.pixels.pop();
    assert_eq!(encode(DAYS, Mode::Hidden, 2, Some(&src)), Err(EncodeError::MalformedCarrier));
}

#[test]
fn alphabet_round_trips() {
    let alphabet = b"ABCDEFGHIJKLMNOPQRSTUVWXYZabcdefghijklmnopqrstuvwxyz0123456789+/";
    for (i, c) in alphabet.iter().enumerate() {
        assert_eq!(forward(*c), Some(i as u8));
        assert_eq!(reverse(i as u8), Some(*c));
        assert_eq!(reverse(forward(*c).unwrap()), Some(*c));
    }
    assert_eq!(forward(b'='), None);
    assert_eq!(forward(b' '), None);
    assert_eq!(reverse(64), None);
}

fn base64_of(s: &str) -> Vec<u8> {
    // Rebuild the base64 text from the framed symbols of the fixture.
    let symbols = encode_to_u8s(s);
    unframe(&symbols).unwrap()
}

#[test]
fn frame_lengths_follow_alignment() {
    for s in ["", "a", "ab", "abc", "abcd", DAYS] {
        let t = base64_of(s);
        assert_eq!(frame(&t, 4).len() % 4, 0);
        assert_eq!(frame(&t, 3).len() % 3, 0);
        assert_eq!(frame(&t, 2).len() % 2, 0);
    }
    assert_eq!(frame(b"YQ==", 4), vec![24, 16, 3, 0]);
    assert_eq!(frame(b"YQ==", 3), vec![24, 16, 3]);
    assert_eq!(frame(b"YWI=", 3), vec![24, 22, 8, 2, 0, 0]);
}

#[test]
fn unframe_errors() {
    assert_eq!(unframe(&[0, 0, 0]), Err(DecodeError::MissingPadMarker));
    assert_eq!(unframe(&[]), Err(DecodeError::MissingPadMarker));
    assert_eq!(unframe(&[24, 16, 4, 0]), Err(DecodeError::InvalidPadMarker { marker: 4 }));
    assert_eq!(unframe(&[24, 70, 16, 80, 3]), Err(DecodeError::InvalidSymbol { index: 1 }));
    assert_eq!(unframe(&[24, 16, 3, 0, 0]), Ok(b"YQ==".to_vec()));
}

#[test]
fn decode_from_u8s_errors() {
    assert_eq!(decode_from_u8s(DAYS_SYMBOLS.to_vec()), Ok(DAYS.to_string()));
    // "Y" alone is not base64.
    assert_eq!(decode_from_u8s(vec![24, 1]), Err(DecodeError::Base64));
    // "/w==" decodes to the byte 0xFF, which is not UTF-8.
    assert_eq!(decode_from_u8s(vec![63, 48, 3]), Err(DecodeError::Utf8));
    assert_eq!(decode_from_u8s(vec![0, 0]), Err(DecodeError::MissingPadMarker));
}

#[test]
fn decode_errors() {
    assert_eq!(decode_pixels(&[1, 0]), Err(DecodeError::MissingHeader));
    assert_eq!(decode_pixels(&[1, 0, 1, 0]), Err(DecodeError::PartialPixel { len: 4 }));
    assert_eq!(depixelize(&[2, 2, 1, 0, 0]), Err(DecodeError::PartialPixel { len: 5 }));
    assert_eq!(decode_pixels_to_bytes(&[1, 0, 1, 4, 16]), Err(DecodeError::PartialPixel { len: 5 }));
    assert_eq!(decode_pixels(&[2, 3, 1, 0, 0, 0]), Err(DecodeError::NotSupported { depth: 3 }));
    assert_eq!(decode_pixels(&[1, 0, 1, 0, 0, 0]), Err(DecodeError::MissingPadMarker));
    assert_eq!(decode_file_data(b"not a png"), Err(DecodeError::Image));
}

#[test]
fn static_packing_formulas() {
    assert_eq!(pack(&[63, 63, 63, 63]), vec![255, 255, 255]);
    assert_eq!(pack(&[1, 2, 3, 4]), vec![4, 32, 196]);
    assert_eq!(unpack(&[4, 32, 196]), vec![1, 2, 3, 4]);
    assert_eq!(unpack(&[4, 32, 196, 9]), vec![1, 2, 3, 4]);
    assert_eq!(pixelize(&[1, 2, 3, 4], Mode::Static, 8, &[]), Ok(vec![1, 0, 1, 4, 32, 196]));
    assert_eq!(depixelize(&[1, 0, 1, 4, 32, 196]), Ok(vec![1, 2, 3, 4]));
}

#[test]
fn hidden_packing_formulas() {
    let c = [255u8; 9];
    // depth 2: one symbol, 0b10_01_11, per pixel.
    assert_eq!(merge(&c, &[0b100111], 2), vec![250, 250, 249, 254, 253, 255, 252, 252, 252]);
    // depth 4: two symbols per pixel, 12 bits cut into three nibbles.
    assert_eq!(merge(&c, &[0b101010, 0b010101], 4), vec![250, 252, 249, 250, 249, 245, 252, 252, 252]);
    // depth 6: one symbol per channel.
    assert_eq!(merge(&c, &[1, 2, 3], 6), vec![250, 254, 249, 193, 194, 195, 252, 252, 252]);
    assert_eq!(extract(&[250, 250, 249, 254, 253, 255], 2), vec![0b100111]);
    assert_eq!(extract(&[250, 252, 249, 250, 249, 245], 4), vec![0b101010, 0b010101]);
    assert_eq!(extract(&[250, 254, 249, 193, 194, 195], 6), vec![1, 2, 3]);
    assert_eq!(
        pixelize(&[1, 2, 3], Mode::Hidden, 6, &c),
        Ok(vec![250, 254, 249, 193, 194, 195, 252, 252, 252])
    );
    assert_eq!(
        pixelize(&[1, 2, 3], Mode::Hidden, 6, &c[0..5]),
        Err(EncodeError::Capacity { required: 6, available: 5 })
    );
}

#[test]
fn binary_payload_round_trips() {
    let payload: Vec<u8> = vec![0, 255, 128, 7, 0, 0, 192, 1];
    let img = encode_bytes(&payload, Mode::Static, 8, None).unwrap();
    assert_eq!(decode_pixels_to_bytes(&img.pixels), Ok(payload.clone()));
    assert_eq!(decode_pixels(&img.pixels), Err(DecodeError::Utf8));
    let src = carrier(16, 16);
    let img = encode_bytes(&payload, Mode::Hidden, 2, Some(&src)).unwrap();
    assert_eq!(decode_pixels_to_bytes(&img.pixels), Ok(payload));
}

#[test]
fn symbol_bytes_decode() {
    assert_eq!(decode_bytes_from_u8s(vec![24, 16, 3, 0]), Ok(b"a".to_vec()));
    assert_eq!(decode_bytes_from_u8s(vec![63, 48, 3]), Ok(vec![255]));
    assert_eq!(decode_bytes_from_u8s(vec![24, 1]), Err(DecodeError::Base64));
}

#[test]
fn meta_headers() {
    assert_eq!(write_meta_pixel(Mode::Static, 8), vec![1, 0, 1]);
    assert_eq!(write_meta_pixel(Mode::Hidden, 2), vec![2, 2, 1]);
    assert_eq!(write_meta_pixel(Mode::Hidden, 6), vec![2, 6, 1]);
}

#[test]
fn symbol_streams_decode_with_extra_zeros() {
    for text in ["", "a", "ab", "abc", DAYS] {
        let symbols = encode_to_u8s(text);
        for k in 0..5 {
            let mut padded = symbols.clone();
            padded.extend(std::iter::repeat(0u8).take(k));
            assert_eq!(decode_from_u8s(padded), Ok(text.to_string()));
        }
    }
}

#[test]
fn pad_marker_follows_payload_length() {
    // One, two and three payload bytes leave two, one and no `=`.
    assert_eq!(encode_to_u8s("a"), vec![24, 16, 3, 0]);
    assert_eq!(encode_to_u8s("ab"), vec![24, 22, 8, 2]);
    assert_eq!(encode_to_u8s("abc"), vec![24, 22, 9, 35, 1, 0, 0, 0]);
}

#[test]
fn pixelized_symbols_decode() {
    let symbols = encode_to_u8s(DAYS);
    let mut pixels = pixelize(&symbols, Mode::Static, 8, &[]).unwrap();
    pixels.extend([0u8; 6]);
    assert_eq!(decode_pixels(&pixels), Ok(DAYS.to_string()));
    let src = carrier(32, 32);
    let pixels = pixelize(&symbols, Mode::Hidden, 2, &src.pixels).unwrap();
    assert_eq!(decode_pixels(&pixels), Ok(DAYS.to_string()));
}

#[test]
fn symbol_stream_layout() {
    // Seven bytes: ten base64 characters and two `=`, so the marker 3 stands
    // at position 10 and one filler zero follows.
    let symbols = encode_to_u8s("abcdefg");
    assert_eq!(symbols.len(), 12);
    assert_eq!(symbols[10], 3);
    assert!(symbols[..10].iter().all(|s| *s < 64));
    assert_eq!(&symbols[11..], &[0]);
    // Eight bytes: eleven characters and one `=`, no filler needed.
    let symbols = encode_to_u8s("abcdefgh");
    assert_eq!(symbols.len(), 12);
    assert_eq!(symbols[11], 2);
}
