use citra::codec::decode;
use citra::color::{Color, Pixel};
use citra::image::Image;

#[test]
fn header_spells_the_dimensions() {
    let img = Image::new(600, 800, 255);
    assert_eq!(img.header(), b"P6 600 800 255 ".to_vec());
}

#[test]
fn encode_lays_out_header_then_channel_bytes() {
    let mut img = Image::new(2, 1, 255);
    img.draw_dot((0, 0), Pixel { r: 1, g: 2, b: 3 }).unwrap();
    img.draw_dot((1, 0), Pixel { r: 4, g: 5, b: 6 }).unwrap();
    assert_eq!(img.encode(), b"P6 2 1 255 \x01\x02\x03\x04\x05\x06".to_vec());
}

#[test]
fn filled_buffer_encodes_and_decodes_back() {
    let mut img = Image::new(10, 10, 255);
    img.fill(Color::White);
    let bytes = img.encode();
    let back = decode(&bytes).expect("a fresh encoding must decode");
    assert_eq!(back.width(), 10);
    assert_eq!(back.height(), 10);
    assert_eq!(back.depth(), 255);
    let mut count = 0;
    for y in 0..10 {
        for x in 0..10 {
            assert_eq!(back.get(x, y).unwrap(), Pixel { r: 255, g: 255, b: 255 });
            count += 1;
        }
    }
    assert_eq!(count, 100);
}

#[test]
fn drawn_buffer_round_trips_exactly() {
    let mut img = Image::new(9, 7, 31);
    img.fill(Color::Green);
    img.draw_line((0, 0), (8, 6), Pixel { r: 10, g: 20, b: 30 }).unwrap();
    img.draw_dot((3, 3), Pixel { r: 1, g: 1, b: 1 }).unwrap();
    let bytes = img.encode();
    let back = decode(&bytes).expect("a fresh encoding must decode");
    assert_eq!(back.width(), 9);
    assert_eq!(back.height(), 7);
    assert_eq!(back.depth(), 31);
    for y in 0..7 {
        for x in 0..9 {
            assert_eq!(back.get(x, y).unwrap(), img.get(x, y).unwrap());
        }
    }
    assert_eq!(back.encode(), bytes);
}

#[test]
fn decode_rejects_what_encode_never_writes() {
    // Wrong magic.
    assert!(decode(&b"P5 1 1 255 \x00\x00\x00".to_vec()).is_none());
    // Truncated header.
    assert!(decode(&b"P6 1 1".to_vec()).is_none());
    // A leading zero is not canonical.
    assert!(decode(&b"P6 01 1 255 \x00\x00\x00".to_vec()).is_none());
    // Zero dimensions name no valid buffer.
    assert!(decode(&b"P6 0 1 255 ".to_vec()).is_none());
    // Too few channel bytes for the announced size.
    assert!(decode(&b"P6 2 1 255 \x00\x00\x00".to_vec()).is_none());
    // Trailing garbage after the pixels.
    assert!(decode(&b"P6 1 1 255 \x00\x00\x00\x00".to_vec()).is_none());
}

#[test]
fn decode_accepts_a_hand_written_encoding() {
    let bytes = b"P6 3 1 9 \x01\x02\x03\x04\x05\x06\x07\x08\x09".to_vec();
    let img = decode(&bytes).expect("a canonical encoding must decode");
    assert_eq!(img.width(), 3);
    assert_eq!(img.height(), 1);
    assert_eq!(img.depth(), 9);
    assert_eq!(img.get(0, 0).unwrap(), Pixel { r: 1, g: 2, b: 3 });
    assert_eq!(img.get(1, 0).unwrap(), Pixel { r: 4, g: 5, b: 6 });
    assert_eq!(img.get(2, 0).unwrap(), Pixel { r: 7, g: 8, b: 9 });
    assert_eq!(img.encode(), bytes);
}
