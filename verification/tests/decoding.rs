use steganography::{LSBstego, Raster, StegoError};

fn image_of(width: u32, height: u32, data: Vec<u8>) -> Raster {
    match Raster::from_raw(width, height, data) {
        Some(img) => img,
        None => panic!("buffer does not hold {}x{} pixels", width, height),
    }
}

fn samples_with_bits(count: usize, fill: u8, bits: &[u8]) -> Vec<u8> {
    let mut data = vec![fill; count];
    for (i, bit) in bits.iter().enumerate() {
        data[i] = (fill & 0xFE) | bit;
    }
    data
}

#[test]
fn header_is_read_least_significant_bit_first() {
    let codec = LSBstego::new();
    // Length 1: only the first header bit is set.
    let mut bits = vec![1u8, 0, 0, 0, 0, 0, 0, 0, 0, 0, 0, 0];
    // 'A' is 0x41, least significant bit first.
    bits.extend_from_slice(&[1, 0, 0, 0, 0, 0, 1, 0]);
    let data = samples_with_bits(30, 0x80, &bits);
    assert_eq!(codec.decode_bytes(&image_of(10, 1, data.clone())), Ok(vec![0x41]));
    assert_eq!(codec.decode_text(&image_of(10, 1, data)), Ok(String::from("A")));
}

#[test]
fn header_with_clear_low_bits_keeps_its_zeros() {
    let codec = LSBstego::new();
    // Length 8 is 000100000000 in the header: three clear bits come first.
    let mut bits = vec![0u8, 0, 0, 1, 0, 0, 0, 0, 0, 0, 0, 0];
    for _ in 0..8 {
        // '0' is 0x30.
        bits.extend_from_slice(&[0, 0, 0, 0, 1, 1, 0, 0]);
    }
    let data = samples_with_bits(3 * 30, 0x10, &bits);
    assert_eq!(codec.decode_text(&image_of(30, 1, data)), Ok(String::from("00000000")));
}

#[test]
fn header_whose_first_set_bit_lies_in_a_later_pixel() {
    let codec = LSBstego::new();
    // Length 2048: only the last header bit is set, after eleven clear ones.
    let mut bits = vec![0u8, 0, 0, 0, 0, 0, 0, 0, 0, 0, 0, 1];
    let payload_bits = 8 * 2048;
    for i in 0..payload_bits {
        // Every byte is 0x55.
        bits.push(if i % 2 == 0 { 1 } else { 0 });
    }
    let pixels = 4 + (payload_bits + 2) / 3;
    let data = samples_with_bits(3 * pixels, 0, &bits);
    let decoded = codec.decode_bytes(&image_of(pixels as u32, 1, data));
    assert_eq!(decoded, Ok(vec![0x55u8; 2048]));
}

#[test]
fn every_length_of_the_header_is_read_back() {
    let codec = LSBstego::new();
    // The payload is all zeros, so the number of bytes that come back is
    // the length that the header spells.
    let lengths = (0..300usize).chain((300..4096).step_by(61)).chain(4090..4096);
    for len in lengths {
        let bits: Vec<u8> = (0..12).map(|k| ((len >> k) & 1) as u8).collect();
        let pixels = 4 + (8 * len + 2) / 3;
        let data = samples_with_bits(3 * pixels, 0x42, &bits);
        let decoded = codec.decode_bytes(&image_of(pixels as u32, 1, data));
        assert_eq!(decoded.map(|bytes| bytes.len()), Ok(len), "length {}", len);
    }
}

#[test]
fn header_with_zeros_between_set_bits() {
    let codec = LSBstego::new();
    // Length 5 is 101 followed by zeros; the payload is "hello".
    let mut bits = vec![1u8, 0, 1, 0, 0, 0, 0, 0, 0, 0, 0, 0];
    for byte in b"hello" {
        for k in 0..8 {
            bits.push((byte >> k) & 1);
        }
    }
    let data = samples_with_bits(3 * 20, 0xAA, &bits);
    assert_eq!(codec.decode_text(&image_of(4, 5, data)), Ok(String::from("hello")));
}

#[test]
fn all_clear_image_holds_the_empty_message() {
    let codec = LSBstego::new();
    let data = vec![0u8; 300];
    assert_eq!(codec.decode_bytes(&image_of(10, 10, data.clone())), Ok(Vec::new()));
    assert_eq!(codec.decode_text(&image_of(10, 10, data)), Ok(String::new()));
}

#[test]
fn image_shorter_than_its_header_says_gives_whole_bytes_only() {
    let codec = LSBstego::new();
    // Every header bit set: length 4095. Nine pixels leave fifteen payload
    // samples, which make one whole byte.
    let data = vec![0xFFu8; 27];
    assert_eq!(codec.decode_bytes(&image_of(3, 3, data)), Ok(vec![0xFF]));
    // Four pixels leave none.
    assert_eq!(codec.decode_bytes(&image_of(2, 2, vec![0xFFu8; 12])), Ok(Vec::new()));
    // Seven pixels leave nine samples: one byte, and a bit that is dropped.
    let bits = [1u8, 1, 1, 1, 1, 1, 1, 1, 1, 1, 1, 1, 1, 0, 0, 0, 0, 0, 0, 0, 1];
    let data = samples_with_bits(21, 0, &bits);
    assert_eq!(codec.decode_bytes(&image_of(7, 1, data)), Ok(vec![0x01]));
}

#[test]
fn invalid_utf8_is_replaced() {
    let codec = LSBstego::new();
    let data = vec![0xFFu8; 27];
    assert_eq!(codec.decode_text(&image_of(3, 3, data)), Ok(String::from("\u{FFFD}")));
    let cover = image_of(10, 10, vec![0x33u8; 300]);
    let stego = codec.encode_bytes(&cover, &[b'a', 0xC3, b'b', 0xE2, 0x82]).unwrap();
    assert_eq!(codec.decode_text(&stego), Ok(String::from("a\u{FFFD}b\u{FFFD}")));
}

#[test]
fn white_space_at_the_ends_is_trimmed() {
    let codec = LSBstego::new();
    let cover = image_of(10, 10, vec![0x33u8; 300]);
    let stego = codec.encode_text(&cover, " \t hi there \r\n").unwrap();
    assert_eq!(codec.decode_bytes(&stego), Ok(b" \t hi there \r\n".to_vec()));
    assert_eq!(codec.decode_text(&stego), Ok(String::from("hi there")));
    let cover = image_of(10, 10, vec![0x33u8; 300]);
    let stego = codec.encode_text(&cover, "\u{2003}wide\u{00A0}").unwrap();
    assert_eq!(codec.decode_text(&stego), Ok(String::from("wide")));
}

#[test]
fn nul_bytes_are_kept() {
    let codec = LSBstego::new();
    let cover = image_of(10, 10, vec![0x33u8; 300]);
    let stego = codec.encode_text(&cover, "hi\0").unwrap();
    assert_eq!(codec.decode_text(&stego), Ok(String::from("hi\0")));
}

#[test]
fn decoding_does_not_depend_on_upper_bits() {
    let codec = LSBstego::new();
    let cover = image_of(6, 6, vec![0u8; 108]);
    let stego = codec.encode_text(&cover, "bits").unwrap().into_raw();
    let noisy: Vec<u8> =
        stego.iter().enumerate().map(|(i, s)| s | ((i as u8).wrapping_mul(13) & 0xFE)).collect();
    assert_eq!(codec.decode_text(&image_of(6, 6, noisy)), Ok(String::from("bits")));
}

#[test]
fn error_kinds_are_told_apart() {
    assert_ne!(StegoError::CapacityExceeded, StegoError::ImageTooSmall);
    assert_ne!(StegoError::ImageTooSmall, StegoError::MalformedHeader);
    assert_ne!(StegoError::MalformedHeader, StegoError::CapacityExceeded);
    let copy = StegoError::ImageTooSmall;
    assert_eq!(copy.clone(), StegoError::ImageTooSmall);
    assert_eq!(format!("{:?}", StegoError::CapacityExceeded), "CapacityExceeded");
}
