use steganography::{LSBstego, Raster, StegoError};

fn carrier(width: u32, height: u32, seed: u8) -> Vec<u8> {
    let count = 3 * width as usize * height as usize;
    let mut data = Vec::with_capacity(count);
    let mut value = seed;
    for i in 0..count {
        value = value.wrapping_mul(31).wrapping_add(i as u8).wrapping_add(7);
        data.push(value);
    }
    data
}

fn raster(width: u32, height: u32, data: &[u8]) -> Raster {
    match Raster::from_raw(width, height, data.to_vec()) {
        Some(img) => img,
        None => panic!("buffer does not hold {}x{} pixels", width, height),
    }
}

fn embed_in(width: u32, height: u32, data: &[u8], message: &[u8]) -> Result<Vec<u8>, StegoError> {
    let codec = LSBstego::new();
    codec.encode_bytes(&raster(width, height, data), message).map(|img| img.into_raw())
}

#[test]
fn hi_in_a_ten_by_ten_carrier_comes_back() {
    let codec = LSBstego::new();
    let data = carrier(10, 10, 3);
    let cover = raster(10, 10, &data);
    let stego = match codec.encode_text(&cover, "hi") {
        Ok(img) => img,
        Err(e) => panic!("encoding failed: {:?}", e),
    };
    assert_eq!(stego.dimensions(), (10, 10));
    assert_eq!(codec.decode_text(&stego), Ok(String::from("hi")));
}

#[test]
fn hi_is_laid_out_bit_by_bit() {
    let data = vec![0xFFu8; 300];
    let out = embed_in(10, 10, &data, b"hi").unwrap();
    assert_eq!(out.len(), 300);
    // Length 2 in twelve bits, least significant first.
    let header = [0u8, 1, 0, 0, 0, 0, 0, 0, 0, 0, 0, 0];
    // 'h' is 0x68 and 'i' is 0x69, each least significant bit first.
    let payload = [0u8, 0, 0, 1, 0, 1, 1, 0, 1, 0, 0, 1, 0, 1, 1, 0];
    for (i, bit) in header.iter().chain(payload.iter()).enumerate() {
        assert_eq!(out[i], 0xFE | bit, "sample {}", i);
    }
    for i in 28..300 {
        assert_eq!(out[i], 0xFF, "sample {}", i);
    }
}

#[test]
fn clear_carrier_gets_set_bits() {
    let data = vec![0u8; 48];
    let out = embed_in(4, 4, &data, &[0xFF, 0x01]).unwrap();
    let expected_bits = [
        0u8, 1, 0, 0, 0, 0, 0, 0, 0, 0, 0, 0, 1, 1, 1, 1, 1, 1, 1, 1, 1, 0, 0, 0, 0, 0, 0, 0,
    ];
    for (i, bit) in expected_bits.iter().enumerate() {
        assert_eq!(out[i], *bit, "sample {}", i);
    }
    for i in 28..48 {
        assert_eq!(out[i], 0, "sample {}", i);
    }
}

#[test]
fn every_message_length_up_to_forty_comes_back() {
    let codec = LSBstego::new();
    let data = carrier(13, 11, 90);
    for len in 0..=40usize {
        let message: Vec<u8> = (0..len).map(|i| (i * 37 + len) as u8).collect();
        let stego = codec.encode_bytes(&raster(13, 11, &data), &message).unwrap();
        assert_eq!(codec.decode_bytes(&stego), Ok(message));
    }
}

#[test]
fn multi_byte_text_comes_back_byte_for_byte() {
    let codec = LSBstego::new();
    let text = "naïve — 日本語 🦀 ça";
    let data = carrier(20, 20, 5);
    let stego = codec.encode_text(&raster(20, 20, &data), text).unwrap();
    assert_eq!(codec.decode_bytes(&stego), Ok(text.as_bytes().to_vec()));
    assert_eq!(codec.decode_text(&stego), Ok(String::from(text)));
}

#[test]
fn empty_message_leaves_only_a_zero_header() {
    let codec = LSBstego::new();
    let data = carrier(5, 5, 17);
    let stego = codec.encode_text(&raster(5, 5, &data), "").unwrap();
    assert_eq!(codec.decode_text(&stego), Ok(String::new()));
    assert_eq!(codec.decode_bytes(&stego), Ok(Vec::new()));
    let out = stego.into_raw();
    for i in 0..12 {
        assert_eq!(out[i], data[i] & 0xFE, "sample {}", i);
    }
    assert_eq!(&out[12..], &data[12..]);
}

#[test]
fn longest_message_of_the_header_comes_back() {
    let codec = LSBstego::new();
    let message: Vec<u8> = (0..4095usize).map(|i| (i % 251) as u8).collect();
    let data = carrier(105, 105, 1);
    let stego = codec.encode_bytes(&raster(105, 105, &data), &message).unwrap();
    let out_len = codec.decode_bytes(&stego).map(|bytes| bytes.len());
    assert_eq!(out_len, Ok(4095));
    assert_eq!(codec.decode_bytes(&stego), Ok(message));
    // The header of the longest message has every bit set.
    let out = stego.into_raw();
    for i in 0..12 {
        assert_eq!(out[i] & 1, 1, "sample {}", i);
    }
}

#[test]
fn message_one_byte_longer_than_the_header_spells_is_refused() {
    let message = vec![b'a'; 4096];
    let data = carrier(200, 200, 1);
    assert_eq!(embed_in(200, 200, &data, &message).err(), Some(StegoError::CapacityExceeded));
    let codec = LSBstego::new();
    assert!(codec.check_capacity(4096, (200, 200)));
    assert!(!codec.check_capacity(4095, (200, 200)));
}

#[test]
fn message_that_fills_every_payload_sample_fits() {
    // Twelve pixels: four for the header, eight with 24 payload bits.
    let data = carrier(4, 3, 9);
    let codec = LSBstego::new();
    let stego = codec.encode_bytes(&raster(4, 3, &data), b"abc").unwrap();
    assert_eq!(codec.decode_bytes(&stego), Ok(b"abc".to_vec()));
    assert_eq!(embed_in(4, 3, &data, b"abcd").err(), Some(StegoError::CapacityExceeded));
}

#[test]
fn payload_may_stop_within_a_pixel() {
    // Seven pixels: nine payload samples, of which one byte takes eight.
    let data = vec![0xFFu8; 21];
    let out = embed_in(7, 1, &data, &[0x00]).unwrap();
    for i in 12..20 {
        assert_eq!(out[i], 0xFE, "sample {}", i);
    }
    assert_eq!(out[20], 0xFF);
    assert_eq!(embed_in(7, 1, &data, &[0x00, 0x00]).err(), Some(StegoError::CapacityExceeded));
}

#[test]
fn two_by_two_carrier_holds_the_header_and_nothing_else() {
    let codec = LSBstego::new();
    let data = carrier(2, 2, 40);
    assert_eq!(embed_in(2, 2, &data, b"a").err(), Some(StegoError::CapacityExceeded));
    assert_eq!(
        codec.encode_text(&raster(2, 2, &data), "hi").err(),
        Some(StegoError::CapacityExceeded)
    );
    let stego = codec.encode_text(&raster(2, 2, &data), "").unwrap();
    assert_eq!(codec.decode_text(&stego), Ok(String::new()));
}

#[test]
fn carrier_smaller_than_the_header_takes_no_message() {
    let data = carrier(3, 1, 40);
    assert_eq!(embed_in(3, 1, &data, b"").err(), Some(StegoError::CapacityExceeded));
    assert_eq!(embed_in(0, 0, &[], b"").err(), Some(StegoError::CapacityExceeded));
    assert_eq!(embed_in(0, 7, &[], b"x").err(), Some(StegoError::CapacityExceeded));
}

#[test]
fn image_smaller_than_the_header_is_not_decoded() {
    let codec = LSBstego::new();
    let data = carrier(3, 1, 40);
    assert_eq!(codec.decode_bytes(&raster(3, 1, &data)), Err(StegoError::ImageTooSmall));
    assert_eq!(codec.decode_text(&raster(3, 1, &data)), Err(StegoError::ImageTooSmall));
    assert_eq!(codec.decode_text(&raster(0, 0, &[])), Err(StegoError::ImageTooSmall));
    assert_eq!(codec.decode_text(&raster(1, 4, &carrier(1, 4, 2))).is_ok(), true);
}

#[test]
fn encoding_changes_lowest_bits_only() {
    let data = carrier(9, 8, 77);
    let out = embed_in(9, 8, &data, b"lowest bits").unwrap();
    assert_eq!(out.len(), data.len());
    let frame = 12 + 8 * 11;
    for i in 0..data.len() {
        assert_eq!(out[i] >> 1, data[i] >> 1, "sample {}", i);
        if i >= frame {
            assert_eq!(out[i], data[i], "sample {}", i);
        }
    }
}

#[test]
fn encoding_twice_is_encoding_once() {
    let data = carrier(9, 8, 12);
    let once = embed_in(9, 8, &data, b"again").unwrap();
    let twice = embed_in(9, 8, &once, b"again").unwrap();
    assert_eq!(once, twice);
}

#[test]
fn samples_beyond_the_last_pixel_are_not_carried_over() {
    let mut data = carrier(3, 3, 8);
    data.extend_from_slice(&[1, 2, 3, 4, 5]);
    let cover = raster(3, 3, &data);
    assert_eq!(cover.dimensions(), (3, 3));
    let stego = LSBstego::new().encode_bytes(&cover, b"z").unwrap();
    assert_eq!(stego.dimensions(), (3, 3));
    assert_eq!(stego.into_raw().len(), 27);
}

#[test]
fn wide_and_tall_carriers_are_read_row_by_row() {
    let codec = LSBstego::new();
    let data = carrier(1, 40, 33);
    let tall = codec.encode_bytes(&raster(1, 40, &data), b"row major").unwrap().into_raw();
    let wide = codec.encode_bytes(&raster(40, 1, &data), b"row major").unwrap().into_raw();
    let square = codec.encode_bytes(&raster(8, 5, &data), b"row major").unwrap().into_raw();
    assert_eq!(tall, wide);
    assert_eq!(tall, square);
    assert_eq!(codec.decode_bytes(&raster(5, 8, &tall)), Ok(b"row major".to_vec()));
}
