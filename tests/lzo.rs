use bff::binary::Endian;
use bff::error::Error;
use bff::lzo::{lzo_compress, lzo_decode, lzo_decompress};

fn round_trip(data: &Vec<u8>, e: Endian) -> Vec<u8> {
    let mut out = Vec::new();
    lzo_compress(data, &mut out, e);
    lzo_decompress(&out, e).unwrap()
}

#[test]
fn lzo_compresses_to_exact_bytes() {
    let mut out = Vec::new();
    lzo_compress(&vec![], &mut out, Endian::Little);
    assert_eq!(out, vec![0, 0, 0, 0, 3, 0, 0, 0, 0x11, 0, 0]);
    let mut two = Vec::new();
    lzo_compress(&vec![7, 8], &mut two, Endian::Big);
    assert_eq!(two, vec![0, 0, 0, 2, 0, 0, 0, 6, 19, 7, 8, 0x11, 0, 0]);
}

#[test]
fn lzo_long_literal_run_uses_zero_continuation() {
    let data: Vec<u8> = (0..600u32).map(|i| (i % 253) as u8).collect();
    let mut out = Vec::new();
    lzo_compress(&data, &mut out, Endian::Little);
    // 600 - 18 = 582 = 255 + 255 + 72
    assert_eq!(&out[8..12], &[0, 0, 0, 72]);
    assert_eq!(out.len(), 8 + 4 + 600 + 3);
}

#[test]
fn lzo_round_trips_in_both_byte_orders() {
    let cases: Vec<Vec<u8>> = vec![
        vec![],
        vec![1],
        vec![1, 2, 3],
        vec![1, 2, 3, 4],
        (0..238).map(|i: u32| i as u8).collect(),
        (0..239).map(|i: u32| i as u8).collect(),
        (0..273).map(|i: u32| i as u8).collect(),
        (0..274).map(|i: u32| i as u8).collect(),
        vec![9u8; 2000],
    ];
    for data in &cases {
        assert_eq!(&round_trip(data, Endian::Little), data);
        assert_eq!(&round_trip(data, Endian::Big), data);
    }
}

#[test]
fn lzo_decodes_a_near_match() {
    let stream = vec![20u8, b'a', b'b', b'c', 0xA8, 0x00, 0x11, 0, 0];
    assert_eq!(lzo_decode(&stream, 9), Ok(b"abcabcabc".to_vec()));
}

#[test]
fn lzo_match_errors() {
    let too_far = vec![20u8, b'a', b'b', b'c', 0xAC, 0x00, 0x11, 0, 0];
    assert_eq!(lzo_decode(&too_far, 9), Err(Error::InvalidBackReference));
    let cut = vec![20u8, b'a', b'b', b'c', 0xA8];
    assert_eq!(lzo_decode(&cut, 9), Err(Error::TruncatedInput));
    let stream = vec![20u8, b'a', b'b', b'c', 0xA8, 0x00, 0x11, 0, 0];
    assert_eq!(lzo_decode(&stream, 8), Err(Error::SizeMismatch));
    assert_eq!(lzo_decode(&stream, 10), Err(Error::SizeMismatch));
    assert_eq!(lzo_decode(&[0x11, 0, 0, 5], 0), Err(Error::SizeMismatch));
    assert_eq!(lzo_decode(&[], 0), Err(Error::TruncatedInput));
}

#[test]
fn lzo_recompressing_a_decompressed_frame_gives_the_frame() {
    for e in [Endian::Little, Endian::Big] {
        let data: Vec<u8> = (0..700u32).map(|i| (i * 11) as u8).collect();
        let mut frame = Vec::new();
        lzo_compress(&data, &mut frame, e);
        let back = lzo_decompress(&frame, e).unwrap();
        let mut again = Vec::new();
        lzo_compress(&back, &mut again, e);
        assert_eq!(again, frame);
    }
}

#[test]
fn lzo_frames_in_each_byte_order_decode_alike() {
    let data = b"same content, two byte orders".to_vec();
    let mut little = Vec::new();
    let mut big = Vec::new();
    lzo_compress(&data, &mut little, Endian::Little);
    lzo_compress(&data, &mut big, Endian::Big);
    assert_ne!(little, big);
    assert_eq!(&little[8..], &big[8..]);
    assert_eq!(lzo_decompress(&little, Endian::Little), lzo_decompress(&big, Endian::Big));
}

#[test]
fn lzo_frame_declaring_another_size_is_size_mismatch() {
    let mut frame = Vec::new();
    lzo_compress(&vec![1, 2, 3, 4, 5], &mut frame, Endian::Big);
    frame[3] = 4;
    assert_eq!(lzo_decompress(&frame, Endian::Big), Err(Error::SizeMismatch));
    frame[3] = 9;
    assert_eq!(lzo_decompress(&frame, Endian::Big), Err(Error::SizeMismatch));
}

#[test]
fn lzo_cut_tokens_are_truncated_even_past_declared_size() {
    // literal run of 3 + 10 = 13 bytes, declared size 2, literals cut short
    assert_eq!(lzo_decode(&[10, 1, 2, 3], 2), Err(Error::TruncatedInput));
    // zero continuation cut short
    assert_eq!(lzo_decode(&[0, 0, 0], 2), Err(Error::TruncatedInput));
    // a far match cut before its distance
    assert_eq!(lzo_decode(&[22, 1, 2, 3, 4, 5, 0x21], 10), Err(Error::TruncatedInput));
    // literals carried by a match, past the declared size, then the next token cut short
    assert_eq!(lzo_decode(&[20, b'a', b'b', b'c', 0xAB, 0x00, 9, 9, 9], 9), Err(Error::TruncatedInput));
}

#[test]
fn lzo_whole_tokens_past_declared_size_are_size_mismatch() {
    assert_eq!(lzo_decode(&[22, 1, 2, 3, 4, 5, 0x11, 0, 0], 2), Err(Error::SizeMismatch));
}
