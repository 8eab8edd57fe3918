use bff::binary::Endian;
use bff::error::Error;
use bff::lz4::{block_decode, lz4_compress_data_with_header_writer, lz4_decompress_data_with_header_parser, lz4_decompress_entry};

fn round_trip(data: &Vec<u8>, e: Endian) -> Vec<u8> {
    let mut out = Vec::new();
    lz4_compress_data_with_header_writer(data, &mut out, e);
    lz4_decompress_data_with_header_parser(&out, e).unwrap()
}

#[test]
fn compresses_to_exact_bytes() {
    let mut out = Vec::new();
    lz4_compress_data_with_header_writer(&vec![1, 2, 3], &mut out, Endian::Little);
    assert_eq!(out, vec![3, 0, 0, 0, 4, 0, 0, 0, 0x30, 1, 2, 3]);
    let mut big = Vec::new();
    lz4_compress_data_with_header_writer(&vec![1, 2, 3], &mut big, Endian::Big);
    assert_eq!(big, vec![0, 0, 0, 3, 0, 0, 0, 4, 0x30, 1, 2, 3]);
}

#[test]
fn long_literal_run_uses_continuation_bytes() {
    let data: Vec<u8> = (0..300u32).map(|i| (i % 251) as u8).collect();
    let mut out = Vec::new();
    lz4_compress_data_with_header_writer(&data, &mut out, Endian::Little);
    // token, then 285 = 255 + 30
    assert_eq!(&out[8..11], &[0xF0, 255, 30]);
    assert_eq!(out.len(), 8 + 3 + 300);
}

#[test]
fn round_trips_in_both_byte_orders() {
    let cases: Vec<Vec<u8>> = vec![
        vec![],
        vec![42],
        (0..14).collect(),
        (0..15).collect(),
        (0..269).map(|i: u32| i as u8).collect(),
        (0..270).map(|i: u32| i as u8).collect(),
        vec![7u8; 1000],
    ];
    for data in &cases {
        assert_eq!(&round_trip(data, Endian::Little), data);
        assert_eq!(&round_trip(data, Endian::Big), data);
    }
}

#[test]
fn decodes_back_references() {
    let block = vec![0x32u8, b'a', b'b', b'c', 3, 0];
    assert_eq!(block_decode(&block, 9), Ok(b"abcabcabc".to_vec()));
    // overlapping copy of a single byte
    let run = vec![0x15u8, b'x', 1, 0];
    assert_eq!(block_decode(&run, 10), Ok(vec![b'x'; 10]));
}

#[test]
fn declared_size_must_match() {
    let block = vec![0x32u8, b'a', b'b', b'c', 3, 0];
    assert_eq!(block_decode(&block, 8), Err(Error::SizeMismatch));
    assert_eq!(block_decode(&block, 10), Err(Error::SizeMismatch));
    let literals = vec![0x30u8, 1, 2, 3];
    assert_eq!(block_decode(&literals, 4), Err(Error::SizeMismatch));
    assert_eq!(block_decode(&literals, 2), Err(Error::SizeMismatch));
}

#[test]
fn offset_before_output_start_is_invalid() {
    let block = vec![0x32u8, b'a', b'b', b'c', 4, 0];
    assert_eq!(block_decode(&block, 9), Err(Error::InvalidBackReference));
    let zero = vec![0x32u8, b'a', b'b', b'c', 0, 0];
    assert_eq!(block_decode(&zero, 9), Err(Error::InvalidBackReference));
}

#[test]
fn truncated_back_reference_is_truncated_input() {
    let block = vec![0x32u8, b'a', b'b', b'c', 3];
    assert_eq!(block_decode(&block, 9), Err(Error::TruncatedInput));
    let short_literals = vec![0x50u8, 1, 2];
    assert_eq!(block_decode(&short_literals, 5), Err(Error::TruncatedInput));
}

#[test]
fn empty_entry_payload_decodes_to_empty() {
    assert_eq!(lz4_decompress_entry(&[], 0, 0), Ok(vec![]));
}

#[test]
fn entry_payload_size_is_checked() {
    let block = vec![0x30u8, 1, 2, 3];
    assert_eq!(lz4_decompress_entry(&block, 3, 4), Ok(vec![1, 2, 3]));
    assert_eq!(lz4_decompress_entry(&block, 3, 5), Err(Error::TruncatedInput));
    assert_eq!(lz4_decompress_entry(&block, 3, 3), Err(Error::SizeMismatch));
}

#[test]
fn frame_header_is_checked() {
    assert_eq!(lz4_decompress_data_with_header_parser(&[0, 0], Endian::Little), Err(Error::TruncatedInput));
    let frame = vec![3u8, 0, 0, 0, 5, 0, 0, 0, 0x30, 1, 2, 3];
    assert_eq!(lz4_decompress_data_with_header_parser(&frame, Endian::Little), Err(Error::TruncatedInput));
    let extra = vec![3u8, 0, 0, 0, 4, 0, 0, 0, 0x30, 1, 2, 3, 0];
    assert_eq!(lz4_decompress_data_with_header_parser(&extra, Endian::Little), Err(Error::SizeMismatch));
    let wrong_size = vec![4u8, 0, 0, 0, 4, 0, 0, 0, 0x30, 1, 2, 3];
    assert_eq!(lz4_decompress_data_with_header_parser(&wrong_size, Endian::Little), Err(Error::SizeMismatch));
}

#[test]
fn recompressing_a_decompressed_frame_gives_the_frame() {
    for e in [Endian::Little, Endian::Big] {
        let data: Vec<u8> = (0..700u32).map(|i| (i * 7) as u8).collect();
        let mut frame = Vec::new();
        lz4_compress_data_with_header_writer(&data, &mut frame, e);
        let back = lz4_decompress_data_with_header_parser(&frame, e).unwrap();
        let mut again = Vec::new();
        lz4_compress_data_with_header_writer(&back, &mut again, e);
        assert_eq!(again, frame);
    }
}

#[test]
fn frames_in_each_byte_order_decode_alike() {
    let data = b"same content, two byte orders".to_vec();
    let mut little = Vec::new();
    let mut big = Vec::new();
    lz4_compress_data_with_header_writer(&data, &mut little, Endian::Little);
    lz4_compress_data_with_header_writer(&data, &mut big, Endian::Big);
    assert_ne!(little, big);
    assert_eq!(&little[8..], &big[8..]);
    assert_eq!(
        lz4_decompress_data_with_header_parser(&little, Endian::Little),
        lz4_decompress_data_with_header_parser(&big, Endian::Big)
    );
}

#[test]
fn frame_declaring_another_size_is_size_mismatch() {
    let mut frame = Vec::new();
    lz4_compress_data_with_header_writer(&vec![1, 2, 3, 4, 5], &mut frame, Endian::Little);
    frame[0] = 4;
    assert_eq!(lz4_decompress_data_with_header_parser(&frame, Endian::Little), Err(Error::SizeMismatch));
    frame[0] = 6;
    assert_eq!(lz4_decompress_data_with_header_parser(&frame, Endian::Little), Err(Error::SizeMismatch));
}

#[test]
fn cut_escape_is_truncated_even_past_declared_size() {
    // declares 4 bytes out, one body byte: a token whose 255-escape is missing
    let frame = vec![4u8, 0, 0, 0, 1, 0, 0, 0, 0xF0];
    assert_eq!(lz4_decompress_data_with_header_parser(&frame, Endian::Little), Err(Error::TruncatedInput));
    // escape bytes present and already past the declared size, then the input ends
    assert_eq!(block_decode(&[0xF0, 255, 255], 4), Err(Error::TruncatedInput));
    // literals past the declared size and cut short
    assert_eq!(block_decode(&[0x70, 1, 2], 3), Err(Error::TruncatedInput));
    // literals past the declared size, offset cut short
    assert_eq!(block_decode(&[0x50, 1, 2, 3, 4, 5, 1], 3), Err(Error::TruncatedInput));
    // match length continuation cut short after an offset that reaches too far
    assert_eq!(block_decode(&[0x1F, 1, 9, 0, 255], 40), Err(Error::TruncatedInput));
}
