use bff::binary::{
    read_dyn_bytes, read_dyn_words, read_u16, read_u32, write_dyn_words, write_u16, write_u32,
    Endian,
};
use bff::error::Error;

#[test]
fn reads_u32_in_each_byte_order() {
    let buf = vec![0x78u8, 0x56, 0x34, 0x12];
    assert_eq!(read_u32(&buf, 0, Endian::Little), Ok((0x1234_5678, 4)));
    assert_eq!(read_u32(&buf, 0, Endian::Big), Ok((0x7856_3412, 4)));
}

#[test]
fn reads_u16_in_each_byte_order() {
    let buf = vec![0x00u8, 0x34, 0x12];
    assert_eq!(read_u16(&buf, 1, Endian::Little), Ok((0x1234, 3)));
    assert_eq!(read_u16(&buf, 1, Endian::Big), Ok((0x3412, 3)));
}

#[test]
fn short_buffer_is_truncated_input() {
    let buf = vec![1u8, 2, 3];
    assert_eq!(read_u32(&buf, 0, Endian::Little), Err(Error::TruncatedInput));
    assert_eq!(read_u16(&buf, 2, Endian::Little), Err(Error::TruncatedInput));
}

#[test]
fn writes_u32_and_u16() {
    let mut out = Vec::new();
    write_u32(&mut out, 0x0102_0304, Endian::Big);
    write_u32(&mut out, 0x0102_0304, Endian::Little);
    write_u16(&mut out, 0xABCD, Endian::Big);
    assert_eq!(out, vec![1, 2, 3, 4, 4, 3, 2, 1, 0xAB, 0xCD]);
}

#[test]
fn dyn_array_round_trip() {
    let words = vec![7u32, 8, 9, 10];
    let mut out = Vec::new();
    write_dyn_words(&mut out, &words, 2, Endian::Little);
    assert_eq!(out.len(), 4 + 16);
    assert_eq!(&out[0..4], &[2, 0, 0, 0]);
    let (back, end) = read_dyn_words(&out, 0, 2, Endian::Little).unwrap();
    assert_eq!(back, words);
    assert_eq!(end, out.len());
}

#[test]
fn dyn_array_count_past_end_is_truncated() {
    // declares three words but holds two
    let buf = vec![3u8, 0, 0, 0, 1, 0, 0, 0, 2, 0, 0, 0];
    assert_eq!(read_dyn_words(&buf, 0, 1, Endian::Little), Err(Error::TruncatedInput));
    let huge = vec![0xFFu8, 0xFF, 0xFF, 0xFF, 1];
    assert_eq!(read_dyn_words(&huge, 0, 16, Endian::Little), Err(Error::TruncatedInput));
    assert_eq!(read_dyn_bytes(&huge, 0, Endian::Little), Err(Error::TruncatedInput));
}

#[test]
fn dyn_bytes_reads_exactly_the_count() {
    let buf = vec![0u8, 0, 0, 2, 0xAA, 0xBB, 0xCC];
    assert_eq!(read_dyn_bytes(&buf, 0, Endian::Big), Ok((vec![0xAA, 0xBB], 6)));
}
