use bff::binary::Endian;
use bff::codec::{lz_endian_to_endian, LzEndian};
use bff::error::Error;
use bff::game_obj::GameObjV1_291_03_06PC;
use bff::object::Object;
use bff::platforms::{platform_to_endian, Platform};
use bff::versions::Version;

fn sample() -> Object {
    Object {
        link_header_size: 2,
        decompressed_size: 0,
        compressed_size: 0,
        class_name: 0xCAFE_BABE,
        name: 0x0BAD_F00D,
        data: vec![0xAA, 0xBB, 1, 0, 0, 0, 0x44, 0x33, 0x22, 0x11],
    }
}

#[test]
fn object_round_trip() {
    let mut out = Vec::new();
    sample().write(&mut out, Endian::Little);
    assert_eq!(out.len(), 24 + 10);
    assert_eq!(&out[0..4], &[10, 0, 0, 0]);
    let (o, end) = Object::read(&out, 0, Endian::Little).unwrap();
    assert_eq!(o, sample());
    assert_eq!(end, out.len());
    assert_eq!(o.link_header(), vec![0xAA, 0xBB]);
    assert_eq!(o.body(), vec![1, 0, 0, 0, 0x44, 0x33, 0x22, 0x11]);
}

#[test]
fn object_errors() {
    let mut out = Vec::new();
    sample().write(&mut out, Endian::Big);
    assert_eq!(Object::read(&out[..20], 0, Endian::Big), Err(Error::TruncatedInput));
    assert_eq!(Object::read(&out[..30], 0, Endian::Big), Err(Error::TruncatedInput));
    let mut bad = sample();
    bad.link_header_size = 11;
    let mut out2 = Vec::new();
    // written by hand: the writer refuses such an entry
    out2.extend_from_slice(&[0, 0, 0, 10, 0, 0, 0, 11]);
    out2.extend_from_slice(&[0; 16]);
    out2.extend_from_slice(&bad.data);
    assert_eq!(Object::read(&out2, 0, Endian::Big), Err(Error::SizeMismatch));
}

#[test]
fn game_obj_from_object() {
    let g = GameObjV1_291_03_06PC::try_from_version_platform(&sample(), &Version::Asobo(1, 291, 3, 6), Platform::PC).unwrap();
    assert_eq!(g.node_crc32s, vec![0x1122_3344]);
    let short = Object { data: vec![0xAA, 0xBB, 2, 0, 0, 0], ..sample() };
    let r = GameObjV1_291_03_06PC::try_from_version_platform(&short, &Version::Asobo(1, 291, 3, 6), Platform::PC);
    assert_eq!(r, Err(Error::TruncatedInput));
}

#[test]
fn platform_byte_orders() {
    assert_eq!(platform_to_endian(Platform::PC), Endian::Little);
    assert_eq!(platform_to_endian(Platform::PS3), Endian::Big);
    assert_eq!(platform_to_endian(Platform::Xenon), Endian::Big);
    assert_eq!(platform_to_endian(Platform::PS2), Endian::Little);
    assert_eq!(lz_endian_to_endian(LzEndian::Big), Endian::Big);
    assert_eq!(lz_endian_to_endian(LzEndian::Little), Endian::Little);
}

#[test]
fn game_obj_rejects_trailing_body_bytes() {
    let object = Object { link_header_size: 0, data: vec![0, 0, 0, 0, 1], ..sample() };
    let r = GameObjV1_291_03_06PC::try_from_version_platform(&object, &Version::Asobo(1, 291, 3, 6), Platform::PC);
    assert_eq!(r, Err(Error::SizeMismatch));
}

#[test]
fn game_obj_writes_back_its_body() {
    let o = sample();
    let g = GameObjV1_291_03_06PC::try_from_version_platform(&o, &Version::Asobo(1, 291, 3, 6), Platform::PC).unwrap();
    let mut data = o.link_header();
    data.extend_from_slice(&g.write(Endian::Little));
    assert_eq!(data, o.data);
}
