use bff::binary::Endian;
use bff::error::Error;
use bff::layout::FieldValue;
use bff::platforms::Platform;
use bff::registry::{decode_record, encode_record, lookup, ClassId, LayoutId, LinkHeaderData, Record};
use bff::versions::Version;
use bff::world_ref::{LinkHeader, WorldRefBodyV1_381_67_09PC};

fn game_obj_version() -> Version {
    Version::Asobo(1, 291, 3, 6)
}

fn world_ref_version() -> Version {
    Version::Asobo(1, 381, 67, 9)
}

fn sample_link_header() -> LinkHeader {
    LinkHeader {
        link_name: 0x1111_1111,
        data_name: 0x2222_2222,
        rot: vec![0, 0, 0, 0x3F80_0000],
        transform: (0..16).map(|i| i * 3).collect(),
        radius: 0x4000_0000,
        flags: 0x8001_0003,
        object_type: 26,
    }
}

fn sample_body() -> WorldRefBodyV1_381_67_09PC {
    WorldRefBodyV1_381_67_09PC {
        node_name0: 1,
        warp_name: 2,
        game_obj_name: 3,
        unused14: 4,
        gen_world_name: 5,
        node_name1: 6,
        unused17s: vec![7, 8],
        unuseds: vec![9, 10, 11],
        mats: (100..132).collect(),
        point_a: vec![1, 2, 3],
        point_b: vec![4, 5, 6],
        uuid_pairs: vec![0xAAAA, 0xBBBB],
        init_script: b"init\0".to_vec(),
        node_name2: vec![0xDEAD_BEEF],
        zero: 0,
    }
}

#[test]
fn lookup_is_exact() {
    assert_eq!(lookup(ClassId::GameObj, &game_obj_version(), Platform::PC), Some(LayoutId::GameObjV1_291_03_06PC));
    assert_eq!(lookup(ClassId::GameObj, &world_ref_version(), Platform::PC), None);
    assert_eq!(lookup(ClassId::GameObj, &game_obj_version(), Platform::PS3), None);
    assert_eq!(lookup(ClassId::WorldRef, &world_ref_version(), Platform::PC), Some(LayoutId::WorldRefV1_381_67_09PC));
    assert_eq!(lookup(ClassId::Other(42), &world_ref_version(), Platform::PC), None);
}

#[test]
fn game_obj_decodes_and_reencodes() {
    let header = vec![9u8, 8, 7];
    let body = vec![2u8, 0, 0, 0, 0x11, 0, 0, 0, 0x22, 0, 0, 0];
    let rec = decode_record(ClassId::GameObj, &game_obj_version(), Platform::PC, &header, &body).unwrap();
    match &rec {
        Record::Typed { layout, endian, link_header, body } => {
            assert_eq!(*layout, LayoutId::GameObjV1_291_03_06PC);
            assert_eq!(*endian, Endian::Little);
            assert_eq!(*link_header, LinkHeaderData::Raw(vec![9, 8, 7]));
            assert_eq!(*body, vec![FieldValue::DynWords(vec![0x11, 0x22])]);
        },
        _ => panic!("expected a typed record"),
    }
    assert_eq!(encode_record(&rec), (header, body));
}

#[test]
fn game_obj_with_trailing_bytes_is_size_mismatch() {
    let body = vec![1u8, 0, 0, 0, 0x11, 0, 0, 0, 0xFF];
    let r = decode_record(ClassId::GameObj, &game_obj_version(), Platform::PC, &vec![], &body);
    assert_eq!(r, Err(Error::SizeMismatch));
}

#[test]
fn game_obj_truncated_body_is_truncated_input() {
    let body = vec![2u8, 0, 0, 0, 0x11, 0, 0, 0];
    let r = decode_record(ClassId::GameObj, &game_obj_version(), Platform::PC, &vec![], &body);
    assert_eq!(r, Err(Error::TruncatedInput));
}

#[test]
fn unregistered_triple_is_opaque_and_reencodes() {
    let header = vec![1u8, 2, 3, 4, 5];
    let body = vec![0xFFu8; 7];
    let rec = decode_record(ClassId::Other(0x1234_5678), &game_obj_version(), Platform::PC, &header, &body).unwrap();
    assert_eq!(rec, Record::Opaque { link_header: header.clone(), body: body.clone() });
    assert_eq!(encode_record(&rec), (header.clone(), body.clone()));
    let other_version = Version::Asobo(1, 291, 3, 7);
    let rec2 = decode_record(ClassId::GameObj, &other_version, Platform::PC, &header, &body).unwrap();
    assert!(matches!(rec2, Record::Opaque { .. }));
    assert_eq!(encode_record(&rec2), (header, body));
}

#[test]
fn world_ref_decodes_and_reencodes() {
    let header = sample_link_header().write(Endian::Little);
    let body = sample_body().write(Endian::Little);
    assert_eq!(header.len(), 4 * 24 + 2);
    let rec = decode_record(ClassId::WorldRef, &world_ref_version(), Platform::PC, &header, &body).unwrap();
    assert_eq!(encode_record(&rec), (header.clone(), body.clone()));
    assert_eq!(LinkHeader::read(&header, Endian::Little), Ok(sample_link_header()));
    assert_eq!(WorldRefBodyV1_381_67_09PC::read(&body, Endian::Little), Ok(sample_body()));
}

#[test]
fn world_ref_minimal_body_round_trip() {
    let minimal = WorldRefBodyV1_381_67_09PC {
        node_name0: 0,
        warp_name: 0,
        game_obj_name: 0,
        unused14: 0,
        gen_world_name: 0,
        node_name1: 0,
        unused17s: vec![],
        unuseds: vec![],
        mats: vec![],
        point_a: vec![0, 0, 0],
        point_b: vec![0, 0, 0],
        uuid_pairs: vec![],
        init_script: vec![],
        node_name2: vec![],
        zero: 0,
    };
    let bytes = minimal.write(Endian::Big);
    assert_eq!(bytes.len(), 4 * 6 + 4 * 6 + 4 * 6 + 4);
    assert_eq!(WorldRefBodyV1_381_67_09PC::read(&bytes, Endian::Big), Ok(minimal));
}

#[test]
fn same_content_in_each_byte_order_decodes_alike() {
    let little = sample_body().write(Endian::Little);
    let big = sample_body().write(Endian::Big);
    assert_ne!(little, big);
    let from_little = WorldRefBodyV1_381_67_09PC::read(&little, Endian::Little).unwrap();
    let from_big = WorldRefBodyV1_381_67_09PC::read(&big, Endian::Big).unwrap();
    assert_eq!(from_little, from_big);
    assert_eq!(from_little, sample_body());
}

#[test]
fn world_ref_truncated_header_fails() {
    let mut header = sample_link_header().write(Endian::Little);
    header.pop();
    let body = sample_body().write(Endian::Little);
    let r = decode_record(ClassId::WorldRef, &world_ref_version(), Platform::PC, &header, &body);
    assert_eq!(r, Err(Error::TruncatedInput));
}

#[test]
fn pool_of_three_entries_mixes_typed_and_opaque() {
    let version = world_ref_version();
    let game_obj_here = Version::Asobo(1, 381, 67, 9);
    let entries: Vec<(ClassId, Vec<u8>, Vec<u8>)> = vec![
        (ClassId::WorldRef, sample_link_header().write(Endian::Little), sample_body().write(Endian::Little)),
        (ClassId::GameObj, vec![1, 2], vec![1, 0, 0, 0, 5, 0, 0, 0]),
        (ClassId::WorldRef, sample_link_header().write(Endian::Little), sample_body().write(Endian::Little)),
    ];
    let mut typed = 0;
    let mut opaque = 0;
    for (class, header, body) in &entries {
        let v = if *class == ClassId::GameObj { &game_obj_here } else { &version };
        let rec = decode_record(*class, v, Platform::PC, header, body).unwrap();
        match rec {
            Record::Typed { .. } => typed += 1,
            Record::Opaque { .. } => opaque += 1,
        }
        assert_eq!(encode_record(&rec), (header.clone(), body.clone()));
    }
    assert_eq!((typed, opaque), (2, 1));
}

#[test]
fn link_header_flags_keep_padding() {
    let h = sample_link_header();
    assert!(h.flag(0));
    assert!(h.flag(1));
    assert!(!h.flag(2));
    assert!(h.flag(16));
    assert_eq!(h.flag_padding(), 0x8001_0003 >> 17);
    let bytes = h.write(Endian::Big);
    assert_eq!(LinkHeader::read(&bytes, Endian::Big).unwrap().flags, 0x8001_0003);
}

#[test]
fn unlisted_object_type_is_rejected() {
    for bad in [8u16, 27, 0xFFFF] {
        let mut header = sample_link_header().write(Endian::Little);
        let n = header.len();
        header[n - 2..].copy_from_slice(&bad.to_le_bytes());
        assert_eq!(LinkHeader::read(&header, Endian::Little), Err(Error::MalformedHeader));
        let body = sample_body().write(Endian::Little);
        let r = decode_record(ClassId::WorldRef, &world_ref_version(), Platform::PC, &header, &body);
        assert_eq!(r, Err(Error::MalformedHeader));
    }
    let mut header = sample_link_header().write(Endian::Little);
    let n = header.len();
    header[n - 2..].copy_from_slice(&9u16.to_le_bytes());
    assert_eq!(LinkHeader::read(&header, Endian::Little).unwrap().object_type, 9);
}
