use bff::binary::Endian;
use bff::error::Error;
use bff::object::{read_objects, write_objects, Object};
use bff::platforms::Platform;
use bff::registry::{decode_record, encode_record, ClassId, Record};
use bff::versions::Version;

fn entry(class_name: u32, link_header: &[u8], body: &[u8]) -> Object {
    let mut data = link_header.to_vec();
    data.extend_from_slice(body);
    Object {
        link_header_size: link_header.len() as u32,
        decompressed_size: 0,
        compressed_size: 0,
        class_name,
        name: class_name ^ 0xFFFF,
        data,
    }
}

fn class_of(hash: u32) -> ClassId {
    match hash {
        1 => ClassId::GameObj,
        2 => ClassId::WorldRef,
        other => ClassId::Other(other),
    }
}

#[test]
fn pool_of_three_entries_round_trips() {
    let entries = vec![
        entry(1, &[0xEE], &[1, 0, 0, 0, 7, 0, 0, 0]),
        entry(99, &[1, 2, 3], &[4, 5, 6, 7]),
        entry(1, &[], &[2, 0, 0, 0, 8, 0, 0, 0, 9, 0, 0, 0]),
    ];
    let mut pool = Vec::new();
    write_objects(&mut pool, &entries, Endian::Little);
    let (read, end) = read_objects(&pool, 0, 3, Endian::Little).unwrap();
    assert_eq!(end, pool.len());
    assert_eq!(read, entries);
    let version = Version::from_signature("v1.291.03.06 - Asobo Studio - Internal Cross Technology");
    let mut kinds = Vec::new();
    for o in &read {
        let header = o.link_header();
        let body = o.body();
        let rec = decode_record(class_of(o.class_name), &version, Platform::PC, &header, &body).unwrap();
        kinds.push(matches!(rec, Record::Typed { .. }));
        assert_eq!(encode_record(&rec), (header, body));
    }
    assert_eq!(kinds, vec![true, false, true]);
    let mut again = Vec::new();
    write_objects(&mut again, &read, Endian::Little);
    assert_eq!(again, pool);
}

#[test]
fn pool_error_names_the_entry() {
    let entries = vec![entry(1, &[], &[0, 0, 0, 0]), entry(2, &[], &[1, 2]), entry(3, &[], &[3])];
    let mut pool = Vec::new();
    write_objects(&mut pool, &entries, Endian::Big);
    pool.pop();
    assert_eq!(read_objects(&pool, 0, 3, Endian::Big), Err((2, Error::TruncatedInput)));
    assert_eq!(read_objects(&pool, 0, 2, Endian::Big).map(|(os, _)| os.len()), Ok(2));
}
