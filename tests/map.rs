use bff::binary::Endian;
use bff::error::Error;
use bff::map::BffMap;
use indexmap::IndexMap;

fn pairs_bytes(pairs: &[(u32, u32)], e: Endian) -> Vec<u8> {
    let mut out = Vec::new();
    let put = |out: &mut Vec<u8>, x: u32| match e {
        Endian::Little => out.extend_from_slice(&x.to_le_bytes()),
        Endian::Big => out.extend_from_slice(&x.to_be_bytes()),
    };
    put(&mut out, pairs.len() as u32);
    for (k, v) in pairs {
        put(&mut out, *k);
        put(&mut out, *v);
    }
    out
}

#[test]
fn map_reads_pairs_in_order_and_writes_them_back() {
    let bytes = pairs_bytes(&[(3, 30), (1, 10), (2, 20)], Endian::Big);
    let (m, end) = BffMap::read(&bytes, 0, Endian::Big).unwrap();
    assert_eq!(end, bytes.len());
    assert_eq!(m.len(), 3);
    assert_eq!(m.get_index(0), Some((3, 30)));
    assert_eq!(m.get_index(1), Some((1, 10)));
    assert_eq!(m.get_index(2), Some((2, 20)));
    assert_eq!(m.get_index(3), None);
    let mut out = Vec::new();
    m.write(&mut out, Endian::Big);
    assert_eq!(out, bytes);
}

#[test]
fn map_repeated_key_keeps_first_place_and_last_value() {
    let bytes = pairs_bytes(&[(1, 10), (2, 20), (1, 30)], Endian::Little);
    let (m, _) = BffMap::read(&bytes, 0, Endian::Little).unwrap();
    assert_eq!(m.len(), 2);
    assert_eq!(m.get_index(0), Some((1, 30)));
    assert_eq!(m.get_index(1), Some((2, 20)));
}

#[test]
fn map_truncated_pairs() {
    let mut bytes = pairs_bytes(&[(1, 10), (2, 20)], Endian::Little);
    bytes.pop();
    assert!(matches!(BffMap::read(&bytes, 0, Endian::Little), Err(Error::TruncatedInput)));
}

#[test]
fn map_from_index_map() {
    let mut im = IndexMap::new();
    im.insert(5u32, 50u32);
    im.insert(4u32, 40u32);
    let m = BffMap::from(im);
    let mut out = Vec::new();
    m.write(&mut out, Endian::Little);
    assert_eq!(out, pairs_bytes(&[(5, 50), (4, 40)], Endian::Little));
}
