use vstd::prelude::*;

use crate::binary::{copy_bytes, rest, starts_with, write_bytes, Endian};
use crate::error::Error;
use crate::layout::{
    fields_bytes, fields_fit, kind_ok, lemma_fields_unique, read_fields, views, write_fields,
    FieldKind, FieldValue, FieldView,
};
use crate::platforms::{platform_to_endian, spec_platform_to_endian, Platform};
use crate::versions::Version;

verus! {

/// The class of an entry.
#[derive(Clone, Copy, Debug, PartialEq, Eq, Structural)]
pub enum ClassId {
    GameObj,
    WorldRef,
    /// A class known only by its name hash.
    Other(u32),
}

/// A binary layout that the registry knows, one per registered (class, version, platform).
#[derive(Clone, Copy, Debug, PartialEq, Eq, Structural)]
pub enum LayoutId {
    GameObjV1_291_03_06PC,
    WorldRefV1_381_67_09PC,
}

/// The layout registered for a class, a dialect and a platform; an exact match or nothing.
pub open spec fn spec_registered(class: ClassId, version: Version, platform: Platform) -> Option<
    LayoutId,
> {
    match (class, version, platform) {
        (ClassId::GameObj, Version::Asobo(1, 291, 3, 6), Platform::PC) => Some(
            LayoutId::GameObjV1_291_03_06PC,
        ),
        (ClassId::WorldRef, Version::Asobo(1, 381, 67, 9), Platform::PC) => Some(
            LayoutId::WorldRefV1_381_67_09PC,
        ),
        _ => None,
    }
}

/// The fields of the link header of a layout; `None` where the link header is kept unparsed.
pub open spec fn spec_header_kinds(id: LayoutId) -> Option<Seq<FieldKind>> {
    match id {
        LayoutId::GameObjV1_291_03_06PC => None,
        LayoutId::WorldRefV1_381_67_09PC => Some(
            seq![
                // link name, data name
                FieldKind::Word,
                FieldKind::Word,
                // rotation quaternion, transform matrix
                FieldKind::Words(4),
                FieldKind::Words(16),
                // radius
                FieldKind::Word,
                // object flags, every bit kept
                FieldKind::Word,
                // object type
                FieldKind::ObjectType,
            ],
        ),
    }
}

/// The fields of the body of a layout.
pub open spec fn spec_body_kinds(id: LayoutId) -> Seq<FieldKind> {
    match id {
        // node name hashes
        LayoutId::GameObjV1_291_03_06PC => seq![FieldKind::DynWords(1)],
        LayoutId::WorldRefV1_381_67_09PC => seq![
            // node, warp, game object, unused, generated world, node names
            FieldKind::Word,
            FieldKind::Word,
            FieldKind::Word,
            FieldKind::Word,
            FieldKind::Word,
            FieldKind::Word,
            // unused words, unused bytes
            FieldKind::DynWords(1),
            FieldKind::DynBytes,
            // matrices
            FieldKind::DynWords(16),
            // points a and b
            FieldKind::Words(3),
            FieldKind::Words(3),
            // uuid pairs
            FieldKind::DynWords(2),
            // init script, a length-prefixed string kept byte for byte
            FieldKind::DynBytes,
            // more node names
            FieldKind::DynWords(1),
            // zero
            FieldKind::Word,
        ],
    }
}

pub open spec fn kinds_ok(ks: Seq<FieldKind>) -> bool {
    forall|i: int| 0 <= i < ks.len() ==> kind_ok(#[trigger] ks[i])
}

/// The layout registered for `class`, `version` and `platform`.
pub fn lookup(class: ClassId, version: &Version, platform: Platform) -> (r: Option<LayoutId>)
    ensures
        r == spec_registered(class, *version, platform),
{
    match (class, version, platform) {
        (ClassId::GameObj, Version::Asobo(1, 291, 3, 6), Platform::PC) => Some(
            LayoutId::GameObjV1_291_03_06PC,
        ),
        (ClassId::WorldRef, Version::Asobo(1, 381, 67, 9), Platform::PC) => Some(
            LayoutId::WorldRefV1_381_67_09PC,
        ),
        _ => None,
    }
}

/// The link-header fields of a layout.
pub fn header_kinds(id: LayoutId) -> (r: Option<Vec<FieldKind>>)
    ensures
        match spec_header_kinds(id) {
            None => r is None,
            Some(ks) => r matches Some(v) && v@ == ks,
        },
{
    match id {
        LayoutId::GameObjV1_291_03_06PC => None,
        LayoutId::WorldRefV1_381_67_09PC => {
            let mut v: Vec<FieldKind> = Vec::new();
            v.push(FieldKind::Word);
            v.push(FieldKind::Word);
            v.push(FieldKind::Words(4));
            v.push(FieldKind::Words(16));
            v.push(FieldKind::Word);
            v.push(FieldKind::Word);
            v.push(FieldKind::ObjectType);
            assert(v@ =~= spec_header_kinds(id)->0);
            Some(v)
        },
    }
}

/// The body fields of a layout.
pub fn body_kinds(id: LayoutId) -> (r: Vec<FieldKind>)
    ensures
        r@ == spec_body_kinds(id),
{
    let mut v: Vec<FieldKind> = Vec::new();
    match id {
        LayoutId::GameObjV1_291_03_06PC => {
            v.push(FieldKind::DynWords(1));
        },
        LayoutId::WorldRefV1_381_67_09PC => {
            v.push(FieldKind::Word);
            v.push(FieldKind::Word);
            v.push(FieldKind::Word);
            v.push(FieldKind::Word);
            v.push(FieldKind::Word);
            v.push(FieldKind::Word);
            v.push(FieldKind::DynWords(1));
            v.push(FieldKind::DynBytes);
            v.push(FieldKind::DynWords(16));
            v.push(FieldKind::Words(3));
            v.push(FieldKind::Words(3));
            v.push(FieldKind::DynWords(2));
            v.push(FieldKind::DynBytes);
            v.push(FieldKind::DynWords(1));
            v.push(FieldKind::Word);
        },
    }
    assert(v@ =~= spec_body_kinds(id));
    v
}

/// `gs` is a complete list of fields of the kinds `ks` whose bytes are exactly `s`.
pub open spec fn fields_decode_to(ks: Seq<FieldKind>, e: Endian, s: Seq<u8>, gs: Seq<FieldView>) -> bool {
    &&& gs.len() == ks.len()
    &&& fields_fit(gs, ks)
    &&& fields_bytes(gs, ks, e) == s
}

/// Some complete list of fields of the kinds `ks` has exactly the bytes `s`.
pub open spec fn fields_decodable(ks: Seq<FieldKind>, e: Endian, s: Seq<u8>) -> bool {
    exists|gs: Seq<FieldView>| fields_decode_to(ks, e, s, gs)
}

/// Reads the fields of the kinds `ks` that make up the whole of `buf`.
pub fn decode_fields(buf: &Vec<u8>, ks: &Vec<FieldKind>, e: Endian) -> (r: Result<
    Vec<FieldValue>,
    Error,
>)
    requires
        kinds_ok(ks@),
    ensures
        match r {
            Ok(fs) => fields_decode_to(ks@, e, buf@, views(fs@)),
            Err(err) => !fields_decodable(ks@, e, buf@) && (err == Error::TruncatedInput || err
                == Error::SizeMismatch || err == Error::MalformedHeader),
        },
{
    proof {
        assert(rest(buf@, 0) =~= buf@);
    }
    match read_fields(buf.as_slice(), 0, ks, e) {
        Ok((fs, end)) => {
            if end != buf.len() {
                proof {
                    if fields_decodable(ks@, e, buf@) {
                        let gs = choose|gs: Seq<FieldView>| fields_decode_to(ks@, e, buf@, gs);
                        assert(buf@.subrange(0, buf@.len() as int) =~= buf@);
                        lemma_fields_unique(buf@, gs, views(fs@), ks@, e);
                    }
                }
                return Err(Error::SizeMismatch);
            }
            proof {
                assert(buf@.subrange(0, end as int) =~= buf@);
            }
            Ok(fs)
        },
        Err(err) => {
            proof {
                if fields_decodable(ks@, e, buf@) {
                    let gs = choose|gs: Seq<FieldView>| fields_decode_to(ks@, e, buf@, gs);
                    assert(buf@.subrange(0, buf@.len() as int) =~= buf@);
                    assert(starts_with(buf@, fields_bytes(gs, ks@, e)));
                }
            }
            Err(err)
        },
    }
}

/// A link header as a record holds it.
#[derive(Debug, PartialEq, Eq)]
pub enum LinkHeaderData {
    /// The bytes as they were, for a layout that does not parse its link header.
    Raw(Vec<u8>),
    Fields(Vec<FieldValue>),
}

/// The decoded form of one entry: typed fields under a registered layout, or the bytes as they
/// were.
#[derive(Debug, PartialEq, Eq)]
#[allow(inconsistent_fields)]
pub enum Record {
    Typed { layout: LayoutId, endian: Endian, link_header: LinkHeaderData, body: Vec<FieldValue> },
    Opaque { link_header: Vec<u8>, body: Vec<u8> },
}

/// The mathematical value of a link header.
pub ghost enum LinkHeaderView {
    Raw(Seq<u8>),
    Fields(Seq<FieldView>),
}

/// The mathematical value of a record.
#[allow(inconsistent_fields)]
pub ghost enum RecordView {
    Typed { layout: LayoutId, endian: Endian, link_header: LinkHeaderView, body: Seq<FieldView> },
    Opaque { link_header: Seq<u8>, body: Seq<u8> },
}

impl View for LinkHeaderData {
    type V = LinkHeaderView;

    open spec fn view(&self) -> LinkHeaderView {
        match self {
            LinkHeaderData::Raw(v) => LinkHeaderView::Raw(v@),
            LinkHeaderData::Fields(fs) => LinkHeaderView::Fields(views(fs@)),
        }
    }
}

impl View for Record {
    type V = RecordView;

    open spec fn view(&self) -> RecordView {
        match self {
            Record::Typed { layout, endian, link_header, body } => RecordView::Typed {
                layout: *layout,
                endian: *endian,
                link_header: link_header@,
                body: views(body@),
            },
            Record::Opaque { link_header, body } => RecordView::Opaque {
                link_header: link_header@,
                body: body@,
            },
        }
    }
}

/// The link header `hv` and the body `bv` have the fields that layout `id` gives.
pub open spec fn typed_fits(id: LayoutId, hv: LinkHeaderView, bv: Seq<FieldView>) -> bool {
    &&& match (hv, spec_header_kinds(id)) {
        (LinkHeaderView::Raw(_), None) => true,
        (LinkHeaderView::Fields(fs), Some(ks)) => fs.len() == ks.len() && fields_fit(fs, ks),
        _ => false,
    }
    &&& bv.len() == spec_body_kinds(id).len()
    &&& fields_fit(bv, spec_body_kinds(id))
}

/// The link-header bytes and the body bytes of a record of layout `id` in byte order `e`.
pub open spec fn typed_bytes(id: LayoutId, e: Endian, hv: LinkHeaderView, bv: Seq<FieldView>) -> (
    Seq<u8>,
    Seq<u8>,
) {
    (
        match hv {
            LinkHeaderView::Raw(v) => v,
            LinkHeaderView::Fields(fs) => fields_bytes(fs, spec_header_kinds(id)->0, e),
        },
        fields_bytes(bv, spec_body_kinds(id), e),
    )
}

impl RecordView {
    /// The record can be written: its fields have the kinds that its layout gives.
    pub open spec fn wf(self) -> bool {
        match self {
            RecordView::Typed { layout, endian, link_header, body } => typed_fits(
                layout,
                link_header,
                body,
            ),
            RecordView::Opaque { .. } => true,
        }
    }

    /// The link-header bytes and the body bytes of the record.
    pub open spec fn bytes(self) -> (Seq<u8>, Seq<u8>) {
        match self {
            RecordView::Typed { layout, endian, link_header, body } => typed_bytes(
                layout,
                endian,
                link_header,
                body,
            ),
            RecordView::Opaque { link_header, body } => (link_header, body),
        }
    }
}

/// The bytes `h` and `b` are the link header and body of some record of layout `id` in byte
/// order `e`.
pub open spec fn decodable(id: LayoutId, e: Endian, h: Seq<u8>, b: Seq<u8>) -> bool {
    &&& match spec_header_kinds(id) {
        None => true,
        Some(ks) => fields_decodable(ks, e, h),
    }
    &&& fields_decodable(spec_body_kinds(id), e, b)
}

/// Decodes an entry's link header and body under the layout registered for `class`, `version`
/// and `platform`, in the platform's byte order. Without a registered layout the entry becomes an
/// opaque record holding the bytes as they were.
pub fn decode_record(
    class: ClassId,
    version: &Version,
    platform: Platform,
    link_header: &Vec<u8>,
    body: &Vec<u8>,
) -> (r: Result<Record, Error>)
    ensures
        match spec_registered(class, *version, platform) {
            None => r matches Ok(rec) && rec is Opaque && rec@.bytes() == (link_header@, body@),
            Some(id) => match r {
                Ok(rec) => {
                    &&& rec@.wf()
                    &&& rec matches Record::Typed { layout, endian, .. }
                    &&& layout == id
                    &&& endian == spec_platform_to_endian(platform)
                    &&& rec@.bytes() == (link_header@, body@)
                },
                Err(err) => {
                    &&& !decodable(id, spec_platform_to_endian(platform), link_header@, body@)
                    &&& err == Error::TruncatedInput || err == Error::SizeMismatch || err
                        == Error::MalformedHeader
                },
            },
        },
{
    let id = match lookup(class, version, platform) {
        None => {
            return Ok(Record::Opaque { link_header: copy_bytes(link_header), body: copy_bytes(body) });
        },
        Some(id) => id,
    };
    let e = platform_to_endian(platform);
    let header = match header_kinds(id) {
        None => LinkHeaderData::Raw(copy_bytes(link_header)),
        Some(ks) => {
            proof {
                assert(kinds_ok(ks@));
            }
            match decode_fields(link_header, &ks, e) {
                Ok(fs) => LinkHeaderData::Fields(fs),
                Err(err) => return Err(err),
            }
        },
    };
    let ks = body_kinds(id);
    proof {
        assert(kinds_ok(ks@));
    }
    let fields = match decode_fields(body, &ks, e) {
        Ok(fs) => fs,
        Err(err) => return Err(err),
    };
    Ok(Record::Typed { layout: id, endian: e, link_header: header, body: fields })
}

/// Writes a record back: its link-header bytes and its body bytes.
pub fn encode_record(rec: &Record) -> (r: (Vec<u8>, Vec<u8>))
    requires
        rec@.wf(),
    ensures
        (r.0@, r.1@) == rec@.bytes(),
{
    match rec {
        Record::Typed { layout, endian, link_header, body } => {
            let mut h: Vec<u8> = Vec::new();
            match link_header {
                LinkHeaderData::Raw(v) => {
                    write_bytes(&mut h, v);
                },
                LinkHeaderData::Fields(fs) => {
                    if let Some(ks) = header_kinds(*layout) {
                        write_fields(&mut h, fs, &ks, *endian);
                    }
                },
            }
            let mut b: Vec<u8> = Vec::new();
            let ks = body_kinds(*layout);
            write_fields(&mut b, body, &ks, *endian);
            assert(h@ =~= rec@.bytes().0);
            assert(b@ =~= rec@.bytes().1);
            (h, b)
        },
        Record::Opaque { link_header, body } => (copy_bytes(link_header), copy_bytes(body)),
    }
}

/// Round trip: a record of layout `id` decodes from its own bytes, in either byte order, and no
/// other record of that layout and byte order has the same bytes. So decoding what was encoded
/// gives the record back, and encoding what was decoded gives the bytes back.
pub proof fn lemma_round_trip(id: LayoutId, e: Endian, hv: LinkHeaderView, bv: Seq<FieldView>)
    requires
        typed_fits(id, hv, bv),
    ensures
        decodable(id, e, typed_bytes(id, e, hv, bv).0, typed_bytes(id, e, hv, bv).1),
        forall|hv2: LinkHeaderView, bv2: Seq<FieldView>|
            typed_fits(id, hv2, bv2) && #[trigger] typed_bytes(id, e, hv2, bv2) == typed_bytes(
                id,
                e,
                hv,
                bv,
            ) ==> hv2 == hv && bv2 == bv,
{
    let (h, b) = typed_bytes(id, e, hv, bv);
    let bks = spec_body_kinds(id);
    assert(fields_decode_to(bks, e, b, bv));
    assert(b.subrange(0, b.len() as int) =~= b);
    assert(h.subrange(0, h.len() as int) =~= h);
    if let LinkHeaderView::Fields(fs) = hv {
        assert(fields_decode_to(spec_header_kinds(id)->0, e, h, fs));
    }
    assert forall|hv2: LinkHeaderView, bv2: Seq<FieldView>|
        typed_fits(id, hv2, bv2) && #[trigger] typed_bytes(id, e, hv2, bv2) == typed_bytes(
            id,
            e,
            hv,
            bv,
        ) implies hv2 == hv && bv2 == bv by {
        lemma_fields_unique(b, bv2, bv, bks, e);
        match (hv2, hv) {
            (LinkHeaderView::Fields(fs2), LinkHeaderView::Fields(fs)) => {
                lemma_fields_unique(h, fs2, fs, spec_header_kinds(id)->0, e);
            },
            _ => {},
        }
    }
}

/// Byte-order independence: the same fields, written once little-endian and once big-endian,
/// give two encodings each of which decodes to exactly those fields.
pub proof fn lemma_byte_order(id: LayoutId, hv: LinkHeaderView, bv: Seq<FieldView>)
    requires
        typed_fits(id, hv, bv),
    ensures
        decodable(
            id,
            Endian::Little,
            typed_bytes(id, Endian::Little, hv, bv).0,
            typed_bytes(id, Endian::Little, hv, bv).1,
        ),
        decodable(
            id,
            Endian::Big,
            typed_bytes(id, Endian::Big, hv, bv).0,
            typed_bytes(id, Endian::Big, hv, bv).1,
        ),
        forall|hv2: LinkHeaderView, bv2: Seq<FieldView>|
            typed_fits(id, hv2, bv2) && #[trigger] typed_bytes(id, Endian::Little, hv2, bv2)
                == typed_bytes(id, Endian::Little, hv, bv) ==> hv2 == hv && bv2 == bv,
        forall|hv2: LinkHeaderView, bv2: Seq<FieldView>|
            typed_fits(id, hv2, bv2) && #[trigger] typed_bytes(id, Endian::Big, hv2, bv2)
                == typed_bytes(id, Endian::Big, hv, bv) ==> hv2 == hv && bv2 == bv,
{
    lemma_round_trip(id, Endian::Little, hv, bv);
    lemma_round_trip(id, Endian::Big, hv, bv);
}

/// Fallback: an opaque record, which decoding makes of an entry with no registered layout, can
/// be written and holds exactly the bytes it was made of.
pub proof fn lemma_opaque_round_trip(h: Seq<u8>, b: Seq<u8>)
    ensures
        (RecordView::Opaque { link_header: h, body: b }).wf(),
        (RecordView::Opaque { link_header: h, body: b }).bytes() == (h, b),
{
}

} // verus!
