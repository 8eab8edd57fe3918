use vstd::prelude::*;

use crate::binary::{copy_bytes, copy_words, Endian};
use crate::error::Error;
use crate::layout::{fields_bytes, fields_fit, views, write_fields, FieldKind, FieldValue, FieldView};
use crate::registry::{
    body_kinds, decode_fields, fields_decodable, fields_decode_to, header_kinds, kinds_ok,
    spec_body_kinds, spec_header_kinds, LayoutId,
};

verus! {

/// The link header of a world reference: placement, flags and type of the object. Floats are
/// held as their bits.
#[derive(Debug, PartialEq, Eq)]
pub struct LinkHeader {
    pub link_name: u32,
    pub data_name: u32,
    /// A quaternion: four float bit patterns.
    pub rot: Vec<u32>,
    /// A 4x4 matrix: sixteen float bit patterns.
    pub transform: Vec<u32>,
    /// A float bit pattern.
    pub radius: u32,
    /// The object flags, padding bits included.
    pub flags: u32,
    /// The object type: 0 to 26, but for 8.
    pub object_type: u16,
}

impl LinkHeader {
    /// The fields in wire order.
    pub open spec fn spec_fields(&self) -> Seq<FieldView> {
        seq![
            FieldView::Word(self.link_name),
            FieldView::Word(self.data_name),
            FieldView::Words(self.rot@),
            FieldView::Words(self.transform@),
            FieldView::Word(self.radius),
            FieldView::Word(self.flags),
            FieldView::Half(self.object_type),
        ]
    }

    /// Reads the whole of `buf` in byte order `e`. Fails exactly where no value has those bytes.
    pub fn read(buf: &Vec<u8>, e: Endian) -> (r: Result<LinkHeader, Error>)
        ensures
            match r {
                Ok(v) => fields_decode_to(spec_header_kinds(LayoutId::WorldRefV1_381_67_09PC)->0, e, buf@, v.spec_fields()),
                Err(err) => !fields_decodable(spec_header_kinds(LayoutId::WorldRefV1_381_67_09PC)->0, e, buf@) && (err
                    == Error::TruncatedInput || err == Error::SizeMismatch || err == Error::MalformedHeader),
            },
    {
        let ks = world_ref_header_kinds();
        proof {
            assert(kinds_ok(ks@));
        }
        match decode_fields(buf, &ks, e) {
            Ok(fs) => Ok(Self::from_fields(&fs)),
            Err(err) => Err(err),
        }
    }

    /// The value whose fields are `fs`.
    pub fn from_fields(fs: &Vec<FieldValue>) -> (r: LinkHeader)
        requires
            fs@.len() == spec_header_kinds(LayoutId::WorldRefV1_381_67_09PC)->0.len(),
            fields_fit(views(fs@), spec_header_kinds(LayoutId::WorldRefV1_381_67_09PC)->0),
        ensures
            r.spec_fields() == views(fs@),
    {
        proof {
            assert(views(fs@)[0] == fs@[0]@);
            assert(views(fs@)[1] == fs@[1]@);
            assert(views(fs@)[2] == fs@[2]@);
            assert(views(fs@)[3] == fs@[3]@);
            assert(views(fs@)[4] == fs@[4]@);
            assert(views(fs@)[5] == fs@[5]@);
            assert(views(fs@)[6] == fs@[6]@);
        }
        let link_name = match &fs[0] {
            FieldValue::Word(x) => *x,
            _ => 0,
        };
        let data_name = match &fs[1] {
            FieldValue::Word(x) => *x,
            _ => 0,
        };
        let rot = match &fs[2] {
            FieldValue::Words(v) => copy_words(v),
            _ => Vec::new(),
        };
        let transform = match &fs[3] {
            FieldValue::Words(v) => copy_words(v),
            _ => Vec::new(),
        };
        let radius = match &fs[4] {
            FieldValue::Word(x) => *x,
            _ => 0,
        };
        let flags = match &fs[5] {
            FieldValue::Word(x) => *x,
            _ => 0,
        };
        let object_type = match &fs[6] {
            FieldValue::Half(x) => *x,
            _ => 0,
        };
        let r = LinkHeader { link_name, data_name, rot, transform, radius, flags, object_type };
        assert(r.spec_fields() =~= views(fs@));
        r
    }

    /// The fields of the value, in wire order.
    pub fn to_fields(&self) -> (r: Vec<FieldValue>)
        ensures
            views(r@) == self.spec_fields(),
    {
        let mut fs: Vec<FieldValue> = Vec::new();
        fs.push(FieldValue::Word(self.link_name));
        fs.push(FieldValue::Word(self.data_name));
        fs.push(FieldValue::Words(copy_words(&self.rot)));
        fs.push(FieldValue::Words(copy_words(&self.transform)));
        fs.push(FieldValue::Word(self.radius));
        fs.push(FieldValue::Word(self.flags));
        fs.push(FieldValue::Half(self.object_type));
        assert(views(fs@) =~= self.spec_fields());
        fs
    }

    /// Writes the value in byte order `e`.
    pub fn write(&self, e: Endian) -> (r: Vec<u8>)
        requires
            fields_fit(self.spec_fields(), spec_header_kinds(LayoutId::WorldRefV1_381_67_09PC)->0),
        ensures
            r@ == fields_bytes(self.spec_fields(), spec_header_kinds(LayoutId::WorldRefV1_381_67_09PC)->0, e),
    {
        let fs = self.to_fields();
        let ks = world_ref_header_kinds();
        let mut out: Vec<u8> = Vec::new();
        write_fields(&mut out, &fs, &ks, e);
        assert(out@ =~= fields_bytes(self.spec_fields(), spec_header_kinds(LayoutId::WorldRefV1_381_67_09PC)->0, e));
        out
    }
}

/// The body of a world reference of format version 1.381.67.09 on PC.
#[derive(Debug, PartialEq, Eq)]
pub struct WorldRefBodyV1_381_67_09PC {
    pub node_name0: u32,
    pub warp_name: u32,
    pub game_obj_name: u32,
    pub unused14: u32,
    pub gen_world_name: u32,
    pub node_name1: u32,
    pub unused17s: Vec<u32>,
    pub unuseds: Vec<u8>,
    /// 4x4 matrices, sixteen float bit patterns each.
    pub mats: Vec<u32>,
    /// Three float bit patterns.
    pub point_a: Vec<u32>,
    /// Three float bit patterns.
    pub point_b: Vec<u32>,
    /// Pairs of words.
    pub uuid_pairs: Vec<u32>,
    /// A length-prefixed string, byte for byte.
    pub init_script: Vec<u8>,
    pub node_name2: Vec<u32>,
    pub zero: u32,
}

impl WorldRefBodyV1_381_67_09PC {
    /// The fields in wire order.
    pub open spec fn spec_fields(&self) -> Seq<FieldView> {
        seq![
            FieldView::Word(self.node_name0),
            FieldView::Word(self.warp_name),
            FieldView::Word(self.game_obj_name),
            FieldView::Word(self.unused14),
            FieldView::Word(self.gen_world_name),
            FieldView::Word(self.node_name1),
            FieldView::DynWords(self.unused17s@),
            FieldView::DynBytes(self.unuseds@),
            FieldView::DynWords(self.mats@),
            FieldView::Words(self.point_a@),
            FieldView::Words(self.point_b@),
            FieldView::DynWords(self.uuid_pairs@),
            FieldView::DynBytes(self.init_script@),
            FieldView::DynWords(self.node_name2@),
            FieldView::Word(self.zero),
        ]
    }

    /// Reads the whole of `buf` in byte order `e`. Fails exactly where no value has those bytes.
    pub fn read(buf: &Vec<u8>, e: Endian) -> (r: Result<WorldRefBodyV1_381_67_09PC, Error>)
        ensures
            match r {
                Ok(v) => fields_decode_to(spec_body_kinds(LayoutId::WorldRefV1_381_67_09PC), e, buf@, v.spec_fields()),
                Err(err) => !fields_decodable(spec_body_kinds(LayoutId::WorldRefV1_381_67_09PC), e, buf@) && (err
                    == Error::TruncatedInput || err == Error::SizeMismatch || err == Error::MalformedHeader),
            },
    {
        let ks = body_kinds(LayoutId::WorldRefV1_381_67_09PC);
        proof {
            assert(kinds_ok(ks@));
        }
        match decode_fields(buf, &ks, e) {
            Ok(fs) => Ok(Self::from_fields(&fs)),
            Err(err) => Err(err),
        }
    }

    /// The value whose fields are `fs`.
    pub fn from_fields(fs: &Vec<FieldValue>) -> (r: WorldRefBodyV1_381_67_09PC)
        requires
            fs@.len() == spec_body_kinds(LayoutId::WorldRefV1_381_67_09PC).len(),
            fields_fit(views(fs@), spec_body_kinds(LayoutId::WorldRefV1_381_67_09PC)),
        ensures
            r.spec_fields() == views(fs@),
    {
        proof {
            assert(views(fs@)[0] == fs@[0]@);
            assert(views(fs@)[1] == fs@[1]@);
            assert(views(fs@)[2] == fs@[2]@);
            assert(views(fs@)[3] == fs@[3]@);
            assert(views(fs@)[4] == fs@[4]@);
            assert(views(fs@)[5] == fs@[5]@);
            assert(views(fs@)[6] == fs@[6]@);
            assert(views(fs@)[7] == fs@[7]@);
            assert(views(fs@)[8] == fs@[8]@);
            assert(views(fs@)[9] == fs@[9]@);
            assert(views(fs@)[10] == fs@[10]@);
            assert(views(fs@)[11] == fs@[11]@);
            assert(views(fs@)[12] == fs@[12]@);
            assert(views(fs@)[13] == fs@[13]@);
            assert(views(fs@)[14] == fs@[14]@);
        }
        let node_name0 = match &fs[0] {
            FieldValue::Word(x) => *x,
            _ => 0,
        };
        let warp_name = match &fs[1] {
            FieldValue::Word(x) => *x,
            _ => 0,
        };
        let game_obj_name = match &fs[2] {
            FieldValue::Word(x) => *x,
            _ => 0,
        };
        let unused14 = match &fs[3] {
            FieldValue::Word(x) => *x,
            _ => 0,
        };
        let gen_world_name = match &fs[4] {
            FieldValue::Word(x) => *x,
            _ => 0,
        };
        let node_name1 = match &fs[5] {
            FieldValue::Word(x) => *x,
            _ => 0,
        };
        let unused17s = match &fs[6] {
            FieldValue::DynWords(v) => copy_words(v),
            _ => Vec::new(),
        };
        let unuseds = match &fs[7] {
            FieldValue::DynBytes(v) => copy_bytes(v),
            _ => Vec::new(),
        };
        let mats = match &fs[8] {
            FieldValue::DynWords(v) => copy_words(v),
            _ => Vec::new(),
        };
        let point_a = match &fs[9] {
            FieldValue::Words(v) => copy_words(v),
            _ => Vec::new(),
        };
        let point_b = match &fs[10] {
            FieldValue::Words(v) => copy_words(v),
            _ => Vec::new(),
        };
        let uuid_pairs = match &fs[11] {
            FieldValue::DynWords(v) => copy_words(v),
            _ => Vec::new(),
        };
        let init_script = match &fs[12] {
            FieldValue::DynBytes(v) => copy_bytes(v),
            _ => Vec::new(),
        };
        let node_name2 = match &fs[13] {
            FieldValue::DynWords(v) => copy_words(v),
            _ => Vec::new(),
        };
        let zero = match &fs[14] {
            FieldValue::Word(x) => *x,
            _ => 0,
        };
        let r = WorldRefBodyV1_381_67_09PC { node_name0, warp_name, game_obj_name, unused14, gen_world_name, node_name1, unused17s, unuseds, mats, point_a, point_b, uuid_pairs, init_script, node_name2, zero };
        assert(r.spec_fields() =~= views(fs@));
        r
    }

    /// The fields of the value, in wire order.
    pub fn to_fields(&self) -> (r: Vec<FieldValue>)
        ensures
            views(r@) == self.spec_fields(),
    {
        let mut fs: Vec<FieldValue> = Vec::new();
        fs.push(FieldValue::Word(self.node_name0));
        fs.push(FieldValue::Word(self.warp_name));
        fs.push(FieldValue::Word(self.game_obj_name));
        fs.push(FieldValue::Word(self.unused14));
        fs.push(FieldValue::Word(self.gen_world_name));
        fs.push(FieldValue::Word(self.node_name1));
        fs.push(FieldValue::DynWords(copy_words(&self.unused17s)));
        fs.push(FieldValue::DynBytes(copy_bytes(&self.unuseds)));
        fs.push(FieldValue::DynWords(copy_words(&self.mats)));
        fs.push(FieldValue::Words(copy_words(&self.point_a)));
        fs.push(FieldValue::Words(copy_words(&self.point_b)));
        fs.push(FieldValue::DynWords(copy_words(&self.uuid_pairs)));
        fs.push(FieldValue::DynBytes(copy_bytes(&self.init_script)));
        fs.push(FieldValue::DynWords(copy_words(&self.node_name2)));
        fs.push(FieldValue::Word(self.zero));
        assert(views(fs@) =~= self.spec_fields());
        fs
    }

    /// Writes the value in byte order `e`.
    pub fn write(&self, e: Endian) -> (r: Vec<u8>)
        requires
            fields_fit(self.spec_fields(), spec_body_kinds(LayoutId::WorldRefV1_381_67_09PC)),
        ensures
            r@ == fields_bytes(self.spec_fields(), spec_body_kinds(LayoutId::WorldRefV1_381_67_09PC), e),
    {
        let fs = self.to_fields();
        let ks = body_kinds(LayoutId::WorldRefV1_381_67_09PC);
        let mut out: Vec<u8> = Vec::new();
        write_fields(&mut out, &fs, &ks, e);
        assert(out@ =~= fields_bytes(self.spec_fields(), spec_body_kinds(LayoutId::WorldRefV1_381_67_09PC), e));
        out
    }
}

impl LinkHeader {
    /// The named object flag at `bit`: bit 0 is the init flag, bit 16 the last flag.
    pub fn flag(&self, bit: u32) -> (r: bool)
        requires
            bit < 17,
        ensures
            r == ((self.flags >> bit) & 1 == 1),
    {
        (self.flags >> bit) & 1 == 1
    }

    /// The fifteen padding bits above the named flags, kept as they were read.
    pub fn flag_padding(&self) -> (r: u32)
        ensures
            r == self.flags >> 17,
    {
        self.flags >> 17
    }
}

fn world_ref_header_kinds() -> (r: Vec<FieldKind>)
    ensures
        r@ == spec_header_kinds(LayoutId::WorldRefV1_381_67_09PC)->0,
{
    match header_kinds(LayoutId::WorldRefV1_381_67_09PC) {
        Some(v) => v,
        None => Vec::new(),
    }
}

} // verus!
