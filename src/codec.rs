use vstd::prelude::*;

use crate::binary::Endian;

verus! {

/// The byte order that a compression command writes or reads the frame header in.
#[derive(Clone, Copy, Debug, PartialEq, Eq, Structural)]
pub enum LzEndian {
    Big,
    Little,
}

/// The compression algorithms of the archive format.
#[derive(Clone, Copy, Debug, PartialEq, Eq, Structural)]
pub enum LzAlgorithm {
    Lzrs,
    Lzo,
    Lz4,
}

pub open spec fn spec_lz_endian(e: LzEndian) -> Endian {
    match e {
        LzEndian::Big => Endian::Big,
        LzEndian::Little => Endian::Little,
    }
}

/// The byte order that `e` names.
pub fn lz_endian_to_endian(e: LzEndian) -> (r: Endian)
    ensures
        r == spec_lz_endian(e),
{
    match e {
        LzEndian::Big => Endian::Big,
        LzEndian::Little => Endian::Little,
    }
}

} // verus!
