use vstd::prelude::*;

use crate::binary::Endian;

verus! {

/// The machine an archive was built for.
#[derive(Clone, Copy, Debug, PartialEq, Eq, Structural)]
pub enum Platform {
    PC,
    UWP,
    Maci,
    PS2,
    PS3,
    PSP,
    Xenon,
    Wii,
}

/// The byte order of the platform's processor.
pub open spec fn spec_platform_to_endian(platform: Platform) -> Endian {
    match platform {
        Platform::PS3 | Platform::Xenon | Platform::Wii => Endian::Big,
        _ => Endian::Little,
    }
}

/// The byte order in which records built for `platform` are stored.
pub fn platform_to_endian(platform: Platform) -> (r: Endian)
    ensures
        r == spec_platform_to_endian(platform),
{
    match platform {
        Platform::PS3 | Platform::Xenon | Platform::Wii => Endian::Big,
        _ => Endian::Little,
    }
}

} // verus!
