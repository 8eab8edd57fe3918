use vstd::prelude::*;

use crate::binary::{
    dyn_words_bytes, dyn_words_wf, read_dyn_words, starts_with, write_dyn_words, Endian,
};
use crate::error::Error;
use crate::object::Object;
use crate::platforms::{platform_to_endian, spec_platform_to_endian, Platform};
use crate::versions::Version;

verus! {

/// A game object of format version 1.291.03.06 on PC: the name hashes of its nodes.
#[derive(Debug, PartialEq, Eq)]
pub struct GameObjV1_291_03_06PC {
    pub node_crc32s: Vec<u32>,
}

impl GameObjV1_291_03_06PC {
    /// The body bytes: a count, then one name hash per node.
    pub open spec fn spec_bytes(&self, e: Endian) -> Seq<u8> {
        dyn_words_bytes(self.node_crc32s@, 1, e)
    }

    /// Reads the game object from the body of `object`, in the byte order of `platform`; the node
    /// list must be the whole body, so that the object writes back to it. The link header is not
    /// read: it stays with the entry, whose data is that link header followed by what `write`
    /// gives for the object (and with the record that `decode_record` makes). Fails with
    /// `TruncatedInput` exactly where no list of node names begins the body, and with
    /// `SizeMismatch` where one does but bytes follow it.
    pub fn try_from_version_platform(object: &Object, version: &Version, platform: Platform) -> (r:
        Result<GameObjV1_291_03_06PC, Error>)
        requires
            object.wf(),
        ensures
            ({
                let body = object.data@.subrange(
                    object.link_header_size as int,
                    object.data@.len() as int,
                );
                let e = spec_platform_to_endian(platform);
                match r {
                    Ok(g) => {
                        &&& dyn_words_wf(g.node_crc32s@, 1)
                        &&& g.spec_bytes(e) == body
                        &&& object.data@ == object.data@.subrange(
                            0,
                            object.link_header_size as int,
                        ) + g.spec_bytes(e)
                    },
                    Err(err) => {
                        ||| (err == Error::TruncatedInput && forall|s: Seq<u32>|
                            dyn_words_wf(s, 1) ==> !starts_with(
                                body,
                                #[trigger] dyn_words_bytes(s, 1, e),
                            ))
                        ||| (err == Error::SizeMismatch && exists|s: Seq<u32>|
                            dyn_words_wf(s, 1) && starts_with(body, #[trigger] dyn_words_bytes(s, 1, e))
                                && dyn_words_bytes(s, 1, e).len() < body.len())
                    },
                }
            }),
    {
        let body = object.body();
        let e = platform_to_endian(platform);
        proof {
            assert(body@.subrange(0, body@.len() as int) =~= body@);
        }
        match read_dyn_words(body.as_slice(), 0, 1, e) {
            Ok((v, end)) => {
                if end != body.len() {
                    return Err(Error::SizeMismatch);
                }
                proof {
                    assert(body@.subrange(0, end as int) =~= body@);
                }
                proof {
                    assert(object.data@ =~= object.data@.subrange(0, object.link_header_size as int)
                        + body@);
                }
                Ok(GameObjV1_291_03_06PC { node_crc32s: v })
            },
            Err(err) => Err(err),
        }
    }

    /// The body bytes of the object in byte order `e`: the node count, then the name hashes.
    pub fn write(&self, e: Endian) -> (r: Vec<u8>)
        requires
            dyn_words_wf(self.node_crc32s@, 1),
        ensures
            r@ == self.spec_bytes(e),
    {
        let mut out: Vec<u8> = Vec::new();
        write_dyn_words(&mut out, &self.node_crc32s, 1, e);
        assert(out@ =~= self.spec_bytes(e));
        out
    }
}

} // verus!
