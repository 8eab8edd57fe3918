//! Decoding and re-encoding of bigfile archives: endian-aware primitives, the version-signature
//! dialects, raw entries and pools, the class/version/platform registry of record layouts, the
//! insertion-ordered map, and two of the format's three codecs: the LZ4-style block codec and the
//! LZO1X dictionary codec, each in a size/byte-order frame. Every decoder here is the exact
//! inverse of its encoder, so that an archive decoded and written back is byte-identical.
//!
//! The hybrid codec (match copies with adaptively entropy-coded literals) is not provided: its bit
//! format is not defined here, so frames of that kind cannot be read or written with this crate.
//! The compressors store their input as literals only; their frames decompress with any decoder of
//! the format, but they are a few bytes longer than the input.
pub mod binary;
pub mod codec;
pub mod error;
pub mod game_obj;
pub mod layout;
pub mod lz4;
pub mod map;
pub mod object;
pub mod platforms;
pub mod registry;
pub mod versions;
pub mod world_ref;
pub mod lzo;
