use vstd::prelude::*;

verus! {

/// Why decoding an archive, an entry or a record failed.
#[derive(Clone, Copy, Debug, PartialEq, Eq, Structural)]
pub enum Error {
    /// A header is not understood: the archive header, or a header field holding a value that
    /// the format does not list.
    MalformedHeader,
    /// The buffer ended before a declared field or token could be read.
    TruncatedInput,
    /// A declared length disagrees with the actual one.
    SizeMismatch,
    /// A back-reference points outside the available history.
    InvalidBackReference,
}

} // verus!
