use vstd::prelude::*;

verus! {

/// Everything that can go wrong while reading or writing a tag stream.
#[derive(Clone, Copy, Debug, PartialEq, Eq, Structural)]
pub enum Error {
    /// The stream ended before the bytes a field needs were available.
    ShortRead,
    /// A length-prefixed text field does not hold valid UTF-8.
    MalformedText,
    /// A length is negative on the wire, or too large to be written.
    InvalidLength,
    /// A type identifier outside the known set was met.
    UnknownTag(u8),
    /// The stream does not start with a Compound.
    NoRootCompound,
    /// A List holds elements of different types.
    HeterogeneousList,
    /// A Compound handed to the document holds two entries of one name.
    DuplicateName,
    /// A compressed stream could not be inflated.
    Compression,
}

} // verus!
