use vstd::prelude::*;

verus! {

/// Why an operation on a container stopped.
#[derive(Clone, Copy, Debug, PartialEq, Eq, Structural)]
pub enum CisoError {
    /// The magic tag is wrong, the header or its index is cut short, or two
    /// neighbouring index entries run backwards.
    Format,
    /// The block size is zero, the stream length is no whole number of
    /// blocks, or the alignment exponent is above 31.
    Geometry,
    /// A stored block reaches past the end of the container.
    Io,
    /// A stored block does not inflate to exactly one block of bytes.
    Decompress,
    /// The deflater refused a block.
    Compress,
    /// The container would need an offset that does not fit in 31 bits.
    TooLarge,
}

/// The description of each error.
pub open spec fn message_of(e: CisoError) -> Seq<char> {
    match e {
        CisoError::Format => "malformed container header"@,
        CisoError::Geometry => "invalid block geometry"@,
        CisoError::Io => "block lies outside the container"@,
        CisoError::Decompress => "block does not inflate to one block"@,
        CisoError::Compress => "block could not be deflated"@,
        CisoError::TooLarge => "container offsets exceed 31 bits"@,
    }
}

impl CisoError {
    /// A short description of the error.
    pub fn message(&self) -> (s: &'static str)
        ensures
            s@ == message_of(*self),
    {
        match self {
            CisoError::Format => "malformed container header",
            CisoError::Geometry => "invalid block geometry",
            CisoError::Io => "block lies outside the container",
            CisoError::Decompress => "block does not inflate to one block",
            CisoError::Compress => "block could not be deflated",
            CisoError::TooLarge => "container offsets exceed 31 bits",
        }
    }
}

} // verus!
