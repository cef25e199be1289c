use vstd::prelude::*;

verus! {

/// Everything that can go wrong while encoding or decoding.
#[derive(Clone, Copy, Debug, PartialEq, Eq, Structural)]
pub enum Error {
    /// The stream does not start with the magic number.
    InvalidMagic { magic: u32 },
    /// The channel count is neither 3 nor 4.
    InvalidChannels { channels: u8 },
    /// The header declares more pixels than the format allows, or none.
    InvalidDimensions { width: u32, height: u32 },
    /// The image to encode has a width or a height of zero.
    EmptyImage { width: u32, height: u32 },
    /// The pixel buffer is not a whole number of bytes per pixel long.
    BadEncodingDataSize { size: usize, width: u32, height: u32 },
    /// The output does not fit into the storage it was to be written to.
    OutputBufferTooSmall { size: usize, required: usize },
    /// Fewer island records follow the pixel ops than the header declares.
    IslandRecordTruncated { expected: u32, found: u32 },
    /// The stream ends before the declared content, or an op overruns it.
    UnexpectedEndOfStream,
}

} // verus!
