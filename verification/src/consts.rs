use vstd::prelude::*;

verus! {

/// Magic number at the start of every encoded image: the ASCII bytes `qoif`.
pub const QOI_MAGIC: u32 = 0x716f_6966;

/// Size of the encoded header in bytes.
pub const QOI_HEADER_SIZE: usize = 22;

/// Number of zero bytes that close the encoded image.
pub const QOI_PADDING_SIZE: usize = 8;

/// Largest pixel count an image may have.
///
/// With at most this many pixels the number of bytes that follow the
/// header, island records included, fits the 32-bit field of the header
/// that holds it, and the length of the whole encoded image is a `usize` on
/// every machine.
pub const QOI_PIXELS_MAX: usize = 200_000_000;

/// Number of slots of the index cache.
pub const QOI_INDEX_SIZE: usize = 64;

/// Longest run the encoder lets accumulate before it flushes.
pub const QOI_RUN_MAX: u32 = 62;

/// Longest run the run op can carry.
pub const QOI_RUN_OP_MAX: u32 = 64;

/// `00iiiiii`: the pixel in slot `i` of the index cache.
pub const QOI_OP_INDEX: u8 = 0x00;

/// `01nnnnnn`: a run of `n + 1` pixels equal to the previous one.
pub const QOI_OP_RUN: u8 = 0x40;

/// `10rrggbb`: deltas of -2..=1 on red, green and blue.
pub const QOI_OP_DIFF: u8 = 0x80;

/// `110rrrrr ggggbbbb`: a delta of -16..=15 on red, of -8..=7 on green and blue.
pub const QOI_OP_DIFF_WIDE: u8 = 0xc0;

/// `1110rrrr rgggggbb bbbaaaaa`: deltas of -16..=15 on all four channels.
pub const QOI_OP_DIFF_ALPHA: u8 = 0xe0;

/// `1111rgba`: a change mask, followed by one literal byte per changed channel.
pub const QOI_OP_COLOR: u8 = 0xf0;

/// Size of one encoded island record in bytes.
pub const QOI_ISLAND_SIZE: usize = 16;

/// Number of row buckets the foreground points are split into.
pub const QOI_ISLAND_WORKERS: u32 = 8;

} // verus!
