use crate::bytes::{be_bytes, be_value, lemma_be_round_trip, u32_from_be, u32_to_be};
use crate::consts::{QOI_HEADER_SIZE, QOI_MAGIC, QOI_PADDING_SIZE, QOI_PIXELS_MAX};
use crate::error::Error;
use crate::types::{Channels, ColorSpace};
use crate::utils::{clamp_usize, mul_u32};
use vstd::prelude::*;

verus! {

/// What the header of an encoded image says.
#[derive(Clone, Copy, Debug, PartialEq, Eq, Structural)]
pub struct Header {
    /// Width of the image in pixels.
    pub width: u32,
    /// Height of the image in pixels.
    pub height: u32,
    /// Number of channels of a pixel.
    pub channels: Channels,
    /// Colour space tag; it does not affect encoding or decoding.
    pub colorspace: ColorSpace,
    /// Number of bytes that follow the header: the op stream, the island
    /// records and the padding.
    pub n_encode: u32,
    /// Number of island records among them.
    pub n_islands: u32,
}

/// The most bytes an image of the given size can take without its island
/// records: the header, one op byte and one byte per channel for each pixel,
/// and the padding.
pub open spec fn max_len(width: u32, height: u32, channels: int) -> nat {
    (QOI_HEADER_SIZE + width * height * channels + width * height + QOI_PADDING_SIZE) as nat
}

/// The encoded form of a header: the magic number, the width, the height,
/// the channel count, the colour space tag, the number of bytes that follow
/// and the number of islands. Each number takes four bytes, most significant
/// first.
#[verifier::opaque]
pub open spec fn header_bytes(h: Header) -> Seq<u8> {
    be_bytes(QOI_MAGIC) + be_bytes(h.width) + be_bytes(h.height) + seq![
        h.channels.count() as u8,
        h.colorspace.tag,
    ] + be_bytes(h.n_encode) + be_bytes(h.n_islands)
}

/// What decoding the header at the start of `bytes` gives.
///
/// The checks come in this order: the length, the magic number, the channel
/// count, the pixel count.
pub open spec fn decode_header(bytes: Seq<u8>) -> Result<Header, Error> {
    let width = be_value(bytes, 4);
    let height = be_value(bytes, 8);
    if bytes.len() < QOI_HEADER_SIZE {
        Err(Error::UnexpectedEndOfStream)
    } else if be_value(bytes, 0) != QOI_MAGIC {
        Err(Error::InvalidMagic { magic: be_value(bytes, 0) })
    } else if bytes[12] != 3 && bytes[12] != 4 {
        Err(Error::InvalidChannels { channels: bytes[12] })
    } else if width * height == 0 || width * height > QOI_PIXELS_MAX {
        Err(Error::InvalidDimensions { width, height })
    } else {
        Ok(
            Header {
                width,
                height,
                channels: if bytes[12] == 3 {
                    Channels::Rgb
                } else {
                    Channels::Rgba
                },
                colorspace: ColorSpace { tag: bytes[13] },
                n_encode: be_value(bytes, 14),
                n_islands: be_value(bytes, 18),
            },
        )
    }
}

impl Header {
    /// The number of pixels the header declares.
    pub open spec fn pixel_count(self) -> int {
        self.width * self.height
    }

    /// Whether the header declares at least one pixel and no more than the
    /// format allows.
    pub open spec fn valid(self) -> bool {
        0 < self.pixel_count() <= QOI_PIXELS_MAX
    }

    /// Makes a header, unless the image is empty or has too many pixels.
    pub fn try_new(
        width: u32,
        height: u32,
        n_encode: u32,
        n_islands: u32,
        channels: Channels,
        colorspace: ColorSpace,
    ) -> (r: Result<Self, Error>)
        ensures
            width * height == 0 ==> r == Err::<Header, Error>(Error::EmptyImage { width, height }),
            width * height > QOI_PIXELS_MAX ==> r == Err::<Header, Error>(
                Error::InvalidDimensions { width, height },
            ),
            0 < width * height <= QOI_PIXELS_MAX ==> r == Ok::<Header, Error>(
                Header { width, height, channels, colorspace, n_encode, n_islands },
            ),
    {
        let n = mul_u32(width, height);
        if n == 0 {
            Err(Error::EmptyImage { width, height })
        } else if n > QOI_PIXELS_MAX as u64 {
            Err(Error::InvalidDimensions { width, height })
        } else {
            Ok(Header { width, height, channels, colorspace, n_encode, n_islands })
        }
    }

    /// The same header with another colour space tag.
    pub fn with_colorspace(self, colorspace: ColorSpace) -> (h: Self)
        ensures
            h == (Header { colorspace, ..self }),
    {
        Header { colorspace, ..self }
    }

    /// The number of pixels the header declares, or `usize::MAX` if that is
    /// smaller.
    pub fn n_pixels(&self) -> (n: usize)
        ensures
            n == clamp_usize(self.pixel_count() as nat),
    {
        let n = mul_u32(self.width, self.height);
        if n > usize::MAX as u64 {
            usize::MAX
        } else {
            n as usize
        }
    }

    /// The most bytes the encoded image can take without its island
    /// records, or `usize::MAX` if that is smaller.
    pub fn encode_max_len(&self) -> (n: usize)
        ensures
            n == clamp_usize(max_len(self.width, self.height, self.channels.count())),
    {
        let px = mul_u32(self.width, self.height) as u128;
        let raw = match self.channels {
            Channels::Rgb => px * 3,
            Channels::Rgba => px * 4,
        };
        let n = QOI_HEADER_SIZE as u128 + raw + px + QOI_PADDING_SIZE as u128;
        if n > usize::MAX as u128 {
            usize::MAX
        } else {
            n as usize
        }
    }

    /// Serialises the header.
    pub fn encode(&self) -> (out: [u8; 22])
        ensures
            out@ == header_bytes(*self),
    {
        let magic = u32_to_be(QOI_MAGIC);
        let width = u32_to_be(self.width);
        let height = u32_to_be(self.height);
        let n_encode = u32_to_be(self.n_encode);
        let n_islands = u32_to_be(self.n_islands);
        let out = [
            magic[0],
            magic[1],
            magic[2],
            magic[3],
            width[0],
            width[1],
            width[2],
            width[3],
            height[0],
            height[1],
            height[2],
            height[3],
            self.channels.as_u8(),
            self.colorspace.as_u8(),
            n_encode[0],
            n_encode[1],
            n_encode[2],
            n_encode[3],
            n_islands[0],
            n_islands[1],
            n_islands[2],
            n_islands[3],
        ];
        proof {
            reveal(header_bytes);
            assert(out@ =~= header_bytes(*self));
        }
        out
    }

    /// Reads the header at the start of `data`.
    pub fn decode(data: &[u8]) -> (r: Result<Self, Error>)
        ensures
            r == decode_header(data@),
    {
        if data.len() < QOI_HEADER_SIZE {
            return Err(Error::UnexpectedEndOfStream);
        }
        let magic = u32_from_be(data, 0);
        if magic != QOI_MAGIC {
            return Err(Error::InvalidMagic { magic });
        }
        let channels = match Channels::from_u8(data[12]) {
            Ok(c) => c,
            Err(e) => {
                return Err(e);
            },
        };
        let width = u32_from_be(data, 4);
        let height = u32_from_be(data, 8);
        let n = mul_u32(width, height);
        if n == 0 || n > QOI_PIXELS_MAX as u64 {
            return Err(Error::InvalidDimensions { width, height });
        }
        Ok(
            Header {
                width,
                height,
                channels,
                colorspace: ColorSpace::from_u8(data[13]),
                n_encode: u32_from_be(data, 14),
                n_islands: u32_from_be(data, 18),
            },
        )
    }
}

/// A header read back from its encoded form is the header, if it declares at
/// least one pixel and no more than the format allows.
pub proof fn lemma_header_round_trip(h: Header, bytes: Seq<u8>)
    requires
        h.valid(),
        bytes.len() >= QOI_HEADER_SIZE,
        bytes.subrange(0, QOI_HEADER_SIZE as int) == header_bytes(h),
    ensures
        decode_header(bytes) == Ok::<Header, Error>(h),
{
    reveal(header_bytes);
    let hb = header_bytes(h);
    assert forall|k: int| 0 <= k < 22 implies bytes[k] == hb[k] by {
        assert(bytes.subrange(0, QOI_HEADER_SIZE as int)[k] == bytes[k]);
    }
    assert(bytes.subrange(0, 4) =~= be_bytes(QOI_MAGIC));
    assert(bytes.subrange(4, 8) =~= be_bytes(h.width));
    assert(bytes.subrange(8, 12) =~= be_bytes(h.height));
    assert(bytes.subrange(14, 18) =~= be_bytes(h.n_encode));
    assert(bytes.subrange(18, 22) =~= be_bytes(h.n_islands));
    lemma_be_round_trip(QOI_MAGIC, bytes, 0);
    lemma_be_round_trip(h.width, bytes, 4);
    lemma_be_round_trip(h.height, bytes, 8);
    lemma_be_round_trip(h.n_encode, bytes, 14);
    lemma_be_round_trip(h.n_islands, bytes, 18);
    assert(bytes[12] == h.channels.count());
    assert(bytes[13] == h.colorspace.tag);
}

/// An encoded header is twenty-two bytes long.
pub proof fn lemma_header_len(h: Header)
    ensures
        header_bytes(h).len() == QOI_HEADER_SIZE,
{
    reveal(header_bytes);
}

} // verus!
