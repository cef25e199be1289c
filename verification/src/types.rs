use crate::consts::QOI_ISLAND_WORKERS;
use crate::error::Error;
use vstd::prelude::*;

verus! {

/// Number of 8-bit channels of a pixel.
#[derive(Clone, Copy, Debug, PartialEq, Eq, Structural)]
pub enum Channels {
    /// Three channels: red, green and blue.
    Rgb,
    /// Four channels: red, green, blue and alpha.
    Rgba,
}

impl Channels {
    /// The number of bytes one pixel takes in a raw pixel buffer.
    pub open spec fn count(self) -> int {
        match self {
            Channels::Rgb => 3,
            Channels::Rgba => 4,
        }
    }

    /// The channel count as a byte, as the header stores it.
    pub fn as_u8(self) -> (n: u8)
        ensures
            n == self.count(),
    {
        match self {
            Channels::Rgb => 3,
            Channels::Rgba => 4,
        }
    }

    /// The channel layout for a channel count; only 3 and 4 are valid.
    pub fn from_u8(value: u8) -> (r: Result<Channels, Error>)
        ensures
            value == 3 ==> r == Ok::<Channels, Error>(Channels::Rgb),
            value == 4 ==> r == Ok::<Channels, Error>(Channels::Rgba),
            value != 3 && value != 4 ==> r == Err::<Channels, Error>(
                Error::InvalidChannels { channels: value },
            ),
    {
        if value == 3 {
            Ok(Channels::Rgb)
        } else if value == 4 {
            Ok(Channels::Rgba)
        } else {
            Err(Error::InvalidChannels { channels: value })
        }
    }
}

impl Default for Channels {
    fn default() -> (r: Self)
        ensures
            r == Channels::Rgb,
    {
        Channels::Rgb
    }
}

/// Colour space tag of an image.
///
/// The tag is carried through the header unchanged and has no effect on how
/// pixels are encoded or decoded.
#[derive(Clone, Copy, Debug, PartialEq, Eq, Structural)]
pub struct ColorSpace {
    pub tag: u8,
}

impl ColorSpace {
    /// sRGB with linear alpha.
    pub fn srgb() -> (r: Self)
        ensures
            r.tag == 0,
    {
        ColorSpace { tag: 0 }
    }

    /// All channels linear.
    pub fn linear() -> (r: Self)
        ensures
            r.tag == 1,
    {
        ColorSpace { tag: 1 }
    }

    /// The colour space with the given tag.
    pub fn from_u8(tag: u8) -> (r: Self)
        ensures
            r.tag == tag,
    {
        ColorSpace { tag }
    }

    /// The tag as the header stores it.
    pub fn as_u8(self) -> (tag: u8)
        ensures
            tag == self.tag,
    {
        self.tag
    }
}

impl Default for ColorSpace {
    fn default() -> (r: Self)
        ensures
            r.tag == 0,
    {
        ColorSpace { tag: 0 }
    }
}

/// How the encoder computes the per-channel difference to the previous pixel.
#[derive(Clone, Copy, Debug, PartialEq, Eq, Structural)]
pub enum DiffPolicy {
    /// The true signed difference, between -255 and 255. A difference is
    /// encoded compactly only if it lies in the range of the op as it is.
    Canonical,
    /// The difference modulo 256, taken as a number between -128 and 127, so
    /// that a step from 255 to 0 counts as +1.
    Wrapping,
}

impl Default for DiffPolicy {
    fn default() -> (r: Self)
        ensures
            r == DiffPolicy::Canonical,
    {
        DiffPolicy::Canonical
    }
}

/// In what form the encoder keeps the islands it has found before it
/// writes their records.
#[derive(Clone, Copy, Debug, PartialEq, Eq, Structural)]
pub enum IslandStorage {
    /// As a list: every island that was found gets a record, also when
    /// another island has the same bounding box.
    List,
    /// As a set: each bounding box gets one record, at the place where it
    /// was found first.
    Distinct,
}

impl Default for IslandStorage {
    fn default() -> (r: Self)
        ensures
            r == IslandStorage::List,
    {
        IslandStorage::List
    }
}

/// The choices that decide what the encoder writes for an image.
///
/// Every choice gives an encoded image that decodes to the same pixels. The
/// choices differ in the bytes of the op stream and in the island records.
#[derive(Clone, Copy, Debug, PartialEq, Eq, Structural)]
pub struct Settings {
    /// How differences between pixels are measured.
    pub policy: DiffPolicy,
    /// Into how many row buckets the foreground points are split; the
    /// buckets are searched for islands side by side. At least one.
    pub workers: u32,
    /// In what form the islands are kept before they are written.
    pub storage: IslandStorage,
}

impl Settings {
    /// Whether the settings can be used: there is at least one row bucket.
    pub open spec fn valid(self) -> bool {
        self.workers > 0
    }
}

impl Default for Settings {
    fn default() -> (r: Self)
        ensures
            r == (Settings {
                policy: DiffPolicy::Canonical,
                workers: QOI_ISLAND_WORKERS,
                storage: IslandStorage::List,
            }),
    {
        Settings {
            policy: DiffPolicy::Canonical,
            workers: QOI_ISLAND_WORKERS,
            storage: IslandStorage::List,
        }
    }
}

} // verus!
