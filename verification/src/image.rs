use crate::bytes::cast_groups;
use vstd::prelude::*;

verus! {

/// A raw image as it comes from a picture file: its size, its channel count
/// and its pixel buffer.
#[derive(Clone)]
pub struct Image {
    pub width: u32,
    pub height: u32,
    pub channels: u8,
    pub data: Vec<u8>,
}

impl Image {
    /// The number of pixels of the image.
    pub fn n_pixels(&self) -> (n: usize)
        requires
            self.width * self.height <= usize::MAX,
        ensures
            n == self.width * self.height,
    {
        (self.width as usize) * (self.height as usize)
    }

    /// The number of bytes of the pixel buffer that goes with the size and
    /// the channel count of the image.
    pub fn n_bytes(&self) -> (n: usize)
        requires
            self.width * self.height * self.channels <= usize::MAX,
        ensures
            n == self.width * self.height * self.channels,
    {
        proof {
            let px = self.width * self.height;
            let c = self.channels as int;
            assert(c > 0 ==> px <= px * c) by (nonlinear_arith)
                requires
                    px >= 0,
                    c >= 0,
            ;
            assert(c == 0 ==> px * c == 0) by (nonlinear_arith);
        }
        if self.channels == 0 {
            0
        } else {
            self.n_pixels() * (self.channels as usize)
        }
    }
}

/// The red, green and blue bytes of a buffer of grey values: each grey
/// value three times.
pub open spec fn gray_as_rgb(buf: Seq<u8>) -> Seq<u8> {
    Seq::new(buf.len() * 3, |k: int| buf[k / 3])
}

/// The red, green, blue and alpha bytes of a buffer of pairs of a grey
/// value and an alpha: each grey value three times, then its alpha.
pub open spec fn gray_alpha_as_rgba(buf: Seq<u8>) -> Seq<u8> {
    Seq::new(
        buf.len() / 2 * 4,
        |k: int|
            if k % 4 < 3 {
                buf[k / 4 * 2]
            } else {
                buf[k / 4 * 2 + 1]
            },
    )
}

/// Turns a buffer of grey values into a buffer of three-channel pixels.
pub fn grayscale_to_rgb(buf: &[u8]) -> (out: Vec<u8>)
    ensures
        out@ == gray_as_rgb(buf@),
{
    let n = buf.len();
    let mut out: Vec<u8> = Vec::with_capacity(n);
    let mut i: usize = 0;
    while i < n
        invariant
            i <= n,
            n == buf.len(),
            out@ == gray_as_rgb(buf@.subrange(0, i as int)),
        decreases n - i,
    {
        let px = buf[i];
        let ghost before = out@;
        out.push(px);
        out.push(px);
        out.push(px);
        proof {
            let shorter = buf@.subrange(0, i as int);
            let longer = buf@.subrange(0, i + 1);
            assert forall|k: int| 0 <= k < out@.len() implies out@[k] == gray_as_rgb(longer)[k] by {
                if k < before.len() {
                    assert(before[k] == shorter[k / 3]);
                } else {
                    assert(k / 3 == i);
                }
            }
            assert(out@ =~= gray_as_rgb(longer));
        }
        i = i + 1;
    }
    proof {
        assert(buf@.subrange(0, n as int) =~= buf@);
    }
    out
}

/// Turns a buffer of pairs of a grey value and an alpha into a buffer of
/// four-channel pixels. The buffer must hold whole pairs.
pub fn grayscale_alpha_to_rgba(buf: &[u8]) -> (out: Vec<u8>)
    requires
        buf.len() % 2 == 0,
    ensures
        out@ == gray_alpha_as_rgba(buf@),
{
    let pairs = cast_groups::<2>(buf);
    let n = pairs.len();
    let mut out: Vec<u8> = Vec::with_capacity(n);
    let mut i: usize = 0;
    while i < n
        invariant
            i <= n,
            n == pairs@.len(),
            n == buf@.len() as int / 2,
            buf.len() % 2 == 0,
            forall|a: int, b: int|
                0 <= a < pairs@.len() && 0 <= b < 2 ==> (#[trigger] pairs@[a]@[b]) == buf@[a * 2
                    + b],
            out@.len() == i * 4,
            forall|k: int| 0 <= k < out@.len() ==> out@[k] == gray_alpha_as_rgba(buf@)[k],
        decreases n - i,
    {
        let px = &pairs[i];
        let gray = px[0];
        let alpha = px[1];
        proof {
            assert(pairs@[i as int]@[0] == buf@[i * 2 + 0]);
            assert(pairs@[i as int]@[1] == buf@[i * 2 + 1]);
        }
        let ghost before = out@;
        out.push(gray);
        out.push(gray);
        out.push(gray);
        out.push(alpha);
        proof {
            assert forall|k: int| 0 <= k < out@.len() implies out@[k] == gray_alpha_as_rgba(
                buf@,
            )[k] by {
                if k < before.len() {
                    assert(out@[k] == before[k]);
                } else {
                    assert(k / 4 == i);
                }
            }
        }
        i = i + 1;
    }
    proof {
        assert(out@ =~= gray_alpha_as_rgba(buf@));
    }
    out
}

} // verus!
