use crate::consts::{QOI_OP_COLOR, QOI_OP_DIFF, QOI_OP_DIFF_ALPHA, QOI_OP_DIFF_WIDE};
use crate::error::Error;
use crate::types::{Channels, DiffPolicy};
use crate::utils::Writer;
use vstd::prelude::*;
use vstd::slice::slice_subrange;

verus! {

/// One pixel: red, green, blue and alpha.
///
/// A pixel read from a three-channel buffer is fully opaque: its alpha is 255.
/// Two pixels are equal if all four bytes are.
#[derive(Clone, Copy, Debug, PartialEq, Eq, Structural)]
pub struct Pixel {
    pub r: u8,
    pub g: u8,
    pub b: u8,
    pub a: u8,
}

/// The byte that is congruent to `x` modulo 256, for `x` between -256 and 511.
pub open spec fn wrap_u8(x: int) -> u8 {
    if x < 0 {
        (x + 256) as u8
    } else if x > 255 {
        (x - 256) as u8
    } else {
        x as u8
    }
}

/// The difference from `prev` to `cur` as the policy measures it.
///
/// Whatever the policy, `prev` plus the difference is `cur` modulo 256.
pub open spec fn delta(policy: DiffPolicy, cur: u8, prev: u8) -> int {
    let d = cur - prev;
    match policy {
        DiffPolicy::Canonical => d,
        DiffPolicy::Wrapping => if d >= 128 {
            d - 256
        } else if d < -128 {
            d + 256
        } else {
            d
        },
    }
}

/// Whether `v` lies in the symmetric range `-bound .. bound`.
pub open spec fn fits(v: int, bound: int) -> bool {
    -bound <= v < bound
}

/// The colour op for `px` after `prev`: a mask of the channels that differ,
/// then the new value of each of them, in the order red, green, blue, alpha.
pub open spec fn color_op(px: Pixel, prev: Pixel) -> Seq<u8> {
    let mask = (if px.r != prev.r { 8int } else { 0 }) + (if px.g != prev.g { 4int } else { 0 })
        + (if px.b != prev.b { 2int } else { 0 }) + (if px.a != prev.a { 1int } else { 0 });
    seq![(QOI_OP_COLOR + mask) as u8]
        + (if px.r != prev.r { seq![px.r] } else { Seq::<u8>::empty() })
        + (if px.g != prev.g { seq![px.g] } else { Seq::<u8>::empty() })
        + (if px.b != prev.b { seq![px.b] } else { Seq::<u8>::empty() })
        + (if px.a != prev.a { seq![px.a] } else { Seq::<u8>::empty() })
}

/// The op that encodes `px` after `prev` when `px` is neither part of a run
/// nor found in the index cache.
///
/// The narrowest op whose ranges hold all four differences is chosen: one
/// byte, then two, then three; a pixel that fits none of them is written as
/// a colour op.
#[verifier::opaque]
pub open spec fn diff_op(policy: DiffPolicy, px: Pixel, prev: Pixel) -> Seq<u8> {
    let vr = delta(policy, px.r, prev.r);
    let vg = delta(policy, px.g, prev.g);
    let vb = delta(policy, px.b, prev.b);
    let va = delta(policy, px.a, prev.a);
    if fits(vr, 16) && fits(vg, 16) && fits(vb, 16) && fits(va, 16) {
        if va == 0 && fits(vr, 2) && fits(vg, 2) && fits(vb, 2) {
            seq![(QOI_OP_DIFF + (vr + 2) * 16 + (vg + 2) * 4 + (vb + 2)) as u8]
        } else if va == 0 && fits(vg, 8) && fits(vb, 8) {
            seq![(QOI_OP_DIFF_WIDE + (vr + 16)) as u8, ((vg + 8) * 16 + (vb + 8)) as u8]
        } else {
            let bits = (vr + 16) * 32768 + (vg + 16) * 1024 + (vb + 16) * 32 + (va + 16);
            seq![
                (QOI_OP_DIFF_ALPHA + bits / 65536) as u8,
                (bits / 256 % 256) as u8,
                (bits % 256) as u8,
            ]
        }
    } else {
        color_op(px, prev)
    }
}

impl Pixel {
    /// The pixel with all four bytes zero.
    pub fn new() -> (p: Self)
        ensures
            p == (Pixel { r: 0, g: 0, b: 0, a: 0 }),
    {
        Pixel { r: 0, g: 0, b: 0, a: 0 }
    }

    /// The same colour with another alpha.
    pub fn with_a(self, a: u8) -> (p: Self)
        ensures
            p == (Pixel { r: self.r, g: self.g, b: self.b, a }),
    {
        Pixel { r: self.r, g: self.g, b: self.b, a }
    }

    /// Pixel number `i` of a raw pixel buffer.
    pub open spec fn at(data: Seq<u8>, i: int, channels: Channels) -> Pixel {
        let o = i * channels.count();
        Pixel {
            r: data[o],
            g: data[o + 1],
            b: data[o + 2],
            a: if channels == Channels::Rgba {
                data[o + 3]
            } else {
                255
            },
        }
    }

    /// Whether pixel number `i` of a raw pixel buffer is background: all its
    /// bytes are zero.
    pub open spec fn is_background(data: Seq<u8>, i: int, channels: Channels) -> bool {
        let o = i * channels.count();
        data[o] == 0 && data[o + 1] == 0 && data[o + 2] == 0 && (channels == Channels::Rgba
            ==> data[o + 3] == 0)
    }

    /// Reads the pixel that starts at byte `offset` of a raw pixel buffer.
    pub fn read(data: &[u8], offset: usize, channels: Channels) -> (p: Self)
        requires
            offset + channels.count() <= data.len(),
        ensures
            p.r == data@[offset as int],
            p.g == data@[offset + 1],
            p.b == data@[offset + 2],
            p.a == if channels == Channels::Rgba {
                data@[offset + 3]
            } else {
                255u8
            },
    {
        let a = match channels {
            Channels::Rgb => 255,
            Channels::Rgba => data[offset + 3],
        };
        Pixel { r: data[offset], g: data[offset + 1], b: data[offset + 2], a }
    }

    /// The slot of the index cache that belongs to this pixel.
    pub open spec fn hash(self) -> int {
        (self.r * 3 + self.g * 5 + self.b * 7 + self.a * 11) % 64
    }

    /// Computes the slot of the index cache that belongs to this pixel.
    pub fn hash_index(self) -> (h: u8)
        ensures
            h == self.hash(),
            h < 64,
    {
        let s: u32 = self.r as u32 * 3 + self.g as u32 * 5 + self.b as u32 * 7 + self.a as u32
            * 11;
        (s % 64) as u8
    }

    /// Writes the op that encodes this pixel after `px_prev` when it is
    /// neither part of a run nor found in the index cache. Either the whole
    /// op is written or nothing.
    pub fn encode_into<W: Writer>(self, px_prev: Pixel, policy: DiffPolicy, buf: W) -> (r: Result<
        W,
        Error,
    >)
        ensures
            r is Ok <==> buf.room() >= diff_op(policy, self, px_prev).len(),
            r matches Ok(w) ==> w.written() == buf.written() + diff_op(policy, self, px_prev)
                && w.room() == buf.room() - diff_op(policy, self, px_prev).len(),
            r matches Err(e) ==> e == (Error::OutputBufferTooSmall {
                size: buf.room() as usize,
                required: diff_op(policy, self, px_prev).len() as usize,
            }),
    {
        let (op, len) = diff_bytes(policy, self, px_prev);
        let bytes = slice_subrange(op.as_slice(), 0, len);
        buf.write_many(bytes)
    }
}

/// Lays out the colour op for `px` after `prev` at the start of an array.
fn color_bytes(px: Pixel, prev: Pixel) -> (r: ([u8; 5], usize))
    ensures
        1 <= r.1 <= 5,
        r.0@.subrange(0, r.1 as int) == color_op(px, prev),
{
    let mut op: [u8; 5] = [0; 5];
    let mr: u8 = if px.r != prev.r { 8 } else { 0 };
    let mg: u8 = if px.g != prev.g { 4 } else { 0 };
    let mb: u8 = if px.b != prev.b { 2 } else { 0 };
    let ma: u8 = if px.a != prev.a { 1 } else { 0 };
    op[0] = QOI_OP_COLOR + mr + mg + mb + ma;
    let mut len: usize = 1;
    let ghost s0 = seq![op[0]];
    assert(op@.subrange(0, len as int) == s0);
    if px.r != prev.r {
        op[len] = px.r;
        len = len + 1;
    }
    let ghost s1 = s0 + (if px.r != prev.r { seq![px.r] } else { Seq::<u8>::empty() });
    assert(op@.subrange(0, len as int) == s1);
    if px.g != prev.g {
        op[len] = px.g;
        len = len + 1;
    }
    let ghost s2 = s1 + (if px.g != prev.g { seq![px.g] } else { Seq::<u8>::empty() });
    assert(op@.subrange(0, len as int) == s2);
    if px.b != prev.b {
        op[len] = px.b;
        len = len + 1;
    }
    let ghost s3 = s2 + (if px.b != prev.b { seq![px.b] } else { Seq::<u8>::empty() });
    assert(op@.subrange(0, len as int) == s3);
    if px.a != prev.a {
        op[len] = px.a;
        len = len + 1;
    }
    let ghost s4 = s3 + (if px.a != prev.a { seq![px.a] } else { Seq::<u8>::empty() });
    assert(op@.subrange(0, len as int) == s4);
    (op, len)
}

/// Lays out the op that `diff_op` describes at the start of an array.
fn diff_bytes(policy: DiffPolicy, px: Pixel, prev: Pixel) -> (r: ([u8; 5], usize))
    ensures
        1 <= r.1 <= 5,
        r.0@.subrange(0, r.1 as int) == diff_op(policy, px, prev),
{
    proof {
        reveal(diff_op);
    }
    let vr = channel_delta(policy, px.r, prev.r);
    let vg = channel_delta(policy, px.g, prev.g);
    let vb = channel_delta(policy, px.b, prev.b);
    let va = channel_delta(policy, px.a, prev.a);
    if in_range(vr, 16) && in_range(vg, 16) && in_range(vb, 16) && in_range(va, 16) {
        let mut op: [u8; 5] = [0; 5];
        if va == 0 && in_range(vr, 2) && in_range(vg, 2) && in_range(vb, 2) {
            op[0] = QOI_OP_DIFF + ((vr + 2) * 16 + (vg + 2) * 4 + (vb + 2)) as u8;
            assert(op@.subrange(0, 1) == seq![op[0]]);
            (op, 1)
        } else if va == 0 && in_range(vg, 8) && in_range(vb, 8) {
            op[0] = QOI_OP_DIFF_WIDE + (vr + 16) as u8;
            op[1] = ((vg + 8) * 16 + (vb + 8)) as u8;
            assert(op@.subrange(0, 2) == seq![op[0], op[1]]);
            (op, 2)
        } else {
            let bits: u32 = (vr + 16) as u32 * 32768 + (vg + 16) as u32 * 1024 + (vb
                + 16) as u32 * 32 + (va + 16) as u32;
            op[0] = QOI_OP_DIFF_ALPHA + (bits / 65536) as u8;
            op[1] = (bits / 256 % 256) as u8;
            op[2] = (bits % 256) as u8;
            assert(op@.subrange(0, 3) == seq![op[0], op[1], op[2]]);
            (op, 3)
        }
    } else {
        color_bytes(px, prev)
    }
}

/// Computes the difference from `prev` to `cur` as the policy measures it.
fn channel_delta(policy: DiffPolicy, cur: u8, prev: u8) -> (d: i16)
    ensures
        d == delta(policy, cur, prev),
{
    match policy {
        DiffPolicy::Canonical => cur as i16 - prev as i16,
        DiffPolicy::Wrapping => {
            let w = cur.wrapping_sub(prev) as i16;
            if w >= 128 {
                w - 256
            } else {
                w
            }
        },
    }
}

/// Tests whether `v` lies in the symmetric range `-bound .. bound`.
fn in_range(v: i16, bound: i16) -> (b: bool)
    requires
        0 <= bound <= 16,
    ensures
        b == fits(v as int, bound as int),
{
    -bound <= v && v < bound
}

} // verus!
