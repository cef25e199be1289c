use crate::bytes::lemma_split;
use crate::consts::{
    QOI_INDEX_SIZE, QOI_OP_COLOR, QOI_OP_DIFF, QOI_OP_DIFF_ALPHA, QOI_OP_DIFF_WIDE, QOI_OP_INDEX,
    QOI_OP_RUN, QOI_RUN_MAX, QOI_RUN_OP_MAX,
};
use crate::pixel::{color_op, delta, diff_op, fits, wrap_u8, Pixel};
use crate::types::{Channels, DiffPolicy};
use vstd::prelude::*;

verus! {

/// The pixel that counts as the one before the first pixel of an image.
pub open spec fn initial_pixel() -> Pixel {
    Pixel { r: 0, g: 0, b: 0, a: 255 }
}

/// The index cache at the start of an image: every slot holds the zero pixel.
pub open spec fn initial_index() -> Seq<Pixel> {
    Seq::new(QOI_INDEX_SIZE as nat, |i: int| Pixel { r: 0, g: 0, b: 0, a: 0 })
}

/// The pixels of a raw pixel buffer.
pub open spec fn pixels_of(data: Seq<u8>, channels: Channels) -> Seq<Pixel> {
    Seq::new((data.len() / channels.count() as nat) as nat, |i: int| Pixel::at(data, i, channels))
}

/// Byte number `k` of a pixel in a raw pixel buffer.
pub open spec fn channel_byte(px: Pixel, k: int) -> u8 {
    if k == 0 {
        px.r
    } else if k == 1 {
        px.g
    } else if k == 2 {
        px.b
    } else {
        px.a
    }
}

/// The raw pixel buffer that holds the given pixels.
pub open spec fn raw_bytes(pixels: Seq<Pixel>, channels: Channels) -> Seq<u8> {
    Seq::new(
        (pixels.len() * channels.count()) as nat,
        |k: int| channel_byte(pixels[k / channels.count()], k % channels.count()),
    )
}

/// How many of the pixels from number `i` on are equal to `prev`, counting
/// no further than `cap`.
pub open spec fn run_length(pixels: Seq<Pixel>, i: int, prev: Pixel, cap: nat) -> nat
    decreases cap,
{
    if cap == 0 || i < 0 || i >= pixels.len() || pixels[i] != prev {
        0
    } else {
        1 + run_length(pixels, i + 1, prev, (cap - 1) as nat)
    }
}

/// The op for a run of `run` pixels: one byte that carries `run - 1`.
pub open spec fn run_op(run: int) -> Seq<u8> {
    seq![(QOI_OP_RUN + (run - 1)) as u8]
}

/// The op for a pixel that differs from the one before it: a reference to
/// the index cache if the pixel's slot holds the pixel, a difference or
/// colour op if not.
pub open spec fn pixel_op(policy: DiffPolicy, px: Pixel, prev: Pixel, index: Seq<Pixel>) -> Seq<
    u8,
> {
    if index[px.hash()] == px {
        seq![(QOI_OP_INDEX + px.hash()) as u8]
    } else {
        diff_op(policy, px, prev)
    }
}

/// The op stream for the pixels from number `i` on, when the pixel before
/// them is `prev` and the index cache is `index`.
pub open spec fn encode_ops(
    policy: DiffPolicy,
    pixels: Seq<Pixel>,
    i: int,
    prev: Pixel,
    index: Seq<Pixel>,
) -> Seq<u8>
    decreases pixels.len() - i,
{
    if i < 0 || i >= pixels.len() {
        Seq::empty()
    } else if pixels[i] == prev {
        let more = run_length(pixels, i + 1, prev, (QOI_RUN_MAX - 1) as nat) as int;
        proof {
            lemma_run_length(pixels, i + 1, prev, (QOI_RUN_MAX - 1) as nat);
        }
        run_op(1 + more) + encode_ops(policy, pixels, i + 1 + more, prev, index)
    } else {
        let px = pixels[i];
        pixel_op(policy, px, prev, index) + encode_ops(
            policy,
            pixels,
            i + 1,
            px,
            index.update(px.hash(), px),
        )
    }
}

/// The number of bytes of the op that starts with the byte `b1`.
pub open spec fn op_size(b1: u8) -> int {
    if b1 < QOI_OP_DIFF_WIDE {
        1
    } else if b1 < QOI_OP_DIFF_ALPHA {
        2
    } else if b1 < QOI_OP_COLOR {
        3
    } else {
        1 + b1 / 8 % 2 + b1 / 4 % 2 + b1 / 2 % 2 + b1 % 2
    }
}

/// Whether the op that starts with the byte `b1` is a run.
pub open spec fn is_run(b1: u8) -> bool {
    QOI_OP_RUN <= b1 < QOI_OP_DIFF
}

/// The length of the run that the run op at position `p` stands for.
pub open spec fn run_of(bytes: Seq<u8>, p: int) -> int {
    bytes[p] - QOI_OP_RUN + 1
}

/// The pixel that the op at position `p` stands for, when it is not a run,
/// the pixel before is `prev` and the index cache is `index`.
#[verifier::opaque]
pub open spec fn pixel_of(bytes: Seq<u8>, p: int, prev: Pixel, index: Seq<Pixel>) -> Pixel {
    let b1 = bytes[p];
    if b1 < QOI_OP_RUN {
        index[b1 as int]
    } else if b1 < QOI_OP_DIFF_WIDE {
        let v = b1 - QOI_OP_DIFF;
        Pixel {
            r: wrap_u8(prev.r + v / 16 - 2),
            g: wrap_u8(prev.g + v / 4 % 4 - 2),
            b: wrap_u8(prev.b + v % 4 - 2),
            a: prev.a,
        }
    } else if b1 < QOI_OP_DIFF_ALPHA {
        let b2 = bytes[p + 1];
        Pixel {
            r: wrap_u8(prev.r + (b1 - QOI_OP_DIFF_WIDE) - 16),
            g: wrap_u8(prev.g + b2 / 16 - 8),
            b: wrap_u8(prev.b + b2 % 16 - 8),
            a: prev.a,
        }
    } else if b1 < QOI_OP_COLOR {
        let bits = (b1 - QOI_OP_DIFF_ALPHA) * 65536 + bytes[p + 1] * 256 + bytes[p + 2];
        Pixel {
            r: wrap_u8(prev.r + bits / 32768 - 16),
            g: wrap_u8(prev.g + bits / 1024 % 32 - 16),
            b: wrap_u8(prev.b + bits / 32 % 32 - 16),
            a: wrap_u8(prev.a + bits % 32 - 16),
        }
    } else {
        let hr = b1 / 8 % 2;
        let hg = b1 / 4 % 2;
        let hb = b1 / 2 % 2;
        let ha = b1 % 2;
        Pixel {
            r: if hr == 1 {
                bytes[p + 1]
            } else {
                prev.r
            },
            g: if hg == 1 {
                bytes[p + 1 + hr]
            } else {
                prev.g
            },
            b: if hb == 1 {
                bytes[p + 1 + hr + hg]
            } else {
                prev.b
            },
            a: if ha == 1 {
                bytes[p + 1 + hr + hg + hb]
            } else {
                prev.a
            },
        }
    }
}

/// Reads `n` pixels from the op stream that starts at position `p`, when the
/// pixel before is `prev` and the index cache is `index`.
///
/// The result is the pixels and the position behind the last op read. There
/// is none if the stream ends before `n` pixels are read, in the middle of
/// an op or between two, or if a run goes beyond `n` pixels.
pub open spec fn decode_ops(bytes: Seq<u8>, p: int, n: nat, prev: Pixel, index: Seq<Pixel>)
    -> Option<(Seq<Pixel>, int)>
    decreases n,
{
    if n == 0 {
        Some((Seq::<Pixel>::empty(), p))
    } else if p < 0 || p >= bytes.len() || p + op_size(bytes[p]) > bytes.len() {
        None
    } else if is_run(bytes[p]) {
        let run = run_of(bytes, p);
        if run > n {
            None
        } else {
            match decode_ops(bytes, p + op_size(bytes[p]), (n - run) as nat, prev, index) {
                Some((rest, q)) => Some((Seq::new(run as nat, |j: int| prev) + rest, q)),
                None => None,
            }
        }
    } else {
        let px = pixel_of(bytes, p, prev, index);
        match decode_ops(
            bytes,
            p + op_size(bytes[p]),
            (n - 1) as nat,
            px,
            index.update(px.hash(), px),
        ) {
            Some((rest, q)) => Some((seq![px] + rest, q)),
            None => None,
        }
    }
}

/// A run counted from `i` stays inside the pixels and below the cap, and
/// every pixel in it is equal to `prev`.
pub proof fn lemma_run_length(pixels: Seq<Pixel>, i: int, prev: Pixel, cap: nat)
    requires
        0 <= i,
    ensures
        run_length(pixels, i, prev, cap) <= cap,
        i + run_length(pixels, i, prev, cap) <= pixels.len() || run_length(pixels, i, prev, cap)
            == 0,
        forall|j: int|
            i <= j < i + run_length(pixels, i, prev, cap) ==> #[trigger] pixels[j] == prev,
    decreases cap,
{
    if cap == 0 || i >= pixels.len() || pixels[i] != prev {
    } else {
        lemma_run_length(pixels, i + 1, prev, (cap - 1) as nat);
    }
}

/// A run op read back gives the run it was made for.
pub proof fn lemma_run_op_decodes(run: int, bytes: Seq<u8>, p: int)
    requires
        1 <= run <= QOI_RUN_OP_MAX,
        0 <= p,
        p + run_op(run).len() <= bytes.len(),
        bytes.subrange(p, p + run_op(run).len()) == run_op(run),
    ensures
        is_run(bytes[p]),
        op_size(bytes[p]) == run_op(run).len(),
        run_of(bytes, p) == run,
{
    let op = run_op(run);
    assert(bytes[p] == bytes.subrange(p, p + op.len())[0]);
}

/// Adding the difference that a policy measures to the old value gives the
/// new value back.
pub proof fn lemma_delta_inverts(policy: DiffPolicy, cur: u8, prev: u8)
    ensures
        -256 < delta(policy, cur, prev) < 256,
        wrap_u8(prev + delta(policy, cur, prev)) == cur,
        delta(policy, cur, prev) == 0 <==> cur == prev,
{
}

/// A one-byte difference op read back gives the pixel it was made for.
proof fn lemma_diff_small_decodes(prev: Pixel, vr: int, vg: int, vb: int, bytes: Seq<u8>, p: int)
    requires
        fits(vr, 2),
        fits(vg, 2),
        fits(vb, 2),
        0 <= p < bytes.len(),
        bytes[p] == (QOI_OP_DIFF + (vr + 2) * 16 + (vg + 2) * 4 + (vb + 2)) as u8,
    ensures
        !is_run(bytes[p]),
        op_size(bytes[p]) == 1,
        pixel_of(bytes, p, prev, initial_index()).r == wrap_u8(prev.r + vr),
        pixel_of(bytes, p, prev, initial_index()).g == wrap_u8(prev.g + vg),
        pixel_of(bytes, p, prev, initial_index()).b == wrap_u8(prev.b + vb),
        pixel_of(bytes, p, prev, initial_index()).a == prev.a,
        forall|index: Seq<Pixel>| #[trigger]
            pixel_of(bytes, p, prev, index) == pixel_of(bytes, p, prev, initial_index()),
{
    reveal(pixel_of);
    let v = (vr + 2) * 16 + (vg + 2) * 4 + (vb + 2);
    assert(0 <= v < 64);
    assert(bytes[p] == QOI_OP_DIFF + v);
    assert(v / 16 == vr + 2);
    assert(v / 4 % 4 == vg + 2);
    assert(v % 4 == vb + 2);
}

/// A two-byte difference op read back gives the pixel it was made for.
proof fn lemma_diff_wide_decodes(prev: Pixel, vr: int, vg: int, vb: int, bytes: Seq<u8>, p: int)
    requires
        fits(vr, 16),
        fits(vg, 8),
        fits(vb, 8),
        0 <= p,
        p + 1 < bytes.len(),
        bytes[p] == (QOI_OP_DIFF_WIDE + (vr + 16)) as u8,
        bytes[p + 1] == ((vg + 8) * 16 + (vb + 8)) as u8,
    ensures
        !is_run(bytes[p]),
        op_size(bytes[p]) == 2,
        pixel_of(bytes, p, prev, initial_index()).r == wrap_u8(prev.r + vr),
        pixel_of(bytes, p, prev, initial_index()).g == wrap_u8(prev.g + vg),
        pixel_of(bytes, p, prev, initial_index()).b == wrap_u8(prev.b + vb),
        pixel_of(bytes, p, prev, initial_index()).a == prev.a,
        forall|index: Seq<Pixel>| #[trigger]
            pixel_of(bytes, p, prev, index) == pixel_of(bytes, p, prev, initial_index()),
{
    reveal(pixel_of);
    let v = (vg + 8) * 16 + (vb + 8);
    assert(0 <= v < 256);
    assert(bytes[p + 1] == v);
    assert(v / 16 == vg + 8);
    assert(v % 16 == vb + 8);
}

/// A three-byte difference op read back gives the pixel it was made for.
proof fn lemma_diff_alpha_decodes(
    prev: Pixel,
    vr: int,
    vg: int,
    vb: int,
    va: int,
    bytes: Seq<u8>,
    p: int,
)
    requires
        fits(vr, 16),
        fits(vg, 16),
        fits(vb, 16),
        fits(va, 16),
        0 <= p,
        p + 2 < bytes.len(),
        ({
            let bits = (vr + 16) * 32768 + (vg + 16) * 1024 + (vb + 16) * 32 + (va + 16);
            &&& bytes[p] == (QOI_OP_DIFF_ALPHA + bits / 65536) as u8
            &&& bytes[p + 1] == (bits / 256 % 256) as u8
            &&& bytes[p + 2] == (bits % 256) as u8
        }),
    ensures
        !is_run(bytes[p]),
        op_size(bytes[p]) == 3,
        pixel_of(bytes, p, prev, initial_index()).r == wrap_u8(prev.r + vr),
        pixel_of(bytes, p, prev, initial_index()).g == wrap_u8(prev.g + vg),
        pixel_of(bytes, p, prev, initial_index()).b == wrap_u8(prev.b + vb),
        pixel_of(bytes, p, prev, initial_index()).a == wrap_u8(prev.a + va),
        forall|index: Seq<Pixel>| #[trigger]
            pixel_of(bytes, p, prev, index) == pixel_of(bytes, p, prev, initial_index()),
{
    reveal(pixel_of);
    let bits = (vr + 16) * 32768 + (vg + 16) * 1024 + (vb + 16) * 32 + (va + 16);
    lemma_pack_four((vr + 16) as u32, (vg + 16) as u32, (vb + 16) as u32, (va + 16) as u32);
    let back = (bytes[p] - QOI_OP_DIFF_ALPHA) * 65536 + bytes[p + 1] * 256 + bytes[p + 2];
    assert(back == bits);
}

/// Four numbers of five bits each, packed into twenty bits and cut into
/// three bytes, can be read back from the bytes.
proof fn lemma_pack_four(a: u32, b: u32, c: u32, d: u32)
    by (bit_vector)
    requires
        a < 32,
        b < 32,
        c < 32,
        d < 32,
    ensures
        ({
            let bits = a * 32768 + b * 1024 + c * 32 + d;
            &&& bits < 1048576
            &&& bits / 65536 < 16
            &&& (bits / 65536) * 65536 + (bits / 256 % 256) * 256 + bits % 256 == bits
            &&& bits / 32768 == a
            &&& bits / 1024 % 32 == b
            &&& bits / 32 % 32 == c
            &&& bits % 32 == d
        }),
{
}

/// A colour op read back gives the pixel it was made for.
proof fn lemma_color_op_decodes(px: Pixel, prev: Pixel, index: Seq<Pixel>, bytes: Seq<u8>, p: int)
    requires
        0 <= p,
        p + color_op(px, prev).len() <= bytes.len(),
        bytes.subrange(p, p + color_op(px, prev).len()) == color_op(px, prev),
    ensures
        !is_run(bytes[p]),
        op_size(bytes[p]) == color_op(px, prev).len(),
        pixel_of(bytes, p, prev, index) == px,
{
    reveal(pixel_of);
    let op = color_op(px, prev);
    let hr: int = if px.r != prev.r { 1 } else { 0 };
    let hg: int = if px.g != prev.g { 1 } else { 0 };
    let hb: int = if px.b != prev.b { 1 } else { 0 };
    let ha: int = if px.a != prev.a { 1 } else { 0 };
    let mask = 8 * hr + 4 * hg + 2 * hb + ha;
    assert(op.len() == 1 + hr + hg + hb + ha);
    assert(op[0] == QOI_OP_COLOR + mask);
    assert forall|k: int| 0 <= k < op.len() implies bytes[p + k] == op[k] by {
        assert(bytes.subrange(p, p + op.len())[k] == bytes[p + k]);
    }
    let b1 = bytes[p];
    assert(b1 == op[0]);
    assert(b1 / 8 % 2 == hr);
    assert(b1 / 4 % 2 == hg);
    assert(b1 / 2 % 2 == hb);
    assert(b1 % 2 == ha);
    if hr == 1 {
        assert(op[1] == px.r);
        assert(bytes[p + 1] == op[1]);
    }
    if hg == 1 {
        assert(op[1 + hr] == px.g);
        assert(bytes[p + 1 + hr] == op[1 + hr]);
    }
    if hb == 1 {
        assert(op[1 + hr + hg] == px.b);
        assert(bytes[p + 1 + hr + hg] == op[1 + hr + hg]);
    }
    if ha == 1 {
        assert(op[1 + hr + hg + hb] == px.a);
        assert(bytes[p + 1 + hr + hg + hb] == op[1 + hr + hg + hb]);
    }
}

/// A difference or colour op read back gives the pixel it was made for.
pub proof fn lemma_diff_op_decodes(
    policy: DiffPolicy,
    px: Pixel,
    prev: Pixel,
    index: Seq<Pixel>,
    bytes: Seq<u8>,
    p: int,
)
    requires
        0 <= p,
        p + diff_op(policy, px, prev).len() <= bytes.len(),
        bytes.subrange(p, p + diff_op(policy, px, prev).len()) == diff_op(policy, px, prev),
    ensures
        !is_run(bytes[p]),
        bytes[p] >= QOI_OP_DIFF,
        op_size(bytes[p]) == diff_op(policy, px, prev).len(),
        pixel_of(bytes, p, prev, index) == px,
{
    reveal(diff_op);
    let op = diff_op(policy, px, prev);
    let vr = delta(policy, px.r, prev.r);
    let vg = delta(policy, px.g, prev.g);
    let vb = delta(policy, px.b, prev.b);
    let va = delta(policy, px.a, prev.a);
    lemma_delta_inverts(policy, px.r, prev.r);
    lemma_delta_inverts(policy, px.g, prev.g);
    lemma_delta_inverts(policy, px.b, prev.b);
    lemma_delta_inverts(policy, px.a, prev.a);
    if fits(vr, 16) && fits(vg, 16) && fits(vb, 16) && fits(va, 16) {
        assert forall|k: int| 0 <= k < op.len() implies bytes[p + k] == op[k] by {
            assert(bytes.subrange(p, p + op.len())[k] == bytes[p + k]);
        }
        if va == 0 && fits(vr, 2) && fits(vg, 2) && fits(vb, 2) {
            assert(bytes[p + 0] == op[0]);
            lemma_diff_small_decodes(prev, vr, vg, vb, bytes, p);
            assert(pixel_of(bytes, p, prev, index) == pixel_of(bytes, p, prev, initial_index()));
        } else if va == 0 && fits(vg, 8) && fits(vb, 8) {
            assert(bytes[p + 0] == op[0]);
            assert(bytes[p + 1] == op[1]);
            lemma_diff_wide_decodes(prev, vr, vg, vb, bytes, p);
            assert(pixel_of(bytes, p, prev, index) == pixel_of(bytes, p, prev, initial_index()));
        } else {
            assert(bytes[p + 0] == op[0]);
            assert(bytes[p + 1] == op[1]);
            assert(bytes[p + 2] == op[2]);
            lemma_diff_alpha_decodes(prev, vr, vg, vb, va, bytes, p);
            assert(pixel_of(bytes, p, prev, index) == pixel_of(bytes, p, prev, initial_index()));
        }
    } else {
        lemma_color_op_decodes(px, prev, index, bytes, p);
        assert(bytes[p] == bytes.subrange(p, p + op.len())[0]);
    }
}

/// The op written for a pixel that differs from the one before it, read
/// back, gives the pixel.
pub proof fn lemma_pixel_op_decodes(
    policy: DiffPolicy,
    px: Pixel,
    prev: Pixel,
    index: Seq<Pixel>,
    bytes: Seq<u8>,
    p: int,
)
    requires
        index.len() == QOI_INDEX_SIZE,
        0 <= p,
        p + pixel_op(policy, px, prev, index).len() <= bytes.len(),
        bytes.subrange(p, p + pixel_op(policy, px, prev, index).len()) == pixel_op(
            policy,
            px,
            prev,
            index,
        ),
    ensures
        !is_run(bytes[p]),
        op_size(bytes[p]) == pixel_op(policy, px, prev, index).len(),
        pixel_of(bytes, p, prev, index) == px,
{
    reveal(pixel_of);
    let op = pixel_op(policy, px, prev, index);
    if index[px.hash()] == px {
        assert(bytes[p] == bytes.subrange(p, p + op.len())[0]);
    } else {
        lemma_diff_op_decodes(policy, px, prev, index, bytes, p);
    }
}

/// Reading a run op and then the rest of the stream.
proof fn lemma_decode_run_step(
    bytes: Seq<u8>,
    p: int,
    n: nat,
    prev: Pixel,
    index: Seq<Pixel>,
    rest: Seq<Pixel>,
    q: int,
)
    requires
        0 <= p < bytes.len(),
        p + op_size(bytes[p]) <= bytes.len(),
        is_run(bytes[p]),
        1 <= run_of(bytes, p) <= n,
        decode_ops(bytes, p + op_size(bytes[p]), (n - run_of(bytes, p)) as nat, prev, index)
            == Some((rest, q)),
    ensures
        decode_ops(bytes, p, n, prev, index) == Some(
            (Seq::new(run_of(bytes, p) as nat, |j: int| prev) + rest, q),
        ),
{
}

/// Reading the op of a single pixel and then the rest of the stream.
proof fn lemma_decode_pixel_step(
    bytes: Seq<u8>,
    p: int,
    n: nat,
    prev: Pixel,
    index: Seq<Pixel>,
    px: Pixel,
    rest: Seq<Pixel>,
    q: int,
)
    requires
        0 <= p < bytes.len(),
        p + op_size(bytes[p]) <= bytes.len(),
        !is_run(bytes[p]),
        n >= 1,
        px == pixel_of(bytes, p, prev, index),
        decode_ops(
            bytes,
            p + op_size(bytes[p]),
            (n - 1) as nat,
            px,
            index.update(px.hash(), px),
        ) == Some((rest, q)),
    ensures
        decode_ops(bytes, p, n, prev, index) == Some((seq![px] + rest, q)),
{
}

/// An op stream read back gives the pixels it was made for, and reading
/// stops right behind it.
pub proof fn lemma_ops_round_trip(
    policy: DiffPolicy,
    pixels: Seq<Pixel>,
    i: int,
    prev: Pixel,
    index: Seq<Pixel>,
    bytes: Seq<u8>,
    p: int,
)
    requires
        0 <= i <= pixels.len(),
        index.len() == QOI_INDEX_SIZE,
        0 <= p,
        p + encode_ops(policy, pixels, i, prev, index).len() <= bytes.len(),
        bytes.subrange(p, p + encode_ops(policy, pixels, i, prev, index).len()) == encode_ops(
            policy,
            pixels,
            i,
            prev,
            index,
        ),
    ensures
        decode_ops(bytes, p, (pixels.len() - i) as nat, prev, index) == Some(
            (
                pixels.subrange(i, pixels.len() as int),
                p + encode_ops(policy, pixels, i, prev, index).len(),
            ),
        ),
    decreases pixels.len() - i,
{
    let n = pixels.len() as int;
    let e = encode_ops(policy, pixels, i, prev, index);
    if i >= n {
        assert(pixels.subrange(i, n) =~= Seq::<Pixel>::empty());
    } else if pixels[i] == prev {
        let more = run_length(pixels, i + 1, prev, (QOI_RUN_MAX - 1) as nat) as int;
        lemma_run_length(pixels, i + 1, prev, (QOI_RUN_MAX - 1) as nat);
        let run = 1 + more;
        let op = run_op(run);
        let rest = encode_ops(policy, pixels, i + run, prev, index);
        assert(e == op + rest);
        lemma_split(bytes, p, op, rest);
        lemma_run_op_decodes(run, bytes, p);
        lemma_ops_round_trip(policy, pixels, i + run, prev, index, bytes, p + op.len());
        lemma_decode_run_step(
            bytes,
            p,
            (n - i) as nat,
            prev,
            index,
            pixels.subrange(i + run, n),
            p + e.len(),
        );
        assert(pixels.subrange(i, n) =~= Seq::new(run as nat, |j: int| prev) + pixels.subrange(
            i + run,
            n,
        ));
    } else {
        let px = pixels[i];
        let op = pixel_op(policy, px, prev, index);
        let next = index.update(px.hash(), px);
        let rest = encode_ops(policy, pixels, i + 1, px, next);
        assert(e == op + rest);
        lemma_split(bytes, p, op, rest);
        lemma_pixel_op_decodes(policy, px, prev, index, bytes, p);
        lemma_ops_round_trip(policy, pixels, i + 1, px, next, bytes, p + op.len());
        lemma_decode_pixel_step(
            bytes,
            p,
            (n - i) as nat,
            prev,
            index,
            px,
            pixels.subrange(i + 1, n),
            p + e.len(),
        );
        assert(pixels.subrange(i, n) =~= seq![px] + pixels.subrange(i + 1, n));
    }
}

/// A difference or colour op takes at most five bytes, and at most four if
/// the alpha does not change.
pub proof fn lemma_diff_op_len(policy: DiffPolicy, px: Pixel, prev: Pixel)
    ensures
        1 <= diff_op(policy, px, prev).len() <= 5,
        px.a == prev.a ==> diff_op(policy, px, prev).len() <= 4,
{
    reveal(diff_op);
}

/// An op stream takes at most five bytes per pixel, and at most four per
/// pixel if all pixels have the alpha of the pixel before the first.
pub proof fn lemma_ops_len(
    policy: DiffPolicy,
    pixels: Seq<Pixel>,
    i: int,
    prev: Pixel,
    index: Seq<Pixel>,
)
    requires
        0 <= i <= pixels.len(),
    ensures
        encode_ops(policy, pixels, i, prev, index).len() <= 5 * (pixels.len() - i),
        (forall|j: int| i <= j < pixels.len() ==> (#[trigger] pixels[j]).a == prev.a)
            ==> encode_ops(policy, pixels, i, prev, index).len() <= 4 * (pixels.len() - i),
    decreases pixels.len() - i,
{
    if i >= pixels.len() {
    } else if pixels[i] == prev {
        let more = run_length(pixels, i + 1, prev, (QOI_RUN_MAX - 1) as nat) as int;
        lemma_run_length(pixels, i + 1, prev, (QOI_RUN_MAX - 1) as nat);
        lemma_ops_len(policy, pixels, i + 1 + more, prev, index);
    } else {
        let px = pixels[i];
        lemma_diff_op_len(policy, px, prev);
        lemma_ops_len(policy, pixels, i + 1, px, index.update(px.hash(), px));
        if forall|j: int| i <= j < pixels.len() ==> (#[trigger] pixels[j]).a == prev.a {
            assert(pixels[i].a == prev.a);
        }
    }
}

/// A run of `m` pixels equal to `prev` that ends at the cap, at the end of
/// the pixels or before a pixel that differs, is counted in full.
pub proof fn lemma_run_length_exact(pixels: Seq<Pixel>, i: int, prev: Pixel, cap: nat, m: nat)
    requires
        0 <= i,
        i + m <= pixels.len(),
        m <= cap,
        forall|j: int| i <= j < i + m ==> #[trigger] pixels[j] == prev,
        m == cap || i + m == pixels.len() || pixels[i + m] != prev,
    ensures
        run_length(pixels, i, prev, cap) == m,
    decreases m,
{
    if m > 0 {
        assert(pixels[i] == prev);
        lemma_run_length_exact(pixels, i + 1, prev, (cap - 1) as nat, (m - 1) as nat);
    }
}

/// The op stream of pixels that start with a run: the op of the run, then
/// the op stream of what follows the run.
pub proof fn lemma_encode_ops_run(
    policy: DiffPolicy,
    pixels: Seq<Pixel>,
    i: int,
    prev: Pixel,
    index: Seq<Pixel>,
    run: int,
)
    requires
        0 <= i,
        1 <= run <= QOI_RUN_MAX,
        i + run <= pixels.len(),
        forall|j: int| i <= j < i + run ==> #[trigger] pixels[j] == prev,
        run == QOI_RUN_MAX || i + run == pixels.len() || pixels[i + run] != prev,
    ensures
        encode_ops(policy, pixels, i, prev, index) == run_op(run) + encode_ops(
            policy,
            pixels,
            i + run,
            prev,
            index,
        ),
{
    assert(pixels[i] == prev);
    lemma_run_length_exact(pixels, i + 1, prev, (QOI_RUN_MAX - 1) as nat, (run - 1) as nat);
}

/// The op stream of pixels that start with a pixel that differs from the
/// one before: the op of the pixel, then the op stream of what follows.
pub proof fn lemma_encode_ops_pixel(
    policy: DiffPolicy,
    pixels: Seq<Pixel>,
    i: int,
    prev: Pixel,
    index: Seq<Pixel>,
)
    requires
        0 <= i < pixels.len(),
        pixels[i] != prev,
    ensures
        encode_ops(policy, pixels, i, prev, index) == pixel_op(policy, pixels[i], prev, index)
            + encode_ops(
            policy,
            pixels,
            i + 1,
            pixels[i],
            index.update(pixels[i].hash(), pixels[i]),
        ),
{
}

/// The ops for `m` pixels that are all equal to the pixel before them: runs
/// of the greatest length as long as there are pixels for them, and a last
/// run for those that are left.
pub open spec fn run_ops(m: nat) -> Seq<u8>
    decreases m,
{
    if m == 0 {
        Seq::empty()
    } else if m <= QOI_RUN_MAX {
        run_op(m as int)
    } else {
        run_op(QOI_RUN_MAX as int) + run_ops((m - QOI_RUN_MAX) as nat)
    }
}

} // verus!
