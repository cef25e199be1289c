use crate::bytes::be_value;
use crate::codec::{
    decode_ops, initial_index, initial_pixel, is_run, op_size, pixel_of, raw_bytes,
};
use crate::consts::{
    QOI_HEADER_SIZE, QOI_ISLAND_SIZE, QOI_OP_COLOR, QOI_OP_DIFF, QOI_OP_DIFF_ALPHA,
    QOI_OP_DIFF_WIDE, QOI_OP_RUN, QOI_PADDING_SIZE,
};
use crate::encode::padding;
use crate::error::Error;
use crate::header::{decode_header, Header};
use crate::island::{distinct, islands_at, Island, Islands};
use crate::pixel::{wrap_u8, Pixel};
use crate::types::Channels;
use vstd::prelude::*;
use vstd::slice::slice_subrange;

verus! {

/// What decoding `bytes` gives: the header, the raw pixel buffer and the
/// islands, each island once.
///
/// The stream is the header and what follows it, which is as long as the
/// header says: the ops for as many pixels as the header declares, as many
/// island records as the header declares, and a padding of zero bytes. What
/// follows the padding is not looked at. The checks come in this order: the
/// header; that the stream is as long as the header says; the ops; the
/// island records; that the padding is what is left of the declared length.
pub open spec fn decoded(bytes: Seq<u8>) -> Result<(Header, Seq<u8>, Seq<Island>), Error> {
    match decode_header(bytes) {
        Err(e) => Err(e),
        Ok(header) => if bytes.len() - QOI_HEADER_SIZE < header.n_encode {
            Err(Error::UnexpectedEndOfStream)
        } else {
            match decode_ops(
                bytes,
                QOI_HEADER_SIZE as int,
                header.pixel_count() as nat,
                initial_pixel(),
                initial_index(),
            ) {
                None => Err(Error::UnexpectedEndOfStream),
                Some((pixels, p)) => {
                    let full = (bytes.len() - p) / 16;
                    let q = p + QOI_ISLAND_SIZE * header.n_islands;
                    let end = QOI_HEADER_SIZE + header.n_encode;
                    if full < header.n_islands {
                        Err(
                            Error::IslandRecordTruncated {
                                expected: header.n_islands,
                                found: full as u32,
                            },
                        )
                    } else if q + QOI_PADDING_SIZE != end || bytes.subrange(q, end) != padding() {
                        Err(Error::UnexpectedEndOfStream)
                    } else {
                        Ok(
                            (
                                header,
                                raw_bytes(pixels, header.channels),
                                distinct(islands_at(bytes, p, header.n_islands as nat)),
                            ),
                        )
                    }
                },
            }
        },
    }
}

/// The bytes of one pixel in a raw pixel buffer.
pub open spec fn pixel_bytes(px: Pixel, channels: Channels) -> Seq<u8> {
    match channels {
        Channels::Rgb => seq![px.r, px.g, px.b],
        Channels::Rgba => seq![px.r, px.g, px.b, px.a],
    }
}

/// One more pixel is the bytes of the pixel more in the raw pixel buffer.
pub proof fn lemma_raw_bytes_push(pixels: Seq<Pixel>, px: Pixel, channels: Channels)
    ensures
        raw_bytes(pixels.push(px), channels) == raw_bytes(pixels, channels) + pixel_bytes(
            px,
            channels,
        ),
{
    let c = channels.count();
    let longer = raw_bytes(pixels.push(px), channels);
    let joined = raw_bytes(pixels, channels) + pixel_bytes(px, channels);
    assert((pixels.len() + 1) * c == pixels.len() * c + c) by (nonlinear_arith);
    assert(longer.len() == joined.len());
    assert forall|k: int| 0 <= k < longer.len() implies longer[k] == joined[k] by {
        let at = pixels.len() * c;
        if channels == Channels::Rgb {
            assert(at == pixels.len() * 3);
            if k < at {
                assert(k / 3 < pixels.len());
            } else {
                assert(k / 3 == pixels.len());
                assert(k % 3 == k - at);
            }
        } else {
            assert(at == pixels.len() * 4);
            if k < at {
                assert(k / 4 < pixels.len());
            } else {
                assert(k / 4 == pixels.len());
                assert(k % 4 == k - at);
            }
        }
    }
    assert(longer =~= joined);
}

/// Appends the bytes of a pixel to a raw pixel buffer.
fn push_pixel(out: &mut Vec<u8>, px: Pixel, channels: Channels)
    ensures
        final(out)@ == old(out)@ + pixel_bytes(px, channels),
{
    out.push(px.r);
    out.push(px.g);
    out.push(px.b);
    match channels {
        Channels::Rgb => {},
        Channels::Rgba => {
            out.push(px.a);
        },
    }
    proof {
        assert(out@ =~= old(out)@ + pixel_bytes(px, channels));
    }
}

/// Adds a small number to a byte, modulo 256, and takes a bias off.
fn shift(value: u8, field: u8, bias: u8) -> (r: u8)
    requires
        field < 32,
        bias <= 16,
    ensures
        r == wrap_u8(value + field - bias),
{
    value.wrapping_add(field).wrapping_sub(bias)
}

/// Reads the pixel that the op at position `p` stands for.
fn read_pixel(data: &[u8], p: usize, prev: Pixel, index: &[Pixel; 64]) -> (px: Pixel)
    requires
        p < data.len(),
        p + op_size(data@[p as int]) <= data.len(),
        !is_run(data@[p as int]),
    ensures
        px == pixel_of(data@, p as int, prev, index@),
{
    proof {
        reveal(pixel_of);
    }
    let b1 = data[p];
    if b1 < QOI_OP_RUN {
        index[b1 as usize]
    } else if b1 < QOI_OP_DIFF_WIDE {
        let v = b1 - QOI_OP_DIFF;
        Pixel {
            r: shift(prev.r, v / 16, 2),
            g: shift(prev.g, v / 4 % 4, 2),
            b: shift(prev.b, v % 4, 2),
            a: prev.a,
        }
    } else if b1 < QOI_OP_DIFF_ALPHA {
        let b2 = data[p + 1];
        Pixel {
            r: shift(prev.r, b1 - QOI_OP_DIFF_WIDE, 16),
            g: shift(prev.g, b2 / 16, 8),
            b: shift(prev.b, b2 % 16, 8),
            a: prev.a,
        }
    } else if b1 < QOI_OP_COLOR {
        let bits: u32 = (b1 - QOI_OP_DIFF_ALPHA) as u32 * 65536 + data[p + 1] as u32 * 256 + data[p
            + 2] as u32;
        Pixel {
            r: shift(prev.r, (bits / 32768) as u8, 16),
            g: shift(prev.g, (bits / 1024 % 32) as u8, 16),
            b: shift(prev.b, (bits / 32 % 32) as u8, 16),
            a: shift(prev.a, (bits % 32) as u8, 16),
        }
    } else {
        let mut at = p + 1;
        let mut px = prev;
        if b1 / 8 % 2 == 1 {
            px.r = data[at];
            at = at + 1;
        }
        if b1 / 4 % 2 == 1 {
            px.g = data[at];
            at = at + 1;
        }
        if b1 / 2 % 2 == 1 {
            px.b = data[at];
            at = at + 1;
        }
        if b1 % 2 == 1 {
            px.a = data[at];
        }
        px
    }
}

/// The raw pixel buffer of pixels one after the other is their raw pixel
/// buffers one after the other.
pub proof fn lemma_raw_bytes_add(first: Seq<Pixel>, more: Seq<Pixel>, channels: Channels)
    ensures
        raw_bytes(first + more, channels) == raw_bytes(first, channels) + raw_bytes(
            more,
            channels,
        ),
    decreases more.len(),
{
    if more.len() == 0 {
        assert(first + more =~= first);
        assert(raw_bytes(more, channels) =~= Seq::<u8>::empty());
        assert(raw_bytes(first, channels) + raw_bytes(more, channels) =~= raw_bytes(
            first,
            channels,
        ));
    } else {
        let last = more[more.len() - 1];
        let shorter = more.subrange(0, more.len() - 1);
        assert(more =~= shorter.push(last));
        assert(first + more =~= (first + shorter).push(last));
        lemma_raw_bytes_add(first, shorter, channels);
        lemma_raw_bytes_push(first + shorter, last, channels);
        lemma_raw_bytes_push(shorter, last, channels);
        assert(raw_bytes(first, channels) + (raw_bytes(shorter, channels) + pixel_bytes(
            last,
            channels,
        )) =~= (raw_bytes(first, channels) + raw_bytes(shorter, channels)) + pixel_bytes(
            last,
            channels,
        ));
    }
}

/// Appends the bytes of `run` pixels that are all `px` to a raw pixel
/// buffer.
fn push_run(out: &mut Vec<u8>, px: Pixel, channels: Channels, run: usize)
    ensures
        final(out)@ == old(out)@ + raw_bytes(Seq::new(run as nat, |j: int| px), channels),
{
    let mut k: usize = 0;
    proof {
        assert(raw_bytes(Seq::new(0, |j: int| px), channels) =~= Seq::<u8>::empty());
        assert(out@ =~= old(out)@ + Seq::<u8>::empty());
    }
    while k < run
        invariant
            k <= run,
            out@ == old(out)@ + raw_bytes(Seq::new(k as nat, |j: int| px), channels),
        decreases run - k,
    {
        let ghost so_far = Seq::new(k as nat, |j: int| px);
        push_pixel(out, px, channels);
        proof {
            assert(Seq::new((k + 1) as nat, |j: int| px) =~= so_far.push(px));
            lemma_raw_bytes_push(so_far, px, channels);
            assert(old(out)@ + (raw_bytes(so_far, channels) + pixel_bytes(px, channels)) =~= (old(
                out,
            )@ + raw_bytes(so_far, channels)) + pixel_bytes(px, channels));
        }
        k = k + 1;
    }
}

/// What reading gives in all when `acc` has been read and `rest` is what
/// reading on gives.
pub open spec fn after(acc: Seq<Pixel>, rest: Option<(Seq<Pixel>, int)>) -> Option<
    (Seq<Pixel>, int),
> {
    match rest {
        Some((more, q)) => Some((acc + more, q)),
        None => None,
    }
}

/// Reads the ops that follow the header into a raw pixel buffer and returns
/// the buffer and the position behind the last op.
///
/// Fails if the stream ends before the ops for all pixels are read, or if
/// a run goes beyond the last pixel.
fn decode_pixels(data: &[u8], header: &Header) -> (r: Result<(Vec<u8>, usize), Error>)
    requires
        header.valid(),
        data.len() >= QOI_HEADER_SIZE,
    ensures
        match decode_ops(
            data@,
            QOI_HEADER_SIZE as int,
            header.pixel_count() as nat,
            initial_pixel(),
            initial_index(),
        ) {
            None => r matches Err(e) && e == Error::UnexpectedEndOfStream,
            Some((pixels, q)) => r matches Ok((out, p)) && out@ == raw_bytes(
                pixels,
                header.channels,
            ) && p == q && QOI_HEADER_SIZE <= p <= data.len(),
        },
{
    let channels = header.channels;
    let n = header.n_pixels();
    let len = data.len();
    let ghost whole = decode_ops(
        data@,
        QOI_HEADER_SIZE as int,
        n as nat,
        initial_pixel(),
        initial_index(),
    );
    let ghost mut acc: Seq<Pixel> = Seq::empty();
    let mut out: Vec<u8> = Vec::new();
    let mut index: [Pixel; 64] = [Pixel::new(); 64];
    let mut px = Pixel::new().with_a(0xff);
    let mut p: usize = QOI_HEADER_SIZE;
    let mut done: usize = 0;
    proof {
        assert(index@ =~= initial_index());
        assert(raw_bytes(acc, channels) =~= Seq::<u8>::empty());
        let first = decode_ops(data@, p as int, n as nat, px, index@);
        assert(whole == after(acc, first)) by {
            match first {
                Some((more, q)) => {
                    assert(acc + more =~= more);
                },
                None => {},
            }
        }
    }
    while done < n
        invariant
            len == data.len(),
            n == header.pixel_count(),
            channels == header.channels,
            done <= n,
            QOI_HEADER_SIZE <= p <= len,
            index@.len() == 64,
            acc.len() == done,
            out@ == raw_bytes(acc, channels),
            whole == decode_ops(
                data@,
                QOI_HEADER_SIZE as int,
                header.pixel_count() as nat,
                initial_pixel(),
                initial_index(),
            ),
            whole == after(acc, decode_ops(data@, p as int, (n - done) as nat, px, index@)),
        decreases n - done,
    {
        if p >= len {
            return Err(Error::UnexpectedEndOfStream);
        }
        let b1 = data[p];
        let size = op_len(b1);
        if size > len - p {
            return Err(Error::UnexpectedEndOfStream);
        }
        let ghost rest = decode_ops(data@, p as int, (n - done) as nat, px, index@);
        if QOI_OP_RUN <= b1 && b1 < QOI_OP_DIFF {
            let run: usize = (b1 - QOI_OP_RUN) as usize + 1;
            if run > n - done {
                return Err(Error::UnexpectedEndOfStream);
            }
            let ghost more = Seq::new(run as nat, |j: int| px);
            let ghost next = decode_ops(
                data@,
                p + size,
                (n - done - run) as nat,
                px,
                index@,
            );
            push_run(&mut out, px, channels, run);
            proof {
                lemma_raw_bytes_add(acc, more, channels);
                assert(rest == after(more, next));
                lemma_after_after(acc, more, next);
                acc = acc + more;
            }
            done = done + run;
        } else {
            let ghost old_index = index@;
            let ghost prev = px;
            px = read_pixel(data, p, px, &index);
            index[px.hash_index() as usize] = px;
            let ghost next = decode_ops(
                data@,
                p + size,
                (n - done - 1) as nat,
                px,
                index@,
            );
            push_pixel(&mut out, px, channels);
            proof {
                lemma_raw_bytes_push(acc, px, channels);
                assert(rest == after(seq![px], next));
                lemma_after_after(acc, seq![px], next);
                assert(acc + seq![px] =~= acc.push(px));
                acc = acc.push(px);
            }
            done = done + 1;
        }
        p = p + size;
    }
    proof {
        assert(acc + Seq::<Pixel>::empty() =~= acc);
    }
    Ok((out, p))
}

/// Reading on twice is reading on once with all that was read before.
proof fn lemma_after_after(acc: Seq<Pixel>, more: Seq<Pixel>, rest: Option<(Seq<Pixel>, int)>)
    ensures
        after(acc, after(more, rest)) == after(acc + more, rest),
{
    match rest {
        Some((last, q)) => {
            assert(acc + (more + last) =~= (acc + more) + last);
        },
        None => {},
    }
}

/// Computes the number of bytes of the op that starts with the byte `b1`.
fn op_len(b1: u8) -> (n: usize)
    ensures
        n == op_size(b1),
        1 <= n <= 5,
{
    if b1 < QOI_OP_DIFF_WIDE {
        1
    } else if b1 < QOI_OP_DIFF_ALPHA {
        2
    } else if b1 < QOI_OP_COLOR {
        3
    } else {
        (1 + b1 / 8 % 2 + b1 / 4 % 2 + b1 / 2 % 2 + b1 % 2) as usize
    }
}

/// The islands read from a tail of the stream are those read from the
/// stream at the place where the tail starts.
proof fn lemma_islands_at_tail(bytes: Seq<u8>, p: int, n: nat)
    requires
        0 <= p,
        p + QOI_ISLAND_SIZE * n <= bytes.len(),
    ensures
        islands_at(bytes.subrange(p, bytes.len() as int), 0, n) == islands_at(bytes, p, n),
{
    let tail = bytes.subrange(p, bytes.len() as int);
    assert forall|k: int| 0 <= k < n implies #[trigger] islands_at(tail, 0, n)[k] == islands_at(
        bytes,
        p,
        n,
    )[k] by {
        let at = QOI_ISLAND_SIZE * k;
        assert forall|j: int| at <= j < at + 16 implies #[trigger] tail[j] == bytes[p + j] by {}
        assert(be_value(tail, at) == be_value(bytes, p + at));
        assert(be_value(tail, at + 4) == be_value(bytes, p + at + 4));
        assert(be_value(tail, at + 8) == be_value(bytes, p + at + 8));
        assert(be_value(tail, at + 12) == be_value(bytes, p + at + 12));
    }
    assert(islands_at(tail, 0, n) =~= islands_at(bytes, p, n));
}

/// Tests whether the padding stands at position `q`.
fn padding_at(data: &[u8], q: usize) -> (b: bool)
    requires
        q + QOI_PADDING_SIZE <= data.len(),
    ensures
        b == (data@.subrange(q as int, q + QOI_PADDING_SIZE) == padding()),
{
    let mut k: usize = 0;
    while k < QOI_PADDING_SIZE
        invariant
            k <= QOI_PADDING_SIZE,
            q + QOI_PADDING_SIZE <= data.len(),
            forall|j: int| q <= j < q + k ==> #[trigger] data@[j] == 0,
        decreases QOI_PADDING_SIZE - k,
    {
        if data[q + k] != 0 {
            proof {
                let found = data@.subrange(q as int, q + QOI_PADDING_SIZE);
                assert(found[k as int] != padding()[k as int]);
            }
            return false;
        }
        k = k + 1;
    }
    proof {
        assert(data@.subrange(q as int, q + QOI_PADDING_SIZE) =~= padding());
    }
    true
}

/// Decodes an image: gives its header, its raw pixel buffer and its
/// islands, each island once.
///
/// Whatever the bytes are, they are never read beyond their end: a stream
/// that is cut short or does not hold what its header declares is refused.
pub fn decode_qoi(data: &[u8]) -> (r: Result<(Header, Vec<u8>, Islands), Error>)
    ensures
        match decoded(data@) {
            Err(e) => r matches Err(x) && x == e,
            Ok((header, pixels, islands)) => r matches Ok((h, raw, found)) && h == header && raw@
                == pixels && found.islands@ == islands && found.islands@.no_duplicates(),
        },
{
    let header = match Header::decode(data) {
        Ok(h) => h,
        Err(e) => {
            return Err(e);
        },
    };
    let len = data.len();
    if len - QOI_HEADER_SIZE < header.n_encode as usize {
        return Err(Error::UnexpectedEndOfStream);
    }
    let (pixels, p) = match decode_pixels(data, &header) {
        Ok(done) => done,
        Err(e) => {
            return Err(e);
        },
    };
    let tail = slice_subrange(data, p, len);
    let islands = match Islands::decode(tail, header.n_islands) {
        Ok(found) => found,
        Err(e) => {
            return Err(e);
        },
    };
    proof {
        lemma_islands_at_tail(data@, p as int, header.n_islands as nat);
    }
    let q = p + QOI_ISLAND_SIZE * header.n_islands as usize;
    let end = QOI_HEADER_SIZE + header.n_encode as usize;
    if len - q < QOI_PADDING_SIZE || q + QOI_PADDING_SIZE != end || !padding_at(data, q) {
        return Err(Error::UnexpectedEndOfStream);
    }
    Ok((header, pixels, islands))
}

} // verus!
