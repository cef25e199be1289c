use crate::buckets::{
    collect, empty_buckets, find_islands_in_parallel, buckets_hold, buckets_of, image_islands,
    lemma_image_islands, views,
};
use crate::bytes::{copy_into, lemma_assemble};
use crate::codec::{encode_ops, initial_index, initial_pixel, pixel_op, pixels_of, run_op};
use crate::consts::{
    QOI_HEADER_SIZE, QOI_ISLAND_SIZE, QOI_ISLAND_WORKERS, QOI_OP_INDEX, QOI_OP_RUN,
    QOI_PADDING_SIZE, QOI_PIXELS_MAX, QOI_RUN_MAX,
};
use crate::error::Error;
use crate::header::{header_bytes, max_len, Header};
use crate::island::{all_boxed, distinct, islands_bytes, keep_distinct, Island, Islands, Point};
use crate::pixel::Pixel;
use crate::types::{Channels, ColorSpace, DiffPolicy, IslandStorage, Settings};
use crate::utils::{clamp_usize, BytesMut, Writer};
use vstd::prelude::*;

verus! {

/// The bytes that close the encoded image.
pub open spec fn padding() -> Seq<u8> {
    Seq::new(QOI_PADDING_SIZE as nat, |i: int| 0u8)
}

/// The op stream of an image.
#[verifier::opaque]
pub open spec fn image_ops(policy: DiffPolicy, data: Seq<u8>, channels: Channels) -> Seq<u8> {
    encode_ops(policy, pixels_of(data, channels), 0, initial_pixel(), initial_index())
}

/// The islands of an image as the encoder writes them: those it finds, in
/// the form that the settings ask for.
#[verifier::opaque]
pub open spec fn kept_islands(settings: Settings, data: Seq<u8>, channels: Channels, width: int)
    -> Seq<Island> {
    let found = image_islands(data, channels, width, settings.workers as int);
    match settings.storage {
        IslandStorage::List => found,
        IslandStorage::Distinct => distinct(found),
    }
}

/// What follows the header of an encoded image: the op stream, the island
/// records and the padding that closes it.
#[verifier::opaque]
pub open spec fn body(settings: Settings, data: Seq<u8>, channels: Channels, width: int) -> Seq<
    u8,
> {
    image_ops(settings.policy, data, channels) + islands_bytes(
        kept_islands(settings, data, channels, width),
    ) + padding()
}

/// Writes the op for a run of `run` pixels.
fn write_run<W: Writer>(buf: W, run: u32) -> (r: Result<W, Error>)
    requires
        1 <= run <= QOI_RUN_MAX,
    ensures
        r is Ok <==> buf.room() >= run_op(run as int).len(),
        r matches Ok(w) ==> w.written() == buf.written() + run_op(run as int) && w.room()
            == buf.room() - run_op(run as int).len(),
{
    let op = [QOI_OP_RUN + (run - 1) as u8];
    assert(op@ =~= run_op(run as int));
    buf.write_many(op.as_slice())
}

/// Writes the op for a pixel that differs from the one before it and
/// enters the pixel into the index cache.
fn write_pixel<W: Writer>(
    buf: W,
    px: Pixel,
    px_prev: Pixel,
    index: &mut [Pixel; 64],
    policy: DiffPolicy,
) -> (r: Result<W, Error>)
    ensures
        final(index)@ == old(index)@.update(px.hash(), px),
        r is Ok <==> buf.room() >= pixel_op(policy, px, px_prev, old(index)@).len(),
        r matches Ok(w) ==> w.written() == buf.written() + pixel_op(
            policy,
            px,
            px_prev,
            old(index)@,
        ) && w.room() == buf.room() - pixel_op(policy, px, px_prev, old(index)@).len(),
{
    let hash = px.hash_index();
    let slot = index[hash as usize];
    if slot == px {
        proof {
            assert(index@ =~= index@.update(px.hash(), px));
        }
        let op = [QOI_OP_INDEX + hash];
        assert(op@ =~= seq![(QOI_OP_INDEX + px.hash()) as u8]);
        buf.write_many(op.as_slice())
    } else {
        index[hash as usize] = px;
        px.encode_into(px_prev, policy, buf)
    }
}

/// Whether the encoder is in step before pixel number `i`: the last `run`
/// pixels were equal to the pixel before them and wait to be written as a
/// run, and no run waits at the end of the image.
pub open spec fn in_step(pixels: Seq<Pixel>, i: int, px_prev: Pixel, run: int) -> bool {
    &&& 0 <= run <= i <= pixels.len()
    &&& run < QOI_RUN_MAX
    &&& i == pixels.len() ==> run == 0
    &&& forall|j: int| i - run <= j < i ==> #[trigger] pixels[j] == px_prev
}

/// One step of the encoder: takes pixel number `i` and writes what is due.
///
/// A pixel equal to the one before it makes the run longer; the run is
/// written when it has reached its greatest length or the image ends. Any
/// other pixel first closes the run, if there is one, and then is written
/// itself and becomes the pixel before the next.
fn encode_pixel<W: Writer>(
    buf: W,
    px: Pixel,
    last: bool,
    px_prev: &mut Pixel,
    run: &mut u32,
    index: &mut [Pixel; 64],
    policy: DiffPolicy,
    Ghost(pixels): Ghost<Seq<Pixel>>,
    Ghost(i): Ghost<int>,
) -> (r: Result<W, Error>)
    requires
        0 <= i < pixels.len(),
        px == pixels[i],
        last == (i == pixels.len() - 1),
        in_step(pixels, i, *old(px_prev), *old(run) as int),
        buf.room() >= encode_ops(policy, pixels, i - *old(run), *old(px_prev), old(index)@).len(),
    ensures
        in_step(pixels, i + 1, *final(px_prev), *final(run) as int),
        r matches Ok(w) && {
            &&& w.written() + encode_ops(
                policy,
                pixels,
                i + 1 - *final(run),
                *final(px_prev),
                final(index)@,
            ) == buf.written() + encode_ops(
                policy,
                pixels,
                i - *old(run),
                *old(px_prev),
                old(index)@,
            )
            &&& w.room() + w.written().len() == buf.room() + buf.written().len()
        },
{
    let ghost written = buf.written();
    if px == *px_prev {
        *run = *run + 1;
        if *run == QOI_RUN_MAX || last {
            proof {
                crate::codec::lemma_encode_ops_run(
                    policy,
                    pixels,
                    i + 1 - *run,
                    *px_prev,
                    index@,
                    *run as int,
                );
                let after = encode_ops(policy, pixels, i + 1, *px_prev, index@);
                assert(written + (run_op(*run as int) + after) =~= (written + run_op(
                    *run as int,
                )) + after);
            }
            let buf = match write_run(buf, *run) {
                Ok(w) => w,
                Err(e) => {
                    return Err(e);
                },
            };
            *run = 0;
            Ok(buf)
        } else {
            Ok(buf)
        }
    } else {
        let mut buf = buf;
        if *run != 0 {
            proof {
                crate::codec::lemma_encode_ops_run(
                    policy,
                    pixels,
                    i - *run,
                    *px_prev,
                    index@,
                    *run as int,
                );
                let after = encode_ops(policy, pixels, i, *px_prev, index@);
                assert(written + (run_op(*run as int) + after) =~= (written + run_op(
                    *run as int,
                )) + after);
            }
            buf = match write_run(buf, *run) {
                Ok(w) => w,
                Err(e) => {
                    return Err(e);
                },
            };
            *run = 0;
        }
        let ghost so_far = buf.written();
        proof {
            crate::codec::lemma_encode_ops_pixel(policy, pixels, i, *px_prev, index@);
            let op = pixel_op(policy, px, *px_prev, index@);
            let after = encode_ops(policy, pixels, i + 1, px, index@.update(px.hash(), px));
            assert(so_far + (op + after) =~= (so_far + op) + after);
        }
        let buf = match write_pixel(buf, px, *px_prev, index, policy) {
            Ok(w) => w,
            Err(e) => {
                return Err(e);
            },
        };
        *px_prev = px;
        Ok(buf)
    }
}

/// The pixel pass: writes the op stream of the image and sorts the
/// foreground points into their row buckets.
///
/// The writer must have room for the longest op stream the image can have,
/// so that no write fails.
fn encode_pixels<W: Writer>(
    buf: W,
    data: &[u8],
    header: &Header,
    policy: DiffPolicy,
    workers: u32,
) -> (r: Result<(W, Vec<Vec<Point>>), Error>)
    requires
        header.valid(),
        workers > 0,
        data@.len() == header.pixel_count() * header.channels.count(),
        buf.room() >= header.pixel_count() * (header.channels.count() + 1),
    ensures
        r matches Ok((w, buckets)) && {
            &&& w.written() == buf.written() + image_ops(policy, data@, header.channels)
            &&& w.room() == buf.room() - image_ops(policy, data@, header.channels).len()
            &&& views(buckets@) == buckets_of(
                data@,
                header.channels,
                header.width as int,
                workers as int,
            )
        },
{
    let channels = header.channels;
    let width = header.width;
    let n_channels: usize = channels.as_u8() as usize;
    let n_pixels: usize = header.n_pixels();
    let ghost pixels = pixels_of(data@, channels);
    let ghost start = buf.written();
    let ghost room = buf.room();
    let ghost total = image_ops(policy, data@, channels);
    proof {
        reveal(image_ops);
        lemma_ops_fit(policy, data@, header.width, header.height, channels);
        assert(width > 0) by (nonlinear_arith)
            requires
                width == header.width,
                header.width * header.height > 0,
        ;
    }
    let mut buf = buf;
    let mut index: [Pixel; 64] = [Pixel::new(); 64];
    let mut px_prev = Pixel::new().with_a(0xff);
    let mut run: u32 = 0;
    let mut buckets = empty_buckets(workers);
    proof {
        assert(index@ =~= initial_index());
        assert(start + total =~= start + encode_ops(policy, pixels, 0, px_prev, index@));
    }
    let mut row: u32 = 0;
    let mut col: u32 = 0;
    let mut offset: usize = 0;
    let mut i: usize = 0;
    while i < n_pixels
        invariant
            workers > 0,
            0 < width == header.width,
            n_channels == channels.count(),
            n_pixels == header.pixel_count(),
            data.len() == n_pixels * n_channels,
            pixels == pixels_of(data@, channels),
            pixels.len() == n_pixels,
            total.len() <= room,
            0 <= i <= n_pixels,
            offset == i * n_channels,
            i == row * width + col,
            col < width,
            in_step(pixels, i as int, px_prev, run as int),
            start + total == buf.written() + encode_ops(
                policy,
                pixels,
                i - run,
                px_prev,
                index@,
            ),
            buf.room() + buf.written().len() == room + start.len(),
            buckets_hold(buckets@, data@, channels, width as int, workers as int, i as int),
        decreases n_pixels - i,
    {
        proof {
            assert(offset + n_channels <= data.len()) by (nonlinear_arith)
                requires
                    offset == i * n_channels,
                    i < n_pixels,
                    data.len() == n_pixels * n_channels,
            ;
            assert(i * channels.count() == offset);
            let due = encode_ops(policy, pixels, i - run, px_prev, index@);
            assert((start + total).len() == (buf.written() + due).len());
        }
        let px = Pixel::read(data, offset, channels);
        let background = px.r == 0 && px.g == 0 && px.b == 0 && match channels {
            Channels::Rgb => true,
            Channels::Rgba => px.a == 0,
        };
        collect(
            &mut buckets,
            background,
            row,
            col,
            workers,
            Ghost(data@),
            Ghost(channels),
            Ghost(width as int),
            Ghost(i as int),
        );
        buf = match encode_pixel(
            buf,
            px,
            i == n_pixels - 1,
            &mut px_prev,
            &mut run,
            &mut index,
            policy,
            Ghost(pixels),
            Ghost(i as int),
        ) {
            Ok(w) => w,
            Err(e) => {
                return Err(e);
            },
        };
        i = i + 1;
        offset = offset + n_channels;
        if col == width - 1 {
            col = 0;
            proof {
                let w = width as int;
                let h = header.height as int;
                let r = row as int;
                assert(r < h) by (nonlinear_arith)
                    requires
                        r * w + (w - 1) < w * h,
                        w > 0,
                        r >= 0,
                ;
                assert((r + 1) * w == r * w + w) by (nonlinear_arith);
            }
            row = row + 1;
        } else {
            col = col + 1;
        }
        proof {
            assert(offset == i * n_channels) by (nonlinear_arith)
                requires
                    offset == (i - 1) * n_channels + n_channels,
            ;
        }
    }
    proof {
        assert(encode_ops(policy, pixels, i as int, px_prev, index@) =~= Seq::<u8>::empty());
        assert(buf.written() =~= start + total);
        assert(data@.len() as int / channels.count() == n_pixels);
        assert(views(buckets@) =~= buckets_of(
            data@,
            header.channels,
            header.width as int,
            workers as int,
        ));
    }
    Ok((buf, buckets))
}

/// The op stream of an image that can be encoded takes at most one byte
/// more per pixel than the raw pixel buffer.
pub proof fn lemma_ops_fit(
    policy: DiffPolicy,
    data: Seq<u8>,
    width: u32,
    height: u32,
    channels: Channels,
)
    requires
        0 < width * height <= QOI_PIXELS_MAX,
        data.len() == width * height * channels.count(),
    ensures
        pixels_of(data, channels).len() == width * height,
        image_ops(policy, data, channels).len() <= width * height * (channels.count() + 1),
        width * height * (channels.count() + 1) == data.len() + width * height,
{
    reveal(image_ops);
    let n = width * height;
    let pixels = pixels_of(data, channels);
    let c = channels.count();
    assert(n * c == (if c == 3 { 3 * n } else { 4 * n })) by (nonlinear_arith)
        requires
            c == 3 || c == 4,
    ;
    if channels == Channels::Rgb {
        assert(data.len() / 3 == n);
    } else {
        assert(data.len() / 4 == n);
    }
    assert(pixels.len() == n);
    crate::codec::lemma_ops_len(policy, pixels, 0, initial_pixel(), initial_index());
    if channels == Channels::Rgb {
        assert forall|j: int| 0 <= j < pixels.len() implies (#[trigger] pixels[j]).a
            == initial_pixel().a by {}
    }
    assert(n * (c + 1) == (if c == 3 { 4 * n } else { 5 * n })) by (nonlinear_arith)
        requires
            c == 3 || c == 4,
    ;
}

/// Finds the islands of the row buckets of an image and keeps them in the
/// form that the settings ask for.
fn find_kept(
    buckets: &Vec<Vec<Point>>,
    settings: Settings,
    Ghost(data): Ghost<Seq<u8>>,
    Ghost(channels): Ghost<Channels>,
    Ghost(width): Ghost<int>,
) -> (islands: Vec<Island>)
    requires
        settings.valid(),
        views(buckets@) == buckets_of(data, channels, width, settings.workers as int),
    ensures
        islands@ == kept_islands(settings, data, channels, width),
{
    proof {
        reveal(kept_islands);
        lemma_image_islands(data, channels, width, settings.workers as int);
    }
    let found = find_islands_in_parallel(buckets);
    match settings.storage {
        IslandStorage::List => found,
        IslandStorage::Distinct => keep_distinct(found),
    }
}

/// Encodes what follows the header into a writer that has room for the
/// longest op stream the image can have, so that the pixel pass cannot fail
/// half way. Whether the island records and the padding fit as well is
/// checked before the first of them is written.
fn encode_with_room<W: Writer>(buf: W, data: &[u8], header: &Header, settings: Settings) -> (r:
    Result<(W, usize, usize), Error>)
    requires
        header.valid(),
        settings.valid(),
        data@.len() == header.pixel_count() * header.channels.count(),
        buf.room() >= header.pixel_count() * (header.channels.count() + 1),
    ensures
        r is Ok <==> buf.room() >= body(
            settings,
            data@,
            header.channels,
            header.width as int,
        ).len(),
        r matches Ok((w, n_encode, n_islands)) ==> {
            &&& w.written() == buf.written() + body(
                settings,
                data@,
                header.channels,
                header.width as int,
            )
            &&& w.room() == buf.room() - n_encode
            &&& n_encode == body(settings, data@, header.channels, header.width as int).len()
            &&& n_islands == kept_islands(
                settings,
                data@,
                header.channels,
                header.width as int,
            ).len()
        },
        r matches Err(e) ==> e == (Error::OutputBufferTooSmall {
            size: buf.room() as usize,
            required: body(settings, data@, header.channels, header.width as int).len() as usize,
        }),
{
    proof {
        reveal(body);
        lemma_body_len(settings, data@, header.channels, header.width, header.height);
    }
    let cap = buf.capacity();
    let ghost start = buf.written();
    let (buf, buckets) = match encode_pixels(buf, data, header, settings.policy, settings.workers) {
        Ok(done) => done,
        Err(e) => {
            return Err(e);
        },
    };
    let islands = find_kept(
        &buckets,
        settings,
        Ghost(data@),
        Ghost(header.channels),
        Ghost(header.width as int),
    );
    let n_islands = islands.len();
    let left = buf.capacity();
    let n_ops = cap - left;
    let need = n_islands * QOI_ISLAND_SIZE + QOI_PADDING_SIZE;
    if left < need {
        return Err(Error::OutputBufferTooSmall { size: cap, required: n_ops + need });
    }
    let buf = match Islands::encode(buf, &islands) {
        Ok(w) => w,
        Err(e) => {
            return Err(e);
        },
    };
    let zeros = [0u8; 8];
    proof {
        assert(zeros@ =~= padding());
    }
    let buf = match buf.write_many(zeros.as_slice()) {
        Ok(w) => w,
        Err(e) => {
            return Err(e);
        },
    };
    proof {
        let ops = image_ops(settings.policy, data@, header.channels);
        assert(buf.written() =~= start + ((ops + islands_bytes(islands@)) + padding()));
    }
    Ok((buf, n_ops + need, n_islands))
}

/// Encodes what follows the header: the op stream of the image, the
/// records of its islands and the padding. Returns the writer, the number
/// of bytes written and the number of islands.
///
/// Fails if the writer has too little room for all of it, and says how much
/// room there was and how much is needed.
pub fn encode_impl<W: Writer>(buf: W, data: &[u8], header: &Header, settings: Settings) -> (r:
    Result<(W, usize, usize), Error>)
    requires
        header.valid(),
        settings.valid(),
        data@.len() == header.pixel_count() * header.channels.count(),
    ensures
        r is Ok <==> buf.room() >= body(
            settings,
            data@,
            header.channels,
            header.width as int,
        ).len(),
        r matches Ok((w, n_encode, n_islands)) ==> {
            &&& w.written() == buf.written() + body(
                settings,
                data@,
                header.channels,
                header.width as int,
            )
            &&& w.room() == buf.room() - n_encode
            &&& n_encode == body(settings, data@, header.channels, header.width as int).len()
            &&& n_islands == kept_islands(
                settings,
                data@,
                header.channels,
                header.width as int,
            ).len()
        },
        r matches Err(e) ==> e == (Error::OutputBufferTooSmall {
            size: buf.room() as usize,
            required: body(settings, data@, header.channels, header.width as int).len() as usize,
        }),
{
    proof {
        lemma_body_len(settings, data@, header.channels, header.width, header.height);
    }
    let cap = buf.capacity();
    let most = header.encode_max_len() - QOI_HEADER_SIZE - QOI_PADDING_SIZE;
    if cap >= most {
        return encode_with_room(buf, data, header, settings);
    }
    // The op stream may not fit: it is measured on the side before a byte
    // is written.
    match encode_with_room(Vec::new(), data, header, settings) {
        Ok((bytes, n_encode, n_islands)) => {
            if cap < n_encode {
                return Err(Error::OutputBufferTooSmall { size: cap, required: n_encode });
            }
            match buf.write_many(bytes.as_slice()) {
                Ok(w) => Ok((w, n_encode, n_islands)),
                Err(e) => Err(e),
            }
        },
        Err(e) => Err(e),
    }
}

/// The header that an encoded image carries.
pub open spec fn encoded_header(
    settings: Settings,
    colorspace: ColorSpace,
    data: Seq<u8>,
    width: u32,
    height: u32,
    channels: Channels,
) -> Header {
    Header {
        width,
        height,
        channels,
        colorspace,
        n_encode: body(settings, data, channels, width as int).len() as u32,
        n_islands: kept_islands(settings, data, channels, width as int).len() as u32,
    }
}

/// The encoded image: the header, which says how many bytes follow it and
/// how many of them are island records, then the op stream, the island
/// records and the padding.
pub open spec fn encoded(
    settings: Settings,
    colorspace: ColorSpace,
    data: Seq<u8>,
    width: u32,
    height: u32,
    channels: Channels,
) -> Seq<u8> {
    header_bytes(encoded_header(settings, colorspace, data, width, height, channels)) + body(
        settings,
        data,
        channels,
        width as int,
    )
}

/// The settings that are used where none are given: differences are
/// measured canonically, there are eight row buckets, and the islands are
/// kept as a list.
pub open spec fn default_settings() -> Settings {
    Settings {
        policy: DiffPolicy::Canonical,
        workers: QOI_ISLAND_WORKERS,
        storage: IslandStorage::List,
    }
}

/// What the encoder makes of the length of a pixel buffer and the size of
/// the image: the channel count, or why the image cannot be encoded.
///
/// The checks come in this order: an empty image, too many pixels, a buffer
/// that is not a whole number of bytes per pixel long, a channel count other
/// than 3 and 4.
pub open spec fn check_image(size: nat, width: u32, height: u32) -> Result<Channels, Error> {
    let n = width * height;
    if n == 0 {
        Err(Error::EmptyImage { width, height })
    } else if n > QOI_PIXELS_MAX {
        Err(Error::InvalidDimensions { width, height })
    } else if size % (n as nat) != 0 {
        Err(Error::BadEncodingDataSize { size: size as usize, width, height })
    } else if size / (n as nat) == 3 {
        Ok(Channels::Rgb)
    } else if size / (n as nat) == 4 {
        Ok(Channels::Rgba)
    } else {
        Err(
            Error::InvalidChannels {
                channels: if size / (n as nat) > 255 {
                    255u8
                } else {
                    (size / (n as nat)) as u8
                },
            },
        )
    }
}

/// The most bytes an image of the given size can take without its island
/// records, or `usize::MAX` if that is smaller.
///
/// A buffer of this size holds every image that has no foreground. Each
/// island of the image takes sixteen bytes more.
pub fn encode_max_len(width: u32, height: u32, channels: u8) -> (n: usize)
    ensures
        n == clamp_usize(max_len(width, height, channels as int)),
{
    let px = crate::utils::mul_u32(width, height) as u128;
    assert(px * channels <= 0xffff_ffff_ffff_ffff * 255) by (nonlinear_arith)
        requires
            px <= 0xffff_ffff_ffff_ffff,
            channels <= 255,
    ;
    let n = QOI_HEADER_SIZE as u128 + px * channels as u128 + px + QOI_PADDING_SIZE as u128;
    if n > usize::MAX as u128 {
        usize::MAX
    } else {
        n as usize
    }
}

/// Encodes an image into a buffer and returns the number of bytes written.
///
/// The channel count is taken from the length of the pixel buffer. The
/// buffer must hold at least `encode_max_len` bytes and the whole encoded
/// image; it is written to only if it does.
pub fn encode_to_buf(buf: &mut [u8], data: &[u8], width: u32, height: u32) -> (r: Result<
    usize,
    Error,
>)
    ensures
        final(buf)@.len() == old(buf)@.len(),
        match check_image(data@.len(), width, height) {
            Err(e) => r == Err::<usize, Error>(e) && final(buf)@ == old(buf)@,
            Ok(channels) => {
                let out = encoded(
                    default_settings(),
                    ColorSpace { tag: 0 },
                    data@,
                    width,
                    height,
                    channels,
                );
                let least = max_len(width, height, channels.count());
                if old(buf)@.len() < least {
                    r == Err::<usize, Error>(
                        Error::OutputBufferTooSmall {
                            size: old(buf)@.len() as usize,
                            required: least as usize,
                        },
                    ) && final(buf)@ == old(buf)@
                } else if old(buf)@.len() < out.len() {
                    r == Err::<usize, Error>(
                        Error::OutputBufferTooSmall {
                            size: old(buf)@.len() as usize,
                            required: out.len() as usize,
                        },
                    ) && final(buf)@ == old(buf)@
                } else {
                    r == Ok::<usize, Error>(out.len() as usize) && final(buf)@.subrange(
                        0,
                        out.len() as int,
                    ) == out && final(buf)@.subrange(out.len() as int, old(buf)@.len() as int)
                        == old(buf)@.subrange(out.len() as int, old(buf)@.len() as int)
                }
            },
        },
{
    let mut encoder = match Encoder::new(data, width, height) {
        Ok(encoder) => encoder,
        Err(e) => {
            return Err(e);
        },
    };
    encoder.encode_to_buf(buf)
}

/// Encodes an image into a new vector.
///
/// The channel count is taken from the length of the pixel buffer. Every
/// image that passes the checks is encoded; an image is refused as empty if
/// and only if its width or its height is zero.
pub fn encode_to_vec(data: &[u8], width: u32, height: u32) -> (r: Result<Vec<u8>, Error>)
    ensures
        match check_image(data@.len(), width, height) {
            Err(e) => r matches Err(x) && x == e,
            Ok(channels) => r matches Ok(out) && out@ == encoded(
                default_settings(),
                ColorSpace { tag: 0 },
                data@,
                width,
                height,
                channels,
            ),
        },
        (r matches Err(e) && e is EmptyImage) <==> width * height == 0,
{
    let mut encoder = match Encoder::new(data, width, height) {
        Ok(encoder) => encoder,
        Err(e) => {
            return Err(e);
        },
    };
    encoder.encode_to_vec()
}

/// An image that is ready to be encoded, with the choices of how.
pub struct Encoder<'a> {
    data: &'a [u8],
    header: Header,
    settings: Settings,
}

impl<'a> Encoder<'a> {
    #[verifier::type_invariant]
    spec fn inv(self) -> bool {
        &&& self.header.valid()
        &&& self.settings.valid()
        &&& self.data@.len() == self.header.pixel_count() * self.header.channels.count()
    }

    /// The raw pixel buffer of the image.
    pub closed spec fn pixels(&self) -> Seq<u8> {
        self.data@
    }

    /// The header of the image as it stands.
    pub closed spec fn shape(&self) -> Header {
        self.header
    }

    /// The choices of how the image is encoded.
    pub closed spec fn choices(&self) -> Settings {
        self.settings
    }

    /// The header after encoding: it says how many bytes follow it and how
    /// many islands were written.
    pub open spec fn filled(&self) -> Header {
        encoded_header(
            self.choices(),
            self.shape().colorspace,
            self.pixels(),
            self.shape().width,
            self.shape().height,
            self.shape().channels,
        )
    }

    /// What encoding gives.
    pub open spec fn output(&self) -> Seq<u8> {
        encoded(
            self.choices(),
            self.shape().colorspace,
            self.pixels(),
            self.shape().width,
            self.shape().height,
            self.shape().channels,
        )
    }

    /// Makes an encoder for an image, unless the image is empty or too
    /// large or its pixel buffer has no valid length.
    ///
    /// The channel count is taken from the length of the pixel buffer. The
    /// colour space is sRGB, differences are measured canonically, there
    /// are eight row buckets and the islands are kept as a list, until
    /// another choice is made.
    pub fn new(data: &'a [u8], width: u32, height: u32) -> (r: Result<Self, Error>)
        ensures
            match check_image(data@.len(), width, height) {
                Err(e) => r matches Err(x) && x == e,
                Ok(channels) => r matches Ok(encoder) && {
                    &&& encoder.pixels() == data@
                    &&& encoder.shape() == (Header {
                        width,
                        height,
                        channels,
                        colorspace: ColorSpace { tag: 0 },
                        n_encode: 0,
                        n_islands: 0,
                    })
                    &&& encoder.choices() == default_settings()
                },
            },
    {
        let header = match Header::try_new(
            width,
            height,
            0,
            0,
            Channels::default(),
            ColorSpace::default(),
        ) {
            Ok(h) => h,
            Err(e) => {
                return Err(e);
            },
        };
        let size = data.len();
        let n = header.n_pixels();
        if size % n != 0 {
            return Err(Error::BadEncodingDataSize { size, width, height });
        }
        let n_channels = size / n;
        let channels = match Channels::from_u8(
            if n_channels > 0xff {
                0xff
            } else {
                n_channels as u8
            },
        ) {
            Ok(c) => c,
            Err(e) => {
                return Err(e);
            },
        };
        proof {
            vstd::arithmetic::div_mod::lemma_fundamental_div_mod(size as int, n as int);
            assert(n * (size / n) == (size / n) * n) by (nonlinear_arith);
        }
        Ok(Encoder { data, header: Header { channels, ..header }, settings: Settings::default() })
    }

    /// The same encoder with another colour space tag.
    pub fn with_colorspace(self, colorspace: ColorSpace) -> (r: Self)
        ensures
            r.pixels() == self.pixels(),
            r.shape() == (Header { colorspace, ..self.shape() }),
            r.choices() == self.choices(),
    {
        proof {
            use_type_invariant(&self);
        }
        Encoder {
            data: self.data,
            header: self.header.with_colorspace(colorspace),
            settings: self.settings,
        }
    }

    /// The same encoder with another way to measure differences.
    pub fn with_diff_policy(self, policy: DiffPolicy) -> (r: Self)
        ensures
            r.pixels() == self.pixels(),
            r.shape() == self.shape(),
            r.choices() == (Settings { policy, ..self.choices() }),
    {
        proof {
            use_type_invariant(&self);
        }
        Encoder {
            data: self.data,
            header: self.header,
            settings: Settings { policy, ..self.settings },
        }
    }

    /// The same encoder with another number of row buckets. There is always
    /// at least one bucket: none counts as one. With one bucket an island is
    /// all the foreground that is connected. More buckets than the image
    /// has rows find the same islands as one bucket for each row.
    pub fn with_workers(self, workers: u32) -> (r: Self)
        ensures
            r.pixels() == self.pixels(),
            r.shape() == self.shape(),
            r.choices() == (Settings {
                workers: if workers == 0 {
                    1
                } else {
                    workers
                },
                ..self.choices()
            }),
    {
        proof {
            use_type_invariant(&self);
        }
        let workers = if workers == 0 {
            1
        } else {
            workers
        };
        Encoder {
            data: self.data,
            header: self.header,
            settings: Settings { workers, ..self.settings },
        }
    }

    /// The same encoder with another form in which the islands are kept.
    pub fn with_island_storage(self, storage: IslandStorage) -> (r: Self)
        ensures
            r.pixels() == self.pixels(),
            r.shape() == self.shape(),
            r.choices() == (Settings { storage, ..self.choices() }),
    {
        proof {
            use_type_invariant(&self);
        }
        Encoder {
            data: self.data,
            header: self.header,
            settings: Settings { storage, ..self.settings },
        }
    }

    /// The choices of how the image is encoded.
    pub fn settings(&self) -> (s: Settings)
        ensures
            s == self.choices(),
            s.valid(),
    {
        proof {
            use_type_invariant(self);
        }
        self.settings
    }

    /// The channel count of the image.
    pub fn channels(&self) -> (c: Channels)
        ensures
            c == self.shape().channels,
    {
        self.header.channels
    }

    /// The header of the image. The number of bytes that follow it and the
    /// number of islands are zero until the image has been encoded.
    pub fn header(&self) -> (h: &Header)
        ensures
            *h == self.shape(),
    {
        &self.header
    }

    /// The size of the smallest buffer that `encode_to_buf` takes: what
    /// the image can take at most without its island records.
    pub fn required_buf_len(&self) -> (n: usize)
        ensures
            n == max_len(
                self.shape().width,
                self.shape().height,
                self.shape().channels.count(),
            ),
    {
        proof {
            use_type_invariant(self);
        }
        self.header.encode_max_len()
    }

    /// Encodes the image into a buffer and returns the number of bytes
    /// written. On success the header of the encoder says how long the
    /// image is behind it and how many islands were written.
    ///
    /// The buffer must be at least `required_buf_len` bytes long and long
    /// enough for the encoded image. It is written to only if the whole
    /// encoded image fits.
    pub fn encode_to_buf(&mut self, buf: &mut [u8]) -> (r: Result<usize, Error>)
        ensures
            final(buf)@.len() == old(buf)@.len(),
            final(self).pixels() == old(self).pixels(),
            final(self).choices() == old(self).choices(),
            ({
                let out = old(self).output();
                let least = max_len(
                    old(self).shape().width,
                    old(self).shape().height,
                    old(self).shape().channels.count(),
                );
                if old(buf)@.len() < least {
                    &&& r == Err::<usize, Error>(
                        Error::OutputBufferTooSmall {
                            size: old(buf)@.len() as usize,
                            required: least as usize,
                        },
                    )
                    &&& final(buf)@ == old(buf)@
                    &&& final(self).shape() == old(self).shape()
                } else if old(buf)@.len() < out.len() {
                    &&& r == Err::<usize, Error>(
                        Error::OutputBufferTooSmall {
                            size: old(buf)@.len() as usize,
                            required: out.len() as usize,
                        },
                    )
                    &&& final(buf)@ == old(buf)@
                    &&& final(self).shape() == old(self).shape()
                } else {
                    &&& r == Ok::<usize, Error>(out.len() as usize)
                    &&& final(buf)@.subrange(0, out.len() as int) == out
                    &&& final(buf)@.subrange(out.len() as int, old(buf)@.len() as int) == old(
                        buf,
                    )@.subrange(out.len() as int, old(buf)@.len() as int)
                    &&& final(self).shape() == old(self).filled()
                }
            }),
    {
        proof {
            use_type_invariant(&*self);
            lemma_body_len(
                self.settings,
                self.data@,
                self.header.channels,
                self.header.width,
                self.header.height,
            );
            crate::header::lemma_header_len(self.filled());
        }
        let size = buf.len();
        let size_required = self.required_buf_len();
        if size < size_required {
            return Err(Error::OutputBufferTooSmall { size, required: size_required });
        }
        // The image cannot take more than this, however large the buffer is.
        let most = size_required - QOI_HEADER_SIZE + self.header.n_pixels() * QOI_ISLAND_SIZE;
        let room = size - QOI_HEADER_SIZE;
        let writer = BytesMut::new(
            if room < most {
                room
            } else {
                most
            },
        );
        match encode_impl(writer, self.data, &self.header, self.settings) {
            Err(e) => match e {
                Error::OutputBufferTooSmall { size: _, required } => Err(
                    Error::OutputBufferTooSmall { size, required: QOI_HEADER_SIZE + required },
                ),
                other => Err(other),
            },
            Ok((writer, n_encode, n_islands)) => {
                let bytes = writer.into_vec();
                let header = Header {
                    n_encode: n_encode as u32,
                    n_islands: n_islands as u32,
                    ..self.header
                };
                self.header = header;
                let head = header.encode();
                store(buf, head.as_slice(), bytes.as_slice());
                Ok(QOI_HEADER_SIZE + bytes.len())
            },
        }
    }

    /// Encodes the image into a new vector. On return the header of the
    /// encoder says how long the image is behind it and how many islands
    /// were written.
    pub fn encode_to_vec(&mut self) -> (r: Result<Vec<u8>, Error>)
        ensures
            r matches Ok(out) && out@ == old(self).output(),
            final(self).pixels() == old(self).pixels(),
            final(self).choices() == old(self).choices(),
            final(self).shape() == old(self).filled(),
    {
        proof {
            use_type_invariant(&*self);
            lemma_body_len(
                self.settings,
                self.data@,
                self.header.channels,
                self.header.width,
                self.header.height,
            );
        }
        let ghost rest = body(
            self.settings,
            self.data@,
            self.header.channels,
            self.header.width as int,
        );
        let mut out: Vec<u8> = Vec::with_capacity(self.required_buf_len());
        let blank = [0u8; 22];
        out.extend_from_slice(blank.as_slice());
        proof {
            assert(out@ =~= blank@);
        }
        let (out, n_encode, n_islands) = match encode_impl(
            out,
            self.data,
            &self.header,
            self.settings,
        ) {
            Ok(done) => done,
            Err(e) => {
                return Err(e);
            },
        };
        let header = Header {
            n_encode: n_encode as u32,
            n_islands: n_islands as u32,
            ..self.header
        };
        self.header = header;
        let head = header.encode();
        let out = put_header(out, head.as_slice(), Ghost(blank@), Ghost(rest));
        Ok(out)
    }
}

/// Writes the header over the bytes that were kept free for it at the
/// start of a vector.
fn put_header(out: Vec<u8>, head: &[u8], Ghost(blank): Ghost<Seq<u8>>, Ghost(body): Ghost<Seq<u8>>)
    -> (r: Vec<u8>)
    requires
        blank.len() == head@.len(),
        out@ == blank + body,
    ensures
        r@ == head@ + body,
{
    let mut out = out;
    let ghost before = out@;
    copy_into(out.as_mut_slice(), 0, head);
    proof {
        assert(before.subrange(head@.len() as int, before.len() as int) =~= body);
        lemma_assemble(out@, head@, body);
    }
    out
}

/// Writes the header and what follows it to the start of a buffer that holds
/// both.
fn store(buf: &mut [u8], head: &[u8], body: &[u8])
    requires
        head.len() + body.len() <= old(buf).len(),
    ensures
        final(buf)@.len() == old(buf)@.len(),
        final(buf)@.subrange(0, head.len() + body.len()) == head@ + body@,
        final(buf)@.subrange(head.len() + body.len(), old(buf)@.len() as int) == old(
            buf,
        )@.subrange(head.len() + body.len(), old(buf)@.len() as int),
{
    let ghost before = buf@;
    copy_into(buf, 0, head);
    let ghost between = buf@;
    copy_into(buf, head.len(), body);
    proof {
        let n = (head@.len() + body@.len()) as int;
        let out = buf@.subrange(0, n as int);
        assert(out.subrange(0, head@.len() as int) =~= buf@.subrange(0, head@.len() as int));
        assert(between.subrange(0, head@.len() as int) =~= head@);
        assert(out.subrange(head@.len() as int, n as int) =~= buf@.subrange(
            head@.len() as int,
            n as int,
        ));
        lemma_assemble(out, head@, body@);
        assert(buf@.subrange(n as int, before.len() as int) =~= before.subrange(
            n as int,
            before.len() as int,
        )) by {
            assert forall|k: int| n <= k < before.len() implies buf@[k] == before[k] by {
                assert(buf@.subrange(n as int, before.len() as int)[k - n] == buf@[k]);
                assert(between.subrange(n as int, before.len() as int)[k - n] == between[k]);
                assert(between.subrange(head@.len() as int, before.len() as int)[k
                    - head@.len()] == between[k]);
                assert(before.subrange(head@.len() as int, before.len() as int)[k
                    - head@.len()] == before[k]);
            }
        }
    }
}

/// What follows the header of an image that can be encoded is as long as
/// its parts together. The op stream takes at most one byte more per pixel
/// than the raw pixel buffer. There are at most as many islands as pixels,
/// and every island has its two corners. So the number of bytes that follow
/// the header and the number of islands fit the header.
pub proof fn lemma_body_len(
    settings: Settings,
    data: Seq<u8>,
    channels: Channels,
    width: u32,
    height: u32,
)
    requires
        settings.valid(),
        0 < width * height <= QOI_PIXELS_MAX,
        data.len() == width * height * channels.count(),
    ensures
        all_boxed(kept_islands(settings, data, channels, width as int)),
        kept_islands(settings, data, channels, width as int).len() <= width * height,
        width * height * (channels.count() + 1) == data.len() + width * height,
        image_ops(settings.policy, data, channels).len() <= data.len() + width * height,
        body(settings, data, channels, width as int).len() == image_ops(
            settings.policy,
            data,
            channels,
        ).len() + QOI_ISLAND_SIZE * kept_islands(settings, data, channels, width as int).len()
            + QOI_PADDING_SIZE,
        QOI_HEADER_SIZE + body(settings, data, channels, width as int).len() <= u32::MAX,
{
    reveal(body);
    reveal(kept_islands);
    lemma_ops_fit(settings.policy, data, width, height, channels);
    lemma_image_islands(data, channels, width as int, settings.workers as int);
    crate::island::lemma_distinct(
        image_islands(data, channels, width as int, settings.workers as int),
    );
    let kept = kept_islands(settings, data, channels, width as int);
    crate::island::lemma_islands_bytes_len(kept, kept.len() as int);
}

} // verus!
