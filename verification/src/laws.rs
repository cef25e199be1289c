use crate::buckets::{
    bucket_upto, buckets_of, image_islands, joined_upto, lemma_bucket_has,
    lemma_bucket_rows_apart, lemma_joined_from, lemma_joined_has, place,
};
use crate::bytes::{be_bytes, lemma_be_round_trip, lemma_split};
use crate::codec::{
    encode_ops, initial_index, initial_pixel, pixel_op, pixels_of, raw_bytes, run_length, run_op,
    run_ops,
};
use crate::consts::{
    QOI_HEADER_SIZE, QOI_ISLAND_SIZE, QOI_PADDING_SIZE, QOI_PIXELS_MAX, QOI_RUN_MAX,
};
use crate::decode::decoded;
use crate::encode::{
    body, check_image, encoded, encoded_header, image_ops, kept_islands, lemma_body_len, padding,
};
use crate::error::Error;
use crate::header::{header_bytes, max_len, Header};
use crate::island::{
    all_boxed, distinct, distinct_upto, island_at, island_bytes, islands_at, islands_bytes,
    islands_bytes_upto, Island, Point,
};
use crate::pixel::Pixel;
use crate::region::{
    boxes, component, holds, is_bounding_box, islands_of, islands_upto, lemma_boxes_holds,
    lemma_islands_cover, lemma_islands_in_rows,
};
use crate::types::{Channels, ColorSpace, DiffPolicy, Settings};
use vstd::prelude::*;

verus! {

/// Whether an image can be encoded: it has at least one pixel and no more
/// than the format allows, and its pixel buffer has the length that goes
/// with its size and channel count.
pub open spec fn valid_image(data: Seq<u8>, width: u32, height: u32, channels: Channels) -> bool {
    &&& 0 < width * height <= QOI_PIXELS_MAX
    &&& data.len() == width * height * channels.count()
}

/// The raw pixel buffer of the pixels of a raw pixel buffer is the buffer.
pub proof fn lemma_raw_round_trip(data: Seq<u8>, channels: Channels)
    requires
        data.len() % (channels.count() as nat) == 0,
    ensures
        raw_bytes(pixels_of(data, channels), channels) == data,
{
    let pixels = pixels_of(data, channels);
    let back = raw_bytes(pixels, channels);
    if channels == Channels::Rgb {
        assert(channels.count() == 3);
        assert(pixels.len() == data.len() / 3);
        assert(data.len() == 3 * (data.len() / 3));
        assert(back.len() == pixels.len() * 3);
        assert forall|k: int| 0 <= k < data.len() implies back[k] == data[k] by {
            assert(k == (k / 3) * 3 + k % 3);
        }
    } else {
        assert(channels.count() == 4);
        assert(pixels.len() == data.len() / 4);
        assert(data.len() == 4 * (data.len() / 4));
        assert(back.len() == pixels.len() * 4);
        assert forall|k: int| 0 <= k < data.len() implies back[k] == data[k] by {
            assert(k == (k / 4) * 4 + k % 4);
        }
    }
    assert(back =~= data);
}

/// The records of the first `j` islands stand at the start of the records
/// of the first `m`.
proof fn lemma_islands_bytes_prefix(islands: Seq<Island>, j: int, m: int)
    requires
        0 <= j <= m <= islands.len(),
    ensures
        islands_bytes_upto(islands, m).len() == QOI_ISLAND_SIZE * m,
        islands_bytes_upto(islands, m).subrange(0, QOI_ISLAND_SIZE * j) == islands_bytes_upto(
            islands,
            j,
        ),
    decreases m - j,
{
    crate::island::lemma_islands_bytes_len(islands, m);
    crate::island::lemma_islands_bytes_len(islands, j);
    if j == m {
        assert(islands_bytes_upto(islands, m).subrange(0, QOI_ISLAND_SIZE * j)
            =~= islands_bytes_upto(islands, j));
    } else {
        lemma_islands_bytes_prefix(islands, j, m - 1);
        crate::island::lemma_islands_bytes_len(islands, m - 1);
        assert(islands_bytes_upto(islands, m).subrange(0, QOI_ISLAND_SIZE * j)
            =~= islands_bytes_upto(islands, m - 1).subrange(0, QOI_ISLAND_SIZE * j));
    }
}

/// An island read back from its record is the island.
proof fn lemma_island_record(island: Island, bytes: Seq<u8>, p: int)
    requires
        island.top_left is Some,
        island.btm_right is Some,
        0 <= p,
        p + QOI_ISLAND_SIZE <= bytes.len(),
        bytes.subrange(p, p + QOI_ISLAND_SIZE) == island_bytes(island),
    ensures
        island_at(bytes, p) == island,
{
    let a = be_bytes(island.min().0);
    let b = be_bytes(island.min().1);
    let c = be_bytes(island.max().0);
    let d = be_bytes(island.max().1);
    assert(island_bytes(island) == ((a + b) + c) + d);
    lemma_split(bytes, p, (a + b) + c, d);
    lemma_split(bytes, p, a + b, c);
    lemma_split(bytes, p, a, b);
    lemma_be_round_trip(island.min().0, bytes, p);
    lemma_be_round_trip(island.min().1, bytes, p + 4);
    lemma_be_round_trip(island.max().0, bytes, p + 8);
    lemma_be_round_trip(island.max().1, bytes, p + 12);
    assert(island.top_left == Some(island.min()));
    assert(island.btm_right == Some(island.max()));
}

/// Islands read back from their records are the islands.
pub proof fn lemma_islands_round_trip(islands: Seq<Island>, bytes: Seq<u8>, p: int)
    requires
        all_boxed(islands),
        0 <= p,
        p + islands_bytes(islands).len() <= bytes.len(),
        bytes.subrange(p, p + islands_bytes(islands).len()) == islands_bytes(islands),
    ensures
        islands_bytes(islands).len() == QOI_ISLAND_SIZE * islands.len(),
        islands_at(bytes, p, islands.len()) == islands,
{
    let n = islands.len() as int;
    let records = islands_bytes(islands);
    crate::island::lemma_islands_bytes_len(islands, n);
    assert forall|k: int| 0 <= k < n implies #[trigger] islands_at(bytes, p, islands.len())[k]
        == islands[k] by {
        let at = QOI_ISLAND_SIZE * k;
        lemma_islands_bytes_prefix(islands, k + 1, n);
        lemma_islands_bytes_prefix(islands, k, k + 1);
        let upto = islands_bytes_upto(islands, k + 1);
        assert(upto == islands_bytes_upto(islands, k) + island_bytes(islands[k]));
        assert(upto.subrange(at, at + 16) =~= island_bytes(islands[k]));
        assert(bytes.subrange(p + at, p + at + 16) =~= bytes.subrange(
            p,
            p + records.len(),
        ).subrange(0, QOI_ISLAND_SIZE * (k + 1)).subrange(at, at + 16));
        lemma_island_record(islands[k], bytes, p + at);
    }
    assert(islands_at(bytes, p, islands.len()) =~= islands);
}

/// Round trip: decoding an encoded image gives the header the image was
/// encoded with, the raw pixel buffer as it was, and the islands of the
/// image, each island once. This holds for every image that can be encoded,
/// whatever the colour space tag and the settings.
pub proof fn lemma_round_trip(
    settings: Settings,
    colorspace: ColorSpace,
    data: Seq<u8>,
    width: u32,
    height: u32,
    channels: Channels,
)
    requires
        settings.valid(),
        valid_image(data, width, height, channels),
    ensures
        decoded(encoded(settings, colorspace, data, width, height, channels)) == Ok::<
            (Header, Seq<u8>, Seq<Island>),
            Error,
        >(
            (
                encoded_header(settings, colorspace, data, width, height, channels),
                data,
                distinct(image_islands(data, channels, width as int, settings.workers as int)),
            ),
        ),
{
    reveal(image_ops);
    reveal(kept_islands);
    let header = encoded_header(settings, colorspace, data, width, height, channels);
    let ops = image_ops(settings.policy, data, channels);
    let found = image_islands(data, channels, width as int, settings.workers as int);
    let kept = kept_islands(settings, data, channels, width as int);
    let bytes = encoded(settings, colorspace, data, width, height, channels);
    let pixels = pixels_of(data, channels);
    lemma_encoded_parts(settings, colorspace, data, width, height, channels);
    lemma_body_len(settings, data, channels, width, height);
    crate::island::lemma_distinct(found);
    crate::header::lemma_header_round_trip(header, bytes);
    let p = QOI_HEADER_SIZE + ops.len();
    let q = p + islands_bytes(kept).len();
    crate::codec::lemma_ops_round_trip(
        settings.policy,
        pixels,
        0,
        initial_pixel(),
        initial_index(),
        bytes,
        QOI_HEADER_SIZE as int,
    );
    assert(pixels.subrange(0, pixels.len() as int) =~= pixels);
    lemma_pixel_count(data, width, height, channels);
    lemma_raw_round_trip(data, channels);
    lemma_islands_round_trip(kept, bytes, p as int);
    assert(q + QOI_PADDING_SIZE == QOI_HEADER_SIZE + header.n_encode);
    assert((bytes.len() - p) / 16 == kept.len());
}

/// An image that can be encoded has as many pixels as its size says, and
/// its pixel buffer is a whole number of pixels long.
pub proof fn lemma_pixel_count(data: Seq<u8>, width: u32, height: u32, channels: Channels)
    requires
        valid_image(data, width, height, channels),
    ensures
        pixels_of(data, channels).len() == width * height,
        data.len() % (channels.count() as nat) == 0,
{
    let c = channels.count();
    let n = width * height;
    assert(n * c == (if c == 3 { 3 * n } else { 4 * n })) by (nonlinear_arith)
        requires
            c == 3 || c == 4,
    ;
    if channels == Channels::Rgb {
        assert(data.len() / 3 == n);
    } else {
        assert(data.len() / 4 == n);
    }
}

/// Where the parts of an encoded image stand: the header, the op stream,
/// the island records and the padding, one after the other.
pub proof fn lemma_encoded_parts(
    settings: Settings,
    colorspace: ColorSpace,
    data: Seq<u8>,
    width: u32,
    height: u32,
    channels: Channels,
)
    ensures
        ({
            let bytes = encoded(settings, colorspace, data, width, height, channels);
            let head = header_bytes(
                encoded_header(settings, colorspace, data, width, height, channels),
            );
            let ops = image_ops(settings.policy, data, channels);
            let records = islands_bytes(kept_islands(settings, data, channels, width as int));
            let p = QOI_HEADER_SIZE + ops.len();
            let q = p + records.len();
            &&& head.len() == QOI_HEADER_SIZE
            &&& bytes.len() == q + QOI_PADDING_SIZE
            &&& bytes.subrange(0, QOI_HEADER_SIZE as int) == head
            &&& bytes.subrange(QOI_HEADER_SIZE as int, p as int) == ops
            &&& bytes.subrange(p as int, q as int) == records
            &&& bytes.subrange(q as int, q + QOI_PADDING_SIZE) == padding()
        }),
{
    let head = header_bytes(
        encoded_header(settings, colorspace, data, width, height, channels),
    );
    let ops = image_ops(settings.policy, data, channels);
    let records = islands_bytes(kept_islands(settings, data, channels, width as int));
    reveal(body);
    crate::header::lemma_header_len(
        encoded_header(settings, colorspace, data, width, height, channels),
    );
    lemma_four_parts(head, ops, records, padding());
}

/// Where four runs of bytes stand that are put one after the other.
proof fn lemma_four_parts(a: Seq<u8>, b: Seq<u8>, c: Seq<u8>, d: Seq<u8>)
    ensures
        ({
            let bytes = a + ((b + c) + d);
            let p = a.len() + b.len();
            let q = p + c.len();
            &&& bytes.len() == q + d.len()
            &&& bytes.subrange(0, a.len() as int) == a
            &&& bytes.subrange(a.len() as int, p as int) == b
            &&& bytes.subrange(p as int, q as int) == c
            &&& bytes.subrange(q as int, (q + d.len()) as int) == d
        }),
{
    let bytes = a + ((b + c) + d);
    assert(bytes.subrange(0, bytes.len() as int) =~= bytes);
    lemma_split(bytes, 0, a, (b + c) + d);
    lemma_split(bytes, a.len() as int, b + c, d);
    lemma_split(bytes, a.len() as int, b, c);
}

/// Length: an encoded image is as long as its header, its op stream, its
/// island records and the padding together, and its header says how many
/// bytes follow it and how many islands there are.
pub proof fn lemma_encoded_len(
    settings: Settings,
    colorspace: ColorSpace,
    data: Seq<u8>,
    width: u32,
    height: u32,
    channels: Channels,
)
    requires
        settings.valid(),
        valid_image(data, width, height, channels),
    ensures
        encoded(settings, colorspace, data, width, height, channels).len() == QOI_HEADER_SIZE
            + image_ops(settings.policy, data, channels).len() + QOI_ISLAND_SIZE * kept_islands(
            settings,
            data,
            channels,
            width as int,
        ).len() + QOI_PADDING_SIZE,
        encoded(settings, colorspace, data, width, height, channels).len() == QOI_HEADER_SIZE
            + encoded_header(settings, colorspace, data, width, height, channels).n_encode,
        encoded_header(settings, colorspace, data, width, height, channels).n_islands
            == kept_islands(settings, data, channels, width as int).len(),
{
    lemma_encoded_parts(settings, colorspace, data, width, height, channels);
    lemma_body_len(settings, data, channels, width, height);
}

/// Size bound: the header, the op stream and the padding of an encoded
/// image never take more than `max_len`, since the op stream takes at most
/// one byte more per pixel than the raw pixel buffer. The island records
/// come on top: the whole encoded image takes at most `max_len` and sixteen
/// bytes for each island.
pub proof fn lemma_size_bound(
    settings: Settings,
    colorspace: ColorSpace,
    data: Seq<u8>,
    width: u32,
    height: u32,
    channels: Channels,
)
    requires
        settings.valid(),
        valid_image(data, width, height, channels),
    ensures
        QOI_HEADER_SIZE + image_ops(settings.policy, data, channels).len() + QOI_PADDING_SIZE
            <= max_len(width, height, channels.count()),
        encoded(settings, colorspace, data, width, height, channels).len() <= max_len(
            width,
            height,
            channels.count(),
        ) + QOI_ISLAND_SIZE * kept_islands(settings, data, channels, width as int).len(),
{
    lemma_encoded_len(settings, colorspace, data, width, height, channels);
    lemma_body_len(settings, data, channels, width, height);
}

/// Size bound of the whole image: an encoded image stays within `max_len`
/// if its island records take no more room than its op stream leaves free
/// of the one byte more per pixel that it may take. An image without islands
/// always does.
pub proof fn lemma_size_bound_whole(
    settings: Settings,
    colorspace: ColorSpace,
    data: Seq<u8>,
    width: u32,
    height: u32,
    channels: Channels,
)
    requires
        settings.valid(),
        valid_image(data, width, height, channels),
        image_ops(settings.policy, data, channels).len() + QOI_ISLAND_SIZE * kept_islands(
            settings,
            data,
            channels,
            width as int,
        ).len() <= data.len() + width * height,
    ensures
        encoded(settings, colorspace, data, width, height, channels).len() <= max_len(
            width,
            height,
            channels.count(),
        ),
{
    lemma_encoded_len(settings, colorspace, data, width, height, channels);
    lemma_body_len(settings, data, channels, width, height);
}

/// Run boundary: where the pixels from number `i` to the end are all equal
/// to the pixel before them, their op stream is made of runs alone. A run is
/// written each time it reaches the greatest length, and what is left when
/// the pixels end is written as a last run, so that more pixels than the
/// greatest length give at least two runs and no pixel is left out.
pub proof fn lemma_trailing_run(
    policy: DiffPolicy,
    pixels: Seq<Pixel>,
    i: int,
    prev: Pixel,
    index: Seq<Pixel>,
)
    requires
        0 <= i <= pixels.len(),
        forall|j: int| i <= j < pixels.len() ==> #[trigger] pixels[j] == prev,
    ensures
        encode_ops(policy, pixels, i, prev, index) == run_ops((pixels.len() - i) as nat),
    decreases pixels.len() - i,
{
    let m = pixels.len() - i;
    if m == 0 {
    } else if m <= QOI_RUN_MAX {
        crate::codec::lemma_encode_ops_run(policy, pixels, i, prev, index, m);
        assert(encode_ops(policy, pixels, i + m, prev, index) =~= Seq::<u8>::empty());
        assert(run_op(m) + Seq::<u8>::empty() =~= run_op(m));
    } else {
        crate::codec::lemma_encode_ops_run(policy, pixels, i, prev, index, QOI_RUN_MAX as int);
        lemma_trailing_run(policy, pixels, i + QOI_RUN_MAX, prev, index);
    }
}

/// The pixel that counts as the one before pixel number `i`.
pub open spec fn pixel_before(pixels: Seq<Pixel>, i: int) -> Pixel {
    if i <= 0 {
        initial_pixel()
    } else {
        pixels[i - 1]
    }
}

/// The ops for `m` pixels that are all equal to the pixel before them take
/// one byte for every 62 pixels begun.
pub proof fn lemma_run_ops_len(m: nat)
    ensures
        run_ops(m).len() == (m + QOI_RUN_MAX - 1) / (QOI_RUN_MAX as int),
    decreases m,
{
    if m > QOI_RUN_MAX {
        lemma_run_ops_len((m - QOI_RUN_MAX) as nat);
    }
}

/// Whether `whole` ends with `tail`.
pub open spec fn ends_with(whole: Seq<u8>, tail: Seq<u8>) -> bool {
    tail.len() <= whole.len() && whole.subrange(whole.len() - tail.len(), whole.len() as int)
        == tail
}

/// What ends with `tail` still does so with bytes put before it.
proof fn lemma_ends_with(first: Seq<u8>, whole: Seq<u8>, tail: Seq<u8>)
    requires
        ends_with(whole, tail),
    ensures
        ends_with(first + whole, tail),
{
    let all = first + whole;
    assert(all.subrange(all.len() - tail.len(), all.len() as int) =~= whole.subrange(
        whole.len() - tail.len(),
        whole.len() as int,
    ));
}

/// Where pixel number `s - 1` differs from the pixel before it, no run
/// goes across: the op stream from pixel `i` on ends with the op stream
/// from pixel `s` on, whatever the index cache has become by then.
proof fn lemma_ops_up_to(
    policy: DiffPolicy,
    pixels: Seq<Pixel>,
    i: int,
    index: Seq<Pixel>,
    s: int,
)
    requires
        0 <= i <= s <= pixels.len(),
        s == i || pixels[s - 1] != pixel_before(pixels, s - 1),
    ensures
        exists|idx: Seq<Pixel>|
            ends_with(
                encode_ops(policy, pixels, i, pixel_before(pixels, i), index),
                #[trigger] encode_ops(policy, pixels, s, pixel_before(pixels, s), idx),
            ),
    decreases s - i,
{
    let prev = pixel_before(pixels, i);
    let whole = encode_ops(policy, pixels, i, prev, index);
    if i == s {
        assert(whole.subrange(0, whole.len() as int) =~= whole);
        assert(ends_with(whole, encode_ops(policy, pixels, s, pixel_before(pixels, s), index)));
    } else if pixels[i] == prev {
        let more = run_length(pixels, i + 1, prev, (QOI_RUN_MAX - 1) as nat) as int;
        crate::codec::lemma_run_length(pixels, i + 1, prev, (QOI_RUN_MAX - 1) as nat);
        let next = i + 1 + more;
        assert forall|j: int| i <= j < next implies #[trigger] pixels[j] == prev by {}
        if next > s - 1 {
            assert(pixels[s - 1] == prev);
            if s - 1 > i {
                assert(pixels[s - 2] == prev);
            }
        }
        assert(pixels[next - 1] == prev);
        lemma_ops_up_to(policy, pixels, next, index, s);
        let idx = choose|idx: Seq<Pixel>|
            ends_with(
                encode_ops(policy, pixels, next, pixel_before(pixels, next), index),
                #[trigger] encode_ops(policy, pixels, s, pixel_before(pixels, s), idx),
            );
        lemma_ends_with(
            run_op(1 + more),
            encode_ops(policy, pixels, next, prev, index),
            encode_ops(policy, pixels, s, pixel_before(pixels, s), idx),
        );
    } else {
        let px = pixels[i];
        let next = index.update(px.hash(), px);
        lemma_ops_up_to(policy, pixels, i + 1, next, s);
        let idx = choose|idx: Seq<Pixel>|
            ends_with(
                encode_ops(policy, pixels, i + 1, pixel_before(pixels, i + 1), next),
                #[trigger] encode_ops(policy, pixels, s, pixel_before(pixels, s), idx),
            );
        lemma_ends_with(
            pixel_op(policy, px, prev, index),
            encode_ops(policy, pixels, i + 1, px, next),
            encode_ops(policy, pixels, s, pixel_before(pixels, s), idx),
        );
    }
}

/// Pixels that are each equal to the pixel before them are all equal to
/// the pixel before the first of them.
proof fn lemma_run_is_flat(pixels: Seq<Pixel>, s: int, j: int)
    requires
        0 <= s <= j < pixels.len(),
        forall|k: int| s <= k < pixels.len() ==> #[trigger] pixels[k] == pixel_before(pixels, k),
    ensures
        pixels[j] == pixel_before(pixels, s),
    decreases j - s,
{
    if j > s {
        lemma_run_is_flat(pixels, s, j - 1);
    }
}

/// Run boundary of an image: where the last `r` pixels of an image are each
/// equal to the pixel before them, and the pixel before these is not, the
/// op stream of the image ends with the runs for these `r` pixels: as many
/// runs of 62 as fit, and a last run for the pixels that are left. So `r`
/// pixels give one run for every 62 begun, and none is left out.
pub proof fn lemma_run_boundary(policy: DiffPolicy, data: Seq<u8>, channels: Channels, r: nat)
    requires
        r <= pixels_of(data, channels).len(),
        forall|k: int|
            pixels_of(data, channels).len() - r <= k < pixels_of(data, channels).len() ==> (
            #[trigger] pixels_of(data, channels)[k]) == pixel_before(pixels_of(data, channels), k),
        r == pixels_of(data, channels).len() || pixels_of(data, channels)[pixels_of(
            data,
            channels,
        ).len() - r - 1] != pixel_before(
            pixels_of(data, channels),
            pixels_of(data, channels).len() - r - 1,
        ),
    ensures
        ends_with(image_ops(policy, data, channels), run_ops(r)),
        run_ops(r).len() == (r + QOI_RUN_MAX - 1) / (QOI_RUN_MAX as int),
{
    reveal(image_ops);
    let pixels = pixels_of(data, channels);
    let s = pixels.len() - r;
    lemma_ops_up_to(policy, pixels, 0, initial_index(), s);
    let idx = choose|idx: Seq<Pixel>|
        ends_with(
            encode_ops(policy, pixels, 0, pixel_before(pixels, 0), initial_index()),
            #[trigger] encode_ops(policy, pixels, s, pixel_before(pixels, s), idx),
        );
    assert forall|j: int| s <= j < pixels.len() implies #[trigger] pixels[j] == pixel_before(
        pixels,
        s,
    ) by {
        lemma_run_is_flat(pixels, s, j);
    }
    lemma_trailing_run(policy, pixels, s, pixel_before(pixels, s), idx);
    lemma_run_ops_len(r);
}

/// No foreground among the first `i` pixels leaves every bucket empty.
proof fn lemma_bucket_empty(
    data: Seq<u8>,
    channels: Channels,
    width: int,
    workers: int,
    b: int,
    i: int,
)
    requires
        forall|j: int| 0 <= j < i ==> Pixel::is_background(data, j, channels),
    ensures
        bucket_upto(data, channels, width, workers, b, i) == Seq::<Point>::empty(),
    decreases i,
{
    if i > 0 {
        lemma_bucket_empty(data, channels, width, workers, b, i - 1);
    }
}

/// Empty buckets have no islands.
proof fn lemma_joined_empty(buckets: Seq<Seq<Point>>, k: int)
    requires
        0 <= k <= buckets.len(),
        forall|b: int| 0 <= b < k ==> (#[trigger] buckets[b]).len() == 0,
    ensures
        joined_upto(buckets, k) == Seq::<Island>::empty(),
    decreases k,
{
    if k > 0 {
        lemma_joined_empty(buckets, k - 1);
        assert(buckets[k - 1].len() == 0);
        assert(islands_of(buckets[k - 1]) =~= Seq::<Island>::empty());
    }
}

/// Background only: an image whose bytes are all zero has no islands. What
/// follows its header is the op stream and the padding, with no island
/// record between them, and decoding what encoding gives finds no island.
pub proof fn lemma_background_only(
    settings: Settings,
    colorspace: ColorSpace,
    data: Seq<u8>,
    width: u32,
    height: u32,
    channels: Channels,
)
    requires
        settings.valid(),
        valid_image(data, width, height, channels),
        forall|k: int| 0 <= k < data.len() ==> data[k] == 0,
    ensures
        kept_islands(settings, data, channels, width as int) == Seq::<Island>::empty(),
        body(settings, data, channels, width as int) == image_ops(settings.policy, data, channels)
            + padding(),
        encoded(settings, colorspace, data, width, height, channels).len() <= max_len(
            width,
            height,
            channels.count(),
        ),
        decoded(encoded(settings, colorspace, data, width, height, channels)) == Ok::<
            (Header, Seq<u8>, Seq<Island>),
            Error,
        >(
            (
                encoded_header(settings, colorspace, data, width, height, channels),
                data,
                Seq::<Island>::empty(),
            ),
        ),
{
    reveal(kept_islands);
    let n = data.len() as int / channels.count();
    lemma_pixel_count(data, width, height, channels);
    assert forall|j: int| 0 <= j < n implies Pixel::is_background(data, j, channels) by {
        if channels == Channels::Rgb {
            assert(j * 3 + 2 < data.len());
        } else {
            assert(j * 4 + 3 < data.len());
        }
    }
    let workers = settings.workers as int;
    let buckets = buckets_of(data, channels, width as int, workers);
    assert forall|b: int| 0 <= b < workers implies (#[trigger] buckets[b]).len() == 0 by {
        lemma_bucket_empty(data, channels, width as int, workers, b, n);
    }
    lemma_joined_empty(buckets, workers);
    lemma_round_trip(settings, colorspace, data, width, height, channels);
    assert(distinct_upto(Seq::<Island>::empty(), 0) =~= Seq::<Island>::empty());
    lemma_encoded_len(settings, colorspace, data, width, height, channels);
    lemma_body_len(settings, data, channels, width, height);
    assert(body(settings, data, channels, width as int) =~= image_ops(
        settings.policy,
        data,
        channels,
    ) + padding()) by {
        reveal(body);
        assert(islands_bytes(Seq::<Island>::empty()) =~= Seq::<u8>::empty());
    }
}

/// With one foreground pixel the bucket of its row holds its place and
/// every other bucket is empty.
proof fn lemma_bucket_single(
    data: Seq<u8>,
    channels: Channels,
    width: int,
    workers: int,
    b: int,
    i: int,
    at: int,
)
    requires
        0 <= at,
        !Pixel::is_background(data, at, channels),
        forall|j: int| 0 <= j < i && j != at ==> Pixel::is_background(data, j, channels),
    ensures
        bucket_upto(data, channels, width, workers, b, i) == if at < i && (at / width) % workers
            == b {
            seq![((at / width) as u32, (at % width) as u32)]
        } else {
            Seq::<Point>::empty()
        },
    decreases i,
{
    if i > 0 {
        lemma_bucket_single(data, channels, width, workers, b, i - 1, at);
        if at == i - 1 && (at / width) % workers == b {
            assert(Seq::<Point>::empty().push(((at / width) as u32, (at % width) as u32))
                =~= seq![((at / width) as u32, (at % width) as u32)]);
        }
    }
}

/// A single point is an island by itself: its bounding box is the point.
pub proof fn lemma_islands_of_one(p: Point)
    ensures
        islands_of(seq![p]) == seq![Island { top_left: Some(p), btm_right: Some(p) }],
{
    let points = seq![p];
    let all = points.to_set();
    let island = Island { top_left: Some(p), btm_right: Some(p) };
    assert(points[0] == p);
    assert(all.contains(p));
    assert forall|q: Point| all.contains(q) implies q == p by {
        let k = choose|k: int| 0 <= k < points.len() && points[k] == q;
    }
    let c = component(all, p);
    crate::region::lemma_connected_self(all, p);
    assert(c.contains(p));
    assert forall|q: Point| c.contains(q) implies q == p by {
        crate::region::lemma_component_inside(all, p, q);
    }
    assert(c.contains(p) && p.0 == island.min().0);
    assert(c.contains(p) && p.1 == island.min().1);
    assert(c.contains(p) && p.0 == island.max().0);
    assert(c.contains(p) && p.1 == island.max().1);
    assert(is_bounding_box(c, island));
    crate::region::lemma_box_found(c, island);
    assert(!crate::region::met_before(points, 0, p));
    assert(islands_upto(points, 0) =~= Seq::<Island>::empty());
    assert(islands_upto(points, 1) =~= seq![island]);
}

/// The islands of buckets of which one holds a single point and the
/// others nothing.
proof fn lemma_joined_single(buckets: Seq<Seq<Point>>, k: int, at: int, p: Point)
    requires
        0 <= k <= buckets.len(),
        0 <= at < buckets.len(),
        buckets[at] == seq![p],
        forall|b: int| 0 <= b < buckets.len() && b != at ==> (#[trigger] buckets[b]).len() == 0,
    ensures
        joined_upto(buckets, k) == if at < k {
            seq![Island { top_left: Some(p), btm_right: Some(p) }]
        } else {
            Seq::<Island>::empty()
        },
    decreases k,
{
    if k > 0 {
        lemma_joined_single(buckets, k - 1, at, p);
        if k - 1 == at {
            lemma_islands_of_one(p);
            assert(Seq::<Island>::empty() + seq![Island { top_left: Some(p), btm_right: Some(p) }]
                =~= seq![Island { top_left: Some(p), btm_right: Some(p) }]);
        } else {
            assert(buckets[k - 1].len() == 0);
            assert(islands_of(buckets[k - 1]) =~= Seq::<Island>::empty());
            assert(joined_upto(buckets, k - 1) + Seq::<Island>::empty() =~= joined_upto(
                buckets,
                k - 1,
            ));
        }
    }
}

/// Single foreground pixel: an image in which exactly one pixel has a byte
/// that is not zero has exactly one island, and both corners of the island
/// are the place of that pixel. What follows its header is the op stream,
/// the one record of that island and the padding, and decoding what
/// encoding gives finds that island.
pub proof fn lemma_single_foreground(
    settings: Settings,
    colorspace: ColorSpace,
    data: Seq<u8>,
    width: u32,
    height: u32,
    channels: Channels,
    at: int,
)
    requires
        settings.valid(),
        valid_image(data, width, height, channels),
        0 <= at < width * height,
        !Pixel::is_background(data, at, channels),
        forall|j: int|
            0 <= j < width * height && j != at ==> Pixel::is_background(data, j, channels),
    ensures
        ({
            let place = ((at / width as int) as u32, (at % width as int) as u32);
            let island = Island { top_left: Some(place), btm_right: Some(place) };
            &&& kept_islands(settings, data, channels, width as int) == seq![island]
            &&& body(settings, data, channels, width as int) == image_ops(
                settings.policy,
                data,
                channels,
            ) + (be_bytes(place.0) + be_bytes(place.1) + be_bytes(place.0) + be_bytes(place.1))
                + padding()
            &&& decoded(encoded(settings, colorspace, data, width, height, channels))
                == Ok::<(Header, Seq<u8>, Seq<Island>), Error>(
                (
                    encoded_header(settings, colorspace, data, width, height, channels),
                    data,
                    seq![island],
                ),
            )
        }),
{
    reveal(kept_islands);
    let w = width as int;
    let n = data.len() as int / channels.count();
    let place = ((at / w) as u32, (at % w) as u32);
    let island = Island { top_left: Some(place), btm_right: Some(place) };
    lemma_pixel_count(data, width, height, channels);
    assert(n == width * height);
    assert(w > 0) by (nonlinear_arith)
        requires
            w * height > 0,
            height >= 0,
    ;
    let workers = settings.workers as int;
    let home = (at / w) % workers;
    let buckets = buckets_of(data, channels, w, workers);
    assert forall|b: int| 0 <= b < workers implies #[trigger] buckets[b] == if b == home {
        seq![place]
    } else {
        Seq::<Point>::empty()
    } by {
        lemma_bucket_single(data, channels, w, workers, b, n, at);
    }
    lemma_joined_single(buckets, workers, home, place);
    lemma_round_trip(settings, colorspace, data, width, height, channels);
    let one = seq![island];
    assert(distinct_upto(one, 0) =~= Seq::<Island>::empty());
    assert(!distinct_upto(one, 0).contains(one[0]));
    assert(distinct_upto(one, 1) =~= one);
    assert(body(settings, data, channels, w) =~= image_ops(settings.policy, data, channels) + (
    be_bytes(place.0) + be_bytes(place.1) + be_bytes(place.0) + be_bytes(place.1)) + padding())
        by {
        reveal(body);
        assert(islands_bytes_upto(one, 0) =~= Seq::<u8>::empty());
        assert(islands_bytes(one) =~= island_bytes(island));
    }
}

/// A list of islands without those that came before holds the same
/// islands as the list.
proof fn lemma_distinct_same(islands: Seq<Island>, island: Island)
    ensures
        distinct(islands).contains(island) <==> islands.contains(island),
{
    crate::island::lemma_distinct_upto(islands, islands.len() as int);
    assert(islands.subrange(0, islands.len() as int) =~= islands);
}

/// Island partition, what is covered: every foreground pixel of an image
/// lies inside one of the islands that are written for the image, and
/// inside one of those that decoding gives. So the islands of a connected
/// region together cover the region, into however many islands the row
/// buckets split it.
pub proof fn lemma_islands_cover_foreground(
    settings: Settings,
    data: Seq<u8>,
    width: u32,
    height: u32,
    channels: Channels,
    at: int,
)
    requires
        settings.valid(),
        valid_image(data, width, height, channels),
        0 <= at < width * height,
        !Pixel::is_background(data, at, channels),
    ensures
        exists|island: Island| #[trigger]
            kept_islands(settings, data, channels, width as int).contains(island) && holds(
                island,
                place(at, width as int),
            ),
        exists|island: Island| #[trigger]
            distinct(
                image_islands(data, channels, width as int, settings.workers as int),
            ).contains(island) && holds(island, place(at, width as int)),
{
    reveal(kept_islands);
    let w = width as int;
    let workers = settings.workers as int;
    let n = data.len() as int / channels.count();
    lemma_pixel_count(data, width, height, channels);
    assert(w > 0) by (nonlinear_arith)
        requires
            w * height > 0,
            height >= 0,
    ;
    let b = (at / w) % workers;
    vstd::arithmetic::div_mod::lemma_mod_pos_bound(at / w, workers);
    let buckets = buckets_of(data, channels, w, workers);
    let bucket = buckets[b];
    lemma_bucket_has(data, channels, w, workers, n, at);
    let i = choose|i: int| 0 <= i < bucket.len() && bucket[i] == place(at, w);
    lemma_islands_cover(bucket, bucket.len() as int, i);
    let j = choose|j: int|
        0 <= j < islands_of(bucket).len() && boxes(
            bucket,
            #[trigger] islands_upto(bucket, bucket.len() as int)[j],
            bucket[i],
        );
    let island = islands_of(bucket)[j];
    lemma_boxes_holds(bucket, island, place(at, w));
    assert(islands_of(bucket).contains(island));
    lemma_joined_has(buckets, workers, b, island);
    let found = image_islands(data, channels, w, workers);
    assert(found.contains(island));
    lemma_distinct_same(found, island);
    assert(kept_islands(settings, data, channels, w).contains(island) && holds(
        island,
        place(at, w),
    ));
    assert(distinct(found).contains(island) && holds(island, place(at, w)));
}

/// Island partition, how it splits: with two row buckets or more, every
/// island that is written for an image lies in a single row, since the rows
/// of a bucket do not touch. So connected foreground that spans several
/// rows gives an island in each of these rows and never one island for all.
pub proof fn lemma_islands_are_rows(
    settings: Settings,
    data: Seq<u8>,
    width: u32,
    height: u32,
    channels: Channels,
    island: Island,
)
    requires
        settings.workers >= 2,
        valid_image(data, width, height, channels),
        kept_islands(settings, data, channels, width as int).contains(island),
    ensures
        island.top_left is Some,
        island.btm_right is Some,
        island.min().0 == island.max().0,
{
    reveal(kept_islands);
    let w = width as int;
    let workers = settings.workers as int;
    let n = data.len() as int / channels.count();
    lemma_pixel_count(data, width, height, channels);
    assert(w > 0) by (nonlinear_arith)
        requires
            w * height > 0,
            height >= 0,
    ;
    let found = image_islands(data, channels, w, workers);
    lemma_distinct_same(found, island);
    let buckets = buckets_of(data, channels, w, workers);
    lemma_joined_from(buckets, workers, island);
    let b = choose|b: int| 0 <= b < workers && islands_of(#[trigger] buckets[b]).contains(island);
    let bucket = buckets[b];
    let j = choose|j: int| 0 <= j < islands_of(bucket).len() && islands_of(bucket)[j] == island;
    lemma_bucket_rows_apart(data, channels, w, height, workers, b, n);
    lemma_islands_in_rows(bucket, j);
}

/// What the checks of the encoder make of an image whose pixel buffer has
/// the length that goes with its size and a channel count of 3 or 4: only
/// an empty image and one with too many pixels are refused.
pub proof fn lemma_check_image(size: nat, width: u32, height: u32, channels: Channels)
    requires
        size == width * height * channels.count(),
    ensures
        check_image(size, width, height) == (if width * height == 0 {
            Err::<Channels, Error>(Error::EmptyImage { width, height })
        } else if width * height > QOI_PIXELS_MAX {
            Err::<Channels, Error>(Error::InvalidDimensions { width, height })
        } else {
            Ok::<Channels, Error>(channels)
        }),
        check_image(size, width, height) is Ok <==> 0 < width * height <= QOI_PIXELS_MAX,
{
    let n = width * height;
    let c = channels.count();
    if 0 < n <= QOI_PIXELS_MAX {
        assert(n * c == c * n) by (nonlinear_arith);
        vstd::arithmetic::div_mod::lemma_fundamental_div_mod_converse(
            size as int,
            n as int,
            c,
            0,
        );
    }
}

} // verus!
