use crate::island::{all_boxed, Island, Islands, Point};
use crate::pixel::Pixel;
use crate::region::islands_of;
use crate::types::Channels;
use rayon::prelude::IntoParallelRefIterator;
use rayon::prelude::ParallelIterator;
use vstd::prelude::*;

verus! {

/// The foreground points among the first `i` pixels that fall into row
/// bucket `b`, in the order of the pixels. A pixel is a foreground point if
/// one of its bytes is not zero; the bucket of a point is its row modulo the
/// number of workers.
pub open spec fn bucket_upto(
    data: Seq<u8>,
    channels: Channels,
    width: int,
    workers: int,
    b: int,
    i: int,
) -> Seq<Point>
    decreases i,
{
    if i <= 0 {
        Seq::empty()
    } else {
        let before = bucket_upto(data, channels, width, workers, b, i - 1);
        let j = i - 1;
        if !Pixel::is_background(data, j, channels) && (j / width) % workers == b {
            before.push(((j / width) as u32, (j % width) as u32))
        } else {
            before
        }
    }
}

/// The row buckets of an image: for each worker the foreground points
/// whose row modulo the number of workers is the worker's number.
pub open spec fn buckets_of(data: Seq<u8>, channels: Channels, width: int, workers: int) -> Seq<
    Seq<Point>,
> {
    Seq::new(
        workers as nat,
        |b: int|
            bucket_upto(data, channels, width, workers, b, data.len() as int / channels.count()),
    )
}

/// The buckets of the first `i` pixels.
pub open spec fn buckets_upto(
    data: Seq<u8>,
    channels: Channels,
    width: int,
    workers: int,
    i: int,
) -> Seq<Seq<Point>> {
    Seq::new(workers as nat, |b: int| bucket_upto(data, channels, width, workers, b, i))
}

/// The islands of the first `k` buckets, bucket after bucket.
pub open spec fn joined_upto(buckets: Seq<Seq<Point>>, k: int) -> Seq<Island>
    decreases k,
{
    if k <= 0 {
        Seq::empty()
    } else {
        joined_upto(buckets, k - 1) + islands_of(buckets[k - 1])
    }
}

/// The islands of all buckets, bucket after bucket.
pub open spec fn joined(buckets: Seq<Seq<Point>>) -> Seq<Island> {
    joined_upto(buckets, buckets.len() as int)
}

/// The islands of an image as the encoder finds them: the islands of each
/// row bucket by itself, bucket after bucket. Foreground that spans rows of
/// two buckets gives an island in each of them.
pub open spec fn image_islands(data: Seq<u8>, channels: Channels, width: int, workers: int)
    -> Seq<Island> {
    joined(buckets_of(data, channels, width, workers))
}

/// The point lists that a vector of buckets holds.
pub open spec fn views(buckets: Seq<Vec<Point>>) -> Seq<Seq<Point>> {
    Seq::new(buckets.len(), |b: int| buckets[b]@)
}

/// Whether the buckets hold the foreground points among the first `i`
/// pixels.
pub open spec fn buckets_hold(
    buckets: Seq<Vec<Point>>,
    data: Seq<u8>,
    channels: Channels,
    width: int,
    workers: int,
    i: int,
) -> bool {
    &&& buckets.len() == workers
    &&& forall|b: int|
        0 <= b < workers ==> (#[trigger] buckets[b])@ == bucket_upto(
            data,
            channels,
            width,
            workers,
            b,
            i,
        )
}

/// The number of points in the first `k` buckets.
pub open spec fn total_len(buckets: Seq<Seq<Point>>, k: int) -> int
    decreases k,
{
    if k <= 0 {
        0
    } else {
        total_len(buckets, k - 1) + buckets[k - 1].len()
    }
}

/// As many empty buckets as there are workers.
pub(crate) fn empty_buckets(workers: u32) -> (buckets: Vec<Vec<Point>>)
    ensures
        buckets@.len() == workers,
        forall|b: int| 0 <= b < workers ==> (#[trigger] buckets@[b])@ == Seq::<Point>::empty(),
{
    let mut buckets: Vec<Vec<Point>> = Vec::new();
    let mut b: u32 = 0;
    while b < workers
        invariant
            b <= workers,
            buckets@.len() == b,
            forall|k: int| 0 <= k < b ==> (#[trigger] buckets@[k])@ == Seq::<Point>::empty(),
        decreases workers - b,
    {
        buckets.push(Vec::new());
        b = b + 1;
    }
    buckets
}

/// Enters a foreground point into its row bucket.
fn record_point(buckets: &mut Vec<Vec<Point>>, row: u32, col: u32, workers: u32)
    requires
        workers > 0,
        old(buckets)@.len() == workers,
    ensures
        final(buckets)@.len() == workers,
        forall|b: int|
            0 <= b < workers && b != row % workers ==> #[trigger] final(buckets)@[b] == old(
                buckets,
            )@[b],
        final(buckets)@[(row % workers) as int]@ == old(buckets)@[(row % workers) as int]@.push(
            (row, col),
        ),
{
    let b = (row % workers) as usize;
    buckets[b].push((row, col));
}

/// Sorts pixel number `i`, which lies in row `row` and column `col`, into
/// its row bucket if it is a foreground point.
pub(crate) fn collect(
    buckets: &mut Vec<Vec<Point>>,
    background: bool,
    row: u32,
    col: u32,
    workers: u32,
    Ghost(data): Ghost<Seq<u8>>,
    Ghost(channels): Ghost<Channels>,
    Ghost(width): Ghost<int>,
    Ghost(i): Ghost<int>,
)
    requires
        workers > 0,
        width > 0,
        0 <= col < width,
        i == row * width + col,
        background == Pixel::is_background(data, i, channels),
        buckets_hold(old(buckets)@, data, channels, width, workers as int, i),
    ensures
        buckets_hold(final(buckets)@, data, channels, width, workers as int, i + 1),
{
    proof {
        vstd::arithmetic::div_mod::lemma_fundamental_div_mod_converse(
            i,
            width,
            row as int,
            col as int,
        );
    }
    if !background {
        record_point(buckets, row, col, workers);
    }
    proof {
        assert forall|b: int| 0 <= b < workers implies (#[trigger] buckets@[b])@ == bucket_upto(
            data,
            channels,
            width,
            workers as int,
            b,
            i + 1,
        ) by {
            assert(old(buckets)@[b]@ == bucket_upto(
                data,
                channels,
                width,
                workers as int,
                b,
                i,
            ));
        }
    }
}

/// No islands.
fn no_islands() -> (r: Vec<Island>)
    ensures
        r@ == Seq::<Island>::empty(),
{
    Vec::new()
}

/// The islands of `first`, then those of `more`.
fn join_islands(first: Vec<Island>, more: Vec<Island>) -> (r: Vec<Island>)
    ensures
        r@ == first@ + more@,
{
    let mut all = first;
    let mut more = more;
    all.append(&mut more);
    all
}

/// Finds the islands of each bucket by itself, the buckets side by side on
/// the threads of `rayon`, and joins what was found bucket after bucket.
///
/// This is `rayon`'s `par_iter` on the buckets, `map` with
/// `Islands::find_islands` and `reduce` with `no_islands` and
/// `join_islands`. The contract says of them that `map` hands each bucket to
/// the function once and that `reduce` joins the results in the order of
/// the buckets, whichever way it splits the work.
#[verifier::external_body]
pub(crate) fn find_islands_in_parallel(buckets: &Vec<Vec<Point>>) -> (islands: Vec<Island>)
    ensures
        islands@ == joined(views(buckets@)),
{
    buckets.par_iter().map(|points| Islands::find_islands(points)).reduce(
        || no_islands(),
        |first, more| join_islands(first, more),
    )
}

/// Buckets that hold the same number of points each hold the same number
/// in all.
proof fn lemma_total_same(a: Seq<Seq<Point>>, b: Seq<Seq<Point>>, k: int)
    requires
        0 <= k <= a.len(),
        a.len() == b.len(),
        forall|t: int| 0 <= t < k ==> (#[trigger] a[t]).len() == b[t].len(),
    ensures
        total_len(a, k) == total_len(b, k),
    decreases k,
{
    if k > 0 {
        lemma_total_same(a, b, k - 1);
    }
}

/// Empty buckets hold no points.
proof fn lemma_total_none(a: Seq<Seq<Point>>, k: int)
    requires
        0 <= k <= a.len(),
        forall|t: int| 0 <= t < k ==> (#[trigger] a[t]).len() == 0,
    ensures
        total_len(a, k) == 0,
    decreases k,
{
    if k > 0 {
        lemma_total_none(a, k - 1);
    }
}

/// One more point in one bucket is at most one more point in all.
proof fn lemma_total_one_more(a: Seq<Seq<Point>>, b: Seq<Seq<Point>>, at: int, k: int)
    requires
        0 <= k <= a.len(),
        a.len() == b.len(),
        forall|t: int| 0 <= t < k && t != at ==> (#[trigger] a[t]).len() == b[t].len(),
        0 <= at < a.len() ==> b[at].len() == a[at].len() + 1,
    ensures
        total_len(b, k) <= total_len(a, k) + 1,
    decreases k,
{
    if k > 0 {
        if k - 1 == at {
            lemma_total_same(a, b, k - 1);
        } else {
            lemma_total_one_more(a, b, at, k - 1);
        }
    }
}

/// The buckets of the first `i` pixels hold at most `i` points.
proof fn lemma_buckets_total(data: Seq<u8>, channels: Channels, width: int, workers: int, i: int)
    requires
        workers > 0,
        0 <= i,
    ensures
        total_len(buckets_upto(data, channels, width, workers, i), workers) <= i,
    decreases i,
{
    let now = buckets_upto(data, channels, width, workers, i);
    if i == 0 {
        lemma_total_none(now, workers);
    } else {
        lemma_buckets_total(data, channels, width, workers, i - 1);
        let before = buckets_upto(data, channels, width, workers, i - 1);
        let j = i - 1;
        if !Pixel::is_background(data, j, channels) {
            lemma_total_one_more(before, now, (j / width) % workers, workers);
        } else {
            lemma_total_same(before, now, workers);
        }
    }
}

/// The first `k` buckets have at most as many islands as points, and every
/// island has its two corners.
pub proof fn lemma_joined_upto(buckets: Seq<Seq<Point>>, k: int)
    requires
        0 <= k <= buckets.len(),
    ensures
        joined_upto(buckets, k).len() <= total_len(buckets, k),
        all_boxed(joined_upto(buckets, k)),
    decreases k,
{
    if k > 0 {
        lemma_joined_upto(buckets, k - 1);
        let points = buckets[k - 1];
        crate::region::lemma_islands_upto(points, points.len() as int);
        let before = joined_upto(buckets, k - 1);
        let all = joined_upto(buckets, k);
        assert forall|j: int| 0 <= j < all.len() implies (#[trigger] all[j]).top_left is Some
            && all[j].btm_right is Some by {
            if j < before.len() {
                assert(all[j] == before[j]);
            } else {
                assert(all[j] == islands_of(points)[j - before.len()]);
            }
        }
    }
}

/// An image has at most as many islands as pixels, and every island has
/// its two corners.
pub proof fn lemma_image_islands(data: Seq<u8>, channels: Channels, width: int, workers: int)
    requires
        workers > 0,
    ensures
        image_islands(data, channels, width, workers).len() <= data.len() / channels.count() as nat,
        all_boxed(image_islands(data, channels, width, workers)),
{
    lemma_buckets_total(data, channels, width, workers, data.len() as int / channels.count());
    lemma_joined_upto(buckets_of(data, channels, width, workers), workers);
    assert(buckets_of(data, channels, width, workers) =~= buckets_upto(
        data,
        channels,
        width,
        workers,
        data.len() as int / channels.count(),
    ));
}

/// The place of pixel number `j` in an image of the given width.
pub open spec fn place(j: int, width: int) -> Point {
    ((j / width) as u32, (j % width) as u32)
}

/// A foreground pixel among the first `i` pixels stands in the bucket of
/// its row.
pub proof fn lemma_bucket_has(
    data: Seq<u8>,
    channels: Channels,
    width: int,
    workers: int,
    i: int,
    j: int,
)
    requires
        0 <= j < i,
        !Pixel::is_background(data, j, channels),
    ensures
        bucket_upto(data, channels, width, workers, (j / width) % workers, i).contains(
            place(j, width),
        ),
    decreases i,
{
    let b = (j / width) % workers;
    let now = bucket_upto(data, channels, width, workers, b, i);
    let before = bucket_upto(data, channels, width, workers, b, i - 1);
    if j == i - 1 {
        assert(now[before.len() as int] == place(j, width));
    } else {
        lemma_bucket_has(data, channels, width, workers, i - 1, j);
        let t = choose|t: int| 0 <= t < before.len() && before[t] == place(j, width);
        assert(now[t] == place(j, width));
    }
}

/// Every point of a bucket lies in a row of that bucket.
pub proof fn lemma_bucket_rows(
    data: Seq<u8>,
    channels: Channels,
    width: int,
    height: u32,
    workers: int,
    b: int,
    i: int,
    t: int,
)
    requires
        width > 0,
        workers > 0,
        0 <= i <= width * height,
        0 <= t < bucket_upto(data, channels, width, workers, b, i).len(),
    ensures
        bucket_upto(data, channels, width, workers, b, i)[t].0 as int % workers == b,
    decreases i,
{
    if i > 0 {
        let before = bucket_upto(data, channels, width, workers, b, i - 1);
        if t < before.len() {
            lemma_bucket_rows(data, channels, width, height, workers, b, i - 1, t);
        } else {
            let j = i - 1;
            let h = height as int;
            assert(j / width < h) by (nonlinear_arith)
                requires
                    0 <= j < width * h,
                    width > 0,
            ;
            assert(0 <= j / width) by (nonlinear_arith)
                requires
                    0 <= j,
                    width > 0,
            ;
        }
    }
}

/// With two buckets or more, no two points of a bucket are neighbours in a
/// column: the rows of a bucket lie at least two apart.
pub proof fn lemma_bucket_rows_apart(
    data: Seq<u8>,
    channels: Channels,
    width: int,
    height: u32,
    workers: int,
    b: int,
    i: int,
)
    requires
        width > 0,
        workers >= 2,
        0 <= i <= width * height,
    ensures
        crate::region::rows_apart(bucket_upto(data, channels, width, workers, b, i).to_set()),
{
    let bucket = bucket_upto(data, channels, width, workers, b, i);
    assert forall|p: Point, q: Point|
        bucket.to_set().contains(p) && bucket.to_set().contains(q)
            && #[trigger] crate::region::adjacent(p, q) implies p.0 == q.0 by {
        let tp = choose|t: int| 0 <= t < bucket.len() && bucket[t] == p;
        let tq = choose|t: int| 0 <= t < bucket.len() && bucket[t] == q;
        lemma_bucket_rows(data, channels, width, height, workers, b, i, tp);
        lemma_bucket_rows(data, channels, width, height, workers, b, i, tq);
        if p.0 != q.0 {
            let lo: int = if p.0 < q.0 { p.0 as int } else { q.0 as int };
            assert(lo % workers == b && (lo + 1) % workers == b);
            vstd::arithmetic::div_mod::lemma_fundamental_div_mod(lo, workers);
            vstd::arithmetic::div_mod::lemma_fundamental_div_mod(lo + 1, workers);
            let d1 = lo / workers;
            let d2 = (lo + 1) / workers;
            assert(false) by (nonlinear_arith)
                requires
                    lo == workers * d1 + b,
                    lo + 1 == workers * d2 + b,
                    workers >= 2,
            ;
        }
    }
}

/// An island of one of the first `k` buckets is an island of them all.
pub proof fn lemma_joined_has(buckets: Seq<Seq<Point>>, k: int, b: int, island: Island)
    requires
        0 <= b < k <= buckets.len(),
        islands_of(buckets[b]).contains(island),
    ensures
        joined_upto(buckets, k).contains(island),
    decreases k,
{
    let before = joined_upto(buckets, k - 1);
    let now = joined_upto(buckets, k);
    if b == k - 1 {
        let last = islands_of(buckets[b]);
        let j = choose|j: int| 0 <= j < last.len() && last[j] == island;
        assert(now[before.len() + j] == island);
    } else {
        lemma_joined_has(buckets, k - 1, b, island);
        let j = choose|j: int| 0 <= j < before.len() && before[j] == island;
        assert(now[j] == island);
    }
}

/// An island of the first `k` buckets is an island of one of them.
pub proof fn lemma_joined_from(buckets: Seq<Seq<Point>>, k: int, island: Island)
    requires
        0 <= k <= buckets.len(),
        joined_upto(buckets, k).contains(island),
    ensures
        exists|b: int| 0 <= b < k && islands_of(#[trigger] buckets[b]).contains(island),
    decreases k,
{
    if k > 0 {
        let before = joined_upto(buckets, k - 1);
        let now = joined_upto(buckets, k);
        let last = islands_of(buckets[k - 1]);
        let j = choose|j: int| 0 <= j < now.len() && now[j] == island;
        if j < before.len() {
            assert(before[j] == island);
            lemma_joined_from(buckets, k - 1, island);
            let b = choose|b: int|
                0 <= b < k - 1 && islands_of(#[trigger] buckets[b]).contains(island);
            assert(0 <= b < k && islands_of(buckets[b]).contains(island));
        } else {
            assert(last[j - before.len()] == island);
            assert(0 <= k - 1 < k && islands_of(buckets[k - 1]).contains(island));
        }
    }
}

} // verus!
