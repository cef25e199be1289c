use crate::bytes::{be_bytes, be_value, cast_groups, u32_to_be};
use crate::consts::QOI_ISLAND_SIZE;
use crate::error::Error;
use crate::region::adjacent;
use crate::region::{
    closed_in, component, connected, extend, is_widened, islands_of, islands_upto, key, keyed,
    met_before, point_of, reach_of, search_inv, widened,
};
use crate::utils::{clamp_usize, Writer};
use std::collections::HashSet;
use std::collections::VecDeque;
use vstd::prelude::*;
use vstd::slice::slice_subrange;

verus! {

/// The place of a pixel: its row and its column.
pub type Point = (u32, u32);

/// The bounding box of one connected set of foreground points.
///
/// Both corners are set, or neither: an island with no points has no corners
/// and is never handed out.
#[derive(Copy, Clone, Debug, PartialEq, Eq, Hash)]
pub struct Island {
    /// Smallest row and smallest column of the island.
    pub top_left: Option<Point>,
    /// Largest row and largest column of the island.
    pub btm_right: Option<Point>,
}

impl Island {
    /// The top left corner of an island that has its corners.
    pub open spec fn min(self) -> Point {
        self.top_left->0
    }

    /// The bottom right corner of an island that has its corners.
    pub open spec fn max(self) -> Point {
        self.btm_right->0
    }
}

/// The islands of an image, none of them twice.
pub struct Islands {
    pub islands: Vec<Island>,
}

/// The sixteen bytes of an island record: the rows and columns of the two
/// corners, each as four bytes with the most significant first.
pub open spec fn island_bytes(island: Island) -> Seq<u8> {
    be_bytes(island.min().0) + be_bytes(island.min().1) + be_bytes(island.max().0) + be_bytes(
        island.max().1,
    )
}

/// The records of the first `k` islands of a list, one after the other.
pub open spec fn islands_bytes_upto(islands: Seq<Island>, k: int) -> Seq<u8>
    decreases k,
{
    if k <= 0 {
        Seq::empty()
    } else {
        islands_bytes_upto(islands, k - 1) + island_bytes(islands[k - 1])
    }
}

/// The records of a list of islands, one after the other.
pub open spec fn islands_bytes(islands: Seq<Island>) -> Seq<u8> {
    islands_bytes_upto(islands, islands.len() as int)
}

/// The island whose record starts at position `p` of `bytes`.
pub open spec fn island_at(bytes: Seq<u8>, p: int) -> Island {
    Island {
        top_left: Some((be_value(bytes, p), be_value(bytes, p + 4))),
        btm_right: Some((be_value(bytes, p + 8), be_value(bytes, p + 12))),
    }
}

/// The islands of the `n` records that start at position `p` of `bytes`.
pub open spec fn islands_at(bytes: Seq<u8>, p: int, n: nat) -> Seq<Island> {
    Seq::new(n, |k: int| island_at(bytes, p + QOI_ISLAND_SIZE * k))
}

/// The first `k` islands of a list without those that came before.
pub open spec fn distinct_upto(islands: Seq<Island>, k: int) -> Seq<Island>
    decreases k,
{
    if k <= 0 {
        Seq::empty()
    } else {
        let before = distinct_upto(islands, k - 1);
        if before.contains(islands[k - 1]) {
            before
        } else {
            before.push(islands[k - 1])
        }
    }
}

/// A list of islands without those that came before: each island once, at
/// the place where it came first.
pub open spec fn distinct(islands: Seq<Island>) -> Seq<Island> {
    distinct_upto(islands, islands.len() as int)
}

/// Whether both corners of every island of the list are set.
pub open spec fn all_boxed(islands: Seq<Island>) -> bool {
    forall|k: int|
        0 <= k < islands.len() ==> (#[trigger] islands[k]).top_left is Some
            && islands[k].btm_right is Some
}

/// The records of a list of islands take sixteen bytes each.
pub proof fn lemma_islands_bytes_len(islands: Seq<Island>, k: int)
    requires
        0 <= k <= islands.len(),
    ensures
        islands_bytes_upto(islands, k).len() == QOI_ISLAND_SIZE * k,
    decreases k,
{
    if k > 0 {
        lemma_islands_bytes_len(islands, k - 1);
    }
}

impl Islands {
    /// Finds the islands of the given foreground points: the bounding box
    /// of each set of points that are connected with each other, in the
    /// order in which the points meet them.
    pub fn find_islands(points: &Vec<Point>) -> (islands: Vec<Island>)
        ensures
            islands@ == islands_of(points@),
            all_boxed(islands@),
    {
        let n = points.len();
        let ghost all = points@.to_set();
        let mut set: HashSet<u64> = HashSet::new();
        let mut i: usize = 0;
        while i < n
            invariant
                i <= n,
                n == points@.len(),
                set@.finite(),
                forall|p: Point|
                    keyed(set@).contains(p) <==> points@.subrange(0, i as int).contains(p),
            decreases n - i,
        {
            let ghost keys = set@;
            let p = points[i];
            set.insert(point_key(p));
            proof {
                crate::region::lemma_keyed_insert(keys, p);
                assert(points@.subrange(0, i + 1) =~= points@.subrange(0, i as int).push(p));
                assert forall|x: Point| keyed(set@).contains(x) <==> points@.subrange(
                    0,
                    i + 1,
                ).contains(x) by {
                    let shorter = points@.subrange(0, i as int);
                    if shorter.contains(x) {
                        let j = choose|j: int| 0 <= j < shorter.len() && shorter[j] == x;
                        assert(shorter.push(p)[j] == x);
                    }
                    if x == p {
                        assert(shorter.push(p)[i as int] == x);
                    }
                }
            }
            i = i + 1;
        }
        proof {
            assert(points@.subrange(0, n as int) =~= points@);
            assert(keyed(set@) =~= all);
        }
        let mut used: HashSet<u64> = HashSet::new();
        let mut islands: Vec<Island> = Vec::new();
        let mut k: usize = 0;
        while k < n
            invariant
                k <= n,
                n == points@.len(),
                all == points@.to_set(),
                keyed(set@) == all,
                set@.finite(),
                closed_in(all, keyed(used@)),
                forall|q: Point| keyed(used@).contains(q) <==> met_before(points@, k as int, q),
                islands@ == islands_upto(points@, k as int),
                all_boxed(islands@),
            decreases n - k,
        {
            let p = points[k];
            let ghost before = keyed(used@);
            proof {
                assert(points@.contains(p));
                assert(all.contains(p));
            }
            if !used.contains(&point_key(p)) {
                let mut island = Island { top_left: None, btm_right: None };
                proof {
                    assert(!before.contains(p));
                    crate::region::lemma_closed_apart(all, before, p);
                    crate::region::lemma_closed_union(all, before, p);
                    crate::region::lemma_connected_self(all, p);
                }
                bfs(&set, &mut used, &mut island, &p);
                proof {
                    crate::region::lemma_widened_fresh(
                        Island { top_left: None, btm_right: None },
                        component(all, p),
                        island,
                        p,
                    );
                    crate::region::lemma_box_found(component(all, p), island);
                }
                if island.top_left.is_some() && island.btm_right.is_some() {
                    islands.push(island);
                }
                proof {
                    assert forall|q: Point| keyed(used@).contains(q) <==> met_before(
                        points@,
                        k + 1,
                        q,
                    ) by {
                        crate::region::lemma_met_next(points@, k as int, q);
                    }
                }
            } else {
                proof {
                    assert(before.contains(p));
                    assert forall|q: Point| keyed(used@).contains(q) <==> met_before(
                        points@,
                        k + 1,
                        q,
                    ) by {
                        crate::region::lemma_met_next(points@, k as int, q);
                        if connected(all, p, q) {
                            crate::region::lemma_met_through(points@, k as int, p, q);
                        }
                    }
                }
            }
            k = k + 1;
        }
        islands
    }

    /// Appends the record of each island of the list. Either all records
    /// are written or nothing.
    pub fn encode<W: Writer>(buf: W, islands: &Vec<Island>) -> (r: Result<W, Error>)
        requires
            all_boxed(islands@),
        ensures
            r is Ok <==> buf.room() >= QOI_ISLAND_SIZE * islands@.len(),
            r matches Ok(w) ==> w.written() == buf.written() + islands_bytes(islands@) && w.room()
                == buf.room() - QOI_ISLAND_SIZE * islands@.len(),
            r matches Err(e) ==> e == (Error::OutputBufferTooSmall {
                size: buf.room() as usize,
                required: clamp_usize((QOI_ISLAND_SIZE * islands@.len()) as nat),
            }),
    {
        let cap = buf.capacity();
        let n = islands.len();
        match n.checked_mul(QOI_ISLAND_SIZE) {
            Some(need) => {
                if need > cap {
                    return Err(Error::OutputBufferTooSmall { size: cap, required: need });
                }
            },
            None => {
                return Err(Error::OutputBufferTooSmall { size: cap, required: usize::MAX });
            },
        }
        let mut buf = buf;
        let ghost start = buf.written();
        let mut k: usize = 0;
        while k < n
            invariant
                0 <= k <= n,
                n == islands@.len(),
                all_boxed(islands@),
                n * QOI_ISLAND_SIZE <= cap,
                buf.written() == start + islands_bytes_upto(islands@, k as int),
                buf.room() == cap - QOI_ISLAND_SIZE * k,
            decreases n - k,
        {
            let island = &islands[k];
            let top_left = island.top_left.unwrap();
            let btm_right = island.btm_right.unwrap();
            let ghost before = buf.written();
            buf = match buf.write_many(u32_to_be(top_left.0).as_slice()) {
                Ok(w) => w,
                Err(e) => {
                    return Err(e);
                },
            };
            buf = match buf.write_many(u32_to_be(top_left.1).as_slice()) {
                Ok(w) => w,
                Err(e) => {
                    return Err(e);
                },
            };
            buf = match buf.write_many(u32_to_be(btm_right.0).as_slice()) {
                Ok(w) => w,
                Err(e) => {
                    return Err(e);
                },
            };
            buf = match buf.write_many(u32_to_be(btm_right.1).as_slice()) {
                Ok(w) => w,
                Err(e) => {
                    return Err(e);
                },
            };
            proof {
                assert(buf.written() =~= before + island_bytes(islands@[k as int]));
                assert(start + islands_bytes_upto(islands@, k as int + 1) =~= before
                    + island_bytes(islands@[k as int]));
            }
            k = k + 1;
        }
        Ok(buf)
    }

    /// Reads `n_islands` island records from the start of `data` and keeps
    /// each island once, at the place where it came first.
    ///
    /// Fails if `data` holds fewer full records than that; what follows the
    /// records is not looked at.
    pub fn decode(data: &[u8], n_islands: u32) -> (r: Result<Self, Error>)
        ensures
            ({
                let full = data@.len() as int / 16;
                if full >= n_islands {
                    r matches Ok(found) && found.islands@ == distinct(
                        islands_at(data@, 0, n_islands as nat),
                    ) && found.islands@.no_duplicates()
                } else {
                    r matches Err(e) && e == (Error::IslandRecordTruncated {
                        expected: n_islands,
                        found: full as u32,
                    })
                }
            }),
    {
        let full = data.len() / QOI_ISLAND_SIZE;
        if full < n_islands as usize {
            return Err(Error::IslandRecordTruncated { expected: n_islands, found: full as u32 });
        }
        let n = n_islands as usize;
        let ghost records = islands_at(data@, 0, n_islands as nat);
        let mut found: Vec<Island> = Vec::new();
        let mut k: usize = 0;
        while k < n
            invariant
                k <= n,
                n == n_islands,
                n * QOI_ISLAND_SIZE <= data.len(),
                records == islands_at(data@, 0, n_islands as nat),
                found@ == records.subrange(0, k as int),
            decreases n - k,
        {
            let chunk = slice_subrange(data, k * QOI_ISLAND_SIZE, (k + 1) * QOI_ISLAND_SIZE);
            let v = cast_groups::<4>(chunk);
            let top_left = (be_u32(&v[0]), be_u32(&v[1]));
            let btm_right = (be_u32(&v[2]), be_u32(&v[3]));
            let island = Island { top_left: Some(top_left), btm_right: Some(btm_right) };
            proof {
                assert(island == records[k as int]) by {
                    let at = k * QOI_ISLAND_SIZE;
                    assert forall|i: int, j: int| 0 <= i < 4 && 0 <= j < 4 implies v@[i]@[j]
                        == data@[at + 4 * i + j] by {
                        assert(chunk@[4 * i + j] == data@[at + 4 * i + j]);
                    }
                }
                assert(records.subrange(0, k + 1) =~= records.subrange(0, k as int).push(island));
            }
            found.push(island);
            k = k + 1;
        }
        proof {
            assert(records.subrange(0, n as int) =~= records);
            lemma_distinct_upto(records, records.len() as int);
        }
        Ok(Islands { islands: keep_distinct(found) })
    }
}

/// Computes the number by which a set of numbers stands for a point.
pub fn point_key(p: Point) -> (k: u64)
    ensures
        k == key(p),
{
    p.0 as u64 * 0x1_0000_0000 + p.1 as u64
}

/// Widens a box so that it holds one more point.
fn grow(island: Island, p: Point) -> (r: Island)
    ensures
        r == extend(island, p),
{
    let top_left = match island.top_left {
        Some(c) => (if p.0 < c.0 { p.0 } else { c.0 }, if p.1 < c.1 { p.1 } else { c.1 }),
        None => p,
    };
    let btm_right = match island.btm_right {
        Some(c) => (if p.0 > c.0 { p.0 } else { c.0 }, if p.1 > c.1 { p.1 } else { c.1 }),
        None => p,
    };
    Island { top_left: Some(top_left), btm_right: Some(btm_right) }
}

/// Puts the neighbours of a point at the end of the queue: the points above
/// and below it, then those to its left and right, as far as they exist.
fn push_neighbours(q: &mut VecDeque<Point>, p: Point)
    ensures
        final(q)@.len() >= old(q)@.len(),
        final(q)@.subrange(0, old(q)@.len() as int) == old(q)@,
        forall|k: int|
            old(q)@.len() <= k < final(q)@.len() ==> adjacent(p, #[trigger] final(q)@[k]),
        forall|w: Point| #[trigger] adjacent(p, w) ==> final(q)@.contains(w),
{
    let ghost before = q@;
    let ghost mut up: int = 0;
    let ghost mut down: int = 0;
    let ghost mut left: int = 0;
    let ghost mut right: int = 0;
    if p.0 > 0 {
        proof {
            up = q@.len() as int;
        }
        q.push_back((p.0 - 1, p.1));
    }
    if p.0 < u32::MAX {
        proof {
            down = q@.len() as int;
        }
        q.push_back((p.0 + 1, p.1));
    }
    if p.1 > 0 {
        proof {
            left = q@.len() as int;
        }
        q.push_back((p.0, p.1 - 1));
    }
    if p.1 < u32::MAX {
        proof {
            right = q@.len() as int;
        }
        q.push_back((p.0, p.1 + 1));
    }
    proof {
        assert(q@.subrange(0, before.len() as int) =~= before);
        assert forall|w: Point| #[trigger] adjacent(p, w) implies q@.contains(w) by {
            if w.1 == p.1 && w.0 + 1 == p.0 {
                assert(q@[up] == w);
            } else if w.1 == p.1 && p.0 + 1 == w.0 {
                assert(q@[down] == w);
            } else if w.0 == p.0 && w.1 + 1 == p.1 {
                assert(q@[left] == w);
            } else {
                assert(q@[right] == w);
            }
        }
    }
}

/// What the queue holds after the search has taken its first point and
/// put the neighbours of the point at its end.
proof fn lemma_queue_after(queue: Seq<Point>, next: Seq<Point>)
    requires
        queue.len() > 0,
        next.len() >= queue.len() - 1,
        next.subrange(0, queue.len() - 1) == queue.subrange(1, queue.len() as int),
        forall|k: int| queue.len() - 1 <= k < next.len() ==> adjacent(queue[0], #[trigger] next[k]),
    ensures
        forall|x: Point| queue.contains(x) && x != queue[0] ==> next.contains(x),
        forall|k: int|
            0 <= k < next.len() ==> queue.contains(#[trigger] next[k]) || adjacent(
                queue[0],
                next[k],
            ),
{
    let rest = queue.subrange(1, queue.len() as int);
    assert forall|x: Point| queue.contains(x) && x != queue[0] implies next.contains(x) by {
        let j = choose|j: int| 0 <= j < queue.len() && queue[j] == x;
        assert(rest[j - 1] == x);
        assert(next.subrange(0, queue.len() - 1)[j - 1] == next[j - 1]);
    }
    assert forall|k: int| 0 <= k < next.len() implies queue.contains(#[trigger] next[k])
        || adjacent(queue[0], next[k]) by {
        if k < rest.len() {
            assert(next.subrange(0, queue.len() - 1)[k] == next[k]);
            assert(rest[k] == queue[k + 1]);
        }
    }
}

/// Breadth-first search through the foreground points from `point`.
///
/// Takes every point that a walk from `point` reaches through foreground
/// points that were not used before into `used_points`, and widens `island`
/// by each of them. A search from a point that is no foreground point, or
/// is used, takes nothing and leaves the island as it is.
pub fn bfs(
    points: &HashSet<u64>,
    used_points: &mut HashSet<u64>,
    island: &mut Island,
    point: &Point,
)
    requires
        points@.finite(),
    ensures
        keyed(final(used_points)@) == keyed(old(used_points)@).union(
            reach_of(keyed(points@), keyed(old(used_points)@), *point),
        ),
        forall|k: u64| #[trigger]
            final(used_points)@.contains(k) <==> old(used_points)@.contains(k) || reach_of(
                keyed(points@),
                keyed(old(used_points)@),
                *point,
            ).contains(point_of(k)),
        old(used_points)@.subset_of(final(used_points)@),
        final(used_points)@.difference(old(used_points)@).subset_of(points@),
        !keyed(points@).contains(*point) || keyed(old(used_points)@).contains(*point) ==> {
            &&& final(used_points)@ == old(used_points)@
            &&& *final(island) == *old(island)
        },
        is_widened(
            *old(island),
            reach_of(keyed(points@), keyed(old(used_points)@), *point),
            *final(island),
        ),
        *final(island) == widened(
            *old(island),
            reach_of(keyed(points@), keyed(old(used_points)@), *point),
        ),
        (old(island).top_left is Some) == (old(island).btm_right is Some) ==> {
            (final(island).top_left is Some) == (final(island).btm_right is Some)
        },
        keyed(old(used_points)@).disjoint(component(keyed(points@), *point)) ==> reach_of(
            keyed(points@),
            keyed(old(used_points)@),
            *point,
        ) == component(keyed(points@), *point),
{
    let ghost all = keyed(points@);
    let ghost used_keys = used_points@;
    let ghost used = keyed(used_points@);
    let ghost fresh = all.difference(used);
    let ghost first = *island;
    let ghost mut taken: Set<Point> = Set::empty();
    let mut q: VecDeque<Point> = VecDeque::new();
    q.push_back(*point);
    proof {
        assert(q@[0] == *point);
        assert(keyed(used_points@) =~= used.union(taken));
    }
    loop
        invariant_except_break
            search_inv(fresh, taken, q@, *point),
        invariant
            all == keyed(points@),
            fresh == all.difference(used),
            points@.finite(),
            keyed(used_points@) == used.union(taken),
            used_keys.subset_of(used_points@),
            used_points@.difference(used_keys).subset_of(points@),
            forall|k: u64| #[trigger]
                used_points@.contains(k) <==> used_keys.contains(k) || taken.contains(point_of(k)),
            is_widened(first, taken, *island),
        ensures
            search_inv(fresh, taken, Seq::<Point>::empty(), *point),
        decreases points@.difference(used_points@).len(), q@.len(),
    {
        let ghost queue = q@;
        let ghost keys = used_points@;
        let p = match q.pop_front() {
            Some(p) => p,
            None => {
                proof {
                    assert(q@ =~= Seq::<Point>::empty());
                }
                break ;
            },
        };
        let k = point_key(p);
        proof {
            assert(all.contains(p) == points@.contains(k));
            assert(keyed(keys).contains(p) == keys.contains(k));
        }
        if points.contains(&k) && !used_points.contains(&k) {
            let ghost before = *island;
            used_points.insert(k);
            *island = grow(*island, p);
            push_neighbours(&mut q, p);
            proof {
                assert(!taken.contains(p) && !used.contains(p));
                assert forall|j: u64| #[trigger]
                    used_points@.contains(j) <==> used_keys.contains(j) || taken.insert(
                        p,
                    ).contains(point_of(j)) by {
                    crate::region::lemma_point_of(p, j);
                }
                crate::region::lemma_keyed_insert(keys, p);
                assert(keyed(used_points@) =~= used.union(taken.insert(p)));
                crate::region::lemma_widen_extend(first, taken, before, p);
                lemma_queue_after(queue, q@);
                crate::region::lemma_search_take(fresh, taken, queue, *point, q@);
                taken = taken.insert(p);
                let left = points@.difference(keys);
                vstd::set::axiom_set_difference_finite(points@, keys);
                assert(points@.difference(used_points@) =~= left.remove(k));
                vstd::set::axiom_set_remove_len(left, k);
            }
        } else {
            proof {
                crate::region::lemma_search_skip(fresh, taken, queue, *point);
            }
        }
    }
    proof {
        crate::region::lemma_search_done(fresh, taken, *point);
        crate::region::lemma_widened_found(first, taken, *island);
        if !all.contains(*point) || used.contains(*point) {
            assert forall|q: Point| !taken.contains(q) by {
                if taken.contains(q) {
                    crate::region::lemma_component_inside(fresh, *point, q);
                }
            }
            assert(used_points@ =~= used_keys);
        }
        if used.disjoint(component(all, *point)) {
            crate::region::lemma_reach_apart(all, used, *point);
        }
    }
}

/// The number by which a set of numbers stands for an island that has
/// its corners.
pub open spec fn island_key(island: Island) -> u128 {
    (island.min().0 * 0x1_0000_0000_0000_0000_0000_0000 + island.min().1 * 0x1_0000_0000_0000_0000
        + island.max().0 * 0x1_0000_0000 + island.max().1) as u128
}

/// Two islands with the same number are the same island.
proof fn lemma_island_key_injective(a: Island, b: Island)
    requires
        a.top_left is Some,
        a.btm_right is Some,
        b.top_left is Some,
        b.btm_right is Some,
        island_key(a) == island_key(b),
    ensures
        a == b,
{
    assert(a.min().0 == b.min().0);
    assert(a.min().1 == b.min().1);
    assert(a.max().0 == b.max().0);
    assert(a.max().1 == b.max().1);
    assert(a.top_left == Some(a.min()));
    assert(b.top_left == Some(b.min()));
    assert(a.btm_right == Some(a.max()));
    assert(b.btm_right == Some(b.max()));
}

/// Computes the number by which a set of numbers stands for the island
/// with the given corners.
fn pack(top_left: Point, btm_right: Point) -> (k: u128)
    ensures
        k == island_key(Island { top_left: Some(top_left), btm_right: Some(btm_right) }),
{
    top_left.0 as u128 * 0x1_0000_0000_0000_0000_0000_0000 + top_left.1 as u128
        * 0x1_0000_0000_0000_0000 + btm_right.0 as u128 * 0x1_0000_0000 + btm_right.1 as u128
}

/// Reads a number from its four bytes, most significant first.
fn be_u32(b: &[u8; 4]) -> (x: u32)
    ensures
        x == be_value(b@, 0),
{
    b[0] as u32 * 0x100_0000 + b[1] as u32 * 0x1_0000 + b[2] as u32 * 0x100 + b[3] as u32
}

/// Keeps each island of a list once, at the place where it came first.
pub(crate) fn keep_distinct(found: Vec<Island>) -> (kept: Vec<Island>)
    requires
        all_boxed(found@),
    ensures
        kept@ == distinct(found@),
{
    let n = found.len();
    let mut seen: HashSet<u128> = HashSet::new();
    let mut kept: Vec<Island> = Vec::new();
    let mut k: usize = 0;
    while k < n
        invariant
            k <= n,
            n == found@.len(),
            all_boxed(found@),
            kept@ == distinct_upto(found@, k as int),
            all_boxed(kept@),
            forall|x: Island|
                x.top_left is Some && x.btm_right is Some ==> (kept@.contains(x)
                    <==> seen@.contains(#[trigger] island_key(x))),
        decreases n - k,
    {
        let island = found[k];
        let ghost before = kept@;
        let ghost keys = seen@;
        let fresh = match (island.top_left, island.btm_right) {
            (Some(top_left), Some(btm_right)) => seen.insert(pack(top_left, btm_right)),
            _ => false,
        };
        if fresh {
            kept.push(island);
            proof {
                assert forall|x: Island|
                    x.top_left is Some && x.btm_right is Some implies (kept@.contains(x)
                    <==> seen@.contains(#[trigger] island_key(x))) by {
                    if island_key(x) == island_key(island) {
                        lemma_island_key_injective(x, island);
                        assert(kept@[before.len() as int] == x);
                    }
                    if before.contains(x) {
                        let j = choose|j: int| 0 <= j < before.len() && before[j] == x;
                        assert(kept@[j] == x);
                    }
                    if kept@.contains(x) && x != island {
                        let j = choose|j: int| 0 <= j < kept@.len() && kept@[j] == x;
                        assert(before[j] == x);
                    }
                }
            }
        } else {
            proof {
                assert(keys.insert(island_key(island)) =~= keys);
            }
        }
        k = k + 1;
    }
    kept
}

/// What holds of the first `k` islands of a list without those that came
/// before: they are at most `k`, none comes twice, each is one of the first
/// `k` of the list, and each of the first `k` of the list is among them.
pub proof fn lemma_distinct_upto(islands: Seq<Island>, k: int)
    requires
        0 <= k <= islands.len(),
    ensures
        distinct_upto(islands, k).len() <= k,
        distinct_upto(islands, k).no_duplicates(),
        forall|x: Island|
            distinct_upto(islands, k).contains(x) <==> islands.subrange(0, k).contains(x),
    decreases k,
{
    if k > 0 {
        lemma_distinct_upto(islands, k - 1);
        let before = distinct_upto(islands, k - 1);
        let now = distinct_upto(islands, k);
        let last = islands[k - 1];
        let shorter = islands.subrange(0, k - 1);
        let longer = islands.subrange(0, k);
        assert(longer =~= shorter.push(last));
        assert forall|x: Island| now.contains(x) <==> longer.contains(x) by {
            if shorter.contains(x) {
                let j = choose|j: int| 0 <= j < shorter.len() && shorter[j] == x;
                assert(longer[j] == x);
            }
            if before.contains(x) {
                let j = choose|j: int| 0 <= j < before.len() && before[j] == x;
                assert(now[j] == x);
            }
            if x == last {
                assert(longer[k - 1] == x);
                if !before.contains(last) {
                    assert(now[before.len() as int] == x);
                }
            }
            if now.contains(x) && x != last {
                let j = choose|j: int| 0 <= j < now.len() && now[j] == x;
                assert(before[j] == x);
            }
            if longer.contains(x) && x != last {
                let j = choose|j: int| 0 <= j < longer.len() && longer[j] == x;
                assert(shorter[j] == x);
            }
        }
    } else {
        assert(islands.subrange(0, 0) =~= Seq::<Island>::empty());
    }
}

/// A list in which no island comes twice stays as it is.
pub proof fn lemma_distinct_keeps(islands: Seq<Island>, k: int)
    requires
        0 <= k <= islands.len(),
        islands.no_duplicates(),
    ensures
        distinct_upto(islands, k) == islands.subrange(0, k),
    decreases k,
{
    if k > 0 {
        lemma_distinct_keeps(islands, k - 1);
        let shorter = islands.subrange(0, k - 1);
        if shorter.contains(islands[k - 1]) {
            let j = choose|j: int| 0 <= j < shorter.len() && shorter[j] == islands[k - 1];
            assert(islands[j] == islands[k - 1]);
        }
        assert(islands.subrange(0, k) =~= shorter.push(islands[k - 1]));
    } else {
        assert(islands.subrange(0, 0) =~= Seq::<Island>::empty());
    }
}

/// Taking out what came before once is taking it out for good, and what
/// is left of islands with corners has corners.
pub proof fn lemma_distinct(islands: Seq<Island>)
    ensures
        distinct(islands).len() <= islands.len(),
        distinct(distinct(islands)) == distinct(islands),
        all_boxed(islands) ==> all_boxed(distinct(islands)),
{
    let n = islands.len() as int;
    let kept = distinct(islands);
    lemma_distinct_upto(islands, n);
    lemma_distinct_keeps(kept, kept.len() as int);
    assert(kept.subrange(0, kept.len() as int) =~= kept);
    assert(islands.subrange(0, n) =~= islands);
    if all_boxed(islands) {
        assert forall|j: int| 0 <= j < kept.len() implies (#[trigger] kept[j]).top_left is Some
            && kept[j].btm_right is Some by {
            assert(kept.contains(kept[j]));
            let i = choose|i: int| 0 <= i < islands.len() && islands[i] == kept[j];
            assert(islands[i].top_left is Some);
        }
    }
}

} // verus!
