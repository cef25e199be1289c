use crate::island::{Island, Point};
use vstd::prelude::*;

verus! {

/// Whether two points are neighbours: next to each other in a row or in a
/// column.
pub open spec fn adjacent(p: Point, q: Point) -> bool {
    ||| p.0 == q.0 && (p.1 + 1 == q.1 || q.1 + 1 == p.1)
    ||| p.1 == q.1 && (p.0 + 1 == q.0 || q.0 + 1 == p.0)
}

/// Whether `path` walks through `points` from neighbour to neighbour.
pub open spec fn is_path(points: Set<Point>, path: Seq<Point>) -> bool {
    &&& path.len() > 0
    &&& forall|k: int| 0 <= k < path.len() ==> points.contains(#[trigger] path[k])
    &&& forall|k: int| 0 <= k < path.len() - 1 ==> adjacent(#[trigger] path[k], path[k + 1])
}

/// Whether a walk through `points` leads from `p` to `q`.
pub open spec fn connected(points: Set<Point>, p: Point, q: Point) -> bool {
    exists|path: Seq<Point>| #[trigger]
        is_path(points, path) && path[0] == p && path[path.len() - 1] == q
}

/// The points that a walk through `points` reaches from `p`.
pub open spec fn component(points: Set<Point>, p: Point) -> Set<Point> {
    Set::new(|q: Point| connected(points, p, q))
}

/// Whether `island` is the bounding box of the points `c`: every point lies
/// inside, and each of the four sides touches a point.
pub open spec fn is_bounding_box(c: Set<Point>, island: Island) -> bool {
    &&& island.top_left is Some
    &&& island.btm_right is Some
    &&& forall|q: Point| #[trigger]
        c.contains(q) ==> island.min().0 <= q.0 <= island.max().0 && island.min().1 <= q.1
            <= island.max().1
    &&& exists|q: Point| #[trigger] c.contains(q) && q.0 == island.min().0
    &&& exists|q: Point| #[trigger] c.contains(q) && q.1 == island.min().1
    &&& exists|q: Point| #[trigger] c.contains(q) && q.0 == island.max().0
    &&& exists|q: Point| #[trigger] c.contains(q) && q.1 == island.max().1
}

/// The bounding box of a set of points that is not empty.
pub open spec fn bounding_box(c: Set<Point>) -> Island {
    choose|island: Island| is_bounding_box(c, island)
}

/// Whether one of the first `k` of the given points is connected to `q`.
pub open spec fn met_before(points: Seq<Point>, k: int, q: Point) -> bool {
    exists|j: int| 0 <= j < k && connected(points.to_set(), #[trigger] points[j], q)
}

/// The islands of the first `k` of the given points, in the order in which
/// the points meet them: a point adds the bounding box of all that is
/// connected to it, unless one of the points before it is.
pub open spec fn islands_upto(points: Seq<Point>, k: int) -> Seq<Island>
    decreases k,
{
    if k <= 0 {
        Seq::empty()
    } else {
        let before = islands_upto(points, k - 1);
        let p = points[k - 1];
        if met_before(points, k - 1, p) {
            before
        } else {
            before.push(bounding_box(component(points.to_set(), p)))
        }
    }
}

/// The islands of the given points: one bounding box for each set of points
/// that are connected with each other.
pub open spec fn islands_of(points: Seq<Point>) -> Seq<Island> {
    islands_upto(points, points.len() as int)
}

/// Whether `part` is a part of `points` that no walk through `points`
/// leaves: a neighbour of one of its points that is in `points` is in it.
pub open spec fn closed_in(points: Set<Point>, part: Set<Point>) -> bool {
    &&& part.subset_of(points)
    &&& forall|p: Point, q: Point|
        part.contains(p) && points.contains(q) && #[trigger] adjacent(p, q) ==> part.contains(q)
}

/// The box that holds `island` and the point `p`.
pub open spec fn extend(island: Island, p: Point) -> Island {
    Island {
        top_left: Some(
            match island.top_left {
                Some(c) => (if p.0 < c.0 { p.0 } else { c.0 }, if p.1 < c.1 { p.1 } else { c.1 }),
                None => p,
            },
        ),
        btm_right: Some(
            match island.btm_right {
                Some(c) => (if p.0 > c.0 { p.0 } else { c.0 }, if p.1 > c.1 { p.1 } else { c.1 }),
                None => p,
            },
        ),
    }
}

/// Every point is connected to itself.
pub proof fn lemma_connected_self(points: Set<Point>, p: Point)
    requires
        points.contains(p),
    ensures
        connected(points, p, p),
{
    let path = seq![p];
    assert(is_path(points, path) && path[0] == p && path[path.len() - 1] == p);
}

/// A walk can be taken one step further.
pub proof fn lemma_connected_step(points: Set<Point>, p: Point, v: Point, q: Point)
    requires
        connected(points, p, v),
        points.contains(q),
        adjacent(v, q),
    ensures
        connected(points, p, q),
{
    let path = choose|path: Seq<Point>| #[trigger]
        is_path(points, path) && path[0] == p && path[path.len() - 1] == v;
    let longer = path.push(q);
    assert forall|k: int| 0 <= k < longer.len() implies points.contains(
        #[trigger] longer[k],
    ) by {
        if k < path.len() {
            assert(longer[k] == path[k]);
        }
    }
    assert forall|k: int| 0 <= k < longer.len() - 1 implies adjacent(
        #[trigger] longer[k],
        longer[k + 1],
    ) by {
        if k < path.len() - 1 {
            assert(longer[k] == path[k]);
            assert(longer[k + 1] == path[k + 1]);
        }
    }
    assert(is_path(points, longer) && longer[0] == p && longer[longer.len() - 1] == q);
}

/// A walk that starts in a closed part stays in it.
pub proof fn lemma_path_stays(points: Set<Point>, part: Set<Point>, path: Seq<Point>, k: int)
    requires
        is_path(points, path),
        part.contains(path[0]),
        forall|p: Point, q: Point|
            part.contains(p) && points.contains(q) && #[trigger] adjacent(p, q) ==> part.contains(
                q,
            ),
        0 <= k < path.len(),
    ensures
        part.contains(path[k]),
    decreases k,
{
    if k > 0 {
        lemma_path_stays(points, part, path, k - 1);
        assert(adjacent(path[k - 1], path[k - 1 + 1]));
    }
}

/// Being neighbours goes both ways.
pub proof fn lemma_adjacent_symmetric(p: Point, q: Point)
    ensures
        adjacent(p, q) == adjacent(q, p),
{
}

/// Two walks, one after the other, are a walk.
pub proof fn lemma_connected_transitive(points: Set<Point>, p: Point, v: Point, q: Point)
    requires
        connected(points, p, v),
        connected(points, v, q),
    ensures
        connected(points, p, q),
{
    let path = choose|path: Seq<Point>| #[trigger]
        is_path(points, path) && path[0] == v && path[path.len() - 1] == q;
    lemma_walk_on(points, p, path, path.len() - 1);
}

/// A walk to the start of a path can go on along the path.
proof fn lemma_walk_on(points: Set<Point>, p: Point, path: Seq<Point>, k: int)
    requires
        is_path(points, path),
        connected(points, p, path[0]),
        0 <= k < path.len(),
    ensures
        connected(points, p, path[k]),
    decreases k,
{
    if k > 0 {
        lemma_walk_on(points, p, path, k - 1);
        assert(adjacent(path[k - 1], path[k - 1 + 1]));
        lemma_connected_step(points, p, path[k - 1], path[k]);
    }
}

/// A set of points has at most one bounding box.
pub proof fn lemma_box_unique(c: Set<Point>, a: Island, b: Island)
    requires
        is_bounding_box(c, a),
        is_bounding_box(c, b),
    ensures
        a == b,
{
    assert(a.min().0 == b.min().0);
    assert(a.min().1 == b.min().1);
    assert(a.max().0 == b.max().0);
    assert(a.max().1 == b.max().1);
    assert(a.top_left == Some(a.min()));
    assert(b.top_left == Some(b.min()));
    assert(a.btm_right == Some(a.max()));
    assert(b.btm_right == Some(b.max()));
}

/// A box found for a set of points is the bounding box of the set.
pub proof fn lemma_box_found(c: Set<Point>, island: Island)
    requires
        is_bounding_box(c, island),
    ensures
        bounding_box(c) == island,
{
    lemma_box_unique(c, island, bounding_box(c));
}

/// The number by which a set of numbers stands for a point.
pub open spec fn key(p: Point) -> u64 {
    (p.0 * 0x1_0000_0000 + p.1) as u64
}

/// The points that a set of numbers stands for.
pub open spec fn keyed(keys: Set<u64>) -> Set<Point> {
    Set::new(|p: Point| keys.contains(key(p)))
}

/// The point that a number stands for.
pub open spec fn point_of(k: u64) -> Point {
    ((k / 0x1_0000_0000) as u32, (k % 0x1_0000_0000) as u32)
}

/// Every point has its number and every number its point.
pub proof fn lemma_point_of(p: Point, k: u64)
    ensures
        point_of(key(p)) == p,
        key(point_of(k)) == k,
{
}

/// Two points with the same number are the same point.
pub proof fn lemma_key_injective(p: Point, q: Point)
    requires
        key(p) == key(q),
    ensures
        p == q,
{
}

/// Adding the number of a point adds the point.
pub proof fn lemma_keyed_insert(keys: Set<u64>, p: Point)
    ensures
        keyed(keys.insert(key(p))) == keyed(keys).insert(p),
{
    assert forall|q: Point| keyed(keys.insert(key(p))).contains(q) == keyed(keys).insert(
        p,
    ).contains(q) by {
        if key(q) == key(p) {
            lemma_key_injective(p, q);
        }
    }
    assert(keyed(keys.insert(key(p))) =~= keyed(keys).insert(p));
}

/// What a breadth-first search from `start` takes: the points that a walk
/// from `start` reaches through points that are not used. None, if `start`
/// is no such point itself.
pub open spec fn reach_of(points: Set<Point>, used: Set<Point>, start: Point) -> Set<Point> {
    component(points.difference(used), start)
}

/// Whether `wide` is `island` widened by the points `c`: the island as it
/// is if there are none, else the smallest box that holds the corners that
/// the island has and every point of `c`.
pub open spec fn is_widened(island: Island, c: Set<Point>, wide: Island) -> bool {
    if forall|q: Point| !c.contains(q) {
        wide == island
    } else {
        &&& wide.top_left is Some
        &&& wide.btm_right is Some
        &&& forall|q: Point| #[trigger]
            c.contains(q) ==> wide.min().0 <= q.0 <= wide.max().0 && wide.min().1 <= q.1
                <= wide.max().1
        &&& island.top_left is Some ==> wide.min().0 <= island.min().0 && wide.min().1
            <= island.min().1
        &&& island.btm_right is Some ==> wide.max().0 >= island.max().0 && wide.max().1
            >= island.max().1
        &&& (island.top_left is Some && island.min().0 == wide.min().0) || exists|q: Point|
            #[trigger] c.contains(q) && q.0 == wide.min().0
        &&& (island.top_left is Some && island.min().1 == wide.min().1) || exists|q: Point|
            #[trigger] c.contains(q) && q.1 == wide.min().1
        &&& (island.btm_right is Some && island.max().0 == wide.max().0) || exists|q: Point|
            #[trigger] c.contains(q) && q.0 == wide.max().0
        &&& (island.btm_right is Some && island.max().1 == wide.max().1) || exists|q: Point|
            #[trigger] c.contains(q) && q.1 == wide.max().1
    }
}

/// The island widened by the points `c`.
pub open spec fn widened(island: Island, c: Set<Point>) -> Island {
    choose|wide: Island| is_widened(island, c, wide)
}

/// An island is widened by given points in one way only.
pub proof fn lemma_widened_unique(island: Island, c: Set<Point>, a: Island, b: Island)
    requires
        is_widened(island, c, a),
        is_widened(island, c, b),
    ensures
        a == b,
{
    if !(forall|q: Point| !c.contains(q)) {
        assert(a.min().0 == b.min().0);
        assert(a.min().1 == b.min().1);
        assert(a.max().0 == b.max().0);
        assert(a.max().1 == b.max().1);
        assert(a.top_left == Some(a.min()));
        assert(b.top_left == Some(b.min()));
        assert(a.btm_right == Some(a.max()));
        assert(b.btm_right == Some(b.max()));
    }
}

/// A box found to be the island widened by given points is the widened
/// island.
pub proof fn lemma_widened_found(island: Island, c: Set<Point>, wide: Island)
    requires
        is_widened(island, c, wide),
    ensures
        widened(island, c) == wide,
{
    lemma_widened_unique(island, c, wide, widened(island, c));
}

/// Widening by one more point: both coordinates of a corner go to the
/// smaller, or the larger, of the old value and the point's at once.
pub proof fn lemma_widen_extend(island: Island, c: Set<Point>, wide: Island, p: Point)
    requires
        is_widened(island, c, wide),
    ensures
        is_widened(island, c.insert(p), extend(wide, p)),
{
    let d = c.insert(p);
    let e = extend(wide, p);
    assert(d.contains(p));
    if forall|q: Point| !c.contains(q) {
        if island.top_left is Some {
            if p.0 < island.min().0 {
                assert(d.contains(p) && p.0 == e.min().0);
            }
            if p.1 < island.min().1 {
                assert(d.contains(p) && p.1 == e.min().1);
            }
        } else {
            assert(d.contains(p) && p.0 == e.min().0);
            assert(d.contains(p) && p.1 == e.min().1);
        }
        if island.btm_right is Some {
            if p.0 > island.max().0 {
                assert(d.contains(p) && p.0 == e.max().0);
            }
            if p.1 > island.max().1 {
                assert(d.contains(p) && p.1 == e.max().1);
            }
        } else {
            assert(d.contains(p) && p.0 == e.max().0);
            assert(d.contains(p) && p.1 == e.max().1);
        }
    } else {
        if p.0 < wide.min().0 {
            assert(d.contains(p) && p.0 == e.min().0);
        } else if !(island.top_left is Some && island.min().0 == wide.min().0) {
            let q = choose|q: Point| #[trigger] c.contains(q) && q.0 == wide.min().0;
            assert(d.contains(q) && q.0 == e.min().0);
        }
        if p.1 < wide.min().1 {
            assert(d.contains(p) && p.1 == e.min().1);
        } else if !(island.top_left is Some && island.min().1 == wide.min().1) {
            let q = choose|q: Point| #[trigger] c.contains(q) && q.1 == wide.min().1;
            assert(d.contains(q) && q.1 == e.min().1);
        }
        if p.0 > wide.max().0 {
            assert(d.contains(p) && p.0 == e.max().0);
        } else if !(island.btm_right is Some && island.max().0 == wide.max().0) {
            let q = choose|q: Point| #[trigger] c.contains(q) && q.0 == wide.max().0;
            assert(d.contains(q) && q.0 == e.max().0);
        }
        if p.1 > wide.max().1 {
            assert(d.contains(p) && p.1 == e.max().1);
        } else if !(island.btm_right is Some && island.max().1 == wide.max().1) {
            let q = choose|q: Point| #[trigger] c.contains(q) && q.1 == wide.max().1;
            assert(d.contains(q) && q.1 == e.max().1);
        }
    }
}

/// An island without corners widened by points is the bounding box of the
/// points.
pub proof fn lemma_widened_fresh(island: Island, c: Set<Point>, wide: Island, p: Point)
    requires
        island.top_left is None,
        island.btm_right is None,
        is_widened(island, c, wide),
        c.contains(p),
    ensures
        is_bounding_box(c, wide),
{
}

/// A walk that starts outside a closed part stays outside it.
pub proof fn lemma_path_avoids(points: Set<Point>, part: Set<Point>, path: Seq<Point>, k: int)
    requires
        is_path(points, path),
        closed_in(points, part),
        !part.contains(path[0]),
        0 <= k < path.len(),
    ensures
        !part.contains(path[k]),
    decreases k,
{
    if k > 0 {
        lemma_path_avoids(points, part, path, k - 1);
        assert(adjacent(path[k - 1], path[k - 1 + 1]));
        lemma_adjacent_symmetric(path[k - 1], path[k]);
        assert(points.contains(path[k - 1]));
    }
}

/// A closed part that does not hold a point is apart from all that is
/// connected to the point.
pub proof fn lemma_closed_apart(points: Set<Point>, part: Set<Point>, p: Point)
    requires
        closed_in(points, part),
        !part.contains(p),
    ensures
        part.disjoint(component(points, p)),
{
    assert forall|q: Point| component(points, p).contains(q) implies !part.contains(q) by {
        let path = choose|path: Seq<Point>| #[trigger]
            is_path(points, path) && path[0] == p && path[path.len() - 1] == q;
        lemma_path_avoids(points, part, path, path.len() - 1);
    }
}

/// A closed part together with all that is connected to a point is closed.
pub proof fn lemma_closed_union(points: Set<Point>, part: Set<Point>, p: Point)
    requires
        closed_in(points, part),
    ensures
        closed_in(points, part.union(component(points, p))),
{
    let c = component(points, p);
    let all = part.union(c);
    assert forall|q: Point| all.contains(q) implies points.contains(q) by {
        if c.contains(q) {
            lemma_component_inside(points, p, q);
        }
    }
    assert forall|v: Point, w: Point|
        all.contains(v) && points.contains(w) && #[trigger] adjacent(v, w) implies all.contains(
        w,
    ) by {
        if c.contains(v) {
            lemma_connected_step(points, p, v, w);
        }
    }
}

/// Where the used points are apart from all that is connected to the start
/// of a search, the search takes all that is connected to its start.
pub proof fn lemma_reach_apart(points: Set<Point>, used: Set<Point>, start: Point)
    requires
        used.disjoint(component(points, start)),
    ensures
        reach_of(points, used, start) == component(points, start),
{
    let fresh = points.difference(used);
    assert forall|q: Point| component(fresh, start).contains(q) implies component(
        points,
        start,
    ).contains(q) by {
        let path = choose|path: Seq<Point>| #[trigger]
            is_path(fresh, path) && path[0] == start && path[path.len() - 1] == q;
        assert(is_path(points, path)) by {
            assert forall|k: int| 0 <= k < path.len() implies points.contains(
                #[trigger] path[k],
            ) by {
                assert(fresh.contains(path[k]));
            }
        }
    }
    assert forall|q: Point| component(points, start).contains(q) implies component(
        fresh,
        start,
    ).contains(q) by {
        let path = choose|path: Seq<Point>| #[trigger]
            is_path(points, path) && path[0] == start && path[path.len() - 1] == q;
        assert forall|k: int| 0 <= k < path.len() implies fresh.contains(#[trigger] path[k]) by {
            let walk = path.subrange(0, k + 1);
            assert forall|j: int| 0 <= j < walk.len() implies points.contains(
                #[trigger] walk[j],
            ) by {
                assert(walk[j] == path[j]);
            }
            assert forall|j: int| 0 <= j < walk.len() - 1 implies adjacent(
                #[trigger] walk[j],
                walk[j + 1],
            ) by {
                assert(walk[j] == path[j]);
                assert(walk[j + 1] == path[j + 1]);
            }
            assert(is_path(points, walk) && walk[0] == start && walk[walk.len() - 1] == path[k]);
            assert(component(points, start).contains(path[k]));
        }
        assert(is_path(fresh, path));
    }
    assert(component(fresh, start) =~= component(points, start));
}

/// Whether the search has come to `q` by a step from a point it has taken,
/// or `q` is where it started.
pub open spec fn reached(taken: Set<Point>, start: Point, q: Point) -> bool {
    q == start || exists|v: Point| taken.contains(v) && #[trigger] adjacent(v, q)
}

/// What holds of a breadth-first search from `start` at every step:
/// `fresh` are the foreground points that were not used when it began,
/// `taken` those of them it has taken so far, `queue` the points it has yet
/// to look at.
pub open spec fn search_inv(
    fresh: Set<Point>,
    taken: Set<Point>,
    queue: Seq<Point>,
    start: Point,
) -> bool {
    &&& taken.subset_of(fresh)
    &&& forall|p: Point| taken.contains(p) ==> connected(fresh, start, p)
    &&& forall|k: int| 0 <= k < queue.len() ==> reached(taken, start, #[trigger] queue[k])
    &&& forall|v: Point, w: Point|
        taken.contains(v) && fresh.contains(w) && #[trigger] adjacent(v, w) ==> taken.contains(w)
            || queue.contains(w)
    &&& fresh.contains(start) ==> taken.contains(start) || queue.contains(start)
}

/// The search goes on when it drops a point that it cannot take or has
/// taken.
pub proof fn lemma_search_skip(
    fresh: Set<Point>,
    taken: Set<Point>,
    queue: Seq<Point>,
    start: Point,
)
    requires
        search_inv(fresh, taken, queue, start),
        queue.len() > 0,
        !fresh.contains(queue[0]) || taken.contains(queue[0]),
    ensures
        search_inv(fresh, taken, queue.subrange(1, queue.len() as int), start),
{
    let rest = queue.subrange(1, queue.len() as int);
    assert forall|x: Point| queue.contains(x) && x != queue[0] implies rest.contains(x) by {
        let k = choose|k: int| 0 <= k < queue.len() && queue[k] == x;
        assert(rest[k - 1] == x);
    }
    assert forall|k: int| 0 <= k < rest.len() implies reached(
        taken,
        start,
        #[trigger] rest[k],
    ) by {
        assert(rest[k] == queue[k + 1]);
    }
}

/// The search goes on when it takes a point and puts the neighbours of the
/// point on the queue.
pub proof fn lemma_search_take(
    fresh: Set<Point>,
    taken: Set<Point>,
    queue: Seq<Point>,
    start: Point,
    next: Seq<Point>,
)
    requires
        search_inv(fresh, taken, queue, start),
        queue.len() > 0,
        fresh.contains(queue[0]),
        !taken.contains(queue[0]),
        forall|x: Point| queue.contains(x) && x != queue[0] ==> next.contains(x),
        forall|w: Point| #[trigger] adjacent(queue[0], w) ==> next.contains(w),
        forall|k: int|
            0 <= k < next.len() ==> queue.contains(#[trigger] next[k]) || adjacent(
                queue[0],
                next[k],
            ),
    ensures
        search_inv(fresh, taken.insert(queue[0]), next, start),
{
    let p = queue[0];
    let more = taken.insert(p);
    assert(reached(taken, start, queue[0]));
    if p == start {
        lemma_connected_self(fresh, start);
    } else {
        let v = choose|v: Point| taken.contains(v) && #[trigger] adjacent(v, p);
        lemma_connected_step(fresh, start, v, p);
    }
    assert forall|k: int| 0 <= k < next.len() implies reached(
        more,
        start,
        #[trigger] next[k],
    ) by {
        let x = next[k];
        if queue.contains(x) {
            let j = choose|j: int| 0 <= j < queue.len() && queue[j] == x;
            assert(reached(taken, start, queue[j]));
            if x != start {
                let v = choose|v: Point| taken.contains(v) && #[trigger] adjacent(v, x);
                assert(more.contains(v) && adjacent(v, x));
            }
        } else {
            assert(more.contains(p) && adjacent(p, x));
        }
    }
    assert forall|v: Point, w: Point|
        more.contains(v) && fresh.contains(w) && #[trigger] adjacent(v, w) implies more.contains(
        w,
    ) || next.contains(w) by {
        if v == p {
        } else {
            if !taken.contains(w) {
                assert(queue.contains(w));
            }
        }
    }
}

/// When the queue is empty the search has taken exactly the points that a
/// walk from its start reaches.
pub proof fn lemma_search_done(fresh: Set<Point>, taken: Set<Point>, start: Point)
    requires
        search_inv(fresh, taken, Seq::<Point>::empty(), start),
    ensures
        taken == component(fresh, start),
{
    let none = Seq::<Point>::empty();
    assert forall|v: Point, w: Point|
        taken.contains(v) && fresh.contains(w) && #[trigger] adjacent(v, w) implies taken.contains(
        w,
    ) by {
        assert(!none.contains(w));
    }
    assert(!none.contains(start));
    assert forall|q: Point| component(fresh, start).contains(q) implies taken.contains(q) by {
        let path = choose|path: Seq<Point>| #[trigger]
            is_path(fresh, path) && path[0] == start && path[path.len() - 1] == q;
        assert(fresh.contains(path[0]));
        lemma_path_stays(fresh, taken, path, path.len() - 1);
    }
    assert(taken =~= component(fresh, start));
}

/// What is connected to one of the first `k + 1` points is connected to
/// one of the first `k` or to point number `k`.
pub proof fn lemma_met_next(points: Seq<Point>, k: int, q: Point)
    requires
        0 <= k < points.len(),
    ensures
        met_before(points, k + 1, q) <==> met_before(points, k, q) || connected(
            points.to_set(),
            points[k],
            q,
        ),
{
    if met_before(points, k + 1, q) {
        let j = choose|j: int|
            0 <= j < k + 1 && connected(points.to_set(), #[trigger] points[j], q);
        if j < k {
            assert(0 <= j < k && connected(points.to_set(), points[j], q));
        }
    }
    if met_before(points, k, q) {
        let j = choose|j: int| 0 <= j < k && connected(points.to_set(), #[trigger] points[j], q);
        assert(0 <= j < k + 1 && connected(points.to_set(), points[j], q));
    }
    if connected(points.to_set(), points[k], q) {
        assert(0 <= k < k + 1 && connected(points.to_set(), points[k], q));
    }
}

/// What is connected to a point that one of the first `k` points is
/// connected to, is connected to one of them as well.
pub proof fn lemma_met_through(points: Seq<Point>, k: int, p: Point, q: Point)
    requires
        met_before(points, k, p),
        connected(points.to_set(), p, q),
    ensures
        met_before(points, k, q),
{
    let j = choose|j: int| 0 <= j < k && connected(points.to_set(), #[trigger] points[j], p);
    lemma_connected_transitive(points.to_set(), points[j], p, q);
    assert(0 <= j < k && connected(points.to_set(), points[j], q));
}

/// What is connected to a point through `points` is one of `points`.
pub proof fn lemma_component_inside(points: Set<Point>, p: Point, q: Point)
    requires
        connected(points, p, q),
    ensures
        points.contains(p),
        points.contains(q),
{
    let path = choose|path: Seq<Point>| #[trigger]
        is_path(points, path) && path[0] == p && path[path.len() - 1] == q;
    assert(points.contains(path[0]));
    assert(points.contains(path[path.len() - 1]));
}

/// The points of `c` among the first `k` of the given points.
pub open spec fn among(points: Seq<Point>, c: Set<Point>, k: int) -> Set<Point> {
    Set::new(|q: Point| c.contains(q) && points.subrange(0, k).contains(q))
}

/// The box of the points of `c` among the first `k` of the given points.
proof fn lemma_box_among(points: Seq<Point>, c: Set<Point>, k: int) -> (island: Island)
    requires
        0 <= k <= points.len(),
    ensures
        is_widened(Island { top_left: None, btm_right: None }, among(points, c, k), island),
    decreases k,
{
    if k == 0 {
        let none = Island { top_left: None, btm_right: None };
        assert forall|q: Point| !among(points, c, k).contains(q) by {
            assert(points.subrange(0, 0).len() == 0);
        }
        none
    } else {
        let before = lemma_box_among(points, c, k - 1);
        let p = points[k - 1];
        let shorter = points.subrange(0, k - 1);
        let longer = points.subrange(0, k);
        assert(longer =~= shorter.push(p));
        assert forall|q: Point| longer.contains(q) <==> shorter.contains(q) || q == p by {
            if shorter.contains(q) {
                let j = choose|j: int| 0 <= j < shorter.len() && shorter[j] == q;
                assert(longer[j] == q);
            }
            if q == p {
                assert(longer[k - 1] == q);
            }
        }
        if c.contains(p) {
            lemma_widen_extend(
                Island { top_left: None, btm_right: None },
                among(points, c, k - 1),
                before,
                p,
            );
            assert(among(points, c, k) =~= among(points, c, k - 1).insert(p));
            extend(before, p)
        } else {
            assert(among(points, c, k) =~= among(points, c, k - 1));
            before
        }
    }
}

/// What is connected to one of the given points has a bounding box.
pub proof fn lemma_component_boxed(points: Seq<Point>, p: Point)
    requires
        points.to_set().contains(p),
    ensures
        is_bounding_box(
            component(points.to_set(), p),
            bounding_box(component(points.to_set(), p)),
        ),
{
    let all = points.to_set();
    let c = component(all, p);
    let island = lemma_box_among(points, c, points.len() as int);
    assert(points.subrange(0, points.len() as int) =~= points);
    assert forall|q: Point| c.contains(q) implies among(points, c, points.len() as int).contains(
        q,
    ) by {
        lemma_component_inside(all, p, q);
    }
    assert(among(points, c, points.len() as int) =~= c);
    lemma_connected_self(all, p);
    assert(c.contains(p));
    lemma_widened_fresh(Island { top_left: None, btm_right: None }, c, island, p);
}

/// Each of the first `k` points adds at most one island, and every island
/// has its two corners.
pub proof fn lemma_islands_upto(points: Seq<Point>, k: int)
    requires
        0 <= k <= points.len(),
    ensures
        islands_upto(points, k).len() <= k,
        forall|j: int|
            0 <= j < islands_upto(points, k).len() ==> (#[trigger] islands_upto(
                points,
                k,
            )[j]).top_left is Some && islands_upto(points, k)[j].btm_right is Some,
    decreases k,
{
    if k > 0 {
        lemma_islands_upto(points, k - 1);
        let p = points[k - 1];
        assert(points.to_set().contains(p));
        lemma_component_boxed(points, p);
    }
}

/// Whether the point `p` lies inside the box of an island.
pub open spec fn holds(island: Island, p: Point) -> bool {
    &&& island.top_left is Some
    &&& island.btm_right is Some
    &&& island.min().0 <= p.0 <= island.max().0
    &&& island.min().1 <= p.1 <= island.max().1
}

/// Whether `island` is the bounding box of all that is connected to some
/// point that is connected to `p`.
pub open spec fn boxes(points: Seq<Point>, island: Island, p: Point) -> bool {
    exists|x: Point|
        points.to_set().contains(x) && island == bounding_box(component(points.to_set(), x))
            && #[trigger] connected(points.to_set(), x, p)
}

/// An island that is the bounding box of what a point is connected to
/// holds the point.
pub proof fn lemma_boxes_holds(points: Seq<Point>, island: Island, p: Point)
    requires
        boxes(points, island, p),
    ensures
        holds(island, p),
{
    let all = points.to_set();
    let x = choose|x: Point|
        all.contains(x) && island == bounding_box(component(all, x)) && #[trigger] connected(
            all,
            x,
            p,
        );
    lemma_component_boxed(points, x);
    assert(component(all, x).contains(p));
}

/// Each of the first `k` points lies inside one of the islands of the
/// first `k` points.
pub proof fn lemma_islands_cover(points: Seq<Point>, k: int, i: int)
    requires
        0 <= i < k <= points.len(),
    ensures
        exists|j: int|
            0 <= j < islands_upto(points, k).len() && boxes(
                points,
                #[trigger] islands_upto(points, k)[j],
                points[i],
            ),
    decreases k,
{
    let all = points.to_set();
    let now = islands_upto(points, k);
    let before = islands_upto(points, k - 1);
    let p = points[k - 1];
    assert(all.contains(p));
    if i < k - 1 {
        lemma_islands_cover(points, k - 1, i);
        let j = choose|j: int|
            0 <= j < before.len() && boxes(points, #[trigger] before[j], points[i]);
        assert(now[j] == before[j]);
        assert(0 <= j < now.len() && boxes(points, now[j], points[i]));
    } else if met_before(points, k - 1, p) {
        let i0 = choose|i0: int| 0 <= i0 < k - 1 && connected(all, #[trigger] points[i0], p);
        lemma_islands_cover(points, k - 1, i0);
        let j = choose|j: int|
            0 <= j < before.len() && boxes(points, #[trigger] before[j], points[i0]);
        let x = choose|x: Point|
            all.contains(x) && before[j] == bounding_box(component(all, x))
                && #[trigger] connected(all, x, points[i0]);
        lemma_connected_transitive(all, x, points[i0], p);
        assert(all.contains(x) && now[j] == bounding_box(component(all, x)) && connected(
            all,
            x,
            p,
        ));
        assert(0 <= j < now.len() && boxes(points, now[j], points[i]));
    } else {
        let j = before.len() as int;
        lemma_connected_self(all, p);
        assert(all.contains(p) && now[j] == bounding_box(component(all, p)) && connected(
            all,
            p,
            p,
        ));
        assert(0 <= j < now.len() && boxes(points, now[j], points[i]));
    }
}

/// Each island of the first `k` points is the bounding box of all that is
/// connected to one of them.
pub proof fn lemma_islands_from(points: Seq<Point>, k: int, j: int)
    requires
        0 <= k <= points.len(),
        0 <= j < islands_upto(points, k).len(),
    ensures
        exists|i: int|
            0 <= i < k && islands_upto(points, k)[j] == bounding_box(
                component(points.to_set(), #[trigger] points[i]),
            ),
    decreases k,
{
    let now = islands_upto(points, k);
    let before = islands_upto(points, k - 1);
    if k > 0 {
        if j < before.len() {
            lemma_islands_from(points, k - 1, j);
            let i = choose|i: int|
                0 <= i < k - 1 && before[j] == bounding_box(
                    component(points.to_set(), #[trigger] points[i]),
                );
            assert(now[j] == before[j]);
            assert(0 <= i < k && now[j] == bounding_box(component(points.to_set(), points[i])));
        } else {
            assert(0 <= k - 1 < k && now[j] == bounding_box(
                component(points.to_set(), points[k - 1]),
            ));
        }
    }
}

/// Whether no two of the points are neighbours in a column.
pub open spec fn rows_apart(points: Set<Point>) -> bool {
    forall|p: Point, q: Point|
        points.contains(p) && points.contains(q) && #[trigger] adjacent(p, q) ==> p.0 == q.0
}

/// Where no two points are neighbours in a column, a walk stays in its row.
pub proof fn lemma_path_in_row(points: Set<Point>, path: Seq<Point>, k: int)
    requires
        rows_apart(points),
        is_path(points, path),
        0 <= k < path.len(),
    ensures
        path[k].0 == path[0].0,
    decreases k,
{
    if k > 0 {
        lemma_path_in_row(points, path, k - 1);
        assert(adjacent(path[k - 1], path[k - 1 + 1]));
        assert(points.contains(path[k - 1]));
        assert(points.contains(path[k]));
    }
}

/// Where no two points are neighbours in a column, every island lies in
/// one row.
pub proof fn lemma_islands_in_rows(points: Seq<Point>, j: int)
    requires
        rows_apart(points.to_set()),
        0 <= j < islands_of(points).len(),
    ensures
        islands_of(points)[j].top_left is Some,
        islands_of(points)[j].btm_right is Some,
        islands_of(points)[j].min().0 == islands_of(points)[j].max().0,
{
    let all = points.to_set();
    lemma_islands_from(points, points.len() as int, j);
    let i = choose|i: int|
        0 <= i < points.len() && islands_of(points)[j] == bounding_box(
            component(all, #[trigger] points[i]),
        );
    let x = points[i];
    assert(all.contains(x));
    lemma_component_boxed(points, x);
    let c = component(all, x);
    let island = bounding_box(c);
    assert forall|q: Point| c.contains(q) implies q.0 == x.0 by {
        let path = choose|path: Seq<Point>| #[trigger]
            is_path(all, path) && path[0] == x && path[path.len() - 1] == q;
        lemma_path_in_row(all, path, path.len() - 1);
    }
    let top = choose|q: Point| #[trigger] c.contains(q) && q.0 == island.min().0;
    let bottom = choose|q: Point| #[trigger] c.contains(q) && q.0 == island.max().0;
    assert(top.0 == x.0);
    assert(bottom.0 == x.0);
}

} // verus!
