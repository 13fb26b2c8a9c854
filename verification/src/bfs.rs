use std::collections::HashMap;
use std::collections::HashSet;
use std::collections::VecDeque;

use vstd::prelude::*;

use crate::arena::adjacent;
use crate::arena::dir_between;
use crate::arena::direction_order;
use crate::arena::interior;
use crate::arena::moved;
use crate::arena::neighbor_cells;
use crate::arena::oob;
use crate::arena::Coord;
use crate::arena::Dimensions;
use crate::arena::Direction;

verus! {

/// A cell a route may enter: inside the arena and not an obstacle.
pub open spec fn open_cell(dim: Dimensions, obstacles: Seq<Coord>, c: Coord) -> bool {
    !oob(dim, c) && !obstacles.contains(c)
}

/// `p` leads from `start` to `end` in steps between adjacent cells, and every
/// cell after `start` is open.
pub open spec fn is_route(
    p: Seq<Coord>,
    start: Coord,
    end: Coord,
    dim: Dimensions,
    obstacles: Seq<Coord>,
) -> bool {
    &&& p.len() > 0
    &&& p[0] == start
    &&& p.last() == end
    &&& forall|i: int, j: int| 0 <= i && j == i + 1 && j < p.len() ==> #[trigger] adjacent(p[i], p[j])
    &&& forall|i: int| 1 <= i < p.len() ==> open_cell(dim, obstacles, #[trigger] p[i])
}

/// The place of the step from `a` to the adjacent `b` in the order in which
/// the search tries directions: up, right, down, left.
pub open spec fn step_rank(a: Coord, b: Coord) -> int {
    match dir_between(a, b) {
        Direction::Up => 0,
        Direction::Right => 1,
        Direction::Down => 2,
        Direction::Left => 3,
    }
}

/// `p` comes before `r`: at the first step where the two part, `p` takes
/// a direction that comes earlier in up, right, down, left.
pub open spec fn steps_before(p: Seq<Coord>, r: Seq<Coord>) -> bool {
    exists|k: int|
        #![trigger p.take(k), r.take(k)]
        1 <= k < p.len() && k < r.len() && p.take(k) == r.take(k) && step_rank(p[k - 1], p[k])
            < step_rank(r[k - 1], r[k])
}

/// `p` comes before every other route from `start` to `end` of its length.
pub open spec fn first_of_its_length(
    p: Seq<Coord>,
    start: Coord,
    end: Coord,
    dim: Dimensions,
    obstacles: Seq<Coord>,
) -> bool {
    forall|r: Seq<Coord>|
        #[trigger] is_route(r, start, end, dim, obstacles) && r.len() == p.len() && r != p
            ==> steps_before(p, r)
}

/// `p` is the route the search gives: a shortest route from `start` to
/// `end`, and of the shortest ones the first by `steps_before`.
pub open spec fn first_route(
    p: Seq<Coord>,
    start: Coord,
    end: Coord,
    dim: Dimensions,
    obstacles: Seq<Coord>,
) -> bool {
    &&& is_route(p, start, end, dim, obstacles)
    &&& forall|r: Seq<Coord>| #[trigger] is_route(r, start, end, dim, obstacles) ==> p.len() <= r.len()
    &&& first_of_its_length(p, start, end, dim, obstacles)
}

/// Two routes of a breadth-first search in the order in which their ends
/// are reached: shorter first, then by `steps_before`.
pub open spec fn ordered(a: Seq<Coord>, b: Seq<Coord>) -> bool {
    a.len() < b.len() || (a.len() == b.len() && steps_before(a, b))
}

proof fn lemma_before_push(a: Seq<Coord>, b: Seq<Coord>, x: Coord, y: Coord)
    requires
        steps_before(a, b),
        a.len() == b.len(),
    ensures
        steps_before(a.push(x), b.push(y)),
{
    let k = choose|k: int|
        #![trigger a.take(k), b.take(k)]
        1 <= k < a.len() && k < b.len() && a.take(k) == b.take(k) && step_rank(a[k - 1], a[k])
            < step_rank(b[k - 1], b[k]);
    assert(a.push(x).take(k) =~= a.take(k));
    assert(b.push(y).take(k) =~= b.take(k));
    assert(a.push(x)[k - 1] == a[k - 1] && a.push(x)[k] == a[k]);
    assert(b.push(y)[k - 1] == b[k - 1] && b.push(y)[k] == b[k]);
}

proof fn lemma_before_last(a: Seq<Coord>, x: Coord, y: Coord)
    requires
        a.len() >= 1,
        step_rank(a.last(), x) < step_rank(a.last(), y),
    ensures
        steps_before(a.push(x), a.push(y)),
{
    let k = a.len() as int;
    assert(a.push(x).take(k) =~= a);
    assert(a.push(y).take(k) =~= a);
    assert(a.push(x)[k - 1] == a.last() && a.push(y)[k - 1] == a.last());
}

proof fn lemma_before_trans(a: Seq<Coord>, b: Seq<Coord>, c: Seq<Coord>)
    requires
        steps_before(a, b),
        steps_before(b, c),
        a.len() == b.len(),
        b.len() == c.len(),
    ensures
        steps_before(a, c),
{
    let k1 = choose|k: int|
        #![trigger a.take(k), b.take(k)]
        1 <= k < a.len() && k < b.len() && a.take(k) == b.take(k) && step_rank(a[k - 1], a[k])
            < step_rank(b[k - 1], b[k]);
    let k2 = choose|k: int|
        #![trigger b.take(k), c.take(k)]
        1 <= k < b.len() && k < c.len() && b.take(k) == c.take(k) && step_rank(b[k - 1], b[k])
            < step_rank(c[k - 1], c[k]);
    if k1 <= k2 {
        assert(a.take(k1) =~= c.take(k1)) by {
            assert forall|i: int| 0 <= i < k1 implies a.take(k1)[i] == c.take(k1)[i] by {
                assert(a.take(k1)[i] == b.take(k1)[i]);
                assert(b.take(k2)[i] == c.take(k2)[i]);
            }
        }
        if k1 < k2 {
            assert(b.take(k2)[k1] == c.take(k2)[k1]);
            assert(b.take(k2)[k1 - 1] == c.take(k2)[k1 - 1]);
        } else {
            assert(b.take(k1)[k1 - 1] == a.take(k1)[k1 - 1]);
        }
    } else {
        assert(a.take(k2) =~= c.take(k2)) by {
            assert forall|i: int| 0 <= i < k2 implies a.take(k2)[i] == c.take(k2)[i] by {
                assert(a.take(k1)[i] == b.take(k1)[i]);
                assert(b.take(k2)[i] == c.take(k2)[i]);
            }
        }
        assert(a.take(k1)[k2] == b.take(k1)[k2]);
        assert(a.take(k1)[k2 - 1] == b.take(k1)[k2 - 1]);
    }
}

/// No route comes both before and after another.
pub proof fn lemma_before_asymmetric(a: Seq<Coord>, b: Seq<Coord>)
    ensures
        !(steps_before(a, b) && steps_before(b, a)),
{
    if steps_before(a, b) && steps_before(b, a) {
        let k1 = choose|k: int|
            #![trigger a.take(k), b.take(k)]
            1 <= k < a.len() && k < b.len() && a.take(k) == b.take(k) && step_rank(a[k - 1], a[k])
                < step_rank(b[k - 1], b[k]);
        let k2 = choose|k: int|
            #![trigger b.take(k), a.take(k)]
            1 <= k < b.len() && k < a.len() && b.take(k) == a.take(k) && step_rank(b[k - 1], b[k])
                < step_rank(a[k - 1], a[k]);
        if k1 < k2 {
            assert(a.take(k2)[k1] == b.take(k2)[k1]);
            assert(a.take(k2)[k1 - 1] == b.take(k2)[k1 - 1]);
        } else if k2 < k1 {
            assert(a.take(k1)[k2] == b.take(k1)[k2]);
            assert(a.take(k1)[k2 - 1] == b.take(k1)[k2 - 1]);
        } else {
            assert(a.take(k1)[k1 - 1] == b.take(k1)[k1 - 1]);
        }
    }
}

/// The search's route to a cell is unique: two first routes are equal.
pub proof fn lemma_first_route_unique(
    p: Seq<Coord>,
    q: Seq<Coord>,
    start: Coord,
    end: Coord,
    dim: Dimensions,
    obstacles: Seq<Coord>,
)
    requires
        first_route(p, start, end, dim, obstacles),
        first_route(q, start, end, dim, obstacles),
    ensures
        p == q,
{
    assert(p.len() <= q.len());
    assert(q.len() <= p.len());
    if p != q {
        assert(steps_before(p, q));
        assert(steps_before(q, p));
        lemma_before_asymmetric(p, q);
    }
}

proof fn lemma_rank(u: Coord, j: int)
    requires
        interior(u),
        0 <= j < 4,
    ensures
        step_rank(u, neighbor_cells(u)[j]) == j,
{
    assert(neighbor_cells(u)[j] == moved(u, direction_order()[j]));
}

/// The key under which a cell is recorded in the search's hash tables: the
/// row and the column, each shifted into `0..2^32`, side by side.
pub open spec fn key(c: Coord) -> u64 {
    ((c.x + 0x8000_0000) * 0x1_0000_0000 + (c.y + 0x8000_0000)) as u64
}

fn coord_key(c: &Coord) -> (k: u64)
    ensures
        k == key(*c),
{
    let hi: u64 = (c.x as i64 + 0x8000_0000) as u64;
    let lo: u64 = (c.y as i64 + 0x8000_0000) as u64;
    hi * 0x1_0000_0000 + lo
}

proof fn lemma_key_injective(a: Coord, b: Coord)
    requires
        key(a) == key(b),
    ensures
        a == b,
{
    let ha: int = a.x + 0x8000_0000;
    let la: int = a.y + 0x8000_0000;
    let hb: int = b.x + 0x8000_0000;
    let lb: int = b.y + 0x8000_0000;
    assert(ha * 0x1_0000_0000 + la == hb * 0x1_0000_0000 + lb);
    assert(ha == hb && la == lb) by (nonlinear_arith)
        requires
            ha * 0x1_0000_0000 + la == hb * 0x1_0000_0000 + lb,
            0 <= la < 0x1_0000_0000,
            0 <= lb < 0x1_0000_0000,
    ;
}

/// Every open cell adjacent to `c` has been found, at most one step further
/// from the start than `c`.
pub open spec fn closed(dist: Map<Coord, nat>, dim: Dimensions, obstacles: Seq<Coord>, c: Coord) -> bool {
    forall|w: Coord|
        #[trigger] adjacent(c, w) && open_cell(dim, obstacles, w) ==> dist.dom().contains(w) && dist[w]
            <= dist[c] + 1
}

/// `p` was found before `c`, one step closer to the start, next to it.
pub open spec fn parent_ok(dist: Map<Coord, nat>, c: Coord, p: Coord) -> bool {
    &&& dist.dom().contains(p)
    &&& dist[c] == dist[p] + 1
    &&& adjacent(p, c)
}

proof fn lemma_closed_grow(dist: Map<Coord, nat>, n: Coord, val: nat, dim: Dimensions, obstacles: Seq<Coord>, c: Coord)
    requires
        !dist.dom().contains(n),
        dist.dom().contains(c),
        closed(dist, dim, obstacles, c),
    ensures
        closed(dist.insert(n, val), dim, obstacles, c),
{
    let d2 = dist.insert(n, val);
    assert forall|w: Coord| #[trigger] adjacent(c, w) && open_cell(dim, obstacles, w) implies d2.dom().contains(w)
        && d2[w] <= d2[c] + 1 by {
        assert(dist.dom().contains(w));
    }
}

/// Every walk from the start of at most `lvl` steps through open cells ends
/// at a cell already found, no further from the start than the walk is long;
/// provided that every cell found closer than `lvl` has been expanded.
proof fn lemma_walk(
    dist: Map<Coord, nat>,
    done: Set<Coord>,
    lvl: nat,
    start: Coord,
    dim: Dimensions,
    obstacles: Seq<Coord>,
    w: Seq<Coord>,
)
    requires
        w.len() > 0,
        w[0] == start,
        forall|i: int, j: int| 0 <= i && j == i + 1 && j < w.len() ==> #[trigger] adjacent(w[i], w[j]),
        forall|i: int| 1 <= i < w.len() ==> open_cell(dim, obstacles, #[trigger] w[i]),
        w.len() - 1 <= lvl,
        dist.dom().contains(start),
        dist[start] == 0,
        forall|c: Coord| dist.dom().contains(c) && dist[c] < lvl ==> #[trigger] done.contains(c),
        forall|c: Coord|
            #[trigger] done.contains(c) ==> dist.dom().contains(c) && closed(dist, dim, obstacles, c),
    ensures
        dist.dom().contains(w.last()),
        dist[w.last()] <= w.len() - 1,
    decreases w.len(),
{
    if w.len() > 1 {
        let w2 = w.drop_last();
        assert forall|i: int, j: int| 0 <= i && j == i + 1 && j < w2.len() implies #[trigger] adjacent(
            w2[i],
            w2[j],
        ) by {
            assert(adjacent(w[i], w[j]));
        }
        assert forall|i: int| 1 <= i < w2.len() implies open_cell(dim, obstacles, #[trigger] w2[i]) by {
            assert(open_cell(dim, obstacles, w[i]));
        }
        lemma_walk(dist, done, lvl, start, dim, obstacles, w2);
        let c = w[w.len() - 2];
        assert(done.contains(c));
        assert(adjacent(w[w.len() - 2], w[w.len() - 1]));
        assert(open_cell(dim, obstacles, w[w.len() - 1]));
    }
}

/// What the search keeps of a found cell `c`: its route from the start,
/// as long as its distance, and the first of that length.
pub open spec fn route_ok(
    route: Map<Coord, Seq<Coord>>,
    dist: Map<Coord, nat>,
    start: Coord,
    dim: Dimensions,
    obstacles: Seq<Coord>,
    c: Coord,
) -> bool {
    &&& route.dom().contains(c)
    &&& is_route(route[c], start, c, dim, obstacles)
    &&& route[c].len() == dist[c] + 1
    &&& first_of_its_length(route[c], start, c, dim, obstacles)
}

proof fn lemma_route_extend(p: Seq<Coord>, start: Coord, c: Coord, x: Coord, dim: Dimensions, obstacles: Seq<Coord>)
    requires
        is_route(p, start, c, dim, obstacles),
        adjacent(c, x),
        open_cell(dim, obstacles, x),
    ensures
        is_route(p.push(x), start, x, dim, obstacles),
{
    let px = p.push(x);
    assert forall|i: int, j: int| 0 <= i && j == i + 1 && j < px.len() implies #[trigger] adjacent(px[i], px[j]) by {
        if j < p.len() {
            assert(adjacent(p[i], p[j]));
        }
    }
    assert forall|i: int| 1 <= i < px.len() implies open_cell(dim, obstacles, #[trigger] px[i]) by {
        if i < p.len() {
            assert(open_cell(dim, obstacles, p[i]));
        }
    }
}

/// A cell found from `u`, the first cell at its level not yet expanded, is
/// reached first by the route to `u` and one more step.
proof fn lemma_first_on_discovery(
    dist: Map<Coord, nat>,
    done: Set<Coord>,
    route: Map<Coord, Seq<Coord>>,
    level: nat,
    start: Coord,
    dim: Dimensions,
    obstacles: Seq<Coord>,
    u: Coord,
    c: Coord,
    q: Seq<Coord>,
)
    requires
        dist.dom().contains(start),
        dist[start] == 0,
        dist.dom().contains(u),
        dist[u] == level,
        !dist.dom().contains(c),
        open_cell(dim, obstacles, c),
        adjacent(u, c),
        forall|v: Coord| #[trigger] dist.dom().contains(v) ==> route_ok(route, dist, start, dim, obstacles, v),
        forall|v: Coord|
            #[trigger] dist.dom().contains(v) && !done.contains(v) && v != u ==> exists|i: int|
                0 <= i < q.len() && q[i] == v,
        forall|i: int| 0 <= i < q.len() ==> dist.dom().contains(#[trigger] q[i]) && ordered(route[u], route[q[i]]),
        forall|v: Coord| #[trigger] done.contains(v) ==> dist.dom().contains(v) && closed(dist, dim, obstacles, v),
        forall|v: Coord| dist.dom().contains(v) && dist[v] < level ==> #[trigger] done.contains(v),
    ensures
        first_of_its_length(route[u].push(c), start, c, dim, obstacles),
{
    let pc = route[u].push(c);
    assert(route_ok(route, dist, start, dim, obstacles, u));
    assert forall|r: Seq<Coord>| #[trigger] is_route(r, start, c, dim, obstacles) && r.len() == pc.len() && r != pc implies steps_before(pc, r) by {
        let r2 = r.drop_last();
        let v = r2.last();
        assert(r =~= r2.push(c));
        assert forall|i: int, j: int| 0 <= i && j == i + 1 && j < r2.len() implies #[trigger] adjacent(r2[i], r2[j]) by {
            assert(adjacent(r[i], r[j]));
        }
        assert forall|i: int| 1 <= i < r2.len() implies open_cell(dim, obstacles, #[trigger] r2[i]) by {
            assert(open_cell(dim, obstacles, r[i]));
        }
        assert(is_route(r2, start, v, dim, obstacles));
        lemma_walk(dist, done, level, start, dim, obstacles, r2);
        assert(adjacent(r[r.len() - 2], r[r.len() - 1]));
        if done.contains(v) {
            assert(closed(dist, dim, obstacles, v));
            assert(false);
        }
        assert(dist[v] == level);
        assert(route_ok(route, dist, start, dim, obstacles, v));
        assert(r2 == route[v] || steps_before(route[v], r2));
        if v == u {
            assert(r2 != route[u]);
            lemma_before_push(route[u], r2, c, c);
        } else {
            let i = choose|i: int| 0 <= i < q.len() && q[i] == v;
            assert(ordered(route[u], route[q[i]]));
            if r2 != route[v] {
                lemma_before_trans(route[u], route[v], r2);
            }
            lemma_before_push(route[u], r2, c, c);
        }
    }
}

/// A cell found from `u` in direction `k` comes after every cell waiting
/// in the queue.
proof fn lemma_append_after(
    dist: Map<Coord, nat>,
    route: Map<Coord, Seq<Coord>>,
    level: nat,
    u: Coord,
    c: Coord,
    k: int,
    q: Seq<Coord>,
)
    requires
        route[u].len() == level + 1,
        route[u].last() == u,
        step_rank(u, c) == k,
        forall|i: int|
            0 <= i < q.len() ==> level <= dist[#[trigger] q[i]] <= level + 1 && route[q[i]].len() == dist[q[i]]
                + 1 && route[q[i]].len() >= 1 && route[q[i]].last() == q[i],
        forall|i: int|
            0 <= i < q.len() && dist[#[trigger] q[i]] == level + 1 ==> ((route[q[i]].drop_last() == route[u]
                && step_rank(u, q[i]) < k) || (route[q[i]].drop_last().len() == route[u].len()
                && steps_before(route[q[i]].drop_last(), route[u]))),
    ensures
        forall|i: int| 0 <= i < q.len() ==> ordered(#[trigger] route[q[i]], route[u].push(c)),
{
    assert forall|i: int| 0 <= i < q.len() implies ordered(#[trigger] route[q[i]], route[u].push(c)) by {
        let y = q[i];
        if dist[y] == level + 1 {
            let ry = route[y];
            assert(ry =~= ry.drop_last().push(y));
            if ry.drop_last() == route[u] && step_rank(u, y) < k {
                lemma_before_last(route[u], y, c);
            } else {
                lemma_before_push(ry.drop_last(), route[u], y, c);
            }
        }
    }
}

/// Returns a shortest route from `start` to `end`, both included, that
/// avoids the obstacles and stays inside the arena; an empty path when there
/// is none. Of several shortest routes it returns the one whose steps, taken
/// in turn, come first in the order up, right, down, left.
pub fn bfs(start: Coord, end: Coord, dim: Dimensions, obstacles: &[Coord]) -> (path: Vec<Coord>)
    requires
        start != end,
        !obstacles@.contains(end),
        interior(start),
    ensures
        path@.len() == 0 ==> forall|r: Seq<Coord>| !is_route(r, start, end, dim, obstacles@),
        path@.len() > 0 ==> is_route(path@, start, end, dim, obstacles@),
        path@.len() > 0 ==> forall|r: Seq<Coord>|
            is_route(r, start, end, dim, obstacles@) ==> path@.len() <= r.len(),
        path@.len() > 0 ==> first_route(path@, start, end, dim, obstacles@),
{
    let ghost obs = obstacles@;
    let mut q: VecDeque<Coord> = VecDeque::new();
    let mut v: HashSet<u64> = HashSet::new();
    q.push_back(start);
    v.insert(coord_key(&start));

    // the obstacles count as visited, so that the search does not enter them
    let mut oi: usize = 0;
    while oi < obstacles.len()
        invariant
            oi <= obs.len(),
            obs == obstacles@,
            forall|c: Coord| #[trigger] v@.contains(key(c)) <==> (c == start || obs.take(oi as int).contains(c)),
        decreases obs.len() - oi,
    {
        let ghost before = v@;
        v.insert(coord_key(&obstacles[oi]));
        assert(obs.take(oi + 1) == obs.take(oi as int).push(obs[oi as int]));
        assert forall|c: Coord| #[trigger] v@.contains(key(c)) <==> (c == start || obs.take(oi + 1).contains(c)) by {
            if key(c) == key(obs[oi as int]) {
                lemma_key_injective(c, obs[oi as int]);
            }
            let t = obs.take(oi + 1);
            if t.contains(c) && c != obs[oi as int] {
                let k = choose|k: int| 0 <= k < t.len() && t[k] == c;
                assert(obs.take(oi as int)[k] == c);
            }
            let t0 = obs.take(oi as int);
            if t0.contains(c) {
                let k = choose|k: int| 0 <= k < t0.len() && t0[k] == c;
                assert(t[k] == c);
            }
            assert(t[oi as int] == obs[oi as int]);
        }
        oi = oi + 1;
    }
    assert(obs.take(obs.len() as int) == obs);

    // for path reconstruction
    let mut child_parent: HashMap<u64, Coord> = HashMap::new();
    let ghost mut dist: Map<Coord, nat> = Map::empty().insert(start, 0);
    let ghost mut done: Set<Coord> = Set::empty();
    let ghost mut level: nat = 0;
    let ghost mut route: Map<Coord, Seq<Coord>> = Map::empty().insert(start, seq![start]);
    let mut found = false;
    assert(q@[0] == start);
    assert(route_ok(route, dist, start, dim, obs, start)) by {
        assert forall|r: Seq<Coord>| #[trigger] is_route(r, start, start, dim, obs) && r.len() == 1 implies r
            == seq![start] by {
            assert(r =~= seq![start]);
        }
    }

    while !found && q.len() > 0
        invariant
            obs == obstacles@,
            interior(start),
            start != end,
            !obs.contains(end),
            dist.dom().contains(start),
            dist[start] == 0,
            forall|c: Coord| #[trigger] dist.dom().contains(c) && c != start ==> open_cell(dim, obs, c),
            forall|c: Coord| #[trigger] v@.contains(key(c)) <==> (obs.contains(c) || dist.dom().contains(c)),
            forall|c: Coord|
                #[trigger] child_parent@.contains_key(key(c)) <==> (dist.dom().contains(c) && c != start),
            forall|c: Coord|
                #[trigger] child_parent@.contains_key(key(c)) ==> parent_ok(dist, c, child_parent@[key(c)]),
            child_parent@.len() <= usize::MAX,
            forall|c: Coord| #[trigger] dist.dom().contains(c) ==> route_ok(route, dist, start, dim, obs, c),
            forall|c: Coord|
                #[trigger] child_parent@.contains_key(key(c)) ==> route[c] == route[child_parent@[key(c)]].push(c),
            !found ==> forall|i: int, j: int|
                0 <= i < j < q@.len() ==> ordered(route[#[trigger] q@[i]], route[#[trigger] q@[j]]),
            !found ==> forall|i: int, j: int|
                0 <= i < q@.len() && 0 <= j < q@.len() && dist[#[trigger] q@[i]] == level + 1 && dist[#[trigger] q@[j]]
                    == level ==> route[q@[i]].drop_last().len() == route[q@[j]].len() && steps_before(
                    route[q@[i]].drop_last(),
                    route[q@[j]],
                ),
            found ==> dist.dom().contains(end),
            found ==> forall|r: Seq<Coord>|
                is_route(r, start, end, dim, obs) ==> dist[end] + 1 <= r.len(),
            !found ==> !dist.dom().contains(end),
            !found ==> forall|i: int, j: int|
                0 <= i <= j < q@.len() ==> dist[#[trigger] q@[i]] <= dist[#[trigger] q@[j]],
            !found ==> forall|i: int|
                0 <= i < q@.len() ==> dist.dom().contains(#[trigger] q@[i]) && level <= dist[q@[i]]
                    <= level + 1,
            !found ==> forall|c: Coord| #[trigger] dist.dom().contains(c) ==> dist[c] <= level + 1,
            !found ==> forall|c: Coord|
                #[trigger] dist.dom().contains(c) && !done.contains(c) ==> exists|i: int|
                    0 <= i < q@.len() && q@[i] == c,
            !found ==> forall|c: Coord|
                #[trigger] done.contains(c) ==> dist.dom().contains(c) && closed(dist, dim, obs, c),
            !found ==> forall|c: Coord|
                dist.dom().contains(c) && dist[c] < level ==> #[trigger] done.contains(c),
        decreases usize::MAX - child_parent@.len(), q@.len(),
    {
        let ghost q0 = q@;
        let ghost old_len = child_parent@.len();
        let cur = q.pop_front().unwrap();
        proof {
            let old_level = level;
            level = dist[cur];
            assert forall|i: int, j: int|
                0 <= i <= j < q@.len() implies dist[#[trigger] q@[i]] <= dist[#[trigger] q@[j]] by {
                assert(q@[i] == q0[i + 1] && q@[j] == q0[j + 1]);
            }
            assert forall|i: int|
                0 <= i < q@.len() implies dist.dom().contains(#[trigger] q@[i]) && level <= dist[q@[i]]
                <= level + 1 by {
                assert(q@[i] == q0[i + 1]);
                assert(dist[q0[0]] <= dist[q0[i + 1]]);
            }
            assert forall|c: Coord|
                #[trigger] dist.dom().contains(c) && !done.contains(c) && c != cur implies exists|i: int|
                0 <= i < q@.len() && q@[i] == c by {
                let i = choose|i: int| 0 <= i < q0.len() && q0[i] == c;
                assert(q@[i - 1] == c);
            }
            assert forall|i: int, j: int|
                0 <= i < j < q@.len() implies ordered(route[#[trigger] q@[i]], route[#[trigger] q@[j]]) by {
                assert(q@[i] == q0[i + 1] && q@[j] == q0[j + 1]);
            }
            assert forall|i: int| 0 <= i < q@.len() implies ordered(route[cur], route[#[trigger] q@[i]]) by {
                assert(q@[i] == q0[i + 1]);
                assert(ordered(route[q0[0]], route[q0[i + 1]]));
            }
            assert forall|i: int|
                0 <= i < q@.len() && dist[#[trigger] q@[i]] == level + 1 implies ((route[q@[i]].drop_last()
                == route[cur] && step_rank(cur, q@[i]) < 0) || (route[q@[i]].drop_last().len()
                == route[cur].len() && steps_before(route[q@[i]].drop_last(), route[cur]))) by {
                assert(q@[i] == q0[i + 1]);
                assert(dist[q0[i + 1]] <= old_level + 1);
                assert(dist[q0[0]] == old_level);
            }
            assert forall|c: Coord| dist.dom().contains(c) && dist[c] < level implies #[trigger] done.contains(c) by {
                if !done.contains(c) && dist[c] >= old_level {
                    let i = choose|i: int| 0 <= i < q0.len() && q0[i] == c;
                    assert(dist[q0[0]] <= dist[q0[i]]);
                }
            }
        }
        let ns = cur.neighbors();
        let mut k: usize = 0;
        while k < ns.len() && !found
            invariant
                obs == obstacles@,
                interior(start),
                start != end,
                !obs.contains(end),
                k <= ns@.len(),
                ns@ == neighbor_cells(cur),
                interior(cur),
                dist.dom().contains(cur),
                dist[cur] == level,
                dist.dom().contains(start),
                dist[start] == 0,
                forall|c: Coord| #[trigger] dist.dom().contains(c) && c != start ==> open_cell(dim, obs, c),
                forall|c: Coord| #[trigger] v@.contains(key(c)) <==> (obs.contains(c) || dist.dom().contains(c)),
                forall|c: Coord|
                    #[trigger] child_parent@.contains_key(key(c)) <==> (dist.dom().contains(c) && c != start),
                forall|c: Coord|
                    #[trigger] child_parent@.contains_key(key(c)) ==> parent_ok(dist, c, child_parent@[key(c)]),
                child_parent@.len() <= usize::MAX,
                forall|c: Coord| #[trigger] dist.dom().contains(c) ==> route_ok(route, dist, start, dim, obs, c),
                forall|c: Coord|
                    #[trigger] child_parent@.contains_key(key(c)) ==> route[c] == route[child_parent@[key(c)]].push(c),
                !found ==> forall|i: int, j: int|
                    0 <= i < j < q@.len() ==> ordered(route[#[trigger] q@[i]], route[#[trigger] q@[j]]),
                !found ==> forall|i: int| 0 <= i < q@.len() ==> ordered(route[cur], route[#[trigger] q@[i]]),
                !found ==> forall|i: int|
                    0 <= i < q@.len() && dist[#[trigger] q@[i]] == level + 1 ==> ((route[q@[i]].drop_last()
                        == route[cur] && step_rank(cur, q@[i]) < k) || (route[q@[i]].drop_last().len()
                        == route[cur].len() && steps_before(route[q@[i]].drop_last(), route[cur]))),
                child_parent@.len() >= old_len,
                child_parent@.len() == old_len ==> q@.len() == q0.len() - 1,
                found ==> dist.dom().contains(end),
                found ==> forall|r: Seq<Coord>|
                    is_route(r, start, end, dim, obs) ==> dist[end] + 1 <= r.len(),
                !found ==> !dist.dom().contains(end),
                !found ==> forall|i: int, j: int|
                    0 <= i <= j < q@.len() ==> dist[#[trigger] q@[i]] <= dist[#[trigger] q@[j]],
                !found ==> forall|i: int|
                    0 <= i < q@.len() ==> dist.dom().contains(#[trigger] q@[i]) && level <= dist[q@[i]]
                        <= level + 1,
                !found ==> forall|c: Coord| #[trigger] dist.dom().contains(c) ==> dist[c] <= level + 1,
                !found ==> forall|c: Coord|
                    #[trigger] dist.dom().contains(c) && !done.contains(c) && c != cur ==> exists|i: int|
                        0 <= i < q@.len() && q@[i] == c,
                !found ==> forall|c: Coord|
                    #[trigger] done.contains(c) ==> dist.dom().contains(c) && closed(dist, dim, obs, c),
                !found ==> forall|c: Coord|
                    dist.dom().contains(c) && dist[c] < level ==> #[trigger] done.contains(c),
                !found ==> forall|j: int|
                    0 <= j < k && open_cell(dim, obs, #[trigger] ns@[j]) ==> dist.dom().contains(ns@[j])
                        && dist[ns@[j]] <= level + 1,
            decreases ns@.len() - k,
        {
            let nbor = ns[k];
            assert(nbor == moved(cur, direction_order()[k as int]));
            let nkey = coord_key(&nbor);
            if dim.check_oob(&nbor) {
            } else if v.contains(&nkey) {
            } else {
                proof {
                    assert(!dist.dom().contains(nbor));
                    assert(!child_parent@.contains_key(nkey));
                }
                let ghost old_dist = dist;
                let ghost old_cp = child_parent@;
                let ghost old_q = q@;
                let ghost old_route = route;
                proof {
                    crate::arena::lemma_moved_adjacent(cur, direction_order()[k as int]);
                    lemma_first_on_discovery(dist, done, route, level, start, dim, obs, cur, nbor, q@);
                    lemma_rank(cur, k as int);
                    lemma_append_after(dist, route, level, cur, nbor, k as int, q@);
                    assert(route_ok(route, dist, start, dim, obs, cur));
                    lemma_route_extend(route[cur], start, cur, nbor, dim, obs);
                }
                child_parent.insert(nkey, cur);
                v.insert(nkey);
                q.push_back(nbor);
                proof {
                    dist = dist.insert(nbor, level + 1);
                    route = route.insert(nbor, old_route[cur].push(nbor));
                    assert forall|c: Coord| #[trigger] dist.dom().contains(c) implies route_ok(route, dist, start, dim, obs, c) by {
                        if c != nbor {
                            assert(old_dist.dom().contains(c));
                            assert(route_ok(old_route, old_dist, start, dim, obs, c));
                        }
                    }
                    assert forall|c: Coord| #[trigger] child_parent@.contains_key(key(c)) implies route[c]
                        == route[child_parent@[key(c)]].push(c) by {
                        if key(c) == nkey {
                            lemma_key_injective(c, nbor);
                        } else {
                            assert(old_cp.contains_key(key(c)));
                            assert(parent_ok(old_dist, c, old_cp[key(c)]));
                        }
                    }
                    assert(child_parent@.len() == child_parent.len());
                    assert(child_parent@.dom() == old_cp.dom().insert(nkey));
                    assert forall|c: Coord| #[trigger] v@.contains(key(c)) <==> (obs.contains(c)
                        || dist.dom().contains(c)) by {
                        if key(c) == nkey {
                            lemma_key_injective(c, nbor);
                        }
                    }
                    assert forall|c: Coord|
                        #[trigger] child_parent@.contains_key(key(c)) <==> (dist.dom().contains(c) && c
                            != start) by {
                        if key(c) == nkey {
                            lemma_key_injective(c, nbor);
                        }
                    }
                    assert forall|c: Coord| #[trigger] child_parent@.contains_key(key(c)) implies parent_ok(
                        dist,
                        c,
                        child_parent@[key(c)],
                    ) by {
                        if key(c) == nkey {
                            lemma_key_injective(c, nbor);
                            crate::arena::lemma_moved_adjacent(cur, direction_order()[k as int]);
                        } else {
                            assert(old_cp.contains_key(key(c)));
                            assert(parent_ok(old_dist, c, old_cp[key(c)]));
                        }
                    }
                    assert forall|c: Coord| #[trigger] dist.dom().contains(c) && c != start implies open_cell(
                        dim,
                        obs,
                        c,
                    ) by {
                        if c != nbor {
                            assert(old_dist.dom().contains(c));
                        }
                    }
                }
                if nbor == end {
                    proof {
                        assert forall|r: Seq<Coord>| is_route(r, start, end, dim, obs) implies dist[end] + 1
                            <= r.len() by {
                            if r.len() - 1 <= level {
                                lemma_walk(old_dist, done, level, start, dim, obs, r);
                            }
                        }
                    }
                    found = true;
                } else {
                    proof {
                        assert forall|i: int, j: int|
                            0 <= i <= j < q@.len() implies dist[#[trigger] q@[i]] <= dist[#[trigger] q@[j]] by {
                            if j < old_q.len() {
                                assert(q@[i] == old_q[i] && q@[j] == old_q[j]);
                            } else if i < old_q.len() {
                                assert(q@[i] == old_q[i]);
                            }
                        }
                        assert forall|i: int|
                            0 <= i < q@.len() implies dist.dom().contains(#[trigger] q@[i]) && level <= dist[q@[i]]
                            <= level + 1 by {
                            if i < old_q.len() {
                                assert(q@[i] == old_q[i]);
                            }
                        }
                        assert forall|c: Coord| #[trigger] dist.dom().contains(c) && !done.contains(c) && c
                            != cur implies exists|i: int| 0 <= i < q@.len() && q@[i] == c by {
                            if c == nbor {
                                assert(q@[q@.len() - 1] == c);
                            } else {
                                assert(old_dist.dom().contains(c));
                                let i = choose|i: int| 0 <= i < old_q.len() && old_q[i] == c;
                                assert(q@[i] == c);
                            }
                        }
                        assert forall|c: Coord| #[trigger] done.contains(c) implies dist.dom().contains(c)
                            && closed(dist, dim, obs, c) by {
                            lemma_closed_grow(old_dist, nbor, level + 1, dim, obs, c);
                        }
                        assert forall|c: Coord| dist.dom().contains(c) && dist[c] < level implies #[trigger] done.contains(c) by {
                            if c != nbor {
                                assert(old_dist.dom().contains(c));
                            }
                        }
                        assert forall|j: int|
                            0 <= j < k + 1 && open_cell(dim, obs, #[trigger] ns@[j]) implies dist.dom().contains(ns@[j])
                            && dist[ns@[j]] <= level + 1 by {
                            if j < k {
                                assert(old_dist.dom().contains(ns@[j]));
                            }
                        }
                    }
                }
            }
            k = k + 1;
        }
        proof {
            if !found {
                assert(closed(dist, dim, obs, cur)) by {
                    assert forall|w: Coord| #[trigger] adjacent(cur, w) && open_cell(dim, obs, w) implies dist.dom().contains(
                        w,
                    ) && dist[w] <= dist[cur] + 1 by {
                        crate::arena::lemma_neighbors_adjacent(cur, w);
                        let j = choose|j: int| 0 <= j < ns@.len() && ns@[j] == w;
                    }
                }
                assert forall|i: int, j: int|
                    0 <= i < q@.len() && 0 <= j < q@.len() && dist[#[trigger] q@[i]] == level + 1 && dist[#[trigger] q@[j]]
                        == level implies route[q@[i]].drop_last().len() == route[q@[j]].len() && steps_before(
                    route[q@[i]].drop_last(),
                    route[q@[j]],
                ) by {
                    assert(ordered(route[cur], route[q@[j]]));
                    assert(route_ok(route, dist, start, dim, obs, q@[j]));
                    assert(route_ok(route, dist, start, dim, obs, cur));
                    if !(route[q@[i]].drop_last() == route[cur]) {
                        lemma_before_trans(route[q@[i]].drop_last(), route[cur], route[q@[j]]);
                    }
                }
                done = done.insert(cur);
            }
        }
    }
    let end_key = coord_key(&end);
    if !child_parent.contains_key(&end_key) {
        proof {
            assert(!found);
            assert forall|r: Seq<Coord>| !is_route(r, start, end, dim, obstacles@) by {
                if is_route(r, start, end, dim, obs) {
                    assert forall|c: Coord| dist.dom().contains(c) && dist[c] < r.len() implies #[trigger] done.contains(c) by {
                        if !done.contains(c) {
                            let i = choose|i: int| 0 <= i < q@.len() && q@[i] == c;
                        }
                    }
                    lemma_walk(dist, done, r.len() as nat, start, dim, obs, r);
                }
            }
        }
        return Vec::new();
    }
    assert(found);

    // reconstruct the path, from the end back to the start
    let ghost rend = route[end];
    assert(route_ok(route, dist, start, dim, obs, end));
    let mut path: Vec<Coord> = Vec::new();
    let mut cur: Coord = end;
    let mut at_start = false;
    assert(rend.take(dist[end] + 1int) =~= rend);
    while !at_start
        invariant
            dist.dom().contains(cur),
            dist.dom().contains(start),
            forall|c: Coord| #[trigger] dist.dom().contains(c) ==> route_ok(route, dist, start, dim, obs, c),
            forall|c: Coord|
                #[trigger] child_parent@.contains_key(key(c)) <==> (dist.dom().contains(c) && c != start),
            forall|c: Coord|
                #[trigger] child_parent@.contains_key(key(c)) ==> parent_ok(dist, c, child_parent@[key(c)]),
            forall|c: Coord|
                #[trigger] child_parent@.contains_key(key(c)) ==> route[c] == route[child_parent@[key(c)]].push(c),
            rend.len() == dist[end] + 1,
            route[cur] == rend.take(dist[cur] + 1int),
            path@.len() + dist[cur] == dist[end],
            forall|i: int| 0 <= i < path@.len() ==> path@[i] == rend[dist[end] - i],
            at_start ==> cur == start,
        decreases 2 * dist[cur] + if at_start {
            0int
        } else {
            1int
        },
    {
        let ck = coord_key(&cur);
        match child_parent.get(&ck) {
            Some(p) => {
                let ghost old_path = path@;
                let ghost old_cur = cur;
                assert(parent_ok(dist, cur, *p));
                assert(route_ok(route, dist, start, dim, obs, cur));
                path.push(cur);
                cur = *p;
                proof {
                    assert(route[old_cur] == route[cur].push(old_cur));
                    assert(route[cur] =~= rend.take(dist[cur] + 1int)) by {
                        assert(route[cur] =~= route[old_cur].take(dist[cur] + 1int));
                    }
                    assert(old_cur == route[old_cur][dist[old_cur] as int]);
                    assert(path@[old_path.len() as int] == rend[dist[end] - old_path.len()]);
                }
            },
            None => {
                at_start = true;
            },
        }
    }
    path.push(cur);
    proof {
        assert(route_ok(route, dist, start, dim, obs, start));
        assert(route[start][0] == start);
    }

    // the path was collected from the end: reverse it
    let n = path.len();
    let mut result: Vec<Coord> = Vec::new();
    let mut i: usize = n;
    while i > 0
        invariant
            i <= n,
            n == path@.len(),
            result@.len() == n - i,
            forall|j: int| 0 <= j < result@.len() ==> result@[j] == path@[n - 1 - j],
        decreases i,
    {
        i = i - 1;
        result.push(path[i]);
    }
    proof {
        assert(result@ =~= rend);
    }
    result
}


} // verus!
