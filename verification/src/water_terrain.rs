//! Terrain grown outward from the lakes, gentler where more water flows.

use crate::grid::{changed_at, scanned, Grid};
use crate::queue::{Point, PointQueue};
use crate::river::MAX_CELLS;
use crate::sums::{grid_sum, lemma_grid_sum_bounds, lemma_grid_sum_point};
use vstd::multiset::*;
use vstd::prelude::*;

verus! {

/// Highest lake surface from which terrain can be grown.
pub const MAX_LEVEL: i64 = 0x3fff_ffff_ffff_ffff;

/// Largest river volume for which a slope is defined.
pub const MAX_VOLUME: i64 = 0x3fff_ffff_ffff_ffff;

/// How much the terrain rises from a cell with the river volume `volume` to the
/// cells around it: one divided by a half more than the volume, all in units of
/// `ONE`. The more water flows through a cell, the gentler the slope.
pub open spec fn slope(volume: int) -> int {
    4294967296int / (32768 + volume)
}

/// How much the terrain rises from a cell with the river volume `volume`, both
/// in units of `ONE`.
pub fn slope_increment(volume: i64) -> (dz: i64)
    requires
        0 <= volume <= MAX_VOLUME,
    ensures
        dz == slope(volume as int),
        0 <= dz <= 131072,
{
    let whole: i64 = 4294967296;
    let d: i64 = 32768 + volume;
    let dz = whole / d;
    proof {
        lemma_slope_bounds(volume as int);
    }
    dz
}

/// A slope is never negative and never steeper than two units.
pub proof fn lemma_slope_bounds(volume: int)
    requires
        volume >= 0,
    ensures
        0 <= slope(volume) <= 131072,
{
    let d = 32768 + volume;
    let q = 4294967296int / d;
    assert(q * d <= 4294967296 && q >= 0) by (nonlinear_arith)
        requires
            d > 0,
            q == 4294967296int / d,
    ;
    if q > 131072 {
        assert(q * d >= 131073 * 32768) by (nonlinear_arith)
            requires
                q >= 131073,
                d >= 32768,
        ;
    }
}

/// Whether `(x, y)` is a cell of a lake.
pub open spec fn is_seed(lakes: Grid, x: int, y: int) -> bool {
    lakes.contains(x, y) && lakes.at(x, y) > 0
}

/// Whether `(x, y)` is a cell of the grid that does not lie on its edge.
pub open spec fn is_inner(grid: Grid, x: int, y: int) -> bool {
    0 < x < grid.spec_width() - 1 && 0 < y < grid.spec_height() - 1
}

/// Whether `b` is one of the eight cells around `a`.
pub open spec fn near(ax: int, ay: int, bx: int, by: int) -> bool {
    (ax != bx || ay != by) && ax - 1 <= bx <= ax + 1 && ay - 1 <= by <= ay + 1
}

/// Whether `path` is a way that the terrain can grow along: it starts in a cell
/// of a lake and leads from cell to cell around it, never on from the edge of the grid.
pub open spec fn is_wave(lakes: Grid, path: Seq<(int, int)>) -> bool {
    &&& path.len() > 0
    &&& is_seed(lakes, path[0].0, path[0].1)
    &&& forall|i: int|
        0 <= i < path.len() - 1 ==> is_inner(lakes, (#[trigger] path[i]).0, path[i].1)
    &&& forall|i: int, j: int|
        0 <= i && j == i + 1 && j < path.len() ==> near(
            (#[trigger] path[i]).0,
            path[i].1,
            (#[trigger] path[j]).0,
            path[j].1,
        )
}

/// The height that the terrain has at the end of `path` when it grows along it:
/// the surface of the lake it starts in, and the slope of each cell that it leaves.
pub open spec fn wave_cost(rivers: Grid, lakes: Grid, path: Seq<(int, int)>) -> int
    decreases path.len(),
{
    if path.len() <= 1 {
        lakes.at(path[0].0, path[0].1) as int
    } else {
        wave_cost(rivers, lakes, path.drop_last()) + slope(
            rivers.at(path[path.len() - 2].0, path[path.len() - 2].1) as int,
        )
    }
}

/// Whether the terrain can grow to `(x, y)` at all.
pub open spec fn is_reachable(lakes: Grid, x: int, y: int) -> bool {
    exists|path: Seq<(int, int)>| #[trigger] is_wave(lakes, path) && path[path.len() - 1] == (x, y)
}

/// Whether the terrain can grow to `(x, y)` with the height `v`.
pub open spec fn is_reached(rivers: Grid, lakes: Grid, x: int, y: int, v: int) -> bool {
    exists|path: Seq<(int, int)>| #[trigger]
        is_wave(lakes, path) && path[path.len() - 1] == (x, y) && wave_cost(rivers, lakes, path)
            == v
}

/// Whether `v` is the lowest height with which the terrain can grow to `(x, y)`.
pub open spec fn is_cheapest(rivers: Grid, lakes: Grid, x: int, y: int, v: int) -> bool {
    &&& is_reached(rivers, lakes, x, y, v)
    &&& forall|path: Seq<(int, int)>| #[trigger]
        is_wave(lakes, path) && path[path.len() - 1] == (x, y) ==> wave_cost(rivers, lakes, path)
            >= v
}

/// Whether `v` is the height of the terrain in `(x, y)`: the lowest with which
/// the terrain can grow to the cell, and zero where it cannot grow to it.
pub open spec fn is_terrain(rivers: Grid, lakes: Grid, x: int, y: int, v: int) -> bool {
    if v == 0 {
        !is_reachable(lakes, x, y)
    } else {
        is_cheapest(rivers, lakes, x, y, v)
    }
}

/// Whether no river volume is negative or above `MAX_VOLUME`.
pub open spec fn volumes_fit(rivers: Grid) -> bool {
    forall|x: int, y: int| rivers.contains(x, y) ==> 0 <= #[trigger] rivers.at(x, y) <= MAX_VOLUME
}

/// Whether no lake surface is above `MAX_LEVEL`.
pub open spec fn levels_fit(lakes: Grid) -> bool {
    forall|x: int, y: int| lakes.contains(x, y) ==> #[trigger] lakes.at(x, y) <= MAX_LEVEL
}

/// Every cell of a way that the terrain can grow along is a cell of the grid.
pub proof fn lemma_wave_in_grid(lakes: Grid, path: Seq<(int, int)>, i: int)
    requires
        is_wave(lakes, path),
        0 <= i < path.len(),
    ensures
        lakes.contains(path[i].0, path[i].1),
{
    if i > 0 {
        let a = path[i - 1];
        let b = path[i];
        assert(is_inner(lakes, a.0, a.1));
        assert(near(a.0, a.1, b.0, b.1));
    }
}

/// The start of a way that the terrain can grow along is such a way.
pub proof fn lemma_wave_prefix(lakes: Grid, path: Seq<(int, int)>)
    requires
        is_wave(lakes, path),
        path.len() > 1,
    ensures
        is_wave(lakes, path.drop_last()),
{
    let shorter = path.drop_last();
    assert(shorter[0] == path[0]);
    assert forall|i: int| 0 <= i < shorter.len() - 1 implies is_inner(
        lakes,
        (#[trigger] shorter[i]).0,
        shorter[i].1,
    ) by {
        assert(shorter[i] == path[i]);
    }
    assert forall|i: int, j: int| 0 <= i && j == i + 1 && j < shorter.len() implies near(
        (#[trigger] shorter[i]).0,
        shorter[i].1,
        (#[trigger] shorter[j]).0,
        shorter[j].1,
    ) by {
        assert(shorter[i] == path[i]);
        assert(shorter[j] == path[j]);
    }
}

/// A way that the terrain can grow along leads on from its end, unless that
/// lies on the edge, to each of the cells around it.
pub proof fn lemma_wave_extend(rivers: Grid, lakes: Grid, path: Seq<(int, int)>, nx: int, ny: int)
    requires
        is_wave(lakes, path),
        is_inner(lakes, path[path.len() - 1].0, path[path.len() - 1].1),
        near(path[path.len() - 1].0, path[path.len() - 1].1, nx, ny),
    ensures
        is_wave(lakes, path.push((nx, ny))),
        wave_cost(rivers, lakes, path.push((nx, ny))) == wave_cost(rivers, lakes, path) + slope(
            rivers.at(path[path.len() - 1].0, path[path.len() - 1].1) as int,
        ),
{
    let longer = path.push((nx, ny));
    assert(longer[0] == path[0]);
    assert forall|i: int| 0 <= i < longer.len() - 1 implies is_inner(
        lakes,
        (#[trigger] longer[i]).0,
        longer[i].1,
    ) by {
        assert(longer[i] == path[i]);
    }
    assert forall|i: int, j: int| 0 <= i && j == i + 1 && j < longer.len() implies near(
        (#[trigger] longer[i]).0,
        longer[i].1,
        (#[trigger] longer[j]).0,
        longer[j].1,
    ) by {
        assert(longer[i] == path[i]);
        if j < path.len() {
            assert(longer[j] == path[j]);
        }
    }
    assert(longer.drop_last() =~= path);
    assert(longer[longer.len() - 2] == path[path.len() - 1]);
}

/// Along a way that the terrain can grow along the height does not fall, and it
/// starts above zero.
pub proof fn lemma_wave_rises(rivers: Grid, lakes: Grid, path: Seq<(int, int)>)
    requires
        is_wave(lakes, path),
        volumes_fit(rivers),
        rivers.same_size(&lakes),
    ensures
        wave_cost(rivers, lakes, path) > 0,
        path.len() > 1 ==> wave_cost(rivers, lakes, path.drop_last()) <= wave_cost(
            rivers,
            lakes,
            path,
        ),
    decreases path.len(),
{
    if path.len() > 1 {
        lemma_wave_prefix(lakes, path);
        lemma_wave_rises(rivers, lakes, path.drop_last());
        lemma_wave_in_grid(lakes, path, path.len() - 2);
        lemma_slope_bounds(rivers.at(path[path.len() - 2].0, path[path.len() - 2].1) as int);
    }
}

/// Where the terrain has the height of a way that grows to a cell, it has the
/// height of the same way in the cell before, and is no higher there.
pub proof fn lemma_terrain_rises(rivers: Grid, lakes: Grid, terrain: Grid, path: Seq<(int, int)>)
    requires
        volumes_fit(rivers),
        rivers.same_size(&lakes),
        terrain.same_size(&lakes),
        forall|x: int, y: int|
            lakes.contains(x, y) ==> is_terrain(rivers, lakes, x, y, #[trigger] terrain.at(x, y) as int),
        is_wave(lakes, path),
        path.len() > 1,
        terrain.at(path[path.len() - 1].0, path[path.len() - 1].1) == wave_cost(rivers, lakes, path),
    ensures
        terrain.at(path[path.len() - 2].0, path[path.len() - 2].1) == wave_cost(
            rivers,
            lakes,
            path.drop_last(),
        ),
        terrain.at(path[path.len() - 2].0, path[path.len() - 2].1) <= terrain.at(
            path[path.len() - 1].0,
            path[path.len() - 1].1,
        ),
{
    let n = path.len() as int;
    let shorter = path.drop_last();
    let end = path[n - 1];
    let mid = path[n - 2];
    lemma_wave_prefix(lakes, path);
    lemma_wave_rises(rivers, lakes, path);
    lemma_wave_rises(rivers, lakes, shorter);
    lemma_wave_in_grid(lakes, path, n - 2);
    lemma_wave_in_grid(lakes, path, n - 1);
    assert(shorter[shorter.len() - 1] == mid);
    let t = terrain.at(mid.0, mid.1) as int;
    assert(is_terrain(rivers, lakes, mid.0, mid.1, t));
    assert(is_reachable(lakes, mid.0, mid.1));
    assert(t <= wave_cost(rivers, lakes, shorter));
    if t < wave_cost(rivers, lakes, shorter) {
        let other = choose|other: Seq<(int, int)>| #[trigger]
            is_wave(lakes, other) && other[other.len() - 1] == (mid.0, mid.1) && wave_cost(
                rivers,
                lakes,
                other,
            ) == t;
        assert(is_inner(lakes, mid.0, mid.1) && near(mid.0, mid.1, end.0, end.1));
        lemma_wave_extend(rivers, lakes, other, end.0, end.1);
        let longer = other.push(end);
        assert(longer[longer.len() - 1] == (end.0, end.1));
        assert(is_terrain(rivers, lakes, end.0, end.1, terrain.at(end.0, end.1) as int));
        assert(wave_cost(rivers, lakes, longer) >= terrain.at(end.0, end.1));
    }
}

/// Every cell that the terrain has grown to, but a cell of a lake at the
/// surface of its lake, has its height from one of the cells around it: that
/// cell does not lie on the edge, is no higher, and is lower by exactly its slope.
pub proof fn lemma_terrain_source(rivers: Grid, lakes: Grid, terrain: Grid, x: int, y: int)
    requires
        volumes_fit(rivers),
        rivers.same_size(&lakes),
        terrain.same_size(&lakes),
        forall|px: int, py: int|
            lakes.contains(px, py) ==> is_terrain(
                rivers,
                lakes,
                px,
                py,
                #[trigger] terrain.at(px, py) as int,
            ),
        lakes.contains(x, y),
        terrain.at(x, y) != 0,
        !(is_seed(lakes, x, y) && terrain.at(x, y) == lakes.at(x, y)),
    ensures
        exists|qx: int, qy: int| #[trigger]
            near(qx, qy, x, y) && is_inner(lakes, qx, qy) && 0 < terrain.at(qx, qy) <= terrain.at(
                x,
                y,
            ) && terrain.at(x, y) == terrain.at(qx, qy) + slope(rivers.at(qx, qy) as int),
{
    let t = terrain.at(x, y) as int;
    assert(is_terrain(rivers, lakes, x, y, t));
    let path = choose|path: Seq<(int, int)>| #[trigger]
        is_wave(lakes, path) && path[path.len() - 1] == (x, y) && wave_cost(rivers, lakes, path)
            == t;
    if path.len() > 1 {
        let n = path.len() as int;
        let q = path[n - 2];
        lemma_terrain_rises(rivers, lakes, terrain, path);
        lemma_wave_prefix(lakes, path);
        lemma_wave_rises(rivers, lakes, path.drop_last());
        assert(is_inner(lakes, q.0, q.1));
        assert(near(q.0, q.1, path[n - 1].0, path[n - 1].1));
        assert(near(q.0, q.1, x, y));
    }
}

/// The height of the terrain in a cell is determined by the river volumes and the lakes.
pub proof fn lemma_terrain_unique(rivers: Grid, lakes: Grid, x: int, y: int, a: int, b: int)
    requires
        volumes_fit(rivers),
        rivers.same_size(&lakes),
        is_terrain(rivers, lakes, x, y, a),
        is_terrain(rivers, lakes, x, y, b),
    ensures
        a == b,
{
    if a != 0 {
        let path = choose|path: Seq<(int, int)>| #[trigger]
            is_wave(lakes, path) && path[path.len() - 1] == (x, y) && wave_cost(
                rivers,
                lakes,
                path,
            ) == a;
        assert(is_reachable(lakes, x, y));
    }
    if b != 0 {
        let path = choose|path: Seq<(int, int)>| #[trigger]
            is_wave(lakes, path) && path[path.len() - 1] == (x, y) && wave_cost(
                rivers,
                lakes,
                path,
            ) == b;
        assert(is_reachable(lakes, x, y));
    }
}

/// One for each cell whose height is final, zero for the others.
spec fn done_fn(done: Grid) -> spec_fn(int, int) -> int {
    |x: int, y: int|
        if done.at(x, y) != 0 {
            1int
        } else {
            0int
        }
}

/// The point that the queue holds for the cell `(x, y)` with the height `z`.
spec fn point_at(x: int, y: int, z: i64) -> Point {
    Point { x: x as usize, y: y as usize, z }
}

/// What holds while the terrain grows: every height is the height of a way to
/// the cell, final heights are the lowest, the cells around a cell with a final
/// height (but `open`) have been offered its height and its slope, and every
/// cell with a height that is not final waits in the queue with that height.
spec fn growing(
    rivers: Grid,
    lakes: Grid,
    terrain: Grid,
    done: Grid,
    queue: Multiset<Point>,
    spread: int,
    open: (int, int),
) -> bool {
    &&& rivers.same_size(&lakes)
    &&& terrain.same_size(&lakes)
    &&& done.same_size(&lakes)
    &&& volumes_fit(rivers)
    &&& levels_fit(lakes)
    &&& lakes.spec_width() * lakes.spec_height() <= MAX_CELLS
    &&& spread == grid_sum(done_fn(done), lakes.spec_width() as int, lakes.spec_height() as int)
    &&& 0 <= spread <= lakes.spec_width() * lakes.spec_height()
    &&& forall|x: int, y: int|
        lakes.contains(x, y) && #[trigger] terrain.at(x, y) != 0 ==> is_reached(
            rivers,
            lakes,
            x,
            y,
            terrain.at(x, y) as int,
        )
    &&& forall|x: int, y: int|
        lakes.contains(x, y) ==> 0 <= #[trigger] terrain.at(x, y) <= MAX_LEVEL + spread * 131072
    &&& forall|x: int, y: int|
        lakes.contains(x, y) && #[trigger] done.at(x, y) != 0 ==> terrain.at(x, y) != 0
            && is_cheapest(rivers, lakes, x, y, terrain.at(x, y) as int)
    &&& forall|x: int, y: int, nx: int, ny: int|
        lakes.contains(x, y) && done.at(x, y) != 0 && is_inner(lakes, x, y) && (x, y) != open
            && #[trigger] near(x, y, nx, ny) ==> terrain.at(nx, ny) != 0 && terrain.at(nx, ny)
            <= terrain.at(x, y) + slope(rivers.at(x, y) as int)
    &&& forall|x: int, y: int|
        is_seed(lakes, x, y) ==> #[trigger] terrain.at(x, y) != 0 && terrain.at(x, y) <= lakes.at(
            x,
            y,
        )
    &&& forall|x: int, y: int|
        lakes.contains(x, y) && done.at(x, y) == 0 && #[trigger] terrain.at(x, y) != 0
            ==> queue.count(point_at(x, y, terrain.at(x, y))) > 0
    &&& forall|p: Point| #[trigger]
        queue.count(p) > 0 ==> lakes.contains(p.x as int, p.y as int) && terrain.at(
            p.x as int,
            p.y as int,
        ) != 0 && terrain.at(p.x as int, p.y as int) <= p.z <= MAX_LEVEL + spread * 131072
}

/// The first `j + 1` cells of a way that the terrain can grow along are such a
/// way, one slope higher than the first `j` cells.
proof fn lemma_wave_take(rivers: Grid, lakes: Grid, path: Seq<(int, int)>, j: int)
    requires
        is_wave(lakes, path),
        0 <= j < path.len(),
    ensures
        is_wave(lakes, path.take(j + 1)),
        path.take(j + 1)[j] == path[j],
        j > 0 ==> wave_cost(rivers, lakes, path.take(j + 1)) == wave_cost(
            rivers,
            lakes,
            path.take(j),
        ) + slope(rivers.at(path[j - 1].0, path[j - 1].1) as int),
        j == 0 ==> wave_cost(rivers, lakes, path.take(j + 1)) == lakes.at(path[0].0, path[0].1),
{
    let part = path.take(j + 1);
    assert(part[0] == path[0]);
    assert forall|i: int| 0 <= i < part.len() - 1 implies is_inner(
        lakes,
        (#[trigger] part[i]).0,
        part[i].1,
    ) by {
        assert(part[i] == path[i]);
    }
    assert forall|i: int, k: int| 0 <= i && k == i + 1 && k < part.len() implies near(
        (#[trigger] part[i]).0,
        part[i].1,
        (#[trigger] part[k]).0,
        part[k].1,
    ) by {
        assert(part[i] == path[i]);
        assert(part[k] == path[k]);
    }
    if j > 0 {
        assert(part.drop_last() =~= path.take(j));
        assert(part[part.len() - 2] == path[j - 1]);
    }
}

/// No way to a cell is lower than the first point of the queue, unless it is as
/// high as the final height of a cell.
proof fn lemma_wave_bound(
    rivers: Grid,
    lakes: Grid,
    terrain: Grid,
    done: Grid,
    queue: Multiset<Point>,
    spread: int,
    p: Point,
    path: Seq<(int, int)>,
    j: int,
)
    requires
        growing(rivers, lakes, terrain, done, queue, spread, (-1, -1)),
        PointQueue::is_first(queue, p),
        is_wave(lakes, path),
        0 <= j < path.len(),
    ensures
        p.z <= wave_cost(rivers, lakes, path.take(j + 1)) || (done.at(path[j].0, path[j].1) != 0
            && terrain.at(path[j].0, path[j].1) <= wave_cost(rivers, lakes, path.take(j + 1))),
    decreases j,
{
    lemma_wave_take(rivers, lakes, path, j);
    lemma_wave_in_grid(lakes, path, j);
    let c = path[j];
    if j == 0 {
        assert(is_seed(lakes, c.0, c.1));
        if done.at(c.0, c.1) == 0 {
            let q = point_at(c.0, c.1, terrain.at(c.0, c.1));
            assert(queue.count(q) > 0);
            assert(!q.before(p));
        }
    } else {
        lemma_wave_bound(rivers, lakes, terrain, done, queue, spread, p, path, j - 1);
        lemma_wave_take(rivers, lakes, path, j - 1);
        lemma_wave_rises(rivers, lakes, path.take(j + 1));
        assert(path.take(j + 1).drop_last() =~= path.take(j));
        let b = path[j - 1];
        lemma_wave_in_grid(lakes, path, j - 1);
        if !(p.z <= wave_cost(rivers, lakes, path.take(j))) {
            assert(is_inner(lakes, b.0, b.1));
            assert(near(b.0, b.1, c.0, c.1));
            assert(terrain.at(c.0, c.1) != 0 && terrain.at(c.0, c.1) <= terrain.at(b.0, b.1) + slope(
                rivers.at(b.0, b.1) as int,
            ));
            if done.at(c.0, c.1) == 0 {
                let q = point_at(c.0, c.1, terrain.at(c.0, c.1));
                assert(queue.count(q) > 0);
                assert(!q.before(p));
            }
        }
    }
}

/// The first point of the queue, if its cell has no final height yet, holds
/// the lowest height with which the terrain can grow to its cell.
proof fn lemma_lowest_is_final(
    rivers: Grid,
    lakes: Grid,
    terrain: Grid,
    done: Grid,
    queue: Multiset<Point>,
    spread: int,
    p: Point,
)
    requires
        growing(rivers, lakes, terrain, done, queue, spread, (-1, -1)),
        PointQueue::is_first(queue, p),
        done.at(p.x as int, p.y as int) == 0,
    ensures
        lakes.contains(p.x as int, p.y as int),
        terrain.at(p.x as int, p.y as int) == p.z,
        is_cheapest(rivers, lakes, p.x as int, p.y as int, p.z as int),
        0 < p.z <= MAX_LEVEL + spread * 131072,
{
    let x = p.x as int;
    let y = p.y as int;
    assert(queue.count(p) > 0);
    let q = point_at(x, y, terrain.at(x, y));
    assert(queue.count(q) > 0);
    assert(!q.before(p));
    assert(terrain.at(x, y) == p.z);
    assert(is_reached(rivers, lakes, x, y, p.z as int));
    assert forall|path: Seq<(int, int)>| #[trigger]
        is_wave(lakes, path) && path[path.len() - 1] == (x, y) implies wave_cost(
        rivers,
        lakes,
        path,
    ) >= p.z by {
        lemma_wave_bound(rivers, lakes, terrain, done, queue, spread, p, path, path.len() - 1);
        assert(path.take(path.len() as int) =~= path);
    }
}

/// Taking a point out of the queue whose cell has a final height changes nothing.
proof fn lemma_stale(
    rivers: Grid,
    lakes: Grid,
    terrain: Grid,
    done: Grid,
    queue: Multiset<Point>,
    spread: int,
    p: Point,
)
    requires
        growing(rivers, lakes, terrain, done, queue, spread, (-1, -1)),
        queue.count(p) > 0,
        done.at(p.x as int, p.y as int) != 0,
    ensures
        growing(rivers, lakes, terrain, done, queue.remove(p), spread, (-1, -1)),
{
    broadcast use group_multiset_axioms;

    let rest = queue.remove(p);
    assert forall|x: int, y: int|
        lakes.contains(x, y) && done.at(x, y) == 0 && #[trigger] terrain.at(x, y) != 0 implies rest.count(
        point_at(x, y, terrain.at(x, y)),
    ) > 0 by {
        let q = point_at(x, y, terrain.at(x, y));
        assert(queue.count(q) > 0);
        assert(q != p);
    }
    assert forall|q: Point| #[trigger] rest.count(q) > 0 implies lakes.contains(
        q.x as int,
        q.y as int,
    ) && terrain.at(q.x as int, q.y as int) != 0 && terrain.at(q.x as int, q.y as int) <= q.z
        <= MAX_LEVEL + spread * 131072 by {
        assert(queue.count(q) > 0);
    }
}

/// Making the height of the first point of the queue final opens its cell.
proof fn lemma_mark_done(
    rivers: Grid,
    lakes: Grid,
    terrain: Grid,
    before: Grid,
    after: Grid,
    queue: Multiset<Point>,
    spread: int,
    p: Point,
)
    requires
        growing(rivers, lakes, terrain, before, queue, spread, (-1, -1)),
        PointQueue::is_first(queue, p),
        before.at(p.x as int, p.y as int) == 0,
        changed_at(before, after, p.x as int, p.y as int, 1),
    ensures
        growing(
            rivers,
            lakes,
            terrain,
            after,
            queue.remove(p),
            spread + 1,
            (p.x as int, p.y as int),
        ),
        terrain.at(p.x as int, p.y as int) == p.z,
        0 < p.z <= MAX_LEVEL + spread * 131072,
{
    broadcast use group_multiset_axioms;

    let w = lakes.spec_width() as int;
    let h = lakes.spec_height() as int;
    let x = p.x as int;
    let y = p.y as int;
    lemma_lowest_is_final(rivers, lakes, terrain, before, queue, spread, p);
    let f = done_fn(after);
    let g = done_fn(before);
    assert(f(x, y) == g(x, y) + 1);
    lemma_grid_sum_point(f, g, w, h, x, y, 1);
    assert forall|px: int, py: int| 0 <= px < w && 0 <= py < h implies 0 <= #[trigger] f(px, py)
        <= 1 by {}
    lemma_grid_sum_bounds(f, w, h, 1);
    assert(w * (h * 1) == w * h) by (nonlinear_arith);
    let rest = queue.remove(p);
    assert forall|cx: int, cy: int|
        lakes.contains(cx, cy) && after.at(cx, cy) == 0 && #[trigger] terrain.at(cx, cy)
            != 0 implies rest.count(point_at(cx, cy, terrain.at(cx, cy))) > 0 by {
        let q = point_at(cx, cy, terrain.at(cx, cy));
        assert(before.at(cx, cy) == 0);
        assert(queue.count(q) > 0);
        assert(q != p);
    }
    assert forall|q: Point| #[trigger] rest.count(q) > 0 implies lakes.contains(
        q.x as int,
        q.y as int,
    ) && terrain.at(q.x as int, q.y as int) != 0 && terrain.at(q.x as int, q.y as int) <= q.z
        <= MAX_LEVEL + (spread + 1) * 131072 by {
        assert(queue.count(q) > 0);
    }
    assert forall|cx: int, cy: int|
        lakes.contains(cx, cy) && #[trigger] after.at(cx, cy) != 0 implies terrain.at(cx, cy) != 0
        && is_cheapest(rivers, lakes, cx, cy, terrain.at(cx, cy) as int) by {
        if (cx, cy) != (x, y) {
            assert(before.at(cx, cy) != 0);
        }
    }
    assert forall|cx: int, cy: int, nx: int, ny: int|
        lakes.contains(cx, cy) && after.at(cx, cy) != 0 && is_inner(lakes, cx, cy) && (cx, cy) != (
            x,
            y,
        ) && #[trigger] near(cx, cy, nx, ny) implies terrain.at(nx, ny) != 0 && terrain.at(nx, ny)
        <= terrain.at(cx, cy) + slope(rivers.at(cx, cy) as int) by {
        assert(before.at(cx, cy) != 0);
    }
}

/// Once every cell around the open cell has been offered its height and
/// slope, the cell is closed.
proof fn lemma_close(
    rivers: Grid,
    lakes: Grid,
    terrain: Grid,
    done: Grid,
    queue: Multiset<Point>,
    spread: int,
    open: (int, int),
)
    requires
        growing(rivers, lakes, terrain, done, queue, spread, open),
        is_inner(lakes, open.0, open.1) ==> forall|nx: int, ny: int| #[trigger]
            near(open.0, open.1, nx, ny) ==> terrain.at(nx, ny) != 0 && terrain.at(nx, ny)
                <= terrain.at(open.0, open.1) + slope(rivers.at(open.0, open.1) as int),
    ensures
        growing(rivers, lakes, terrain, done, queue, spread, (-1, -1)),
{
}

/// Offers the cell `(nx, ny)` the height `nz`, which the terrain has when it
/// grows on from the open cell: the cell takes it unless its height is final, or
/// lower already, and then waits in the queue with it.
fn propose(
    rivers: &Grid,
    lakes: &Grid,
    terrain: &mut Grid,
    done: &Grid,
    queue: &mut PointQueue,
    nx: usize,
    ny: usize,
    nz: i64,
    Ghost(spread): Ghost<int>,
    Ghost(open): Ghost<(int, int)>,
)
    requires
        growing(*rivers, *lakes, *old(terrain), *done, old(queue)@, spread, open),
        lakes.contains(nx as int, ny as int),
        lakes.contains(open.0, open.1),
        done.at(open.0, open.1) != 0,
        is_inner(*lakes, open.0, open.1),
        near(open.0, open.1, nx as int, ny as int) || (nx as int, ny as int) == open,
        nz == old(terrain).at(open.0, open.1) + slope(rivers.at(open.0, open.1) as int),
        nz <= MAX_LEVEL + spread * 131072,
    ensures
        growing(*rivers, *lakes, *final(terrain), *done, final(queue)@, spread, open),
        final(terrain).at(nx as int, ny as int) != 0,
        final(terrain).at(nx as int, ny as int) <= nz,
        final(terrain).at(open.0, open.1) == old(terrain).at(open.0, open.1),
        forall|x: int, y: int|
            lakes.contains(x, y) && old(terrain).at(x, y) != 0 ==> #[trigger] final(terrain).at(x, y)
                != 0 && final(terrain).at(x, y) <= old(terrain).at(x, y),
{
    proof {
        // the way to the open cell leads on to the cell
        let t = old(terrain).at(open.0, open.1) as int;
        assert(is_cheapest(*rivers, *lakes, open.0, open.1, t));
        let path = choose|path: Seq<(int, int)>| #[trigger]
            is_wave(*lakes, path) && path[path.len() - 1] == (open.0, open.1) && wave_cost(
                *rivers,
                *lakes,
                path,
            ) == t;
        lemma_slope_bounds(rivers.at(open.0, open.1) as int);
        lemma_wave_rises(*rivers, *lakes, path);
        if (nx as int, ny as int) != open {
            lemma_wave_extend(*rivers, *lakes, path, nx as int, ny as int);
            let longer = path.push((nx as int, ny as int));
            assert(longer[longer.len() - 1] == (nx as int, ny as int));
            assert(is_reached(*rivers, *lakes, nx as int, ny as int, nz as int));
        }
    }
    if done.get(nx, ny) != 0 {
        // the height is final already
        return ;
    }
    let held = terrain.get(nx, ny);
    if held != 0 && held < nz {
        return ;
    }
    // add the cell to the queue to process it further in the correct order
    queue.push(Point { x: nx, y: ny, z: nz });
    terrain.set(nx, ny, nz);
    proof {
        broadcast use group_multiset_axioms;

        let fresh = Point { x: nx, y: ny, z: nz };
        assert forall|x: int, y: int|
            lakes.contains(x, y) && done.at(x, y) == 0 && #[trigger] terrain.at(x, y)
                != 0 implies queue@.count(point_at(x, y, terrain.at(x, y))) > 0 by {
            if (x, y) != (nx as int, ny as int) {
                assert(old(queue)@.count(point_at(x, y, old(terrain).at(x, y))) > 0);
            } else {
                assert(point_at(x, y, terrain.at(x, y)) == fresh);
            }
        }
        assert forall|q: Point| #[trigger] queue@.count(q) > 0 implies lakes.contains(
            q.x as int,
            q.y as int,
        ) && terrain.at(q.x as int, q.y as int) != 0 && terrain.at(q.x as int, q.y as int) <= q.z
            <= MAX_LEVEL + spread * 131072 by {
            if q != fresh {
                assert(old(queue)@.count(q) > 0);
            }
        }
        assert forall|x: int, y: int, ax: int, ay: int|
            lakes.contains(x, y) && done.at(x, y) != 0 && is_inner(*lakes, x, y) && (x, y) != open
                && #[trigger] near(x, y, ax, ay) implies terrain.at(ax, ay) != 0 && terrain.at(ax, ay)
            <= terrain.at(x, y) + slope(rivers.at(x, y) as int) by {
            assert(old(terrain).at(ax, ay) != 0 && old(terrain).at(ax, ay) <= old(terrain).at(x, y)
                + slope(rivers.at(x, y) as int));
        }
    }
}

/// What holds while the cells of the lakes are put into the queue.
spec fn seeding(
    lakes: Grid,
    terrain: Grid,
    queue: Multiset<Point>,
    nx: int,
    ny: int,
) -> bool {
    &&& terrain.same_size(&lakes)
    &&& forall|x: int, y: int|
        lakes.contains(x, y) ==> #[trigger] terrain.at(x, y) == (if scanned(x, y, nx, ny)
            && lakes.at(x, y) > 0 {
            lakes.at(x, y)
        } else {
            0
        })
    &&& forall|p: Point| #[trigger]
        queue.count(p) > 0 <==> lakes.contains(p.x as int, p.y as int) && scanned(
            p.x as int,
            p.y as int,
            nx,
            ny,
        ) && lakes.at(p.x as int, p.y as int) > 0 && p.z == lakes.at(p.x as int, p.y as int)
}

/// Once the cells of the lakes are in the queue, the terrain can grow.
proof fn lemma_seeded(
    rivers: Grid,
    lakes: Grid,
    terrain: Grid,
    done: Grid,
    queue: Multiset<Point>,
)
    requires
        rivers.same_size(&lakes),
        done.same_size(&lakes),
        volumes_fit(rivers),
        levels_fit(lakes),
        lakes.spec_width() * lakes.spec_height() <= MAX_CELLS,
        forall|x: int, y: int| lakes.contains(x, y) ==> #[trigger] done.at(x, y) == 0,
        seeding(lakes, terrain, queue, lakes.spec_width() as int, 0),
    ensures
        growing(rivers, lakes, terrain, done, queue, 0, (-1, -1)),
{
    let w = lakes.spec_width() as int;
    let h = lakes.spec_height() as int;
    lemma_grid_sum_bounds(done_fn(done), w, h, 0);
    assert(w * (h * 0) == 0) by (nonlinear_arith);
    assert(0 <= w * h) by (nonlinear_arith)
        requires
            w >= 0,
            h >= 0,
    ;
    assert forall|x: int, y: int|
        lakes.contains(x, y) && #[trigger] terrain.at(x, y) != 0 implies is_reached(
        rivers,
        lakes,
        x,
        y,
        terrain.at(x, y) as int,
    ) by {
        let path = seq![(x, y)];
        assert(is_wave(lakes, path));
        assert(path[path.len() - 1] == (x, y));
        assert(wave_cost(rivers, lakes, path) == lakes.at(x, y));
    }
    assert forall|x: int, y: int|
        lakes.contains(x, y) && done.at(x, y) == 0 && #[trigger] terrain.at(x, y)
            != 0 implies queue.count(point_at(x, y, terrain.at(x, y))) > 0 by {
        assert(scanned(x, y, w, 0));
    }
}

/// Once the queue is empty, every cell has its height.
proof fn lemma_grown(
    rivers: Grid,
    lakes: Grid,
    terrain: Grid,
    done: Grid,
    queue: Multiset<Point>,
    spread: int,
)
    requires
        growing(rivers, lakes, terrain, done, queue, spread, (-1, -1)),
        queue.len() == 0,
    ensures
        forall|x: int, y: int|
            lakes.contains(x, y) ==> is_terrain(rivers, lakes, x, y, #[trigger] terrain.at(x, y) as int),
{
    broadcast use group_multiset_axioms;

    lemma_multiset_empty_len(queue);
    assert forall|x: int, y: int| lakes.contains(x, y) implies is_terrain(
        rivers,
        lakes,
        x,
        y,
        #[trigger] terrain.at(x, y) as int,
    ) by {
        if terrain.at(x, y) != 0 {
            if done.at(x, y) == 0 {
                assert(queue.count(point_at(x, y, terrain.at(x, y))) > 0);
                assert(Multiset::<Point>::empty().count(point_at(x, y, terrain.at(x, y))) == 0);
            }
        } else {
            if is_reachable(lakes, x, y) {
                let path = choose|path: Seq<(int, int)>| #[trigger]
                    is_wave(lakes, path) && path[path.len() - 1] == (x, y);
                lemma_all_reached(rivers, lakes, terrain, done, queue, spread, path, path.len() - 1);
            }
        }
    }
}

/// Once the queue is empty, every cell of a way that the terrain can grow
/// along has a final height.
proof fn lemma_all_reached(
    rivers: Grid,
    lakes: Grid,
    terrain: Grid,
    done: Grid,
    queue: Multiset<Point>,
    spread: int,
    path: Seq<(int, int)>,
    j: int,
)
    requires
        growing(rivers, lakes, terrain, done, queue, spread, (-1, -1)),
        queue =~= Multiset::<Point>::empty(),
        is_wave(lakes, path),
        0 <= j < path.len(),
    ensures
        terrain.at(path[j].0, path[j].1) != 0,
        done.at(path[j].0, path[j].1) != 0,
    decreases j,
{
    broadcast use group_multiset_axioms;

    let c = path[j];
    lemma_wave_in_grid(lakes, path, j);
    if j == 0 {
        assert(is_seed(lakes, c.0, c.1));
    } else {
        lemma_all_reached(rivers, lakes, terrain, done, queue, spread, path, j - 1);
        let b = path[j - 1];
        lemma_wave_in_grid(lakes, path, j - 1);
        assert(is_inner(lakes, b.0, b.1));
        assert(near(b.0, b.1, c.0, c.1));
    }
    if done.at(c.0, c.1) == 0 {
        assert(queue.count(point_at(c.0, c.1, terrain.at(c.0, c.1))) > 0);
        assert(Multiset::<Point>::empty().count(point_at(c.0, c.1, terrain.at(c.0, c.1))) == 0);
    }
}

/// Creates a height map based on the river and lake grids.
///
/// The terrain grows from the lakes outward, lowest first: every cell of a lake
/// starts at the surface of its lake, and from a cell that does not lie on the
/// edge of the grid the terrain rises to each of the eight cells around it by the
/// slope that the river volume of the cell gives. Each cell ends up with the
/// lowest height that reaches it in this way, and with zero if none does.
///
/// The river volumes are read in units of `ONE`, as the lake surfaces are: a
/// count of cells, as `create_flow_map` returns it, is multiplied by `ONE` first.
pub fn create_heightmap(rivers: &Grid, lakes: &Grid) -> (terrain: Grid)
    requires
        rivers.same_size(lakes),
        volumes_fit(*rivers),
        levels_fit(*lakes),
        lakes.spec_width() * lakes.spec_height() <= MAX_CELLS,
    ensures
        terrain.same_size(lakes),
        forall|x: int, y: int|
            lakes.contains(x, y) ==> is_terrain(
                *rivers,
                *lakes,
                x,
                y,
                #[trigger] terrain.at(x, y) as int,
            ),
{
    let width = rivers.width();
    let height = rivers.height();
    let mut terrain = Grid::new(width, height);

    // points sorted by lowest z coordinate first
    //
    // adding lakes points first, as the terrain is generated lowest
    // first beginning from the lakes
    let mut queue = PointQueue::new();
    proof {
        broadcast use group_multiset_axioms;

        assert(seeding(*lakes, terrain, queue@, 0, 0));
    }
    let mut x: usize = 0;
    while x < width
        invariant
            width == lakes.spec_width(),
            height == lakes.spec_height(),
            x <= width,
            seeding(*lakes, terrain, queue@, x as int, 0),
        decreases width - x,
    {
        let mut y: usize = 0;
        while y < height
            invariant
                width == lakes.spec_width(),
                height == lakes.spec_height(),
                x < width,
                y <= height,
                seeding(*lakes, terrain, queue@, x as int, y as int),
            decreases height - y,
        {
            let z = lakes.get(x, y);
            if z > 0 {
                let ghost before = queue@;
                queue.push(Point { x, y, z });
                terrain.set(x, y, z);
                proof {
                    broadcast use group_multiset_axioms;

                    let fresh = Point { x, y, z };
                    assert forall|p: Point| #[trigger]
                        queue@.count(p) > 0 <==> lakes.contains(p.x as int, p.y as int) && scanned(
                            p.x as int,
                            p.y as int,
                            x as int,
                            y + 1,
                        ) && lakes.at(p.x as int, p.y as int) > 0 && p.z == lakes.at(
                            p.x as int,
                            p.y as int,
                        ) by {
                        if p != fresh {
                            assert(queue@.count(p) == before.count(p));
                        }
                    }
                }
            }
            y += 1;
        }
        x += 1;
    }

    let mut done = Grid::new(width, height);
    let mut spread: usize = 0;
    proof {
        lemma_seeded(*rivers, *lakes, terrain, done, queue@);
    }

    loop
        invariant
            width == lakes.spec_width(),
            height == lakes.spec_height(),
            growing(*rivers, *lakes, terrain, done, queue@, spread as int, (-1, -1)),
        ensures
            queue@.len() == 0,
        decreases width * height - spread, queue@.len(),
    {
        let ghost queue0 = queue@;
        let point = match queue.pop() {
            Some(point) => point,
            None => {
                break ;
            },
        };
        let Point { x, y, z } = point;

        if done.get(x, y) != 0 {
            // terrain has already been generated here earlier, no need to do it again
            proof {
                lemma_stale(*rivers, *lakes, terrain, done, queue0, spread as int, point);
            }
        } else {
            let ghost done0 = done;
            done.set(x, y, 1);
            proof {
                lemma_mark_done(
                    *rivers,
                    *lakes,
                    terrain,
                    done0,
                    done,
                    queue0,
                    spread as int,
                    point,
                );
            }
            spread += 1;

            if !(x == 0 || x == width - 1 || y == 0 || y == height - 1) {
                // neighbors are not searched for border positions, as this should all be
                // ocean anyways

                // steeper if there is not much water flowing through
                let dz = slope_increment(rivers.get(x, y));
                let nz = z + dz;
                let mut i: usize = 0;
                while i < 3
                    invariant
                        width == lakes.spec_width(),
                        height == lakes.spec_height(),
                        i <= 3,
                        is_inner(*lakes, x as int, y as int),
                        done.at(x as int, y as int) != 0,
                        terrain.at(x as int, y as int) == z,
                        nz == z + slope(rivers.at(x as int, y as int) as int),
                        nz <= MAX_LEVEL + spread * 131072,
                        growing(
                            *rivers,
                            *lakes,
                            terrain,
                            done,
                            queue@,
                            spread as int,
                            (x as int, y as int),
                        ),
                        forall|nx: int, ny: int|
                            x - 1 <= nx < x - 1 + i && y - 1 <= ny <= y + 1 ==> #[trigger] terrain.at(
                                nx,
                                ny,
                            ) != 0 && terrain.at(nx, ny) <= nz,
                    decreases 3 - i,
                {
                    let mut j: usize = 0;
                    while j < 3
                        invariant
                            width == lakes.spec_width(),
                            height == lakes.spec_height(),
                            i < 3,
                            j <= 3,
                            is_inner(*lakes, x as int, y as int),
                            done.at(x as int, y as int) != 0,
                            terrain.at(x as int, y as int) == z,
                            nz == z + slope(rivers.at(x as int, y as int) as int),
                            nz <= MAX_LEVEL + spread * 131072,
                            growing(
                                *rivers,
                                *lakes,
                                terrain,
                                done,
                                queue@,
                                spread as int,
                                (x as int, y as int),
                            ),
                            forall|nx: int, ny: int|
                                (x - 1 <= nx < x - 1 + i && y - 1 <= ny <= y + 1) || (nx == x - 1 + i
                                    && y - 1 <= ny < y - 1 + j) ==> #[trigger] terrain.at(nx, ny)
                                    != 0 && terrain.at(nx, ny) <= nz,
                        decreases 3 - j,
                    {
                        // finding neighbor x,y
                        let nx = x + i - 1;
                        let ny = y + j - 1;
                        propose(
                            rivers,
                            lakes,
                            &mut terrain,
                            &done,
                            &mut queue,
                            nx,
                            ny,
                            nz,
                            Ghost(spread as int),
                            Ghost((x as int, y as int)),
                        );
                        j += 1;
                    }
                    i += 1;
                }
            }
            proof {
                lemma_close(
                    *rivers,
                    *lakes,
                    terrain,
                    done,
                    queue@,
                    spread as int,
                    (x as int, y as int),
                );
            }
        }
    }

    proof {
        lemma_grown(*rivers, *lakes, terrain, done, queue@, spread as int);
    }
    terrain
}

/// Checks whether terrain can be grown from `rivers` and `lakes`: both have
/// the same size and no more than `MAX_CELLS` cells, no river volume is negative
/// or above `MAX_VOLUME`, and no lake surface is above `MAX_LEVEL`.
pub fn can_grow(rivers: &Grid, lakes: &Grid) -> (ok: bool)
    ensures
        ok == (rivers.same_size(lakes) && volumes_fit(*rivers) && levels_fit(*lakes)
            && lakes.spec_width() * lakes.spec_height() <= MAX_CELLS),
{
    let width = lakes.width();
    let height = lakes.height();
    if rivers.width() != width || rivers.height() != height {
        return false;
    }
    proof {
        assert(width * height <= usize::MAX) by (nonlinear_arith)
            requires
                width * height * 8 <= isize::MAX,
        ;
    }
    if width * height > MAX_CELLS {
        return false;
    }
    if width == 0 || height == 0 {
        return true;
    }
    let (lowest, highest) = rivers.minmax();
    let (_, surface) = lakes.minmax();
    lowest >= 0 && highest <= MAX_VOLUME && surface <= MAX_LEVEL
}

} // verus!
