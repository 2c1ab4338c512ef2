//! Lakes: where water gathers, which cells belong to one lake, and how high each lake stands.

use crate::flood::{flood_lake, flooded, lemma_flooded_keeps, lemma_flooded_unique, on_edge};
use crate::flow::{at_border, is_flow_field, target_of};
use crate::grid::{changed_at, scanned, Grid};
use crate::queue::Point;
use crate::sums::{
    grid_sum, lemma_grid_sum_bounds, lemma_grid_sum_ext, lemma_grid_sum_point,
};
use vstd::prelude::*;

verus! {

/// Whether two cells share an edge.
pub open spec fn adjacent(ax: int, ay: int, bx: int, by: int) -> bool {
    (ax == bx && (ay == by + 1 || by == ay + 1)) || (ay == by && (ax == bx + 1 || bx == ax + 1))
}

/// Whether `(x, y)` is a cell of `lakes` that holds water.
pub open spec fn is_wet(lakes: Grid, x: int, y: int) -> bool {
    lakes.contains(x, y) && lakes.at(x, y) > 0
}

/// Whether `path` leads from cell to cell over shared edges, through water only.
pub open spec fn is_wet_path(lakes: Grid, path: Seq<(int, int)>) -> bool {
    &&& path.len() > 0
    &&& forall|i: int| 0 <= i < path.len() ==> is_wet(lakes, (#[trigger] path[i]).0, path[i].1)
    &&& forall|i: int, j: int|
        0 <= i && j == i + 1 && j < path.len() ==> adjacent(
            (#[trigger] path[i]).0,
            path[i].1,
            (#[trigger] path[j]).0,
            path[j].1,
        )
}

/// Whether `(ax, ay)` and `(bx, by)` hold water of one lake: a path through
/// water leads from the one to the other.
pub open spec fn joined(lakes: Grid, ax: int, ay: int, bx: int, by: int) -> bool {
    exists|path: Seq<(int, int)>| #[trigger]
        is_wet_path(lakes, path) && path[0] == (ax, ay) && path[path.len() - 1] == (bx, by)
}

/// One for each cell of the lake of `(x, y)`, zero for the others.
pub open spec fn region_fn(lakes: Grid, x: int, y: int) -> spec_fn(int, int) -> int {
    |bx: int, by: int|
        if joined(lakes, x, y, bx, by) {
            1int
        } else {
            0int
        }
}

/// Number of cells of the lake of `(x, y)`.
pub open spec fn region_area(lakes: Grid, x: int, y: int) -> int {
    grid_sum(region_fn(lakes, x, y), lakes.spec_width() as int, lakes.spec_height() as int)
}

/// Whether `level` is the surface of the lake of `(x, y)`: the height of its
/// highest cell, and `ocean` where that is higher.
pub open spec fn is_region_level(
    map: Grid,
    lakes: Grid,
    ocean: int,
    x: int,
    y: int,
    level: int,
) -> bool {
    &&& level >= ocean
    &&& forall|bx: int, by: int| #[trigger] joined(lakes, x, y, bx, by) ==> map.at(bx, by) <= level
    &&& level == ocean || exists|bx: int, by: int| #[trigger]
        joined(lakes, x, y, bx, by) && map.at(bx, by) == level
}

/// Whether `levels` shows the surface of every lake of `lakes` that has more
/// than `min_area` cells, in each of its cells, and zero everywhere else.
pub open spec fn depths_assigned(
    map: Grid,
    lakes: Grid,
    ocean: int,
    min_area: int,
    levels: Grid,
) -> bool {
    &&& levels.same_size(&lakes)
    &&& forall|x: int, y: int|
        lakes.contains(x, y) ==> if is_wet(lakes, x, y) && region_area(lakes, x, y) > min_area {
            is_region_level(map, lakes, ocean, x, y, #[trigger] levels.at(x, y) as int)
        } else {
            levels.at(x, y) == 0
        }
}

/// A cell that holds water is in a lake with itself.
pub proof fn lemma_joined_self(lakes: Grid, x: int, y: int)
    requires
        is_wet(lakes, x, y),
    ensures
        joined(lakes, x, y, x, y),
{
    let path = seq![(x, y)];
    assert(is_wet_path(lakes, path));
    assert(path[0] == (x, y) && path[path.len() - 1] == (x, y));
}

/// Only cells that hold water are in a lake.
pub proof fn lemma_joined_wet(lakes: Grid, ax: int, ay: int, bx: int, by: int)
    requires
        joined(lakes, ax, ay, bx, by),
    ensures
        is_wet(lakes, ax, ay),
        is_wet(lakes, bx, by),
{
    let path = choose|path: Seq<(int, int)>| #[trigger]
        is_wet_path(lakes, path) && path[0] == (ax, ay) && path[path.len() - 1] == (bx, by);
    assert(is_wet(lakes, path[0].0, path[0].1));
    assert(is_wet(lakes, path[path.len() - 1].0, path[path.len() - 1].1));
}

/// A lake reaches from each of its cells to the wet cells next to it.
pub proof fn lemma_joined_extend(lakes: Grid, ax: int, ay: int, bx: int, by: int, cx: int, cy: int)
    requires
        joined(lakes, ax, ay, bx, by),
        adjacent(bx, by, cx, cy),
        is_wet(lakes, cx, cy),
    ensures
        joined(lakes, ax, ay, cx, cy),
{
    let path = choose|path: Seq<(int, int)>| #[trigger]
        is_wet_path(lakes, path) && path[0] == (ax, ay) && path[path.len() - 1] == (bx, by);
    let longer = path.push((cx, cy));
    assert(is_wet_path(lakes, longer)) by {
        assert forall|i: int| 0 <= i < longer.len() implies is_wet(
            lakes,
            (#[trigger] longer[i]).0,
            longer[i].1,
        ) by {
            if i < path.len() {
                assert(longer[i] == path[i]);
            }
        }
        assert forall|i: int, j: int| 0 <= i && j == i + 1 && j < longer.len() implies adjacent(
            (#[trigger] longer[i]).0,
            longer[i].1,
            (#[trigger] longer[j]).0,
            longer[j].1,
        ) by {
            assert(longer[i] == path[i]);
            if j < path.len() {
                assert(longer[j] == path[j]);
            }
        }
    }
    assert(longer[0] == (ax, ay) && longer[longer.len() - 1] == (cx, cy));
}

/// If one cell is in a lake with another, the other is in a lake with the one.
pub proof fn lemma_joined_symmetric(lakes: Grid, ax: int, ay: int, bx: int, by: int)
    requires
        joined(lakes, ax, ay, bx, by),
    ensures
        joined(lakes, bx, by, ax, ay),
{
    let path = choose|path: Seq<(int, int)>| #[trigger]
        is_wet_path(lakes, path) && path[0] == (ax, ay) && path[path.len() - 1] == (bx, by);
    let n = path.len() as int;
    let back = Seq::new(path.len(), |i: int| path[n - 1 - i]);
    assert(is_wet_path(lakes, back)) by {
        assert forall|i: int| 0 <= i < back.len() implies is_wet(
            lakes,
            (#[trigger] back[i]).0,
            back[i].1,
        ) by {
            assert(is_wet(lakes, path[n - 1 - i].0, path[n - 1 - i].1));
        }
        assert forall|i: int, j: int| 0 <= i && j == i + 1 && j < back.len() implies adjacent(
            (#[trigger] back[i]).0,
            back[i].1,
            (#[trigger] back[j]).0,
            back[j].1,
        ) by {
            let a = n - 1 - j;
            let b = n - 1 - i;
            assert(adjacent(path[a].0, path[a].1, path[b].0, path[b].1));
        }
    }
    assert(back[0] == (bx, by) && back[back.len() - 1] == (ax, ay));
}

/// Two cells that are in a lake with a third are in a lake with each other.
pub proof fn lemma_joined_transitive(
    lakes: Grid,
    ax: int,
    ay: int,
    bx: int,
    by: int,
    cx: int,
    cy: int,
)
    requires
        joined(lakes, ax, ay, bx, by),
        joined(lakes, bx, by, cx, cy),
    ensures
        joined(lakes, ax, ay, cx, cy),
{
    let first = choose|path: Seq<(int, int)>| #[trigger]
        is_wet_path(lakes, path) && path[0] == (ax, ay) && path[path.len() - 1] == (bx, by);
    let second = choose|path: Seq<(int, int)>| #[trigger]
        is_wet_path(lakes, path) && path[0] == (bx, by) && path[path.len() - 1] == (cx, cy);
    let n = first.len() as int;
    let whole = first.drop_last() + second;
    assert(is_wet_path(lakes, whole)) by {
        assert forall|i: int| 0 <= i < whole.len() implies is_wet(
            lakes,
            (#[trigger] whole[i]).0,
            whole[i].1,
        ) by {
            if i < n - 1 {
                assert(whole[i] == first[i]);
            } else {
                assert(whole[i] == second[i - (n - 1)]);
            }
        }
        assert forall|i: int, j: int| 0 <= i && j == i + 1 && j < whole.len() implies adjacent(
            (#[trigger] whole[i]).0,
            whole[i].1,
            (#[trigger] whole[j]).0,
            whole[j].1,
        ) by {
            if j < n - 1 {
                assert(whole[i] == first[i]);
                assert(whole[j] == first[j]);
            } else if i < n - 1 {
                assert(whole[i] == first[i]);
                assert(whole[j] == second[0]);
                assert(second[0] == first[j]);
                assert(adjacent(first[i].0, first[i].1, first[j].0, first[j].1));
            } else {
                assert(whole[i] == second[i - (n - 1)]);
                assert(whole[j] == second[j - (n - 1)]);
                assert(adjacent(
                    second[i - (n - 1)].0,
                    second[i - (n - 1)].1,
                    second[j - (n - 1)].0,
                    second[j - (n - 1)].1,
                ));
            }
        }
    }
    assert(whole[0] == (ax, ay)) by {
        if n > 1 {
            assert(whole[0] == first[0]);
        } else {
            assert(whole[0] == second[0]);
        }
    }
    assert(whole[whole.len() - 1] == second[second.len() - 1]);
}

/// Two cells of one lake have the same lake: as many cells, and the same surface.
pub proof fn lemma_same_region(
    map: Grid,
    lakes: Grid,
    ocean: int,
    ax: int,
    ay: int,
    bx: int,
    by: int,
    level: int,
)
    requires
        joined(lakes, ax, ay, bx, by),
    ensures
        region_area(lakes, ax, ay) == region_area(lakes, bx, by),
        is_region_level(map, lakes, ocean, ax, ay, level) == is_region_level(
            map,
            lakes,
            ocean,
            bx,
            by,
            level,
        ),
{
    lemma_joined_symmetric(lakes, ax, ay, bx, by);
    assert forall|cx: int, cy: int|
        joined(lakes, ax, ay, cx, cy) == joined(lakes, bx, by, cx, cy) by {
        if joined(lakes, ax, ay, cx, cy) {
            lemma_joined_transitive(lakes, bx, by, ax, ay, cx, cy);
        }
        if joined(lakes, bx, by, cx, cy) {
            lemma_joined_transitive(lakes, ax, ay, bx, by, cx, cy);
        }
    }
    lemma_grid_sum_ext(
        region_fn(lakes, ax, ay),
        region_fn(lakes, bx, by),
        lakes.spec_width() as int,
        lakes.spec_height() as int,
    );
    if is_region_level(map, lakes, ocean, ax, ay, level) {
        if level != ocean {
            let (cx, cy) = choose|cx: int, cy: int| #[trigger]
                joined(lakes, ax, ay, cx, cy) && map.at(cx, cy) == level;
            assert(joined(lakes, bx, by, cx, cy));
        }
        assert(is_region_level(map, lakes, ocean, bx, by, level));
    }
    if is_region_level(map, lakes, ocean, bx, by, level) {
        if level != ocean {
            let (cx, cy) = choose|cx: int, cy: int| #[trigger]
                joined(lakes, bx, by, cx, cy) && map.at(cx, cy) == level;
            assert(joined(lakes, ax, ay, cx, cy));
        }
        assert(is_region_level(map, lakes, ocean, ax, ay, level));
    }
}

/// No cell of a lake with a surface is higher than the surface, every cell of
/// it shows the surface, and every cell of a lake without one shows zero.
pub proof fn lemma_lake_contains(
    map: Grid,
    lakes: Grid,
    ocean: int,
    min_area: int,
    levels: Grid,
    ax: int,
    ay: int,
    bx: int,
    by: int,
)
    requires
        depths_assigned(map, lakes, ocean, min_area, levels),
        joined(lakes, ax, ay, bx, by),
    ensures
        region_area(lakes, ax, ay) > min_area ==> map.at(bx, by) <= levels.at(ax, ay) && levels.at(
            bx,
            by,
        ) == levels.at(ax, ay),
        region_area(lakes, ax, ay) <= min_area ==> levels.at(bx, by) == 0 && levels.at(ax, ay) == 0,
{
    lemma_joined_wet(lakes, ax, ay, bx, by);
    lemma_same_region(map, lakes, ocean, ax, ay, bx, by, levels.at(bx, by) as int);
    if region_area(lakes, ax, ay) > min_area {
        let la = levels.at(ax, ay) as int;
        let lb = levels.at(bx, by) as int;
        assert(is_region_level(map, lakes, ocean, ax, ay, la));
        assert(is_region_level(map, lakes, ocean, ax, ay, lb));
        if la != ocean {
            let (cx, cy) = choose|cx: int, cy: int| #[trigger]
                joined(lakes, ax, ay, cx, cy) && map.at(cx, cy) == la;
        }
        if lb != ocean {
            let (cx, cy) = choose|cx: int, cy: int| #[trigger]
                joined(lakes, ax, ay, cx, cy) && map.at(cx, cy) == lb;
        }
    }
}

/// The surfaces that the lakes are given are determined by the heights and
/// by the cells that hold water.
pub proof fn lemma_depths_unique(
    map: Grid,
    lakes: Grid,
    ocean: int,
    min_area: int,
    a: Grid,
    b: Grid,
    x: int,
    y: int,
)
    requires
        depths_assigned(map, lakes, ocean, min_area, a),
        depths_assigned(map, lakes, ocean, min_area, b),
        lakes.contains(x, y),
    ensures
        a.at(x, y) == b.at(x, y),
{
    if is_wet(lakes, x, y) && region_area(lakes, x, y) > min_area {
        let la = a.at(x, y) as int;
        let lb = b.at(x, y) as int;
        assert(is_region_level(map, lakes, ocean, x, y, la));
        assert(is_region_level(map, lakes, ocean, x, y, lb));
        if la != ocean {
            let (cx, cy) = choose|cx: int, cy: int| #[trigger]
                joined(lakes, x, y, cx, cy) && map.at(cx, cy) == la;
        }
        if lb != ocean {
            let (cx, cy) = choose|cx: int, cy: int| #[trigger]
                joined(lakes, x, y, cx, cy) && map.at(cx, cy) == lb;
        }
    }
}

/// The cells of a path through the water of the result held water before.
proof fn lemma_result_path(
    map: Grid,
    lakes: Grid,
    ocean: int,
    min_area: int,
    levels: Grid,
    path: Seq<(int, int)>,
)
    requires
        depths_assigned(map, lakes, ocean, min_area, levels),
        is_wet_path(levels, path),
    ensures
        is_wet_path(lakes, path),
{
    assert forall|i: int| 0 <= i < path.len() implies is_wet(
        lakes,
        (#[trigger] path[i]).0,
        path[i].1,
    ) by {
        assert(is_wet(levels, path[i].0, path[i].1));
    }
}

/// Every lake of the result has one surface, and none of its cells lies above
/// it: two cells that the water of the result connects show the same value,
/// which is no lower than the terrain in either.
pub proof fn lemma_result_lake_level(
    map: Grid,
    lakes: Grid,
    ocean: int,
    min_area: int,
    levels: Grid,
    ax: int,
    ay: int,
    bx: int,
    by: int,
)
    requires
        depths_assigned(map, lakes, ocean, min_area, levels),
        joined(levels, ax, ay, bx, by),
    ensures
        levels.at(ax, ay) == levels.at(bx, by),
        map.at(ax, ay) <= levels.at(ax, ay),
        map.at(bx, by) <= levels.at(ax, ay),
{
    let path = choose|path: Seq<(int, int)>| #[trigger]
        is_wet_path(levels, path) && path[0] == (ax, ay) && path[path.len() - 1] == (bx, by);
    lemma_result_path(map, lakes, ocean, min_area, levels, path);
    assert(joined(lakes, ax, ay, bx, by));
    assert(is_wet(levels, path[0].0, path[0].1));
    lemma_joined_wet(lakes, ax, ay, bx, by);
    lemma_joined_self(lakes, ax, ay);
    lemma_lake_contains(map, lakes, ocean, min_area, levels, ax, ay, bx, by);
    lemma_lake_contains(map, lakes, ocean, min_area, levels, ax, ay, ax, ay);
}

/// The start of a path through water leads through water.
proof fn lemma_path_start(lakes: Grid, path: Seq<(int, int)>, i: int)
    requires
        is_wet_path(lakes, path),
        0 <= i < path.len(),
    ensures
        joined(lakes, path[0].0, path[0].1, path[i].0, path[i].1),
{
    let part = path.take(i + 1);
    assert(is_wet_path(lakes, part)) by {
        assert forall|k: int| 0 <= k < part.len() implies is_wet(
            lakes,
            (#[trigger] part[k]).0,
            part[k].1,
        ) by {
            assert(part[k] == path[k]);
        }
        assert forall|k: int, j: int| 0 <= k && j == k + 1 && j < part.len() implies adjacent(
            (#[trigger] part[k]).0,
            part[k].1,
            (#[trigger] part[j]).0,
            part[j].1,
        ) by {
            assert(part[k] == path[k]);
            assert(part[j] == path[j]);
        }
    }
    assert(part[0] == path[0] && part[part.len() - 1] == path[i]);
}

/// Where the ocean lies above zero, the lakes of the result are the lakes that
/// were large enough: each has more than `min_area` cells.
pub proof fn lemma_result_lake_area(
    map: Grid,
    lakes: Grid,
    ocean: int,
    min_area: int,
    levels: Grid,
    x: int,
    y: int,
)
    requires
        depths_assigned(map, lakes, ocean, min_area, levels),
        ocean > 0,
        is_wet(levels, x, y),
    ensures
        region_area(levels, x, y) == region_area(lakes, x, y),
        region_area(levels, x, y) > min_area,
{
    assert(is_wet(lakes, x, y) && region_area(lakes, x, y) > min_area);
    assert forall|bx: int, by: int| joined(levels, x, y, bx, by) == joined(lakes, x, y, bx, by) by {
        if joined(levels, x, y, bx, by) {
            let path = choose|path: Seq<(int, int)>| #[trigger]
                is_wet_path(levels, path) && path[0] == (x, y) && path[path.len() - 1] == (bx, by);
            lemma_result_path(map, lakes, ocean, min_area, levels, path);
        }
        if joined(lakes, x, y, bx, by) {
            let path = choose|path: Seq<(int, int)>| #[trigger]
                is_wet_path(lakes, path) && path[0] == (x, y) && path[path.len() - 1] == (bx, by);
            assert forall|i: int| 0 <= i < path.len() implies is_wet(
                levels,
                (#[trigger] path[i]).0,
                path[i].1,
            ) by {
                let c = path[i];
                lemma_path_start(lakes, path, i);
                lemma_joined_wet(lakes, x, y, c.0, c.1);
                lemma_same_region(map, lakes, ocean, x, y, c.0, c.1, levels.at(c.0, c.1) as int);
                assert(is_region_level(map, lakes, ocean, c.0, c.1, levels.at(c.0, c.1) as int));
            }
            assert(is_wet_path(levels, path));
        }
    }
    lemma_grid_sum_ext(
        region_fn(levels, x, y),
        region_fn(lakes, x, y),
        lakes.spec_width() as int,
        lakes.spec_height() as int,
    );
}

/// One for each cell that carries the label `g`, zero for the others.
spec fn label_fn(groups: Grid, g: int) -> spec_fn(int, int) -> int {
    |x: int, y: int|
        if groups.at(x, y) == g {
            1int
        } else {
            0int
        }
}

/// The label `g` marks the lake of the cell that it was started from, and the
/// number of cells and the surface recorded for it are those of that lake.
spec fn group_done(
    map: Grid,
    lakes: Grid,
    ocean: int,
    groups: Grid,
    seeds: Seq<(int, int)>,
    levels: Seq<i64>,
    areas: Seq<usize>,
    g: int,
) -> bool {
    &&& is_wet(lakes, seeds[g].0, seeds[g].1)
    &&& forall|x: int, y: int|
        groups.contains(x, y) ==> ((#[trigger] groups.at(x, y) == g) <==> joined(
            lakes,
            seeds[g].0,
            seeds[g].1,
            x,
            y,
        ))
    &&& areas[g] == region_area(lakes, seeds[g].0, seeds[g].1)
    &&& is_region_level(map, lakes, ocean, seeds[g].0, seeds[g].1, levels[g] as int)
}

/// Every label below `n` marks a whole lake.
spec fn groups_done(
    map: Grid,
    lakes: Grid,
    ocean: int,
    groups: Grid,
    seeds: Seq<(int, int)>,
    levels: Seq<i64>,
    areas: Seq<usize>,
    n: int,
) -> bool {
    &&& groups.same_size(&lakes)
    &&& map.same_size(&lakes)
    &&& seeds.len() >= n
    &&& levels.len() >= n
    &&& areas.len() >= n
    &&& forall|g: int|
        1 <= g < n ==> #[trigger] group_done(map, lakes, ocean, groups, seeds, levels, areas, g)
}

/// The lake of `seed` is being labelled with `cur`: cells on the stack carry -1,
/// and the neighbours of every labelled cell but `open` are labelled or on the stack.
spec fn filling(
    map: Grid,
    lakes: Grid,
    ocean: int,
    groups: Grid,
    seed: (int, int),
    cur: int,
    stack: Seq<(usize, usize)>,
    area: int,
    level: int,
    open: (int, int),
) -> bool {
    &&& is_wet(lakes, seed.0, seed.1)
    &&& forall|x: int, y: int|
        groups.contains(x, y) ==> -1 <= #[trigger] groups.at(x, y) <= cur
    &&& forall|x: int, y: int|
        groups.contains(x, y) && (#[trigger] groups.at(x, y) == -1 || groups.at(x, y) == cur)
            ==> joined(lakes, seed.0, seed.1, x, y)
    &&& forall|k: int|
        0 <= k < stack.len() ==> groups.contains((#[trigger] stack[k]).0 as int, stack[k].1 as int)
            && groups.at(stack[k].0 as int, stack[k].1 as int) == -1
    &&& forall|x: int, y: int|
        groups.contains(x, y) && #[trigger] groups.at(x, y) == -1 ==> exists|k: int|
            0 <= k < stack.len() && #[trigger] stack[k] == (x as usize, y as usize)
    &&& forall|i: int, k: int| 0 <= i < k < stack.len() ==> #[trigger] stack[i] != #[trigger] stack[k]
    &&& forall|x: int, y: int, nx: int, ny: int|
        groups.contains(x, y) && groups.at(x, y) == cur && (x, y) != open && #[trigger] adjacent(
            x,
            y,
            nx,
            ny,
        ) && is_wet(lakes, nx, ny) ==> groups.at(nx, ny) == -1 || groups.at(nx, ny) == cur
    &&& area == grid_sum(
        label_fn(groups, cur),
        groups.spec_width() as int,
        groups.spec_height() as int,
    )
    &&& level >= ocean
    &&& forall|x: int, y: int|
        groups.contains(x, y) && #[trigger] groups.at(x, y) == cur ==> map.at(x, y) <= level
    &&& level == ocean || exists|x: int, y: int|
        groups.contains(x, y) && #[trigger] groups.at(x, y) == cur && map.at(x, y) == level
}

/// Every wet cell before `(nx, ny)` carries the label of a lake, and no dry cell does.
spec fn labelled_before(lakes: Grid, groups: Grid, n: int, nx: int, ny: int) -> bool {
    &&& forall|x: int, y: int| groups.contains(x, y) ==> 0 <= #[trigger] groups.at(x, y) < n
    &&& forall|x: int, y: int|
        groups.contains(x, y) && scanned(x, y, nx, ny) && is_wet(lakes, x, y) ==> #[trigger] groups.at(
            x,
            y,
        ) >= 1
}

/// Labels of whole lakes stay what they are while a cell without one is marked.
proof fn lemma_groups_keep(
    map: Grid,
    lakes: Grid,
    ocean: int,
    before: Grid,
    after: Grid,
    seeds: Seq<(int, int)>,
    levels: Seq<i64>,
    areas: Seq<usize>,
    n: int,
    x: int,
    y: int,
    value: int,
)
    requires
        groups_done(map, lakes, ocean, before, seeds, levels, areas, n),
        before.contains(x, y),
        before.at(x, y) < 1,
        value < 1 || value >= n,
        changed_at(before, after, x, y, value),
    ensures
        groups_done(map, lakes, ocean, after, seeds, levels, areas, n),
{
    assert forall|g: int| 1 <= g < n implies #[trigger] group_done(
        map,
        lakes,
        ocean,
        after,
        seeds,
        levels,
        areas,
        g,
    ) by {
        assert(group_done(map, lakes, ocean, before, seeds, levels, areas, g));
        assert forall|px: int, py: int| after.contains(px, py) implies ((#[trigger] after.at(px, py)
            == g) <==> joined(lakes, seeds[g].0, seeds[g].1, px, py)) by {
            assert((before.at(px, py) == g) <==> joined(lakes, seeds[g].0, seeds[g].1, px, py));
        }
    }
}

/// Records of lakes stay what they are when a record is added.
proof fn lemma_groups_grow(
    map: Grid,
    lakes: Grid,
    ocean: int,
    groups: Grid,
    seeds0: Seq<(int, int)>,
    levels0: Seq<i64>,
    areas0: Seq<usize>,
    seeds1: Seq<(int, int)>,
    levels1: Seq<i64>,
    areas1: Seq<usize>,
    n: int,
)
    requires
        groups_done(map, lakes, ocean, groups, seeds0, levels0, areas0, n),
        seeds1.len() >= n,
        levels1.len() >= n,
        areas1.len() >= n,
        forall|g: int| 1 <= g < n ==> seeds1[g] == seeds0[g] && levels1[g] == levels0[g] && areas1[g]
            == areas0[g],
    ensures
        groups_done(map, lakes, ocean, groups, seeds1, levels1, areas1, n),
{
    assert forall|g: int| 1 <= g < n implies #[trigger] group_done(
        map,
        lakes,
        ocean,
        groups,
        seeds1,
        levels1,
        areas1,
        g,
    ) by {
        assert(group_done(map, lakes, ocean, groups, seeds0, levels0, areas0, g));
    }
}

/// A wet cell next to a cell that is being labelled belongs to no other lake.
proof fn lemma_neighbour_free(
    map: Grid,
    lakes: Grid,
    ocean: int,
    groups: Grid,
    seeds: Seq<(int, int)>,
    levels: Seq<i64>,
    areas: Seq<usize>,
    n: int,
    x: int,
    y: int,
    nx: int,
    ny: int,
)
    requires
        groups_done(map, lakes, ocean, groups, seeds, levels, areas, n),
        groups.contains(x, y),
        groups.contains(nx, ny),
        is_wet(lakes, x, y),
        adjacent(x, y, nx, ny),
        !(1 <= groups.at(x, y) < n),
    ensures
        !(1 <= groups.at(nx, ny) < n),
{
    let g = groups.at(nx, ny) as int;
    if 1 <= g < n {
        assert(group_done(map, lakes, ocean, groups, seeds, levels, areas, g));
        assert(joined(lakes, seeds[g].0, seeds[g].1, nx, ny));
        lemma_joined_extend(lakes, seeds[g].0, seeds[g].1, nx, ny, x, y);
        assert((groups.at(x, y) == g) <==> joined(lakes, seeds[g].0, seeds[g].1, x, y));
    }
}

/// Along a path through water that starts in a labelled cell, every cell
/// carries the label once no cell is left on the stack.
proof fn lemma_label_along(
    map: Grid,
    lakes: Grid,
    ocean: int,
    groups: Grid,
    seed: (int, int),
    cur: int,
    area: int,
    level: int,
    path: Seq<(int, int)>,
    i: int,
)
    requires
        filling(
            map,
            lakes,
            ocean,
            groups,
            seed,
            cur,
            Seq::<(usize, usize)>::empty(),
            area,
            level,
            (-1, -1),
        ),
        groups.same_size(&lakes),
        is_wet_path(lakes, path),
        groups.at(path[0].0, path[0].1) == cur,
        0 <= i < path.len(),
    ensures
        groups.at(path[i].0, path[i].1) == cur,
    decreases i,
{
    if i > 0 {
        lemma_label_along(map, lakes, ocean, groups, seed, cur, area, level, path, i - 1);
        let a = path[i - 1];
        let b = path[i];
        assert(is_wet(lakes, a.0, a.1));
        assert(is_wet(lakes, b.0, b.1));
        assert(adjacent(a.0, a.1, b.0, b.1));
        if groups.at(b.0, b.1) == -1 {
            let k = choose|k: int|
                0 <= k < Seq::<(usize, usize)>::empty().len() && #[trigger] Seq::<
                    (usize, usize),
                >::empty()[k] == (b.0 as usize, b.1 as usize);
        }
    }
}

/// Once no cell is left on the stack, the label marks the whole lake of the seed.
proof fn lemma_fill_done(
    map: Grid,
    lakes: Grid,
    ocean: int,
    groups: Grid,
    seeds: Seq<(int, int)>,
    levels: Seq<i64>,
    areas: Seq<usize>,
    cur: int,
)
    requires
        groups_done(map, lakes, ocean, groups, seeds, levels, areas, cur),
        seeds.len() == cur + 1,
        levels.len() == cur + 1,
        areas.len() == cur + 1,
        cur >= 1,
        groups.contains(seeds[cur].0, seeds[cur].1),
        groups.at(seeds[cur].0, seeds[cur].1) == cur,
        filling(
            map,
            lakes,
            ocean,
            groups,
            seeds[cur],
            cur,
            Seq::<(usize, usize)>::empty(),
            areas[cur] as int,
            levels[cur] as int,
            (-1, -1),
        ),
    ensures
        groups_done(map, lakes, ocean, groups, seeds, levels, areas, cur + 1),
        forall|x: int, y: int| groups.contains(x, y) ==> 0 <= #[trigger] groups.at(x, y) <= cur,
{
    let seed = seeds[cur];
    let w = groups.spec_width() as int;
    let h = groups.spec_height() as int;
    assert forall|x: int, y: int| groups.contains(x, y) implies 0 <= #[trigger] groups.at(x, y)
        <= cur by {
        if groups.at(x, y) == -1 {
            let k = choose|k: int|
                0 <= k < Seq::<(usize, usize)>::empty().len() && #[trigger] Seq::<
                    (usize, usize),
                >::empty()[k] == (x as usize, y as usize);
        }
    }
    assert forall|x: int, y: int| groups.contains(x, y) implies ((#[trigger] groups.at(x, y) == cur)
        <==> joined(lakes, seed.0, seed.1, x, y)) by {
        if joined(lakes, seed.0, seed.1, x, y) {
            let path = choose|path: Seq<(int, int)>| #[trigger]
                is_wet_path(lakes, path) && path[0] == (seed.0, seed.1) && path[path.len() - 1] == (
                    x,
                    y,
                );
            lemma_label_along(
                map,
                lakes,
                ocean,
                groups,
                seed,
                cur,
                areas[cur] as int,
                levels[cur] as int,
                path,
                path.len() - 1,
            );
        }
    }
    assert(areas[cur] == region_area(lakes, seed.0, seed.1)) by {
        let f = label_fn(groups, cur);
        let r = region_fn(lakes, seed.0, seed.1);
        assert forall|x: int, y: int| 0 <= x < w && 0 <= y < h implies #[trigger] f(x, y) == r(
            x,
            y,
        ) by {
            assert((groups.at(x, y) == cur) <==> joined(lakes, seed.0, seed.1, x, y));
        }
        lemma_grid_sum_ext(f, r, w, h);
    }
    assert(is_region_level(map, lakes, ocean, seed.0, seed.1, levels[cur] as int)) by {
        assert forall|bx: int, by: int| #[trigger]
            joined(lakes, seed.0, seed.1, bx, by) implies map.at(bx, by) <= levels[cur] by {
            lemma_joined_wet(lakes, seed.0, seed.1, bx, by);
            assert((groups.at(bx, by) == cur) <==> joined(lakes, seed.0, seed.1, bx, by));
        }
        if levels[cur] != ocean {
            let (x, y) = choose|x: int, y: int|
                groups.contains(x, y) && #[trigger] groups.at(x, y) == cur && map.at(x, y)
                    == levels[cur];
            assert(joined(lakes, seed.0, seed.1, x, y));
        }
    }
    assert(group_done(map, lakes, ocean, groups, seeds, levels, areas, cur));
    assert forall|g: int| 1 <= g < cur + 1 implies #[trigger] group_done(
        map,
        lakes,
        ocean,
        groups,
        seeds,
        levels,
        areas,
        g,
    ) by {}
}

/// Marking a dry-labelled wet cell next to the open cell puts it on the stack.
proof fn lemma_fill_push(
    map: Grid,
    lakes: Grid,
    ocean: int,
    before: Grid,
    after: Grid,
    seed: (int, int),
    cur: int,
    stack: Seq<(usize, usize)>,
    area: int,
    level: int,
    open: (int, int),
    x: usize,
    y: usize,
)
    requires
        filling(map, lakes, ocean, before, seed, cur, stack, area, level, open),
        before.same_size(&lakes),
        before.contains(x as int, y as int),
        before.at(x as int, y as int) == 0,
        is_wet(lakes, x as int, y as int),
        before.contains(open.0, open.1),
        before.at(open.0, open.1) == cur,
        adjacent(open.0, open.1, x as int, y as int),
        cur >= 1,
        changed_at(before, after, x as int, y as int, -1),
    ensures
        filling(map, lakes, ocean, after, seed, cur, stack.push((x, y)), area, level, open),
{
    let w = before.spec_width() as int;
    let h = before.spec_height() as int;
    let longer = stack.push((x, y));
    lemma_joined_extend(lakes, seed.0, seed.1, open.0, open.1, x as int, y as int);
    assert forall|k: int| 0 <= k < longer.len() implies after.contains(
        (#[trigger] longer[k]).0 as int,
        longer[k].1 as int,
    ) && after.at(longer[k].0 as int, longer[k].1 as int) == -1 by {
        if k < stack.len() {
            assert(longer[k] == stack[k]);
        }
    }
    assert forall|px: int, py: int|
        after.contains(px, py) && #[trigger] after.at(px, py) == -1 implies exists|k: int|
        0 <= k < longer.len() && #[trigger] longer[k] == (px as usize, py as usize) by {
        if (px, py) == (x as int, y as int) {
            assert(longer[stack.len() as int] == (px as usize, py as usize));
        } else {
            assert(before.at(px, py) == -1);
            let k = choose|k: int|
                0 <= k < stack.len() && #[trigger] stack[k] == (px as usize, py as usize);
            assert(longer[k] == stack[k]);
        }
    }
    assert forall|i: int, k: int| 0 <= i < k < longer.len() implies #[trigger] longer[i]
        != #[trigger] longer[k] by {
        assert(longer[i] == stack[i]);
        if k < stack.len() {
            assert(longer[k] == stack[k]);
        }
    }
    assert forall|px: int, py: int, nx: int, ny: int|
        after.contains(px, py) && after.at(px, py) == cur && (px, py) != open && #[trigger] adjacent(
            px,
            py,
            nx,
            ny,
        ) && is_wet(lakes, nx, ny) implies after.at(nx, ny) == -1 || after.at(nx, ny) == cur by {
        assert(before.at(px, py) == cur);
    }
    lemma_grid_sum_ext(label_fn(after, cur), label_fn(before, cur), w, h);
    assert forall|px: int, py: int|
        after.contains(px, py) && #[trigger] after.at(px, py) == cur implies map.at(px, py)
        <= level by {
        assert(before.at(px, py) == cur);
    }
    if level != ocean {
        let (px, py) = choose|px: int, py: int|
            before.contains(px, py) && #[trigger] before.at(px, py) == cur && map.at(px, py)
                == level;
        assert(after.at(px, py) == cur);
    }
}

/// Taking the last cell off the stack labels it and opens it.
proof fn lemma_fill_pop(
    map: Grid,
    lakes: Grid,
    ocean: int,
    before: Grid,
    after: Grid,
    seed: (int, int),
    cur: int,
    stack: Seq<(usize, usize)>,
    area: int,
    level: int,
)
    requires
        filling(map, lakes, ocean, before, seed, cur, stack, area, level, (-1, -1)),
        before.same_size(&lakes),
        stack.len() > 0,
        cur >= 1,
        changed_at(
            before,
            after,
            stack[stack.len() - 1].0 as int,
            stack[stack.len() - 1].1 as int,
            cur,
        ),
    ensures
        filling(
            map,
            lakes,
            ocean,
            after,
            seed,
            cur,
            stack.drop_last(),
            area + 1,
            if map.at(stack[stack.len() - 1].0 as int, stack[stack.len() - 1].1 as int) > level {
                map.at(stack[stack.len() - 1].0 as int, stack[stack.len() - 1].1 as int) as int
            } else {
                level
            },
            (stack[stack.len() - 1].0 as int, stack[stack.len() - 1].1 as int),
        ),
        area + 1 <= before.spec_width() * before.spec_height(),
{
    let w = before.spec_width() as int;
    let h = before.spec_height() as int;
    let last = stack.len() - 1;
    let c = (stack[last].0 as int, stack[last].1 as int);
    let shorter = stack.drop_last();
    let new_level = if map.at(c.0, c.1) > level {
        map.at(c.0, c.1) as int
    } else {
        level
    };
    assert(before.contains(c.0, c.1) && before.at(c.0, c.1) == -1);
    assert forall|k: int| 0 <= k < shorter.len() implies after.contains(
        (#[trigger] shorter[k]).0 as int,
        shorter[k].1 as int,
    ) && after.at(shorter[k].0 as int, shorter[k].1 as int) == -1 by {
        assert(shorter[k] == stack[k]);
        assert(stack[k] != stack[last]);
    }
    assert forall|px: int, py: int|
        after.contains(px, py) && #[trigger] after.at(px, py) == -1 implies exists|k: int|
        0 <= k < shorter.len() && #[trigger] shorter[k] == (px as usize, py as usize) by {
        assert(before.at(px, py) == -1);
        let k = choose|k: int|
            0 <= k < stack.len() && #[trigger] stack[k] == (px as usize, py as usize);
        assert(shorter[k] == stack[k]);
    }
    assert forall|i: int, k: int| 0 <= i < k < shorter.len() implies #[trigger] shorter[i]
        != #[trigger] shorter[k] by {
        assert(shorter[i] == stack[i]);
        assert(shorter[k] == stack[k]);
    }
    assert forall|px: int, py: int, nx: int, ny: int|
        after.contains(px, py) && after.at(px, py) == cur && (px, py) != c && #[trigger] adjacent(
            px,
            py,
            nx,
            ny,
        ) && is_wet(lakes, nx, ny) implies after.at(nx, ny) == -1 || after.at(nx, ny) == cur by {
        assert(before.at(px, py) == cur);
    }
    let f = label_fn(after, cur);
    let g = label_fn(before, cur);
    assert(f(c.0, c.1) == g(c.0, c.1) + 1);
    lemma_grid_sum_point(f, g, w, h, c.0, c.1, 1);
    assert forall|px: int, py: int| 0 <= px < w && 0 <= py < h implies 0 <= #[trigger] f(px, py)
        <= 1 by {}
    lemma_grid_sum_bounds(f, w, h, 1);
    assert(w * (h * 1) == w * h) by (nonlinear_arith);
    assert forall|px: int, py: int|
        after.contains(px, py) && #[trigger] after.at(px, py) == cur implies map.at(px, py)
        <= new_level by {
        if (px, py) != c {
            assert(before.at(px, py) == cur);
        }
    }
    if new_level != ocean {
        if map.at(c.0, c.1) > level {
            assert(after.at(c.0, c.1) == cur);
        } else {
            let (px, py) = choose|px: int, py: int|
                before.contains(px, py) && #[trigger] before.at(px, py) == cur && map.at(px, py)
                    == level;
            assert(after.at(px, py) == cur);
        }
    }
    assert forall|px: int, py: int|
        after.contains(px, py) && (#[trigger] after.at(px, py) == -1 || after.at(px, py) == cur)
        implies joined(lakes, seed.0, seed.1, px, py) by {
        if (px, py) != c {
            assert(before.at(px, py) == after.at(px, py));
        }
    }
}

/// Once every wet neighbour of the open cell is labelled or on the stack, the
/// cell is closed.
proof fn lemma_fill_close(
    map: Grid,
    lakes: Grid,
    ocean: int,
    groups: Grid,
    seed: (int, int),
    cur: int,
    stack: Seq<(usize, usize)>,
    area: int,
    level: int,
    open: (int, int),
)
    requires
        filling(map, lakes, ocean, groups, seed, cur, stack, area, level, open),
        forall|nx: int, ny: int| #[trigger]
            adjacent(open.0, open.1, nx, ny) && is_wet(lakes, nx, ny) ==> groups.at(nx, ny) == -1
                || groups.at(nx, ny) == cur,
    ensures
        filling(map, lakes, ocean, groups, seed, cur, stack, area, level, (-1, -1)),
{
}

/// Puts the cell `(x, y)` on the stack if it holds water and belongs to no lake yet.
fn visit(
    map: &Grid,
    lakes: &Grid,
    groups: &mut Grid,
    stack: &mut Vec<(usize, usize)>,
    x: usize,
    y: usize,
    Ghost(ocean): Ghost<int>,
    Ghost(seeds): Ghost<Seq<(int, int)>>,
    Ghost(levels): Ghost<Seq<i64>>,
    Ghost(areas): Ghost<Seq<usize>>,
    Ghost(cur): Ghost<int>,
    Ghost(area): Ghost<int>,
    Ghost(level): Ghost<int>,
    Ghost(open): Ghost<(int, int)>,
)
    requires
        cur >= 1,
        seeds.len() == cur + 1,
        old(groups).contains(x as int, y as int),
        old(groups).contains(open.0, open.1),
        old(groups).at(open.0, open.1) == cur,
        adjacent(open.0, open.1, x as int, y as int) || (x as int, y as int) == open,
        groups_done(*map, *lakes, ocean, *old(groups), seeds, levels, areas, cur),
        filling(*map, *lakes, ocean, *old(groups), seeds[cur], cur, old(stack)@, area, level, open),
    ensures
        groups_done(*map, *lakes, ocean, *final(groups), seeds, levels, areas, cur),
        filling(*map, *lakes, ocean, *final(groups), seeds[cur], cur, final(stack)@, area, level, open),
        final(groups).same_size(old(groups)),
        is_wet(*lakes, x as int, y as int) ==> final(groups).at(x as int, y as int) != 0,
        forall|px: int, py: int|
            old(groups).contains(px, py) && #[trigger] old(groups).at(px, py) != 0
                ==> final(groups).at(px, py) == old(groups).at(px, py),
{
    if groups.get(x, y) == 0 && lakes.get(x, y) > 0 {
        stack.push((x, y));
        groups.set(x, y, -1);
        proof {
            lemma_fill_push(
                *map,
                *lakes,
                ocean,
                *old(groups),
                *groups,
                seeds[cur],
                cur,
                old(stack)@,
                area,
                level,
                open,
                x,
                y,
            );
            lemma_groups_keep(
                *map,
                *lakes,
                ocean,
                *old(groups),
                *groups,
                seeds,
                levels,
                areas,
                cur,
                x as int,
                y as int,
                -1,
            );
        }
    }
}

/// Labels the lakes of `lakes` with the numbers from one on, and returns the
/// labels, and for each label the surface and the number of cells of its lake.
fn label_regions(map: &Grid, lakes: &Grid, ocean: i64) -> (out: (
    Grid,
    Vec<i64>,
    Vec<usize>,
    Ghost<Seq<(int, int)>>,
))
    requires
        map.same_size(lakes),
    ensures
        out.1@.len() == out.2@.len(),
        groups_done(
            *map,
            *lakes,
            ocean as int,
            out.0,
            out.3@,
            out.1@,
            out.2@,
            out.1@.len() as int,
        ),
        labelled_before(*lakes, out.0, out.1@.len() as int, lakes.spec_width() as int, 0),
{
    let width = map.width();
    let height = map.height();
    let mut groups = Grid::new(width, height);
    let mut max: Vec<i64> = Vec::new();
    let mut area: Vec<usize> = Vec::new();
    max.push(0);
    area.push(0);
    let ghost mut seeds: Seq<(int, int)> = seq![(0int, 0int)];
    let ghost mut base: int = 0;

    let mut x: usize = 0;
    while x < width
        invariant
            width == map.spec_width(),
            height == map.spec_height(),
            width * height * 8 <= isize::MAX,
            map.same_size(lakes),
            x <= width,
            base == x * height,
            max@.len() == area@.len(),
            seeds.len() == max@.len(),
            1 <= max@.len() <= base + 1,
            groups_done(*map, *lakes, ocean as int, groups, seeds, max@, area@, max@.len() as int),
            labelled_before(*lakes, groups, max@.len() as int, x as int, 0),
        decreases width - x,
    {
        let mut y: usize = 0;
        while y < height
            invariant
                width == map.spec_width(),
                height == map.spec_height(),
                width * height * 8 <= isize::MAX,
                map.same_size(lakes),
                x < width,
                y <= height,
                base == x * height,
                max@.len() == area@.len(),
                seeds.len() == max@.len(),
                1 <= max@.len() <= base + y + 1,
                groups_done(
                    *map,
                    *lakes,
                    ocean as int,
                    groups,
                    seeds,
                    max@,
                    area@,
                    max@.len() as int,
                ),
                labelled_before(*lakes, groups, max@.len() as int, x as int, y as int),
            decreases height - y,
        {
            proof {
                assert(x * height + height <= width * height) by (nonlinear_arith)
                    requires
                        x < width,
                ;
            }
            if groups.get(x, y) == 0 && lakes.get(x, y) > 0 {
                let group = max.len();
                let ghost groups0 = groups;
                let ghost seeds0 = seeds;
                let ghost levels0 = max@;
                let ghost areas0 = area@;
                max.push(ocean);
                area.push(0);
                proof {
                    seeds = seeds.push((x as int, y as int));
                }
                let mut queue: Vec<(usize, usize)> = Vec::new();
                queue.push((x, y));
                groups.set(x, y, -1);
                let mut count: usize = 0;
                let mut level: i64 = ocean;
                proof {
                    lemma_groups_keep(
                        *map,
                        *lakes,
                        ocean as int,
                        groups0,
                        groups,
                        seeds0,
                        levels0,
                        areas0,
                        group as int,
                        x as int,
                        y as int,
                        -1,
                    );
                    lemma_groups_grow(
                        *map,
                        *lakes,
                        ocean as int,
                        groups,
                        seeds0,
                        levels0,
                        areas0,
                        seeds,
                        max@,
                        area@,
                        group as int,
                    );
                    lemma_joined_self(*lakes, x as int, y as int);
                    lemma_grid_sum_bounds(
                        label_fn(groups, group as int),
                        width as int,
                        height as int,
                        0,
                    );
                    assert(width * (height * 0) == 0) by (nonlinear_arith);
                    assert(queue@[0] == (x, y));
                }

                while queue.len() > 0
                    invariant
                        width == map.spec_width(),
                        height == map.spec_height(),
                        width * height * 8 <= isize::MAX,
                        map.same_size(lakes),
                        groups.same_size(lakes),
                        x < width,
                        y < height,
                        group >= 1,
                        group < i64::MAX,
                        seeds.len() == group + 1,
                        seeds[group as int] == (x as int, y as int),
                        max@.len() == group + 1,
                        area@.len() == group + 1,
                        count <= width * height,
                        groups.at(x as int, y as int) == -1 || groups.at(x as int, y as int)
                            == group,
                        groups0.same_size(lakes),
                        labelled_before(*lakes, groups0, group as int, x as int, y as int),
                        groups_done(
                            *map,
                            *lakes,
                            ocean as int,
                            groups0,
                            seeds0,
                            levels0,
                            areas0,
                            group as int,
                        ),
                        forall|g: int| 1 <= g < group ==> seeds[g] == seeds0[g],
                        groups_done(
                            *map,
                            *lakes,
                            ocean as int,
                            groups,
                            seeds,
                            max@,
                            area@,
                            group as int,
                        ),
                        filling(
                            *map,
                            *lakes,
                            ocean as int,
                            groups,
                            seeds[group as int],
                            group as int,
                            queue@,
                            count as int,
                            level as int,
                            (-1, -1),
                        ),
                    decreases width * height - count,
                {
                    let ghost before = groups;
                    let ghost stack0 = queue@;
                    let (cx, cy) = queue.pop().unwrap();
                    groups.set(cx, cy, group as i64);
                    proof {
                        assert(queue@ =~= stack0.drop_last());
                        lemma_fill_pop(
                            *map,
                            *lakes,
                            ocean as int,
                            before,
                            groups,
                            seeds[group as int],
                            group as int,
                            stack0,
                            count as int,
                            level as int,
                        );
                        lemma_groups_keep(
                            *map,
                            *lakes,
                            ocean as int,
                            before,
                            groups,
                            seeds,
                            max@,
                            area@,
                            group as int,
                            cx as int,
                            cy as int,
                            group as int,
                        );
                    }
                    count += 1;
                    let z = map.get(cx, cy);
                    if z > level {
                        level = z;
                    }
                    let left = if cx > 0 {
                        cx - 1
                    } else {
                        cx
                    };
                    let right = if cx + 1 < width {
                        cx + 1
                    } else {
                        cx
                    };
                    let up = if cy > 0 {
                        cy - 1
                    } else {
                        cy
                    };
                    let down = if cy + 1 < height {
                        cy + 1
                    } else {
                        cy
                    };
                    visit(
                        map,
                        lakes,
                        &mut groups,
                        &mut queue,
                        left,
                        cy,
                        Ghost(ocean as int),
                        Ghost(seeds),
                        Ghost(max@),
                        Ghost(area@),
                        Ghost(group as int),
                        Ghost(count as int),
                        Ghost(level as int),
                        Ghost((cx as int, cy as int)),
                    );
                    visit(
                        map,
                        lakes,
                        &mut groups,
                        &mut queue,
                        right,
                        cy,
                        Ghost(ocean as int),
                        Ghost(seeds),
                        Ghost(max@),
                        Ghost(area@),
                        Ghost(group as int),
                        Ghost(count as int),
                        Ghost(level as int),
                        Ghost((cx as int, cy as int)),
                    );
                    visit(
                        map,
                        lakes,
                        &mut groups,
                        &mut queue,
                        cx,
                        up,
                        Ghost(ocean as int),
                        Ghost(seeds),
                        Ghost(max@),
                        Ghost(area@),
                        Ghost(group as int),
                        Ghost(count as int),
                        Ghost(level as int),
                        Ghost((cx as int, cy as int)),
                    );
                    visit(
                        map,
                        lakes,
                        &mut groups,
                        &mut queue,
                        cx,
                        down,
                        Ghost(ocean as int),
                        Ghost(seeds),
                        Ghost(max@),
                        Ghost(area@),
                        Ghost(group as int),
                        Ghost(count as int),
                        Ghost(level as int),
                        Ghost((cx as int, cy as int)),
                    );
                    proof {
                        assert forall|nx: int, ny: int| #[trigger]
                            adjacent(cx as int, cy as int, nx, ny) && is_wet(
                                *lakes,
                                nx,
                                ny,
                            ) implies groups.at(nx, ny) == -1 || groups.at(nx, ny) == group by {
                            assert(groups.at(nx, ny) != 0);
                            lemma_joined_wet(
                                *lakes,
                                seeds[group as int].0,
                                seeds[group as int].1,
                                cx as int,
                                cy as int,
                            );
                            lemma_neighbour_free(
                                *map,
                                *lakes,
                                ocean as int,
                                groups,
                                seeds,
                                max@,
                                area@,
                                group as int,
                                cx as int,
                                cy as int,
                                nx,
                                ny,
                            );
                        }
                        lemma_fill_close(
                            *map,
                            *lakes,
                            ocean as int,
                            groups,
                            seeds[group as int],
                            group as int,
                            queue@,
                            count as int,
                            level as int,
                            (cx as int, cy as int),
                        );
                    }
                }

                let ghost levels1 = max@;
                let ghost areas1 = area@;
                max[group] = level;
                area[group] = count;
                proof {
                    assert(queue@ =~= Seq::<(usize, usize)>::empty());
                    lemma_groups_grow(
                        *map,
                        *lakes,
                        ocean as int,
                        groups,
                        seeds,
                        levels1,
                        areas1,
                        seeds,
                        max@,
                        area@,
                        group as int,
                    );
                    if groups.at(x as int, y as int) == -1 {
                        let k = choose|k: int|
                            0 <= k < queue@.len() && #[trigger] queue@[k] == (x, y);
                    }
                    lemma_fill_done(
                        *map,
                        *lakes,
                        ocean as int,
                        groups,
                        seeds,
                        max@,
                        area@,
                        group as int,
                    );
                    assert forall|px: int, py: int|
                        groups.contains(px, py) && scanned(px, py, x as int, y + 1) && is_wet(
                            *lakes,
                            px,
                            py,
                        ) implies #[trigger] groups.at(px, py) >= 1 by {
                        if (px, py) != (x as int, y as int) {
                            let g = groups0.at(px, py) as int;
                            assert(1 <= g < group);
                            assert(group_done(
                                *map,
                                *lakes,
                                ocean as int,
                                groups0,
                                seeds0,
                                levels0,
                                areas0,
                                g,
                            ));
                            assert(group_done(
                                *map,
                                *lakes,
                                ocean as int,
                                groups,
                                seeds,
                                max@,
                                area@,
                                g,
                            ));
                            assert(joined(*lakes, seeds0[g].0, seeds0[g].1, px, py));
                        }
                    }
                }
            }
            y += 1;
        }
        proof {
            base = base + height;
            assert((x + 1) * height == x * height + height) by (nonlinear_arith);
        }
        x += 1;
    }
    (groups, max, area, Ghost(seeds))
}

/// Gives every lake of `lakes` with more than `min_area` cells its surface and
/// dries up the others.
///
/// The cells of a lake are the wet cells (those above zero) that paths over
/// shared edges connect. Afterwards each cell of a lake that is large enough
/// holds the height of the highest cell of the lake, or `ocean` where that is
/// higher, and every other cell holds zero.
pub fn level_lakes(map: &Grid, lakes: &mut Grid, ocean: i64, min_area: usize)
    requires
        map.same_size(old(lakes)),
    ensures
        depths_assigned(*map, *old(lakes), ocean as int, min_area as int, *final(lakes)),
{
    let width = map.width();
    let height = map.height();
    let (groups, max, area, Ghost(seeds)) = label_regions(map, lakes, ocean);
    let ghost wet = *lakes;
    let mut x: usize = 0;
    while x < width
        invariant
            width == map.spec_width(),
            height == map.spec_height(),
            lakes.same_size(&wet),
            map.same_size(&wet),
            wet == *old(lakes),
            x <= width,
            max@.len() == area@.len(),
            groups_done(*map, wet, ocean as int, groups, seeds, max@, area@, max@.len() as int),
            labelled_before(wet, groups, max@.len() as int, width as int, 0),
            forall|px: int, py: int|
                wet.contains(px, py) && scanned(px, py, x as int, 0) ==> if is_wet(wet, px, py)
                    && region_area(wet, px, py) > min_area {
                    is_region_level(*map, wet, ocean as int, px, py, #[trigger] lakes.at(px, py) as int)
                } else {
                    lakes.at(px, py) == 0
                },
        decreases width - x,
    {
        let mut y: usize = 0;
        while y < height
            invariant
                width == map.spec_width(),
                height == map.spec_height(),
                lakes.same_size(&wet),
                map.same_size(&wet),
                wet == *old(lakes),
                x < width,
                y <= height,
                max@.len() == area@.len(),
                groups_done(*map, wet, ocean as int, groups, seeds, max@, area@, max@.len() as int),
                labelled_before(wet, groups, max@.len() as int, width as int, 0),
                forall|px: int, py: int|
                    wet.contains(px, py) && scanned(px, py, x as int, y as int) ==> if is_wet(
                        wet,
                        px,
                        py,
                    ) && region_area(wet, px, py) > min_area {
                        is_region_level(
                            *map,
                            wet,
                            ocean as int,
                            px,
                            py,
                            #[trigger] lakes.at(px, py) as int,
                        )
                    } else {
                        lakes.at(px, py) == 0
                    },
            decreases height - y,
        {
            let group = groups.get(x, y);
            let mut depth: i64 = 0;
            if group >= 1 {
                let g = group as usize;
                proof {
                    assert(group_done(
                        *map,
                        wet,
                        ocean as int,
                        groups,
                        seeds,
                        max@,
                        area@,
                        group as int,
                    ));
                    assert(joined(wet, seeds[group as int].0, seeds[group as int].1, x as int, y as int));
                    lemma_joined_wet(
                        wet,
                        seeds[group as int].0,
                        seeds[group as int].1,
                        x as int,
                        y as int,
                    );
                    lemma_same_region(
                        *map,
                        wet,
                        ocean as int,
                        seeds[group as int].0,
                        seeds[group as int].1,
                        x as int,
                        y as int,
                        max@[group as int] as int,
                    );
                }
                if area[g] > min_area {
                    depth = max[g];
                }
            }
            lakes.set(x, y, depth);
            y += 1;
        }
        x += 1;
    }
}

/// Whether `(x, y)` holds water before any lake is flooded: it lies below
/// `ocean`, or closer than `range` to an edge of the map.
pub open spec fn is_water(map: Grid, ocean: int, range: int, x: int, y: int) -> bool {
    map.at(x, y) < ocean || at_border(
        map.spec_width() as int,
        map.spec_height() as int,
        range,
        x,
        y,
    )
}

/// Whether a lake is flooded from `(x, y)`: the cell holds no water, is its own
/// flow target, and more than `volume_threshold` of river water arrives in it.
pub open spec fn is_origin(
    map: Grid,
    rivers: Grid,
    targets: Seq<Vec<(usize, usize)>>,
    ocean: int,
    range: int,
    volume_threshold: int,
    x: int,
    y: int,
) -> bool {
    &&& map.contains(x, y)
    &&& !is_water(map, ocean, range, x, y)
    &&& target_of(targets, x, y) == (x, y)
    &&& rivers.at(x, y) > volume_threshold
}

/// Whether `(ax, ay)` comes before `(bx, by)` when the cells are taken column by column.
pub open spec fn comes_before(a: (int, int), b: (int, int)) -> bool {
    scanned(a.0, a.1, b.0, b.1)
}

/// Whether `stages` shows the lakes as they are flooded one after the other from
/// the cells `origins`: in the first stage only the cells of `is_water` hold
/// water, and each further stage is the one before it with a lake flooded from
/// the next origin. The origins are all cells of `is_origin`, column by column.
pub open spec fn lake_stages(
    map: Grid,
    rivers: Grid,
    targets: Seq<Vec<(usize, usize)>>,
    ocean: int,
    range: int,
    volume_threshold: int,
    origins: Seq<(int, int)>,
    stages: Seq<Grid>,
) -> bool {
    &&& forall|k: int|
        0 <= k < origins.len() ==> is_origin(
            map,
            rivers,
            targets,
            ocean,
            range,
            volume_threshold,
            (#[trigger] origins[k]).0,
            origins[k].1,
        )
    &&& forall|x: int, y: int| #[trigger]
        is_origin(map, rivers, targets, ocean, range, volume_threshold, x, y) ==> exists|k: int|
            0 <= k < origins.len() && #[trigger] origins[k] == (x, y)
    &&& forall|i: int, k: int|
        0 <= i < k < origins.len() ==> comes_before(#[trigger] origins[i], #[trigger] origins[k])
    &&& stages.len() == origins.len() + 1
    &&& stages[0].same_size(&map)
    &&& forall|x: int, y: int|
        map.contains(x, y) ==> #[trigger] stages[0].at(x, y) == (if is_water(
            map,
            ocean,
            range,
            x,
            y,
        ) {
            1int
        } else {
            0int
        })
    &&& forall|k: int|
        0 <= k < origins.len() ==> #[trigger] flooded(
            map,
            targets,
            stages[k],
            origins[k].0,
            origins[k].1,
            stages[k + 1],
        )
}

/// Two lists of the cells from which lakes are flooded agree in their first `k` entries.
proof fn lemma_origins_agree(
    map: Grid,
    rivers: Grid,
    targets: Seq<Vec<(usize, usize)>>,
    ocean: int,
    range: int,
    volume_threshold: int,
    origins_a: Seq<(int, int)>,
    stages_a: Seq<Grid>,
    origins_b: Seq<(int, int)>,
    stages_b: Seq<Grid>,
    k: int,
)
    requires
        lake_stages(map, rivers, targets, ocean, range, volume_threshold, origins_a, stages_a),
        lake_stages(map, rivers, targets, ocean, range, volume_threshold, origins_b, stages_b),
        0 <= k <= origins_a.len(),
        k <= origins_b.len(),
    ensures
        forall|i: int| 0 <= i < k ==> origins_a[i] == origins_b[i],
    decreases k,
{
    if k > 0 {
        lemma_origins_agree(
            map,
            rivers,
            targets,
            ocean,
            range,
            volume_threshold,
            origins_a,
            stages_a,
            origins_b,
            stages_b,
            k - 1,
        );
        let c = origins_a[k - 1];
        let d = origins_b[k - 1];
        assert(is_origin(map, rivers, targets, ocean, range, volume_threshold, c.0, c.1));
        assert(is_origin(map, rivers, targets, ocean, range, volume_threshold, d.0, d.1));
        let j = choose|j: int| 0 <= j < origins_b.len() && #[trigger] origins_b[j] == (c.0, c.1);
        let i = choose|i: int| 0 <= i < origins_a.len() && #[trigger] origins_a[i] == (d.0, d.1);
        if j < k - 1 {
            assert(origins_a[j] == origins_b[j]);
            assert(comes_before(origins_a[j], origins_a[k - 1]));
        }
        if i < k - 1 {
            assert(origins_a[i] == origins_b[i]);
            assert(comes_before(origins_b[i], origins_b[k - 1]));
        }
        if j > k - 1 {
            assert(comes_before(origins_b[k - 1], origins_b[j]));
        }
        if i > k - 1 {
            assert(comes_before(origins_a[k - 1], origins_a[i]));
        }
    }
}

/// Two runs of floods over the same lists of cells agree up to the stage `k`.
proof fn lemma_stages_agree(
    map: Grid,
    rivers: Grid,
    targets: Seq<Vec<(usize, usize)>>,
    ocean: int,
    range: int,
    volume_threshold: int,
    origins: Seq<(int, int)>,
    stages_a: Seq<Grid>,
    stages_b: Seq<Grid>,
    k: int,
)
    requires
        lake_stages(map, rivers, targets, ocean, range, volume_threshold, origins, stages_a),
        lake_stages(map, rivers, targets, ocean, range, volume_threshold, origins, stages_b),
        0 <= k <= origins.len(),
    ensures
        stages_a[k].same_size(&map),
        stages_b[k].same_size(&map),
        forall|x: int, y: int| map.contains(x, y) ==> #[trigger] stages_a[k].at(x, y) == stages_b[k].at(x, y),
    decreases k,
{
    if k > 0 {
        lemma_stages_agree(
            map,
            rivers,
            targets,
            ocean,
            range,
            volume_threshold,
            origins,
            stages_a,
            stages_b,
            k - 1,
        );
        let o = origins[k - 1];
        assert(is_origin(map, rivers, targets, ocean, range, volume_threshold, o.0, o.1));
        assert(flooded(map, targets, stages_a[k - 1], o.0, o.1, stages_a[k - 1 + 1]));
        assert(flooded(map, targets, stages_b[k - 1], o.0, o.1, stages_b[k - 1 + 1]));
        lemma_flooded_unique(
            map,
            targets,
            stages_a[k - 1],
            stages_b[k - 1],
            o.0,
            o.1,
            stages_a[k],
            stages_b[k],
        );
    }
}

/// The cells from which lakes are flooded and what each flood leaves are
/// determined by the heights, the river volumes and the flow targets.
pub proof fn lemma_lake_stages_unique(
    map: Grid,
    rivers: Grid,
    targets: Seq<Vec<(usize, usize)>>,
    ocean: int,
    range: int,
    volume_threshold: int,
    origins_a: Seq<(int, int)>,
    stages_a: Seq<Grid>,
    origins_b: Seq<(int, int)>,
    stages_b: Seq<Grid>,
)
    requires
        lake_stages(map, rivers, targets, ocean, range, volume_threshold, origins_a, stages_a),
        lake_stages(map, rivers, targets, ocean, range, volume_threshold, origins_b, stages_b),
    ensures
        origins_a == origins_b,
        stages_a.len() == stages_b.len(),
        forall|k: int, x: int, y: int|
            0 <= k < stages_a.len() && map.contains(x, y) ==> #[trigger] stages_a[k].at(x, y)
                == stages_b[k].at(x, y),
{
    let la = origins_a.len() as int;
    let lb = origins_b.len() as int;
    let shorter = if la <= lb {
        la
    } else {
        lb
    };
    lemma_origins_agree(
        map,
        rivers,
        targets,
        ocean,
        range,
        volume_threshold,
        origins_a,
        stages_a,
        origins_b,
        stages_b,
        shorter,
    );
    if la < lb {
        let d = origins_b[la];
        assert(is_origin(map, rivers, targets, ocean, range, volume_threshold, d.0, d.1));
        let i = choose|i: int| 0 <= i < origins_a.len() && #[trigger] origins_a[i] == (d.0, d.1);
        assert(origins_a[i] == origins_b[i]);
        assert(comes_before(origins_b[i], origins_b[la]));
    }
    if lb < la {
        let c = origins_a[lb];
        assert(is_origin(map, rivers, targets, ocean, range, volume_threshold, c.0, c.1));
        let j = choose|j: int| 0 <= j < origins_b.len() && #[trigger] origins_b[j] == (c.0, c.1);
        assert(origins_a[j] == origins_b[j]);
        assert(comes_before(origins_a[j], origins_a[lb]));
    }
    assert(origins_a =~= origins_b);
    assert forall|k: int, x: int, y: int|
        0 <= k < stages_a.len() && map.contains(x, y) implies #[trigger] stages_a[k].at(x, y)
        == stages_b[k].at(x, y) by {
        lemma_stages_agree(
            map,
            rivers,
            targets,
            ocean,
            range,
            volume_threshold,
            origins_a,
            stages_a,
            stages_b,
            k,
        );
    }
}

/// Every stage has water on every edge and no cell below zero, and the cells
/// from which lakes were flooded before it hold water in it.
proof fn lemma_stage_holds(
    map: Grid,
    rivers: Grid,
    targets: Seq<Vec<(usize, usize)>>,
    ocean: int,
    range: int,
    volume_threshold: int,
    origins: Seq<(int, int)>,
    stages: Seq<Grid>,
    j: int,
)
    requires
        range >= 1,
        lake_stages(map, rivers, targets, ocean, range, volume_threshold, origins, stages),
        0 <= j <= origins.len(),
    ensures
        stages[j].same_size(&map),
        forall|x: int, y: int| map.contains(x, y) ==> #[trigger] stages[j].at(x, y) >= 0,
        forall|x: int, y: int|
            map.contains(x, y) && on_edge(map, x, y) ==> #[trigger] stages[j].at(x, y) > 0,
        forall|k: int| 0 <= k < j ==> stages[j].at((#[trigger] origins[k]).0, origins[k].1) > 0,
    decreases j,
{
    if j == 0 {
        assert forall|x: int, y: int| map.contains(x, y) && on_edge(map, x, y) implies #[trigger] stages[0].at(
            x,
            y,
        ) > 0 by {
            assert(is_water(map, ocean, range, x, y));
        }
    } else {
        lemma_stage_holds(
            map,
            rivers,
            targets,
            ocean,
            range,
            volume_threshold,
            origins,
            stages,
            j - 1,
        );
        let o = origins[j - 1];
        assert(is_origin(map, rivers, targets, ocean, range, volume_threshold, o.0, o.1));
        assert(flooded(map, targets, stages[j - 1], o.0, o.1, stages[j - 1 + 1]));
        lemma_flooded_keeps(map, targets, stages[j - 1], o.0, o.1, stages[j]);
        assert forall|k: int| 0 <= k < j implies stages[j].at(
            (#[trigger] origins[k]).0,
            origins[k].1,
        ) > 0 by {
            let c = origins[k];
            assert(is_origin(map, rivers, targets, ocean, range, volume_threshold, c.0, c.1));
            if k < j - 1 {
                assert(stages[j - 1].at(c.0, c.1) > 0);
            }
        }
    }
}

/// Every cell from which a lake is flooded is under water in the end, before
/// the small lakes are dried up, and so is every cell that held water from the start.
pub proof fn lemma_origins_under_water(
    map: Grid,
    rivers: Grid,
    targets: Seq<Vec<(usize, usize)>>,
    ocean: int,
    range: int,
    volume_threshold: int,
    origins: Seq<(int, int)>,
    stages: Seq<Grid>,
    x: int,
    y: int,
)
    requires
        range >= 1,
        lake_stages(map, rivers, targets, ocean, range, volume_threshold, origins, stages),
        map.contains(x, y),
        is_origin(map, rivers, targets, ocean, range, volume_threshold, x, y) || is_water(
            map,
            ocean,
            range,
            x,
            y,
        ),
    ensures
        is_wet(stages[stages.len() - 1], x, y),
{
    lemma_stage_holds(
        map,
        rivers,
        targets,
        ocean,
        range,
        volume_threshold,
        origins,
        stages,
        origins.len() as int,
    );
    if is_origin(map, rivers, targets, ocean, range, volume_threshold, x, y) {
        let k = choose|k: int| 0 <= k < origins.len() && #[trigger] origins[k] == (x, y);
        assert(stages[origins.len() as int].at(origins[k].0, origins[k].1) > 0);
    } else {
        lemma_water_stays(
            map,
            rivers,
            targets,
            ocean,
            range,
            volume_threshold,
            origins,
            stages,
            origins.len() as int,
            x,
            y,
        );
    }
}

/// A cell that holds water from the start holds water in every stage.
proof fn lemma_water_stays(
    map: Grid,
    rivers: Grid,
    targets: Seq<Vec<(usize, usize)>>,
    ocean: int,
    range: int,
    volume_threshold: int,
    origins: Seq<(int, int)>,
    stages: Seq<Grid>,
    j: int,
    x: int,
    y: int,
)
    requires
        range >= 1,
        lake_stages(map, rivers, targets, ocean, range, volume_threshold, origins, stages),
        0 <= j <= origins.len(),
        map.contains(x, y),
        is_water(map, ocean, range, x, y),
    ensures
        stages[j].at(x, y) > 0,
    decreases j,
{
    if j > 0 {
        lemma_water_stays(
            map,
            rivers,
            targets,
            ocean,
            range,
            volume_threshold,
            origins,
            stages,
            j - 1,
            x,
            y,
        );
        lemma_stage_holds(
            map,
            rivers,
            targets,
            ocean,
            range,
            volume_threshold,
            origins,
            stages,
            j - 1,
        );
        let o = origins[j - 1];
        assert(is_origin(map, rivers, targets, ocean, range, volume_threshold, o.0, o.1));
        assert(flooded(map, targets, stages[j - 1], o.0, o.1, stages[j - 1 + 1]));
        lemma_flooded_keeps(map, targets, stages[j - 1], o.0, o.1, stages[j]);
    }
}

/// Marks the cells that hold water from the start, and lists the cells from
/// which lakes are flooded.
fn water_and_origins(
    map: &Grid,
    rivers: &Grid,
    cell_targets: &Vec<Vec<(usize, usize)>>,
    ocean: i64,
    range: usize,
    volume_threshold: i64,
) -> (out: (Grid, Vec<Point>))
    requires
        rivers.same_size(map),
        is_flow_field(cell_targets@, *map),
        1 <= range < map.spec_width(),
        range < map.spec_height(),
    ensures
        out.0.same_size(map),
        forall|x: int, y: int|
            map.contains(x, y) ==> #[trigger] out.0.at(x, y) == (if is_water(
                *map,
                ocean as int,
                range as int,
                x,
                y,
            ) {
                1int
            } else {
                0int
            }),
        forall|k: int|
            0 <= k < out.1@.len() ==> is_origin(
                *map,
                *rivers,
                cell_targets@,
                ocean as int,
                range as int,
                volume_threshold as int,
                (#[trigger] out.1@[k]).x as int,
                out.1@[k].y as int,
            ),
        forall|x: int, y: int| #[trigger]
            is_origin(
                *map,
                *rivers,
                cell_targets@,
                ocean as int,
                range as int,
                volume_threshold as int,
                x,
                y,
            ) ==> exists|k: int|
                0 <= k < out.1@.len() && (#[trigger] out.1@[k]).x == x && out.1@[k].y == y,
        forall|i: int, k: int|
            0 <= i < k < out.1@.len() ==> comes_before(
                ((#[trigger] out.1@[i]).x as int, out.1@[i].y as int),
                ((#[trigger] out.1@[k]).x as int, out.1@[k].y as int),
            ),
{
    let width = map.width();
    let height = map.height();
    let mut lake_origins: Vec<Point> = Vec::new();
    let mut lakes = Grid::new(width, height);

    let mut x: usize = 0;
    while x < width
        invariant
            width == map.spec_width(),
            height == map.spec_height(),
            rivers.same_size(map),
            lakes.same_size(map),
            is_flow_field(cell_targets@, *map),
            1 <= range < width,
            range < height,
            x <= width,
            forall|px: int, py: int|
                map.contains(px, py) ==> #[trigger] lakes.at(px, py) == (if scanned(
                    px,
                    py,
                    x as int,
                    0,
                ) && is_water(*map, ocean as int, range as int, px, py) {
                    1int
                } else {
                    0int
                }),
            forall|k: int|
                0 <= k < lake_origins@.len() ==> is_origin(
                    *map,
                    *rivers,
                    cell_targets@,
                    ocean as int,
                    range as int,
                    volume_threshold as int,
                    (#[trigger] lake_origins@[k]).x as int,
                    lake_origins@[k].y as int,
                ) && scanned(lake_origins@[k].x as int, lake_origins@[k].y as int, x as int, 0),
            forall|px: int, py: int| #[trigger]
                is_origin(
                    *map,
                    *rivers,
                    cell_targets@,
                    ocean as int,
                    range as int,
                    volume_threshold as int,
                    px,
                    py,
                ) && scanned(px, py, x as int, 0) ==> exists|k: int|
                    0 <= k < lake_origins@.len() && (#[trigger] lake_origins@[k]).x == px
                        && lake_origins@[k].y == py,
            forall|i: int, k: int|
                0 <= i < k < lake_origins@.len() ==> comes_before(
                    ((#[trigger] lake_origins@[i]).x as int, lake_origins@[i].y as int),
                    ((#[trigger] lake_origins@[k]).x as int, lake_origins@[k].y as int),
                ),
        decreases width - x,
    {
        let mut y: usize = 0;
        while y < height
            invariant
                width == map.spec_width(),
                height == map.spec_height(),
                rivers.same_size(map),
                lakes.same_size(map),
                is_flow_field(cell_targets@, *map),
                1 <= range < width,
                range < height,
                x < width,
                y <= height,
                forall|px: int, py: int|
                    map.contains(px, py) ==> #[trigger] lakes.at(px, py) == (if scanned(
                        px,
                        py,
                        x as int,
                        y as int,
                    ) && is_water(*map, ocean as int, range as int, px, py) {
                        1int
                    } else {
                        0int
                    }),
                forall|k: int|
                    0 <= k < lake_origins@.len() ==> is_origin(
                        *map,
                        *rivers,
                        cell_targets@,
                        ocean as int,
                        range as int,
                        volume_threshold as int,
                        (#[trigger] lake_origins@[k]).x as int,
                        lake_origins@[k].y as int,
                    ) && scanned(
                        lake_origins@[k].x as int,
                        lake_origins@[k].y as int,
                        x as int,
                        y as int,
                    ),
                forall|px: int, py: int| #[trigger]
                    is_origin(
                        *map,
                        *rivers,
                        cell_targets@,
                        ocean as int,
                        range as int,
                        volume_threshold as int,
                        px,
                        py,
                    ) && scanned(px, py, x as int, y as int) ==> exists|k: int|
                        0 <= k < lake_origins@.len() && (#[trigger] lake_origins@[k]).x == px
                            && lake_origins@[k].y == py,
                forall|i: int, k: int|
                    0 <= i < k < lake_origins@.len() ==> comes_before(
                        ((#[trigger] lake_origins@[i]).x as int, lake_origins@[i].y as int),
                        ((#[trigger] lake_origins@[k]).x as int, lake_origins@[k].y as int),
                    ),
            decreases height - y,
        {
            let z = map.get(x, y);
            let target = cell_targets[x][y];
            if z < ocean || x < range || x >= width - range || y < range || y >= height - range {
                lakes.set(x, y, 1);
            } else if target.0 == x && target.1 == y && rivers.get(x, y) > volume_threshold {
                let ghost before = lake_origins@;
                lake_origins.push(Point { x, y, z });
                proof {
                    assert forall|px: int, py: int| #[trigger]
                        is_origin(
                            *map,
                            *rivers,
                            cell_targets@,
                            ocean as int,
                            range as int,
                            volume_threshold as int,
                            px,
                            py,
                        ) && scanned(px, py, x as int, y + 1) implies exists|k: int|
                        0 <= k < lake_origins@.len() && (#[trigger] lake_origins@[k]).x == px
                            && lake_origins@[k].y == py by {
                        if px == x && py == y {
                            assert(lake_origins@[before.len() as int].x == x);
                        } else {
                            let k = choose|k: int|
                                0 <= k < before.len() && (#[trigger] before[k]).x == px
                                    && before[k].y == py;
                            assert(lake_origins@[k] == before[k]);
                        }
                    }
                }
            }
            y += 1;
        }
        x += 1;
    }
    proof {
        assert forall|px: int, py: int| #[trigger]
            is_origin(
                *map,
                *rivers,
                cell_targets@,
                ocean as int,
                range as int,
                volume_threshold as int,
                px,
                py,
            ) implies exists|k: int|
            0 <= k < lake_origins@.len() && (#[trigger] lake_origins@[k]).x == px
                && lake_origins@[k].y == py by {
            assert(map.contains(px, py));
            assert(scanned(px, py, width as int, 0));
            let k = choose|k: int|
                0 <= k < lake_origins@.len() && (#[trigger] lake_origins@[k]).x == px
                    && lake_origins@[k].y == py;
            assert(lake_origins@[k].x == px);
        }
    }
    let out = (lakes, lake_origins);
    proof {
        assert forall|px: int, py: int| #[trigger]
            is_origin(
                *map,
                *rivers,
                cell_targets@,
                ocean as int,
                range as int,
                volume_threshold as int,
                px,
                py,
            ) implies exists|k: int|
            0 <= k < out.1@.len() && (#[trigger] out.1@[k]).x == px && out.1@[k].y == py by {
            let k = choose|k: int|
                0 <= k < lake_origins@.len() && (#[trigger] lake_origins@[k]).x == px
                    && lake_origins@[k].y == py;
            assert(out.1@[k].x == px);
        }
    }
    out
}

/// Finds the lakes of the terrain `map` and returns a grid that shows the
/// surface of each lake in every cell of the lake, and zero in every other cell.
///
/// Water from the start are the cells below `ocean` and those closer than
/// `range` to an edge of the map. A lake is flooded from every cell without
/// water that is its own flow target and in which `rivers` shows more than
/// `volume_threshold`; the cells are taken column by column, each flood as
/// `flood_lake` describes it. Of the lakes that result, those of `min_area`
/// cells or fewer are dried up, and every other one is filled to the height of
/// its highest cell: the rim of the basin that it lies in.
pub fn lake_map(
    map: &Grid,
    rivers: &Grid,
    cell_targets: &Vec<Vec<(usize, usize)>>,
    ocean: i64,
    range: usize,
    volume_threshold: i64,
    min_area: usize,
) -> (lakes: Grid)
    requires
        rivers.same_size(map),
        is_flow_field(cell_targets@, *map),
        1 <= range < map.spec_width(),
        range < map.spec_height(),
    ensures
        lakes.same_size(map),
        exists|origins: Seq<(int, int)>, stages: Seq<Grid>| #[trigger]
            lake_stages(
                *map,
                *rivers,
                cell_targets@,
                ocean as int,
                range as int,
                volume_threshold as int,
                origins,
                stages,
            ) && depths_assigned(
                *map,
                stages[stages.len() - 1],
                ocean as int,
                min_area as int,
                lakes,
            ),
{
    let (mut lakes, lake_origins) = water_and_origins(
        map,
        rivers,
        cell_targets,
        ocean,
        range,
        volume_threshold,
    );
    let ghost origins = Seq::new(
        lake_origins@.len(),
        |k: int| (lake_origins@[k].x as int, lake_origins@[k].y as int),
    );
    let ghost mut stages: Seq<Grid> = seq![lakes];
    proof {
        assert forall|x: int, y: int| #[trigger]
            is_origin(
                *map,
                *rivers,
                cell_targets@,
                ocean as int,
                range as int,
                volume_threshold as int,
                x,
                y,
            ) implies exists|k: int| 0 <= k < origins.len() && #[trigger] origins[k] == (x, y) by {
            let k = choose|k: int|
                0 <= k < lake_origins@.len() && (#[trigger] lake_origins@[k]).x == x
                    && lake_origins@[k].y == y;
            assert(origins[k] == (x, y));
        }
    }

    let mut i: usize = 0;
    while i < lake_origins.len()
        invariant
            lakes.same_size(map),
            is_flow_field(cell_targets@, *map),
            1 <= range < map.spec_width(),
            range < map.spec_height(),
            i <= lake_origins@.len(),
            origins.len() == lake_origins@.len(),
            forall|k: int|
                0 <= k < origins.len() ==> #[trigger] origins[k] == (
                    lake_origins@[k].x as int,
                    lake_origins@[k].y as int,
                ) && map.contains(origins[k].0, origins[k].1),
            stages.len() == i + 1,
            stages[i as int] == lakes,
            forall|k: int|
                0 <= k < i ==> #[trigger] flooded(
                    *map,
                    cell_targets@,
                    stages[k],
                    origins[k].0,
                    origins[k].1,
                    stages[k + 1],
                ),
            forall|px: int, py: int| lakes.contains(px, py) ==> #[trigger] lakes.at(px, py) >= 0,
            forall|px: int, py: int|
                lakes.contains(px, py) && at_border(
                    map.spec_width() as int,
                    map.spec_height() as int,
                    range as int,
                    px,
                    py,
                ) ==> #[trigger] lakes.at(px, py) > 0,
            stages[0].same_size(map),
            forall|x: int, y: int|
                map.contains(x, y) ==> #[trigger] stages[0].at(x, y) == (if is_water(
                    *map,
                    ocean as int,
                    range as int,
                    x,
                    y,
                ) {
                    1int
                } else {
                    0int
                }),
        decreases lake_origins@.len() - i,
    {
        let origin = lake_origins[i];
        let ghost before = stages;
        proof {
            assert(origins[i as int] == (origin.x as int, origin.y as int));
        }
        flood_lake(map, cell_targets, &mut lakes, origin.x, origin.y);
        proof {
            stages = stages.push(lakes);
            assert forall|k: int| 0 <= k < i + 1 implies #[trigger] flooded(
                *map,
                cell_targets@,
                stages[k],
                origins[k].0,
                origins[k].1,
                stages[k + 1],
            ) by {
                assert(stages[k] == before[k]);
                if k < i {
                    assert(stages[k + 1] == before[k + 1]);
                    assert(flooded(
                        *map,
                        cell_targets@,
                        before[k],
                        origins[k].0,
                        origins[k].1,
                        before[k + 1],
                    ));
                }
            }
        }
        i += 1;
    }

    let ghost last = lakes;
    level_lakes(map, &mut lakes, ocean, min_area);
    proof {
        assert(lake_stages(
            *map,
            *rivers,
            cell_targets@,
            ocean as int,
            range as int,
            volume_threshold as int,
            origins,
            stages,
        ));
        assert(stages[stages.len() - 1] == last);
    }
    lakes
}

} // verus!
