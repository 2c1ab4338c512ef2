//! Flow targets: for every cell the lowest cell within reach, to which its water drains.

use crate::grid::Grid;
use crate::queue::key_lt;
use vstd::prelude::*;

verus! {

/// Whether the offset `(dx, dy)` lies within the distance `range`.
#[verifier::opaque]
pub open spec fn in_disc(range: int, dx: int, dy: int) -> bool {
    dx * dx + dy * dy <= range * range
}

/// Offsets within the distance `range` are no longer than `range` along either axis,
/// and the offset zero is within every distance.
pub proof fn lemma_disc_bounds(range: int, dx: int, dy: int)
    requires
        range >= 0,
    ensures
        in_disc(range, dx, dy) ==> -range <= dx <= range && -range <= dy <= range,
        in_disc(range, 0, 0),
{
    reveal(in_disc);
    assert(0 <= range * range) by (nonlinear_arith);
    if in_disc(range, dx, dy) {
        assert(-range <= dx <= range) by (nonlinear_arith)
            requires
                dx * dx + dy * dy <= range * range,
                range >= 0,
        ;
        assert(-range <= dy <= range) by (nonlinear_arith)
            requires
                dx * dx + dy * dy <= range * range,
                range >= 0,
        ;
    }
}

/// Whether the cell `(px, py)` is a cell of `map` within the distance `range` of `(x, y)`.
pub open spec fn within_reach(map: Grid, range: int, x: int, y: int, px: int, py: int) -> bool {
    map.contains(px, py) && in_disc(range, px - x, py - y)
}

/// Whether water prefers the cell `p` to the cell `q`: the lower cell, and of two
/// cells of one height the one in the lower column, then in the lower row.
pub open spec fn lower(map: Grid, px: int, py: int, qx: int, qy: int) -> bool {
    key_lt(map.at(px, py) as int, px, py, map.at(qx, qy) as int, qx, qy)
}

/// Whether `(tx, ty)` is the cell within reach of `(x, y)` that water prefers to all others.
pub open spec fn is_lowest(map: Grid, range: int, x: int, y: int, tx: int, ty: int) -> bool {
    &&& within_reach(map, range, x, y, tx, ty)
    &&& forall|px: int, py: int| #[trigger]
        within_reach(map, range, x, y, px, py) ==> !lower(map, px, py, tx, ty)
}

/// Whether some cell within reach of `(x, y)` is strictly lower than `(x, y)`.
pub open spec fn has_lower(map: Grid, range: int, x: int, y: int) -> bool {
    exists|px: int, py: int| #[trigger]
        within_reach(map, range, x, y, px, py) && map.at(px, py) < map.at(x, y)
}

/// Whether `(tx, ty)` is the flow target of `(x, y)`: the cell itself where no
/// cell within reach is strictly lower (a sink), else the preferred cell within reach.
pub open spec fn is_flow_target(map: Grid, range: int, x: int, y: int, tx: int, ty: int) -> bool {
    if has_lower(map, range, x, y) {
        is_lowest(map, range, x, y, tx, ty)
    } else {
        tx == x && ty == y
    }
}

/// The target that the flow field `targets` records for the cell `(x, y)`.
pub open spec fn target_of(targets: Seq<Vec<(usize, usize)>>, x: int, y: int) -> (int, int) {
    (targets[x]@[y].0 as int, targets[x]@[y].1 as int)
}

/// Whether `targets` has one column for each column of `map`, each with one entry
/// for each row, and every entry names a cell of `map`.
pub open spec fn is_flow_field(targets: Seq<Vec<(usize, usize)>>, map: Grid) -> bool {
    &&& targets.len() == map.spec_width()
    &&& forall|x: int| 0 <= x < targets.len() ==> (#[trigger] targets[x])@.len() == map.spec_height()
    &&& forall|x: int, y: int|
        map.contains(x, y) ==> map.contains(
            (#[trigger] target_of(targets, x, y)).0,
            target_of(targets, x, y).1,
        )
}

/// Whether an offset is one that `points` lists: within the distance `range`, and
/// outside the reach of the left neighbour where `skip_left` is set, outside the
/// reach of the upper neighbour where `skip_up` is set.
pub open spec fn rest_offset(range: int, skip_left: bool, skip_up: bool, dx: int, dy: int) -> bool {
    &&& in_disc(range, dx, dy)
    &&& skip_left ==> !in_disc(range, dx + 1, dy)
    &&& skip_up ==> !in_disc(range, dx, dy + 1)
}

/// Whether the offset `a` comes before the offset `b`: by column, then by row.
pub open spec fn offset_lt(a: (isize, isize), b: (isize, isize)) -> bool {
    a.0 < b.0 || (a.0 == b.0 && a.1 < b.1)
}

/// The flow target of a cell is determined by the heights alone.
pub proof fn lemma_flow_target_unique(
    map: Grid,
    range: int,
    x: int,
    y: int,
    ax: int,
    ay: int,
    bx: int,
    by: int,
)
    requires
        is_flow_target(map, range, x, y, ax, ay),
        is_flow_target(map, range, x, y, bx, by),
    ensures
        ax == bx,
        ay == by,
{
    if has_lower(map, range, x, y) {
        assert(within_reach(map, range, x, y, ax, ay));
        assert(within_reach(map, range, x, y, bx, by));
    }
}

/// The flow target of a cell is as low as the lowest cell within reach of it.
pub proof fn lemma_flow_target_is_minimum(
    map: Grid,
    range: int,
    x: int,
    y: int,
    tx: int,
    ty: int,
    px: int,
    py: int,
)
    requires
        range >= 0,
        map.contains(x, y),
        is_flow_target(map, range, x, y, tx, ty),
        within_reach(map, range, x, y, px, py),
    ensures
        within_reach(map, range, x, y, tx, ty),
        map.at(tx, ty) <= map.at(px, py),
{
    lemma_disc_bounds(range, 0, 0);
    if has_lower(map, range, x, y) {
        assert(!lower(map, px, py, tx, ty));
    } else {
        assert(!(map.at(px, py) < map.at(x, y)));
    }
}

/// A cell is its own flow target exactly when no cell within reach is strictly
/// lower; any other flow target is strictly lower than the cell.
pub proof fn lemma_flow_descends(map: Grid, range: int, x: int, y: int, tx: int, ty: int)
    requires
        range >= 0,
        map.contains(x, y),
        is_flow_target(map, range, x, y, tx, ty),
    ensures
        (tx == x && ty == y) <==> !has_lower(map, range, x, y),
        !(tx == x && ty == y) ==> map.at(tx, ty) < map.at(x, y),
        map.contains(tx, ty),
{
    if has_lower(map, range, x, y) {
        let (px, py) = choose|px: int, py: int| #[trigger]
            within_reach(map, range, x, y, px, py) && map.at(px, py) < map.at(x, y);
        assert(!lower(map, px, py, tx, ty));
    }
}

/// Whether `(dx, dy)` lies within the distance `range`.
pub fn in_range(range: usize, dx: isize, dy: isize) -> (b: bool)
    requires
        range * range * 8 <= isize::MAX,
    ensures
        b == in_disc(range as int, dx as int, dy as int),
{
    proof {
        lemma_disc_bounds(range as int, dx as int, dy as int);
        assert(range <= range * range || range == 0) by (nonlinear_arith);
    }
    let r = range as isize;
    if dx < -r || dx > r || dy < -r || dy > r {
        false
    } else {
        proof {
            reveal(in_disc);
            assert(0 <= dx * dx <= r * r) by (nonlinear_arith)
                requires
                    -r <= dx <= r,
            ;
            assert(0 <= dy * dy <= r * r) by (nonlinear_arith)
                requires
                    -r <= dy <= r,
            ;
        }
        dx * dx + dy * dy <= r * r
    }
}

/// Whether water prefers the cell `p` to the cell `q`.
fn is_lower(map: &Grid, p: (usize, usize), q: (usize, usize)) -> (b: bool)
    requires
        map.contains(p.0 as int, p.1 as int),
        map.contains(q.0 as int, q.1 as int),
    ensures
        b == lower(*map, p.0 as int, p.1 as int, q.0 as int, q.1 as int),
{
    let hp = map.get(p.0, p.1);
    let hq = map.get(q.0, q.1);
    hp < hq || (hp == hq && (p.0 < q.0 || (p.0 == q.0 && p.1 < q.1)))
}

/// Whether `positions` lists the offset `(dx, dy)`.
pub open spec fn listed(positions: Seq<(isize, isize)>, dx: isize, dy: isize) -> bool {
    positions.contains((dx, dy))
}

/// Whether the offsets come in their order: by column, then by row.
pub open spec fn sorted_offsets(positions: Seq<(isize, isize)>) -> bool {
    forall|i: int, k: int|
        0 <= i < k < positions.len() ==> offset_lt(#[trigger] positions[i], #[trigger] positions[k])
}

/// Finds the offsets of at most `range` columns and rows that satisfy the
/// property `inside`, and lists them by column and then by row.
pub fn points<F: Fn(isize, isize) -> bool>(range: usize, inside: F) -> (positions: Vec<
    (isize, isize),
>)
    requires
        (range + 1) * (range + 1) * 8 <= isize::MAX,
        forall|dx: isize, dy: isize|
            -range <= dx <= range && -range <= dy <= range ==> #[trigger] call_requires(
                inside,
                (dx, dy),
            ),
    ensures
        sorted_offsets(positions@),
        forall|k: int|
            0 <= k < positions@.len() ==> -range <= (#[trigger] positions@[k]).0 <= range && -range
                <= positions@[k].1 <= range,
        forall|dx: isize, dy: isize|
            -range <= dx <= range && -range <= dy <= range ==> call_ensures(
                inside,
                (dx, dy),
                #[trigger] listed(positions@, dx, dy),
            ),
{
    proof {
        assert(range * range * 8 <= isize::MAX && range * 8 < isize::MAX) by (nonlinear_arith)
            requires
                (range + 1) * (range + 1) * 8 <= isize::MAX,
        ;
    }
    let mut positions: Vec<(isize, isize)> = Vec::with_capacity(range * range);
    let range_i = range as isize;
    let mut x: isize = -range_i;
    while x <= range_i
        invariant
            range_i == range,
            range * 8 < isize::MAX,
            -range_i <= x <= range_i + 1,
            forall|dx: isize, dy: isize|
                -range <= dx <= range && -range <= dy <= range ==> #[trigger] call_requires(
                    inside,
                    (dx, dy),
                ),
            sorted_offsets(positions@),
            forall|k: int|
                0 <= k < positions@.len() ==> -range <= (#[trigger] positions@[k]).0 < x && -range
                    <= positions@[k].1 <= range,
            forall|dx: isize, dy: isize|
                -range <= dx < x && -range <= dy <= range ==> call_ensures(
                    inside,
                    (dx, dy),
                    #[trigger] listed(positions@, dx, dy),
                ),
        decreases range_i + 1 - x,
    {
        let mut y: isize = -range_i;
        while y <= range_i
            invariant
                range_i == range,
                range * 8 < isize::MAX,
                -range_i <= x <= range_i,
                -range_i <= y <= range_i + 1,
                forall|dx: isize, dy: isize|
                    -range <= dx <= range && -range <= dy <= range ==> #[trigger] call_requires(
                        inside,
                        (dx, dy),
                    ),
                sorted_offsets(positions@),
                forall|k: int|
                    0 <= k < positions@.len() ==> -range <= (#[trigger] positions@[k]).0 <= x
                        && -range <= positions@[k].1 <= range && (positions@[k].0 < x
                        || positions@[k].1 < y),
                forall|dx: isize, dy: isize|
                    -range <= dx <= x && -range <= dy <= range && (dx < x || dy < y)
                        ==> call_ensures(inside, (dx, dy), #[trigger] listed(positions@, dx, dy)),
            decreases range_i + 1 - y,
        {
            let ghost before = positions@;
            let keep = inside(x, y);
            if keep {
                positions.push((x, y));
            }
            proof {
                assert(!listed(before, x, y)) by {
                    if before.contains((x, y)) {
                        let i = choose|i: int| 0 <= i < before.len() && before[i] == (x, y);
                        assert(before[i].0 < x || before[i].1 < y);
                    }
                }
                assert forall|dx: isize, dy: isize|
                    -range <= dx <= x && -range <= dy <= range && (dx < x || dy < y + 1)
                    implies call_ensures(inside, (dx, dy), #[trigger] listed(positions@, dx, dy)) by {
                    if keep {
                        assert(positions@[before.len() as int] == (x, y));
                    }
                    if listed(positions@, dx, dy) {
                        let i = choose|i: int| 0 <= i < positions@.len() && positions@[i] == (dx, dy);
                        if i < before.len() {
                            assert(before[i] == (dx, dy));
                            assert(listed(before, dx, dy));
                        }
                    }
                    if listed(before, dx, dy) {
                        let i = choose|i: int| 0 <= i < before.len() && before[i] == (dx, dy);
                        assert(positions@[i] == (dx, dy));
                    }
                    if dx == x && dy == y {
                        assert(listed(positions@, dx, dy) == keep);
                    } else {
                        assert(listed(positions@, dx, dy) == listed(before, dx, dy));
                    }
                }
            }
            y += 1;
        }
        x += 1;
    }
    positions
}

/// Lists the offsets within the distance `range`, by column and then by row.
///
/// With `skip_left` the offsets that the cell one column to the left reaches
/// too are left out, with `skip_up` those that the cell one row up reaches.
fn rest_points_for(range: usize, skip_left: bool, skip_up: bool) -> (positions: Vec<(isize, isize)>)
    requires
        (range + 1) * (range + 1) * 8 <= isize::MAX,
    ensures
        lists_rest(positions@, range as int, skip_left, skip_up),
{
    proof {
        assert(range * range * 8 <= isize::MAX && range * 8 < isize::MAX) by (nonlinear_arith)
            requires
                (range + 1) * (range + 1) * 8 <= isize::MAX,
        ;
    }
    let inside = |dx: isize, dy: isize| -> (b: bool)
        requires
            -range <= dx <= range,
            -range <= dy <= range,
            range * range * 8 <= isize::MAX,
            range * 8 < isize::MAX,
        ensures
            b == rest_offset(range as int, skip_left, skip_up, dx as int, dy as int),
        {
            in_range(range, dx, dy) && !(skip_left && in_range(range, dx + 1, dy)) && !(skip_up
                && in_range(range, dx, dy + 1))
        };
    let positions = points(range, inside);
    proof {
        assert forall|k: int| 0 <= k < positions@.len() implies rest_offset(
            range as int,
            skip_left,
            skip_up,
            (#[trigger] positions@[k]).0 as int,
            positions@[k].1 as int,
        ) by {
            let p = positions@[k];
            assert(listed(positions@, p.0, p.1));
            assert(call_ensures(inside, (p.0, p.1), listed(positions@, p.0, p.1)));
        }
        assert forall|dx: int, dy: int| #[trigger]
            rest_offset(range as int, skip_left, skip_up, dx, dy) implies exists|k: int|
            0 <= k < positions@.len() && #[trigger] positions@[k] == (dx as isize, dy as isize)
                && positions@[k].0 == dx && positions@[k].1 == dy by {
            lemma_disc_bounds(range as int, dx, dy);
            let px = dx as isize;
            let py = dy as isize;
            assert(call_ensures(inside, (px, py), listed(positions@, px, py)));
            assert(listed(positions@, px, py));
            let k = choose|k: int| 0 <= k < positions@.len() && positions@[k] == (px, py);
            assert(positions@[k] == (dx as isize, dy as isize));
        }
    }
    positions
}

/// Whether the offset with the index `k` leads from `(x, y)` to a cell of `map`.
pub open spec fn leads_in(map: Grid, x: int, y: int, positions: Seq<(isize, isize)>, k: int) -> bool {
    0 <= k < positions.len() && map.contains(x + positions[k].0, y + positions[k].1)
}

/// The height of the cell that the offset with the index `k` leads to.
pub open spec fn height_at(map: Grid, x: int, y: int, positions: Seq<(isize, isize)>, k: int) -> i64 {
    map.at(x + positions[k].0, y + positions[k].1)
}

/// Whether the offset with the index `k` leads to the first of the lowest
/// cells: no offset leads to a lower cell of the map, and none before it to a
/// cell as low.
pub open spec fn is_first_lowest(
    map: Grid,
    x: int,
    y: int,
    positions: Seq<(isize, isize)>,
    k: int,
) -> bool {
    &&& leads_in(map, x, y, positions, k)
    &&& forall|j: int| #[trigger]
        leads_in(map, x, y, positions, j) ==> height_at(map, x, y, positions, j) >= height_at(
            map,
            x,
            y,
            positions,
            k,
        )
    &&& forall|j: int| #[trigger]
        leads_in(map, x, y, positions, j) && j < k ==> height_at(map, x, y, positions, j)
            > height_at(map, x, y, positions, k)
}

/// Finds the lowest neighbor around a point on the map using the relative
/// coordinates of all neighbors.
///
/// Of several neighbours of the lowest height the one listed first is found;
/// the point itself is found only if it is listed, or if no neighbour is. With
/// `check_coordinates` offsets that lead off the map are passed over; without
/// it every offset must lead to a cell of the map.
#[inline]
pub fn next_target(
    map: &Grid,
    x: usize,
    y: usize,
    neighbor_positions: &[(isize, isize)],
    check_coordinates: bool,
) -> (target: (usize, usize))
    requires
        map.contains(x as int, y as int),
        forall|k: int|
            0 <= k < neighbor_positions@.len() ==> {
                let p = #[trigger] neighbor_positions@[k];
                if check_coordinates {
                    -isize::MAX / 2 <= p.0 <= isize::MAX / 2 && -isize::MAX / 2 <= p.1 <= isize::MAX
                        / 2
                } else {
                    map.contains(x + p.0, y + p.1)
                }
            },
    ensures
        map.contains(target.0 as int, target.1 as int),
        (forall|k: int| !#[trigger] leads_in(*map, x as int, y as int, neighbor_positions@, k))
            ==> target == (x, y),
        (exists|k: int| #[trigger] leads_in(*map, x as int, y as int, neighbor_positions@, k))
            ==> exists|k: int| #[trigger]
            is_first_lowest(*map, x as int, y as int, neighbor_positions@, k) && target.0 == x
                + neighbor_positions@[k].0 && target.1 == y + neighbor_positions@[k].1,
{
    let width = map.width();
    let height = map.height();
    proof {
        assert(width * 8 <= isize::MAX && height * 8 <= isize::MAX) by (nonlinear_arith)
            requires
                width * height * 8 <= isize::MAX,
                width > 0,
                height > 0,
        ;
    }
    let mut target = (x, y); // next x,y
    let mut found = false;
    let mut lowest: i64 = 0; // lowest z coordinate of neighbors
    let ghost mut best: int = 0;
    let mut i: usize = 0;
    while i < neighbor_positions.len()
        invariant
            width == map.spec_width(),
            height == map.spec_height(),
            width * 8 <= isize::MAX,
            height * 8 <= isize::MAX,
            map.contains(x as int, y as int),
            0 <= i <= neighbor_positions@.len(),
            forall|k: int|
                0 <= k < neighbor_positions@.len() ==> {
                    let p = #[trigger] neighbor_positions@[k];
                    if check_coordinates {
                        -isize::MAX / 2 <= p.0 <= isize::MAX / 2 && -isize::MAX / 2 <= p.1
                            <= isize::MAX / 2
                    } else {
                        map.contains(x + p.0, y + p.1)
                    }
                },
            map.contains(target.0 as int, target.1 as int),
            !found ==> target == (x, y) && forall|k: int|
                0 <= k < i ==> !#[trigger] leads_in(
                    *map,
                    x as int,
                    y as int,
                    neighbor_positions@,
                    k,
                ),
            found ==> 0 <= best < i && leads_in(*map, x as int, y as int, neighbor_positions@, best)
                && target.0 == x + neighbor_positions@[best].0 && target.1 == y
                + neighbor_positions@[best].1 && lowest == height_at(
                *map,
                x as int,
                y as int,
                neighbor_positions@,
                best,
            ),
            found ==> forall|j: int|
                0 <= j < i && #[trigger] leads_in(*map, x as int, y as int, neighbor_positions@, j)
                    ==> height_at(*map, x as int, y as int, neighbor_positions@, j) >= lowest,
            found ==> forall|j: int|
                0 <= j < best && #[trigger] leads_in(
                    *map,
                    x as int,
                    y as int,
                    neighbor_positions@,
                    j,
                ) ==> height_at(*map, x as int, y as int, neighbor_positions@, j) > lowest,
        decreases neighbor_positions@.len() - i,
    {
        let (dx, dy) = neighbor_positions[i];
        // absolute x,y coordinate of neighbors
        let px = x as isize + dx;
        let py = y as isize + dy;
        if !(check_coordinates && (px < 0 || px >= width as isize || py < 0 || py >= height as isize)) {
            proof {
                assert(leads_in(*map, x as int, y as int, neighbor_positions@, i as int));
            }
            // find lowest neighbor
            let h = map.get(px as usize, py as usize);
            if !found || h < lowest {
                lowest = h;
                target = (px as usize, py as usize);
                found = true;
                proof {
                    best = i as int;
                }
            }
        }
        i += 1;
    }
    proof {
        if found {
            assert(is_first_lowest(*map, x as int, y as int, neighbor_positions@, best));
        }
    }
    target
}

/// Whether `targets` has `width` columns of `height` entries each.
pub open spec fn has_shape(targets: Seq<Vec<(usize, usize)>>, width: int, height: int) -> bool {
    &&& targets.len() == width
    &&& forall|x: int| 0 <= x < targets.len() ==> (#[trigger] targets[x])@.len() == height
}

/// Whether `(x, y)` lies closer than `range` to an edge of a map of the given size.
pub open spec fn at_border(width: int, height: int, range: int, x: int, y: int) -> bool {
    x < range || x >= width - range || y < range || y >= height - range
}

/// Whether `targets` holds, for every cell before `(nx, ny)` in the order of
/// columns and then rows, the cell within reach that water prefers.
spec fn lowest_before(
    map: Grid,
    range: int,
    targets: Seq<Vec<(usize, usize)>>,
    nx: int,
    ny: int,
) -> bool {
    forall|x: int, y: int|
        map.contains(x, y) && (x < nx || (x == nx && y < ny)) ==> is_lowest(
            map,
            range,
            x,
            y,
            (#[trigger] target_of(targets, x, y)).0,
            target_of(targets, x, y).1,
        )
}

/// Whether `targets` holds the flow target of every cell before `(nx, ny)` and
/// the preferred cell within reach of every other cell.
spec fn resolved_before(
    map: Grid,
    range: int,
    targets: Seq<Vec<(usize, usize)>>,
    nx: int,
    ny: int,
) -> bool {
    forall|x: int, y: int|
        map.contains(x, y) ==> if x < nx || (x == nx && y < ny) {
            is_flow_target(
                map,
                range,
                x,
                y,
                (#[trigger] target_of(targets, x, y)).0,
                target_of(targets, x, y).1,
            )
        } else {
            is_lowest(map, range, x, y, target_of(targets, x, y).0, target_of(targets, x, y).1)
        }
}

/// Whether `positions` lists exactly the offsets that `rest_offset` admits, in
/// their order.
pub open spec fn lists_rest(
    positions: Seq<(isize, isize)>,
    range: int,
    skip_left: bool,
    skip_up: bool,
) -> bool {
    &&& sorted_offsets(positions)
    &&& forall|k: int|
        0 <= k < positions.len() ==> rest_offset(
            range,
            skip_left,
            skip_up,
            (#[trigger] positions[k]).0 as int,
            positions[k].1 as int,
        )
    &&& forall|dx: int, dy: int| #[trigger]
        rest_offset(range, skip_left, skip_up, dx, dy) ==> exists|k: int|
            0 <= k < positions.len() && #[trigger] positions[k] == (dx as isize, dy as isize)
                && positions[k].0 == dx && positions[k].1 == dy
}

fn set_target(targets: &mut Vec<Vec<(usize, usize)>>, x: usize, y: usize, t: (usize, usize))
    requires
        x < old(targets)@.len(),
        y < old(targets)@[x as int]@.len(),
    ensures
        final(targets)@.len() == old(targets)@.len(),
        forall|i: int|
            0 <= i < old(targets)@.len() ==> (#[trigger] final(targets)@[i])@.len() == old(
                targets,
            )@[i]@.len(),
        target_of(final(targets)@, x as int, y as int) == (t.0 as int, t.1 as int),
        forall|i: int, j: int|
            0 <= i < old(targets)@.len() && 0 <= j < old(targets)@[i]@.len() && (i != x || j != y)
                ==> #[trigger] target_of(final(targets)@, i, j) == target_of(old(targets)@, i, j),
{
    targets[x][y] = t;
}

/// In a list in order, water prefers the first of the lowest cells to every
/// other cell that the list leads to.
proof fn lemma_first_lowest_preferred(
    map: Grid,
    x: int,
    y: int,
    positions: Seq<(isize, isize)>,
    k: int,
    j: int,
)
    requires
        sorted_offsets(positions),
        is_first_lowest(map, x, y, positions, k),
        leads_in(map, x, y, positions, j),
    ensures
        !lower(
            map,
            x + positions[j].0,
            y + positions[j].1,
            x + positions[k].0,
            y + positions[k].1,
        ),
{
    assert(height_at(map, x, y, positions, j) >= height_at(map, x, y, positions, k));
    if j < k {
        assert(height_at(map, x, y, positions, j) > height_at(map, x, y, positions, k));
    } else if k < j {
        assert(offset_lt(positions[k], positions[j]));
    }
}

/// A scan of the whole disc, clipped to the map, finds the preferred cell within reach.
proof fn lemma_border_scan(
    map: Grid,
    range: int,
    x: int,
    y: int,
    positions: Seq<(isize, isize)>,
    bx: int,
    by: int,
)
    requires
        range >= 0,
        map.contains(x, y),
        lists_rest(positions, range, false, false),
        exists|k: int| #[trigger]
            is_first_lowest(map, x, y, positions, k) && bx == x + positions[k].0 && by == y
                + positions[k].1,
    ensures
        is_lowest(map, range, x, y, bx, by),
{
    let k = choose|k: int| #[trigger]
        is_first_lowest(map, x, y, positions, k) && bx == x + positions[k].0 && by == y
            + positions[k].1;
    assert(rest_offset(range, false, false, positions[k].0 as int, positions[k].1 as int));
    assert forall|px: int, py: int| #[trigger]
        within_reach(map, range, x, y, px, py) implies !lower(map, px, py, bx, by) by {
        assert(rest_offset(range, false, false, px - x, py - y));
        let j = choose|j: int|
            0 <= j < positions.len() && #[trigger] positions[j] == ((px - x) as isize, (py - y) as isize)
                && positions[j].0 == px - x && positions[j].1 == py - y;
        assert(leads_in(map, x, y, positions, j));
        lemma_first_lowest_preferred(map, x, y, positions, k, j);
    }
}

/// The whole disc holds the cell itself, so a scan of it finds a cell.
proof fn lemma_disc_leads_in(
    map: Grid,
    range: int,
    x: int,
    y: int,
    positions: Seq<(isize, isize)>,
)
    requires
        range >= 0,
        map.contains(x, y),
        lists_rest(positions, range, false, false),
    ensures
        exists|k: int| #[trigger] leads_in(map, x, y, positions, k),
{
    lemma_disc_bounds(range, 0, 0);
    assert(rest_offset(range, false, false, 0, 0));
    let k = choose|k: int|
        0 <= k < positions.len() && #[trigger] positions[k] == (0 as isize, 0 as isize)
            && positions[k].0 == 0 && positions[k].1 == 0;
    assert(leads_in(map, x, y, positions, k));
}

/// A scan of the offsets that the neighbours do not reach finds a cell within
/// reach that water prefers to the cell at each of these offsets.
proof fn lemma_inner_scan(
    map: Grid,
    range: int,
    x: int,
    y: int,
    positions: Seq<(isize, isize)>,
    skip_left: bool,
    skip_up: bool,
    bx: int,
    by: int,
)
    requires
        range >= 1,
        !at_border(map.spec_width() as int, map.spec_height() as int, range, x, y),
        lists_rest(positions, range, skip_left, skip_up),
        (forall|k: int| !#[trigger] leads_in(map, x, y, positions, k)) ==> bx == x && by == y,
        (exists|k: int| #[trigger] leads_in(map, x, y, positions, k)) ==> exists|k: int| #[trigger]
            is_first_lowest(map, x, y, positions, k) && bx == x + positions[k].0 && by == y
                + positions[k].1,
    ensures
        within_reach(map, range, x, y, bx, by),
        forall|dx: int, dy: int| #[trigger]
            rest_offset(range, skip_left, skip_up, dx, dy) ==> !lower(map, x + dx, y + dy, bx, by),
{
    lemma_disc_bounds(range, 0, 0);
    if exists|k: int| #[trigger] leads_in(map, x, y, positions, k) {
        let k = choose|k: int| #[trigger]
            is_first_lowest(map, x, y, positions, k) && bx == x + positions[k].0 && by == y
                + positions[k].1;
        assert(rest_offset(range, skip_left, skip_up, positions[k].0 as int, positions[k].1 as int));
        lemma_disc_bounds(range, positions[k].0 as int, positions[k].1 as int);
        assert forall|dx: int, dy: int| #[trigger]
            rest_offset(range, skip_left, skip_up, dx, dy) implies !lower(
            map,
            x + dx,
            y + dy,
            bx,
            by,
        ) by {
            lemma_disc_bounds(range, dx, dy);
            let j = choose|j: int|
                0 <= j < positions.len() && #[trigger] positions[j] == (dx as isize, dy as isize)
                    && positions[j].0 == dx && positions[j].1 == dy;
            assert(leads_in(map, x, y, positions, j));
            lemma_first_lowest_preferred(map, x, y, positions, k, j);
        }
    } else {
        assert forall|dx: int, dy: int| #[trigger]
            rest_offset(range, skip_left, skip_up, dx, dy) implies !lower(
            map,
            x + dx,
            y + dy,
            bx,
            by,
        ) by {
            lemma_disc_bounds(range, dx, dy);
            let j = choose|j: int|
                0 <= j < positions.len() && #[trigger] positions[j] == (dx as isize, dy as isize)
                    && positions[j].0 == dx && positions[j].1 == dy;
            assert(leads_in(map, x, y, positions, j));
        }
    }
}

/// The cell that beats the reusable targets of the two neighbours and every
/// offset that neither neighbour reaches is the preferred cell within reach.
proof fn lemma_reuse(
    map: Grid,
    range: int,
    x: int,
    y: int,
    use_left: bool,
    lx: int,
    ly: int,
    use_up: bool,
    ux: int,
    uy: int,
    bx: int,
    by: int,
)
    requires
        range >= 1,
        !at_border(map.spec_width() as int, map.spec_height() as int, range, x, y),
        use_left ==> is_lowest(map, range, x - 1, y, lx, ly),
        use_up ==> is_lowest(map, range, x, y - 1, ux, uy),
        within_reach(map, range, x, y, bx, by),
        use_left ==> !lower(map, lx, ly, bx, by),
        use_up ==> !lower(map, ux, uy, bx, by),
        forall|dx: int, dy: int| #[trigger]
            rest_offset(range, use_left, use_up, dx, dy) ==> !lower(map, x + dx, y + dy, bx, by),
    ensures
        is_lowest(map, range, x, y, bx, by),
{
    assert forall|px: int, py: int| #[trigger]
        within_reach(map, range, x, y, px, py) implies !lower(map, px, py, bx, by) by {
        let dx = px - x;
        let dy = py - y;
        if use_left && in_disc(range, dx + 1, dy) {
            assert(within_reach(map, range, x - 1, y, px, py));
            assert(!lower(map, px, py, lx, ly));
        } else if use_up && in_disc(range, dx, dy + 1) {
            assert(within_reach(map, range, x, y - 1, px, py));
            assert(!lower(map, px, py, ux, uy));
        } else {
            assert(rest_offset(range, use_left, use_up, dx, dy));
        }
    }
}

/// The preferred cell within reach gives the flow target: itself where it is
/// strictly lower than the cell, the cell where it is not.
proof fn lemma_target_from_lowest(map: Grid, range: int, x: int, y: int, kx: int, ky: int)
    requires
        range >= 0,
        map.contains(x, y),
        is_lowest(map, range, x, y, kx, ky),
    ensures
        map.at(kx, ky) < map.at(x, y) ==> is_flow_target(map, range, x, y, kx, ky),
        !(map.at(kx, ky) < map.at(x, y)) ==> is_flow_target(map, range, x, y, x, y),
{
    if map.at(kx, ky) < map.at(x, y) {
        assert(within_reach(map, range, x, y, kx, ky));
    } else {
        if has_lower(map, range, x, y) {
            let (px, py) = choose|px: int, py: int| #[trigger]
                within_reach(map, range, x, y, px, py) && map.at(px, py) < map.at(x, y);
            assert(!lower(map, px, py, kx, ky));
        }
    }
}

/// Finds the flow target for each position on the map and returns them in a
/// `Vec` of columns.
///
/// The flow target of a cell is the lowest cell within the distance `range` of
/// it, both measured between cell centres. Among cells of one height the one in
/// the lowest column wins, then the one in the lowest row; a cell with no
/// strictly lower cell within reach is its own target.
///
/// Away from the borders the targets of the left and the upper neighbour are
/// reused, so that only the offsets that neither of them reaches are compared.
pub fn find_targets(map: &Grid, range: usize) -> (targets: Vec<Vec<(usize, usize)>>)
    requires
        range >= 1,
        range < map.spec_width(),
        range < map.spec_height(),
    ensures
        is_flow_field(targets@, *map),
        forall|x: int, y: int|
            map.contains(x, y) ==> is_flow_target(
                *map,
                range as int,
                x,
                y,
                (#[trigger] target_of(targets@, x, y)).0,
                target_of(targets@, x, y).1,
            ),
{
    let width = map.width();
    let height = map.height();
    proof {
        assert((range + 1) * (range + 1) * 8 <= isize::MAX && width * 8 <= isize::MAX && height * 8
            <= isize::MAX) by (nonlinear_arith)
            requires
                width * height * 8 <= isize::MAX,
                range + 1 <= width,
                range + 1 <= height,
        ;
        assert(range * range * 8 <= isize::MAX) by (nonlinear_arith)
            requires
                (range + 1) * (range + 1) * 8 <= isize::MAX,
        ;
    }
    let mut targets = vec![vec![(0usize, 0usize); height]; width];

    // offsets to compare, for the four cases of what the neighbours cover
    let mut rest_points: Vec<Vec<(isize, isize)>> = Vec::new();
    rest_points.push(rest_points_for(range, false, false));
    rest_points.push(rest_points_for(range, true, false));
    rest_points.push(rest_points_for(range, false, true));
    rest_points.push(rest_points_for(range, true, true));

    let mut x: usize = 0;
    while x < width
        invariant
            width == map.spec_width(),
            height == map.spec_height(),
            width * 8 <= isize::MAX,
            height * 8 <= isize::MAX,
            range * range * 8 <= isize::MAX,
            1 <= range < width,
            range < height,
            0 <= x <= width,
            has_shape(targets@, width as int, height as int),
            rest_points@.len() == 4,
            lists_rest(rest_points@[0]@, range as int, false, false),
            lists_rest(rest_points@[1]@, range as int, true, false),
            lists_rest(rest_points@[2]@, range as int, false, true),
            lists_rest(rest_points@[3]@, range as int, true, true),
            lowest_before(*map, range as int, targets@, x as int, 0),
        decreases width - x,
    {
        let mut y: usize = 0;
        while y < height
            invariant
                width == map.spec_width(),
                height == map.spec_height(),
                width * 8 <= isize::MAX,
                height * 8 <= isize::MAX,
                range * range * 8 <= isize::MAX,
                1 <= range < width,
                range < height,
                0 <= x < width,
                0 <= y <= height,
                has_shape(targets@, width as int, height as int),
                rest_points@.len() == 4,
                lists_rest(rest_points@[0]@, range as int, false, false),
                lists_rest(rest_points@[1]@, range as int, true, false),
                lists_rest(rest_points@[2]@, range as int, false, true),
                lists_rest(rest_points@[3]@, range as int, true, true),
                lowest_before(*map, range as int, targets@, x as int, y as int),
            decreases height - y,
        {
            let best = if x < range || x >= width - range || y < range || y >= height - range {
                // close to a border the whole disc is compared, clipped to the map
                proof {
                    assert forall|k: int| 0 <= k < rest_points@[0]@.len() implies {
                        let p = #[trigger] rest_points@[0]@[k];
                        -isize::MAX / 2 <= p.0 <= isize::MAX / 2 && -isize::MAX / 2 <= p.1
                            <= isize::MAX / 2
                    } by {
                        let p = rest_points@[0]@[k];
                        assert(rest_offset(range as int, false, false, p.0 as int, p.1 as int));
                        lemma_disc_bounds(range as int, p.0 as int, p.1 as int);
                        assert(range <= range * range) by (nonlinear_arith)
                            requires
                                range >= 1,
                        ;
                    }
                }
                let found = next_target(map, x, y, rest_points[0].as_slice(), true);
                proof {
                    lemma_disc_leads_in(*map, range as int, x as int, y as int, rest_points@[0]@);
                    lemma_border_scan(
                        *map,
                        range as int,
                        x as int,
                        y as int,
                        rest_points@[0]@,
                        found.0 as int,
                        found.1 as int,
                    );
                }
                found
            } else {
                // check if the targets of the left and the upper neighbour can be used
                let left = targets[x - 1][y];
                let up = targets[x][y - 1];
                proof {
                    assert(is_lowest(
                        *map,
                        range as int,
                        x - 1,
                        y as int,
                        target_of(targets@, x - 1, y as int).0,
                        target_of(targets@, x - 1, y as int).1,
                    ));
                    assert(is_lowest(
                        *map,
                        range as int,
                        x as int,
                        y - 1,
                        target_of(targets@, x as int, y - 1).0,
                        target_of(targets@, x as int, y - 1).1,
                    ));
                }
                let use_left = in_range(
                    range,
                    left.0 as isize - x as isize,
                    left.1 as isize - y as isize,
                );
                let use_up = in_range(range, up.0 as isize - x as isize, up.1 as isize - y as isize);
                let mut rest_idx: usize = 0;
                if use_left {
                    rest_idx += 1;
                }
                if use_up {
                    rest_idx += 2;
                }
                proof {
                    assert(lists_rest(rest_points@[rest_idx as int]@, range as int, use_left, use_up));
                    assert forall|k: int| 0 <= k < rest_points@[rest_idx as int]@.len() implies {
                        let p = #[trigger] rest_points@[rest_idx as int]@[k];
                        map.contains(x + p.0, y + p.1)
                    } by {
                        let p = rest_points@[rest_idx as int]@[k];
                        assert(rest_offset(range as int, use_left, use_up, p.0 as int, p.1 as int));
                        lemma_disc_bounds(range as int, p.0 as int, p.1 as int);
                    }
                }
                // the lowest of the offsets that the neighbours did not reach
                let mut found = next_target(map, x, y, rest_points[rest_idx].as_slice(), false);
                let ghost scanned = found;
                if use_left && is_lower(map, left, found) {
                    found = left;
                }
                if use_up && is_lower(map, up, found) {
                    found = up;
                }
                proof {
                    lemma_inner_scan(
                        *map,
                        range as int,
                        x as int,
                        y as int,
                        rest_points@[rest_idx as int]@,
                        use_left,
                        use_up,
                        scanned.0 as int,
                        scanned.1 as int,
                    );
                    lemma_reuse(
                        *map,
                        range as int,
                        x as int,
                        y as int,
                        use_left,
                        left.0 as int,
                        left.1 as int,
                        use_up,
                        up.0 as int,
                        up.1 as int,
                        found.0 as int,
                        found.1 as int,
                    );
                }
                found
            };
            set_target(&mut targets, x, y, best);
            y += 1;
        }
        x += 1;
    }

    // a cell with nothing lower within reach keeps its water
    let mut x: usize = 0;
    while x < width
        invariant
            width == map.spec_width(),
            height == map.spec_height(),
            range >= 1,
            0 <= x <= width,
            has_shape(targets@, width as int, height as int),
            resolved_before(*map, range as int, targets@, x as int, 0),
        decreases width - x,
    {
        let mut y: usize = 0;
        while y < height
            invariant
                width == map.spec_width(),
                height == map.spec_height(),
                range >= 1,
                0 <= x < width,
                0 <= y <= height,
                has_shape(targets@, width as int, height as int),
                resolved_before(*map, range as int, targets@, x as int, y as int),
            decreases height - y,
        {
            let found = targets[x][y];
            proof {
                assert(is_lowest(
                    *map,
                    range as int,
                    x as int,
                    y as int,
                    target_of(targets@, x as int, y as int).0,
                    target_of(targets@, x as int, y as int).1,
                ));
                lemma_target_from_lowest(
                    *map,
                    range as int,
                    x as int,
                    y as int,
                    found.0 as int,
                    found.1 as int,
                );
            }
            if !(map.get(found.0, found.1) < map.get(x, y)) {
                set_target(&mut targets, x, y, (x, y));
            }
            y += 1;
        }
        x += 1;
    }
    proof {
        assert forall|x: int, y: int| map.contains(x, y) implies map.contains(
            (#[trigger] target_of(targets@, x, y)).0,
            target_of(targets@, x, y).1,
        ) by {
            lemma_flow_descends(
                *map,
                range as int,
                x,
                y,
                target_of(targets@, x, y).0,
                target_of(targets@, x, y).1,
            );
        }
    }
    targets
}

} // verus!
