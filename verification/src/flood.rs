//! Floods: how a lake spreads from a cell until it touches water.

use crate::flow::{is_flow_field, lower, target_of};
use crate::lake::adjacent;
use crate::grid::{scanned, Grid};
use crate::queue::{Point, PointQueue};
use crate::sums::{grid_sum, lemma_grid_sum_bounds, lemma_grid_sum_ext, lemma_grid_sum_point};
use vstd::multiset::*;
use vstd::prelude::*;

verus! {

/// A flood in progress: what each cell is marked with, whether the flood has
/// touched water, and whether it has run out of cells.
///
/// A cell is marked with a number above zero where it holds water, with zero
/// where it is dry, with -1 where the flood has reached it and with -2 where
/// the flood has spread on from it.
pub struct Flood {
    pub marks: Map<(int, int), int>,
    pub contact: bool,
    pub drained: bool,
}

/// Whether the flood has reached `(x, y)` and not yet spread on from it.
pub open spec fn is_front(map: Grid, marks: Map<(int, int), int>, x: int, y: int) -> bool {
    map.contains(x, y) && marks[(x, y)] == -1
}

/// Whether `(x, y)` is the cell that the flood spreads on from next: the lowest
/// that it has reached, and among those of one height the first by column and row.
pub open spec fn is_first_front(map: Grid, marks: Map<(int, int), int>, x: int, y: int) -> bool {
    &&& is_front(map, marks, x, y)
    &&& forall|qx: int, qy: int| #[trigger] is_front(map, marks, qx, qy) ==> !lower(map, qx, qy, x, y)
}

/// Whether the flood can spread on from any cell.
pub open spec fn has_front(map: Grid, marks: Map<(int, int), int>) -> bool {
    exists|x: int, y: int| #[trigger] is_front(map, marks, x, y)
}

/// The cell that the flood spreads on from next.
pub open spec fn first_front(map: Grid, marks: Map<(int, int), int>) -> (int, int) {
    choose|c: (int, int)| #[trigger] is_first_front(map, marks, c.0, c.1)
}

/// The flood after it has tried to spread to `(x, y)`: it has touched water
/// where the cell holds some, and has reached the cell where it was dry; once
/// it has touched water it spreads no more.
pub open spec fn touch(map: Grid, st: Flood, x: int, y: int) -> Flood {
    if st.contact || !map.contains(x, y) {
        st
    } else if st.marks[(x, y)] > 0 {
        Flood { marks: st.marks, contact: true, drained: st.drained }
    } else if st.marks[(x, y)] == 0 {
        Flood { marks: st.marks.insert((x, y), -1), contact: st.contact, drained: st.drained }
    } else {
        st
    }
}

/// The flood after it has spread on from one more cell: from the first cell
/// that it has reached, to the left, to the right, up, down and to the flow
/// target of that cell, in this order.
pub open spec fn pop_step(map: Grid, targets: Seq<Vec<(usize, usize)>>, st: Flood) -> Flood {
    if st.contact || st.drained {
        st
    } else if !has_front(map, st.marks) {
        Flood { marks: st.marks, contact: st.contact, drained: true }
    } else {
        let c = first_front(map, st.marks);
        let t = target_of(targets, c.0, c.1);
        let s0 = Flood { marks: st.marks.insert(c, -2), contact: st.contact, drained: st.drained };
        let s1 = touch(map, s0, c.0 - 1, c.1);
        let s2 = touch(map, s1, c.0 + 1, c.1);
        let s3 = touch(map, s2, c.0, c.1 - 1);
        let s4 = touch(map, s3, c.0, c.1 + 1);
        touch(map, s4, t.0, t.1)
    }
}

/// The marks of the cells of `lakes`.
pub open spec fn marks_of(lakes: Grid) -> Map<(int, int), int> {
    Map::new(|c: (int, int)| lakes.contains(c.0, c.1), |c: (int, int)| lakes.at(c.0, c.1) as int)
}

/// The flood that starts in the dry cell `(ox, oy)` of `lakes`, after it has
/// spread on from `n` cells.
pub open spec fn flood_after(
    map: Grid,
    targets: Seq<Vec<(usize, usize)>>,
    lakes: Grid,
    ox: int,
    oy: int,
    n: nat,
) -> Flood
    decreases n,
{
    if n == 0 {
        Flood { marks: marks_of(lakes).insert((ox, oy), -1), contact: false, drained: false }
    } else {
        pop_step(map, targets, flood_after(map, targets, lakes, ox, oy, (n - 1) as nat))
    }
}

/// What the cell `(x, y)` holds once the flood has ended: every cell that the
/// flood has reached holds water if the flood has touched water, and is dry if not.
pub open spec fn settled(st: Flood, x: int, y: int) -> int {
    if st.marks[(x, y)] < 0 {
        if st.contact {
            1
        } else {
            0
        }
    } else {
        st.marks[(x, y)]
    }
}

/// Whether `after` is `before` with a lake flooded from `(ox, oy)`: unchanged
/// where the cell is not dry, else what the flood leaves that starts in the cell
/// and spreads until it touches water or has no cell left to spread on from.
pub open spec fn flooded(
    map: Grid,
    targets: Seq<Vec<(usize, usize)>>,
    before: Grid,
    ox: int,
    oy: int,
    after: Grid,
) -> bool {
    &&& after.same_size(&before)
    &&& if before.at(ox, oy) != 0 {
        forall|x: int, y: int| before.contains(x, y) ==> #[trigger] after.at(x, y) == before.at(x, y)
    } else {
        exists|n: nat|
            {
                let st = #[trigger] flood_after(map, targets, before, ox, oy, n);
                (st.contact || st.drained) && forall|x: int, y: int|
                    before.contains(x, y) ==> #[trigger] after.at(x, y) == settled(st, x, y)
            }
    }
}

/// Only one cell can be the cell that the flood spreads on from next.
pub proof fn lemma_first_front(map: Grid, marks: Map<(int, int), int>, x: int, y: int)
    requires
        is_first_front(map, marks, x, y),
    ensures
        has_front(map, marks),
        first_front(map, marks) == (x, y),
{
    let c = (x, y);
    assert(is_first_front(map, marks, c.0, c.1));
    let d = first_front(map, marks);
    assert(is_first_front(map, marks, d.0, d.1));
    assert(is_front(map, marks, x, y));
    assert(is_front(map, marks, d.0, d.1));
}

/// A flood that has ended stays as it is.
pub proof fn lemma_flood_settles(
    map: Grid,
    targets: Seq<Vec<(usize, usize)>>,
    lakes: Grid,
    ox: int,
    oy: int,
    n: nat,
    m: nat,
)
    requires
        n <= m,
        flood_after(map, targets, lakes, ox, oy, n).contact || flood_after(
            map,
            targets,
            lakes,
            ox,
            oy,
            n,
        ).drained,
    ensures
        flood_after(map, targets, lakes, ox, oy, m) == flood_after(map, targets, lakes, ox, oy, n),
    decreases m,
{
    if n < m {
        lemma_flood_settles(map, targets, lakes, ox, oy, n, (m - 1) as nat);
    }
}

/// A flood depends on what the cells of the grid hold, and on nothing else.
pub proof fn lemma_flood_of_cells(
    map: Grid,
    targets: Seq<Vec<(usize, usize)>>,
    a: Grid,
    b: Grid,
    ox: int,
    oy: int,
    n: nat,
)
    requires
        a.same_size(&b),
        forall|x: int, y: int| a.contains(x, y) ==> #[trigger] a.at(x, y) == b.at(x, y),
    ensures
        flood_after(map, targets, a, ox, oy, n) == flood_after(map, targets, b, ox, oy, n),
    decreases n,
{
    if n == 0 {
        assert(marks_of(a) =~= marks_of(b));
    } else {
        lemma_flood_of_cells(map, targets, a, b, ox, oy, (n - 1) as nat);
    }
}

/// What a flood leaves is determined by the heights, the flow targets, the
/// cells before it and the cell that it starts in.
pub proof fn lemma_flooded_unique(
    map: Grid,
    targets: Seq<Vec<(usize, usize)>>,
    before_a: Grid,
    before_b: Grid,
    ox: int,
    oy: int,
    after_a: Grid,
    after_b: Grid,
)
    requires
        before_a.same_size(&before_b),
        before_a.contains(ox, oy),
        forall|x: int, y: int|
            before_a.contains(x, y) ==> #[trigger] before_a.at(x, y) == before_b.at(x, y),
        flooded(map, targets, before_a, ox, oy, after_a),
        flooded(map, targets, before_b, ox, oy, after_b),
    ensures
        after_a.same_size(&after_b),
        forall|x: int, y: int|
            after_a.contains(x, y) ==> #[trigger] after_a.at(x, y) == after_b.at(x, y),
{
    if before_a.at(ox, oy) == 0 {
        let na = choose|n: nat|
            {
                let st = #[trigger] flood_after(map, targets, before_a, ox, oy, n);
                (st.contact || st.drained) && forall|x: int, y: int|
                    before_a.contains(x, y) ==> #[trigger] after_a.at(x, y) == settled(st, x, y)
            };
        let nb = choose|n: nat|
            {
                let st = #[trigger] flood_after(map, targets, before_b, ox, oy, n);
                (st.contact || st.drained) && forall|x: int, y: int|
                    before_b.contains(x, y) ==> #[trigger] after_b.at(x, y) == settled(st, x, y)
            };
        lemma_flood_of_cells(map, targets, before_a, before_b, ox, oy, na);
        lemma_flood_of_cells(map, targets, before_a, before_b, ox, oy, nb);
        if na <= nb {
            lemma_flood_settles(map, targets, before_a, ox, oy, na, nb);
        } else {
            lemma_flood_settles(map, targets, before_a, ox, oy, nb, na);
        }
    }
}

/// Whether `(x, y)` lies in the first or last column or row of `grid`.
pub open spec fn on_edge(grid: Grid, x: int, y: int) -> bool {
    x == 0 || y == 0 || x == grid.spec_width() - 1 || y == grid.spec_height() - 1
}

/// Whether `(bx, by)` is the first of the cells before `(nx, ny)`, column by
/// column, that the flood has reached and not spread on from.
spec fn is_least_before(
    map: Grid,
    marks: Map<(int, int), int>,
    bx: int,
    by: int,
    nx: int,
    ny: int,
) -> bool {
    &&& is_front(map, marks, bx, by)
    &&& scanned(bx, by, nx, ny)
    &&& forall|qx: int, qy: int| #[trigger]
        is_front(map, marks, qx, qy) && scanned(qx, qy, nx, ny) ==> !lower(map, qx, qy, bx, by)
}

/// Whether the flood has reached and not spread on from a cell before `(nx, ny)`.
spec fn front_before(map: Grid, marks: Map<(int, int), int>, nx: int, ny: int) -> bool {
    exists|x: int, y: int| #[trigger] is_front(map, marks, x, y) && scanned(x, y, nx, ny)
}

/// Whether one of the cells before `(nx, ny)` is the first.
spec fn least_before(map: Grid, marks: Map<(int, int), int>, nx: int, ny: int) -> bool {
    exists|bx: int, by: int| #[trigger] is_least_before(map, marks, bx, by, nx, ny)
}

/// The first cell stays the first when a cell is added that does not come before it.
proof fn lemma_least_stays(
    map: Grid,
    marks: Map<(int, int), int>,
    bx: int,
    by: int,
    nx: int,
    ny: int,
)
    requires
        is_least_before(map, marks, bx, by, nx, ny - 1),
        !(is_front(map, marks, nx, ny - 1) && lower(map, nx, ny - 1, bx, by)),
    ensures
        is_least_before(map, marks, bx, by, nx, ny),
{
}

/// A cell that comes before the first cell, or is the only one, is the first.
proof fn lemma_least_new(
    map: Grid,
    marks: Map<(int, int), int>,
    bx: int,
    by: int,
    nx: int,
    ny: int,
)
    requires
        is_front(map, marks, nx, ny - 1),
        front_before(map, marks, nx, ny - 1) ==> is_least_before(map, marks, bx, by, nx, ny - 1)
            && lower(map, nx, ny - 1, bx, by),
    ensures
        is_least_before(map, marks, nx, ny - 1, nx, ny),
{
    assert forall|qx: int, qy: int| #[trigger]
        is_front(map, marks, qx, qy) && scanned(qx, qy, nx, ny) implies !lower(
        map,
        qx,
        qy,
        nx,
        ny - 1,
    ) by {
        if (qx, qy) != (nx, ny - 1) {
            assert(scanned(qx, qy, nx, ny - 1));
            assert(front_before(map, marks, nx, ny - 1));
            assert(!lower(map, qx, qy, bx, by));
        }
    }
}

/// The cells before a column are the cells up to the end of the column before.
proof fn lemma_least_column(
    map: Grid,
    marks: Map<(int, int), int>,
    bx: int,
    by: int,
    nx: int,
)
    requires
        is_least_before(map, marks, bx, by, nx - 1, map.spec_height() as int),
    ensures
        is_least_before(map, marks, bx, by, nx, 0),
{
    assert forall|qx: int, qy: int| #[trigger]
        is_front(map, marks, qx, qy) && scanned(qx, qy, nx, 0) implies !lower(
        map,
        qx,
        qy,
        bx,
        by,
    ) by {
        assert(scanned(qx, qy, nx - 1, map.spec_height() as int));
    }
}

/// Among the cells before `(nx, ny)`, column by column, that the flood has
/// reached and not spread on from, one is the first.
proof fn lemma_least_front(map: Grid, marks: Map<(int, int), int>, nx: int, ny: int)
    requires
        0 <= nx,
        0 <= ny <= map.spec_height(),
    ensures
        front_before(map, marks, nx, ny) ==> least_before(map, marks, nx, ny),
    decreases nx, ny,
{
    if front_before(map, marks, nx, ny) {
        let (fx, fy) = choose|x: int, y: int| #[trigger]
            is_front(map, marks, x, y) && scanned(x, y, nx, ny);
        if ny > 0 {
            lemma_least_front(map, marks, nx, ny - 1);
            if front_before(map, marks, nx, ny - 1) {
                let (bx, by) = choose|bx: int, by: int| #[trigger]
                    is_least_before(map, marks, bx, by, nx, ny - 1);
                if is_front(map, marks, nx, ny - 1) && lower(map, nx, ny - 1, bx, by) {
                    lemma_least_new(map, marks, bx, by, nx, ny);
                    assert(is_least_before(map, marks, nx, ny - 1, nx, ny));
                } else {
                    lemma_least_stays(map, marks, bx, by, nx, ny);
                    assert(is_least_before(map, marks, bx, by, nx, ny));
                }
            } else {
                assert((fx, fy) == (nx, ny - 1)) by {
                    if (fx, fy) != (nx, ny - 1) {
                        assert(is_front(map, marks, fx, fy) && scanned(fx, fy, nx, ny - 1));
                    }
                }
                lemma_least_new(map, marks, 0, 0, nx, ny);
                assert(is_least_before(map, marks, nx, ny - 1, nx, ny));
            }
        } else {
            assert(nx > 0);
            lemma_least_front(map, marks, nx - 1, map.spec_height() as int);
            assert(is_front(map, marks, fx, fy) && scanned(
                fx,
                fy,
                nx - 1,
                map.spec_height() as int,
            ));
            let (bx, by) = choose|bx: int, by: int| #[trigger]
                is_least_before(map, marks, bx, by, nx - 1, map.spec_height() as int);
            lemma_least_column(map, marks, bx, by, nx);
            assert(is_least_before(map, marks, bx, by, nx, 0));
        }
    }
}

/// A flood that can spread on has a cell from which it spreads on next.
pub proof fn lemma_has_first_front(map: Grid, marks: Map<(int, int), int>)
    requires
        has_front(map, marks),
    ensures
        is_first_front(map, marks, first_front(map, marks).0, first_front(map, marks).1),
{
    let w = map.spec_width() as int;
    let (fx, fy) = choose|x: int, y: int| #[trigger] is_front(map, marks, x, y);
    lemma_least_front(map, marks, w, 0);
    assert(is_front(map, marks, fx, fy) && scanned(fx, fy, w, 0));
    let (bx, by) = choose|bx: int, by: int| #[trigger] is_least_before(map, marks, bx, by, w, 0);
    assert forall|qx: int, qy: int| #[trigger] is_front(map, marks, qx, qy) implies !lower(
        map,
        qx,
        qy,
        bx,
        by,
    ) by {
        assert(scanned(qx, qy, w, 0));
    }
    let c = (bx, by);
    assert(is_first_front(map, marks, c.0, c.1));
}

/// What holds of a flood that started in the dry cell `(ox, oy)` of `before`:
/// water is as it was and dry cells are dry or reached, the flood has not both
/// touched water and run out of cells, and as long as it has not touched water,
/// it has reached every cell beside a cell that it has spread on from.
spec fn flood_ok(map: Grid, before: Grid, ox: int, oy: int, st: Flood) -> bool {
    &&& forall|x: int, y: int|
        #![trigger st.marks[(x, y)]]
        map.contains(x, y) ==> if before.at(x, y) > 0 {
            st.marks[(x, y)] == before.at(x, y)
        } else {
            -2 <= st.marks[(x, y)] <= 0
        }
    &&& st.marks[(ox, oy)] < 0
    &&& !(st.contact && st.drained)
    &&& st.drained ==> !has_front(map, st.marks)
    &&& !st.contact ==> forall|x: int, y: int, nx: int, ny: int|
        map.contains(x, y) && map.contains(nx, ny) && st.marks[(x, y)] == -2 && #[trigger] adjacent(
            x,
            y,
            nx,
            ny,
        ) ==> st.marks[(nx, ny)] < 0
}

/// What a flood keeps when it tries to spread to a cell, but for the cells
/// beside the cell that it spreads on from: `open`.
spec fn spreading(map: Grid, before: Grid, st: Flood, open: (int, int)) -> bool {
    &&& forall|x: int, y: int|
        #![trigger st.marks[(x, y)]]
        map.contains(x, y) ==> if before.at(x, y) > 0 {
            st.marks[(x, y)] == before.at(x, y)
        } else {
            -2 <= st.marks[(x, y)] <= 0
        }
    &&& !st.drained
    &&& st.marks[open] == -2
    &&& !st.contact ==> forall|x: int, y: int, nx: int, ny: int|
        map.contains(x, y) && map.contains(nx, ny) && st.marks[(x, y)] == -2 && (x, y) != open
            && #[trigger] adjacent(x, y, nx, ny) ==> st.marks[(nx, ny)] < 0
}

/// Trying to spread to a cell keeps what the flood has, and reaches the cell
/// unless the flood touches water.
proof fn lemma_touch(map: Grid, before: Grid, st: Flood, open: (int, int), x: int, y: int)
    requires
        spreading(map, before, st, open),
    ensures
        spreading(map, before, touch(map, st, x, y), open),
        st.contact ==> touch(map, st, x, y).contact,
        map.contains(x, y) && !touch(map, st, x, y).contact ==> touch(map, st, x, y).marks[(x, y)]
            < 0,
        forall|cx: int, cy: int|
            #![trigger touch(map, st, x, y).marks[(cx, cy)]]
            st.marks[(cx, cy)] < 0 ==> touch(map, st, x, y).marks[(cx, cy)] == st.marks[(cx, cy)],
{
    let after = touch(map, st, x, y);
    if !st.contact && map.contains(x, y) && st.marks[(x, y)] == 0 {
        assert(after.marks == st.marks.insert((x, y), -1));
        assert forall|cx: int, cy: int|
            #![trigger after.marks[(cx, cy)]]
            map.contains(cx, cy) implies if before.at(cx, cy) > 0 {
            after.marks[(cx, cy)] == before.at(cx, cy)
        } else {
            -2 <= after.marks[(cx, cy)] <= 0
        } by {
            if (cx, cy) != (x, y) {
                assert(after.marks[(cx, cy)] == st.marks[(cx, cy)]);
            }
        }
        assert forall|cx: int, cy: int, nx: int, ny: int|
            map.contains(cx, cy) && map.contains(nx, ny) && after.marks[(cx, cy)] == -2 && (cx, cy)
                != open && #[trigger] adjacent(cx, cy, nx, ny) implies after.marks[(nx, ny)] < 0 by {
            assert(st.marks[(cx, cy)] == -2);
            if (nx, ny) != (x, y) {
                assert(after.marks[(nx, ny)] == st.marks[(nx, ny)]);
            }
        }
    }
}

/// The flood stays in order when it spreads on from one more cell.
proof fn lemma_pop_step(
    map: Grid,
    targets: Seq<Vec<(usize, usize)>>,
    before: Grid,
    ox: int,
    oy: int,
    st: Flood,
)
    requires
        map.same_size(&before),
        forall|x: int, y: int|
            before.contains(x, y) && on_edge(before, x, y) ==> #[trigger] before.at(x, y) > 0,
        flood_ok(map, before, ox, oy, st),
    ensures
        flood_ok(map, before, ox, oy, pop_step(map, targets, st)),
{
    if !(st.contact || st.drained) && has_front(map, st.marks) {
        lemma_has_first_front(map, st.marks);
        let c = first_front(map, st.marks);
        let t = target_of(targets, c.0, c.1);
        assert(is_front(map, st.marks, c.0, c.1));
        assert(st.marks[(c.0, c.1)] == -1);
        assert(!on_edge(before, c.0, c.1));
        let s0 = Flood { marks: st.marks.insert(c, -2), contact: st.contact, drained: st.drained };
        assert(spreading(map, before, s0, c)) by {
            assert forall|x: int, y: int|
                #![trigger s0.marks[(x, y)]]
                map.contains(x, y) implies if before.at(x, y) > 0 {
                s0.marks[(x, y)] == before.at(x, y)
            } else {
                -2 <= s0.marks[(x, y)] <= 0
            } by {
                if (x, y) != c {
                    assert(s0.marks[(x, y)] == st.marks[(x, y)]);
                }
            }
            assert forall|x: int, y: int, nx: int, ny: int|
                map.contains(x, y) && map.contains(nx, ny) && s0.marks[(x, y)] == -2 && (x, y) != c
                    && #[trigger] adjacent(x, y, nx, ny) implies s0.marks[(nx, ny)] < 0 by {
                assert(st.marks[(x, y)] == -2);
                if (nx, ny) != c {
                    assert(s0.marks[(nx, ny)] == st.marks[(nx, ny)]);
                }
            }
        }
        let s1 = touch(map, s0, c.0 - 1, c.1);
        let s2 = touch(map, s1, c.0 + 1, c.1);
        let s3 = touch(map, s2, c.0, c.1 - 1);
        let s4 = touch(map, s3, c.0, c.1 + 1);
        let s5 = touch(map, s4, t.0, t.1);
        lemma_touch(map, before, s0, c, c.0 - 1, c.1);
        lemma_touch(map, before, s1, c, c.0 + 1, c.1);
        lemma_touch(map, before, s2, c, c.0, c.1 - 1);
        lemma_touch(map, before, s3, c, c.0, c.1 + 1);
        lemma_touch(map, before, s4, c, t.0, t.1);
        assert(s5 == pop_step(map, targets, st));
        assert(s5.marks[(ox, oy)] < 0) by {
            if (ox, oy) != c {
                assert(s0.marks[(ox, oy)] == st.marks[(ox, oy)]);
            }
            assert(s1.marks[(ox, oy)] == s0.marks[(ox, oy)]);
            assert(s2.marks[(ox, oy)] == s1.marks[(ox, oy)]);
            assert(s3.marks[(ox, oy)] == s2.marks[(ox, oy)]);
            assert(s4.marks[(ox, oy)] == s3.marks[(ox, oy)]);
            assert(s5.marks[(ox, oy)] == s4.marks[(ox, oy)]);
        }
        if !s5.contact {
            assert forall|x: int, y: int, nx: int, ny: int|
                map.contains(x, y) && map.contains(nx, ny) && s5.marks[(x, y)] == -2
                    && #[trigger] adjacent(x, y, nx, ny) implies s5.marks[(nx, ny)] < 0 by {
                if (x, y) == c {
                    if (nx, ny) == (c.0 - 1, c.1) {
                        assert(s1.marks[(nx, ny)] < 0);
                        assert(s2.marks[(nx, ny)] == s1.marks[(nx, ny)]);
                        assert(s3.marks[(nx, ny)] == s2.marks[(nx, ny)]);
                        assert(s4.marks[(nx, ny)] == s3.marks[(nx, ny)]);
                        assert(s5.marks[(nx, ny)] == s4.marks[(nx, ny)]);
                    } else if (nx, ny) == (c.0 + 1, c.1) {
                        assert(s2.marks[(nx, ny)] < 0);
                        assert(s3.marks[(nx, ny)] == s2.marks[(nx, ny)]);
                        assert(s4.marks[(nx, ny)] == s3.marks[(nx, ny)]);
                        assert(s5.marks[(nx, ny)] == s4.marks[(nx, ny)]);
                    } else if (nx, ny) == (c.0, c.1 - 1) {
                        assert(s3.marks[(nx, ny)] < 0);
                        assert(s4.marks[(nx, ny)] == s3.marks[(nx, ny)]);
                        assert(s5.marks[(nx, ny)] == s4.marks[(nx, ny)]);
                    } else {
                        assert((nx, ny) == (c.0, c.1 + 1));
                        assert(s4.marks[(nx, ny)] < 0);
                        assert(s5.marks[(nx, ny)] == s4.marks[(nx, ny)]);
                    }
                }
            }
        }
    }
}

/// The flood is in order after every number of steps.
proof fn lemma_flood_ok(
    map: Grid,
    targets: Seq<Vec<(usize, usize)>>,
    before: Grid,
    ox: int,
    oy: int,
    n: nat,
)
    requires
        map.same_size(&before),
        map.contains(ox, oy),
        before.at(ox, oy) == 0,
        forall|x: int, y: int| before.contains(x, y) ==> #[trigger] before.at(x, y) >= 0,
        forall|x: int, y: int|
            before.contains(x, y) && on_edge(before, x, y) ==> #[trigger] before.at(x, y) > 0,
    ensures
        flood_ok(map, before, ox, oy, flood_after(map, targets, before, ox, oy, n)),
    decreases n,
{
    if n == 0 {
        let st = flood_after(map, targets, before, ox, oy, 0);
        assert forall|x: int, y: int|
            #![trigger st.marks[(x, y)]]
            map.contains(x, y) implies if before.at(x, y) > 0 {
            st.marks[(x, y)] == before.at(x, y)
        } else {
            -2 <= st.marks[(x, y)] <= 0
        } by {
            assert(marks_of(before)[(x, y)] == before.at(x, y));
            assert(before.at(x, y) >= 0);
        }
        assert forall|x: int, y: int, nx: int, ny: int|
            map.contains(x, y) && map.contains(nx, ny) && st.marks[(x, y)] == -2
                && #[trigger] adjacent(x, y, nx, ny) implies st.marks[(nx, ny)] < 0 by {
            if (x, y) != (ox, oy) {
                assert(marks_of(before)[(x, y)] == before.at(x, y));
                assert(before.at(x, y) >= 0);
            }
        }
    } else {
        lemma_flood_ok(map, targets, before, ox, oy, (n - 1) as nat);
        lemma_pop_step(
            map,
            targets,
            before,
            ox,
            oy,
            flood_after(map, targets, before, ox, oy, (n - 1) as nat),
        );
    }
}

/// A flood that has run out of cells has spread on from every cell to the
/// left of the cell that it started in.
proof fn lemma_drained_row(map: Grid, before: Grid, ox: int, oy: int, st: Flood, i: int)
    requires
        map.same_size(&before),
        map.contains(ox, oy),
        flood_ok(map, before, ox, oy, st),
        st.drained,
        0 <= i <= ox,
    ensures
        st.marks[(ox - i, oy)] == -2,
    decreases i,
{
    if i > 0 {
        lemma_drained_row(map, before, ox, oy, st, i - 1);
        assert(adjacent(ox - i + 1, oy, ox - i, oy));
        assert(st.marks[(ox - i, oy)] < 0);
    }
    if st.marks[(ox - i, oy)] == -1 {
        assert(is_front(map, st.marks, ox - i, oy));
    }
    assert(-2 <= st.marks[(ox - i, oy)]);
}

/// With water on every edge of the grid no flood runs out of cells: a flood
/// that starts in a dry cell ends when it touches water, and leaves water in the
/// cell that it started in, and in every cell that held water before.
pub proof fn lemma_flood_touches_water(
    map: Grid,
    targets: Seq<Vec<(usize, usize)>>,
    before: Grid,
    ox: int,
    oy: int,
    after: Grid,
)
    requires
        map.same_size(&before),
        map.contains(ox, oy),
        before.at(ox, oy) == 0,
        forall|x: int, y: int| before.contains(x, y) ==> #[trigger] before.at(x, y) >= 0,
        forall|x: int, y: int|
            before.contains(x, y) && on_edge(before, x, y) ==> #[trigger] before.at(x, y) > 0,
        flooded(map, targets, before, ox, oy, after),
    ensures
        after.at(ox, oy) == 1,
        forall|x: int, y: int|
            before.contains(x, y) && before.at(x, y) > 0 ==> #[trigger] after.at(x, y) == before.at(
                x,
                y,
            ),
{
    let n = choose|n: nat|
        {
            let st = #[trigger] flood_after(map, targets, before, ox, oy, n);
            (st.contact || st.drained) && forall|x: int, y: int|
                before.contains(x, y) ==> #[trigger] after.at(x, y) == settled(st, x, y)
        };
    let st = flood_after(map, targets, before, ox, oy, n);
    lemma_flood_ok(map, targets, before, ox, oy, n);
    if st.drained {
        lemma_drained_row(map, before, ox, oy, st, ox);
        assert(on_edge(before, 0, oy));
        assert(before.at(0, oy) > 0);
        assert(st.marks[(0int, oy)] == before.at(0, oy));
    }
    assert(after.at(ox, oy) == settled(st, ox, oy));
    assert forall|x: int, y: int|
        before.contains(x, y) && before.at(x, y) > 0 implies #[trigger] after.at(x, y)
        == before.at(x, y) by {
        assert(st.marks[(x, y)] == before.at(x, y));
        assert(after.at(x, y) == settled(st, x, y));
    }
}

/// With water on every edge of the grid a flood leaves water in the cell that
/// it starts in, dries up no cell, and leaves water on every edge.
pub proof fn lemma_flooded_keeps(
    map: Grid,
    targets: Seq<Vec<(usize, usize)>>,
    before: Grid,
    ox: int,
    oy: int,
    after: Grid,
)
    requires
        map.same_size(&before),
        map.contains(ox, oy),
        forall|x: int, y: int| before.contains(x, y) ==> #[trigger] before.at(x, y) >= 0,
        forall|x: int, y: int|
            before.contains(x, y) && on_edge(before, x, y) ==> #[trigger] before.at(x, y) > 0,
        flooded(map, targets, before, ox, oy, after),
    ensures
        after.same_size(&before),
        after.at(ox, oy) > 0,
        forall|x: int, y: int| before.contains(x, y) ==> #[trigger] after.at(x, y) >= 0,
        forall|x: int, y: int|
            before.contains(x, y) && before.at(x, y) > 0 ==> #[trigger] after.at(x, y) > 0,
        forall|x: int, y: int|
            after.contains(x, y) && on_edge(after, x, y) ==> #[trigger] after.at(x, y) > 0,
{
    if before.at(ox, oy) == 0 {
        lemma_flood_touches_water(map, targets, before, ox, oy, after);
        let n = choose|n: nat|
            {
                let st = #[trigger] flood_after(map, targets, before, ox, oy, n);
                (st.contact || st.drained) && forall|x: int, y: int|
                    before.contains(x, y) ==> #[trigger] after.at(x, y) == settled(st, x, y)
            };
        let st = flood_after(map, targets, before, ox, oy, n);
        lemma_flood_ok(map, targets, before, ox, oy, n);
        assert forall|x: int, y: int| before.contains(x, y) implies #[trigger] after.at(x, y)
            >= 0 by {
            assert(after.at(x, y) == settled(st, x, y));
            assert(-2 <= st.marks[(x, y)]);
        }
    }
    assert forall|x: int, y: int|
        after.contains(x, y) && on_edge(after, x, y) implies #[trigger] after.at(x, y) > 0 by {
        assert(on_edge(before, x, y));
        assert(before.at(x, y) > 0);
    }
}

/// One for each cell that the flood has spread on from, zero for the others.
spec fn spent_fn(lakes: Grid) -> spec_fn(int, int) -> int {
    |x: int, y: int|
        if lakes.at(x, y) == -2 {
            1int
        } else {
            0int
        }
}

/// The grid, the queue and the list of reached cells show the flood `marks`.
spec fn flooding(
    map: Grid,
    lakes: Grid,
    marks: Map<(int, int), int>,
    queue: Multiset<Point>,
    points: Seq<(usize, usize)>,
) -> bool {
    &&& lakes.same_size(&map)
    &&& forall|x: int, y: int| lakes.contains(x, y) ==> marks[(x, y)] == #[trigger] lakes.at(x, y)
    &&& forall|x: int, y: int| lakes.contains(x, y) ==> -2 <= #[trigger] lakes.at(x, y)
    &&& forall|x: int, y: int|
        lakes.contains(x, y) && on_edge(lakes, x, y) ==> #[trigger] lakes.at(x, y) > 0
    &&& forall|p: Point| #[trigger]
        queue.count(p) == (if lakes.contains(p.x as int, p.y as int) && lakes.at(
            p.x as int,
            p.y as int,
        ) == -1 && p.z == map.at(p.x as int, p.y as int) {
            1nat
        } else {
            0nat
        })
    &&& forall|k: int|
        0 <= k < points.len() ==> lakes.contains((#[trigger] points[k]).0 as int, points[k].1 as int)
            && lakes.at(points[k].0 as int, points[k].1 as int) < 0
    &&& forall|x: int, y: int|
        lakes.contains(x, y) && #[trigger] lakes.at(x, y) < 0 ==> exists|k: int|
            0 <= k < points.len() && #[trigger] points[k] == (x as usize, y as usize)
}

/// Tries to spread the flood to the cell `(x, y)`: a dry cell is marked, queued
/// and listed. Returns whether the cell holds water.
fn enqueue(
    map: &Grid,
    lakes: &mut Grid,
    queue: &mut PointQueue,
    points: &mut Vec<(usize, usize)>,
    x: usize,
    y: usize,
    Ghost(st): Ghost<Flood>,
) -> (hit: bool)
    requires
        !st.contact,
        old(lakes).contains(x as int, y as int),
        flooding(*map, *old(lakes), st.marks, old(queue)@, old(points)@),
    ensures
        flooding(
            *map,
            *final(lakes),
            touch(*map, st, x as int, y as int).marks,
            final(queue)@,
            final(points)@,
        ),
        hit == touch(*map, st, x as int, y as int).contact,
        touch(*map, st, x as int, y as int).drained == st.drained,
        forall|px: int, py: int|
            old(lakes).contains(px, py) ==> (#[trigger] final(lakes).at(px, py) == -2) == (old(
                lakes,
            ).at(px, py) == -2),
        forall|px: int, py: int|
            old(lakes).contains(px, py) && old(lakes).at(px, py) > 0 ==> #[trigger] final(lakes).at(
                px,
                py,
            ) == old(lakes).at(px, py),
{
    let held = lakes.get(x, y);
    if held == 0 {
        let z = map.get(x, y);
        queue.push(Point { x, y, z });
        lakes.set(x, y, -1);
        points.push((x, y));
        proof {
            broadcast use group_multiset_axioms;

            let after = touch(*map, st, x as int, y as int).marks;
            assert(after == st.marks.insert((x as int, y as int), -1));
            assert forall|p: Point| #[trigger]
                queue@.count(p) == (if lakes.contains(p.x as int, p.y as int) && lakes.at(
                    p.x as int,
                    p.y as int,
                ) == -1 && p.z == map.at(p.x as int, p.y as int) {
                    1nat
                } else {
                    0nat
                }) by {
                let q = Point { x, y, z };
                if p == q {
                    assert(old(queue)@.count(p) == 0);
                } else {
                    assert(old(queue)@.insert(q).count(p) == old(queue)@.count(p));
                    if p.x == x && p.y == y {
                        assert(p.z != z);
                    }
                }
            }
            assert forall|k: int| 0 <= k < points@.len() implies lakes.contains(
                (#[trigger] points@[k]).0 as int,
                points@[k].1 as int,
            ) && lakes.at(points@[k].0 as int, points@[k].1 as int) < 0 by {
                if k < old(points)@.len() {
                    assert(points@[k] == old(points)@[k]);
                }
            }
            assert forall|px: int, py: int|
                lakes.contains(px, py) && #[trigger] lakes.at(px, py) < 0 implies exists|k: int|
                0 <= k < points@.len() && #[trigger] points@[k] == (px as usize, py as usize) by {
                if (px, py) == (x as int, y as int) {
                    assert(points@[old(points)@.len() as int] == (px as usize, py as usize));
                } else {
                    assert(old(lakes).at(px, py) < 0);
                    let k = choose|k: int|
                        0 <= k < old(points)@.len() && #[trigger] old(points)@[k] == (
                            px as usize,
                            py as usize,
                        );
                    assert(points@[k] == old(points)@[k]);
                }
            }
        }
    }
    held > 0
}

/// The flood spreads on from the first cell of the queue.
proof fn lemma_popped_first(
    map: Grid,
    lakes: Grid,
    marks: Map<(int, int), int>,
    queue: Multiset<Point>,
    points: Seq<(usize, usize)>,
    p: Point,
)
    requires
        flooding(map, lakes, marks, queue, points),
        PointQueue::is_first(queue, p),
    ensures
        lakes.contains(p.x as int, p.y as int),
        lakes.at(p.x as int, p.y as int) == -1,
        p.z == map.at(p.x as int, p.y as int),
        !on_edge(lakes, p.x as int, p.y as int),
        has_front(map, marks),
        first_front(map, marks) == (p.x as int, p.y as int),
{
    assert(queue.count(p) > 0);
    assert(is_front(map, marks, p.x as int, p.y as int));
    assert forall|qx: int, qy: int| #[trigger] is_front(map, marks, qx, qy) implies !lower(
        map,
        qx,
        qy,
        p.x as int,
        p.y as int,
    ) by {
        let q = Point { x: qx as usize, y: qy as usize, z: map.at(qx, qy) };
        assert(queue.count(q) == 1);
        assert(!q.before(p));
    }
    lemma_first_front(map, marks, p.x as int, p.y as int);
}

/// With an empty queue the flood has no cell to spread on from.
proof fn lemma_queue_empty(
    map: Grid,
    lakes: Grid,
    marks: Map<(int, int), int>,
    queue: Multiset<Point>,
    points: Seq<(usize, usize)>,
)
    requires
        flooding(map, lakes, marks, queue, points),
        queue.len() == 0,
    ensures
        !has_front(map, marks),
{
    broadcast use group_multiset_axioms;

    lemma_multiset_empty_len(queue);
    if has_front(map, marks) {
        let (x, y) = choose|x: int, y: int| #[trigger] is_front(map, marks, x, y);
        let q = Point { x: x as usize, y: y as usize, z: map.at(x, y) };
        assert(queue.count(q) == 1);
        assert(Multiset::<Point>::empty().count(q) == 0);
    }
}

/// Floods a lake from the cell `(x, y)` of `lakes`, in which cells above zero
/// hold water and cells at zero are dry.
///
/// The cells on the edge of the grid must hold water, so that no flood leaves
/// the grid. Nothing happens unless `(x, y)` is dry. Else a flood spreads from the cell:
/// again and again from the lowest cell that it has reached to the four cells
/// beside that cell and to its flow target, until one of these holds water.
/// Then every cell that the flood has reached becomes water (one). If the flood
/// has spread on from every cell that it has reached and has found no water,
/// the cells that it has reached stay dry.
pub fn flood_lake(
    map: &Grid,
    cell_targets: &Vec<Vec<(usize, usize)>>,
    lakes: &mut Grid,
    x: usize,
    y: usize,
)
    requires
        map.same_size(old(lakes)),
        is_flow_field(cell_targets@, *map),
        map.contains(x as int, y as int),
        forall|px: int, py: int| old(lakes).contains(px, py) ==> #[trigger] old(lakes).at(px, py) >= 0,
        forall|px: int, py: int|
            old(lakes).contains(px, py) && on_edge(*old(lakes), px, py) ==> #[trigger] old(lakes).at(
                px,
                py,
            ) > 0,
    ensures
        flooded(*map, cell_targets@, *old(lakes), x as int, y as int, *final(lakes)),
        forall|px: int, py: int|
            old(lakes).contains(px, py) ==> #[trigger] final(lakes).at(px, py) >= 0,
        forall|px: int, py: int|
            old(lakes).contains(px, py) && old(lakes).at(px, py) > 0 ==> #[trigger] final(lakes).at(
                px,
                py,
            ) == old(lakes).at(px, py),
{
    if lakes.get(x, y) != 0 {
        return ;
    }
    let width = map.width();
    let height = map.height();
    let mut queue = PointQueue::new();
    let mut points: Vec<(usize, usize)> = Vec::new();
    let ghost mut st = flood_after(*map, cell_targets@, *old(lakes), x as int, y as int, 0);
    let ghost mut n: nat = 0;

    let z = map.get(x, y);
    queue.push(Point { x, y, z });
    lakes.set(x, y, -1);
    points.push((x, y));
    let mut spent: usize = 0;
    let mut contact = false;
    proof {
        broadcast use group_multiset_axioms;

        assert forall|p: Point| #[trigger]
            queue@.count(p) == (if lakes.contains(p.x as int, p.y as int) && lakes.at(
                p.x as int,
                p.y as int,
            ) == -1 && p.z == map.at(p.x as int, p.y as int) {
                1nat
            } else {
                0nat
            }) by {
            let q = Point { x, y, z };
            if p != q {
                assert(Multiset::<Point>::empty().insert(q).count(p) == 0);
            }
        }
        assert(points@[0] == (x, y));
        assert forall|px: int, py: int| lakes.contains(px, py) implies st.marks[(px, py)]
            == #[trigger] lakes.at(px, py) by {
            if (px, py) != (x as int, y as int) {
                assert(marks_of(*old(lakes))[(px, py)] == old(lakes).at(px, py));
            }
        }
        lemma_grid_sum_bounds(spent_fn(*lakes), width as int, height as int, 0);
        assert(width * (height * 0) == 0) by (nonlinear_arith);
    }

    loop
        invariant_except_break
            !st.contact,
            !st.drained,
        invariant
            width == map.spec_width(),
            height == map.spec_height(),
            width * height * 8 <= isize::MAX,
            is_flow_field(cell_targets@, *map),
            lakes.same_size(old(lakes)),
            flooding(*map, *lakes, st.marks, queue@, points@),
            st == flood_after(*map, cell_targets@, *old(lakes), x as int, y as int, n),
            contact == st.contact,
            spent == grid_sum(spent_fn(*lakes), width as int, height as int),
            spent <= width * height,
            forall|px: int, py: int|
                old(lakes).contains(px, py) && old(lakes).at(px, py) > 0 ==> #[trigger] lakes.at(
                    px,
                    py,
                ) == old(lakes).at(px, py),
        ensures
            st.contact || st.drained,
        decreases width * height - spent,
    {
        let ghost queue0 = queue@;
        let ghost lakes0 = *lakes;
        match queue.pop() {
            None => {
                proof {
                    lemma_queue_empty(*map, *lakes, st.marks, queue0, points@);
                    st = pop_step(*map, cell_targets@, st);
                    n = n + 1;
                }
                break ;
            },
            Some(p) => {
                proof {
                    lemma_popped_first(*map, *lakes, st.marks, queue0, points@, p);
                }
                lakes.set(p.x, p.y, -2);
                let ghost s0 = Flood {
                    marks: st.marks.insert((p.x as int, p.y as int), -2),
                    contact: st.contact,
                    drained: st.drained,
                };
                let ghost lakes1 = *lakes;
                proof {
                    broadcast use group_multiset_axioms;

                    assert forall|q: Point| #[trigger]
                        queue@.count(q) == (if lakes.contains(q.x as int, q.y as int) && lakes.at(
                            q.x as int,
                            q.y as int,
                        ) == -1 && q.z == map.at(q.x as int, q.y as int) {
                            1nat
                        } else {
                            0nat
                        }) by {
                        if q != p {
                            assert(queue0.remove(p).count(q) == queue0.count(q));
                        }
                    }
                    let f = spent_fn(*lakes);
                    let g = spent_fn(lakes0);
                    assert(f(p.x as int, p.y as int) == g(p.x as int, p.y as int) + 1);
                    lemma_grid_sum_point(f, g, width as int, height as int, p.x as int, p.y as int, 1);
                    assert forall|px: int, py: int|
                        0 <= px < width && 0 <= py < height implies 0 <= #[trigger] f(px, py)
                        <= 1 by {}
                    lemma_grid_sum_bounds(f, width as int, height as int, 1);
                    assert(width * (height * 1) == width * height) by (nonlinear_arith);
                    assert(flooding(*map, *lakes, s0.marks, queue@, points@));
                    assert(map.contains(
                        target_of(cell_targets@, p.x as int, p.y as int).0,
                        target_of(cell_targets@, p.x as int, p.y as int).1,
                    ));
                }
                spent += 1;

                let (nx, ny) = cell_targets[p.x][p.y];
                let mut hit = enqueue(
                    map,
                    lakes,
                    &mut queue,
                    &mut points,
                    p.x - 1,
                    p.y,
                    Ghost(s0),
                );
                let ghost s1 = touch(*map, s0, p.x - 1, p.y as int);
                if !hit {
                    hit =
                    enqueue(
                        map,
                        lakes,
                        &mut queue,
                        &mut points,
                        p.x + 1,
                        p.y,
                        Ghost(s1),
                    );
                }
                let ghost s2 = touch(*map, s1, p.x + 1, p.y as int);
                if !hit {
                    hit =
                    enqueue(
                        map,
                        lakes,
                        &mut queue,
                        &mut points,
                        p.x,
                        p.y - 1,
                        Ghost(s2),
                    );
                }
                let ghost s3 = touch(*map, s2, p.x as int, p.y - 1);
                if !hit {
                    hit =
                    enqueue(
                        map,
                        lakes,
                        &mut queue,
                        &mut points,
                        p.x,
                        p.y + 1,
                        Ghost(s3),
                    );
                }
                let ghost s4 = touch(*map, s3, p.x as int, p.y + 1);
                if !hit {
                    hit =
                    enqueue(
                        map,
                        lakes,
                        &mut queue,
                        &mut points,
                        nx,
                        ny,
                        Ghost(s4),
                    );
                }
                let ghost s5 = touch(*map, s4, nx as int, ny as int);
                proof {
                    assert(s5 == pop_step(*map, cell_targets@, st));
                    lemma_grid_sum_ext(
                        spent_fn(*lakes),
                        spent_fn(lakes1),
                        width as int,
                        height as int,
                    );
                    st = s5;
                    n = n + 1;
                }
                if hit {
                    contact = true;
                    break ;
                }
            },
        }
    }

    // the flood has ended: what it has reached becomes water or dry land
    let value: i64 = if contact {
        1
    } else {
        0
    };
    let ghost mid = *lakes;
    let mut i: usize = 0;
    while i < points.len()
        invariant
            lakes.same_size(&mid),
            0 <= value <= 1,
            i <= points@.len(),
            forall|k: int|
                0 <= k < points@.len() ==> mid.contains(
                    (#[trigger] points@[k]).0 as int,
                    points@[k].1 as int,
                ) && mid.at(points@[k].0 as int, points@[k].1 as int) < 0,
            forall|k: int|
                0 <= k < i ==> lakes.at((#[trigger] points@[k]).0 as int, points@[k].1 as int)
                    == value,
            forall|px: int, py: int|
                mid.contains(px, py) ==> #[trigger] lakes.at(px, py) == mid.at(px, py) || (mid.at(
                    px,
                    py,
                ) < 0 && lakes.at(px, py) == value),
        decreases points@.len() - i,
    {
        let (px, py) = points[i];
        lakes.set(px, py, value);
        i += 1;
    }
    proof {
        assert forall|px: int, py: int| old(lakes).contains(px, py) implies #[trigger] lakes.at(
            px,
            py,
        ) == settled(st, px, py) by {
            if mid.at(px, py) < 0 {
                let k = choose|k: int|
                    0 <= k < points@.len() && #[trigger] points@[k] == (px as usize, py as usize);
                assert(lakes.at(points@[k].0 as int, points@[k].1 as int) == value);
            }
        }
        assert(flood_after(*map, cell_targets@, *old(lakes), x as int, y as int, n) == st);
    }
}

} // verus!
