//! River volumes: how much water passes through each cell on its way along the flow targets.

use crate::draw::{
    draw_line, lemma_added_along_line, lemma_short_line, lemma_stroke_accepts, line_steps, on_line,
};
use crate::flow::{is_flow_field, target_of};
use crate::grid::{changed_at, scanned, Grid};
use crate::sums::{
    grid_sum, lemma_grid_sum_add, lemma_grid_sum_bounds, lemma_grid_sum_covers, lemma_grid_sum_ext,
    lemma_grid_sum_point,
};
use vstd::prelude::*;

verus! {

/// Largest number of cells of a map whose river volumes are sure to fit a cell.
pub const MAX_CELLS: usize = 0x7fff_ffff;

/// The cell that the water of `(x, y)` has reached after `n` steps along the flow targets.
pub open spec fn downstream(targets: Seq<Vec<(usize, usize)>>, x: int, y: int, n: nat) -> (int, int)
    decreases n,
{
    if n == 0 {
        (x, y)
    } else {
        let p = downstream(targets, x, y, (n - 1) as nat);
        target_of(targets, p.0, p.1)
    }
}

/// Whether the water of `(px, py)` passes through `(x, y)` on its way down;
/// the water of a cell passes through the cell itself.
pub open spec fn drains_through(
    targets: Seq<Vec<(usize, usize)>>,
    px: int,
    py: int,
    x: int,
    y: int,
) -> bool {
    exists|n: nat| #[trigger] downstream(targets, px, py, n) == (x, y)
}

/// Whether every cell that is not its own target has a target that is strictly lower.
pub open spec fn flow_descends(map: Grid, targets: Seq<Vec<(usize, usize)>>) -> bool {
    forall|x: int, y: int|
        map.contains(x, y) ==> (#[trigger] target_of(targets, x, y)) == (x, y) || map.at(
            target_of(targets, x, y).0,
            target_of(targets, x, y).1,
        ) < map.at(x, y)
}

/// One for each cell whose water passes through `(x, y)`, zero for the others.
pub open spec fn drains_fn(targets: Seq<Vec<(usize, usize)>>, x: int, y: int) -> spec_fn(
    int,
    int,
) -> int {
    |px: int, py: int|
        if drains_through(targets, px, py, x, y) {
            1int
        } else {
            0int
        }
}

/// Number of cells of a map of `w` columns and `h` rows whose water passes
/// through `(x, y)`, the cell itself included.
pub open spec fn upstream_count(
    targets: Seq<Vec<(usize, usize)>>,
    w: int,
    h: int,
    x: int,
    y: int,
) -> int {
    grid_sum(drains_fn(targets, x, y), w, h)
}

/// Whether the line from `(sx, sy)` to its target covers `(qx, qy)`; the line
/// of a cell that is its own target is the cell alone.
pub open spec fn carries(
    targets: Seq<Vec<(usize, usize)>>,
    sx: int,
    sy: int,
    qx: int,
    qy: int,
) -> bool {
    on_line(
        sx,
        sy,
        target_of(targets, sx, sy).0,
        target_of(targets, sx, sy).1,
        qx,
        qy,
    )
}

/// For each cell whose line to its target covers `(qx, qy)`, the number of cells
/// whose water passes through it.
pub open spec fn carried_fn(
    targets: Seq<Vec<(usize, usize)>>,
    w: int,
    h: int,
    qx: int,
    qy: int,
) -> spec_fn(int, int) -> int {
    |sx: int, sy: int|
        if carries(targets, sx, sy, qx, qy) {
            upstream_count(targets, w, h, sx, sy)
        } else {
            0int
        }
}

/// Water drawn over the cell `(qx, qy)`, counted in cells: each cell adds the
/// number of cells whose water passes through it to every cell of the line from
/// it to its target, and a cell that is its own target adds it to itself.
pub open spec fn river_volume(
    targets: Seq<Vec<(usize, usize)>>,
    w: int,
    h: int,
    qx: int,
    qy: int,
) -> int {
    grid_sum(carried_fn(targets, w, h, qx, qy), w, h)
}

/// Whether `(sx, sy)` sends its water straight to another cell `(cx, cy)`.
pub open spec fn direct(
    targets: Seq<Vec<(usize, usize)>>,
    sx: int,
    sy: int,
    cx: int,
    cy: int,
) -> bool {
    target_of(targets, sx, sy) == (cx, cy) && (sx, sy) != (cx, cy)
}

/// Water never leaves the map.
pub proof fn lemma_downstream_in_grid(
    map: Grid,
    targets: Seq<Vec<(usize, usize)>>,
    x: int,
    y: int,
    n: nat,
)
    requires
        is_flow_field(targets, map),
        map.contains(x, y),
    ensures
        map.contains(downstream(targets, x, y, n).0, downstream(targets, x, y, n).1),
    decreases n,
{
    if n > 0 {
        lemma_downstream_in_grid(map, targets, x, y, (n - 1) as nat);
        let p = downstream(targets, x, y, (n - 1) as nat);
        assert(map.contains(target_of(targets, p.0, p.1).0, target_of(targets, p.0, p.1).1));
    }
}

/// Water never climbs.
pub proof fn lemma_downstream_not_higher(
    map: Grid,
    targets: Seq<Vec<(usize, usize)>>,
    x: int,
    y: int,
    n: nat,
)
    requires
        is_flow_field(targets, map),
        flow_descends(map, targets),
        map.contains(x, y),
    ensures
        map.at(downstream(targets, x, y, n).0, downstream(targets, x, y, n).1) <= map.at(x, y),
    decreases n,
{
    if n > 0 {
        lemma_downstream_not_higher(map, targets, x, y, (n - 1) as nat);
        lemma_downstream_in_grid(map, targets, x, y, (n - 1) as nat);
        let p = downstream(targets, x, y, (n - 1) as nat);
        assert(target_of(targets, p.0, p.1) == (p.0, p.1) || map.at(
            target_of(targets, p.0, p.1).0,
            target_of(targets, p.0, p.1).1,
        ) < map.at(p.0, p.1));
    }
}

/// `a + b` steps are `a` steps followed by `b` steps.
pub proof fn lemma_downstream_add(targets: Seq<Vec<(usize, usize)>>, x: int, y: int, a: nat, b: nat)
    ensures
        downstream(targets, x, y, a + b) == downstream(
            targets,
            downstream(targets, x, y, a).0,
            downstream(targets, x, y, a).1,
            b,
        ),
    decreases b,
{
    if b > 0 {
        lemma_downstream_add(targets, x, y, a, (b - 1) as nat);
        assert((a + b - 1) as nat == a + (b - 1) as nat);
    }
}

/// Water that passes through a cell passes through the target of that cell.
pub proof fn lemma_drains_on(
    targets: Seq<Vec<(usize, usize)>>,
    px: int,
    py: int,
    sx: int,
    sy: int,
)
    requires
        drains_through(targets, px, py, sx, sy),
    ensures
        drains_through(
            targets,
            px,
            py,
            target_of(targets, sx, sy).0,
            target_of(targets, sx, sy).1,
        ),
{
    let n = choose|n: nat| #[trigger] downstream(targets, px, py, n) == (sx, sy);
    assert(downstream(targets, px, py, n + 1) == target_of(targets, sx, sy));
}

/// The water of one cell enters another cell from one side only.
proof fn lemma_one_way_in(
    map: Grid,
    targets: Seq<Vec<(usize, usize)>>,
    px: int,
    py: int,
    ax: int,
    ay: int,
    bx: int,
    by: int,
    cx: int,
    cy: int,
)
    requires
        is_flow_field(targets, map),
        flow_descends(map, targets),
        map.contains(px, py),
        drains_through(targets, px, py, ax, ay),
        drains_through(targets, px, py, bx, by),
        direct(targets, ax, ay, cx, cy),
        direct(targets, bx, by, cx, cy),
    ensures
        ax == bx,
        ay == by,
{
    let na = choose|n: nat| #[trigger] downstream(targets, px, py, n) == (ax, ay);
    let nb = choose|n: nat| #[trigger] downstream(targets, px, py, n) == (bx, by);
    lemma_downstream_in_grid(map, targets, px, py, na);
    lemma_downstream_in_grid(map, targets, px, py, nb);
    assert(downstream(targets, px, py, na + 1) == (cx, cy));
    assert(downstream(targets, px, py, nb + 1) == (cx, cy));
    lemma_downstream_in_grid(map, targets, px, py, na + 1);
    if na < nb {
        let k = (nb - na - 1) as nat;
        lemma_downstream_add(targets, px, py, na + 1, k);
        assert(na + 1 + k == nb);
        lemma_downstream_not_higher(map, targets, cx, cy, k);
        assert(target_of(targets, bx, by) == (bx, by) || map.at(
            target_of(targets, bx, by).0,
            target_of(targets, bx, by).1,
        ) < map.at(bx, by));
    } else if nb < na {
        let k = (na - nb - 1) as nat;
        lemma_downstream_add(targets, px, py, nb + 1, k);
        assert(nb + 1 + k == na);
        lemma_downstream_not_higher(map, targets, cx, cy, k);
        assert(target_of(targets, ax, ay) == (ax, ay) || map.at(
            target_of(targets, ax, ay).0,
            target_of(targets, ax, ay).1,
        ) < map.at(ax, ay));
    }
}

/// Water that reaches another cell enters it from a cell that sends its water there.
proof fn lemma_last_step(
    map: Grid,
    targets: Seq<Vec<(usize, usize)>>,
    px: int,
    py: int,
    cx: int,
    cy: int,
    n: nat,
)
    requires
        is_flow_field(targets, map),
        map.contains(px, py),
        downstream(targets, px, py, n) == (cx, cy),
        (px, py) != (cx, cy),
    ensures
        exists|sx: int, sy: int|
            map.contains(sx, sy) && direct(targets, sx, sy, cx, cy) && #[trigger] drains_through(
                targets,
                px,
                py,
                sx,
                sy,
            ),
    decreases n,
{
    if n > 0 {
        let q = downstream(targets, px, py, (n - 1) as nat);
        if q == (cx, cy) {
            lemma_last_step(map, targets, px, py, cx, cy, (n - 1) as nat);
        } else {
            lemma_downstream_in_grid(map, targets, px, py, (n - 1) as nat);
            assert(drains_through(targets, px, py, q.0, q.1));
            assert(direct(targets, q.0, q.1, cx, cy));
        }
    }
}

/// No water comes back to the cell that it left.
proof fn lemma_no_return(
    map: Grid,
    targets: Seq<Vec<(usize, usize)>>,
    cx: int,
    cy: int,
    sx: int,
    sy: int,
)
    requires
        is_flow_field(targets, map),
        flow_descends(map, targets),
        map.contains(cx, cy),
        drains_through(targets, cx, cy, sx, sy),
    ensures
        !direct(targets, sx, sy, cx, cy),
{
    let n = choose|n: nat| #[trigger] downstream(targets, cx, cy, n) == (sx, sy);
    lemma_downstream_in_grid(map, targets, cx, cy, n);
    lemma_downstream_not_higher(map, targets, cx, cy, n);
    assert(target_of(targets, sx, sy) == (sx, sy) || map.at(
        target_of(targets, sx, sy).0,
        target_of(targets, sx, sy).1,
    ) < map.at(sx, sy));
}

/// Between one and all cells of the map send their water through a cell of the map.
pub proof fn lemma_upstream_count_bounds(
    targets: Seq<Vec<(usize, usize)>>,
    w: int,
    h: int,
    x: int,
    y: int,
)
    requires
        0 <= x < w,
        0 <= y < h,
    ensures
        1 <= upstream_count(targets, w, h, x, y) <= w * h,
{
    let f = drains_fn(targets, x, y);
    assert forall|px: int, py: int| 0 <= px < w && 0 <= py < h implies 0 <= #[trigger] f(px, py)
        <= 1 by {}
    lemma_grid_sum_bounds(f, w, h, 1);
    assert(downstream(targets, x, y, 0) == (x, y));
    assert(f(x, y) == 1);
    lemma_grid_sum_covers(f, w, h, x, y);
    assert(w * (h * 1) == w * h) by (nonlinear_arith);
}

/// The water that passes through a cell passes through its target too, which
/// has water of its own: downstream of a cell more water passes than through it.
pub proof fn lemma_volume_grows(
    map: Grid,
    targets: Seq<Vec<(usize, usize)>>,
    x: int,
    y: int,
)
    requires
        is_flow_field(targets, map),
        flow_descends(map, targets),
        map.contains(x, y),
        target_of(targets, x, y) != (x, y),
    ensures
        upstream_count(
            targets,
            map.spec_width() as int,
            map.spec_height() as int,
            target_of(targets, x, y).0,
            target_of(targets, x, y).1,
        ) > upstream_count(targets, map.spec_width() as int, map.spec_height() as int, x, y),
{
    let w = map.spec_width() as int;
    let h = map.spec_height() as int;
    let t = target_of(targets, x, y);
    let here = drains_fn(targets, x, y);
    let there = drains_fn(targets, t.0, t.1);
    let more = |px: int, py: int| there(px, py) - here(px, py);
    assert(map.contains(t.0, t.1));
    assert forall|px: int, py: int| 0 <= px < w && 0 <= py < h implies 0 <= #[trigger] more(
        px,
        py,
    ) by {
        if drains_through(targets, px, py, x, y) {
            lemma_drains_on(targets, px, py, x, y);
        }
    }
    assert(more(t.0, t.1) == 1) by {
        assert(downstream(targets, t.0, t.1, 0) == t);
        if drains_through(targets, t.0, t.1, x, y) {
            assert(direct(targets, x, y, t.0, t.1));
            lemma_no_return(map, targets, t.0, t.1, x, y);
        }
    }
    assert forall|px: int, py: int| 0 <= px < w && 0 <= py < h implies #[trigger] there(px, py)
        == here(px, py) + more(px, py) by {}
    lemma_grid_sum_add(here, more, there, w, h);
    lemma_grid_sum_covers(more, w, h, t.0, t.1);
}

/// Whether `(x, y)` is its own flow target, so that its water stays.
pub open spec fn is_sink(targets: Seq<Vec<(usize, usize)>>, x: int, y: int) -> bool {
    target_of(targets, x, y) == (x, y)
}

/// For each sink the number of cells whose water ends in it, zero for the other cells.
pub open spec fn sink_fn(targets: Seq<Vec<(usize, usize)>>, w: int, h: int) -> spec_fn(
    int,
    int,
) -> int {
    |kx: int, ky: int|
        if is_sink(targets, kx, ky) {
            upstream_count(targets, w, h, kx, ky)
        } else {
            0int
        }
}

/// Water that has come to a sink stays there.
pub proof fn lemma_sink_stays(targets: Seq<Vec<(usize, usize)>>, kx: int, ky: int, n: nat)
    requires
        is_sink(targets, kx, ky),
    ensures
        downstream(targets, kx, ky, n) == (kx, ky),
    decreases n,
{
    if n > 0 {
        lemma_sink_stays(targets, kx, ky, (n - 1) as nat);
    }
}

/// The water of every cell ends in a sink.
pub proof fn lemma_reaches_sink(map: Grid, targets: Seq<Vec<(usize, usize)>>, x: int, y: int)
    requires
        is_flow_field(targets, map),
        flow_descends(map, targets),
        map.contains(x, y),
    ensures
        exists|kx: int, ky: int|
            map.contains(kx, ky) && is_sink(targets, kx, ky) && #[trigger] drains_through(
                targets,
                x,
                y,
                kx,
                ky,
            ),
    decreases map.at(x, y) - i64::MIN,
{
    let t = target_of(targets, x, y);
    assert(map.contains(t.0, t.1));
    if t == (x, y) {
        assert(downstream(targets, x, y, 0) == (x, y));
        assert(drains_through(targets, x, y, x, y));
    } else {
        lemma_reaches_sink(map, targets, t.0, t.1);
        let (kx, ky) = choose|kx: int, ky: int|
            map.contains(kx, ky) && is_sink(targets, kx, ky) && #[trigger] drains_through(
                targets,
                t.0,
                t.1,
                kx,
                ky,
            );
        let n = choose|n: nat| #[trigger] downstream(targets, t.0, t.1, n) == (kx, ky);
        lemma_downstream_add(targets, x, y, 1, n);
        assert(downstream(targets, x, y, 1) == t) by {
            assert(downstream(targets, x, y, 0) == (x, y));
        }
        assert(downstream(targets, x, y, 1 + n) == (kx, ky));
        assert(drains_through(targets, x, y, kx, ky));
    }
}

/// The water of a cell ends in one sink only.
pub proof fn lemma_one_sink(
    targets: Seq<Vec<(usize, usize)>>,
    x: int,
    y: int,
    ax: int,
    ay: int,
    bx: int,
    by: int,
)
    requires
        is_sink(targets, ax, ay),
        is_sink(targets, bx, by),
        drains_through(targets, x, y, ax, ay),
        drains_through(targets, x, y, bx, by),
    ensures
        ax == bx,
        ay == by,
{
    let na = choose|n: nat| #[trigger] downstream(targets, x, y, n) == (ax, ay);
    let nb = choose|n: nat| #[trigger] downstream(targets, x, y, n) == (bx, by);
    if na <= nb {
        lemma_downstream_add(targets, x, y, na, (nb - na) as nat);
        lemma_sink_stays(targets, ax, ay, (nb - na) as nat);
        assert(na + (nb - na) as nat == nb);
    } else {
        lemma_downstream_add(targets, x, y, nb, (na - nb) as nat);
        lemma_sink_stays(targets, bx, by, (na - nb) as nat);
        assert(nb + (na - nb) as nat == na);
    }
}

/// One for each cell that the water of `(x, y)` passes in its first `m` steps.
spec fn visited_fn(targets: Seq<Vec<(usize, usize)>>, x: int, y: int, m: int) -> spec_fn(
    int,
    int,
) -> int {
    |cx: int, cy: int|
        if exists|i: nat| i < m && #[trigger] downstream(targets, x, y, i) == (cx, cy) {
            1int
        } else {
            0int
        }
}

/// Whether the water of `(x, y)` has come to no sink before it has taken `m` steps.
spec fn still_flows(targets: Seq<Vec<(usize, usize)>>, x: int, y: int, m: int) -> bool {
    forall|k: nat|
        k < m ==> !is_sink(
            targets,
            (#[trigger] downstream(targets, x, y, k)).0,
            downstream(targets, x, y, k).1,
        )
}

/// Water that has come to no sink is lower after every step.
proof fn lemma_falls(
    map: Grid,
    targets: Seq<Vec<(usize, usize)>>,
    x: int,
    y: int,
    i: nat,
    j: nat,
)
    requires
        is_flow_field(targets, map),
        flow_descends(map, targets),
        map.contains(x, y),
        i < j,
        still_flows(targets, x, y, j as int),
    ensures
        map.at(downstream(targets, x, y, j).0, downstream(targets, x, y, j).1) < map.at(
            downstream(targets, x, y, i).0,
            downstream(targets, x, y, i).1,
        ),
    decreases j,
{
    let before = downstream(targets, x, y, (j - 1) as nat);
    lemma_downstream_in_grid(map, targets, x, y, (j - 1) as nat);
    assert(!is_sink(targets, before.0, before.1));
    assert(target_of(targets, before.0, before.1) == (before.0, before.1) || map.at(
        target_of(targets, before.0, before.1).0,
        target_of(targets, before.0, before.1).1,
    ) < map.at(before.0, before.1));
    if i < j - 1 {
        lemma_falls(map, targets, x, y, i, (j - 1) as nat);
    }
}

/// Water that has come to no sink has passed as many cells as it has taken steps.
proof fn lemma_visited(map: Grid, targets: Seq<Vec<(usize, usize)>>, x: int, y: int, m: nat)
    requires
        is_flow_field(targets, map),
        flow_descends(map, targets),
        map.contains(x, y),
        still_flows(targets, x, y, m - 1),
    ensures
        grid_sum(
            visited_fn(targets, x, y, m as int),
            map.spec_width() as int,
            map.spec_height() as int,
        ) == m,
    decreases m,
{
    let w = map.spec_width() as int;
    let h = map.spec_height() as int;
    let now = visited_fn(targets, x, y, m as int);
    if m == 0 {
        lemma_sum_nothing(now, w, h);
    } else {
        lemma_visited(map, targets, x, y, (m - 1) as nat);
        let last = (m - 1) as nat;
        let c = downstream(targets, x, y, last);
        lemma_downstream_in_grid(map, targets, x, y, last);
        let before = visited_fn(targets, x, y, m - 1);
        if exists|i: nat| i < m - 1 && #[trigger] downstream(targets, x, y, i) == c {
            let i = choose|i: nat| i < m - 1 && #[trigger] downstream(targets, x, y, i) == c;
            lemma_falls(map, targets, x, y, i, last);
        }
        assert(before(c.0, c.1) == 0);
        assert(now(c.0, c.1) == 1);
        assert forall|cx: int, cy: int|
            0 <= cx < w && 0 <= cy < h && (cx != c.0 || cy != c.1) implies #[trigger] now(cx, cy)
            == before(cx, cy) by {
            if now(cx, cy) == 1 {
                let i = choose|i: nat| i < m && #[trigger] downstream(targets, x, y, i) == (cx, cy);
                assert(i < m - 1);
            }
            if before(cx, cy) == 1 {
                let i = choose|i: nat|
                    i < m - 1 && #[trigger] downstream(targets, x, y, i) == (cx, cy);
                assert(i < m);
            }
        }
        lemma_grid_sum_point(now, before, w, h, c.0, c.1, 1);
    }
}

/// The water of every cell comes to a sink in fewer steps than the map has cells.
pub proof fn lemma_sink_within(map: Grid, targets: Seq<Vec<(usize, usize)>>, x: int, y: int)
    requires
        is_flow_field(targets, map),
        flow_descends(map, targets),
        map.contains(x, y),
    ensures
        exists|n: nat|
            n < map.spec_width() * map.spec_height() && is_sink(
                targets,
                (#[trigger] downstream(targets, x, y, n)).0,
                downstream(targets, x, y, n).1,
            ),
{
    let w = map.spec_width() as int;
    let h = map.spec_height() as int;
    assert(w * h >= 1) by (nonlinear_arith)
        requires
            w >= 1,
            h >= 1,
    ;
    if still_flows(targets, x, y, w * h) {
        let m = (w * h + 1) as nat;
        lemma_visited(map, targets, x, y, m);
        let f = visited_fn(targets, x, y, m as int);
        assert forall|cx: int, cy: int| 0 <= cx < w && 0 <= cy < h implies 0 <= #[trigger] f(cx, cy)
            <= 1 by {}
        lemma_grid_sum_bounds(f, w, h, 1);
        assert(w * (h * 1) == w * h) by (nonlinear_arith);
    }
}

/// One if `(kx, ky)` is the sink in which the water of `(px, py)` ends, else zero.
spec fn ends_in(targets: Seq<Vec<(usize, usize)>>, px: int, py: int, kx: int, ky: int) -> int {
    if is_sink(targets, kx, ky) && drains_through(targets, px, py, kx, ky) {
        1
    } else {
        0
    }
}

/// One for each cell before `(nx, ny)`, column by column, whose water ends in
/// the sink `(kx, ky)`.
spec fn scan_fn(targets: Seq<Vec<(usize, usize)>>, kx: int, ky: int, nx: int, ny: int) -> spec_fn(
    int,
    int,
) -> int {
    |px: int, py: int|
        if px < nx || (px == nx && py < ny) {
            ends_in(targets, px, py, kx, ky)
        } else {
            0int
        }
}

/// For each cell the number of cells before `(nx, ny)`, column by column,
/// whose water ends in it.
spec fn gathered_fn(targets: Seq<Vec<(usize, usize)>>, w: int, h: int, nx: int, ny: int) -> spec_fn(
    int,
    int,
) -> int {
    |kx: int, ky: int| grid_sum(scan_fn(targets, kx, ky, nx, ny), w, h)
}

/// The sinks have gathered the water of all cells before `(nx, ny)`.
proof fn lemma_gathered(
    map: Grid,
    targets: Seq<Vec<(usize, usize)>>,
    nx: int,
    ny: int,
    cells: int,
)
    requires
        is_flow_field(targets, map),
        flow_descends(map, targets),
        0 <= nx < map.spec_width(),
        0 <= ny <= map.spec_height(),
        cells == nx * map.spec_height() + ny,
    ensures
        grid_sum(
            gathered_fn(targets, map.spec_width() as int, map.spec_height() as int, nx, ny),
            map.spec_width() as int,
            map.spec_height() as int,
        ) == cells,
    decreases nx, ny,
{
    let w = map.spec_width() as int;
    let h = map.spec_height() as int;
    let now = gathered_fn(targets, w, h, nx, ny);
    assert(nx * h >= 0) by (nonlinear_arith)
        requires
            nx >= 0,
            h >= 0,
    ;
    if ny > 0 {
        // one more cell of the column: its water ends in one sink
        let (px, py) = (nx, ny - 1);
        lemma_gathered(map, targets, nx, ny - 1, cells - 1);
        let before = gathered_fn(targets, w, h, nx, ny - 1);
        let share = |kx: int, ky: int| ends_in(targets, px, py, kx, ky);
        assert forall|kx: int, ky: int| 0 <= kx < w && 0 <= ky < h implies #[trigger] now(kx, ky)
            == before(kx, ky) + share(kx, ky) by {
            let f = scan_fn(targets, kx, ky, nx, ny);
            let g = scan_fn(targets, kx, ky, nx, ny - 1);
            assert(f(px, py) == g(px, py) + ends_in(targets, px, py, kx, ky));
            lemma_grid_sum_point(f, g, w, h, px, py, ends_in(targets, px, py, kx, ky));
        }
        lemma_grid_sum_add(before, share, now, w, h);
        lemma_reaches_sink(map, targets, px, py);
        let (sx, sy) = choose|sx: int, sy: int|
            map.contains(sx, sy) && is_sink(targets, sx, sy) && #[trigger] drains_through(
                targets,
                px,
                py,
                sx,
                sy,
            );
        let none = |kx: int, ky: int| 0int;
        assert forall|kx: int, ky: int|
            0 <= kx < w && 0 <= ky < h && (kx != sx || ky != sy) implies #[trigger] share(kx, ky)
            == none(kx, ky) by {
            if ends_in(targets, px, py, kx, ky) == 1 {
                lemma_one_sink(targets, px, py, kx, ky, sx, sy);
            }
        }
        assert(share(sx, sy) == none(sx, sy) + 1);
        lemma_grid_sum_point(share, none, w, h, sx, sy, 1);
        lemma_sum_nothing(none, w, h);
    } else if nx > 0 {
        // the column before is full
        assert((nx - 1) * h + h == nx * h) by (nonlinear_arith);
        lemma_gathered(map, targets, nx - 1, h, cells);
        let before = gathered_fn(targets, w, h, nx - 1, h);
        assert forall|kx: int, ky: int| 0 <= kx < w && 0 <= ky < h implies #[trigger] now(kx, ky)
            == before(kx, ky) by {
            lemma_grid_sum_ext(
                scan_fn(targets, kx, ky, nx, ny),
                scan_fn(targets, kx, ky, nx - 1, h),
                w,
                h,
            );
        }
        lemma_grid_sum_ext(now, before, w, h);
    } else {
        assert forall|kx: int, ky: int| 0 <= kx < w && 0 <= ky < h implies #[trigger] now(kx, ky)
            == 0 by {
            lemma_sum_nothing(scan_fn(targets, kx, ky, nx, ny), w, h);
        }
        lemma_sum_nothing(now, w, h);
        assert(cells == 0) by (nonlinear_arith)
            requires
                nx == 0,
                ny == 0,
                cells == nx * h + ny,
        ;
    }
}

/// No water is lost: the sinks gather the water of all cells, each cell's in one sink.
pub proof fn lemma_water_conserved(map: Grid, targets: Seq<Vec<(usize, usize)>>)
    requires
        is_flow_field(targets, map),
        flow_descends(map, targets),
    ensures
        grid_sum(
            sink_fn(targets, map.spec_width() as int, map.spec_height() as int),
            map.spec_width() as int,
            map.spec_height() as int,
        ) == map.spec_width() * map.spec_height(),
{
    let w = map.spec_width() as int;
    let h = map.spec_height() as int;
    let sinks = sink_fn(targets, w, h);
    if w == 0 {
        assert(w * h == 0) by (nonlinear_arith)
            requires
                w == 0,
        ;
    } else {
        assert((w - 1) * h + h == w * h) by (nonlinear_arith);
        lemma_gathered(map, targets, w - 1, h, w * h);
        let all = gathered_fn(targets, w, h, w - 1, h);
        assert forall|kx: int, ky: int| 0 <= kx < w && 0 <= ky < h implies #[trigger] sinks(kx, ky)
            == all(kx, ky) by {
            let f = scan_fn(targets, kx, ky, w - 1, h);
            if is_sink(targets, kx, ky) {
                lemma_grid_sum_ext(f, drains_fn(targets, kx, ky), w, h);
            } else {
                lemma_sum_nothing(f, w, h);
            }
        }
        lemma_grid_sum_ext(sinks, all, w, h);
    }
}

/// One for each cell before `(nx, ny)`, column by column, whose water passes
/// through `(sx, sy)`.
spec fn before_fn(targets: Seq<Vec<(usize, usize)>>, sx: int, sy: int, nx: int, ny: int) -> spec_fn(
    int,
    int,
) -> int {
    |px: int, py: int|
        if scanned(px, py, nx, ny) && drains_through(targets, px, py, sx, sy) {
            1int
        } else {
            0int
        }
}

/// For each cell that sends its water straight to `(qx, qy)`, the number of
/// cells before `(nx, ny)` whose water passes through it.
spec fn inflow_fn(
    targets: Seq<Vec<(usize, usize)>>,
    w: int,
    h: int,
    qx: int,
    qy: int,
    nx: int,
    ny: int,
) -> spec_fn(int, int) -> int {
    |sx: int, sy: int|
        if direct(targets, sx, sy, qx, qy) {
            grid_sum(before_fn(targets, sx, sy, nx, ny), w, h)
        } else {
            0int
        }
}

/// One for each other cell before `(nx, ny)` whose water passes through `(qx, qy)`.
spec fn arrived_fn(targets: Seq<Vec<(usize, usize)>>, qx: int, qy: int, nx: int, ny: int) -> spec_fn(
    int,
    int,
) -> int {
    |px: int, py: int|
        if scanned(px, py, nx, ny) && (px, py) != (qx, qy) && drains_through(
            targets,
            px,
            py,
            qx,
            qy,
        ) {
            1int
        } else {
            0int
        }
}

/// The water that arrives in a cell from other cells arrives through the cells
/// that send their water straight to it: counted over the cells before `(nx, ny)`.
proof fn lemma_inflow(
    map: Grid,
    targets: Seq<Vec<(usize, usize)>>,
    qx: int,
    qy: int,
    nx: int,
    ny: int,
)
    requires
        is_flow_field(targets, map),
        flow_descends(map, targets),
        map.contains(qx, qy),
        0 <= nx < map.spec_width(),
        0 <= ny <= map.spec_height(),
    ensures
        grid_sum(
            inflow_fn(targets, map.spec_width() as int, map.spec_height() as int, qx, qy, nx, ny),
            map.spec_width() as int,
            map.spec_height() as int,
        ) == grid_sum(
            arrived_fn(targets, qx, qy, nx, ny),
            map.spec_width() as int,
            map.spec_height() as int,
        ),
    decreases nx, ny,
{
    let w = map.spec_width() as int;
    let h = map.spec_height() as int;
    let now = inflow_fn(targets, w, h, qx, qy, nx, ny);
    let come = arrived_fn(targets, qx, qy, nx, ny);
    if ny > 0 {
        let (px, py) = (nx, ny - 1);
        lemma_inflow(map, targets, qx, qy, nx, ny - 1);
        let before = inflow_fn(targets, w, h, qx, qy, nx, ny - 1);
        let came = arrived_fn(targets, qx, qy, nx, ny - 1);
        let share = |sx: int, sy: int|
            if direct(targets, sx, sy, qx, qy) && drains_through(targets, px, py, sx, sy) {
                1int
            } else {
                0int
            };
        let e = if (px, py) != (qx, qy) && drains_through(targets, px, py, qx, qy) {
            1int
        } else {
            0int
        };
        assert forall|sx: int, sy: int| 0 <= sx < w && 0 <= sy < h implies #[trigger] now(sx, sy)
            == before(sx, sy) + share(sx, sy) by {
            if direct(targets, sx, sy, qx, qy) {
                let f = before_fn(targets, sx, sy, nx, ny);
                let g = before_fn(targets, sx, sy, nx, ny - 1);
                assert(f(px, py) == g(px, py) + share(sx, sy));
                lemma_grid_sum_point(f, g, w, h, px, py, share(sx, sy));
            }
        }
        lemma_grid_sum_add(before, share, now, w, h);
        assert(come(px, py) == came(px, py) + e);
        lemma_grid_sum_point(come, came, w, h, px, py, e);
        let none = |sx: int, sy: int| 0int;
        lemma_sum_nothing(none, w, h);
        if e == 1 {
            let n = choose|n: nat| #[trigger] downstream(targets, px, py, n) == (qx, qy);
            lemma_last_step(map, targets, px, py, qx, qy, n);
            let (sx, sy) = choose|sx: int, sy: int|
                map.contains(sx, sy) && direct(targets, sx, sy, qx, qy) && #[trigger] drains_through(
                    targets,
                    px,
                    py,
                    sx,
                    sy,
                );
            assert forall|ax: int, ay: int|
                0 <= ax < w && 0 <= ay < h && (ax != sx || ay != sy) implies #[trigger] share(ax, ay)
                == none(ax, ay) by {
                if share(ax, ay) == 1 {
                    lemma_one_way_in(map, targets, px, py, ax, ay, sx, sy, qx, qy);
                }
            }
            assert(share(sx, sy) == none(sx, sy) + 1);
            lemma_grid_sum_point(share, none, w, h, sx, sy, 1);
        } else {
            assert forall|ax: int, ay: int| 0 <= ax < w && 0 <= ay < h implies #[trigger] share(
                ax,
                ay,
            ) == none(ax, ay) by {
                if share(ax, ay) == 1 {
                    lemma_drains_on(targets, px, py, ax, ay);
                    assert((px, py) == (qx, qy));
                    lemma_no_return(map, targets, qx, qy, ax, ay);
                }
            }
            lemma_grid_sum_ext(share, none, w, h);
        }
    } else if nx > 0 {
        lemma_inflow(map, targets, qx, qy, nx - 1, h);
        let before = inflow_fn(targets, w, h, qx, qy, nx - 1, h);
        assert forall|sx: int, sy: int| 0 <= sx < w && 0 <= sy < h implies #[trigger] now(sx, sy)
            == before(sx, sy) by {
            lemma_grid_sum_ext(
                before_fn(targets, sx, sy, nx, ny),
                before_fn(targets, sx, sy, nx - 1, h),
                w,
                h,
            );
        }
        lemma_grid_sum_ext(now, before, w, h);
        lemma_grid_sum_ext(come, arrived_fn(targets, qx, qy, nx - 1, h), w, h);
    } else {
        assert forall|sx: int, sy: int| 0 <= sx < w && 0 <= sy < h implies #[trigger] now(sx, sy)
            == 0 by {
            lemma_sum_nothing(before_fn(targets, sx, sy, nx, ny), w, h);
        }
        lemma_sum_nothing(now, w, h);
        lemma_sum_nothing(come, w, h);
    }
}

/// Whether every cell is its own target or has it among the eight cells around
/// it, so that the line between them covers the two and no third.
pub open spec fn flows_to_neighbours(map: Grid, targets: Seq<Vec<(usize, usize)>>) -> bool {
    forall|x: int, y: int|
        map.contains(x, y) ==> line_steps(
            x,
            y,
            (#[trigger] target_of(targets, x, y)).0,
            target_of(targets, x, y).1,
        ) <= 1
}

/// Where water only flows from a cell to a cell around it, a cell shows the
/// water that passes through it and, once more, all of it that came from other
/// cells: twice the number of cells whose water passes through it, less one.
pub proof fn lemma_river_between_neighbours(
    map: Grid,
    targets: Seq<Vec<(usize, usize)>>,
    qx: int,
    qy: int,
)
    requires
        is_flow_field(targets, map),
        flow_descends(map, targets),
        flows_to_neighbours(map, targets),
        map.contains(qx, qy),
    ensures
        river_volume(targets, map.spec_width() as int, map.spec_height() as int, qx, qy) == 2
            * upstream_count(targets, map.spec_width() as int, map.spec_height() as int, qx, qy)
            - 1,
{
    let w = map.spec_width() as int;
    let h = map.spec_height() as int;
    let count = upstream_count(targets, w, h, qx, qy);
    let carried = carried_fn(targets, w, h, qx, qy);
    let inflow = inflow_fn(targets, w, h, qx, qy, w - 1, h);
    let come = arrived_fn(targets, qx, qy, w - 1, h);
    let own = |sx: int, sy: int|
        if (sx, sy) == (qx, qy) {
            count
        } else {
            0int
        };
    let none = |sx: int, sy: int| 0int;
    assert forall|sx: int, sy: int| 0 <= sx < w && 0 <= sy < h implies #[trigger] carried(sx, sy)
        == own(sx, sy) + inflow(sx, sy) by {
        let t = target_of(targets, sx, sy);
        assert(map.contains(sx, sy));
        assert(line_steps(sx, sy, t.0, t.1) <= 1);
        lemma_short_line(sx, sy, t.0, t.1, qx, qy);
        if direct(targets, sx, sy, qx, qy) {
            lemma_grid_sum_ext(
                before_fn(targets, sx, sy, w - 1, h),
                drains_fn(targets, sx, sy),
                w,
                h,
            );
        }
    }
    lemma_grid_sum_add(own, inflow, carried, w, h);
    lemma_sum_nothing(none, w, h);
    assert(own(qx, qy) == none(qx, qy) + count);
    lemma_grid_sum_point(own, none, w, h, qx, qy, count);
    lemma_inflow(map, targets, qx, qy, w - 1, h);
    let all = drains_fn(targets, qx, qy);
    assert(downstream(targets, qx, qy, 0) == (qx, qy));
    assert(all(qx, qy) == come(qx, qy) + 1);
    lemma_grid_sum_point(all, come, w, h, qx, qy, 1);
}

/// Where water only flows from a cell to a cell around it, the river never
/// falls downstream: the target of a cell shows no less water than the cell.
pub proof fn lemma_river_grows(map: Grid, targets: Seq<Vec<(usize, usize)>>, x: int, y: int)
    requires
        is_flow_field(targets, map),
        flow_descends(map, targets),
        flows_to_neighbours(map, targets),
        map.contains(x, y),
    ensures
        river_volume(
            targets,
            map.spec_width() as int,
            map.spec_height() as int,
            target_of(targets, x, y).0,
            target_of(targets, x, y).1,
        ) >= river_volume(targets, map.spec_width() as int, map.spec_height() as int, x, y),
{
    let t = target_of(targets, x, y);
    assert(map.contains(t.0, t.1));
    lemma_river_between_neighbours(map, targets, x, y);
    lemma_river_between_neighbours(map, targets, t.0, t.1);
    if t != (x, y) {
        lemma_volume_grows(map, targets, x, y);
    }
}

/// Whether the cell `(x, y)` has handed its water on.
spec fn done(pending: Grid, x: int, y: int) -> bool {
    pending.at(x, y) < 0
}

/// One for each cell before `(nx, ny)` that sends its water straight to `(cx, cy)`.
spec fn counted_fn(
    targets: Seq<Vec<(usize, usize)>>,
    cx: int,
    cy: int,
    nx: int,
    ny: int,
) -> spec_fn(int, int) -> int {
    |sx: int, sy: int|
        if direct(targets, sx, sy, cx, cy) && scanned(sx, sy, nx, ny) {
            1int
        } else {
            0int
        }
}

/// One for each cell that sends its water straight to `(cx, cy)` and still holds it.
spec fn left_fn(targets: Seq<Vec<(usize, usize)>>, pending: Grid, cx: int, cy: int) -> spec_fn(
    int,
    int,
) -> int {
    |sx: int, sy: int|
        if direct(targets, sx, sy, cx, cy) && !done(pending, sx, sy) {
            1int
        } else {
            0int
        }
}

/// Whether the water of `(px, py)` has arrived in `(cx, cy)` from another cell.
spec fn feeds(
    targets: Seq<Vec<(usize, usize)>>,
    pending: Grid,
    px: int,
    py: int,
    cx: int,
    cy: int,
) -> bool {
    exists|sx: int, sy: int|
        pending.contains(sx, sy) && done(pending, sx, sy) && direct(targets, sx, sy, cx, cy)
            && #[trigger] drains_through(targets, px, py, sx, sy)
}

spec fn fed_fn(targets: Seq<Vec<(usize, usize)>>, pending: Grid, cx: int, cy: int) -> spec_fn(
    int,
    int,
) -> int {
    |px: int, py: int|
        if feeds(targets, pending, px, py, cx, cy) {
            1int
        } else {
            0int
        }
}

spec fn drawn_fn(targets: Seq<Vec<(usize, usize)>>, pending: Grid, qx: int, qy: int) -> spec_fn(
    int,
    int,
) -> int {
    |sx: int, sy: int|
        if done(pending, sx, sy) && carries(targets, sx, sy, qx, qy) {
            upstream_count(
                targets,
                pending.spec_width() as int,
                pending.spec_height() as int,
                sx,
                sy,
            )
        } else {
            0int
        }
}

/// Each cell has counted the cells before `(nx, ny)` that send their water straight to it.
spec fn counted_ok(targets: Seq<Vec<(usize, usize)>>, pending: Grid, nx: int, ny: int) -> bool {
    forall|x: int, y: int|
        pending.contains(x, y) ==> #[trigger] pending.at(x, y) == grid_sum(
            counted_fn(targets, x, y, nx, ny),
            pending.spec_width() as int,
            pending.spec_height() as int,
        )
}

/// Each cell has handed its water on, or counts the cells that still hold water for it.
spec fn pending_ok(targets: Seq<Vec<(usize, usize)>>, pending: Grid) -> bool {
    forall|x: int, y: int|
        pending.contains(x, y) ==> #[trigger] pending.at(x, y) == -1 || pending.at(x, y)
            == grid_sum(
            left_fn(targets, pending, x, y),
            pending.spec_width() as int,
            pending.spec_height() as int,
        )
}

/// A cell hands its water on only after every cell that sends water straight to it.
spec fn closed_ok(targets: Seq<Vec<(usize, usize)>>, pending: Grid) -> bool {
    forall|sx: int, sy: int, cx: int, cy: int|
        pending.contains(sx, sy) && pending.contains(cx, cy) && done(pending, cx, cy)
            && #[trigger] direct(targets, sx, sy, cx, cy) ==> done(pending, sx, sy)
}

/// Each cell holds its own water and the water that has arrived in it.
spec fn volume_ok(targets: Seq<Vec<(usize, usize)>>, pending: Grid, volume: Grid) -> bool {
    forall|x: int, y: int|
        pending.contains(x, y) ==> #[trigger] volume.at(x, y) == 1 + grid_sum(
            fed_fn(targets, pending, x, y),
            pending.spec_width() as int,
            pending.spec_height() as int,
        )
}

/// Each cell shows the water of the lines drawn so far.
spec fn river_ok(targets: Seq<Vec<(usize, usize)>>, pending: Grid, river: Grid) -> bool {
    forall|x: int, y: int|
        pending.contains(x, y) ==> #[trigger] river.at(x, y) == grid_sum(
            drawn_fn(targets, pending, x, y),
            pending.spec_width() as int,
            pending.spec_height() as int,
        )
}

/// What holds of the three grids between two steps of the accumulation.
spec fn accumulating(
    map: Grid,
    targets: Seq<Vec<(usize, usize)>>,
    pending: Grid,
    volume: Grid,
    river: Grid,
) -> bool {
    &&& is_flow_field(targets, map)
    &&& flow_descends(map, targets)
    &&& map.spec_width() * map.spec_height() <= MAX_CELLS
    &&& pending.same_size(&map)
    &&& volume.same_size(&map)
    &&& river.same_size(&map)
    &&& pending_ok(targets, pending)
    &&& closed_ok(targets, pending)
    &&& volume_ok(targets, pending, volume)
    &&& river_ok(targets, pending, river)
}

/// No cell before `(nx, ny)` but `(cx, cy)` waits with all its water gathered.
spec fn none_waiting(pending: Grid, nx: int, ny: int, cx: int, cy: int) -> bool {
    forall|x: int, y: int|
        pending.contains(x, y) && #[trigger] pending.at(x, y) == 0 ==> !scanned(x, y, nx, ny) || (
        x,
        y,
    ) == (cx, cy)
}

proof fn lemma_sum_nothing(f: spec_fn(int, int) -> int, w: int, h: int)
    requires
        w >= 0,
        h >= 0,
        forall|x: int, y: int| 0 <= x < w && 0 <= y < h ==> #[trigger] f(x, y) == 0,
    ensures
        grid_sum(f, w, h) == 0,
{
    lemma_grid_sum_bounds(f, w, h, 0);
    assert(w * (h * 0) == 0) by (nonlinear_arith);
}

/// Counting one more cell adds one to the count of its target.
proof fn lemma_counted(
    map: Grid,
    targets: Seq<Vec<(usize, usize)>>,
    before: Grid,
    after: Grid,
    sx: int,
    sy: int,
)
    requires
        is_flow_field(targets, map),
        before.same_size(&map),
        map.contains(sx, sy),
        counted_ok(targets, before, sx, sy),
        ({
            let t = target_of(targets, sx, sy);
            if t == (sx, sy) {
                after == before
            } else {
                changed_at(before, after, t.0, t.1, before.at(t.0, t.1) + 1)
            }
        }),
    ensures
        counted_ok(targets, after, sx, sy + 1),
{
    let w = map.spec_width() as int;
    let h = map.spec_height() as int;
    let t = target_of(targets, sx, sy);
    assert(map.contains(t.0, t.1));
    assert forall|x: int, y: int| after.contains(x, y) implies #[trigger] after.at(x, y)
        == grid_sum(counted_fn(targets, x, y, sx, sy + 1), w, h) by {
        let f = counted_fn(targets, x, y, sx, sy + 1);
        let g = counted_fn(targets, x, y, sx, sy);
        assert(before.at(x, y) == grid_sum(g, w, h));
        if t != (sx, sy) && t == (x, y) {
            assert(f(sx, sy) == g(sx, sy) + 1);
            lemma_grid_sum_point(f, g, w, h, sx, sy, 1);
        } else {
            assert(f(sx, sy) == g(sx, sy));
            lemma_grid_sum_ext(f, g, w, h);
        }
    }
}

/// A count never exceeds the number of cells.
proof fn lemma_counted_bound(
    targets: Seq<Vec<(usize, usize)>>,
    pending: Grid,
    nx: int,
    ny: int,
    x: int,
    y: int,
)
    requires
        counted_ok(targets, pending, nx, ny),
        pending.contains(x, y),
    ensures
        0 <= pending.at(x, y) <= pending.spec_width() * pending.spec_height(),
{
    let w = pending.spec_width() as int;
    let h = pending.spec_height() as int;
    let f = counted_fn(targets, x, y, nx, ny);
    assert forall|px: int, py: int| 0 <= px < w && 0 <= py < h implies 0 <= #[trigger] f(px, py)
        <= 1 by {}
    lemma_grid_sum_bounds(f, w, h, 1);
    assert(w * (h * 1) == w * h) by (nonlinear_arith);
}

/// Once the cells of a column are counted, the next column starts.
proof fn lemma_counted_column(targets: Seq<Vec<(usize, usize)>>, pending: Grid, nx: int)
    requires
        counted_ok(targets, pending, nx, pending.spec_height() as int),
    ensures
        counted_ok(targets, pending, nx + 1, 0),
{
    let w = pending.spec_width() as int;
    let h = pending.spec_height() as int;
    assert forall|x: int, y: int| pending.contains(x, y) implies #[trigger] pending.at(x, y)
        == grid_sum(counted_fn(targets, x, y, nx + 1, 0), w, h) by {
        lemma_grid_sum_ext(
            counted_fn(targets, x, y, nx + 1, 0),
            counted_fn(targets, x, y, nx, h),
            w,
            h,
        );
    }
}

/// Before any cell has handed its water on, the three grids are as the steps expect them.
proof fn lemma_start(
    map: Grid,
    targets: Seq<Vec<(usize, usize)>>,
    pending: Grid,
    volume: Grid,
    river: Grid,
)
    requires
        is_flow_field(targets, map),
        flow_descends(map, targets),
        map.spec_width() * map.spec_height() <= MAX_CELLS,
        pending.same_size(&map),
        volume.same_size(&map),
        river.same_size(&map),
        counted_ok(targets, pending, map.spec_width() as int, 0),
        forall|x: int, y: int| map.contains(x, y) ==> #[trigger] volume.at(x, y) == 1,
        forall|x: int, y: int| map.contains(x, y) ==> #[trigger] river.at(x, y) == 0,
    ensures
        accumulating(map, targets, pending, volume, river),
{
    let w = map.spec_width() as int;
    let h = map.spec_height() as int;
    assert forall|x: int, y: int| pending.contains(x, y) implies 0 <= #[trigger] pending.at(x, y) by {
        lemma_counted_bound(targets, pending, w, 0, x, y);
    }
    assert forall|x: int, y: int| pending.contains(x, y) implies #[trigger] pending.at(x, y)
        == grid_sum(left_fn(targets, pending, x, y), w, h) by {
        let f = left_fn(targets, pending, x, y);
        let g = counted_fn(targets, x, y, w, 0);
        assert forall|sx: int, sy: int| 0 <= sx < w && 0 <= sy < h implies #[trigger] f(sx, sy)
            == g(sx, sy) by {
            assert(0 <= pending.at(sx, sy));
        }
        lemma_grid_sum_ext(f, g, w, h);
    }
    assert(closed_ok(targets, pending)) by {
        assert forall|sx: int, sy: int, cx: int, cy: int|
            pending.contains(sx, sy) && pending.contains(cx, cy) && done(pending, cx, cy)
                && #[trigger] direct(targets, sx, sy, cx, cy) implies done(pending, sx, sy) by {
            assert(0 <= pending.at(cx, cy));
        }
    }
    assert forall|x: int, y: int| pending.contains(x, y) implies #[trigger] volume.at(x, y) == 1
        + grid_sum(fed_fn(targets, pending, x, y), w, h) by {
        let f = fed_fn(targets, pending, x, y);
        assert forall|px: int, py: int| 0 <= px < w && 0 <= py < h implies #[trigger] f(px, py)
            == 0 by {
            if feeds(targets, pending, px, py, x, y) {
                let (sx, sy) = choose|sx: int, sy: int|
                    pending.contains(sx, sy) && done(pending, sx, sy) && direct(
                        targets,
                        sx,
                        sy,
                        x,
                        y,
                    ) && #[trigger] drains_through(targets, px, py, sx, sy);
                assert(0 <= pending.at(sx, sy));
            }
        }
        lemma_sum_nothing(f, w, h);
    }
    assert forall|x: int, y: int| pending.contains(x, y) implies #[trigger] river.at(x, y)
        == grid_sum(drawn_fn(targets, pending, x, y), w, h) by {
        let f = drawn_fn(targets, pending, x, y);
        assert forall|sx: int, sy: int| 0 <= sx < w && 0 <= sy < h implies #[trigger] f(sx, sy)
            == 0 by {
            assert(0 <= pending.at(sx, sy));
        }
        lemma_sum_nothing(f, w, h);
    }
}

/// A cell that every cell sending water straight to it has served holds all the
/// water that passes through it.
proof fn lemma_volume_complete(
    map: Grid,
    targets: Seq<Vec<(usize, usize)>>,
    pending: Grid,
    volume: Grid,
    river: Grid,
    cx: int,
    cy: int,
)
    requires
        accumulating(map, targets, pending, volume, river),
        map.contains(cx, cy),
        forall|sx: int, sy: int|
            map.contains(sx, sy) && #[trigger] direct(targets, sx, sy, cx, cy) ==> done(
                pending,
                sx,
                sy,
            ),
    ensures
        volume.at(cx, cy) == upstream_count(
            targets,
            map.spec_width() as int,
            map.spec_height() as int,
            cx,
            cy,
        ),
{
    let w = map.spec_width() as int;
    let h = map.spec_height() as int;
    let f = fed_fn(targets, pending, cx, cy);
    let g = drains_fn(targets, cx, cy);
    assert(volume.at(cx, cy) == 1 + grid_sum(f, w, h));
    assert forall|px: int, py: int|
        0 <= px < w && 0 <= py < h && (px != cx || py != cy) implies #[trigger] g(px, py) == f(
        px,
        py,
    ) by {
        if feeds(targets, pending, px, py, cx, cy) {
            let (sx, sy) = choose|sx: int, sy: int|
                pending.contains(sx, sy) && done(pending, sx, sy) && direct(targets, sx, sy, cx, cy)
                    && #[trigger] drains_through(targets, px, py, sx, sy);
            lemma_drains_on(targets, px, py, sx, sy);
        }
        if drains_through(targets, px, py, cx, cy) {
            let n = choose|n: nat| #[trigger] downstream(targets, px, py, n) == (cx, cy);
            lemma_last_step(map, targets, px, py, cx, cy, n);
        }
    }
    assert(downstream(targets, cx, cy, 0) == (cx, cy));
    assert(g(cx, cy) == 1);
    if feeds(targets, pending, cx, cy, cx, cy) {
        let (sx, sy) = choose|sx: int, sy: int|
            pending.contains(sx, sy) && done(pending, sx, sy) && direct(targets, sx, sy, cx, cy)
                && #[trigger] drains_through(targets, cx, cy, sx, sy);
        lemma_no_return(map, targets, cx, cy, sx, sy);
    }
    assert(f(cx, cy) == 0);
    lemma_grid_sum_point(g, f, w, h, cx, cy, 1);
}

/// What is known of a cell that waits with all its water gathered, and of its target.
proof fn lemma_ready(
    map: Grid,
    targets: Seq<Vec<(usize, usize)>>,
    pending: Grid,
    volume: Grid,
    river: Grid,
    sx: int,
    sy: int,
)
    requires
        accumulating(map, targets, pending, volume, river),
        map.contains(sx, sy),
        pending.at(sx, sy) == 0,
    ensures
        volume.at(sx, sy) == upstream_count(
            targets,
            map.spec_width() as int,
            map.spec_height() as int,
            sx,
            sy,
        ),
        1 <= volume.at(sx, sy) <= MAX_CELLS,
        forall|x: int, y: int|
            map.contains(x, y) ==> 0 <= #[trigger] river.at(x, y) <= 0x3fff_ffff_0000_0001,
        forall|x: int, y: int| map.contains(x, y) ==> 1 <= #[trigger] volume.at(x, y) <= 0x8000_0000,
        forall|x: int, y: int|
            map.contains(x, y) && direct(targets, x, y, sx, sy) ==> #[trigger] done(pending, x, y),
        ({
            let t = target_of(targets, sx, sy);
            t != (sx, sy) ==> map.contains(t.0, t.1) && 1 <= pending.at(t.0, t.1) <= MAX_CELLS
        }),
{
    let w = map.spec_width() as int;
    let h = map.spec_height() as int;
    assert(w * h <= 0x7fff_ffff);
    let left = left_fn(targets, pending, sx, sy);
    assert(pending.at(sx, sy) == grid_sum(left, w, h));
    assert forall|x: int, y: int|
        map.contains(x, y) && direct(targets, x, y, sx, sy) implies #[trigger] done(
        pending,
        x,
        y,
    ) by {
        lemma_grid_sum_covers(left, w, h, x, y);
    }
    lemma_volume_complete(map, targets, pending, volume, river, sx, sy);
    lemma_upstream_count_bounds(targets, w, h, sx, sy);
    assert forall|x: int, y: int| map.contains(x, y) implies 0 <= #[trigger] river.at(x, y)
        <= 0x3fff_ffff_0000_0001 by {
        let f = drawn_fn(targets, pending, x, y);
        assert forall|px: int, py: int| 0 <= px < w && 0 <= py < h implies 0 <= #[trigger] f(px, py)
            <= w * h by {
            lemma_upstream_count_bounds(targets, w, h, px, py);
        }
        lemma_grid_sum_bounds(f, w, h, w * h);
        assert(w * (h * (w * h)) <= 0x3fff_ffff_0000_0001) by (nonlinear_arith)
            requires
                0 <= w * h <= 0x7fff_ffff,
        ;
    }
    assert forall|x: int, y: int| map.contains(x, y) implies 1 <= #[trigger] volume.at(x, y)
        <= 0x8000_0000 by {
        let f = fed_fn(targets, pending, x, y);
        assert forall|px: int, py: int| 0 <= px < w && 0 <= py < h implies 0 <= #[trigger] f(px, py)
            <= 1 by {}
        lemma_grid_sum_bounds(f, w, h, 1);
        assert(w * (h * 1) == w * h) by (nonlinear_arith);
    }
    let t = target_of(targets, sx, sy);
    if t != (sx, sy) {
        assert(map.contains(t.0, t.1));
        assert(direct(targets, sx, sy, t.0, t.1));
        assert(!done(pending, t.0, t.1));
        let tl = left_fn(targets, pending, t.0, t.1);
        assert(tl(sx, sy) == 1);
        lemma_grid_sum_covers(tl, w, h, sx, sy);
        assert forall|px: int, py: int| 0 <= px < w && 0 <= py < h implies 0 <= #[trigger] tl(
            px,
            py,
        ) <= 1 by {}
        lemma_grid_sum_bounds(tl, w, h, 1);
        assert(w * (h * 1) == w * h) by (nonlinear_arith);
    }
}

/// A cell that is its own target hands nothing on, and shows its water in itself.
proof fn lemma_sink_step(
    map: Grid,
    targets: Seq<Vec<(usize, usize)>>,
    before: Grid,
    after: Grid,
    volume: Grid,
    river0: Grid,
    river1: Grid,
    sx: int,
    sy: int,
)
    requires
        accumulating(map, targets, before, volume, river0),
        map.contains(sx, sy),
        before.at(sx, sy) == 0,
        target_of(targets, sx, sy) == (sx, sy),
        changed_at(before, after, sx, sy, -1),
        river1.same_size(&river0),
        forall|x: int, y: int|
            map.contains(x, y) ==> #[trigger] river1.at(x, y) == river0.at(x, y) + (if on_line(
                sx,
                sy,
                sx,
                sy,
                x,
                y,
            ) {
                volume.at(sx, sy) as int
            } else {
                0
            }),
    ensures
        accumulating(map, targets, after, volume, river1),
{
    let w = map.spec_width() as int;
    let h = map.spec_height() as int;
    lemma_ready(map, targets, before, volume, river0, sx, sy);
    assert forall|x: int, y: int| map.contains(x, y) implies (done(after, x, y) <==> (done(
        before,
        x,
        y,
    ) || (x, y) == (sx, sy))) by {}
    assert forall|x: int, y: int| after.contains(x, y) implies #[trigger] after.at(x, y) == -1
        || after.at(x, y) == grid_sum(left_fn(targets, after, x, y), w, h) by {
        if (x, y) != (sx, sy) {
            lemma_grid_sum_ext(left_fn(targets, after, x, y), left_fn(targets, before, x, y), w, h);
        }
    }
    assert forall|x: int, y: int| after.contains(x, y) implies #[trigger] volume.at(x, y) == 1
        + grid_sum(fed_fn(targets, after, x, y), w, h) by {
        let f = fed_fn(targets, after, x, y);
        let g = fed_fn(targets, before, x, y);
        assert forall|px: int, py: int| 0 <= px < w && 0 <= py < h implies #[trigger] f(px, py)
            == g(px, py) by {
            if feeds(targets, after, px, py, x, y) {
                let (ax, ay) = choose|ax: int, ay: int|
                    after.contains(ax, ay) && done(after, ax, ay) && direct(targets, ax, ay, x, y)
                        && #[trigger] drains_through(targets, px, py, ax, ay);
                assert(done(before, ax, ay));
            }
            if feeds(targets, before, px, py, x, y) {
                let (ax, ay) = choose|ax: int, ay: int|
                    before.contains(ax, ay) && done(before, ax, ay) && direct(targets, ax, ay, x, y)
                        && #[trigger] drains_through(targets, px, py, ax, ay);
                assert(done(after, ax, ay));
            }
        }
        lemma_grid_sum_ext(f, g, w, h);
    }
    assert forall|x: int, y: int| after.contains(x, y) implies #[trigger] river1.at(x, y)
        == grid_sum(drawn_fn(targets, after, x, y), w, h) by {
        let f = drawn_fn(targets, after, x, y);
        let g = drawn_fn(targets, before, x, y);
        assert(river0.at(x, y) == grid_sum(g, w, h));
        let d = if on_line(sx, sy, sx, sy, x, y) {
            volume.at(sx, sy) as int
        } else {
            0
        };
        assert(g(sx, sy) == 0);
        assert(f(sx, sy) == g(sx, sy) + d);
        lemma_grid_sum_point(f, g, w, h, sx, sy, d);
    }
}

/// A cell that hands its water on: its target has one cell less to wait for and
/// holds the water, and the line between them shows it.
proof fn lemma_flow_step(
    map: Grid,
    targets: Seq<Vec<(usize, usize)>>,
    pending0: Grid,
    pending1: Grid,
    pending2: Grid,
    volume0: Grid,
    volume1: Grid,
    river0: Grid,
    river1: Grid,
    sx: int,
    sy: int,
)
    requires
        accumulating(map, targets, pending0, volume0, river0),
        map.contains(sx, sy),
        pending0.at(sx, sy) == 0,
        target_of(targets, sx, sy) != (sx, sy),
        changed_at(pending0, pending1, sx, sy, -1),
        ({
            let t = target_of(targets, sx, sy);
            &&& changed_at(pending1, pending2, t.0, t.1, pending0.at(t.0, t.1) - 1)
            &&& changed_at(volume0, volume1, t.0, t.1, volume0.at(t.0, t.1) + volume0.at(sx, sy))
            &&& river1.same_size(&river0)
            &&& forall|x: int, y: int|
                map.contains(x, y) ==> #[trigger] river1.at(x, y) == river0.at(x, y) + (if on_line(
                    sx,
                    sy,
                    t.0,
                    t.1,
                    x,
                    y,
                ) {
                    volume0.at(sx, sy) as int
                } else {
                    0
                })
        }),
    ensures
        accumulating(map, targets, pending2, volume1, river1),
        pending2.at(target_of(targets, sx, sy).0, target_of(targets, sx, sy).1) >= 0,
{
    let w = map.spec_width() as int;
    let h = map.spec_height() as int;
    let t = target_of(targets, sx, sy);
    lemma_ready(map, targets, pending0, volume0, river0, sx, sy);
    assert(map.contains(t.0, t.1));
    assert forall|x: int, y: int| map.contains(x, y) implies (done(pending2, x, y) <==> (done(
        pending0,
        x,
        y,
    ) || (x, y) == (sx, sy))) by {
        assert(pending1.at(x, y) == pending1.at(x, y));
    }
    assert forall|x: int, y: int| pending2.contains(x, y) implies #[trigger] pending2.at(x, y)
        == -1 || pending2.at(x, y) == grid_sum(left_fn(targets, pending2, x, y), w, h) by {
        let f = left_fn(targets, pending2, x, y);
        let g = left_fn(targets, pending0, x, y);
        if (x, y) == t {
            assert(g(sx, sy) == 1);
            assert(f(sx, sy) == g(sx, sy) + (-1));
            lemma_grid_sum_point(f, g, w, h, sx, sy, -1);
        } else if (x, y) != (sx, sy) {
            assert(pending2.at(x, y) == pending1.at(x, y));
            lemma_grid_sum_ext(f, g, w, h);
        } else {
            assert(pending2.at(x, y) == pending1.at(x, y));
        }
    }
    assert(closed_ok(targets, pending2)) by {
        assert forall|ax: int, ay: int, cx: int, cy: int|
            pending2.contains(ax, ay) && pending2.contains(cx, cy) && done(pending2, cx, cy)
                && #[trigger] direct(targets, ax, ay, cx, cy) implies done(pending2, ax, ay) by {
            if (cx, cy) == (sx, sy) {
                assert(done(pending0, ax, ay));
            } else {
                assert(done(pending0, cx, cy));
            }
        }
    }
    assert forall|x: int, y: int| pending2.contains(x, y) implies #[trigger] volume1.at(x, y) == 1
        + grid_sum(fed_fn(targets, pending2, x, y), w, h) by {
        let f = fed_fn(targets, pending2, x, y);
        let g = fed_fn(targets, pending0, x, y);
        assert(volume0.at(x, y) == 1 + grid_sum(g, w, h));
        if (x, y) == t {
            let d = drains_fn(targets, sx, sy);
            assert forall|px: int, py: int| 0 <= px < w && 0 <= py < h implies #[trigger] f(px, py)
                == g(px, py) + d(px, py) by {
                if feeds(targets, pending0, px, py, x, y) {
                    let (ax, ay) = choose|ax: int, ay: int|
                        pending0.contains(ax, ay) && done(pending0, ax, ay) && direct(
                            targets,
                            ax,
                            ay,
                            x,
                            y,
                        ) && #[trigger] drains_through(targets, px, py, ax, ay);
                    assert(done(pending2, ax, ay));
                    assert(feeds(targets, pending2, px, py, x, y));
                    if drains_through(targets, px, py, sx, sy) {
                        lemma_one_way_in(map, targets, px, py, ax, ay, sx, sy, x, y);
                    }
                } else if drains_through(targets, px, py, sx, sy) {
                    assert(done(pending2, sx, sy));
                    assert(feeds(targets, pending2, px, py, x, y));
                } else {
                    if feeds(targets, pending2, px, py, x, y) {
                        let (ax, ay) = choose|ax: int, ay: int|
                            pending2.contains(ax, ay) && done(pending2, ax, ay) && direct(
                                targets,
                                ax,
                                ay,
                                x,
                                y,
                            ) && #[trigger] drains_through(targets, px, py, ax, ay);
                        assert(done(pending0, ax, ay));
                    }
                }
            }
            lemma_grid_sum_add(g, d, f, w, h);
        } else {
            assert(volume1.at(x, y) == volume0.at(x, y));
            assert forall|px: int, py: int| 0 <= px < w && 0 <= py < h implies #[trigger] f(px, py)
                == g(px, py) by {
                if feeds(targets, pending2, px, py, x, y) {
                    let (ax, ay) = choose|ax: int, ay: int|
                        pending2.contains(ax, ay) && done(pending2, ax, ay) && direct(
                            targets,
                            ax,
                            ay,
                            x,
                            y,
                        ) && #[trigger] drains_through(targets, px, py, ax, ay);
                    assert(done(pending0, ax, ay));
                }
                if feeds(targets, pending0, px, py, x, y) {
                    let (ax, ay) = choose|ax: int, ay: int|
                        pending0.contains(ax, ay) && done(pending0, ax, ay) && direct(
                            targets,
                            ax,
                            ay,
                            x,
                            y,
                        ) && #[trigger] drains_through(targets, px, py, ax, ay);
                    assert(done(pending2, ax, ay));
                }
            }
            lemma_grid_sum_ext(f, g, w, h);
        }
    }
    assert forall|x: int, y: int| pending2.contains(x, y) implies #[trigger] river1.at(x, y)
        == grid_sum(drawn_fn(targets, pending2, x, y), w, h) by {
        let f = drawn_fn(targets, pending2, x, y);
        let g = drawn_fn(targets, pending0, x, y);
        assert(river0.at(x, y) == grid_sum(g, w, h));
        let d = if on_line(sx, sy, t.0, t.1, x, y) {
            volume0.at(sx, sy) as int
        } else {
            0
        };
        assert(g(sx, sy) == 0);
        assert(f(sx, sy) == g(sx, sy) + d);
        lemma_grid_sum_point(f, g, w, h, sx, sy, d);
    }
}

/// A cell that has not handed its water on waits for a higher cell that has not either.
proof fn lemma_all_done(
    map: Grid,
    targets: Seq<Vec<(usize, usize)>>,
    pending: Grid,
    volume: Grid,
    river: Grid,
    x: int,
    y: int,
)
    requires
        accumulating(map, targets, pending, volume, river),
        none_waiting(pending, map.spec_width() as int, 0, -1, -1),
        map.contains(x, y),
    ensures
        done(pending, x, y),
    decreases i64::MAX - map.at(x, y),
{
    if !done(pending, x, y) {
        let w = map.spec_width() as int;
        let h = map.spec_height() as int;
        let f = left_fn(targets, pending, x, y);
        assert(pending.at(x, y) == grid_sum(f, w, h));
        assert(scanned(x, y, w, 0));
        assert(pending.at(x, y) != 0);
        if forall|sx: int, sy: int| 0 <= sx < w && 0 <= sy < h ==> #[trigger] f(sx, sy) == 0 {
            lemma_sum_nothing(f, w, h);
        }
        let (sx, sy) = choose|sx: int, sy: int|
            0 <= sx < w && 0 <= sy < h && #[trigger] f(sx, sy) != 0;
        assert(direct(targets, sx, sy, x, y));
        assert(target_of(targets, sx, sy) == (sx, sy) || map.at(
            target_of(targets, sx, sy).0,
            target_of(targets, sx, sy).1,
        ) < map.at(sx, sy));
        lemma_all_done(map, targets, pending, volume, river, sx, sy);
    }
}

/// Once no cell waits any more, every cell holds the water that passes through
/// it, and every cell shows the water of the lines that cover it.
proof fn lemma_finished(
    map: Grid,
    targets: Seq<Vec<(usize, usize)>>,
    pending: Grid,
    volume: Grid,
    river: Grid,
)
    requires
        accumulating(map, targets, pending, volume, river),
        none_waiting(pending, map.spec_width() as int, 0, -1, -1),
    ensures
        forall|x: int, y: int|
            map.contains(x, y) ==> #[trigger] volume.at(x, y) == upstream_count(
                targets,
                map.spec_width() as int,
                map.spec_height() as int,
                x,
                y,
            ),
        forall|x: int, y: int|
            map.contains(x, y) ==> #[trigger] river.at(x, y) == river_volume(
                targets,
                map.spec_width() as int,
                map.spec_height() as int,
                x,
                y,
            ),
{
    let w = map.spec_width() as int;
    let h = map.spec_height() as int;
    assert forall|x: int, y: int| map.contains(x, y) implies done(pending, x, y) by {
        lemma_all_done(map, targets, pending, volume, river, x, y);
    }
    assert forall|x: int, y: int| map.contains(x, y) implies #[trigger] volume.at(x, y)
        == upstream_count(targets, w, h, x, y) by {
        lemma_volume_complete(map, targets, pending, volume, river, x, y);
    }
    assert forall|x: int, y: int| map.contains(x, y) implies #[trigger] river.at(x, y)
        == river_volume(targets, w, h, x, y) by {
        lemma_grid_sum_ext(drawn_fn(targets, pending, x, y), carried_fn(targets, w, h, x, y), w, h);
    }
}

/// Lets every cell hand the water that passes through it on to its flow
/// target, and returns how much passes through each cell and how much the
/// lines between the cells and their targets show in each cell.
fn accumulate(map: &Grid, cell_targets: &Vec<Vec<(usize, usize)>>) -> (grids: (Grid, Grid))
    requires
        is_flow_field(cell_targets@, *map),
        flow_descends(*map, cell_targets@),
        map.spec_width() * map.spec_height() <= MAX_CELLS,
    ensures
        grids.0.same_size(map),
        grids.1.same_size(map),
        forall|x: int, y: int|
            map.contains(x, y) ==> #[trigger] grids.0.at(x, y) == upstream_count(
                cell_targets@,
                map.spec_width() as int,
                map.spec_height() as int,
                x,
                y,
            ),
        forall|x: int, y: int|
            map.contains(x, y) ==> #[trigger] grids.1.at(x, y) == river_volume(
                cell_targets@,
                map.spec_width() as int,
                map.spec_height() as int,
                x,
                y,
            ),
{
    let width = map.width();
    let height = map.height();
    let mut flow_map = Grid::new(width, height);

    // how many other cells 'target' this cell and still hold their water;
    // -1 once the cell has handed its own water on
    let mut pending = Grid::new(width, height);
    // how much volume flows through each cell
    let mut volume = Grid::new(width, height);
    let unit = |_h: i64| -> (one: i64)
        ensures
            one == 1,
        {
            let one: i64 = 1;
            one
        };
    volume.map(unit);

    proof {
        assert forall|x: int, y: int| pending.contains(x, y) implies #[trigger] pending.at(x, y)
            == grid_sum(counted_fn(cell_targets@, x, y, 0, 0), width as int, height as int) by {
            lemma_sum_nothing(counted_fn(cell_targets@, x, y, 0, 0), width as int, height as int);
        }
    }

    // finding how many times each cell is targeted
    let mut x: usize = 0;
    while x < width
        invariant
            is_flow_field(cell_targets@, *map),
            width == map.spec_width(),
            height == map.spec_height(),
            width * height <= MAX_CELLS,
            pending.same_size(map),
            x <= width,
            counted_ok(cell_targets@, pending, x as int, 0),
        decreases width - x,
    {
        let mut y: usize = 0;
        while y < height
            invariant
                is_flow_field(cell_targets@, *map),
                width == map.spec_width(),
                height == map.spec_height(),
                width * height <= MAX_CELLS,
                pending.same_size(map),
                x < width,
                y <= height,
                counted_ok(cell_targets@, pending, x as int, y as int),
            decreases height - y,
        {
            let (nx, ny) = cell_targets[x][y];
            let ghost before = pending;
            proof {
                assert(map.contains(
                    target_of(cell_targets@, x as int, y as int).0,
                    target_of(cell_targets@, x as int, y as int).1,
                ));
                lemma_counted_bound(cell_targets@, pending, x as int, y as int, nx as int, ny as int);
            }
            if nx != x || ny != y {
                let count = pending.get(nx, ny);
                pending.set(nx, ny, count + 1);
            }
            proof {
                lemma_counted(*map, cell_targets@, before, pending, x as int, y as int);
            }
            y += 1;
        }
        proof {
            lemma_counted_column(cell_targets@, pending, x as int);
        }
        x += 1;
    }

    proof {
        lemma_start(*map, cell_targets@, pending, volume, flow_map);
    }

    let mut x: usize = 0;
    while x < width
        invariant
            width == map.spec_width(),
            height == map.spec_height(),
            width * height * 8 <= isize::MAX,
            x <= width,
            accumulating(*map, cell_targets@, pending, volume, flow_map),
            none_waiting(pending, x as int, 0, -1, -1),
        decreases width - x,
    {
        let mut y: usize = 0;
        while y < height
            invariant
                width == map.spec_width(),
                height == map.spec_height(),
                width * height * 8 <= isize::MAX,
                x < width,
                y <= height,
                accumulating(*map, cell_targets@, pending, volume, flow_map),
                none_waiting(pending, x as int, y as int, -1, -1),
            decreases height - y,
        {
            if pending.get(x, y) == 0 {
                proof {
                    assert(width * 8 <= isize::MAX && height * 8 <= isize::MAX) by (nonlinear_arith)
                        requires
                            width * height * 8 <= isize::MAX,
                            width > 0,
                            height > 0,
                    ;
                }
                let mut cx = x;
                let mut cy = y;
                loop
                    invariant_except_break
                        pending.at(cx as int, cy as int) == 0,
                        none_waiting(pending, x as int, y + 1, cx as int, cy as int),
                    invariant
                        width == map.spec_width(),
                        height == map.spec_height(),
                        width * 8 <= isize::MAX,
                        height * 8 <= isize::MAX,
                        x < width,
                        y < height,
                        map.contains(cx as int, cy as int),
                        accumulating(*map, cell_targets@, pending, volume, flow_map),
                    ensures
                        none_waiting(pending, x as int, y + 1, -1, -1),
                    decreases map.at(cx as int, cy as int) - i64::MIN,
                {
                    let ghost pending0 = pending;
                    let ghost volume0 = volume;
                    let ghost river0 = flow_map;
                    proof {
                        lemma_ready(
                            *map,
                            cell_targets@,
                            pending,
                            volume,
                            flow_map,
                            cx as int,
                            cy as int,
                        );
                    }
                    // prevent processing this cell twice
                    pending.set(cx, cy, -1);
                    let ghost pending1 = pending;

                    let (nx, ny) = cell_targets[cx][cy];
                    proof {
                        assert(map.contains(
                            target_of(cell_targets@, cx as int, cy as int).0,
                            target_of(cell_targets@, cx as int, cy as int).1,
                        ));
                    }

                    let amount = volume.get(cx, cy);
                    let stroke = |h: i64| -> (r: i64)
                        requires
                            0 <= h <= 0x3fff_ffff_0000_0001,
                        ensures
                            r == h + amount,
                        { h + amount };
                    proof {
                        lemma_stroke_accepts(
                            stroke,
                            flow_map,
                            cx as int,
                            cy as int,
                            nx as int,
                            ny as int,
                        );
                    }
                    draw_line(&mut flow_map, cx as isize, cy as isize, nx as isize, ny as isize, stroke);
                    proof {
                        lemma_added_along_line(
                            stroke,
                            amount as int,
                            river0,
                            flow_map,
                            cx as int,
                            cy as int,
                            nx as int,
                            ny as int,
                        );
                    }
                    if nx == cx && ny == cy {
                        // a sink keeps its water
                        proof {
                            lemma_sink_step(
                                *map,
                                cell_targets@,
                                pending0,
                                pending,
                                volume,
                                river0,
                                flow_map,
                                cx as int,
                                cy as int,
                            );
                        }
                        break ;
                    }
                    let gathered = volume.get(nx, ny);
                    volume.set(nx, ny, gathered + amount);
                    let left = pending.get(nx, ny) - 1;
                    pending.set(nx, ny, left);
                    proof {
                        lemma_flow_step(
                            *map,
                            cell_targets@,
                            pending0,
                            pending1,
                            pending,
                            volume0,
                            volume,
                            river0,
                            flow_map,
                            cx as int,
                            cy as int,
                        );
                    }

                    if left == 0 {
                        // if all the cells which target (nx, ny) have been processed, (nx, ny) can
                        // now be processed
                        cx = nx;
                        cy = ny;
                    } else {
                        break ;
                    }
                }
            }
            y += 1;
        }
        x += 1;
    }

    proof {
        lemma_finished(*map, cell_targets@, pending, volume, flow_map);
    }
    (volume, flow_map)
}

/// Calculates how much water passes through each cell of the terrain given in `map`.
///
/// Every cell holds one unit of water of its own and hands it, with all that
/// arrives in it, on to its flow target; a cell that is its own target keeps what
/// arrives. A cell of the result holds the number of cells whose water passes
/// through it, the cell itself included: a count of cells, not a volume in
/// units of `ONE`.
pub fn create_volume_map(map: &Grid, cell_targets: &Vec<Vec<(usize, usize)>>) -> (volume: Grid)
    requires
        is_flow_field(cell_targets@, *map),
        flow_descends(*map, cell_targets@),
        map.spec_width() * map.spec_height() <= MAX_CELLS,
    ensures
        volume.same_size(map),
        forall|x: int, y: int|
            map.contains(x, y) ==> #[trigger] volume.at(x, y) == upstream_count(
                cell_targets@,
                map.spec_width() as int,
                map.spec_height() as int,
                x,
                y,
            ),
{
    accumulate(map, cell_targets).0
}

/// Calculates the flow map of the terrain given in `map`.
///
/// It does so by distributing water on each cell of the map and drawing
/// all of the waters path onto the flow_map, which it returns: every cell draws
/// a line to its target, both ends included, which adds the water that passes
/// through the cell to every cell it covers. A cell that is its own target
/// draws the line of one cell, itself.
///
/// The result is counted in cells: water is not measured in units of `ONE` here.
pub fn create_flow_map(map: &Grid, cell_targets: &Vec<Vec<(usize, usize)>>) -> (flow_map: Grid)
    requires
        is_flow_field(cell_targets@, *map),
        flow_descends(*map, cell_targets@),
        map.spec_width() * map.spec_height() <= MAX_CELLS,
    ensures
        flow_map.same_size(map),
        forall|x: int, y: int|
            map.contains(x, y) ==> #[trigger] flow_map.at(x, y) == river_volume(
                cell_targets@,
                map.spec_width() as int,
                map.spec_height() as int,
                x,
                y,
            ),
{
    accumulate(map, cell_targets).1
}

/// Checks whether `cell_targets` is a flow field of `map` in which water only
/// descends: it has an entry for every cell, and every entry names the cell
/// itself or a cell of the map that is strictly lower.
pub fn is_descending_field(map: &Grid, cell_targets: &Vec<Vec<(usize, usize)>>) -> (ok: bool)
    ensures
        ok == (is_flow_field(cell_targets@, *map) && flow_descends(*map, cell_targets@)),
{
    let width = map.width();
    let height = map.height();
    if cell_targets.len() != width {
        return false;
    }
    let mut x: usize = 0;
    while x < width
        invariant
            width == map.spec_width(),
            height == map.spec_height(),
            cell_targets@.len() == width,
            x <= width,
            forall|i: int| 0 <= i < x ==> (#[trigger] cell_targets@[i])@.len() == height,
            forall|i: int, j: int|
                0 <= i < x && 0 <= j < height ==> map.contains(
                    (#[trigger] target_of(cell_targets@, i, j)).0,
                    target_of(cell_targets@, i, j).1,
                ) && (target_of(cell_targets@, i, j) == (i, j) || map.at(
                    target_of(cell_targets@, i, j).0,
                    target_of(cell_targets@, i, j).1,
                ) < map.at(i, j)),
        decreases width - x,
    {
        if cell_targets[x].len() != height {
            return false;
        }
        let mut y: usize = 0;
        while y < height
            invariant
                width == map.spec_width(),
                height == map.spec_height(),
                cell_targets@.len() == width,
                x < width,
                y <= height,
                cell_targets@[x as int]@.len() == height,
                forall|i: int| 0 <= i < x ==> (#[trigger] cell_targets@[i])@.len() == height,
                forall|i: int, j: int|
                    ((0 <= i < x && 0 <= j < height) || (i == x && 0 <= j < y)) ==> map.contains(
                        (#[trigger] target_of(cell_targets@, i, j)).0,
                        target_of(cell_targets@, i, j).1,
                    ) && (target_of(cell_targets@, i, j) == (i, j) || map.at(
                        target_of(cell_targets@, i, j).0,
                        target_of(cell_targets@, i, j).1,
                    ) < map.at(i, j)),
            decreases height - y,
        {
            let (tx, ty) = cell_targets[x][y];
            proof {
                assert(target_of(cell_targets@, x as int, y as int) == (tx as int, ty as int));
            }
            if tx >= width || ty >= height {
                return false;
            }
            if (tx != x || ty != y) && !(map.get(tx, ty) < map.get(x, y)) {
                return false;
            }
            y += 1;
        }
        x += 1;
    }
    true
}

} // verus!
