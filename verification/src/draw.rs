//! Lines on a grid: which cells a line covers, and a stroke applied to each of them once.

use crate::grid::Grid;
use vstd::prelude::*;

verus! {

/// Distance between two coordinates.
pub open spec fn span(a: int, b: int) -> int {
    if b >= a {
        b - a
    } else {
        a - b
    }
}

/// The coordinate `n` steps away from `from` in the direction of `to`.
#[verifier::opaque]
pub open spec fn toward(from: int, to: int, n: int) -> int {
    if to > from {
        from + n
    } else {
        from - n
    }
}

/// Steps taken along the shorter side once `i` steps are taken along the longer
/// one: `short * i / long`, rounded to the nearest whole number, halves upward.
#[verifier::opaque]
pub open spec fn minor_steps(long: int, short: int, i: int) -> int {
    if long <= 0 {
        0
    } else {
        (2 * short * i + long) / (2 * long)
    }
}

/// Number of steps of the line from `(x1, y1)` to `(x2, y2)`; it has one cell more.
pub open spec fn line_steps(x1: int, y1: int, x2: int, y2: int) -> int {
    if span(y1, y2) <= span(x1, x2) {
        span(x1, x2)
    } else {
        span(y1, y2)
    }
}

/// The cell of the line from `(x1, y1)` to `(x2, y2)` that is drawn after `i` steps.
pub open spec fn line_cell(x1: int, y1: int, x2: int, y2: int, i: int) -> (int, int)
    recommends
        0 <= i <= line_steps(x1, y1, x2, y2),
{
    let dx = span(x1, x2);
    let dy = span(y1, y2);
    if dy <= dx {
        (toward(x1, x2, i), toward(y1, y2, minor_steps(dx, dy, i)))
    } else {
        (toward(x1, x2, minor_steps(dy, dx, i)), toward(y1, y2, i))
    }
}

/// Whether the line from `(x1, y1)` to `(x2, y2)` covers the cell `(px, py)`.
pub open spec fn on_line(x1: int, y1: int, x2: int, y2: int, px: int, py: int) -> bool {
    exists|i: int|
        0 <= i <= line_steps(x1, y1, x2, y2) && #[trigger] line_cell(x1, y1, x2, y2, i) == (px, py)
}

/// One more step leads one coordinate further, and no step leads outside the
/// two ends before as many steps are taken as lie between them.
proof fn lemma_toward(from: int, to: int, n: int)
    ensures
        toward(from, to, n + 1) == toward(from, to, n) + (if to > from {
            1int
        } else {
            -1
        }),
        toward(from, to, 0) == from,
        0 <= n <= span(from, to) ==> (from <= toward(from, to, n) <= to) || (to <= toward(
            from,
            to,
            n,
        ) <= from),
{
    reveal(toward);
}

/// The product of two whole numbers, kept out of sight of the loops below.
#[verifier::opaque]
spec fn times(a: int, b: int) -> int {
    a * b
}

proof fn lemma_times_step(a: int, b: int)
    ensures
        times(a, b + 1) == times(a, b) + a,
        times(a, 0) == 0,
{
    reveal(times);
    assert(a * (b + 1) == a * b + a) by (nonlinear_arith);
}

/// A count of steps that lies between the two roundings is the rounded quotient.
proof fn lemma_minor_steps(long: int, short: int, i: int, j: int, si: int, lj: int)
    requires
        long > 0,
        0 <= short <= long,
        0 <= i <= long,
        si == times(short, i),
        lj == times(long, j),
        2 * lj <= 2 * si + long < 2 * lj + 2 * long,
    ensures
        j == minor_steps(long, short, i),
        0 <= j <= short,
        i == long ==> j == short,
        i == 0 ==> j == 0,
{
    reveal(times);
    reveal(minor_steps);
    assert(si == short * i);
    assert(lj == long * j);
    let a = 2 * short * i + long;
    let b = 2 * long;
    assert(a == 2 * si + long) by (nonlinear_arith)
        requires
            si == short * i,
            a == 2 * short * i + long,
    ;
    assert(b * j == 2 * lj && b * (j + 1) == 2 * lj + 2 * long) by (nonlinear_arith)
        requires
            lj == long * j,
            b == 2 * long,
    ;
    assert(j == a / b) by (nonlinear_arith)
        requires
            b > 0,
            b * j <= a,
            a < b * (j + 1),
    ;
    assert(j >= 0) by (nonlinear_arith)
        requires
            a < b * (j + 1),
            a >= 0,
            b > 0,
    ;
    assert(si <= short * long) by (nonlinear_arith)
        requires
            si == short * i,
            0 <= i <= long,
            0 <= short,
    ;
    assert(j <= short) by (nonlinear_arith)
        requires
            2 * (long * j) <= 2 * (short * long) + long,
            long > 0,
    ;
    if i == long {
        assert(j >= short) by (nonlinear_arith)
            requires
                2 * (short * long) + long < 2 * (long * j) + 2 * long,
                long > 0,
        ;
    }
    if i == 0 {
        assert(si == 0) by (nonlinear_arith)
            requires
                si == short * i,
                i == 0,
        ;
        assert(j <= 0) by (nonlinear_arith)
            requires
                2 * (long * j) <= long,
                long > 0,
        ;
    }
}

/// The steps along the shorter side never exceed its length, are none at the
/// start and all of them at the end.
pub proof fn lemma_minor_steps_bounds(long: int, short: int, i: int)
    requires
        long > 0,
        0 <= short <= long,
        0 <= i <= long,
    ensures
        0 <= minor_steps(long, short, i) <= short,
        i == long ==> minor_steps(long, short, i) == short,
        i == 0 ==> minor_steps(long, short, i) == 0,
{
    reveal(times);
    reveal(minor_steps);
    let a = 2 * short * i + long;
    let b = 2 * long;
    let j = a / b;
    assert(b * j <= a && a < b * (j + 1)) by (nonlinear_arith)
        requires
            b > 0,
            j == a / b,
    ;
    assert(a == 2 * (short * i) + long) by (nonlinear_arith)
        requires
            a == 2 * short * i + long,
    ;
    assert(b * j == 2 * (long * j) && b * (j + 1) == 2 * (long * j) + 2 * long)
        by (nonlinear_arith)
        requires
            b == 2 * long,
    ;
    lemma_minor_steps(long, short, i, j, times(short, i), times(long, j));
}

/// Every cell of a line lies in the box spanned by its two ends.
pub proof fn lemma_line_cell_in_box(x1: int, y1: int, x2: int, y2: int, i: int)
    requires
        0 <= i <= line_steps(x1, y1, x2, y2),
    ensures
        ({
            let c = line_cell(x1, y1, x2, y2, i);
            &&& (x1 <= c.0 <= x2 || x2 <= c.0 <= x1)
            &&& (y1 <= c.1 <= y2 || y2 <= c.1 <= y1)
        }),
{
    reveal(toward);
    let dx = span(x1, x2);
    let dy = span(y1, y2);
    if dy <= dx {
        if dx > 0 {
            lemma_minor_steps_bounds(dx, dy, i);
        } else {
            reveal(minor_steps);
        }
    } else {
        lemma_minor_steps_bounds(dy, dx, i);
    }
}

/// A line starts in its first end and stops in its second.
pub proof fn lemma_line_ends(x1: int, y1: int, x2: int, y2: int)
    ensures
        line_cell(x1, y1, x2, y2, 0) == (x1, y1),
        line_cell(x1, y1, x2, y2, line_steps(x1, y1, x2, y2)) == (x2, y2),
        on_line(x1, y1, x2, y2, x1, y1),
        on_line(x1, y1, x2, y2, x2, y2),
{
    reveal(toward);
    let dx = span(x1, x2);
    let dy = span(y1, y2);
    if dy <= dx {
        if dx > 0 {
            lemma_minor_steps_bounds(dx, dy, 0);
            lemma_minor_steps_bounds(dx, dy, dx);
        } else {
            reveal(minor_steps);
        }
    } else {
        lemma_minor_steps_bounds(dy, dx, 0);
        lemma_minor_steps_bounds(dy, dx, dy);
    }
}

/// No cell is drawn twice: cells drawn after different numbers of steps differ.
pub proof fn lemma_line_cells_distinct(x1: int, y1: int, x2: int, y2: int, i: int, k: int)
    requires
        i != k,
    ensures
        line_cell(x1, y1, x2, y2, i) != line_cell(x1, y1, x2, y2, k),
{
    reveal(toward);
}

/// A line of one step or none covers its two ends and nothing else.
pub proof fn lemma_short_line(x1: int, y1: int, x2: int, y2: int, px: int, py: int)
    requires
        line_steps(x1, y1, x2, y2) <= 1,
    ensures
        on_line(x1, y1, x2, y2, px, py) <==> ((px, py) == (x1, y1) || (px, py) == (x2, y2)),
{
    lemma_line_ends(x1, y1, x2, y2);
    if on_line(x1, y1, x2, y2, px, py) {
        let i = choose|i: int|
            0 <= i <= line_steps(x1, y1, x2, y2) && #[trigger] line_cell(x1, y1, x2, y2, i) == (
                px,
                py,
            );
        assert(i == 0 || i == line_steps(x1, y1, x2, y2));
    }
}

/// Value that `grid` holds in the cell drawn after `i` steps.
pub open spec fn line_value(grid: Grid, x1: int, y1: int, x2: int, y2: int, i: int) -> i64 {
    grid.at(line_cell(x1, y1, x2, y2, i).0, line_cell(x1, y1, x2, y2, i).1)
}

/// `cur` is `start` with the first `n` cells of the line drawn by `fun`.
#[verifier::opaque]
pub open spec fn drawn_prefix<F: Fn(i64) -> i64>(
    fun: F,
    start: Grid,
    cur: Grid,
    x1: int,
    y1: int,
    x2: int,
    y2: int,
    n: int,
) -> bool {
    &&& cur.same_size(&start)
    &&& forall|px: int, py: int|
        start.contains(px, py) && !on_line(x1, y1, x2, y2, px, py) ==> cur.at(px, py) == start.at(
            px,
            py,
        )
    &&& forall|k: int|
        0 <= k < n && k <= line_steps(x1, y1, x2, y2) ==> call_ensures(
            fun,
            (#[trigger] line_value(start, x1, y1, x2, y2, k),),
            line_value(cur, x1, y1, x2, y2, k),
        )
    &&& forall|k: int|
        n <= k <= line_steps(x1, y1, x2, y2) ==> #[trigger] line_value(cur, x1, y1, x2, y2, k)
            == line_value(start, x1, y1, x2, y2, k)
}

/// Whether `fun` may be called on every value that `grid` holds along the line.
#[verifier::opaque]
pub open spec fn stroke_accepts<F: Fn(i64) -> i64>(
    fun: F,
    grid: Grid,
    x1: int,
    y1: int,
    x2: int,
    y2: int,
) -> bool {
    forall|i: int|
        0 <= i <= line_steps(x1, y1, x2, y2) ==> call_requires(
            fun,
            (#[trigger] line_value(grid, x1, y1, x2, y2, i),),
        )
}

proof fn lemma_draw_start<F: Fn(i64) -> i64>(
    fun: F,
    start: Grid,
    x1: int,
    y1: int,
    x2: int,
    y2: int,
)
    ensures
        drawn_prefix(fun, start, start, x1, y1, x2, y2, 0),
{
    reveal(drawn_prefix);
}

proof fn lemma_draw_ready<F: Fn(i64) -> i64>(
    fun: F,
    start: Grid,
    cur: Grid,
    x1: int,
    y1: int,
    x2: int,
    y2: int,
    n: int,
)
    requires
        0 <= n <= line_steps(x1, y1, x2, y2),
        stroke_accepts(fun, start, x1, y1, x2, y2),
        drawn_prefix(fun, start, cur, x1, y1, x2, y2, n),
    ensures
        call_requires(fun, (line_value(cur, x1, y1, x2, y2, n),)),
        cur.same_size(&start),
{
    reveal(drawn_prefix);
    reveal(stroke_accepts);
    assert(line_value(cur, x1, y1, x2, y2, n) == line_value(start, x1, y1, x2, y2, n));
}

proof fn lemma_draw_step<F: Fn(i64) -> i64>(
    fun: F,
    start: Grid,
    before: Grid,
    after: Grid,
    x1: int,
    y1: int,
    x2: int,
    y2: int,
    n: int,
)
    requires
        start.contains(x1, y1),
        start.contains(x2, y2),
        0 <= n <= line_steps(x1, y1, x2, y2),
        drawn_prefix(fun, start, before, x1, y1, x2, y2, n),
        after.same_size(&before),
        call_ensures(
            fun,
            (line_value(before, x1, y1, x2, y2, n),),
            line_value(after, x1, y1, x2, y2, n),
        ),
        forall|px: int, py: int|
            before.contains(px, py) && (px, py) != line_cell(x1, y1, x2, y2, n) ==> after.at(px, py)
                == before.at(px, py),
    ensures
        drawn_prefix(fun, start, after, x1, y1, x2, y2, n + 1),
{
    reveal(drawn_prefix);
    assert forall|k: int| 0 <= k <= line_steps(x1, y1, x2, y2) && k != n implies line_value(
        after,
        x1,
        y1,
        x2,
        y2,
        k,
    ) == line_value(before, x1, y1, x2, y2, k) by {
        lemma_line_cell_in_box(x1, y1, x2, y2, k);
        lemma_line_cells_distinct(x1, y1, x2, y2, k, n);
    }
    assert forall|k: int| 0 <= k < n + 1 && k <= line_steps(x1, y1, x2, y2) implies call_ensures(
        fun,
        (#[trigger] line_value(start, x1, y1, x2, y2, k),),
        line_value(after, x1, y1, x2, y2, k),
    ) by {
        if k == n {
            assert(line_value(before, x1, y1, x2, y2, n) == line_value(start, x1, y1, x2, y2, n));
        }
    }
    assert forall|px: int, py: int|
        start.contains(px, py) && !on_line(x1, y1, x2, y2, px, py) implies after.at(px, py)
        == start.at(px, py) by {
        assert(line_cell(x1, y1, x2, y2, n) != (px, py));
    }
}

/// Draws a line on the `map` from `(x1, y1)` to `(x2, y2)`.
///
/// The stroke `fun` is given the value a cell holds and returns what is written
/// back, so `|h| h + 1` raises the cells and `|_| 1` marks them. Every cell of
/// the line is drawn once, both ends included, from `(x1, y1)` onward.
///
/// The cells are those of Bresenham's algorithm, taken along the longer side of
/// the box between the two ends.
#[inline]
pub fn draw_line<F: Fn(i64) -> i64>(
    map: &mut Grid,
    x1: isize,
    y1: isize,
    x2: isize,
    y2: isize,
    fun: F,
)
    requires
        old(map).contains(x1 as int, y1 as int),
        old(map).contains(x2 as int, y2 as int),
        stroke_accepts(fun, *old(map), x1 as int, y1 as int, x2 as int, y2 as int),
    ensures
        drawn_prefix(
            fun,
            *old(map),
            *final(map),
            x1 as int,
            y1 as int,
            x2 as int,
            y2 as int,
            line_steps(x1 as int, y1 as int, x2 as int, y2 as int) + 1,
        ),
{
    let width = map.width();
    let height = map.height();
    proof {
        assert(width * 8 <= isize::MAX && height * 8 <= isize::MAX) by (nonlinear_arith)
            requires
                width * height * 8 <= isize::MAX,
                width > 0,
                height > 0,
        ;
    }
    let dx: isize = if x2 >= x1 {
        x2 - x1
    } else {
        x1 - x2
    };
    let dy: isize = if y2 >= y1 {
        y2 - y1
    } else {
        y1 - y2
    };
    let sx: isize = if x2 > x1 {
        1
    } else {
        -1
    };
    let sy: isize = if y2 > y1 {
        1
    } else {
        -1
    };

    let (long, short, swap) = if dy <= dx {
        (dx, dy, false)
    } else {
        (dy, dx, true)
    };

    let mut d: isize = 2 * short - long;
    let mut x: isize = x1;
    let mut y: isize = y1;
    let mut i: isize = 0;
    let ghost mut j: int = 0;
    let ghost mut si: int = 0;
    let ghost mut lj: int = 0;
    proof {
        lemma_line_ends(x1 as int, y1 as int, x2 as int, y2 as int);
        lemma_toward(x1 as int, x2 as int, 0);
        lemma_toward(y1 as int, y2 as int, 0);
        if long > 0 {
            lemma_minor_steps_bounds(long as int, short as int, 0);
        }
        lemma_draw_start(fun, *old(map), x1 as int, y1 as int, x2 as int, y2 as int);
        lemma_times_step(short as int, 0);
        lemma_times_step(long as int, 0);
    }

    while i < long
        invariant
            width == old(map).spec_width(),
            height == old(map).spec_height(),
            width * 8 <= isize::MAX,
            height * 8 <= isize::MAX,
            old(map).contains(x1 as int, y1 as int),
            old(map).contains(x2 as int, y2 as int),
            dx == span(x1 as int, x2 as int),
            dy == span(y1 as int, y2 as int),
            sx == (if x2 > x1 { 1int } else { -1 }),
            sy == (if y2 > y1 { 1int } else { -1 }),
            swap == !(dy <= dx),
            long == (if swap { dy } else { dx }),
            short == (if swap { dx } else { dy }),
            0 <= i <= long,
            0 <= j <= short,
            si == times(short as int, i as int),
            lj == times(long as int, j),
            d == 2 * si + 2 * short - long - 2 * lj,
            long > 0 ==> 2 * short - 2 * long <= d < 2 * short,
            long > 0 ==> j == minor_steps(long as int, short as int, i as int),
            swap ==> x == toward(x1 as int, x2 as int, j) && y == toward(
                y1 as int,
                y2 as int,
                i as int,
            ),
            !swap ==> x == toward(x1 as int, x2 as int, i as int) && y == toward(
                y1 as int,
                y2 as int,
                j,
            ),
            stroke_accepts(fun, *old(map), x1 as int, y1 as int, x2 as int, y2 as int),
            drawn_prefix(
                fun,
                *old(map),
                *map,
                x1 as int,
                y1 as int,
                x2 as int,
                y2 as int,
                i as int,
            ),
        decreases long - i,
    {
        let ghost before = *map;
        proof {
            lemma_line_cell_in_box(x1 as int, y1 as int, x2 as int, y2 as int, i as int);
            assert(line_cell(x1 as int, y1 as int, x2 as int, y2 as int, i as int) == (
                x as int,
                y as int,
            ));
            lemma_draw_ready(
                fun,
                *old(map),
                *map,
                x1 as int,
                y1 as int,
                x2 as int,
                y2 as int,
                i as int,
            );
        }
        let value = fun(map.get(x as usize, y as usize));
        map.set(x as usize, y as usize, value);
        proof {
            lemma_draw_step(
                fun,
                *old(map),
                before,
                *map,
                x1 as int,
                y1 as int,
                x2 as int,
                y2 as int,
                i as int,
            );
        }

        let ghost mut stepped = false;
        let ghost j0 = j;
        let ghost lj0 = lj;
        let ghost x0 = x;
        let ghost y0 = y;
        while d >= 0
            invariant
                long > 0,
                0 <= short <= long,
                0 <= i < long,
                si == times(short as int, i as int),
                lj == times(long as int, j),
                d == 2 * si + 2 * short - long - 2 * lj,
                !stepped ==> 2 * short - 2 * long <= d < 2 * short && j == j0 && x == x0 && y == y0,
                stepped ==> -2 * long <= d < 0 && j == j0 + 1 && j <= short,
                swap ==> x == toward(x1 as int, x2 as int, j) && y == y0,
                !swap ==> x == x0 && y == toward(y1 as int, y2 as int, j),
                0 <= j0 <= short,
                swap ==> x0 == toward(x1 as int, x2 as int, j0) && y0 == toward(
                    y1 as int,
                    y2 as int,
                    i as int,
                ),
                !swap ==> x0 == toward(x1 as int, x2 as int, i as int) && y0 == toward(
                    y1 as int,
                    y2 as int,
                    j0,
                ),
                swap == !(dy <= dx),
                long == (if swap { dy } else { dx }),
                short == (if swap { dx } else { dy }),
                dx == span(x1 as int, x2 as int),
                dy == span(y1 as int, y2 as int),
                sx == (if x2 > x1 { 1int } else { -1 }),
                sy == (if y2 > y1 { 1int } else { -1 }),
                old(map).contains(x1 as int, y1 as int),
                old(map).contains(x2 as int, y2 as int),
                width == old(map).spec_width(),
                height == old(map).spec_height(),
                width * 8 <= isize::MAX,
                height * 8 <= isize::MAX,
            decreases d + 2 * long + 1,
        {
            proof {
                lemma_times_step(long as int, j);
                lemma_times_step(short as int, i as int);
                lemma_minor_steps(
                    long as int,
                    short as int,
                    i + 1,
                    j + 1,
                    si + short,
                    lj + long,
                );
                if swap {
                    lemma_toward(x1 as int, x2 as int, j);
                    lemma_toward(x1 as int, x2 as int, j + 1);
                } else {
                    lemma_toward(y1 as int, y2 as int, j);
                    lemma_toward(y1 as int, y2 as int, j + 1);
                }
            }
            if swap {
                x += sx;
            } else {
                y += sy;
            }
            d -= 2 * long;
            proof {
                j = j + 1;
                lj = lj + long;
                stepped = true;
            }
        }

        proof {
            lemma_times_step(short as int, i as int);
            lemma_minor_steps(long as int, short as int, i + 1, j, si + short, lj);
            if swap {
                lemma_toward(y1 as int, y2 as int, i as int);
                lemma_toward(y1 as int, y2 as int, i + 1);
            } else {
                lemma_toward(x1 as int, x2 as int, i as int);
                lemma_toward(x1 as int, x2 as int, i + 1);
            }
        }
        if swap {
            y += sy;
        } else {
            x += sx;
        }
        d += 2 * short;
        i += 1;
        proof {
            si = si + short;
        }
    }

    let ghost before = *map;
    proof {
        lemma_line_cell_in_box(x1 as int, y1 as int, x2 as int, y2 as int, i as int);
        if long > 0 {
            lemma_minor_steps_bounds(long as int, short as int, i as int);
        } else {
            reveal(minor_steps);
        }
        assert(line_cell(x1 as int, y1 as int, x2 as int, y2 as int, i as int) == (
            x as int,
            y as int,
        ));
        lemma_draw_ready(
            fun,
            *old(map),
            *map,
            x1 as int,
            y1 as int,
            x2 as int,
            y2 as int,
            i as int,
        );
    }
    let value = fun(map.get(x as usize, y as usize));
    map.set(x as usize, y as usize, value);
    proof {
        lemma_draw_step(
            fun,
            *old(map),
            before,
            *map,
            x1 as int,
            y1 as int,
            x2 as int,
            y2 as int,
            i as int,
        );
    }
}

/// A stroke that adds `v` to what a cell holds raises every cell of the line by
/// `v` and leaves the other cells as they were.
pub proof fn lemma_added_along_line<F: Fn(i64) -> i64>(
    fun: F,
    v: int,
    start: Grid,
    end: Grid,
    x1: int,
    y1: int,
    x2: int,
    y2: int,
)
    requires
        start.contains(x1, y1),
        start.contains(x2, y2),
        drawn_prefix(fun, start, end, x1, y1, x2, y2, line_steps(x1, y1, x2, y2) + 1),
        forall|h: i64, r: i64| #[trigger] call_ensures(fun, (h,), r) ==> r == h + v,
    ensures
        end.same_size(&start),
        forall|px: int, py: int|
            start.contains(px, py) ==> #[trigger] end.at(px, py) == start.at(px, py) + (if on_line(
                x1,
                y1,
                x2,
                y2,
                px,
                py,
            ) {
                v
            } else {
                0
            }),
{
    reveal(drawn_prefix);
    assert forall|px: int, py: int| start.contains(px, py) implies #[trigger] end.at(px, py)
        == start.at(px, py) + (if on_line(x1, y1, x2, y2, px, py) {
        v
    } else {
        0
    }) by {
        if on_line(x1, y1, x2, y2, px, py) {
            let i = choose|i: int|
                0 <= i <= line_steps(x1, y1, x2, y2) && #[trigger] line_cell(x1, y1, x2, y2, i) == (
                    px,
                    py,
                );
            assert(call_ensures(
                fun,
                (line_value(start, x1, y1, x2, y2, i),),
                line_value(end, x1, y1, x2, y2, i),
            ));
        }
    }
}

/// A stroke may be called along a line when it may be called on every value
/// that the grid holds.
pub proof fn lemma_stroke_accepts<F: Fn(i64) -> i64>(
    fun: F,
    grid: Grid,
    x1: int,
    y1: int,
    x2: int,
    y2: int,
)
    requires
        grid.contains(x1, y1),
        grid.contains(x2, y2),
        forall|px: int, py: int|
            grid.contains(px, py) ==> call_requires(fun, (#[trigger] grid.at(px, py),)),
    ensures
        stroke_accepts(fun, grid, x1, y1, x2, y2),
{
    reveal(stroke_accepts);
    assert forall|i: int| 0 <= i <= line_steps(x1, y1, x2, y2) implies call_requires(
        fun,
        (#[trigger] line_value(grid, x1, y1, x2, y2, i),),
    ) by {
        lemma_line_cell_in_box(x1, y1, x2, y2, i);
        let c = line_cell(x1, y1, x2, y2, i);
        assert(grid.contains(c.0, c.1));
    }
}

} // verus!
