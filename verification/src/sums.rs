//! Sums over the cells of a grid, by which the cells that have a property are counted.

use vstd::prelude::*;

verus! {

/// Sum of `f(x, 0)`, ..., `f(x, h - 1)`.
pub open spec fn col_sum(f: spec_fn(int, int) -> int, x: int, h: int) -> int
    decreases h,
{
    if h <= 0 {
        0
    } else {
        col_sum(f, x, h - 1) + f(x, h - 1)
    }
}

/// Sum of `f` over the cells of a grid of `w` columns and `h` rows.
pub open spec fn grid_sum(f: spec_fn(int, int) -> int, w: int, h: int) -> int
    decreases w,
{
    if w <= 0 {
        0
    } else {
        grid_sum(f, w - 1, h) + col_sum(f, w - 1, h)
    }
}

/// Two functions that differ by `d` in row `b` of column `x` and nowhere else
/// in that column have sums over the column that differ by `d`.
pub proof fn lemma_col_sum_point(
    f: spec_fn(int, int) -> int,
    g: spec_fn(int, int) -> int,
    x: int,
    h: int,
    b: int,
    d: int,
)
    requires
        forall|y: int| 0 <= y < h && y != b ==> #[trigger] f(x, y) == g(x, y),
        0 <= b < h ==> f(x, b) == g(x, b) + d,
    ensures
        col_sum(f, x, h) == col_sum(g, x, h) + (if 0 <= b < h { d } else { 0 }),
    decreases h,
{
    if h > 0 {
        lemma_col_sum_point(f, g, x, h - 1, b, d);
    }
}

/// Two functions that differ by `d` in the cell `(a, b)` and nowhere else have
/// sums that differ by `d`.
pub proof fn lemma_grid_sum_point(
    f: spec_fn(int, int) -> int,
    g: spec_fn(int, int) -> int,
    w: int,
    h: int,
    a: int,
    b: int,
    d: int,
)
    requires
        forall|x: int, y: int|
            0 <= x < w && 0 <= y < h && (x != a || y != b) ==> #[trigger] f(x, y) == g(x, y),
        0 <= a < w && 0 <= b < h ==> f(a, b) == g(a, b) + d,
    ensures
        grid_sum(f, w, h) == grid_sum(g, w, h) + (if 0 <= a < w && 0 <= b < h { d } else { 0 }),
    decreases w,
{
    if w > 0 {
        lemma_grid_sum_point(f, g, w - 1, h, a, b, d);
        if a == w - 1 {
            lemma_col_sum_point(f, g, w - 1, h, b, d);
        } else {
            lemma_col_sum_point(f, g, w - 1, h, -1, 0);
        }
    }
}

/// Functions that agree on every cell have the same sum.
pub proof fn lemma_grid_sum_ext(
    f: spec_fn(int, int) -> int,
    g: spec_fn(int, int) -> int,
    w: int,
    h: int,
)
    requires
        forall|x: int, y: int| 0 <= x < w && 0 <= y < h ==> #[trigger] f(x, y) == g(x, y),
    ensures
        grid_sum(f, w, h) == grid_sum(g, w, h),
{
    lemma_grid_sum_point(f, g, w, h, -1, -1, 0);
}

/// The sum over a column of a function that is the sum of two others is the
/// sum of their sums.
pub proof fn lemma_col_sum_add(
    f: spec_fn(int, int) -> int,
    g: spec_fn(int, int) -> int,
    k: spec_fn(int, int) -> int,
    x: int,
    h: int,
)
    requires
        forall|y: int| 0 <= y < h ==> #[trigger] k(x, y) == f(x, y) + g(x, y),
    ensures
        col_sum(k, x, h) == col_sum(f, x, h) + col_sum(g, x, h),
    decreases h,
{
    if h > 0 {
        lemma_col_sum_add(f, g, k, x, h - 1);
    }
}

/// The sum of a function that is the sum of two others is the sum of their sums.
pub proof fn lemma_grid_sum_add(
    f: spec_fn(int, int) -> int,
    g: spec_fn(int, int) -> int,
    k: spec_fn(int, int) -> int,
    w: int,
    h: int,
)
    requires
        forall|x: int, y: int| 0 <= x < w && 0 <= y < h ==> #[trigger] k(x, y) == f(x, y) + g(x, y),
    ensures
        grid_sum(k, w, h) == grid_sum(f, w, h) + grid_sum(g, w, h),
    decreases w,
{
    if w > 0 {
        lemma_grid_sum_add(f, g, k, w - 1, h);
        lemma_col_sum_add(f, g, k, w - 1, h);
    }
}

/// A function between zero and `hi` has a sum over a column of `h` rows
/// between zero and `h` times `hi`.
pub proof fn lemma_col_sum_bounds(f: spec_fn(int, int) -> int, x: int, h: int, hi: int)
    requires
        h >= 0,
        forall|y: int| 0 <= y < h ==> 0 <= #[trigger] f(x, y) <= hi,
    ensures
        0 <= col_sum(f, x, h) <= h * hi,
    decreases h,
{
    if h > 0 {
        lemma_col_sum_bounds(f, x, h - 1, hi);
        assert(h * hi == (h - 1) * hi + hi) by (nonlinear_arith);
    } else {
        assert(h * hi == 0) by (nonlinear_arith)
            requires
                h == 0,
        ;
    }
}

/// A function between zero and `hi` has a sum between zero and `hi` times the number of cells.
pub proof fn lemma_grid_sum_bounds(f: spec_fn(int, int) -> int, w: int, h: int, hi: int)
    requires
        w >= 0,
        h >= 0,
        forall|x: int, y: int| 0 <= x < w && 0 <= y < h ==> 0 <= #[trigger] f(x, y) <= hi,
    ensures
        0 <= grid_sum(f, w, h) <= w * (h * hi),
    decreases w,
{
    if w > 0 {
        lemma_grid_sum_bounds(f, w - 1, h, hi);
        lemma_col_sum_bounds(f, w - 1, h, hi);
        assert(w * (h * hi) == (w - 1) * (h * hi) + h * hi) by (nonlinear_arith);
    } else {
        assert(w * (h * hi) == 0) by (nonlinear_arith)
            requires
                w == 0,
        ;
    }
}

/// A sum over a column of values that are not negative is at least as large as each of them.
pub proof fn lemma_col_sum_covers(f: spec_fn(int, int) -> int, x: int, h: int, b: int)
    requires
        forall|y: int| 0 <= y < h ==> 0 <= #[trigger] f(x, y),
        0 <= b < h,
    ensures
        col_sum(f, x, h) >= f(x, b),
        col_sum(f, x, h) >= 0,
    decreases h,
{
    if h > 0 {
        if b < h - 1 {
            lemma_col_sum_covers(f, x, h - 1, b);
        } else if h > 1 {
            lemma_col_sum_covers(f, x, h - 1, 0);
        }
    }
}

/// A sum of values that are not negative is at least as large as each of them.
pub proof fn lemma_grid_sum_covers(f: spec_fn(int, int) -> int, w: int, h: int, a: int, b: int)
    requires
        forall|x: int, y: int| 0 <= x < w && 0 <= y < h ==> 0 <= #[trigger] f(x, y),
        0 <= a < w,
        0 <= b < h,
    ensures
        grid_sum(f, w, h) >= f(a, b),
        grid_sum(f, w, h) >= 0,
    decreases w,
{
    if w > 0 {
        lemma_col_sum_covers(f, w - 1, h, if a == w - 1 { b } else { 0 });
        if a < w - 1 {
            lemma_grid_sum_covers(f, w - 1, h, a, b);
        } else if w > 1 {
            lemma_grid_sum_covers(f, w - 1, h, 0, b);
        }
    }
}

} // verus!
