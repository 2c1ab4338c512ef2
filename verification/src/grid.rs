//! The grid that every stage reads and writes: a dense buffer of fixed-point cells.

use vstd::prelude::*;

verus! {

/// One whole unit of the fixed-point scale that cell values are measured in.
pub const ONE: i64 = 65536;

/// Dense grid of fixed-point cells with a fixed width and height.
///
/// Cells are addressed by column `x` and row `y` and stored row by row.
pub struct Grid {
    width: usize,
    height: usize,
    buffer: Vec<i64>,
}

/// `x + y * w` stays inside a buffer of `w * h` cells.
pub proof fn lemma_flat_index(x: int, y: int, w: int, h: int)
    requires
        0 <= x < w,
        0 <= y < h,
    ensures
        0 <= x + y * w < w * h,
        y * w >= 0,
{
    assert(y * w >= 0) by (nonlinear_arith)
        requires y >= 0, w >= 0;
    assert(x + y * w < w * h) by (nonlinear_arith)
        requires 0 <= x < w, 0 <= y < h;
}

/// Two cells with the same flat index are the same cell.
pub proof fn lemma_flat_index_injective(x1: int, y1: int, x2: int, y2: int, w: int)
    requires
        0 <= x1 < w,
        0 <= x2 < w,
        0 <= y1,
        0 <= y2,
        x1 + y1 * w == x2 + y2 * w,
    ensures
        x1 == x2,
        y1 == y2,
{
    if y1 < y2 {
        assert(y2 * w >= (y1 + 1) * w) by (nonlinear_arith)
            requires y1 < y2, w > 0;
        assert((y1 + 1) * w == y1 * w + w) by (nonlinear_arith);
    } else if y2 < y1 {
        assert(y1 * w >= (y2 + 1) * w) by (nonlinear_arith)
            requires y2 < y1, w > 0;
        assert((y2 + 1) * w == y2 * w + w) by (nonlinear_arith);
    }
}

impl Clone for Grid {
    /// A grid of the same size that holds the same values.
    fn clone(&self) -> (copy: Grid)
        ensures
            copy.same_size(self),
            forall|x: int, y: int| self.contains(x, y) ==> #[trigger] copy.at(x, y) == self.at(x, y),
    {
        proof {
            use_type_invariant(self);
        }
        let buffer = self.buffer.clone();
        proof {
            assert(buffer@ =~= self.buffer@);
        }
        Grid { width: self.width, height: self.height, buffer }
    }
}

impl Grid {
    #[verifier::type_invariant]
    spec fn inv(self) -> bool {
        &&& self.buffer@.len() == self.width * self.height
        &&& self.width * self.height * 8 <= isize::MAX
    }

    /// Number of columns.
    pub closed spec fn spec_width(&self) -> usize {
        self.width
    }

    /// Number of rows.
    pub closed spec fn spec_height(&self) -> usize {
        self.height
    }

    /// Value of the cell in column `x` and row `y`.
    pub closed spec fn at(&self, x: int, y: int) -> i64 {
        self.buffer@[x + y * self.width]
    }

    /// Whether `(x, y)` names a cell of the grid.
    pub open spec fn contains(&self, x: int, y: int) -> bool {
        0 <= x < self.spec_width() && 0 <= y < self.spec_height()
    }

    /// Whether both grids have the same width and height.
    pub open spec fn same_size(&self, other: &Grid) -> bool {
        self.spec_width() == other.spec_width() && self.spec_height() == other.spec_height()
    }

    /// A grid of `width` columns and `height` rows, every cell zero.
    pub fn new(width: usize, height: usize) -> (grid: Grid)
        requires
            width * height * 8 <= isize::MAX,
        ensures
            grid.spec_width() == width,
            grid.spec_height() == height,
            forall|x: int, y: int| grid.contains(x, y) ==> grid.at(x, y) == 0,
    {
        assert(width * height <= usize::MAX) by (nonlinear_arith)
            requires width * height * 8 <= isize::MAX;
        let grid = Grid { width, height, buffer: vec![0i64; width * height] };
        assert forall|x: int, y: int| grid.contains(x, y) implies grid.at(x, y) == 0 by {
            lemma_flat_index(x, y, width as int, height as int);
        }
        grid
    }

    /// Number of columns.
    #[verifier::when_used_as_spec(spec_width)]
    pub fn width(&self) -> (w: usize)
        ensures
            w == self.spec_width(),
            w * self.spec_height() * 8 <= isize::MAX,
    {
        proof {
            use_type_invariant(self);
        }
        self.width
    }

    /// Number of rows.
    #[verifier::when_used_as_spec(spec_height)]
    pub fn height(&self) -> (h: usize)
        ensures
            h == self.spec_height(),
            self.spec_width() * h * 8 <= isize::MAX,
    {
        proof {
            use_type_invariant(self);
        }
        self.height
    }

    /// Position of cell `(x, y)` in row-major order.
    #[inline(always)]
    pub fn flatten_xy(&self, x: usize, y: usize) -> (idx: usize)
        requires
            self.contains(x as int, y as int),
        ensures
            idx == x + y * self.spec_width(),
            idx < self.spec_width() * self.spec_height(),
    {
        proof {
            use_type_invariant(self);
            lemma_flat_index(x as int, y as int, self.width as int, self.height as int);
        }
        x + y * self.width
    }

    /// Reads the cell `(x, y)`.
    pub fn get(&self, x: usize, y: usize) -> (value: i64)
        requires
            self.contains(x as int, y as int),
        ensures
            value == self.at(x as int, y as int),
    {
        proof {
            use_type_invariant(self);
        }
        let idx = self.flatten_xy(x, y);
        self.buffer[idx]
    }

    /// Writes `value` to the cell `(x, y)` and leaves every other cell as it was.
    pub fn set(&mut self, x: usize, y: usize, value: i64)
        requires
            old(self).contains(x as int, y as int),
        ensures
            final(self).same_size(old(self)),
            final(self).at(x as int, y as int) == value,
            forall|px: int, py: int|
                old(self).contains(px, py) && (px != x || py != y) ==> final(self).at(px, py) == old(
                    self,
                ).at(px, py),
    {
        proof {
            use_type_invariant(&*self);
        }
        let idx = self.flatten_xy(x, y);
        self.buffer[idx] = value;
        proof {
            assert forall|px: int, py: int|
                old(self).contains(px, py) && (px != x || py != y) implies self.at(px, py) == old(
                self,
            ).at(px, py) by {
                lemma_flat_index(px, py, self.width as int, self.height as int);
                if px + py * self.width == x + y * self.width {
                    lemma_flat_index_injective(px, py, x as int, y as int, self.width as int);
                }
            }
        }
    }

    /// Whether `(x, y)` comes before `(nx, ny)` when the cells are taken row by row.
    pub open spec fn before(x: int, y: int, nx: int, ny: int) -> bool {
        y < ny || (y == ny && x < nx)
    }

    /// Maps each entry of the grid, together with its coordinates, to a new value.
    pub fn map_coords<F: Fn(usize, usize, i64) -> i64>(&mut self, fun: F)
        requires
            forall|x: int, y: int|
                old(self).contains(x, y) ==> call_requires(
                    fun,
                    (x as usize, y as usize, #[trigger] old(self).at(x, y)),
                ),
        ensures
            final(self).same_size(old(self)),
            forall|x: int, y: int|
                old(self).contains(x, y) ==> call_ensures(
                    fun,
                    (x as usize, y as usize, old(self).at(x, y)),
                    #[trigger] final(self).at(x, y),
                ),
    {
        let width = self.width();
        let height = self.height();
        let mut y: usize = 0;
        while y < height
            invariant
                self.same_size(old(self)),
                width == self.spec_width(),
                height == self.spec_height(),
                y <= height,
                forall|px: int, py: int|
                    old(self).contains(px, py) ==> call_requires(
                        fun,
                        (px as usize, py as usize, #[trigger] old(self).at(px, py)),
                    ),
                forall|px: int, py: int|
                    old(self).contains(px, py) && Self::before(px, py, 0, y as int) ==> call_ensures(
                        fun,
                        (px as usize, py as usize, old(self).at(px, py)),
                        #[trigger] self.at(px, py),
                    ),
                forall|px: int, py: int|
                    old(self).contains(px, py) && !Self::before(px, py, 0, y as int)
                        ==> #[trigger] self.at(px, py) == old(self).at(px, py),
            decreases height - y,
        {
            let mut x: usize = 0;
            while x < width
                invariant
                    self.same_size(old(self)),
                    width == self.spec_width(),
                    height == self.spec_height(),
                    y < height,
                    x <= width,
                    forall|px: int, py: int|
                        old(self).contains(px, py) ==> call_requires(
                            fun,
                            (px as usize, py as usize, #[trigger] old(self).at(px, py)),
                        ),
                    forall|px: int, py: int|
                        old(self).contains(px, py) && Self::before(px, py, x as int, y as int)
                            ==> call_ensures(
                            fun,
                            (px as usize, py as usize, old(self).at(px, py)),
                            #[trigger] self.at(px, py),
                        ),
                    forall|px: int, py: int|
                        old(self).contains(px, py) && !Self::before(px, py, x as int, y as int)
                            ==> #[trigger] self.at(px, py) == old(self).at(px, py),
                decreases width - x,
            {
                assert(self.at(x as int, y as int) == old(self).at(x as int, y as int));
                let value = fun(x, y, self.get(x, y));
                self.set(x, y, value);
                x += 1;
            }
            y += 1;
        }
    }

    /// Maps each entry of the grid to a new value.
    pub fn map<F: Fn(i64) -> i64>(&mut self, fun: F)
        requires
            forall|x: int, y: int|
                old(self).contains(x, y) ==> call_requires(fun, (#[trigger] old(self).at(x, y),)),
        ensures
            final(self).same_size(old(self)),
            forall|x: int, y: int|
                old(self).contains(x, y) ==> call_ensures(
                    fun,
                    (old(self).at(x, y),),
                    #[trigger] final(self).at(x, y),
                ),
    {
        let stroke = &fun;
        let each = |_x: usize, _y: usize, h: i64| -> (r: i64)
            requires
                call_requires(stroke, (h,)),
            ensures
                call_ensures(stroke, (h,), r),
            {
                let r = stroke(h);
                r
            };
        self.map_coords(each)
    }

    /// Replaces each entry by what `fun` makes of it and of the entry of `other`
    /// in the same place.
    pub fn combine<F: Fn(i64, i64) -> i64>(&mut self, other: &Grid, fun: F)
        requires
            old(self).same_size(other),
            forall|x: int, y: int|
                old(self).contains(x, y) ==> call_requires(
                    fun,
                    (#[trigger] old(self).at(x, y), other.at(x, y)),
                ),
        ensures
            final(self).same_size(old(self)),
            forall|x: int, y: int|
                old(self).contains(x, y) ==> call_ensures(
                    fun,
                    (old(self).at(x, y), other.at(x, y)),
                    #[trigger] final(self).at(x, y),
                ),
    {
        let merge = &fun;
        let each = |x: usize, y: usize, h: i64| -> (r: i64)
            requires
                other.contains(x as int, y as int),
                call_requires(merge, (h, other.at(x as int, y as int))),
            ensures
                call_ensures(merge, (h, other.at(x as int, y as int)), r),
            {
                let r = merge(h, other.get(x, y));
                r
            };
        self.map_coords(each)
    }

    /// Returns the minimum and maximum value of the grid, and
    /// `(i64::MAX, i64::MIN)` for a grid without cells.
    pub fn minmax(&self) -> (range: (i64, i64))
        ensures
            forall|x: int, y: int|
                self.contains(x, y) ==> range.0 <= #[trigger] self.at(x, y) <= range.1,
            self.spec_width() > 0 && self.spec_height() > 0 ==> (exists|x: int, y: int|
                self.contains(x, y) && #[trigger] self.at(x, y) == range.0) && (exists|
                x: int,
                y: int,
            |
                self.contains(x, y) && #[trigger] self.at(x, y) == range.1),
            self.spec_width() == 0 || self.spec_height() == 0 ==> range == (i64::MAX, i64::MIN),
    {
        let width = self.width();
        let height = self.height();
        let mut min = i64::MAX;
        let mut max = i64::MIN;
        let mut y: usize = 0;
        while y < height
            invariant
                width == self.spec_width(),
                height == self.spec_height(),
                y <= height,
                forall|px: int, py: int|
                    self.contains(px, py) && Self::before(px, py, 0, y as int) ==> min
                        <= #[trigger] self.at(px, py) <= max,
                (exists|px: int, py: int| self.contains(px, py) && #[trigger] self.at(px, py) == min)
                    || (min == i64::MAX && (y == 0 || width == 0)),
                (exists|px: int, py: int| self.contains(px, py) && #[trigger] self.at(px, py) == max)
                    || (max == i64::MIN && (y == 0 || width == 0)),
            decreases height - y,
        {
            let mut x: usize = 0;
            while x < width
                invariant
                    width == self.spec_width(),
                    height == self.spec_height(),
                    y < height,
                    x <= width,
                    forall|px: int, py: int|
                        self.contains(px, py) && Self::before(px, py, x as int, y as int) ==> min
                            <= #[trigger] self.at(px, py) <= max,
                    (exists|px: int, py: int|
                        self.contains(px, py) && #[trigger] self.at(px, py) == min) || (min
                        == i64::MAX && ((y == 0 && x == 0) || width == 0)),
                    (exists|px: int, py: int|
                        self.contains(px, py) && #[trigger] self.at(px, py) == max) || (max
                        == i64::MIN && ((y == 0 && x == 0) || width == 0)),
                decreases width - x,
            {
                let h = self.get(x, y);
                if h < min {
                    min = h;
                }
                if h > max {
                    max = h;
                }
                x += 1;
            }
            y += 1;
        }
        (min, max)
    }

    /// Whether `lo` and `hi` are the lowest and the highest value of the grid.
    pub open spec fn is_range(&self, lo: int, hi: int) -> bool {
        &&& forall|x: int, y: int| self.contains(x, y) ==> lo <= #[trigger] self.at(x, y) <= hi
        &&& exists|x: int, y: int| self.contains(x, y) && #[trigger] self.at(x, y) == lo
        &&& exists|x: int, y: int| self.contains(x, y) && #[trigger] self.at(x, y) == hi
    }

    /// The shades of grey of an image of the grid, row by row: the lowest cell is
    /// black (0), the highest white (255), and the cells between them are spread
    /// evenly, rounded down. A grid whose cells are all alike is black.
    pub fn gray_levels(&self) -> (pixels: Vec<u8>)
        ensures
            pixels@.len() == self.spec_width() * self.spec_height(),
            self.spec_width() > 0 && self.spec_height() > 0 ==> exists|lo: int, hi: int|
                #![trigger self.is_range(lo, hi)]
                self.is_range(lo, hi) && forall|x: int, y: int|
                    self.contains(x, y) ==> pixels@[x + y * self.spec_width()] == gray_level(
                        #[trigger] self.at(x, y) as int,
                        lo,
                        hi,
                    ),
    {
        let width = self.width();
        let height = self.height();
        let (min, max) = self.minmax();
        proof {
            assert(width * height <= usize::MAX) by (nonlinear_arith)
                requires
                    width * height * 8 <= isize::MAX,
            ;
        }
        let mut pixels: Vec<u8> = Vec::with_capacity(width * height);
        let mut y: usize = 0;
        while y < height
            invariant
                width == self.spec_width(),
                height == self.spec_height(),
                y <= height,
                pixels@.len() == y * width,
                forall|px: int, py: int| self.contains(px, py) ==> min <= #[trigger] self.at(px, py) <= max,
                forall|px: int, py: int|
                    self.contains(px, py) && py < y ==> pixels@[px + py * width] == gray_level(
                        #[trigger] self.at(px, py) as int,
                        min as int,
                        max as int,
                    ),
            decreases height - y,
        {
            let mut x: usize = 0;
            while x < width
                invariant
                    width == self.spec_width(),
                    height == self.spec_height(),
                    y < height,
                    x <= width,
                    pixels@.len() == y * width + x,
                    forall|px: int, py: int|
                        self.contains(px, py) ==> min <= #[trigger] self.at(px, py) <= max,
                    forall|px: int, py: int|
                        self.contains(px, py) && (py < y || (py == y && px < x)) ==> pixels@[px + py
                            * width] == gray_level(
                            #[trigger] self.at(px, py) as int,
                            min as int,
                            max as int,
                        ),
                decreases width - x,
            {
                let value = self.get(x, y);
                let level = gray(value, min, max);
                let ghost before = pixels@;
                pixels.push(level);
                proof {
                    assert forall|px: int, py: int|
                        self.contains(px, py) && (py < y || (py == y && px < x + 1)) implies pixels@[px
                        + py * width] == gray_level(
                        #[trigger] self.at(px, py) as int,
                        min as int,
                        max as int,
                    ) by {
                        if py == y && px == x {
                        } else {
                            lemma_flat_index(px, py, width as int, y + 1);
                            if py < y {
                                lemma_flat_index(px, py, width as int, y as int);
                            }
                            assert(pixels@[px + py * width] == before[px + py * width]);
                        }
                    }
                }
                x += 1;
            }
            proof {
                assert((y + 1) * width == y * width + width) by (nonlinear_arith);
            }
            y += 1;
        }
        proof {
            assert(height * width == width * height) by (nonlinear_arith);
            if width > 0 && height > 0 {
                assert(self.is_range(min as int, max as int));
            }
        }
        pixels
    }
}

/// Whether `after` is `before` but for the cell `(x, y)`, which holds `value`.
pub open spec fn changed_at(before: Grid, after: Grid, x: int, y: int, value: int) -> bool {
    &&& after.same_size(&before)
    &&& after.at(x, y) == value
    &&& forall|px: int, py: int|
        before.contains(px, py) && (px != x || py != y) ==> #[trigger] after.at(px, py)
            == before.at(px, py)
}

/// Whether `(x, y)` comes before `(nx, ny)` when the cells are taken column by column.
pub open spec fn scanned(x: int, y: int, nx: int, ny: int) -> bool {
    x < nx || (x == nx && y < ny)
}

/// The shade of grey of the value `v` where `lo` is black and `hi` is white.
pub open spec fn gray_level(v: int, lo: int, hi: int) -> int {
    if hi > lo {
        255 * (v - lo) / (hi - lo)
    } else {
        0
    }
}

/// The shade of grey of the value `v` where `lo` is black and `hi` is white.
pub fn gray(v: i64, lo: i64, hi: i64) -> (level: u8)
    requires
        lo <= v <= hi,
    ensures
        level == gray_level(v as int, lo as int, hi as int),
{
    if hi > lo {
        let above: i128 = v as i128 - lo as i128;
        let spread: i128 = hi as i128 - lo as i128;
        proof {
            assert(0 <= (255 * (above as int)) / (spread as int) <= 255) by (nonlinear_arith)
                requires
                    0 <= above <= spread,
                    spread > 0,
            ;
        }
        let level: i128 = 255 * above / spread;
        proof {
            let a = above as int;
            let s = spread as int;
            assert(0 <= (255 * a) / s <= 255) by (nonlinear_arith)
                requires
                    0 <= a <= s,
                    s > 0,
            ;
        }
        level as u8
    } else {
        0
    }
}

} // verus!
