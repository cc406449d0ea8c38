//! Geometry of the periodic simulation lattice: row-major cell indices,
//! wrap-around neighbours and the clamped seeding square.
use vstd::prelude::*;

verus! {

/// Shape of a `width x height` lattice whose cells are stored row-major.
#[derive(Clone, Copy, Debug, PartialEq, Eq, Structural)]
pub struct Grid {
    pub width: usize,
    pub height: usize,
}

/// Row-major indices of one cell and of its four periodic neighbours.
#[derive(Clone, Copy, Debug, PartialEq, Eq, Structural)]
pub struct Stencil {
    pub center: usize,
    pub left: usize,
    pub right: usize,
    pub up: usize,
    pub down: usize,
}

/// Why a width and height do not make a lattice.
#[derive(Clone, Copy, Debug, PartialEq, Eq, Structural)]
pub enum GridError {
    /// The width is zero.
    ZeroWidth,
    /// The width is positive and the height is zero.
    ZeroHeight,
    /// Both sides are positive but the cell count does not fit in `usize`.
    TooManyCells,
}

impl Grid {
    /// Both sides are non-zero and the cell count fits in `usize`.
    pub open spec fn wf(self) -> bool {
        &&& self.width > 0
        &&& self.height > 0
        &&& self.width * self.height <= usize::MAX
    }

    /// Number of cells.
    pub open spec fn cells(self) -> nat {
        (self.width * self.height) as nat
    }

    /// The coordinate `(x, y)` lies on the lattice.
    pub open spec fn contains(self, x: int, y: int) -> bool {
        0 <= x < self.width && 0 <= y < self.height
    }

    /// Row-major index of the cell at `(x, y)`.
    pub open spec fn cell(self, x: int, y: int) -> int {
        y * self.width + x
    }

    /// Column of the cell with row-major index `i`.
    pub open spec fn col_of(self, i: int) -> int {
        i % (self.width as int)
    }

    /// Row of the cell with row-major index `i`.
    pub open spec fn row_of(self, i: int) -> int {
        i / (self.width as int)
    }

    /// Column to the left of `x`, wrapping from the first column to the last.
    pub open spec fn left_of(self, x: int) -> int {
        if x == 0 {
            self.width - 1
        } else {
            x - 1
        }
    }

    /// Column to the right of `x`, wrapping from the last column to the first.
    pub open spec fn right_of(self, x: int) -> int {
        if x + 1 == self.width {
            0
        } else {
            x + 1
        }
    }

    /// Row above `y`, wrapping from the first row to the last.
    pub open spec fn up_of(self, y: int) -> int {
        if y == 0 {
            self.height - 1
        } else {
            y - 1
        }
    }

    /// Row below `y`, wrapping from the last row to the first.
    pub open spec fn down_of(self, y: int) -> int {
        if y + 1 == self.height {
            0
        } else {
            y + 1
        }
    }

    /// The five cell indices that the stencil at `(x, y)` reads.
    pub open spec fn stencil_at(self, x: int, y: int) -> Stencil {
        Stencil {
            center: self.cell(x, y) as usize,
            left: self.cell(self.left_of(x), y) as usize,
            right: self.cell(self.right_of(x), y) as usize,
            up: self.cell(x, self.up_of(y)) as usize,
            down: self.cell(x, self.down_of(y)) as usize,
        }
    }

    /// `(x, y)` lies in the square of half-side `radius` around `(cx, cy)`.
    /// The square does not wrap: the part beyond an edge is cut off.
    pub open spec fn in_square(cx: int, cy: int, radius: int, x: int, y: int) -> bool {
        &&& cx - radius <= x <= cx + radius
        &&& cy - radius <= y <= cy + radius
    }

    /// Every cell on the lattice has an index below the cell count.
    pub proof fn lemma_cell_bounds(self, x: int, y: int)
        requires
            self.wf(),
            self.contains(x, y),
        ensures
            0 <= self.cell(x, y) < self.cells(),
            self.cell(x, y) + (self.width - x) <= self.cells(),
    {
        let w = self.width as int;
        let h = self.height as int;
        assert(y * w <= (h - 1) * w) by (nonlinear_arith)
            requires
                0 <= y <= h - 1,
                0 < w,
        ;
        assert((h - 1) * w == h * w - w) by (nonlinear_arith);
        assert(0 <= y * w) by (nonlinear_arith)
            requires
                0 <= y,
                0 < w,
        ;
    }

    /// Distinct lattice coordinates have distinct indices.
    pub proof fn lemma_cell_injective(self, x1: int, y1: int, x2: int, y2: int)
        requires
            self.wf(),
            self.contains(x1, y1),
            self.contains(x2, y2),
            self.cell(x1, y1) == self.cell(x2, y2),
        ensures
            x1 == x2,
            y1 == y2,
    {
        let w = self.width as int;
        if y1 < y2 {
            assert(y1 * w + w <= y2 * w) by (nonlinear_arith)
                requires
                    y1 < y2,
                    0 < w,
            ;
        } else if y2 < y1 {
            assert(y2 * w + w <= y1 * w) by (nonlinear_arith)
                requires
                    y2 < y1,
                    0 < w,
            ;
        }
    }

    /// Every index below the cell count is the index of exactly the
    /// coordinate `(col_of(i), row_of(i))`.
    pub proof fn lemma_cell_decompose(self, i: int)
        requires
            self.wf(),
            0 <= i < self.cells(),
        ensures
            self.contains(self.col_of(i), self.row_of(i)),
            self.cell(self.col_of(i), self.row_of(i)) == i,
    {
        let w = self.width as int;
        let h = self.height as int;
        vstd::arithmetic::div_mod::lemma_fundamental_div_mod(i, w);
        assert(0 <= i % w < w) by {
            vstd::arithmetic::div_mod::lemma_mod_bound(i, w);
        }
        assert(0 <= i / w) by {
            vstd::arithmetic::div_mod::lemma_div_pos_is_pos(i, w);
        }
        let q = i / w;
        let r = i % w;
        assert(q < h) by (nonlinear_arith)
            requires
                i == w * q + r,
                0 <= r,
                0 < w,
                i < w * h,
        ;
        assert(w * q == q * w) by (nonlinear_arith);
    }

    /// The index of a lattice cell recovers its coordinate.
    pub proof fn lemma_cell_coords(self, x: int, y: int)
        requires
            self.wf(),
            self.contains(x, y),
        ensures
            self.col_of(self.cell(x, y)) == x,
            self.row_of(self.cell(x, y)) == y,
    {
        let w = self.width as int;
        vstd::arithmetic::div_mod::lemma_fundamental_div_mod_converse(self.cell(x, y), w, y, x);
    }

    /// The lattice of the given sides, or why there is none: a zero width,
    /// then a zero height, then a cell count beyond `usize`.
    pub fn checked(width: usize, height: usize) -> (r: Result<Grid, GridError>)
        ensures
            match r {
                Ok(g) => g == (Grid { width, height }) && g.wf(),
                Err(GridError::ZeroWidth) => width == 0,
                Err(GridError::ZeroHeight) => width > 0 && height == 0,
                Err(GridError::TooManyCells) => width > 0 && height > 0 && width * height
                    > usize::MAX,
            },
    {
        if width == 0 {
            Err(GridError::ZeroWidth)
        } else if height == 0 {
            Err(GridError::ZeroHeight)
        } else {
            match width.checked_mul(height) {
                Some(_) => Ok(Grid { width, height }),
                None => Err(GridError::TooManyCells),
            }
        }
    }

    /// Number of cells of a well-formed lattice.
    pub fn len(&self) -> (n: usize)
        requires
            self.wf(),
        ensures
            n == self.cells(),
    {
        self.width * self.height
    }

    /// Index of `(x, y)`.
    pub(crate) fn cell_index(&self, x: usize, y: usize) -> (i: usize)
        requires
            self.wf(),
            self.contains(x as int, y as int),
        ensures
            i == self.cell(x as int, y as int),
    {
        proof {
            self.lemma_cell_bounds(x as int, y as int);
        }
        y * self.width + x
    }

    /// Indices of `(x, y)` and of its four wrap-around neighbours.
    pub(crate) fn stencil(&self, x: usize, y: usize) -> (s: Stencil)
        requires
            self.wf(),
            self.contains(x as int, y as int),
        ensures
            s == self.stencil_at(x as int, y as int),
    {
        let y_up = if y == 0 {
            self.height - 1
        } else {
            y - 1
        };
        let y_down = if y + 1 == self.height {
            0
        } else {
            y + 1
        };
        let x_left = if x == 0 {
            self.width - 1
        } else {
            x - 1
        };
        let x_right = if x + 1 == self.width {
            0
        } else {
            x + 1
        };
        Stencil {
            center: self.cell_index(x, y),
            left: self.cell_index(x_left, y),
            right: self.cell_index(x_right, y),
            up: self.cell_index(x, y_up),
            down: self.cell_index(x, y_down),
        }
    }
}

/// Column that moves to `x` when the lattice is shifted right by `dx`.
pub open spec fn source_col(grid: Grid, x: int, dx: int) -> int {
    (x + grid.width - dx) % (grid.width as int)
}

/// Row that moves to `y` when the lattice is shifted down by `dy`.
pub open spec fn source_row(grid: Grid, y: int, dy: int) -> int {
    (y + grid.height - dy) % (grid.height as int)
}

/// `(x + n - d) % n` without the modulus, for `x` and `d` in `0..n`.
proof fn lemma_back(n: int, x: int, d: int)
    requires
        0 <= x < n,
        0 <= d < n,
    ensures
        (x + n - d) % n == if x >= d {
            x - d
        } else {
            x + n - d
        },
{
    if x >= d {
        vstd::arithmetic::div_mod::lemma_fundamental_div_mod_converse(x + n - d, n, 1, x - d);
    } else {
        vstd::arithmetic::div_mod::lemma_fundamental_div_mod_converse(x + n - d, n, 0, x + n - d);
    }
}

/// Shifting the lattice maps lattice cells to lattice cells and commutes
/// with taking periodic neighbours.
pub proof fn lemma_shift_neighbours(grid: Grid, x: int, y: int, dx: int, dy: int)
    requires
        grid.wf(),
        grid.contains(x, y),
        0 <= dx < grid.width,
        0 <= dy < grid.height,
    ensures
        grid.contains(source_col(grid, x, dx), source_row(grid, y, dy)),
        source_col(grid, grid.left_of(x), dx) == grid.left_of(source_col(grid, x, dx)),
        source_col(grid, grid.right_of(x), dx) == grid.right_of(source_col(grid, x, dx)),
        source_row(grid, grid.up_of(y), dy) == grid.up_of(source_row(grid, y, dy)),
        source_row(grid, grid.down_of(y), dy) == grid.down_of(source_row(grid, y, dy)),
{
    let w = grid.width as int;
    let h = grid.height as int;
    lemma_back(w, x, dx);
    lemma_back(w, grid.left_of(x), dx);
    lemma_back(w, grid.right_of(x), dx);
    lemma_back(h, y, dy);
    lemma_back(h, grid.up_of(y), dy);
    lemma_back(h, grid.down_of(y), dy);
}

/// The wrap-around neighbours of a lattice cell lie on the lattice, and
/// stepping left then right (or up then down) returns to the start.
pub proof fn lemma_periodic_neighbours(grid: Grid, x: int, y: int)
    requires
        grid.wf(),
        grid.contains(x, y),
    ensures
        grid.contains(grid.left_of(x), y),
        grid.contains(grid.right_of(x), y),
        grid.contains(x, grid.up_of(y)),
        grid.contains(x, grid.down_of(y)),
        grid.right_of(grid.left_of(x)) == x,
        grid.left_of(grid.right_of(x)) == x,
        grid.down_of(grid.up_of(y)) == y,
        grid.up_of(grid.down_of(y)) == y,
{
}

/// Every index that the stencil of a lattice cell reads is below the cell count.
pub proof fn lemma_stencil_in_bounds(grid: Grid, x: int, y: int)
    requires
        grid.wf(),
        grid.contains(x, y),
    ensures
        grid.stencil_at(x, y).center < grid.cells(),
        grid.stencil_at(x, y).left < grid.cells(),
        grid.stencil_at(x, y).right < grid.cells(),
        grid.stencil_at(x, y).up < grid.cells(),
        grid.stencil_at(x, y).down < grid.cells(),
{
    grid.lemma_cell_bounds(x, y);
    grid.lemma_cell_bounds(grid.left_of(x), y);
    grid.lemma_cell_bounds(grid.right_of(x), y);
    grid.lemma_cell_bounds(x, grid.up_of(y));
    grid.lemma_cell_bounds(x, grid.down_of(y));
}

/// The stencil of a lattice cell reads the cell itself and the four cells at
/// distance one on the torus: the adjacent columns `x - 1` and `x + 1` and
/// the adjacent rows `y - 1` and `y + 1`, each taken modulo the side.
pub proof fn lemma_stencil_adjacent(grid: Grid, x: int, y: int)
    requires
        grid.wf(),
        grid.contains(x, y),
    ensures
        0 < x ==> grid.left_of(x) == x - 1,
        x == 0 ==> grid.left_of(x) == grid.width - 1,
        x + 1 < grid.width ==> grid.right_of(x) == x + 1,
        x + 1 == grid.width ==> grid.right_of(x) == 0,
        0 < y ==> grid.up_of(y) == y - 1,
        y == 0 ==> grid.up_of(y) == grid.height - 1,
        y + 1 < grid.height ==> grid.down_of(y) == y + 1,
        y + 1 == grid.height ==> grid.down_of(y) == 0,
        grid.stencil_at(x, y).center == y * grid.width + x,
        grid.stencil_at(x, y).left == y * grid.width + (x + grid.width - 1) % (grid.width as int),
        grid.stencil_at(x, y).right == y * grid.width + (x + 1) % (grid.width as int),
        grid.stencil_at(x, y).up == ((y + grid.height - 1) % (grid.height as int)) * grid.width
            + x,
        grid.stencil_at(x, y).down == ((y + 1) % (grid.height as int)) * grid.width + x,
{
    let w = grid.width as int;
    let h = grid.height as int;
    if x > 0 {
        vstd::arithmetic::div_mod::lemma_fundamental_div_mod_converse(x + w - 1, w, 1, x - 1);
    } else {
        vstd::arithmetic::div_mod::lemma_fundamental_div_mod_converse(x + w - 1, w, 0, w - 1);
    }
    if x + 1 < w {
        vstd::arithmetic::div_mod::lemma_fundamental_div_mod_converse(x + 1, w, 0, x + 1);
    } else {
        vstd::arithmetic::div_mod::lemma_fundamental_div_mod_converse(x + 1, w, 1, 0);
    }
    if y > 0 {
        vstd::arithmetic::div_mod::lemma_fundamental_div_mod_converse(y + h - 1, h, 1, y - 1);
    } else {
        vstd::arithmetic::div_mod::lemma_fundamental_div_mod_converse(y + h - 1, h, 0, h - 1);
    }
    if y + 1 < h {
        vstd::arithmetic::div_mod::lemma_fundamental_div_mod_converse(y + 1, h, 0, y + 1);
    } else {
        vstd::arithmetic::div_mod::lemma_fundamental_div_mod_converse(y + 1, h, 1, 0);
    }
    grid.lemma_cell_bounds(x, y);
    grid.lemma_cell_bounds(grid.left_of(x), y);
    grid.lemma_cell_bounds(grid.right_of(x), y);
    grid.lemma_cell_bounds(x, grid.up_of(y));
    grid.lemma_cell_bounds(x, grid.down_of(y));
}

} // verus!
