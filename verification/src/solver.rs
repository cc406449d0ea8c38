//! Double-buffered explicit stepping of two coupled fields on a periodic
//! lattice.  The per-cell rule is supplied by the caller, so the same engine
//! drives the plain solver and its forward-mode derivative.
use vstd::prelude::*;

use crate::grid::{lemma_shift_neighbours, lemma_stencil_in_bounds, source_col, source_row, Grid};

verus! {

/// The five values of one field that the update of a single cell reads:
/// the cell itself and its four periodic neighbours.
#[derive(Clone, Copy, Debug)]
pub struct Neighborhood<T> {
    pub center: T,
    pub left: T,
    pub right: T,
    pub up: T,
    pub down: T,
}

/// Values of `field` around the lattice cell `(x, y)`.
pub open spec fn neighborhood<T>(grid: Grid, field: Seq<T>, x: int, y: int) -> Neighborhood<T> {
    let s = grid.stencil_at(x, y);
    Neighborhood {
        center: field[s.center as int],
        left: field[s.left as int],
        right: field[s.right as int],
        up: field[s.up as int],
        down: field[s.down as int],
    }
}

/// `(next_u, next_v)` is one synchronous update of `(u, v)`: every cell of
/// the new fields is a result of `update` on the neighbourhoods of that cell
/// in the old fields (and nothing else).
pub open spec fn is_step<T, F: Fn(Neighborhood<T>, Neighborhood<T>) -> (T, T)>(
    grid: Grid,
    update: F,
    u: Seq<T>,
    v: Seq<T>,
    next_u: Seq<T>,
    next_v: Seq<T>,
) -> bool {
    &&& next_u.len() == grid.cells()
    &&& next_v.len() == grid.cells()
    &&& forall|x: int, y: int|
        #![trigger grid.cell(x, y)]
        grid.contains(x, y) ==> update.ensures(
            (neighborhood(grid, u, x, y), neighborhood(grid, v, x, y)),
            (next_u[grid.cell(x, y)], next_v[grid.cell(x, y)]),
        )
}

/// The new values at cell `(x, y)` are a result of `update` on the
/// neighbourhoods of that cell in the old fields.
pub open spec fn follows<T, F: Fn(Neighborhood<T>, Neighborhood<T>) -> (T, T)>(
    grid: Grid,
    update: F,
    u: Seq<T>,
    v: Seq<T>,
    next_u: Seq<T>,
    next_v: Seq<T>,
    x: int,
    y: int,
) -> bool {
    update.ensures(
        (neighborhood(grid, u, x, y), neighborhood(grid, v, x, y)),
        (next_u[grid.cell(x, y)], next_v[grid.cell(x, y)]),
    )
}

/// Whether the vectorised kernel computes cell `(x, y)` four cells at a
/// time.  It does so on a lattice of at least six columns and three rows,
/// on every row but the first and the last, in chunks of four columns that
/// start at column 1, for as long as a whole chunk ends before the last
/// column.  The edge cells and the columns left after the last whole chunk
/// take the scalar update.
pub open spec fn lane_cell(grid: Grid, x: int, y: int) -> bool {
    &&& grid.width >= 6
    &&& grid.height >= 3
    &&& 1 <= y < grid.height - 1
    &&& 1 <= x
    &&& 4 * ((x - 1) / 4) + 5 < grid.width
}

/// `(next_u, next_v)` is one synchronous update of `(u, v)` through the
/// vectorised kernel: lane cells follow `lanes`, all others follow `scalar`.
pub open spec fn is_simd_step<
    T,
    F: Fn(Neighborhood<T>, Neighborhood<T>) -> (T, T),
    G: Fn(Neighborhood<T>, Neighborhood<T>) -> (T, T),
>(
    grid: Grid,
    scalar: F,
    lanes: G,
    u: Seq<T>,
    v: Seq<T>,
    next_u: Seq<T>,
    next_v: Seq<T>,
) -> bool {
    &&& next_u.len() == grid.cells()
    &&& next_v.len() == grid.cells()
    &&& forall|x: int, y: int|
        #![trigger grid.cell(x, y)]
        grid.contains(x, y) ==> if lane_cell(grid, x, y) {
            follows(grid, lanes, u, v, next_u, next_v, x, y)
        } else {
            follows(grid, scalar, u, v, next_u, next_v, x, y)
        }
}

/// `trace` lists `n + 1` states, from `(u, v)` to `(u2, v2)`, each one an
/// update of the one before through the vectorised kernel.
pub open spec fn is_simd_trace<
    T,
    F: Fn(Neighborhood<T>, Neighborhood<T>) -> (T, T),
    G: Fn(Neighborhood<T>, Neighborhood<T>) -> (T, T),
>(
    grid: Grid,
    scalar: F,
    lanes: G,
    n: nat,
    trace: Seq<(Seq<T>, Seq<T>)>,
    u: Seq<T>,
    v: Seq<T>,
    u2: Seq<T>,
    v2: Seq<T>,
) -> bool {
    &&& trace.len() == n + 1
    &&& trace[0] == (u, v)
    &&& trace[n as int] == (u2, v2)
    &&& forall|k: int|
        #![trigger trace[k]]
        0 <= k < n ==> is_simd_step(
            grid,
            scalar,
            lanes,
            trace[k].0,
            trace[k].1,
            trace[k + 1].0,
            trace[k + 1].1,
        )
}

/// `(u2, v2)` is reached from `(u, v)` by exactly `n` updates through the
/// vectorised kernel.
pub open spec fn runs_simd<
    T,
    F: Fn(Neighborhood<T>, Neighborhood<T>) -> (T, T),
    G: Fn(Neighborhood<T>, Neighborhood<T>) -> (T, T),
>(grid: Grid, scalar: F, lanes: G, n: nat, u: Seq<T>, v: Seq<T>, u2: Seq<T>, v2: Seq<T>) -> bool {
    exists|trace: Seq<(Seq<T>, Seq<T>)>| #[trigger]
        is_simd_trace(grid, scalar, lanes, n, trace, u, v, u2, v2)
}

/// `trace` lists `n + 1` states, from `(u, v)` to `(u2, v2)`, each one a
/// synchronous update of the one before.
pub open spec fn is_trace<T, F: Fn(Neighborhood<T>, Neighborhood<T>) -> (T, T)>(
    grid: Grid,
    update: F,
    n: nat,
    trace: Seq<(Seq<T>, Seq<T>)>,
    u: Seq<T>,
    v: Seq<T>,
    u2: Seq<T>,
    v2: Seq<T>,
) -> bool {
    &&& trace.len() == n + 1
    &&& trace[0] == (u, v)
    &&& trace[n as int] == (u2, v2)
    &&& forall|k: int|
        #![trigger trace[k]]
        0 <= k < n ==> is_step(grid, update, trace[k].0, trace[k].1, trace[k + 1].0, trace[k + 1].1)
}

/// `(u2, v2)` is reached from `(u, v)` by exactly `n` synchronous updates.
pub open spec fn runs<T, F: Fn(Neighborhood<T>, Neighborhood<T>) -> (T, T)>(
    grid: Grid,
    update: F,
    n: nat,
    u: Seq<T>,
    v: Seq<T>,
    u2: Seq<T>,
    v2: Seq<T>,
) -> bool {
    exists|trace: Seq<(Seq<T>, Seq<T>)>| #[trigger] is_trace(grid, update, n, trace, u, v, u2, v2)
}

/// `after` is `before` with every lattice cell of the (edge-clipped) square
/// of half-side `radius` around `(cx, cy)` set to `value`.
pub open spec fn seeded<T>(
    grid: Grid,
    before: Seq<T>,
    after: Seq<T>,
    cx: int,
    cy: int,
    radius: int,
    value: T,
) -> bool {
    &&& after.len() == before.len()
    &&& forall|x: int, y: int|
        #![trigger grid.cell(x, y)]
        grid.contains(x, y) ==> after[grid.cell(x, y)] == if Grid::in_square(cx, cy, radius, x, y) {
            value
        } else {
            before[grid.cell(x, y)]
        }
}

/// Every entry of `field` equals `value`.
pub open spec fn uniform<T>(field: Seq<T>, value: T) -> bool {
    forall|i: int| 0 <= i < field.len() ==> field[i] == value
}

/// A neighbourhood whose five values are all `value`.
pub open spec fn flat<T>(value: T) -> Neighborhood<T> {
    Neighborhood { center: value, left: value, right: value, up: value, down: value }
}

/// Two fields `u` and `v` on a periodic lattice, with the buffers that
/// receive the next state during a step.
#[derive(Debug)]
pub struct GrayScott<T> {
    grid: Grid,
    u: Vec<T>,
    v: Vec<T>,
    next_u: Vec<T>,
    next_v: Vec<T>,
}

impl<T: Copy> GrayScott<T> {
    /// The lattice is well formed and all four buffers hold one value per cell.
    pub closed spec fn wf(&self) -> bool {
        &&& self.grid.wf()
        &&& self.u@.len() == self.grid.cells()
        &&& self.v@.len() == self.grid.cells()
        &&& self.next_u@.len() == self.grid.cells()
        &&& self.next_v@.len() == self.grid.cells()
    }

    /// Shape of the lattice.
    pub closed spec fn grid(&self) -> Grid {
        self.grid
    }

    /// Current values of the `u` field, row-major.
    pub closed spec fn u_cells(&self) -> Seq<T> {
        self.u@
    }

    /// Current values of the `v` field, row-major.
    pub closed spec fn v_cells(&self) -> Seq<T> {
        self.v@
    }

    /// What well-formedness gives a caller: positive sides whose product fits
    /// in `usize`, and one `u` value and one `v` value per cell.
    pub proof fn lemma_shape(&self)
        requires
            self.wf(),
        ensures
            self.grid().wf(),
            self.grid().width > 0,
            self.grid().height > 0,
            self.u_cells().len() == self.grid().cells(),
            self.v_cells().len() == self.grid().cells(),
            self.grid().cells() > 0,
    {
        let w = self.grid.width as int;
        let h = self.grid.height as int;
        assert(w * h > 0) by (nonlinear_arith)
            requires
                w > 0,
                h > 0,
        ;
    }

    /// A `width x height` lattice with every `u` cell set to `u_value` and
    /// every `v` cell set to `v_value`.
    pub fn new(width: usize, height: usize, u_value: T, v_value: T) -> (sim: Self)
        requires
            width > 0,
            height > 0,
            width * height <= usize::MAX,
        ensures
            sim.wf(),
            sim.grid() == (Grid { width, height }),
            sim.u_cells().len() == width * height,
            uniform(sim.u_cells(), u_value),
            sim.v_cells().len() == width * height,
            uniform(sim.v_cells(), v_value),
    {
        let len = width * height;
        GrayScott {
            grid: Grid { width, height },
            u: filled(len, u_value),
            v: filled(len, v_value),
            next_u: filled(len, u_value),
            next_v: filled(len, v_value),
        }
    }

    /// A `width x height` lattice holding the given row-major fields.
    pub fn from_fields(width: usize, height: usize, u: Vec<T>, v: Vec<T>) -> (sim: Self)
        requires
            width > 0,
            height > 0,
            width * height <= usize::MAX,
            u@.len() == width * height,
            v@.len() == width * height,
        ensures
            sim.wf(),
            sim.grid() == (Grid { width, height }),
            sim.u_cells() == u@,
            sim.v_cells() == v@,
    {
        let next_u = copied(&u);
        let next_v = copied(&v);
        GrayScott { grid: Grid { width, height }, u, v, next_u, next_v }
    }

    /// Number of columns.
    pub fn width(&self) -> (w: usize)
        requires
            self.wf(),
        ensures
            w == self.grid().width,
            w > 0,
    {
        self.grid.width
    }

    /// Number of rows.
    pub fn height(&self) -> (h: usize)
        requires
            self.wf(),
        ensures
            h == self.grid().height,
            h > 0,
    {
        self.grid.height
    }

    /// Number of cells.
    pub fn len(&self) -> (n: usize)
        requires
            self.wf(),
        ensures
            n == self.u_cells().len(),
            n == self.v_cells().len(),
            n == self.grid().cells(),
            n == self.grid().width * self.grid().height,
    {
        self.u.len()
    }

    /// Whether the lattice has no cells (never, for a well-formed lattice).
    pub fn is_empty(&self) -> (b: bool)
        requires
            self.wf(),
        ensures
            b == (self.u_cells().len() == 0),
            !b,
    {
        proof {
            let w = self.grid.width as int;
            let h = self.grid.height as int;
            assert(w * h > 0) by (nonlinear_arith)
                requires
                    w > 0,
                    h > 0,
            ;
        }
        self.u.len() == 0
    }

    /// The `u` field, row-major.
    pub fn u(&self) -> (cells: &[T])
        requires
            self.wf(),
        ensures
            cells@ == self.u_cells(),
            cells@.len() == self.grid().cells(),
    {
        self.u.as_slice()
    }

    /// The `v` field, row-major.
    pub fn v(&self) -> (cells: &[T])
        requires
            self.wf(),
        ensures
            cells@ == self.v_cells(),
            cells@.len() == self.grid().cells(),
    {
        self.v.as_slice()
    }

    /// The `u` field for writing.  Writes through the slice become the new
    /// `u` field; the shape and the `v` field do not change.  The lattice is
    /// well formed afterwards provided the slice kept its length, which a
    /// slice always does.
    pub fn u_mut(&mut self) -> (cells: &mut [T])
        requires
            old(self).wf(),
        ensures
            cells@ == old(self).u_cells(),
            cells@.len() == old(self).grid().cells(),
            final(self).u_cells() == final(cells)@,
            final(self).grid() == old(self).grid(),
            final(self).v_cells() == old(self).v_cells(),
            final(cells)@.len() == cells@.len() ==> final(self).wf(),
    {
        self.u.as_mut_slice()
    }

    /// The `v` field for writing.  Writes through the slice become the new
    /// `v` field; the shape and the `u` field do not change.
    pub fn v_mut(&mut self) -> (cells: &mut [T])
        requires
            old(self).wf(),
        ensures
            cells@ == old(self).v_cells(),
            cells@.len() == old(self).grid().cells(),
            final(self).v_cells() == final(cells)@,
            final(self).grid() == old(self).grid(),
            final(self).u_cells() == old(self).u_cells(),
            final(cells)@.len() == cells@.len() ==> final(self).wf(),
    {
        self.v.as_mut_slice()
    }

    /// Row-major index of the cell at column `x`, row `y`.
    pub fn index(&self, x: usize, y: usize) -> (i: usize)
        requires
            self.wf(),
            x < self.grid().width,
            y < self.grid().height,
        ensures
            i == self.grid().cell(x as int, y as int),
            i < self.u_cells().len(),
    {
        proof {
            self.grid.lemma_cell_bounds(x as int, y as int);
        }
        self.grid.cell_index(x, y)
    }
    /// Set every cell of the square of half-side `radius` around
    /// `(center_x, center_y)` to `u_value` in `u` and `v_value` in `v`.
    /// The square is clipped at the lattice edges; it does not wrap.
    pub fn seed_square(&mut self, center_x: usize, center_y: usize, radius: usize, u_value: T, v_value: T)
        requires
            old(self).wf(),
            center_x < old(self).grid().width,
            center_y < old(self).grid().height,
        ensures
            final(self).wf(),
            final(self).grid() == old(self).grid(),
            seeded(
                old(self).grid(),
                old(self).u_cells(),
                final(self).u_cells(),
                center_x as int,
                center_y as int,
                radius as int,
                u_value,
            ),
            seeded(
                old(self).grid(),
                old(self).v_cells(),
                final(self).v_cells(),
                center_x as int,
                center_y as int,
                radius as int,
                v_value,
            ),
    {
        let grid = self.grid;
        let min_x = center_x.saturating_sub(radius);
        let reach_x = center_x.saturating_add(radius);
        let max_x = if reach_x < grid.width - 1 {
            reach_x
        } else {
            grid.width - 1
        };
        let min_y = center_y.saturating_sub(radius);
        let reach_y = center_y.saturating_add(radius);
        let max_y = if reach_y < grid.height - 1 {
            reach_y
        } else {
            grid.height - 1
        };
        let ghost cx = center_x as int;
        let ghost cy = center_y as int;
        let ghost r = radius as int;
        let mut y = min_y;
        while y <= max_y
            invariant
                self.grid == grid,
                self.wf(),
                min_y <= y <= max_y + 1,
                cx < grid.width,
                cy < grid.height,
                max_y < grid.height,
                max_x < grid.width,
                min_x == (if cx - r >= 0 { cx - r } else { 0 }),
                max_x == (if cx + r < grid.width { cx + r } else { grid.width - 1 }),
                min_y == (if cy - r >= 0 { cy - r } else { 0 }),
                max_y == (if cy + r < grid.height { cy + r } else { grid.height - 1 }),
                forall|xx: int, yy: int|
                    #![trigger grid.cell(xx, yy)]
                    grid.contains(xx, yy) ==> self.u@[grid.cell(xx, yy)] == if Grid::in_square(cx, cy, r, xx, yy) && yy < y {
                        u_value
                    } else {
                        old(self).u@[grid.cell(xx, yy)]
                    },
                forall|xx: int, yy: int|
                    #![trigger grid.cell(xx, yy)]
                    grid.contains(xx, yy) ==> self.v@[grid.cell(xx, yy)] == if Grid::in_square(cx, cy, r, xx, yy) && yy < y {
                        v_value
                    } else {
                        old(self).v@[grid.cell(xx, yy)]
                    },
            decreases max_y + 1 - y,
        {
            let mut x = min_x;
            while x <= max_x
                invariant
                    self.grid == grid,
                    self.wf(),
                    min_y <= y <= max_y,
                    min_x <= x <= max_x + 1,
                    cx < grid.width,
                    cy < grid.height,
                    max_y < grid.height,
                    max_x < grid.width,
                    min_x == (if cx - r >= 0 { cx - r } else { 0 }),
                    max_x == (if cx + r < grid.width { cx + r } else { grid.width - 1 }),
                    min_y == (if cy - r >= 0 { cy - r } else { 0 }),
                    max_y == (if cy + r < grid.height { cy + r } else { grid.height - 1 }),
                    forall|xx: int, yy: int|
                        #![trigger grid.cell(xx, yy)]
                        grid.contains(xx, yy) ==> self.u@[grid.cell(xx, yy)] == if Grid::in_square(cx, cy, r, xx, yy) && (yy < y || (yy == y && xx < x)) {
                            u_value
                        } else {
                            old(self).u@[grid.cell(xx, yy)]
                        },
                    forall|xx: int, yy: int|
                        #![trigger grid.cell(xx, yy)]
                        grid.contains(xx, yy) ==> self.v@[grid.cell(xx, yy)] == if Grid::in_square(cx, cy, r, xx, yy) && (yy < y || (yy == y && xx < x)) {
                            v_value
                        } else {
                            old(self).v@[grid.cell(xx, yy)]
                        },
                decreases max_x + 1 - x,
            {
                proof {
                    grid.lemma_cell_bounds(x as int, y as int);
                }
                let i = grid.cell_index(x, y);
                self.u.set(i, u_value);
                self.v.set(i, v_value);
                proof {
                    assert forall|xx: int, yy: int|
                        #![trigger grid.cell(xx, yy)]
                        grid.contains(xx, yy) implies self.u@[grid.cell(xx, yy)] == (if Grid::in_square(cx, cy, r, xx, yy) && (yy < y || (yy == y && xx < x + 1)) {
                            u_value
                        } else {
                            old(self).u@[grid.cell(xx, yy)]
                        }) && self.v@[grid.cell(xx, yy)] == (if Grid::in_square(cx, cy, r, xx, yy) && (yy < y || (yy == y && xx < x + 1)) {
                            v_value
                        } else {
                            old(self).v@[grid.cell(xx, yy)]
                        }) by {
                        grid.lemma_cell_bounds(xx, yy);
                        if grid.cell(xx, yy) == i {
                            grid.lemma_cell_injective(xx, yy, x as int, y as int);
                        }
                    }
                }
                x += 1;
            }
            y += 1;
        }
    }

    /// A `width x height` lattice at rest, `rest_u` and `rest_v` in every
    /// cell, but for the square of half-side `radius` around the centre cell
    /// `(width / 2, height / 2)`, which holds `seed_u` and `seed_v`.
    pub fn seeded_at_center(
        width: usize,
        height: usize,
        radius: usize,
        rest_u: T,
        rest_v: T,
        seed_u: T,
        seed_v: T,
    ) -> (sim: Self)
        requires
            width > 0,
            height > 0,
            width * height <= usize::MAX,
        ensures
            sim.wf(),
            sim.grid() == (Grid { width, height }),
            sim.u_cells().len() == width * height,
            sim.v_cells().len() == width * height,
            forall|x: int, y: int|
                #![trigger sim.grid().cell(x, y)]
                sim.grid().contains(x, y) ==> {
                    let inside = Grid::in_square((width / 2) as int, (height / 2) as int, radius as int, x, y);
                    &&& sim.u_cells()[sim.grid().cell(x, y)] == if inside {
                        seed_u
                    } else {
                        rest_u
                    }
                    &&& sim.v_cells()[sim.grid().cell(x, y)] == if inside {
                        seed_v
                    } else {
                        rest_v
                    }
                },
    {
        let mut sim = GrayScott::new(width, height, rest_u, rest_v);
        let ghost at_rest = sim;
        sim.seed_square(width / 2, height / 2, radius, seed_u, seed_v);
        proof {
            let grid = sim.grid();
            assert forall|x: int, y: int|
                #![trigger grid.cell(x, y)]
                grid.contains(x, y) implies at_rest.u_cells()[grid.cell(x, y)] == rest_u
                    && at_rest.v_cells()[grid.cell(x, y)] == rest_v by {
                grid.lemma_cell_bounds(x, y);
            }
        }
        sim
    }

    /// Advance both fields by one synchronous update.  Every new value is
    /// computed from the old fields only: the new state is written into the
    /// spare buffers, which then become the current ones.
    pub fn step<F>(&mut self, update: &F)
        where
            F: Fn(Neighborhood<T>, Neighborhood<T>) -> (T, T),
        requires
            old(self).wf(),
            forall|a: Neighborhood<T>, b: Neighborhood<T>| update.requires((a, b)),
        ensures
            final(self).wf(),
            final(self).grid() == old(self).grid(),
            is_step(
                old(self).grid(),
                *update,
                old(self).u_cells(),
                old(self).v_cells(),
                final(self).u_cells(),
                final(self).v_cells(),
            ),
    {
        self.advance(update, update, false);
    }

    /// One synchronous update through the vectorised kernel: the cells that
    /// it computes four at a time (`lane_cell`) take `lanes`, every other
    /// cell takes `scalar`.  On a lattice under six columns or three rows no
    /// cell is a lane cell, so the whole update is scalar.
    pub fn step_simd<F, G>(&mut self, scalar: &F, lanes: &G)
        where
            F: Fn(Neighborhood<T>, Neighborhood<T>) -> (T, T),
            G: Fn(Neighborhood<T>, Neighborhood<T>) -> (T, T),
        requires
            old(self).wf(),
            forall|a: Neighborhood<T>, b: Neighborhood<T>| scalar.requires((a, b)),
            forall|a: Neighborhood<T>, b: Neighborhood<T>| lanes.requires((a, b)),
        ensures
            final(self).wf(),
            final(self).grid() == old(self).grid(),
            is_simd_step(
                old(self).grid(),
                *scalar,
                *lanes,
                old(self).u_cells(),
                old(self).v_cells(),
                final(self).u_cells(),
                final(self).v_cells(),
            ),
    {
        self.advance(scalar, lanes, true);
    }

    /// The update loop shared by `step` and `step_simd`: with `vectorised`
    /// the lane cells take `lanes`, otherwise every cell takes `scalar`.
    fn advance<F, G>(&mut self, scalar: &F, lanes: &G, vectorised: bool)
        where
            F: Fn(Neighborhood<T>, Neighborhood<T>) -> (T, T),
            G: Fn(Neighborhood<T>, Neighborhood<T>) -> (T, T),
        requires
            old(self).wf(),
            forall|a: Neighborhood<T>, b: Neighborhood<T>| scalar.requires((a, b)),
            forall|a: Neighborhood<T>, b: Neighborhood<T>| lanes.requires((a, b)),
        ensures
            final(self).wf(),
            final(self).grid() == old(self).grid(),
            vectorised ==> is_simd_step(
                old(self).grid(),
                *scalar,
                *lanes,
                old(self).u_cells(),
                old(self).v_cells(),
                final(self).u_cells(),
                final(self).v_cells(),
            ),
            !vectorised ==> is_step(
                old(self).grid(),
                *scalar,
                old(self).u_cells(),
                old(self).v_cells(),
                final(self).u_cells(),
                final(self).v_cells(),
            ),
    {
        let grid = self.grid;
        let len = self.u.len();
        let ghost w = grid.width as int;
        let ghost h = grid.height as int;
        let mut i: usize = 0;
        let mut x: usize = 0;
        let mut y: usize = 0;
        while i < len
            invariant
                self.grid == grid,
                self.wf(),
                len == grid.cells(),
                w == grid.width,
                h == grid.height,
                self.u@ == old(self).u@,
                self.v@ == old(self).v@,
                i <= len,
                x < grid.width,
                i == grid.cell(x as int, y as int),
                i < len ==> y < grid.height,
                forall|a: Neighborhood<T>, b: Neighborhood<T>| scalar.requires((a, b)),
                forall|a: Neighborhood<T>, b: Neighborhood<T>| lanes.requires((a, b)),
                forall|xx: int, yy: int|
                    #![trigger grid.cell(xx, yy)]
                    grid.contains(xx, yy) && grid.cell(xx, yy) < i ==> if vectorised && lane_cell(
                        grid,
                        xx,
                        yy,
                    ) {
                        follows(grid, *lanes, self.u@, self.v@, self.next_u@, self.next_v@, xx, yy)
                    } else {
                        follows(grid, *scalar, self.u@, self.v@, self.next_u@, self.next_v@, xx, yy)
                    },
            decreases len - i,
        {
            proof {
                lemma_stencil_in_bounds(grid, x as int, y as int);
            }
            let s = grid.stencil(x, y);
            let hu = Neighborhood {
                center: self.u[s.center],
                left: self.u[s.left],
                right: self.u[s.right],
                up: self.u[s.up],
                down: self.u[s.down],
            };
            let hv = Neighborhood {
                center: self.v[s.center],
                left: self.v[s.left],
                right: self.v[s.right],
                up: self.v[s.up],
                down: self.v[s.down],
            };
            let lane = vectorised && is_lane_cell(grid, x, y);
            let (nu, nv) = if lane {
                lanes(hu, hv)
            } else {
                scalar(hu, hv)
            };
            self.next_u.set(s.center, nu);
            self.next_v.set(s.center, nv);
            proof {
                assert(hu == neighborhood(grid, self.u@, x as int, y as int));
                assert(hv == neighborhood(grid, self.v@, x as int, y as int));
                assert forall|xx: int, yy: int|
                    #![trigger grid.cell(xx, yy)]
                    grid.contains(xx, yy) && grid.cell(xx, yy) < i + 1 implies (if vectorised
                        && lane_cell(grid, xx, yy) {
                        follows(grid, *lanes, self.u@, self.v@, self.next_u@, self.next_v@, xx, yy)
                    } else {
                        follows(grid, *scalar, self.u@, self.v@, self.next_u@, self.next_v@, xx, yy)
                    }) by {
                    if grid.cell(xx, yy) == i {
                        grid.lemma_cell_injective(xx, yy, x as int, y as int);
                    }
                }
            }
            i += 1;
            if x + 1 == grid.width {
                proof {
                    assert((y + 1) * w == y * w + w) by (nonlinear_arith);
                    if i < len {
                        assert(y + 1 < h) by (nonlinear_arith)
                            requires
                                (y + 1) * w < w * h,
                                w > 0,
                        ;
                    }
                }
                x = 0;
                y += 1;
            } else {
                x += 1;
            }
        }
        proof {
            assert forall|xx: int, yy: int|
                #![trigger grid.cell(xx, yy)]
                grid.contains(xx, yy) implies grid.cell(xx, yy) < i by {
                grid.lemma_cell_bounds(xx, yy);
            }
        }
        std::mem::swap(&mut self.u, &mut self.next_u);
        std::mem::swap(&mut self.v, &mut self.next_v);
    }

    /// Advance both fields by `steps` synchronous updates.
    pub fn run<F>(&mut self, steps: usize, update: &F)
        where
            F: Fn(Neighborhood<T>, Neighborhood<T>) -> (T, T),
        requires
            old(self).wf(),
            forall|a: Neighborhood<T>, b: Neighborhood<T>| update.requires((a, b)),
        ensures
            final(self).wf(),
            final(self).grid() == old(self).grid(),
            runs(
                old(self).grid(),
                *update,
                steps as nat,
                old(self).u_cells(),
                old(self).v_cells(),
                final(self).u_cells(),
                final(self).v_cells(),
            ),
    {
        let mut k: usize = 0;
        proof {
            lemma_runs_zero(self.grid(), *update, self.u_cells(), self.v_cells());
        }
        while k < steps
            invariant
                k <= steps,
                self.wf(),
                self.grid() == old(self).grid(),
                forall|a: Neighborhood<T>, b: Neighborhood<T>| update.requires((a, b)),
                runs(
                    old(self).grid(),
                    *update,
                    k as nat,
                    old(self).u_cells(),
                    old(self).v_cells(),
                    self.u_cells(),
                    self.v_cells(),
                ),
            decreases steps - k,
        {
            let ghost pu = self.u_cells();
            let ghost pv = self.v_cells();
            self.step(update);
            proof {
                lemma_runs_extend(
                    old(self).grid(),
                    *update,
                    k as nat,
                    old(self).u_cells(),
                    old(self).v_cells(),
                    pu,
                    pv,
                    self.u_cells(),
                    self.v_cells(),
                );
            }
            k += 1;
        }
    }

    /// Advance both fields by `steps` updates through the vectorised kernel.
    pub fn run_simd<F, G>(&mut self, steps: usize, scalar: &F, lanes: &G)
        where
            F: Fn(Neighborhood<T>, Neighborhood<T>) -> (T, T),
            G: Fn(Neighborhood<T>, Neighborhood<T>) -> (T, T),
        requires
            old(self).wf(),
            forall|a: Neighborhood<T>, b: Neighborhood<T>| scalar.requires((a, b)),
            forall|a: Neighborhood<T>, b: Neighborhood<T>| lanes.requires((a, b)),
        ensures
            final(self).wf(),
            final(self).grid() == old(self).grid(),
            runs_simd(
                old(self).grid(),
                *scalar,
                *lanes,
                steps as nat,
                old(self).u_cells(),
                old(self).v_cells(),
                final(self).u_cells(),
                final(self).v_cells(),
            ),
    {
        let mut k: usize = 0;
        proof {
            lemma_runs_simd_zero(self.grid(), *scalar, *lanes, self.u_cells(), self.v_cells());
        }
        while k < steps
            invariant
                k <= steps,
                self.wf(),
                self.grid() == old(self).grid(),
                forall|a: Neighborhood<T>, b: Neighborhood<T>| scalar.requires((a, b)),
                forall|a: Neighborhood<T>, b: Neighborhood<T>| lanes.requires((a, b)),
                runs_simd(
                    old(self).grid(),
                    *scalar,
                    *lanes,
                    k as nat,
                    old(self).u_cells(),
                    old(self).v_cells(),
                    self.u_cells(),
                    self.v_cells(),
                ),
            decreases steps - k,
        {
            let ghost pu = self.u_cells();
            let ghost pv = self.v_cells();
            self.step_simd(scalar, lanes);
            proof {
                lemma_runs_simd_extend(
                    old(self).grid(),
                    *scalar,
                    *lanes,
                    k as nat,
                    old(self).u_cells(),
                    old(self).v_cells(),
                    pu,
                    pv,
                    self.u_cells(),
                    self.v_cells(),
                );
            }
            k += 1;
        }
    }
}

/// Whether the vectorised kernel computes cell `(x, y)` in a lane.
fn is_lane_cell(grid: Grid, x: usize, y: usize) -> (b: bool)
    requires
        grid.wf(),
        x < grid.width,
        y < grid.height,
    ensures
        b == lane_cell(grid, x as int, y as int),
{
    grid.width >= 6 && grid.height >= 3 && y >= 1 && y + 1 < grid.height && x >= 1 && 4 * ((x
        - 1) / 4) < grid.width - 5
}

/// Zero updates leave the fields as they are.
pub proof fn lemma_runs_zero<T, F: Fn(Neighborhood<T>, Neighborhood<T>) -> (T, T)>(
    grid: Grid,
    update: F,
    u: Seq<T>,
    v: Seq<T>,
)
    ensures
        runs(grid, update, 0, u, v, u, v),
{
    let trace = seq![(u, v)];
    assert(is_trace(grid, update, 0, trace, u, v, u, v));
}

/// One update is exactly a run of length one.
pub proof fn lemma_runs_one<T, F: Fn(Neighborhood<T>, Neighborhood<T>) -> (T, T)>(
    grid: Grid,
    update: F,
    u: Seq<T>,
    v: Seq<T>,
    u2: Seq<T>,
    v2: Seq<T>,
)
    ensures
        runs(grid, update, 1, u, v, u2, v2) <==> is_step(grid, update, u, v, u2, v2),
{
    if is_step(grid, update, u, v, u2, v2) {
        let trace = seq![(u, v), (u2, v2)];
        assert(trace[0] == (u, v));
        assert(trace[1] == (u2, v2));
        assert(is_trace(grid, update, 1, trace, u, v, u2, v2));
    }
    if runs(grid, update, 1, u, v, u2, v2) {
        let trace = choose|t: Seq<(Seq<T>, Seq<T>)>| is_trace(grid, update, 1, t, u, v, u2, v2);
        assert(trace[0] == (u, v));
    }
}

/// Running `a` updates and then `b` more is running `a + b` updates.
pub proof fn lemma_runs_compose<T, F: Fn(Neighborhood<T>, Neighborhood<T>) -> (T, T)>(
    grid: Grid,
    update: F,
    a: nat,
    b: nat,
    u0: Seq<T>,
    v0: Seq<T>,
    u1: Seq<T>,
    v1: Seq<T>,
    u2: Seq<T>,
    v2: Seq<T>,
)
    requires
        runs(grid, update, a, u0, v0, u1, v1),
        runs(grid, update, b, u1, v1, u2, v2),
    ensures
        runs(grid, update, a + b, u0, v0, u2, v2),
{
    let t1 = choose|t: Seq<(Seq<T>, Seq<T>)>| is_trace(grid, update, a, t, u0, v0, u1, v1);
    let t2 = choose|t: Seq<(Seq<T>, Seq<T>)>| is_trace(grid, update, b, t, u1, v1, u2, v2);
    let joined = t1 + t2.subrange(1, b as int + 1);
    assert(joined.len() == a + b + 1);
    assert forall|k: int| 0 <= k <= a + b implies #[trigger] joined[k] == (if k <= a {
        t1[k]
    } else {
        t2[k - a]
    }) by {
        if k == a {
            assert(t1[a as int] == (u1, v1));
            assert(t2[0] == (u1, v1));
        }
    }
    assert forall|k: int| #![trigger joined[k]] 0 <= k < a + b implies is_step(
        grid,
        update,
        joined[k].0,
        joined[k].1,
        joined[k + 1].0,
        joined[k + 1].1,
    ) by {
        assert(joined[k + 1] == (if k + 1 <= a {
            t1[k + 1]
        } else {
            t2[k + 1 - a]
        }));
        if k < a {
            assert(t1[k] == joined[k]);
        } else {
            assert(t2[k - a] == joined[k]);
            assert(t2[k - a + 1] == joined[k + 1]);
        }
    }
    assert(joined[0] == t1[0]);
    assert(joined[(a + b) as int] == t2[b as int]);
    assert(is_trace(grid, update, a + b, joined, u0, v0, u2, v2));
}

/// A state in which `u` and `v` are each constant is kept by an update
/// whose only result on constant neighbourhoods `(a, b)` is `(a, b)`.
pub proof fn lemma_uniform_step<T, F: Fn(Neighborhood<T>, Neighborhood<T>) -> (T, T)>(
    grid: Grid,
    update: F,
    a: T,
    b: T,
    u: Seq<T>,
    v: Seq<T>,
    u2: Seq<T>,
    v2: Seq<T>,
)
    requires
        grid.wf(),
        u.len() == grid.cells(),
        v.len() == grid.cells(),
        uniform(u, a),
        uniform(v, b),
        forall|r: (T, T)| #[trigger] update.ensures((flat(a), flat(b)), r) ==> r == (a, b),
        is_step(grid, update, u, v, u2, v2),
    ensures
        uniform(u2, a),
        uniform(v2, b),
{
    assert forall|i: int| 0 <= i < u2.len() implies u2[i] == a && v2[i] == b by {
        grid.lemma_cell_decompose(i);
        let x = grid.col_of(i);
        let y = grid.row_of(i);
        lemma_stencil_in_bounds(grid, x, y);
        assert(neighborhood(grid, u, x, y) == flat(a));
        assert(neighborhood(grid, v, x, y) == flat(b));
        assert(update.ensures((flat(a), flat(b)), (u2[grid.cell(x, y)], v2[grid.cell(x, y)])));
    }
}

/// Any number of such updates keeps a constant state constant.
pub proof fn lemma_uniform_runs<T, F: Fn(Neighborhood<T>, Neighborhood<T>) -> (T, T)>(
    grid: Grid,
    update: F,
    n: nat,
    a: T,
    b: T,
    u: Seq<T>,
    v: Seq<T>,
    u2: Seq<T>,
    v2: Seq<T>,
)
    requires
        grid.wf(),
        u.len() == grid.cells(),
        v.len() == grid.cells(),
        uniform(u, a),
        uniform(v, b),
        forall|r: (T, T)| #[trigger] update.ensures((flat(a), flat(b)), r) ==> r == (a, b),
        runs(grid, update, n, u, v, u2, v2),
    ensures
        uniform(u2, a),
        uniform(v2, b),
{
    let trace = choose|t: Seq<(Seq<T>, Seq<T>)>| is_trace(grid, update, n, t, u, v, u2, v2);
    lemma_uniform_trace(grid, update, n, trace, a, b, u, v, u2, v2, n as int);
}

/// Every state of a trace that starts constant (under an update that keeps
/// constants) is constant.
proof fn lemma_uniform_trace<T, F: Fn(Neighborhood<T>, Neighborhood<T>) -> (T, T)>(
    grid: Grid,
    update: F,
    n: nat,
    trace: Seq<(Seq<T>, Seq<T>)>,
    a: T,
    b: T,
    u: Seq<T>,
    v: Seq<T>,
    u2: Seq<T>,
    v2: Seq<T>,
    k: int,
)
    requires
        grid.wf(),
        u.len() == grid.cells(),
        v.len() == grid.cells(),
        uniform(u, a),
        uniform(v, b),
        forall|r: (T, T)| #[trigger] update.ensures((flat(a), flat(b)), r) ==> r == (a, b),
        is_trace(grid, update, n, trace, u, v, u2, v2),
        0 <= k <= n,
    ensures
        trace[k].0.len() == grid.cells(),
        trace[k].1.len() == grid.cells(),
        uniform(trace[k].0, a),
        uniform(trace[k].1, b),
    decreases k,
{
    if k > 0 {
        lemma_uniform_trace(grid, update, n, trace, a, b, u, v, u2, v2, k - 1);
        assert(is_step(
            grid,
            update,
            trace[k - 1].0,
            trace[k - 1].1,
            trace[k].0,
            trace[k].1,
        ));
        lemma_uniform_step(
            grid,
            update,
            a,
            b,
            trace[k - 1].0,
            trace[k - 1].1,
            trace[k].0,
            trace[k].1,
        );
    }
}

/// Seeding the same square with the same value twice gives what seeding
/// it once gives.
pub proof fn lemma_seed_idempotent<T>(
    grid: Grid,
    before: Seq<T>,
    once: Seq<T>,
    twice: Seq<T>,
    cx: int,
    cy: int,
    radius: int,
    value: T,
)
    requires
        grid.wf(),
        before.len() == grid.cells(),
        seeded(grid, before, once, cx, cy, radius, value),
        seeded(grid, once, twice, cx, cy, radius, value),
    ensures
        twice == once,
{
    assert forall|i: int| 0 <= i < once.len() implies twice[i] == once[i] by {
        grid.lemma_cell_decompose(i);
        let x = grid.col_of(i);
        let y = grid.row_of(i);
        assert(twice[grid.cell(x, y)] == once[grid.cell(x, y)]);
    }
    assert(twice =~= once);
}

/// `update` has exactly one result for each pair of neighbourhoods.
pub open spec fn deterministic<T, F: Fn(Neighborhood<T>, Neighborhood<T>) -> (T, T)>(
    update: F,
) -> bool {
    forall|a: Neighborhood<T>, b: Neighborhood<T>, r1: (T, T), r2: (T, T)|
        #![trigger update.ensures((a, b), r1), update.ensures((a, b), r2)]
        update.ensures((a, b), r1) && update.ensures((a, b), r2) ==> r1 == r2
}

/// With an update that has one result per input, a step has one outcome.
pub proof fn lemma_step_unique<T, F: Fn(Neighborhood<T>, Neighborhood<T>) -> (T, T)>(
    grid: Grid,
    update: F,
    u: Seq<T>,
    v: Seq<T>,
    u1: Seq<T>,
    v1: Seq<T>,
    u2: Seq<T>,
    v2: Seq<T>,
)
    requires
        grid.wf(),
        deterministic(update),
        is_step(grid, update, u, v, u1, v1),
        is_step(grid, update, u, v, u2, v2),
    ensures
        u1 == u2,
        v1 == v2,
{
    assert forall|i: int| 0 <= i < u1.len() implies u1[i] == u2[i] && v1[i] == v2[i] by {
        grid.lemma_cell_decompose(i);
        let x = grid.col_of(i);
        let y = grid.row_of(i);
        let args = (neighborhood(grid, u, x, y), neighborhood(grid, v, x, y));
        assert(update.ensures(args, (u1[grid.cell(x, y)], v1[grid.cell(x, y)])));
        assert(update.ensures(args, (u2[grid.cell(x, y)], v2[grid.cell(x, y)])));
    }
    assert(u1 =~= u2);
    assert(v1 =~= v2);
}

/// With an update that has one result per input, `n` updates have one
/// outcome.
pub proof fn lemma_runs_unique<T, F: Fn(Neighborhood<T>, Neighborhood<T>) -> (T, T)>(
    grid: Grid,
    update: F,
    n: nat,
    u: Seq<T>,
    v: Seq<T>,
    u1: Seq<T>,
    v1: Seq<T>,
    u2: Seq<T>,
    v2: Seq<T>,
)
    requires
        grid.wf(),
        deterministic(update),
        runs(grid, update, n, u, v, u1, v1),
        runs(grid, update, n, u, v, u2, v2),
    ensures
        u1 == u2,
        v1 == v2,
{
    let t1 = choose|t: Seq<(Seq<T>, Seq<T>)>| is_trace(grid, update, n, t, u, v, u1, v1);
    let t2 = choose|t: Seq<(Seq<T>, Seq<T>)>| is_trace(grid, update, n, t, u, v, u2, v2);
    lemma_traces_agree(grid, update, n, t1, t2, u, v, u1, v1, u2, v2, n as int);
}

/// Two traces of a deterministic update from the same start agree.
proof fn lemma_traces_agree<T, F: Fn(Neighborhood<T>, Neighborhood<T>) -> (T, T)>(
    grid: Grid,
    update: F,
    n: nat,
    t1: Seq<(Seq<T>, Seq<T>)>,
    t2: Seq<(Seq<T>, Seq<T>)>,
    u: Seq<T>,
    v: Seq<T>,
    u1: Seq<T>,
    v1: Seq<T>,
    u2: Seq<T>,
    v2: Seq<T>,
    k: int,
)
    requires
        grid.wf(),
        deterministic(update),
        is_trace(grid, update, n, t1, u, v, u1, v1),
        is_trace(grid, update, n, t2, u, v, u2, v2),
        0 <= k <= n,
    ensures
        t1[k] == t2[k],
    decreases k,
{
    if k > 0 {
        lemma_traces_agree(grid, update, n, t1, t2, u, v, u1, v1, u2, v2, k - 1);
        assert(is_step(grid, update, t1[k - 1].0, t1[k - 1].1, t1[k].0, t1[k].1));
        assert(is_step(grid, update, t2[k - 1].0, t2[k - 1].1, t2[k].0, t2[k].1));
        lemma_step_unique(
            grid,
            update,
            t1[k - 1].0,
            t1[k - 1].1,
            t1[k].0,
            t1[k].1,
            t2[k].0,
            t2[k].1,
        );
    }
}

/// `field` shifted periodically by `dx` columns and `dy` rows: the cell at
/// `(x, y)` holds what `field` holds at `((x - dx) mod width, (y - dy) mod height)`.
pub open spec fn shifted<T>(grid: Grid, field: Seq<T>, dx: int, dy: int) -> Seq<T> {
    Seq::new(
        field.len(),
        |i: int|
            field[grid.cell(
                source_col(grid, grid.col_of(i), dx),
                source_row(grid, grid.row_of(i), dy),
            )],
    )
}

/// A shifted field read at a lattice cell.
pub proof fn lemma_shifted_at<T>(grid: Grid, field: Seq<T>, dx: int, dy: int, x: int, y: int)
    requires
        grid.wf(),
        field.len() == grid.cells(),
        0 <= dx < grid.width,
        0 <= dy < grid.height,
        grid.contains(x, y),
    ensures
        shifted(grid, field, dx, dy)[grid.cell(x, y)] == field[grid.cell(
            source_col(grid, x, dx),
            source_row(grid, y, dy),
        )],
{
    grid.lemma_cell_bounds(x, y);
    grid.lemma_cell_coords(x, y);
}

/// The neighbourhood of a cell in a shifted field is the neighbourhood of
/// its source cell in the field.
pub proof fn lemma_shifted_neighborhood<T>(grid: Grid, field: Seq<T>, dx: int, dy: int, x: int, y: int)
    requires
        grid.wf(),
        field.len() == grid.cells(),
        0 <= dx < grid.width,
        0 <= dy < grid.height,
        grid.contains(x, y),
    ensures
        grid.contains(source_col(grid, x, dx), source_row(grid, y, dy)),
        neighborhood(grid, shifted(grid, field, dx, dy), x, y) == neighborhood(
            grid,
            field,
            source_col(grid, x, dx),
            source_row(grid, y, dy),
        ),
{
    lemma_shift_neighbours(grid, x, y, dx, dy);
    crate::grid::lemma_periodic_neighbours(grid, x, y);
    lemma_shifted_at(grid, field, dx, dy, x, y);
    lemma_shifted_at(grid, field, dx, dy, grid.left_of(x), y);
    lemma_shifted_at(grid, field, dx, dy, grid.right_of(x), y);
    lemma_shifted_at(grid, field, dx, dy, x, grid.up_of(y));
    lemma_shifted_at(grid, field, dx, dy, x, grid.down_of(y));
    let sx = source_col(grid, x, dx);
    let sy = source_row(grid, y, dy);
    crate::grid::lemma_periodic_neighbours(grid, sx, sy);
    grid.lemma_cell_bounds(x, y);
    grid.lemma_cell_bounds(grid.left_of(x), y);
    grid.lemma_cell_bounds(grid.right_of(x), y);
    grid.lemma_cell_bounds(x, grid.up_of(y));
    grid.lemma_cell_bounds(x, grid.down_of(y));
    grid.lemma_cell_bounds(sx, sy);
    grid.lemma_cell_bounds(grid.left_of(sx), sy);
    grid.lemma_cell_bounds(grid.right_of(sx), sy);
    grid.lemma_cell_bounds(sx, grid.up_of(sy));
    grid.lemma_cell_bounds(sx, grid.down_of(sy));
    let sh = shifted(grid, field, dx, dy);
    let a = neighborhood(grid, sh, x, y);
    let b = neighborhood(grid, field, sx, sy);
    assert(a.center == b.center);
    assert(a.left == b.left);
    assert(a.right == b.right);
    assert(a.up == b.up);
    assert(a.down == b.down);
}

/// Periodic boundaries treat every cell alike: shifting the fields and then
/// stepping is a step of the shifted fields.
pub proof fn lemma_step_shift<T, F: Fn(Neighborhood<T>, Neighborhood<T>) -> (T, T)>(
    grid: Grid,
    update: F,
    dx: int,
    dy: int,
    u: Seq<T>,
    v: Seq<T>,
    u2: Seq<T>,
    v2: Seq<T>,
)
    requires
        grid.wf(),
        0 <= dx < grid.width,
        0 <= dy < grid.height,
        u.len() == grid.cells(),
        v.len() == grid.cells(),
        is_step(grid, update, u, v, u2, v2),
    ensures
        is_step(
            grid,
            update,
            shifted(grid, u, dx, dy),
            shifted(grid, v, dx, dy),
            shifted(grid, u2, dx, dy),
            shifted(grid, v2, dx, dy),
        ),
{
    let su = shifted(grid, u, dx, dy);
    let sv = shifted(grid, v, dx, dy);
    let su2 = shifted(grid, u2, dx, dy);
    let sv2 = shifted(grid, v2, dx, dy);
    assert forall|x: int, y: int|
        #![trigger grid.cell(x, y)]
        grid.contains(x, y) implies update.ensures(
        (neighborhood(grid, su, x, y), neighborhood(grid, sv, x, y)),
        (su2[grid.cell(x, y)], sv2[grid.cell(x, y)]),
    ) by {
        let sx = source_col(grid, x, dx);
        let sy = source_row(grid, y, dy);
        lemma_shifted_neighborhood(grid, u, dx, dy, x, y);
        lemma_shifted_neighborhood(grid, v, dx, dy, x, y);
        lemma_shifted_at(grid, u2, dx, dy, x, y);
        lemma_shifted_at(grid, v2, dx, dy, x, y);
        assert(grid.contains(sx, sy));
        assert(update.ensures(
            (neighborhood(grid, u, sx, sy), neighborhood(grid, v, sx, sy)),
            (u2[grid.cell(sx, sy)], v2[grid.cell(sx, sy)]),
        ));
    }
}

/// Shifting commutes with `n` updates as it does with one.
pub proof fn lemma_runs_shift<T, F: Fn(Neighborhood<T>, Neighborhood<T>) -> (T, T)>(
    grid: Grid,
    update: F,
    n: nat,
    dx: int,
    dy: int,
    u: Seq<T>,
    v: Seq<T>,
    u2: Seq<T>,
    v2: Seq<T>,
)
    requires
        grid.wf(),
        0 <= dx < grid.width,
        0 <= dy < grid.height,
        u.len() == grid.cells(),
        v.len() == grid.cells(),
        runs(grid, update, n, u, v, u2, v2),
    ensures
        runs(
            grid,
            update,
            n,
            shifted(grid, u, dx, dy),
            shifted(grid, v, dx, dy),
            shifted(grid, u2, dx, dy),
            shifted(grid, v2, dx, dy),
        ),
{
    let t = choose|t: Seq<(Seq<T>, Seq<T>)>| is_trace(grid, update, n, t, u, v, u2, v2);
    let st = Seq::new(
        n + 1,
        |k: int| (shifted(grid, t[k].0, dx, dy), shifted(grid, t[k].1, dx, dy)),
    );
    assert forall|k: int| #![trigger st[k]] 0 <= k < n implies is_step(
        grid,
        update,
        st[k].0,
        st[k].1,
        st[k + 1].0,
        st[k + 1].1,
    ) by {
        assert(is_step(grid, update, t[k].0, t[k].1, t[k + 1].0, t[k + 1].1));
        if k > 0 {
            assert(is_step(grid, update, t[k - 1].0, t[k - 1].1, t[k].0, t[k].1));
        }
        lemma_step_shift(grid, update, dx, dy, t[k].0, t[k].1, t[k + 1].0, t[k + 1].1);
    }
    assert(st[0] == (shifted(grid, u, dx, dy), shifted(grid, v, dx, dy)));
    assert(st[n as int] == (shifted(grid, u2, dx, dy), shifted(grid, v2, dx, dy)));
    assert(is_trace(
        grid,
        update,
        n,
        st,
        shifted(grid, u, dx, dy),
        shifted(grid, v, dx, dy),
        shifted(grid, u2, dx, dy),
        shifted(grid, v2, dx, dy),
    ));
}

/// For an update with one result per input, a step of the shifted fields is
/// the shifted step.
pub proof fn lemma_step_commutes_with_shift<T, F: Fn(Neighborhood<T>, Neighborhood<T>) -> (T, T)>(
    grid: Grid,
    update: F,
    dx: int,
    dy: int,
    u: Seq<T>,
    v: Seq<T>,
    u2: Seq<T>,
    v2: Seq<T>,
    su2: Seq<T>,
    sv2: Seq<T>,
)
    requires
        grid.wf(),
        deterministic(update),
        0 <= dx < grid.width,
        0 <= dy < grid.height,
        u.len() == grid.cells(),
        v.len() == grid.cells(),
        is_step(grid, update, u, v, u2, v2),
        is_step(grid, update, shifted(grid, u, dx, dy), shifted(grid, v, dx, dy), su2, sv2),
    ensures
        su2 == shifted(grid, u2, dx, dy),
        sv2 == shifted(grid, v2, dx, dy),
{
    lemma_step_shift(grid, update, dx, dy, u, v, u2, v2);
    lemma_step_unique(
        grid,
        update,
        shifted(grid, u, dx, dy),
        shifted(grid, v, dx, dy),
        su2,
        sv2,
        shifted(grid, u2, dx, dy),
        shifted(grid, v2, dx, dy),
    );
}

/// One more update after `n` updates is `n + 1` updates.
proof fn lemma_runs_extend<T, F: Fn(Neighborhood<T>, Neighborhood<T>) -> (T, T)>(
    grid: Grid,
    update: F,
    n: nat,
    u: Seq<T>,
    v: Seq<T>,
    mu: Seq<T>,
    mv: Seq<T>,
    u2: Seq<T>,
    v2: Seq<T>,
)
    requires
        runs(grid, update, n, u, v, mu, mv),
        is_step(grid, update, mu, mv, u2, v2),
    ensures
        runs(grid, update, n + 1, u, v, u2, v2),
{
    lemma_runs_one(grid, update, mu, mv, u2, v2);
    lemma_runs_compose(grid, update, n, 1, u, v, mu, mv, u2, v2);
}

/// Zero updates through the vectorised kernel leave the fields as they are.
proof fn lemma_runs_simd_zero<
    T,
    F: Fn(Neighborhood<T>, Neighborhood<T>) -> (T, T),
    G: Fn(Neighborhood<T>, Neighborhood<T>) -> (T, T),
>(grid: Grid, scalar: F, lanes: G, u: Seq<T>, v: Seq<T>)
    ensures
        runs_simd(grid, scalar, lanes, 0, u, v, u, v),
{
    let trace = seq![(u, v)];
    assert(is_simd_trace(grid, scalar, lanes, 0, trace, u, v, u, v));
}

/// One more vectorised update after `n` of them is `n + 1` of them.
proof fn lemma_runs_simd_extend<
    T,
    F: Fn(Neighborhood<T>, Neighborhood<T>) -> (T, T),
    G: Fn(Neighborhood<T>, Neighborhood<T>) -> (T, T),
>(
    grid: Grid,
    scalar: F,
    lanes: G,
    n: nat,
    u: Seq<T>,
    v: Seq<T>,
    mu: Seq<T>,
    mv: Seq<T>,
    u2: Seq<T>,
    v2: Seq<T>,
)
    requires
        runs_simd(grid, scalar, lanes, n, u, v, mu, mv),
        is_simd_step(grid, scalar, lanes, mu, mv, u2, v2),
    ensures
        runs_simd(grid, scalar, lanes, n + 1, u, v, u2, v2),
{
    let t = choose|t: Seq<(Seq<T>, Seq<T>)>| is_simd_trace(grid, scalar, lanes, n, t, u, v, mu, mv);
    let longer = t.push((u2, v2));
    assert forall|k: int| #![trigger longer[k]] 0 <= k < n + 1 implies is_simd_step(
        grid,
        scalar,
        lanes,
        longer[k].0,
        longer[k].1,
        longer[k + 1].0,
        longer[k + 1].1,
    ) by {
        assert(longer[k] == t[k]);
        if k < n {
            assert(longer[k + 1] == t[k + 1]);
        }
    }
    assert(longer[0] == t[0]);
    assert(is_simd_trace(grid, scalar, lanes, n + 1, longer, u, v, u2, v2));
}

/// A lane cell is an interior cell: none of its four neighbours wraps
/// around an edge of the lattice.
pub proof fn lemma_lane_cell_interior(grid: Grid, x: int, y: int)
    requires
        grid.contains(x, y),
        lane_cell(grid, x, y),
    ensures
        1 <= x < grid.width - 1,
        1 <= y < grid.height - 1,
{
    assert(x - 1 < 4 * ((x - 1) / 4) + 4);
}

/// With the scalar rule in the lanes too, an update through the vectorised
/// kernel is an ordinary synchronous update.
pub proof fn lemma_simd_step_same_rule<T, F: Fn(Neighborhood<T>, Neighborhood<T>) -> (T, T)>(
    grid: Grid,
    update: F,
    u: Seq<T>,
    v: Seq<T>,
    next_u: Seq<T>,
    next_v: Seq<T>,
)
    requires
        is_simd_step(grid, update, update, u, v, next_u, next_v),
    ensures
        is_step(grid, update, u, v, next_u, next_v),
{
    assert forall|x: int, y: int|
        #![trigger grid.cell(x, y)]
        grid.contains(x, y) implies update.ensures(
            (neighborhood(grid, u, x, y), neighborhood(grid, v, x, y)),
            (next_u[grid.cell(x, y)], next_v[grid.cell(x, y)]),
        ) by {
        assert(follows(grid, update, u, v, next_u, next_v, x, y));
    }
}

/// With the scalar rule in the lanes too, `n` updates through the
/// vectorised kernel are `n` ordinary synchronous updates.
pub proof fn lemma_runs_simd_same_rule<T, F: Fn(Neighborhood<T>, Neighborhood<T>) -> (T, T)>(
    grid: Grid,
    update: F,
    n: nat,
    u: Seq<T>,
    v: Seq<T>,
    u2: Seq<T>,
    v2: Seq<T>,
)
    requires
        runs_simd(grid, update, update, n, u, v, u2, v2),
    ensures
        runs(grid, update, n, u, v, u2, v2),
{
    let t = choose|t: Seq<(Seq<T>, Seq<T>)>| is_simd_trace(grid, update, update, n, t, u, v, u2, v2);
    assert forall|k: int| #![trigger t[k]] 0 <= k < n implies is_step(
        grid,
        update,
        t[k].0,
        t[k].1,
        t[k + 1].0,
        t[k + 1].1,
    ) by {
        lemma_simd_step_same_rule(grid, update, t[k].0, t[k].1, t[k + 1].0, t[k + 1].1);
    }
    assert(is_trace(grid, update, n, t, u, v, u2, v2));
}

/// The vectorised kernel changes how wide the work is done, not what is
/// computed: with the same deterministic rule in its lanes, `n` updates
/// through it end in the state that `n` ordinary updates end in.
pub proof fn lemma_simd_matches_scalar<T, F: Fn(Neighborhood<T>, Neighborhood<T>) -> (T, T)>(
    grid: Grid,
    update: F,
    n: nat,
    u: Seq<T>,
    v: Seq<T>,
    u1: Seq<T>,
    v1: Seq<T>,
    u2: Seq<T>,
    v2: Seq<T>,
)
    requires
        grid.wf(),
        deterministic(update),
        runs(grid, update, n, u, v, u1, v1),
        runs_simd(grid, update, update, n, u, v, u2, v2),
    ensures
        u1 == u2,
        v1 == v2,
{
    lemma_runs_simd_same_rule(grid, update, n, u, v, u2, v2);
    lemma_runs_unique(grid, update, n, u, v, u1, v1, u2, v2);
}

impl<T: Copy> Clone for GrayScott<T> {
    /// An independent lattice with the same shape and the same fields.
    fn clone(&self) -> (r: Self)
        ensures
            r.grid() == self.grid(),
            r.u_cells() == self.u_cells(),
            r.v_cells() == self.v_cells(),
            self.wf() ==> r.wf(),
    {
        GrayScott {
            grid: self.grid,
            u: copied(&self.u),
            v: copied(&self.v),
            next_u: copied(&self.next_u),
            next_v: copied(&self.next_v),
        }
    }
}

/// A vector of `len` copies of `value`.
fn filled<T: Copy>(len: usize, value: T) -> (out: Vec<T>)
    ensures
        out@.len() == len,
        uniform(out@, value),
{
    let mut out: Vec<T> = Vec::new();
    let mut i: usize = 0;
    while i < len
        invariant
            i <= len,
            out@.len() == i,
            uniform(out@, value),
        decreases len - i,
    {
        out.push(value);
        i += 1;
    }
    out
}

/// A vector with the same entries as `src`.
fn copied<T: Copy>(src: &Vec<T>) -> (out: Vec<T>)
    ensures
        out@ == src@,
{
    let mut out: Vec<T> = Vec::new();
    let mut i: usize = 0;
    while i < src.len()
        invariant
            i <= src@.len(),
            out@ == src@.subrange(0, i as int),
        decreases src@.len() - i,
    {
        out.push(src[i]);
        i += 1;
    }
    out
}

} // verus!
