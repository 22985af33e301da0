//! Region queries: which points a region holds, and in which order the cells
//! that it can touch are walked.

use vstd::prelude::*;
use crate::grid::{Cell, Coordinate, Grid};

verus! {

/// The cell at which a scan stands after `count` steps from `start`, where
/// `step` gives the cell that follows a cell; `None` once the scan has ended.
pub open spec fn scan_cell(step: spec_fn(Cell) -> Option<Cell>, start: Cell, count: nat) -> Option<
    Cell,
>
    decreases count,
{
    if count == 0 {
        Some(start)
    } else {
        match scan_cell(step, start, (count - 1) as nat) {
            Some(cell) => step(cell),
            None => None,
        }
    }
}

/// A scan that begins at `start` comes to stand at `target`.
pub open spec fn scan_reaches(
    step: spec_fn(Cell) -> Option<Cell>,
    start: Cell,
    target: Cell,
) -> bool {
    exists|count: nat| scan_cell(step, start, count) == Some(target)
}

/// A region of the plane, together with an order in which to walk the cells
/// of a grid that the region can touch.
///
/// `in_range` alone decides which points a query yields. The walk only has to
/// be generous enough: it must come by every cell that can hold a point of the
/// region, and it must end.
pub trait Query: core::fmt::Debug {
    /// Whether the region holds `position`.
    spec fn spec_in_range(&self, position: Coordinate) -> bool;

    /// The cell at which the walk begins.
    spec fn spec_first_cell(&self, grid: Grid) -> Cell;

    /// The cell that the walk visits after `cell`, or `None` where it ends.
    spec fn spec_next_cell(&self, cell: Cell, grid: Grid) -> Option<Cell>;

    /// A bound on the number of steps that the walk can still take from
    /// `cell`.
    spec fn cells_left(&self, cell: Cell, grid: Grid) -> nat;

    /// The walk ends: every step lowers the bound.
    proof fn lemma_walk_advances(&self, cell: Cell, grid: Grid)
        requires
            grid.wf(),
            self.spec_next_cell(cell, grid) is Some,
        ensures
            self.cells_left(self.spec_next_cell(cell, grid).unwrap(), grid) < self.cells_left(
                cell,
                grid,
            ),
    ;

    /// The walk misses nothing: the cell of every point of the region is
    /// reached from the first cell by repeated steps.
    proof fn lemma_walk_covers(&self, position: Coordinate, grid: Grid)
        requires
            grid.wf(),
            self.spec_in_range(position),
        ensures
            scan_reaches(
                |cell: Cell| self.spec_next_cell(cell, grid),
                self.spec_first_cell(grid),
                grid.cell_of(position),
            ),
    ;

    /// The cell at which the walk begins.
    fn first_cell(&self, grid: Grid) -> (cell: Cell)
        requires
            grid.wf(),
        ensures
            cell == self.spec_first_cell(grid),
    ;

    /// The cell that the walk visits after `cell`, or `None` where it ends.
    fn next_cell(&self, cell: Cell, grid: Grid) -> (next: Option<Cell>)
        requires
            grid.wf(),
        ensures
            next == self.spec_next_cell(cell, grid),
    ;

    /// Whether the region holds `position`.
    fn in_range(&self, position: Coordinate) -> (hit: bool)
        ensures
            hit == self.spec_in_range(position),
    ;
}

/// An axis-aligned square around `center` that reaches `radius` to each side.
/// Its lower edges belong to it and its upper edges do not, so that squares
/// laid side by side share no point.
#[derive(Clone, Copy, Debug, Default)]
pub struct SquareQuery {
    center: Coordinate,
    radius: i32,
}

impl SquareQuery {
    /// The middle of the square.
    pub closed spec fn center(&self) -> Coordinate {
        self.center
    }

    /// Half the side of the square. A square with a radius of zero or less
    /// holds no point.
    pub closed spec fn radius(&self) -> i32 {
        self.radius
    }

    /// The least `x` of the square.
    pub open spec fn min_x(&self) -> int {
        self.center().x - self.radius()
    }

    /// The bound that every `x` of the square stays below.
    pub open spec fn max_x(&self) -> int {
        self.center().x + self.radius()
    }

    /// The least `y` of the square.
    pub open spec fn min_y(&self) -> int {
        self.center().y - self.radius()
    }

    /// The bound that every `y` of the square stays below.
    pub open spec fn max_y(&self) -> int {
        self.center().y + self.radius()
    }

    /// The number of cells in one row of the walk.
    pub open spec fn row_length(&self, grid: Grid) -> int {
        let span = grid.cell_index(self.max_x()) - grid.cell_index(self.min_x());
        if span > 0 {
            span + 1
        } else {
            1
        }
    }

    /// The square around `center` that reaches `radius` to each side.
    pub fn new(center: Coordinate, radius: i32) -> (query: Self)
        ensures
            query.center() == center,
            query.radius() == radius,
    {
        Self { center, radius }
    }

    /// The walk comes by every cell of the rectangle of cells between the
    /// cell of the square's least corner and the cell of its upper bounds.
    proof fn lemma_walk_reaches(&self, grid: Grid, x: int, y: int)
        requires
            grid.wf(),
            grid.cell_index(self.min_x()) <= x <= grid.cell_index(self.max_x()),
            grid.cell_index(self.min_y()) <= y <= grid.cell_index(self.max_y()),
        ensures
            scan_reaches(
                |cell: Cell| self.spec_next_cell(cell, grid),
                self.spec_first_cell(grid),
                Cell { x: x as i64, y: y as i64 },
            ),
        decreases y - grid.cell_index(self.min_y()), x - grid.cell_index(self.min_x()),
    {
        let step = |cell: Cell| self.spec_next_cell(cell, grid);
        let start = self.spec_first_cell(grid);
        let first_x = grid.cell_index(self.min_x());
        let first_y = grid.cell_index(self.min_y());
        let last_x = grid.cell_index(self.max_x());
        let last_y = grid.cell_index(self.max_y());
        grid.lemma_cell_index_magnitude(self.min_x());
        grid.lemma_cell_index_magnitude(self.min_y());
        grid.lemma_cell_index_magnitude(self.max_x());
        grid.lemma_cell_index_magnitude(self.max_y());
        let target = Cell { x: x as i64, y: y as i64 };
        if x == first_x && y == first_y {
            assert(scan_cell(step, start, 0) == Some(target));
        } else {
            let before = if x > first_x {
                Cell { x: (x - 1) as i64, y: y as i64 }
            } else {
                Cell { x: last_x as i64, y: (y - 1) as i64 }
            };
            if x > first_x {
                self.lemma_walk_reaches(grid, x - 1, y);
            } else {
                self.lemma_walk_reaches(grid, last_x, y - 1);
            }
            let count = choose|count: nat| scan_cell(step, start, count) == Some(before);
            grid.lemma_lower_bound_beyond(before.x + 1, self.max_x());
            grid.lemma_lower_bound_beyond(y, self.max_y());
            assert(step(before) == Some(target));
            assert(scan_cell(step, start, count + 1) == Some(target));
        }
    }
}

impl Query for SquareQuery {
    open spec fn spec_in_range(&self, position: Coordinate) -> bool {
        &&& self.min_x() <= position.x < self.max_x()
        &&& self.min_y() <= position.y < self.max_y()
    }

    open spec fn spec_first_cell(&self, grid: Grid) -> Cell {
        grid.cell_at(self.min_x(), self.min_y())
    }

    /// Row by row: one cell further along `x` until a cell starts beyond the
    /// square, then back to the first column of the next row, until a row
    /// starts beyond the square.
    open spec fn spec_next_cell(&self, cell: Cell, grid: Grid) -> Option<Cell> {
        let along = cell.x + 1;
        let row_done = grid.cell_lower_bound(along) > self.max_x();
        let x = if row_done {
            grid.cell_index(self.min_x())
        } else {
            along
        };
        let y = if row_done {
            cell.y + 1
        } else {
            cell.y as int
        };
        if grid.cell_lower_bound(y) > self.max_y() {
            None
        } else {
            Some(Cell { x: x as i64, y: y as i64 })
        }
    }

    open spec fn cells_left(&self, cell: Cell, grid: Grid) -> nat {
        let last_x = grid.cell_index(self.max_x());
        let last_y = grid.cell_index(self.max_y());
        if cell.y > last_y {
            0
        } else {
            let rows = (last_y - cell.y) * self.row_length(grid);
            if cell.x < last_x {
                (rows + (last_x - cell.x)) as nat
            } else {
                rows as nat
            }
        }
    }

    proof fn lemma_walk_advances(&self, cell: Cell, grid: Grid) {
        let last_x = grid.cell_index(self.max_x());
        let last_y = grid.cell_index(self.max_y());
        let width = self.row_length(grid);
        let next = self.spec_next_cell(cell, grid).unwrap();
        grid.lemma_cell_index_magnitude(self.min_x());
        grid.lemma_cell_index_magnitude(self.max_x());
        grid.lemma_cell_index_magnitude(self.max_y());
        grid.lemma_lower_bound_beyond(cell.x + 1, self.max_x());
        grid.lemma_lower_bound_beyond(cell.y + 1, self.max_y());
        grid.lemma_lower_bound_beyond(cell.y as int, self.max_y());
        assert((last_y - cell.y) * width == (last_y - cell.y - 1) * width + width)
            by (nonlinear_arith);
        assert((last_y - cell.y) * width >= 0) by (nonlinear_arith)
            requires
                last_y - cell.y >= 0,
                width >= 1,
        ;
        assert((last_y - cell.y - 1) * width >= 0 || last_y - cell.y - 1 < 0) by (nonlinear_arith)
            requires
                width >= 1,
        ;
    }

    proof fn lemma_walk_covers(&self, position: Coordinate, grid: Grid) {
        grid.lemma_cell_index_ordered(self.min_x(), position.x as int);
        grid.lemma_cell_index_ordered(position.x as int, self.max_x());
        grid.lemma_cell_index_ordered(self.min_y(), position.y as int);
        grid.lemma_cell_index_ordered(position.y as int, self.max_y());
        self.lemma_walk_reaches(
            grid,
            grid.cell_index(position.x as int),
            grid.cell_index(position.y as int),
        );
    }

    fn first_cell(&self, grid: Grid) -> (cell: Cell) {
        let x = grid.index1d(self.center.x as i64 - self.radius as i64);
        let y = grid.index1d(self.center.y as i64 - self.radius as i64);
        Cell { x, y }
    }

    fn next_cell(&self, cell: Cell, grid: Grid) -> (next: Option<Cell>) {
        let max_x: i64 = self.center.x as i64 + self.radius as i64;
        let max_y: i64 = self.center.y as i64 + self.radius as i64;
        proof {
            grid.lemma_cell_index_magnitude(max_x as int);
            grid.lemma_cell_index_magnitude(max_y as int);
            grid.lemma_cell_index_magnitude(self.min_x());
            grid.lemma_lower_bound_beyond(cell.x + 1, max_x as int);
            grid.lemma_lower_bound_beyond(cell.y + 1, max_y as int);
        }
        let mut x: i64 = cell.x;
        let mut y: i64 = cell.y;
        if cell.x < i64::MAX && grid.position1d_low(cell.x + 1) <= max_x as i128 {
            x = cell.x + 1;
        } else {
            if cell.y == i64::MAX {
                return None;
            }
            x = grid.index1d(self.center.x as i64 - self.radius as i64);
            y = cell.y + 1;
        }
        if grid.position1d_low(y) > max_y as i128 {
            return None;
        }
        Some(Cell { x, y })
    }

    fn in_range(&self, position: Coordinate) -> (hit: bool) {
        let x: i64 = position.x as i64;
        let y: i64 = position.y as i64;
        let center_x: i64 = self.center.x as i64;
        let center_y: i64 = self.center.y as i64;
        let radius: i64 = self.radius as i64;
        x >= center_x - radius && x < center_x + radius && y >= center_y - radius && y < center_y
            + radius
    }
}

} // verus!
