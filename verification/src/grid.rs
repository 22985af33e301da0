//! Grid addressing: which cell of a uniform square grid holds a point.

use vstd::prelude::*;
use vstd::arithmetic::div_mod::{
    lemma_div_is_ordered,
    lemma_fundamental_div_mod,
    lemma_fundamental_div_mod_converse,
    lemma_mod_bound,
};

verus! {

/// A point of the plane. Ordinates are whole numbers of the smallest distance
/// the index tells apart; a caller with real-valued positions picks that unit.
#[derive(Clone, Copy, Debug, Default, PartialEq, Eq, Structural)]
pub struct Coordinate {
    pub x: i32,
    pub y: i32,
}

/// One square of the grid, named by its index along each axis.
#[derive(Clone, Copy, Debug, Default, PartialEq, Eq, Structural)]
pub struct Cell {
    pub x: i64,
    pub y: i64,
}

/// A uniform grid of square cells with side `spacing`. Cell `i` of an axis
/// holds the ordinates from `i * spacing` up to, not including,
/// `(i + 1) * spacing`.
#[derive(Clone, Copy, Debug)]
pub struct Grid {
    pub spacing: i32,
}

impl Grid {
    /// A grid is usable when its cells have a positive side.
    pub open spec fn wf(&self) -> bool {
        self.spacing > 0
    }

    /// The index of the cell that holds `ordinate` along one axis: the floor
    /// of `ordinate / spacing`.
    pub open spec fn cell_index(&self, ordinate: int) -> int {
        ordinate / (self.spacing as int)
    }

    /// The least ordinate that lies in cell `index` along one axis.
    pub open spec fn cell_lower_bound(&self, index: int) -> int {
        index * (self.spacing as int)
    }

    /// The cell that holds the point `(x, y)`.
    pub open spec fn cell_at(&self, x: int, y: int) -> Cell {
        Cell { x: self.cell_index(x) as i64, y: self.cell_index(y) as i64 }
    }

    /// The cell that holds `position`.
    pub open spec fn cell_of(&self, position: Coordinate) -> Cell {
        self.cell_at(position.x as int, position.y as int)
    }

    /// Every ordinate lies between the lower bound of its cell and the lower
    /// bound of the next one.
    pub proof fn lemma_cell_bounds(&self, ordinate: int)
        requires
            self.wf(),
        ensures
            self.cell_lower_bound(self.cell_index(ordinate)) <= ordinate,
            ordinate < self.cell_lower_bound(self.cell_index(ordinate) + 1),
    {
        let s = self.spacing as int;
        let q = ordinate / s;
        lemma_fundamental_div_mod(ordinate, s);
        lemma_mod_bound(ordinate, s);
        assert(s * q == q * s) by (nonlinear_arith);
        assert((q + 1) * s == q * s + s) by (nonlinear_arith);
    }

    /// Cells do not overlap: an ordinate between the lower bound of cell
    /// `index` and that of the next cell belongs to cell `index`.
    pub proof fn lemma_cell_unique(&self, ordinate: int, index: int)
        requires
            self.wf(),
            self.cell_lower_bound(index) <= ordinate < self.cell_lower_bound(index + 1),
        ensures
            self.cell_index(ordinate) == index,
    {
        let s = self.spacing as int;
        assert((index + 1) * s == index * s + s) by (nonlinear_arith);
        lemma_fundamental_div_mod_converse(ordinate, s, index, ordinate - index * s);
    }

    /// Cells lie side by side without a gap: one side length further along,
    /// an ordinate is in the next cell. This holds across the origin as
    /// anywhere else.
    pub proof fn lemma_cells_adjoin(&self, ordinate: int)
        requires
            self.wf(),
        ensures
            self.cell_index(ordinate + self.spacing) == self.cell_index(ordinate) + 1,
            self.cell_lower_bound(self.cell_index(ordinate) + 1) == self.cell_lower_bound(
                self.cell_index(ordinate),
            ) + self.spacing,
    {
        let s = self.spacing as int;
        let q = self.cell_index(ordinate);
        self.lemma_cell_bounds(ordinate);
        assert((q + 1) * s == q * s + s) by (nonlinear_arith);
        assert((q + 2) * s == q * s + s + s) by (nonlinear_arith);
        self.lemma_cell_unique(ordinate + s, q + 1);
    }

    /// Cells follow the order of the ordinates, on both sides of the origin.
    pub proof fn lemma_cell_index_ordered(&self, low: int, high: int)
        requires
            self.wf(),
            low <= high,
        ensures
            self.cell_index(low) <= self.cell_index(high),
    {
        lemma_div_is_ordered(low, high, self.spacing as int);
    }

    /// A cell starts beyond `limit` exactly when it comes after the cell that
    /// holds `limit`.
    pub proof fn lemma_lower_bound_beyond(&self, index: int, limit: int)
        requires
            self.wf(),
        ensures
            self.cell_lower_bound(index) > limit <==> index > self.cell_index(limit),
    {
        let s = self.spacing as int;
        let q = self.cell_index(limit);
        self.lemma_cell_bounds(limit);
        if index > q {
            assert(index * s >= (q + 1) * s) by (nonlinear_arith)
                requires
                    index >= q + 1,
                    s > 0,
            ;
        } else {
            assert(index * s <= q * s) by (nonlinear_arith)
                requires
                    index <= q,
                    s > 0,
            ;
        }
    }

    /// A cell index is never further from zero than the ordinate it was
    /// computed from.
    pub proof fn lemma_cell_index_magnitude(&self, ordinate: int)
        requires
            self.wf(),
        ensures
            ordinate >= 0 ==> 0 <= self.cell_index(ordinate) <= ordinate,
            ordinate < 0 ==> ordinate <= self.cell_index(ordinate) < 0,
    {
        let s = self.spacing as int;
        let q = self.cell_index(ordinate);
        self.lemma_cell_bounds(ordinate);
        if ordinate >= 0 {
            if q < 0 {
                assert((q + 1) * s <= 0) by (nonlinear_arith)
                    requires
                        q + 1 <= 0,
                        s > 0,
                ;
            }
            if q > ordinate {
                assert(q * s >= q) by (nonlinear_arith)
                    requires
                        q > 0,
                        s >= 1,
                ;
            }
        } else {
            if q >= 0 {
                assert(q * s >= 0) by (nonlinear_arith)
                    requires
                        q >= 0,
                        s > 0,
                ;
            }
            if q < ordinate {
                assert((q + 1) * s <= q + 1) by (nonlinear_arith)
                    requires
                        q + 1 <= 0,
                        s >= 1,
                ;
            }
        }
    }

    /// The index of the cell that holds `ordinate` along one axis. Division
    /// rounds toward negative infinity, so that the cells on both sides of the
    /// origin have the same width.
    pub fn index1d(&self, ordinate: i64) -> (index: i64)
        requires
            self.wf(),
        ensures
            index == self.cell_index(ordinate as int),
            self.cell_lower_bound(index as int) <= ordinate,
            ordinate < self.cell_lower_bound(index + 1),
    {
        proof {
            self.lemma_cell_bounds(ordinate as int);
            self.lemma_cell_index_magnitude(ordinate as int);
        }
        let quotient = ordinate.checked_div_euclid(self.spacing as i64);
        assert(quotient is Some);
        quotient.unwrap()
    }

    /// The least ordinate that lies in cell `index` along one axis.
    pub fn position1d_low(&self, index: i64) -> (low: i128)
        ensures
            low == self.cell_lower_bound(index as int),
    {
        let wide_index: i128 = index as i128;
        let wide_spacing: i128 = self.spacing as i128;
        assert(-0x4000_0000_0000_0000_0000_0000 <= wide_index * wide_spacing
            <= 0x4000_0000_0000_0000_0000_0000) by (nonlinear_arith)
            requires
                -0x8000_0000_0000_0000 <= wide_index <= 0x8000_0000_0000_0000,
                -0x8000_0000 <= wide_spacing <= 0x8000_0000,
        ;
        wide_index * wide_spacing
    }

    /// The cell that holds `position`.
    pub fn index2d(&self, position: Coordinate) -> (cell: Cell)
        requires
            self.wf(),
        ensures
            cell == self.cell_of(position),
    {
        Cell { x: self.index1d(position.x as i64), y: self.index1d(position.y as i64) }
    }
}

} // verus!
