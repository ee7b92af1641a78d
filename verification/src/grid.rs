//! The lattice: cells, their coordinates and their linear indices.

use vstd::arithmetic::div_mod::lemma_fundamental_div_mod_converse;
use vstd::math::abs;
use vstd::prelude::*;

verus! {

/// The whole number of cells between the origin and a position, along each
/// axis. A position outside the world gives coordinates outside the grid;
/// [`Grid::index_of`] folds them back onto the nearest boundary cell.
#[derive(Clone, Copy, Debug, PartialEq, Eq)]
pub struct Cell {
    pub col: i32,
    pub row: i32,
    pub layer: i32,
}

/// The resolution of a grid as mathematical integers.
pub struct GridShape {
    pub rows: int,
    pub cols: int,
    pub depth: int,
}

/// `raw` moved to the nearest value in `0 .. resolution`.
pub open spec fn clamp_axis(raw: int, resolution: int) -> int {
    if raw < 0 {
        0
    } else if raw >= resolution {
        resolution - 1
    } else {
        raw
    }
}

/// Moves `raw` to the nearest value in `0 .. resolution`.
pub fn clamp_index(raw: i32, resolution: i32) -> (index: i32)
    requires
        resolution >= 1,
    ensures
        index == clamp_axis(raw as int, resolution as int),
{
    if raw < 0 {
        0
    } else if raw >= resolution {
        resolution - 1
    } else {
        raw
    }
}

impl GridShape {
    /// Every resolution is at least one, and the number of cells fits the
    /// machine integers that index them.
    pub open spec fn wf(self) -> bool {
        &&& self.rows >= 1
        &&& self.cols >= 1
        &&& self.depth >= 1
        &&& self.rows * self.cols * self.depth <= i32::MAX
    }

    /// The number of cells.
    pub open spec fn cell_count(self) -> int {
        self.rows * self.cols * self.depth
    }

    /// The linear index of the cell that `cell` falls into: each coordinate is
    /// clamped onto the grid, then layers are laid out one after the other,
    /// each of them row by row.
    pub open spec fn index_of(self, cell: Cell) -> int {
        (clamp_axis(cell.layer as int, self.depth) * self.rows + clamp_axis(
            cell.row as int,
            self.rows,
        )) * self.cols + clamp_axis(cell.col as int, self.cols)
    }
}

/// A grid of `rows` x `cols` x `depth` cells. A flat grid has depth one.
#[derive(Clone, Copy, Debug)]
pub struct Grid {
    rows: i32,
    cols: i32,
    depth: i32,
}

impl View for Grid {
    type V = GridShape;

    closed spec fn view(&self) -> GridShape {
        GridShape { rows: self.rows as int, cols: self.cols as int, depth: self.depth as int }
    }
}

impl Grid {
    #[verifier::type_invariant]
    spec fn inv(&self) -> bool {
        self@.wf()
    }

    /// A flat grid of `rows` x `cols` cells.
    pub fn new(rows: i32, cols: i32) -> (grid: Grid)
        requires
            rows >= 1,
            cols >= 1,
            rows * cols <= i32::MAX,
        ensures
            grid@ == (GridShape { rows: rows as int, cols: cols as int, depth: 1 }),
    {
        Grid { rows, cols, depth: 1 }
    }

    /// A grid of `depth` layers, each of `rows` x `cols` cells.
    pub fn with_depth(rows: i32, cols: i32, depth: i32) -> (grid: Grid)
        requires
            rows >= 1,
            cols >= 1,
            depth >= 1,
            rows * cols * depth <= i32::MAX,
        ensures
            grid@ == (GridShape { rows: rows as int, cols: cols as int, depth: depth as int }),
    {
        Grid { rows, cols, depth }
    }

    /// A grid of `depth` layers, each of `rows` x `cols` cells, if every
    /// resolution is at least one and the cells can be counted; else nothing.
    pub fn checked(rows: i32, cols: i32, depth: i32) -> (grid: Option<Grid>)
        ensures
            grid is Some <==> (GridShape {
                rows: rows as int,
                cols: cols as int,
                depth: depth as int,
            }).wf(),
            grid matches Some(g) ==> g@ == (GridShape {
                rows: rows as int,
                cols: cols as int,
                depth: depth as int,
            }),
    {
        if rows < 1 || cols < 1 || depth < 1 {
            return None;
        }
        let limit = i32::MAX as i64;
        assert(1 <= rows * cols <= limit * limit && rows * cols <= rows * cols * depth)
            by (nonlinear_arith)
            requires
                1 <= rows <= limit,
                1 <= cols <= limit,
                1 <= depth,
        ;
        let area = (rows as i64) * (cols as i64);
        if area > limit {
            return None;
        }
        assert(1 <= area * depth <= limit * limit) by (nonlinear_arith)
            requires
                1 <= area <= limit,
                1 <= depth <= limit,
        ;
        let volume = area * (depth as i64);
        if volume > limit {
            return None;
        }
        Some(Grid { rows, cols, depth })
    }

    /// The number of rows in a layer.
    pub fn rows(&self) -> (rows: i32)
        ensures
            rows == self@.rows,
            self@.wf(),
    {
        proof {
            use_type_invariant(self);
        }
        self.rows
    }

    /// The number of cells in a row.
    pub fn cols(&self) -> (cols: i32)
        ensures
            cols == self@.cols,
            self@.wf(),
    {
        proof {
            use_type_invariant(self);
        }
        self.cols
    }

    /// The number of layers.
    pub fn depth(&self) -> (depth: i32)
        ensures
            depth == self@.depth,
            self@.wf(),
    {
        proof {
            use_type_invariant(self);
        }
        self.depth
    }

    /// The number of cells.
    pub fn cell_count(&self) -> (count: usize)
        ensures
            count == self@.cell_count(),
            self@.wf(),
    {
        proof {
            use_type_invariant(self);
            lemma_layer_area_bounded(self@);
        }
        (self.rows * self.cols * self.depth) as usize
    }

    /// The linear index of the cell that `cell` falls into.
    pub fn index_of(&self, cell: Cell) -> (index: usize)
        ensures
            index == self@.index_of(cell),
            index < self@.cell_count(),
            self@.wf(),
    {
        proof {
            use_type_invariant(self);
            lemma_index_in_range(self@, cell);
        }
        let col = clamp_index(cell.col, self.cols);
        let row = clamp_index(cell.row, self.rows);
        let layer = clamp_index(cell.layer, self.depth);
        ((layer * self.rows + row) * self.cols + col) as usize
    }
}

/// Clamping moves a coordinate onto the axis, to the place nearest to where
/// it was: no index `k` of the axis is closer to `raw`, and a coordinate that
/// is on the axis stays.
pub proof fn lemma_clamp_nearest(raw: int, resolution: int, k: int)
    requires
        resolution >= 1,
        0 <= k < resolution,
    ensures
        0 <= clamp_axis(raw, resolution) < resolution,
        abs(raw - clamp_axis(raw, resolution)) <= abs(raw - k),
        0 <= raw < resolution ==> clamp_axis(raw, resolution) == raw,
{
}

/// One layer of a well-formed grid has at least one cell and no more than the
/// whole grid.
pub proof fn lemma_layer_area_bounded(shape: GridShape)
    requires
        shape.wf(),
    ensures
        1 <= shape.rows * shape.cols <= shape.cell_count(),
{
    let (rows, cols, depth) = (shape.rows, shape.cols, shape.depth);
    assert(1 <= rows * cols <= rows * cols * depth) by (nonlinear_arith)
        requires
            rows >= 1,
            cols >= 1,
            depth >= 1,
    ;
}

/// A linear index names a cell of the grid: it lies in `0 .. cell_count`,
/// wherever the coordinates lay, and so does every step of its computation.
pub proof fn lemma_index_in_range(shape: GridShape, cell: Cell)
    requires
        shape.wf(),
    ensures
        0 <= shape.index_of(cell) < shape.cell_count(),
        0 <= clamp_axis(cell.layer as int, shape.depth) * shape.rows < shape.cell_count(),
        0 <= clamp_axis(cell.layer as int, shape.depth) * shape.rows + clamp_axis(
            cell.row as int,
            shape.rows,
        ) < shape.cell_count(),
        0 <= (clamp_axis(cell.layer as int, shape.depth) * shape.rows + clamp_axis(
            cell.row as int,
            shape.rows,
        )) * shape.cols < shape.cell_count(),
{
    let (rows, cols, depth) = (shape.rows, shape.cols, shape.depth);
    let layer = clamp_axis(cell.layer as int, depth);
    let row = clamp_axis(cell.row as int, rows);
    let col = clamp_axis(cell.col as int, cols);
    assert(0 <= layer * rows && layer * rows + rows <= depth * rows) by (nonlinear_arith)
        requires
            0 <= layer < depth,
            rows >= 1,
    ;
    let line = layer * rows + row;
    assert(0 <= line * cols && line * cols + cols <= depth * rows * cols) by (nonlinear_arith)
        requires
            0 <= line < depth * rows,
            cols >= 1,
    ;
    assert(depth * rows * cols == rows * cols * depth && depth * rows <= depth * rows * cols)
        by (nonlinear_arith)
        requires
            rows >= 1,
            cols >= 1,
            depth >= 1,
    ;
}

/// The linear index gives the clamped coordinates back, so it names one cell
/// and no other.
pub proof fn lemma_index_decomposes(shape: GridShape, cell: Cell)
    requires
        shape.wf(),
    ensures
        shape.index_of(cell) % shape.cols == clamp_axis(cell.col as int, shape.cols),
        shape.index_of(cell) / shape.cols == clamp_axis(cell.layer as int, shape.depth)
            * shape.rows + clamp_axis(cell.row as int, shape.rows),
        (shape.index_of(cell) / shape.cols) % shape.rows == clamp_axis(
            cell.row as int,
            shape.rows,
        ),
        (shape.index_of(cell) / shape.cols) / shape.rows == clamp_axis(
            cell.layer as int,
            shape.depth,
        ),
{
    let layer = clamp_axis(cell.layer as int, shape.depth);
    let row = clamp_axis(cell.row as int, shape.rows);
    let col = clamp_axis(cell.col as int, shape.cols);
    let line = layer * shape.rows + row;
    lemma_fundamental_div_mod_converse(shape.index_of(cell), shape.cols, line, col);
    lemma_fundamental_div_mod_converse(line, shape.rows, layer, row);
}

/// Two positions share a linear index exactly if they fall into the same
/// cell: if their clamped coordinates agree on every axis.
pub proof fn lemma_index_unique(shape: GridShape, a: Cell, b: Cell)
    requires
        shape.wf(),
    ensures
        shape.index_of(a) == shape.index_of(b) <==> {
            &&& clamp_axis(a.col as int, shape.cols) == clamp_axis(b.col as int, shape.cols)
            &&& clamp_axis(a.row as int, shape.rows) == clamp_axis(b.row as int, shape.rows)
            &&& clamp_axis(a.layer as int, shape.depth) == clamp_axis(b.layer as int, shape.depth)
        },
{
    lemma_index_decomposes(shape, a);
    lemma_index_decomposes(shape, b);
}

} // verus!
