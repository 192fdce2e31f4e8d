//! The per-cell rule of the filter: which four values enter the gradient of a
//! cell, and the rows and blocks of results built from it.

use vstd::prelude::*;
use crate::grid::{Grid, GridView};
use crate::partition::RowBlock;
use crate::sample::{same_value, spec_is_nan, spec_same_value};

verus! {

/// The four values of a 2x2 neighbourhood after substitution: `z1` is the
/// cell itself, `z2` its right neighbour, `z3` the cell below and `z4` the
/// cell below and to the right. The gradient is taken along the diagonals
/// `z1`-`z4` and `z2`-`z3`.
#[derive(Clone, Copy, Debug, PartialEq, Eq, Structural)]
pub struct Stencil {
    pub z1: u64,
    pub z2: u64,
    pub z3: u64,
    pub z4: u64,
}

/// The results of one row: its index and one value per column.
#[derive(Debug)]
pub struct RowResult {
    pub row: usize,
    pub values: Vec<u64>,
}

/// A neighbour that reads as missing is replaced by the centre value.
pub open spec fn substitute(center: u64, neighbour: u64, nodata: u64) -> u64 {
    if spec_same_value(neighbour, nodata) {
        center
    } else {
        neighbour
    }
}

/// The neighbourhood of cell `(row, col)`: none where the cell itself is
/// missing, otherwise the cell and its three forward neighbours, each
/// neighbour that reads as missing (inside the grid or beyond its edge)
/// replaced by the cell's own value.
pub open spec fn stencil_of(g: GridView, row: int, col: int) -> Option<Stencil> {
    let z1 = g.at(row, col);
    if spec_same_value(z1, g.nodata) {
        None
    } else {
        Some(
            Stencil {
                z1,
                z2: substitute(z1, g.at(row, col + 1), g.nodata),
                z3: substitute(z1, g.at(row + 1, col), g.nodata),
                z4: substitute(z1, g.at(row + 1, col + 1), g.nodata),
            },
        )
    }
}

/// `out` is an admissible result for cell `(row, col)`: the missing-data
/// marker where the cell has no neighbourhood, otherwise a value that
/// `combine` may return for the cell's neighbourhood.
pub open spec fn cell_outcome<F: Fn(Stencil) -> u64>(
    g: GridView,
    combine: F,
    row: int,
    col: int,
    out: u64,
) -> bool {
    match stencil_of(g, row, col) {
        None => out == g.nodata,
        Some(s) => combine.ensures((s,), out),
    }
}

/// `values` is an admissible result for row `row`: one admissible value per
/// column.
pub open spec fn row_outcome<F: Fn(Stencil) -> u64>(
    g: GridView,
    combine: F,
    row: int,
    values: Seq<u64>,
) -> bool {
    &&& values.len() == g.columns
    &&& forall|c: int| 0 <= c < g.columns ==> cell_outcome(g, combine, row, c, #[trigger] values[c])
}

/// `combine` accepts every neighbourhood.
pub open spec fn total<F: Fn(Stencil) -> u64>(combine: F) -> bool {
    forall|s: Stencil| combine.requires((s,))
}

/// `combine` returns one value only for each neighbourhood.
pub open spec fn deterministic<F: Fn(Stencil) -> u64>(combine: F) -> bool {
    forall|s: Stencil, a: u64, b: u64|
        combine.ensures((s,), a) && combine.ensures((s,), b) ==> a == b
}

/// Reads the cell `down` rows below and `right` columns to the right of
/// `(row, col)`, each offset being 0 or 1.
fn read_forward(grid: &Grid, row: usize, col: usize, down: bool, right: bool) -> (bits: u64)
    ensures
        bits == grid@.at(row + (if down { 1int } else { 0 }), col + (if right { 1int } else { 0 })),
{
    let height = grid.rows();
    let width = grid.columns();
    if (down && row == usize::MAX) || (right && col == usize::MAX) {
        // One step past the largest index lies outside every grid.
        assert(row + 1 > height || col + 1 > width);
        return grid.nodata();
    }
    let r: usize = if down { row + 1 } else { row };
    let c: usize = if right { col + 1 } else { col };
    grid.cell(r, c)
}

/// The neighbourhood of a cell after substitution, or none where the cell is
/// missing.
pub fn stencil_at(grid: &Grid, row: usize, col: usize) -> (stencil: Option<Stencil>)
    ensures
        stencil == stencil_of(grid@, row as int, col as int),
{
    let nodata = grid.nodata();
    let z1 = grid.cell(row, col);
    if same_value(z1, nodata) {
        return None;
    }
    let mut z2 = read_forward(grid, row, col, false, true);
    if same_value(z2, nodata) {
        z2 = z1;
    }
    let mut z3 = read_forward(grid, row, col, true, false);
    if same_value(z3, nodata) {
        z3 = z1;
    }
    let mut z4 = read_forward(grid, row, col, true, true);
    if same_value(z4, nodata) {
        z4 = z1;
    }
    Some(Stencil { z1, z2, z3, z4 })
}

/// Computes the results of one row: the marker for each missing cell, and for
/// every other cell what `combine` returns for its neighbourhood.
pub fn edge_row<F: Fn(Stencil) -> u64>(grid: &Grid, row: usize, combine: &F) -> (result: RowResult)
    requires
        total(*combine),
    ensures
        result.row == row,
        row_outcome(grid@, *combine, row as int, result.values@),
{
    let width = grid.columns();
    let nodata = grid.nodata();
    let mut values: Vec<u64> = Vec::new();
    let mut col: usize = 0;
    while col < width
        invariant
            total(*combine),
            width == grid@.columns,
            nodata == grid@.nodata,
            col <= width,
            values@.len() == col,
            forall|c: int|
                0 <= c < col ==> cell_outcome(grid@, *combine, row as int, c, #[trigger] values@[c]),
        decreases width - col,
    {
        let value = match stencil_at(grid, row, col) {
            None => nodata,
            Some(s) => combine(s),
        };
        values.push(value);
        col = col + 1;
    }
    RowResult { row, values }
}

/// `results` holds one admissible row result for each row of `block`, in
/// increasing order of row.
pub open spec fn block_outcome<F: Fn(Stencil) -> u64>(
    g: GridView,
    combine: F,
    block: RowBlock,
    results: Seq<RowResult>,
) -> bool {
    &&& results.len() == block.size()
    &&& forall|i: int|
        0 <= i < results.len() ==> (#[trigger] results[i]).row == block.start + i && row_outcome(
            g,
            combine,
            block.start + i,
            results[i].values@,
        )
}

/// Computes the results of every row of a block, one after another.
pub fn edge_block<F: Fn(Stencil) -> u64>(grid: &Grid, block: RowBlock, combine: &F) -> (results:
    Vec<RowResult>)
    requires
        total(*combine),
    ensures
        block_outcome(grid@, *combine, block, results@),
{
    let mut results: Vec<RowResult> = Vec::new();
    let mut row: usize = block.start;
    while row < block.end
        invariant
            total(*combine),
            block.start <= row,
            row <= block.end || results@.len() == 0,
            results@.len() == (if block.start <= block.end {
                row - block.start
            } else {
                0
            }),
            forall|i: int|
                0 <= i < results@.len() ==> (#[trigger] results@[i]).row == block.start + i
                    && row_outcome(grid@, *combine, block.start + i, results@[i].values@),
        decreases block.end - row,
    {
        let result = edge_row(grid, row, combine);
        results.push(result);
        row = row + 1;
    }
    results
}

/// A missing cell has no neighbourhood, whatever surrounds it, so its only
/// admissible result is the missing-data marker.
pub proof fn lemma_missing_cell_stays_missing<F: Fn(Stencil) -> u64>(
    g: GridView,
    combine: F,
    row: int,
    col: int,
    out: u64,
)
    requires
        spec_same_value(g.at(row, col), g.nodata),
        cell_outcome(g, combine, row, col, out),
    ensures
        stencil_of(g, row, col).is_none(),
        out == g.nodata,
{
}

/// A neighbour as it enters the neighbourhood of a cell with value
/// `center`: itself where it lies inside the grid and is not missing, and
/// `center` where it lies beyond the edge or holds the marker.
pub open spec fn neighbour_or_center(g: GridView, center: u64, row: int, col: int) -> u64 {
    if g.inside(row, col) && !spec_same_value(g.rows[row][col], g.nodata) {
        g.rows[row][col]
    } else {
        center
    }
}

/// Where the marker encodes a number, the result of a cell that is not
/// missing is what `combine` returns for the cell and its three forward
/// neighbours, the centre value standing in for every neighbour that lies
/// beyond the edge of the grid or holds the marker.
pub proof fn lemma_boundary_substitution<F: Fn(Stencil) -> u64>(
    g: GridView,
    combine: F,
    row: int,
    col: int,
    out: u64,
)
    requires
        g.wf(),
        !spec_is_nan(g.nodata),
        g.inside(row, col),
        !spec_same_value(g.at(row, col), g.nodata),
    ensures
        stencil_of(g, row, col) == Some(
            Stencil {
                z1: g.rows[row][col],
                z2: neighbour_or_center(g, g.rows[row][col], row, col + 1),
                z3: neighbour_or_center(g, g.rows[row][col], row + 1, col),
                z4: neighbour_or_center(g, g.rows[row][col], row + 1, col + 1),
            },
        ),
        cell_outcome(g, combine, row, col, out) <==> combine.ensures(
            (
                Stencil {
                    z1: g.rows[row][col],
                    z2: neighbour_or_center(g, g.rows[row][col], row, col + 1),
                    z3: neighbour_or_center(g, g.rows[row][col], row + 1, col),
                    z4: neighbour_or_center(g, g.rows[row][col], row + 1, col + 1),
                },
            ),
            out,
        ),
{
}

} // verus!
