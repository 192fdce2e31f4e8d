//! The raster: a rectangular grid of cell values with a marker for missing
//! data, read without bounds errors and written row by row.

use vstd::prelude::*;

verus! {

/// The mathematical content of a grid: its width, the pattern that marks
/// missing data, and its rows from top to bottom.
pub struct GridView {
    pub columns: nat,
    pub nodata: u64,
    pub rows: Seq<Seq<u64>>,
}

impl GridView {
    /// Every row has exactly `columns` cells.
    pub open spec fn wf(self) -> bool {
        forall|r: int| 0 <= r < self.rows.len() ==> (#[trigger] self.rows[r]).len() == self.columns
    }

    pub open spec fn height(self) -> nat {
        self.rows.len()
    }

    pub open spec fn inside(self, row: int, col: int) -> bool {
        0 <= row < self.rows.len() && 0 <= col < self.columns
    }

    /// The cell at `(row, col)`; outside the grid every read gives the
    /// missing-data marker.
    pub open spec fn at(self, row: int, col: int) -> u64 {
        if self.inside(row, col) {
            self.rows[row][col]
        } else {
            self.nodata
        }
    }

    /// A grid of the same shape and marker in which every cell is missing.
    pub open spec fn blank(self) -> GridView {
        blank_grid(self.rows.len(), self.columns, self.nodata)
    }

    /// The outcome of writing `values` into row `row`: cells of that row take
    /// the value of the same column as far as `values` reaches; a row outside
    /// the grid changes nothing.
    pub open spec fn with_row(self, row: int, values: Seq<u64>) -> GridView {
        if 0 <= row < self.rows.len() {
            GridView {
                columns: self.columns,
                nodata: self.nodata,
                rows: self.rows.update(
                    row,
                    Seq::new(
                        self.columns,
                        |c: int|
                            if c < values.len() {
                                values[c]
                            } else {
                                self.rows[row][c]
                            },
                    ),
                ),
            }
        } else {
            self
        }
    }
}

/// The grid of the given shape in which every cell holds the marker.
pub open spec fn blank_grid(rows: nat, columns: nat, nodata: u64) -> GridView {
    GridView {
        columns,
        nodata,
        rows: Seq::new(rows, |r: int| Seq::new(columns, |c: int| nodata)),
    }
}

/// Writing a full row of values replaces exactly that row and keeps the shape.
pub proof fn lemma_with_full_row(g: GridView, row: int, values: Seq<u64>)
    requires
        g.wf(),
        0 <= row < g.height(),
        values.len() == g.columns,
    ensures
        g.with_row(row, values).wf(),
        g.with_row(row, values).columns == g.columns,
        g.with_row(row, values).nodata == g.nodata,
        g.with_row(row, values).height() == g.height(),
        g.with_row(row, values).rows[row] == values,
        forall|r: int|
            0 <= r < g.height() && r != row ==> #[trigger] g.with_row(row, values).rows[r]
                == g.rows[r],
{
    assert(g.with_row(row, values).rows[row] =~= values);
}

/// A raster held in memory: `rows` by `columns` cells, each the 64-bit pattern
/// of a double-precision value, with one pattern set aside to mark missing
/// data.
pub struct Grid {
    columns: usize,
    nodata: u64,
    cells: Vec<Vec<u64>>,
}

impl View for Grid {
    type V = GridView;

    closed spec fn view(&self) -> GridView {
        GridView {
            columns: self.columns as nat,
            nodata: self.nodata,
            rows: Seq::new(self.cells@.len(), |r: int| self.cells@[r]@),
        }
    }
}

impl Grid {
    #[verifier::type_invariant]
    spec fn rectangular(&self) -> bool {
        forall|r: int| 0 <= r < self.cells@.len() ==> (#[trigger] self.cells@[r])@.len() == self.columns
    }

    /// A grid of the given shape in which every cell is missing.
    pub fn new(rows: usize, columns: usize, nodata: u64) -> (grid: Grid)
        ensures
            grid@ == blank_grid(rows as nat, columns as nat, nodata),
            grid@.wf(),
    {
        let mut cells: Vec<Vec<u64>> = Vec::new();
        let mut r: usize = 0;
        while r < rows
            invariant
                r <= rows,
                cells@.len() == r,
                forall|i: int|
                    0 <= i < r ==> (#[trigger] cells@[i])@ == Seq::new(
                        columns as nat,
                        |c: int| nodata,
                    ),
            decreases rows - r,
        {
            let mut row: Vec<u64> = Vec::new();
            let mut c: usize = 0;
            while c < columns
                invariant
                    c <= columns,
                    row@.len() == c,
                    forall|j: int| 0 <= j < c ==> (#[trigger] row@[j]) == nodata,
                decreases columns - c,
            {
                row.push(nodata);
                c = c + 1;
            }
            assert(row@ =~= Seq::new(columns as nat, |c: int| nodata));
            cells.push(row);
            r = r + 1;
        }
        let grid = Grid { columns, nodata, cells };
        assert(grid@.rows =~= blank_grid(rows as nat, columns as nat, nodata).rows);
        grid
    }

    /// A grid made of the given rows, if each of them has `columns` cells.
    pub fn from_rows(columns: usize, nodata: u64, rows: Vec<Vec<u64>>) -> (made: Option<Grid>)
        ensures
            made.is_some() <==> (forall|r: int|
                0 <= r < rows@.len() ==> (#[trigger] rows@[r])@.len() == columns),
            made matches Some(grid) ==> {
                &&& grid@.wf()
                &&& grid@.columns == columns
                &&& grid@.nodata == nodata
                &&& grid@.rows == Seq::new(rows@.len(), |r: int| rows@[r]@)
            },
    {
        let mut r: usize = 0;
        while r < rows.len()
            invariant
                r <= rows@.len(),
                forall|i: int| 0 <= i < r ==> (#[trigger] rows@[i])@.len() == columns,
            decreases rows@.len() - r,
        {
            if rows[r].len() != columns {
                return None;
            }
            r = r + 1;
        }
        Some(Grid { columns, nodata, cells: rows })
    }

    /// A grid of the same shape and marker in which every cell is missing.
    pub fn like(&self) -> (grid: Grid)
        ensures
            grid@ == self@.blank(),
    {
        Grid::new(self.cells.len(), self.columns, self.nodata)
    }

    /// The number of rows. Every grid that exists is rectangular.
    pub fn rows(&self) -> (n: usize)
        ensures
            n == self@.height(),
            self@.wf(),
    {
        proof {
            use_type_invariant(self);
        }
        self.cells.len()
    }

    /// The number of columns. Every grid that exists is rectangular.
    pub fn columns(&self) -> (n: usize)
        ensures
            n == self@.columns,
            self@.wf(),
    {
        proof {
            use_type_invariant(self);
        }
        self.columns
    }

    pub fn nodata(&self) -> (bits: u64)
        ensures
            bits == self@.nodata,
    {
        self.nodata
    }

    /// Reads a cell; a position outside the grid reads as missing.
    pub fn cell(&self, row: usize, col: usize) -> (bits: u64)
        ensures
            bits == self@.at(row as int, col as int),
    {
        proof {
            use_type_invariant(self);
        }
        if row < self.cells.len() && col < self.columns {
            self.cells[row][col]
        } else {
            self.nodata
        }
    }

    /// A copy of one row; a row outside the grid reads as all missing.
    pub fn row(&self, row: usize) -> (values: Vec<u64>)
        ensures
            values@ == Seq::new(self@.columns, |c: int| self@.at(row as int, c)),
    {
        proof {
            use_type_invariant(self);
        }
        let mut values: Vec<u64> = Vec::new();
        let mut c: usize = 0;
        while c < self.columns
            invariant
                c <= self.columns,
                values@.len() == c,
                forall|j: int| 0 <= j < c ==> (#[trigger] values@[j]) == self@.at(row as int, j),
            decreases self.columns - c,
        {
            values.push(self.cell(row, c));
            c = c + 1;
        }
        assert(values@ =~= Seq::new(self@.columns, |c: int| self@.at(row as int, c)));
        values
    }

    /// Writes `values` into row `row`, column by column as far as both reach.
    /// A row outside the grid is ignored.
    pub fn set_row(&mut self, row: usize, values: &Vec<u64>)
        ensures
            final(self)@ == old(self)@.with_row(row as int, values@),
    {
        proof {
            use_type_invariant(&*self);
        }
        if row < self.cells.len() {
            let mut fresh: Vec<u64> = Vec::new();
            let mut c: usize = 0;
            while c < self.columns
                invariant
                    row < self.cells@.len(),
                    self.cells@[row as int]@.len() == self.columns,
                    c <= self.columns,
                    fresh@.len() == c,
                    forall|j: int|
                        0 <= j < c ==> (#[trigger] fresh@[j]) == (if j < values@.len() {
                            values@[j]
                        } else {
                            self.cells@[row as int]@[j]
                        }),
                decreases self.columns - c,
            {
                if c < values.len() {
                    fresh.push(values[c]);
                } else {
                    fresh.push(self.cells[row][c]);
                }
                c = c + 1;
            }
            let mut cells: Vec<Vec<u64>> = Vec::new();
            core::mem::swap(&mut self.cells, &mut cells);
            cells.set(row, fresh);
            core::mem::swap(&mut self.cells, &mut cells);
            proof {
                let expected = old(self)@.with_row(row as int, values@);
                assert(self@.rows =~= expected.rows) by {
                    assert forall|r: int| 0 <= r < self@.rows.len() implies self@.rows[r]
                        =~= expected.rows[r] by {}
                }
            }
        } else {
            assert(self@.rows =~= old(self)@.rows);
        }
    }
}

} // verus!
