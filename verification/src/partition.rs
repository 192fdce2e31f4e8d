//! Splitting the rows of a grid into contiguous blocks, one per worker.

use vstd::prelude::*;
use vstd::arithmetic::div_mod::lemma_fundamental_div_mod;

verus! {

/// A half-open range `[start, end)` of row indices handed to one worker.
#[derive(Clone, Copy, Debug, PartialEq, Eq, Structural)]
pub struct RowBlock {
    pub start: usize,
    pub end: usize,
}

impl RowBlock {
    /// Whether `row` lies in `[start, end)`.
    pub open spec fn holds(self, row: int) -> bool {
        self.start <= row < self.end
    }

    /// Number of rows in the range; an inverted range holds none.
    pub open spec fn size(self) -> nat {
        if self.start <= self.end {
            (self.end - self.start) as nat
        } else {
            0
        }
    }

    pub fn contains(&self, row: usize) -> (inside: bool)
        ensures
            inside == self.holds(row as int),
    {
        self.start <= row && row < self.end
    }

    pub fn len(&self) -> (n: usize)
        ensures
            n == self.size(),
    {
        if self.start <= self.end {
            self.end - self.start
        } else {
            0
        }
    }

    pub fn is_empty(&self) -> (empty: bool)
        ensures
            empty == (self.size() == 0),
    {
        self.end <= self.start
    }
}

/// Rows per regular block: the truncated quotient `rows / workers`.
pub open spec fn block_size(rows: nat, workers: nat) -> nat
    recommends
        workers >= 1,
{
    rows / workers
}

/// Number of blocks: none for an empty grid, otherwise one per worker plus
/// one more when the division leaves a remainder. Where there are fewer rows
/// than workers the regular blocks are empty and the extra block holds every
/// row.
pub open spec fn block_count(rows: nat, workers: nat) -> nat
    recommends
        workers >= 1,
{
    if rows == 0 {
        0
    } else if rows % workers == 0 {
        workers
    } else {
        workers + 1
    }
}

/// The `k`-th block: regular blocks have `block_size` rows each and follow one
/// another from row 0; the block after the last regular one runs to `rows`.
pub open spec fn block_at(rows: nat, workers: nat, k: int) -> RowBlock
    recommends
        workers >= 1,
{
    let size = block_size(rows, workers);
    RowBlock {
        start: (k * size) as usize,
        end: if k < workers {
            ((k + 1) * size) as usize
        } else {
            rows as usize
        },
    }
}

/// The blocks into which `rows` rows are split for `workers` workers.
pub open spec fn partition(rows: nat, workers: nat) -> Seq<RowBlock>
    recommends
        workers >= 1,
{
    Seq::new(block_count(rows, workers), |k: int| block_at(rows, workers, k))
}

/// Block `k` is not inverted and starts where its predecessor ends, the
/// first block at row 0.
pub open spec fn joins(blocks: Seq<RowBlock>, k: int) -> bool {
    &&& blocks[k].start <= blocks[k].end
    &&& blocks[k].start == (if k == 0 {
        0
    } else {
        blocks[k - 1].end as int
    })
}

/// The blocks follow one another without gap or overlap from row 0 to `rows`.
pub open spec fn tiles(blocks: Seq<RowBlock>, rows: nat) -> bool {
    &&& forall|k: int| 0 <= k < blocks.len() ==> #[trigger] joins(blocks, k)
    &&& (if blocks.len() == 0 {
        rows == 0
    } else {
        blocks[blocks.len() - 1].end == rows
    })
}

/// Some block holds `row`.
pub open spec fn covered(blocks: Seq<RowBlock>, row: int) -> bool {
    exists|k: int| 0 <= k < blocks.len() && #[trigger] blocks[k].holds(row)
}

/// Total number of rows held by the blocks.
pub open spec fn total_rows(blocks: Seq<RowBlock>) -> nat
    decreases blocks.len(),
{
    if blocks.len() == 0 {
        0
    } else {
        total_rows(blocks.drop_last()) + blocks.last().size()
    }
}

proof fn lemma_regular_blocks_fit(rows: nat, workers: nat, k: int)
    requires
        workers >= 1,
        0 <= k <= workers,
    ensures
        0 <= k * block_size(rows, workers) <= rows,
        k < workers ==> (k + 1) * block_size(rows, workers) == k * block_size(rows, workers)
            + block_size(rows, workers),
        workers * block_size(rows, workers) + rows % workers == rows,
        (workers * block_size(rows, workers) < rows) <==> rows % workers != 0,
{
    let size = block_size(rows, workers);
    lemma_fundamental_div_mod(rows as int, workers as int);
    assert(workers * size == workers * (rows as int / workers as int));
    assert(0 <= k * size <= workers * size) by (nonlinear_arith)
        requires
            0 <= k <= workers,
            0 <= size,
    ;
    assert((k + 1) * size == k * size + size) by (nonlinear_arith);
}

/// Splits `[0, rows)` into one block of `rows / workers` rows per worker,
/// followed by a block holding the remaining rows if there are any. An empty
/// grid has no blocks.
pub fn partition_rows(rows: usize, workers: usize) -> (blocks: Vec<RowBlock>)
    requires
        workers >= 1,
    ensures
        blocks@ == partition(rows as nat, workers as nat),
        tiles(blocks@, rows as nat),
{
    let mut blocks: Vec<RowBlock> = Vec::new();
    if rows == 0 {
        assert(blocks@ =~= partition(rows as nat, workers as nat));
        return blocks;
    }
    let size: usize = rows / workers;
    let mut k: usize = 0;
    let mut start: usize = 0;
    while k < workers
        invariant
            workers >= 1,
            rows > 0,
            size == block_size(rows as nat, workers as nat),
            k <= workers,
            start == k * size,
            blocks@.len() == k,
            forall|i: int| 0 <= i < k ==> blocks@[i] == block_at(rows as nat, workers as nat, i),
        decreases workers - k,
    {
        proof {
            lemma_regular_blocks_fit(rows as nat, workers as nat, k as int);
            lemma_regular_blocks_fit(rows as nat, workers as nat, k + 1);
        }
        let end: usize = start + size;
        blocks.push(RowBlock { start, end });
        start = end;
        k = k + 1;
    }
    proof {
        lemma_regular_blocks_fit(rows as nat, workers as nat, workers as int);
    }
    if start < rows {
        blocks.push(RowBlock { start, end: rows });
    }
    proof {
        assert(blocks@ =~= partition(rows as nat, workers as nat));
        lemma_partition_tiles(rows as nat, workers as nat);
    }
    blocks
}

/// The partition of any grid for any positive worker count tiles `[0, rows)`.
pub proof fn lemma_partition_tiles(rows: nat, workers: nat)
    requires
        workers >= 1,
        rows <= usize::MAX,
    ensures
        tiles(partition(rows, workers), rows),
{
    let blocks = partition(rows, workers);
    lemma_regular_blocks_fit(rows, workers, workers as int);
    assert forall|k: int| 0 <= k < blocks.len() implies #[trigger] joins(blocks, k) by {
        lemma_regular_blocks_fit(rows, workers, k);
        if k < workers {
            lemma_regular_blocks_fit(rows, workers, k + 1);
        }
        if k > 0 {
            lemma_regular_blocks_fit(rows, workers, k - 1);
        }
    }
}

/// In a tiling the blocks come in increasing order and none is inverted.
pub proof fn lemma_tiles_ordered(blocks: Seq<RowBlock>, rows: nat, i: int, j: int)
    requires
        tiles(blocks, rows),
        0 <= i <= j < blocks.len(),
    ensures
        blocks[i].start <= blocks[i].end,
        blocks[i].start <= blocks[j].start,
        blocks[i].end <= blocks[j].end,
        i < j ==> blocks[i].end <= blocks[j].start,
    decreases j - i,
{
    assert(joins(blocks, i));
    assert(joins(blocks, j));
    if i < j {
        lemma_tiles_ordered(blocks, rows, i, j - 1);
    }
}

/// In a tiling no block reaches beyond `rows`.
pub proof fn lemma_tiles_within(blocks: Seq<RowBlock>, rows: nat, k: int)
    requires
        tiles(blocks, rows),
        0 <= k < blocks.len(),
    ensures
        blocks[k].start <= blocks[k].end <= rows,
{
    lemma_tiles_ordered(blocks, rows, k, blocks.len() - 1);
}

/// In a tiling every row of `[0, rows)` lies in a block, no row lies in two
/// blocks, and no block holds a row outside `[0, rows)`.
pub proof fn lemma_tiles_cover_exactly_once(blocks: Seq<RowBlock>, rows: nat)
    requires
        tiles(blocks, rows),
    ensures
        forall|row: int| 0 <= row < rows ==> #[trigger] covered(blocks, row),
        forall|row: int, j: int, k: int|
            0 <= j < blocks.len() && 0 <= k < blocks.len() && blocks[j].holds(row)
                && blocks[k].holds(row) ==> j == k,
        forall|row: int, k: int|
            0 <= k < blocks.len() && blocks[k].holds(row) ==> 0 <= row < rows,
{
    assert forall|row: int| 0 <= row < rows implies #[trigger] covered(blocks, row) by {
        assert(joins(blocks, 0));
        lemma_owner_exists(blocks, rows, row, 0);
    }
    assert forall|row: int, j: int, k: int|
        0 <= j < blocks.len() && 0 <= k < blocks.len() && blocks[j].holds(row)
            && blocks[k].holds(row) implies j == k by {
        if j < k {
            lemma_tiles_ordered(blocks, rows, j, k);
        }
        if k < j {
            lemma_tiles_ordered(blocks, rows, k, j);
        }
    }
    assert forall|row: int, k: int| 0 <= k < blocks.len() && blocks[k].holds(row) implies 0 <= row
        < rows by {
        lemma_tiles_within(blocks, rows, k);
    }
}

proof fn lemma_owner_exists(blocks: Seq<RowBlock>, rows: nat, row: int, from: int)
    requires
        tiles(blocks, rows),
        0 <= from < blocks.len(),
        blocks[from].start <= row < rows,
    ensures
        covered(blocks, row),
    decreases blocks.len() - from,
{
    if row < blocks[from].end {
        assert(blocks[from].holds(row));
    } else {
        assert(from + 1 < blocks.len());
        assert(joins(blocks, from + 1));
        lemma_owner_exists(blocks, rows, row, from + 1);
    }
}

/// The blocks of a tiling hold `rows` rows in all.
pub proof fn lemma_tiles_total(blocks: Seq<RowBlock>, rows: nat)
    requires
        tiles(blocks, rows),
    ensures
        total_rows(blocks) == rows,
    decreases blocks.len(),
{
    if blocks.len() > 0 {
        let front = blocks.drop_last();
        let last = blocks.last();
        assert(joins(blocks, blocks.len() - 1));
        assert forall|k: int| 0 <= k < front.len() implies #[trigger] joins(front, k) by {
            assert(joins(blocks, k));
        }
        assert(tiles(front, last.start as nat));
        lemma_tiles_total(front, last.start as nat);
    }
}

/// For every grid height and every positive worker count the blocks cover
/// `[0, rows)` without gap or overlap: every row lies in a block, no row lies
/// in two blocks, and no block holds a row outside the grid.
pub proof fn lemma_partition_covers(rows: nat, workers: nat)
    requires
        workers >= 1,
        rows <= usize::MAX,
    ensures
        forall|row: int| 0 <= row < rows ==> #[trigger] covered(partition(rows, workers), row),
        forall|row: int, j: int, k: int|
            0 <= j < partition(rows, workers).len() && 0 <= k < partition(rows, workers).len()
                && partition(rows, workers)[j].holds(row) && partition(rows, workers)[k].holds(
                row,
            ) ==> j == k,
        forall|row: int, k: int|
            0 <= k < partition(rows, workers).len() && partition(rows, workers)[k].holds(row)
                ==> 0 <= row < rows,
{
    lemma_partition_tiles(rows, workers);
    lemma_tiles_cover_exactly_once(partition(rows, workers), rows);
}

/// For every grid height and every positive worker count the blocks hold
/// `rows` rows in all: working them off yields one result per row of the
/// grid, neither more nor fewer.
pub proof fn lemma_partition_total(rows: nat, workers: nat)
    requires
        workers >= 1,
        rows <= usize::MAX,
    ensures
        total_rows(partition(rows, workers)) == rows,
{
    lemma_partition_tiles(rows, workers);
    lemma_tiles_total(partition(rows, workers), rows);
}

} // verus!
