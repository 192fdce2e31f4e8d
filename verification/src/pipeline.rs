//! The whole filter pass: rows are split into blocks, each block is worked
//! off, and a collector assembles the output grid from the row results.

use vstd::prelude::*;
use crate::clip::{clip_percent, clipped_by_percent};
use crate::collector::{collected, Collector};
use crate::grid::{lemma_with_full_row, Grid, GridView};
use crate::kernel::{deterministic, edge_block, row_outcome, total, RowResult, Stencil};
use crate::partition::{joins, lemma_tiles_within, partition_rows, tiles, RowBlock};
use crate::percent::ClipParameter;

verus! {

/// `output` is an edge image of `input`: it has the shape and marker of
/// `input`, and each of its rows is an admissible result for that row.
pub open spec fn edge_image<F: Fn(Stencil) -> u64>(
    input: GridView,
    combine: F,
    output: GridView,
) -> bool {
    &&& output.wf()
    &&& output.columns == input.columns
    &&& output.nodata == input.nodata
    &&& output.height() == input.height()
    &&& forall|r: int|
        0 <= r < input.height() ==> row_outcome(input, combine, r, #[trigger] output.rows[r])
}

/// Some message is for row `row`.
pub open spec fn delivered(messages: Seq<RowResult>, row: int) -> bool {
    exists|i: int| 0 <= i < messages.len() && (#[trigger] messages[i]).row == row
}

/// Message `i` is an admissible result for the row it names.
pub open spec fn admissible<F: Fn(Stencil) -> u64>(
    input: GridView,
    combine: F,
    messages: Seq<RowResult>,
    i: int,
) -> bool {
    row_outcome(input, combine, messages[i].row as int, messages[i].values@)
}

/// Applies the filter to `grid` with the rows split as `blocks` says: the
/// blocks are worked off in turn and their results collected.
pub fn filter_blocks<F: Fn(Stencil) -> u64>(grid: &Grid, blocks: &Vec<RowBlock>, combine: &F) -> (output:
    Grid)
    requires
        total(*combine),
        tiles(blocks@, grid@.height()),
    ensures
        edge_image(grid@, *combine, output@),
{
    let height = grid.rows();
    let mut collector = Collector::new(grid);
    let ghost input = grid@;
    let mut k: usize = 0;
    let ghost mut done: int = 0;
    while k < blocks.len()
        invariant
            total(*combine),
            input == grid@,
            input.wf(),
            height == input.height(),
            tiles(blocks@, input.height()),
            k <= blocks@.len(),
            done == (if k == 0 {
                0
            } else {
                blocks@[k - 1].end as int
            }),
            0 <= done <= height,
            collector.remaining() == height - done,
            collector.output().wf(),
            collector.output().columns == input.columns,
            collector.output().nodata == input.nodata,
            collector.output().height() == input.height(),
            forall|r: int|
                0 <= r < done ==> row_outcome(input, *combine, r, #[trigger] collector.output().rows[r]),
        decreases blocks@.len() - k,
    {
        let block = blocks[k];
        proof {
            assert(joins(blocks@, k as int));
            lemma_tiles_within(blocks@, input.height(), k as int);
        }
        let results = edge_block(grid, block, combine);
        let ghost before = collector.output();
        let consumed = collector.accept_all(&results);
        proof {
            assert(results@.take(consumed as int) =~= results@);
            assert forall|i: int| 0 <= i < results@.len() implies #[trigger] admissible(
                input,
                *combine,
                results@,
                i,
            ) by {}
            lemma_collected_rows(input, *combine, before, results@);
            assert forall|r: int| 0 <= r < block.end implies row_outcome(
                input,
                *combine,
                r,
                #[trigger] collector.output().rows[r],
            ) by {
                if r >= block.start {
                    assert(results@[r - block.start].row == r);
                    assert(delivered(results@, r));
                } else {
                    assert(!delivered(results@, r));
                }
            }
            done = block.end as int;
        }
        k = k + 1;
    }
    let output = collector.finish();
    output.unwrap()
}

/// Applies the filter to `grid` as `workers` workers would share it. Each
/// cell of the output is the missing-data marker where the input cell is
/// missing, and otherwise what `combine` returns for the cell's
/// neighbourhood; the number of workers has no part in the result.
pub fn filter<F: Fn(Stencil) -> u64>(grid: &Grid, workers: usize, combine: &F) -> (output: Grid)
    requires
        workers >= 1,
        total(*combine),
    ensures
        edge_image(grid@, *combine, output@),
{
    let blocks = partition_rows(grid.rows(), workers);
    filter_blocks(grid, &blocks, combine)
}

/// Runs the whole pass: the filter as `workers` workers would share it, then
/// the clipping of the tails by the clip amount, which is skipped unless the
/// amount is above zero.
pub fn run<F: Fn(Stencil) -> u64>(
    grid: &Grid,
    workers: usize,
    clip: ClipParameter,
    combine: &F,
) -> (output: Grid)
    requires
        workers >= 1,
        total(*combine),
    ensures
        exists|edges: GridView| #[trigger]
            edge_image(grid@, *combine, edges) && output@ == clipped_by_percent(
                edges,
                clip.percent(),
            ),
{
    let mut output = filter(grid, workers, combine);
    let ghost edges = output@;
    clip_percent(&mut output, clip);
    assert(edge_image(grid@, *combine, edges) && output@ == clipped_by_percent(
        edges,
        clip.percent(),
    ));
    output
}

/// Writing a set of admissible messages into a grid of the input's shape
/// gives an edge image, in whatever order the messages arrive, provided
/// every row has a message.
pub proof fn lemma_collected_is_edge_image<F: Fn(Stencil) -> u64>(
    input: GridView,
    combine: F,
    start: GridView,
    messages: Seq<RowResult>,
)
    requires
        input.wf(),
        start.wf(),
        start.columns == input.columns,
        start.nodata == input.nodata,
        start.height() == input.height(),
        forall|i: int| 0 <= i < messages.len() ==> #[trigger] admissible(input, combine, messages, i),
        forall|r: int| 0 <= r < input.height() ==> #[trigger] delivered(messages, r),
    ensures
        edge_image(input, combine, collected(start, messages)),
{
    lemma_collected_rows(input, combine, start, messages);
    let output = collected(start, messages);
    assert forall|r: int| 0 <= r < input.height() implies row_outcome(
        input,
        combine,
        r,
        #[trigger] output.rows[r],
    ) by {
        assert(delivered(messages, r));
    }
}

/// After any admissible messages the collected grid keeps the input's shape,
/// and every row for which a message has arrived holds an admissible result.
proof fn lemma_collected_rows<F: Fn(Stencil) -> u64>(
    input: GridView,
    combine: F,
    start: GridView,
    messages: Seq<RowResult>,
)
    requires
        input.wf(),
        start.wf(),
        start.columns == input.columns,
        start.nodata == input.nodata,
        start.height() == input.height(),
        forall|i: int| 0 <= i < messages.len() ==> #[trigger] admissible(input, combine, messages, i),
    ensures
        collected(start, messages).wf(),
        collected(start, messages).columns == input.columns,
        collected(start, messages).nodata == input.nodata,
        collected(start, messages).height() == input.height(),
        forall|r: int|
            0 <= r < input.height() && delivered(messages, r) ==> row_outcome(
                input,
                combine,
                r,
                #[trigger] collected(start, messages).rows[r],
            ),
        forall|r: int|
            0 <= r < input.height() && !delivered(messages, r) ==> #[trigger] collected(
                start,
                messages,
            ).rows[r] == start.rows[r],
    decreases messages.len(),
{
    if messages.len() > 0 {
        let front = messages.drop_last();
        let last = messages.last();
        let before = collected(start, front);
        assert forall|i: int| 0 <= i < front.len() implies #[trigger] admissible(
            input,
            combine,
            front,
            i,
        ) by {
            assert(admissible(input, combine, messages, i));
        }
        lemma_collected_rows(input, combine, start, front);
        assert(admissible(input, combine, messages, messages.len() - 1));
        let after = collected(start, messages);
        if 0 <= last.row < input.height() {
            lemma_with_full_row(before, last.row as int, last.values@);
        }
        assert forall|r: int| 0 <= r < input.height() && delivered(messages, r) implies row_outcome(
            input,
            combine,
            r,
            #[trigger] after.rows[r],
        ) by {
            if r != last.row {
                let i = choose|i: int| 0 <= i < messages.len() && (#[trigger] messages[i]).row == r;
                assert(front[i].row == r);
                assert(delivered(front, r));
            }
        }
        assert forall|r: int| 0 <= r < input.height() && !delivered(messages, r) implies #[trigger] after.rows[r]
            == start.rows[r] by {
            assert(messages[messages.len() - 1].row != r);
            if delivered(front, r) {
                let i = choose|i: int| 0 <= i < front.len() && (#[trigger] front[i]).row == r;
                assert(messages[i].row == r);
            }
        }
    }
}

/// Where `combine` returns one value only for each neighbourhood, a grid has
/// one edge image only: however the rows were split among workers and in
/// whatever order their results arrived, the output is the same, bit for bit.
pub proof fn lemma_edge_image_unique<F: Fn(Stencil) -> u64>(
    input: GridView,
    combine: F,
    first: GridView,
    second: GridView,
)
    requires
        deterministic(combine),
        edge_image(input, combine, first),
        edge_image(input, combine, second),
    ensures
        first == second,
{
    assert forall|r: int| 0 <= r < first.rows.len() implies first.rows[r] =~= second.rows[r] by {
        assert(row_outcome(input, combine, r, first.rows[r]));
        assert(row_outcome(input, combine, r, second.rows[r]));
    }
    assert(first.rows =~= second.rows);
}

} // verus!
