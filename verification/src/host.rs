//! The worker pool of the machine the filter runs on.

use vstd::prelude::*;
use crate::clip::{clip_percent, clipped_by_percent};
use crate::grid::{Grid, GridView};
use crate::kernel::{total, Stencil};
use crate::partition::{partition, partition_rows, tiles, RowBlock};
use crate::percent::ClipParameter;
use crate::pipeline::{edge_image, filter_blocks};

verus! {

/// The number of processing units available to this process, as
/// `num_cpus::get` reports it. Its documentation promises that the count is
/// at least 1; nothing else is claimed of it, and two calls may differ.
#[verifier::external_body]
fn available_workers() -> (n: usize)
    ensures
        n >= 1,
{
    num_cpus::get()
}

/// Splits the rows for a pool of one worker per available processing unit.
/// Returns the size of the pool together with the blocks.
pub fn partition_for_host(rows: usize) -> (plan: (usize, Vec<RowBlock>))
    ensures
        plan.0 >= 1,
        plan.1@ == partition(rows as nat, plan.0 as nat),
        tiles(plan.1@, rows as nat),
{
    let workers = available_workers();
    let blocks = partition_rows(rows, workers);
    (workers, blocks)
}

/// Runs the whole pass with the rows split for this machine's worker pool:
/// the filter, then the clipping of the tails by the clip amount, which is
/// skipped unless the amount is above zero. The size of the pool has no part
/// in the result.
pub fn run_on_host<F: Fn(Stencil) -> u64>(grid: &Grid, clip: ClipParameter, combine: &F) -> (output:
    Grid)
    requires
        total(*combine),
    ensures
        exists|edges: GridView| #[trigger]
            edge_image(grid@, *combine, edges) && output@ == clipped_by_percent(
                edges,
                clip.percent(),
            ),
{
    let (workers, blocks) = partition_for_host(grid.rows());
    let mut output = filter_blocks(grid, &blocks, combine);
    let ghost edges = output@;
    clip_percent(&mut output, clip);
    assert(edge_image(grid@, *combine, edges) && output@ == clipped_by_percent(
        edges,
        clip.percent(),
    ));
    output
}

} // verus!
