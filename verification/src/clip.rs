//! Clipping the tails of the value distribution of a grid.

use vstd::prelude::*;
use vstd::relations::{sorted_by, total_ordering};
use vstd::seq_lib::{lemma_sorted_unique, to_multiset_contains, to_multiset_len};
use crate::grid::{lemma_with_full_row, Grid, GridView};
use crate::percent::{lemma_tail_cells_monotone, spec_is_active, tail_cells, ClipParameter};
use crate::sample::{
    from_rank, is_nan, is_number_rank, lemma_from_rank, rank, same_value, spec_from_rank,
    spec_is_nan, spec_precedes, spec_rank, spec_same_value,
};

verus! {

/// A cell takes part in the distribution: it encodes a number and is not
/// missing.
pub open spec fn counts(cell: u64, nodata: u64) -> bool {
    !spec_is_nan(cell) && !spec_same_value(cell, nodata)
}

/// The ranks of the cells of one row that take part, from left to right.
pub open spec fn row_ranks(row: Seq<u64>, nodata: u64) -> Seq<i64>
    decreases row.len(),
{
    if row.len() == 0 {
        Seq::empty()
    } else if counts(row.last(), nodata) {
        row_ranks(row.drop_last(), nodata).push(spec_rank(row.last()) as i64)
    } else {
        row_ranks(row.drop_last(), nodata)
    }
}

/// The ranks of all cells that take part, row after row.
pub open spec fn grid_ranks(rows: Seq<Seq<u64>>, nodata: u64) -> Seq<i64>
    decreases rows.len(),
{
    if rows.len() == 0 {
        Seq::empty()
    } else {
        grid_ranks(rows.drop_last(), nodata) + row_ranks(rows.last(), nodata)
    }
}

/// The order of ranks, smallest first.
pub open spec fn ascending() -> spec_fn(i64, i64) -> bool {
    |a: i64, b: i64| a <= b
}

/// The value distribution of a grid: the ranks of all cells that take part,
/// in ascending order.
pub open spec fn distribution(g: GridView) -> Seq<i64> {
    grid_ranks(g.rows, g.nodata).sort_by(ascending())
}

/// The number of values cut from each end of a distribution of `n > 0`
/// values when `tail` are asked for: `tail`, but never so many that the two
/// cuts would cross.
pub open spec fn tail_index(n: nat, tail: nat) -> nat
    recommends
        n > 0,
{
    if tail <= (n - 1) / 2 {
        tail
    } else {
        ((n - 1) / 2) as nat
    }
}

/// The low and high cutoff ranks for tails of `tail` values: the smallest
/// and the largest rank that remain after `tail_index` values are cut from
/// each end of the distribution. A grid in which no cell takes part has no
/// cutoffs.
pub open spec fn cutoffs(g: GridView, tail: nat) -> Option<(i64, i64)> {
    let values = distribution(g);
    if values.len() == 0 {
        None
    } else {
        let k = tail_index(values.len(), tail) as int;
        Some((values[k], values[values.len() - 1 - k]))
    }
}

/// A cell after clamping to `[low, high]`: a cell that takes part and lies
/// below `low` becomes the number of rank `low`, one above `high` the number
/// of rank `high`; every other cell stays as it is.
pub open spec fn clamp_cell(cell: u64, nodata: u64, low: i64, high: i64) -> u64 {
    if !counts(cell, nodata) {
        cell
    } else if spec_rank(cell) < low {
        spec_from_rank(low as int)
    } else if spec_rank(cell) > high {
        spec_from_rank(high as int)
    } else {
        cell
    }
}

/// A row after clamping each of its cells.
pub open spec fn clamp_row(row: Seq<u64>, nodata: u64, low: i64, high: i64) -> Seq<u64> {
    Seq::new(row.len(), |c: int| clamp_cell(row[c], nodata, low, high))
}

/// The grid after its tails of `tail` values are clipped: every cell is
/// clamped to the cutoffs; a grid without cutoffs stays as it is.
pub open spec fn clipped(g: GridView, tail: nat) -> GridView {
    match cutoffs(g, tail) {
        None => g,
        Some((low, high)) => GridView {
            columns: g.columns,
            nodata: g.nodata,
            rows: Seq::new(g.rows.len(), |r: int| clamp_row(g.rows[r], g.nodata, low, high)),
        },
    }
}

/// The grid after the tails that `percent` per cent of its distribution come
/// to are clipped. A clip amount that is not a number above zero leaves the
/// grid as it is.
pub open spec fn clipped_by_percent(g: GridView, percent: u64) -> GridView {
    if spec_is_active(percent) {
        clipped(g, tail_cells(percent, distribution(g).len()))
    } else {
        g
    }
}

/// The value range of a grid: the smallest and the largest rank among the
/// cells that take part, if there are any.
pub open spec fn value_range(g: GridView) -> Option<(i64, i64)> {
    let values = distribution(g);
    if values.len() == 0 {
        None
    } else {
        Some((values[0], values[values.len() - 1]))
    }
}

/// The first range lies within the second; a grid without values has no
/// range to compare.
pub open spec fn range_within(inner: Option<(i64, i64)>, outer: Option<(i64, i64)>) -> bool {
    match (inner, outer) {
        (Some((low2, high2)), Some((low1, high1))) => low1 <= low2 <= high2 <= high1,
        (None, None) => true,
        _ => false,
    }
}

/// Sorts the ranks with the standard library's `sort_unstable` on slices,
/// which is documented to put the elements in ascending order; the sorted
/// vector holds the same elements as before, each as often as before.
#[verifier::external_body]
fn sort_ranks(ranks: &mut Vec<i64>)
    ensures
        forall|i: int, j: int|
            0 <= i < j < final(ranks)@.len() ==> final(ranks)@[i] <= final(ranks)@[j],
        final(ranks)@.to_multiset() == old(ranks)@.to_multiset(),
{
    ranks.sort_unstable();
}

proof fn lemma_ascending_is_total()
    ensures
        total_ordering(ascending()),
{
}

/// The rank of every pattern fits the machine integer that carries it.
pub proof fn lemma_rank_fits(bits: u64)
    ensures
        spec_rank(bits) as i64 == spec_rank(bits),
{
    let magnitude = bits & 0x7fff_ffff_ffff_ffffu64;
    assert(magnitude <= 0x7fff_ffff_ffff_ffffu64) by (bit_vector)
        requires
            magnitude == bits & 0x7fff_ffff_ffff_ffffu64,
    ;
}

/// Whether a cell takes part in the distribution.
pub fn takes_part(cell: u64, nodata: u64) -> (part: bool)
    ensures
        part == counts(cell, nodata),
{
    !is_nan(cell) && !same_value(cell, nodata)
}

/// Gathers the ranks of all cells that take part, row after row.
fn gather_ranks(grid: &Grid) -> (ranks: Vec<i64>)
    ensures
        ranks@ == grid_ranks(grid@.rows, grid@.nodata),
{
    let height = grid.rows();
    let width = grid.columns();
    let nodata = grid.nodata();
    let ghost g = grid@;
    let mut ranks: Vec<i64> = Vec::new();
    let mut r: usize = 0;
    while r < height
        invariant
            g == grid@,
            g.wf(),
            height == g.height(),
            width == g.columns,
            nodata == g.nodata,
            r <= height,
            ranks@ == grid_ranks(g.rows.take(r as int), nodata),
        decreases height - r,
    {
        let ghost before = ranks@;
        let ghost row = g.rows[r as int];
        let mut c: usize = 0;
        while c < width
            invariant
                g == grid@,
                g.wf(),
                r < height,
                height == g.height(),
                width == g.columns,
                nodata == g.nodata,
                row == g.rows[r as int],
                c <= width,
                ranks@ == before + row_ranks(row.take(c as int), nodata),
            decreases width - c,
        {
            let cell = grid.cell(r, c);
            proof {
                assert(row.take(c + 1).drop_last() =~= row.take(c as int));
                assert(row.take(c + 1).last() == cell);
                lemma_rank_fits(cell);
            }
            if takes_part(cell, nodata) {
                ranks.push(rank(cell));
                assert(ranks@ =~= before + row_ranks(row.take(c + 1), nodata));
            }
            c = c + 1;
        }
        proof {
            assert(row.take(width as int) =~= row);
            assert(g.rows.take(r + 1).drop_last() =~= g.rows.take(r as int));
            assert(g.rows.take(r + 1).last() == row);
        }
        r = r + 1;
    }
    proof {
        assert(g.rows.take(height as int) =~= g.rows);
    }
    ranks
}

/// Two sequences with the same elements, each as often, have the same
/// length and the same members.
proof fn lemma_same_elements(a: Seq<i64>, b: Seq<i64>)
    requires
        a.to_multiset() == b.to_multiset(),
    ensures
        a.len() == b.len(),
        forall|x: i64| a.contains(x) <==> b.contains(x),
{
    to_multiset_len(a);
    to_multiset_len(b);
    assert forall|x: i64| a.contains(x) <==> b.contains(x) by {
        to_multiset_contains(a, x);
        to_multiset_contains(b, x);
    }
}

/// The distribution is in ascending order and holds exactly the ranks of the
/// cells that take part.
pub proof fn lemma_distribution(g: GridView)
    ensures
        forall|i: int, j: int|
            0 <= i <= j < distribution(g).len() ==> distribution(g)[i] <= distribution(g)[j],
        distribution(g).len() == grid_ranks(g.rows, g.nodata).len(),
        forall|x: i64| distribution(g).contains(x) <==> grid_ranks(g.rows, g.nodata).contains(x),
{
    let unsorted = grid_ranks(g.rows, g.nodata);
    lemma_ascending_is_total();
    unsorted.lemma_sort_by_ensures(ascending());
    lemma_same_elements(unsorted, distribution(g));
    let d = distribution(g);
    assert forall|i: int, j: int| 0 <= i <= j < d.len() implies d[i] <= d[j] by {
        if i < j {
            assert(ascending()(d[i], d[j]));
        }
    }
}

proof fn lemma_row_ranks_hold(row: Seq<u64>, nodata: u64, c: int)
    requires
        0 <= c < row.len(),
        counts(row[c], nodata),
    ensures
        row_ranks(row, nodata).contains(spec_rank(row[c]) as i64),
    decreases row.len(),
{
    let x = spec_rank(row[c]) as i64;
    let front = row_ranks(row.drop_last(), nodata);
    if c == row.len() - 1 {
        assert(row_ranks(row, nodata)[front.len() as int] == x);
    } else {
        lemma_row_ranks_hold(row.drop_last(), nodata, c);
        let i = choose|i: int| 0 <= i < front.len() && front[i] == x;
        assert(row_ranks(row, nodata)[i] == x);
    }
}

proof fn lemma_grid_ranks_hold(rows: Seq<Seq<u64>>, nodata: u64, r: int, c: int)
    requires
        0 <= r < rows.len(),
        0 <= c < rows[r].len(),
        counts(rows[r][c], nodata),
    ensures
        grid_ranks(rows, nodata).contains(spec_rank(rows[r][c]) as i64),
    decreases rows.len(),
{
    let x = spec_rank(rows[r][c]) as i64;
    let front = grid_ranks(rows.drop_last(), nodata);
    let back = row_ranks(rows.last(), nodata);
    if r == rows.len() - 1 {
        lemma_row_ranks_hold(rows.last(), nodata, c);
        let i = choose|i: int| 0 <= i < back.len() && back[i] == x;
        assert((front + back)[front.len() + i] == x);
    } else {
        lemma_grid_ranks_hold(rows.drop_last(), nodata, r, c);
        let i = choose|i: int| 0 <= i < front.len() && front[i] == x;
        assert((front + back)[i] == x);
    }
}

proof fn lemma_row_rank_source(row: Seq<u64>, nodata: u64, i: int) -> (c: int)
    requires
        0 <= i < row_ranks(row, nodata).len(),
    ensures
        0 <= c < row.len(),
        counts(row[c], nodata),
        row_ranks(row, nodata)[i] == spec_rank(row[c]) as i64,
    decreases row.len(),
{
    let front = row_ranks(row.drop_last(), nodata);
    if i < front.len() {
        lemma_row_rank_source(row.drop_last(), nodata, i)
    } else {
        row.len() - 1
    }
}

proof fn lemma_grid_rank_source(rows: Seq<Seq<u64>>, nodata: u64, i: int) -> (at: (int, int))
    requires
        0 <= i < grid_ranks(rows, nodata).len(),
    ensures
        0 <= at.0 < rows.len(),
        0 <= at.1 < rows[at.0].len(),
        counts(rows[at.0][at.1], nodata),
        grid_ranks(rows, nodata)[i] == spec_rank(rows[at.0][at.1]) as i64,
    decreases rows.len(),
{
    let front = grid_ranks(rows.drop_last(), nodata);
    if i < front.len() {
        lemma_grid_rank_source(rows.drop_last(), nodata, i)
    } else {
        let c = lemma_row_rank_source(rows.last(), nodata, i - front.len());
        (rows.len() - 1, c)
    }
}

/// The rank of every cell that takes part is a member of the distribution.
pub proof fn lemma_cell_in_distribution(g: GridView, r: int, c: int)
    requires
        0 <= r < g.rows.len(),
        0 <= c < g.rows[r].len(),
        counts(g.rows[r][c], g.nodata),
    ensures
        distribution(g).contains(spec_rank(g.rows[r][c]) as i64),
{
    lemma_grid_ranks_hold(g.rows, g.nodata, r, c);
    lemma_distribution(g);
}

/// Every member of the distribution is the rank of a cell that takes part,
/// and so the rank of a number.
pub proof fn lemma_distribution_source(g: GridView, i: int) -> (at: (int, int))
    requires
        0 <= i < distribution(g).len(),
    ensures
        0 <= at.0 < g.rows.len(),
        0 <= at.1 < g.rows[at.0].len(),
        counts(g.rows[at.0][at.1], g.nodata),
        distribution(g)[i] == spec_rank(g.rows[at.0][at.1]),
        is_number_rank(distribution(g)[i] as int),
{
    lemma_distribution(g);
    let unsorted = grid_ranks(g.rows, g.nodata);
    let x = distribution(g)[i];
    assert(distribution(g).contains(x));
    let j = choose|j: int| 0 <= j < unsorted.len() && unsorted[j] == x;
    let at = lemma_grid_rank_source(g.rows, g.nodata, j);
    lemma_rank_fits(g.rows[at.0][at.1]);
    at
}

fn clamp(cell: u64, nodata: u64, low: i64, high: i64) -> (bits: u64)
    requires
        is_number_rank(low as int),
        is_number_rank(high as int),
    ensures
        bits == clamp_cell(cell, nodata, low, high),
{
    if !takes_part(cell, nodata) {
        cell
    } else if rank(cell) < low {
        from_rank(low)
    } else if rank(cell) > high {
        from_rank(high)
    } else {
        cell
    }
}

/// Clamps every cell of the grid to `[low, high]`.
fn clamp_grid(grid: &mut Grid, low: i64, high: i64)
    requires
        is_number_rank(low as int),
        is_number_rank(high as int),
    ensures
        final(grid)@.columns == old(grid)@.columns,
        final(grid)@.nodata == old(grid)@.nodata,
        final(grid)@.rows == Seq::new(
            old(grid)@.rows.len(),
            |r: int| clamp_row(old(grid)@.rows[r], old(grid)@.nodata, low, high),
        ),
{
    let height = grid.rows();
    let width = grid.columns();
    let nodata = grid.nodata();
    let ghost g = grid@;
    let mut r: usize = 0;
    while r < height
        invariant
            is_number_rank(low as int),
            is_number_rank(high as int),
            g.wf(),
            grid@.wf(),
            height == g.height(),
            width == g.columns,
            nodata == g.nodata,
            grid@.height() == g.height(),
            grid@.columns == g.columns,
            grid@.nodata == g.nodata,
            r <= height,
            forall|i: int| 0 <= i < r ==> #[trigger] grid@.rows[i] == clamp_row(g.rows[i], nodata, low, high),
            forall|i: int| r <= i < height ==> #[trigger] grid@.rows[i] == g.rows[i],
        decreases height - r,
    {
        let mut fresh: Vec<u64> = Vec::new();
        let mut c: usize = 0;
        while c < width
            invariant
                is_number_rank(low as int),
                is_number_rank(high as int),
                g.wf(),
                grid@.wf(),
                r < height,
                height == g.height(),
                width == g.columns,
                nodata == g.nodata,
                grid@.height() == g.height(),
                grid@.columns == g.columns,
                grid@.rows[r as int] == g.rows[r as int],
                c <= width,
                fresh@.len() == c,
                forall|j: int|
                    0 <= j < c ==> #[trigger] fresh@[j] == clamp_cell(
                        g.rows[r as int][j],
                        nodata,
                        low,
                        high,
                    ),
            decreases width - c,
        {
            let cell = grid.cell(r, c);
            fresh.push(clamp(cell, nodata, low, high));
            c = c + 1;
        }
        proof {
            lemma_with_full_row(grid@, r as int, fresh@);
            assert(fresh@ =~= clamp_row(g.rows[r as int], nodata, low, high));
        }
        grid.set_row(r, &fresh);
        r = r + 1;
    }
    proof {
        assert(grid@.rows =~= Seq::new(
            g.rows.len(),
            |r: int| clamp_row(g.rows[r], g.nodata, low, high),
        ));
    }
}

/// Clips the grid given the ranks of its cells that take part.
fn clip_with(grid: &mut Grid, ranks: Vec<i64>, tail: usize)
    requires
        ranks@ == grid_ranks(old(grid)@.rows, old(grid)@.nodata),
    ensures
        final(grid)@ == clipped(old(grid)@, tail as nat),
{
    let ghost g = grid@;
    let mut ranks = ranks;
    proof {
        lemma_distribution(g);
    }
    if ranks.len() == 0 {
        return ;
    }
    let ghost unsorted = ranks@;
    sort_ranks(&mut ranks);
    proof {
        lemma_ascending_is_total();
        unsorted.lemma_sort_by_ensures(ascending());
        assert(sorted_by(ranks@, ascending()));
        lemma_sorted_unique(ranks@, distribution(g), ascending());
    }
    let n = ranks.len();
    let half = (n - 1) / 2;
    let k = if tail <= half {
        tail
    } else {
        half
    };
    let low = ranks[k];
    let high = ranks[n - 1 - k];
    proof {
        lemma_distribution_source(g, k as int);
        lemma_distribution_source(g, n - 1 - k);
    }
    clamp_grid(grid, low, high);
    proof {
        assert(grid@.rows =~= clipped(g, tail as nat).rows);
    }
}

/// Clips the tails of the value distribution: `tail` values are cut from
/// each end (fewer where the two cuts would cross), and every cell that
/// takes part is clamped to the smallest and largest value that remain.
/// Missing cells and cells that encode no number neither count nor change.
pub fn clip_tails(grid: &mut Grid, tail: usize)
    ensures
        final(grid)@ == clipped(old(grid)@, tail as nat),
{
    let ranks = gather_ranks(grid);
    clip_with(grid, ranks, tail);
}

/// Clips the tails of the value distribution by the clip amount: that
/// percentage of the values is cut from each end. Nothing happens unless the
/// amount is above zero.
pub fn clip_percent(grid: &mut Grid, clip: ClipParameter)
    ensures
        final(grid)@ == clipped_by_percent(old(grid)@, clip.percent()),
{
    if !clip.is_active() {
        return ;
    }
    let ranks = gather_ranks(grid);
    proof {
        lemma_distribution(grid@);
    }
    let tail = clip.tail_count(ranks.len());
    clip_with(grid, ranks, tail);
}

/// Clipping tails of no values leaves the grid as it is.
pub proof fn lemma_clip_nothing(g: GridView)
    ensures
        clipped(g, 0) == g,
{
    let d = distribution(g);
    lemma_distribution(g);
    if d.len() > 0 {
        let low = d[0];
        let high = d[d.len() - 1];
        assert forall|r: int| 0 <= r < g.rows.len() implies clamp_row(
            g.rows[r],
            g.nodata,
            low,
            high,
        ) =~= g.rows[r] by {
            assert forall|c: int| 0 <= c < g.rows[r].len() implies clamp_cell(
                g.rows[r][c],
                g.nodata,
                low,
                high,
            ) == g.rows[r][c] by {
                if counts(g.rows[r][c], g.nodata) {
                    lemma_cell_in_distribution(g, r, c);
                    lemma_rank_fits(g.rows[r][c]);
                    let x = spec_rank(g.rows[r][c]) as i64;
                    let i = choose|i: int| 0 <= i < d.len() && d[i] == x;
                    assert(d[0] <= d[i] <= d[d.len() - 1]);
                }
            }
        }
        assert(clipped(g, 0).rows =~= g.rows);
    }
}

/// Wider tails never widen the cutoffs: with `narrow <= wide`, the cutoffs
/// for `wide` lie between the cutoffs for `narrow`, and the low cutoff never
/// exceeds the high one.
pub proof fn lemma_cutoffs_narrow(g: GridView, narrow: nat, wide: nat)
    requires
        narrow <= wide,
    ensures
        cutoffs(g, narrow).is_some() == cutoffs(g, wide).is_some(),
        cutoffs(g, narrow).is_some() ==> {
            let (low1, high1) = cutoffs(g, narrow).unwrap();
            let (low2, high2) = cutoffs(g, wide).unwrap();
            low1 <= low2 <= high2 <= high1
        },
{
    lemma_distribution(g);
}

/// After clipping, every cell takes part exactly if it did before, and
/// every cell that takes part lies within the cutoffs.
pub proof fn lemma_clipped_within_cutoffs(g: GridView, tail: nat, r: int, c: int)
    requires
        0 <= r < g.rows.len(),
        0 <= c < g.rows[r].len(),
    ensures
        counts(clipped(g, tail).rows[r][c], g.nodata) == counts(g.rows[r][c], g.nodata),
        counts(g.rows[r][c], g.nodata) ==> cutoffs(g, tail).is_some() && {
            let (low, high) = cutoffs(g, tail).unwrap();
            low <= spec_rank(clipped(g, tail).rows[r][c]) <= high
        },
{
    lemma_distribution(g);
    let d = distribution(g);
    if counts(g.rows[r][c], g.nodata) {
        lemma_cell_in_distribution(g, r, c);
        let k = tail_index(d.len(), tail) as int;
        let at_low = lemma_distribution_source(g, k);
        let at_high = lemma_distribution_source(g, d.len() - 1 - k);
        lemma_from_rank(d[k] as int);
        lemma_from_rank(d[d.len() - 1 - k] as int);
        lemma_clamped_rank_takes_part(g, at_low.0, at_low.1);
        lemma_clamped_rank_takes_part(g, at_high.0, at_high.1);
    }
}

/// The canonical pattern of the rank of a cell that takes part takes part
/// as well.
proof fn lemma_clamped_rank_takes_part(g: GridView, r: int, c: int)
    requires
        0 <= r < g.rows.len(),
        0 <= c < g.rows[r].len(),
        counts(g.rows[r][c], g.nodata),
    ensures
        counts(spec_from_rank(spec_rank(g.rows[r][c])), g.nodata),
{
    crate::sample::lemma_rank_range(g.rows[r][c]);
    lemma_from_rank(spec_rank(g.rows[r][c]));
}

/// Both cutoffs are attained after clipping: some cell holds the low cutoff
/// and some cell the high one, so the clipped grid's values span exactly the
/// range between the cutoffs.
pub proof fn lemma_cutoffs_attained(g: GridView, tail: nat) -> (at: ((int, int), (int, int)))
    requires
        cutoffs(g, tail).is_some(),
    ensures
        0 <= at.0.0 < g.rows.len() && 0 <= at.0.1 < g.rows[at.0.0].len(),
        0 <= at.1.0 < g.rows.len() && 0 <= at.1.1 < g.rows[at.1.0].len(),
        counts(clipped(g, tail).rows[at.0.0][at.0.1], g.nodata),
        counts(clipped(g, tail).rows[at.1.0][at.1.1], g.nodata),
        spec_rank(clipped(g, tail).rows[at.0.0][at.0.1]) == cutoffs(g, tail).unwrap().0,
        spec_rank(clipped(g, tail).rows[at.1.0][at.1.1]) == cutoffs(g, tail).unwrap().1,
{
    lemma_distribution(g);
    let d = distribution(g);
    let k = tail_index(d.len(), tail) as int;
    let at_low = lemma_distribution_source(g, k);
    let at_high = lemma_distribution_source(g, d.len() - 1 - k);
    (at_low, at_high)
}

/// The value range of a clipped grid is exactly the pair of cutoffs.
pub proof fn lemma_clipped_range(g: GridView, tail: nat)
    ensures
        value_range(clipped(g, tail)) == cutoffs(g, tail),
{
    lemma_distribution(g);
    if cutoffs(g, tail).is_some() {
        let after = clipped(g, tail);
        let (low, high) = cutoffs(g, tail).unwrap();
        let at = lemma_cutoffs_attained(g, tail);
        lemma_distribution(after);
        lemma_cell_in_distribution(after, at.0.0, at.0.1);
        lemma_cell_in_distribution(after, at.1.0, at.1.1);
        let d = distribution(after);
        let i_low = choose|i: int| 0 <= i < d.len() && d[i] == low;
        let i_high = choose|i: int| 0 <= i < d.len() && d[i] == high;
        let first = lemma_distribution_source(after, 0);
        let last = lemma_distribution_source(after, d.len() - 1);
        lemma_clipped_within_cutoffs(g, tail, first.0, first.1);
        lemma_clipped_within_cutoffs(g, tail, last.0, last.1);
        assert(d[0] <= d[i_low]);
        assert(d[i_high] <= d[d.len() - 1]);
    } else {
        assert(clipped(g, tail) == g);
    }
}

/// A clip amount that is not a number above zero, zero itself included,
/// leaves the grid as it is.
pub proof fn lemma_inactive_clip_changes_nothing(g: GridView, percent: u64)
    requires
        !spec_is_active(percent),
    ensures
        clipped_by_percent(g, percent) == g,
{
}

/// Of two clip amounts above zero the larger never leaves a wider value
/// range than the smaller.
pub proof fn lemma_larger_clip_narrows(g: GridView, smaller: u64, larger: u64)
    requires
        spec_is_active(smaller),
        spec_precedes(smaller, larger),
    ensures
        range_within(
            value_range(clipped_by_percent(g, larger)),
            value_range(clipped_by_percent(g, smaller)),
        ),
{
    let n = distribution(g).len();
    lemma_tail_cells_monotone(smaller, larger, n);
    lemma_cutoffs_narrow(g, tail_cells(smaller, n), tail_cells(larger, n));
    lemma_clipped_range(g, tail_cells(smaller, n));
    lemma_clipped_range(g, tail_cells(larger, n));
}

} // verus!
