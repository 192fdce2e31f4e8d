use roberts_cross::collector::Collector;
use roberts_cross::grid::Grid;
use roberts_cross::host::{partition_for_host, run_on_host};
use roberts_cross::kernel::{edge_block, Stencil};
use roberts_cross::partition::{partition_rows, RowBlock};
use roberts_cross::percent::ClipParameter;
use roberts_cross::pipeline::{filter, filter_blocks, run};

const NODATA: f64 = -32768.0;

fn gradient(s: Stencil) -> u64 {
    let z1 = f64::from_bits(s.z1);
    let z2 = f64::from_bits(s.z2);
    let z3 = f64::from_bits(s.z3);
    let z4 = f64::from_bits(s.z4);
    ((z1 - z4).abs() + (z2 - z3).abs()).to_bits()
}

fn terrain(rows: usize, columns: usize) -> Grid {
    let mut cells = Vec::new();
    for r in 0..rows {
        let mut row = Vec::new();
        for c in 0..columns {
            let v = if (r * 7 + c * 3) % 11 == 0 {
                NODATA
            } else {
                ((r * r) as f64) * 0.5 + (c as f64) * 1.25 - ((r * c) as f64) * 0.125
            };
            row.push(v.to_bits());
        }
        cells.push(row);
    }
    Grid::from_rows(columns, NODATA.to_bits(), cells).unwrap()
}

fn cells_of(g: &Grid) -> Vec<Vec<u64>> {
    (0..g.rows()).map(|r| g.row(r)).collect()
}

fn reference(g: &Grid) -> Vec<Vec<u64>> {
    let at = |r: usize, c: usize| f64::from_bits(g.cell(r, c));
    let mut out = Vec::new();
    for r in 0..g.rows() {
        let mut row = Vec::new();
        for c in 0..g.columns() {
            let z1 = at(r, c);
            if z1 == NODATA {
                row.push(NODATA.to_bits());
                continue;
            }
            let pick = |v: f64| if v == NODATA { z1 } else { v };
            let z2 = pick(at(r, c + 1));
            let z3 = pick(at(r + 1, c));
            let z4 = pick(at(r + 1, c + 1));
            row.push(((z1 - z4).abs() + (z2 - z3).abs()).to_bits());
        }
        out.push(row);
    }
    out
}

#[test]
fn filter_of_a_small_grid() {
    let g = Grid::from_rows(
        2,
        NODATA.to_bits(),
        vec![
            vec![10.0f64.to_bits(), 20.0f64.to_bits()],
            vec![30.0f64.to_bits(), 40.0f64.to_bits()],
        ],
    )
    .unwrap();
    let out = filter(&g, 1, &gradient);
    assert_eq!(
        cells_of(&out),
        vec![
            vec![40.0f64.to_bits(), 20.0f64.to_bits()],
            vec![10.0f64.to_bits(), 0.0f64.to_bits()],
        ]
    );
    assert_eq!(out.nodata(), NODATA.to_bits());
}

#[test]
fn filter_agrees_with_a_direct_computation() {
    let g = terrain(13, 9);
    let out = filter(&g, 4, &gradient);
    assert_eq!(out.rows(), 13);
    assert_eq!(out.columns(), 9);
    assert_eq!(cells_of(&out), reference(&g));
}

#[test]
fn worker_count_does_not_change_the_output() {
    let g = terrain(17, 6);
    let single = cells_of(&filter(&g, 1, &gradient));
    for workers in 2..40 {
        let shared = cells_of(&filter(&g, workers, &gradient));
        assert_eq!(shared, single, "workers {}", workers);
    }
}

#[test]
fn filter_of_an_empty_grid_is_empty() {
    let g = Grid::new(0, 4, NODATA.to_bits());
    let out = filter(&g, 3, &gradient);
    assert_eq!(out.rows(), 0);
    assert_eq!(out.columns(), 4);
    let g = Grid::new(3, 0, NODATA.to_bits());
    let out = filter(&g, 2, &gradient);
    assert_eq!(out.rows(), 3);
    assert_eq!(out.columns(), 0);
}

#[test]
fn filter_of_an_all_missing_grid_is_all_missing() {
    let g = Grid::new(4, 4, NODATA.to_bits());
    let out = filter(&g, 3, &gradient);
    for r in 0..4 {
        for c in 0..4 {
            assert_eq!(out.cell(r, c), NODATA.to_bits());
        }
    }
}

#[test]
fn filter_blocks_accepts_any_tiling() {
    let g = terrain(10, 5);
    let blocks = vec![
        RowBlock { start: 0, end: 1 },
        RowBlock { start: 1, end: 1 },
        RowBlock { start: 1, end: 8 },
        RowBlock { start: 8, end: 10 },
    ];
    let out = filter_blocks(&g, &blocks, &gradient);
    assert_eq!(cells_of(&out), reference(&g));
}

#[test]
fn results_collected_out_of_order_give_the_same_output() {
    let g = terrain(11, 4);
    let blocks = partition_rows(g.rows(), 3);
    let mut messages = Vec::new();
    for b in blocks.iter().rev() {
        let mut part = edge_block(&g, *b, &gradient);
        part.reverse();
        messages.extend(part);
    }
    assert_eq!(messages.len(), g.rows());
    let mut collector = Collector::new(&g);
    for m in messages.iter() {
        assert!(collector.accept(m));
    }
    assert!(collector.is_complete());
    let out = collector.finish().unwrap();
    assert_eq!(cells_of(&out), cells_of(&filter(&g, 1, &gradient)));
}

#[test]
fn blocks_produce_one_message_per_row_for_any_worker_count() {
    let g = terrain(23, 3);
    for workers in 1..30 {
        let mut seen = vec![0usize; g.rows()];
        let mut count = 0;
        for b in partition_rows(g.rows(), workers) {
            for m in edge_block(&g, b, &gradient) {
                seen[m.row] += 1;
                count += 1;
            }
        }
        assert_eq!(count, g.rows());
        assert!(seen.iter().all(|n| *n == 1));
    }
}

#[test]
fn host_pool_has_at_least_one_worker() {
    let (workers, blocks) = partition_for_host(100);
    assert!(workers >= 1);
    assert_eq!(blocks.len(), partition_rows(100, workers).len());
    let total: usize = blocks.iter().map(|b| b.len()).sum();
    assert_eq!(total, 100);
    assert_eq!(blocks[0].start, 0);
    assert_eq!(blocks[blocks.len() - 1].end, 100);
}

#[test]
fn run_on_host_without_clip_equals_single_worker_filter() {
    let g = terrain(19, 7);
    let here = cells_of(&run_on_host(&g, ClipParameter::default(), &gradient));
    let single = cells_of(&filter(&g, 1, &gradient));
    assert_eq!(here, single);
}

#[test]
fn run_on_host_equals_run_with_any_worker_count() {
    let g = terrain(19, 7);
    let here = cells_of(&run_on_host(&g, ClipParameter::new(12.5f64.to_bits()), &gradient));
    for workers in 1..9 {
        assert_eq!(cells_of(&run(&g, workers, ClipParameter::new(12.5f64.to_bits()), &gradient)), here);
    }
}

#[test]
fn run_filters_and_then_clips() {
    let g = Grid::from_rows(
        3,
        NODATA.to_bits(),
        vec![
            vec![0.0f64.to_bits(), 1.0f64.to_bits(), 3.0f64.to_bits()],
            vec![6.0f64.to_bits(), 10.0f64.to_bits(), NODATA.to_bits()],
        ],
    )
    .unwrap();
    // Edge values: 10+5, 0+7, 0 / 4, 0, missing.
    let plain = run(&g, 2, ClipParameter::new(0.0f64.to_bits()), &gradient);
    assert_eq!(
        cells_of(&plain),
        vec![
            vec![15.0f64.to_bits(), 7.0f64.to_bits(), 0.0f64.to_bits()],
            vec![4.0f64.to_bits(), 0.0f64.to_bits(), NODATA.to_bits()],
        ]
    );
    // Five values; 20 per cent cuts one from each end: 0 0 4 7 15 -> [0, 7].
    let clipped = run(&g, 2, ClipParameter::new(20.0f64.to_bits()), &gradient);
    assert_eq!(
        cells_of(&clipped),
        vec![
            vec![7.0f64.to_bits(), 7.0f64.to_bits(), 0.0f64.to_bits()],
            vec![4.0f64.to_bits(), 0.0f64.to_bits(), NODATA.to_bits()],
        ]
    );
    let negative = run(&g, 2, ClipParameter::new((-20.0f64).to_bits()), &gradient);
    assert_eq!(cells_of(&negative), cells_of(&plain));
}
