use roberts_cross::partition::{partition_rows, RowBlock};

fn spans(blocks: &[RowBlock]) -> Vec<(usize, usize)> {
    blocks.iter().map(|b| (b.start, b.end)).collect()
}

#[test]
fn exact_division_gives_one_block_per_worker() {
    let blocks = partition_rows(12, 4);
    assert_eq!(spans(&blocks), vec![(0, 3), (3, 6), (6, 9), (9, 12)]);
}

#[test]
fn remainder_goes_to_one_extra_block() {
    let blocks = partition_rows(10, 3);
    assert_eq!(spans(&blocks), vec![(0, 3), (3, 6), (6, 9), (9, 10)]);
}

#[test]
fn extra_block_may_be_larger_than_the_regular_ones() {
    let blocks = partition_rows(7, 4);
    assert_eq!(spans(&blocks), vec![(0, 1), (1, 2), (2, 3), (3, 4), (4, 7)]);
}

#[test]
fn empty_grid_has_no_blocks() {
    assert!(partition_rows(0, 1).is_empty());
    assert!(partition_rows(0, 8).is_empty());
}

#[test]
fn fewer_rows_than_workers_leaves_regular_blocks_empty() {
    let blocks = partition_rows(2, 4);
    assert_eq!(spans(&blocks), vec![(0, 0), (0, 0), (0, 0), (0, 0), (0, 2)]);
}

#[test]
fn single_worker_takes_every_row() {
    assert_eq!(spans(&partition_rows(5, 1)), vec![(0, 5)]);
}

#[test]
fn one_row_per_worker() {
    assert_eq!(spans(&partition_rows(3, 3)), vec![(0, 1), (1, 2), (2, 3)]);
}

#[test]
fn block_count_is_worker_count_or_one_more() {
    for rows in 1..80usize {
        for workers in 1..20usize {
            let blocks = partition_rows(rows, workers);
            let expected = if rows % workers == 0 { workers } else { workers + 1 };
            assert_eq!(blocks.len(), expected, "rows {} workers {}", rows, workers);
        }
    }
}

#[test]
fn every_row_lies_in_exactly_one_block() {
    for rows in 0..80usize {
        for workers in 1..20usize {
            let blocks = partition_rows(rows, workers);
            for row in 0..rows {
                let owners = blocks.iter().filter(|b| b.contains(row)).count();
                assert_eq!(owners, 1, "rows {} workers {} row {}", rows, workers, row);
            }
            for b in blocks.iter() {
                assert!(b.start <= b.end && b.end <= rows);
            }
        }
    }
}

#[test]
fn blocks_hold_as_many_rows_as_the_grid() {
    for rows in 0..80usize {
        for workers in 1..20usize {
            let total: usize = partition_rows(rows, workers).iter().map(|b| b.len()).sum();
            assert_eq!(total, rows);
        }
    }
}

#[test]
fn blocks_follow_one_another() {
    let blocks = partition_rows(1000, 7);
    let mut next = 0;
    for b in blocks.iter() {
        assert_eq!(b.start, next);
        next = b.end;
    }
    assert_eq!(next, 1000);
}

#[test]
fn regular_blocks_have_the_truncated_quotient_of_rows() {
    let blocks = partition_rows(1000, 7);
    for b in blocks.iter().take(7) {
        assert_eq!(b.len(), 142);
    }
    assert_eq!(blocks[7].len(), 6);
}

#[test]
fn row_block_membership_and_size() {
    let b = RowBlock { start: 3, end: 6 };
    assert!(!b.contains(2));
    assert!(b.contains(3));
    assert!(b.contains(5));
    assert!(!b.contains(6));
    assert_eq!(b.len(), 3);
    assert!(!b.is_empty());
    let e = RowBlock { start: 4, end: 4 };
    assert_eq!(e.len(), 0);
    assert!(e.is_empty());
    assert!(!e.contains(4));
    let inverted = RowBlock { start: 5, end: 2 };
    assert_eq!(inverted.len(), 0);
    assert!(inverted.is_empty());
    assert!(!inverted.contains(3));
}

#[test]
fn huge_grid_is_split_without_overflow() {
    let blocks = partition_rows(usize::MAX, 2);
    assert_eq!(blocks.len(), 3);
    assert_eq!(blocks[0].start, 0);
    assert_eq!(blocks[1].end, usize::MAX - 1);
    assert_eq!(blocks[2].start, usize::MAX - 1);
    assert_eq!(blocks[2].end, usize::MAX);
}
