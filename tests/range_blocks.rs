use hexgrid::range_blocks::{
    get_cell_offset, AcceptAll, BlockFilter, max_recursion_level, next_complete_largest_range_block, next_range_block,
    range_block_corners, range_block_size, CellCoords, CompleteLargestRangeBlockIterator,
    RangeBlockIterator,
};
use std::collections::HashSet;

/// Rejects one block.
struct RejectBlock {
    index: u64,
    count: u64,
}

impl BlockFilter for RejectBlock {
    fn spec_accepts(&self, index: u64, count: u64) -> bool {
        self.accepts(index, count)
    }

    fn accepts(&self, index: u64, count: u64) -> bool {
        !(index == self.index && count == self.count)
    }
}

/// Passes every block above a single cell, and the cells at odd offsets.
struct OddCells;

impl BlockFilter for OddCells {
    fn spec_accepts(&self, index: u64, count: u64) -> bool {
        self.accepts(index, count)
    }

    fn accepts(&self, index: u64, count: u64) -> bool {
        count > 1 || index % 2 == 1
    }
}

/// Passes nothing.
struct RejectAll;

impl BlockFilter for RejectAll {
    fn spec_accepts(&self, index: u64, count: u64) -> bool {
        self.accepts(index, count)
    }

    fn accepts(&self, _index: u64, _count: u64) -> bool {
        false
    }
}

fn c(x: u64, y: u64) -> CellCoords {
    CellCoords { x, y }
}

#[test]
fn cell_offsets_follow_the_digit_layout() {
    assert_eq!(get_cell_offset(0, 4), c(0, 0));
    assert_eq!(get_cell_offset(1, 4), c(1, 0));
    assert_eq!(get_cell_offset(3, 4), c(3, 0));
    assert_eq!(get_cell_offset(4, 4), c(0, 1));
    assert_eq!(get_cell_offset(15, 4), c(3, 3));
    assert_eq!(get_cell_offset(16, 4), c(4, 0));
    assert_eq!(get_cell_offset(17, 4), c(5, 0));
    assert_eq!(get_cell_offset(20, 4), c(4, 1));
    assert_eq!(get_cell_offset(32, 4), c(8, 0));
    assert_eq!(get_cell_offset(64, 4), c(0, 4));
    assert_eq!(get_cell_offset(255, 4), c(15, 15));
    assert_eq!(get_cell_offset(256, 4), c(16, 0));
    assert_eq!(get_cell_offset(5, 2), c(3, 0));
    assert_eq!(get_cell_offset(6, 2), c(2, 1));
}

#[test]
fn cell_offsets_are_distinct_below_the_top_block() {
    for b in [2u64, 3, 4] {
        let n = range_block_size(3, b);
        let mut seen = HashSet::new();
        for i in 0..n {
            let cell = get_cell_offset(i, b);
            assert!(cell.x < b * b * b && cell.y < b * b * b);
            assert!(seen.insert(cell));
        }
        assert_eq!(seen.len() as u64, n);
    }
}

#[test]
fn corners_of_blocks() {
    assert_eq!(range_block_corners(0, 1, 4), (c(0, 0), c(1, 1)));
    assert_eq!(range_block_corners(16, 16, 4), (c(4, 0), c(8, 4)));
    assert_eq!(range_block_corners(0, 256, 4), (c(0, 0), c(16, 16)));
    assert_eq!(range_block_corners(256, 256, 4), (c(16, 0), c(32, 16)));
}

#[test]
fn block_sizes_and_max_levels() {
    assert_eq!(range_block_size(0, 4), 1);
    assert_eq!(range_block_size(1, 4), 16);
    assert_eq!(range_block_size(2, 4), 256);
    assert_eq!(range_block_size(3, 2), 64);
    assert_eq!(max_recursion_level(0, 4), 0);
    assert_eq!(max_recursion_level(1, 4), 0);
    assert_eq!(max_recursion_level(2, 4), 1);
    assert_eq!(max_recursion_level(16, 4), 1);
    assert_eq!(max_recursion_level(17, 4), 2);
    assert_eq!(max_recursion_level(256, 4), 2);
    assert_eq!(max_recursion_level(257, 4), 3);
    assert_eq!(max_recursion_level(10_256, 4), 4);
    assert_eq!(max_recursion_level(u64::MAX, 4), 16);
    assert_eq!(max_recursion_level(u64::MAX, 2), 32);
}

#[test]
fn max_level_is_the_smallest_covering_level() {
    for b in [2u64, 3, 4, 7] {
        for n in 0..2000u64 {
            let l = max_recursion_level(n, b);
            assert!(range_block_size(l, b) >= n);
            assert!(l == 0 || range_block_size(l - 1, b) < n);
        }
    }
}

#[test]
fn unfiltered_blocks_tile_the_buffer() {
    for (n, level) in [(0u64, 0u32), (1, 0), (40, 1), (48, 1), (49, 1), (300, 2), (256, 2)] {
        let size = range_block_size(level, 4);
        let mut iter = RangeBlockIterator::new(0, n, level, 2, 4, AcceptAll);
        let mut blocks = Vec::new();
        while let Some(block) = iter.next() {
            blocks.push(block);
        }
        let expected: Vec<(u64, u64)> = (0..n.div_ceil(size)).map(|k| (k * size, size)).collect();
        assert_eq!(blocks, expected);
        assert!(iter.next().is_none());
    }
}

#[test]
fn filter_prunes_whole_blocks() {
    // Reject the second level-one block: its sixteen cells are skipped at once.
    let filter = RejectBlock { index: 16, count: 16 };
    let mut iter = RangeBlockIterator::new(0, 48, 0, 1, 4, filter);
    let mut blocks = Vec::new();
    while let Some(block) = iter.next() {
        blocks.push(block);
    }
    let expected: Vec<(u64, u64)> = (0..16).chain(32..48).map(|i| (i, 1)).collect();
    assert_eq!(blocks, expected);

    // A rejected cell is skipped alone.
    let only_odd = OddCells;
    assert_eq!(next_range_block(0, 48, 0, 1, 4, &only_odd), Some((1, 1)));
    assert_eq!(next_range_block(2, 48, 0, 1, 4, &only_odd), Some((3, 1)));
    // Rounding up to the target alignment.
    assert_eq!(next_range_block(1, 48, 1, 1, 4, &AcceptAll), Some((16, 16)));
    assert_eq!(next_range_block(33, 48, 1, 1, 4, &AcceptAll), None);
    // An accept-all filter finds the next aligned block.
    assert_eq!(next_range_block(17, 300, 1, 2, 4, &AcceptAll), Some((32, 16)));
    assert_eq!(next_range_block(0, 300, 2, 2, 4, &AcceptAll), Some((0, 256)));
    assert_eq!(next_range_block(1, 300, 2, 2, 4, &AcceptAll), Some((256, 256)));
    assert_eq!(next_range_block(257, 300, 2, 2, 4, &AcceptAll), None);
    // Rejecting everything finds nothing.
    assert_eq!(next_range_block(0, 48, 0, 2, 4, &RejectAll), None);
}

#[test]
fn largest_complete_blocks_tile_a_range() {
    assert_eq!(next_complete_largest_range_block(0, 256, 2, 4), Some((0, 256)));
    assert_eq!(next_complete_largest_range_block(0, 255, 2, 4), Some((0, 16)));
    assert_eq!(next_complete_largest_range_block(3, 100, 2, 4), Some((3, 1)));
    assert_eq!(next_complete_largest_range_block(16, 100, 2, 4), Some((16, 16)));
    assert_eq!(next_complete_largest_range_block(256, 600, 1, 4), Some((256, 16)));
    assert_eq!(next_complete_largest_range_block(5, 5, 2, 4), None);
    assert_eq!(next_complete_largest_range_block(7, 5, 2, 4), None);

    let mut iter = CompleteLargestRangeBlockIterator::new(3, 300, 2, 4);
    let mut blocks = Vec::new();
    while let Some(block) = iter.next() {
        blocks.push(block);
    }
    let mut expected: Vec<(u64, u64)> = (3..16).map(|i| (i, 1)).collect();
    expected.extend((1..16).map(|k| (k * 16, 16)));
    expected.push((256, 16));
    expected.push((272, 16));
    expected.extend((288..300).map(|i| (i, 1)));
    assert_eq!(blocks, expected);
    let total: u64 = blocks.iter().map(|b| b.1).sum();
    assert_eq!(total, 297);
}

#[test]
fn largest_complete_tiling_is_contiguous_and_exact() {
    for start in 0..70u64 {
        for limit in start..300u64 {
            let mut iter = CompleteLargestRangeBlockIterator::new(start, limit, 2, 4);
            let mut at = start;
            while let Some((index, count)) = iter.next() {
                assert_eq!(index, at);
                assert_eq!(index % count, 0);
                at = index + count;
            }
            assert_eq!(at, limit);
        }
    }
}
