use hexgrid::aggregate::{Cacheable, RangeBlockCache, RangeBlockColorSum, RangeBlockDiff, RangeBlockSum};
use hexgrid::range_blocks::{max_recursion_level, range_block_size};

fn channels(byte: u8) -> (u64, u64, u64) {
    ((byte & 0b1100_0000) as u64, ((byte & 0b0011_1000) << 2) as u64, ((byte & 0b0000_0111) << 5) as u64)
}

#[test]
fn sequential_buffer_sums_agree_at_every_level() {
    let data: Vec<u8> = (0..=255u8).collect();
    assert_eq!(max_recursion_level(data.len() as u64, 4), 2);
    let sum = RangeBlockSum::new(&data);
    assert_eq!(sum.block_sum(0, 256), 32640);
    assert_eq!(sum.value(0, 256), 32640);
    let cache = RangeBlockCache::generate(&sum, data.len(), 4);
    assert_eq!(cache.get(0, 256), Some(32640));
    for level in 0..=2u32 {
        let size = range_block_size(level, 4);
        let mut total = 0;
        for k in 0..256 / size {
            let direct = sum.value(k * size, size);
            if level == 2 {
                assert_eq!(cache.get(k * size, size), Some(direct));
            } else {
                assert_eq!(cache.get(k * size, size), None);
            }
            total += cache.get(k * size, size).unwrap_or(direct);
        }
        assert_eq!(total, 32640);
    }
    let cache = RangeBlockCache::generate_from_level(&sum, data.len(), 4, 0);
    for level in 0..=2u32 {
        let size = range_block_size(level, 4);
        let total: u64 = (0..256 / size).map(|k| cache.get(k * size, size).unwrap()).sum();
        assert_eq!(total, 32640);
    }
}

#[test]
fn sums_clamp_to_the_buffer() {
    let data: Vec<u8> = vec![10, 20, 30, 40, 50];
    let sum = RangeBlockSum::new(&data);
    assert_eq!(sum.block_sum(1, 2), 50);
    assert_eq!(sum.block_sum(3, 16), 90);
    assert_eq!(sum.block_sum(5, 16), 0);
    assert_eq!(sum.block_sum(u64::MAX, u64::MAX), 0);
    assert_eq!(sum.value_from_sub_blocks(&[1, 2, 3]), 6);
    assert_eq!(sum.value_from_sub_blocks(&[]), 0);
}

#[test]
fn combining_children_equals_the_parent() {
    let data: Vec<u8> = (0..1000u32).map(|i| (i * 7 % 251) as u8).collect();
    let sum = RangeBlockSum::new(&data);
    let diff_other: Vec<u8> = (0..900u32).map(|i| (i * 5 % 13) as u8).collect();
    let diff = RangeBlockDiff::new(&data, &diff_other);
    let color = RangeBlockColorSum::new(&data, channels);
    for level in 1..=3u32 {
        let size = range_block_size(level, 4);
        let sub = size / 16;
        let mut index = 0;
        while index < 1100 {
            let children: Vec<u64> = (0..16).map(|j| sum.value(index + j * sub, sub)).collect();
            assert_eq!(sum.value_from_sub_blocks(&children), sum.value(index, size));
            let children: Vec<(u64, u64, u64)> =
                (0..16).map(|j| color.value(index + j * sub, sub)).collect();
            assert_eq!(color.value_from_sub_blocks(&children), color.value(index, size));
            let children: Vec<Option<usize>> =
                (0..16).map(|j| diff.value(index + j * sub, sub)).collect();
            assert_eq!(diff.value_from_sub_blocks(&children), diff.value(index, size));
            index += size;
        }
    }
}

#[test]
fn color_sums() {
    let data: Vec<u8> = vec![0xff, 0x00, 0x41];
    let color = RangeBlockColorSum::new(&data, channels);
    assert_eq!(color.block_color_sum(0, 1), (192, 224, 224));
    assert_eq!(color.block_color_sum(0, 3), (192 + 64, 224, 224 + 32));
    assert_eq!(color.block_color_sum(3, 3), (0, 0, 0));
    assert_eq!(color.value_from_sub_blocks(&[(1, 2, 3), (10, 20, 30)]), (11, 22, 33));
    let cache = RangeBlockCache::generate_from_level(&color, data.len(), 2, 0);
    assert_eq!(cache.get(0, 4), Some((192 + 64, 224, 224 + 32)));
    assert_eq!(cache.get(2, 1), Some((64, 0, 32)));
}

#[test]
fn one_differing_byte() {
    let data0: Vec<u8> = (0..300u32).map(|i| i as u8).collect();
    let mut data1 = data0.clone();
    data1[10] ^= 0xff;
    data1.truncate(200);
    let diff = RangeBlockDiff::new(&data0, &data1);
    assert_eq!(diff.block_diff(0, 16), Some(1));
    assert_eq!(diff.block_diff(10, 1), Some(1));
    assert_eq!(diff.block_diff(0, 256), Some(1));
    assert_eq!(diff.block_diff(16, 16), Some(0));
    assert_eq!(diff.block_diff(11, 5), Some(0));
    assert_eq!(diff.block_diff(192, 16), Some(0));
    assert_eq!(diff.block_diff(208, 16), None);
    assert_eq!(diff.block_diff(200, 1), None);
    assert_eq!(diff.value_from_sub_blocks(&[Some(2), None, Some(3)]), Some(5));
    assert_eq!(diff.value_from_sub_blocks(&[None, None]), None);
    assert_eq!(diff.value_from_sub_blocks(&[]), None);
    assert_eq!(diff.value_from_sub_blocks(&[Some(0), None]), Some(0));

    let cache = RangeBlockCache::generate(&diff, 300, 4);
    assert_eq!(cache.get(0, 256), Some(Some(1)));
    assert_eq!(cache.get(256, 256), Some(None));
    assert_eq!(cache.get(0, 16), None);
    assert_eq!(diff.value(256, 256), None);

    // Every cached level agrees with the direct count, absent blocks included.
    let cache = RangeBlockCache::generate_from_level(&diff, 5000, 4, 0);
    for level in 0..=4u32 {
        let size = range_block_size(level, 4);
        let mut index = 0;
        while index < 5000 {
            assert_eq!(cache.get(index, size), Some(diff.value(index, size)));
            index += size;
        }
    }
    assert_eq!(cache.get(4096, 4096), Some(None));
    assert_eq!(cache.get(0, 4096), Some(Some(1)));
}

#[test]
fn empty_cache() {
    let cache: RangeBlockCache<u64> = RangeBlockCache::new();
    assert_eq!(cache.get(0, 1), None);
    let data: Vec<u8> = Vec::new();
    let sum = RangeBlockSum::new(&data);
    let cache = RangeBlockCache::generate(&sum, 0, 4);
    assert_eq!(cache.get(0, 1), None);
    assert_eq!(cache.get(0, 256), None);
}
