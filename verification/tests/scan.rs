use tiled_scan::add_to_each;
use tiled_scan::default_tile_size;
use tiled_scan::exclusive_scan;
use tiled_scan::flat_scan;
use tiled_scan::flatten;
use tiled_scan::reduce_tile;
use tiled_scan::scan_rss_tiled;
use tiled_scan::scan_seeded;
use tiled_scan::scan_sst_tiled;
use tiled_scan::split_tiles;
use tiled_scan::sum_scan_rss;
use tiled_scan::sum_scan_ssm;

/// The reference: a straightforward single-pass running sum.
fn running_sum(v: &[i32]) -> Vec<i32> {
    let mut out = Vec::new();
    let mut acc = 0i32;
    for &x in v {
        acc += x;
        out.push(acc);
    }
    out
}

fn range_vec(lo: i32, hi: i32) -> Vec<i32> {
    let mut v = Vec::new();
    let mut x = lo;
    while x <= hi {
        v.push(x);
        x += 1;
    }
    v
}

#[test]
fn test_scan_ssm() {
    let v8 = range_vec(1, 8);
    assert_eq!(running_sum(&v8), sum_scan_ssm(v8.clone()));
    let v64 = range_vec(1, 64);
    assert_eq!(running_sum(&v64), sum_scan_ssm(v64.clone()));
}

#[test]
fn test_sum_scan_rss() {
    let v8 = range_vec(1, 8);
    assert_eq!(running_sum(&v8), sum_scan_rss(v8.clone()));
    let v64 = range_vec(1, 64);
    assert_eq!(running_sum(&v64), sum_scan_rss(v64.clone()));
}

#[test]
fn test_empty_input() {
    assert_eq!(sum_scan_ssm(vec![]), Vec::<i32>::new());
    assert_eq!(sum_scan_rss(vec![]), Vec::<i32>::new());
    assert_eq!(flat_scan(&vec![]), Vec::<i32>::new());
}

#[test]
fn test_single_element() {
    assert_eq!(sum_scan_ssm(vec![7]), vec![7]);
    assert_eq!(sum_scan_rss(vec![7]), vec![7]);
    assert_eq!(sum_scan_ssm(vec![-3]), vec![-3]);
    assert_eq!(sum_scan_rss(vec![-3]), vec![-3]);
}

#[test]
fn test_exact_tile_multiple() {
    // length an exact multiple of the tile size: one tile of 32 ...
    let v32 = range_vec(1, 32);
    assert_eq!(running_sum(&v32), scan_sst_tiled(&v32, 32));
    assert_eq!(running_sum(&v32), scan_rss_tiled(&v32, 32));
    // ... behaves like one element past the multiple: a second tile of size 1
    let v33 = range_vec(1, 33);
    assert_eq!(running_sum(&v33), scan_sst_tiled(&v33, 32));
    assert_eq!(running_sum(&v33), scan_rss_tiled(&v33, 32));
}

#[test]
fn test_tile_size_invariance() {
    let v = vec![3, -1, 4, 1, -5, 9, 2, -6, 5, 3];
    let expected = running_sum(&v);
    let len = v.len();
    for tile_size in [1, 4, 5, 32, len, len + 1] {
        assert_eq!(expected, scan_sst_tiled(&v, tile_size));
        assert_eq!(expected, scan_rss_tiled(&v, tile_size));
    }
}

#[test]
fn test_strategy_equivalence() {
    let inputs = vec![
        vec![],
        vec![42],
        range_vec(1, 8),
        range_vec(1, 33),
        range_vec(-20, 20),
        vec![i32::MAX, i32::MIN, 1, -1],
    ];
    for v in inputs {
        assert_eq!(sum_scan_ssm(v.clone()), sum_scan_rss(v.clone()));
        assert_eq!(sum_scan_ssm(v.clone()), flat_scan(&v));
    }
}

#[test]
fn test_concrete_scenario() {
    let v = vec![1, 2, 3, 4, 5, 6, 7, 8];
    // two tiles
    let tiles = split_tiles(&v, 4);
    assert_eq!(tiles, vec![vec![1, 2, 3, 4], vec![5, 6, 7, 8]]);
    // local scans
    assert_eq!(scan_seeded(&tiles[0], 0), vec![1, 3, 6, 10]);
    assert_eq!(scan_seeded(&tiles[1], 0), vec![5, 11, 18, 26]);
    // summaries, by reduction
    assert_eq!(reduce_tile(&tiles[0]), 10);
    assert_eq!(reduce_tile(&tiles[1]), 26);
    // exclusive carries
    let carries = exclusive_scan(&vec![10, 26]);
    assert_eq!(carries, vec![0, 10]);
    // corrected tiles, both ways
    assert_eq!(add_to_each(&vec![5, 11, 18, 26], 10), vec![15, 21, 28, 36]);
    assert_eq!(scan_seeded(&tiles[1], 10), vec![15, 21, 28, 36]);
    // flattened result
    let corrected = vec![vec![1, 3, 6, 10], vec![15, 21, 28, 36]];
    assert_eq!(flatten(&corrected), vec![1, 3, 6, 10, 15, 21, 28, 36]);
    // and the public functions agree with the flat running sum of 1..=8
    assert_eq!(sum_scan_ssm(v.clone()), vec![1, 3, 6, 10, 15, 21, 28, 36]);
    assert_eq!(sum_scan_rss(v.clone()), vec![1, 3, 6, 10, 15, 21, 28, 36]);
}

#[test]
fn test_concrete_two_tiles_of_32() {
    let v = range_vec(1, 64);
    let expected = running_sum(&v);
    assert_eq!(expected[0], 1);
    assert_eq!(expected[1], 3);
    assert_eq!(expected[2], 6);
    assert_eq!(expected[63], 2080);
    assert_eq!(scan_sst_tiled(&v, 32), expected);
    assert_eq!(scan_rss_tiled(&v, 32), expected);
}

#[test]
fn test_default_tile_size_policy() {
    assert_eq!(default_tile_size(0), 4);
    assert_eq!(default_tile_size(31), 4);
    assert_eq!(default_tile_size(32), 32);
    assert_eq!(default_tile_size(1000), 32);
}

#[test]
fn test_negative_values() {
    let v = vec![-5, 10, -20, 3, 0, 7, -1, 2, 4];
    let expected = running_sum(&v);
    assert_eq!(sum_scan_ssm(v.clone()), expected);
    assert_eq!(sum_scan_rss(v.clone()), expected);
    for tile_size in [1, 2, 3, 9, 100] {
        assert_eq!(scan_sst_tiled(&v, tile_size), expected);
        assert_eq!(scan_rss_tiled(&v, tile_size), expected);
    }
}
