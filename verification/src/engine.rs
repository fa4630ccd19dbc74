//! The scan engine: the two tiled strategies — scan-scan-transform and
//! reduce-scan-scan — the flat reference scan, and the default tile size
//! policy. Both strategies are proved to return the inclusive prefix scan of
//! their input.

use vstd::prelude::*;

use crate::model::default_tile_size_spec;
use crate::model::fits_i32;
use crate::model::is_prefix_scan;
use crate::model::lemma_sum_split;
use crate::model::lemma_sum_take_step;
use crate::model::lemma_tile_take;
use crate::model::prefixes_fit;
use crate::model::sum_of;
use crate::model::tile_bound;
use crate::model::tile_of;
use crate::model::tile_partials_fit;
use crate::model::tile_stop;
use crate::passes::add_to_each;
use crate::passes::exclusive_scan;
use crate::passes::reduce_tile;
use crate::passes::scan_seeded;
use crate::tiles::flatten;
use crate::tiles::lemma_assembled_scan;
use crate::tiles::split_tiles;

verus! {

/// Every tile index below the tile count starts strictly inside the sequence,
/// so no tile is empty.
proof fn lemma_tile_starts(v: Seq<i32>, ts: int, count: int, t: int)
    requires
        ts >= 1,
        count * ts >= v.len() as int,
        count >= 1 ==> ((count - 1) * ts) < v.len() as int,
        0 <= t < count,
    ensures
        (t * ts) < v.len() as int,
        tile_stop(v.len() as int, ts, t) > t * ts,
        tile_of(v, ts, t).len() == tile_stop(v.len() as int, ts, t) - t * ts,
{
    assert(t * ts <= (count - 1) * ts) by (nonlinear_arith)
        requires
            t <= count - 1,
            ts >= 1,
    ;
}

/// The sum of the first `i` tile summaries equals the prefix sum of `v` over
/// the part of `v` those tiles cover.
proof fn lemma_tile_sums_prefix(v: Seq<i32>, ts: int, sums: Seq<i32>, i: int)
    requires
        ts >= 1,
        sums.len() as int * ts >= v.len() as int,
        sums.len() >= 1 ==> ((sums.len() - 1) * ts) < v.len() as int,
        forall|t: int|
            0 <= t < sums.len() ==> (#[trigger] sums[t]) as int == sum_of(tile_of(v, ts, t)),
        0 <= i <= sums.len(),
    ensures
        sum_of(sums.take(i)) == sum_of(v.take(tile_bound(v.len() as int, ts, i))),
    decreases i,
{
    let n = v.len() as int;
    if i == 0 {
        assert(sums.take(0).len() == 0);
        assert(v.take(0).len() == 0);
    } else {
        lemma_tile_sums_prefix(v, ts, sums, i - 1);
        lemma_sum_take_step(sums, i - 1);
        let b0 = tile_bound(n, ts, i - 1);
        let b1 = tile_bound(n, ts, i);
        assert((i - 1) * ts <= (sums.len() - 1) * ts) by (nonlinear_arith)
            requires
                i <= sums.len() as int,
                ts >= 1,
        ;
        assert(i * ts == (i - 1) * ts + ts) by (nonlinear_arith);
        assert(b0 == (i - 1) * ts);
        assert(tile_stop(n, ts, i - 1) == b1);
        assert(sums[i - 1] as int == sum_of(tile_of(v, ts, i - 1)));
        lemma_sum_split(v, b0, b1);
    }
}

/// Tiled prefix scan, scan-scan-transform strategy: scan each tile locally,
/// scan the tile-ending totals into exclusive carries, add each tile's carry
/// uniformly to its locally scanned elements, and reassemble.
#[verifier::loop_isolation(false)]
pub fn scan_sst_tiled(v: &Vec<i32>, tile_size: usize) -> (r: Vec<i32>)
    requires
        tile_size >= 1,
        prefixes_fit(v@),
        tile_partials_fit(v@, tile_size as int),
    ensures
        is_prefix_scan(v@, r@),
{
    let ghost ts: int = tile_size as int;
    let ghost n: int = v@.len() as int;
    let tiles = split_tiles(v, tile_size);
    let ghost count: int = tiles@.len() as int;

    // local pass: inclusive scan of every tile
    let mut scanned: Vec<Vec<i32>> = Vec::new();
    let mut t: usize = 0;
    while t < tiles.len()
        invariant
            t as int <= count,
            scanned@.len() == t as int,
            forall|tt: int|
                0 <= tt < t as int ==> (#[trigger] scanned@[tt])@.len() == tile_of(
                    v@,
                    ts,
                    tt,
                ).len(),
            forall|tt: int, j: int|
                0 <= tt < t as int && 0 <= j < scanned@[tt]@.len() ==> (#[trigger] scanned@[tt]@[j]) as int
                    == sum_of(tile_of(v@, ts, tt).take(j + 1)),
        decreases count - t,
    {
        proof {
            lemma_tile_starts(v@, ts, count, t as int);
            assert forall|k: int| 0 <= k <= tiles@[t as int]@.len() implies fits_i32(
                0 as int + sum_of(#[trigger] tiles@[t as int]@.take(k)),
            ) by {
                assert(tiles@[t as int]@ == tile_of(v@, ts, t as int));
                assert(fits_i32(sum_of(tile_of(v@, ts, t as int).take(k))));
            }
        }
        let s = scan_seeded(&tiles[t], 0);
        scanned.push(s);
        t = t + 1;
    }

    // tile summaries: the last locally scanned element of each tile
    let mut sums: Vec<i32> = Vec::new();
    let mut i: usize = 0;
    while i < scanned.len()
        invariant
            i as int <= count,
            sums@.len() == i as int,
            forall|tt: int|
                0 <= tt < i as int ==> (#[trigger] sums@[tt]) as int == sum_of(tile_of(v@, ts, tt)),
        decreases count - i,
    {
        proof {
            lemma_tile_starts(v@, ts, count, i as int);
            let tl = tile_of(v@, ts, i as int);
            assert(tl.take(tl.len() as int) =~= tl);
            assert(scanned@[i as int]@[tl.len() - 1] as int == sum_of(tl.take(tl.len() as int)));
        }
        let tile = &scanned[i];
        let x = tile[tile.len() - 1];
        sums.push(x);
        i = i + 1;
    }

    // carry scan: exclusive prefix scan of the summaries
    proof {
        assert forall|i2: int| 0 <= i2 <= sums@.len() implies fits_i32(
            sum_of(#[trigger] sums@.take(i2)),
        ) by {
            assert(i2 * ts >= 0) by (nonlinear_arith)
                requires
                    i2 >= 0,
                    ts >= 1,
            ;
            lemma_tile_sums_prefix(v@, ts, sums@, i2);
            assert(fits_i32(sum_of(v@.take(tile_bound(n, ts, i2)))));
        }
    }
    let carries = exclusive_scan(&sums);

    // correction: add each tile's carry to its locally scanned elements
    let mut corrected: Vec<Vec<i32>> = Vec::new();
    let mut c: usize = 0;
    while c < scanned.len()
        invariant
            c as int <= count,
            corrected@.len() == c as int,
            forall|tt: int|
                0 <= tt < c as int ==> (#[trigger] corrected@[tt])@.len() == tile_of(
                    v@,
                    ts,
                    tt,
                ).len(),
            forall|tt: int, j: int|
                0 <= tt < c as int && 0 <= j < corrected@[tt]@.len() ==> (#[trigger] corrected@[tt]@[j]) as int
                    == sum_of(v@.take(tt * ts + j + 1)),
        decreases count - c,
    {
        proof {
            lemma_tile_starts(v@, ts, count, c as int);
            lemma_tile_sums_prefix(v@, ts, sums@, c as int);
            assert(tile_bound(n, ts, c as int) == (c as int) * ts);
            assert(carries@[c as int] as int == sum_of(v@.take((c as int) * ts)));
            assert forall|j: int| 0 <= j < scanned@[c as int]@.len() implies fits_i32(
                (#[trigger] scanned@[c as int]@[j]) as int + carries@[c as int] as int,
            ) by {
                lemma_tile_take(v@, ts, c as int, j + 1);
                lemma_sum_split(v@, (c as int) * ts, (c as int) * ts + j + 1);
                assert(fits_i32(sum_of(v@.take((c as int) * ts + j + 1))));
            }
        }
        let ct = add_to_each(&scanned[c], carries[c]);
        proof {
            assert forall|j: int| 0 <= j < ct@.len() implies (#[trigger] ct@[j]) as int == sum_of(
                v@.take((c as int) * ts + j + 1),
            ) by {
                lemma_tile_take(v@, ts, c as int, j + 1);
                lemma_sum_split(v@, (c as int) * ts, (c as int) * ts + j + 1);
            }
        }
        corrected.push(ct);
        c = c + 1;
    }

    // assembly: concatenate the corrected tiles in order
    let out = flatten(&corrected);
    proof {
        lemma_assembled_scan(v@, ts, corrected@);
    }
    out
}

/// Tiled prefix scan, reduce-scan-scan strategy: reduce each tile to its
/// total, scan the totals into exclusive carries, re-scan each tile seeded
/// with its carry, and reassemble.
#[verifier::loop_isolation(false)]
pub fn scan_rss_tiled(v: &Vec<i32>, tile_size: usize) -> (r: Vec<i32>)
    requires
        tile_size >= 1,
        prefixes_fit(v@),
        tile_partials_fit(v@, tile_size as int),
    ensures
        is_prefix_scan(v@, r@),
{
    let ghost ts: int = tile_size as int;
    let ghost n: int = v@.len() as int;
    let tiles = split_tiles(v, tile_size);
    let ghost count: int = tiles@.len() as int;

    // local pass: reduce every tile to its total
    let mut sums: Vec<i32> = Vec::new();
    let mut t: usize = 0;
    while t < tiles.len()
        invariant
            t as int <= count,
            sums@.len() == t as int,
            forall|tt: int|
                0 <= tt < t as int ==> (#[trigger] sums@[tt]) as int == sum_of(tile_of(v@, ts, tt)),
        decreases count - t,
    {
        proof {
            lemma_tile_starts(v@, ts, count, t as int);
            assert forall|k: int| 0 <= k <= tiles@[t as int]@.len() implies fits_i32(
                sum_of(#[trigger] tiles@[t as int]@.take(k)),
            ) by {
                assert(tiles@[t as int]@ == tile_of(v@, ts, t as int));
                assert(fits_i32(sum_of(tile_of(v@, ts, t as int).take(k))));
            }
        }
        let x = reduce_tile(&tiles[t]);
        sums.push(x);
        t = t + 1;
    }

    // carry scan: exclusive prefix scan of the totals
    proof {
        assert forall|i2: int| 0 <= i2 <= sums@.len() implies fits_i32(
            sum_of(#[trigger] sums@.take(i2)),
        ) by {
            assert(i2 * ts >= 0) by (nonlinear_arith)
                requires
                    i2 >= 0,
                    ts >= 1,
            ;
            lemma_tile_sums_prefix(v@, ts, sums@, i2);
            assert(fits_i32(sum_of(v@.take(tile_bound(n, ts, i2)))));
        }
    }
    let carries = exclusive_scan(&sums);

    // correction: re-scan each original tile, seeded with its carry
    let mut corrected: Vec<Vec<i32>> = Vec::new();
    let mut c: usize = 0;
    while c < tiles.len()
        invariant
            c as int <= count,
            corrected@.len() == c as int,
            forall|tt: int|
                0 <= tt < c as int ==> (#[trigger] corrected@[tt])@.len() == tile_of(
                    v@,
                    ts,
                    tt,
                ).len(),
            forall|tt: int, j: int|
                0 <= tt < c as int && 0 <= j < corrected@[tt]@.len() ==> (#[trigger] corrected@[tt]@[j]) as int
                    == sum_of(v@.take(tt * ts + j + 1)),
        decreases count - c,
    {
        proof {
            lemma_tile_starts(v@, ts, count, c as int);
            lemma_tile_sums_prefix(v@, ts, sums@, c as int);
            assert(tile_bound(n, ts, c as int) == (c as int) * ts);
            assert(carries@[c as int] as int == sum_of(v@.take((c as int) * ts)));
            assert forall|k: int| 0 <= k <= tiles@[c as int]@.len() implies fits_i32(
                carries@[c as int] as int + sum_of(#[trigger] tiles@[c as int]@.take(k)),
            ) by {
                assert(tiles@[c as int]@ == tile_of(v@, ts, c as int));
                lemma_tile_take(v@, ts, c as int, k);
                lemma_sum_split(v@, (c as int) * ts, (c as int) * ts + k);
                assert(fits_i32(sum_of(v@.take((c as int) * ts + k))));
            }
        }
        let ct = scan_seeded(&tiles[c], carries[c]);
        proof {
            assert forall|j: int| 0 <= j < ct@.len() implies (#[trigger] ct@[j]) as int == sum_of(
                v@.take((c as int) * ts + j + 1),
            ) by {
                lemma_tile_take(v@, ts, c as int, j + 1);
                lemma_sum_split(v@, (c as int) * ts, (c as int) * ts + j + 1);
            }
        }
        corrected.push(ct);
        c = c + 1;
    }

    // assembly: concatenate the corrected tiles in order
    let out = flatten(&corrected);
    proof {
        lemma_assembled_scan(v@, ts, corrected@);
    }
    out
}

/// The reference computation: the flat single-pass running sum over the whole
/// input, with no tiling at all.
#[verifier::loop_isolation(false)]
pub fn flat_scan(v: &Vec<i32>) -> (r: Vec<i32>)
    requires
        prefixes_fit(v@),
    ensures
        is_prefix_scan(v@, r@),
{
    let mut r: Vec<i32> = Vec::new();
    let mut acc: i32 = 0;
    let mut k: usize = 0;
    proof {
        assert(v@.take(0).len() == 0);
    }
    while k < v.len()
        invariant
            k <= v@.len(),
            r@.len() == k as int,
            acc as int == sum_of(v@.take(k as int)),
            forall|kk: int|
                0 <= kk < k as int ==> (#[trigger] r@[kk]) as int == sum_of(v@.take(kk + 1)),
        decreases v@.len() - k,
    {
        proof {
            lemma_sum_take_step(v@, k as int);
        }
        acc = acc + v[k];
        r.push(acc);
        k = k + 1;
    }
    r
}

/// The default tile size for an input of `n` elements: 4 below the heuristic
/// boundary of 32 elements, 32 from there on.
pub fn default_tile_size(n: usize) -> (r: usize)
    ensures
        r as int == default_tile_size_spec(n as int),
        r >= 1,
{
    if n < 32 {
        4
    } else {
        32
    }
}

/// Inclusive prefix sum by the scan-scan-transform strategy at the default
/// tile size.
pub fn sum_scan_ssm(vec: Vec<i32>) -> (r: Vec<i32>)
    requires
        prefixes_fit(vec@),
        tile_partials_fit(vec@, default_tile_size_spec(vec@.len() as int)),
    ensures
        is_prefix_scan(vec@, r@),
{
    let tile_size = default_tile_size(vec.len());
    scan_sst_tiled(&vec, tile_size)
}

/// Inclusive prefix sum by the reduce-scan-scan strategy at the default tile
/// size.
pub fn sum_scan_rss(vec: Vec<i32>) -> (r: Vec<i32>)
    requires
        prefixes_fit(vec@),
        tile_partials_fit(vec@, default_tile_size_spec(vec@.len() as int)),
    ensures
        is_prefix_scan(vec@, r@),
{
    let tile_size = default_tile_size(vec.len());
    scan_rss_tiled(&vec, tile_size)
}

} // verus!
