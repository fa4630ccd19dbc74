//! Tile partitioning and final assembly: splitting the input into contiguous
//! fixed-size tiles, flattening corrected tiles back into one sequence, and
//! the proof that an assembly of per-tile prefix sums is the full prefix scan.

use vstd::prelude::*;

use crate::model::is_prefix_scan;
use crate::model::sum_of;
use crate::model::tile_bound;
use crate::model::tile_of;
use crate::model::tile_stop;

verus! {

/// The tiles, in order, concatenated into one flat sequence.
pub open spec fn concat_tiles(tiles: Seq<Vec<i32>>) -> Seq<i32>
    decreases tiles.len(),
{
    if tiles.len() == 0 {
        Seq::empty()
    } else {
        concat_tiles(tiles.drop_last()) + tiles.last()@
    }
}

/// Extending a concatenation by one tile appends that tile's elements.
pub proof fn lemma_concat_tiles_take_step(tiles: Seq<Vec<i32>>, t: int)
    requires
        0 <= t < tiles.len(),
    ensures
        concat_tiles(tiles.take(t + 1)) == concat_tiles(tiles.take(t)) + tiles[t]@,
{
    assert(tiles.take(t + 1).drop_last() =~= tiles.take(t));
    assert(tiles.take(t + 1).last() == tiles[t]);
}

/// Partition `v` into contiguous tiles of `tile_size` elements each, the last
/// tile taking whatever remains. The contract pins the partition completely:
/// every tile is the matching slice of `v`, and the tile count is the least
/// number of tiles of this size that covers `v` — so concatenating the tiles
/// in order rebuilds `v` exactly.
#[verifier::loop_isolation(false)]
pub fn split_tiles(v: &Vec<i32>, tile_size: usize) -> (r: Vec<Vec<i32>>)
    requires
        tile_size >= 1,
    ensures
        forall|t: int|
            0 <= t < r@.len() ==> (#[trigger] r@[t])@ == tile_of(v@, tile_size as int, t),
        r@.len() as int * (tile_size as int) >= v@.len() as int,
        r@.len() >= 1 ==> ((r@.len() - 1) * (tile_size as int)) < v@.len() as int,
{
    let ghost ts: int = tile_size as int;
    let ghost n: int = v@.len() as int;
    let mut r: Vec<Vec<i32>> = Vec::new();
    let mut start: usize = 0;
    while start < v.len()
        invariant
            start <= v@.len(),
            start as int == tile_bound(n, ts, r@.len() as int),
            r@.len() >= 1 ==> (r@.len() - 1) * ts < n,
            forall|t: int| 0 <= t < r@.len() ==> (#[trigger] r@[t])@ == tile_of(v@, ts, t),
        decreases v@.len() - start,
    {
        let ghost count: int = r@.len() as int;
        proof {
            assert(count * ts <= n) by {
                if count * ts > n {
                    assert(start as int == n);
                }
            }
            assert(start as int == count * ts);
            assert((count + 1) * ts == count * ts + ts) by (nonlinear_arith);
        }
        let end = if v.len() - start < tile_size {
            v.len()
        } else {
            start + tile_size
        };
        proof {
            assert(end as int == tile_stop(n, ts, count));
        }
        let mut tile: Vec<i32> = Vec::new();
        let mut j: usize = start;
        while j < end
            invariant
                start <= j <= end,
                end <= v@.len(),
                tile@ == v@.subrange(start as int, j as int),
            decreases end - j,
        {
            tile.push(v[j]);
            proof {
                assert(v@.subrange(start as int, j as int + 1) =~= v@.subrange(
                    start as int,
                    j as int,
                ).push(v@[j as int]));
            }
            j = j + 1;
        }
        r.push(tile);
        start = end;
    }
    proof {
        assert(r@.len() as int * ts >= n) by {
            if r@.len() as int * ts < n {
                assert(start as int == r@.len() as int * ts);
            }
        }
    }
    r
}

/// Concatenate the corrected tiles, in their original order, into one flat
/// vector: the assembly step shared by both strategies.
#[verifier::loop_isolation(false)]
pub fn flatten(tiles: &Vec<Vec<i32>>) -> (r: Vec<i32>)
    ensures
        r@ == concat_tiles(tiles@),
{
    let mut r: Vec<i32> = Vec::new();
    let mut t: usize = 0;
    proof {
        assert(tiles@.take(0) =~= Seq::<Vec<i32>>::empty());
    }
    while t < tiles.len()
        invariant
            t <= tiles@.len(),
            r@ == concat_tiles(tiles@.take(t as int)),
        decreases tiles@.len() - t,
    {
        let mut j: usize = 0;
        while j < tiles[t].len()
            invariant
                t < tiles@.len(),
                j <= tiles@[t as int]@.len(),
                r@ == concat_tiles(tiles@.take(t as int)) + tiles@[t as int]@.take(j as int),
            decreases tiles@[t as int]@.len() - j,
        {
            r.push(tiles[t][j]);
            j = j + 1;
        }
        proof {
            lemma_concat_tiles_take_step(tiles@, t as int);
            assert(tiles@[t as int]@.take(tiles@[t as int]@.len() as int) =~= tiles@[t as int]@);
        }
        t = t + 1;
    }
    proof {
        assert(tiles@.take(tiles@.len() as int) =~= tiles@);
    }
    r
}

/// Assembling per-tile prefix sums yields the full prefix scan: if the tiles
/// cover `v` and tile `t` holds, at offset `j`, the prefix sum of `v` through
/// position `t * ts + j`, then the flat concatenation of the tiles is the
/// prefix scan of `v`.
pub proof fn lemma_assembled_scan(v: Seq<i32>, ts: int, cs: Seq<Vec<i32>>)
    requires
        ts >= 1,
        cs.len() as int * ts >= v.len() as int,
        cs.len() >= 1 ==> (cs.len() - 1) * ts < v.len() as int,
        forall|t: int| 0 <= t < cs.len() ==> (#[trigger] cs[t])@.len() == tile_of(v, ts, t).len(),
        forall|t: int, j: int|
            0 <= t < cs.len() && 0 <= j < cs[t]@.len() ==> (#[trigger] cs[t]@[j]) as int == sum_of(
                v.take(t * ts + j + 1),
            ),
    ensures
        is_prefix_scan(v, concat_tiles(cs)),
{
    lemma_assembled_scan_upto(v, ts, cs, cs.len() as int);
    assert(cs.take(cs.len() as int) =~= cs);
    assert(tile_bound(v.len() as int, ts, cs.len() as int) == v.len() as int);
}

/// The first `i` tiles assemble into the prefix scan of the part of `v` they
/// cover.
proof fn lemma_assembled_scan_upto(v: Seq<i32>, ts: int, cs: Seq<Vec<i32>>, i: int)
    requires
        ts >= 1,
        cs.len() as int * ts >= v.len() as int,
        cs.len() >= 1 ==> (cs.len() - 1) * ts < v.len() as int,
        forall|t: int| 0 <= t < cs.len() ==> (#[trigger] cs[t])@.len() == tile_of(v, ts, t).len(),
        forall|t: int, j: int|
            0 <= t < cs.len() && 0 <= j < cs[t]@.len() ==> (#[trigger] cs[t]@[j]) as int == sum_of(
                v.take(t * ts + j + 1),
            ),
        0 <= i <= cs.len(),
    ensures
        concat_tiles(cs.take(i)).len() == tile_bound(v.len() as int, ts, i),
        forall|k: int|
            0 <= k < tile_bound(v.len() as int, ts, i) ==> (#[trigger] concat_tiles(
                cs.take(i),
            )[k]) as int == sum_of(v.take(k + 1)),
    decreases i,
{
    let n = v.len() as int;
    if i == 0 {
        assert(cs.take(0).len() == 0);
        assert(concat_tiles(cs.take(0)).len() == 0);
    } else {
        lemma_assembled_scan_upto(v, ts, cs, i - 1);
        lemma_concat_tiles_take_step(cs, i - 1);
        let b0 = tile_bound(n, ts, i - 1);
        let b1 = tile_bound(n, ts, i);
        assert((i - 1) * ts <= (cs.len() - 1) * ts) by (nonlinear_arith)
            requires
                i <= cs.len() as int,
                ts >= 1,
        ;
        assert(i * ts == (i - 1) * ts + ts) by (nonlinear_arith);
        assert(b0 == (i - 1) * ts);
        assert(tile_stop(n, ts, i - 1) == b1);
        assert(cs[i - 1]@.len() == b1 - b0);
        let assembled = concat_tiles(cs.take(i));
        assert(assembled.len() == b1);
        assert forall|k: int| 0 <= k < b1 implies (#[trigger] assembled[k]) as int == sum_of(
            v.take(k + 1),
        ) by {
            if k < b0 {
                assert(assembled[k] == concat_tiles(cs.take(i - 1))[k]);
            } else {
                assert(assembled[k] == cs[i - 1]@[k - b0]);
                assert(cs[i - 1]@[k - b0] as int == sum_of(v.take((i - 1) * ts + (k - b0) + 1)));
            }
        }
    }
}

} // verus!
