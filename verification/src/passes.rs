//! The per-tile passes and the carry scan: a seeded inclusive scan, a
//! reduction to the tile total, the exclusive scan over tile summaries, and
//! the additive carry correction.

use vstd::prelude::*;

use crate::model::fits_i32;
use crate::model::lemma_sum_take_step;
use crate::model::sum_of;

verus! {

/// Inclusive prefix scan of one tile, seeded with `seed`: element `k` of the
/// result is `seed` plus the sum of the first `k + 1` tile elements. With a
/// zero seed this is the local pass of the scan-scan-transform strategy; with
/// a tile's carry as seed it is the re-seeded correction pass of
/// reduce-scan-scan.
#[verifier::loop_isolation(false)]
pub fn scan_seeded(tile: &Vec<i32>, seed: i32) -> (r: Vec<i32>)
    requires
        forall|k: int|
            0 <= k <= tile@.len() ==> fits_i32(seed as int + sum_of(#[trigger] tile@.take(k))),
    ensures
        r@.len() == tile@.len(),
        forall|k: int|
            0 <= k < tile@.len() ==> (#[trigger] r@[k]) as int == seed as int + sum_of(
                tile@.take(k + 1),
            ),
{
    let mut r: Vec<i32> = Vec::new();
    let mut acc: i32 = seed;
    let mut k: usize = 0;
    proof {
        assert(tile@.take(0).len() == 0);
    }
    while k < tile.len()
        invariant
            k <= tile@.len(),
            r@.len() == k as int,
            acc as int == seed as int + sum_of(tile@.take(k as int)),
            forall|kk: int|
                0 <= kk < k as int ==> (#[trigger] r@[kk]) as int == seed as int + sum_of(
                    tile@.take(kk + 1),
                ),
        decreases tile@.len() - k,
    {
        proof {
            lemma_sum_take_step(tile@, k as int);
        }
        acc = acc + tile[k];
        r.push(acc);
        k = k + 1;
    }
    r
}

/// Reduce one tile to the sum of its elements: the local pass of the
/// reduce-scan-scan strategy, which keeps only the tile total and discards
/// the per-element partials.
#[verifier::loop_isolation(false)]
pub fn reduce_tile(tile: &Vec<i32>) -> (r: i32)
    requires
        forall|k: int| 0 <= k <= tile@.len() ==> fits_i32(sum_of(#[trigger] tile@.take(k))),
    ensures
        r as int == sum_of(tile@),
{
    let mut acc: i32 = 0;
    let mut k: usize = 0;
    proof {
        assert(tile@.take(0).len() == 0);
    }
    while k < tile.len()
        invariant
            k <= tile@.len(),
            acc as int == sum_of(tile@.take(k as int)),
        decreases tile@.len() - k,
    {
        proof {
            lemma_sum_take_step(tile@, k as int);
        }
        acc = acc + tile[k];
        k = k + 1;
    }
    proof {
        assert(tile@.take(tile@.len() as int) =~= tile@);
    }
    acc
}

/// Exclusive prefix scan of the tile summaries: element `i` of the result is
/// the sum of the summaries strictly before `i`, so element 0 is the
/// identity. As with an inclusive prescan whose final value is dropped, the
/// running total over all summaries is formed along the way, so it too must
/// be representable.
#[verifier::loop_isolation(false)]
pub fn exclusive_scan(sums: &Vec<i32>) -> (r: Vec<i32>)
    requires
        forall|i: int| 0 <= i <= sums@.len() ==> fits_i32(sum_of(#[trigger] sums@.take(i))),
    ensures
        r@.len() == sums@.len(),
        forall|i: int|
            0 <= i < sums@.len() ==> (#[trigger] r@[i]) as int == sum_of(sums@.take(i)),
{
    let mut r: Vec<i32> = Vec::new();
    let mut acc: i32 = 0;
    let mut i: usize = 0;
    proof {
        assert(sums@.take(0).len() == 0);
    }
    while i < sums.len()
        invariant
            i <= sums@.len(),
            r@.len() == i as int,
            acc as int == sum_of(sums@.take(i as int)),
            forall|ii: int|
                0 <= ii < i as int ==> (#[trigger] r@[ii]) as int == sum_of(sums@.take(ii)),
        decreases sums@.len() - i,
    {
        r.push(acc);
        proof {
            lemma_sum_take_step(sums@, i as int);
        }
        acc = acc + sums[i];
        i = i + 1;
    }
    r
}

/// Additive correction of the scan-scan-transform strategy: add the tile's
/// carry uniformly to every locally scanned element.
#[verifier::loop_isolation(false)]
pub fn add_to_each(tile: &Vec<i32>, carry: i32) -> (r: Vec<i32>)
    requires
        forall|k: int|
            0 <= k < tile@.len() ==> fits_i32((#[trigger] tile@[k]) as int + carry as int),
    ensures
        r@.len() == tile@.len(),
        forall|k: int|
            0 <= k < tile@.len() ==> (#[trigger] r@[k]) as int == tile@[k] as int + carry as int,
{
    let mut r: Vec<i32> = Vec::new();
    let mut k: usize = 0;
    while k < tile.len()
        invariant
            k <= tile@.len(),
            r@.len() == k as int,
            forall|kk: int|
                0 <= kk < k as int ==> (#[trigger] r@[kk]) as int == tile@[kk] as int
                    + carry as int,
        decreases tile@.len() - k,
    {
        r.push(tile[k] + carry);
        k = k + 1;
    }
    r
}

} // verus!
