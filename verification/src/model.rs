//! The mathematical model: sums of sequences, the prefix-scan predicate, the
//! tiling of a sequence, and the overflow side conditions the engine needs.

use vstd::prelude::*;

verus! {

/// The sum of all elements of `s`, as an unbounded integer.
pub open spec fn sum_of(s: Seq<i32>) -> int
    decreases s.len(),
{
    if s.len() == 0 {
        0
    } else {
        sum_of(s.drop_last()) + s.last()
    }
}

/// `x` is representable as an `i32`.
pub open spec fn fits_i32(x: int) -> bool {
    i32::MIN as int <= x && x <= i32::MAX as int
}

/// `out` is the inclusive prefix scan of `input`: it has the same length, and
/// at every position holds the sum of the input up to and including that
/// position.
pub open spec fn is_prefix_scan(input: Seq<i32>, out: Seq<i32>) -> bool {
    &&& out.len() == input.len()
    &&& forall|k: int|
        0 <= k < input.len() ==> (#[trigger] out[k]) as int == sum_of(input.take(k + 1))
}

/// Every prefix sum of `s` is representable as an `i32`. Each element of a
/// prefix scan is such a sum, so the output type alone already forces this.
pub open spec fn prefixes_fit(s: Seq<i32>) -> bool {
    forall|j: int| 0 <= j <= s.len() ==> fits_i32(sum_of(#[trigger] s.take(j)))
}

/// Where tile `t` ends (exclusive) in a sequence of length `n` tiled at size
/// `ts`: one full tile past its start, or the end of the sequence.
pub open spec fn tile_stop(n: int, ts: int, t: int) -> int {
    if t * ts + ts <= n {
        t * ts + ts
    } else {
        n
    }
}

/// How much of a sequence of length `n` the first `i` tiles of size `ts`
/// cover: the start of tile `i`, or the end of the sequence.
pub open spec fn tile_bound(n: int, ts: int, i: int) -> int {
    if i * ts <= n {
        i * ts
    } else {
        n
    }
}

/// Tile `t` of `s` at tile size `ts`: the contiguous slice from `t * ts` up to
/// `tile_stop`.
pub open spec fn tile_of(s: Seq<i32>, ts: int, t: int) -> Seq<i32> {
    s.subrange(t * ts, tile_stop(s.len() as int, ts, t))
}

/// Every partial sum accumulated inside a single tile is representable as an
/// `i32`: these are exactly the values the per-tile passes build up.
pub open spec fn tile_partials_fit(s: Seq<i32>, ts: int) -> bool {
    forall|t: int, k: int|
        0 <= t && t * ts <= s.len() && 0 <= k <= tile_of(s, ts, t).len() ==> fits_i32(
            sum_of(#[trigger] tile_of(s, ts, t).take(k)),
        )
}

/// The default tile size policy: small inputs get small tiles, so that the
/// carry scan neither dominates tiny inputs nor serializes large ones.
pub open spec fn default_tile_size_spec(n: int) -> int {
    if n < 32 {
        4
    } else {
        32
    }
}

/// The sum of a prefix grows by the element at its end.
pub proof fn lemma_sum_take_step(s: Seq<i32>, j: int)
    requires
        0 <= j < s.len(),
    ensures
        sum_of(s.take(j + 1)) == sum_of(s.take(j)) + s[j],
{
    assert(s.take(j + 1).drop_last() =~= s.take(j));
    assert(s.take(j + 1).last() == s[j]);
}

/// A sum over the prefix `[0, j)` splits at any interior point `i`.
pub proof fn lemma_sum_split(s: Seq<i32>, i: int, j: int)
    requires
        0 <= i <= j <= s.len(),
    ensures
        sum_of(s.take(j)) == sum_of(s.take(i)) + sum_of(s.subrange(i, j)),
    decreases j - i,
{
    if i == j {
        assert(s.subrange(i, j) =~= Seq::<i32>::empty());
        assert(s.take(j) =~= s.take(i));
    } else {
        lemma_sum_split(s, i, j - 1);
        lemma_sum_take_step(s, j - 1);
        assert(s.subrange(i, j).drop_last() =~= s.subrange(i, j - 1));
        assert(s.subrange(i, j).last() == s[j - 1]);
    }
}

/// The sum of a sequence whose elements all lie within `[-b, b]` lies within
/// `[-len * b, len * b]`.
pub proof fn lemma_sum_bounded(s: Seq<i32>, b: int)
    requires
        0 <= b,
        forall|i: int| 0 <= i < s.len() ==> -b <= (#[trigger] s[i]) as int <= b,
    ensures
        -(s.len() as int * b) <= sum_of(s) <= s.len() as int * b,
    decreases s.len(),
{
    if s.len() > 0 {
        assert forall|i: int| 0 <= i < s.drop_last().len() implies -b <= (#[trigger] s.drop_last()[i]) as int
            <= b by {
            assert(s.drop_last()[i] == s[i]);
        }
        lemma_sum_bounded(s.drop_last(), b);
        let n = s.len() as int;
        assert((n - 1) * b == n * b - b) by (nonlinear_arith);
    }
}

/// If every element of `s` lies within `[-b, b]` and `s.len() * b` is
/// representable as an `i32`, then no partial sum over any contiguous part of
/// `s` can overflow: the overflow preconditions of the engine hold for every
/// tile size. This is how a caller with bounded data discharges them.
pub proof fn lemma_bounded_elements_fit(s: Seq<i32>, b: int)
    requires
        0 <= b,
        s.len() as int * b <= i32::MAX as int,
        forall|i: int| 0 <= i < s.len() ==> -b <= (#[trigger] s[i]) as int <= b,
    ensures
        prefixes_fit(s),
        forall|ts: int| ts >= 1 ==> #[trigger] tile_partials_fit(s, ts),
{
    let n = s.len() as int;
    assert forall|j: int| 0 <= j <= n implies fits_i32(sum_of(#[trigger] s.take(j))) by {
        assert forall|i: int| 0 <= i < s.take(j).len() implies -b <= (#[trigger] s.take(j)[i]) as int
            <= b by {
            assert(s.take(j)[i] == s[i]);
        }
        lemma_sum_bounded(s.take(j), b);
        assert(j * b <= n * b) by (nonlinear_arith)
            requires
                0 <= j <= n,
                b >= 0,
        ;
    }
    assert forall|ts: int| ts >= 1 implies #[trigger] tile_partials_fit(s, ts) by {
        assert forall|t: int, k: int|
            0 <= t && t * ts <= n && 0 <= k <= tile_of(s, ts, t).len() implies fits_i32(
            sum_of(#[trigger] tile_of(s, ts, t).take(k)),
        ) by {
            let u = tile_of(s, ts, t).take(k);
            assert(u.len() == k);
            assert(k <= n);
            assert forall|i: int| 0 <= i < u.len() implies -b <= (#[trigger] u[i]) as int <= b by {
                assert(u[i] == s[t * ts + i]);
            }
            lemma_sum_bounded(u, b);
            assert(k * b <= n * b) by (nonlinear_arith)
                requires
                    0 <= k <= n,
                    b >= 0,
            ;
        }
    }
}

/// A prefix of a tile is a contiguous slice of the underlying sequence.
pub proof fn lemma_tile_take(s: Seq<i32>, ts: int, t: int, k: int)
    requires
        ts >= 1,
        0 <= t,
        t * ts <= s.len(),
        0 <= k <= tile_of(s, ts, t).len(),
    ensures
        tile_of(s, ts, t).take(k) =~= s.subrange(t * ts, t * ts + k),
{
}

/// The prefix-scan contract pins the output completely: any two sequences that
/// are prefix scans of the same input are equal. In particular the two tiled
/// strategies agree with each other and with the flat reference scan, and the
/// result does not depend on the tile size used.
pub proof fn lemma_prefix_scan_unique(input: Seq<i32>, a: Seq<i32>, b: Seq<i32>)
    requires
        is_prefix_scan(input, a),
        is_prefix_scan(input, b),
    ensures
        a == b,
{
    assert forall|k: int| 0 <= k < a.len() implies a[k] == b[k] by {
        assert(a[k] as int == sum_of(input.take(k + 1)));
        assert(b[k] as int == sum_of(input.take(k + 1)));
    }
    assert(a =~= b);
}

/// A prefix scan of the empty sequence is empty.
pub proof fn lemma_prefix_scan_empty(input: Seq<i32>, out: Seq<i32>)
    requires
        input.len() == 0,
        is_prefix_scan(input, out),
    ensures
        out == Seq::<i32>::empty(),
{
    assert(out =~= Seq::<i32>::empty());
}

/// A prefix scan of a one-element sequence is that sequence itself.
pub proof fn lemma_prefix_scan_singleton(input: Seq<i32>, out: Seq<i32>)
    requires
        input.len() == 1,
        is_prefix_scan(input, out),
    ensures
        out == input,
{
    assert(input.take(1) =~= input);
    assert(input.drop_last().len() == 0);
    assert(sum_of(input.drop_last()) == 0);
    assert(sum_of(input) == input[0]);
    assert(out[0] as int == sum_of(input.take(1)));
    assert(out =~= input);
}

/// Past the first position, each element of a prefix scan adds the matching
/// input element to its predecessor: a conforming output satisfies the
/// recurrence of the flat single-pass running sum.
pub proof fn lemma_prefix_scan_step(input: Seq<i32>, out: Seq<i32>, k: int)
    requires
        is_prefix_scan(input, out),
        0 <= k < input.len(),
    ensures
        k == 0 ==> out[0] == input[0],
        k >= 1 ==> out[k] as int == out[k - 1] as int + input[k] as int,
{
    lemma_sum_take_step(input, k);
    assert(input.take(0).len() == 0);
    assert(out[k] as int == sum_of(input.take(k + 1)));
    if k >= 1 {
        assert(out[k - 1] as int == sum_of(input.take(k)));
    }
}

} // verus!
