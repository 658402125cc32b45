//! Exact integer helpers the indicator functions are built on: sums over
//! sequences, a flooring square root and an in-place sort.

use vstd::prelude::*;
use vstd::relations::{sorted_by, total_ordering};
use vstd::seq_lib::lemma_sorted_unique;

verus! {

/// Mathematical sum of a sequence of cent amounts.
pub open spec fn sum_u64(s: Seq<u64>) -> int
    decreases s.len(),
{
    if s.len() == 0 {
        0
    } else {
        sum_u64(s.drop_last()) + s.last()
    }
}

/// The sum of `n` values, each at most `hi`, lies in `[0, n * hi]`.
pub proof fn lemma_sum_u64_bounds(s: Seq<u64>, hi: int)
    requires
        forall|i: int| 0 <= i < s.len() ==> #[trigger] s[i] <= hi,
    ensures
        0 <= sum_u64(s) <= s.len() * hi,
    decreases s.len(),
{
    if s.len() == 0 {
    } else {
        lemma_sum_u64_bounds(s.drop_last(), hi);
        assert(s.last() <= hi);
        assert((s.len() - 1) * hi + hi == s.len() * hi) by (nonlinear_arith);
    }
}

/// Floor of the square root: the unique `r` with `r * r <= n < (r + 1) * (r + 1)`.
pub fn isqrt_u128(n: u128) -> (r: u64)
    ensures
        (r as int) * (r as int) <= n as int,
        (n as int) < ((r as int + 1) * (r as int + 1)),
{
    let mut lo: u128 = 0;
    let mut hi: u128 = 0xFFFF_FFFF_FFFF_FFFF;
    proof {
        assert((0xFFFF_FFFF_FFFF_FFFFu128 as int + 1) * (0xFFFF_FFFF_FFFF_FFFFu128 as int + 1)
            > u128::MAX as int) by (nonlinear_arith);
    }
    while lo < hi
        invariant
            lo <= hi <= 0xFFFF_FFFF_FFFF_FFFF,
            (lo as int) * (lo as int) <= n as int,
            (n as int) < ((hi as int + 1) * (hi as int + 1)),
        decreases hi - lo,
    {
        let mid = lo + (hi - lo + 1) / 2;
        proof {
            assert((mid as int) * (mid as int) <= (0xFFFF_FFFF_FFFF_FFFFu128 as int)
                * (0xFFFF_FFFF_FFFF_FFFFu128 as int) < u128::MAX as int) by (nonlinear_arith)
                requires mid <= 0xFFFF_FFFF_FFFF_FFFFu128;
        }
        if mid * mid <= n {
            lo = mid;
        } else {
            hi = mid - 1;
        }
    }
    lo as u64
}

/// A flooring square root is exact on perfect squares.
pub proof fn lemma_isqrt_of_square(r: int, k: int)
    requires
        0 <= r,
        0 <= k,
        r * r <= k * k,
        k * k < (r + 1) * (r + 1),
    ensures
        r == k,
{
    assert(r <= k) by (nonlinear_arith)
        requires 0 <= r, 0 <= k, r * r <= k * k;
    assert(k <= r) by (nonlinear_arith)
        requires 0 <= r, 0 <= k, k * k < (r + 1) * (r + 1);
}

/// The ordering the engine sorts cent amounts and second counts by.
pub open spec fn u64_le() -> spec_fn(u64, u64) -> bool {
    |a: u64, b: u64| a <= b
}

/// `u64_le` is a total ordering, so a sorted sequence with a given multiset
/// of elements is unique.
pub proof fn lemma_u64_le_total_ordering()
    ensures
        total_ordering(u64_le()),
{
    let leq = u64_le();
    assert forall|x: u64, y: u64, z: u64| #[trigger] leq(x, y) && #[trigger] leq(y, z)
        implies leq(x, z) by {}
}

/// Swapping two positions of a sequence keeps its multiset of elements.
proof fn lemma_swap_multiset(s: Seq<u64>, i: int, j: int)
    requires
        0 <= i < s.len(),
        0 <= j < s.len(),
    ensures
        s.update(i, s[j]).update(j, s[i]).to_multiset() == s.to_multiset(),
{
    broadcast use vstd::seq_lib::group_to_multiset_ensures;

    let t = s.update(i, s[j]).update(j, s[i]);
    assert forall|x: u64| t.to_multiset().count(x) == s.to_multiset().count(x) by {
        if i == j {
            assert(t =~= s);
        }
    }
    assert(t.to_multiset() =~= s.to_multiset());
}

/// Sorts the vector ascending, in place, keeping the multiset of elements.
/// The result is exactly the mathematical `sort_by(u64_le())` of the input.
pub fn sort_u64(v: &mut Vec<u64>)
    ensures
        final(v)@ == old(v)@.sort_by(u64_le()),
        sorted_by(final(v)@, u64_le()),
        final(v)@.to_multiset() == old(v)@.to_multiset(),
        final(v)@.len() == old(v)@.len(),
{
    let ghost orig = v@;
    let n = v.len();
    let mut i: usize = 1;
    while i < n
        invariant
            1 <= i <= n || (n == 0 && i == 1),
            n == v@.len(),
            v@.to_multiset() == orig.to_multiset(),
            forall|a: int, b: int| 0 <= a < b < i ==> v@[a] <= v@[b],
        decreases n - i,
    {
        let mut j: usize = i;
        while j > 0 && v[j - 1] > v[j]
            invariant
                0 <= j <= i < n,
                n == v@.len(),
                v@.to_multiset() == orig.to_multiset(),
                forall|a: int, b: int| 0 <= a < b <= i && b != j ==> v@[a] <= v@[b],
            decreases j,
        {
            let ghost before = v@;
            let x = v[j - 1];
            let y = v[j];
            v.set(j - 1, y);
            v.set(j, x);
            proof {
                lemma_swap_multiset(before, j - 1, j as int);
            }
            j = j - 1;
        }
        i = i + 1;
    }
    proof {
        lemma_u64_le_total_ordering();
        orig.lemma_sort_by_ensures(u64_le());
        lemma_sorted_unique(v@, orig.sort_by(u64_le()), u64_le());
        broadcast use vstd::seq_lib::group_to_multiset_ensures;
        assert(v@.len() == orig.len());
    }
}

proof fn lemma_cs_expand_left(pa: int, pb: int, pc: int, a: int, b: int, q: int)
    requires
        q == pa * (b * b) - 2 * pc * (a * b) + pb * (a * a),
    ensures
        pa * q == (pa * b - pc * a) * (pa * b - pc * a) + (pa * pb - pc * pc) * (a * a),
{
    broadcast use vstd::arithmetic::mul::group_mul_properties;

    assert(pa * q == (pa * b - pc * a) * (pa * b - pc * a) + (pa * pb - pc * pc) * (a * a));
}

proof fn lemma_cs_expand_right(pa: int, pb: int, pc: int, a: int, b: int, q: int)
    requires
        q == pa * (b * b) - 2 * pc * (a * b) + pb * (a * a),
    ensures
        (pa + a * a) * (pb + b * b) - (pc + a * b) * (pc + a * b) == (pa * pb - pc * pc) + q,
{
    broadcast use vstd::arithmetic::mul::group_mul_properties;

    assert((pa + a * a) * (pb + b * b) - (pc + a * b) * (pc + a * b) == (pa * pb - pc * pc) + q);
}

proof fn lemma_cs_degenerate(pb: int, a: int, b: int)
    requires
        0 <= pb,
    ensures
        (a * b) * (a * b) <= (a * a) * (pb + b * b),
{
    broadcast use vstd::arithmetic::mul::group_mul_properties;

    assert((a * b) * (a * b) == (a * a) * (b * b));
    assert(0 <= (a * a) * pb) by (nonlinear_arith)
        requires 0 <= pb;
    assert((a * a) * (pb + b * b) == (a * a) * pb + (a * a) * (b * b));
}

/// One step of the Cauchy-Schwarz induction: extending both sums by one
/// term keeps the squared cross sum below the product of the squared sums.
pub proof fn lemma_cauchy_schwarz_step(pa: int, pb: int, pc: int, a: int, b: int)
    requires
        0 <= pa,
        0 <= pb,
        pc * pc <= pa * pb,
    ensures
        (pc + a * b) * (pc + a * b) <= (pa + a * a) * (pb + b * b),
{
    let q = pa * (b * b) - 2 * pc * (a * b) + pb * (a * a);
    if pa > 0 {
        lemma_cs_expand_left(pa, pb, pc, a, b, q);
        assert(0 <= (pa * b - pc * a) * (pa * b - pc * a)) by (nonlinear_arith);
        assert(0 <= (pa * pb - pc * pc) * (a * a)) by (nonlinear_arith)
            requires 0 <= pa * pb - pc * pc;
        assert(0 <= q) by (nonlinear_arith)
            requires 0 < pa, 0 <= pa * q;
        lemma_cs_expand_right(pa, pb, pc, a, b, q);
    } else {
        assert(pc == 0) by (nonlinear_arith)
            requires pc * pc <= 0;
        lemma_cs_degenerate(pb, a, b);
    }
}

} // verus!
