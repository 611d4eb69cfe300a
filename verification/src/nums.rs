//! Powers of the alphabet size and sums over frequency tables.

use vstd::prelude::*;

verus! {

/// `n` raised to the `k`-th power; table of order `k` has `npow(n, k)` cells.
pub open spec fn npow(n: int, k: nat) -> int
    decreases k,
{
    if k == 0 {
        1
    } else {
        n * npow(n, (k - 1) as nat)
    }
}

pub proof fn lemma_npow_pos(n: int, k: nat)
    requires
        n >= 1,
    ensures
        npow(n, k) >= 1,
    decreases k,
{
    if k > 0 {
        lemma_npow_pos(n, (k - 1) as nat);
        assert(n * npow(n, (k - 1) as nat) >= 1) by (nonlinear_arith)
            requires
                n >= 1,
                npow(n, (k - 1) as nat) >= 1,
        ;
    }
}

pub proof fn lemma_npow_mono(n: int, j: nat, k: nat)
    requires
        n >= 1,
        j <= k,
    ensures
        npow(n, j) <= npow(n, k),
    decreases k,
{
    lemma_npow_pos(n, j);
    if j < k {
        lemma_npow_mono(n, j, (k - 1) as nat);
        lemma_npow_pos(n, (k - 1) as nat);
        assert(npow(n, (k - 1) as nat) <= n * npow(n, (k - 1) as nat)) by (nonlinear_arith)
            requires
                n >= 1,
                npow(n, (k - 1) as nat) >= 1,
        ;
    }
}

/// Sum of all counters of a frequency table, as an unbounded integer.
pub open spec fn sum_u32(s: Seq<u32>) -> int
    decreases s.len(),
{
    if s.len() == 0 {
        0
    } else {
        sum_u32(s.drop_last()) + s.last()
    }
}

/// Sum of all entries of a signed scratch buffer.
pub open spec fn sum_i64(s: Seq<i64>) -> int
    decreases s.len(),
{
    if s.len() == 0 {
        0
    } else {
        sum_i64(s.drop_last()) + s.last()
    }
}

pub proof fn lemma_sum_u32_nonneg(s: Seq<u32>)
    ensures
        sum_u32(s) >= 0,
    decreases s.len(),
{
    if s.len() > 0 {
        lemma_sum_u32_nonneg(s.drop_last());
    }
}

/// Replacing one counter shifts the total by exactly the difference.
pub proof fn lemma_sum_u32_update(s: Seq<u32>, i: int, v: u32)
    requires
        0 <= i < s.len(),
    ensures
        sum_u32(s.update(i, v)) == sum_u32(s) - s[i] + v,
    decreases s.len(),
{
    let t = s.update(i, v);
    if i == s.len() - 1 {
        assert(t.drop_last() =~= s.drop_last());
    } else {
        assert(t.drop_last() =~= s.drop_last().update(i, v));
        lemma_sum_u32_update(s.drop_last(), i, v);
    }
}

pub proof fn lemma_sum_i64_update(s: Seq<i64>, i: int, v: i64)
    requires
        0 <= i < s.len(),
    ensures
        sum_i64(s.update(i, v)) == sum_i64(s) - s[i] + v,
    decreases s.len(),
{
    let t = s.update(i, v);
    if i == s.len() - 1 {
        assert(t.drop_last() =~= s.drop_last());
    } else {
        assert(t.drop_last() =~= s.drop_last().update(i, v));
        lemma_sum_i64_update(s.drop_last(), i, v);
    }
}

/// A table of zeros sums to zero.
pub proof fn lemma_sum_i64_zero(s: Seq<i64>)
    requires
        forall|i: int| 0 <= i < s.len() ==> s[i] == 0,
    ensures
        sum_i64(s) == 0,
    decreases s.len(),
{
    if s.len() > 0 {
        lemma_sum_i64_zero(s.drop_last());
    }
}

/// Adding a scratch buffer pointwise shifts the total by the buffer's sum.
pub proof fn lemma_sum_pointwise_add(t: Seq<u32>, t2: Seq<u32>, a: Seq<i64>)
    requires
        t.len() == t2.len(),
        t.len() == a.len(),
        forall|i: int| 0 <= i < t.len() ==> t2[i] == t[i] + a[i],
    ensures
        sum_u32(t2) == sum_u32(t) + sum_i64(a),
    decreases t.len(),
{
    if t.len() > 0 {
        lemma_sum_pointwise_add(t.drop_last(), t2.drop_last(), a.drop_last());
    }
}

/// When every adjusted counter is non-negative, each one is bounded by the
/// total of the adjusted table.
pub proof fn lemma_elem_le_sum_combined(t: Seq<u32>, a: Seq<i64>, i: int)
    requires
        t.len() == a.len(),
        0 <= i < t.len(),
        forall|j: int| 0 <= j < t.len() ==> t[j] + a[j] >= 0,
    ensures
        t[i] + a[i] <= sum_u32(t) + sum_i64(a),
    decreases t.len(),
{
    if i == t.len() - 1 {
        lemma_sum_nonneg_combined(t.drop_last(), a.drop_last());
    } else {
        lemma_elem_le_sum_combined(t.drop_last(), a.drop_last(), i);
    }
}

pub proof fn lemma_sum_nonneg_combined(t: Seq<u32>, a: Seq<i64>)
    requires
        t.len() == a.len(),
        forall|j: int| 0 <= j < t.len() ==> t[j] + a[j] >= 0,
    ensures
        sum_u32(t) + sum_i64(a) >= 0,
    decreases t.len(),
{
    if t.len() > 0 {
        lemma_sum_nonneg_combined(t.drop_last(), a.drop_last());
    }
}

/// Saturating conversion of an adjusted counter back into range.
pub open spec fn clamp_u32(x: int) -> int {
    if x < 0 {
        0
    } else if x > u32::MAX as int {
        u32::MAX as int
    } else {
        x
    }
}

} // verus!
