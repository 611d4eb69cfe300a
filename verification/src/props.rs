//! Shared property vocabulary: which windows a rule can touch at all
//! (locality), and the projection that ties the skip-bigram table to the
//! trigram table.

use vstd::prelude::*;
use crate::Rule;
use crate::corpus::{Corpus, Estimator, tables_unchanged};
use crate::nums::npow;
use crate::encoding::{enc, dec, win_valid, lemma_enc_bounds, lemma_enc_injective, lemma_dec_enc};
use crate::expansion::{
    matches_at, replace_at, has_interior_match, transform, left_exists, right_exists, left_old,
    left_new, right_old, right_new, both_old, both_new, lemma_transform_len, lemma_transform_valid,
};

verus! {

/// The two characters occur adjacently somewhere in the window.
pub open spec fn has_pair(v: Seq<usize>, a: usize, b: usize) -> bool {
    exists|p: int| 0 <= p && p + 2 <= v.len() && #[trigger] v[p] == a && v[p + 1] == b
}

/// The window can gain or lose frequency under the rule: it contains the
/// pattern or the replacement, or one of its edge characters could abut an
/// occurrence just outside the window.  Any window for which this is false
/// keeps its frequency through a whole rule application.
pub open spec fn involved(v: Seq<usize>, r: Rule) -> bool {
    ||| has_pair(v, r.old0, r.old1)
    ||| has_pair(v, r.new0, r.new1)
    ||| v[0] == r.old1
    ||| v[0] == r.new1
    ||| v[v.len() - 1] == r.old0
    ||| v[v.len() - 1] == r.new0
}

/// Sum of the trigram counters `(a, b, c)` over the first `b_count` middle
/// characters `b`.
pub open spec fn colsum_u32(t: Seq<u32>, n: usize, a: usize, c: usize, b_count: nat) -> int
    decreases b_count,
{
    if b_count == 0 {
        0
    } else {
        colsum_u32(t, n, a, c, (b_count - 1) as nat) + t[enc(
            seq![a, (b_count - 1) as usize, c],
            n,
        )]
    }
}

/// Sum of the scratch entries at trigram cells `(a, b, c)` over the first
/// `b_count` middle characters `b`.
pub open spec fn colsum_i64(t: Seq<i64>, n: usize, a: usize, c: usize, b_count: nat) -> int
    decreases b_count,
{
    if b_count == 0 {
        0
    } else {
        colsum_i64(t, n, a, c, (b_count - 1) as nat) + t[enc(
            seq![a, (b_count - 1) as usize, c],
            n,
        )]
    }
}

/// The order-three window with the given characters.
pub open spec fn tri_win(a: usize, b: usize, c: usize) -> Seq<usize> {
    seq![a, b, c]
}

/// Cell of the pair `(a, c)` in a table of order two.
pub open spec fn pair_idx(n: usize, a: usize, c: usize) -> int {
    enc(seq![a, c], n)
}

/// The skip-bigram table is the projection of the trigram table onto its
/// first and third position: `skip[a, c] == sum over b of tri[a, b, c]`.
pub open spec fn projection_holds(t: Seq<u32>, skip: Seq<u32>, n: usize) -> bool {
    forall|a: usize, c: usize|
        a < n && c < n ==> skip[enc(seq![a, c], n)] == #[trigger] colsum_u32(t, n, a, c, n as nat)
}

/// Updating the trigram cell `(a0, b0, c0)` moves the column sum of
/// `(a, c)` by the cell's change exactly when `(a, c) == (a0, c0)`.
pub proof fn lemma_colsum_u32_update(
    t: Seq<u32>,
    n: usize,
    a: usize,
    c: usize,
    b_count: nat,
    a0: usize,
    b0: usize,
    c0: usize,
    v: u32,
)
    requires
        a < n,
        c < n,
        a0 < n,
        b0 < n,
        c0 < n,
        b_count <= n,
        t.len() as int == npow(n as int, 3),
    ensures
        colsum_u32(t.update(enc(seq![a0, b0, c0], n), v), n, a, c, b_count) == colsum_u32(
            t,
            n,
            a,
            c,
            b_count,
        ) + (if a == a0 && c == c0 && (b0 as int) < b_count {
            v - t[enc(seq![a0, b0, c0], n)]
        } else {
            0
        }),
    decreases b_count,
{
    let j = enc(seq![a0, b0, c0], n);
    lemma_enc_bounds(seq![a0, b0, c0], n);
    if b_count > 0 {
        lemma_colsum_u32_update(t, n, a, c, (b_count - 1) as nat, a0, b0, c0, v);
        let b = (b_count - 1) as usize;
        let idx = enc(seq![a, b, c], n);
        lemma_enc_bounds(seq![a, b, c], n);
        if a == a0 && c == c0 && b == b0 {
            assert(seq![a, b, c] =~= seq![a0, b0, c0]);
        } else {
            assert(idx != j) by {
                if idx == j {
                    lemma_enc_injective(seq![a, b, c], seq![a0, b0, c0], n);
                    assert(seq![a, b, c][0] == a && seq![a0, b0, c0][0] == a0);
                    assert(seq![a, b, c][1] == b && seq![a0, b0, c0][1] == b0);
                    assert(seq![a, b, c][2] == c && seq![a0, b0, c0][2] == c0);
                }
            }
        }
    }
}

/// The scratch-buffer counterpart of [`lemma_colsum_u32_update`].
pub proof fn lemma_colsum_i64_update(
    t: Seq<i64>,
    n: usize,
    a: usize,
    c: usize,
    b_count: nat,
    a0: usize,
    b0: usize,
    c0: usize,
    v: i64,
)
    requires
        a < n,
        c < n,
        a0 < n,
        b0 < n,
        c0 < n,
        b_count <= n,
        t.len() as int == npow(n as int, 3),
    ensures
        colsum_i64(t.update(enc(seq![a0, b0, c0], n), v), n, a, c, b_count) == colsum_i64(
            t,
            n,
            a,
            c,
            b_count,
        ) + (if a == a0 && c == c0 && (b0 as int) < b_count {
            v - t[enc(seq![a0, b0, c0], n)]
        } else {
            0
        }),
    decreases b_count,
{
    let j = enc(seq![a0, b0, c0], n);
    lemma_enc_bounds(seq![a0, b0, c0], n);
    if b_count > 0 {
        lemma_colsum_i64_update(t, n, a, c, (b_count - 1) as nat, a0, b0, c0, v);
        let b = (b_count - 1) as usize;
        let idx = enc(seq![a, b, c], n);
        lemma_enc_bounds(seq![a, b, c], n);
        if a == a0 && c == c0 && b == b0 {
            assert(seq![a, b, c] =~= seq![a0, b0, c0]);
        } else {
            assert(idx != j) by {
                if idx == j {
                    lemma_enc_injective(seq![a, b, c], seq![a0, b0, c0], n);
                    assert(seq![a, b, c][0] == a && seq![a0, b0, c0][0] == a0);
                    assert(seq![a, b, c][1] == b && seq![a0, b0, c0][1] == b0);
                    assert(seq![a, b, c][2] == c && seq![a0, b0, c0][2] == c0);
                }
            }
        }
    }
}

/// Adding a scratch buffer pointwise adds its column sums.
pub proof fn lemma_colsum_pointwise_add(
    t: Seq<u32>,
    t2: Seq<u32>,
    acc: Seq<i64>,
    n: usize,
    a: usize,
    c: usize,
    b_count: nat,
)
    requires
        a < n,
        c < n,
        b_count <= n,
        t.len() == t2.len(),
        t.len() == acc.len(),
        t.len() as int == npow(n as int, 3),
        forall|i: int| 0 <= i < t.len() ==> t2[i] == t[i] + acc[i],
    ensures
        colsum_u32(t2, n, a, c, b_count) == colsum_u32(t, n, a, c, b_count) + colsum_i64(
            acc,
            n,
            a,
            c,
            b_count,
        ),
    decreases b_count,
{
    if b_count > 0 {
        lemma_colsum_pointwise_add(t, t2, acc, n, a, c, (b_count - 1) as nat);
        let b = (b_count - 1) as usize;
        lemma_enc_bounds(seq![a, b, c], n);
    }
}

/// A column sum over a scratch buffer whose column cells are all zero is
/// zero.
pub proof fn lemma_colsum_i64_zero(t: Seq<i64>, n: usize, a: usize, c: usize, b_count: nat)
    requires
        a < n,
        c < n,
        b_count <= n,
        t.len() as int == npow(n as int, 3),
        forall|b: usize| b < n ==> t[enc(#[trigger] seq![a, b, c], n)] == 0,
    ensures
        colsum_i64(t, n, a, c, b_count) == 0,
    decreases b_count,
{
    if b_count > 0 {
        lemma_colsum_i64_zero(t, n, a, c, (b_count - 1) as nat);
        let b = (b_count - 1) as usize;
        lemma_enc_bounds(seq![a, b, c], n);
        assert(t[enc(seq![a, b, c], n)] == 0);
    }
}

/// Column sums of a non-negatively adjusted table are non-negative.
pub proof fn lemma_colsum_combined_nonneg(
    t: Seq<u32>,
    acc: Seq<i64>,
    n: usize,
    a: usize,
    c: usize,
    b_count: nat,
)
    requires
        a < n,
        c < n,
        b_count <= n,
        t.len() == acc.len(),
        t.len() as int == npow(n as int, 3),
        forall|j: int| 0 <= j < t.len() ==> t[j] + acc[j] >= 0,
    ensures
        colsum_u32(t, n, a, c, b_count) + colsum_i64(acc, n, a, c, b_count) >= 0,
    decreases b_count,
{
    if b_count > 0 {
        lemma_colsum_combined_nonneg(t, acc, n, a, c, (b_count - 1) as nat);
        let b = (b_count - 1) as usize;
        lemma_enc_bounds(seq![a, b, c], n);
    }
}

/// A window holding the pattern is involved.
pub proof fn lemma_match_involved(w: Seq<usize>, r: Rule, p: int)
    requires
        0 <= p,
        p + 2 <= w.len(),
        matches_at(w, r, p),
    ensures
        involved(w, r),
{
    assert(has_pair(w, r.old0, r.old1)) by {
        assert(w[p] == r.old0 && w[p + 1] == r.old1);
    }
}

/// Rewriting an occurrence leaves the replacement pair in the window.
pub proof fn lemma_replace_involved(w: Seq<usize>, r: Rule, p: int)
    requires
        0 <= p,
        p + 2 <= w.len(),
    ensures
        involved(replace_at(w, r, p), r),
{
    let v = replace_at(w, r, p);
    assert(v[p] == r.new0);
    assert(v[p + 1] == r.new1);
    assert(has_pair(v, r.new0, r.new1));
}

/// When no offset matches, the in-window transform is the identity.
pub proof fn lemma_transform_id(w: Seq<usize>, r: Rule)
    requires
        !has_interior_match(w, r),
    ensures
        transform(w, r) == w,
{
    assert forall|p: int| 0 <= p && p + 2 <= w.len() implies !matches_at(w, r, p) by {
        if matches_at(w, r, p) {
            assert(has_interior_match(w, r));
        }
    }
}

/// A transformed window that had a match is involved.
pub proof fn lemma_transform_involved(w: Seq<usize>, r: Rule)
    requires
        1 <= w.len() <= 5,
        has_interior_match(w, r),
    ensures
        involved(transform(w, r), r),
{
    let k = w.len();
    let p0 = choose|p: int| 0 <= p && p + 2 <= w.len() && matches_at(w, r, p);
    if k == 3 {
        if matches_at(w, r, 0) {
            lemma_replace_involved(w, r, 0);
        } else {
            assert(matches_at(w, r, 1));
            lemma_replace_involved(w, r, 1);
        }
    } else if k == 4 {
        if matches_at(w, r, 0) && matches_at(w, r, 2) {
            let v = replace_at(replace_at(w, r, 0), r, 2);
            assert(v[0] == r.new0 && v[1] == r.new1);
            assert(has_pair(v, r.new0, r.new1));
        } else if matches_at(w, r, 0) {
            lemma_replace_involved(w, r, 0);
        } else if matches_at(w, r, 1) {
            lemma_replace_involved(w, r, 1);
        } else {
            assert(matches_at(w, r, 2));
            lemma_replace_involved(w, r, 2);
        }
    } else if k == 5 {
        if matches_at(w, r, 0) && matches_at(w, r, 2) {
            let v = replace_at(replace_at(w, r, 0), r, 2);
            assert(v[0] == r.new0 && v[1] == r.new1);
            assert(has_pair(v, r.new0, r.new1));
        } else if matches_at(w, r, 1) && matches_at(w, r, 3) {
            let v = replace_at(replace_at(w, r, 1), r, 3);
            assert(v[1] == r.new0 && v[2] == r.new1);
            assert(has_pair(v, r.new0, r.new1));
        } else if matches_at(w, r, 0) && matches_at(w, r, 3) {
            let v = replace_at(replace_at(w, r, 0), r, 3);
            assert(v[0] == r.new0 && v[1] == r.new1);
            assert(has_pair(v, r.new0, r.new1));
        } else if matches_at(w, r, 0) {
            lemma_replace_involved(w, r, 0);
        } else if matches_at(w, r, 1) {
            lemma_replace_involved(w, r, 1);
        } else if matches_at(w, r, 2) {
            lemma_replace_involved(w, r, 2);
        } else {
            assert(matches_at(w, r, 3));
            lemma_replace_involved(w, r, 3);
        }
    } else {
        // Orders one and two: a match means the whole window is the pattern
        // (order two) and the transform is the identity there.
        assert(k == 2 && matches_at(w, r, 0));
        lemma_match_involved(w, r, 0);
    }
}

/// The cell the boundary pass subtracts from (the transformed window's own
/// cell) is involved whenever any candidate exists.
pub proof fn lemma_boundary_sub_involved(w: Seq<usize>, r: Rule)
    requires
        1 <= w.len() <= 5,
        left_exists(w, r) || right_exists(w, r),
    ensures
        involved(transform(w, r), r),
{
    if has_interior_match(w, r) {
        lemma_transform_involved(w, r);
    } else {
        lemma_transform_id(w, r);
    }
}

/// Every candidate's new-side pattern is involved: Left starts with the
/// replacement's second character, Right ends with its first, Both has
/// one of each.
pub proof fn lemma_candidate_new_involved(w: Seq<usize>, r: Rule)
    requires
        1 <= w.len() <= 5,
    ensures
        involved(left_new(w, r), r),
        involved(right_new(w, r), r),
        involved(both_new(w, r), r),
{
    lemma_transform_len(w, r);
    let k = w.len();
    assert(left_new(w, r)[0] == r.new1);
    assert(right_new(w, r)[k - 1] == r.new0);
    assert(right_new(w, r).len() == k);
    if k == 1 {
        assert(both_new(w, r)[0] == r.new0);
    } else {
        assert(both_new(w, r).len() == k);
        assert(both_new(w, r)[0] == r.new1);
    }
}


/// Every candidate window is a valid window of the documented length: the
/// old sides are one or two characters longer than the window, the new
/// sides have the window's own length.
pub proof fn lemma_candidates_valid(w: Seq<usize>, r: Rule, n: usize)
    requires
        1 <= w.len() <= 5,
        win_valid(w, n),
        r.valid(n),
    ensures
        left_old(w, r).len() == w.len() + 1,
        right_old(w, r).len() == w.len() + 1,
        both_old(w, r).len() == w.len() + 2,
        left_new(w, r).len() == w.len(),
        right_new(w, r).len() == w.len(),
        both_new(w, r).len() == w.len(),
        win_valid(left_old(w, r), n),
        win_valid(right_old(w, r), n),
        win_valid(both_old(w, r), n),
        win_valid(left_new(w, r), n),
        win_valid(right_new(w, r), n),
        win_valid(both_new(w, r), n),
{
    lemma_transform_len(w, r);
    lemma_transform_valid(w, r, n);
    let k = w.len() as int;
    assert forall|j: int| 0 <= j < left_old(w, r).len() implies left_old(w, r)[j] < n by {}
    assert forall|j: int| 0 <= j < right_old(w, r).len() implies right_old(w, r)[j] < n by {}
    assert forall|j: int| 0 <= j < both_old(w, r).len() implies both_old(w, r)[j] < n by {}
    assert forall|j: int| 0 <= j < left_new(w, r).len() implies left_new(w, r)[j] < n by {
        if j > 0 {
            assert(left_new(w, r)[j] == transform(w, r).skip(1)[j - 1]);
        }
    }
    assert forall|j: int| 0 <= j < right_new(w, r).len() implies right_new(w, r)[j] < n by {
        if j < k - 1 {
            assert(right_new(w, r)[j] == transform(w, r).take(k - 1)[j]);
        }
    }
    assert forall|j: int| 0 <= j < both_new(w, r).len() implies both_new(w, r)[j] < n by {
        if w.len() > 1 && 0 < j < k - 1 {
            assert(both_new(w, r)[j] == left_new(w, r)[j]);
        }
    }
}


/// No window that the rule could touch carries any frequency: every
/// involved cell of every order is zero.
pub open spec fn rule_untouched(c: &Corpus, r: Rule) -> bool {
    forall|kk: int, j: int|
        1 <= kk <= 5 && 0 <= j < c.table_spec(kk).len() && involved(
            dec(j, kk as nat, c.sz()),
            r,
        ) ==> c.table_spec(kk)[j] == 0u32
}

/// The rule named by four characters touches no counted mass.
pub open spec fn rule_untouched_chars(c: &Corpus, old_bg: Seq<char>, new_bg: Seq<char>) -> bool {
    rule_untouched(
        c,
        Rule {
            old0: c.char_idx_spec(old_bg[0]),
            old1: c.char_idx_spec(old_bg[1]),
            new0: c.char_idx_spec(new_bg[0]),
            new1: c.char_idx_spec(new_bg[1]),
        },
    )
}

/// Untouchedness only reads the tables and the alphabet, so it carries
/// over to a corpus with the same contents.
pub proof fn lemma_untouched_same(c1: &Corpus, c2: &Corpus, r: Rule)
    requires
        tables_unchanged(c1, c2),
        c1.char_list@ == c2.char_list@,
        rule_untouched(c2, r),
    ensures
        rule_untouched(c1, r),
{
    assert forall|kk: int, j: int|
        1 <= kk <= 5 && 0 <= j < c1.table_spec(kk).len() && involved(
            dec(j, kk as nat, c1.sz()),
            r,
        ) implies c1.table_spec(kk)[j] == 0u32 by {
        assert(c1.table_spec(kk) == c2.table_spec(kk));
    }
}

/// Every candidate's old-side context is involved, and so are the two
/// pentagram sub-windows that bound a context longer than a pentagram.
pub proof fn lemma_candidate_old_involved(w: Seq<usize>, r: Rule)
    requires
        1 <= w.len() <= 5,
    ensures
        left_exists(w, r) ==> involved(left_old(w, r), r),
        left_exists(w, r) && left_old(w, r).len() > 5 ==> involved(left_old(w, r).take(5), r)
            && involved(left_old(w, r).skip(left_old(w, r).len() - 5), r),
        right_exists(w, r) ==> involved(right_old(w, r), r),
        right_exists(w, r) && right_old(w, r).len() > 5 ==> involved(right_old(w, r).take(5), r)
            && involved(right_old(w, r).skip(right_old(w, r).len() - 5), r),
        left_exists(w, r) && right_exists(w, r) ==> involved(both_old(w, r), r),
        left_exists(w, r) && right_exists(w, r) && both_old(w, r).len() > 5 ==> involved(
            both_old(w, r).take(5),
            r,
        ) && involved(both_old(w, r).skip(both_old(w, r).len() - 5), r),
{
    let k = w.len() as int;
    if left_exists(w, r) {
        let lo = left_old(w, r);
        assert(lo[0] == r.old0 && lo[1] == r.old1);
        assert(has_pair(lo, r.old0, r.old1));
        if lo.len() > 5 {
            let pre = lo.take(5);
            assert(pre[0] == r.old0 && pre[1] == r.old1);
            assert(has_pair(pre, r.old0, r.old1));
            let suf = lo.skip(lo.len() - 5);
            assert(suf =~= w);
            assert(involved(w, r));
        }
    }
    if right_exists(w, r) {
        let ro = right_old(w, r);
        assert(ro[k - 1] == r.old0 && ro[k] == r.old1);
        assert(has_pair(ro, r.old0, r.old1));
        if ro.len() > 5 {
            let pre = ro.take(5);
            assert(pre =~= w);
            assert(involved(w, r));
            let suf = ro.skip(ro.len() - 5);
            assert(suf[3] == w[k - 1] && suf[4] == r.old1);
            assert(has_pair(suf, r.old0, r.old1));
        }
    }
    if left_exists(w, r) && right_exists(w, r) {
        let bo = both_old(w, r);
        assert(bo[0] == r.old0 && bo[1] == r.old1);
        assert(has_pair(bo, r.old0, r.old1));
        if bo.len() > 5 {
            let pre = bo.take(5);
            assert(pre[0] == r.old0 && pre[1] == r.old1);
            assert(has_pair(pre, r.old0, r.old1));
            let suf = bo.skip(bo.len() - 5);
            if k == 4 {
                assert(suf[4] == r.old1 && suf[3] == w[3]);
                assert(has_pair(suf, r.old0, r.old1));
            } else {
                assert(suf[4] == r.old1 && suf[3] == w[4]);
                assert(has_pair(suf, r.old0, r.old1));
            }
        }
    }
}

/// Looking up an involved context of a rule that touches no counted mass
/// yields zero, for table cells and for estimated longer contexts alike.
pub proof fn lemma_untouched_lookup_zero(c: &Corpus, r: Rule, v: Seq<usize>)
    requires
        c.wf(),
        rule_untouched(c, r),
        win_valid(v, c.sz()),
        1 <= v.len() <= 7,
        v.len() <= 5 ==> involved(v, r),
        v.len() > 5 ==> involved(v.take(5), r) && involved(v.skip(v.len() - 5), r),
    ensures
        c.spec_lookup(v) == 0,
{
    let n = c.sz();
    assert(v[0] < n);
    if v.len() <= 5 {
        lemma_enc_bounds(v, n);
        lemma_dec_enc(v, n);
        assert(c.table_spec(v.len() as int)[enc(v, n)] == 0u32);
    } else {
        let pre = v.take(5);
        let suf = v.skip(v.len() - 5);
        assert(win_valid(pre, n));
        assert(win_valid(suf, n)) by {
            assert(forall|j: int| 0 <= j < 5 ==> suf[j] == v[v.len() - 5 + j]);
        }
        lemma_enc_bounds(pre, n);
        lemma_enc_bounds(suf, n);
        lemma_dec_enc(pre, n);
        lemma_dec_enc(suf, n);
        assert(c.table_spec(5)[enc(pre, n)] == 0u32);
        assert(c.table_spec(5)[enc(suf, n)] == 0u32);
        assert(c.pentagrams@[enc(pre, n)] == 0u32);
        assert(c.pentagrams@[enc(suf, n)] == 0u32);
    }
}

} // verus!
