//! The exact effect of the two adaptation passes, written as spec-level
//! folds of the per-window moves over the windows in table order.  The
//! passes' public contracts equate the tables they produce with these
//! folds, cell for cell.

use vstd::prelude::*;
use crate::Rule;
use crate::corpus::{Corpus, Estimator};
use crate::nums::{npow, clamp_u32, lemma_npow_pos};
use crate::encoding::{enc, dec, win_valid, lemma_enc_bounds, lemma_enc_dec, lemma_enc_injective};
use vstd::arithmetic::div_mod::lemma_mod_bound;
use crate::expansion::{
    matches_at, replace_at, has_interior_match, transform, left_exists, right_exists, left_old,
    left_new, right_old, right_new, both_old, both_new, lemma_transform_len, lemma_transform_valid,
};
use crate::props::{pair_idx, lemma_candidates_valid};

verus! {

/// A frequency table read as unbounded integers.
pub open spec fn to_int(s: Seq<u32>) -> Seq<int> {
    Seq::new(s.len(), |j: int| s[j] as int)
}

/// The interior case list of one window: the transformed windows its count
/// is sent to.  Order three enumerates its two offsets independently; the
/// other orders resolve their case chain to one combined transform.
pub open spec fn interior_targets(w: Seq<usize>, r: Rule) -> Seq<Seq<usize>> {
    let k = w.len();
    if k == 2 {
        if matches_at(w, r, 0) {
            seq![replace_at(w, r, 0)]
        } else {
            seq![]
        }
    } else if k == 3 {
        (if matches_at(w, r, 0) {
            seq![replace_at(w, r, 0)]
        } else {
            seq![]
        }) + (if matches_at(w, r, 1) {
            seq![replace_at(w, r, 1)]
        } else {
            seq![]
        })
    } else if (k == 4 || k == 5) && has_interior_match(w, r) {
        seq![transform(w, r)]
    } else {
        seq![]
    }
}

/// One move of `f` units from cell `oi` to cell `ni` of a signed buffer.
pub open spec fn move_mass(acc: Seq<int>, oi: int, ni: int, f: int) -> Seq<int> {
    let a1 = acc.update(oi, acc[oi] - f);
    a1.update(ni, a1[ni] + f)
}

/// The interior pass's scratch buffer after its first `upto` windows: each
/// window sends its own whole pre-pass count to each of its targets.
pub open spec fn interior_acc(tk: Seq<u32>, n: usize, k: nat, r: Rule, upto: nat) -> Seq<int>
    decreases upto,
{
    if upto == 0 {
        Seq::new(tk.len(), |j: int| 0)
    } else {
        let prev = interior_acc(tk, n, k, r, (upto - 1) as nat);
        let i = upto - 1;
        let w = dec(i as int, k, n);
        let ts = interior_targets(w, r);
        let f = tk[i as int] as int;
        if ts.len() == 0 {
            prev
        } else if ts.len() == 1 {
            move_mass(prev, i as int, enc(ts[0], n), f)
        } else {
            move_mass(move_mass(prev, i as int, enc(ts[0], n), f), i as int, enc(ts[1], n), f)
        }
    }
}

/// The interior pass's skip-bigram scratch (order three only): every
/// trigram move is mirrored between the outer-character pair cells.
pub open spec fn interior_skip_acc(tk: Seq<u32>, n: usize, r: Rule, upto: nat) -> Seq<int>
    decreases upto,
{
    if upto == 0 {
        Seq::new(npow(n as int, 2) as nat, |j: int| 0)
    } else {
        let prev = interior_skip_acc(tk, n, r, (upto - 1) as nat);
        let i = upto - 1;
        let w = dec(i as int, 3, n);
        let ts = interior_targets(w, r);
        let f = tk[i as int] as int;
        if ts.len() == 0 {
            prev
        } else if ts.len() == 1 {
            move_mass(prev, pair_idx(n, w[0], w[2]), pair_idx(n, ts[0][0], ts[0][2]), f)
        } else {
            move_mass(
                move_mass(prev, pair_idx(n, w[0], w[2]), pair_idx(n, ts[0][0], ts[0][2]), f),
                pair_idx(n, w[0], w[2]),
                pair_idx(n, ts[1][0], ts[1][2]),
                f,
            )
        }
    }
}

/// Frequency of the Both candidate's context, read in corpus `c`.
pub open spec fn resolved_both(c: &Corpus, w: Seq<usize>, r: Rule) -> int {
    if left_exists(w, r) && right_exists(w, r) {
        c.spec_lookup(both_old(w, r)) as int
    } else {
        0
    }
}

/// Frequency of the Left candidate's context with Both's mass deducted.
pub open spec fn resolved_left(c: &Corpus, w: Seq<usize>, r: Rule) -> int {
    if left_exists(w, r) {
        c.spec_lookup(left_old(w, r)) - resolved_both(c, w, r)
    } else {
        0
    }
}

/// Frequency of the Right candidate's context with Both's mass deducted.
pub open spec fn resolved_right(c: &Corpus, w: Seq<usize>, r: Rule) -> int {
    if right_exists(w, r) {
        c.spec_lookup(right_old(w, r)) - resolved_both(c, w, r)
    } else {
        0
    }
}

/// Add `d` to one cell.
pub open spec fn bump(t: Seq<int>, j: int, d: int) -> Seq<int> {
    t.update(j, t[j] + d)
}

/// The boundary pass's effect of one window on its order's table: each
/// resolved candidate mass enters its new-side bucket and their total
/// leaves the transformed window's own bucket.
pub open spec fn boundary_win_tbl(t: Seq<int>, c: &Corpus, w: Seq<usize>, r: Rule) -> Seq<int> {
    let n = c.sz();
    let rb = resolved_both(c, w, r);
    let rl = resolved_left(c, w, r);
    let rr = resolved_right(c, w, r);
    let t1 = if left_exists(w, r) && right_exists(w, r) {
        bump(t, enc(both_new(w, r), n), rb)
    } else {
        t
    };
    let t2 = if left_exists(w, r) {
        bump(t1, enc(left_new(w, r), n), rl)
    } else {
        t1
    };
    let t3 = if right_exists(w, r) {
        bump(t2, enc(right_new(w, r), n), rr)
    } else {
        t2
    };
    bump(t3, enc(transform(w, r), n), -(rb + rl + rr))
}

/// The boundary pass's table of order `k` after its first `upto` windows,
/// starting from `base`, with every candidate resolved against `c` (whose
/// higher-order tables the pass never writes).
pub open spec fn boundary_tbl(base: Seq<int>, c: &Corpus, k: nat, r: Rule, upto: nat) -> Seq<int>
    decreases upto,
{
    if upto == 0 {
        base
    } else {
        let prev = boundary_tbl(base, c, k, r, (upto - 1) as nat);
        boundary_win_tbl(prev, c, dec((upto - 1) as int, k, c.sz()), r)
    }
}

/// The boundary pass's skip-bigram mirror of one order-three window.
pub open spec fn boundary_win_skip(t: Seq<int>, c: &Corpus, w: Seq<usize>, r: Rule) -> Seq<int> {
    let n = c.sz();
    let rb = resolved_both(c, w, r);
    let rl = resolved_left(c, w, r);
    let rr = resolved_right(c, w, r);
    let bn = both_new(w, r);
    let ln = left_new(w, r);
    let rn = right_new(w, r);
    let tw = transform(w, r);
    let t1 = if left_exists(w, r) && right_exists(w, r) {
        bump(t, pair_idx(n, bn[0], bn[2]), rb)
    } else {
        t
    };
    let t2 = if left_exists(w, r) {
        bump(t1, pair_idx(n, ln[0], ln[2]), rl)
    } else {
        t1
    };
    let t3 = if right_exists(w, r) {
        bump(t2, pair_idx(n, rn[0], rn[2]), rr)
    } else {
        t2
    };
    bump(t3, pair_idx(n, tw[0], tw[2]), -(rb + rl + rr))
}

/// The boundary pass's skip-bigram table after its first `upto` trigram
/// windows.
pub open spec fn boundary_skip(base: Seq<int>, c: &Corpus, r: Rule, upto: nat) -> Seq<int>
    decreases upto,
{
    if upto == 0 {
        base
    } else {
        let prev = boundary_skip(base, c, r, (upto - 1) as nat);
        boundary_win_skip(prev, c, dec((upto - 1) as int, 3, c.sz()), r)
    }
}

/// Every interior target is a valid window of the same order.
pub proof fn lemma_interior_targets_valid(w: Seq<usize>, r: Rule, n: usize)
    requires
        win_valid(w, n),
        r.valid(n),
        1 <= w.len() <= 5,
    ensures
        forall|ti: int|
            0 <= ti < interior_targets(w, r).len() ==> (#[trigger] interior_targets(w, r)[ti]).len()
                == w.len() && win_valid(interior_targets(w, r)[ti], n),
{
    lemma_transform_len(w, r);
    lemma_transform_valid(w, r, n);
    assert forall|ti: int|
        0 <= ti < interior_targets(w, r).len() implies (#[trigger] interior_targets(w, r)[ti]).len()
        == w.len() && win_valid(interior_targets(w, r)[ti], n) by {
        let t = interior_targets(w, r)[ti];
        if w.len() == 2 || w.len() == 3 {
            assert(t == replace_at(w, r, 0) || t == replace_at(w, r, 1));
            assert forall|j: int| 0 <= j < t.len() implies t[j] < n by {}
        }
    }
}

/// The digits of any non-negative index form a valid window of length `k`,
/// whether or not the index lies inside the table.
pub proof fn lemma_dec_valid(i: int, k: nat, n: usize)
    requires
        n >= 1,
        i >= 0,
    ensures
        dec(i, k, n).len() == k,
        win_valid(dec(i, k, n), n),
    decreases k,
{
    if k > 0 {
        assert(i / (n as int) >= 0) by (nonlinear_arith)
            requires
                i >= 0,
                n >= 1,
        ;
        lemma_dec_valid(i / (n as int), (k - 1) as nat, n);
        lemma_mod_bound(i, n as int);
        assert(dec(i, k, n) =~= dec(i / (n as int), (k - 1) as nat, n).push(
            (i % (n as int)) as usize,
        ));
    }
}

/// No window with a nonzero count holds the rule's pattern: the interior
/// pass has nothing to move.
pub open spec fn pattern_free(tk: Seq<u32>, n: usize, k: nat, r: Rule) -> bool {
    forall|i: int|
        0 <= i < tk.len() && has_interior_match(#[trigger] dec(i, k, n), r) ==> tk[i] == 0u32
}

/// A move keeps the buffer's length.
pub proof fn lemma_move_mass_len(acc: Seq<int>, oi: int, ni: int, f: int)
    requires
        0 <= oi < acc.len(),
        0 <= ni < acc.len(),
    ensures
        move_mass(acc, oi, ni, f).len() == acc.len(),
{
}

/// A move of nothing changes nothing.
pub proof fn lemma_move_mass_zero(acc: Seq<int>, oi: int, ni: int)
    requires
        0 <= oi < acc.len(),
        0 <= ni < acc.len(),
    ensures
        move_mass(acc, oi, ni, 0) == acc,
{
    assert(move_mass(acc, oi, ni, 0) =~= acc);
}

/// A move onto the same cell changes nothing.
pub proof fn lemma_move_mass_self(acc: Seq<int>, oi: int, f: int)
    requires
        0 <= oi < acc.len(),
    ensures
        move_mass(acc, oi, oi, f) == acc,
{
    assert(move_mass(acc, oi, oi, f) =~= acc);
}

/// The scratch folds keep the table's length.
pub proof fn lemma_interior_acc_len(tk: Seq<u32>, n: usize, k: nat, r: Rule, upto: nat)
    requires
        n >= 1,
        2 <= k <= 5,
        r.valid(n),
        tk.len() as int == npow(n as int, k),
        upto <= tk.len(),
    ensures
        interior_acc(tk, n, k, r, upto).len() == tk.len(),
    decreases upto,
{
    if upto > 0 {
        lemma_interior_acc_len(tk, n, k, r, (upto - 1) as nat);
        let i = (upto - 1) as int;
        lemma_enc_dec(i, k, n);
        let w = dec(i, k, n);
        lemma_interior_targets_valid(w, r, n);
        let ts = interior_targets(w, r);
        if ts.len() >= 1 {
            lemma_enc_bounds(ts[0], n);
        }
        if ts.len() >= 2 {
            lemma_enc_bounds(ts[1], n);
        }
    }
}

pub proof fn lemma_interior_skip_acc_len(tk: Seq<u32>, n: usize, r: Rule, upto: nat)
    requires
        n >= 1,
        r.valid(n),
    ensures
        interior_skip_acc(tk, n, r, upto).len() as int == npow(n as int, 2),
    decreases upto,
{
    lemma_npow_pos(n as int, 2);
    if upto > 0 {
        lemma_interior_skip_acc_len(tk, n, r, (upto - 1) as nat);
        let i = (upto - 1) as int;
        lemma_dec_valid(i, 3, n);
        let w = dec(i, 3, n);
        lemma_interior_targets_valid(w, r, n);
        let ts = interior_targets(w, r);
        lemma_enc_bounds(seq![w[0], w[2]], n);
        if ts.len() >= 1 {
            lemma_enc_bounds(seq![ts[0][0], ts[0][2]], n);
        }
        if ts.len() >= 2 {
            lemma_enc_bounds(seq![ts[1][0], ts[1][2]], n);
        }
    }
}

/// Order one has no interior case list, so its scratch fold stays zero.
pub proof fn lemma_interior_acc_order_one(tk: Seq<u32>, n: usize, r: Rule, upto: nat)
    ensures
        interior_acc(tk, n, 1, r, upto) == Seq::new(tk.len(), |j: int| 0int),
    decreases upto,
{
    if upto > 0 {
        lemma_interior_acc_order_one(tk, n, r, (upto - 1) as nat);
        let w = dec((upto - 1) as int, 1, n);
        assert(w.len() == 1) by {
            assert(dec(((upto - 1) as int) / (n as int), 0, n).len() == 0);
        }
        assert(interior_targets(w, r) =~= Seq::<Seq<usize>>::empty());
    }
}

/// A window with a zero count contributes nothing to either scratch fold.
pub proof fn lemma_interior_step_zero(tk: Seq<u32>, n: usize, k: nat, r: Rule, i: int)
    requires
        n >= 1,
        2 <= k <= 5,
        r.valid(n),
        tk.len() as int == npow(n as int, k),
        0 <= i < tk.len(),
        tk[i] == 0u32,
    ensures
        interior_acc(tk, n, k, r, (i + 1) as nat) == interior_acc(tk, n, k, r, i as nat),
        interior_skip_acc(tk, n, r, (i + 1) as nat) == interior_skip_acc(tk, n, r, i as nat),
    decreases 0nat,
{
    lemma_interior_acc_len(tk, n, k, r, i as nat);
    lemma_interior_skip_acc_len(tk, n, r, i as nat);
    lemma_npow_pos(n as int, 2);
    lemma_enc_dec(i, k, n);
    let w = dec(i, k, n);
    lemma_interior_targets_valid(w, r, n);
    let ts = interior_targets(w, r);
    let prev = interior_acc(tk, n, k, r, i as nat);
    if ts.len() >= 1 {
        lemma_enc_bounds(ts[0], n);
        lemma_move_mass_zero(prev, i, enc(ts[0], n));
    }
    if ts.len() >= 2 {
        lemma_enc_bounds(ts[1], n);
        lemma_move_mass_zero(move_mass(prev, i, enc(ts[0], n), 0), i, enc(ts[1], n));
    }
    lemma_dec_valid(i, 3, n);
    let w3 = dec(i, 3, n);
    lemma_interior_targets_valid(w3, r, n);
    let ts3 = interior_targets(w3, r);
    let sprev = interior_skip_acc(tk, n, r, i as nat);
    lemma_enc_bounds(seq![w3[0], w3[2]], n);
    if ts3.len() >= 1 {
        lemma_enc_bounds(seq![ts3[0][0], ts3[0][2]], n);
        lemma_move_mass_zero(sprev, pair_idx(n, w3[0], w3[2]), pair_idx(n, ts3[0][0], ts3[0][2]));
    }
    if ts3.len() >= 2 {
        lemma_enc_bounds(seq![ts3[1][0], ts3[1][2]], n);
        lemma_move_mass_zero(
            move_mass(sprev, pair_idx(n, w3[0], w3[2]), pair_idx(n, ts3[0][0], ts3[0][2]), 0),
            pair_idx(n, w3[0], w3[2]),
            pair_idx(n, ts3[1][0], ts3[1][2]),
        );
    }
}

pub proof fn lemma_boundary_tbl_len(base: Seq<int>, c: &Corpus, k: nat, r: Rule, upto: nat)
    requires
        c.sz() >= 1,
        1 <= k <= 5,
        r.valid(c.sz()),
        base.len() as int == npow(c.sz() as int, k),
        upto <= base.len(),
    ensures
        boundary_tbl(base, c, k, r, upto).len() == base.len(),
    decreases upto,
{
    if upto > 0 {
        lemma_boundary_tbl_len(base, c, k, r, (upto - 1) as nat);
        let n = c.sz();
        let i = (upto - 1) as int;
        lemma_enc_dec(i, k, n);
        let w = dec(i, k, n);
        lemma_candidates_valid(w, r, n);
        lemma_transform_valid(w, r, n);
        lemma_transform_len(w, r);
        lemma_enc_bounds(both_new(w, r), n);
        lemma_enc_bounds(left_new(w, r), n);
        lemma_enc_bounds(right_new(w, r), n);
        lemma_enc_bounds(transform(w, r), n);
    }
}

pub proof fn lemma_boundary_skip_len(base: Seq<int>, c: &Corpus, r: Rule, upto: nat)
    requires
        c.sz() >= 1,
        r.valid(c.sz()),
        base.len() as int == npow(c.sz() as int, 2),
        upto as int <= npow(c.sz() as int, 3),
    ensures
        boundary_skip(base, c, r, upto).len() == base.len(),
    decreases upto,
{
    if upto > 0 {
        lemma_boundary_skip_len(base, c, r, (upto - 1) as nat);
        let n = c.sz();
        let i = (upto - 1) as int;
        lemma_enc_dec(i, 3, n);
        let w = dec(i, 3, n);
        lemma_candidates_valid(w, r, n);
        lemma_transform_valid(w, r, n);
        lemma_transform_len(w, r);
        let bn = both_new(w, r);
        let ln = left_new(w, r);
        let rn = right_new(w, r);
        let tw = transform(w, r);
        lemma_enc_bounds(seq![bn[0], bn[2]], n);
        lemma_enc_bounds(seq![ln[0], ln[2]], n);
        lemma_enc_bounds(seq![rn[0], rn[2]], n);
        lemma_enc_bounds(seq![tw[0], tw[2]], n);
    }
}

/// Two corpora of the same alphabet and estimator that agree on a window's
/// table (and, for contexts beyond the pentagrams, on the pentagram table
/// unless the estimator ignores it) give that window the same frequency.
pub proof fn lemma_lookup_agrees(c1: &Corpus, c0: &Corpus, v: Seq<usize>)
    requires
        c1.sz() == c0.sz(),
        c1.estimator == c0.estimator,
        1 <= v.len() <= 7,
        v.len() <= 5 ==> c1.table_spec(v.len() as int) == c0.table_spec(v.len() as int),
        v.len() > 5 ==> (c1.estimator == Estimator::Zero || c1.pentagrams@ == c0.pentagrams@),
    ensures
        c1.spec_lookup(v) == c0.spec_lookup(v),
{
}

/// The boundary fold depends on the lookup corpus only through the windows'
/// candidate frequencies: two corpora that agree on the two orders above
/// `k` (through the pentagrams and the estimator where the context is
/// longer than a pentagram) fold identically.
pub proof fn lemma_boundary_tbl_agrees(
    base: Seq<int>,
    c1: &Corpus,
    c0: &Corpus,
    k: nat,
    r: Rule,
    upto: nat,
)
    requires
        1 <= k <= 5,
        c0.sz() >= 1,
        r.valid(c0.sz()),
        c1.sz() == c0.sz(),
        c1.estimator == c0.estimator,
        k + 1 <= 5 ==> c1.table_spec(k as int + 1) == c0.table_spec(k as int + 1),
        k + 2 <= 5 ==> c1.table_spec(k as int + 2) == c0.table_spec(k as int + 2),
        k + 2 > 5 ==> (c1.estimator == Estimator::Zero || c1.pentagrams@ == c0.pentagrams@),
    ensures
        boundary_tbl(base, c1, k, r, upto) == boundary_tbl(base, c0, k, r, upto),
        k == 3 ==> boundary_skip(base, c1, r, upto) == boundary_skip(base, c0, r, upto),
    decreases upto,
{
    if upto > 0 {
        lemma_boundary_tbl_agrees(base, c1, c0, k, r, (upto - 1) as nat);
        let n = c0.sz();
        let i = (upto - 1) as int;
        lemma_dec_valid(i, k, n);
        let w = dec(i, k, n);
        lemma_candidates_valid(w, r, n);
        lemma_lookup_agrees(c1, c0, left_old(w, r));
        lemma_lookup_agrees(c1, c0, right_old(w, r));
        lemma_lookup_agrees(c1, c0, both_old(w, r));
    }
}


/// Pointwise value of the one-window table fold: each cell gains the
/// resolved masses directed at it and loses the total at the transformed
/// window's cell.
pub proof fn lemma_win_tbl_pointwise(t: Seq<int>, c: &Corpus, w: Seq<usize>, r: Rule, n: usize)
    requires
        n == c.sz(),
        n >= 1,
        win_valid(w, n),
        r.valid(n),
        1 <= w.len() <= 5,
        t.len() as int == npow(n as int, w.len()),
    ensures
        boundary_win_tbl(t, c, w, r).len() == t.len(),
        forall|j: int|
            0 <= j < t.len() ==> #[trigger] boundary_win_tbl(t, c, w, r)[j] == t[j] + (
            if left_exists(w, r) && right_exists(w, r) && j == enc(both_new(w, r), n) {
                resolved_both(c, w, r)
            } else {
                0
            }) + (if left_exists(w, r) && j == enc(left_new(w, r), n) {
                resolved_left(c, w, r)
            } else {
                0
            }) + (if right_exists(w, r) && j == enc(right_new(w, r), n) {
                resolved_right(c, w, r)
            } else {
                0
            }) + (if j == enc(transform(w, r), n) {
                -(resolved_both(c, w, r) + resolved_left(c, w, r) + resolved_right(c, w, r))
            } else {
                0
            }),
{
    lemma_candidates_valid(w, r, n);
    lemma_transform_len(w, r);
    lemma_transform_valid(w, r, n);
    lemma_enc_bounds(both_new(w, r), n);
    lemma_enc_bounds(left_new(w, r), n);
    lemma_enc_bounds(right_new(w, r), n);
    lemma_enc_bounds(transform(w, r), n);
}

/// Pointwise value of the one-window skip-bigram fold.
pub proof fn lemma_win_skip_pointwise(t: Seq<int>, c: &Corpus, w: Seq<usize>, r: Rule, n: usize)
    requires
        n == c.sz(),
        n >= 1,
        win_valid(w, n),
        r.valid(n),
        w.len() == 3,
        t.len() as int == npow(n as int, 2),
    ensures
        boundary_win_skip(t, c, w, r).len() == t.len(),
        forall|j: int|
            0 <= j < t.len() ==> #[trigger] boundary_win_skip(t, c, w, r)[j] == t[j] + (
            if left_exists(w, r) && right_exists(w, r) && j == pair_idx(
                n,
                both_new(w, r)[0],
                both_new(w, r)[2],
            ) {
                resolved_both(c, w, r)
            } else {
                0
            }) + (if left_exists(w, r) && j == pair_idx(n, left_new(w, r)[0], left_new(w, r)[2]) {
                resolved_left(c, w, r)
            } else {
                0
            }) + (if right_exists(w, r) && j == pair_idx(n, right_new(w, r)[0], right_new(w, r)[2]) {
                resolved_right(c, w, r)
            } else {
                0
            }) + (if j == pair_idx(n, transform(w, r)[0], transform(w, r)[2]) {
                -(resolved_both(c, w, r) + resolved_left(c, w, r) + resolved_right(c, w, r))
            } else {
                0
            }),
{
    lemma_candidates_valid(w, r, n);
    lemma_transform_len(w, r);
    lemma_transform_valid(w, r, n);
    lemma_enc_bounds(seq![both_new(w, r)[0], both_new(w, r)[2]], n);
    lemma_enc_bounds(seq![left_new(w, r)[0], left_new(w, r)[2]], n);
    lemma_enc_bounds(seq![right_new(w, r)[0], right_new(w, r)[2]], n);
    lemma_enc_bounds(seq![transform(w, r)[0], transform(w, r)[2]], n);
}

/// Pointwise value of a table after up to three conditional additions and
/// one subtraction, each given by its exact cell-update form.
pub proof fn lemma_step_chain(
    a0: Seq<u32>,
    a1: Seq<u32>,
    a2: Seq<u32>,
    a3: Seq<u32>,
    a4: Seq<u32>,
    e1: int,
    d1: int,
    g1: bool,
    e2: int,
    d2: int,
    g2: bool,
    e3: int,
    d3: int,
    g3: bool,
    e4: int,
    d4: int,
)
    requires
        a1.len() == a0.len(),
        a2.len() == a0.len(),
        a3.len() == a0.len(),
        a4.len() == a0.len(),
        0 <= e1 < a0.len(),
        0 <= e2 < a0.len(),
        0 <= e3 < a0.len(),
        0 <= e4 < a0.len(),
        g1 ==> a1 == a0.update(e1, a1[e1]) && a1[e1] as int == a0[e1] as int + d1,
        !g1 ==> a1 == a0,
        g2 ==> a2 == a1.update(e2, a2[e2]) && a2[e2] as int == a1[e2] as int + d2,
        !g2 ==> a2 == a1,
        g3 ==> a3 == a2.update(e3, a3[e3]) && a3[e3] as int == a2[e3] as int + d3,
        !g3 ==> a3 == a2,
        a4 == a3.update(e4, a4[e4]) && a4[e4] as int == a3[e4] as int + d4,
    ensures
        forall|j: int|
            0 <= j < a0.len() ==> a4[j] as int == a0[j] + (if g1 && j == e1 {
                d1
            } else {
                0
            }) + (if g2 && j == e2 {
                d2
            } else {
                0
            }) + (if g3 && j == e3 {
                d3
            } else {
                0
            }) + (if j == e4 {
                d4
            } else {
                0
            }),
{
}


/// The table of order `k` right after the interior pass: each cell holds
/// its old value plus the folded interior moves, saturated into range.
pub open spec fn interior_result(tk: Seq<u32>, n: usize, k: nat, r: Rule) -> Seq<int> {
    Seq::new(tk.len(), |j: int| clamp_u32(tk[j] + interior_acc(tk, n, k, r, tk.len())[j]))
}

/// The skip-bigram table right after the order-three interior pass.
pub open spec fn interior_skip_result(tk: Seq<u32>, sk: Seq<u32>, n: usize, r: Rule) -> Seq<int> {
    Seq::new(sk.len(), |s: int| clamp_u32(sk[s] + interior_skip_acc(tk, n, r, tk.len())[s]))
}

/// The table of order `k` after a whole order adaptation of corpus `c`:
/// the interior fold, then the boundary fold with every candidate resolved
/// against the higher-order tables of `c`.
pub open spec fn order_result(c: &Corpus, k: nat, r: Rule) -> Seq<int> {
    boundary_tbl(
        interior_result(c.table_spec(k as int), c.sz(), k, r),
        c,
        k,
        r,
        c.table_spec(k as int).len(),
    )
}

/// The skip-bigram table after a whole order-three adaptation of `c`.
pub open spec fn order_skip_result(c: &Corpus, r: Rule) -> Seq<int> {
    boundary_skip(
        interior_skip_result(c.table_spec(3), c.skipgrams@, c.sz(), r),
        c,
        r,
        c.table_spec(3).len(),
    )
}

} // verus!
