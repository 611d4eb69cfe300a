//! Interior adaptation: for every window that contains the rule's pattern,
//! move the window's whole frequency to its transformed window.  All moves
//! are recorded in a signed scratch buffer and folded into the real table
//! in one saturating pass afterwards, so that no single update can drive a
//! counter negative while a cell is both a source and a destination.

use vstd::prelude::*;
use crate::{AdaptError, Rule};
use crate::corpus::Corpus;
use crate::nums::{
    sum_i64, sum_u32, clamp_u32, lemma_sum_i64_update, lemma_sum_i64_zero,
    lemma_sum_pointwise_add, lemma_elem_le_sum_combined,
};
use crate::encoding::{
    enc, dec, win_valid, encode_window, decode_window, lemma_enc_bounds, lemma_dec_enc,
    lemma_enc_injective,
};
use crate::expansion::{matches_at, replace_at, has_interior_match, transform, transform_exec};
use crate::effects::{
    interior_acc, interior_skip_acc, interior_targets, move_mass, pattern_free,
    lemma_move_mass_zero, lemma_interior_acc_len, lemma_interior_skip_acc_len,
    lemma_interior_targets_valid, lemma_interior_step_zero, lemma_interior_acc_order_one,
};
use crate::props::{
    involved, colsum_i64, colsum_u32, projection_holds, rule_untouched,
    lemma_colsum_i64_update, lemma_colsum_pointwise_add, lemma_colsum_i64_zero,
    lemma_colsum_combined_nonneg, lemma_match_involved, lemma_replace_involved,
    lemma_transform_involved, pair_idx, tri_win,
};
use crate::corpus::tables_unchanged;

verus! {

/// The scratch buffer changed by exactly one move: `f` subtracted at `oi`
/// and added at `ni` (a move onto itself changes nothing).
pub open spec fn moved(pre: Seq<i64>, post: Seq<i64>, oi: int, ni: int, f: int) -> bool {
    &&& post.len() == pre.len()
    &&& (oi != ni ==> post[oi] as int == pre[oi] as int - f && post[ni] as int == pre[ni] as int
        + f)
    &&& (oi == ni ==> post[oi] == pre[oi])
    &&& forall|j: int| 0 <= j < pre.len() && j != oi && j != ni ==> post[j] == pre[j]
}

/// A move leaves the scratch buffer's total unchanged.
pub proof fn lemma_moved_sum(pre: Seq<i64>, post: Seq<i64>, oi: int, ni: int, f: int)
    requires
        moved(pre, post, oi, ni, f),
        0 <= oi < pre.len(),
        0 <= ni < pre.len(),
    ensures
        sum_i64(post) == sum_i64(pre),
{
    if oi == ni {
        assert(post =~= pre);
    } else {
        let mid = pre.update(oi, post[oi]);
        assert(post =~= mid.update(ni, post[ni]));
        lemma_sum_i64_update(pre, oi, post[oi]);
        lemma_sum_i64_update(mid, ni, post[ni]);
    }
}

/// A recorded move matches the spec-level move, cell for cell.
pub proof fn lemma_moved_matches(
    pre: Seq<i64>,
    post: Seq<i64>,
    spec_pre: Seq<int>,
    oi: int,
    ni: int,
    f: int,
)
    requires
        moved(pre, post, oi, ni, f),
        pre.len() == spec_pre.len(),
        0 <= oi < pre.len(),
        0 <= ni < pre.len(),
        forall|j: int| 0 <= j < pre.len() ==> pre[j] as int == spec_pre[j],
    ensures
        forall|j: int|
            0 <= j < post.len() ==> post[j] as int == #[trigger] move_mass(spec_pre, oi, ni, f)[j],
{
}

/// A move with the table's own frequency at the window being scanned keeps
/// every cell's adjusted counter non-negative.
pub proof fn lemma_moved_lower(
    t: Seq<u32>,
    pre: Seq<i64>,
    post: Seq<i64>,
    oi: int,
    ni: int,
    f: int,
    bound: int,
)
    requires
        moved(pre, post, oi, ni, f),
        0 <= oi < pre.len(),
        0 <= ni < pre.len(),
        t.len() == pre.len(),
        oi == bound,
        f == t[oi] as int,
        forall|j: int|
            0 <= j < pre.len() ==> pre[j] as int >= (if j < bound {
                -(t[j] as int)
            } else {
                0
            }),
    ensures
        forall|j: int|
            0 <= j < post.len() ==> post[j] as int >= (if j < bound + 1 {
                -(t[j] as int)
            } else {
                0
            }),
{
}

/// The two mirrored moves — one on the trigram scratch, one on the
/// skip-bigram scratch at the outer character pairs — keep the skip scratch
/// equal to the column sums of the trigram scratch.
pub proof fn lemma_mirror_move(
    acc_pre: Seq<i64>,
    acc_post: Seq<i64>,
    sk_pre: Seq<i64>,
    sk_post: Seq<i64>,
    n: usize,
    w: Seq<usize>,
    t: Seq<usize>,
    f: int,
)
    requires
        w.len() == 3,
        t.len() == 3,
        win_valid(w, n),
        win_valid(t, n),
        acc_pre.len() as int == crate::nums::npow(n as int, 3),
        sk_pre.len() as int == crate::nums::npow(n as int, 2),
        moved(acc_pre, acc_post, enc(w, n), enc(t, n), f),
        moved(sk_pre, sk_post, enc(seq![w[0], w[2]], n), enc(seq![t[0], t[2]], n), f),
        forall|a: usize, c: usize|
            a < n && c < n ==> sk_pre[enc(seq![a, c], n)] as int == #[trigger] colsum_i64(
                acc_pre,
                n,
                a,
                c,
                n as nat,
            ),
    ensures
        forall|a: usize, c: usize|
            a < n && c < n ==> sk_post[enc(seq![a, c], n)] as int == #[trigger] colsum_i64(
                acc_post,
                n,
                a,
                c,
                n as nat,
            ),
{
    let oi = enc(w, n);
    let ni = enc(t, n);
    let so = enc(seq![w[0], w[2]], n);
    let sn = enc(seq![t[0], t[2]], n);
    lemma_enc_bounds(w, n);
    lemma_enc_bounds(t, n);
    lemma_enc_bounds(seq![w[0], w[2]], n);
    lemma_enc_bounds(seq![t[0], t[2]], n);
    if oi == ni {
        lemma_enc_injective(w, t, n);
        assert(seq![w[0], w[2]] =~= seq![t[0], t[2]]);
        assert(acc_post =~= acc_pre);
        assert(sk_post =~= sk_pre);
    } else {
        let mid = acc_pre.update(oi, acc_post[oi]);
        assert(acc_post =~= mid.update(ni, acc_post[ni]));
        assert(mid[ni] == acc_pre[ni]);
        assert forall|a: usize, c: usize| a < n && c < n implies sk_post[enc(seq![a, c], n)]
            as int == #[trigger] colsum_i64(acc_post, n, a, c, n as nat) by {
            lemma_enc_bounds(seq![a, c], n);
            let s = enc(seq![a, c], n);
            let d1: int = if a == w[0] && c == w[2] {
                -f
            } else {
                0
            };
            let d2: int = if a == t[0] && c == t[2] {
                f
            } else {
                0
            };
            // Column-sum delta of this column under the two trigram updates.
            assert(colsum_i64(acc_post, n, a, c, n as nat) == colsum_i64(acc_pre, n, a, c, n as nat)
                + d1 + d2) by {
                assert(seq![w[0], w[1], w[2]] =~= w);
                assert(seq![t[0], t[1], t[2]] =~= t);
                lemma_colsum_i64_update(acc_pre, n, a, c, n as nat, w[0], w[1], w[2], acc_post[oi]);
                lemma_colsum_i64_update(mid, n, a, c, n as nat, t[0], t[1], t[2], acc_post[ni]);
                assert(colsum_i64(mid, n, a, c, n as nat) == colsum_i64(acc_pre, n, a, c, n as nat)
                    + d1);
            }
            // Skip-scratch delta of this column's cell under the mirrored move.
            assert(sk_post[s] as int == sk_pre[s] as int + d1 + d2) by {
                if a == w[0] && c == w[2] {
                    assert(seq![a, c] =~= seq![w[0], w[2]]);
                }
                if a == t[0] && c == t[2] {
                    assert(seq![a, c] =~= seq![t[0], t[2]]);
                }
                if s == so {
                    lemma_enc_injective(seq![a, c], seq![w[0], w[2]], n);
                    assert(seq![a, c][0] == a && seq![a, c][1] == c);
                    assert(a == w[0] && c == w[2]);
                }
                if s == sn {
                    lemma_enc_injective(seq![a, c], seq![t[0], t[2]], n);
                    assert(seq![a, c][0] == a && seq![a, c][1] == c);
                    assert(a == t[0] && c == t[2]);
                }
            }
        }
    }
}

impl Corpus {
    /// Record one interior move: the scanned window's whole frequency
    /// leaves its own cell and enters the transformed window's cell, in the
    /// scratch buffer.  At order three the same move is mirrored on the
    /// skip-bigram scratch using the outer characters of both windows.
    /// Returns false, recording nothing, if a scratch entry would leave the
    /// signed 64-bit range.
    fn adapt_interior_ngram(
        &self,
        k: usize,
        old_idx: usize,
        old_ng: &Vec<usize>,
        new_ng: &Vec<usize>,
        acc: &mut Vec<i64>,
        skip_acc: &mut Vec<i64>,
    ) -> (ok: bool)
        requires
            self.wf(),
            2 <= k <= 5,
            old_ng@.len() == k,
            new_ng@.len() == k,
            win_valid(old_ng@, self.sz()),
            win_valid(new_ng@, self.sz()),
            enc(old_ng@, self.sz()) == old_idx as int,
            old(acc)@.len() == self.table_spec(k as int).len(),
            old(skip_acc)@.len() == self.skipgrams@.len(),
        ensures
            final(acc)@.len() == old(acc)@.len(),
            final(skip_acc)@.len() == old(skip_acc)@.len(),
            !ok ==> final(acc)@ == old(acc)@ && final(skip_acc)@ == old(skip_acc)@,
            ok ==> moved(
                old(acc)@,
                final(acc)@,
                old_idx as int,
                enc(new_ng@, self.sz()),
                self.table_spec(k as int)[old_idx as int] as int,
            ),
            ok && k == 3 ==> moved(
                old(skip_acc)@,
                final(skip_acc)@,
                enc(seq![old_ng@[0], old_ng@[2]], self.sz()),
                enc(seq![new_ng@[0], new_ng@[2]], self.sz()),
                self.table_spec(k as int)[old_idx as int] as int,
            ),
            k != 3 ==> final(skip_acc)@ == old(skip_acc)@,
    {
        let n = self.char_list.len();
        let _tl = self.table_len(k);
        proof {
            assert(old_ng@[0] < n);
            lemma_enc_bounds(old_ng@, n);
            lemma_enc_bounds(new_ng@, n);
        }
        let freq = self.table_get(k, old_idx);
        let new_idx = encode_window(new_ng, n);

        if old_idx != new_idx {
            let v1 = match acc[old_idx].checked_sub(freq as i64) {
                Some(v) => v,
                None => {
                    return false;
                },
            };
            let v2 = match acc[new_idx].checked_add(freq as i64) {
                Some(v) => v,
                None => {
                    return false;
                },
            };
            if k == 3 {
                let _sl = self.skipgrams.len();
                let mut so_w: Vec<usize> = Vec::new();
                so_w.push(old_ng[0]);
                so_w.push(old_ng[2]);
                let mut sn_w: Vec<usize> = Vec::new();
                sn_w.push(new_ng[0]);
                sn_w.push(new_ng[2]);
                proof {
                    assert(so_w@ =~= seq![old_ng@[0], old_ng@[2]]);
                    assert(sn_w@ =~= seq![new_ng@[0], new_ng@[2]]);
                    lemma_enc_bounds(so_w@, n);
                    lemma_enc_bounds(sn_w@, n);
                }
                let so = encode_window(&so_w, n);
                let sn = encode_window(&sn_w, n);
                if so != sn {
                    let s1 = match skip_acc[so].checked_sub(freq as i64) {
                        Some(v) => v,
                        None => {
                            return false;
                        },
                    };
                    let s2 = match skip_acc[sn].checked_add(freq as i64) {
                        Some(v) => v,
                        None => {
                            return false;
                        },
                    };
                    skip_acc.set(so, s1);
                    skip_acc.set(sn, s2);
                }
                acc.set(old_idx, v1);
                acc.set(new_idx, v2);
            } else {
                acc.set(old_idx, v1);
                acc.set(new_idx, v2);
            }
        } else {
            // The transformed window encodes to the scanned cell: the move
            // cancels out, and the skip mirror cancels with it.
            proof {
                lemma_enc_injective(old_ng@, new_ng@, self.sz());
            }
        }
        true
    }
}


/// One successful move keeps the scan invariants: zero total, locality of
/// nonzero scratch cells, and (at order three) the skip mirror.
proof fn lemma_scan_step(
    tk: Seq<u32>,
    n: usize,
    k: nat,
    r: Rule,
    acc_pre: Seq<i64>,
    acc_post: Seq<i64>,
    sk_pre: Seq<i64>,
    sk_post: Seq<i64>,
    i: int,
    w: Seq<usize>,
    t: Seq<usize>,
)
    requires
        2 <= k <= 5,
        tk.len() as int == crate::nums::npow(n as int, k),
        sk_pre.len() as int == crate::nums::npow(n as int, 2),
        acc_pre.len() == tk.len(),
        w.len() == k,
        t.len() == k,
        win_valid(w, n),
        win_valid(t, n),
        0 <= i < tk.len(),
        enc(w, n) == i,
        moved(acc_pre, acc_post, i, enc(t, n), tk[i] as int),
        k == 3 ==> moved(
            sk_pre,
            sk_post,
            enc(seq![w[0], w[2]], n),
            enc(seq![t[0], t[2]], n),
            tk[i] as int,
        ),
        k != 3 ==> sk_post == sk_pre,
        involved(w, r),
        involved(t, r),
        sum_i64(acc_pre) == 0,
        sum_i64(sk_pre) == 0,
        forall|j: int|
            0 <= j < tk.len() && !involved(dec(j, k, n), r) ==> acc_pre[j] == 0,
        k == 3 ==> forall|a: usize, c: usize|
            a < n && c < n ==> sk_pre[enc(seq![a, c], n)] as int == #[trigger] colsum_i64(
                acc_pre,
                n,
                a,
                c,
                n as nat,
            ),
    ensures
        acc_post.len() == acc_pre.len(),
        sk_post.len() == sk_pre.len(),
        sum_i64(acc_post) == 0,
        sum_i64(sk_post) == 0,
        forall|j: int|
            0 <= j < tk.len() && !involved(dec(j, k, n), r) ==> acc_post[j] == 0,
        k == 3 ==> forall|a: usize, c: usize|
            a < n && c < n ==> sk_post[enc(seq![a, c], n)] as int == #[trigger] colsum_i64(
                acc_post,
                n,
                a,
                c,
                n as nat,
            ),
{
    let ni = enc(t, n);
    lemma_enc_bounds(t, n);
    lemma_moved_sum(acc_pre, acc_post, i, ni, tk[i] as int);
    lemma_dec_enc(w, n);
    lemma_dec_enc(t, n);
    assert forall|j: int|
        0 <= j < tk.len() && !involved(dec(j, k, n), r) implies acc_post[j] == 0 by {
        if j != i && j != ni {
            assert(acc_post[j] == acc_pre[j]);
        }
    }
    if k == 3 {
        let so = enc(seq![w[0], w[2]], n);
        let sn = enc(seq![t[0], t[2]], n);
        lemma_enc_bounds(seq![w[0], w[2]], n);
        lemma_enc_bounds(seq![t[0], t[2]], n);
        lemma_moved_sum(sk_pre, sk_post, so, sn, tk[i] as int);
        lemma_mirror_move(acc_pre, acc_post, sk_pre, sk_post, n, w, t, tk[i] as int);
    }
}

/// A zeroed scratch buffer of `len` entries.
fn zero_scratch(len: usize) -> (r: Vec<i64>)
    ensures
        r@.len() == len,
        forall|i: int| 0 <= i < len ==> r@[i] == 0i64,
{
    let mut v: Vec<i64> = Vec::new();
    let mut i: usize = 0;
    while i < len
        invariant
            i <= len,
            v@.len() == i,
            forall|j: int| 0 <= j < i ==> v@[j] == 0i64,
        decreases len - i,
    {
        v.push(0);
        i = i + 1;
    }
    v
}

impl Corpus {
    /// Scan every window of order `k` and record all interior moves in a
    /// fresh scratch buffer (plus the skip-bigram scratch at order three).
    /// The corpus itself is not touched.
    fn interior_scan(&self, k: usize, r: Rule) -> (res: Result<
        (Vec<i64>, Vec<i64>),
        AdaptError,
    >)
        requires
            self.wf(),
            r.valid(self.sz()),
            2 <= k <= 5,
        ensures
            match res {
                Ok(p) => {
                    let n = self.sz();
                    let tk = self.table_spec(k as int);
                    let acc = p.0@;
                    let sk = p.1@;
                    &&& acc.len() == tk.len()
                    &&& sk.len() == self.skipgrams@.len()
                    &&& sum_i64(acc) == 0
                    &&& sum_i64(sk) == 0
                    &&& (r.old0 != r.old1 ==> forall|j: int|
                        0 <= j < tk.len() ==> acc[j] as int >= -(tk[j] as int))
                    &&& forall|j: int|
                        0 <= j < tk.len() && !involved(dec(j, k as nat, n), r) ==> acc[j] == 0
                    &&& forall|j: int|
                        0 <= j < tk.len() ==> acc[j] as int == #[trigger] interior_acc(
                            tk,
                            n,
                            k as nat,
                            r,
                            tk.len(),
                        )[j]
                    &&& (k == 3 ==> forall|s: int|
                        0 <= s < sk.len() ==> sk[s] as int == #[trigger] interior_skip_acc(
                            tk,
                            n,
                            r,
                            tk.len(),
                        )[s])
                    &&& (k == 3 ==> forall|a: usize, c: usize|
                        a < n && c < n ==> sk[enc(seq![a, c], n)] as int == #[trigger] colsum_i64(
                            acc,
                            n,
                            a,
                            c,
                            n as nat,
                        ))
                    &&& (k != 3 ==> forall|j: int| 0 <= j < sk.len() ==> sk[j] == 0)
                    &&& (rule_untouched(self, r) ==> (forall|j: int| 0 <= j < acc.len() ==> acc[j]
                        == 0) && (forall|j: int| 0 <= j < sk.len() ==> sk[j] == 0))
                    &&& (pattern_free(tk, n, k as nat, r) ==> (forall|j: int|
                        0 <= j < acc.len() ==> acc[j] == 0) && (forall|j: int|
                        0 <= j < sk.len() ==> sk[j] == 0))
                },
                Err(e) => e == AdaptError::Overflow,
            },
            rule_untouched(self, r) ==> res is Ok,
            pattern_free(self.table_spec(k as int), self.sz(), k as nat, r) ==> res is Ok,
    {
        let n = self.char_list.len();
        let len = self.table_len(k);
        let sl = self.skipgrams.len();
        let mut acc = zero_scratch(len);
        let mut sk = zero_scratch(sl);
        proof {
            lemma_sum_i64_zero(acc@);
            lemma_sum_i64_zero(sk@);
            if k == 3 {
                assert forall|a: usize, c: usize| a < n && c < n implies sk@[enc(seq![a, c], n)]
                    as int == #[trigger] colsum_i64(acc@, n, a, c, n as nat) by {
                    lemma_enc_bounds(seq![a, c], n);
                    assert forall|b: usize| b < n implies acc@[enc(
                        #[trigger] seq![a, b, c],
                        n,
                    )] == 0 by {
                        lemma_enc_bounds(seq![a, b, c], n);
                    }
                    lemma_colsum_i64_zero(acc@, n, a, c, n as nat);
                }
            }
        }
        let mut i: usize = 0;
        while i < len
            invariant
                self.wf(),
                r.valid(self.sz()),
                2 <= k <= 5,
                n == self.sz(),
                len == self.table_spec(k as int).len(),
                sl == self.skipgrams@.len(),
                i <= len,
                acc@.len() == len,
                sk@.len() == sl,
                sum_i64(acc@) == 0,
                sum_i64(sk@) == 0,
                r.old0 != r.old1 ==> forall|j: int|
                    0 <= j < len ==> acc@[j] as int >= (if j < i {
                        -(self.table_spec(k as int)[j] as int)
                    } else {
                        0
                    }),
                forall|j: int|
                    0 <= j < len && !involved(dec(j, k as nat, n), r) ==> acc@[j] == 0,
                forall|j: int|
                    0 <= j < len ==> acc@[j] as int == #[trigger] interior_acc(
                        self.table_spec(k as int),
                        n,
                        k as nat,
                        r,
                        i as nat,
                    )[j],
                k == 3 ==> forall|s: int|
                    0 <= s < sl ==> sk@[s] as int == #[trigger] interior_skip_acc(
                        self.table_spec(k as int),
                        n,
                        r,
                        i as nat,
                    )[s],
                k == 3 ==> forall|a: usize, c: usize|
                    a < n && c < n ==> sk@[enc(seq![a, c], n)] as int == #[trigger] colsum_i64(
                        acc@,
                        n,
                        a,
                        c,
                        n as nat,
                    ),
                k != 3 ==> forall|j: int| 0 <= j < sl ==> sk@[j] == 0,
                rule_untouched(self, r) ==> (forall|j: int| 0 <= j < len ==> acc@[j] == 0) && (
                forall|j: int| 0 <= j < sl ==> sk@[j] == 0),
                pattern_free(self.table_spec(k as int), n, k as nat, r) ==> (forall|j: int|
                    0 <= j < len ==> acc@[j] == 0) && (forall|j: int| 0 <= j < sl ==> sk@[j] == 0),
            decreases len - i,
        {
            let ghost tk = self.table_spec(k as int);
            proof {
                if n == 0 {
                    assert(crate::nums::npow(n as int, k as nat) == 0);
                }
                lemma_interior_acc_len(tk, n, k as nat, r, i as nat);
                lemma_interior_acc_len(tk, n, k as nat, r, (i + 1) as nat);
                if k == 3 {
                    lemma_interior_skip_acc_len(tk, n, r, i as nat);
                    lemma_interior_skip_acc_len(tk, n, r, (i + 1) as nat);
                }
            }
            let ghost spec_acc = interior_acc(tk, n, k as nat, r, i as nat);
            let ghost spec_sk = interior_skip_acc(tk, n, r, i as nat);
            let f0 = self.table_get(k, i);
            if f0 > 0 {
                let w = decode_window(i, k, n);
                proof {
                    lemma_interior_targets_valid(w@, r, n);
                }
                let ghost ts = interior_targets(w@, r);
                if k == 2 {
                    if w[0] == r.old0 && w[1] == r.old1 {
                        let mut t = w.clone();
                        t.set(0, r.new0);
                        t.set(1, r.new1);
                        proof {
                            assert(t@ =~= replace_at(w@, r, 0));
                            lemma_match_involved(w@, r, 0);
                            lemma_replace_involved(w@, r, 0);
                            if rule_untouched(self, r) {
                                assert(self.table_spec(k as int)[i as int] == 0u32);
                            }
                            if pattern_free(tk, n, k as nat, r) {
                                assert(has_interior_match(dec(i as int, k as nat, n), r));
                                assert(tk[i as int] == 0u32);
                            }
                        }
                        let ghost accb = acc@;
                        let ghost skb = sk@;
                        let ok = self.adapt_interior_ngram(k, i, &w, &t, &mut acc, &mut sk);
                        if !ok {
                            return Err(AdaptError::Overflow);
                        }
                        proof {
                            lemma_scan_step(tk, n, k as nat, r, accb, acc@, skb, sk@, i as int, w@, t@);
                            if r.old0 != r.old1 {
                                lemma_enc_bounds(t@, n);
                                lemma_moved_lower(tk, accb, acc@, i as int, enc(t@, n), tk[i as int] as int, i as int);
                            }
                            assert(ts =~= seq![replace_at(w@, r, 0)]);
                            lemma_enc_bounds(t@, n);
                            lemma_moved_matches(accb, acc@, spec_acc, i as int, enc(t@, n), f0 as int);
                        }
                    } else {
                        proof {
                            assert(ts =~= Seq::<Seq<usize>>::empty());
                        }
                    }
                } else if k == 3 {
                    let c0f = w[0] == r.old0 && w[1] == r.old1;
                    let c1f = w[1] == r.old0 && w[2] == r.old1;
                    proof {
                        if c0f && c1f {
                            assert(ts =~= seq![replace_at(w@, r, 0), replace_at(w@, r, 1)]);
                        } else if c0f {
                            assert(ts =~= seq![replace_at(w@, r, 0)]);
                        } else if c1f {
                            assert(ts =~= seq![replace_at(w@, r, 1)]);
                        } else {
                            assert(ts =~= Seq::<Seq<usize>>::empty());
                        }
                    }
                    if c0f {
                        let mut t = w.clone();
                        t.set(0, r.new0);
                        t.set(1, r.new1);
                        proof {
                            assert(t@ =~= replace_at(w@, r, 0));
                            lemma_match_involved(w@, r, 0);
                            lemma_replace_involved(w@, r, 0);
                            if rule_untouched(self, r) {
                                assert(self.table_spec(k as int)[i as int] == 0u32);
                            }
                            if pattern_free(tk, n, k as nat, r) {
                                assert(has_interior_match(dec(i as int, k as nat, n), r));
                                assert(tk[i as int] == 0u32);
                            }
                        }
                        let ghost accb = acc@;
                        let ghost skb = sk@;
                        let ok = self.adapt_interior_ngram(k, i, &w, &t, &mut acc, &mut sk);
                        if !ok {
                            return Err(AdaptError::Overflow);
                        }
                        proof {
                            lemma_scan_step(tk, n, k as nat, r, accb, acc@, skb, sk@, i as int, w@, t@);
                            if r.old0 != r.old1 {
                                lemma_enc_bounds(t@, n);
                                lemma_moved_lower(tk, accb, acc@, i as int, enc(t@, n), tk[i as int] as int, i as int);
                            }
                            lemma_enc_bounds(t@, n);
                            lemma_enc_bounds(seq![w@[0], w@[2]], n);
                            lemma_enc_bounds(seq![t@[0], t@[2]], n);
                            lemma_moved_matches(accb, acc@, spec_acc, i as int, enc(t@, n), f0 as int);
                            lemma_moved_matches(
                                skb,
                                sk@,
                                spec_sk,
                                pair_idx(n, w@[0], w@[2]),
                                pair_idx(n, t@[0], t@[2]),
                                f0 as int,
                            );
                        }
                    }
                    if c1f {
                        let mut t = w.clone();
                        t.set(1, r.new0);
                        t.set(2, r.new1);
                        proof {
                            assert(t@ =~= replace_at(w@, r, 1));
                            lemma_match_involved(w@, r, 1);
                            lemma_replace_involved(w@, r, 1);
                            if rule_untouched(self, r) {
                                assert(self.table_spec(k as int)[i as int] == 0u32);
                            }
                            if pattern_free(tk, n, k as nat, r) {
                                assert(has_interior_match(dec(i as int, k as nat, n), r));
                                assert(tk[i as int] == 0u32);
                            }
                        }
                        let ghost accb = acc@;
                        let ghost skb = sk@;
                        let ghost idxm = if c0f { 1int } else { 0int };
                        let ghost spec_mid = if c0f {
                            move_mass(spec_acc, i as int, enc(ts[0], n), f0 as int)
                        } else {
                            spec_acc
                        };
                        let ghost spec_skmid = if c0f {
                            move_mass(
                                spec_sk,
                                pair_idx(n, w@[0], w@[2]),
                                pair_idx(n, ts[0][0], ts[0][2]),
                                f0 as int,
                            )
                        } else {
                            spec_sk
                        };
                        let ok = self.adapt_interior_ngram(k, i, &w, &t, &mut acc, &mut sk);
                        if !ok {
                            return Err(AdaptError::Overflow);
                        }
                        proof {
                            lemma_scan_step(tk, n, k as nat, r, accb, acc@, skb, sk@, i as int, w@, t@);
                            if r.old0 != r.old1 {
                                // The two trigram cases exclude each other
                                // unless the pattern's characters coincide,
                                // so the earlier case cannot have fired.
                                assert(!(w@[0] == r.old0 && w@[1] == r.old1));
                                lemma_enc_bounds(t@, n);
                                lemma_moved_lower(tk, accb, acc@, i as int, enc(t@, n), tk[i as int] as int, i as int);
                            }
                            lemma_enc_bounds(t@, n);
                            lemma_enc_bounds(seq![w@[0], w@[2]], n);
                            lemma_enc_bounds(seq![t@[0], t@[2]], n);
                            if c0f {
                                lemma_enc_bounds(ts[0], n);
                                lemma_enc_bounds(seq![ts[0][0], ts[0][2]], n);
                            }
                            lemma_moved_matches(accb, acc@, spec_mid, i as int, enc(t@, n), f0 as int);
                            lemma_moved_matches(
                                skb,
                                sk@,
                                spec_skmid,
                                pair_idx(n, w@[0], w@[2]),
                                pair_idx(n, t@[0], t@[2]),
                                f0 as int,
                            );
                        }
                    }
                } else {
                    let m = if k == 4 {
                        (w[0] == r.old0 && w[1] == r.old1) || (w[1] == r.old0 && w[2] == r.old1)
                            || (w[2] == r.old0 && w[3] == r.old1)
                    } else {
                        (w[0] == r.old0 && w[1] == r.old1) || (w[1] == r.old0 && w[2] == r.old1)
                            || (w[2] == r.old0 && w[3] == r.old1) || (w[3] == r.old0 && w[4]
                            == r.old1)
                    };
                    if m {
                        let t = transform_exec(&w, &r);
                        proof {
                            assert(has_interior_match(w@, r)) by {
                                if w@[0] == r.old0 && w@[1] == r.old1 {
                                    assert(matches_at(w@, r, 0));
                                } else if w@[1] == r.old0 && w@[2] == r.old1 {
                                    assert(matches_at(w@, r, 1));
                                } else if w@[2] == r.old0 && w@[3] == r.old1 {
                                    assert(matches_at(w@, r, 2));
                                } else {
                                    assert(matches_at(w@, r, 3));
                                }
                            }
                            let p0 = choose|p: int|
                                0 <= p && p + 2 <= w@.len() && matches_at(w@, r, p);
                            lemma_match_involved(w@, r, p0);
                            lemma_transform_involved(w@, r);
                            crate::expansion::lemma_transform_valid(w@, r, n);
                            crate::expansion::lemma_transform_len(w@, r);
                            if rule_untouched(self, r) {
                                assert(self.table_spec(k as int)[i as int] == 0u32);
                            }
                            if pattern_free(tk, n, k as nat, r) {
                                assert(has_interior_match(dec(i as int, k as nat, n), r));
                                assert(tk[i as int] == 0u32);
                            }
                        }
                        let ghost accb = acc@;
                        let ghost skb = sk@;
                        let ok = self.adapt_interior_ngram(k, i, &w, &t, &mut acc, &mut sk);
                        if !ok {
                            return Err(AdaptError::Overflow);
                        }
                        proof {
                            lemma_scan_step(tk, n, k as nat, r, accb, acc@, skb, sk@, i as int, w@, t@);
                            if r.old0 != r.old1 {
                                lemma_enc_bounds(t@, n);
                                lemma_moved_lower(tk, accb, acc@, i as int, enc(t@, n), tk[i as int] as int, i as int);
                            }
                            assert(ts =~= seq![transform(w@, r)]);
                            lemma_enc_bounds(t@, n);
                            lemma_moved_matches(accb, acc@, spec_acc, i as int, enc(t@, n), f0 as int);
                        }
                    } else {
                        proof {
                            assert forall|p: int|
                                0 <= p && p + 2 <= w@.len() implies !matches_at(w@, r, p) by {}
                            assert(!has_interior_match(w@, r));
                            assert(ts =~= Seq::<Seq<usize>>::empty());
                        }
                    }
                }
            } else {
                proof {
                    lemma_interior_step_zero(tk, n, k as nat, r, i as int);
                }
            }
            i = i + 1;
        }
        Ok((acc, sk))
    }

    /// Fold a scratch buffer into the table of order `k` with saturating
    /// addition; every other part of the corpus stays as it was.
    fn fold_table(&mut self, k: usize, acc: &Vec<i64>)
        requires
            old(self).wf(),
            1 <= k <= 5,
            acc@.len() == old(self).table_spec(k as int).len(),
        ensures
            final(self).wf(),
            final(self).char_list@ == old(self).char_list@,
            final(self).estimator == old(self).estimator,
            final(self).skipgrams@ == old(self).skipgrams@,
            forall|j: int|
                1 <= j <= 5 && j != k ==> final(self).table_spec(j) == old(self).table_spec(j),
            final(self).table_spec(k as int).len() == old(self).table_spec(k as int).len(),
            forall|j: int|
                0 <= j < acc@.len() ==> final(self).table_spec(k as int)[j] as int == clamp_u32(
                    old(self).table_spec(k as int)[j] + acc@[j],
                ),
    {
        let len = self.table_len(k);
        let mut j: usize = 0;
        while j < len
            invariant
                j <= len,
                1 <= k <= 5,
                self.wf(),
                len == self.table_spec(k as int).len(),
                len == old(self).table_spec(k as int).len(),
                acc@.len() == len,
                self.char_list@ == old(self).char_list@,
                self.estimator == old(self).estimator,
                self.skipgrams@ == old(self).skipgrams@,
                forall|p: int|
                    1 <= p <= 5 && p != k ==> self.table_spec(p) == old(self).table_spec(p),
                forall|p: int|
                    0 <= p < j ==> self.table_spec(k as int)[p] as int == clamp_u32(
                        old(self).table_spec(k as int)[p] + acc@[p],
                    ),
                forall|p: int|
                    j <= p < len ==> self.table_spec(k as int)[p] == old(self).table_spec(
                        k as int,
                    )[p],
            decreases len - j,
        {
            let v = self.table_get(k, j);
            let x: i128 = v as i128 + acc[j] as i128;
            let nv: u32 = if x < 0 {
                0u32
            } else if x > u32::MAX as i128 {
                u32::MAX
            } else {
                x as u32
            };
            self.table_set(k, j, nv);
            j = j + 1;
        }
    }

    /// Fold a scratch buffer into the skip-bigram table with saturating
    /// addition; every other part of the corpus stays as it was.
    fn fold_skip(&mut self, acc: &Vec<i64>)
        requires
            old(self).wf(),
            acc@.len() == old(self).skipgrams@.len(),
        ensures
            final(self).wf(),
            final(self).char_list@ == old(self).char_list@,
            final(self).estimator == old(self).estimator,
            forall|j: int| 1 <= j <= 5 ==> final(self).table_spec(j) == old(self).table_spec(j),
            final(self).skipgrams@.len() == old(self).skipgrams@.len(),
            forall|j: int|
                0 <= j < acc@.len() ==> final(self).skipgrams@[j] as int == clamp_u32(
                    old(self).skipgrams@[j] + acc@[j],
                ),
    {
        let len = self.skipgrams.len();
        let mut j: usize = 0;
        while j < len
            invariant
                j <= len,
                self.wf(),
                len == self.skipgrams@.len(),
                len == old(self).skipgrams@.len(),
                acc@.len() == len,
                self.char_list@ == old(self).char_list@,
                self.estimator == old(self).estimator,
                forall|p: int| 1 <= p <= 5 ==> self.table_spec(p) == old(self).table_spec(p),
                forall|p: int|
                    0 <= p < j ==> self.skipgrams@[p] as int == clamp_u32(
                        old(self).skipgrams@[p] + acc@[p],
                    ),
                forall|p: int| j <= p < len ==> self.skipgrams@[p] == old(self).skipgrams@[p],
            decreases len - j,
        {
            let v = self.skip_get(j);
            let x: i128 = v as i128 + acc[j] as i128;
            let nv: u32 = if x < 0 {
                0u32
            } else if x > u32::MAX as i128 {
                u32::MAX
            } else {
                x as u32
            };
            self.skip_set(j, nv);
            j = j + 1;
        }
    }

    /// Interior adaptation of one order: record every interior move in a
    /// scratch buffer, then fold the buffer into the real table (and, at
    /// order three, into the skip-bigram table) with saturating addition.
    /// Order one has no interior step.  On an error nothing has changed.
    ///
    /// A pattern whose two characters are equal can overlap itself; windows
    /// holding such overlapping occurrences fall outside the fixed case
    /// list and may be double-counted, which is why the conservation clause
    /// assumes a pattern of two distinct characters.
    pub fn adapt_interior_ngrams(&mut self, k: usize, r: Rule) -> (res: Result<(), AdaptError>)
        requires
            old(self).wf(),
            r.valid(old(self).sz()),
            1 <= k <= 5,
        ensures
            final(self).wf(),
            final(self).sz() == old(self).sz(),
            final(self).char_list@ == old(self).char_list@,
            final(self).estimator == old(self).estimator,
            forall|j: int|
                1 <= j <= 5 && j != k ==> final(self).table_spec(j) == old(self).table_spec(j),
            k != 3 ==> final(self).skipgrams@ == old(self).skipgrams@,
            final(self).table_spec(k as int).len() == old(self).table_spec(k as int).len(),
            final(self).skipgrams@.len() == old(self).skipgrams@.len(),
            match res {
                Ok(u) => {
                    let n = old(self).sz();
                    let tk = old(self).table_spec(k as int);
                    let tk2 = final(self).table_spec(k as int);
                    let sk0 = old(self).skipgrams@;
                    let sk2 = final(self).skipgrams@;
                    &&& forall|j: int|
                        0 <= j < tk.len() && !involved(dec(j, k as nat, n), r) ==> tk2[j] == tk[j]
                    &&& (r.old0 != r.old1 && sum_u32(tk) <= u32::MAX as int ==> sum_u32(tk2)
                        == sum_u32(tk))
                    &&& (k == 3 ==> forall|a: usize, c: usize|
                        a < n && c < n && (forall|b: usize|
                            b < n ==> !(#[trigger] involved(tri_win(a, b, c), r))) ==> sk2[#[trigger] pair_idx(
                            n,
                            a,
                            c,
                        )] == sk0[pair_idx(n, a, c)])
                    &&& (k == 3 && r.old0 != r.old1 && sum_u32(tk) <= u32::MAX as int && sum_u32(sk0)
                        <= u32::MAX as int && projection_holds(tk, sk0, n) ==> projection_holds(
                        tk2,
                        sk2,
                        n,
                    ) && sum_u32(sk2) == sum_u32(sk0))
                    // Movement: every cell ends at its old value plus the
                    // pass's folded moves, saturated into range.
                    &&& forall|j: int|
                        0 <= j < tk.len() ==> tk2[j] as int == clamp_u32(
                            tk[j] + #[trigger] interior_acc(tk, n, k as nat, r, tk.len())[j],
                        )
                    &&& (k == 3 ==> forall|s: int|
                        0 <= s < sk0.len() ==> sk2[s] as int == clamp_u32(
                            sk0[s] + #[trigger] interior_skip_acc(tk, n, r, tk.len())[s],
                        ))
                },
                Err(e) => {
                    &&& e == AdaptError::Overflow
                    &&& final(self).table_spec(k as int) == old(self).table_spec(k as int)
                    &&& final(self).skipgrams@ == old(self).skipgrams@
                },
            },
            rule_untouched(old(self), r) ==> res is Ok && tables_unchanged(final(self), old(self)),
            // Order one has no interior step.
            k == 1 ==> res is Ok && tables_unchanged(final(self), old(self)),
            // With no counted window holding the pattern there is nothing
            // to move.
            pattern_free(old(self).table_spec(k as int), old(self).sz(), k as nat, r) ==> res is Ok
                && tables_unchanged(final(self), old(self)),
    {
        if k == 1 {
            proof {
                lemma_interior_acc_order_one(
                    self.table_spec(1),
                    self.sz(),
                    r,
                    self.table_spec(1).len(),
                );
            }
            return Ok(());
        }
        let ghost n = self.sz();
        let ghost tk = self.table_spec(k as int);
        let ghost old_sk = self.skipgrams@;
        let pair = match self.interior_scan(k, r) {
            Ok(p) => p,
            Err(e) => {
                return Err(e);
            },
        };
        let (acc, sk) = pair;
        let ghost no_clamp = r.old0 != r.old1 && sum_u32(tk) <= u32::MAX as int;
        proof {
            if no_clamp {
                assert forall|j: int| 0 <= j < tk.len() implies tk[j] + acc@[j] >= 0 by {}
                assert forall|j: int|
                    0 <= j < tk.len() implies tk[j] + acc@[j] <= u32::MAX as int by {
                    lemma_elem_le_sum_combined(tk, acc@, j);
                }
            }
        }
        self.fold_table(k, &acc);
        let ghost tk2 = self.table_spec(k as int);
        proof {
            assert forall|j: int|
                0 <= j < tk.len() && !involved(dec(j, k as nat, n), r) implies tk2[j] == tk[j] by {
                assert(acc@[j] == 0);
            }
            if no_clamp {
                assert forall|j: int| 0 <= j < tk.len() implies tk2[j] == tk[j] + acc@[j] by {}
                lemma_sum_pointwise_add(tk, tk2, acc@);
            }
            if rule_untouched(old(self), r) || pattern_free(tk, n, k as nat, r) {
                assert forall|j: int| 0 <= j < tk.len() implies tk2[j] == tk[j] by {
                    assert(acc@[j] == 0);
                }
                assert(tk2 =~= tk);
            }
        }
        if k == 3 {
            let ghost conds = no_clamp && sum_u32(old_sk) <= u32::MAX as int && projection_holds(
                tk,
                old_sk,
                n,
            );
            proof {
                if conds {
                    assert forall|s: int| 0 <= s < old_sk.len() implies old_sk[s] + sk@[s] >= 0 by {
                        crate::encoding::lemma_enc_dec(s, 2, n);
                        let pr = dec(s, 2, n);
                        let a = pr[0];
                        let c = pr[1];
                        assert(seq![a, c] =~= pr);
                        assert(sk@[s] as int == colsum_i64(acc@, n, a, c, n as nat));
                        assert(old_sk[s] as int == colsum_u32(tk, n, a, c, n as nat));
                        lemma_colsum_combined_nonneg(tk, acc@, n, a, c, n as nat);
                    }
                    assert forall|s: int|
                        0 <= s < old_sk.len() implies old_sk[s] + sk@[s] <= u32::MAX as int by {
                        lemma_elem_le_sum_combined(old_sk, sk@, s);
                    }
                }
            }
            self.fold_skip(&sk);
            proof {
                let sk2 = self.skipgrams@;
                if rule_untouched(old(self), r) || pattern_free(tk, n, k as nat, r) {
                    assert forall|s2: int| 0 <= s2 < old_sk.len() implies sk2[s2] == old_sk[s2] by {
                        assert(sk@[s2] == 0);
                    }
                    assert(sk2 =~= old_sk);
                }
                // A column with no involved window keeps its skip cell.
                assert forall|a: usize, c: usize|
                    a < n && c < n && (forall|b: usize|
                        b < n ==> !(#[trigger] involved(tri_win(a, b, c), r))) implies sk2[#[trigger] pair_idx(
                    n,
                    a,
                    c,
                )] == old_sk[pair_idx(n, a, c)] by {
                    lemma_enc_bounds(seq![a, c], n);
                    assert forall|b: usize| b < n implies acc@[enc(
                        #[trigger] seq![a, b, c],
                        n,
                    )] == 0 by {
                        lemma_enc_bounds(seq![a, b, c], n);
                        crate::encoding::lemma_dec_enc(seq![a, b, c], n);
                        assert(tri_win(a, b, c) =~= seq![a, b, c]);
                        assert(!involved(dec(enc(seq![a, b, c], n), 3, n), r));
                    }
                    lemma_colsum_i64_zero(acc@, n, a, c, n as nat);
                    assert(sk@[enc(seq![a, c], n)] as int == 0);
                    assert(pair_idx(n, a, c) == enc(seq![a, c], n));
                }
                if conds {
                    assert forall|s: int| 0 <= s < old_sk.len() implies sk2[s] == old_sk[s]
                        + sk@[s] by {}
                    lemma_sum_pointwise_add(old_sk, sk2, sk@);
                    assert forall|a: usize, c: usize| a < n && c < n implies sk2[enc(
                        seq![a, c],
                        n,
                    )] == #[trigger] colsum_u32(tk2, n, a, c, n as nat) by {
                        lemma_enc_bounds(seq![a, c], n);
                        lemma_colsum_pointwise_add(tk, tk2, acc@, n, a, c, n as nat);
                    }
                }
            }
        }
        proof {
            if rule_untouched(old(self), r) || pattern_free(tk, n, k as nat, r) {
                assert(self.table_spec(1) == old(self).table_spec(1));
                assert(self.table_spec(2) == old(self).table_spec(2));
                assert(self.table_spec(3) == old(self).table_spec(3));
                assert(self.table_spec(4) == old(self).table_spec(4));
                assert(self.table_spec(5) == old(self).table_spec(5));
                assert(self.skipgrams@ == old(self).skipgrams@);
                assert(tables_unchanged(&*self, old(self)));
            }
        }
        Ok(())
    }
}

} // verus!
