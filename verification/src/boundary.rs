//! Boundary adaptation: for every window, resolve the Left, Right and Both
//! expansion candidates against the next one or two orders up, move each
//! resolved frequency into the candidate's new-side bucket, and subtract
//! the total from the transformed window's own bucket.  Both is resolved
//! first and its count is subtracted from Left's and Right's, so that an
//! occurrence extending past both edges is never counted twice.

use vstd::prelude::*;
use crate::{AdaptError, Rule};
use crate::corpus::Corpus;
use crate::nums::{npow, sum_u32, lemma_sum_u32_update};
use crate::encoding::{
    enc, dec, win_valid, encode_window, decode_window, lemma_enc_bounds, lemma_dec_enc,
    lemma_enc_injective,
};
use crate::expansion::{
    transform, transform_exec, expand, left_exists, right_exists, left_old, left_new, right_old,
    right_new, both_old, both_new, ExpansionStruct, Expansions,
};
use crate::props::{
    involved, colsum_u32, pair_idx, tri_win, rule_untouched, lemma_colsum_u32_update,
    lemma_candidates_valid, lemma_candidate_new_involved, lemma_boundary_sub_involved,
    lemma_candidate_old_involved, lemma_untouched_lookup_zero, lemma_untouched_same,
};
use crate::corpus::{tables_unchanged, Estimator};
use crate::effects::{
    to_int, resolved_both, resolved_left, resolved_right, boundary_win_tbl, boundary_win_skip,
    boundary_tbl, boundary_skip, lemma_lookup_agrees, lemma_boundary_tbl_len,
    lemma_boundary_skip_len, lemma_step_chain, lemma_win_tbl_pointwise, lemma_win_skip_pointwise,
};

verus! {

/// Reading a candidate's frequency from the corpus, dispatched on the
/// length of its old-side context.
pub trait GetCount {
    /// The window whose frequency the candidate counts.
    spec fn count_window(&self) -> Seq<usize>;

    /// Read the candidate's frequency: the table cell for orders one
    /// through five, the configured estimate for longer contexts.
    fn get_count(&self, corpus: &Corpus) -> (r: u32)
        requires
            corpus.wf(),
            win_valid(self.count_window(), corpus.sz()),
            1 <= self.count_window().len() <= 7,
        ensures
            r == corpus.spec_lookup(self.count_window()),
    ;
}

impl GetCount for ExpansionStruct {
    open spec fn count_window(&self) -> Seq<usize> {
        self.old_ng@
    }

    fn get_count(&self, corpus: &Corpus) -> (r: u32) {
        corpus.lookup_window(&self.old_ng)
    }
}

/// One boundary table event — a cell of order `k` changed by `d`, mirrored
/// on the skip-bigram table at order three — keeps the pass's running
/// relations: total shifted by exactly `d`, untouched cells only at
/// uninvolved windows, and the skip change always equal to the trigram
/// column-sum change.
proof fn lemma_boundary_event(
    k: nat,
    n: usize,
    r: Rule,
    tk0: Seq<u32>,
    sk0: Seq<u32>,
    tk_pre: Seq<u32>,
    tk_post: Seq<u32>,
    sk_pre: Seq<u32>,
    sk_post: Seq<u32>,
    v: Seq<usize>,
    d: int,
)
    requires
        1 <= k <= 5,
        v.len() == k,
        win_valid(v, n),
        involved(v, r),
        tk0.len() as int == npow(n as int, k),
        sk0.len() as int == npow(n as int, 2),
        tk_pre.len() == tk0.len(),
        tk_post.len() == tk0.len(),
        sk_pre.len() == sk0.len(),
        sk_post.len() == sk0.len(),
        tk_post == tk_pre.update(enc(v, n), tk_post[enc(v, n)]),
        tk_post[enc(v, n)] as int == tk_pre[enc(v, n)] as int + d,
        k == 3 ==> sk_post == sk_pre.update(pair_idx(n, v[0], v[2]), sk_post[pair_idx(
            n,
            v[0],
            v[2],
        )]) && sk_post[pair_idx(n, v[0], v[2])] as int == sk_pre[pair_idx(n, v[0], v[2])] as int
            + d,
        k != 3 ==> sk_post == sk_pre,
        forall|j: int| 0 <= j < tk0.len() && !involved(dec(j, k, n), r) ==> tk_pre[j] == tk0[j],
        k == 3 ==> forall|a: usize, c: usize|
            a < n && c < n ==> sk_pre[pair_idx(n, a, c)] as int - sk0[pair_idx(n, a, c)] as int
                == #[trigger] colsum_u32(tk_pre, n, a, c, n as nat) - colsum_u32(
                tk0,
                n,
                a,
                c,
                n as nat,
            ),
        k == 3 ==> forall|a: usize, c: usize|
            a < n && c < n && (forall|b: usize|
                b < n ==> !(#[trigger] involved(tri_win(a, b, c), r))) ==> sk_pre[#[trigger] pair_idx(
                n,
                a,
                c,
            )] == sk0[pair_idx(n, a, c)],
    ensures
        sum_u32(tk_post) == sum_u32(tk_pre) + d,
        k == 3 ==> sum_u32(sk_post) == sum_u32(sk_pre) + d,
        forall|j: int| 0 <= j < tk0.len() && !involved(dec(j, k, n), r) ==> tk_post[j] == tk0[j],
        k == 3 ==> forall|a: usize, c: usize|
            a < n && c < n ==> sk_post[pair_idx(n, a, c)] as int - sk0[pair_idx(n, a, c)] as int
                == #[trigger] colsum_u32(tk_post, n, a, c, n as nat) - colsum_u32(
                tk0,
                n,
                a,
                c,
                n as nat,
            ),
        k == 3 ==> forall|a: usize, c: usize|
            a < n && c < n && (forall|b: usize|
                b < n ==> !(#[trigger] involved(tri_win(a, b, c), r))) ==> sk_post[#[trigger] pair_idx(
                n,
                a,
                c,
            )] == sk0[pair_idx(n, a, c)],
{
    let vi = enc(v, n);
    lemma_enc_bounds(v, n);
    lemma_dec_enc(v, n);
    lemma_sum_u32_update(tk_pre, vi, tk_post[vi]);
    assert forall|j: int|
        0 <= j < tk0.len() && !involved(dec(j, k, n), r) implies tk_post[j] == tk0[j] by {
        if j == vi {
            assert(dec(j, k, n) == v);
        }
    }
    if k == 3 {
        let sv = pair_idx(n, v[0], v[2]);
        lemma_enc_bounds(seq![v[0], v[2]], n);
        lemma_sum_u32_update(sk_pre, sv, sk_post[sv]);
        assert forall|a: usize, c: usize| a < n && c < n implies sk_post[pair_idx(n, a, c)] as int
            - sk0[pair_idx(n, a, c)] as int == #[trigger] colsum_u32(tk_post, n, a, c, n as nat)
            - colsum_u32(tk0, n, a, c, n as nat) by {
            lemma_enc_bounds(seq![a, c], n);
            assert(seq![v[0], v[1], v[2]] =~= v);
            lemma_colsum_u32_update(tk_pre, n, a, c, n as nat, v[0], v[1], v[2], tk_post[vi]);
            if a == v[0] && c == v[2] {
                assert(seq![a, c] =~= seq![v[0], v[2]]);
            }
            if pair_idx(n, a, c) == sv {
                lemma_enc_injective(seq![a, c], seq![v[0], v[2]], n);
                assert(seq![a, c][0] == a && seq![a, c][1] == c);
                assert(a == v[0] && c == v[2]);
            }
        }
        assert forall|a: usize, c: usize|
            a < n && c < n && (forall|b: usize|
                b < n ==> !(#[trigger] involved(tri_win(a, b, c), r))) implies sk_post[#[trigger] pair_idx(
            n,
            a,
            c,
        )] == sk0[pair_idx(n, a, c)] by {
            lemma_enc_bounds(seq![a, c], n);
            if pair_idx(n, a, c) == sv {
                lemma_enc_injective(seq![a, c], seq![v[0], v[2]], n);
                assert(seq![a, c][0] == a && seq![a, c][1] == c);
                assert(a == v[0] && c == v[2]);
                assert(tri_win(a, v[1], c) =~= v);
                assert(involved(tri_win(a, v[1], c), r));
            }
        }
    }
}

impl Corpus {
    /// Resolve one boundary candidate: read the frequency of its old-side
    /// context, subtract `bcount` (the mass already accounted to the Both
    /// candidate), record the result in the candidate, and add it to the
    /// candidate's new-side bucket — mirrored on the skip-bigram table at
    /// order three.  A count that would go negative or a bucket that would
    /// overflow is a data-consistency violation and is surfaced as an
    /// error, with the corpus untouched by this call.
    pub fn adapt_boundary_ngram(
        &mut self,
        k: usize,
        exp: &mut Option<ExpansionStruct>,
        bcount: u32,
    ) -> (res: Result<(), AdaptError>)
        requires
            old(self).wf(),
            1 <= k <= 5,
            match *old(exp) {
                Some(e) => {
                    &&& win_valid(e.old_ng@, old(self).sz())
                    &&& k < e.old_ng@.len() <= k + 2
                    &&& win_valid(e.new_ng@, old(self).sz())
                    &&& e.new_ng@.len() == k
                },
                None => true,
            },
        ensures
            final(self).wf(),
            final(self).sz() == old(self).sz(),
            final(self).char_list@ == old(self).char_list@,
            final(self).estimator == old(self).estimator,
            forall|j: int|
                1 <= j <= 5 && j != k ==> final(self).table_spec(j) == old(self).table_spec(j),
            k != 3 ==> final(self).skipgrams@ == old(self).skipgrams@,
            *old(exp) is None ==> res is Ok && *final(self) == *old(self) && *final(exp) == *old(
                exp,
            ),
            *old(exp) is Some && old(self).spec_lookup(old(exp)->0.old_ng@) == 0 && bcount == 0
                ==> res is Ok && *final(self) == *old(self),
            match *old(exp) {
                Some(e) => {
                    let n = old(self).sz();
                    let look = old(self).spec_lookup(e.old_ng@);
                    let cnt = look - bcount;
                    let ni = enc(e.new_ng@, n);
                    let tk = old(self).table_spec(k as int);
                    let tk2 = final(self).table_spec(k as int);
                    &&& (res is Ok <==> (bcount <= look && tk[ni] + cnt <= u32::MAX as int && (k
                        == 3 ==> old(self).skipgrams@[pair_idx(n, e.new_ng@[0], e.new_ng@[2])]
                        + cnt <= u32::MAX as int)))
                    &&& match res {
                        Ok(u) => {
                            &&& bcount <= look
                            &&& tk2 == tk.update(ni, tk2[ni])
                            &&& tk2[ni] as int == tk[ni] as int + cnt
                            &&& (k == 3 ==> final(self).skipgrams@ == old(self).skipgrams@.update(
                                pair_idx(n, e.new_ng@[0], e.new_ng@[2]),
                                final(self).skipgrams@[pair_idx(n, e.new_ng@[0], e.new_ng@[2])],
                            ) && final(self).skipgrams@[pair_idx(n, e.new_ng@[0], e.new_ng@[2])]
                                as int == old(self).skipgrams@[pair_idx(
                                n,
                                e.new_ng@[0],
                                e.new_ng@[2],
                            )] as int + cnt)
                            &&& *final(exp) is Some
                            &&& final(exp)->0.old_ng@ == e.old_ng@
                            &&& final(exp)->0.new_ng@ == e.new_ng@
                            &&& final(exp)->0.count == Some((cnt as u32))
                        },
                        Err(er) => {
                            &&& er == AdaptError::Overflow
                            &&& *final(self) == *old(self)
                            &&& *final(exp) == *old(exp)
                        },
                    }
                },
                None => true,
            },
    {
        let n = self.char_list.len();
        match exp {
            Some(e) => {
                let look = e.get_count(self);
                let cnt = match look.checked_sub(bcount) {
                    Some(c) => c,
                    None => {
                        return Err(AdaptError::Overflow);
                    },
                };
                let _tl = self.table_len(k);
                let _sl = self.skipgrams.len();
                proof {
                    assert(e.new_ng@[0] < n);
                    lemma_enc_bounds(e.new_ng@, n);
                }
                let ni = encode_window(&e.new_ng, n);
                if cnt == 0 {
                    // Nothing to move: the buckets stay exactly as they
                    // are, which is the same outcome as adding zero.
                    e.set_count(0);
                    proof {
                        let tk = old(self).table_spec(k as int);
                        assert(tk =~= tk.update(ni as int, tk[ni as int]));
                        if k == 3 {
                            let sk = old(self).skipgrams@;
                            let si = pair_idx(n, e.new_ng@[0], e.new_ng@[2]);
                            lemma_enc_bounds(seq![e.new_ng@[0], e.new_ng@[2]], n);
                            assert(sk =~= sk.update(si, sk[si]));
                        }
                    }
                    return Ok(());
                }
                let cell = self.table_get(k, ni);
                let newv = match cell.checked_add(cnt) {
                    Some(v) => v,
                    None => {
                        return Err(AdaptError::Overflow);
                    },
                };
                if k == 3 {
                    let mut sp: Vec<usize> = Vec::new();
                    sp.push(e.new_ng[0]);
                    sp.push(e.new_ng[2]);
                    proof {
                        assert(sp@ =~= seq![e.new_ng@[0], e.new_ng@[2]]);
                        lemma_enc_bounds(sp@, n);
                    }
                    let si = encode_window(&sp, n);
                    let scell = self.skip_get(si);
                    let snew = match scell.checked_add(cnt) {
                        Some(v) => v,
                        None => {
                            return Err(AdaptError::Overflow);
                        },
                    };
                    e.set_count(cnt);
                    self.table_set(k, ni, newv);
                    self.skip_set(si, snew);
                } else {
                    e.set_count(cnt);
                    self.table_set(k, ni, newv);
                }
                Ok(())
            },
            None => Ok(()),
        }
    }
}


impl Corpus {
    /// Resolve and apply this window's three candidates: Both against the
    /// order-plus-two context first, then Left and Right with Both's mass
    /// deducted, each added to its new-side bucket (mirrored on the
    /// skip-bigram table at order three).  Returns the three resolved
    /// counts.  The ghost arguments carry the tables and the corpus as they
    /// were when the pass started.
    #[verifier::rlimit(100)]
    #[verifier::spinoff_prover]
    fn boundary_candidates(
        &mut self,
        k: usize,
        i: usize,
        r: Rule,
        Ghost(tk0): Ghost<Seq<u32>>,
        Ghost(sk0): Ghost<Seq<u32>>,
        Ghost(c0): Ghost<Corpus>,
    ) -> (res: Result<(u32, u32, u32), AdaptError>)
        requires
            old(self).wf(),
            r.valid(old(self).sz()),
            1 <= k <= 5,
            i < old(self).table_spec(k as int).len(),
            tk0.len() == old(self).table_spec(k as int).len(),
            sk0.len() == old(self).skipgrams@.len(),
            c0.sz() == old(self).sz(),
            c0.estimator == old(self).estimator,
            forall|j: int|
                1 <= j <= 5 && j != k ==> old(self).table_spec(j) == c0.table_spec(j),
            forall|j: int|
                0 <= j < tk0.len() && !involved(dec(j, k as nat, old(self).sz()), r) ==> old(self).table_spec(k as int)[j] == tk0[j],
            k == 3 ==> forall|a: usize, c: usize|
                a < old(self).sz() && c < old(self).sz() ==> old(self).skipgrams@[pair_idx(
                    old(self).sz(),
                    a,
                    c,
                )] as int - sk0[pair_idx(old(self).sz(), a, c)] as int == #[trigger] colsum_u32(
                    old(self).table_spec(3),
                    old(self).sz(),
                    a,
                    c,
                    old(self).sz() as nat,
                ) - colsum_u32(tk0, old(self).sz(), a, c, old(self).sz() as nat),
            k == 3 ==> forall|a: usize, c: usize|
                a < old(self).sz() && c < old(self).sz() && (forall|b: usize|
                    b < old(self).sz() ==> !(#[trigger] involved(tri_win(a, b, c), r))) ==> old(self).skipgrams@[#[trigger] pair_idx(old(self).sz(), a, c)] == sk0[pair_idx(
                    old(self).sz(),
                    a,
                    c,
                )],
        ensures
            final(self).wf(),
            final(self).sz() == old(self).sz(),
            final(self).char_list@ == old(self).char_list@,
            final(self).estimator == old(self).estimator,
            forall|j: int|
                1 <= j <= 5 && j != k ==> final(self).table_spec(j) == old(self).table_spec(j),
            k != 3 ==> final(self).skipgrams@ == old(self).skipgrams@,
            final(self).table_spec(k as int).len() == old(self).table_spec(k as int).len(),
            final(self).skipgrams@.len() == old(self).skipgrams@.len(),
            forall|j: int|
                0 <= j < tk0.len() && !involved(dec(j, k as nat, old(self).sz()), r) ==> final(self).table_spec(k as int)[j] == tk0[j],
            k == 3 ==> forall|a: usize, c: usize|
                a < old(self).sz() && c < old(self).sz() ==> final(self).skipgrams@[pair_idx(
                    old(self).sz(),
                    a,
                    c,
                )] as int - sk0[pair_idx(old(self).sz(), a, c)] as int == #[trigger] colsum_u32(
                    final(self).table_spec(3),
                    old(self).sz(),
                    a,
                    c,
                    old(self).sz() as nat,
                ) - colsum_u32(tk0, old(self).sz(), a, c, old(self).sz() as nat),
            k == 3 ==> forall|a: usize, c: usize|
                a < old(self).sz() && c < old(self).sz() && (forall|b: usize|
                    b < old(self).sz() ==> !(#[trigger] involved(tri_win(a, b, c), r))) ==> final(self).skipgrams@[#[trigger] pair_idx(old(self).sz(), a, c)] == sk0[pair_idx(
                    old(self).sz(),
                    a,
                    c,
                )],
            res is Err ==> res->Err_0 == AdaptError::Overflow,
            res is Ok ==> sum_u32(final(self).table_spec(k as int)) == sum_u32(
                old(self).table_spec(k as int),
            ) + res->Ok_0.0 + res->Ok_0.1 + res->Ok_0.2 && (k == 3 ==> sum_u32(
                final(self).skipgrams@,
            ) == sum_u32(old(self).skipgrams@) + res->Ok_0.0 + res->Ok_0.1 + res->Ok_0.2),
            rule_untouched(old(self), r) ==> res is Ok && tables_unchanged(final(self), old(self))
                && res->Ok_0.0 == 0 && res->Ok_0.1 == 0 && res->Ok_0.2 == 0,
            res is Ok ==> ({
                let w = dec(i as int, k as nat, old(self).sz());
                &&& (!(left_exists(w, r) && right_exists(w, r)) ==> res->Ok_0.0 == 0)
                &&& (!left_exists(w, r) ==> res->Ok_0.1 == 0)
                &&& (!right_exists(w, r) ==> res->Ok_0.2 == 0)
            }),
            res is Ok && (k <= 4 || c0.estimator == Estimator::Zero) ==> ({
                let w = dec(i as int, k as nat, old(self).sz());
                let n = old(self).sz();
                &&& res->Ok_0.0 as int == resolved_both(&c0, w, r)
                &&& res->Ok_0.1 as int == resolved_left(&c0, w, r)
                &&& res->Ok_0.2 as int == resolved_right(&c0, w, r)
                &&& forall|j: int|
                    0 <= j < tk0.len() ==> final(self).table_spec(k as int)[j] as int == old(self).table_spec(k as int)[j] + (if left_exists(w, r) && right_exists(w, r) && j
                        == enc(both_new(w, r), n) {
                        resolved_both(&c0, w, r)
                    } else {
                        0
                    }) + (if left_exists(w, r) && j == enc(left_new(w, r), n) {
                        resolved_left(&c0, w, r)
                    } else {
                        0
                    }) + (if right_exists(w, r) && j == enc(right_new(w, r), n) {
                        resolved_right(&c0, w, r)
                    } else {
                        0
                    })
                &&& (k == 3 ==> forall|p: int|
                    0 <= p < sk0.len() ==> final(self).skipgrams@[p] as int == old(self).skipgrams@[p] + (if left_exists(w, r) && right_exists(w, r) && p == pair_idx(
                        n,
                        both_new(w, r)[0],
                        both_new(w, r)[2],
                    ) {
                        resolved_both(&c0, w, r)
                    } else {
                        0
                    }) + (if left_exists(w, r) && p == pair_idx(
                        n,
                        left_new(w, r)[0],
                        left_new(w, r)[2],
                    ) {
                        resolved_left(&c0, w, r)
                    } else {
                        0
                    }) + (if right_exists(w, r) && p == pair_idx(
                        n,
                        right_new(w, r)[0],
                        right_new(w, r)[2],
                    ) {
                        resolved_right(&c0, w, r)
                    } else {
                        0
                    }))
            }),
    {
        let ghost n = self.sz();
        let nn = self.char_list.len();
        proof {
            if nn == 0 {
                assert(npow(nn as int, k as nat) == 0);
            }
        }
        let w = decode_window(i, k, nn);
        proof {
            lemma_candidates_valid(w@, r, nn);
            lemma_candidate_new_involved(w@, r);
        }
        let mut exps = expand(&w, &r);
        proof {
            if rule_untouched(old(self), r) {
                lemma_candidate_old_involved(w@, r);
                if left_exists(w@, r) {
                    lemma_untouched_lookup_zero(old(self), r, left_old(w@, r));
                }
                if right_exists(w@, r) {
                    lemma_untouched_lookup_zero(old(self), r, right_old(w@, r));
                }
                if left_exists(w@, r) && right_exists(w@, r) {
                    lemma_untouched_lookup_zero(old(self), r, both_old(w@, r));
                }
            }
        }

        let ghost tk_a = self.table_spec(k as int);
        let ghost sk_a = self.skipgrams@;
        let ghost c_a = *self;
        let ghost exps_b0 = exps.both;
        match self.adapt_boundary_ngram(k, &mut exps.both, 0) {
            Ok(u) => (),
            Err(er) => {
                return Err(er);
            },
        }
        proof {
            if exps_b0 is Some {
                let e = exps_b0->0;
                let d = self.table_spec(k as int)[enc(e.new_ng@, n)] as int - tk_a[enc(
                    e.new_ng@,
                    n,
                )] as int;
                lemma_boundary_event(
                    k as nat,
                    n,
                    r,
                    tk0,
                    sk0,
                    tk_a,
                    self.table_spec(k as int),
                    sk_a,
                    self.skipgrams@,
                    e.new_ng@,
                    d,
                );
            }
        }
        proof {
            if rule_untouched(old(self), r) {
                assert(*self == *old(self));
            }
        }
        let bcount = match &exps.both {
            Some(e) => e.read_count(),
            None => 0u32,
        };

        let ghost tk_b = self.table_spec(k as int);
        let ghost sk_b = self.skipgrams@;
        let ghost c_b = *self;
        let ghost exps_l0 = exps.left;
        match self.adapt_boundary_ngram(k, &mut exps.left, bcount) {
            Ok(u) => (),
            Err(er) => {
                return Err(er);
            },
        }
        proof {
            if exps_l0 is Some {
                let e = exps_l0->0;
                let d = self.table_spec(k as int)[enc(e.new_ng@, n)] as int - tk_b[enc(
                    e.new_ng@,
                    n,
                )] as int;
                lemma_boundary_event(
                    k as nat,
                    n,
                    r,
                    tk0,
                    sk0,
                    tk_b,
                    self.table_spec(k as int),
                    sk_b,
                    self.skipgrams@,
                    e.new_ng@,
                    d,
                );
            }
        }
        proof {
            if rule_untouched(old(self), r) {
                assert(*self == *old(self));
            }
        }
        let cl = match &exps.left {
            Some(e) => e.read_count(),
            None => 0u32,
        };

        let ghost tk_c = self.table_spec(k as int);
        let ghost sk_c = self.skipgrams@;
        let ghost c_c = *self;
        let ghost exps_r0 = exps.right;
        match self.adapt_boundary_ngram(k, &mut exps.right, bcount) {
            Ok(u) => (),
            Err(er) => {
                return Err(er);
            },
        }
        proof {
            if exps_r0 is Some {
                let e = exps_r0->0;
                let d = self.table_spec(k as int)[enc(e.new_ng@, n)] as int - tk_c[enc(
                    e.new_ng@,
                    n,
                )] as int;
                lemma_boundary_event(
                    k as nat,
                    n,
                    r,
                    tk0,
                    sk0,
                    tk_c,
                    self.table_spec(k as int),
                    sk_c,
                    self.skipgrams@,
                    e.new_ng@,
                    d,
                );
            }
        }
        proof {
            if rule_untouched(old(self), r) {
                assert(*self == *old(self));
            }
        }
        let cr = match &exps.right {
            Some(e) => e.read_count(),
            None => 0u32,
        };
        let ghost tk_e = self.table_spec(k as int);
        let ghost sk_e = self.skipgrams@;
        proof {
            if k <= 4 || c0.estimator == Estimator::Zero {
                crate::expansion::lemma_transform_len(w@, r);
                crate::expansion::lemma_transform_valid(w@, r, nn);
                lemma_enc_bounds(both_new(w@, r), nn);
                lemma_enc_bounds(left_new(w@, r), nn);
                lemma_enc_bounds(right_new(w@, r), nn);
                lemma_enc_bounds(transform(w@, r), nn);
                let rb = resolved_both(&c0, w@, r);
                let rl = resolved_left(&c0, w@, r);
                let rr = resolved_right(&c0, w@, r);
                if left_exists(w@, r) && right_exists(w@, r) {
                    lemma_lookup_agrees(&c_a, &c0, both_old(w@, r));
                }
                if left_exists(w@, r) {
                    lemma_lookup_agrees(&c_b, &c0, left_old(w@, r));
                }
                if right_exists(w@, r) {
                    lemma_lookup_agrees(&c_c, &c0, right_old(w@, r));
                }
                assert(bcount as int == rb);
                assert(cl as int == rl);
                assert(cr as int == rr);
                let e1 = enc(both_new(w@, r), n);
                assert(tk_e =~= tk_e.update(e1, tk_e[e1]));
                lemma_step_chain(
                    tk_a,
                    tk_b,
                    tk_c,
                    tk_e,
                    tk_e,
                    e1,
                    rb,
                    left_exists(w@, r) && right_exists(w@, r),
                    enc(left_new(w@, r), n),
                    rl,
                    left_exists(w@, r),
                    enc(right_new(w@, r), n),
                    rr,
                    right_exists(w@, r),
                    e1,
                    0,
                );
                if k == 3 {
                    let bn = both_new(w@, r);
                    let ln = left_new(w@, r);
                    let rn = right_new(w@, r);
                    lemma_enc_bounds(seq![bn[0], bn[2]], nn);
                    lemma_enc_bounds(seq![ln[0], ln[2]], nn);
                    lemma_enc_bounds(seq![rn[0], rn[2]], nn);
                    let z1 = pair_idx(n, bn[0], bn[2]);
                    assert(sk_e =~= sk_e.update(z1, sk_e[z1]));
                    lemma_step_chain(
                        sk_a,
                        sk_b,
                        sk_c,
                        sk_e,
                        sk_e,
                        z1,
                        rb,
                        left_exists(w@, r) && right_exists(w@, r),
                        pair_idx(n, ln[0], ln[2]),
                        rl,
                        left_exists(w@, r),
                        pair_idx(n, rn[0], rn[2]),
                        rr,
                        right_exists(w@, r),
                        z1,
                        0,
                    );
                }
            }
        }
        Ok((bcount, cl, cr))
    }

    /// One window of the boundary pass: resolve the candidates, then take
    /// their total out of the transformed window's own bucket (mirrored on
    /// the skip-bigram table at order three).
    #[verifier::rlimit(100)]
    #[verifier::spinoff_prover]
    fn boundary_step(
        &mut self,
        k: usize,
        i: usize,
        r: Rule,
        Ghost(tk0): Ghost<Seq<u32>>,
        Ghost(sk0): Ghost<Seq<u32>>,
        Ghost(c0): Ghost<Corpus>,
    ) -> (res: Result<(), AdaptError>)
        requires
            old(self).wf(),
            r.valid(old(self).sz()),
            1 <= k <= 5,
            i < old(self).table_spec(k as int).len(),
            tk0.len() == old(self).table_spec(k as int).len(),
            sk0.len() == old(self).skipgrams@.len(),
            c0.sz() == old(self).sz(),
            c0.estimator == old(self).estimator,
            forall|j: int|
                1 <= j <= 5 && j != k ==> old(self).table_spec(j) == c0.table_spec(j),
            forall|j: int|
                0 <= j < tk0.len() && !involved(dec(j, k as nat, old(self).sz()), r) ==> old(self).table_spec(k as int)[j] == tk0[j],
            k == 3 ==> forall|a: usize, c: usize|
                a < old(self).sz() && c < old(self).sz() ==> old(self).skipgrams@[pair_idx(
                    old(self).sz(),
                    a,
                    c,
                )] as int - sk0[pair_idx(old(self).sz(), a, c)] as int == #[trigger] colsum_u32(
                    old(self).table_spec(3),
                    old(self).sz(),
                    a,
                    c,
                    old(self).sz() as nat,
                ) - colsum_u32(tk0, old(self).sz(), a, c, old(self).sz() as nat),
            k == 3 ==> forall|a: usize, c: usize|
                a < old(self).sz() && c < old(self).sz() && (forall|b: usize|
                    b < old(self).sz() ==> !(#[trigger] involved(tri_win(a, b, c), r))) ==> old(self).skipgrams@[#[trigger] pair_idx(old(self).sz(), a, c)] == sk0[pair_idx(
                    old(self).sz(),
                    a,
                    c,
                )],
        ensures
            final(self).wf(),
            final(self).sz() == old(self).sz(),
            final(self).char_list@ == old(self).char_list@,
            final(self).estimator == old(self).estimator,
            forall|j: int|
                1 <= j <= 5 && j != k ==> final(self).table_spec(j) == old(self).table_spec(j),
            k != 3 ==> final(self).skipgrams@ == old(self).skipgrams@,
            final(self).table_spec(k as int).len() == old(self).table_spec(k as int).len(),
            final(self).skipgrams@.len() == old(self).skipgrams@.len(),
            forall|j: int|
                0 <= j < tk0.len() && !involved(dec(j, k as nat, old(self).sz()), r) ==> final(self).table_spec(k as int)[j] == tk0[j],
            k == 3 ==> forall|a: usize, c: usize|
                a < old(self).sz() && c < old(self).sz() ==> final(self).skipgrams@[pair_idx(
                    old(self).sz(),
                    a,
                    c,
                )] as int - sk0[pair_idx(old(self).sz(), a, c)] as int == #[trigger] colsum_u32(
                    final(self).table_spec(3),
                    old(self).sz(),
                    a,
                    c,
                    old(self).sz() as nat,
                ) - colsum_u32(tk0, old(self).sz(), a, c, old(self).sz() as nat),
            k == 3 ==> forall|a: usize, c: usize|
                a < old(self).sz() && c < old(self).sz() && (forall|b: usize|
                    b < old(self).sz() ==> !(#[trigger] involved(tri_win(a, b, c), r))) ==> final(self).skipgrams@[#[trigger] pair_idx(old(self).sz(), a, c)] == sk0[pair_idx(
                    old(self).sz(),
                    a,
                    c,
                )],
            res is Err ==> res->Err_0 == AdaptError::Overflow,
            res is Ok ==> sum_u32(final(self).table_spec(k as int)) == sum_u32(
                old(self).table_spec(k as int),
            ) && (k == 3 ==> sum_u32(final(self).skipgrams@) == sum_u32(old(self).skipgrams@)),
            rule_untouched(old(self), r) ==> res is Ok && tables_unchanged(final(self), old(self)),
            // Movement: the window's resolved candidate masses enter their
            // new-side buckets and their total leaves the transformed
            // window's own bucket, exactly as the one-window fold says.
            res is Ok && (k <= 4 || c0.estimator == Estimator::Zero) ==> (forall|j: int|
                0 <= j < tk0.len() ==> final(self).table_spec(k as int)[j] as int
                    == #[trigger] boundary_win_tbl(
                    to_int(old(self).table_spec(k as int)),
                    &c0,
                    dec(i as int, k as nat, old(self).sz()),
                    r,
                )[j]) && (k == 3 ==> forall|p: int|
                0 <= p < sk0.len() ==> final(self).skipgrams@[p] as int
                    == #[trigger] boundary_win_skip(
                    to_int(old(self).skipgrams@),
                    &c0,
                    dec(i as int, 3, old(self).sz()),
                    r,
                )[p]),
    {
        let ghost n = self.sz();
        let nn = self.char_list.len();
        proof {
            if nn == 0 {
                assert(npow(nn as int, k as nat) == 0);
            }
        }
        let ghost tk_a = self.table_spec(k as int);
        let ghost sk_a = self.skipgrams@;
        let counts = match self.boundary_candidates(k, i, r, Ghost(tk0), Ghost(sk0), Ghost(c0)) {
            Ok(t) => t,
            Err(er) => {
                return Err(er);
            },
        };
        let (bcount, cl, cr) = counts;
        let ghost tk_e = self.table_spec(k as int);
        let ghost sk_e = self.skipgrams@;
        let suma: u64 = bcount as u64 + cl as u64 + cr as u64;
        if suma > 0 {
            let w = decode_window(i, k, nn);
            let t = transform_exec(&w, &r);
            proof {
                lemma_candidates_valid(w@, r, nn);
                crate::expansion::lemma_transform_len(w@, r);
                crate::expansion::lemma_transform_valid(w@, r, nn);
                // A positive total means some candidate existed.
                assert(left_exists(w@, r) || right_exists(w@, r));
                lemma_boundary_sub_involved(w@, r);
            }
            let _tl = self.table_len(k);
            let _sl = self.skipgrams.len();
            let ti = encode_window(&t, nn);
            let cell = self.table_get(k, ti);
            if (cell as u64) < suma {
                return Err(AdaptError::Overflow);
            }
            let newv = cell - (suma as u32);
            let ghost tk_d = self.table_spec(k as int);
            let ghost sk_d = self.skipgrams@;
            if k == 3 {
                let mut sp: Vec<usize> = Vec::new();
                sp.push(t[0]);
                sp.push(t[2]);
                proof {
                    assert(sp@ =~= seq![t@[0], t@[2]]);
                    lemma_enc_bounds(sp@, nn);
                }
                let si = encode_window(&sp, nn);
                let scell = self.skip_get(si);
                if (scell as u64) < suma {
                    return Err(AdaptError::Overflow);
                }
                self.table_set(k, ti, newv);
                self.skip_set(si, scell - (suma as u32));
            } else {
                self.table_set(k, ti, newv);
            }
            proof {
                lemma_boundary_event(
                    k as nat,
                    n,
                    r,
                    tk0,
                    sk0,
                    tk_d,
                    self.table_spec(k as int),
                    sk_d,
                    self.skipgrams@,
                    t@,
                    -(suma as int),
                );
            }
        }
        proof {
            if k <= 4 || c0.estimator == Estimator::Zero {
                let w = dec(i as int, k as nat, n);
                crate::encoding::lemma_enc_dec(i as int, k as nat, n);
                lemma_candidates_valid(w, r, n);
                crate::expansion::lemma_transform_len(w, r);
                crate::expansion::lemma_transform_valid(w, r, n);
                let rb = resolved_both(&c0, w, r);
                let rl = resolved_left(&c0, w, r);
                let rr = resolved_right(&c0, w, r);
                assert(suma as int == rb + rl + rr);
                let nt = enc(transform(w, r), n);
                lemma_enc_bounds(transform(w, r), n);
                let tkf = self.table_spec(k as int);
                if suma == 0 {
                    assert(tkf =~= tk_e.update(nt, tkf[nt]));
                }
                lemma_win_tbl_pointwise(to_int(tk_a), &c0, w, r, n);
                assert forall|j: int|
                    0 <= j < tk0.len() implies tkf[j] as int == boundary_win_tbl(
                    to_int(tk_a),
                    &c0,
                    w,
                    r,
                )[j] by {
                    assert(to_int(tk_a)[j] == tk_a[j] as int);
                    assert(tk_e[j] as int == to_int(tk_a)[j] + (if left_exists(w, r)
                        && right_exists(w, r) && j == enc(both_new(w, r), n) {
                        rb
                    } else {
                        0
                    }) + (if left_exists(w, r) && j == enc(left_new(w, r), n) {
                        rl
                    } else {
                        0
                    }) + (if right_exists(w, r) && j == enc(right_new(w, r), n) {
                        rr
                    } else {
                        0
                    }));
                }
                if k == 3 {
                    let tw = transform(w, r);
                    lemma_enc_bounds(seq![tw[0], tw[2]], n);
                    let st = pair_idx(n, tw[0], tw[2]);
                    let skf = self.skipgrams@;
                    if suma == 0 {
                        assert(skf =~= sk_e.update(st, skf[st]));
                    }
                    lemma_win_skip_pointwise(to_int(sk_a), &c0, w, r, n);
                    assert forall|p: int|
                        0 <= p < sk0.len() implies skf[p] as int == boundary_win_skip(
                        to_int(sk_a),
                        &c0,
                        w,
                        r,
                    )[p] by {
                        assert(to_int(sk_a)[p] == sk_a[p] as int);
                        assert(sk_e[p] as int == to_int(sk_a)[p] + (if left_exists(w, r)
                            && right_exists(w, r) && p == pair_idx(
                            n,
                            both_new(w, r)[0],
                            both_new(w, r)[2],
                        ) {
                            rb
                        } else {
                            0
                        }) + (if left_exists(w, r) && p == pair_idx(
                            n,
                            left_new(w, r)[0],
                            left_new(w, r)[2],
                        ) {
                            rl
                        } else {
                            0
                        }) + (if right_exists(w, r) && p == pair_idx(
                            n,
                            right_new(w, r)[0],
                            right_new(w, r)[2],
                        ) {
                            rr
                        } else {
                            0
                        }));
                    }
                }
            }
        }
        Ok(())
    }

    /// Boundary adaptation of one order: for every window, resolve the Both
    /// candidate against the order-plus-two context, then Left and Right
    /// against the order-plus-one contexts with Both's mass deducted, add
    /// each resolved count to its new-side bucket, and subtract their total
    /// from the transformed window's own bucket.  At order three every move
    /// is mirrored on the skip-bigram table.
    pub fn adapt_boundary_ngrams(&mut self, k: usize, r: Rule) -> (res: Result<(), AdaptError>)
        requires
            old(self).wf(),
            r.valid(old(self).sz()),
            1 <= k <= 5,
        ensures
            final(self).wf(),
            final(self).sz() == old(self).sz(),
            final(self).char_list@ == old(self).char_list@,
            final(self).estimator == old(self).estimator,
            forall|j: int|
                1 <= j <= 5 && j != k ==> final(self).table_spec(j) == old(self).table_spec(j),
            k != 3 ==> final(self).skipgrams@ == old(self).skipgrams@,
            final(self).table_spec(k as int).len() == old(self).table_spec(k as int).len(),
            final(self).skipgrams@.len() == old(self).skipgrams@.len(),
            forall|j: int|
                0 <= j < old(self).table_spec(k as int).len() && !involved(
                    dec(j, k as nat, old(self).sz()),
                    r,
                ) ==> final(self).table_spec(k as int)[j] == old(self).table_spec(k as int)[j],
            k == 3 ==> forall|a: usize, c: usize|
                a < old(self).sz() && c < old(self).sz() ==> final(self).skipgrams@[pair_idx(
                    old(self).sz(),
                    a,
                    c,
                )] as int - old(self).skipgrams@[pair_idx(old(self).sz(), a, c)] as int
                    == #[trigger] colsum_u32(
                    final(self).table_spec(3),
                    old(self).sz(),
                    a,
                    c,
                    old(self).sz() as nat,
                ) - colsum_u32(
                    old(self).table_spec(3),
                    old(self).sz(),
                    a,
                    c,
                    old(self).sz() as nat,
                ),
            k == 3 ==> forall|a: usize, c: usize|
                a < old(self).sz() && c < old(self).sz() && (forall|b: usize|
                    b < old(self).sz() ==> !(#[trigger] involved(tri_win(a, b, c), r)))
                    ==> final(self).skipgrams@[#[trigger] pair_idx(old(self).sz(), a, c)] == old(self).skipgrams@[pair_idx(old(self).sz(), a, c)],
            res is Ok ==> sum_u32(final(self).table_spec(k as int)) == sum_u32(
                old(self).table_spec(k as int),
            ) && (k == 3 ==> sum_u32(final(self).skipgrams@) == sum_u32(old(self).skipgrams@)),
            res is Err ==> res->Err_0 == AdaptError::Overflow,
            rule_untouched(old(self), r) ==> res is Ok && tables_unchanged(final(self), old(self)),
            // Movement: on success the order's table is exactly the window-
            // by-window fold of resolved candidate moves, and at order three
            // the skip-bigram table is its mirrored fold.  (At order five a
            // non-zero estimator reads the table being rewritten, so the
            // fold over the starting state no longer describes it.)
            res is Ok && (k <= 4 || old(self).estimator == Estimator::Zero) ==> (forall|j: int|
                0 <= j < old(self).table_spec(k as int).len() ==> final(self).table_spec(
                    k as int,
                )[j] as int == #[trigger] boundary_tbl(
                    to_int(old(self).table_spec(k as int)),
                    old(self),
                    k as nat,
                    r,
                    old(self).table_spec(k as int).len(),
                )[j]) && (k == 3 ==> forall|p: int|
                0 <= p < old(self).skipgrams@.len() ==> final(self).skipgrams@[p] as int
                    == #[trigger] boundary_skip(
                    to_int(old(self).skipgrams@),
                    old(self),
                    r,
                    old(self).table_spec(3).len(),
                )[p]),
    {
        let n = self.char_list.len();
        let len = self.table_len(k);
        let ghost tk0 = self.table_spec(k as int);
        let ghost sk0 = self.skipgrams@;
        let ghost c0 = *self;
        let ghost sl_g = self.skipgrams@.len();
        let mut i: usize = 0;
        while i < len
            invariant
                self.wf(),
                r.valid(self.sz()),
                1 <= k <= 5,
                n == self.sz(),
                i <= len,
                tk0 == old(self).table_spec(k as int),
                sk0 == old(self).skipgrams@,
                len == tk0.len(),
                self.table_spec(k as int).len() == tk0.len(),
                self.skipgrams@.len() == sk0.len(),
                self.char_list@ == old(self).char_list@,
                self.estimator == old(self).estimator,
                forall|j: int|
                    1 <= j <= 5 && j != k ==> self.table_spec(j) == old(self).table_spec(j),
                k != 3 ==> self.skipgrams@ == sk0,
                sum_u32(self.table_spec(k as int)) == sum_u32(tk0),
                k == 3 ==> sum_u32(self.skipgrams@) == sum_u32(sk0),
                forall|j: int|
                    0 <= j < tk0.len() && !involved(dec(j, k as nat, n), r) ==> self.table_spec(
                        k as int,
                    )[j] == tk0[j],
                k == 3 ==> forall|a: usize, c: usize|
                    a < n && c < n ==> self.skipgrams@[pair_idx(n, a, c)] as int - sk0[pair_idx(
                        n,
                        a,
                        c,
                    )] as int == #[trigger] colsum_u32(self.table_spec(3), n, a, c, n as nat)
                        - colsum_u32(tk0, n, a, c, n as nat),
                k == 3 ==> forall|a: usize, c: usize|
                    a < n && c < n && (forall|b: usize|
                        b < n ==> !(#[trigger] involved(tri_win(a, b, c), r)))
                        ==> self.skipgrams@[#[trigger] pair_idx(n, a, c)] == sk0[pair_idx(n, a, c)],
                rule_untouched(old(self), r) ==> tables_unchanged(&*self, old(self)),
                c0 == *old(self),
                (k <= 4 || c0.estimator == Estimator::Zero) ==> forall|j: int|
                    0 <= j < len ==> self.table_spec(k as int)[j] as int == #[trigger] boundary_tbl(
                        to_int(tk0),
                        &c0,
                        k as nat,
                        r,
                        i as nat,
                    )[j],
                (k == 3 && (k <= 4 || c0.estimator == Estimator::Zero)) ==> forall|p: int|
                    0 <= p < sl_g ==> self.skipgrams@[p] as int == #[trigger] boundary_skip(
                        to_int(sk0),
                        &c0,
                        r,
                        i as nat,
                    )[p],
                sl_g == sk0.len(),
            decreases len - i,
        {
            let ghost cur = *self;
            proof {
                if rule_untouched(old(self), r) {
                    lemma_untouched_same(&cur, old(self), r);
                }
                if n == 0 {
                    assert(npow(n as int, k as nat) == 0);
                }
                if k <= 4 || c0.estimator == Estimator::Zero {
                    lemma_boundary_tbl_len(to_int(tk0), &c0, k as nat, r, i as nat);
                    lemma_boundary_tbl_len(to_int(tk0), &c0, k as nat, r, (i + 1) as nat);
                    if k == 3 {
                        lemma_boundary_skip_len(to_int(sk0), &c0, r, i as nat);
                        lemma_boundary_skip_len(to_int(sk0), &c0, r, (i + 1) as nat);
                    }
                }
            }
            let ghost tk_pre_step = self.table_spec(k as int);
            let ghost sk_pre_step = self.skipgrams@;
            match self.boundary_step(k, i, r, Ghost(tk0), Ghost(sk0), Ghost(c0)) {
                Ok(u) => (),
                Err(er) => {
                    return Err(er);
                },
            }
            proof {
                if k <= 4 || c0.estimator == Estimator::Zero {
                    // The step's one-window move lands exactly on the next
                    // prefix of the fold.
                    let w = dec(i as int, k as nat, n);
                    assert(to_int(tk_pre_step) =~= boundary_tbl(to_int(tk0), &c0, k as nat, r, i as nat));
                    if k == 3 {
                        assert(to_int(sk_pre_step) =~= boundary_skip(to_int(sk0), &c0, r, i as nat));
                    }
                }
            }
            i = i + 1;
        }
        Ok(())
    }
}

} // verus!
