//! Sequencing: per order, interior adaptation then boundary adaptation;
//! per rule, the five orders ascending.  A rule whose replacement equals
//! its pattern, or with a character outside the alphabet, is rejected
//! before any table is touched.

use vstd::prelude::*;
use crate::{AdaptError, Rule};
use crate::corpus::{Corpus, tables_unchanged, has_char, lemma_char_idx_unique};
use crate::nums::sum_u32;
use crate::encoding::dec;
use crate::corpus::Estimator;
use crate::props::{
    involved, projection_holds, pair_idx, tri_win, colsum_u32, rule_untouched,
    rule_untouched_chars, lemma_untouched_same,
};
use crate::effects::{
    to_int, interior_result, interior_skip_result, order_result, order_skip_result, boundary_skip,
    lemma_boundary_tbl_agrees,
};

verus! {

impl Corpus {
    /// Adapt one order to the rule: interior moves first (so the boundary
    /// step sees the transformed windows), then boundary moves.  Order one
    /// has no interior step.
    pub fn adapt_ngrams(&mut self, k: usize, r: Rule) -> (res: Result<(), AdaptError>)
        requires
            old(self).wf(),
            r.valid(old(self).sz()),
            // A rule that rewrites the pattern to itself is inconsistent
            // and is rejected before the per-order engines run.
            !r.is_identity(),
            1 <= k <= 5,
        ensures
            final(self).wf(),
            final(self).sz() == old(self).sz(),
            final(self).char_list@ == old(self).char_list@,
            final(self).estimator == old(self).estimator,
            forall|j: int|
                1 <= j <= 5 && j != k ==> final(self).table_spec(j) == old(self).table_spec(j),
            k != 3 ==> final(self).skipgrams@ == old(self).skipgrams@,
            final(self).table_spec(k as int).len() == old(self).table_spec(k as int).len(),
            final(self).skipgrams@.len() == old(self).skipgrams@.len(),
            res is Err ==> res->Err_0 == AdaptError::Overflow,
            // Locality: a window that can neither hold the pattern or the
            // replacement nor abut an occurrence keeps its frequency.
            forall|j: int|
                0 <= j < old(self).table_spec(k as int).len() && !involved(
                    dec(j, k as nat, old(self).sz()),
                    r,
                ) ==> final(self).table_spec(k as int)[j] == old(self).table_spec(k as int)[j],
            k == 3 ==> forall|a: usize, c: usize|
                a < old(self).sz() && c < old(self).sz() && (forall|b: usize|
                    b < old(self).sz() ==> !(#[trigger] involved(tri_win(a, b, c), r)))
                    ==> final(self).skipgrams@[#[trigger] pair_idx(old(self).sz(), a, c)] == old(
                    self,
                ).skipgrams@[pair_idx(old(self).sz(), a, c)],
            // Conservation: the order's total is kept, provided the
            // pattern does not overlap itself and the totals fit.
            res is Ok && r.old0 != r.old1 && sum_u32(old(self).table_spec(k as int)) <= u32::MAX
                as int ==> sum_u32(final(self).table_spec(k as int)) == sum_u32(
                old(self).table_spec(k as int),
            ),
            // Projection: the skip-bigram table stays the column projection
            // of the trigram table.
            res is Ok && k == 3 && r.old0 != r.old1 && sum_u32(old(self).table_spec(3)) <= u32::MAX
                as int && sum_u32(old(self).skipgrams@) <= u32::MAX as int && projection_holds(
                old(self).table_spec(3),
                old(self).skipgrams@,
                old(self).sz(),
            ) ==> projection_holds(
                final(self).table_spec(3),
                final(self).skipgrams@,
                old(self).sz(),
            ) && sum_u32(final(self).skipgrams@) == sum_u32(old(self).skipgrams@),
            // A rule that touches no counted mass succeeds and changes
            // nothing at all.
            rule_untouched(old(self), r) ==> res is Ok && tables_unchanged(final(self), old(self)),
            // Movement: on success the order's table is exactly the interior
            // fold followed by the boundary fold, cell for cell, and at
            // order three the skip-bigram table is the mirrored composite.
            // (At order five a non-zero estimator reads the table being
            // rewritten, so the fold over the starting state no longer
            // describes the boundary step.)
            res is Ok && (k <= 4 || old(self).estimator == Estimator::Zero) ==> (forall|j: int|
                0 <= j < old(self).table_spec(k as int).len() ==> final(self).table_spec(
                    k as int,
                )[j] as int == #[trigger] order_result(old(self), k as nat, r)[j]) && (k == 3
                ==> forall|p: int|
                0 <= p < old(self).skipgrams@.len() ==> final(self).skipgrams@[p] as int
                    == #[trigger] order_skip_result(old(self), r)[p]),
    {
        let ghost n = self.sz();
        let ghost tk0 = self.table_spec(k as int);
        let ghost sk0 = self.skipgrams@;
        match self.adapt_interior_ngrams(k, r) {
            Ok(u) => (),
            Err(e) => {
                return Err(e);
            },
        }
        let ghost tk1 = self.table_spec(k as int);
        let ghost sk1 = self.skipgrams@;
        let ghost mid = *self;
        proof {
            if rule_untouched(old(self), r) {
                lemma_untouched_same(&mid, old(self), r);
            }
        }
        let res = self.adapt_boundary_ngrams(k, r);
        proof {
            if rule_untouched(old(self), r) {
                assert(tables_unchanged(&mid, old(self)));
                assert(rule_untouched(&mid, r));
                assert(tables_unchanged(&*self, &mid));
                assert(tables_unchanged(&*self, old(self)));
            }
            if res is Ok && (k <= 4 || old(self).estimator == Estimator::Zero) {
                // The interior result is the boundary fold's base, and the
                // boundary fold resolves its candidates against tables the
                // interior pass did not touch.
                assert(to_int(tk1) =~= interior_result(tk0, n, k as nat, r));
                if tk0.len() > 0 {
                    if n == 0 {
                        assert(crate::nums::npow(n as int, k as nat) == 0);
                    }
                    if k != 5 {
                        assert(mid.table_spec(5) == old(self).table_spec(5));
                        assert(mid.pentagrams@ == old(self).pentagrams@);
                    }
                    lemma_boundary_tbl_agrees(
                        interior_result(tk0, n, k as nat, r),
                        &mid,
                        old(self),
                        k as nat,
                        r,
                        tk0.len(),
                    );
                }
                assert forall|j: int|
                    0 <= j < tk0.len() implies self.table_spec(k as int)[j] as int == order_result(
                    old(self),
                    k as nat,
                    r,
                )[j] by {}
                if k == 3 {
                    assert forall|p: int|
                        0 <= p < sk0.len() implies to_int(sk1)[p] == interior_skip_result(
                        tk0,
                        sk0,
                        n,
                        r,
                    )[p] by {
                        assert(sk1[p] as int == crate::nums::clamp_u32(
                            sk0[p] + crate::effects::interior_skip_acc(tk0, n, r, tk0.len())[p],
                        ));
                    }
                    assert(to_int(sk1) =~= interior_skip_result(tk0, sk0, n, r));
                    if tk0.len() > 0 {
                        lemma_boundary_tbl_agrees(
                            interior_skip_result(tk0, sk0, n, r),
                            &mid,
                            old(self),
                            k as nat,
                            r,
                            tk0.len(),
                        );
                    }
                    assert forall|p: int|
                        0 <= p < sk0.len() implies self.skipgrams@[p] as int == order_skip_result(
                        old(self),
                        r,
                    )[p] by {
                        assert(self.skipgrams@[p] as int == boundary_skip(
                            to_int(sk1),
                            &mid,
                            r,
                            tk0.len(),
                        )[p]);
                        assert(to_int(sk1) == interior_skip_result(tk0, sk0, n, r));
                        assert(boundary_skip(interior_skip_result(tk0, sk0, n, r), &mid, r, tk0.len())
                            == boundary_skip(
                            interior_skip_result(tk0, sk0, n, r),
                            old(self),
                            r,
                            tk0.len(),
                        ));
                    }
                }
            }
        }
        proof {
            let tk2 = self.table_spec(k as int);
            let sk2 = self.skipgrams@;
            if k == 3 && res is Ok && r.old0 != r.old1 && sum_u32(tk0) <= u32::MAX as int
                && sum_u32(sk0) <= u32::MAX as int && projection_holds(tk0, sk0, n) {
                assert forall|a: usize, c: usize| a < n && c < n implies sk2[crate::encoding::enc(
                    seq![a, c],
                    n,
                )] == #[trigger] colsum_u32(tk2, n, a, c, n as nat) by {
                    assert(pair_idx(n, a, c) == crate::encoding::enc(seq![a, c], n));
                    assert(sk1[pair_idx(n, a, c)] == colsum_u32(tk1, n, a, c, n as nat));
                }
            }
        }
        res
    }

    /// Apply one rewrite rule to all five orders, ascending.  A rule whose
    /// replacement equals its pattern is rejected as inconsistent, and a
    /// rule character without an alphabet slot as unencodable; both before
    /// any table is touched.
    pub fn apply_rule(&mut self, old_bg: [char; 2], new_bg: [char; 2]) -> (res: Result<
        (),
        AdaptError,
    >)
        requires
            old(self).wf(),
        ensures
            final(self).wf(),
            final(self).sz() == old(self).sz(),
            final(self).char_list@ == old(self).char_list@,
            final(self).estimator == old(self).estimator,
            forall|kk: int|
                1 <= kk <= 5 ==> final(self).table_spec(kk).len() == old(self).table_spec(
                    kk,
                ).len(),
            final(self).skipgrams@.len() == old(self).skipgrams@.len(),
            // A rule that would rewrite a pair to itself is inconsistent.
            (old_bg@[0] == new_bg@[0] && old_bg@[1] == new_bg@[1]) <==> res == Err::<
                (),
                AdaptError,
            >(AdaptError::Inconsistent),
            // A rule character without an alphabet slot cannot be encoded.
            (!(old_bg@[0] == new_bg@[0] && old_bg@[1] == new_bg@[1]) && !(has_char(
                old(self).char_list@,
                old_bg@[0],
            ) && has_char(old(self).char_list@, old_bg@[1]) && has_char(
                old(self).char_list@,
                new_bg@[0],
            ) && has_char(old(self).char_list@, new_bg@[1]))) <==> res == Err::<
                (),
                AdaptError,
            >(AdaptError::Unencodable),
            // A rejected rule leaves every table bit-for-bit unchanged.
            (res == Err::<(), AdaptError>(AdaptError::Inconsistent) || res == Err::<
                (),
                AdaptError,
            >(AdaptError::Unencodable)) ==> tables_unchanged(final(self), old(self)),
            // Conservation: every order's total is kept, provided the
            // pattern does not overlap itself and the totals fit.
            res is Ok ==> forall|kk: int|
                1 <= kk <= 5 && old_bg@[0] != old_bg@[1] && sum_u32(
                    #[trigger] old(self).table_spec(kk),
                ) <= u32::MAX as int ==> sum_u32(final(self).table_spec(kk)) == sum_u32(
                    old(self).table_spec(kk),
                ),
            // Projection: the skip-bigram table stays the column projection
            // of the trigram table.
            res is Ok && old_bg@[0] != old_bg@[1] && sum_u32(old(self).table_spec(3)) <= u32::MAX
                as int && sum_u32(old(self).skipgrams@) <= u32::MAX as int && projection_holds(
                old(self).table_spec(3),
                old(self).skipgrams@,
                old(self).sz(),
            ) ==> projection_holds(
                final(self).table_spec(3),
                final(self).skipgrams@,
                old(self).sz(),
            ) && sum_u32(final(self).skipgrams@) == sum_u32(old(self).skipgrams@),
            res is Err ==> res->Err_0 == AdaptError::Inconsistent || res->Err_0
                == AdaptError::Unencodable || res->Err_0 == AdaptError::Overflow,
            // Locality: when the rule is applied, a window of any order
            // that can neither hold the pattern or the replacement nor abut
            // an occurrence keeps its frequency.
            res is Ok ==> forall|kk: int, j: int|
                1 <= kk <= 5 && 0 <= j < old(self).table_spec(kk).len() && !involved(
                    dec(j, kk as nat, old(self).sz()),
                    Rule {
                        old0: old(self).char_idx_spec(old_bg@[0]),
                        old1: old(self).char_idx_spec(old_bg@[1]),
                        new0: old(self).char_idx_spec(new_bg@[0]),
                        new1: old(self).char_idx_spec(new_bg@[1]),
                    },
                ) ==> final(self).table_spec(kk)[j] == #[trigger] old(self).table_spec(kk)[j],
            // Movement: on success every order's table is exactly its
            // interior fold followed by its boundary fold over the starting
            // corpus, and the skip-bigram table the order-three mirror.
            // (Order five is excluded for a non-zero estimator, which reads
            // the pentagram table while it is being rewritten.)
            res is Ok ==> forall|kk: int, j: int|
                1 <= kk <= 5 && (kk <= 4 || old(self).estimator == Estimator::Zero) && 0 <= j < old(
                    self,
                ).table_spec(kk).len() ==> #[trigger] final(self).table_spec(kk)[j] as int
                    == order_result(
                    old(self),
                    kk as nat,
                    Rule {
                        old0: old(self).char_idx_spec(old_bg@[0]),
                        old1: old(self).char_idx_spec(old_bg@[1]),
                        new0: old(self).char_idx_spec(new_bg@[0]),
                        new1: old(self).char_idx_spec(new_bg@[1]),
                    },
                )[j],
            res is Ok ==> forall|p: int|
                0 <= p < old(self).skipgrams@.len() ==> #[trigger] final(self).skipgrams@[p] as int
                    == order_skip_result(
                    old(self),
                    Rule {
                        old0: old(self).char_idx_spec(old_bg@[0]),
                        old1: old(self).char_idx_spec(old_bg@[1]),
                        new0: old(self).char_idx_spec(new_bg@[0]),
                        new1: old(self).char_idx_spec(new_bg@[1]),
                    },
                )[p],
            // Success is owed to a rule that touches no counted mass, and
            // such a rule changes nothing.
            (!(old_bg@[0] == new_bg@[0] && old_bg@[1] == new_bg@[1]) && has_char(
                old(self).char_list@,
                old_bg@[0],
            ) && has_char(old(self).char_list@, old_bg@[1]) && has_char(
                old(self).char_list@,
                new_bg@[0],
            ) && has_char(old(self).char_list@, new_bg@[1]) && rule_untouched_chars(
                old(self),
                old_bg@,
                new_bg@,
            )) ==> res is Ok && tables_unchanged(final(self), old(self)),
    {
        if old_bg[0] == new_bg[0] && old_bg[1] == new_bg[1] {
            return Err(AdaptError::Inconsistent);
        }
        let _n = self.char_list.len();
        let r = match self.rule_from_chars(old_bg, new_bg) {
            Ok(r) => r,
            Err(e) => {
                return Err(e);
            },
        };
        proof {
            if old_bg@[0] != old_bg@[1] {
                assert(r.old0 != r.old1);
            }
            lemma_char_idx_unique(old(self), old_bg@[0], r.old0 as int);
            lemma_char_idx_unique(old(self), old_bg@[1], r.old1 as int);
            lemma_char_idx_unique(old(self), new_bg@[0], r.new0 as int);
            lemma_char_idx_unique(old(self), new_bg@[1], r.new1 as int);
            assert(r == (Rule {
                old0: old(self).char_idx_spec(old_bg@[0]),
                old1: old(self).char_idx_spec(old_bg@[1]),
                new0: old(self).char_idx_spec(new_bg@[0]),
                new1: old(self).char_idx_spec(new_bg@[1]),
            }));
            if rule_untouched_chars(old(self), old_bg@, new_bg@) {
                assert(rule_untouched(old(self), r));
            }
        }
        let ghost c0 = *self;
        match self.adapt_ngrams(1, r) {
            Ok(u) => (),
            Err(e) => {
                return Err(e);
            },
        }
        let ghost c1 = *self;
        proof {
            if rule_untouched(old(self), r) {
                lemma_untouched_same(&c1, old(self), r);
            }
        }
        match self.adapt_ngrams(2, r) {
            Ok(u) => (),
            Err(e) => {
                return Err(e);
            },
        }
        let ghost c2 = *self;
        proof {
            if rule_untouched(old(self), r) {
                lemma_untouched_same(&c2, old(self), r);
            }
        }
        match self.adapt_ngrams(3, r) {
            Ok(u) => (),
            Err(e) => {
                return Err(e);
            },
        }
        let ghost c3 = *self;
        proof {
            if rule_untouched(old(self), r) {
                lemma_untouched_same(&c3, old(self), r);
            }
        }
        match self.adapt_ngrams(4, r) {
            Ok(u) => (),
            Err(e) => {
                return Err(e);
            },
        }
        let ghost c4 = *self;
        proof {
            if rule_untouched(old(self), r) {
                lemma_untouched_same(&c4, old(self), r);
            }
        }
        match self.adapt_ngrams(5, r) {
            Ok(u) => (),
            Err(e) => {
                return Err(e);
            },
        }
        proof {
            assert forall|kk: int|
                1 <= kk <= 5 && old_bg@[0] != old_bg@[1] && sum_u32(
                    #[trigger] c0.table_spec(kk),
                ) <= u32::MAX as int implies sum_u32(self.table_spec(kk)) == sum_u32(
                c0.table_spec(kk),
            ) by {
                assert(r.old0 != r.old1);
            }
            if rule_untouched(old(self), r) {
                assert(tables_unchanged(&*self, old(self)));
            }
            let moved_rule = r;
            assert forall|kk: int, j: int|
                1 <= kk <= 5 && (kk <= 4 || c0.estimator == Estimator::Zero) && 0 <= j
                    < c0.table_spec(kk).len() implies #[trigger] self.table_spec(kk)[j] as int
                == order_result(&c0, kk as nat, moved_rule)[j] by {
                let n0 = c0.sz();
                if n0 == 0 {
                    assert(crate::nums::npow(n0 as int, kk as nat) == 0);
                }
                if kk == 1 {
                    assert(self.table_spec(1) == c1.table_spec(1));
                    assert(c1.table_spec(1)[j] as int == order_result(&c0, 1, moved_rule)[j]);
                } else if kk == 2 {
                    assert(c1.table_spec(2) == c0.table_spec(2));
                    assert(c1.table_spec(3) == c0.table_spec(3));
                    assert(c1.table_spec(4) == c0.table_spec(4));
                    assert(c1.pentagrams@ == c0.pentagrams@);
                    lemma_boundary_tbl_agrees(
                        interior_result(c0.table_spec(2), n0, 2, moved_rule),
                        &c1,
                        &c0,
                        2,
                        moved_rule,
                        c0.table_spec(2).len(),
                    );
                    assert(self.table_spec(2) == c2.table_spec(2));
                    assert(c2.table_spec(2)[j] as int == order_result(&c1, 2, moved_rule)[j]);
                } else if kk == 3 {
                    assert(c2.table_spec(3) == c0.table_spec(3));
                    assert(c2.table_spec(4) == c0.table_spec(4));
                    assert(c2.table_spec(5) == c0.table_spec(5));
                    assert(c2.pentagrams@ == c0.pentagrams@);
                    lemma_boundary_tbl_agrees(
                        interior_result(c0.table_spec(3), n0, 3, moved_rule),
                        &c2,
                        &c0,
                        3,
                        moved_rule,
                        c0.table_spec(3).len(),
                    );
                    assert(self.table_spec(3) == c3.table_spec(3));
                    assert(c3.table_spec(3)[j] as int == order_result(&c2, 3, moved_rule)[j]);
                } else if kk == 4 {
                    assert(c3.table_spec(4) == c0.table_spec(4));
                    assert(c3.table_spec(5) == c0.table_spec(5));
                    assert(c3.pentagrams@ == c0.pentagrams@);
                    lemma_boundary_tbl_agrees(
                        interior_result(c0.table_spec(4), n0, 4, moved_rule),
                        &c3,
                        &c0,
                        4,
                        moved_rule,
                        c0.table_spec(4).len(),
                    );
                    assert(self.table_spec(4) == c4.table_spec(4));
                    assert(c4.table_spec(4)[j] as int == order_result(&c3, 4, moved_rule)[j]);
                } else {
                    assert(c4.table_spec(5) == c0.table_spec(5));
                    assert(c4.pentagrams@ == c0.pentagrams@);
                    lemma_boundary_tbl_agrees(
                        interior_result(c0.table_spec(5), n0, 5, moved_rule),
                        &c4,
                        &c0,
                        5,
                        moved_rule,
                        c0.table_spec(5).len(),
                    );
                    assert(self.table_spec(5)[j] as int == order_result(&c4, 5, moved_rule)[j]);
                }
            }
            assert forall|p: int|
                0 <= p < c0.skipgrams@.len() implies #[trigger] self.skipgrams@[p] as int
                == order_skip_result(&c0, moved_rule)[p] by {
                let n0 = c0.sz();
                if c0.table_spec(3).len() == 0 {
                    if n0 >= 1 {
                        crate::nums::lemma_npow_pos(n0 as int, 3);
                    }
                    assert(n0 == 0);
                    assert(crate::nums::npow(n0 as int, 2) == 0);
                    assert(false);
                } else {
                    if n0 == 0 {
                        assert(crate::nums::npow(n0 as int, 3) == 0);
                    }
                    assert(c2.table_spec(3) == c0.table_spec(3));
                    assert(c2.skipgrams@ == c0.skipgrams@);
                    assert(c2.table_spec(4) == c0.table_spec(4));
                    assert(c2.table_spec(5) == c0.table_spec(5));
                    assert(c2.pentagrams@ == c0.pentagrams@);
                    lemma_boundary_tbl_agrees(
                        interior_skip_result(c0.table_spec(3), c0.skipgrams@, n0, moved_rule),
                        &c2,
                        &c0,
                        3,
                        moved_rule,
                        c0.table_spec(3).len(),
                    );
                    assert(self.skipgrams@ == c3.skipgrams@);
                    assert(c3.skipgrams@[p] as int == order_skip_result(&c2, moved_rule)[p]);
                    assert(interior_skip_result(c2.table_spec(3), c2.skipgrams@, c2.sz(), moved_rule)
                        == interior_skip_result(c0.table_spec(3), c0.skipgrams@, n0, moved_rule));
                }
            }
            assert forall|kk: int, j: int|
                1 <= kk <= 5 && 0 <= j < c0.table_spec(kk).len() && !involved(
                    dec(j, kk as nat, c0.sz()),
                    r,
                ) implies self.table_spec(kk)[j] == #[trigger] c0.table_spec(kk)[j] by {
                if kk == 1 {
                    assert(c1.table_spec(1)[j] == c0.table_spec(1)[j]);
                    assert(c2.table_spec(1) == c1.table_spec(1));
                    assert(c3.table_spec(1) == c2.table_spec(1));
                    assert(c4.table_spec(1) == c3.table_spec(1));
                    assert(self.table_spec(1) == c4.table_spec(1));
                } else if kk == 2 {
                    assert(c1.table_spec(2) == c0.table_spec(2));
                    assert(c2.table_spec(2)[j] == c1.table_spec(2)[j]);
                    assert(c3.table_spec(2) == c2.table_spec(2));
                    assert(c4.table_spec(2) == c3.table_spec(2));
                    assert(self.table_spec(2) == c4.table_spec(2));
                } else if kk == 3 {
                    assert(c1.table_spec(3) == c0.table_spec(3));
                    assert(c2.table_spec(3) == c1.table_spec(3));
                    assert(c3.table_spec(3)[j] == c2.table_spec(3)[j]);
                    assert(c4.table_spec(3) == c3.table_spec(3));
                    assert(self.table_spec(3) == c4.table_spec(3));
                } else if kk == 4 {
                    assert(c1.table_spec(4) == c0.table_spec(4));
                    assert(c2.table_spec(4) == c1.table_spec(4));
                    assert(c3.table_spec(4) == c2.table_spec(4));
                    assert(c4.table_spec(4)[j] == c3.table_spec(4)[j]);
                    assert(self.table_spec(4) == c4.table_spec(4));
                } else {
                    assert(c1.table_spec(5) == c0.table_spec(5));
                    assert(c2.table_spec(5) == c1.table_spec(5));
                    assert(c3.table_spec(5) == c2.table_spec(5));
                    assert(c4.table_spec(5) == c3.table_spec(5));
                    assert(self.table_spec(5)[j] == c4.table_spec(5)[j]);
                }
            }
        }
        Ok(())
    }
}

/// Apply one rewrite rule to the trigram and skip-bigram statistics alone,
/// taking and returning the corpus by value.
pub fn apply(corpus: Corpus, old_bg: [char; 2], new_bg: [char; 2]) -> (res: Result<
    Corpus,
    AdaptError,
>)
    requires
        corpus.wf(),
    ensures
        match res {
            Ok(c) => {
                &&& c.wf()
                &&& c.sz() == corpus.sz()
                &&& c.char_list@ == corpus.char_list@
                &&& forall|j: int| 1 <= j <= 5 && j != 3 ==> c.table_spec(j) == corpus.table_spec(j)
                &&& !(old_bg@[0] == new_bg@[0] && old_bg@[1] == new_bg@[1])
                &&& c.table_spec(3).len() == corpus.table_spec(3).len()
                // Locality at order three.
                &&& forall|j: int|
                    0 <= j < corpus.table_spec(3).len() && !involved(
                        dec(j, 3, corpus.sz()),
                        Rule {
                            old0: corpus.char_idx_spec(old_bg@[0]),
                            old1: corpus.char_idx_spec(old_bg@[1]),
                            new0: corpus.char_idx_spec(new_bg@[0]),
                            new1: corpus.char_idx_spec(new_bg@[1]),
                        },
                    ) ==> c.table_spec(3)[j] == corpus.table_spec(3)[j]
                // Conservation of the trigram total.
                &&& (old_bg@[0] != old_bg@[1] && sum_u32(corpus.table_spec(3)) <= u32::MAX as int
                    ==> sum_u32(c.table_spec(3)) == sum_u32(corpus.table_spec(3)))
                // Preservation of the skip-bigram projection.
                &&& (old_bg@[0] != old_bg@[1] && sum_u32(corpus.table_spec(3)) <= u32::MAX as int
                    && sum_u32(corpus.skipgrams@) <= u32::MAX as int && projection_holds(
                    corpus.table_spec(3),
                    corpus.skipgrams@,
                    corpus.sz(),
                ) ==> projection_holds(c.table_spec(3), c.skipgrams@, corpus.sz()) && sum_u32(
                    c.skipgrams@,
                ) == sum_u32(corpus.skipgrams@))
                // Movement: the trigram table is exactly the interior fold
                // followed by the boundary fold, and the skip-bigram table
                // its mirrored composite.
                &&& forall|j: int|
                    0 <= j < corpus.table_spec(3).len() ==> #[trigger] c.table_spec(3)[j] as int
                        == order_result(
                        &corpus,
                        3,
                        Rule {
                            old0: corpus.char_idx_spec(old_bg@[0]),
                            old1: corpus.char_idx_spec(old_bg@[1]),
                            new0: corpus.char_idx_spec(new_bg@[0]),
                            new1: corpus.char_idx_spec(new_bg@[1]),
                        },
                    )[j]
                &&& forall|p: int|
                    0 <= p < corpus.skipgrams@.len() ==> #[trigger] c.skipgrams@[p] as int
                        == order_skip_result(
                        &corpus,
                        Rule {
                            old0: corpus.char_idx_spec(old_bg@[0]),
                            old1: corpus.char_idx_spec(old_bg@[1]),
                            new0: corpus.char_idx_spec(new_bg@[0]),
                            new1: corpus.char_idx_spec(new_bg@[1]),
                        },
                    )[p]
            },
            Err(e) => e == AdaptError::Inconsistent || e == AdaptError::Unencodable || e
                == AdaptError::Overflow,
        },
        (old_bg@[0] == new_bg@[0] && old_bg@[1] == new_bg@[1]) <==> res == Err::<
            Corpus,
            AdaptError,
        >(AdaptError::Inconsistent),
{
    if old_bg[0] == new_bg[0] && old_bg[1] == new_bg[1] {
        return Err(AdaptError::Inconsistent);
    }
    let mut c = corpus;
    let r = match c.rule_from_chars(old_bg, new_bg) {
        Ok(r) => r,
        Err(e) => {
            return Err(e);
        },
    };
    let _n = c.char_list.len();
    proof {
        lemma_char_idx_unique(&corpus, old_bg@[0], r.old0 as int);
        lemma_char_idx_unique(&corpus, old_bg@[1], r.old1 as int);
        lemma_char_idx_unique(&corpus, new_bg@[0], r.new0 as int);
        lemma_char_idx_unique(&corpus, new_bg@[1], r.new1 as int);
        if old_bg@[0] != old_bg@[1] {
            assert(r.old0 != r.old1);
        }
    }
    match c.adapt_ngrams(3, r) {
        Ok(u) => (),
        Err(e) => {
            return Err(e);
        },
    }
    Ok(c)
}

} // verus!
