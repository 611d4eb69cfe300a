//! The bijection between an ordered window of alphabet indices and its
//! position in the dense frequency table of that order.
//!
//! A window of length `k` over an alphabet of size `n` is read as a base-`n`
//! numeral, most significant character first.

use vstd::prelude::*;
use vstd::arithmetic::div_mod::lemma_fundamental_div_mod_converse;
use crate::nums::{npow, lemma_npow_pos, lemma_npow_mono};

verus! {

/// Every character of the window names a slot of an alphabet of size `n`.
pub open spec fn win_valid(w: Seq<usize>, n: usize) -> bool {
    forall|j: int| 0 <= j < w.len() ==> w[j] < n
}

/// Table position of window `w`: its value as a base-`n` numeral.
pub open spec fn enc(w: Seq<usize>, n: usize) -> int
    decreases w.len(),
{
    if w.len() == 0 {
        0
    } else {
        enc(w.drop_last(), n) * n + w.last()
    }
}

/// The `k` base-`n` digits of table position `i`, most significant first.
pub open spec fn dec(i: int, k: nat, n: usize) -> Seq<usize>
    decreases k,
{
    if k == 0 {
        Seq::empty()
    } else {
        dec(i / (n as int), (k - 1) as nat, n).push((i % (n as int)) as usize)
    }
}

pub proof fn lemma_enc_bounds(w: Seq<usize>, n: usize)
    requires
        n >= 1,
        win_valid(w, n),
    ensures
        0 <= enc(w, n) < npow(n as int, w.len()),
    decreases w.len(),
{
    if w.len() == 0 {
        assert(npow(n as int, 0) == 1);
    } else {
        let front = w.drop_last();
        assert(win_valid(front, n));
        lemma_enc_bounds(front, n);
        let p = npow(n as int, front.len());
        assert(npow(n as int, w.len()) == n * p);
        assert(0 <= enc(front, n) * n + w.last() < n * p) by (nonlinear_arith)
            requires
                0 <= enc(front, n) <= p - 1,
                0 <= w.last() < n,
                n >= 1,
        ;
    }
}

/// Decoding the position of a window recovers the window.
pub proof fn lemma_dec_enc(w: Seq<usize>, n: usize)
    requires
        n >= 1,
        win_valid(w, n),
    ensures
        dec(enc(w, n), w.len(), n) == w,
    decreases w.len(),
{
    if w.len() > 0 {
        let front = w.drop_last();
        assert(win_valid(front, n));
        lemma_dec_enc(front, n);
        lemma_enc_bounds(front, n);
        let e = enc(w, n);
        lemma_fundamental_div_mod_converse(e, n as int, enc(front, n), w.last() as int);
        assert(e / (n as int) == enc(front, n));
        assert(e % (n as int) == w.last() as int);
        assert(dec(e, w.len(), n) =~= w);
    }
}

/// Every table position decodes to a valid window that encodes back to it.
pub proof fn lemma_enc_dec(i: int, k: nat, n: usize)
    requires
        n >= 1,
        0 <= i < npow(n as int, k),
    ensures
        dec(i, k, n).len() == k,
        win_valid(dec(i, k, n), n),
        enc(dec(i, k, n), n) == i,
    decreases k,
{
    if k == 0 {
        assert(dec(i, 0, n) =~= Seq::<usize>::empty());
    } else {
        let p = npow(n as int, (k - 1) as nat);
        lemma_npow_pos(n as int, (k - 1) as nat);
        assert(0 <= i / (n as int) < p && 0 <= i % (n as int) < n) by (nonlinear_arith)
            requires
                0 <= i < n * p,
                n >= 1,
                p >= 1,
        ;
        lemma_enc_dec(i / (n as int), (k - 1) as nat, n);
        let w = dec(i, k, n);
        assert(w.drop_last() =~= dec(i / (n as int), (k - 1) as nat, n));
        vstd::arithmetic::div_mod::lemma_fundamental_div_mod(i, n as int);
        assert(enc(w, n) == (i / (n as int)) * (n as int) + i % (n as int));
        assert((i / (n as int)) * (n as int) == (n as int) * (i / (n as int))) by (nonlinear_arith);
    }
}

/// Distinct windows of one order occupy distinct table cells.
pub proof fn lemma_enc_injective(w1: Seq<usize>, w2: Seq<usize>, n: usize)
    requires
        n >= 1,
        win_valid(w1, n),
        win_valid(w2, n),
        w1.len() == w2.len(),
        enc(w1, n) == enc(w2, n),
    ensures
        w1 == w2,
{
    lemma_dec_enc(w1, n);
    lemma_dec_enc(w2, n);
}

/// `n` to the `k`-th power, or `None` when it exceeds the machine range.
pub fn pow_checked(n: usize, k: usize) -> (r: Option<usize>)
    ensures
        match r {
            Some(v) => v as int == npow(n as int, k as nat),
            None => npow(n as int, k as nat) > usize::MAX,
        },
{
    let mut acc: usize = 1;
    let mut j: usize = 0;
    while j < k
        invariant
            j <= k,
            acc as int == npow(n as int, j as nat),
        decreases k - j,
    {
        proof {
            assert(npow(n as int, (j + 1) as nat) == n * npow(n as int, j as nat));
        }
        acc = match acc.checked_mul(n) {
            Some(v) => v,
            None => {
                proof {
                    if n as int >= 1 {
                        lemma_npow_mono(n as int, (j + 1) as nat, k as nat);
                        assert(acc as int * n as int == n as int * acc as int) by (nonlinear_arith);
                    } else {
                        assert(acc as int * n as int <= usize::MAX) by (nonlinear_arith)
                            requires
                                n == 0,
                        ;
                    }
                }
                return None;
            },
        };
        j = j + 1;
        proof {
            assert(forall|a: int, b: int| #[trigger] (a * b) == b * a) by (nonlinear_arith);
        }
    }
    Some(acc)
}

/// Table position of a window of alphabet indices.
pub fn encode_window(w: &Vec<usize>, n: usize) -> (i: usize)
    requires
        n >= 1,
        win_valid(w@, n),
        npow(n as int, w@.len()) <= usize::MAX,
    ensures
        i as int == enc(w@, n),
        i < npow(n as int, w@.len()),
{
    proof {
        lemma_enc_bounds(w@, n);
    }
    let mut acc: usize = 0;
    let mut j: usize = 0;
    while j < w.len()
        invariant
            j <= w@.len(),
            n >= 1,
            win_valid(w@, n),
            npow(n as int, w@.len()) <= usize::MAX,
            acc as int == enc(w@.take(j as int), n),
        decreases w@.len() - j,
    {
        proof {
            let t = w@.take(j + 1);
            assert(t.drop_last() =~= w@.take(j as int));
            assert(t.last() == w@[j as int]);
            assert(win_valid(t, n)) by {
                assert(forall|p: int| 0 <= p < t.len() ==> t[p] == w@[p]);
            }
            lemma_enc_bounds(t, n);
            lemma_npow_mono(n as int, (j + 1) as nat, w@.len() as nat);
        }
        acc = acc * n + w[j];
        j = j + 1;
    }
    proof {
        assert(w@.take(w@.len() as int) =~= w@);
    }
    acc
}

/// The `k` characters of the window stored at table position `i`.
pub fn decode_window(i: usize, k: usize, n: usize) -> (w: Vec<usize>)
    requires
        n >= 1,
        (i as int) < npow(n as int, k as nat),
    ensures
        w@ == dec(i as int, k as nat, n),
        w@.len() == k,
        win_valid(w@, n),
        enc(w@, n) == i as int,
    decreases k,
{
    proof {
        lemma_enc_dec(i as int, k as nat, n);
    }
    if k == 0 {
        let w: Vec<usize> = Vec::new();
        proof {
            assert(w@ =~= dec(i as int, 0, n));
        }
        w
    } else {
        proof {
            let p = npow(n as int, (k - 1) as nat);
            lemma_npow_pos(n as int, (k - 1) as nat);
            assert(0 <= i as int / (n as int) < p) by (nonlinear_arith)
                requires
                    0 <= i as int,
                    (i as int) < (n as int) * p,
                    n as int >= 1,
                    p >= 1,
            ;
        }
        let mut w = decode_window(i / n, k - 1, n);
        w.push(i % n);
        w
    }
}

} // verus!
