//! The corpus aggregate: an alphabet and one dense frequency table per
//! n-gram order, plus the skip-bigram table.

use vstd::prelude::*;
use crate::AdaptError;
use crate::Rule;
use crate::nums::{npow, sum_u32, lemma_npow_pos, lemma_npow_mono};
use crate::encoding::{enc, win_valid, encode_window, pow_checked, lemma_enc_bounds};

verus! {

/// How a context one or two characters longer than the longest tracked
/// order (pentagram) is priced.  `Zero` assumes such a context never
/// occurs; the other two modes approximate its frequency from the two
/// pentagram sub-windows that bound it.  Both non-zero modes trade
/// exactness for coverage and are explicitly approximations.
#[derive(Clone, Copy, PartialEq, Eq, Structural, Debug)]
pub enum Estimator {
    Zero,
    MinBound,
    AvgBound,
}

/// Frequency tables of orders one through five, the skip-bigram table and
/// the alphabet they are indexed by.  Each table of order `k` is a dense
/// vector of `npow(alphabet, k)` counters; the cell of a window is its
/// base-`alphabet` encoding (see [`crate::encoding`]).
pub struct Corpus {
    pub char_list: Vec<char>,
    pub chars: Vec<u32>,
    pub bigrams: Vec<u32>,
    pub skipgrams: Vec<u32>,
    pub trigrams: Vec<u32>,
    pub quadgrams: Vec<u32>,
    pub pentagrams: Vec<u32>,
    pub estimator: Estimator,
}

impl Corpus {
    /// Alphabet size.
    pub open spec fn sz(&self) -> usize {
        self.char_list@.len() as usize
    }

    /// The table of order `k`.
    pub open spec fn table_spec(&self, k: int) -> Seq<u32> {
        if k == 1 {
            self.chars@
        } else if k == 2 {
            self.bigrams@
        } else if k == 3 {
            self.trigrams@
        } else if k == 4 {
            self.quadgrams@
        } else {
            self.pentagrams@
        }
    }

    /// Every table has the dense size of its order and the alphabet has no
    /// repeated character.
    pub open spec fn wf(&self) -> bool {
        &&& self.chars@.len() as int == npow(self.sz() as int, 1)
        &&& self.bigrams@.len() as int == npow(self.sz() as int, 2)
        &&& self.skipgrams@.len() as int == npow(self.sz() as int, 2)
        &&& self.trigrams@.len() as int == npow(self.sz() as int, 3)
        &&& self.quadgrams@.len() as int == npow(self.sz() as int, 4)
        &&& self.pentagrams@.len() as int == npow(self.sz() as int, 5)
        &&& forall|i: int, j: int|
            0 <= i < j < self.char_list@.len() ==> self.char_list@[i] != self.char_list@[j]
    }

    /// A fresh corpus over the given alphabet with every counter zero.
    /// Fails when a dense pentagram table would not fit in memory range.
    pub fn new(char_list: Vec<char>) -> (r: Result<Corpus, AdaptError>)
        ensures
            match r {
                Ok(c) => {
                    &&& c.wf()
                    &&& c.char_list@ == char_list@
                    &&& c.estimator == Estimator::Zero
                    &&& forall|k: int, i: int|
                        1 <= k <= 5 && 0 <= i < c.table_spec(k).len() ==> c.table_spec(k)[i] == 0u32
                    &&& forall|i: int| 0 <= i < c.skipgrams@.len() ==> c.skipgrams@[i] == 0u32
                },
                Err(e) => e == AdaptError::Overflow || e == AdaptError::Inconsistent,
            },
    {
        let n = char_list.len();
        // A repeated character would make two windows share a table cell.
        let mut i: usize = 0;
        while i < n
            invariant
                i <= n,
                n == char_list@.len(),
                forall|p: int, q: int| 0 <= p < i && p < q < n ==> char_list@[p] != char_list@[q],
            decreases n - i,
        {
            let mut j: usize = i + 1;
            while j < n
                invariant
                    i < j || i + 1 == j,
                    i < n,
                    j <= n,
                    n == char_list@.len(),
                    forall|q: int| i < q < j ==> char_list@[i as int] != char_list@[q],
                decreases n - j,
            {
                if char_list[i] == char_list[j] {
                    return Err(AdaptError::Inconsistent);
                }
                j = j + 1;
            }
            i = i + 1;
        }
        let n5 = match pow_checked(n, 5) {
            Some(v) => v,
            None => {
                return Err(AdaptError::Overflow);
            },
        };
        proof {
            if n >= 1 {
                lemma_npow_pos(n as int, 1);
                lemma_npow_mono(n as int, 1, 5);
                lemma_npow_mono(n as int, 2, 5);
                lemma_npow_mono(n as int, 3, 5);
                lemma_npow_mono(n as int, 4, 5);
            }
        }
        let n2 = match pow_checked(n, 2) {
            Some(v) => v,
            None => {
                return Err(AdaptError::Overflow);
            },
        };
        let n3 = match pow_checked(n, 3) {
            Some(v) => v,
            None => {
                return Err(AdaptError::Overflow);
            },
        };
        let n4 = match pow_checked(n, 4) {
            Some(v) => v,
            None => {
                return Err(AdaptError::Overflow);
            },
        };
        let c = Corpus {
            char_list,
            chars: zero_table(n),
            bigrams: zero_table(n2),
            skipgrams: zero_table(n2),
            trigrams: zero_table(n3),
            quadgrams: zero_table(n4),
            pentagrams: zero_table(n5),
            estimator: Estimator::Zero,
        };
        proof {
            assert(npow(c.sz() as int, 0) == 1);
            assert(npow(c.sz() as int, 1) == (c.sz() as int) * 1);
        }
        Ok(c)
    }

    /// Switch the higher-order context estimator.
    pub fn set_estimator(&mut self, estimator: Estimator)
        ensures
            *final(self) == (Corpus { estimator, ..*old(self) }),
    {
        self.estimator = estimator;
    }

    /// Number of cells of the table of order `k`.
    pub fn table_len(&self, k: usize) -> (r: usize)
        requires
            1 <= k <= 5,
        ensures
            r == self.table_spec(k as int).len(),
    {
        match k {
            1 => self.chars.len(),
            2 => self.bigrams.len(),
            3 => self.trigrams.len(),
            4 => self.quadgrams.len(),
            _ => self.pentagrams.len(),
        }
    }

    /// Read one cell of the table of order `k`.
    pub fn table_get(&self, k: usize, i: usize) -> (r: u32)
        requires
            1 <= k <= 5,
            i < self.table_spec(k as int).len(),
        ensures
            r == self.table_spec(k as int)[i as int],
    {
        match k {
            1 => self.chars[i],
            2 => self.bigrams[i],
            3 => self.trigrams[i],
            4 => self.quadgrams[i],
            _ => self.pentagrams[i],
        }
    }

    /// Overwrite one cell of the table of order `k`; nothing else changes.
    pub fn table_set(&mut self, k: usize, i: usize, v: u32)
        requires
            1 <= k <= 5,
            i < old(self).table_spec(k as int).len(),
        ensures
            final(self).table_spec(k as int) == old(self).table_spec(k as int).update(i as int, v),
            forall|j: int| 1 <= j <= 5 && j != k ==> final(self).table_spec(j) == old(self).table_spec(j),
            final(self).skipgrams@ == old(self).skipgrams@,
            final(self).char_list@ == old(self).char_list@,
            final(self).estimator == old(self).estimator,
            old(self).wf() ==> final(self).wf(),
    {
        match k {
            1 => self.chars.set(i, v),
            2 => self.bigrams.set(i, v),
            3 => self.trigrams.set(i, v),
            4 => self.quadgrams.set(i, v),
            _ => self.pentagrams.set(i, v),
        }
    }

    /// Read one cell of the skip-bigram table.
    pub fn skip_get(&self, i: usize) -> (r: u32)
        requires
            i < self.skipgrams@.len(),
        ensures
            r == self.skipgrams@[i as int],
    {
        self.skipgrams[i]
    }

    /// Overwrite one cell of the skip-bigram table; nothing else changes.
    pub fn skip_set(&mut self, i: usize, v: u32)
        requires
            i < old(self).skipgrams@.len(),
        ensures
            final(self).skipgrams@ == old(self).skipgrams@.update(i as int, v),
            forall|j: int| 1 <= j <= 5 ==> final(self).table_spec(j) == old(self).table_spec(j),
            final(self).char_list@ == old(self).char_list@,
            final(self).estimator == old(self).estimator,
            old(self).wf() ==> final(self).wf(),
    {
        self.skipgrams.set(i, v);
    }

    /// Approximate frequency of a context longer than the longest tracked
    /// order, per the configured [`Estimator`].
    pub open spec fn spec_estimate(&self, w: Seq<usize>) -> u32 {
        match self.estimator {
            Estimator::Zero => 0u32,
            Estimator::MinBound => {
                let p = self.pentagrams@[enc(w.take(5), self.sz())];
                let s = self.pentagrams@[enc(w.skip(w.len() - 5), self.sz())];
                if p <= s {
                    p
                } else {
                    s
                }
            },
            Estimator::AvgBound => {
                let p = self.pentagrams@[enc(w.take(5), self.sz())];
                let s = self.pentagrams@[enc(w.skip(w.len() - 5), self.sz())];
                (((p + s) / 2) as u32)
            },
        }
    }

    /// Frequency of a window: the table cell for orders one through five,
    /// the configured estimate beyond that.
    pub open spec fn spec_lookup(&self, w: Seq<usize>) -> u32 {
        if w.len() <= 5 {
            self.table_spec(w.len() as int)[enc(w, self.sz())]
        } else {
            self.spec_estimate(w)
        }
    }

    /// Read the frequency of a window of one through seven characters.
    pub fn lookup_window(&self, w: &Vec<usize>) -> (r: u32)
        requires
            self.wf(),
            win_valid(w@, self.sz()),
            1 <= w@.len() <= 7,
        ensures
            r == self.spec_lookup(w@),
    {
        let n = self.char_list.len();
        proof {
            assert(w@[0] < n);
        }
        if w.len() <= 5 {
            let _tl = self.table_len(w.len());
            proof {
                lemma_enc_bounds(w@, n);
            }
            let i = encode_window(w, n);
            self.table_get(w.len(), i)
        } else {
            let off = w.len() - 5;
            let mut prefix: Vec<usize> = Vec::new();
            let mut suffix: Vec<usize> = Vec::new();
            let mut j: usize = 0;
            while j < 5
                invariant
                    j <= 5,
                    w@.len() == off + 5,
                    5 <= w@.len() <= 7,
                    win_valid(w@, n),
                    n == self.sz(),
                    prefix@ =~= w@.take(j as int),
                    suffix@ =~= w@.subrange(off as int, off + j),
                decreases 5 - j,
            {
                prefix.push(w[j]);
                suffix.push(w[off + j]);
                j = j + 1;
            }
            let _pl = self.pentagrams.len();
            proof {
                assert(prefix@ =~= w@.take(5));
                assert(suffix@ =~= w@.skip(w@.len() - 5));
                lemma_enc_bounds(prefix@, n);
                lemma_enc_bounds(suffix@, n);
            }
            match self.estimator {
                Estimator::Zero => 0u32,
                Estimator::MinBound => {
                    let p = self.pentagrams[encode_window(&prefix, n)];
                    let s = self.pentagrams[encode_window(&suffix, n)];
                    if p <= s {
                        p
                    } else {
                        s
                    }
                },
                Estimator::AvgBound => {
                    let p = self.pentagrams[encode_window(&prefix, n)];
                    let s = self.pentagrams[encode_window(&suffix, n)];
                    ((p as u64 + s as u64) / 2) as u32
                },
            }
        }
    }

    /// Alphabet slot of a character, if it has one.
    pub fn char_index(&self, c: char) -> (r: Option<usize>)
        ensures
            match r {
                Some(i) => i < self.char_list@.len() && self.char_list@[i as int] == c,
                None => forall|j: int| 0 <= j < self.char_list@.len() ==> self.char_list@[j] != c,
            },
    {
        let n = self.char_list.len();
        let mut j: usize = 0;
        while j < n
            invariant
                j <= n,
                n == self.char_list@.len(),
                forall|p: int| 0 <= p < j ==> self.char_list@[p] != c,
            decreases n - j,
        {
            if self.char_list[j] == c {
                return Some(j);
            }
            j = j + 1;
        }
        None
    }

    /// Resolve a rule's four characters to alphabet indices.  Fails, before
    /// anything is touched, when a character has no slot.
    pub fn rule_from_chars(&self, old_bg: [char; 2], new_bg: [char; 2]) -> (r: Result<
        Rule,
        AdaptError,
    >)
        ensures
            match r {
                Ok(rule) => {
                    &&& rule.valid(self.sz())
                    &&& self.char_list@[rule.old0 as int] == old_bg[0]
                    &&& self.char_list@[rule.old1 as int] == old_bg[1]
                    &&& self.char_list@[rule.new0 as int] == new_bg[0]
                    &&& self.char_list@[rule.new1 as int] == new_bg[1]
                },
                Err(e) => e == AdaptError::Unencodable,
            },
            r is Ok <==> (has_char(self.char_list@, old_bg[0]) && has_char(self.char_list@, old_bg[1])
                && has_char(self.char_list@, new_bg[0]) && has_char(self.char_list@, new_bg[1])),
    {
        let _n = self.char_list.len();
        let old0 = self.char_index(old_bg[0]);
        let old1 = self.char_index(old_bg[1]);
        let new0 = self.char_index(new_bg[0]);
        let new1 = self.char_index(new_bg[1]);
        match (old0, old1, new0, new1) {
            (Some(o0), Some(o1), Some(n0), Some(n1)) => Ok(
                Rule { old0: o0, old1: o1, new0: n0, new1: n1 },
            ),
            _ => Err(AdaptError::Unencodable),
        }
    }

    /// Total of all counters of the table of order `k`.
    pub fn table_total(&self, k: usize) -> (r: u128)
        requires
            1 <= k <= 5,
        ensures
            r as int == sum_u32(self.table_spec(k as int)),
    {
        let len = self.table_len(k);
        let mut acc: u128 = 0;
        let mut i: usize = 0;
        while i < len
            invariant
                i <= len,
                1 <= k <= 5,
                len == self.table_spec(k as int).len(),
                acc as int == sum_u32(self.table_spec(k as int).take(i as int)),
                acc as int <= (i as int) * 0xffff_ffff,
            decreases len - i,
        {
            let v = self.table_get(k, i);
            proof {
                let t = self.table_spec(k as int).take(i + 1);
                assert(t.drop_last() =~= self.table_spec(k as int).take(i as int));
            }
            acc = acc + v as u128;
            i = i + 1;
        }
        proof {
            assert(self.table_spec(k as int).take(len as int) =~= self.table_spec(k as int));
        }
        acc
    }

    /// Total of all counters of the skip-bigram table.
    pub fn skipgram_total(&self) -> (r: u128)
        ensures
            r as int == sum_u32(self.skipgrams@),
    {
        let len = self.skipgrams.len();
        let mut acc: u128 = 0;
        let mut i: usize = 0;
        while i < len
            invariant
                i <= len,
                len == self.skipgrams@.len(),
                acc as int == sum_u32(self.skipgrams@.take(i as int)),
                acc as int <= (i as int) * 0xffff_ffff,
            decreases len - i,
        {
            let v = self.skipgrams[i];
            proof {
                let t = self.skipgrams@.take(i + 1);
                assert(t.drop_last() =~= self.skipgrams@.take(i as int));
            }
            acc = acc + v as u128;
            i = i + 1;
        }
        proof {
            assert(self.skipgrams@.take(len as int) =~= self.skipgrams@);
        }
        acc
    }
}

impl Corpus {
    /// The alphabet slot of `c`, as a spec value (meaningful only when the
    /// alphabet holds `c`).
    pub open spec fn char_idx_spec(&self, c: char) -> usize {
        (choose|j: int| 0 <= j < self.char_list@.len() && self.char_list@[j] == c) as usize
    }

    /// The window of alphabet slots spelled by a character sequence.
    pub open spec fn chars_to_idx(&self, s: Seq<char>) -> Seq<usize> {
        Seq::new(s.len(), |j: int| self.char_idx_spec(s[j]))
    }

    /// Resolve a whole character window to alphabet slots.
    fn window_from_chars(&self, ng: &Vec<char>) -> (r: Result<Vec<usize>, AdaptError>)
        requires
            self.wf(),
        ensures
            match r {
                Ok(w) => {
                    &&& w@ == self.chars_to_idx(ng@)
                    &&& w@.len() == ng@.len()
                    &&& win_valid(w@, self.sz())
                    &&& forall|j: int| 0 <= j < ng@.len() ==> has_char(self.char_list@, ng@[j])
                },
                Err(e) => e == AdaptError::Unencodable && exists|j: int|
                    0 <= j < ng@.len() && !has_char(self.char_list@, ng@[j]),
            },
    {
        let nn = self.char_list.len();
        let mut w: Vec<usize> = Vec::new();
        let mut j: usize = 0;
        while j < ng.len()
            invariant
                j <= ng@.len(),
                self.wf(),
                nn == self.char_list@.len(),
                w@.len() == j,
                forall|p: int| 0 <= p < j ==> has_char(self.char_list@, ng@[p]),
                forall|p: int| 0 <= p < j ==> w@[p] == self.char_idx_spec(ng@[p]),
                forall|p: int| 0 <= p < j ==> w@[p] < self.sz(),
            decreases ng@.len() - j,
        {
            match self.char_index(ng[j]) {
                Some(i) => {
                    proof {
                        assert(has_char(self.char_list@, ng@[j as int]));
                        let cj = choose|q: int|
                            0 <= q < self.char_list@.len() && self.char_list@[q] == ng@[j as int];
                        assert(self.char_list@[cj] == ng@[j as int]);
                        assert(cj == i as int);
                    }
                    w.push(i);
                },
                None => {
                    return Err(AdaptError::Unencodable);
                },
            }
            j = j + 1;
        }
        proof {
            assert(w@ =~= self.chars_to_idx(ng@));
        }
        Ok(w)
    }

    /// Read the counter of a one-to-five character window.
    pub fn count_ngram(&self, ng: &Vec<char>) -> (r: Result<u32, AdaptError>)
        requires
            self.wf(),
            1 <= ng@.len() <= 5,
        ensures
            match r {
                Ok(v) => v == self.table_spec(ng@.len() as int)[enc(
                    self.chars_to_idx(ng@),
                    self.sz(),
                )],
                Err(e) => e == AdaptError::Unencodable,
            },
            r is Ok <==> forall|j: int| 0 <= j < ng@.len() ==> has_char(self.char_list@, #[trigger] ng@[j]),
    {
        let w = match self.window_from_chars(ng) {
            Ok(w) => w,
            Err(e) => {
                return Err(e);
            },
        };
        let _tl = self.table_len(ng.len());
        proof {
            assert(w@[0] < self.sz());
            lemma_enc_bounds(w@, self.sz());
        }
        let i = encode_window(&w, self.char_list.len());
        Ok(self.table_get(ng.len(), i))
    }

    /// Overwrite the counter of a one-to-five character window; every other
    /// counter stays as it was.
    pub fn set_ngram_count(&mut self, ng: &Vec<char>, v: u32) -> (r: Result<(), AdaptError>)
        requires
            old(self).wf(),
            1 <= ng@.len() <= 5,
        ensures
            final(self).wf(),
            final(self).char_list@ == old(self).char_list@,
            final(self).estimator == old(self).estimator,
            match r {
                Ok(u) => {
                    &&& final(self).table_spec(ng@.len() as int) == old(self).table_spec(
                        ng@.len() as int,
                    ).update(enc(old(self).chars_to_idx(ng@), old(self).sz()), v)
                    &&& forall|j: int|
                        1 <= j <= 5 && j != ng@.len() ==> final(self).table_spec(j) == old(
                            self,
                        ).table_spec(j)
                    &&& final(self).skipgrams@ == old(self).skipgrams@
                },
                Err(e) => e == AdaptError::Unencodable && tables_unchanged(final(self), old(self)),
            },
            r is Ok <==> forall|j: int| 0 <= j < ng@.len() ==> has_char(old(self).char_list@, #[trigger] ng@[j]),
    {
        let w = match self.window_from_chars(ng) {
            Ok(w) => w,
            Err(e) => {
                return Err(e);
            },
        };
        let _tl = self.table_len(ng.len());
        proof {
            assert(w@[0] < self.sz());
            lemma_enc_bounds(w@, self.sz());
        }
        let i = encode_window(&w, self.char_list.len());
        self.table_set(ng.len(), i, v);
        Ok(())
    }

    /// Read the skip-bigram counter of a character pair.
    pub fn count_skipgram(&self, sg: [char; 2]) -> (r: Result<u32, AdaptError>)
        requires
            self.wf(),
        ensures
            match r {
                Ok(v) => v == self.skipgrams@[enc(self.chars_to_idx(sg@), self.sz())],
                Err(e) => e == AdaptError::Unencodable,
            },
            r is Ok <==> (has_char(self.char_list@, sg@[0]) && has_char(self.char_list@, sg@[1])),
    {
        let mut ng: Vec<char> = Vec::new();
        ng.push(sg[0]);
        ng.push(sg[1]);
        proof {
            assert(ng@ =~= sg@);
        }
        let w = match self.window_from_chars(&ng) {
            Ok(w) => w,
            Err(e) => {
                return Err(e);
            },
        };
        let _sl = self.skipgrams.len();
        proof {
            assert(w@[0] < self.sz());
            lemma_enc_bounds(w@, self.sz());
        }
        let i = encode_window(&w, self.char_list.len());
        Ok(self.skip_get(i))
    }

    /// Overwrite the skip-bigram counter of a character pair; every other
    /// counter stays as it was.
    pub fn set_skipgram_count(&mut self, sg: [char; 2], v: u32) -> (r: Result<(), AdaptError>)
        requires
            old(self).wf(),
        ensures
            final(self).wf(),
            final(self).char_list@ == old(self).char_list@,
            final(self).estimator == old(self).estimator,
            match r {
                Ok(u) => {
                    &&& final(self).skipgrams@ == old(self).skipgrams@.update(
                        enc(old(self).chars_to_idx(sg@), old(self).sz()),
                        v,
                    )
                    &&& forall|j: int|
                        1 <= j <= 5 ==> final(self).table_spec(j) == old(self).table_spec(j)
                },
                Err(e) => e == AdaptError::Unencodable && tables_unchanged(final(self), old(self)),
            },
            r is Ok <==> (has_char(old(self).char_list@, sg@[0]) && has_char(
                old(self).char_list@,
                sg@[1],
            )),
    {
        let mut ng: Vec<char> = Vec::new();
        ng.push(sg[0]);
        ng.push(sg[1]);
        proof {
            assert(ng@ =~= sg@);
        }
        let w = match self.window_from_chars(&ng) {
            Ok(w) => w,
            Err(e) => {
                return Err(e);
            },
        };
        let _sl = self.skipgrams.len();
        proof {
            assert(w@[0] < self.sz());
            lemma_enc_bounds(w@, self.sz());
        }
        let i = encode_window(&w, self.char_list.len());
        self.skip_set(i, v);
        Ok(())
    }

    /// Read one character's counter.
    pub fn count_char(&self, c: char) -> (r: Result<u32, AdaptError>)
        requires
            self.wf(),
        ensures
            match r {
                Ok(v) => v == self.chars@[self.char_idx_spec(c) as int],
                Err(e) => e == AdaptError::Unencodable,
            },
            r is Ok <==> has_char(self.char_list@, c),
    {
        let mut ng: Vec<char> = Vec::new();
        ng.push(c);
        let r = self.count_ngram(&ng);
        proof {
            if has_char(self.char_list@, c) {
                assert(self.chars_to_idx(ng@) =~= seq![self.char_idx_spec(c)]);
                let i = self.char_idx_spec(c);
                assert(seq![i].drop_last() =~= Seq::<usize>::empty());
                assert(enc(Seq::<usize>::empty(), self.sz()) == 0);
                assert(enc(seq![i], self.sz()) == i as int);
            }
            assert forall|j: int| 0 <= j < ng@.len() implies #[trigger] ng@[j] == c by {}
        }
        r
    }

    /// Read one bigram's counter.
    pub fn count_bigram(&self, bg: [char; 2]) -> (r: Result<u32, AdaptError>)
        requires
            self.wf(),
        ensures
            match r {
                Ok(v) => v == self.bigrams@[enc(self.chars_to_idx(bg@), self.sz())],
                Err(e) => e == AdaptError::Unencodable,
            },
            r is Ok <==> (has_char(self.char_list@, bg@[0]) && has_char(self.char_list@, bg@[1])),
    {
        let mut ng: Vec<char> = Vec::new();
        ng.push(bg[0]);
        ng.push(bg[1]);
        proof {
            assert(ng@ =~= bg@);
        }
        self.count_ngram(&ng)
    }

    /// Read one trigram's counter.
    pub fn count_trigram(&self, tg: [char; 3]) -> (r: Result<u32, AdaptError>)
        requires
            self.wf(),
        ensures
            match r {
                Ok(v) => v == self.trigrams@[enc(self.chars_to_idx(tg@), self.sz())],
                Err(e) => e == AdaptError::Unencodable,
            },
            r is Ok <==> (has_char(self.char_list@, tg@[0]) && has_char(self.char_list@, tg@[1])
                && has_char(self.char_list@, tg@[2])),
    {
        let mut ng: Vec<char> = Vec::new();
        ng.push(tg[0]);
        ng.push(tg[1]);
        ng.push(tg[2]);
        proof {
            assert(ng@ =~= tg@);
        }
        self.count_ngram(&ng)
    }
}

/// In a duplicate-free alphabet, any slot holding a character is that
/// character's unique slot.
pub proof fn lemma_char_idx_unique(c: &Corpus, ch: char, i: int)
    requires
        c.wf(),
        0 <= i < c.char_list@.len(),
        c.char_list@[i] == ch,
        c.char_list@.len() <= usize::MAX,
    ensures
        c.char_idx_spec(ch) as int == i,
{
    assert(exists|q: int| 0 <= q < c.char_list@.len() && c.char_list@[q] == ch) by {
        assert(c.char_list@[i] == ch);
    }
    let j = choose|q: int| 0 <= q < c.char_list@.len() && c.char_list@[q] == ch;
    if j < i {
        assert(c.char_list@[j] != c.char_list@[i]);
    } else if i < j {
        assert(c.char_list@[i] != c.char_list@[j]);
    }
}

/// Both corpora hold exactly the same counters everywhere.
pub open spec fn tables_unchanged(a: &Corpus, b: &Corpus) -> bool {
    &&& a.chars@ == b.chars@
    &&& a.bigrams@ == b.bigrams@
    &&& a.skipgrams@ == b.skipgrams@
    &&& a.trigrams@ == b.trigrams@
    &&& a.quadgrams@ == b.quadgrams@
    &&& a.pentagrams@ == b.pentagrams@
}

/// Some slot of the alphabet holds `c`.
pub open spec fn has_char(cs: Seq<char>, c: char) -> bool {
    exists|j: int| 0 <= j < cs.len() && cs[j] == c
}

/// A zeroed table of `len` cells.
fn zero_table(len: usize) -> (r: Vec<u32>)
    ensures
        r@.len() == len,
        forall|i: int| 0 <= i < len ==> r@[i] == 0u32,
{
    let mut v: Vec<u32> = Vec::new();
    let mut i: usize = 0;
    while i < len
        invariant
            i <= len,
            v@.len() == i,
            forall|j: int| 0 <= j < i ==> v@[j] == 0u32,
        decreases len - i,
    {
        v.push(0);
        i = i + 1;
    }
    v
}

} // verus!
