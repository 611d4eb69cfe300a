//! Deriving, from one window and a rule, the in-window transform and the
//! boundary expansion candidates (Left, Right, Both).

use vstd::prelude::*;
use crate::Rule;
use crate::encoding::win_valid;

verus! {

/// The rule's pattern occurs inside `w` at offset `p`.
pub open spec fn matches_at(w: Seq<usize>, r: Rule, p: int) -> bool {
    w[p] == r.old0 && w[p + 1] == r.old1
}

/// `w` with the occurrence at offset `p` rewritten to the replacement.
pub open spec fn replace_at(w: Seq<usize>, r: Rule, p: int) -> Seq<usize> {
    w.update(p, r.new0).update(p + 1, r.new1)
}

/// Some offset of `w` holds the rule's pattern.
pub open spec fn has_interior_match(w: Seq<usize>, r: Rule) -> bool {
    exists|p: int| 0 <= p && p + 2 <= w.len() && matches_at(w, r, p)
}

/// The in-window transform: the window with its enumerated pattern
/// occurrences replaced.  Multiple occurrences are handled through a fixed
/// case list per order: the non-overlapping double occurrences of orders
/// four and five are rewritten together, otherwise the first (leftmost
/// enumerated) occurrence wins.  Orders one and two leave the window
/// unchanged here; an order-two window equal to the pattern is handled by
/// the interior pass, not by candidate construction.
pub open spec fn transform(w: Seq<usize>, r: Rule) -> Seq<usize> {
    let k = w.len();
    if k == 3 {
        if matches_at(w, r, 0) {
            replace_at(w, r, 0)
        } else if matches_at(w, r, 1) {
            replace_at(w, r, 1)
        } else {
            w
        }
    } else if k == 4 {
        if matches_at(w, r, 0) && matches_at(w, r, 2) {
            replace_at(replace_at(w, r, 0), r, 2)
        } else if matches_at(w, r, 0) {
            replace_at(w, r, 0)
        } else if matches_at(w, r, 1) {
            replace_at(w, r, 1)
        } else if matches_at(w, r, 2) {
            replace_at(w, r, 2)
        } else {
            w
        }
    } else if k == 5 {
        if matches_at(w, r, 0) && matches_at(w, r, 2) {
            replace_at(replace_at(w, r, 0), r, 2)
        } else if matches_at(w, r, 1) && matches_at(w, r, 3) {
            replace_at(replace_at(w, r, 1), r, 3)
        } else if matches_at(w, r, 0) && matches_at(w, r, 3) {
            replace_at(replace_at(w, r, 0), r, 3)
        } else if matches_at(w, r, 0) {
            replace_at(w, r, 0)
        } else if matches_at(w, r, 1) {
            replace_at(w, r, 1)
        } else if matches_at(w, r, 2) {
            replace_at(w, r, 2)
        } else if matches_at(w, r, 3) {
            replace_at(w, r, 3)
        } else {
            w
        }
    } else {
        w
    }
}

/// A Left candidate exists when the window could be the tail of an
/// occurrence that starts one character before it.
pub open spec fn left_exists(w: Seq<usize>, r: Rule) -> bool {
    w[0] == r.old1
}

/// A Right candidate exists when the window could be the head of an
/// occurrence that ends one character after it.
pub open spec fn right_exists(w: Seq<usize>, r: Rule) -> bool {
    w[w.len() - 1] == r.old0
}

/// Old-side context of the Left candidate: the pattern's first character
/// prepended to the window.
pub open spec fn left_old(w: Seq<usize>, r: Rule) -> Seq<usize> {
    seq![r.old0] + w
}

/// New-side pattern of the Left candidate: the replacement's second
/// character followed by the tail of the in-window transform.
pub open spec fn left_new(w: Seq<usize>, r: Rule) -> Seq<usize> {
    seq![r.new1] + transform(w, r).skip(1)
}

/// Old-side context of the Right candidate: the pattern's second character
/// appended to the window.
pub open spec fn right_old(w: Seq<usize>, r: Rule) -> Seq<usize> {
    w.push(r.old1)
}

/// New-side pattern of the Right candidate: the front of the in-window
/// transform followed by the replacement's first character.
pub open spec fn right_new(w: Seq<usize>, r: Rule) -> Seq<usize> {
    transform(w, r).take(w.len() - 1).push(r.new0)
}

/// Old-side context of the Both candidate: the window extended by one
/// pattern character on each side.
pub open spec fn both_old(w: Seq<usize>, r: Rule) -> Seq<usize> {
    seq![r.old0] + w + seq![r.old1]
}

/// New-side pattern of the Both candidate.
pub open spec fn both_new(w: Seq<usize>, r: Rule) -> Seq<usize> {
    if w.len() == 1 {
        seq![r.new0]
    } else {
        left_new(w, r).update(w.len() - 1, r.new0)
    }
}

/// One boundary expansion candidate: the hypothetical longer old-side
/// context, the in-window new-side pattern it rewrites to, and the
/// lazily resolved frequency of the context.
pub struct ExpansionStruct {
    pub old_ng: Vec<usize>,
    pub new_ng: Vec<usize>,
    pub count: Option<u32>,
}

impl ExpansionStruct {
    /// The resolved frequency, or zero if never resolved.
    pub open spec fn spec_read_count(&self) -> u32 {
        match self.count {
            Some(c) => c,
            None => 0u32,
        }
    }

    pub fn new(old_ng: Vec<usize>, new_ng: Vec<usize>) -> (r: ExpansionStruct)
        ensures
            r.old_ng@ == old_ng@,
            r.new_ng@ == new_ng@,
            r.count is None,
    {
        ExpansionStruct { old_ng, new_ng, count: None }
    }

    pub fn read_count(&self) -> (r: u32)
        ensures
            r == self.spec_read_count(),
    {
        match self.count {
            Some(c) => c,
            None => 0u32,
        }
    }

    pub fn set_count(&mut self, count: u32)
        ensures
            final(self).old_ng@ == old(self).old_ng@,
            final(self).new_ng@ == old(self).new_ng@,
            final(self).count == Some(count),
    {
        self.count = Some(count);
    }
}

/// Selector for [`Expansions::sum`].
#[derive(Clone, Copy, PartialEq, Eq, Structural, Debug)]
pub enum ExpansionKind {
    Left,
    Right,
    Both,
}

/// The up-to-three boundary candidates of one window.
pub struct Expansions {
    pub left: Option<ExpansionStruct>,
    pub right: Option<ExpansionStruct>,
    pub both: Option<ExpansionStruct>,
}

impl Expansions {
    /// Resolved frequency of one candidate slot, zero when absent.
    pub open spec fn spec_count_of(&self, kind: ExpansionKind) -> u32 {
        let slot = match kind {
            ExpansionKind::Left => self.left,
            ExpansionKind::Right => self.right,
            ExpansionKind::Both => self.both,
        };
        match slot {
            Some(e) => e.spec_read_count(),
            None => 0u32,
        }
    }

    /// Total resolved frequency of the selected candidate slots.
    pub open spec fn spec_sum(&self, kinds: Seq<ExpansionKind>) -> int
        decreases kinds.len(),
    {
        if kinds.len() == 0 {
            0
        } else {
            self.spec_sum(kinds.drop_last()) + self.spec_count_of(kinds.last())
        }
    }

    /// Sum the resolved counts of the selected candidates.
    pub fn sum(&self, kinds: &[ExpansionKind]) -> (r: u32)
        requires
            self.spec_sum(kinds@) <= u32::MAX,
        ensures
            r == self.spec_sum(kinds@),
    {
        let mut acc: u32 = 0;
        let mut i: usize = 0;
        proof {
            lemma_spec_sum_nonneg_prefix(self, kinds@);
        }
        while i < kinds.len()
            invariant
                i <= kinds@.len(),
                acc == self.spec_sum(kinds@.take(i as int)),
                self.spec_sum(kinds@) <= u32::MAX,
                forall|j: int| 0 <= j <= kinds@.len() ==> self.spec_sum(#[trigger] kinds@.take(j)) >= 0,
                forall|j: int|
                    0 <= j <= kinds@.len() ==> self.spec_sum(#[trigger] kinds@.take(j)) <= self.spec_sum(
                        kinds@,
                    ),
            decreases kinds@.len() - i,
        {
            let c = match &kinds[i] {
                ExpansionKind::Left => {
                    match &self.left {
                        Some(e) => e.read_count(),
                        None => 0u32,
                    }
                },
                ExpansionKind::Right => {
                    match &self.right {
                        Some(e) => e.read_count(),
                        None => 0u32,
                    }
                },
                ExpansionKind::Both => {
                    match &self.both {
                        Some(e) => e.read_count(),
                        None => 0u32,
                    }
                },
            };
            proof {
                let t = kinds@.take(i + 1);
                assert(t.drop_last() =~= kinds@.take(i as int));
                assert(t.last() == kinds@[i as int]);
            }
            acc = acc + c;
            i = i + 1;
        }
        proof {
            assert(kinds@.take(kinds@.len() as int) =~= kinds@);
        }
        acc
    }
}

proof fn lemma_spec_sum_nonneg_prefix(e: &Expansions, kinds: Seq<ExpansionKind>)
    ensures
        forall|j: int| 0 <= j <= kinds.len() ==> e.spec_sum(#[trigger] kinds.take(j)) >= 0,
        forall|j: int|
            0 <= j <= kinds.len() ==> e.spec_sum(#[trigger] kinds.take(j)) <= e.spec_sum(kinds),
    decreases kinds.len(),
{
    assert forall|j: int| 0 <= j <= kinds.len() implies e.spec_sum(#[trigger] kinds.take(j)) >= 0 by {
        lemma_spec_sum_nonneg(e, kinds.take(j));
    }
    assert forall|j: int|
        0 <= j <= kinds.len() implies e.spec_sum(#[trigger] kinds.take(j)) <= e.spec_sum(kinds) by {
        lemma_spec_sum_prefix_le(e, kinds, j);
    }
}

proof fn lemma_spec_sum_nonneg(e: &Expansions, kinds: Seq<ExpansionKind>)
    ensures
        e.spec_sum(kinds) >= 0,
    decreases kinds.len(),
{
    if kinds.len() > 0 {
        lemma_spec_sum_nonneg(e, kinds.drop_last());
    }
}

proof fn lemma_spec_sum_prefix_le(e: &Expansions, kinds: Seq<ExpansionKind>, j: int)
    requires
        0 <= j <= kinds.len(),
    ensures
        e.spec_sum(kinds.take(j)) <= e.spec_sum(kinds),
    decreases kinds.len() - j,
{
    if j == kinds.len() {
        assert(kinds.take(j) =~= kinds);
    } else {
        lemma_spec_sum_prefix_le(e, kinds, j + 1);
        let t = kinds.take(j + 1);
        assert(t.drop_last() =~= kinds.take(j));
        assert(t.last() == kinds[j]);
    }
}

/// Rewrite the in-window occurrences of the pattern, per the fixed case
/// list of the window's order.
pub fn transform_exec(w: &Vec<usize>, r: &Rule) -> (t: Vec<usize>)
    requires
        1 <= w@.len() <= 5,
    ensures
        t@ == transform(w@, *r),
{
    let k = w.len();
    let mut t = w.clone();
    proof {
        assert(t@ =~= w@);
    }
    if k == 3 {
        if w[0] == r.old0 && w[1] == r.old1 {
            t.set(0, r.new0);
            t.set(1, r.new1);
        } else if w[1] == r.old0 && w[2] == r.old1 {
            t.set(1, r.new0);
            t.set(2, r.new1);
        }
        proof {
            assert(t@ =~= transform(w@, *r));
        }
    } else if k == 4 {
        if w[0] == r.old0 && w[1] == r.old1 && w[2] == r.old0 && w[3] == r.old1 {
            t.set(0, r.new0);
            t.set(1, r.new1);
            t.set(2, r.new0);
            t.set(3, r.new1);
        } else if w[0] == r.old0 && w[1] == r.old1 {
            t.set(0, r.new0);
            t.set(1, r.new1);
        } else if w[1] == r.old0 && w[2] == r.old1 {
            t.set(1, r.new0);
            t.set(2, r.new1);
        } else if w[2] == r.old0 && w[3] == r.old1 {
            t.set(2, r.new0);
            t.set(3, r.new1);
        }
        proof {
            assert(t@ =~= transform(w@, *r));
        }
    } else if k == 5 {
        if w[0] == r.old0 && w[1] == r.old1 && w[2] == r.old0 && w[3] == r.old1 {
            t.set(0, r.new0);
            t.set(1, r.new1);
            t.set(2, r.new0);
            t.set(3, r.new1);
        } else if w[1] == r.old0 && w[2] == r.old1 && w[3] == r.old0 && w[4] == r.old1 {
            t.set(1, r.new0);
            t.set(2, r.new1);
            t.set(3, r.new0);
            t.set(4, r.new1);
        } else if w[0] == r.old0 && w[1] == r.old1 && w[3] == r.old0 && w[4] == r.old1 {
            t.set(0, r.new0);
            t.set(1, r.new1);
            t.set(3, r.new0);
            t.set(4, r.new1);
        } else if w[0] == r.old0 && w[1] == r.old1 {
            t.set(0, r.new0);
            t.set(1, r.new1);
        } else if w[1] == r.old0 && w[2] == r.old1 {
            t.set(1, r.new0);
            t.set(2, r.new1);
        } else if w[2] == r.old0 && w[3] == r.old1 {
            t.set(2, r.new0);
            t.set(3, r.new1);
        } else if w[3] == r.old0 && w[4] == r.old1 {
            t.set(3, r.new0);
            t.set(4, r.new1);
        }
        proof {
            assert(t@ =~= transform(w@, *r));
        }
    } else {
        proof {
            assert(t@ =~= transform(w@, *r));
        }
    }
    t
}

/// Derive the up-to-three boundary candidates of one window, built from the
/// in-window transform, with their frequencies unresolved.
pub fn expand(w: &Vec<usize>, r: &Rule) -> (e: Expansions)
    requires
        1 <= w@.len() <= 5,
    ensures
        e.left is Some <==> left_exists(w@, *r),
        e.right is Some <==> right_exists(w@, *r),
        e.both is Some <==> left_exists(w@, *r) && right_exists(w@, *r),
        e.left is Some ==> {
            &&& e.left->0.old_ng@ == left_old(w@, *r)
            &&& e.left->0.new_ng@ == left_new(w@, *r)
            &&& e.left->0.count is None
        },
        e.right is Some ==> {
            &&& e.right->0.old_ng@ == right_old(w@, *r)
            &&& e.right->0.new_ng@ == right_new(w@, *r)
            &&& e.right->0.count is None
        },
        e.both is Some ==> {
            &&& e.both->0.old_ng@ == both_old(w@, *r)
            &&& e.both->0.new_ng@ == both_new(w@, *r)
            &&& e.both->0.count is None
        },
{
    let k = w.len();
    let t = transform_exec(w, r);
    let mut left: Option<ExpansionStruct> = None;
    let mut right: Option<ExpansionStruct> = None;
    let mut both: Option<ExpansionStruct> = None;

    if w[0] == r.old1 {
        let mut lo: Vec<usize> = Vec::new();
        lo.push(r.old0);
        let mut j: usize = 0;
        while j < k
            invariant
                j <= k,
                k == w@.len(),
                lo@ =~= seq![r.old0] + w@.take(j as int),
            decreases k - j,
        {
            lo.push(w[j]);
            j = j + 1;
        }
        let mut ln: Vec<usize> = Vec::new();
        ln.push(r.new1);
        let mut j2: usize = 1;
        while j2 < k
            invariant
                1 <= j2 <= k,
                k == t@.len(),
                ln@ =~= seq![r.new1] + t@.subrange(1, j2 as int),
            decreases k - j2,
        {
            ln.push(t[j2]);
            j2 = j2 + 1;
        }
        proof {
            assert(lo@ =~= left_old(w@, *r)) by {
                assert(w@.take(k as int) =~= w@);
            }
            assert(ln@ =~= left_new(w@, *r)) by {
                assert(t@.subrange(1, k as int) =~= t@.skip(1));
            }
        }
        left = Some(ExpansionStruct::new(lo, ln));
    }

    if w[k - 1] == r.old0 {
        let mut ro: Vec<usize> = Vec::new();
        let mut j: usize = 0;
        while j < k
            invariant
                j <= k,
                k == w@.len(),
                ro@ =~= w@.take(j as int),
            decreases k - j,
        {
            ro.push(w[j]);
            j = j + 1;
        }
        ro.push(r.old1);
        let mut rn: Vec<usize> = Vec::new();
        let mut j2: usize = 0;
        while j2 < k - 1
            invariant
                j2 <= k - 1,
                k == t@.len(),
                1 <= k,
                rn@ =~= t@.take(j2 as int),
            decreases k - j2,
        {
            rn.push(t[j2]);
            j2 = j2 + 1;
        }
        rn.push(r.new0);
        proof {
            assert(ro@ =~= right_old(w@, *r)) by {
                assert(w@.take(k as int) =~= w@);
            }
            assert(rn@ =~= right_new(w@, *r));
        }
        right = Some(ExpansionStruct::new(ro, rn));

        if w[0] == r.old1 {
            let mut bo: Vec<usize> = Vec::new();
            bo.push(r.old0);
            let mut j3: usize = 0;
            while j3 < k
                invariant
                    j3 <= k,
                    k == w@.len(),
                    bo@ =~= seq![r.old0] + w@.take(j3 as int),
                decreases k - j3,
            {
                bo.push(w[j3]);
                j3 = j3 + 1;
            }
            bo.push(r.old1);
            let mut bn: Vec<usize> = Vec::new();
            if k == 1 {
                bn.push(r.new0);
            } else {
                bn.push(r.new1);
                let mut j4: usize = 1;
                while j4 < k - 1
                    invariant
                        1 <= j4 <= k - 1,
                        k == t@.len(),
                        2 <= k,
                        bn@ =~= seq![r.new1] + t@.subrange(1, j4 as int),
                    decreases k - j4,
                {
                    bn.push(t[j4]);
                    j4 = j4 + 1;
                }
                bn.push(r.new0);
            }
            proof {
                assert(bo@ =~= both_old(w@, *r)) by {
                    assert(w@.take(k as int) =~= w@);
                }
                assert(bn@ =~= both_new(w@, *r)) by {
                    if k > 1 {
                        assert(bn@ =~= left_new(w@, *r).update(k - 1, r.new0)) by {
                            assert(left_new(w@, *r).len() == k) by {
                                lemma_transform_len(w@, *r);
                            }
                        }
                    }
                }
            }
            both = Some(ExpansionStruct::new(bo, bn));
        }
    }

    Expansions { left, right, both }
}

/// The in-window transform keeps the window's length.
pub proof fn lemma_transform_len(w: Seq<usize>, r: Rule)
    ensures
        transform(w, r).len() == w.len(),
{
}

/// The in-window transform keeps every character inside the alphabet.
pub proof fn lemma_transform_valid(w: Seq<usize>, r: Rule, n: usize)
    requires
        win_valid(w, n),
        r.valid(n),
    ensures
        win_valid(transform(w, r), n),
{
}

} // verus!
