//! Incremental n-gram frequency adaptation for two-character rewrite rules.
//!
//! A corpus is summarised by dense frequency tables for character monograms,
//! bigrams, trigrams, quadgrams and pentagrams, plus a skip-bigram table
//! (first and third character of every trigram window).  Applying a rewrite
//! rule `old -> new` (both two characters long) adjusts those tables
//! algebraically, without rescanning the underlying text: every way an
//! n-gram window can intersect an occurrence of `old` — fully inside the
//! window, hanging over its left edge, its right edge, or both — is
//! enumerated and the corresponding frequency mass is moved between buckets.

use vstd::prelude::*;

pub mod nums;
pub mod encoding;
pub mod corpus;
pub mod expansion;
pub mod props;
pub mod effects;
pub mod interior;
pub mod boundary;
pub mod driver;

pub use corpus::Corpus;
pub use corpus::Estimator;
pub use expansion::ExpansionStruct;
pub use expansion::Expansions;
pub use expansion::ExpansionKind;
pub use boundary::GetCount;
pub use driver::apply;

verus! {

/// Errors surfaced by rule application.  There is no local recovery: a
/// failed application may leave the tables partially transformed, and the
/// caller decides whether to abort or treat the corpus as invalid.
#[derive(Clone, Copy, PartialEq, Eq, Structural, Debug)]
pub enum AdaptError {
    /// The rule's replacement equals its pattern; such a rule is rejected
    /// before any table is touched.
    Inconsistent,
    /// A character of the rule has no slot in the corpus alphabet.
    Unencodable,
    /// A table cell would go negative or exceed the representable range.
    Overflow,
}

/// A rewrite rule with its four characters resolved to alphabet indices:
/// every occurrence of `(old0, old1)` is replaced by `(new0, new1)`.
#[derive(Clone, Copy, PartialEq, Eq, Structural, Debug)]
pub struct Rule {
    pub old0: usize,
    pub old1: usize,
    pub new0: usize,
    pub new1: usize,
}

impl Rule {
    /// All four indices name a slot of an alphabet of size `n`.
    pub open spec fn valid(self, n: usize) -> bool {
        self.old0 < n && self.old1 < n && self.new0 < n && self.new1 < n
    }

    /// The replacement equals the pattern, so applying the rule must not
    /// change anything.
    pub open spec fn is_identity(self) -> bool {
        self.old0 == self.new0 && self.old1 == self.new1
    }
}

} // verus!
