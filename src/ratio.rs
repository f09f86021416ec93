//! Exact numerator/denominator tallies, merged by adding their counts.
use vstd::prelude::*;

verus! {

/// A proportion under construction: `numerator` events out of `denominator` opportunities.
#[derive(Clone, Copy, Debug, PartialEq, Eq, Structural)]
pub struct Ratio {
    pub numerator: usize,
    pub denominator: usize,
}

/// The component-wise sum of two tallies: the only way two partitions' tallies combine.
pub open spec fn sum(a: Ratio, b: Ratio) -> (int, int) {
    (a.numerator + b.numerator, a.denominator + b.denominator)
}

/// The counts of a tally.
pub open spec fn counts(a: Ratio) -> (int, int) {
    (a.numerator as int, a.denominator as int)
}

/// The tally of a sequence of observations, each a (weight, opportunity) pair.
pub open spec fn tally(obs: Seq<(nat, nat)>) -> (int, int)
    decreases obs.len(),
{
    if obs.len() == 0 {
        (0, 0)
    } else {
        let t = tally(obs.drop_last());
        (t.0 + obs.last().0, t.1 + obs.last().1)
    }
}

impl Ratio {
    /// The empty tally, identity of `merge`.
    pub fn new() -> (r: Ratio)
        ensures
            counts(r) == (0int, 0int),
    {
        Ratio { numerator: 0, denominator: 0 }
    }

    /// Records one observation: `weight` events out of `opportunity`.
    pub fn increment(&mut self, weight: usize, opportunity: usize)
        requires
            old(self).numerator + weight <= usize::MAX,
            old(self).denominator + opportunity <= usize::MAX,
        ensures
            final(self).numerator == old(self).numerator + weight,
            final(self).denominator == old(self).denominator + opportunity,
    {
        self.numerator = self.numerator + weight;
        self.denominator = self.denominator + opportunity;
    }

    /// Adds the counts of `other`, a tally of disjoint observations.
    pub fn merge(&mut self, other: &Ratio)
        requires
            sum(*old(self), *other).0 <= usize::MAX,
            sum(*old(self), *other).1 <= usize::MAX,
        ensures
            counts(*final(self)) == sum(*old(self), *other),
    {
        self.numerator = self.numerator + other.numerator;
        self.denominator = self.denominator + other.denominator;
    }

    /// Whether the proportion is defined: at least one opportunity was seen.
    pub fn has_value(&self) -> (r: bool)
        ensures
            r == (self.denominator > 0),
    {
        self.denominator > 0
    }
}

/// Merging is commutative.
pub proof fn lemma_merge_commutative(a: Ratio, b: Ratio)
    ensures
        sum(a, b) == sum(b, a),
{
}

/// Merging is associative: `(a + b) + c == a + (b + c)`, count for count.
pub proof fn lemma_merge_associative(a: Ratio, b: Ratio, c: Ratio)
    ensures
        (sum(a, b).0 + c.numerator, sum(a, b).1 + c.denominator) == (a.numerator + sum(b, c).0,
            a.denominator + sum(b, c).1),
{
}

/// The empty tally is the identity of merging.
pub proof fn lemma_merge_identity(a: Ratio)
    ensures
        sum(a, Ratio { numerator: 0, denominator: 0 }) == counts(a),
{
}

/// The tally of the union of two disjoint sets of observations is the merge of their tallies.
pub proof fn lemma_tally_union(a: Seq<(nat, nat)>, b: Seq<(nat, nat)>)
    ensures
        tally(a + b) == (tally(a).0 + tally(b).0, tally(a).1 + tally(b).1),
    decreases b.len(),
{
    if b.len() == 0 {
        assert(a + b =~= a);
    } else {
        lemma_tally_union(a, b.drop_last());
        assert((a + b).drop_last() =~= a + b.drop_last());
    }
}

} // verus!
