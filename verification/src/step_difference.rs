//! The patch value that each recorded step carries.

use vstd::prelude::*;

verus! {

use vstd::wrapping::i64_specs;

/// One patch between two materialized states: the net change counts for the
/// graph's elements, its colored marks and its signal holders.
///
/// Patches compose: `squash` folds two consecutive patches into one net patch
/// and `reverse` yields the inverse patch. Both are pure and total — the
/// counters wrap around on overflow — so patches form a group under `squash`,
/// with the all-zero patch as identity. The lemmas below state those laws.
#[derive(Clone, Copy, Debug, PartialEq, Eq, Structural)]
pub struct StepDifference {
    pub elements: i64,
    pub colored: i64,
    pub signal_holders: i64,
}

impl StepDifference {
    /// The patch that changes nothing.
    pub open spec fn spec_identity() -> StepDifference {
        StepDifference { elements: 0, colored: 0, signal_holders: 0 }
    }

    /// What `squash` returns: the counters added pairwise, wrapping on overflow.
    pub open spec fn spec_squash(self, other: StepDifference) -> StepDifference {
        StepDifference {
            elements: i64_specs::wrapping_add(self.elements, other.elements),
            colored: i64_specs::wrapping_add(self.colored, other.colored),
            signal_holders: i64_specs::wrapping_add(self.signal_holders, other.signal_holders),
        }
    }

    /// What `reverse` returns: every counter negated (wrapping at `i64::MIN`).
    pub open spec fn spec_reverse(self) -> StepDifference {
        StepDifference {
            elements: i64_specs::wrapping_sub(0, self.elements),
            colored: i64_specs::wrapping_sub(0, self.colored),
            signal_holders: i64_specs::wrapping_sub(0, self.signal_holders),
        }
    }

    /// Composes `self` with the patch that follows it, yielding the net patch.
    pub fn squash(&self, other: &StepDifference) -> (r: StepDifference)
        ensures
            r == self.spec_squash(*other),
    {
        StepDifference {
            elements: self.elements.wrapping_add(other.elements),
            colored: self.colored.wrapping_add(other.colored),
            signal_holders: self.signal_holders.wrapping_add(other.signal_holders),
        }
    }

    /// The inverse patch: squashing a patch with its reverse yields the identity.
    pub fn reverse(&self) -> (r: StepDifference)
        ensures
            r == self.spec_reverse(),
    {
        StepDifference {
            elements: (0i64).wrapping_sub(self.elements),
            colored: (0i64).wrapping_sub(self.colored),
            signal_holders: (0i64).wrapping_sub(self.signal_holders),
        }
    }
}

impl Default for StepDifference {
    /// The identity patch.
    fn default() -> (r: StepDifference)
        ensures
            r == StepDifference::spec_identity(),
    {
        StepDifference { elements: 0, colored: 0, signal_holders: 0 }
    }
}

/// Wrapping addition of counters is associative.
proof fn lemma_wrapping_add_associative(x: i64, y: i64, z: i64)
    ensures
        i64_specs::wrapping_add(i64_specs::wrapping_add(x, y), z) == i64_specs::wrapping_add(
            x,
            i64_specs::wrapping_add(y, z),
        ),
{
}

/// Squashing is associative: folding a run of patches gives the same net patch
/// however the run is parenthesized.
pub proof fn lemma_squash_associative(a: StepDifference, b: StepDifference, c: StepDifference)
    ensures
        a.spec_squash(b).spec_squash(c) == a.spec_squash(b.spec_squash(c)),
{
    lemma_wrapping_add_associative(a.elements, b.elements, c.elements);
    lemma_wrapping_add_associative(a.colored, b.colored, c.colored);
    lemma_wrapping_add_associative(a.signal_holders, b.signal_holders, c.signal_holders);
}

/// Squashing is commutative: two patches squash to the same net patch in
/// either order.
pub proof fn lemma_squash_commutative(a: StepDifference, b: StepDifference)
    ensures
        a.spec_squash(b) == b.spec_squash(a),
{
}

/// The identity patch is neutral for squashing, on either side.
pub proof fn lemma_squash_identity(d: StepDifference)
    ensures
        StepDifference::spec_identity().spec_squash(d) == d,
        d.spec_squash(StepDifference::spec_identity()) == d,
{
}

/// A patch squashed with its reverse is the identity, on either side.
pub proof fn lemma_reverse_cancels(d: StepDifference)
    ensures
        d.spec_squash(d.spec_reverse()) == StepDifference::spec_identity(),
        d.spec_reverse().spec_squash(d) == StepDifference::spec_identity(),
{
}

/// Reversing distributes over squashing, with the order flipped.
pub proof fn lemma_reverse_squash(a: StepDifference, b: StepDifference)
    ensures
        a.spec_squash(b).spec_reverse() == b.spec_reverse().spec_squash(a.spec_reverse()),
{
}

/// Reversing the identity patch gives the identity patch back.
pub proof fn lemma_reverse_identity()
    ensures
        StepDifference::spec_identity().spec_reverse() == StepDifference::spec_identity(),
{
}

} // verus!
