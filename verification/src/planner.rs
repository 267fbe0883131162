//! Planning the net patch for a jump between two recorded steps.

use vstd::prelude::*;

verus! {

use crate::lca::lca;
use crate::lca::lca_spec;
use crate::lca::lemma_lca_self;
use crate::lca::lemma_lca_symmetric;
use crate::lca::lemma_lca_with_root;
use crate::step_difference::StepDifference;
use crate::step_difference::lemma_reverse_cancels;
use crate::step_difference::lemma_reverse_identity;
use crate::step_difference::lemma_reverse_squash;
use crate::step_difference::lemma_squash_associative;
use crate::step_difference::lemma_squash_identity;
use crate::step_tree::StepTree;
use crate::step_tree::lemma_ancestor_le;
use crate::step_tree::lemma_diffs_below_split;

/// A run of patches squashed left to right, starting from the identity.
pub open spec fn compose_seq(s: Seq<StepDifference>) -> StepDifference
    decreases s.len(),
{
    if s.len() == 0 {
        StepDifference::spec_identity()
    } else {
        compose_seq(s.drop_last()).spec_squash(s.last())
    }
}

/// The patches of a backward walk: the given root-to-leaf run, walked from
/// the leaf end and with every patch inverted.
pub open spec fn reversed_upward(s: Seq<StepDifference>) -> Seq<StepDifference> {
    s.reverse().map_values(|d: StepDifference| d.spec_reverse())
}

/// The net patch that turns the state at `current` into the state at
/// `target`: the patches from `current` up to the lowest common ancestor,
/// inverted and in the order the backward walk meets them, then the patches
/// down to `target` in root-to-leaf order, all squashed left to right.
pub open spec fn plan_spec(t: StepTree, current: int, target: int) -> StepDifference {
    let pivot = lca_spec(t, current, target);
    compose_seq(
        reversed_upward(t.diffs_below(pivot, current)) + t.diffs_below(pivot, target),
    )
}

/// Appending one patch to a run squashes it onto the run's composition.
pub proof fn lemma_compose_snoc(s: Seq<StepDifference>, d: StepDifference)
    ensures
        compose_seq(s + seq![d]) == compose_seq(s).spec_squash(d),
{
    assert((s + seq![d]).drop_last() =~= s);
    assert((s + seq![d]).last() == d);
}

/// Composition splits over concatenation of runs.
pub proof fn lemma_compose_concat(s1: Seq<StepDifference>, s2: Seq<StepDifference>)
    ensures
        compose_seq(s1 + s2) == compose_seq(s1).spec_squash(compose_seq(s2)),
    decreases s2.len(),
{
    if s2.len() == 0 {
        assert(s1 + s2 =~= s1);
        lemma_squash_identity(compose_seq(s1));
    } else {
        let s2p = s2.drop_last();
        let x = s2.last();
        assert(s1 + s2 =~= (s1 + s2p) + seq![x]);
        lemma_compose_snoc(s1 + s2p, x);
        lemma_compose_concat(s1, s2p);
        lemma_squash_associative(compose_seq(s1), compose_seq(s2p), x);
    }
}

/// Walking a run backward with every patch inverted prepends the inverted
/// patch of the run's first step to the walk of the rest.
proof fn lemma_reversed_upward_prepend(s: Seq<StepDifference>, d: StepDifference)
    ensures
        reversed_upward(seq![d] + s) == reversed_upward(s) + seq![d.spec_reverse()],
{
    let q = seq![d] + s;
    assert forall|i: int| 0 <= i < q.len() implies reversed_upward(q)[i] == (reversed_upward(s)
        + seq![d.spec_reverse()])[i] by {
        assert(q.reverse()[i] == q[q.len() - 1 - i]);
        if i < s.len() {
            assert(q[q.len() - 1 - i] == s[s.len() - 1 - i]);
            assert(s.reverse()[i] == s[s.len() - 1 - i]);
        } else {
            assert(q[q.len() - 1 - i] == d);
        }
    }
    assert(reversed_upward(q) =~= reversed_upward(s) + seq![d.spec_reverse()]);
}

/// Composing a backward walk yields exactly the inverse of composing the
/// forward run.
pub proof fn lemma_compose_reversed(s: Seq<StepDifference>)
    ensures
        compose_seq(reversed_upward(s)) == compose_seq(s).spec_reverse(),
    decreases s.len(),
{
    if s.len() == 0 {
        assert(s.reverse() =~= Seq::<StepDifference>::empty());
        assert(reversed_upward(s) =~= Seq::<StepDifference>::empty());
        lemma_reverse_identity();
    } else {
        let sp = s.drop_last();
        let x = s.last();
        assert(s =~= sp + seq![x]);
        lemma_reversed_upward_snoc(sp, x);
        lemma_compose_concat(seq![x.spec_reverse()], reversed_upward(sp));
        lemma_compose_reversed(sp);
        assert(seq![x.spec_reverse()].drop_last() =~= Seq::<StepDifference>::empty());
        assert(compose_seq(Seq::<StepDifference>::empty()) == StepDifference::spec_identity());
        assert(compose_seq(seq![x.spec_reverse()].drop_last()) == StepDifference::spec_identity());
        assert(seq![x.spec_reverse()].last() == x.spec_reverse());
        assert(compose_seq(seq![x.spec_reverse()]) == StepDifference::spec_identity().spec_squash(
            x.spec_reverse(),
        ));
        lemma_squash_identity(x.spec_reverse());
        lemma_reverse_squash(compose_seq(sp), x);
        lemma_compose_snoc(sp, x);
    }
}

/// Walking a run backward with every patch inverted puts the inverted patch
/// of the run's last step first.
proof fn lemma_reversed_upward_snoc(s: Seq<StepDifference>, d: StepDifference)
    ensures
        reversed_upward(s + seq![d]) == seq![d.spec_reverse()] + reversed_upward(s),
{
    let q = s + seq![d];
    assert forall|i: int| 0 <= i < q.len() implies reversed_upward(q)[i] == (seq![
        d.spec_reverse(),
    ] + reversed_upward(s))[i] by {
        assert(q.reverse()[i] == q[q.len() - 1 - i]);
        if i == 0 {
            assert(q[q.len() - 1] == d);
        } else {
            assert(q[q.len() - 1 - i] == s[s.len() - i]);
            assert(s.reverse()[i - 1] == s[s.len() - i]);
        }
    }
    assert(reversed_upward(q) =~= seq![d.spec_reverse()] + reversed_upward(s));
}

/// Jumping from a node to itself plans the identity patch: both walks are
/// empty, and squashing nothing changes nothing.
pub proof fn lemma_plan_self(t: StepTree, n: int)
    requires
        t.wf(),
        0 <= n < t.spec_len(),
    ensures
        plan_spec(t, n, n) == StepDifference::spec_identity(),
{
    lemma_lca_self(t, n);
    assert(t.diffs_below(n, n) =~= Seq::<StepDifference>::empty());
    assert(reversed_upward(Seq::<StepDifference>::empty()) =~= Seq::<StepDifference>::empty());
    assert(reversed_upward(t.diffs_below(n, n)) + t.diffs_below(n, n)
        =~= Seq::<StepDifference>::empty());
}

/// Jumping from the root to any node plans exactly the composition of the
/// patches along the root-to-node path, in root-to-leaf order.
pub proof fn lemma_plan_from_root(t: StepTree, n: int)
    requires
        t.wf(),
        0 <= n < t.spec_len(),
    ensures
        plan_spec(t, 0, n) == compose_seq(t.diffs_below(0, n)),
{
    lemma_lca_with_root(t, n);
    assert(t.diffs_below(0, 0) =~= Seq::<StepDifference>::empty());
    assert(reversed_upward(Seq::<StepDifference>::empty()) =~= Seq::<StepDifference>::empty());
    assert(reversed_upward(t.diffs_below(0, 0)) + t.diffs_below(0, n) =~= t.diffs_below(0, n));
}

/// A jump and the jump straight back squash to the identity patch: the plan
/// for the return trip is the inverse of the plan for the trip out.
pub proof fn lemma_plan_round_trip(t: StepTree, a: int, b: int)
    requires
        t.wf(),
        0 <= a < t.spec_len(),
        0 <= b < t.spec_len(),
    ensures
        plan_spec(t, a, b).spec_squash(plan_spec(t, b, a)) == StepDifference::spec_identity(),
{
    lemma_lca_symmetric(t, a, b);
    let l = lca_spec(t, a, b);
    let ua = t.diffs_below(l, a);
    let ub = t.diffs_below(l, b);
    let ca = compose_seq(ua);
    let cb = compose_seq(ub);
    lemma_compose_concat(reversed_upward(ua), ub);
    lemma_compose_concat(reversed_upward(ub), ua);
    lemma_compose_reversed(ua);
    lemma_compose_reversed(ub);
    assert(plan_spec(t, a, b) == ca.spec_reverse().spec_squash(cb));
    assert(plan_spec(t, b, a) == cb.spec_reverse().spec_squash(ca));
    lemma_squash_associative(
        ca.spec_reverse().spec_squash(cb),
        cb.spec_reverse(),
        ca,
    );
    lemma_squash_associative(ca.spec_reverse(), cb, cb.spec_reverse());
    lemma_reverse_cancels(cb);
    lemma_squash_identity(ca.spec_reverse());
    lemma_reverse_cancels(ca);
}

/// Computes the net patch that transforms the state materialized at
/// `current` into the state recorded at `target`.
///
/// The pivot is the lowest common ancestor of the two nodes. The backward
/// phase walks from `current` up to the pivot, squashing the inverse of each
/// visited node's patch in the order the walk meets them; the forward phase
/// collects the patches from the pivot down to `target` and squashes them in
/// root-to-leaf order. A jump from a node to itself yields the identity
/// patch. The planner never mutates the tree.
pub fn plan_transition(tree: &StepTree, current: usize, target: usize) -> (r: StepDifference)
    requires
        tree.wf(),
        current < tree.spec_len(),
        target < tree.spec_len(),
    ensures
        r == plan_spec(*tree, current as int, target as int),
{
    let ghost ti = *tree;
    let ghost ci = current as int;
    let ghost gi = target as int;
    let root = tree.root();
    let pivot = lca(tree, root, current, target);
    let ghost pv = pivot as int;
    let ghost back = reversed_upward(ti.diffs_below(pv, ci));

    // Backward phase: invert and squash the patches from `current` up to the
    // pivot.
    let mut acc = StepDifference::default();
    let mut cur = current;
    proof {
        assert(ti.diffs_below(ci, ci) =~= Seq::<StepDifference>::empty());
        assert(reversed_upward(ti.diffs_below(ci, ci)) =~= Seq::<StepDifference>::empty());
    }
    while cur != pivot
        invariant
            ti == *tree,
            ti.wf(),
            ci == current as int,
            pv == pivot as int,
            current < ti.spec_len(),
            cur < ti.spec_len(),
            pivot < ti.spec_len(),
            ti.is_ancestor(pv, cur as int),
            ti.is_ancestor(cur as int, ci),
            acc == compose_seq(reversed_upward(ti.diffs_below(cur as int, ci))),
        decreases cur,
    {
        proof {
            if cur == 0 {
                lemma_ancestor_le(ti, pv, 0);
            }
        }
        let d = *tree.difference_of(cur);
        let d = d.unwrap();
        let p = tree.parent_of(cur).unwrap();
        proof {
            let pi = p as int;
            let cu = cur as int;
            assert(ti.is_ancestor(pi, pi));
            assert(ti.is_ancestor(pi, cu));
            assert(ti.diffs_below(pi, pi) =~= Seq::<StepDifference>::empty());
            assert(ti.diffs_below(pi, cu) == ti.diffs_below(pi, pi) + seq![d]);
            assert(ti.diffs_below(pi, cu) =~= seq![d]);
            lemma_diffs_below_split(ti, pi, cu, ci);
            assert(ti.diffs_below(pi, ci) == seq![d] + ti.diffs_below(cu, ci));
            lemma_reversed_upward_prepend(ti.diffs_below(cu, ci), d);
            lemma_compose_snoc(
                reversed_upward(ti.diffs_below(cu, ci)),
                d.spec_reverse(),
            );
        }
        acc = acc.squash(&d.reverse());
        cur = p;
    }
    proof {
        assert(acc == compose_seq(back));
    }

    // Forward phase: collect the patches from `target` up to the pivot, then
    // squash them in root-to-leaf order.
    let mut fwd: Vec<StepDifference> = Vec::new();
    let mut cur = target;
    proof {
        assert(ti.diffs_below(gi, gi) =~= Seq::<StepDifference>::empty());
        assert(Seq::<StepDifference>::empty().reverse() =~= Seq::<StepDifference>::empty());
    }
    while cur != pivot
        invariant
            ti == *tree,
            ti.wf(),
            gi == target as int,
            pv == pivot as int,
            target < ti.spec_len(),
            cur < ti.spec_len(),
            pivot < ti.spec_len(),
            ti.is_ancestor(pv, cur as int),
            ti.is_ancestor(cur as int, gi),
            fwd@ == ti.diffs_below(cur as int, gi).reverse(),
        decreases cur,
    {
        proof {
            if cur == 0 {
                lemma_ancestor_le(ti, pv, 0);
            }
        }
        let d = *tree.difference_of(cur);
        let d = d.unwrap();
        let p = tree.parent_of(cur).unwrap();
        proof {
            let pi = p as int;
            let cu = cur as int;
            assert(ti.is_ancestor(pi, pi));
            assert(ti.is_ancestor(pi, cu));
            assert(ti.diffs_below(pi, pi) =~= Seq::<StepDifference>::empty());
            assert(ti.diffs_below(pi, cu) == ti.diffs_below(pi, pi) + seq![d]);
            assert(ti.diffs_below(pi, cu) =~= seq![d]);
            lemma_diffs_below_split(ti, pi, cu, gi);
            assert(ti.diffs_below(pi, gi) == seq![d] + ti.diffs_below(cu, gi));
            assert((seq![d] + ti.diffs_below(cu, gi)).reverse() =~= ti.diffs_below(
                cu,
                gi,
            ).reverse() + seq![d]);
        }
        fwd.push(d);
        cur = p;
    }
    let ghost down = ti.diffs_below(pv, gi);
    proof {
        assert(fwd@ == down.reverse());
        assert(fwd@.len() == down.len());
        assert(down.take(0) =~= Seq::<StepDifference>::empty());
        assert(back + down.take(0) =~= back);
    }
    let mut k = fwd.len();
    while k > 0
        invariant
            fwd@ == down.reverse(),
            k <= fwd@.len(),
            down.len() == fwd@.len(),
            acc == compose_seq(back + down.take(fwd@.len() - k)),
        decreases k,
    {
        k = k - 1;
        let d = fwd[k];
        proof {
            let m = fwd@.len() - k - 1;
            assert(fwd@[k as int] == down[down.len() - 1 - k]);
            assert(down.len() - 1 - k == m);
            assert(down.take(m + 1) =~= down.take(m) + seq![down[m]]);
            assert((back + down.take(m + 1)) =~= (back + down.take(m)) + seq![down[m]]);
            lemma_compose_snoc(back + down.take(m), down[m]);
        }
        acc = acc.squash(&d);
    }
    proof {
        assert(down.take(fwd@.len() as int) =~= down);
        assert(acc == compose_seq(back + down));
    }
    acc
}

} // verus!
