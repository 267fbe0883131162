//! The lowest common ancestor of two recorded steps.

use vstd::prelude::*;

verus! {

use crate::step_tree::StepTree;
use crate::step_tree::lemma_ancestor_antisymmetric;
use crate::step_tree::lemma_ancestor_le;
use crate::step_tree::lemma_ancestor_transitive;
use crate::step_tree::lemma_ancestors_form_chain;
use crate::step_tree::lemma_root_is_ancestor;

/// The lowest common ancestor of `a` and `b`: the first ancestor of `a`,
/// walking upward from `a` itself, that is also an ancestor of `b`.
pub open spec fn lca_spec(t: StepTree, a: int, b: int) -> int
    recommends
        t.wf(),
        0 <= a < t.spec_len(),
        0 <= b < t.spec_len(),
    decreases a,
{
    if t.wf() && 0 <= a < t.spec_len() && 0 <= b < t.spec_len() {
        if t.is_ancestor(a, b) {
            a
        } else if 0 < a {
            lca_spec(t, t.parent_index(a), b)
        } else {
            0
        }
    } else {
        0
    }
}

/// What makes a node the lowest common ancestor: it is a common ancestor,
/// and every common ancestor lies on its own walk to the root.
pub open spec fn is_lca(t: StepTree, l: int, a: int, b: int) -> bool {
    &&& 0 <= l < t.spec_len()
    &&& t.is_ancestor(l, a)
    &&& t.is_ancestor(l, b)
    &&& forall|c: int|
        0 <= c < t.spec_len() && #[trigger] t.is_ancestor(c, a) && t.is_ancestor(c, b)
            ==> t.is_ancestor(c, l)
}

/// `lca_spec` always yields a lowest common ancestor: a common ancestor of
/// both nodes such that no strict descendant of it is also one. In a
/// well-formed tree the walk can never come up empty — at worst it ends at
/// the root, which is an ancestor of every node.
pub proof fn lemma_lca_spec_is_lca(t: StepTree, a: int, b: int)
    requires
        t.wf(),
        0 <= a < t.spec_len(),
        0 <= b < t.spec_len(),
    ensures
        is_lca(t, lca_spec(t, a, b), a, b),
        t.is_ancestor(lca_spec(t, a, b), a),
        t.is_ancestor(lca_spec(t, a, b), b),
    decreases a,
{
    if t.is_ancestor(a, b) {
        assert(t.is_ancestor(a, a));
        assert forall|c: int|
            0 <= c < t.spec_len() && #[trigger] t.is_ancestor(c, a) && t.is_ancestor(c, b)
            implies t.is_ancestor(c, a) by {}
    } else if 0 < a {
        let p = t.parent_index(a);
        lemma_lca_spec_is_lca(t, p, b);
        let l = lca_spec(t, p, b);
        assert(t.is_ancestor(l, p));
        assert(t.is_ancestor(l, a));
        assert forall|c: int|
            0 <= c < t.spec_len() && #[trigger] t.is_ancestor(c, a) && t.is_ancestor(c, b)
            implies t.is_ancestor(c, l) by {
            if c == a {
                assert(t.is_ancestor(a, b));
            } else {
                assert(t.is_ancestor(c, p));
            }
        }
    } else {
        lemma_root_is_ancestor(t, b);
        assert(t.is_ancestor(0, a));
        assert forall|c: int|
            0 <= c < t.spec_len() && #[trigger] t.is_ancestor(c, a) && t.is_ancestor(c, b)
            implies t.is_ancestor(c, 0) by {
            lemma_ancestor_le(t, c, 0);
        }
    }
}

/// The lowest common ancestor is an ancestor of both nodes, and lowest: no
/// strict descendant of it is also a common ancestor of the two.
pub proof fn lemma_lca_is_lowest(t: StepTree, a: int, b: int)
    requires
        t.wf(),
        0 <= a < t.spec_len(),
        0 <= b < t.spec_len(),
    ensures
        t.is_ancestor(lca_spec(t, a, b), a),
        t.is_ancestor(lca_spec(t, a, b), b),
        forall|d: int|
            0 <= d < t.spec_len() && #[trigger] t.is_ancestor(lca_spec(t, a, b), d) && d
                != lca_spec(t, a, b) ==> !(t.is_ancestor(d, a) && t.is_ancestor(d, b)),
{
    lemma_lca_spec_is_lca(t, a, b);
    let l = lca_spec(t, a, b);
    assert forall|d: int|
        0 <= d < t.spec_len() && #[trigger] t.is_ancestor(l, d) && d != l implies !(t.is_ancestor(
        d,
        a,
    ) && t.is_ancestor(d, b)) by {
        if t.is_ancestor(d, a) && t.is_ancestor(d, b) {
            assert(t.is_ancestor(d, l));
            lemma_ancestor_antisymmetric(t, l, d);
        }
    }
}

/// Any two nodes that both satisfy `is_lca` are the same node: the lowest
/// common ancestor is unique.
pub proof fn lemma_lca_unique(t: StepTree, l1: int, l2: int, a: int, b: int)
    requires
        t.wf(),
        0 <= a < t.spec_len(),
        0 <= b < t.spec_len(),
        is_lca(t, l1, a, b),
        is_lca(t, l2, a, b),
    ensures
        l1 == l2,
{
    assert(t.is_ancestor(l1, l2));
    assert(t.is_ancestor(l2, l1));
    lemma_ancestor_antisymmetric(t, l1, l2);
}

/// A node is its own lowest common ancestor with itself.
pub proof fn lemma_lca_self(t: StepTree, a: int)
    requires
        t.wf(),
        0 <= a < t.spec_len(),
    ensures
        lca_spec(t, a, a) == a,
{
    assert(t.is_ancestor(a, a));
}

/// The lowest common ancestor does not depend on the order of its arguments.
pub proof fn lemma_lca_symmetric(t: StepTree, a: int, b: int)
    requires
        t.wf(),
        0 <= a < t.spec_len(),
        0 <= b < t.spec_len(),
    ensures
        lca_spec(t, a, b) == lca_spec(t, b, a),
{
    lemma_lca_spec_is_lca(t, a, b);
    lemma_lca_spec_is_lca(t, b, a);
    let l1 = lca_spec(t, a, b);
    let l2 = lca_spec(t, b, a);
    assert(is_lca(t, l1, b, a)) by {
        assert(t.is_ancestor(l1, b) && t.is_ancestor(l1, a));
        assert forall|c: int|
            0 <= c < t.spec_len() && #[trigger] t.is_ancestor(c, b) && t.is_ancestor(c, a)
            implies t.is_ancestor(c, l1) by {
            assert(t.is_ancestor(c, a) && t.is_ancestor(c, b));
        }
    }
    lemma_lca_unique(t, l1, l2, b, a);
}

/// The lowest common ancestor of the root and any node is the root.
pub proof fn lemma_lca_with_root(t: StepTree, b: int)
    requires
        t.wf(),
        0 <= b < t.spec_len(),
    ensures
        lca_spec(t, 0, b) == 0,
{
    lemma_root_is_ancestor(t, b);
}

/// Finds the lowest common ancestor of `a` and `b` in the tree rooted at
/// `root`. The arena keeps its root at slot 0, so that is the only index the
/// root argument can name.
///
/// Walks from `a` to the root marking every visited node — the ancestor path,
/// inclusive of `a` and the root — then walks from `b` toward the root and
/// returns the first marked node. Both walks terminate because every parent
/// was recorded before its child, and a common ancestor always exists: at
/// worst, the root.
pub fn lca(tree: &StepTree, root: usize, a: usize, b: usize) -> (r: usize)
    requires
        tree.wf(),
        root == 0,
        a < tree.spec_len(),
        b < tree.spec_len(),
    ensures
        r == lca_spec(*tree, a as int, b as int),
        is_lca(*tree, r as int, a as int, b as int),
{
    let ghost ti = *tree;
    let ghost ai = a as int;
    let n = tree.len();
    let mut marked: Vec<bool> = Vec::new();
    let mut j: usize = 0;
    while j < n
        invariant
            j <= n,
            marked@.len() == j,
            forall|k: int| 0 <= k < j ==> !(#[trigger] marked@[k]),
        decreases n - j,
    {
        marked.push(false);
        j += 1;
    }
    proof {
        assert forall|x: int| 0 <= x < ti.spec_len() implies !(ti.is_ancestor(x, ai)
            && ti.is_ancestor(ai, x) && x != ai) by {
            if ti.is_ancestor(x, ai) && ti.is_ancestor(ai, x) {
                lemma_ancestor_le(ti, x, ai);
                lemma_ancestor_antisymmetric(ti, x, ai);
            }
        }
    }

    // Backward walk from `a`: mark every ancestor of `a`.
    let mut curr = a;
    while curr != 0
        invariant
            ti == *tree,
            ai == a as int,
            ti.wf(),
            a < ti.spec_len(),
            curr < ti.spec_len(),
            marked@.len() == ti.spec_len(),
            ti.is_ancestor(curr as int, ai),
            forall|x: int|
                0 <= x < ti.spec_len() ==> (#[trigger] marked@[x] <==> (ti.is_ancestor(x, ai)
                    && ti.is_ancestor(curr as int, x) && x != curr)),
        decreases curr,
    {
        marked[curr] = true;
        let p = tree.parent_of(curr).unwrap();
        proof {
            let ci = curr as int;
            let pi = p as int;
            assert(ti.is_ancestor(pi, pi));
            assert(ti.is_ancestor(pi, ci));
            lemma_ancestor_transitive(ti, pi, ci, ai);
            assert forall|x: int| 0 <= x < ti.spec_len() implies (marked@[x] <==> (
            ti.is_ancestor(x, ai) && ti.is_ancestor(pi, x) && x != pi)) by {
                if marked@[x] {
                    if x == ci {
                        assert(ti.is_ancestor(x, ai) && ti.is_ancestor(pi, x) && x != pi);
                    } else {
                        // marked before this iteration: x lies strictly below curr
                        assert(ti.is_ancestor(ci, x));
                        lemma_ancestor_transitive(ti, pi, ci, x);
                        if x == pi {
                            lemma_ancestor_le(ti, ci, x);
                        }
                    }
                }
                if ti.is_ancestor(x, ai) && ti.is_ancestor(pi, x) && x != pi {
                    lemma_ancestors_form_chain(ti, x, ci, ai);
                    if ti.is_ancestor(x, ci) {
                        if x != ci {
                            // one unfolding: an ancestor of curr other than curr
                            // is an ancestor of curr's parent
                            assert(ti.is_ancestor(x, pi));
                            lemma_ancestor_le(ti, x, pi);
                            lemma_ancestor_le(ti, pi, x);
                        } else {
                            assert(marked@[x]);
                        }
                    } else {
                        assert(ti.is_ancestor(ci, x));
                        if x != ci {
                            assert(marked@[x]);
                        }
                    }
                }
            }
        }
        curr = p;
    }
    marked[0] = true;
    proof {
        lemma_root_is_ancestor(ti, ai);
        assert forall|x: int| 0 <= x < ti.spec_len() implies (marked@[x] <==> ti.is_ancestor(
            x,
            ai,
        )) by {
            if ti.is_ancestor(x, ai) && x != 0 {
                lemma_root_is_ancestor(ti, x);
            }
        }
    }

    // Walk from `b` toward the root: the first marked node is the answer.
    let mut curr = b;
    while !marked[curr]
        invariant
            ti == *tree,
            ai == a as int,
            ti.wf(),
            a < ti.spec_len(),
            b < ti.spec_len(),
            curr < ti.spec_len(),
            marked@.len() == ti.spec_len(),
            marked@[0],
            forall|x: int|
                0 <= x < ti.spec_len() ==> (#[trigger] marked@[x] <==> ti.is_ancestor(x, ai)),
            ti.is_ancestor(curr as int, b as int),
            forall|c: int|
                0 <= c < ti.spec_len() && #[trigger] ti.is_ancestor(c, ai) && ti.is_ancestor(
                    c,
                    b as int,
                ) ==> ti.is_ancestor(c, curr as int),
        decreases curr,
    {
        let p = tree.parent_of(curr).unwrap();
        proof {
            let ci = curr as int;
            let pi = p as int;
            assert(ti.is_ancestor(pi, pi));
            assert(ti.is_ancestor(pi, ci));
            lemma_ancestor_transitive(ti, pi, ci, b as int);
            assert forall|c: int|
                0 <= c < ti.spec_len() && #[trigger] ti.is_ancestor(c, ai) && ti.is_ancestor(
                    c,
                    b as int,
                ) implies ti.is_ancestor(c, pi) by {
                assert(ti.is_ancestor(c, ci));
                assert(marked@[c]);
                assert(c != ci);
                assert(ti.is_ancestor(c, pi));
            }
        }
        curr = p;
    }
    proof {
        assert(ti.is_ancestor(curr as int, ai));
        assert(is_lca(ti, curr as int, ai, b as int));
        lemma_lca_spec_is_lca(ti, ai, b as int);
        lemma_lca_unique(ti, curr as int, lca_spec(ti, ai, b as int), ai, b as int);
    }
    curr
}

} // verus!
