//! The public surface of the branching history engine.

use vstd::prelude::*;

verus! {

use crate::planner::plan_spec;
use crate::planner::plan_transition;
use crate::step_difference::StepDifference;
use crate::step_tree::StepTree;

/// A caller-visible failure of the history engine.
#[derive(Clone, Copy, Debug, PartialEq, Eq, Structural)]
pub enum HistoryError {
    /// The given node index does not name a recorded step.
    UnknownNode,
}

/// The branching history of one editing session.
///
/// Every applied mutation is recorded as a node of a rooted tree; the current
/// pointer names the node whose state the outside renderer has materialized.
/// Recording appends under the current pointer — on the same generation when
/// the pointer sits on a leaf, on a freshly allocated generation when the
/// user has rewound to a mid-tree node — and jumping plans the net patch from
/// the current node to any other recorded node. Nodes are never removed.
#[derive(Clone, Debug)]
pub struct History {
    tree: StepTree,
    current_step: usize,
    max_gen: usize,
}

/// Everything `add_step` does to a history, as a relation between the state
/// before and the state after: one node is appended under the old current
/// pointer with the given label and patch, every older node is untouched, the
/// pointer advances to the new node, and the generation bookkeeping follows
/// the branch rule — a leaf continues its own generation, a non-leaf opens
/// generation `max_gen + 1` and bumps `max_gen`.
pub open spec fn add_step_rel(
    pre: History,
    post: History,
    step_name: Seq<char>,
    difference: StepDifference,
) -> bool {
    let t0 = pre.spec_tree();
    let t1 = post.spec_tree();
    let idx = t0.spec_len() as int;
    &&& t1.spec_len() == t0.spec_len() + 1
    &&& forall|i: int|
        0 <= i < t0.spec_len() ==> #[trigger] t1.spec_parent(i) == t0.spec_parent(i)
            && t1.spec_generation(i) == t0.spec_generation(i) && t1.spec_difference(i)
            == t0.spec_difference(i) && t1.spec_name(i) == t0.spec_name(i)
    &&& t1.spec_parent(idx) == Some(pre.spec_current())
    &&& t1.spec_difference(idx) == Some(difference)
    &&& t1.spec_name(idx) == step_name
    &&& post.spec_current() == t0.spec_len()
    &&& if t0.is_leaf_spec(pre.spec_current() as int) {
        t1.spec_generation(idx) == t0.spec_generation(pre.spec_current() as int)
            && post.spec_max_gen() == pre.spec_max_gen()
    } else {
        t1.spec_generation(idx) == pre.spec_max_gen() + 1 && post.spec_max_gen()
            == pre.spec_max_gen() + 1
    }
}

impl History {
    /// The tree of recorded steps.
    pub closed spec fn spec_tree(self) -> StepTree {
        self.tree
    }

    /// The node whose state the outside renderer currently holds.
    pub closed spec fn spec_current(self) -> usize {
        self.current_step
    }

    /// The highest generation label ever assigned to an edge.
    pub closed spec fn spec_max_gen(self) -> usize {
        self.max_gen
    }

    /// A valid history: a well-formed tree, a current pointer that names an
    /// existing node, and a branch counter that bounds every edge label and
    /// stays below the node count.
    pub open spec fn wf(self) -> bool {
        &&& self.spec_tree().wf()
        &&& self.spec_current() < self.spec_tree().spec_len()
        &&& self.spec_max_gen() < self.spec_tree().spec_len()
        &&& forall|i: int|
            0 <= i < self.spec_tree().spec_len() ==> #[trigger] self.spec_tree().spec_generation(
                i,
            ) <= self.spec_max_gen()
    }

    /// A fresh history: a single root step with the given label, the current
    /// pointer on it, and no branch allocated yet.
    pub fn new(first_step_name: String) -> (h: History)
        ensures
            h.wf(),
            h.spec_tree().spec_len() == 1,
            h.spec_tree().spec_name(0) == first_step_name@,
            h.spec_tree().spec_difference(0) is None,
            h.spec_current() == 0,
            h.spec_max_gen() == 0,
    {
        History { tree: StepTree::new(first_step_name), current_step: 0, max_gen: 0 }
    }

    /// Records one applied mutation under the current pointer and advances
    /// the pointer onto it.
    ///
    /// When the current node is a leaf the new edge continues that node's own
    /// generation; when it is not — the user rewound and records a new path —
    /// a new generation `max_gen + 1` is allocated and labels the edge,
    /// leaving the prior descendants intact and inspectable. No patch is
    /// planned or returned: the caller has already applied the mutation live.
    pub fn add_step(&mut self, step_name: String, difference: StepDifference)
        requires
            old(self).wf(),
        ensures
            final(self).wf(),
            add_step_rel(*old(self), *final(self), step_name@, difference),
    {
        proof {
            crate::step_tree::lemma_len_bound(self.tree);
        }
        let leaf = self.tree.is_leaf(self.current_step);
        let generation = if leaf {
            self.tree.generation_of(self.current_step)
        } else {
            self.max_gen + 1
        };
        let idx = self.tree.append_child(self.current_step, step_name, difference, generation);
        if !leaf {
            self.max_gen = self.max_gen + 1;
        }
        self.current_step = idx;
        proof {
            let pre = *old(self);
            let post = *self;
            assert forall|i: int| 0 <= i < post.spec_tree().spec_len() implies #[trigger] post
                .spec_tree().spec_generation(i) <= post.spec_max_gen() by {
                if i < pre.spec_tree().spec_len() {
                    assert(post.spec_tree().spec_parent(i) == pre.spec_tree().spec_parent(i));
                    assert(post.spec_tree().spec_generation(i) == pre.spec_tree().spec_generation(
                        i,
                    ));
                    assert(pre.spec_tree().spec_generation(i) <= pre.spec_max_gen());
                }
            }
        }
    }

    /// Whether the node at `idx` has no recorded children.
    pub fn is_leaf(&self, idx: usize) -> (r: bool)
        ensures
            r == self.spec_tree().is_leaf_spec(idx as int),
    {
        self.tree.is_leaf(idx)
    }

    /// Moves the current pointer to `target` and returns the net patch that
    /// the outside renderer must apply to follow the jump.
    ///
    /// An index that names no recorded node is reported as an error and the
    /// history is left exactly as it was. A self-jump returns the identity
    /// patch; the caller may skip publishing it. The tree itself never
    /// changes.
    pub fn jump_to(&mut self, target: usize) -> (r: Result<StepDifference, HistoryError>)
        requires
            old(self).wf(),
        ensures
            final(self).wf(),
            target < old(self).spec_tree().spec_len() ==> r == Ok::<StepDifference, HistoryError>(
                plan_spec(old(self).spec_tree(), old(self).spec_current() as int, target as int),
            ) && final(self).spec_tree() == old(self).spec_tree() && final(self).spec_current()
                == target && final(self).spec_max_gen() == old(self).spec_max_gen(),
            target >= old(self).spec_tree().spec_len() ==> r == Err::<StepDifference, HistoryError>(
                HistoryError::UnknownNode,
            ) && *final(self) == *old(self),
    {
        if target >= self.tree.len() {
            return Err(HistoryError::UnknownNode);
        }
        let diff = plan_transition(&self.tree, self.current_step, target);
        self.current_step = target;
        Ok(diff)
    }

    /// The node whose state is currently materialized.
    pub fn current_step(&self) -> (r: usize)
        ensures
            r == self.spec_current(),
    {
        self.current_step
    }

    /// The highest generation label assigned so far.
    pub fn max_gen(&self) -> (r: usize)
        ensures
            r == self.spec_max_gen(),
    {
        self.max_gen
    }

    /// Read access to the tree of recorded steps, for queries and display.
    pub fn tree(&self) -> (r: &StepTree)
        ensures
            *r == self.spec_tree(),
    {
        &self.tree
    }
}

/// Branch allocation: recording twice from the same non-leaf node — once,
/// then again after jumping the pointer back — appends two children of that
/// node on two distinct, newly allocated generations, and each recording
/// raises `max_gen` by exactly one.
pub proof fn lemma_branch_allocation(
    h0: History,
    h1: History,
    h1b: History,
    h2: History,
    name1: Seq<char>,
    d1: StepDifference,
    name2: Seq<char>,
    d2: StepDifference,
)
    requires
        h0.wf(),
        !h0.spec_tree().is_leaf_spec(h0.spec_current() as int),
        add_step_rel(h0, h1, name1, d1),
        h1b.spec_tree() == h1.spec_tree(),
        h1b.spec_current() == h0.spec_current(),
        h1b.spec_max_gen() == h1.spec_max_gen(),
        add_step_rel(h1b, h2, name2, d2),
    ensures
        h2.spec_tree().spec_parent(h0.spec_tree().spec_len() as int) == Some(h0.spec_current()),
        h2.spec_tree().spec_parent(h1.spec_tree().spec_len() as int) == Some(h0.spec_current()),
        h2.spec_tree().spec_generation(h0.spec_tree().spec_len() as int) == h0.spec_max_gen() + 1,
        h2.spec_tree().spec_generation(h1.spec_tree().spec_len() as int) == h0.spec_max_gen() + 2,
        h1.spec_max_gen() == h0.spec_max_gen() + 1,
        h2.spec_max_gen() == h1.spec_max_gen() + 1,
{
    let c1 = h0.spec_tree().spec_len() as int;
    let c2 = h1.spec_tree().spec_len() as int;
    assert(h1.spec_tree().spec_parent(c1) == Some(h0.spec_current()));
    // the first recording already hangs a child under the old current node,
    // so the second recording sees a non-leaf as well
    assert(!h1b.spec_tree().is_leaf_spec(h1b.spec_current() as int)) by {
        assert(h1b.spec_tree().spec_parent(c1) == Some(h1b.spec_current()));
    }
    assert(h2.spec_tree().spec_parent(c1) == h1.spec_tree().spec_parent(c1));
    assert(h2.spec_tree().spec_generation(c1) == h1.spec_tree().spec_generation(c1));
}

} // verus!
