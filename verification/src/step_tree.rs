//! The rooted tree of recorded steps.
//!
//! The tree is an arena: node `0` is the root and every later node stores the
//! index of its single parent directly, so "every non-root node has exactly
//! one incoming edge" is a structural guarantee and `parent_of` is one field
//! read. Nodes are never removed; indices stay valid forever.

use vstd::prelude::*;

verus! {

use crate::step_difference::StepDifference;

/// One recorded mutation: a display label and the patch describing the
/// transition from the parent node into this node (`None` only for the root).
#[derive(Clone, Debug)]
pub struct Step {
    pub name: String,
    pub parent_difference: Option<StepDifference>,
}

/// One arena slot: the step itself, the parent index (`None` only at slot 0),
/// and the generation label of the incoming edge (0 for the root).
#[derive(Clone, Debug)]
pub struct StepNode {
    pub step: Step,
    pub parent: Option<usize>,
    pub generation: usize,
}

/// The rooted tree of recorded steps.
#[derive(Clone, Debug)]
pub struct StepTree {
    nodes: Vec<StepNode>,
}

impl StepTree {
    /// How many nodes the tree holds.
    pub closed spec fn spec_len(self) -> nat {
        self.nodes@.len()
    }

    /// The parent slot of node `i` (`None` only for the root).
    pub closed spec fn spec_parent(self, i: int) -> Option<usize> {
        self.nodes@[i].parent
    }

    /// The generation label on the edge into node `i`.
    pub closed spec fn spec_generation(self, i: int) -> usize {
        self.nodes@[i].generation
    }

    /// The patch on the edge into node `i` (`None` only for the root).
    pub closed spec fn spec_difference(self, i: int) -> Option<StepDifference> {
        self.nodes@[i].step.parent_difference
    }

    /// The display label of node `i`.
    pub closed spec fn spec_name(self, i: int) -> Seq<char> {
        self.nodes@[i].step.name@
    }

    /// The parent of a non-root node, as a plain index.
    pub open spec fn parent_index(self, i: int) -> int {
        self.spec_parent(i)->Some_0 as int
    }

    /// Well-formedness: exactly one root, at slot 0, with no incoming edge,
    /// generation 0 and no patch; every other node has exactly one parent,
    /// recorded before it, and carries a patch.
    pub open spec fn wf(self) -> bool {
        &&& self.spec_len() >= 1
        &&& self.spec_parent(0) is None
        &&& self.spec_generation(0) == 0
        &&& self.spec_difference(0) is None
        &&& forall|i: int|
            1 <= i < self.spec_len() ==> (#[trigger] self.spec_parent(i)) is Some
                && 0 <= self.parent_index(i) < i
        &&& forall|i: int|
            1 <= i < self.spec_len() ==> (#[trigger] self.spec_difference(i)) is Some
    }

    /// How many edges lie between node `i` and the root.
    pub open spec fn depth(self, i: int) -> nat
        recommends
            self.wf(),
            0 <= i < self.spec_len(),
        decreases i,
    {
        if self.wf() && 0 < i < self.spec_len() {
            1 + self.depth(self.parent_index(i))
        } else {
            0
        }
    }

    /// Whether node `a` lies on the walk from node `i` up to the root
    /// (inclusive of `i` itself).
    pub open spec fn is_ancestor(self, a: int, i: int) -> bool
        recommends
            self.wf(),
            0 <= i < self.spec_len(),
        decreases i,
    {
        if i == a {
            true
        } else if self.wf() && 0 < i < self.spec_len() {
            self.is_ancestor(a, self.parent_index(i))
        } else {
            false
        }
    }

    /// The backward walk from node `i` to the root: `i`, its parent, and so
    /// on, ending at the root.
    pub open spec fn path_to_root(self, i: int) -> Seq<int>
        recommends
            self.wf(),
            0 <= i < self.spec_len(),
        decreases i,
    {
        if self.wf() && 0 < i < self.spec_len() {
            seq![i] + self.path_to_root(self.parent_index(i))
        } else {
            seq![i]
        }
    }

    /// The patches along the unique path from ancestor `anc` (exclusive) down
    /// to node `i` (inclusive), in root-to-leaf order.
    pub open spec fn diffs_below(self, anc: int, i: int) -> Seq<StepDifference>
        recommends
            self.wf(),
            0 <= anc < self.spec_len(),
            0 <= i < self.spec_len(),
            self.is_ancestor(anc, i),
        decreases i,
    {
        if self.wf() && 0 <= i < self.spec_len() && i != anc && self.is_ancestor(anc, i) {
            self.diffs_below(anc, self.parent_index(i)) + seq![self.spec_difference(i)->Some_0]
        } else {
            Seq::empty()
        }
    }

    /// Whether node `i` has no children at all.
    pub open spec fn is_leaf_spec(self, i: int) -> bool {
        forall|j: int|
            1 <= j < self.spec_len() ==> (#[trigger] self.spec_parent(j)) != Some(i as usize)
    }

    /// A tree holding a single root step with the given label.
    pub fn new(root_name: String) -> (t: StepTree)
        ensures
            t.wf(),
            t.spec_len() == 1,
            t.spec_name(0) == root_name@,
            t.spec_generation(0) == 0,
            t.spec_difference(0) is None,
    {
        let mut nodes: Vec<StepNode> = Vec::new();
        nodes.push(
            StepNode {
                step: Step { name: root_name, parent_difference: None },
                parent: None,
                generation: 0,
            },
        );
        StepTree { nodes }
    }

    /// The slot of the root node.
    pub fn root(&self) -> (r: usize)
        ensures
            r == 0,
    {
        0
    }

    /// How many nodes the tree holds.
    pub fn len(&self) -> (n: usize)
        ensures
            n == self.spec_len(),
    {
        self.nodes.len()
    }

    /// The unique predecessor of a node: one field read, `None` for the root.
    pub fn parent_of(&self, i: usize) -> (r: Option<usize>)
        requires
            i < self.spec_len(),
        ensures
            r == self.spec_parent(i as int),
    {
        self.nodes[i].parent
    }

    /// The generation label of the edge into node `i`; 0 for the root.
    pub fn generation_of(&self, i: usize) -> (r: usize)
        requires
            i < self.spec_len(),
        ensures
            r == self.spec_generation(i as int),
    {
        self.nodes[i].generation
    }

    /// The patch on the edge into node `i`; `None` only for the root.
    pub fn difference_of(&self, i: usize) -> (r: &Option<StepDifference>)
        requires
            i < self.spec_len(),
        ensures
            *r == self.spec_difference(i as int),
    {
        &self.nodes[i].step.parent_difference
    }

    /// The display label of node `i`.
    pub fn name_of(&self, i: usize) -> (r: &String)
        requires
            i < self.spec_len(),
        ensures
            r@ == self.spec_name(i as int),
    {
        &self.nodes[i].step.name
    }

    /// Whether node `i` has no children. True for any slot outside the tree,
    /// which no edge can point at.
    pub fn is_leaf(&self, i: usize) -> (r: bool)
        ensures
            r == self.is_leaf_spec(i as int),
    {
        let n = self.nodes.len();
        let mut j: usize = 1;
        while j < n
            invariant
                1 <= j,
                n == self.spec_len(),
                forall|k: int| 1 <= k < j ==> (#[trigger] self.spec_parent(k)) != Some(i),
            decreases n - j,
        {
            match self.nodes[j].parent {
                Some(p) => {
                    if p == i {
                        proof {
                            assert(self.spec_parent(j as int) == Some(i));
                        }
                        return false;
                    }
                },
                None => {},
            }
            j += 1;
        }
        true
    }

    /// Appends a new step as a child of `parent`, on an edge labeled
    /// `generation`. Returns the new node's index; no node is ever removed,
    /// so every existing slot is left exactly as it was.
    pub fn append_child(
        &mut self,
        parent: usize,
        name: String,
        difference: StepDifference,
        generation: usize,
    ) -> (idx: usize)
        requires
            old(self).wf(),
            parent < old(self).spec_len(),
        ensures
            final(self).wf(),
            idx == old(self).spec_len(),
            final(self).spec_len() == old(self).spec_len() + 1,
            forall|i: int|
                0 <= i < old(self).spec_len() ==> #[trigger] final(self).spec_parent(i)
                    == old(self).spec_parent(i) && final(self).spec_generation(i)
                    == old(self).spec_generation(i) && final(self).spec_difference(i)
                    == old(self).spec_difference(i) && final(self).spec_name(i)
                    == old(self).spec_name(i),
            final(self).spec_parent(idx as int) == Some(parent),
            final(self).spec_generation(idx as int) == generation,
            final(self).spec_difference(idx as int) == Some(difference),
            final(self).spec_name(idx as int) == name@,
    {
        let idx = self.nodes.len();
        self.nodes.push(
            StepNode {
                step: Step { name, parent_difference: Some(difference) },
                parent: Some(parent),
                generation,
            },
        );
        proof {
            let pre = *old(self);
            let post = *self;
            assert forall|i: int| 0 <= i < pre.spec_len() implies #[trigger] post.spec_parent(i)
                == pre.spec_parent(i) && post.spec_generation(i) == pre.spec_generation(i)
                && post.spec_difference(i) == pre.spec_difference(i) && post.spec_name(i)
                == pre.spec_name(i) by {
                assert(post.nodes@[i] == pre.nodes@[i]);
            }
            assert forall|i: int| 1 <= i < post.spec_len() implies (#[trigger] post.spec_parent(i))
                is Some && 0 <= post.parent_index(i) < i by {
                if i < pre.spec_len() {
                    assert(post.spec_parent(i) == pre.spec_parent(i));
                }
            }
            assert forall|i: int| 1 <= i < post.spec_len() implies (#[trigger] post.spec_difference(
                i,
            )) is Some by {
                if i < pre.spec_len() {
                    assert(post.spec_difference(i) == pre.spec_difference(i));
                }
            }
            assert(post.spec_parent(0) == pre.spec_parent(0));
            assert(post.spec_generation(0) == pre.spec_generation(0));
            assert(post.spec_difference(0) == pre.spec_difference(0));
        }
        idx
    }

    /// The children of node `i`, in increasing index order.
    pub fn children_of(&self, i: usize) -> (r: Vec<usize>)
        ensures
            forall|k: int|
                0 <= k < r@.len() ==> 1 <= #[trigger] r@[k] < self.spec_len()
                    && self.spec_parent(r@[k] as int) == Some(i),
            forall|j: int|
                1 <= j < self.spec_len() && #[trigger] self.spec_parent(j) == Some(i)
                    ==> r@.contains(j as usize),
            forall|k1: int, k2: int| 0 <= k1 < k2 < r@.len() ==> r@[k1] < r@[k2],
    {
        let n = self.nodes.len();
        let mut r: Vec<usize> = Vec::new();
        let mut j: usize = 1;
        while j < n
            invariant
                1 <= j,
                n == self.spec_len(),
                forall|k: int|
                    0 <= k < r@.len() ==> 1 <= #[trigger] r@[k] < j && r@[k] < n
                        && self.spec_parent(r@[k] as int) == Some(i),
                forall|jj: int|
                    1 <= jj < j && #[trigger] self.spec_parent(jj) == Some(i)
                        ==> r@.contains(jj as usize),
                forall|k1: int, k2: int| 0 <= k1 < k2 < r@.len() ==> r@[k1] < r@[k2],
            decreases n - j,
        {
            let ghost r_pre = r@;
            match self.nodes[j].parent {
                Some(p) => {
                    if p == i {
                        r.push(j);
                    }
                },
                None => {},
            }
            proof {
                assert forall|jj: int|
                    1 <= jj < j + 1 && #[trigger] self.spec_parent(jj) == Some(i)
                    implies r@.contains(jj as usize) by {
                    if jj < j {
                        assert(r_pre.contains(jj as usize));
                        let k = choose|k: int| 0 <= k < r_pre.len() && r_pre[k] == jj as usize;
                        assert(r@[k] == jj as usize);
                    } else {
                        assert(r@[r@.len() - 1] == jj as usize);
                    }
                }
            }
            j += 1;
        }
        r
    }

    /// Walks from node `i` to the root and counts the steps taken: the walk
    /// always terminates, after exactly `depth(i)` moves to a parent.
    pub fn depth_of(&self, i: usize) -> (d: usize)
        requires
            self.wf(),
            i < self.spec_len(),
        ensures
            d == self.depth(i as int),
    {
        proof {
            lemma_depth_le_index(*self, i as int);
        }
        let mut curr = i;
        let mut d: usize = 0;
        while curr != 0
            invariant
                self.wf(),
                curr < self.spec_len(),
                d + self.depth(curr as int) == self.depth(i as int),
                self.depth(i as int) <= i,
            decreases curr,
        {
            curr = self.parent_of(curr).unwrap();
            d += 1;
        }
        d
    }
}

/// A tree never holds more nodes than an index can address.
pub proof fn lemma_len_bound(t: StepTree)
    ensures
        t.spec_len() <= usize::MAX,
{
    vstd::std_specs::vec::axiom_spec_len(&t.nodes);
}

/// A node's depth never exceeds its index: parents are always recorded
/// before their children.
pub proof fn lemma_depth_le_index(t: StepTree, i: int)
    requires
        t.wf(),
        0 <= i < t.spec_len(),
    ensures
        t.depth(i) <= i,
    decreases i,
{
    if i > 0 {
        lemma_depth_le_index(t, t.parent_index(i));
    }
}

/// The root is an ancestor of every node.
pub proof fn lemma_root_is_ancestor(t: StepTree, i: int)
    requires
        t.wf(),
        0 <= i < t.spec_len(),
    ensures
        t.is_ancestor(0, i),
    decreases i,
{
    if i > 0 {
        lemma_root_is_ancestor(t, t.parent_index(i));
    }
}

/// An ancestor was recorded no later than its descendant.
pub proof fn lemma_ancestor_le(t: StepTree, a: int, i: int)
    requires
        t.wf(),
        0 <= i < t.spec_len(),
        t.is_ancestor(a, i),
    ensures
        0 <= a <= i,
    decreases i,
{
    if i != a {
        lemma_ancestor_le(t, a, t.parent_index(i));
    }
}

/// Ancestry is transitive.
pub proof fn lemma_ancestor_transitive(t: StepTree, x: int, y: int, z: int)
    requires
        t.wf(),
        0 <= z < t.spec_len(),
        t.is_ancestor(x, y),
        t.is_ancestor(y, z),
    ensures
        t.is_ancestor(x, z),
    decreases z,
{
    if z != y {
        lemma_ancestor_transitive(t, x, y, t.parent_index(z));
    }
}

/// A strict ancestor lies strictly closer to the root.
pub proof fn lemma_ancestor_depth(t: StepTree, a: int, i: int)
    requires
        t.wf(),
        0 <= i < t.spec_len(),
        t.is_ancestor(a, i),
        a != i,
    ensures
        t.depth(a) < t.depth(i),
    decreases i,
{
    if t.parent_index(i) != a {
        lemma_ancestor_depth(t, a, t.parent_index(i));
    }
}

/// Two nodes that are ancestors of each other are the same node.
pub proof fn lemma_ancestor_antisymmetric(t: StepTree, a: int, b: int)
    requires
        t.wf(),
        0 <= a < t.spec_len(),
        0 <= b < t.spec_len(),
        t.is_ancestor(a, b),
        t.is_ancestor(b, a),
    ensures
        a == b,
{
    if a != b {
        lemma_ancestor_depth(t, a, b);
        lemma_ancestor_depth(t, b, a);
    }
}

/// The ancestors of one node form a chain: of any two, one is an ancestor of
/// the other.
pub proof fn lemma_ancestors_form_chain(t: StepTree, x: int, y: int, i: int)
    requires
        t.wf(),
        0 <= i < t.spec_len(),
        t.is_ancestor(x, i),
        t.is_ancestor(y, i),
    ensures
        t.is_ancestor(x, y) || t.is_ancestor(y, x),
    decreases i,
{
    if i != x && i != y {
        lemma_ancestors_form_chain(t, x, y, t.parent_index(i));
    }
}

/// The backward walk from a node to the root: it starts at the node, ends at
/// the root, takes exactly `depth` moves to a parent, and visits exactly the
/// node's ancestors.
pub proof fn lemma_backward_walk(t: StepTree, i: int)
    requires
        t.wf(),
        0 <= i < t.spec_len(),
    ensures
        t.path_to_root(i).len() == t.depth(i) + 1,
        t.path_to_root(i)[0] == i,
        t.path_to_root(i).last() == 0,
        forall|x: int| #[trigger]
            t.path_to_root(i).contains(x) <==> (0 <= x < t.spec_len() && t.is_ancestor(x, i)),
    decreases i,
{
    if i > 0 {
        let p = t.parent_index(i);
        lemma_backward_walk(t, p);
        let path = t.path_to_root(i);
        let tail = t.path_to_root(p);
        assert(path == seq![i] + tail);
        assert(path.last() == 0);
        assert forall|x: int| #[trigger] path.contains(x) implies (0 <= x < t.spec_len()
            && t.is_ancestor(x, i)) by {
            if path.contains(x) {
                let k = choose|k: int| 0 <= k < path.len() && path[k] == x;
                if k == 0 {
                    assert(x == i);
                } else {
                    assert(tail[k - 1] == x);
                    assert(tail.contains(x));
                }
            }
        }
        assert forall|x: int| (0 <= x < t.spec_len() && t.is_ancestor(x, i)) implies #[trigger]
            path.contains(x) by {
            if x == i {
                assert(path[0] == x);
            } else {
                assert(t.is_ancestor(x, p));
                assert(tail.contains(x));
                let k = choose|k: int| 0 <= k < tail.len() && tail[k] == x;
                assert(path[k + 1] == x);
            }
        }
    } else {
        let path = t.path_to_root(0);
        assert(path == seq![0int]);
        assert forall|x: int| #[trigger] path.contains(x) implies (0 <= x < t.spec_len()
            && t.is_ancestor(x, 0)) by {
            if path.contains(x) {
                assert(x == 0);
            }
        }
        assert forall|x: int| (0 <= x < t.spec_len() && t.is_ancestor(x, 0)) implies #[trigger]
            path.contains(x) by {
            assert(x == 0);
            assert(path[0] == 0);
        }
    }
}

/// Splitting the patches below an ancestor at an intermediate node on the
/// same chain: the run from `anc` down to `i` is the run down to `mid`
/// followed by the run from `mid` down to `i`.
pub proof fn lemma_diffs_below_split(t: StepTree, anc: int, mid: int, i: int)
    requires
        t.wf(),
        0 <= anc < t.spec_len(),
        0 <= mid < t.spec_len(),
        0 <= i < t.spec_len(),
        t.is_ancestor(anc, mid),
        t.is_ancestor(mid, i),
    ensures
        t.diffs_below(anc, i) == t.diffs_below(anc, mid) + t.diffs_below(mid, i),
    decreases i,
{
    lemma_ancestor_transitive(t, anc, mid, i);
    if i == mid {
        assert(t.diffs_below(mid, i) == Seq::<StepDifference>::empty());
        assert(t.diffs_below(anc, i) == t.diffs_below(anc, mid) + t.diffs_below(mid, i));
    } else {
        let p = t.parent_index(i);
        lemma_ancestor_le(t, mid, i);
        if i == anc {
            // then `mid` sits between `anc` and itself: impossible unless all
            // three coincide, and `i != mid` rules that out
            lemma_ancestor_antisymmetric(t, anc, mid);
        }
        assert(t.is_ancestor(mid, p));
        lemma_diffs_below_split(t, anc, mid, p);
        assert(t.diffs_below(anc, i) == t.diffs_below(anc, p) + seq![
            t.spec_difference(i)->Some_0,
        ]);
        assert(t.diffs_below(mid, i) == t.diffs_below(mid, p) + seq![
            t.spec_difference(i)->Some_0,
        ]);
        assert((t.diffs_below(anc, mid) + t.diffs_below(mid, p)) + seq![
            t.spec_difference(i)->Some_0,
        ] =~= t.diffs_below(anc, mid) + (t.diffs_below(mid, p) + seq![
            t.spec_difference(i)->Some_0,
        ]));
    }
}

} // verus!
