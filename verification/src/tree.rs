//! The document tree that the builder walks.
//!
//! The XML collaborator is out of scope here: a parsed tree is assumed, and
//! this crate holds what the walk reads of it as plain values. Nodes live in
//! an arena, bottom-up: every child index is strictly below its parent's, so
//! node `0` comes first and the root comes last. The arena index of a node is
//! its stable identity, the key of the node index of a built DNM.

use vstd::prelude::*;

verus! {

/// One node of the document tree.
pub enum Node {
    /// A text node carrying its character content.
    Text { content: String },
    /// An element with a tag name, the raw `class` attribute (possibly
    /// empty), and the arena indices of its children, in document order.
    Element { name: String, class_attr: String, children: Vec<usize> },
}

/// A document: an arena of nodes in bottom-up order.
pub struct Document {
    /// All nodes; children come before their parent.
    pub nodes: Vec<Node>,
}

impl Node {
    /// The children indices of this node (empty for text nodes).
    pub open spec fn spec_children(self) -> Seq<usize> {
        match self {
            Node::Text { .. } => Seq::empty(),
            Node::Element { children, .. } => children@,
        }
    }
}

impl Document {
    /// Node `c` is listed as a child of node `p`.
    pub open spec fn is_child_of(self, p: usize, c: usize) -> bool {
        &&& p < self.nodes.len()
        &&& exists|j: int|
            0 <= j < self.nodes[p as int].spec_children().len()
                && self.nodes[p as int].spec_children()[j] == c
    }

    /// Well-formedness of the arena: every child index is strictly below its
    /// parent's (so the structure is acyclic and bottom-up), and no node is
    /// listed as a child twice, so the arena is a forest.
    pub open spec fn wf(self) -> bool {
        &&& forall|p: int, j: int|
            0 <= p < self.nodes.len() && 0 <= j < self.nodes[p].spec_children().len()
                ==> (#[trigger] self.nodes[p].spec_children()[j]) < p
        &&& forall|p1: int, j1: int, p2: int, j2: int|
            0 <= p1 < self.nodes.len() && 0 <= j1 < self.nodes[p1].spec_children().len() && 0 <= p2
                < self.nodes.len() && 0 <= j2 < self.nodes[p2].spec_children().len() && !(p1 == p2
                && j1 == j2) ==> #[trigger] self.nodes[p1].spec_children()[j1]
                != #[trigger] self.nodes[p2].spec_children()[j2]
    }

    /// Node `n` lies in the subtree rooted at `r` (including `r` itself).
    pub open spec fn in_subtree(self, r: usize, n: usize) -> bool
        decreases r,
        when self.wf() && r < self.nodes.len()
    {
        ||| n == r
        ||| exists|j: int|
            0 <= j < self.nodes[r as int].spec_children().len() && self.in_subtree(
                #[trigger] self.nodes[r as int].spec_children()[j],
                n,
            )
    }

    /// Every member of a subtree has an index no larger than the subtree's
    /// root: a consequence of the bottom-up ordering.
    pub proof fn lemma_subtree_le(self, r: usize, n: usize)
        requires
            self.wf(),
            r < self.nodes.len(),
            self.in_subtree(r, n),
        ensures
            n <= r,
        decreases r,
    {
        if n != r {
            let j = choose|j: int|
                0 <= j < self.nodes[r as int].spec_children().len() && self.in_subtree(
                    #[trigger] self.nodes[r as int].spec_children()[j],
                    n,
                );
            self.lemma_subtree_le(self.nodes[r as int].spec_children()[j], n);
        }
    }

    /// A node of a subtree other than its root is listed as a child of some
    /// member of the subtree.
    pub proof fn lemma_subtree_parent(self, r: usize, n: usize)
        requires
            self.wf(),
            r < self.nodes.len(),
            self.in_subtree(r, n),
            n != r,
        ensures
            exists|x: usize| self.in_subtree(r, x) && #[trigger] self.is_child_of(x, n),
        decreases r,
    {
        let j = choose|j: int|
            0 <= j < self.nodes[r as int].spec_children().len() && self.in_subtree(
                #[trigger] self.nodes[r as int].spec_children()[j],
                n,
            );
        let c = self.nodes[r as int].spec_children()[j];
        if n == c {
            assert(self.is_child_of(r, n));
            assert(self.in_subtree(r, r) && self.is_child_of(r, n));
        } else {
            self.lemma_subtree_parent(c, n);
            let x = choose|x: usize| self.in_subtree(c, x) && #[trigger] self.is_child_of(x, n);
            self.lemma_subtree_grow(r, c, x);
            assert(self.in_subtree(r, x) && self.is_child_of(x, n));
        }
    }

    /// Subtree membership is transitive along a child edge.
    pub proof fn lemma_subtree_grow(self, r: usize, c: usize, n: usize)
        requires
            self.wf(),
            r < self.nodes.len(),
            exists|j: int|
                0 <= j < self.nodes[r as int].spec_children().len()
                    && #[trigger] self.nodes[r as int].spec_children()[j] == c,
            self.in_subtree(c, n),
        ensures
            self.in_subtree(r, n),
    {
        let j = choose|j: int|
            0 <= j < self.nodes[r as int].spec_children().len()
                && #[trigger] self.nodes[r as int].spec_children()[j] == c;
        assert(0 <= j < self.nodes[r as int].spec_children().len() && self.in_subtree(
            self.nodes[r as int].spec_children()[j],
            n,
        ));
    }

    /// Two subtrees meet only if one root lies in the other's subtree.
    pub proof fn lemma_subtree_overlap(self, a: usize, b: usize, k: usize)
        requires
            self.wf(),
            a < self.nodes.len(),
            b < self.nodes.len(),
            self.in_subtree(a, k),
            self.in_subtree(b, k),
        ensures
            self.in_subtree(a, b) || self.in_subtree(b, a),
        decreases a + b,
    {
        if k == a {
            // a lies in subtree(b)
        } else if k == b {
            // b lies in subtree(a)
        } else {
            let ja = choose|j: int|
                0 <= j < self.nodes[a as int].spec_children().len() && self.in_subtree(
                    #[trigger] self.nodes[a as int].spec_children()[j],
                    k,
                );
            let ca = self.nodes[a as int].spec_children()[ja];
            let jb = choose|j: int|
                0 <= j < self.nodes[b as int].spec_children().len() && self.in_subtree(
                    #[trigger] self.nodes[b as int].spec_children()[j],
                    k,
                );
            let cb = self.nodes[b as int].spec_children()[jb];
            self.lemma_subtree_overlap(ca, cb, k);
            if ca == cb {
                // the same node is a child of both a and b; by wf that forces a == b
                assert(a == b);
            } else if self.in_subtree(ca, cb) {
                // cb sits strictly inside subtree(ca); its unique parent lies there too
                self.lemma_subtree_parent(ca, cb);
                let x = choose|x: usize|
                    self.in_subtree(ca, x) && #[trigger] self.is_child_of(x, cb);
                // cb is a child of both x and b, so x == b and b lies in subtree(a)
                assert(x == b);
                self.lemma_subtree_grow(a, ca, b);
            } else {
                self.lemma_subtree_parent(cb, ca);
                let x = choose|x: usize|
                    self.in_subtree(cb, x) && #[trigger] self.is_child_of(x, ca);
                assert(x == a);
                self.lemma_subtree_grow(b, cb, a);
            }
        }
    }

    /// Subtrees of two distinct children of the same parent never meet.
    pub proof fn lemma_sibling_disjoint(self, p: usize, j1: int, j2: int, k: usize)
        requires
            self.wf(),
            p < self.nodes.len(),
            0 <= j1 < self.nodes[p as int].spec_children().len(),
            0 <= j2 < self.nodes[p as int].spec_children().len(),
            j1 != j2,
            self.in_subtree(self.nodes[p as int].spec_children()[j1], k),
        ensures
            !self.in_subtree(self.nodes[p as int].spec_children()[j2], k),
    {
        let c1 = self.nodes[p as int].spec_children()[j1];
        let c2 = self.nodes[p as int].spec_children()[j2];
        if self.in_subtree(c2, k) {
            self.lemma_subtree_overlap(c1, c2, k);
            if c1 == c2 {
                // the same node listed as a child twice contradicts wf
                assert(false);
            } else if self.in_subtree(c1, c2) {
                self.lemma_subtree_parent(c1, c2);
                let x = choose|x: usize|
                    self.in_subtree(c1, x) && #[trigger] self.is_child_of(x, c2);
                // c2 is a child of both x and p, so x == p; but p would then
                // sit inside the subtree of its own child c1
                assert(x == p);
                self.lemma_subtree_le(c1, p);
                assert(false);
            } else {
                self.lemma_subtree_parent(c2, c1);
                let x = choose|x: usize|
                    self.in_subtree(c2, x) && #[trigger] self.is_child_of(x, c1);
                assert(x == p);
                self.lemma_subtree_le(c2, p);
                assert(false);
            }
        }
    }
}

} // verus!
