//! Ancestors and descendants in the arena, and what the invariants say
//! about them.

use crate::alias::is_prefix;
use crate::trie::Trie;
use vstd::prelude::*;

verus! {

impl Trie {
    /// A measure that grows on every step from a parent to its child: twice
    /// the length of the value, plus one for a leaf.
    pub open spec fn rank(&self, i: int) -> int {
        2 * self.value_of(i).len() + if self.is_leaf(i) {
            1int
        } else {
            0int
        }
    }

    /// `a` is `b` itself or lies on the way from `b` up to the root.
    pub open spec fn is_ancestor(&self, a: int, b: int) -> bool
        decreases self.rank(b),
        when self.wf() && self.has_node(b)
    {
        a == b || (b != 0 && {
            proof {
                self.lemma_parent_rank(b);
            }
            self.is_ancestor(a, self.parent_of(b))
        })
    }

    /// The child of `c` through which the way from `c` down to `x` leads.
    pub open spec fn child_toward(&self, c: int, x: int) -> int
        decreases self.rank(x),
        when self.wf() && self.has_node(x)
    {
        if x == 0 || self.parent_of(x) == c {
            x
        } else {
            proof {
                self.lemma_parent_rank(x);
            }
            self.child_toward(c, self.parent_of(x))
        }
    }

    /// A node other than the root has a parent of smaller rank.
    pub proof fn lemma_parent_rank(&self, i: int)
        requires
            self.wf(),
            self.has_node(i),
            i != 0,
        ensures
            self.has_node(self.parent_of(i)),
            !self.is_leaf(self.parent_of(i)),
            self.rank(self.parent_of(i)) < self.rank(i),
            self.parent_of(i) != i,
    {
        assert(self.node_wf(i));
    }

    /// The position at which a node stands in the child list of its parent.
    pub proof fn lemma_position_in_parent(&self, i: int) -> (k: int)
        requires
            self.wf(),
            self.has_node(i),
            i != 0,
        ensures
            0 <= k < self.children_of(self.parent_of(i)).len(),
            self.children_of(self.parent_of(i))[k] == i,
    {
        assert(self.node_wf(i));
        let kids = self.children_of(self.parent_of(i));
        choose|k: int| 0 <= k < kids.len() && kids[k] == i as usize
    }

    /// Two different positions in a child list hold children that part ways.
    pub proof fn lemma_siblings(&self, p: int, k1: int, k2: int)
        requires
            self.wf(),
            self.has_node(p),
            0 <= k1 < self.children_of(p).len(),
            0 <= k2 < self.children_of(p).len(),
            k1 != k2,
        ensures
            self.siblings_wf(p, k1, k2),
            self.children_of(p)[k1] != self.children_of(p)[k2],
    {
        if k1 < k2 {
            assert(self.siblings_wf(p, k1, k2));
        } else {
            assert(self.siblings_wf(p, k2, k1));
        }
        assert(self.child_wf(p, k1));
        assert(self.child_wf(p, k2));
        assert(self.node_wf(self.children_of(p)[k1] as int));
    }

    /// An ancestor is a node, and its value is a prefix of the descendant's.
    pub proof fn lemma_ancestor_prefix(&self, a: int, b: int)
        requires
            self.wf(),
            self.has_node(b),
            self.is_ancestor(a, b),
        ensures
            self.has_node(a),
            is_prefix(self.value_of(a), self.value_of(b)),
            self.rank(a) <= self.rank(b),
        decreases self.rank(b),
    {
        if a != b {
            self.lemma_parent_rank(b);
            self.lemma_ancestor_prefix(a, self.parent_of(b));
            assert(self.node_wf(b));
        }
    }

    /// Every node descends from the root.
    pub proof fn lemma_root_is_ancestor(&self, x: int)
        requires
            self.wf(),
            self.has_node(x),
        ensures
            self.is_ancestor(0, x),
        decreases self.rank(x),
    {
        if x != 0 {
            self.lemma_parent_rank(x);
            self.lemma_root_is_ancestor(self.parent_of(x));
        }
    }

    /// Below a node, the way to a proper descendant starts at one of its
    /// children.
    pub proof fn lemma_child_toward(&self, c: int, x: int)
        requires
            self.wf(),
            self.has_node(x),
            self.is_ancestor(c, x),
            c != x,
        ensures
            self.has_node(self.child_toward(c, x)),
            self.child_toward(c, x) != 0,
            self.parent_of(self.child_toward(c, x)) == c,
            self.is_ancestor(self.child_toward(c, x), x),
        decreases self.rank(x),
    {
        if self.parent_of(x) != c {
            self.lemma_parent_rank(x);
            self.lemma_child_toward(c, self.parent_of(x));
        }
    }

    /// A leaf has no descendant but itself.
    pub proof fn lemma_leaf_is_alone(&self, c: int, x: int)
        requires
            self.wf(),
            self.has_node(x),
            self.is_ancestor(c, x),
            self.is_leaf(c),
        ensures
            x == c,
    {
        if c != x {
            self.lemma_child_toward(c, x);
            self.lemma_parent_rank(self.child_toward(c, x));
        }
    }

    /// Where a descendant `x` of `c` is longer than `c`, the child of `c`
    /// on the way to `x` is longer than `c` too, and has the byte of `x`
    /// right after the value of `c`.
    pub proof fn lemma_descend(&self, c: int, x: int) -> (k: int)
        requires
            self.wf(),
            self.has_node(x),
            self.is_ancestor(c, x),
            self.value_of(c).len() < self.value_of(x).len(),
        ensures
            0 <= k < self.children_of(c).len(),
            self.children_of(c)[k] == self.child_toward(c, x),
            self.has_node(self.child_toward(c, x)),
            self.is_ancestor(self.child_toward(c, x), x),
            self.value_of(c).len() < self.value_of(self.child_toward(c, x)).len(),
            self.value_of(self.child_toward(c, x))[self.value_of(c).len() as int] == self.value_of(
                x,
            )[self.value_of(c).len() as int],
    {
        let e = self.child_toward(c, x);
        self.lemma_child_toward(c, x);
        self.lemma_ancestor_prefix(e, x);
        assert(self.node_wf(e));
        if self.value_of(e).len() == self.value_of(c).len() {
            self.lemma_leaf_is_alone(e, x);
        }
        self.lemma_position_in_parent(e)
    }
}

} // verus!
