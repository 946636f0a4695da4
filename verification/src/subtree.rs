//! What a traversal visits: the descendants of its start, and nothing else.

use crate::alias::agree;
use crate::trie::Trie;
use vstd::prelude::*;

verus! {

/// The node `x` is among `items`.
pub open spec fn visits(items: Seq<(int, int)>, x: int) -> bool {
    exists|j: int| 0 <= j < items.len() && (#[trigger] items[j]).0 == x
}

impl Trie {
    /// A descendant of a node is a descendant of the parent of that node.
    pub proof fn lemma_ancestor_of_parent(&self, a: int, x: int)
        requires
            self.wf(),
            self.has_node(x),
            self.is_ancestor(a, x),
            a != 0,
        ensures
            self.is_ancestor(self.parent_of(a), x),
        decreases self.rank(x),
    {
        self.lemma_ancestor_prefix(a, x);
        self.lemma_parent_rank(a);
        if a == x {
            assert(self.is_ancestor(self.parent_of(x), self.parent_of(x)));
        } else {
            self.lemma_parent_rank(x);
            self.lemma_ancestor_of_parent(a, self.parent_of(x));
        }
    }

    /// A traversal from `c` visits descendants of `c` only.
    pub proof fn lemma_visited_is_descendant(&self, c: int, depth: int, j: int)
        requires
            self.wf(),
            self.has_node(c),
            0 <= j < self.preorder(c, depth).len(),
        ensures
            self.has_node(self.preorder(c, depth)[j].0),
            self.is_ancestor(c, self.preorder(c, depth)[j].0),
        decreases self.slack(c), self.children_of(c).len() + 1,
    {
        if j > 0 {
            self.lemma_forest_is_below(c, 0, depth + 1, j - 1);
        }
    }

    /// The subtrees of the children of `p` hold proper descendants of `p`
    /// only.
    pub proof fn lemma_forest_is_below(&self, p: int, from: int, depth: int, j: int)
        requires
            self.wf(),
            self.has_node(p),
            0 <= from,
            0 <= j < self.forest(p, from, depth).len(),
        ensures
            self.has_node(self.forest(p, from, depth)[j].0),
            self.is_ancestor(p, self.forest(p, from, depth)[j].0),
            self.forest(p, from, depth)[j].0 != p,
        decreases self.slack(p), self.children_of(p).len() - from,
    {
        if from < self.children_of(p).len() {
            let c = self.children_of(p)[from] as int;
            self.lemma_child_slack(p, from);
            assert(self.child_wf(p, from));
            let first = self.preorder(c, depth);
            if j < first.len() {
                self.lemma_visited_is_descendant(c, depth, j);
                let x = first[j].0;
                self.lemma_ancestor_of_parent(c, x);
                self.lemma_ancestor_prefix(c, x);
                self.lemma_parent_rank(c);
            } else {
                self.lemma_forest_is_below(p, from + 1, depth, j - first.len());
            }
        }
    }

    /// The subtrees of the children of `p` from `from` on hold the subtree
    /// of each of these children.
    pub proof fn lemma_forest_holds_subtree(&self, p: int, from: int, k: int, depth: int, x: int)
        requires
            self.wf(),
            self.has_node(p),
            0 <= from <= k < self.children_of(p).len(),
            visits(self.preorder(self.children_of(p)[k] as int, depth), x),
        ensures
            visits(self.forest(p, from, depth), x),
        decreases k - from,
    {
        self.lemma_child_slack(p, from);
        self.lemma_child_slack(p, k);
        let first = self.preorder(self.children_of(p)[from] as int, depth);
        let rest = self.forest(p, from + 1, depth);
        let all = self.forest(p, from, depth);
        assert(all == first + rest);
        if from == k {
            let j = choose|j: int| 0 <= j < first.len() && (#[trigger] first[j]).0 == x;
            assert(all[j] == first[j]);
        } else {
            self.lemma_forest_holds_subtree(p, from + 1, k, depth, x);
            let j = choose|j: int| 0 <= j < rest.len() && (#[trigger] rest[j]).0 == x;
            assert(all[first.len() + j] == rest[j]);
        }
    }

    /// A traversal from `c` visits every descendant of `c`.
    pub proof fn lemma_descendant_is_visited(&self, c: int, depth: int, x: int)
        requires
            self.wf(),
            self.has_node(x),
            self.is_ancestor(c, x),
        ensures
            visits(self.preorder(c, depth), x),
        decreases self.slack(c),
    {
        self.lemma_ancestor_prefix(c, x);
        let all = self.preorder(c, depth);
        assert(all == seq![(c, depth)] + self.forest(c, 0, depth + 1));
        if x == c {
            assert(all[0].0 == x);
        } else {
            self.lemma_child_toward(c, x);
            let e = self.child_toward(c, x);
            let k = self.lemma_position_in_parent(e);
            self.lemma_child_slack(c, k);
            self.lemma_descendant_is_visited(e, depth + 1, x);
            self.lemma_forest_holds_subtree(c, 0, k, depth + 1, x);
            let below = self.forest(c, 0, depth + 1);
            let j = choose|j: int| 0 <= j < below.len() && (#[trigger] below[j]).0 == x;
            assert(all[j + 1] == below[j]);
        }
    }

    /// The leaves among `items` are the nodes among `items` that are leaves.
    pub proof fn lemma_leaves_among(&self, items: Seq<(int, int)>, x: int)
        ensures
            self.leaves_among(items).contains(x) <==> visits(items, x) && self.is_leaf(x),
        decreases items.len(),
    {
        if items.len() > 0 {
            let init = items.drop_last();
            let last = items.last();
            self.lemma_leaves_among(init, x);
            let found = self.leaves_among(items);
            let before = self.leaves_among(init);
            if visits(items, x) && self.is_leaf(x) {
                let j = choose|j: int| 0 <= j < items.len() && (#[trigger] items[j]).0 == x;
                if j < items.len() - 1 {
                    assert(init[j] == items[j]);
                    let i = choose|i: int| 0 <= i < before.len() && before[i] == x;
                    assert(found[i] == x);
                } else {
                    assert(found[found.len() - 1] == x);
                }
            }
            if found.contains(x) {
                let i = choose|i: int| 0 <= i < found.len() && found[i] == x;
                if self.is_leaf(last.0) && i == found.len() - 1 {
                    assert(items[items.len() - 1].0 == x);
                } else {
                    assert(before[i] == x);
                    let j = choose|j: int| 0 <= j < init.len() && (#[trigger] init[j]).0 == x;
                    assert(items[j] == init[j]);
                }
            }
        }
    }

    /// The leaves below the longest-prefix match `(m, l)` of `input` are
    /// the leaves whose aliases begin with the first `l` bytes of `input`:
    /// all of them, and no others.
    pub proof fn lemma_leaves_below_match(&self, input: Seq<u8>, m: int, l: int, x: int)
        requires
            self.wf(),
            self.is_max_match(input, m, l),
        ensures
            self.leaves_below(m).contains(x) <==> self.has_node(x) && self.is_leaf(x) && agree(
                self.value_of(x),
                input,
                l,
            ),
    {
        let all = self.preorder(m, 0);
        self.lemma_leaves_among(all, x);
        if visits(all, x) {
            let j = choose|j: int| 0 <= j < all.len() && (#[trigger] all[j]).0 == x;
            self.lemma_visited_is_descendant(m, 0, j);
            self.lemma_ancestor_prefix(m, x);
            assert(agree(self.value_of(x), input, l));
        }
        if self.has_node(x) && agree(self.value_of(x), input, l) {
            assert(self.is_ancestor(m, x));
            self.lemma_descendant_is_visited(m, 0, x);
        }
    }
    /// The way from `p` down to a descendant of a child of `p` leads
    /// through that child.
    pub proof fn lemma_child_toward_is(&self, p: int, e: int, x: int)
        requires
            self.wf(),
            self.has_node(x),
            self.has_node(e),
            e != 0,
            self.parent_of(e) == p,
            self.is_ancestor(e, x),
        ensures
            self.child_toward(p, x) == e,
            x != p,
        decreases self.rank(x),
    {
        self.lemma_parent_rank(e);
        self.lemma_ancestor_prefix(e, x);
        if x != e {
            self.lemma_parent_rank(x);
            self.lemma_child_toward_is(p, e, self.parent_of(x));
        }
    }

    /// Every node in the subtrees of the children of `p` from `from` on
    /// lies below one of these children.
    pub proof fn lemma_forest_item_child(&self, p: int, from: int, depth: int, j: int) -> (k: int)
        requires
            self.wf(),
            self.has_node(p),
            0 <= from,
            0 <= j < self.forest(p, from, depth).len(),
        ensures
            from <= k < self.children_of(p).len(),
            self.child_toward(p, self.forest(p, from, depth)[j].0) == self.children_of(p)[k],
        decreases self.children_of(p).len() - from,
    {
        let c = self.children_of(p)[from] as int;
        self.lemma_child_slack(p, from);
        assert(self.child_wf(p, from));
        let first = self.preorder(c, depth);
        if j < first.len() {
            self.lemma_visited_is_descendant(c, depth, j);
            self.lemma_child_toward_is(p, c, first[j].0);
            from
        } else {
            self.lemma_forest_item_child(p, from + 1, depth, j - first.len())
        }
    }

    /// A traversal visits no node twice.
    pub proof fn lemma_visited_once(&self, c: int, depth: int, i: int, j: int)
        requires
            self.wf(),
            self.has_node(c),
            0 <= i < j < self.preorder(c, depth).len(),
        ensures
            self.preorder(c, depth)[i].0 != self.preorder(c, depth)[j].0,
        decreases self.slack(c), self.children_of(c).len() + 1,
    {
        if i == 0 {
            self.lemma_forest_is_below(c, 0, depth + 1, j - 1);
        } else {
            self.lemma_forest_once(c, 0, depth + 1, i - 1, j - 1);
        }
    }

    /// The subtrees of the children of `p` hold no node twice.
    pub proof fn lemma_forest_once(&self, p: int, from: int, depth: int, i: int, j: int)
        requires
            self.wf(),
            self.has_node(p),
            0 <= from,
            0 <= i < j < self.forest(p, from, depth).len(),
        ensures
            self.forest(p, from, depth)[i].0 != self.forest(p, from, depth)[j].0,
        decreases self.slack(p), self.children_of(p).len() - from,
    {
        let c = self.children_of(p)[from] as int;
        self.lemma_child_slack(p, from);
        assert(self.child_wf(p, from));
        let first = self.preorder(c, depth);
        if j < first.len() {
            self.lemma_visited_once(c, depth, i, j);
        } else if i >= first.len() {
            self.lemma_forest_once(p, from + 1, depth, i - first.len(), j - first.len());
        } else {
            self.lemma_visited_is_descendant(c, depth, i);
            self.lemma_child_toward_is(p, c, first[i].0);
            let k = self.lemma_forest_item_child(p, from + 1, depth, j - first.len());
            self.lemma_siblings(p, from, k);
        }
    }

    /// The leaves among items that name no node twice name no leaf twice,
    /// and stand in the order of the items.
    pub proof fn lemma_leaves_once(&self, items: Seq<(int, int)>, i: int, j: int)
        requires
            forall|a: int, b: int|
                0 <= a < b < items.len() ==> (#[trigger] items[a]).0 != (#[trigger] items[b]).0,
            0 <= i < j < self.leaves_among(items).len(),
        ensures
            self.leaves_among(items)[i] != self.leaves_among(items)[j],
        decreases items.len(),
    {
        let init = items.drop_last();
        let last = items.last();
        let before = self.leaves_among(init);
        assert forall|a: int, b: int| 0 <= a < b < init.len() implies (#[trigger] init[a]).0 != (
        #[trigger] init[b]).0 by {
            assert(init[a] == items[a] && init[b] == items[b]);
        }
        if self.is_leaf(last.0) && j == before.len() {
            self.lemma_leaves_among(init, before[i]);
            assert(before.contains(before[i]));
            let a = choose|a: int| 0 <= a < init.len() && (#[trigger] init[a]).0 == before[i];
            assert(items[a] == init[a]);
            assert(items[a].0 != items[items.len() - 1].0);
        } else {
            self.lemma_leaves_once(init, i, j);
        }
    }

    /// No leaf is listed twice among the leaves below a node.
    pub proof fn lemma_leaves_below_once(&self, node: int, i: int, j: int)
        requires
            self.wf(),
            self.has_node(node),
            0 <= i < j < self.leaves_below(node).len(),
        ensures
            self.leaves_below(node)[i] != self.leaves_below(node)[j],
    {
        let all = self.preorder(node, 0);
        assert forall|a: int, b: int| 0 <= a < b < all.len() implies (#[trigger] all[a]).0 != (
        #[trigger] all[b]).0 by {
            self.lemma_visited_once(node, 0, a, b);
        }
        self.lemma_leaves_once(all, i, j);
    }
}

} // verus!
