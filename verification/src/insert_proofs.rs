//! Why an insertion keeps the invariants of the arena and adds one entry
//! to its view.

use crate::alias::{agree, is_ascii_bytes};
use crate::trie::{first_position, Trie};
use vstd::prelude::*;

verus! {

impl Trie {
    /// Where the match of `key` ends at a branch point, a leaf that stores
    /// `key` is a child of that branch point, and as long as its value.
    pub proof fn lemma_stored_below_branch(&self, key: Seq<u8>, m: int, l: int, x: int) -> (k: int)
        requires
            self.wf(),
            self.is_max_match(key, m, l),
            self.ends_at_branch(m, l),
            self.stores(x, key),
        ensures
            l == key.len(),
            0 <= k < self.children_of(m).len(),
            self.children_of(m)[k] == x,
    {
        assert(agree(self.value_of(x), key, key.len() as int));
        assert(agree(self.value_of(x), key, l));
        assert(self.is_ancestor(m, x));
        self.lemma_child_toward(m, x);
        let e = self.child_toward(m, x);
        self.lemma_ancestor_prefix(e, x);
        assert(self.node_wf(e));
        self.lemma_leaf_is_alone(e, x);
        self.lemma_position_in_parent(e)
    }

    /// Where the match of `key` does not end at a branch point, `key` is
    /// stored only if the match is a leaf with exactly that value.
    pub proof fn lemma_stored_at_leaf(&self, key: Seq<u8>, m: int, l: int, x: int)
        requires
            self.wf(),
            self.is_max_match(key, m, l),
            !self.ends_at_branch(m, l),
            self.stores(x, key),
        ensures
            x == m,
            l == key.len(),
    {
        assert(agree(self.value_of(x), key, key.len() as int));
        assert(agree(self.value_of(x), key, l));
        assert(self.is_ancestor(m, x));
        self.lemma_ancestor_prefix(m, x);
        self.lemma_leaf_is_alone(m, x);
    }

    /// After the match of `key`, no node goes on with the next byte of `key`.
    pub proof fn lemma_match_stops(&self, key: Seq<u8>, m: int, l: int, x: int)
        requires
            self.wf(),
            self.is_max_match(key, m, l),
            self.has_node(x),
            l < key.len(),
            l < self.value_of(x).len(),
            agree(self.value_of(x), key, l),
        ensures
            self.value_of(x)[l] != key[l],
    {
        if self.value_of(x)[l] == key[l] {
            assert(agree(self.value_of(x), key, l + 1));
        }
    }
    /// After a new leaf was put in, the view holds what it held and the new
    /// key. Old nodes are below `n`; the new leaf is the last node.
    pub proof fn lemma_view_after_insertion(&self, old: Trie, key: Seq<u8>, data: char)
        requires
            old.wf(),
            self.wf(),
            !old@.contains_key(key),
            old.nodes.len() < self.nodes.len(),
            forall|i: int|
                0 <= i < old.nodes.len() ==> self.value_of(i) == #[trigger] old.value_of(i)
                    && self.is_leaf(i) == old.is_leaf(i) && (old.is_leaf(i) ==> self.data_of(i)
                    == old.data_of(i)),
            forall|i: int|
                old.nodes.len() <= i < self.nodes.len() - 1 ==> !#[trigger] self.is_leaf(i),
            self.stores(self.nodes.len() - 1, key),
            self.data_of(self.nodes.len() - 1) == data,
        ensures
            self@ == old@.insert(key, data),
    {
        let last = self.nodes.len() - 1;
        let target = old@.insert(key, data);
        assert forall|k: Seq<u8>| self@.contains_key(k) <==> target.contains_key(k) by {
            if self@.contains_key(k) {
                let i = self.lemma_key_has_leaf(k);
                if i != last {
                    assert(self.value_of(i) == old.value_of(i));
                    assert(old.stores(i, k));
                }
            }
            if old@.contains_key(k) {
                let i = old.lemma_key_has_leaf(k);
                assert(self.value_of(i) == old.value_of(i));
                assert(self.stores(i, k));
            }
        }
        assert forall|k: Seq<u8>| self@.contains_key(k) implies self@[k] == target[k] by {
            if k == key {
                self.lemma_leaf_in_view(last);
            } else {
                let i = self.lemma_key_has_leaf(k);
                assert(self.value_of(i) == old.value_of(i));
                assert(old.stores(i, k));
                old.lemma_leaf_in_view(i);
            }
        }
        assert(self@ =~= target);
    }

    /// A leaf hung below the branch point at which the match of a new key
    /// ends keeps the invariants and adds the key to the view.
    pub proof fn lemma_extends(&self, old: Trie, m: int, l: int, key: Seq<u8>, data: char)
        requires
            old.wf(),
            old.is_max_match(key, m, l),
            old.ends_at_branch(m, l),
            key.len() >= 1,
            is_ascii_bytes(key),
            !old@.contains_key(key),
            self.extends(old, m, key, data),
        ensures
            self.wf(),
            self@ == old@.insert(key, data),
    {
        let n = old.nodes.len() as int;
        let kids = old.children_of(m);
        assert forall|i: int| 0 <= i < n implies self.value_of(i) == #[trigger] old.value_of(i)
            && self.is_leaf(i) == old.is_leaf(i) && self.parent_of(i) == old.parent_of(i) && (
        old.is_leaf(i) ==> self.data_of(i) == old.data_of(i)) by {}
        assert(self.root_wf());
        assert forall|i: int| 0 < i < self.nodes.len() implies #[trigger] self.node_wf(i) by {
            if i == n {
                assert(self.children_of(m)[kids.len() as int] == n as usize);
            } else {
                assert(old.node_wf(i));
                let k = old.lemma_position_in_parent(i);
                assert(self.children_of(old.parent_of(i))[k] == i as usize);
                assert(self.value_of(i) == old.value_of(i));
                assert(self.value_of(old.parent_of(i)) == old.value_of(old.parent_of(i)));
            }
        }
        assert forall|p: int, k: int|
            self.has_node(p) && 0 <= k < self.children_of(p).len() implies #[trigger] self.child_wf(
            p,
            k,
        ) by {
            if p == m && k == kids.len() {
            } else {
                assert(old.child_wf(p, k));
                assert(self.children_of(p)[k] == old.children_of(p)[k]);
            }
        }
        assert forall|p: int, k1: int, k2: int|
            self.has_node(p) && 0 <= k1 < k2 < self.children_of(p).len()
            implies #[trigger] self.siblings_wf(p, k1, k2) by {
            if p == m && k2 == kids.len() {
                let c1 = kids[k1] as int;
                assert(old.child_wf(m, k1));
                assert(old.node_wf(c1));
                assert(self.value_of(c1) == old.value_of(c1));
                assert(self.value_of(m) == old.value_of(m));
                if old.value_of(c1).len() == l && key.len() == l {
                    assert(old.value_of(c1) =~= key);
                    old.lemma_leaf_in_view(c1);
                }
                if old.value_of(c1).len() > l && key.len() > l {
                    old.lemma_match_stops(key, m, l, c1);
                }
            } else {
                assert(old.siblings_wf(p, k1, k2));
                assert(old.child_wf(p, k1));
                assert(old.child_wf(p, k2));
                assert(self.children_of(p)[k1] == old.children_of(p)[k1]);
                assert(self.children_of(p)[k2] == old.children_of(p)[k2]);
                assert(self.value_of(old.children_of(p)[k1] as int) == old.value_of(
                    old.children_of(p)[k1] as int,
                ));
                assert(self.value_of(old.children_of(p)[k2] as int) == old.value_of(
                    old.children_of(p)[k2] as int,
                ));
                assert(self.value_of(p) == old.value_of(p));
            }
        }
        assert forall|i: int, j: int|
            self.has_node(i) && self.has_node(j) && i != j implies #[trigger] self.leaves_differ(
            i,
            j,
        ) by {
            if i < n && j < n {
                assert(old.leaves_differ(i, j));
                assert(self.value_of(i) == old.value_of(i));
                assert(self.value_of(j) == old.value_of(j));
            } else {
                let x = if i < n {
                    i
                } else {
                    j
                };
                assert(self.value_of(x) == old.value_of(x));
                if old.is_leaf(x) {
                    old.lemma_leaf_in_view(x);
                }
            }
        }
        assert forall|i: int| self.has_node(i) implies is_ascii_bytes(
            #[trigger] self.value_of(i),
        ) by {
            if i < n {
                assert(self.value_of(i) == old.value_of(i));
            }
        }
        assert(self.stores(n, key));
        self.lemma_view_after_insertion(old, key, data);
    }
    /// A node stands at one position in the child list of its parent, and
    /// that is its first.
    pub proof fn lemma_first_position(&self, i: int)
        requires
            self.wf(),
            self.has_node(i),
            i != 0,
        ensures
            0 <= first_position(self.children_of(self.parent_of(i)), i as usize)
                < self.children_of(self.parent_of(i)).len(),
            self.children_of(self.parent_of(i))[first_position(
                self.children_of(self.parent_of(i)),
                i as usize,
            )] == i,
            forall|j: int|
                0 <= j < self.children_of(self.parent_of(i)).len() && j != first_position(
                    self.children_of(self.parent_of(i)),
                    i as usize,
                ) ==> #[trigger] self.children_of(self.parent_of(i))[j] != i,
    {
        let p = self.parent_of(i);
        let kids = self.children_of(p);
        let k = self.lemma_position_in_parent(i);
        self.lemma_parent_rank(i);
        assert forall|j: int| 0 <= j < kids.len() && j != k implies #[trigger] kids[j] != i by {
            self.lemma_siblings(p, j, k);
        }
        assert(0 <= k < kids.len() && kids[k] == i as usize && forall|j: int|
            0 <= j < k ==> kids[j] != i as usize);
    }

    /// The nodes of `old` are nodes of `self` with the same values and
    /// contents; parents may differ.
    pub open spec fn keeps_nodes_of(&self, old: Trie) -> bool {
        &&& old.nodes.len() <= self.nodes.len()
        &&& forall|i: int|
            0 <= i < old.nodes.len() ==> self.value_of(i) == #[trigger] old.value_of(i)
                && self.is_leaf(i) == old.is_leaf(i) && (old.is_leaf(i) ==> self.data_of(i)
                == old.data_of(i))
    }

    /// The match `(m, l)` of the new key `key` asks for a split of `m`.
    pub open spec fn asks_for_split(&self, key: Seq<u8>, m: int, l: int) -> bool {
        &&& self.wf()
        &&& self.is_max_match(key, m, l)
        &&& !self.ends_at_branch(m, l)
        &&& key.len() >= 1
        &&& is_ascii_bytes(key)
        &&& !self@.contains_key(key)
    }

    /// How a split changes the arena, node by node and child by child.
    pub open spec fn split_facts(&self, old: Trie, m: int, l: int, key: Seq<u8>) -> bool {
        let n = old.nodes.len() as int;
        let p = old.parent_of(m);
        let kids = old.children_of(p);
        let pos = first_position(kids, m as usize);
        &&& m != 0
        &&& old.has_node(p)
        &&& p != m
        &&& old.node_wf(m)
        &&& old.value_of(p).len() < l <= old.value_of(m).len()
        &&& !(old.is_leaf(m) && l == old.value_of(m).len() && l == key.len())
        &&& !old.is_leaf(m) ==> l < old.value_of(m).len()
        &&& l < old.value_of(m).len() && l < key.len() ==> old.value_of(m)[l] != key[l]
        &&& self.keeps_nodes_of(old)
        &&& forall|i: int| 0 <= i < n && i != m ==> #[trigger] self.parent_of(i) == old.parent_of(i)
        &&& forall|i: int|
            0 <= i < n && i != p ==> #[trigger] self.children_of(i) == old.children_of(i)
        &&& 0 <= pos < kids.len()
        &&& kids[pos] == m
        &&& forall|j: int| 0 <= j < kids.len() && j != pos ==> #[trigger] kids[j] != m
        &&& self.children_of(p).len() == kids.len()
        &&& forall|j: int|
            0 <= j < kids.len() - 1 ==> #[trigger] self.children_of(p)[j] == kids[shifted(pos, j)]
        &&& self.children_of(p)[kids.len() - 1] == n
    }

    /// A split changes the arena as [`Trie::split_facts`] says.
    pub proof fn lemma_split_facts(&self, old: Trie, m: int, l: int, key: Seq<u8>, data: char)
        requires
            old.asks_for_split(key, m, l),
            self.splits(old, m, l, key, data),
        ensures
            self.split_facts(old, m, l, key),
    {
        let n = old.nodes.len() as int;
        let p = old.parent_of(m);
        let kids = old.children_of(p);
        let pos = first_position(kids, m as usize);
        let cut = kids.remove(pos);
        old.lemma_parent_rank(m);
        old.lemma_first_position(m);
        kids.remove_ensures(pos);
        assert(old.node_wf(m));
        assert(self.keeps_nodes_of(old)) by {
            assert forall|i: int| 0 <= i < n implies self.value_of(i) == #[trigger] old.value_of(i)
                && self.is_leaf(i) == old.is_leaf(i) && (old.is_leaf(i) ==> self.data_of(i)
                == old.data_of(i)) by {}
        }
        assert forall|i: int| 0 <= i < n && i != m implies #[trigger] self.parent_of(i)
            == old.parent_of(i) by {}
        assert forall|i: int| 0 <= i < n && i != p implies #[trigger] self.children_of(i)
            == old.children_of(i) by {}
        assert forall|j: int| 0 <= j < kids.len() - 1 implies #[trigger] self.children_of(p)[j]
            == kids[shifted(pos, j)] by {
            assert(self.children_of(p)[j] == cut[j]);
        }
        if old.is_leaf(m) && l == old.value_of(m).len() && l == key.len() {
            assert(old.value_of(m) =~= key);
            old.lemma_leaf_in_view(m);
        }
        if l < old.value_of(m).len() && l < key.len() {
            old.lemma_match_stops(key, m, l, m);
        }
    }

    /// After a split every node hangs below a branch point that lists it.
    pub proof fn lemma_splits_nodes(&self, old: Trie, m: int, l: int, key: Seq<u8>, data: char)
        requires
            old.asks_for_split(key, m, l),
            self.splits(old, m, l, key, data),
        ensures
            forall|i: int| 0 < i < self.nodes.len() ==> #[trigger] self.node_wf(i),
    {
        let n = old.nodes.len() as int;
        let p = old.parent_of(m);
        let kids = old.children_of(p);
        let pos = first_position(kids, m as usize);
        self.lemma_split_facts(old, m, l, key, data);
        assert forall|i: int| 0 < i < self.nodes.len() implies #[trigger] self.node_wf(i) by {
            if i == n + 1 {
                assert(self.children_of(n)[1] == (n + 1) as usize);
            } else if i == n {
                assert(self.children_of(p)[kids.len() - 1] == n as usize);
                assert(self.value_of(p) == old.value_of(p));
            } else if i == m {
                assert(self.children_of(n)[0] == m as usize);
                assert(self.value_of(m) == old.value_of(m));
            } else {
                assert(old.node_wf(i));
                let q = old.parent_of(i);
                assert(self.parent_of(i) == q);
                assert(self.value_of(i) == old.value_of(i));
                assert(self.value_of(q) == old.value_of(q));
                assert(self.is_leaf(q) == old.is_leaf(q));
                let k = old.lemma_position_in_parent(i);
                if q == p {
                    let k2 = if k < pos {
                        k
                    } else {
                        k - 1
                    };
                    assert(shifted(pos, k2) == k);
                    assert(self.children_of(p)[k2] == kids[shifted(pos, k2)]);
                    assert(self.children_of(q)[k2] == i as usize);
                } else {
                    assert(self.children_of(q) == old.children_of(q));
                    assert(self.children_of(q)[k] == i as usize);
                }
            }
        }
    }

    /// After a split every child names its parent.
    pub proof fn lemma_splits_children(&self, old: Trie, m: int, l: int, key: Seq<u8>, data: char)
        requires
            old.asks_for_split(key, m, l),
            self.splits(old, m, l, key, data),
        ensures
            forall|q: int, k: int|
                self.has_node(q) && 0 <= k < self.children_of(q).len() ==> #[trigger] self.child_wf(
                    q,
                    k,
                ),
    {
        let n = old.nodes.len() as int;
        let p = old.parent_of(m);
        let kids = old.children_of(p);
        let pos = first_position(kids, m as usize);
        self.lemma_split_facts(old, m, l, key, data);
        assert forall|q: int, k: int|
            self.has_node(q) && 0 <= k < self.children_of(q).len() implies #[trigger] self.child_wf(
            q,
            k,
        ) by {
            if q == n {
            } else if q == n + 1 {
            } else if q == p {
                if k < kids.len() - 1 {
                    let k0 = shifted(pos, k);
                    assert(self.children_of(p)[k] == kids[k0]);
                    assert(old.child_wf(p, k0));
                    let c = kids[k0] as int;
                    assert(c != m);
                    assert(self.parent_of(c) == old.parent_of(c));
                }
            } else {
                assert(self.children_of(q) == old.children_of(q));
                assert(old.child_wf(q, k));
                let c = old.children_of(q)[k] as int;
                assert(c != m);
                assert(self.parent_of(c) == old.parent_of(c));
            }
        }
    }

    /// After a split the children of every branch point part ways.
    pub proof fn lemma_splits_siblings(&self, old: Trie, m: int, l: int, key: Seq<u8>, data: char)
        requires
            old.asks_for_split(key, m, l),
            self.splits(old, m, l, key, data),
        ensures
            forall|q: int, k1: int, k2: int|
                self.has_node(q) && 0 <= k1 < k2 < self.children_of(q).len()
                    ==> #[trigger] self.siblings_wf(q, k1, k2),
    {
        let n = old.nodes.len() as int;
        let p = old.parent_of(m);
        let kids = old.children_of(p);
        let pos = first_position(kids, m as usize);
        self.lemma_split_facts(old, m, l, key, data);
        assert forall|q: int, k1: int, k2: int|
            self.has_node(q) && 0 <= k1 < k2 < self.children_of(q).len()
            implies #[trigger] self.siblings_wf(q, k1, k2) by {
            if q == n {
                assert(self.value_of(m) == old.value_of(m));
            } else if q == n + 1 {
            } else if q == p {
                let a = shifted(pos, k1);
                assert(self.children_of(p)[k1] == kids[a]);
                assert(old.child_wf(p, a));
                let c1 = kids[a] as int;
                assert(self.value_of(c1) == old.value_of(c1));
                assert(self.value_of(p) == old.value_of(p));
                if k2 == kids.len() - 1 {
                    old.lemma_siblings(p, a, pos);
                    assert(old.value_of(m)[old.value_of(p).len() as int] == self.value_of(
                        n,
                    )[old.value_of(p).len() as int]);
                } else {
                    let b = shifted(pos, k2);
                    assert(self.children_of(p)[k2] == kids[b]);
                    assert(old.child_wf(p, b));
                    let c2 = kids[b] as int;
                    assert(self.value_of(c2) == old.value_of(c2));
                    assert(old.siblings_wf(p, a, b));
                }
            } else {
                assert(self.children_of(q) == old.children_of(q));
                assert(old.child_wf(q, k1));
                assert(old.child_wf(q, k2));
                let c1 = old.children_of(q)[k1] as int;
                let c2 = old.children_of(q)[k2] as int;
                assert(self.value_of(c1) == old.value_of(c1));
                assert(self.value_of(c2) == old.value_of(c2));
                assert(self.value_of(q) == old.value_of(q));
                assert(old.siblings_wf(q, k1, k2));
            }
        }
    }

    /// A split of the matched node, with a new leaf beside it, keeps the
    /// invariants and adds the key to the view.
    pub proof fn lemma_splits(&self, old: Trie, m: int, l: int, key: Seq<u8>, data: char)
        requires
            old.asks_for_split(key, m, l),
            self.splits(old, m, l, key, data),
        ensures
            self.wf(),
            self@ == old@.insert(key, data),
    {
        let n = old.nodes.len() as int;
        self.lemma_split_facts(old, m, l, key, data);
        self.lemma_splits_nodes(old, m, l, key, data);
        self.lemma_splits_children(old, m, l, key, data);
        self.lemma_splits_siblings(old, m, l, key, data);
        assert forall|i: int, j: int|
            self.has_node(i) && self.has_node(j) && i != j implies #[trigger] self.leaves_differ(
            i,
            j,
        ) by {
            if self.is_leaf(i) && self.is_leaf(j) {
                if i < n && j < n {
                    assert(old.leaves_differ(i, j));
                    assert(self.value_of(i) == old.value_of(i));
                    assert(self.value_of(j) == old.value_of(j));
                } else {
                    let x = if i < n {
                        i
                    } else {
                        j
                    };
                    assert(self.value_of(x) == old.value_of(x));
                    old.lemma_leaf_in_view(x);
                }
            }
        }
        assert forall|i: int| self.has_node(i) implies is_ascii_bytes(
            #[trigger] self.value_of(i),
        ) by {
            if i < n {
                assert(self.value_of(i) == old.value_of(i));
            } else if i == n {
                assert(is_ascii_bytes(old.value_of(m)));
                assert forall|j: int| 0 <= j < self.value_of(n).len() implies #[trigger] self.value_of(
                    n,
                )[j] < 128 by {
                    assert(old.value_of(m)[j] < 128);
                }
            }
        }
        assert(self.root_wf()) by {
            assert(self.value_of(0) == old.value_of(0));
        }
        assert(self.stores(n + 1, key));
        self.lemma_view_after_insertion(old, key, data);
    }
}

/// The position in a list from which an item was taken that holds what now
/// stands at position `j`.
pub open spec fn shifted(pos: int, j: int) -> int {
    if j < pos {
        j
    } else {
        j + 1
    }
}

} // verus!
