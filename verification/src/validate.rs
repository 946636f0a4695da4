//! A check of the invariants at run time, for an arena that came from
//! elsewhere.

use crate::alias::{agree, is_ascii_bytes, is_prefix};
use crate::trie::{Trie, TrieNodeContent};
use vstd::prelude::*;

verus! {

/// Whether every byte of `bytes` is ASCII.
pub fn all_ascii(bytes: &Vec<u8>) -> (ok: bool)
    ensures
        ok == is_ascii_bytes(bytes@),
{
    let mut j: usize = 0;
    while j < bytes.len()
        invariant
            0 <= j <= bytes.len(),
            forall|i: int| 0 <= i < j ==> #[trigger] bytes@[i] < 128,
        decreases bytes.len() - j,
    {
        if bytes[j] >= 128 {
            return false;
        }
        j += 1;
    }
    true
}

/// Whether `a` is a prefix of `b`.
pub fn starts_with(b: &Vec<u8>, a: &Vec<u8>) -> (ok: bool)
    ensures
        ok == is_prefix(a@, b@),
{
    if a.len() > b.len() {
        return false;
    }
    let mut j: usize = 0;
    while j < a.len()
        invariant
            0 <= j <= a.len() <= b.len(),
            agree(a@, b@, j as int),
        decreases a.len() - j,
    {
        if a[j] != b[j] {
            return false;
        }
        j += 1;
    }
    true
}

/// Whether `a` and `b` hold the same bytes.
pub fn same_bytes(a: &Vec<u8>, b: &Vec<u8>) -> (ok: bool)
    ensures
        ok == (a@ == b@),
{
    if a.len() != b.len() {
        return false;
    }
    let ok = starts_with(b, a);
    proof {
        if ok {
            assert(a@ =~= b@);
        }
    }
    ok
}

impl Trie {
    /// Whether node `i`, which is not the root, hangs below a branch point
    /// that lists it and whose value it extends.
    pub fn check_node(&self, i: usize) -> (ok: bool)
        requires
            0 < i < self.nodes.len(),
        ensures
            ok == self.node_wf(i as int),
    {
        let node = &self.nodes[i];
        let p = node.parent;
        if p >= self.nodes.len() {
            return false;
        }
        let parent = &self.nodes[p];
        match &parent.content {
            TrieNodeContent::Leaf { .. } => false,
            TrieNodeContent::Internal { children } => {
                let mut listed = false;
                let mut k: usize = 0;
                while k < children.len() && !listed
                    invariant
                        0 <= k <= children.len(),
                        !listed ==> forall|j: int| 0 <= j < k ==> children@[j] != i,
                        listed ==> children@.contains(i),
                    decreases children.len() - k + if listed {
                        0int
                    } else {
                        1int
                    },
                {
                    if children[k] == i {
                        listed = true;
                    } else {
                        k += 1;
                    }
                }
                if !listed || node.value.len() == 0 || !starts_with(&node.value, &parent.value) {
                    return false;
                }
                match &node.content {
                    TrieNodeContent::Leaf { .. } => true,
                    TrieNodeContent::Internal { .. } => parent.value.len() < node.value.len(),
                }
            },
        }
    }

    /// Whether every child of `p` is a node other than the root and names
    /// `p` as its parent.
    pub fn check_children(&self, p: usize) -> (ok: bool)
        requires
            p < self.nodes.len(),
        ensures
            ok == forall|k: int|
                0 <= k < self.children_of(p as int).len() ==> #[trigger] self.child_wf(p as int, k),
    {
        match &self.nodes[p].content {
            TrieNodeContent::Leaf { .. } => true,
            TrieNodeContent::Internal { children } => {
                let mut k: usize = 0;
                while k < children.len()
                    invariant
                        0 <= k <= children.len(),
                        p < self.nodes.len(),
                        children@ == self.children_of(p as int),
                        forall|j: int| 0 <= j < k ==> #[trigger] self.child_wf(p as int, j),
                    decreases children.len() - k,
                {
                    let c = children[k];
                    if c == 0 || c >= self.nodes.len() || self.nodes[c].parent != p {
                        assert(!self.child_wf(p as int, k as int));
                        return false;
                    }
                    k += 1;
                }
                true
            },
        }
    }

    /// Whether the children of `p` part ways right after the value of `p`.
    pub fn check_siblings(&self, p: usize) -> (ok: bool)
        requires
            p < self.nodes.len(),
            forall|k: int|
                0 <= k < self.children_of(p as int).len() ==> #[trigger] self.child_wf(p as int, k),
        ensures
            ok == forall|k1: int, k2: int|
                0 <= k1 < k2 < self.children_of(p as int).len() ==> #[trigger] self.siblings_wf(
                    p as int,
                    k1,
                    k2,
                ),
    {
        let at = self.nodes[p].value.len();
        match &self.nodes[p].content {
            TrieNodeContent::Leaf { .. } => true,
            TrieNodeContent::Internal { children } => {
                let mut k2: usize = 0;
                while k2 < children.len()
                    invariant
                        0 <= k2 <= children.len(),
                        p < self.nodes.len(),
                        at == self.value_of(p as int).len(),
                        children@ == self.children_of(p as int),
                        forall|k: int|
                            0 <= k < children.len() ==> #[trigger] self.child_wf(p as int, k),
                        forall|i: int, j: int|
                            0 <= i < j < k2 ==> #[trigger] self.siblings_wf(p as int, i, j),
                    decreases children.len() - k2,
                {
                    let c2 = children[k2];
                    assert(self.child_wf(p as int, k2 as int));
                    let v2 = &self.nodes[c2].value;
                    let mut k1: usize = 0;
                    while k1 < k2
                        invariant
                            0 <= k1 <= k2 < children.len(),
                            p < self.nodes.len(),
                            at == self.value_of(p as int).len(),
                            children@ == self.children_of(p as int),
                            c2 == children@[k2 as int],
                            c2 < self.nodes.len(),
                            v2@ == self.value_of(c2 as int),
                            forall|k: int|
                                0 <= k < children.len() ==> #[trigger] self.child_wf(p as int, k),
                            forall|i: int|
                                0 <= i < k1 ==> #[trigger] self.siblings_wf(
                                    p as int,
                                    i,
                                    k2 as int,
                                ),
                        decreases k2 - k1,
                    {
                        let c1 = children[k1];
                        assert(self.child_wf(p as int, k1 as int));
                        let v1 = &self.nodes[c1].value;
                        let apart = if v1.len() == at && v2.len() == at {
                            false
                        } else if v1.len() > at && v2.len() > at {
                            v1[at] != v2[at]
                        } else {
                            true
                        };
                        if !apart {
                            assert(!self.siblings_wf(p as int, k1 as int, k2 as int));
                            return false;
                        }
                        k1 += 1;
                    }
                    k2 += 1;
                }
                true
            },
        }
    }

    /// Whether no leaf before `j` stores the alias of the leaf `j`.
    pub fn check_alias_is_new(&self, j: usize) -> (ok: bool)
        requires
            j < self.nodes.len(),
        ensures
            ok == forall|i: int| 0 <= i < j ==> #[trigger] self.leaves_differ(i, j as int),
    {
        match &self.nodes[j].content {
            TrieNodeContent::Internal { .. } => true,
            TrieNodeContent::Leaf { .. } => {
                let mut i: usize = 0;
                while i < j
                    invariant
                        0 <= i <= j < self.nodes.len(),
                        self.is_leaf(j as int),
                        forall|h: int| 0 <= h < i ==> #[trigger] self.leaves_differ(h, j as int),
                    decreases j - i,
                {
                    let twin = match &self.nodes[i].content {
                        TrieNodeContent::Internal { .. } => false,
                        TrieNodeContent::Leaf { .. } => same_bytes(
                            &self.nodes[i].value,
                            &self.nodes[j].value,
                        ),
                    };
                    if twin {
                        assert(!self.leaves_differ(i as int, j as int));
                        return false;
                    }
                    i += 1;
                }
                true
            },
        }
    }

    /// Checks the invariants of the arena.
    pub fn is_well_formed(&self) -> (ok: bool)
        ensures
            ok == self.wf(),
    {
        let n = self.nodes.len();
        if n == 0 {
            return false;
        }
        let root = &self.nodes[0];
        let root_is_branch = match &root.content {
            TrieNodeContent::Internal { .. } => true,
            TrieNodeContent::Leaf { .. } => false,
        };
        if root.value.len() != 0 || root.parent != 0 || !root_is_branch {
            return false;
        }
        let mut i: usize = 0;
        while i < n
            invariant
                0 <= i <= n,
                n == self.nodes.len(),
                self.root_wf(),
                forall|h: int| 0 < h < i ==> #[trigger] self.node_wf(h),
                forall|p: int, k: int|
                    0 <= p < i && 0 <= k < self.children_of(p).len() ==> #[trigger] self.child_wf(
                        p,
                        k,
                    ),
                forall|p: int, k1: int, k2: int|
                    0 <= p < i && 0 <= k1 < k2 < self.children_of(p).len()
                        ==> #[trigger] self.siblings_wf(p, k1, k2),
                forall|a: int, b: int| 0 <= a < b < i ==> #[trigger] self.leaves_differ(a, b),
                forall|h: int| 0 <= h < i ==> is_ascii_bytes(#[trigger] self.value_of(h)),
            decreases n - i,
        {
            if i > 0 && !self.check_node(i) {
                return false;
            }
            if !self.check_children(i) {
                return false;
            }
            if !self.check_siblings(i) {
                return false;
            }
            if !self.check_alias_is_new(i) {
                assert(self.wf() ==> forall|a: int|
                    0 <= a < i ==> #[trigger] self.leaves_differ(a, i as int));
                return false;
            }
            if !all_ascii(&self.nodes[i].value) {
                assert(self.value_of(i as int) == self.nodes[i as int].value@);
                return false;
            }
            i += 1;
        }
        proof {
            assert forall|a: int, b: int|
                self.has_node(a) && self.has_node(b) && a != b implies #[trigger] self.leaves_differ(
                a,
                b,
            ) by {
                if a < b {
                    assert(self.leaves_differ(a, b));
                } else {
                    assert(self.leaves_differ(b, a));
                }
            }
        }
        true
    }
}

} // verus!
