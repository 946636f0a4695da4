//! Pre-order traversal of a subtree.

use crate::trie::{Trie, TrieNodeContent};
use vstd::prelude::*;

verus! {

impl Trie {
    /// The largest rank among the first `k` nodes.
    pub open spec fn max_rank(&self, k: int) -> int
        decreases k,
    {
        if k <= 0 {
            0
        } else if self.rank(k - 1) > self.max_rank(k - 1) {
            self.rank(k - 1)
        } else {
            self.max_rank(k - 1)
        }
    }

    /// How far the rank of `i` is below the largest rank: a measure that
    /// shrinks on every step from a parent to its child.
    pub open spec fn slack(&self, i: int) -> int {
        self.max_rank(self.nodes.len() as int) - self.rank(i)
    }

    /// No node among the first `k` has a rank above `max_rank(k)`.
    pub proof fn lemma_max_rank(&self, i: int, k: int)
        requires
            0 <= i < k,
        ensures
            self.rank(i) <= self.max_rank(k),
        decreases k,
    {
        if i < k - 1 {
            self.lemma_max_rank(i, k - 1);
        }
    }

    /// A child has less slack than its parent, and not less than none.
    pub proof fn lemma_child_slack(&self, p: int, k: int)
        requires
            self.wf(),
            self.has_node(p),
            0 <= k < self.children_of(p).len(),
        ensures
            self.has_node(self.children_of(p)[k] as int),
            0 <= self.slack(self.children_of(p)[k] as int) < self.slack(p),
    {
        let c = self.children_of(p)[k] as int;
        assert(self.child_wf(p, k));
        self.lemma_parent_rank(c);
        self.lemma_max_rank(c, self.nodes.len() as int);
    }

    /// The node `idx` at `depth`, then its descendants: every node before
    /// its children, the children in their stored order, each one level
    /// deeper than its parent.
    pub open spec fn preorder(&self, idx: int, depth: int) -> Seq<(int, int)>
        decreases self.slack(idx), self.children_of(idx).len() + 1,
        when self.wf() && self.has_node(idx)
    {
        seq![(idx, depth)] + self.forest(idx, 0, depth + 1)
    }

    /// The subtrees of the children of `p` from position `from` on, one after
    /// the other, their roots at `depth`.
    pub open spec fn forest(&self, p: int, from: int, depth: int) -> Seq<(int, int)>
        decreases self.slack(p), self.children_of(p).len() - from,
        when self.wf() && self.has_node(p) && 0 <= from
    {
        if from >= self.children_of(p).len() {
            Seq::empty()
        } else {
            proof {
                self.lemma_child_slack(p, from);
            }
            self.preorder(self.children_of(p)[from] as int, depth) + self.forest(
                p,
                from + 1,
                depth,
            )
        }
    }
}

/// A single pass over a subtree in pre-order.
///
/// The pass yields the start node first, at depth 0, and then works off a
/// stack of branch points, each with the position of its next child.
pub struct TrieIter<'a> {
    trie: &'a Trie,
    start: Option<usize>,
    desc_stack: Vec<(usize, usize)>,
}

impl<'a> TrieIter<'a> {
    /// The trie that the pass walks.
    pub closed spec fn trie(&self) -> &'a Trie {
        self.trie
    }

    /// The invariant of the pass: it walks a well-formed trie, the start
    /// node waits only while the stack is empty, and every frame names a
    /// branch point and a position in its child list or right behind it.
    pub closed spec fn wf(&self) -> bool {
        &&& self.trie.wf()
        &&& match self.start {
            Some(s) => self.trie.has_node(s as int) && self.desc_stack.len() == 0,
            None => true,
        }
        &&& forall|j: int|
            0 <= j < self.desc_stack.len() ==> frame_wf(self.trie, #[trigger] self.desc_stack[j])
    }

    /// What the pass has still to yield, in order: node and depth.
    pub closed spec fn remaining(&self) -> Seq<(int, int)> {
        match self.start {
            Some(s) => self.trie.preorder(s as int, 0),
            None => pending(self.trie, self.desc_stack@, self.desc_stack.len() as int),
        }
    }

    /// Yields the next node of the pass with its depth, or nothing when the
    /// pass is over.
    pub fn next(&mut self) -> (r: Option<(usize, usize)>)
        requires
            old(self).wf(),
        ensures
            final(self).wf(),
            final(self).trie() == old(self).trie(),
            match r {
                Some(item) => {
                    &&& old(self).remaining().len() > 0
                    &&& (item.0 as int, item.1 as int) == old(self).remaining()[0]
                    &&& final(self).remaining() == old(self).remaining().skip(1)
                    &&& final(self).trie().has_node(item.0 as int)
                },
                None => old(self).remaining().len() == 0 && final(self).remaining().len() == 0,
            },
    {
        let trie = self.trie;
        if let Some(s) = self.start {
            self.start = None;
            match &trie.nodes[s].content {
                TrieNodeContent::Internal { .. } => {
                    self.desc_stack.push((s, 0));
                },
                TrieNodeContent::Leaf { .. } => {},
            }
            proof {
                let stack = self.desc_stack@;
                if trie.is_leaf(s as int) {
                    assert(trie.forest(s as int, 0, 1) =~= Seq::empty());
                } else {
                    assert(pending(trie, stack, 0) =~= Seq::empty());
                    assert(pending(trie, stack, 1) =~= trie.forest(s as int, 0, 1));
                }
                assert(old(self).remaining().skip(1) =~= trie.forest(s as int, 0, 1));
            }
            return Some((s, 0));
        }
        loop
            invariant
                self.wf(),
                self.start is None,
                self.trie == trie,
                old(self).trie == trie,
                self.remaining() == old(self).remaining(),
            decreases self.desc_stack.len(),
        {
            let depth = self.desc_stack.len();
            let ghost before = self.desc_stack@;
            match self.desc_stack.pop() {
                None => {
                    return None;
                },
                Some((p, k)) => {
                    let ghost rest = self.desc_stack@;
                    proof {
                        assert(frame_wf(trie, before[depth - 1]));
                        lemma_pending_same(trie, before, rest, depth - 1);
                    }
                    match &trie.nodes[p].content {
                        TrieNodeContent::Leaf { .. } => {},
                        TrieNodeContent::Internal { children } => {
                            if k < children.len() {
                                let c = children[k];
                                proof {
                                    trie.lemma_child_slack(p as int, k as int);
                                }
                                self.desc_stack.push((p, k + 1));
                                let ghost mid = self.desc_stack@;
                                match &trie.nodes[c].content {
                                    TrieNodeContent::Internal { .. } => {
                                        self.desc_stack.push((c, 0));
                                    },
                                    TrieNodeContent::Leaf { .. } => {},
                                }
                                proof {
                                    let after = self.desc_stack@;
                                    let tail = pending(trie, rest, depth - 1);
                                    lemma_pending_same(trie, mid, rest, depth - 1);
                                    lemma_pending_same(trie, after, rest, depth - 1);
                                    lemma_pending_same(trie, after, mid, depth as int);
                                    let sub = trie.forest(c as int, 0, depth + 1);
                                    let next = trie.forest(p as int, k + 1, depth as int);
                                    assert(pending(trie, mid, depth as int) == next + tail);
                                    if trie.is_leaf(c as int) {
                                        assert(sub =~= Seq::empty());
                                    } else {
                                        assert(pending(trie, after, depth + 1) == sub + pending(
                                            trie,
                                            after,
                                            depth as int,
                                        ));
                                    }
                                    assert(self.remaining() =~= sub + next + tail);
                                    assert(pending(trie, before, depth as int) == trie.forest(
                                        p as int,
                                        k as int,
                                        depth as int,
                                    ) + pending(trie, before, depth - 1));
                                    assert(trie.forest(p as int, k as int, depth as int)
                                        == trie.preorder(c as int, depth as int) + next);
                                    assert(trie.preorder(c as int, depth as int) == seq![
                                        (c as int, depth as int),
                                    ] + sub);
                                    assert(old(self).remaining() =~= seq![(c as int, depth as int)]
                                        + sub + next + tail);
                                    assert(old(self).remaining().skip(1) =~= sub + next + tail);
                                    assert forall|j: int|
                                        0 <= j < self.desc_stack.len() implies frame_wf(
                                        trie,
                                        #[trigger] self.desc_stack[j],
                                    ) by {
                                        if j < depth - 1 {
                                            assert(self.desc_stack[j] == before[j]);
                                        }
                                    }
                                }
                                return Some((c, depth));
                            }
                        },
                    }
                    proof {
                        assert(trie.forest(p as int, k as int, depth as int) =~= Seq::empty());
                        assert(self.remaining() =~= old(self).remaining());
                        assert forall|j: int|
                            0 <= j < self.desc_stack.len() implies frame_wf(
                            trie,
                            #[trigger] self.desc_stack[j],
                        ) by {
                            assert(self.desc_stack[j] == before[j]);
                        }
                    }
                },
            }
        }
    }
}

/// A frame names a branch point and a position in its child list, or the
/// one right behind its end.
pub open spec fn frame_wf(trie: &Trie, frame: (usize, usize)) -> bool {
    &&& trie.has_node(frame.0 as int)
    &&& frame.1 <= trie.children_of(frame.0 as int).len()
}

/// What the lowest `k` frames of a stack have still to yield: the children
/// left in the topmost of them first, the root of each at a depth that is
/// the height of its frame in the stack.
pub open spec fn pending(trie: &Trie, stack: Seq<(usize, usize)>, k: int) -> Seq<(int, int)>
    decreases k,
{
    if k <= 0 {
        Seq::empty()
    } else {
        trie.forest(stack[k - 1].0 as int, stack[k - 1].1 as int, k) + pending(trie, stack, k - 1)
    }
}

/// Two stacks that hold the same lowest `k` frames have the same to yield
/// from them.
pub proof fn lemma_pending_same(
    trie: &Trie,
    a: Seq<(usize, usize)>,
    b: Seq<(usize, usize)>,
    k: int,
)
    requires
        k <= a.len(),
        k <= b.len(),
        forall|j: int| 0 <= j < k ==> a[j] == b[j],
    ensures
        pending(trie, a, k) == pending(trie, b, k),
    decreases k,
{
    if k > 0 {
        lemma_pending_same(trie, a, b, k - 1);
    }
}

impl Trie {
    /// Starts a pass over the subtree of `node_idx`.
    pub fn iter<'a>(&'a self, node_idx: &'a usize) -> (it: TrieIter<'a>)
        requires
            self.wf(),
            self.has_node(*node_idx as int),
        ensures
            it.wf(),
            it.trie() == self,
            it.remaining() == self.preorder(*node_idx as int, 0),
    {
        TrieIter { trie: self, start: Some(*node_idx), desc_stack: Vec::new() }
    }
}

} // verus!
