//! Completions: the aliases below a node, in the order of the traversal.

use crate::alias::{alias_key, ascii_chars, lemma_ascii_bytes_are_utf8, valid_alias};
use crate::trie::{Trie, TrieNodeContent};
use vstd::prelude::*;
use vstd::string::*;

verus! {

/// One completion offered for an input.
#[derive(Debug)]
pub struct MatchData {
    /// The alias in full.
    pub matchstr: String,
    /// How many leading bytes of the input the trie spells.
    pub matchlen: usize,
    /// The character that the alias stands for.
    pub value: char,
}

impl Trie {
    /// The leaves among `items`, in the order of `items`.
    pub open spec fn leaves_among(&self, items: Seq<(int, int)>) -> Seq<int>
        decreases items.len(),
    {
        if items.len() == 0 {
            Seq::empty()
        } else if self.is_leaf(items.last().0) {
            self.leaves_among(items.drop_last()).push(items.last().0)
        } else {
            self.leaves_among(items.drop_last())
        }
    }

    /// The leaves of the subtree of `node`, in pre-order. Where `node` is a
    /// leaf, it is the only one.
    pub open spec fn leaves_below(&self, node: int) -> Seq<int> {
        self.leaves_among(self.preorder(node, 0))
    }

    /// `found` holds the first leaves below `node`, `max_count` of them or,
    /// where there are fewer, all.
    pub open spec fn first_leaves_below(&self, found: Seq<usize>, node: int, max_count: int) -> bool {
        let leaves = self.leaves_below(node);
        &&& found.len() == if max_count < leaves.len() {
            max_count
        } else {
            leaves.len() as int
        }
        &&& forall|j: int|
            0 <= j < found.len() ==> #[trigger] found[j] == leaves[j] && self.has_node(leaves[j])
                && self.is_leaf(leaves[j])
    }

    /// `list` names the first leaves below `node`, `max_count` of them or,
    /// where there are fewer, all: each with its alias and its character.
    pub open spec fn lists_leaves_below(
        &self,
        list: Seq<(String, char)>,
        node: int,
        max_count: int,
    ) -> bool {
        let leaves = self.leaves_below(node);
        &&& list.len() == if max_count < leaves.len() {
            max_count
        } else {
            leaves.len() as int
        }
        &&& forall|j: int|
            0 <= j < list.len() ==> (#[trigger] list[j]).0@ == ascii_chars(
                self.value_of(leaves[j]),
            ) && list[j].1 == self.data_of(leaves[j])
    }

    /// `list` is what is offered for `input` where at most `cnt` completions
    /// are asked for. Nothing is offered for an input that is no alias, nor
    /// where the match of the input is the root. Otherwise the first leaves
    /// below the match are offered, each with its alias, its character and
    /// the length of the match.
    pub open spec fn offers(&self, list: Seq<MatchData>, input: Seq<char>, cnt: int) -> bool {
        let (m, l) = self.max_match(alias_key(input));
        let leaves = self.leaves_below(m);
        if cnt == 0 || !valid_alias(input) || m == 0 {
            list.len() == 0
        } else {
            &&& list.len() == if cnt < leaves.len() {
                cnt
            } else {
                leaves.len() as int
            }
            &&& forall|j: int|
                0 <= j < list.len() ==> (#[trigger] list[j]).matchstr@ == ascii_chars(
                    self.value_of(leaves[j]),
                ) && list[j].matchlen == l && list[j].value == self.data_of(leaves[j])
        }
    }

    /// The leaves among two runs of items are those of the first run, then
    /// those of the second.
    pub proof fn lemma_leaves_among_concat(&self, a: Seq<(int, int)>, b: Seq<(int, int)>)
        ensures
            self.leaves_among(a + b) == self.leaves_among(a) + self.leaves_among(b),
        decreases b.len(),
    {
        if b.len() == 0 {
            assert(a + b =~= a);
            assert(self.leaves_among(a) + self.leaves_among(b) =~= self.leaves_among(a));
        } else {
            self.lemma_leaves_among_concat(a, b.drop_last());
            assert((a + b).drop_last() =~= a + b.drop_last());
            assert((a + b).last() == b.last());
            if self.is_leaf(b.last().0) {
                assert((self.leaves_among(a) + self.leaves_among(b.drop_last())).push(b.last().0)
                    =~= self.leaves_among(a) + self.leaves_among(b.drop_last()).push(b.last().0));
            }
        }
    }

    /// Collects the leaves in the subtree of `node_idx`, in the order of the
    /// traversal, and stops after `max_count` of them.
    pub fn leaves_from(&self, node_idx: usize, max_count: usize) -> (found: Vec<usize>)
        requires
            self.wf(),
            self.has_node(node_idx as int),
        ensures
            self.first_leaves_below(found@, node_idx as int, max_count as int),
    {
        let mut found: Vec<usize> = Vec::new();
        if max_count == 0 {
            return found;
        }
        let ghost all = self.preorder(node_idx as int, 0);
        let ghost mut seen: Seq<(int, int)> = Seq::empty();
        let mut it = self.iter(&node_idx);
        proof {
            assert(seen + it.remaining() =~= all);
        }
        loop
            invariant_except_break
                found.len() < max_count,
            invariant
                self.wf(),
                self.has_node(node_idx as int),
                it.wf(),
                it.trie() == self,
                seen + it.remaining() == all,
                all == self.preorder(node_idx as int, 0),
                found.len() == self.leaves_among(seen).len(),
                forall|j: int|
                    0 <= j < found.len() ==> #[trigger] found[j] == self.leaves_among(seen)[j]
                        && self.has_node(found[j] as int) && self.is_leaf(found[j] as int),
            ensures
                found.len() == max_count || it.remaining().len() == 0,
                found.len() <= max_count,
            decreases it.remaining().len(),
        {
            let ghost before = it.remaining();
            match it.next() {
                None => {
                    break ;
                },
                Some((idx, _)) => {
                    proof {
                        assert((seen.push(before[0])).drop_last() =~= seen);
                        assert(seen.push(before[0]) + before.skip(1) =~= seen + before);
                        seen = seen.push(before[0]);
                    }
                    match &self.nodes[idx].content {
                        TrieNodeContent::Leaf { .. } => {
                            found.push(idx);
                            if found.len() == max_count {
                                break ;
                            }
                        },
                        TrieNodeContent::Internal { .. } => {},
                    }
                },
            }
        }
        proof {
            self.lemma_leaves_among_concat(seen, it.remaining());
            if it.remaining().len() == 0 {
                assert(seen =~= all);
            }
        }
        found
    }

    /// Lists the aliases stored in the subtree of `node_idx`, each with its
    /// character, in the order of the traversal, and stops after `max_count`
    /// of them.
    pub fn enumerate_from(&self, node_idx: usize, max_count: usize) -> (list: Vec<(String, char)>)
        requires
            self.wf(),
            self.has_node(node_idx as int),
        ensures
            self.lists_leaves_below(list@, node_idx as int, max_count as int),
    {
        let found = self.leaves_from(node_idx, max_count);
        let ghost leaves = self.leaves_below(node_idx as int);
        let mut list: Vec<(String, char)> = Vec::new();
        let mut j: usize = 0;
        while j < found.len()
            invariant
                self.wf(),
                self.first_leaves_below(found@, node_idx as int, max_count as int),
                leaves == self.leaves_below(node_idx as int),
                0 <= j <= found.len(),
                list.len() == j,
                forall|i: int|
                    0 <= i < j ==> (#[trigger] list[i]).0@ == ascii_chars(self.value_of(leaves[i]))
                        && list[i].1 == self.data_of(leaves[i]),
            decreases found.len() - j,
        {
            let idx = found[j];
            assert(found@[j as int] == leaves[j as int] && self.has_node(leaves[j as int]));
            let node = &self.nodes[idx];
            proof {
                assert(node.value@ == self.value_of(idx as int));
                lemma_ascii_bytes_are_utf8(node.value@);
            }
            match &node.content {
                TrieNodeContent::Leaf { data } => {
                    list.push((node.value_str().to_owned(), *data));
                },
                TrieNodeContent::Internal { .. } => {},
            }
            j += 1;
        }
        list
    }

    /// Offers completions for `input`: the aliases below its longest-prefix
    /// match, in the order of the traversal, at most `cnt` of them. An input
    /// that is empty or not ASCII gets none, and neither does one whose
    /// match is the root.
    pub fn find_matches(&self, input: &str, cnt: usize) -> (list: Vec<MatchData>)
        requires
            self.wf(),
        ensures
            self.offers(list@, input@, cnt as int),
    {
        let mut list: Vec<MatchData> = Vec::new();
        if cnt == 0 || input.is_empty() || !input.is_ascii() {
            return list;
        }
        let (midx, mlen) = self.find_max_match(input.as_bytes());
        if midx == 0 {
            return list;
        }
        let found = self.leaves_from(midx, cnt);
        let ghost leaves = self.leaves_below(midx as int);
        let mut j: usize = 0;
        while j < found.len()
            invariant
                self.wf(),
                self.first_leaves_below(found@, midx as int, cnt as int),
                leaves == self.leaves_below(midx as int),
                0 <= j <= found.len(),
                list.len() == j,
                forall|i: int|
                    0 <= i < j ==> (#[trigger] list[i]).matchstr@ == ascii_chars(
                        self.value_of(leaves[i]),
                    ) && list[i].matchlen == mlen && list[i].value == self.data_of(leaves[i]),
            decreases found.len() - j,
        {
            let idx = found[j];
            assert(found@[j as int] == leaves[j as int] && self.has_node(leaves[j as int]));
            let node = &self.nodes[idx];
            proof {
                assert(node.value@ == self.value_of(idx as int));
                lemma_ascii_bytes_are_utf8(node.value@);
            }
            match &node.content {
                TrieNodeContent::Leaf { data } => {
                    list.push(
                        MatchData {
                            matchstr: node.value_str().to_owned(),
                            matchlen: mlen,
                            value: *data,
                        },
                    );
                },
                TrieNodeContent::Internal { .. } => {},
            }
            j += 1;
        }
        list
    }
}

} // verus!
