//! Insertion, with the split of a node where two aliases part ways.

use crate::alias::{alias_key, lemma_alias_key_is_ascii, valid_alias};
use crate::trie::{first_position, Trie, TrieError, TrieNode, TrieNodeContent};
use vstd::prelude::*;
use vstd::slice::{slice_subrange, slice_to_vec};
use vstd::string::*;

verus! {

/// What the insertion of `alias` answers on a trie with the view `stored`.
pub open spec fn insert_result(stored: Map<Seq<u8>, char>, alias: Seq<char>) -> Result<
    (),
    TrieError,
> {
    if !valid_alias(alias) {
        Err(TrieError::InvalidAlias)
    } else if stored.contains_key(alias_key(alias)) {
        Err(TrieError::DuplicateAlias)
    } else {
        Ok(())
    }
}

/// The view that a trie with the view `stored` has after the insertion of
/// `alias` with `data`: one entry more where the insertion succeeds, and the
/// same where it fails.
pub open spec fn after_insert(stored: Map<Seq<u8>, char>, alias: Seq<char>, data: char) -> Map<
    Seq<u8>,
    char,
> {
    if insert_result(stored, alias) is Ok {
        stored.insert(alias_key(alias), data)
    } else {
        stored
    }
}

impl Trie {
    /// The match `(m, l)` uses up the whole value of a branch point, so a
    /// new leaf can hang right below `m`.
    pub open spec fn ends_at_branch(&self, m: int, l: int) -> bool {
        !self.is_leaf(m) && l == self.value_of(m).len()
    }

    /// `self` is `old` with one more node: a leaf for `key`, appended to the
    /// children of the branch point `m`.
    pub open spec fn extends(&self, old: Trie, m: int, key: Seq<u8>, data: char) -> bool {
        let n = old.nodes.len() as int;
        &&& self.nodes.len() == n + 1
        &&& forall|i: int| 0 <= i < n && i != m ==> self.nodes[i] == old.nodes[i]
        &&& self.nodes[m].value == old.nodes[m].value
        &&& self.parent_of(m) == old.parent_of(m)
        &&& !self.is_leaf(m)
        &&& self.children_of(m) == old.children_of(m).push(n as usize)
        &&& self.value_of(n) == key
        &&& self.parent_of(n) == m
        &&& self.is_leaf(n)
        &&& self.data_of(n) == data
    }

    /// `self` is `old` with the node `m` split after `l` bytes. There are
    /// two more nodes: a branch point that holds the first `l` bytes of `m`,
    /// and a leaf for `key`. The branch point takes the place of `m` below
    /// the old parent of `m`, at the end of its child list; its own children
    /// are `m` and the new leaf, in this order.
    pub open spec fn splits(&self, old: Trie, m: int, l: int, key: Seq<u8>, data: char) -> bool {
        let n = old.nodes.len() as int;
        let p = old.parent_of(m);
        &&& self.nodes.len() == n + 2
        &&& forall|i: int| 0 <= i < n && i != m && i != p ==> self.nodes[i] == old.nodes[i]
        &&& self.nodes[m].value == old.nodes[m].value
        &&& self.nodes[m].content == old.nodes[m].content
        &&& self.parent_of(m) == n
        &&& self.nodes[p].value == old.nodes[p].value
        &&& self.parent_of(p) == old.parent_of(p)
        &&& !self.is_leaf(p)
        &&& self.children_of(p) == old.children_of(p).remove(
            first_position(old.children_of(p), m as usize),
        ).push(n as usize)
        &&& self.value_of(n) == old.value_of(m).take(l)
        &&& self.parent_of(n) == p
        &&& !self.is_leaf(n)
        &&& self.children_of(n) == seq![m as usize, (n + 1) as usize]
        &&& self.value_of(n + 1) == key
        &&& self.parent_of(n + 1) == n
        &&& self.is_leaf(n + 1)
        &&& self.data_of(n + 1) == data
    }

    /// `self` is `old` after `key` was inserted with `data`: a leaf below
    /// the match of `key` where that match ends at a branch point, and a
    /// split of the matched node where it does not.
    pub open spec fn is_insertion_of(&self, old: Trie, key: Seq<u8>, data: char) -> bool {
        let (m, l) = old.max_match(key);
        if old.ends_at_branch(m, l) {
            self.extends(old, m, key, data)
        } else {
            self.splits(old, m, l, key, data)
        }
    }

    /// Inserts `input` with the character `data`.
    ///
    /// An empty or non-ASCII input is refused, and so is an alias that is
    /// stored already; the trie then stays as it was. Otherwise the alias
    /// becomes a new leaf: below the branch point at which its match ends,
    /// or, where the match ends inside a node or at a leaf, beside that node
    /// under a new branch point that holds their common prefix.
    pub fn append_leaf(&mut self, input: String, data: char) -> (r: Result<(), TrieError>)
        requires
            old(self).wf(),
        ensures
            final(self).wf(),
            r == insert_result(old(self)@, input@),
            final(self)@ == after_insert(old(self)@, input@, data),
            r is Ok ==> final(self).is_insertion_of(*old(self), alias_key(input@), data),
            r is Err ==> *final(self) == *old(self),
    {
        if input.as_str().is_empty() || !input.is_ascii() {
            return Err(TrieError::InvalidAlias);
        }
        let in_chars: Vec<u8> = input.as_str().as_bytes_vec();
        let ghost prev = *self;
        let ghost key = in_chars@;
        proof {
            lemma_alias_key_is_ascii(input@);
        }
        let (ndidx, match_len) = self.find_max_match(in_chars.as_slice());
        let ghost m = ndidx as int;
        let ghost l = match_len as int;
        let node_len = self.nodes[ndidx].value.len();
        let is_branch = match &self.nodes[ndidx].content {
            TrieNodeContent::Internal { .. } => true,
            TrieNodeContent::Leaf { .. } => false,
        };
        if is_branch && match_len == node_len {
            let twin = if match_len < in_chars.len() {
                None
            } else {
                self.find_child_of_len(ndidx, match_len)
            };
            match twin {
                Some(c) => {
                    proof {
                        assert(prev.node_wf(c as int));
                        assert(prev.value_of(c as int) =~= key);
                        prev.lemma_leaf_in_view(c as int);
                    }
                    return Err(TrieError::DuplicateAlias);
                },
                None => {
                    proof {
                        if prev@.contains_key(key) {
                            let x = prev.lemma_key_has_leaf(key);
                            let k = prev.lemma_stored_below_branch(key, m, l, x);
                        }
                    }
                    let leaf_idx = self.nodes.len();
                    self.nodes.push(
                        TrieNode {
                            value: in_chars,
                            parent: ndidx,
                            content: TrieNodeContent::Leaf { data },
                        },
                    );
                    self.nodes[ndidx].try_add_child(leaf_idx);
                    proof {
                        assert(self.extends(prev, m, key, data));
                        self.lemma_extends(prev, m, l, key, data);
                    }
                    return Ok(());
                },
            }
        }
        if !is_branch && match_len == node_len && match_len == in_chars.len() {
            proof {
                assert(prev.value_of(m) =~= key);
                prev.lemma_leaf_in_view(m);
            }
            return Err(TrieError::DuplicateAlias);
        }
        proof {
            if prev@.contains_key(key) {
                let x = prev.lemma_key_has_leaf(key);
                prev.lemma_stored_at_leaf(key, m, l, x);
            }
            assert(prev.asks_for_split(key, m, l));
            prev.lemma_parent_rank(m);
            prev.lemma_first_position(m);
        }
        let inter_value = slice_to_vec(slice_subrange(self.nodes[ndidx].value.as_slice(), 0, match_len));
        let par_idx = self.nodes[ndidx].parent;
        let mut inter_children: Vec<usize> = Vec::new();
        inter_children.push(ndidx);
        let inter_idx = self.nodes.len();
        self.nodes.push(
            TrieNode {
                value: inter_value,
                parent: par_idx,
                content: TrieNodeContent::Internal { children: inter_children },
            },
        );
        self.nodes[par_idx].try_remove_child(ndidx);
        self.nodes[par_idx].try_add_child(inter_idx);
        self.nodes[ndidx].parent = inter_idx;
        let leaf_idx = self.nodes.len();
        self.nodes.push(
            TrieNode { value: in_chars, parent: inter_idx, content: TrieNodeContent::Leaf { data } },
        );
        self.nodes[inter_idx].try_add_child(leaf_idx);
        proof {
            assert(self.children_of(inter_idx as int) =~= seq![ndidx, leaf_idx]);
            assert(self.splits(prev, m, l, key, data));
            self.lemma_splits(prev, m, l, key, data);
        }
        Ok(())
    }
}

} // verus!
