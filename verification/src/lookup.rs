//! Longest-prefix match and exact lookup.

use crate::alias::{agree, alias_key, valid_alias};
use crate::trie::{Trie, TrieError, TrieNodeContent};
use vstd::prelude::*;
use vstd::string::*;

verus! {

impl Trie {
    /// `(m, l)` is the longest-prefix match of `input`.
    ///
    /// The first `l` bytes of `input` are the first `l` bytes of the value
    /// of `m`, and the parent of `m` is shorter than `l`: `m` is the
    /// shallowest node that spells those bytes. No node shares more than `l`
    /// leading bytes with `input`, and every node that shares `l` of them
    /// lies below `m`.
    pub open spec fn is_max_match(&self, input: Seq<u8>, m: int, l: int) -> bool {
        &&& self.has_node(m)
        &&& agree(self.value_of(m), input, l)
        &&& m != 0 ==> self.value_of(self.parent_of(m)).len() < l
        &&& forall|x: int, k: int|
            self.has_node(x) && #[trigger] agree(self.value_of(x), input, k) ==> k <= l
        &&& forall|x: int|
            self.has_node(x) && agree(self.value_of(x), input, l) ==> #[trigger] self.is_ancestor(
                m,
                x,
            )
    }

    /// The longest-prefix match of `input`: the one pair that
    /// [`Trie::is_max_match`] holds of.
    pub open spec fn max_match(&self, input: Seq<u8>) -> (int, int) {
        choose|r: (int, int)| self.is_max_match(input, r.0, r.1)
    }

    /// An input has one longest-prefix match and no other.
    pub proof fn lemma_max_match_unique(&self, input: Seq<u8>, m1: int, l1: int, m2: int, l2: int)
        requires
            self.wf(),
            self.is_max_match(input, m1, l1),
            self.is_max_match(input, m2, l2),
        ensures
            m1 == m2,
            l1 == l2,
    {
        assert(agree(self.value_of(m1), input, l1));
        assert(agree(self.value_of(m2), input, l2));
        assert(l1 == l2);
        assert(self.is_ancestor(m1, m2));
        assert(self.is_ancestor(m2, m1));
        self.lemma_ancestor_prefix(m1, m2);
        self.lemma_ancestor_prefix(m2, m1);
        if m1 != m2 {
            self.lemma_parent_rank(m2);
            self.lemma_ancestor_prefix(m1, self.parent_of(m2));
        }
    }

    /// A pair that is a longest-prefix match is the longest-prefix match.
    pub proof fn lemma_max_match_is(&self, input: Seq<u8>, m: int, l: int)
        requires
            self.wf(),
            self.is_max_match(input, m, l),
        ensures
            self.max_match(input) == (m, l),
    {
        let r = self.max_match(input);
        assert(self.is_max_match(input, (m, l).0, (m, l).1));
        self.lemma_max_match_unique(input, m, l, r.0, r.1);
    }

    /// The value of node `c` has the byte `b` at offset `at`.
    pub open spec fn goes_on_with(&self, c: int, at: int, b: u8) -> bool {
        self.value_of(c).len() > at && self.value_of(c)[at] == b
    }

    /// No child of `node` goes on with the byte `b` at offset `at`.
    pub open spec fn no_child_with(&self, node: int, at: int, b: u8) -> bool {
        forall|k: int|
            0 <= k < self.children_of(node).len() ==> !self.goes_on_with(
                #[trigger] self.children_of(node)[k] as int,
                at,
                b,
            )
    }

    /// Looks among the children of `node` for the first whose value has the
    /// byte `b` at offset `at`.
    pub fn find_child(&self, node: usize, at: usize, b: u8) -> (r: Option<usize>)
        requires
            self.wf(),
            self.has_node(node as int),
        ensures
            match r {
                Some(c) => {
                    &&& self.has_node(c as int)
                    &&& self.parent_of(c as int) == node
                    &&& self.value_of(c as int).len() > at
                    &&& self.value_of(c as int)[at as int] == b
                    &&& exists|k: int|
                        0 <= k < self.children_of(node as int).len() && self.children_of(
                            node as int,
                        )[k] == c && forall|j: int|
                            0 <= j < k ==> !self.goes_on_with(
                                #[trigger] self.children_of(node as int)[j] as int,
                                at as int,
                                b,
                            )
                },
                None => self.no_child_with(node as int, at as int, b),
            },
    {
        match &self.nodes[node].content {
            TrieNodeContent::Leaf { .. } => None,
            TrieNodeContent::Internal { children } => {
                let mut k: usize = 0;
                while k < children.len()
                    invariant
                        self.wf(),
                        self.has_node(node as int),
                        children@ == self.children_of(node as int),
                        0 <= k <= children.len(),
                        forall|j: int|
                            0 <= j < k ==> !self.goes_on_with(
                                #[trigger] self.children_of(node as int)[j] as int,
                                at as int,
                                b,
                            ),
                    decreases children.len() - k,
                {
                    let c = children[k];
                    assert(self.child_wf(node as int, k as int));
                    let value = &self.nodes[c].value;
                    if value.len() > at && value[at] == b {
                        return Some(c);
                    }
                    k += 1;
                }
                None
            },
        }
    }

    /// Finds the longest prefix of `input` that the trie spells, and the
    /// shallowest node that spells it. An empty input matches the root with
    /// length 0.
    pub fn find_max_match(&self, input: &[u8]) -> (r: (usize, usize))
        requires
            self.wf(),
        ensures
            self.is_max_match(input@, r.0 as int, r.1 as int),
            self.max_match(input@) == (r.0 as int, r.1 as int),
            r.1 <= input.len(),
    {
        let mut ndidx: usize = 0;
        let mut chidx: usize = 0;
        proof {
            assert forall|x: int| self.has_node(x) implies #[trigger] self.is_ancestor(0, x) by {
                self.lemma_root_is_ancestor(x);
            }
        }
        loop
            invariant_except_break
                self.wf(),
                self.has_node(ndidx as int),
                chidx <= input.len(),
                agree(self.value_of(ndidx as int), input@, chidx as int),
                ndidx != 0 ==> self.value_of(self.parent_of(ndidx as int)).len() < chidx,
                forall|x: int|
                    self.has_node(x) && agree(self.value_of(x), input@, chidx as int)
                        ==> #[trigger] self.is_ancestor(ndidx as int, x),
            ensures
                self.is_max_match(input@, ndidx as int, chidx as int),
                chidx <= input.len(),
            decreases input.len() - chidx,
        {
            let ghost entry = chidx as int;
            let cur_node = &self.nodes[ndidx];
            let nd_chars = &cur_node.value;
            while chidx < nd_chars.len() && chidx < input.len() && input[chidx] == nd_chars[chidx]
                invariant
                    nd_chars@ == self.value_of(ndidx as int),
                    entry <= chidx <= input.len(),
                    agree(nd_chars@, input@, chidx as int),
                decreases input.len() - chidx,
            {
                chidx += 1;
            }
            proof {
                assert forall|x: int|
                    self.has_node(x) && agree(self.value_of(x), input@, chidx as int)
                    implies #[trigger] self.is_ancestor(ndidx as int, x) by {
                    assert(agree(self.value_of(x), input@, entry));
                }
            }
            if chidx == input.len() {
                break ;
            }
            if chidx < nd_chars.len() {
                proof {
                    assert forall|x: int, k: int|
                        self.has_node(x) && #[trigger] agree(self.value_of(x), input@, k)
                        implies k <= chidx by {
                        if k > chidx {
                            assert(agree(self.value_of(x), input@, entry));
                            assert(self.is_ancestor(ndidx as int, x));
                            self.lemma_ancestor_prefix(ndidx as int, x);
                        }
                    }
                }
                break ;
            }
            let next = self.find_child(ndidx, chidx, input[chidx]);
            match next {
                None => {
                    proof {
                        assert forall|x: int, k: int|
                            self.has_node(x) && #[trigger] agree(self.value_of(x), input@, k)
                            implies k <= chidx by {
                            if k > chidx {
                                assert(agree(self.value_of(x), input@, entry));
                                assert(self.is_ancestor(ndidx as int, x));
                                let pos = self.lemma_descend(ndidx as int, x);
                            }
                        }
                    }
                    break ;
                },
                Some(child) => {
                    proof {
                        assert(self.node_wf(child as int));
                        let cpos = choose|j: int|
                            0 <= j < self.children_of(ndidx as int).len() && self.children_of(
                                ndidx as int,
                            )[j] == child;
                        assert forall|x: int|
                            self.has_node(x) && agree(self.value_of(x), input@, chidx + 1)
                            implies #[trigger] self.is_ancestor(child as int, x) by {
                            assert(agree(self.value_of(x), input@, entry));
                            assert(self.is_ancestor(ndidx as int, x));
                            let pos = self.lemma_descend(ndidx as int, x);
                            if pos != cpos {
                                self.lemma_siblings(ndidx as int, pos, cpos);
                            }
                        }
                    }
                    chidx += 1;
                    ndidx = child;
                },
            }
        }
        proof {
            self.lemma_max_match_is(input@, ndidx as int, chidx as int);
        }
        (ndidx, chidx)
    }
}

/// What an exact lookup of `alias` answers on a trie with the view `stored`.
pub open spec fn lookup_result(stored: Map<Seq<u8>, char>, alias: Seq<char>) -> Result<
    char,
    TrieError,
> {
    if !valid_alias(alias) {
        Err(TrieError::InvalidAlias)
    } else if stored.contains_key(alias_key(alias)) {
        Ok(stored[alias_key(alias)])
    } else {
        Err(TrieError::NotFound)
    }
}

impl Trie {
    /// Looks among the children of `node` for the first whose value is
    /// `len` bytes long.
    pub fn find_child_of_len(&self, node: usize, len: usize) -> (r: Option<usize>)
        requires
            self.wf(),
            self.has_node(node as int),
        ensures
            match r {
                Some(c) => {
                    &&& self.has_node(c as int)
                    &&& self.parent_of(c as int) == node
                    &&& self.value_of(c as int).len() == len
                    &&& exists|k: int|
                        0 <= k < self.children_of(node as int).len() && self.children_of(
                            node as int,
                        )[k] == c && forall|j: int|
                            0 <= j < k ==> self.value_of(
                                #[trigger] self.children_of(node as int)[j] as int,
                            ).len() != len
                },
                None => forall|k: int|
                    0 <= k < self.children_of(node as int).len() ==> self.value_of(
                        #[trigger] self.children_of(node as int)[k] as int,
                    ).len() != len,
            },
    {
        match &self.nodes[node].content {
            TrieNodeContent::Leaf { .. } => None,
            TrieNodeContent::Internal { children } => {
                let mut k: usize = 0;
                while k < children.len()
                    invariant
                        self.wf(),
                        self.has_node(node as int),
                        children@ == self.children_of(node as int),
                        0 <= k <= children.len(),
                        forall|j: int|
                            0 <= j < k ==> self.value_of(
                                #[trigger] self.children_of(node as int)[j] as int,
                            ).len() != len,
                    decreases children.len() - k,
                {
                    let c = children[k];
                    assert(self.child_wf(node as int, k as int));
                    if self.nodes[c].value.len() == len {
                        return Some(c);
                    }
                    k += 1;
                }
                None
            },
        }
    }

    /// Returns the character stored for `input`.
    ///
    /// An empty or non-ASCII input is no alias; an alias that no leaf
    /// stores is not found. A prefix of a stored alias is not itself stored.
    /// `InternalConsistency` is the answer only where a branch point stands
    /// in the place of a leaf, which the invariants rule out.
    pub fn find_value(&self, input: &str) -> (r: Result<char, TrieError>)
        requires
            self.wf(),
        ensures
            r == lookup_result(self@, input@),
    {
        if input.is_empty() || !input.is_ascii() {
            return Err(TrieError::InvalidAlias);
        }
        let bytes = input.as_bytes();
        let ghost key = alias_key(input@);
        let (midx, mlen) = self.find_max_match(bytes);
        if mlen != bytes.len() {
            proof {
                if self@.contains_key(key) {
                    let x = self.lemma_key_has_leaf(key);
                    assert(agree(self.value_of(x), key, key.len() as int));
                }
            }
            return Err(TrieError::NotFound);
        }
        let node = &self.nodes[midx];
        match &node.content {
            TrieNodeContent::Leaf { data } => {
                if node.value.len() == mlen {
                    proof {
                        assert(self.value_of(midx as int) =~= key);
                        self.lemma_leaf_in_view(midx as int);
                    }
                    Ok(*data)
                } else {
                    proof {
                        if self@.contains_key(key) {
                            let x = self.lemma_key_has_leaf(key);
                            assert(agree(self.value_of(x), key, mlen as int));
                            assert(self.is_ancestor(midx as int, x));
                            self.lemma_leaf_is_alone(midx as int, x);
                        }
                    }
                    Err(TrieError::NotFound)
                }
            },
            TrieNodeContent::Internal { .. } => {
                match self.find_child_of_len(midx, mlen) {
                    Some(cidx) => {
                        proof {
                            assert(self.node_wf(cidx as int));
                        }
                        match &self.nodes[cidx].content {
                            TrieNodeContent::Leaf { data } => {
                                proof {
                                    assert(self.value_of(cidx as int) =~= key);
                                    self.lemma_leaf_in_view(cidx as int);
                                }
                                Ok(*data)
                            },
                            TrieNodeContent::Internal { .. } => Err(TrieError::InternalConsistency),
                        }
                    },
                    None => {
                        proof {
                            if self@.contains_key(key) {
                                let x = self.lemma_key_has_leaf(key);
                                assert(agree(self.value_of(x), key, mlen as int));
                                assert(self.is_ancestor(midx as int, x));
                                self.lemma_child_toward(midx as int, x);
                                let e = self.child_toward(midx as int, x);
                                self.lemma_ancestor_prefix(e, x);
                                assert(self.node_wf(e));
                                let pos = self.lemma_position_in_parent(e);
                            }
                        }
                        Err(TrieError::NotFound)
                    },
                }
            },
        }
    }
}

} // verus!
