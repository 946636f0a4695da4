//! The arena of nodes, its invariants and its abstract view.
//!
//! A trie is a vector of nodes that name each other by index. Every node
//! stores the whole byte string spelled from the root down to it, so a child
//! extends the value of its parent. Leaves carry the characters; branch points
//! carry the lists of their children.

use crate::alias::{is_ascii_bytes, is_prefix};
use vstd::prelude::*;
use vstd::string::*;
use vstd::utf8::*;

pub use crate::traverse::TrieIter;

verus! {

/// What a node holds besides its string fragment.
#[derive(Debug)]
pub enum TrieNodeContent {
    /// A branch point: the indices of its children, in insertion order.
    Internal { children: Vec<usize> },
    /// A stored alias: the character it expands to.
    Leaf { data: char },
}

/// One node of the arena.
#[derive(Debug)]
pub struct TrieNode {
    /// The ASCII bytes spelled from the root down to this node.
    pub value: Vec<u8>,
    /// Index of the parent; the root names itself.
    pub parent: usize,
    pub content: TrieNodeContent,
}

/// The ways an operation on the trie can fail.
#[derive(Debug, Clone, Copy, PartialEq, Eq, Structural)]
pub enum TrieError {
    /// The alias to insert is already stored.
    DuplicateAlias,
    /// No leaf holds exactly the alias asked for.
    NotFound,
    /// The alias is empty or holds a character outside ASCII.
    InvalidAlias,
    /// A node that has to be a leaf is a branch point.
    InternalConsistency,
}

/// An append-only arena of nodes; index 0 is the root.
pub struct Trie {
    pub nodes: Vec<TrieNode>,
}

impl TrieNode {
    pub open spec fn is_leaf(&self) -> bool {
        self.content is Leaf
    }

    /// The child indices of a branch point; a leaf has none.
    pub open spec fn children(&self) -> Seq<usize> {
        match self.content {
            TrieNodeContent::Internal { children } => children@,
            TrieNodeContent::Leaf { .. } => Seq::empty(),
        }
    }

    /// Appends `child_idx` to the child list of a branch point. A leaf takes
    /// no child and stays as it is.
    pub fn try_add_child(&mut self, child_idx: usize) -> (added: bool)
        ensures
            added == !old(self).is_leaf(),
            final(self).value == old(self).value,
            final(self).parent == old(self).parent,
            final(self).is_leaf() == old(self).is_leaf(),
            added ==> final(self).children() == old(self).children().push(child_idx),
            !added ==> *final(self) == *old(self),
    {
        match &mut self.content {
            TrieNodeContent::Internal { children } => {
                children.push(child_idx);
                true
            },
            TrieNodeContent::Leaf { .. } => false,
        }
    }

    /// Takes the first occurrence of `child_idx` out of the child list of a
    /// branch point. A node that does not list it stays as it is.
    pub fn try_remove_child(&mut self, child_idx: usize) -> (removed: bool)
        ensures
            removed == old(self).children().contains(child_idx),
            final(self).value == old(self).value,
            final(self).parent == old(self).parent,
            final(self).is_leaf() == old(self).is_leaf(),
            removed ==> final(self).children() == old(self).children().remove(
                first_position(old(self).children(), child_idx),
            ),
            !removed ==> *final(self) == *old(self),
    {
        let mut found: Option<usize> = None;
        match &self.content {
            TrieNodeContent::Internal { children } => {
                let mut pos: usize = 0;
                while pos < children.len() && found.is_none()
                    invariant
                        0 <= pos <= children.len(),
                        children@ == self.children(),
                        found is None ==> forall|j: int| 0 <= j < pos ==> children@[j] != child_idx,
                        found matches Some(k) ==> k < children.len() && children@[k as int]
                            == child_idx && forall|j: int| 0 <= j < k ==> children@[j] != child_idx,
                    decreases children.len() - pos + if found is None {
                        1int
                    } else {
                        0int
                    },
                {
                    if children[pos] == child_idx {
                        found = Some(pos);
                    } else {
                        pos += 1;
                    }
                }
            },
            TrieNodeContent::Leaf { .. } => {},
        }
        match found {
            Some(k) => {
                match &mut self.content {
                    TrieNodeContent::Internal { children } => {
                        children.remove(k);
                    },
                    TrieNodeContent::Leaf { .. } => {},
                }
                true
            },
            None => false,
        }
    }

    /// The value as a string slice.
    pub fn value_str(&self) -> (s: &str)
        requires
            valid_utf8(self.value@),
        ensures
            s.spec_bytes() == self.value@,
            s@ == decode_utf8(self.value@),
    {
        let s = str_from_utf8(self.value.as_slice()).unwrap();
        proof {
            encode_utf8_decode_utf8(s@);
        }
        s
    }
}

/// The first position at which `x` stands in `s`, where it stands in it.
pub open spec fn first_position(s: Seq<usize>, x: usize) -> int {
    choose|k: int| 0 <= k < s.len() && s[k] == x && forall|j: int| 0 <= j < k ==> s[j] != x
}

/// `std::str::from_utf8`: the string slice over `bytes` where they are valid
/// UTF-8, and nothing where they are not.
#[verifier::external_body]
fn str_from_utf8(bytes: &[u8]) -> (r: Option<&str>)
    ensures
        r is Some <==> valid_utf8(bytes@),
        r is Some ==> r->0.spec_bytes() == bytes@,
{
    std::str::from_utf8(bytes).ok()
}

impl Trie {
    pub open spec fn has_node(&self, i: int) -> bool {
        0 <= i < self.nodes.len()
    }

    pub open spec fn value_of(&self, i: int) -> Seq<u8> {
        self.nodes[i].value@
    }

    pub open spec fn parent_of(&self, i: int) -> int {
        self.nodes[i].parent as int
    }

    pub open spec fn children_of(&self, i: int) -> Seq<usize> {
        self.nodes[i].children()
    }

    pub open spec fn is_leaf(&self, i: int) -> bool {
        self.nodes[i].is_leaf()
    }

    /// The root is an empty branch point that names itself as its parent.
    pub open spec fn root_wf(&self) -> bool {
        &&& self.nodes.len() >= 1
        &&& self.value_of(0).len() == 0
        &&& self.parent_of(0) == 0
        &&& !self.is_leaf(0)
    }

    /// Node `i` hangs below a branch point that lists it and whose value it
    /// extends. A branch point is strictly longer than its parent; a leaf
    /// may repeat its parent's value, which then is an alias of its own.
    pub open spec fn node_wf(&self, i: int) -> bool {
        let p = self.parent_of(i);
        &&& self.has_node(p)
        &&& !self.is_leaf(p)
        &&& self.children_of(p).contains(i as usize)
        &&& is_prefix(self.value_of(p), self.value_of(i))
        &&& self.value_of(i).len() >= 1
        &&& !self.is_leaf(i) ==> self.value_of(p).len() < self.value_of(i).len()
    }

    /// The `k`-th child of `p` is a node other than the root, and names `p`
    /// as its parent.
    pub open spec fn child_wf(&self, p: int, k: int) -> bool {
        let c = self.children_of(p)[k] as int;
        &&& 0 < c < self.nodes.len()
        &&& self.parent_of(c) == p
    }

    /// Two children of `p` part ways right after the value of `p`: at most
    /// one of them stops there, and those that go on differ in their next byte.
    pub open spec fn siblings_wf(&self, p: int, k1: int, k2: int) -> bool {
        let c1 = self.children_of(p)[k1] as int;
        let c2 = self.children_of(p)[k2] as int;
        let l = self.value_of(p).len() as int;
        &&& !(self.value_of(c1).len() == l && self.value_of(c2).len() == l)
        &&& self.value_of(c1).len() > l && self.value_of(c2).len() > l ==> self.value_of(c1)[l]
            != self.value_of(c2)[l]
    }

    /// No two leaves store the same alias.
    pub open spec fn leaves_differ(&self, i: int, j: int) -> bool {
        self.is_leaf(i) && self.is_leaf(j) ==> self.value_of(i) != self.value_of(j)
    }

    /// The invariants of the arena.
    pub open spec fn wf(&self) -> bool {
        &&& self.root_wf()
        &&& forall|i: int| 0 < i < self.nodes.len() ==> #[trigger] self.node_wf(i)
        &&& forall|p: int, k: int|
            self.has_node(p) && 0 <= k < self.children_of(p).len() ==> #[trigger] self.child_wf(
                p,
                k,
            )
        &&& forall|p: int, k1: int, k2: int|
            self.has_node(p) && 0 <= k1 < k2 < self.children_of(p).len()
                ==> #[trigger] self.siblings_wf(p, k1, k2)
        &&& forall|i: int, j: int|
            self.has_node(i) && self.has_node(j) && i != j ==> #[trigger] self.leaves_differ(i, j)
        &&& forall|i: int| self.has_node(i) ==> is_ascii_bytes(#[trigger] self.value_of(i))
    }

    /// Node `i` is the leaf that stores `key`.
    pub open spec fn stores(&self, i: int, key: Seq<u8>) -> bool {
        self.has_node(i) && self.is_leaf(i) && self.value_of(i) == key
    }

    /// Some leaf stores `key`.
    pub open spec fn has_key(&self, key: Seq<u8>) -> bool {
        exists|i: int| self.stores(i, key)
    }

    /// The leaf that stores `key`, where there is one.
    pub open spec fn leaf_for(&self, key: Seq<u8>) -> int {
        choose|i: int| self.stores(i, key)
    }

    /// The character that the leaf `i` carries.
    pub open spec fn data_of(&self, i: int) -> char {
        self.nodes[i].content->data
    }

    /// A leaf puts its value and its character into the view.
    pub proof fn lemma_leaf_in_view(&self, i: int)
        requires
            self.wf(),
            self.has_node(i),
            self.is_leaf(i),
        ensures
            self@.contains_key(self.value_of(i)),
            self@[self.value_of(i)] == self.data_of(i),
    {
        let key = self.value_of(i);
        assert(self.stores(i, key));
        let j = self.leaf_for(key);
        if j != i {
            assert(self.leaves_differ(i, j));
        }
    }

    /// A key of the view is stored in a leaf.
    pub proof fn lemma_key_has_leaf(&self, key: Seq<u8>) -> (i: int)
        requires
            self@.contains_key(key),
        ensures
            self.stores(i, key),
            self@[key] == self.data_of(i),
    {
        self.leaf_for(key)
    }

    /// Creates a trie that holds the root and nothing else.
    pub fn new() -> (t: Self)
        ensures
            t.wf(),
            t@ == Map::<Seq<u8>, char>::empty(),
            t.nodes.len() == 1,
    {
        let root = TrieNode {
            value: Vec::new(),
            parent: 0,
            content: TrieNodeContent::Internal { children: Vec::new() },
        };
        let mut nodes: Vec<TrieNode> = Vec::new();
        nodes.push(root);
        let t = Trie { nodes };
        assert(t@ =~= Map::<Seq<u8>, char>::empty()) by {
            assert forall|key: Seq<u8>| !t.has_key(key) by {
                assert forall|i: int| !t.stores(i, key) by {}
            }
        }
        t
    }
}

/// The stored aliases, each with its character, keyed by the alias's bytes.
impl View for Trie {
    type V = Map<Seq<u8>, char>;

    open spec fn view(&self) -> Map<Seq<u8>, char> {
        Map::new(|key: Seq<u8>| self.has_key(key), |key: Seq<u8>| self.data_of(self.leaf_for(key)))
    }
}

} // verus!
