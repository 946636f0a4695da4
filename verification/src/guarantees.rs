//! What holds of every trie, whatever was inserted and in whatever order.

use crate::alias::{agree, alias_key, valid_alias};
use crate::insert::{after_insert, insert_result};
use crate::lookup::lookup_result;
use crate::trie::{Trie, TrieError};
use vstd::prelude::*;
use vstd::utf8::*;

verus! {

/// The view after the entries of `entries` were inserted one after the
/// other, first to last, into a trie with the view `stored`.
pub open spec fn after_inserts(stored: Map<Seq<u8>, char>, entries: Seq<(Seq<char>, char)>) -> Map<
    Seq<u8>,
    char,
>
    decreases entries.len(),
{
    if entries.len() == 0 {
        stored
    } else {
        after_insert(after_inserts(stored, entries.drop_last()), entries.last().0, entries.last().1)
    }
}

/// Different aliases are stored under different keys.
pub proof fn lemma_alias_key_injective(a: Seq<char>, b: Seq<char>)
    requires
        alias_key(a) == alias_key(b),
    ensures
        a == b,
{
    encode_utf8_decode_utf8(a);
    encode_utf8_decode_utf8(b);
}

/// An alias that was inserted is found afterwards, with the character it
/// was inserted with.
pub proof fn lemma_lookup_after_insert(stored: Map<Seq<u8>, char>, alias: Seq<char>, data: char)
    requires
        insert_result(stored, alias) is Ok,
    ensures
        lookup_result(after_insert(stored, alias, data), alias) == Ok::<char, TrieError>(data),
{
}

/// An insertion changes the answer for no other alias.
pub proof fn lemma_insert_keeps_others(
    stored: Map<Seq<u8>, char>,
    alias: Seq<char>,
    data: char,
    other: Seq<char>,
)
    requires
        other != alias,
    ensures
        lookup_result(after_insert(stored, alias, data), other) == lookup_result(stored, other),
{
    if alias_key(other) == alias_key(alias) {
        lemma_alias_key_injective(other, alias);
    }
}

/// Round trip: after valid aliases, no two of them the same, were inserted
/// into an empty trie in any order, each of them is found with its own
/// character.
pub proof fn lemma_round_trip(entries: Seq<(Seq<char>, char)>, i: int)
    requires
        forall|j: int| 0 <= j < entries.len() ==> valid_alias(#[trigger] entries[j].0),
        forall|j: int, k: int|
            0 <= j < k < entries.len() ==> #[trigger] entries[j].0 != #[trigger] entries[k].0,
        0 <= i < entries.len(),
    ensures
        lookup_result(after_inserts(Map::empty(), entries), entries[i].0) == Ok::<char, TrieError>(
            entries[i].1,
        ),
    decreases entries.len(),
{
    let init = entries.drop_last();
    let last = entries.last();
    let before = after_inserts(Map::empty(), init);
    lemma_keys_after_inserts(init, alias_key(last.0));
    if before.contains_key(alias_key(last.0)) {
        let j = choose|j: int| 0 <= j < init.len() && alias_key(init[j].0) == alias_key(last.0);
        lemma_alias_key_injective(init[j].0, last.0);
        assert(entries[j].0 == entries[entries.len() - 1].0);
    }
    if i == entries.len() - 1 {
        lemma_lookup_after_insert(before, last.0, last.1);
    } else {
        assert(init[i] == entries[i]);
        lemma_round_trip(init, i);
        assert(entries[i].0 != entries[entries.len() - 1].0);
        lemma_insert_keeps_others(before, last.0, last.1, entries[i].0);
    }
}

/// Inserting into an empty trie stores no key but those of the entries.
pub proof fn lemma_keys_after_inserts(entries: Seq<(Seq<char>, char)>, key: Seq<u8>)
    ensures
        after_inserts(Map::empty(), entries).contains_key(key) ==> exists|j: int|
            0 <= j < entries.len() && alias_key(#[trigger] entries[j].0) == key,
    decreases entries.len(),
{
    if entries.len() > 0 {
        let init = entries.drop_last();
        lemma_keys_after_inserts(init, key);
        if after_inserts(Map::empty(), entries).contains_key(key) {
            if after_inserts(Map::empty(), init).contains_key(key) {
                let j = choose|j: int| 0 <= j < init.len() && alias_key(#[trigger] init[j].0) == key;
                assert(entries[j] == init[j]);
                assert(alias_key(entries[j].0) == key);
            } else {
                assert(alias_key(entries[entries.len() - 1].0) == key);
            }
        }
    }
}

/// Duplicate rejection: a valid alias that was inserted is refused the
/// second time, whatever the character, and the second attempt changes
/// nothing.
pub proof fn lemma_duplicate_rejected(
    stored: Map<Seq<u8>, char>,
    alias: Seq<char>,
    first: char,
    second: char,
)
    requires
        valid_alias(alias),
    ensures
        insert_result(after_insert(stored, alias, first), alias) == Err::<(), TrieError>(
            TrieError::DuplicateAlias,
        ),
        after_insert(after_insert(stored, alias, first), alias, second) == after_insert(
            stored,
            alias,
            first,
        ),
{
}

/// An alias that is empty or not ASCII is refused by lookup and insertion
/// alike, and the insertion changes nothing.
pub proof fn lemma_invalid_alias_refused(stored: Map<Seq<u8>, char>, alias: Seq<char>, data: char)
    requires
        !valid_alias(alias),
    ensures
        lookup_result(stored, alias) == Err::<char, TrieError>(TrieError::InvalidAlias),
        insert_result(stored, alias) == Err::<(), TrieError>(TrieError::InvalidAlias),
        after_insert(stored, alias, data) == stored,
{
}

impl Trie {
    /// Prefix maximality: the longest-prefix match `(m, l)` of `input` names
    /// a node that spells the first `l` bytes of `input`, and no node
    /// shares more than `l` leading bytes with `input`. Where the match
    /// uses up the whole value of `m`, that value is the first `l` bytes of
    /// `input`.
    pub proof fn lemma_prefix_maximality(&self, input: Seq<u8>, m: int, l: int, x: int, k: int)
        requires
            self.wf(),
            self.is_max_match(input, m, l),
            self.has_node(x),
            agree(self.value_of(x), input, k),
        ensures
            k <= l,
            self.value_of(m).take(l) == input.take(l),
            l == self.value_of(m).len() ==> self.value_of(m) == input.take(l),
    {
        assert(self.value_of(m).take(l) =~= input.take(l));
        if l == self.value_of(m).len() {
            assert(self.value_of(m) =~= input.take(l));
        }
    }

    /// The empty input matches the root with length 0.
    pub proof fn lemma_empty_input_matches_root(&self)
        requires
            self.wf(),
        ensures
            self.max_match(Seq::empty()) == (0int, 0int),
    {
        let (m, l) = self.max_match(Seq::empty());
        assert(self.is_max_match(Seq::empty(), 0, 0)) by {
            assert forall|x: int| self.has_node(x) implies #[trigger] self.is_ancestor(0, x) by {
                self.lemma_root_is_ancestor(x);
            }
        }
        self.lemma_max_match_is(Seq::empty(), 0, 0);
    }

    /// Branching uniqueness: of two children of one branch point that both
    /// go on after the value of their parent, the next bytes differ; and at
    /// most one child stops where the parent stops.
    pub proof fn lemma_branching_uniqueness(&self, p: int, k1: int, k2: int)
        requires
            self.wf(),
            self.has_node(p),
            0 <= k1 < self.children_of(p).len(),
            0 <= k2 < self.children_of(p).len(),
            k1 != k2,
        ensures
            self.children_of(p)[k1] != self.children_of(p)[k2],
            self.value_of(self.children_of(p)[k1] as int).len() >= self.value_of(p).len(),
            self.value_of(self.children_of(p)[k2] as int).len() >= self.value_of(p).len(),
            !(self.value_of(self.children_of(p)[k1] as int).len() == self.value_of(p).len()
                && self.value_of(self.children_of(p)[k2] as int).len() == self.value_of(p).len()),
            self.value_of(self.children_of(p)[k1] as int).len() > self.value_of(p).len()
                && self.value_of(self.children_of(p)[k2] as int).len() > self.value_of(p).len()
                ==> self.value_of(self.children_of(p)[k1] as int)[self.value_of(p).len() as int]
                != self.value_of(self.children_of(p)[k2] as int)[self.value_of(p).len() as int],
    {
        self.lemma_siblings(p, k1, k2);
        assert(self.child_wf(p, k1));
        assert(self.child_wf(p, k2));
        assert(self.node_wf(self.children_of(p)[k1] as int));
        assert(self.node_wf(self.children_of(p)[k2] as int));
    }
}

} // verus!
