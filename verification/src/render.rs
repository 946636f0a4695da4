//! The whole trie as indented text, one node to a line.

use crate::alias::{ascii_chars, lemma_ascii_bytes_are_utf8};
use crate::trie::{Trie, TrieNodeContent};
use vstd::prelude::*;
use vstd::string::*;

verus! {

/// `String::push` appends one character to the end of the string.
pub assume_specification[ String::push ](s: &mut String, ch: char)
    ensures
        final(s)@ == old(s)@.push(ch),
;

/// Four spaces for every level of depth.
pub open spec fn indent(depth: int) -> Seq<char>
    decreases depth,
{
    if depth <= 0 {
        Seq::empty()
    } else {
        indent(depth - 1) + seq![' ', ' ', ' ', ' ']
    }
}

impl Trie {
    /// The line for node `idx` at `depth`: the indentation, the value, for
    /// a leaf its character in round brackets, and a line feed.
    pub open spec fn line_of(&self, idx: int, depth: int) -> Seq<char> {
        indent(depth) + ascii_chars(self.value_of(idx)) + if self.is_leaf(idx) {
            seq!['(', self.data_of(idx), ')', '\n']
        } else {
            seq!['\n']
        }
    }

    /// The lines for `items`, one after the other.
    pub open spec fn lines_of(&self, items: Seq<(int, int)>) -> Seq<char>
        decreases items.len(),
    {
        if items.len() == 0 {
            Seq::empty()
        } else {
            self.lines_of(items.drop_last()) + self.line_of(items.last().0, items.last().1)
        }
    }

    /// Renders the trie for diagnostics: every node on a line of its own, in
    /// pre-order from the root, indented by its depth.
    pub fn render(&self) -> (text: String)
        requires
            self.wf(),
        ensures
            text@ == self.lines_of(self.preorder(0, 0)),
    {
        let mut text = String::new();
        let root: usize = 0;
        let ghost all = self.preorder(0, 0);
        let ghost mut seen: Seq<(int, int)> = Seq::empty();
        let mut it = self.iter(&root);
        proof {
            assert(seen + it.remaining() =~= all);
        }
        loop
            invariant
                self.wf(),
                it.wf(),
                it.trie() == self,
                seen + it.remaining() == all,
                text@ == self.lines_of(seen),
            ensures
                it.remaining().len() == 0,
            decreases it.remaining().len(),
        {
            let ghost before = it.remaining();
            let ghost start = text@;
            match it.next() {
                None => {
                    break ;
                },
                Some((idx, depth)) => {
                    let mut level: usize = 0;
                    while level < depth
                        invariant
                            0 <= level <= depth,
                            text@ == start + indent(level as int),
                        decreases depth - level,
                    {
                        proof {
                            reveal_strlit("    ");
                            assert("    "@ =~= seq![' ', ' ', ' ', ' ']);
                        }
                        text.append("    ");
                        level += 1;
                        assert(text@ =~= start + indent(level as int));
                    }
                    let node = &self.nodes[idx];
                    proof {
                        assert(node.value@ == self.value_of(idx as int));
                        lemma_ascii_bytes_are_utf8(node.value@);
                    }
                    text.append(node.value_str());
                    match &node.content {
                        TrieNodeContent::Leaf { data } => {
                            text.push('(');
                            text.push(*data);
                            text.push(')');
                        },
                        TrieNodeContent::Internal { .. } => {},
                    }
                    text.push('\n');
                    proof {
                        let item = before[0];
                        assert((seen.push(item)).drop_last() =~= seen);
                        assert(seen.push(item) + before.skip(1) =~= seen + before);
                        assert(text@ =~= start + self.line_of(idx as int, depth as int));
                        seen = seen.push(item);
                    }
                },
            }
        }
        proof {
            assert(seen =~= all);
        }
        text
    }
}

} // verus!
