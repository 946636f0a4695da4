use unialias_core::complete::MatchData;
use unialias_core::trie::{Trie, TrieError, TrieNode, TrieNodeContent};

fn build(entries: &[(&str, char)]) -> Trie {
    let mut trie = Trie::new();
    for (alias, data) in entries {
        assert_eq!(trie.append_leaf(alias.to_string(), *data), Ok(()));
    }
    trie
}

fn children(trie: &Trie, idx: usize) -> Vec<usize> {
    match &trie.nodes[idx].content {
        TrieNodeContent::Internal { children } => children.clone(),
        TrieNodeContent::Leaf { .. } => panic!("node {} is a leaf", idx),
    }
}

fn leaf_data(trie: &Trie, idx: usize) -> char {
    match &trie.nodes[idx].content {
        TrieNodeContent::Leaf { data } => *data,
        TrieNodeContent::Internal { .. } => panic!("node {} is a branch point", idx),
    }
}

fn shape(trie: &Trie) -> String {
    format!("{:?}", trie.nodes)
}

fn walk(trie: &Trie, start: usize) -> Vec<(usize, usize)> {
    let mut it = trie.iter(&start);
    let mut out = Vec::new();
    while let Some(item) = it.next() {
        out.push(item);
    }
    out
}

/// Checks the invariants of the arena node by node.
fn check_invariants(trie: &Trie) {
    assert!(trie.is_well_formed());
    let nodes = &trie.nodes;
    assert!(!nodes.is_empty());
    assert!(nodes[0].value.is_empty());
    assert_eq!(nodes[0].parent, 0);
    assert!(matches!(nodes[0].content, TrieNodeContent::Internal { .. }));
    for (i, node) in nodes.iter().enumerate() {
        assert!(node.value.is_ascii());
        if i != 0 {
            let parent = &nodes[node.parent];
            assert!(children(trie, node.parent).contains(&i));
            assert!(node.value.starts_with(&parent.value));
            assert!(!node.value.is_empty());
            if let TrieNodeContent::Internal { .. } = node.content {
                assert!(node.value.len() > parent.value.len());
            }
        }
        if let TrieNodeContent::Internal { children: kids } = &node.content {
            let at = node.value.len();
            let mut seen_bytes: Vec<u8> = Vec::new();
            let mut stops = 0;
            for &c in kids {
                assert!(c != 0 && c < nodes.len());
                assert_eq!(nodes[c].parent, i);
                if nodes[c].value.len() == at {
                    stops += 1;
                    assert!(matches!(nodes[c].content, TrieNodeContent::Leaf { .. }));
                } else {
                    let b = nodes[c].value[at];
                    assert!(!seen_bytes.contains(&b));
                    seen_bytes.push(b);
                }
            }
            assert!(stops <= 1);
        }
    }
    for i in 0..nodes.len() {
        for j in (i + 1)..nodes.len() {
            let both_leaves = matches!(nodes[i].content, TrieNodeContent::Leaf { .. })
                && matches!(nodes[j].content, TrieNodeContent::Leaf { .. });
            if both_leaves {
                assert_ne!(nodes[i].value, nodes[j].value);
            }
        }
    }
}

#[test]
fn new_trie_holds_only_the_root() {
    let trie = Trie::new();
    assert_eq!(trie.nodes.len(), 1);
    assert!(trie.nodes[0].value.is_empty());
    assert_eq!(trie.nodes[0].parent, 0);
    assert_eq!(children(&trie, 0), Vec::<usize>::new());
    check_invariants(&trie);
}

#[test]
fn round_trip_in_any_order() {
    let entries = [
        ("example", 'a'),
        ("examine", 'b'),
        ("except", 'c'),
        ("execution", 'd'),
        ("element", 'e'),
        ("alpha", '\u{3b1}'),
        ("alpaca", 'g'),
        ("alphamale", 'h'),
        ("a", 'i'),
        ("ex", 'j'),
    ];
    let mut forward = entries.to_vec();
    let mut backward = entries.to_vec();
    backward.reverse();
    let mut rotated = entries.to_vec();
    rotated.rotate_left(4);
    for order in [&mut forward, &mut backward, &mut rotated] {
        let trie = build(order);
        check_invariants(&trie);
        for (alias, data) in entries.iter() {
            assert_eq!(trie.find_value(alias), Ok(*data));
        }
    }
}

#[test]
fn first_leaf_hangs_below_the_root() {
    let trie = build(&[("alpha", 'a')]);
    assert_eq!(trie.nodes.len(), 2);
    assert_eq!(trie.nodes[1].value, b"alpha".to_vec());
    assert_eq!(trie.nodes[1].parent, 0);
    assert_eq!(leaf_data(&trie, 1), 'a');
    assert_eq!(children(&trie, 0), vec![1]);
}

#[test]
fn duplicate_is_rejected_and_changes_nothing() {
    let mut trie = build(&[("alpha", 'a'), ("alpaca", 'b'), ("alphamale", 'c')]);
    let before = shape(&trie);
    let count = trie.nodes.len();
    for alias in ["alpha", "alpaca", "alphamale"] {
        assert_eq!(trie.append_leaf(alias.to_string(), 'z'), Err(TrieError::DuplicateAlias));
        assert_eq!(trie.nodes.len(), count);
        assert_eq!(shape(&trie), before);
    }
    assert_eq!(trie.find_value("alpha"), Ok('a'));
    assert_eq!(trie.find_value("alpaca"), Ok('b'));
    assert_eq!(trie.find_value("alphamale"), Ok('c'));
}

#[test]
fn duplicate_of_an_alias_that_a_branch_point_spells() {
    let mut trie = build(&[("alphamale", 'm'), ("alpha", 'a')]);
    let before = shape(&trie);
    assert_eq!(trie.append_leaf("alpha".to_string(), 'x'), Err(TrieError::DuplicateAlias));
    assert_eq!(shape(&trie), before);
}

#[test]
fn split_scenario() {
    let trie = build(&[("alpha", 'a'), ("alpaca", 'b')]);
    check_invariants(&trie);
    assert_eq!(trie.nodes.len(), 4);
    // the new branch point
    assert_eq!(trie.nodes[2].value, b"alp".to_vec());
    assert_eq!(trie.nodes[2].parent, 0);
    assert_eq!(children(&trie, 2), vec![1, 3]);
    assert_eq!(children(&trie, 0), vec![2]);
    // its two leaves
    assert_eq!(trie.nodes[1].value, b"alpha".to_vec());
    assert_eq!(trie.nodes[1].parent, 2);
    assert_eq!(leaf_data(&trie, 1), 'a');
    assert_eq!(trie.nodes[3].value, b"alpaca".to_vec());
    assert_eq!(trie.nodes[3].parent, 2);
    assert_eq!(leaf_data(&trie, 3), 'b');
    assert_eq!(trie.find_max_match(b"alp"), (2, 3));
}

#[test]
fn split_puts_the_branch_point_last_among_its_siblings() {
    let trie = build(&[("alpha", 'a'), ("beta", 'b'), ("gamma", 'c'), ("alpaca", 'd')]);
    check_invariants(&trie);
    assert_eq!(children(&trie, 0), vec![2, 3, 4]);
    assert_eq!(trie.nodes[4].value, b"alp".to_vec());
    assert_eq!(children(&trie, 4), vec![1, 5]);
}

#[test]
fn split_of_a_branch_point() {
    let trie = build(&[("alpha", 'a'), ("alpaca", 'b'), ("alto", 'c')]);
    check_invariants(&trie);
    // "alp" (node 2) is split after "al"
    assert_eq!(trie.nodes[4].value, b"al".to_vec());
    assert_eq!(trie.nodes[4].parent, 0);
    assert_eq!(children(&trie, 0), vec![4]);
    assert_eq!(children(&trie, 4), vec![2, 5]);
    assert_eq!(trie.nodes[2].parent, 4);
    assert_eq!(children(&trie, 2), vec![1, 3]);
    assert_eq!(trie.nodes[5].value, b"alto".to_vec());
}

#[test]
fn prefix_of_a_stored_alias_can_be_inserted() {
    let trie = build(&[("alpha", 'a'), ("alp", 'p')]);
    check_invariants(&trie);
    assert_eq!(trie.nodes[2].value, b"alp".to_vec());
    assert_eq!(children(&trie, 2), vec![1, 3]);
    assert_eq!(trie.nodes[3].value, b"alp".to_vec());
    assert_eq!(trie.find_value("alp"), Ok('p'));
    assert_eq!(trie.find_value("alpha"), Ok('a'));
}

#[test]
fn alias_equal_to_a_branch_point_becomes_its_child() {
    let trie = build(&[("alpha", 'a'), ("alpaca", 'b'), ("alp", 'p')]);
    check_invariants(&trie);
    assert_eq!(trie.nodes.len(), 5);
    assert_eq!(children(&trie, 2), vec![1, 3, 4]);
    assert_eq!(trie.nodes[4].value, b"alp".to_vec());
    assert_eq!(trie.find_value("alp"), Ok('p'));
    assert_eq!(trie.find_max_match(b"alp"), (2, 3));
}

#[test]
fn exact_and_prefix_coexist() {
    let trie = build(&[("alpha", 'a'), ("alphamale", 'm')]);
    check_invariants(&trie);
    assert_eq!(trie.find_value("alpha"), Ok('a'));
    assert_eq!(trie.find_value("alphamale"), Ok('m'));
    let (node, len) = trie.find_max_match(b"alpha");
    assert_eq!(len, 5);
    assert_eq!(trie.nodes[node].value, b"alpha".to_vec());
    assert!(matches!(trie.nodes[node].content, TrieNodeContent::Internal { .. }));
    let list = trie.enumerate_from(node, 10);
    assert_eq!(list, vec![("alpha".to_string(), 'a'), ("alphamale".to_string(), 'm')]);
}

#[test]
fn enumeration_scenario() {
    let trie = build(&[("example", 'e'), ("except", 'x'), ("execution", 'c')]);
    check_invariants(&trie);
    let (node, len) = trie.find_max_match(b"exe");
    assert_eq!(len, 3);
    let list = trie.enumerate_from(node, 10);
    let names: Vec<&str> = list.iter().map(|(alias, _)| alias.as_str()).collect();
    assert!(names.contains(&"execution"));
    assert!(!names.contains(&"except"));
    assert_eq!(list, vec![("execution".to_string(), 'c')]);
    // one byte less, and all three are offered, in the order they came in
    let (node, len) = trie.find_max_match(b"ex");
    assert_eq!(len, 2);
    let list = trie.enumerate_from(node, 10);
    assert_eq!(
        list,
        vec![
            ("example".to_string(), 'e'),
            ("except".to_string(), 'x'),
            ("execution".to_string(), 'c'),
        ]
    );
}

#[test]
fn enumeration_stops_at_the_count() {
    let trie = build(&[("example", 'e'), ("except", 'x'), ("execution", 'c')]);
    let (node, _) = trie.find_max_match(b"ex");
    assert_eq!(trie.enumerate_from(node, 0), vec![]);
    assert_eq!(trie.enumerate_from(node, 1), vec![("example".to_string(), 'e')]);
    assert_eq!(
        trie.enumerate_from(node, 2),
        vec![("example".to_string(), 'e'), ("except".to_string(), 'x')]
    );
    assert_eq!(trie.enumerate_from(node, 3).len(), 3);
    assert_eq!(trie.enumerate_from(node, usize::MAX).len(), 3);
    assert_eq!(trie.leaves_from(node, 2), vec![1, 3]);
}

#[test]
fn empty_input_matches_the_root() {
    let trie = build(&[("alpha", 'a')]);
    assert_eq!(trie.find_max_match(b""), (0, 0));
    assert_eq!(Trie::new().find_max_match(b""), (0, 0));
    assert_eq!(Trie::new().find_max_match(b"abc"), (0, 0));
}

#[test]
fn invalid_aliases_are_refused() {
    let mut trie = build(&[("alpha", 'a')]);
    let before = shape(&trie);
    assert_eq!(trie.find_value(""), Err(TrieError::InvalidAlias));
    assert_eq!(trie.find_value("\u{e9}t\u{e9}"), Err(TrieError::InvalidAlias));
    assert_eq!(trie.append_leaf(String::new(), 'x'), Err(TrieError::InvalidAlias));
    assert_eq!(trie.append_leaf("caf\u{e9}".to_string(), 'x'), Err(TrieError::InvalidAlias));
    assert_eq!(shape(&trie), before);
    assert_eq!(trie.nodes.len(), 2);
}

#[test]
fn lookup_of_what_is_not_stored() {
    let trie = build(&[("alpha", 'a'), ("alpaca", 'b'), ("alphamale", 'c')]);
    // a prefix of an alias, inside a node and at a branch point
    assert_eq!(trie.find_value("al"), Err(TrieError::NotFound));
    assert_eq!(trie.find_value("alp"), Err(TrieError::NotFound));
    assert_eq!(trie.find_value("alpham"), Err(TrieError::NotFound));
    // longer than an alias, and unrelated
    assert_eq!(trie.find_value("alpacas"), Err(TrieError::NotFound));
    assert_eq!(trie.find_value("beta"), Err(TrieError::NotFound));
    assert_eq!(Trie::new().find_value("a"), Err(TrieError::NotFound));
}

#[test]
fn lookup_of_a_prefix_of_a_single_leaf() {
    let trie = build(&[("alpha", 'a')]);
    assert_eq!(trie.find_max_match(b"alp"), (1, 3));
    assert_eq!(trie.find_value("alp"), Err(TrieError::NotFound));
}

#[test]
fn match_is_maximal() {
    let trie = build(&[("alpha", 'a')]);
    // the match ends inside the only leaf
    assert_eq!(trie.find_max_match(b"alx"), (1, 2));
    assert_eq!(trie.find_max_match(b"alphabet"), (1, 5));
    assert_eq!(trie.find_max_match(b"beta"), (0, 0));
    let trie = build(&[("example", 'e'), ("except", 'x'), ("execution", 'c')]);
    assert_eq!(trie.find_max_match(b"execute"), (4, 6));
    assert_eq!(trie.find_max_match(b"exit"), (2, 2));
    assert_eq!(trie.find_max_match(b"e"), (2, 1));
    let inputs: [&[u8]; 6] = [b"execute", b"exit", b"e", b"exam", b"exceptional", b"zebra"];
    for input in inputs {
        let (node, len) = trie.find_max_match(input);
        assert!(len <= input.len());
        assert_eq!(&trie.nodes[node].value[..len], &input[..len]);
        for other in trie.nodes.iter() {
            let common = other.value.iter().zip(input.iter()).take_while(|(a, b)| a == b).count();
            assert!(common <= len);
        }
    }
}

#[test]
fn traversal_is_pre_order_with_depths() {
    let trie = build(&[
        ("example", 'e'),
        ("examine", 'e'),
        ("except", 'e'),
        ("execution", 'e'),
        ("element", 'e'),
        ("alpha", 'e'),
        ("alpaca", 'e'),
        ("alphamale", 'e'),
    ]);
    check_invariants(&trie);
    let order = walk(&trie, 0);
    let names: Vec<(String, usize)> = order
        .iter()
        .map(|&(idx, depth)| (trie.nodes[idx].value_str().to_string(), depth))
        .collect();
    let expected: Vec<(String, usize)> = [
        ("", 0),
        ("e", 1),
        ("ex", 2),
        ("exam", 3),
        ("example", 4),
        ("examine", 4),
        ("except", 3),
        ("execution", 3),
        ("element", 2),
        ("alp", 1),
        ("alpaca", 2),
        ("alpha", 2),
        ("alpha", 3),
        ("alphamale", 3),
    ]
    .iter()
    .map(|&(name, depth)| (name.to_string(), depth))
    .collect();
    assert_eq!(names, expected);
    assert_eq!(order.len(), trie.nodes.len());
}

#[test]
fn traversal_of_a_leaf_yields_the_leaf() {
    let trie = build(&[("alpha", 'a'), ("alpaca", 'b')]);
    assert_eq!(walk(&trie, 1), vec![(1, 0)]);
    assert_eq!(walk(&trie, 2), vec![(2, 0), (1, 1), (3, 1)]);
    let mut it = trie.iter(&3);
    assert_eq!(it.next(), Some((3, 0)));
    assert_eq!(it.next(), None);
    assert_eq!(it.next(), None);
}

#[test]
fn offers_for_an_input() {
    let trie = build(&[("example", 'e'), ("except", 'x'), ("execution", 'c'), ("alpha", 'a')]);
    let list: Vec<MatchData> = trie.find_matches("exc", 5);
    assert_eq!(list.len(), 1);
    assert_eq!(list[0].matchstr, "except");
    assert_eq!(list[0].matchlen, 3);
    assert_eq!(list[0].value, 'x');
    let list = trie.find_matches("ex", 2);
    assert_eq!(list.len(), 2);
    assert_eq!(list[0].matchstr, "example");
    assert_eq!(list[1].matchstr, "except");
    assert_eq!(list[1].matchlen, 2);
    // the match ends inside a leaf: the leaf is offered with the length matched
    let list = trie.find_matches("alx", 5);
    assert_eq!(list.len(), 1);
    assert_eq!(list[0].matchstr, "alpha");
    assert_eq!(list[0].matchlen, 2);
    assert_eq!(list[0].value, 'a');
}

#[test]
fn nothing_is_offered() {
    let trie = build(&[("example", 'e'), ("alpha", 'a')]);
    assert!(trie.find_matches("ex", 0).is_empty());
    assert!(trie.find_matches("", 5).is_empty());
    assert!(trie.find_matches("\u{e9}", 5).is_empty());
    // no alias starts with this byte: the match is the root
    assert!(trie.find_matches("zebra", 5).is_empty());
}

#[test]
fn children_are_added_and_removed() {
    let mut node = TrieNode {
        value: b"ab".to_vec(),
        parent: 0,
        content: TrieNodeContent::Internal { children: vec![4, 7, 4] },
    };
    assert!(node.try_add_child(9));
    assert!(node.try_remove_child(4));
    assert!(!node.try_remove_child(5));
    match &node.content {
        TrieNodeContent::Internal { children } => assert_eq!(children, &vec![7, 4, 9]),
        TrieNodeContent::Leaf { .. } => panic!("the node became a leaf"),
    }
    let mut leaf =
        TrieNode { value: b"ab".to_vec(), parent: 0, content: TrieNodeContent::Leaf { data: 'x' } };
    assert!(!leaf.try_add_child(1));
    assert!(!leaf.try_remove_child(1));
    assert!(matches!(leaf.content, TrieNodeContent::Leaf { data: 'x' }));
}

#[test]
fn value_as_a_string() {
    let trie = build(&[("alpha", 'a')]);
    assert_eq!(trie.nodes[1].value_str(), "alpha");
    assert_eq!(trie.nodes[0].value_str(), "");
}

#[test]
fn children_branch_apart_after_many_insertions() {
    let words = [
        "a", "ab", "abc", "abd", "b", "ba", "bab", "x", "xy", "xyz", "xyzzy", "xa", "abcde",
        "abcdf", "abx", "bb", "bbb", "bba", "c", "ca", "cab", "cabs", "cat", "cats", "catsup",
    ];
    let mut trie = Trie::new();
    for (i, word) in words.iter().enumerate() {
        let data = char::from_u32(0x3b1 + i as u32).unwrap();
        assert_eq!(trie.append_leaf(word.to_string(), data), Ok(()));
        check_invariants(&trie);
    }
    for (i, word) in words.iter().enumerate() {
        assert_eq!(trie.find_value(word), Ok(char::from_u32(0x3b1 + i as u32).unwrap()));
    }
    assert_eq!(trie.leaves_from(0, usize::MAX).len(), words.len());
}

#[test]
fn branch_point_in_the_place_of_a_leaf_is_reported() {
    // an arena put together by hand, against the invariants: the branch
    // point "a" has a child that is a branch point with the same value
    let root = TrieNode {
        value: Vec::new(),
        parent: 0,
        content: TrieNodeContent::Internal { children: vec![1] },
    };
    let outer = TrieNode {
        value: b"a".to_vec(),
        parent: 0,
        content: TrieNodeContent::Internal { children: vec![2] },
    };
    let inner = TrieNode {
        value: b"a".to_vec(),
        parent: 1,
        content: TrieNodeContent::Internal { children: vec![] },
    };
    let trie = Trie { nodes: vec![root, outer, inner] };
    assert_eq!(trie.find_value("a"), Err(TrieError::InternalConsistency));
}

fn branch(value: &[u8], parent: usize, children: Vec<usize>) -> TrieNode {
    TrieNode { value: value.to_vec(), parent, content: TrieNodeContent::Internal { children } }
}

fn leaf(value: &[u8], parent: usize, data: char) -> TrieNode {
    TrieNode { value: value.to_vec(), parent, content: TrieNodeContent::Leaf { data } }
}

#[test]
fn broken_arenas_are_told_apart() {
    let sound = || vec![branch(b"", 0, vec![1]), branch(b"a", 0, vec![2, 3]), leaf(b"ab", 1, 'x'), leaf(b"ac", 1, 'y')];
    assert!(Trie { nodes: sound() }.is_well_formed());
    assert!(!Trie { nodes: Vec::new() }.is_well_formed());
    // a root with a value, a root that is a leaf, a root below another node
    let mut nodes = sound();
    nodes[0].value = b"a".to_vec();
    assert!(!Trie { nodes }.is_well_formed());
    assert!(!Trie { nodes: vec![leaf(b"", 0, 'x')] }.is_well_formed());
    let mut nodes = sound();
    nodes[0].parent = 1;
    assert!(!Trie { nodes }.is_well_formed());
    // a parent that is no node, a parent that is a leaf, a parent that does not list the node
    let mut nodes = sound();
    nodes[3].parent = 9;
    assert!(!Trie { nodes }.is_well_formed());
    let mut nodes = sound();
    nodes[3].parent = 2;
    assert!(!Trie { nodes }.is_well_formed());
    let mut nodes = sound();
    nodes[1] = branch(b"a", 0, vec![2]);
    assert!(!Trie { nodes }.is_well_formed());
    // a value that does not extend the parent's, an empty leaf, a branch point no longer than its parent
    let mut nodes = sound();
    nodes[2].value = b"bb".to_vec();
    assert!(!Trie { nodes }.is_well_formed());
    assert!(!Trie { nodes: vec![branch(b"", 0, vec![1]), leaf(b"", 0, 'x')] }.is_well_formed());
    assert!(!Trie { nodes: vec![branch(b"", 0, vec![1]), branch(b"a", 0, vec![2]), branch(b"a", 1, vec![])] }
        .is_well_formed());
    // a child that is the root, a child that is no node, a child with another parent
    assert!(!Trie { nodes: vec![branch(b"", 0, vec![0])] }.is_well_formed());
    assert!(!Trie { nodes: vec![branch(b"", 0, vec![5])] }.is_well_formed());
    let mut nodes = sound();
    nodes[0] = branch(b"", 0, vec![1, 2]);
    assert!(!Trie { nodes }.is_well_formed());
    // two children with the same next byte, two children that stop where the parent stops
    let mut nodes = sound();
    nodes[3].value = b"abc".to_vec();
    assert!(!Trie { nodes }.is_well_formed());
    assert!(!Trie {
        nodes: vec![branch(b"", 0, vec![1]), branch(b"a", 0, vec![2, 3]), leaf(b"a", 1, 'x'), leaf(b"a", 1, 'y')]
    }
    .is_well_formed());
    // a child listed twice
    let mut nodes = sound();
    nodes[1] = branch(b"a", 0, vec![2, 3, 2]);
    assert!(!Trie { nodes }.is_well_formed());
    // a byte outside ASCII
    let mut nodes = sound();
    nodes[3].value = vec![b'a', 0xc3];
    assert!(!Trie { nodes }.is_well_formed());
}
