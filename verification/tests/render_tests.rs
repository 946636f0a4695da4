use unialias_core::trie::Trie;

#[test]
fn empty_trie_renders_the_root_line() {
    assert_eq!(Trie::new().render(), "\n");
}

#[test]
fn nodes_are_indented_by_depth() {
    let mut trie = Trie::new();
    for (alias, data) in [("alpha", '\u{3b1}'), ("alpaca", 'l'), ("alphamale", 'm'), ("beta", 'b')]
    {
        assert_eq!(trie.append_leaf(alias.to_string(), data), Ok(()));
    }
    let expected = "\n    alp\n        alpaca(l)\n        alpha\n            alpha(\u{3b1})\n            alphamale(m)\n    beta(b)\n";
    assert_eq!(trie.render(), expected);
}
