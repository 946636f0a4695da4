use unialias_core::dataset::{
    chars_of, parse_line, parse_unicode_dataset, LineError, LoadError, Record,
};
use unialias_core::trie::{Trie, TrieError};

fn entry(line: &str) -> (String, char) {
    match parse_line(line) {
        Ok(Record::Entry { alias, data }) => (alias, data),
        other => panic!("no entry in {:?}: {:?}", line, other),
    }
}

fn lines(text: &[&str]) -> Vec<String> {
    text.iter().map(|line| line.to_string()).collect()
}

#[test]
fn plain_entry() {
    assert_eq!(entry("alpha,\u{3b1}"), ("alpha".to_string(), '\u{3b1}'));
    assert_eq!(entry("a,b"), ("a".to_string(), 'b'));
}

#[test]
fn white_space_around_the_fields_does_not_count() {
    assert_eq!(entry("  alpha \t, \u{3b1}  "), ("alpha".to_string(), '\u{3b1}'));
    assert_eq!(entry("\u{a0}beta\u{2003},\u{3000}\u{3b2}"), ("beta".to_string(), '\u{3b2}'));
    // white space inside the alias stays
    assert_eq!(entry(" not equal , \u{2260}"), ("not equal".to_string(), '\u{2260}'));
}

#[test]
fn only_the_first_character_counts() {
    assert_eq!(entry("arrow,\u{2192} to the right"), ("arrow".to_string(), '\u{2192}'));
    // the first comma parts the fields; a later one can be the character
    assert_eq!(entry("comma,,"), ("comma".to_string(), ','));
    assert_eq!(entry("x, ,y"), ("x".to_string(), ','));
}

#[test]
fn comment_lines() {
    assert!(matches!(parse_line("# alias,character"), Ok(Record::Comment)));
    assert!(matches!(parse_line("#"), Ok(Record::Comment)));
    // a comment sign behind white space is part of an alias
    assert_eq!(entry(" #hash,#"), ("#hash".to_string(), '#'));
}

#[test]
fn refused_lines() {
    assert_eq!(parse_line("").err(), Some(LineError::MissingSeparator));
    assert_eq!(parse_line("alpha \u{3b1}").err(), Some(LineError::MissingSeparator));
    assert_eq!(parse_line(",\u{3b1}").err(), Some(LineError::EmptyAlias));
    assert_eq!(parse_line("  \t ,\u{3b1}").err(), Some(LineError::EmptyAlias));
    assert_eq!(parse_line("caf\u{e9},x").err(), Some(LineError::NonAsciiAlias));
    assert_eq!(parse_line("alpha,").err(), Some(LineError::MissingCharacter));
    assert_eq!(parse_line("alpha,  \t ").err(), Some(LineError::MissingCharacter));
    // an empty alias is reported before a missing character
    assert_eq!(parse_line(",").err(), Some(LineError::EmptyAlias));
}

#[test]
fn characters_of_a_line() {
    assert_eq!(chars_of(""), Vec::<char>::new());
    assert_eq!(chars_of("a\u{3b1},"), vec!['a', '\u{3b1}', ',']);
}

#[test]
fn load_stores_every_entry() {
    let mut trie = Trie::new();
    let text = lines(&["# greek", "alpha,\u{3b1}", " beta , \u{3b2}", "alphabet,\u{1f524}"]);
    assert_eq!(parse_unicode_dataset(&text, &mut trie), Ok(vec![]));
    assert_eq!(trie.find_value("alpha"), Ok('\u{3b1}'));
    assert_eq!(trie.find_value("beta"), Ok('\u{3b2}'));
    assert_eq!(trie.find_value("alphabet"), Ok('\u{1f524}'));
    assert_eq!(trie.find_value("greek"), Err(TrieError::NotFound));
}

#[test]
fn load_skips_an_alias_that_is_stored() {
    let mut trie = Trie::new();
    assert_eq!(trie.append_leaf("beta".to_string(), 'b'), Ok(()));
    let text = lines(&["alpha,1", "beta,2", "alpha,3", "gamma,4", " alpha ,5"]);
    assert_eq!(parse_unicode_dataset(&text, &mut trie), Ok(vec![1, 2, 4]));
    assert_eq!(trie.find_value("alpha"), Ok('1'));
    assert_eq!(trie.find_value("beta"), Ok('b'));
    assert_eq!(trie.find_value("gamma"), Ok('4'));
}

#[test]
fn load_ends_at_the_first_refused_line() {
    let mut trie = Trie::new();
    let text = lines(&["alpha,1", "beta", "gamma,3", ",4"]);
    assert_eq!(
        parse_unicode_dataset(&text, &mut trie),
        Err(LoadError { line: 1, error: LineError::MissingSeparator })
    );
    assert_eq!(trie.find_value("alpha"), Ok('1'));
    assert_eq!(trie.find_value("gamma"), Err(TrieError::NotFound));
    let mut trie = Trie::new();
    let text = lines(&["alpha,1", "", "gamma,3"]);
    assert_eq!(
        parse_unicode_dataset(&text, &mut trie),
        Err(LoadError { line: 1, error: LineError::MissingSeparator })
    );
}

#[test]
fn load_of_no_lines() {
    let mut trie = Trie::new();
    assert_eq!(parse_unicode_dataset(&Vec::new(), &mut trie), Ok(vec![]));
    assert_eq!(trie.nodes.len(), 1);
}
