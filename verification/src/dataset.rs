//! The lines of a dataset: one alias and its character to a line.
//!
//! A line reads `alias,character`. White space around the alias and before
//! the character does not count; a line that begins with `#` is a comment.

use crate::alias::alias_key;
use crate::insert::after_insert;
use crate::trie::Trie;
use vstd::prelude::*;
use vstd::std_specs::iter::IteratorSpec;
use vstd::string::*;
use vstd::utf8::*;

verus! {

/// Why a line is refused.
#[derive(Debug, Clone, Copy, PartialEq, Eq, Structural)]
pub enum LineError {
    /// The line holds no comma.
    MissingSeparator,
    /// Nothing but white space stands before the comma.
    EmptyAlias,
    /// The alias holds a character outside ASCII.
    NonAsciiAlias,
    /// Nothing but white space stands behind the comma.
    MissingCharacter,
}

/// What a line holds.
#[derive(Debug)]
pub enum Record {
    /// A comment: nothing to store.
    Comment,
    /// An alias and the character it stands for.
    Entry { alias: String, data: char },
}

impl View for Record {
    type V = Option<(Seq<char>, char)>;

    open spec fn view(&self) -> Option<(Seq<char>, char)> {
        match self {
            Record::Comment => None,
            Record::Entry { alias, data } => Some((alias@, *data)),
        }
    }
}

/// What `char::is_whitespace` answers for `c`.
pub uninterp spec fn is_whitespace(c: char) -> bool;

/// `char::is_whitespace`: whether `c` is white space as Unicode defines it.
#[verifier::external_body]
fn char_is_whitespace(c: char) -> (b: bool)
    ensures
        b == is_whitespace(c),
{
    c.is_whitespace()
}

/// `s` without the white space at its start.
pub open spec fn trim_start(s: Seq<char>) -> Seq<char>
    decreases s.len(),
{
    if s.len() > 0 && is_whitespace(s[0]) {
        trim_start(s.drop_first())
    } else {
        s
    }
}

/// `s` without the white space at its end.
pub open spec fn trim_end(s: Seq<char>) -> Seq<char>
    decreases s.len(),
{
    if s.len() > 0 && is_whitespace(s.last()) {
        trim_end(s.drop_last())
    } else {
        s
    }
}

/// `s` without the white space at its start and at its end.
pub open spec fn trim(s: Seq<char>) -> Seq<char> {
    trim_end(trim_start(s))
}

/// The first comma of `line` stands at position `i`.
pub open spec fn first_comma_at(line: Seq<char>, i: int) -> bool {
    &&& 0 <= i < line.len()
    &&& line[i] == ','
    &&& forall|j: int| 0 <= j < i ==> line[j] != ','
}

/// The position of the first comma of `line`, where it holds one.
pub open spec fn first_comma(line: Seq<char>) -> int {
    choose|i: int| first_comma_at(line, i)
}

/// What a line means. A line that begins with `#` is a comment. Any other
/// line needs a comma: what stands before the first one, trimmed, is the
/// alias, which has to be non-empty ASCII; the first character behind it
/// that is no white space is the character.
pub open spec fn parse_record(line: Seq<char>) -> Result<Option<(Seq<char>, char)>, LineError> {
    if line.len() > 0 && line[0] == '#' {
        Ok(None)
    } else if !line.contains(',') {
        Err(LineError::MissingSeparator)
    } else {
        let at = first_comma(line);
        let alias = trim(line.take(at));
        let rest = trim_start(line.skip(at + 1));
        if alias.len() == 0 {
            Err(LineError::EmptyAlias)
        } else if !is_ascii_chars(alias) {
            Err(LineError::NonAsciiAlias)
        } else if rest.len() == 0 {
            Err(LineError::MissingCharacter)
        } else {
            Ok(Some((alias, rest[0])))
        }
    }
}

/// Trimming at the start leaves the part from the first character on that
/// is no white space.
pub proof fn lemma_trim_start(s: Seq<char>, a: int)
    requires
        0 <= a <= s.len(),
        forall|j: int| 0 <= j < a ==> is_whitespace(#[trigger] s[j]),
        a < s.len() ==> !is_whitespace(s[a]),
    ensures
        trim_start(s) == s.skip(a),
    decreases a,
{
    if a == 0 {
        assert(s.skip(0) =~= s);
    } else {
        assert(is_whitespace(s[0]));
        let t = s.drop_first();
        assert forall|j: int| 0 <= j < a - 1 implies is_whitespace(#[trigger] t[j]) by {
            assert(t[j] == s[j + 1]);
        }
        lemma_trim_start(t, a - 1);
        assert(t.skip(a - 1) =~= s.skip(a));
    }
}

/// Trimming at the end leaves the part up to the last character that is
/// no white space.
pub proof fn lemma_trim_end(s: Seq<char>, b: int)
    requires
        0 <= b <= s.len(),
        forall|j: int| b <= j < s.len() ==> is_whitespace(#[trigger] s[j]),
        0 < b ==> !is_whitespace(s[b - 1]),
    ensures
        trim_end(s) == s.take(b),
    decreases s.len() - b,
{
    if b == s.len() {
        assert(s.take(b) =~= s);
    } else {
        assert(is_whitespace(s[s.len() - 1]));
        let t = s.drop_last();
        assert forall|j: int| b <= j < t.len() implies is_whitespace(#[trigger] t[j]) by {
            assert(t[j] == s[j]);
        }
        lemma_trim_end(t, b);
        assert(t.take(b) =~= s.take(b));
    }
}

/// No character lies below the first one.
pub proof fn lemma_char_is_not_negative(c: char)
    ensures
        '\0' <= c,
{
}

/// The characters of `line`, one by one.
pub fn chars_of(line: &str) -> (chars: Vec<char>)
    ensures
        chars@ == line@,
{
    broadcast use {axiom_spec_iter, next_postcondition};

    let mut chars: Vec<char> = Vec::new();
    let mut it = line.chars();
    loop
        invariant
            chars@ + it.remaining() == line@,
            it.decrease() is Some,
        ensures
            chars@ == line@,
        decreases it.decrease()->0,
    {
        match it.next() {
            Some(c) => {
                chars.push(c);
                assert(chars@ + it.remaining() =~= line@);
            },
            None => {
                assert(chars@ =~= line@);
                break ;
            },
        }
    }
    chars
}

/// Reads one line of a dataset.
#[verifier::loop_isolation(false)]
pub fn parse_line(line: &str) -> (r: Result<Record, LineError>)
    ensures
        match r {
            Ok(record) => parse_record(line@) == Ok::<Option<(Seq<char>, char)>, LineError>(
                record@,
            ),
            Err(e) => parse_record(line@) == Err::<Option<(Seq<char>, char)>, LineError>(e),
        },
{
    let chars = chars_of(line);
    let n = chars.len();
    if n > 0 && chars[0] == '#' {
        return Ok(Record::Comment);
    }
    let mut at: usize = 0;
    while at < n && chars[at] != ','
        invariant
            0 <= at <= n,
            n == chars.len(),
            forall|j: int| 0 <= j < at ==> chars@[j] != ',',
        decreases n - at,
    {
        at += 1;
    }
    if at == n {
        return Err(LineError::MissingSeparator);
    }
    proof {
        assert(first_comma_at(chars@, at as int));
        assert(chars@.contains(','));
        let other = first_comma(chars@);
        assert(first_comma_at(chars@, other));
        assert(other == at);
    }
    let ghost head = chars@.take(at as int);
    let ghost tail = chars@.skip(at + 1);
    let mut from: usize = 0;
    while from < at && char_is_whitespace(chars[from])
        invariant
            0 <= from <= at < n,
            n == chars.len(),
            forall|j: int| 0 <= j < from ==> is_whitespace(#[trigger] chars@[j]),
        decreases at - from,
    {
        from += 1;
    }
    let mut to: usize = at;
    while to > from && char_is_whitespace(chars[to - 1])
        invariant
            from <= to <= at < n,
            n == chars.len(),
            forall|j: int| to <= j < at ==> is_whitespace(#[trigger] chars@[j]),
        decreases to,
    {
        to -= 1;
    }
    let ghost alias = chars@.subrange(from as int, to as int);
    proof {
        assert forall|j: int| 0 <= j < from implies is_whitespace(#[trigger] head[j]) by {
            assert(head[j] == chars@[j]);
        }
        lemma_trim_start(head, from as int);
        let mid = head.skip(from as int);
        assert forall|j: int| to - from <= j < mid.len() implies is_whitespace(
            #[trigger] mid[j],
        ) by {
            assert(mid[j] == chars@[j + from]);
        }
        lemma_trim_end(mid, to - from);
        assert(mid.take(to - from) =~= alias);
        assert(trim(head) == alias);
    }
    if from == to {
        return Err(LineError::EmptyAlias);
    }
    let mut name = String::new();
    let mut k: usize = from;
    while k < to
        invariant
            from <= k <= to <= at < n,
            n == chars.len(),
            name@ == chars@.subrange(from as int, k as int),
            is_ascii_chars(name@),
        decreases to - k,
    {
        let c = chars[k];
        if c > '\u{7f}' {
            proof {
                assert(alias[k - from] == c);
            }
            return Err(LineError::NonAsciiAlias);
        }
        let ghost so_far = name@;
        name.push(c);
        assert(name@ =~= chars@.subrange(from as int, k + 1));
        assert forall|i: int| 0 <= i < name@.len() implies '\0' <= #[trigger] name@[i]
            <= '\u{7f}' by {
            if i < so_far.len() {
                assert(name@[i] == so_far[i]);
                assert('\0' <= so_far[i] <= '\u{7f}');
            } else {
                lemma_char_is_not_negative(name@[i]);
            }
        }
        k += 1;
    }
    let mut next: usize = at + 1;
    while next < n && char_is_whitespace(chars[next])
        invariant
            at < next <= n,
            n == chars.len(),
            forall|j: int| at < j < next ==> is_whitespace(#[trigger] chars@[j]),
        decreases n - next,
    {
        next += 1;
    }
    proof {
        assert forall|j: int| 0 <= j < next - at - 1 implies is_whitespace(#[trigger] tail[j]) by {
            assert(tail[j] == chars@[j + at + 1]);
        }
        lemma_trim_start(tail, next - at - 1);
        assert(tail.skip(next - at - 1) =~= chars@.skip(next as int));
    }
    if next == n {
        return Err(LineError::MissingCharacter);
    }
    Ok(Record::Entry { alias: name, data: chars[next] })
}

/// A line that was refused, and why.
#[derive(Debug, Clone, Copy, PartialEq, Eq, Structural)]
pub struct LoadError {
    /// The index of the line, the first line being 0.
    pub line: usize,
    pub error: LineError,
}

/// The lines as sequences of characters.
pub open spec fn lines_view(lines: Seq<String>) -> Seq<Seq<char>> {
    lines.map_values(|line: String| line@)
}

/// The view after the first `n` lines were loaded into a trie with the view
/// `stored`: every entry is inserted, in the order of the lines; comments
/// and refused lines store nothing.
pub open spec fn after_lines(stored: Map<Seq<u8>, char>, lines: Seq<Seq<char>>, n: int) -> Map<
    Seq<u8>,
    char,
>
    decreases n,
{
    if n <= 0 {
        stored
    } else {
        let before = after_lines(stored, lines, n - 1);
        match parse_record(lines[n - 1]) {
            Ok(Some((alias, data))) => after_insert(before, alias, data),
            _ => before,
        }
    }
}

/// Line `j` is an entry whose alias is stored already when its turn comes.
pub open spec fn repeats_alias(stored: Map<Seq<u8>, char>, lines: Seq<Seq<char>>, j: int) -> bool {
    match parse_record(lines[j]) {
        Ok(Some((alias, _))) => after_lines(stored, lines, j).contains_key(alias_key(alias)),
        _ => false,
    }
}

/// The indices of the lines among the first `n` that repeat an alias, in
/// rising order.
pub open spec fn repeated_lines(stored: Map<Seq<u8>, char>, lines: Seq<Seq<char>>, n: int) -> Seq<
    usize,
>
    decreases n,
{
    if n <= 0 {
        Seq::empty()
    } else if repeats_alias(stored, lines, n - 1) {
        repeated_lines(stored, lines, n - 1).push((n - 1) as usize)
    } else {
        repeated_lines(stored, lines, n - 1)
    }
}

/// Loads the lines of a dataset into `trie`.
///
/// The lines are read in order and every entry is inserted. An entry whose
/// alias is stored already is skipped; the indices of the skipped lines
/// are returned. The first line that is refused ends the load: the entries
/// before it stay in the trie, and the error names the line.
pub fn parse_unicode_dataset(lines: &Vec<String>, trie: &mut Trie) -> (r: Result<
    Vec<usize>,
    LoadError,
>)
    requires
        old(trie).wf(),
    ensures
        final(trie).wf(),
        match r {
            Ok(skipped) => {
                &&& forall|j: int|
                    0 <= j < lines.len() ==> parse_record(#[trigger] lines_view(lines@)[j]) is Ok
                &&& final(trie)@ == after_lines(
                    old(trie)@,
                    lines_view(lines@),
                    lines.len() as int,
                )
                &&& skipped@ == repeated_lines(old(trie)@, lines_view(lines@), lines.len() as int)
            },
            Err(e) => {
                &&& e.line < lines.len()
                &&& parse_record(lines_view(lines@)[e.line as int]) == Err::<
                    Option<(Seq<char>, char)>,
                    LineError,
                >(e.error)
                &&& forall|j: int|
                    0 <= j < e.line ==> parse_record(#[trigger] lines_view(lines@)[j]) is Ok
                &&& final(trie)@ == after_lines(old(trie)@, lines_view(lines@), e.line as int)
            },
        },
{
    let ghost text = lines_view(lines@);
    let ghost stored = trie@;
    let mut skipped: Vec<usize> = Vec::new();
    let mut j: usize = 0;
    while j < lines.len()
        invariant
            0 <= j <= lines.len(),
            trie.wf(),
            text == lines_view(lines@),
            stored == old(trie)@,
            forall|i: int| 0 <= i < j ==> parse_record(#[trigger] text[i]) is Ok,
            trie@ == after_lines(stored, text, j as int),
            skipped@ == repeated_lines(stored, text, j as int),
        decreases lines.len() - j,
    {
        assert(text[j as int] == lines@[j as int]@);
        match parse_line(lines[j].as_str()) {
            Err(error) => {
                return Err(LoadError { line: j, error });
            },
            Ok(Record::Comment) => {},
            Ok(Record::Entry { alias, data }) => {
                match trie.append_leaf(alias, data) {
                    Ok(()) => {},
                    Err(_) => {
                        skipped.push(j);
                    },
                }
            },
        }
        j += 1;
    }
    Ok(skipped)
}

} // verus!
