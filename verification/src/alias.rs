//! Aliases as byte strings: prefixes, ASCII, and the bytes of a string.

use vstd::prelude::*;
use vstd::utf8::*;

verus! {

/// `a` and `b` have the same first `k` bytes.
pub open spec fn agree(a: Seq<u8>, b: Seq<u8>, k: int) -> bool {
    &&& 0 <= k <= a.len()
    &&& k <= b.len()
    &&& forall|j: int|
        #![trigger a[j]]
        #![trigger b[j]]
        0 <= j < k ==> a[j] == b[j]
}

/// `a` is a prefix of `b`, possibly all of it.
pub open spec fn is_prefix(a: Seq<u8>, b: Seq<u8>) -> bool {
    agree(a, b, a.len() as int)
}

/// Every byte is below 128.
pub open spec fn is_ascii_bytes(bytes: Seq<u8>) -> bool {
    forall|j: int| 0 <= j < bytes.len() ==> #[trigger] bytes[j] < 128
}

/// The characters that a string of ASCII bytes spells.
pub open spec fn ascii_chars(bytes: Seq<u8>) -> Seq<char> {
    Seq::new(bytes.len(), |j: int| bytes[j] as char)
}

/// An alias is a non-empty ASCII string.
pub open spec fn valid_alias(alias: Seq<char>) -> bool {
    alias.len() > 0 && is_ascii_chars(alias)
}

/// The bytes under which the trie stores an alias.
pub open spec fn alias_key(alias: Seq<char>) -> Seq<u8> {
    encode_utf8(alias)
}

/// ASCII bytes are the UTF-8 encoding of the characters they spell.
pub proof fn lemma_ascii_bytes_are_utf8(bytes: Seq<u8>)
    requires
        is_ascii_bytes(bytes),
    ensures
        is_ascii_chars(ascii_chars(bytes)),
        encode_utf8(ascii_chars(bytes)) == bytes,
        valid_utf8(bytes),
        decode_utf8(bytes) == ascii_chars(bytes),
{
    let chars = ascii_chars(bytes);
    assert forall|i: int| 0 <= i < chars.len() implies '\0' <= #[trigger] chars[i] <= '\u{7f}' by {
        assert(bytes[i] < 128);
    }
    is_ascii_chars_encode_utf8(chars);
    assert forall|i: int| 0 <= i < bytes.len() implies encode_utf8(chars)[i] == bytes[i] by {
        assert(bytes[i] < 128);
        assert(chars[i] as u8 == bytes[i]);
    }
    assert(encode_utf8(chars) =~= bytes);
    encode_utf8_valid_utf8(chars);
    encode_utf8_decode_utf8(chars);
}

/// The key of an ASCII string holds one ASCII byte for each character.
pub proof fn lemma_alias_key_is_ascii(alias: Seq<char>)
    requires
        is_ascii_chars(alias),
    ensures
        alias_key(alias).len() == alias.len(),
        is_ascii_bytes(alias_key(alias)),
        ascii_chars(alias_key(alias)) == alias,
{
    is_ascii_chars_encode_utf8(alias);
    let key = alias_key(alias);
    assert forall|j: int| 0 <= j < key.len() implies #[trigger] key[j] < 128 by {
        assert('\0' <= alias[j] <= '\u{7f}');
    }
    assert forall|j: int| 0 <= j < key.len() implies ascii_chars(key)[j] == alias[j] by {
        assert('\0' <= alias[j] <= '\u{7f}');
        assert(key[j] == alias[j] as u8);
    }
    assert(ascii_chars(key) =~= alias);
}

} // verus!
