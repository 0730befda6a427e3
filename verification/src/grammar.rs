//! Character classes of the header-value grammar (RFC 2616, section 2.2) and the
//! correspondence between ASCII text and its bytes.

use vstd::prelude::*;
use vstd::std_specs::iter::IteratorSpec;
use vstd::utf8::{encode_utf8, is_ascii_chars, is_ascii_chars_encode_utf8};

verus! {

/// Horizontal tab.
pub const HT: u8 = 9;

/// Space.
pub const SP: u8 = 32;

/// The double quote that delimits a quoted string.
pub const DQUOTE: u8 = 34;

/// The comma that separates the items of a list.
pub const COMMA: u8 = 44;

/// The semicolon that introduces a parameter.
pub const SEMICOLON: u8 = 59;

/// The equals sign between a parameter's attribute and its value.
pub const EQUALS: u8 = 61;

/// The backslash that escapes one character inside a quoted string.
pub const BACKSLASH: u8 = 92;

/// Control characters: octets 0 to 31, and DEL.
pub open spec fn spec_is_ctl(b: u8) -> bool {
    b <= 31 || b == 127
}

/// Linear whitespace inside a header value: space or horizontal tab.
pub open spec fn spec_is_whitespace(b: u8) -> bool {
    b == SP || b == HT
}

/// The separator set: `( ) < > @ , ; : \ " / [ ] ? = { }`, space and tab.
pub open spec fn spec_is_separator(b: u8) -> bool {
    ||| b == 40 || b == 41  // ( )
    ||| b == 60 || b == 62  // < >
    ||| b == 64  // @
    ||| b == COMMA
    ||| b == SEMICOLON
    ||| b == 58  // :
    ||| b == BACKSLASH
    ||| b == DQUOTE
    ||| b == 47  // /
    ||| b == 91 || b == 93  // [ ]
    ||| b == 63  // ?
    ||| b == EQUALS
    ||| b == 123 || b == 125  // { }
    ||| b == SP
    ||| b == HT
}

/// A byte that may occur in a token: an ASCII character that is neither a
/// control character nor a separator.
pub open spec fn spec_is_token_byte(b: u8) -> bool {
    b < 128 && !spec_is_ctl(b) && !spec_is_separator(b)
}

/// Whether a byte is a control character.
#[verifier::when_used_as_spec(spec_is_ctl)]
pub fn is_ctl(b: u8) -> (r: bool)
    ensures
        r == spec_is_ctl(b),
{
    b <= 31 || b == 127
}

/// Whether a byte is a space or a tab.
#[verifier::when_used_as_spec(spec_is_whitespace)]
pub fn is_whitespace(b: u8) -> (r: bool)
    ensures
        r == spec_is_whitespace(b),
{
    b == SP || b == HT
}

/// Whether a byte is a separator.
#[verifier::when_used_as_spec(spec_is_separator)]
pub fn is_separator(b: u8) -> (r: bool)
    ensures
        r == spec_is_separator(b),
{
    b == 40 || b == 41 || b == 60 || b == 62 || b == 64 || b == COMMA || b == SEMICOLON || b == 58
        || b == BACKSLASH || b == DQUOTE || b == 47 || b == 91 || b == 93 || b == 63 || b == EQUALS
        || b == 123 || b == 125 || b == SP || b == HT
}

/// Whether a byte may occur in a token.
#[verifier::when_used_as_spec(spec_is_token_byte)]
pub fn is_token_byte(b: u8) -> (r: bool)
    ensures
        r == spec_is_token_byte(b),
{
    b < 128 && !is_ctl(b) && !is_separator(b)
}

/// A character that may occur in a token.
pub open spec fn is_token_char(c: char) -> bool {
    c <= '\u{7f}' && is_token_byte(c as u8)
}

/// The ASCII bytes of a text: each character as one byte.
pub open spec fn bytes_of(text: Seq<char>) -> Seq<u8> {
    Seq::new(text.len(), |i: int| text[i] as u8)
}

/// The text that a run of ASCII bytes spells: each byte as one character.
pub open spec fn chars_of(bytes: Seq<u8>) -> Seq<char> {
    Seq::new(bytes.len(), |i: int| bytes[i] as char)
}

/// Every byte is an ASCII octet (below 128).
pub open spec fn is_ascii_bytes(bytes: Seq<u8>) -> bool {
    forall|i: int| 0 <= i < bytes.len() ==> #[trigger] bytes[i] < 128
}

/// A token: one or more token characters.
pub open spec fn spec_is_token(text: Seq<char>) -> bool {
    text.len() > 0 && forall|i: int| 0 <= i < text.len() ==> is_token_char(#[trigger] text[i])
}

/// The ASCII lower-case form of one character.
pub open spec fn lower_char(c: char) -> char {
    if 'A' <= c <= 'Z' {
        ((c as u8) + 32) as char
    } else {
        c
    }
}

/// The ASCII lower-case form of a text; characters outside `A`..`Z` are kept.
pub open spec fn ascii_lower(text: Seq<char>) -> Seq<char> {
    Seq::new(text.len(), |i: int| lower_char(text[i]))
}

/// No character lies below NUL.
pub proof fn lemma_char_lower_bound(c: char)
    ensures
        '\0' <= c,
{
}

/// The UTF-8 encoding of ASCII text is the text's characters as bytes.
pub proof fn lemma_ascii_encoding(text: Seq<char>)
    requires
        is_ascii_chars(text),
    ensures
        encode_utf8(text) == bytes_of(text),
{
    is_ascii_chars_encode_utf8(text);
    assert(encode_utf8(text) =~= bytes_of(text));
}

/// Bytes and characters of ASCII text determine each other.
pub proof fn lemma_ascii_inverse(text: Seq<char>, bytes: Seq<u8>)
    ensures
        is_ascii_chars(text) ==> chars_of(bytes_of(text)) == text,
        is_ascii_bytes(bytes) ==> bytes_of(chars_of(bytes)) == bytes,
        is_ascii_bytes(bytes) ==> is_ascii_chars(chars_of(bytes)),
{
    if is_ascii_chars(text) {
        assert forall|i: int| 0 <= i < text.len() implies (text[i] as u8) as char == text[i] by {
            let c = text[i];
            assert('\0' <= c <= '\u{7f}');
        }
        assert(chars_of(bytes_of(text)) =~= text);
    }
    if is_ascii_bytes(bytes) {
        assert forall|i: int| 0 <= i < bytes.len() implies (bytes[i] as char) as u8
            == bytes[i] by {
            assert(bytes[i] < 128);
        }
        assert(bytes_of(chars_of(bytes)) =~= bytes);
        assert forall|i: int| 0 <= i < bytes.len() implies '\0' <= #[trigger] chars_of(bytes)[i]
            <= '\u{7f}' by {
            assert(bytes[i] < 128);
        }
    }
}

/// Appends one character to a string, by `String::push`: the string is then
/// its former text followed by that character.
#[verifier::external_body]
pub(crate) fn push_char(s: &mut String, c: char)
    ensures
        final(s)@ == old(s)@.push(c),
{
    s.push(c);
}

/// Whether a string is a token.
#[verifier::when_used_as_spec(spec_is_token_str)]
pub fn is_token(s: &str) -> (r: bool)
    ensures
        r == spec_is_token(s@),
{
    if !s.is_ascii() {
        proof {
            if spec_is_token(s@) {
                assert forall|i: int| 0 <= i < s@.len() implies '\0' <= #[trigger] s@[i]
                    <= '\u{7f}' by {
                    let c = s@[i];
                    assert(is_token_char(c));
                    lemma_char_lower_bound(c);
                }
            }
        }
        return false;
    }
    let bytes = s.as_bytes();
    proof {
        lemma_ascii_encoding(s@);
    }
    if bytes.len() == 0 {
        return false;
    }
    let mut i: usize = 0;
    while i < bytes.len()
        invariant
            i <= bytes.len(),
            bytes@ == bytes_of(s@),
            is_ascii_chars(s@),
            forall|j: int| 0 <= j < i ==> is_token_char(#[trigger] s@[j]),
        decreases bytes.len() - i,
    {
        if !is_token_byte(bytes[i]) {
            proof {
                assert(bytes@[i as int] == s@[i as int] as u8);
                assert(!is_token_char(s@[i as int]));
            }
            return false;
        }
        proof {
            assert(bytes@[i as int] == s@[i as int] as u8);
            assert('\0' <= s@[i as int] <= '\u{7f}');
        }
        i += 1;
    }
    true
}

/// A string whose text is a token.
pub open spec fn spec_is_token_str(s: &str) -> bool {
    spec_is_token(s@)
}

/// The ASCII lower-case form of a character.
#[verifier::when_used_as_spec(lower_char)]
pub fn to_ascii_lower(c: char) -> (r: char)
    ensures
        r == lower_char(c),
{
    if 'A' <= c && c <= 'Z' {
        ((c as u8) + 32) as char
    } else {
        c
    }
}

/// Whether two strings are equal but for the case of their ASCII letters.
pub fn eq_ignore_ascii_case(a: &str, b: &str) -> (r: bool)
    ensures
        r == (ascii_lower(a@) == ascii_lower(b@)),
{
    let mut left = a.chars();
    let mut right = b.chars();
    let ghost mut i: int = 0;
    proof {
        broadcast use vstd::string::group_string_axioms;

        assert(a@.skip(0) =~= a@);
        assert(b@.skip(0) =~= b@);
    }
    loop
        invariant
            0 <= i <= a@.len(),
            i <= b@.len(),
            left.remaining() == a@.skip(i),
            right.remaining() == b@.skip(i),
            left.obeys_prophetic_iter_laws(),
            right.obeys_prophetic_iter_laws(),
            left.decrease() is Some,
            forall|j: int| 0 <= j < i ==> lower_char(#[trigger] a@[j]) == lower_char(b@[j]),
        decreases left.decrease()->0,
    {
        broadcast use vstd::string::group_string_axioms;

        let x = left.next();
        let y = right.next();
        match (x, y) {
            (Some(c), Some(d)) => {
                proof {
                    assert(a@.skip(i)[0] == a@[i]);
                    assert(b@.skip(i)[0] == b@[i]);
                    assert(a@.skip(i).drop_first() =~= a@.skip(i + 1));
                    assert(b@.skip(i).drop_first() =~= b@.skip(i + 1));
                }
                if to_ascii_lower(c) != to_ascii_lower(d) {
                    proof {
                        assert(ascii_lower(a@)[i] != ascii_lower(b@)[i]);
                    }
                    return false;
                }
                proof {
                    i = i + 1;
                }
            },
            (None, None) => {
                proof {
                    assert(ascii_lower(a@) =~= ascii_lower(b@));
                }
                return true;
            },
            _ => {
                proof {
                    assert(ascii_lower(a@).len() != ascii_lower(b@).len());
                }
                return false;
            },
        }
    }
}

} // verus!
