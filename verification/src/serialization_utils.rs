//! Shared serialization helpers: the canonical text of tokens, quoted strings
//! and parameter lists, pushed onto a string or written, as UTF-8, to a byte
//! sink.

use vstd::prelude::*;
use vstd::std_specs::iter::IteratorSpec;
use vstd::utf8::{encode_scalar, encode_utf8};
use crate::grammar::{
    is_token, lemma_char_lower_bound, push_char, spec_is_token, BACKSLASH, DQUOTE, EQUALS,
    SEMICOLON,
};
use crate::syntax::ParameterText;

verus! {

/// One character of a quoted string's text as it stands between the quotes: a
/// double quote or a backslash behind a backslash, any other character bare.
pub open spec fn escaped_char(c: char) -> Seq<char> {
    if c == '"' || c == '\\' {
        seq!['\\', c]
    } else {
        seq![c]
    }
}

/// A text as it stands between the quotes of a quoted string.
pub open spec fn escaped(text: Seq<char>) -> Seq<char>
    decreases text.len(),
{
    if text.len() == 0 {
        Seq::empty()
    } else {
        escaped_char(text[0]) + escaped(text.drop_first())
    }
}

/// A text as a quoted string.
pub open spec fn quoted(text: Seq<char>) -> Seq<char> {
    seq!['"'] + escaped(text) + seq!['"']
}

/// A text as a parameter value: bare where it is a token, else quoted.
pub open spec fn maybe_quoted(text: Seq<char>) -> Seq<char> {
    if spec_is_token(text) {
        text
    } else {
        quoted(text)
    }
}

/// A parameter as `attribute=value`.
pub open spec fn parameter_text(parameter: ParameterText) -> Seq<char> {
    parameter.0 + seq!['='] + maybe_quoted(parameter.1)
}

/// A parameter list: each parameter behind a semicolon, in order.
pub open spec fn parameters_text(parameters: Seq<ParameterText>) -> Seq<char>
    decreases parameters.len(),
{
    if parameters.len() == 0 {
        Seq::empty()
    } else {
        seq![';'] + parameter_text(parameters[0]) + parameters_text(parameters.drop_first())
    }
}

/// Escaping goes through a text piece by piece.
pub proof fn lemma_escaped_concat(a: Seq<char>, b: Seq<char>)
    ensures
        escaped(a + b) == escaped(a) + escaped(b),
    decreases a.len(),
{
    if a.len() == 0 {
        assert(a + b =~= b);
        assert(escaped(a) + escaped(b) =~= escaped(b));
    } else {
        assert((a + b).drop_first() =~= a.drop_first() + b);
        lemma_escaped_concat(a.drop_first(), b);
        assert(escaped_char(a[0]) + (escaped(a.drop_first()) + escaped(b)) =~= (escaped_char(a[0])
            + escaped(a.drop_first())) + escaped(b));
    }
}

/// One more character behind a text is its escape behind the escaped text.
pub proof fn lemma_escaped_push(text: Seq<char>, c: char)
    ensures
        escaped(text.push(c)) == escaped(text) + escaped_char(c),
{
    let one = seq![c];
    assert(text.push(c) =~= text + one);
    lemma_escaped_concat(text, one);
    assert(escaped(one.drop_first()) =~= Seq::<char>::empty());
    assert(escaped(one) =~= escaped_char(c));
}

/// A parameter list goes through its parameters one by one.
pub proof fn lemma_parameters_text_concat(a: Seq<ParameterText>, b: Seq<ParameterText>)
    ensures
        parameters_text(a + b) == parameters_text(a) + parameters_text(b),
    decreases a.len(),
{
    if a.len() == 0 {
        assert(a + b =~= b);
        assert(parameters_text(a) + parameters_text(b) =~= parameters_text(b));
    } else {
        assert((a + b).drop_first() =~= a.drop_first() + b);
        lemma_parameters_text_concat(a.drop_first(), b);
        let first = seq![';'] + parameter_text(a[0]);
        assert(first + (parameters_text(a.drop_first()) + parameters_text(b)) =~= (first
            + parameters_text(a.drop_first())) + parameters_text(b));
    }
}

/// One more parameter behind a list is its text, behind a semicolon, behind
/// the text of the list.
pub proof fn lemma_parameters_text_push(parameters: Seq<ParameterText>, parameter: ParameterText)
    ensures
        parameters_text(parameters.push(parameter)) == parameters_text(parameters) + (seq![';']
            + parameter_text(parameter)),
{
    let one = seq![parameter];
    assert(parameters.push(parameter) =~= parameters + one);
    lemma_parameters_text_concat(parameters, one);
    assert(parameters_text(one.drop_first()) =~= Seq::<char>::empty());
    assert(parameters_text(one) =~= seq![';'] + parameter_text(parameter));
}

/// The UTF-8 encoding goes through a text piece by piece.
pub proof fn lemma_encode_concat(a: Seq<char>, b: Seq<char>)
    ensures
        encode_utf8(a + b) == encode_utf8(a) + encode_utf8(b),
    decreases a.len(),
{
    if a.len() == 0 {
        assert(a + b =~= b);
        assert(encode_utf8(a) + encode_utf8(b) =~= encode_utf8(b));
    } else {
        assert((a + b).drop_first() =~= a.drop_first() + b);
        lemma_encode_concat(a.drop_first(), b);
        let first = encode_scalar(a[0] as u32);
        assert(first + (encode_utf8(a.drop_first()) + encode_utf8(b)) =~= (first + encode_utf8(
            a.drop_first(),
        )) + encode_utf8(b));
    }
}

/// Pushes `t` onto `s` as a quoted string.
pub fn push_quoted_string(s: String, t: &str) -> (r: String)
    ensures
        r@ == s@ + quoted(t@),
{
    let mut r = s;
    push_char(&mut r, '"');
    let mut chars = t.chars();
    let ghost mut i: int = 0;
    proof {
        broadcast use vstd::string::group_string_axioms;

        assert(t@.take(0) =~= Seq::<char>::empty());
        assert(t@.skip(0) =~= t@);
        assert(s@.push('"') + escaped(Seq::<char>::empty()) =~= s@ + seq!['"']);
    }
    loop
        invariant
            0 <= i <= t@.len(),
            chars.remaining() == t@.skip(i),
            chars.obeys_prophetic_iter_laws(),
            chars.decrease() is Some,
            r@ == s@ + seq!['"'] + escaped(t@.take(i)),
        decreases chars.decrease()->0,
    {
        broadcast use vstd::string::group_string_axioms;

        match chars.next() {
            Some(c) => {
                let ghost before = r@;
                if c == '"' || c == '\\' {
                    push_char(&mut r, '\\');
                }
                push_char(&mut r, c);
                proof {
                    assert(t@.skip(i)[0] == t@[i]);
                    assert(t@.skip(i).drop_first() =~= t@.skip(i + 1));
                    assert(t@.take(i + 1) =~= t@.take(i).push(c));
                    lemma_escaped_push(t@.take(i), c);
                    assert(r@ =~= before + escaped_char(c));
                    assert(r@ =~= s@ + seq!['"'] + escaped(t@.take(i + 1)));
                    i = i + 1;
                }
            },
            None => {
                proof {
                    assert(t@.take(i) =~= t@);
                }
                push_char(&mut r, '"');
                proof {
                    assert(r@ =~= s@ + quoted(t@));
                }
                return r;
            },
        }
    }
}

/// Pushes `t` onto `s` as a parameter value: bare where it is a token, else as
/// a quoted string.
pub fn push_maybe_quoted_string(s: String, t: &str) -> (r: String)
    ensures
        r@ == s@ + maybe_quoted(t@),
{
    if is_token(t) {
        let mut r = s;
        r.append(t);
        r
    } else {
        push_quoted_string(s, t)
    }
}

/// Pushes the parameter `k=v` onto `s`.
pub fn push_parameter(s: String, k: &str, v: &str) -> (r: String)
    ensures
        r@ == s@ + parameter_text((k@, v@)),
{
    let mut r = s;
    r.append(k);
    push_char(&mut r, '=');
    let r = push_maybe_quoted_string(r, v);
    proof {
        assert(r@ =~= s@ + parameter_text((k@, v@)));
    }
    r
}

/// Pushes a parameter list onto `s`: each parameter behind a semicolon.
pub fn push_parameters(s: String, parameters: &[(String, String)]) -> (r: String)
    ensures
        r@ == s@ + parameters_text(parameters.deep_view()),
{
    let ghost all = parameters.deep_view();
    let mut r = s;
    let mut i: usize = 0;
    proof {
        assert(all.take(0) =~= Seq::<ParameterText>::empty());
        assert(s@ + parameters_text(all.take(0)) =~= s@);
    }
    while i < parameters.len()
        invariant
            i <= parameters@.len(),
            all == parameters.deep_view(),
            r@ == s@ + parameters_text(all.take(i as int)),
        decreases parameters@.len() - i,
    {
        let ghost before = r@;
        push_char(&mut r, ';');
        r = push_parameter(r, parameters[i].0.as_str(), parameters[i].1.as_str());
        proof {
            let p = all[i as int];
            assert(p == (parameters@[i as int].0@, parameters@[i as int].1@));
            assert(all.take(i + 1) =~= all.take(i as int).push(p));
            lemma_parameters_text_push(all.take(i as int), p);
            assert(r@ =~= before + (seq![';'] + parameter_text(p)));
        }
        i += 1;
    }
    proof {
        assert(all.take(i as int) =~= all);
    }
    r
}

/// The bytes of a text between the quotes of a quoted string, escaped byte by
/// byte: a backslash in front of each double quote and each backslash.
pub open spec fn escaped_bytes(bytes: Seq<u8>) -> Seq<u8>
    decreases bytes.len(),
{
    if bytes.len() == 0 {
        Seq::empty()
    } else {
        let first = if bytes[0] == DQUOTE || bytes[0] == BACKSLASH {
            seq![BACKSLASH, bytes[0]]
        } else {
            seq![bytes[0]]
        };
        first + escaped_bytes(bytes.drop_first())
    }
}

/// Escaping goes through a byte sequence piece by piece.
pub proof fn lemma_escaped_bytes_concat(a: Seq<u8>, b: Seq<u8>)
    ensures
        escaped_bytes(a + b) == escaped_bytes(a) + escaped_bytes(b),
    decreases a.len(),
{
    if a.len() == 0 {
        assert(a + b =~= b);
        assert(escaped_bytes(a) + escaped_bytes(b) =~= escaped_bytes(b));
    } else {
        assert((a + b).drop_first() =~= a.drop_first() + b);
        lemma_escaped_bytes_concat(a.drop_first(), b);
        assert(escaped_bytes(a + b) =~= escaped_bytes(a) + escaped_bytes(b));
    }
}

/// Bytes above 127 are never escaped.
pub proof fn lemma_escaped_bytes_high(bytes: Seq<u8>)
    requires
        forall|i: int| 0 <= i < bytes.len() ==> #[trigger] bytes[i] >= 128,
    ensures
        escaped_bytes(bytes) == bytes,
    decreases bytes.len(),
{
    if bytes.len() > 0 {
        let rest = bytes.drop_first();
        assert forall|i: int| 0 <= i < rest.len() implies #[trigger] rest[i] >= 128 by {
            assert(rest[i] == bytes[i + 1]);
        }
        lemma_escaped_bytes_high(rest);
        assert(bytes[0] >= 128);
        assert(seq![bytes[0]] + rest =~= bytes);
    }
}

/// An ASCII character is encoded as itself; every byte of the encoding of any
/// other character is above 127.
pub proof fn lemma_encode_scalar_bytes(c: char)
    ensures
        c <= '\u{7f}' ==> encode_scalar(c as u32) == seq![c as u8],
        c > '\u{7f}' ==> forall|i: int|
            0 <= i < encode_scalar(c as u32).len() ==> #[trigger] encode_scalar(c as u32)[i]
                >= 128,
{
    let v = c as u32;
    if c <= '\u{7f}' {
        assert((v & 0x7F) as u8 == v as u8) by (bit_vector)
            requires
                v <= 0x7F,
        ;
        assert(encode_scalar(v) =~= seq![c as u8]);
    } else {
        let a = ((v >> 6) & 0x1F) as u8;
        let b = ((v >> 12) & 0x0F) as u8;
        let d = ((v >> 18) & 0x7) as u8;
        let e = (v & 0x3F) as u8;
        let f = ((v >> 6) & 0x3F) as u8;
        let g = ((v >> 12) & 0x3F) as u8;
        assert(0xC0u8 | a >= 128) by (bit_vector);
        assert(0xE0u8 | b >= 128) by (bit_vector);
        assert(0xF0u8 | d >= 128) by (bit_vector);
        assert(0x80u8 | e >= 128) by (bit_vector);
        assert(0x80u8 | f >= 128) by (bit_vector);
        assert(0x80u8 | g >= 128) by (bit_vector);
    }
}

/// The encoding of one character is the encoding of its scalar value.
pub proof fn lemma_encode_one(c: char)
    ensures
        encode_utf8(seq![c]) == encode_scalar(c as u32),
{
    let one = seq![c];
    assert(encode_utf8(one.drop_first()) =~= Seq::<u8>::empty());
    assert(encode_utf8(one) =~= encode_scalar(c as u32));
}

/// Escaping the text and encoding it is encoding the text and escaping its
/// bytes: no byte of a character above ASCII is a quote or a backslash.
pub proof fn lemma_escaped_encoding(text: Seq<char>)
    ensures
        encode_utf8(escaped(text)) == escaped_bytes(encode_utf8(text)),
    decreases text.len(),
{
    if text.len() > 0 {
        let c = text[0];
        let rest = text.drop_first();
        let scalar = encode_scalar(c as u32);
        lemma_char_lower_bound(c);
        lemma_escaped_encoding(rest);
        lemma_encode_concat(escaped_char(c), escaped(rest));
        lemma_escaped_bytes_concat(scalar, encode_utf8(rest));
        lemma_encode_scalar_bytes(c);
        lemma_encode_one(c);
        if c <= '\u{7f}' {
            assert(escaped_bytes(scalar.drop_first()) =~= Seq::<u8>::empty());
            if c == '"' || c == '\\' {
                lemma_encode_concat(seq!['\\'], seq![c]);
                lemma_encode_one('\\');
                lemma_encode_scalar_bytes('\\');
                assert(seq!['\\', c] =~= seq!['\\'] + seq![c]);
                assert(escaped_bytes(scalar) =~= seq![BACKSLASH, c as u8]);
                assert(encode_utf8(escaped_char(c)) =~= escaped_bytes(scalar));
            } else {
                assert(escaped_bytes(scalar) =~= seq![c as u8]);
            }
        } else {
            lemma_escaped_bytes_high(scalar);
        }
    }
}

/// The encoding of an ASCII character is that character as a byte.
pub proof fn lemma_encode_ascii_char(c: char)
    requires
        c <= '\u{7f}',
    ensures
        encode_utf8(seq![c]) == seq![c as u8],
{
    lemma_encode_one(c);
    lemma_encode_scalar_bytes(c);
}

/// Writes `bytes` to the sink.
fn write_bytes(writer: &mut Vec<u8>, bytes: &[u8])
    ensures
        final(writer)@ == old(writer)@ + bytes@,
{
    let mut i: usize = 0;
    proof {
        assert(writer@ =~= old(writer)@ + bytes@.take(0));
    }
    while i < bytes.len()
        invariant
            i <= bytes@.len(),
            writer@ == old(writer)@ + bytes@.take(i as int),
        decreases bytes@.len() - i,
    {
        writer.push(bytes[i]);
        proof {
            assert(bytes@.take(i + 1) =~= bytes@.take(i as int).push(bytes@[i as int]));
            assert(writer@ =~= old(writer)@ + bytes@.take(i + 1));
        }
        i += 1;
    }
    proof {
        assert(bytes@.take(i as int) =~= bytes@);
    }
}

/// Writes a token to the sink as it stands.
pub fn write_token(writer: &mut Vec<u8>, token: &str)
    ensures
        final(writer)@ == old(writer)@ + encode_utf8(token@),
{
    write_bytes(writer, token.as_bytes());
}

/// Writes `s` to the sink as a quoted string.
pub fn write_quoted_string(writer: &mut Vec<u8>, s: &str)
    ensures
        final(writer)@ == old(writer)@ + encode_utf8(quoted(s@)),
{
    let bytes = s.as_bytes();
    writer.push(DQUOTE);
    let mut i: usize = 0;
    proof {
        assert(escaped_bytes(bytes@.take(0)) =~= Seq::<u8>::empty());
        assert(writer@ =~= old(writer)@ + seq![DQUOTE] + escaped_bytes(bytes@.take(0)));
    }
    while i < bytes.len()
        invariant
            i <= bytes@.len(),
            bytes@ == encode_utf8(s@),
            writer@ == old(writer)@ + seq![DQUOTE] + escaped_bytes(bytes@.take(i as int)),
        decreases bytes@.len() - i,
    {
        let ghost before = writer@;
        let b = bytes[i];
        if b == DQUOTE || b == BACKSLASH {
            writer.push(BACKSLASH);
        }
        writer.push(b);
        proof {
            let one = seq![b];
            assert(bytes@.take(i + 1) =~= bytes@.take(i as int) + one);
            lemma_escaped_bytes_concat(bytes@.take(i as int), one);
            assert(escaped_bytes(one.drop_first()) =~= Seq::<u8>::empty());
            assert(writer@ =~= before + escaped_bytes(one));
            assert(writer@ =~= old(writer)@ + seq![DQUOTE] + escaped_bytes(bytes@.take(i + 1)));
        }
        i += 1;
    }
    writer.push(DQUOTE);
    proof {
        assert(bytes@.take(i as int) =~= bytes@);
        lemma_escaped_encoding(s@);
        lemma_encode_ascii_char('"');
        lemma_encode_concat(seq!['"'], escaped(s@));
        lemma_encode_concat(seq!['"'] + escaped(s@), seq!['"']);
        assert(writer@ =~= old(writer)@ + encode_utf8(quoted(s@)));
    }
}

/// Writes `s` to the sink as a parameter value: bare where it is a token, else
/// as a quoted string.
pub fn write_maybe_quoted_string(writer: &mut Vec<u8>, s: &str)
    ensures
        final(writer)@ == old(writer)@ + encode_utf8(maybe_quoted(s@)),
{
    if is_token(s) {
        write_token(writer, s)
    } else {
        write_quoted_string(writer, s)
    }
}

/// Writes the parameter `k=v` to the sink.
pub fn write_parameter(writer: &mut Vec<u8>, k: &str, v: &str)
    ensures
        final(writer)@ == old(writer)@ + encode_utf8(parameter_text((k@, v@))),
{
    write_token(writer, k);
    writer.push(EQUALS);
    write_maybe_quoted_string(writer, v);
    proof {
        lemma_encode_ascii_char('=');
        lemma_encode_concat(k@, seq!['=']);
        lemma_encode_concat(k@ + seq!['='], maybe_quoted(v@));
        assert(writer@ =~= old(writer)@ + encode_utf8(parameter_text((k@, v@))));
    }
}

/// Writes a parameter list to the sink: each parameter behind a semicolon.
pub fn write_parameters(writer: &mut Vec<u8>, parameters: &[(String, String)])
    ensures
        final(writer)@ == old(writer)@ + encode_utf8(parameters_text(parameters.deep_view())),
{
    let ghost all = parameters.deep_view();
    let mut i: usize = 0;
    proof {
        assert(all.take(0) =~= Seq::<ParameterText>::empty());
        assert(writer@ =~= old(writer)@ + encode_utf8(parameters_text(all.take(0))));
    }
    while i < parameters.len()
        invariant
            i <= parameters@.len(),
            all == parameters.deep_view(),
            writer@ == old(writer)@ + encode_utf8(parameters_text(all.take(i as int))),
        decreases parameters@.len() - i,
    {
        let ghost before = writer@;
        writer.push(SEMICOLON);
        write_parameter(writer, parameters[i].0.as_str(), parameters[i].1.as_str());
        proof {
            let p = all[i as int];
            assert(p == (parameters@[i as int].0@, parameters@[i as int].1@));
            assert(all.take(i + 1) =~= all.take(i as int).push(p));
            lemma_parameters_text_push(all.take(i as int), p);
            lemma_encode_ascii_char(';');
            lemma_encode_concat(seq![';'], parameter_text(p));
            lemma_encode_concat(
                parameters_text(all.take(i as int)),
                seq![';'] + parameter_text(p),
            );
            assert(writer@ =~= before + (seq![SEMICOLON] + encode_utf8(parameter_text(p))));
        }
        i += 1;
    }
    proof {
        assert(all.take(i as int) =~= all);
    }
}

} // verus!
