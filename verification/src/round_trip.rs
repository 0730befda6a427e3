//! Reading back what the serialization helpers write: each construct of the
//! grammar, written in its canonical form, is read as the text it was written
//! from.

use vstd::prelude::*;
use vstd::utf8::{encode_utf8, is_ascii_chars};
use crate::grammar::{
    bytes_of, is_token_byte, is_token_char, is_whitespace, lemma_ascii_encoding,
    lemma_ascii_inverse, lemma_char_lower_bound, spec_is_token, BACKSLASH, COMMA, DQUOTE,
    EQUALS, SEMICOLON,
};
use crate::serialization_utils::{
    escaped, escaped_char, lemma_encode_ascii_char, lemma_encode_concat, maybe_quoted,
    parameter_text, parameters_text, quoted,
};
use crate::syntax::{
    lemma_run_len_is, list_item_len, parameters_wf, parse_parameter, parse_parameters,
    parse_quoted_tail, parse_token, parse_value, whitespace_len, ParameterText,
};

verus! {

/// Nothing that could be taken for part of a token stands at the front of
/// `rest`.
pub open spec fn ends_token(rest: Seq<u8>) -> bool {
    rest.len() == 0 || !is_token_byte(rest[0])
}

/// Nothing that could be taken for part of a parameter list stands at the front
/// of `rest`: no token byte, and no semicolon behind its leading whitespace.
pub open spec fn ends_parameters(rest: Seq<u8>) -> bool {
    let w = whitespace_len(rest);
    ends_token(rest) && !(w < rest.len() && rest[w as int] == SEMICOLON)
}

/// A token is ASCII text.
pub proof fn lemma_token_is_ascii(token: Seq<char>)
    requires
        spec_is_token(token),
    ensures
        is_ascii_chars(token),
        encode_utf8(token) == bytes_of(token),
        encode_utf8(token).len() == token.len(),
{
    assert forall|i: int| 0 <= i < token.len() implies '\0' <= #[trigger] token[i]
        <= '\u{7f}' by {
        lemma_char_lower_bound(token[i]);
        assert(is_token_char(token[i]));
    }
    lemma_ascii_encoding(token);
}

/// A token that was written is read back, whatever follows it that is no token
/// byte.
pub proof fn lemma_token_round_trip(token: Seq<char>, rest: Seq<u8>)
    requires
        spec_is_token(token),
        ends_token(rest),
    ensures
        parse_token(encode_utf8(token) + rest) == Some((token, token.len())),
        encode_utf8(token).len() == token.len(),
{
    lemma_token_is_ascii(token);
    let bytes = bytes_of(token);
    let s = bytes + rest;
    let n = token.len();
    assert forall|i: int| 0 <= i < n implies is_token_byte(#[trigger] s[i]) by {
        assert(s[i] == token[i] as u8);
        assert(is_token_char(token[i]));
    }
    if n < s.len() {
        assert(s[n as int] == rest[0]);
    }
    lemma_run_len_is(s, |b: u8| is_token_byte(b), n);
    assert(s.take(n as int) =~= bytes);
    lemma_ascii_inverse(token, bytes);
}

/// The text between the quotes, as it was written, is read back up to the
/// closing quote.
pub proof fn lemma_quoted_tail_round_trip(text: Seq<char>, rest: Seq<u8>)
    requires
        is_ascii_chars(text),
    ensures
        parse_quoted_tail(encode_utf8(escaped(text)) + seq![DQUOTE] + rest) == Some(
            (text, (encode_utf8(escaped(text)).len() + 1) as nat),
        ),
    decreases text.len(),
{
    let s = encode_utf8(escaped(text)) + seq![DQUOTE] + rest;
    if text.len() == 0 {
        assert(encode_utf8(escaped(text)) =~= Seq::<u8>::empty());
        assert(s[0] == DQUOTE);
        assert(text =~= Seq::<char>::empty());
    } else {
        let c = text[0];
        let others = text.drop_first();
        let tail = encode_utf8(escaped(others)) + seq![DQUOTE] + rest;
        assert('\0' <= c <= '\u{7f}');
        assert forall|i: int| 0 <= i < others.len() implies '\0' <= #[trigger] others[i]
            <= '\u{7f}' by {
            assert(others[i] == text[i + 1]);
        }
        lemma_quoted_tail_round_trip(others, rest);
        lemma_encode_concat(escaped_char(c), escaped(others));
        lemma_encode_ascii_char(c);
        assert((c as u8) as char == c);
        assert(seq![c] + others =~= text);
        if c == '"' || c == '\\' {
            lemma_encode_ascii_char('\\');
            lemma_encode_concat(seq!['\\'], seq![c]);
            assert(escaped_char(c) =~= seq!['\\'] + seq![c]);
            assert(encode_utf8(escaped_char(c)) =~= seq![BACKSLASH, c as u8]);
            assert(s =~= seq![BACKSLASH, c as u8] + tail);
            assert(s.skip(2) =~= tail);
        } else {
            assert(escaped_char(c) =~= seq![c]);
            assert(s =~= seq![c as u8] + tail);
            assert(s.skip(1) =~= tail);
        }
    }
}

/// A value that was written, bare or quoted, is read back, whatever follows it
/// that is no token byte.
pub proof fn lemma_value_round_trip(value: Seq<char>, rest: Seq<u8>)
    requires
        is_ascii_chars(value),
        ends_token(rest),
    ensures
        parse_value(encode_utf8(maybe_quoted(value)) + rest) == Some(
            (value, encode_utf8(maybe_quoted(value)).len()),
        ),
{
    if spec_is_token(value) {
        lemma_token_round_trip(value, rest);
    } else {
        let inner = encode_utf8(escaped(value));
        let s = encode_utf8(quoted(value)) + rest;
        lemma_encode_ascii_char('"');
        lemma_encode_concat(seq!['"'], escaped(value));
        lemma_encode_concat(seq!['"'] + escaped(value), seq!['"']);
        assert(s =~= seq![DQUOTE] + (inner + seq![DQUOTE] + rest));
        assert(s[0] == DQUOTE);
        assert(s.skip(1) =~= inner + seq![DQUOTE] + rest);
        lemma_quoted_tail_round_trip(value, rest);
        lemma_run_len_is(s, |b: u8| is_token_byte(b), 0);
        assert(Seq::<char>::empty() + value =~= value);
        assert(encode_utf8(quoted(value)).len() == inner.len() + 2);
    }
}

/// A parameter that was written is read back, whatever follows it that is no
/// token byte.
pub proof fn lemma_parameter_round_trip(parameter: ParameterText, rest: Seq<u8>)
    requires
        spec_is_token(parameter.0),
        is_ascii_chars(parameter.1),
        ends_token(rest),
    ensures
        parse_parameter(encode_utf8(parameter_text(parameter)) + rest) == Some(
            (parameter, encode_utf8(parameter_text(parameter)).len()),
        ),
{
    let attribute = encode_utf8(parameter.0);
    let value = encode_utf8(maybe_quoted(parameter.1));
    let s = encode_utf8(parameter_text(parameter)) + rest;
    let n = parameter.0.len();
    lemma_encode_ascii_char('=');
    lemma_encode_concat(parameter.0, seq!['=']);
    lemma_encode_concat(parameter.0 + seq!['='], maybe_quoted(parameter.1));
    let behind = seq![EQUALS] + value + rest;
    assert(s =~= attribute + behind);
    lemma_token_round_trip(parameter.0, behind);
    assert(s[n as int] == EQUALS);
    assert(s.skip((n + 1) as int) =~= value + rest);
    lemma_value_round_trip(parameter.1, rest);
}

/// The text of a parameter list is empty or begins with a semicolon.
pub proof fn lemma_parameters_text_front(parameters: Seq<ParameterText>, rest: Seq<u8>)
    requires
        ends_token(rest),
    ensures
        ends_token(encode_utf8(parameters_text(parameters)) + rest),
{
    if parameters.len() == 0 {
        assert(encode_utf8(parameters_text(parameters)) + rest =~= rest);
    } else {
        let others = parameter_text(parameters[0]) + parameters_text(parameters.drop_first());
        assert(parameters_text(parameters) =~= seq![';'] + others);
        lemma_encode_concat(seq![';'], others);
        lemma_encode_ascii_char(';');
        assert((encode_utf8(parameters_text(parameters)) + rest)[0] == SEMICOLON);
    }
}

/// A parameter list that was written is read back, up to the end of the
/// whitespace that follows it.
pub proof fn lemma_parameters_round_trip(parameters: Seq<ParameterText>, rest: Seq<u8>)
    requires
        parameters_wf(parameters),
        ends_parameters(rest),
    ensures
        parse_parameters(encode_utf8(parameters_text(parameters)) + rest) == Some(
            (parameters, encode_utf8(parameters_text(parameters)).len() + whitespace_len(rest)),
        ),
    decreases parameters.len(),
{
    let s = encode_utf8(parameters_text(parameters)) + rest;
    if parameters.len() == 0 {
        assert(s =~= rest);
        assert(parameters =~= Seq::<ParameterText>::empty());
    } else {
        let first = parameters[0];
        let others = parameters.drop_first();
        let first_bytes = encode_utf8(parameter_text(first));
        let others_bytes = encode_utf8(parameters_text(others));
        let behind = others_bytes + rest;
        let n = first_bytes.len();
        assert(parameters_wf(others)) by {
            assert forall|i: int| 0 <= i < others.len() implies spec_is_token(
                (#[trigger] others[i]).0,
            ) && is_ascii_chars(others[i].1) by {
                assert(others[i] == parameters[i + 1]);
            }
        }
        lemma_encode_ascii_char(';');
        lemma_encode_concat(seq![';'], parameter_text(first));
        lemma_encode_concat(seq![';'] + parameter_text(first), parameters_text(others));
        assert(s =~= seq![SEMICOLON] + (first_bytes + behind));
        assert(s[0] == SEMICOLON);
        lemma_run_len_is(s, |b: u8| is_whitespace(b), 0);
        assert(s.skip(1) =~= first_bytes + behind);
        lemma_parameters_text_front(others, rest);
        lemma_parameter_round_trip(first, behind);
        assert(s.skip((1 + n) as int) =~= behind);
        lemma_parameters_round_trip(others, rest);
        assert(seq![first] + others =~= parameters);
    }
}

/// Neither a comma nor a double quote is among the bytes.
pub open spec fn is_plain(bytes: Seq<u8>) -> bool {
    forall|i: int| 0 <= i < bytes.len() ==> #[trigger] bytes[i] != COMMA && bytes[i] != DQUOTE
}

/// Outside a quoted string, bytes that are neither comma nor quote belong to
/// the list item they stand in.
pub proof fn lemma_item_len_plain(bytes: Seq<u8>, rest: Seq<u8>)
    requires
        is_plain(bytes),
    ensures
        list_item_len(bytes + rest, false) == bytes.len() + list_item_len(rest, false),
    decreases bytes.len(),
{
    let s = bytes + rest;
    if bytes.len() == 0 {
        assert(s =~= rest);
    } else {
        let others = bytes.drop_first();
        assert(s[0] == bytes[0]);
        assert forall|i: int| 0 <= i < others.len() implies #[trigger] others[i] != COMMA
            && others[i] != DQUOTE by {
            assert(others[i] == bytes[i + 1]);
        }
        assert(s.skip(1) =~= others + rest);
        lemma_item_len_plain(others, rest);
    }
}

/// A token holds neither comma nor quote.
pub proof fn lemma_token_is_plain(token: Seq<char>)
    requires
        spec_is_token(token),
    ensures
        is_plain(encode_utf8(token)),
{
    lemma_token_is_ascii(token);
    assert forall|i: int| 0 <= i < token.len() implies #[trigger] bytes_of(token)[i] != COMMA
        && bytes_of(token)[i] != DQUOTE by {
        assert(is_token_char(token[i]));
    }
}

/// Inside a quoted string, the escaped text and the closing quote belong to
/// the list item, whatever commas the text holds.
pub proof fn lemma_item_len_quoted_tail(text: Seq<char>, rest: Seq<u8>)
    requires
        is_ascii_chars(text),
    ensures
        list_item_len(encode_utf8(escaped(text)) + seq![DQUOTE] + rest, true) == encode_utf8(
            escaped(text),
        ).len() + 1 + list_item_len(rest, false),
    decreases text.len(),
{
    let s = encode_utf8(escaped(text)) + seq![DQUOTE] + rest;
    if text.len() == 0 {
        assert(encode_utf8(escaped(text)) =~= Seq::<u8>::empty());
        assert(s[0] == DQUOTE);
        assert(s.skip(1) =~= rest);
    } else {
        let c = text[0];
        let others = text.drop_first();
        let tail = encode_utf8(escaped(others)) + seq![DQUOTE] + rest;
        assert('\0' <= c <= '\u{7f}');
        assert forall|i: int| 0 <= i < others.len() implies '\0' <= #[trigger] others[i]
            <= '\u{7f}' by {
            assert(others[i] == text[i + 1]);
        }
        lemma_item_len_quoted_tail(others, rest);
        lemma_encode_concat(escaped_char(c), escaped(others));
        lemma_encode_ascii_char(c);
        if c == '"' || c == '\\' {
            lemma_encode_ascii_char('\\');
            lemma_encode_concat(seq!['\\'], seq![c]);
            assert(escaped_char(c) =~= seq!['\\'] + seq![c]);
            assert(encode_utf8(escaped_char(c)) =~= seq![BACKSLASH, c as u8]);
            assert(s =~= seq![BACKSLASH, c as u8] + tail);
            assert(s.skip(2) =~= tail);
        } else {
            assert(escaped_char(c) =~= seq![c]);
            assert(s =~= seq![c as u8] + tail);
            assert(s.skip(1) =~= tail);
        }
    }
}

/// A written value, bare or quoted, belongs to the list item it stands in.
pub proof fn lemma_item_len_value(value: Seq<char>, rest: Seq<u8>)
    requires
        is_ascii_chars(value),
    ensures
        list_item_len(encode_utf8(maybe_quoted(value)) + rest, false) == encode_utf8(
            maybe_quoted(value),
        ).len() + list_item_len(rest, false),
{
    if spec_is_token(value) {
        lemma_token_is_plain(value);
        lemma_item_len_plain(encode_utf8(value), rest);
    } else {
        let inner = encode_utf8(escaped(value));
        let s = encode_utf8(quoted(value)) + rest;
        lemma_encode_ascii_char('"');
        lemma_encode_concat(seq!['"'], escaped(value));
        lemma_encode_concat(seq!['"'] + escaped(value), seq!['"']);
        assert(s =~= seq![DQUOTE] + (inner + seq![DQUOTE] + rest));
        assert(s[0] == DQUOTE);
        assert(s.skip(1) =~= inner + seq![DQUOTE] + rest);
        lemma_item_len_quoted_tail(value, rest);
        assert(encode_utf8(quoted(value)).len() == inner.len() + 2);
    }
}

/// A written parameter list belongs to the list item it stands in.
pub proof fn lemma_item_len_parameters(parameters: Seq<ParameterText>, rest: Seq<u8>)
    requires
        parameters_wf(parameters),
    ensures
        list_item_len(encode_utf8(parameters_text(parameters)) + rest, false) == encode_utf8(
            parameters_text(parameters),
        ).len() + list_item_len(rest, false),
    decreases parameters.len(),
{
    let s = encode_utf8(parameters_text(parameters)) + rest;
    if parameters.len() == 0 {
        assert(s =~= rest);
    } else {
        let first = parameters[0];
        let others = parameters.drop_first();
        let front = seq![';'] + first.0 + seq!['='];
        let value = encode_utf8(maybe_quoted(first.1));
        let others_bytes = encode_utf8(parameters_text(others));
        assert(parameters_wf(others)) by {
            assert forall|i: int| 0 <= i < others.len() implies spec_is_token(
                (#[trigger] others[i]).0,
            ) && is_ascii_chars(others[i].1) by {
                assert(others[i] == parameters[i + 1]);
            }
        }
        lemma_token_is_plain(first.0);
        lemma_encode_ascii_char(';');
        lemma_encode_ascii_char('=');
        lemma_encode_concat(seq![';'], first.0);
        lemma_encode_concat(seq![';'] + first.0, seq!['=']);
        lemma_encode_concat(front, maybe_quoted(first.1));
        lemma_encode_concat(front + maybe_quoted(first.1), parameters_text(others));
        assert(parameters_text(parameters) =~= front + maybe_quoted(first.1) + parameters_text(
            others,
        ));
        let front_bytes = encode_utf8(front);
        assert(front_bytes =~= seq![SEMICOLON] + encode_utf8(first.0) + seq![EQUALS]);
        assert(is_plain(front_bytes));
        assert(s =~= front_bytes + (value + (others_bytes + rest)));
        lemma_item_len_plain(front_bytes, value + (others_bytes + rest));
        lemma_item_len_value(first.1, others_bytes + rest);
        lemma_item_len_parameters(others, rest);
    }
}

} // verus!
