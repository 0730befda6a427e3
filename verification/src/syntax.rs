//! The header-value grammar as functions on byte sequences: what each read
//! operation recognises at the front of its input, and how many bytes it takes.

use vstd::prelude::*;
use vstd::utf8::is_ascii_chars;
use crate::grammar::{
    chars_of, is_token_byte, is_whitespace, lemma_char_lower_bound, spec_is_token, BACKSLASH,
    COMMA, DQUOTE, EQUALS, SEMICOLON,
};

verus! {

/// A parameter: an attribute and its value.
pub type ParameterText = (Seq<char>, Seq<char>);

/// The length of the longest prefix of `s` whose bytes all belong to `class`.
pub open spec fn run_len(s: Seq<u8>, class: spec_fn(u8) -> bool) -> nat
    decreases s.len(),
{
    if s.len() > 0 && class(s[0]) {
        1 + run_len(s.drop_first(), class)
    } else {
        0
    }
}

/// The length of the token at the front of `s`; 0 where none begins there.
pub open spec fn token_len(s: Seq<u8>) -> nat {
    run_len(s, |b: u8| is_token_byte(b))
}

/// The length of the whitespace at the front of `s`.
pub open spec fn whitespace_len(s: Seq<u8>) -> nat {
    run_len(s, |b: u8| is_whitespace(b))
}

/// Every parameter of the list has a token for its attribute and ASCII text for
/// its value.
pub open spec fn parameters_wf(parameters: Seq<ParameterText>) -> bool {
    forall|i: int|
        0 <= i < parameters.len() ==> spec_is_token((#[trigger] parameters[i]).0)
            && is_ascii_chars(parameters[i].1)
}

/// A result that stands behind `taken` bytes already read as `head`: the items
/// read so far come first, and the byte counts add up.
pub open spec fn after<T>(head: Seq<T>, taken: nat, rest: Option<(Seq<T>, nat)>) -> Option<
    (Seq<T>, nat),
> {
    match rest {
        Some((items, n)) => Some((head + items, taken + n)),
        None => None,
    }
}

/// Results that stand behind one another chain: heads and byte counts add up.
pub proof fn lemma_after_after<T>(
    head: Seq<T>,
    taken: nat,
    next: Seq<T>,
    next_taken: nat,
    rest: Option<(Seq<T>, nat)>,
)
    ensures
        after(head, taken, after(next, next_taken, rest)) == after(
            head + next,
            taken + next_taken,
            rest,
        ),
{
    match rest {
        Some((items, n)) => {
            assert(head + (next + items) =~= (head + next) + items);
        },
        None => {},
    }
}

/// A result stands unchanged behind nothing.
pub proof fn lemma_after_identity<T>(rest: Option<(Seq<T>, nat)>)
    ensures
        after(Seq::empty(), 0, rest) == rest,
{
    match rest {
        Some((items, n)) => {
            assert(Seq::<T>::empty() + items =~= items);
        },
        None => {},
    }
}

/// What a read leaves behind, given what the grammar finds at the front of the
/// input: on a match, the value found, with the cursor moved past its bytes;
/// else nothing, with the cursor where it was.
pub open spec fn reads<V>(
    found: Option<(V, nat)>,
    got: Option<V>,
    before: Seq<u8>,
    now: Seq<u8>,
) -> bool {
    match found {
        Some((value, n)) => got == Some(value) && now == before.skip(n as int),
        None => got is None && now == before,
    }
}

/// A token at the front of `s`: its text and its length in bytes.
pub open spec fn parse_token(s: Seq<u8>) -> Option<(Seq<char>, nat)> {
    let n = token_len(s);
    if n == 0 {
        None
    } else {
        Some((chars_of(s.take(n as int)), n))
    }
}

/// The rest of a quoted string whose opening quote has been read: the text up
/// to the closing quote, where a backslash and the character behind it stand for
/// that character, and the number of bytes up to and including the closing
/// quote. The text is ASCII: with a byte above 127 in it, or without a closing
/// quote, there is no quoted string.
pub open spec fn parse_quoted_tail(s: Seq<u8>) -> Option<(Seq<char>, nat)>
    decreases s.len(),
{
    if s.len() == 0 || s[0] >= 128 {
        None
    } else if s[0] == DQUOTE {
        Some((Seq::empty(), 1))
    } else if s[0] == BACKSLASH {
        if s.len() >= 2 && s[1] < 128 {
            after(seq![s[1] as char], 2, parse_quoted_tail(s.skip(2)))
        } else {
            None
        }
    } else {
        after(seq![s[0] as char], 1, parse_quoted_tail(s.skip(1)))
    }
}

/// A quoted string at the front of `s`: its unescaped text and its length in
/// bytes, both quotes included.
pub open spec fn parse_quoted_string(s: Seq<u8>) -> Option<(Seq<char>, nat)> {
    if s.len() > 0 && s[0] == DQUOTE {
        after(Seq::empty(), 1, parse_quoted_tail(s.skip(1)))
    } else {
        None
    }
}

/// A parameter value at the front of `s`: a token, or else a quoted string.
pub open spec fn parse_value(s: Seq<u8>) -> Option<(Seq<char>, nat)> {
    match parse_token(s) {
        Some(token) => Some(token),
        None => parse_quoted_string(s),
    }
}

/// A parameter at the front of `s`, its semicolon already read:
/// `attribute "=" value`.
pub open spec fn parse_parameter(s: Seq<u8>) -> Option<(ParameterText, nat)> {
    match parse_token(s) {
        Some((attribute, n)) => if n < s.len() && s[n as int] == EQUALS {
            match parse_value(s.skip((n + 1) as int)) {
                Some((value, m)) => Some(((attribute, value), n + 1 + m)),
                None => None,
            }
        } else {
            None
        },
        None => None,
    }
}

/// A token that was read is a token, as long as the bytes it was read from.
pub proof fn lemma_parse_token_bounds(s: Seq<u8>)
    ensures
        match parse_token(s) {
            Some((text, n)) => 0 < n <= s.len() && text.len() == n && spec_is_token(text),
            None => s.len() == 0 || !is_token_byte(s[0]),
        },
{
    let class = |b: u8| is_token_byte(b);
    lemma_run_len(s, class);
    let n = token_len(s);
    if n > 0 {
        let text = chars_of(s.take(n as int));
        assert forall|i: int| 0 <= i < text.len() implies crate::grammar::is_token_char(
            #[trigger] text[i],
        ) by {
            assert(class(s[i]));
            assert(s.take(n as int)[i] == s[i]);
        }
    }
}

/// The text of a quoted string is ASCII, and its bytes lie within the input.
pub proof fn lemma_parse_quoted_tail_bounds(s: Seq<u8>)
    ensures
        match parse_quoted_tail(s) {
            Some((text, n)) => 0 < n <= s.len() && is_ascii_chars(text),
            None => true,
        },
    decreases s.len(),
{
    if s.len() == 0 || s[0] >= 128 || s[0] == DQUOTE {
    } else if s[0] == BACKSLASH {
        if s.len() >= 2 && s[1] < 128 {
            lemma_parse_quoted_tail_bounds(s.skip(2));
        }
    } else {
        lemma_parse_quoted_tail_bounds(s.skip(1));
    }
}

/// A value that was read is ASCII text, and its bytes lie within the input.
pub proof fn lemma_parse_value_bounds(s: Seq<u8>)
    ensures
        match parse_value(s) {
            Some((text, n)) => 0 < n <= s.len() && is_ascii_chars(text),
            None => true,
        },
{
    lemma_parse_token_bounds(s);
    if s.len() > 0 {
        lemma_parse_quoted_tail_bounds(s.skip(1));
    }
    match parse_token(s) {
        Some((text, n)) => {
            assert forall|i: int| 0 <= i < text.len() implies '\0' <= #[trigger] text[i]
                <= '\u{7f}' by {
                lemma_char_lower_bound(text[i]);
            }
        },
        None => {},
    }
}

/// A parameter that was read has a token for its attribute and ASCII text for
/// its value, and its bytes lie within the input.
pub proof fn lemma_parse_parameter_bounds(s: Seq<u8>)
    ensures
        match parse_parameter(s) {
            Some((parameter, n)) => 0 < n <= s.len() && spec_is_token(parameter.0)
                && is_ascii_chars(parameter.1),
            None => true,
        },
{
    lemma_parse_token_bounds(s);
    match parse_token(s) {
        Some((attribute, n)) => {
            if n < s.len() {
                lemma_parse_value_bounds(s.skip((n + 1) as int));
            }
        },
        None => {},
    }
}

/// A parameter list at the front of `s`: as long as a semicolon follows
/// optional whitespace, one more parameter. Without a semicolon the list ends,
/// behind the whitespace; a semicolon that no parameter follows spoils the whole.
pub open spec fn parse_parameters(s: Seq<u8>) -> Option<(Seq<ParameterText>, nat)>
    decreases s.len(),
{
    let w = whitespace_len(s);
    if w < s.len() && s[w as int] == SEMICOLON {
        match parse_parameter(s.skip((w + 1) as int)) {
            Some((parameter, n)) => {
                proof {
                    lemma_parse_parameter_bounds(s.skip((w + 1) as int));
                }
                after(seq![parameter], w + 1 + n, parse_parameters(s.skip((w + 1 + n) as int)))
            },
            None => None,
        }
    } else {
        Some((Seq::empty(), w))
    }
}

/// Skipping twice is skipping the sum.
pub proof fn lemma_skip_skip(s: Seq<u8>, a: nat, b: nat)
    requires
        a + b <= s.len(),
    ensures
        s.skip(a as int).skip(b as int) == s.skip((a + b) as int),
        s.skip(a as int).len() == s.len() - a,
        b < s.len() - a ==> s.skip(a as int)[b as int] == s[(a + b) as int],
{
    assert(s.skip(a as int).skip(b as int) =~= s.skip((a + b) as int));
}

/// One round of reading a parameter list. With `head` read from the first
/// `taken` bytes of `whole`, the list either ends behind the whitespace at
/// `here`, or goes on behind one more parameter, or is spoilt.
pub proof fn lemma_parse_parameters_round(
    whole: Seq<u8>,
    head: Seq<ParameterText>,
    taken: nat,
    here: Seq<u8>,
)
    requires
        taken <= whole.len(),
        here == whole.skip(taken as int),
        parse_parameters(whole) == after(head, taken, parse_parameters(here)),
    ensures
        ({
            let w = whitespace_len(here);
            &&& w <= here.len()
            &&& here.skip(w as int) == whole.skip((taken + w) as int)
            &&& here.skip(w as int).len() == here.len() - w
            &&& w < here.len() ==> here.skip(w as int)[0] == here[w as int]
            &&& if w < here.len() && here[w as int] == SEMICOLON {
                let behind = here.skip((w + 1) as int);
                &&& here.skip(w as int).skip(1) == behind
                &&& match parse_parameter(behind) {
                    Some((parameter, n)) => {
                        let next = taken + w + 1 + n;
                        &&& next <= whole.len()
                        &&& behind.skip(n as int) == whole.skip(next as int)
                        &&& parse_parameters(whole) == after(
                            head.push(parameter),
                            next as nat,
                            parse_parameters(whole.skip(next as int)),
                        )
                    },
                    None => parse_parameters(whole) is None,
                }
            } else {
                parse_parameters(whole) == Some((head, taken + w))
            }
        }),
{
    let w = whitespace_len(here);
    lemma_run_len(here, |b: u8| is_whitespace(b));
    lemma_skip_skip(whole, taken, w);
    lemma_skip_skip(here, w, 0);
    if w < here.len() && here[w as int] == SEMICOLON {
        let behind = here.skip((w + 1) as int);
        lemma_skip_skip(here, w, 1);
        lemma_parse_parameter_bounds(behind);
        match parse_parameter(behind) {
            Some((parameter, n)) => {
                lemma_skip_skip(here, w + 1, n);
                lemma_skip_skip(whole, taken, w + 1 + n);
                lemma_after_after(
                    head,
                    taken,
                    seq![parameter],
                    w + 1 + n,
                    parse_parameters(here.skip((w + 1 + n) as int)),
                );
                assert(head + seq![parameter] =~= head.push(parameter));
            },
            None => {},
        }
    } else {
        assert(head + Seq::<ParameterText>::empty() =~= head);
    }
}

/// The bytes of a parameter list that was read lie within the input; each of
/// its attributes is a token and each of its values ASCII text.
pub proof fn lemma_parse_parameters_bounds(s: Seq<u8>)
    ensures
        match parse_parameters(s) {
            Some((parameters, n)) => n <= s.len() && parameters_wf(parameters),
            None => true,
        },
    decreases s.len(),
{
    let w = whitespace_len(s);
    lemma_run_len(s, |b: u8| is_whitespace(b));
    if w < s.len() && s[w as int] == SEMICOLON {
        let behind = s.skip((w + 1) as int);
        lemma_parse_parameter_bounds(behind);
        match parse_parameter(behind) {
            Some((parameter, n)) => {
                let rest = s.skip((w + 1 + n) as int);
                lemma_parse_parameters_bounds(rest);
                match parse_parameters(rest) {
                    Some((others, m)) => {
                        let all = seq![parameter] + others;
                        assert forall|i: int| 0 <= i < all.len() implies spec_is_token(
                            (#[trigger] all[i]).0,
                        ) && is_ascii_chars(all[i].1) by {
                            if i > 0 {
                                assert(all[i] == others[i - 1]);
                            }
                        }
                    },
                    None => {},
                }
            },
            None => {},
        }
    }
}

/// The length of the list item at the front of `s`: the bytes before the first
/// comma that stands outside a quoted string, or all of `s`. `quoted` says
/// whether `s` begins inside a quoted string.
pub open spec fn list_item_len(s: Seq<u8>, quoted: bool) -> nat
    decreases s.len(),
{
    if s.len() == 0 {
        0
    } else if !quoted && s[0] == COMMA {
        0
    } else if quoted && s[0] == BACKSLASH && s.len() >= 2 {
        2 + list_item_len(s.skip(2), true)
    } else if s[0] == DQUOTE {
        1 + list_item_len(s.skip(1), !quoted)
    } else {
        1 + list_item_len(s.skip(1), quoted)
    }
}

/// A run ends at the first byte outside the class, or at the end of the input.
pub proof fn lemma_run_len(s: Seq<u8>, class: spec_fn(u8) -> bool)
    ensures
        run_len(s, class) <= s.len(),
        forall|i: int| 0 <= i < run_len(s, class) ==> class(#[trigger] s[i]),
        run_len(s, class) < s.len() ==> !class(s[run_len(s, class) as int]),
    decreases s.len(),
{
    if s.len() > 0 && class(s[0]) {
        let t = s.drop_first();
        lemma_run_len(t, class);
        assert forall|i: int| 0 <= i < run_len(s, class) implies class(#[trigger] s[i]) by {
            if i > 0 {
                assert(s[i] == t[i - 1]);
            }
        }
        if run_len(s, class) < s.len() {
            assert(s[run_len(s, class) as int] == t[run_len(t, class) as int]);
        }
    }
}

/// A prefix within the class that ends at a byte outside it, or at the end of
/// the input, is the run.
pub proof fn lemma_run_len_is(s: Seq<u8>, class: spec_fn(u8) -> bool, n: nat)
    requires
        n <= s.len(),
        forall|i: int| 0 <= i < n ==> class(#[trigger] s[i]),
        n < s.len() ==> !class(s[n as int]),
    ensures
        run_len(s, class) == n,
    decreases n,
{
    if n > 0 {
        let t = s.drop_first();
        assert(class(s[0]));
        assert forall|i: int| 0 <= i < n - 1 implies class(#[trigger] t[i]) by {
            assert(t[i] == s[i + 1]);
        }
        if n - 1 < t.len() {
            assert(t[n - 1] == s[n as int]);
        }
        lemma_run_len_is(t, class, (n - 1) as nat);
    }
}

} // verus!
