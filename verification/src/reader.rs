//! The grammar reader: a cursor over the bytes of one header value, with one
//! read operation for each construct of the grammar.

use vstd::prelude::*;
use vstd::slice::slice_subrange;
use crate::grammar::{
    chars_of, is_token_byte, is_whitespace, push_char, BACKSLASH, COMMA, DQUOTE, EQUALS,
    SEMICOLON,
};
use crate::syntax::{
    after, lemma_after_after, lemma_after_identity, lemma_parse_parameters_round,
    lemma_parse_token_bounds, lemma_parse_value_bounds, lemma_run_len_is,
    list_item_len, parse_parameter, parse_parameters, parse_quoted_string, parse_quoted_tail,
    parse_token, parse_value, reads, token_len, whitespace_len, ParameterText,
};

verus! {

/// A cursor over the bytes of one header value. Its view is what is left to
/// read.
#[derive(Clone, Copy)]
pub struct HeaderValueReader<'a> {
    bytes: &'a [u8],
    pos: usize,
}

impl<'a> View for HeaderValueReader<'a> {
    type V = Seq<u8>;

    closed spec fn view(&self) -> Seq<u8> {
        self.bytes@.skip(self.pos as int)
    }
}

impl<'a> HeaderValueReader<'a> {
    #[verifier::type_invariant]
    spec fn within_bounds(&self) -> bool {
        self.pos <= self.bytes@.len()
    }

    /// A reader at the start of `bytes`.
    pub fn new(bytes: &'a [u8]) -> (reader: Self)
        ensures
            reader@ == bytes@,
    {
        HeaderValueReader { bytes, pos: 0 }
    }

    /// Whether every byte has been read.
    pub fn is_empty(&self) -> (empty: bool)
        ensures
            empty == (self@.len() == 0),
    {
        proof {
            use_type_invariant(self);
        }
        self.pos == self.bytes.len()
    }

    /// The bytes that are left to read.
    pub fn remaining(&self) -> (rest: &'a [u8])
        ensures
            rest@ == self@,
    {
        proof {
            use_type_invariant(self);
        }
        slice_subrange(self.bytes, self.pos, self.bytes.len())
    }

    /// The next byte, which stays unread.
    pub fn peek(&self) -> (next: Option<u8>)
        ensures
            next == (if self@.len() > 0 {
                Some(self@[0])
            } else {
                None
            }),
    {
        proof {
            use_type_invariant(self);
        }
        if self.pos < self.bytes.len() {
            Some(self.bytes[self.pos])
        } else {
            None
        }
    }

    /// Moves the cursor past the spaces and tabs in front of it.
    pub fn skip_whitespace(&mut self)
        ensures
            final(self)@ == old(self)@.skip(whitespace_len(old(self)@) as int),
    {
        proof {
            use_type_invariant(&*self);
        }
        let start = self.pos;
        let mut i = self.pos;
        while i < self.bytes.len() && is_whitespace(self.bytes[i])
            invariant
                start <= i <= self.bytes@.len(),
                forall|j: int| start <= j < i ==> is_whitespace(#[trigger] self.bytes@[j]),
            decreases self.bytes@.len() - i,
        {
            i += 1;
        }
        proof {
            let rest = self.bytes@.skip(start as int);
            lemma_run_len_is(rest, |b: u8| is_whitespace(b), (i - start) as nat);
            assert(rest.skip(i - start) =~= self.bytes@.skip(i as int));
        }
        self.pos = i;
    }

    /// Moves the cursor past the next byte.
    pub fn advance(&mut self)
        requires
            old(self)@.len() > 0,
        ensures
            final(self)@ == old(self)@.skip(1),
    {
        proof {
            use_type_invariant(&*self);
            assert(self@.len() == self.bytes@.len() - self.pos);
            assert(self.bytes@.skip(self.pos as int).skip(1) =~= self.bytes@.skip(self.pos + 1));
        }
        let end = self.bytes.len();
        assert(self.pos < end);
        self.pos = self.pos + 1;
    }

    /// Reads a token: the longest run of token bytes at the cursor. Where the
    /// next byte cannot start a token, nothing is read.
    pub fn read_token(&mut self) -> (token: Option<String>)
        ensures
            reads(parse_token(old(self)@), token.deep_view(), old(self)@, final(self)@),
    {
        proof {
            use_type_invariant(&*self);
        }
        let start = self.pos;
        let mut text = String::new();
        let mut i = self.pos;
        while i < self.bytes.len() && is_token_byte(self.bytes[i])
            invariant
                start <= i <= self.bytes@.len(),
                forall|j: int| start <= j < i ==> is_token_byte(#[trigger] self.bytes@[j]),
                text@ == chars_of(self.bytes@.subrange(start as int, i as int)),
            decreases self.bytes@.len() - i,
        {
            push_char(&mut text, self.bytes[i] as char);
            proof {
                assert(chars_of(self.bytes@.subrange(start as int, i + 1)) =~= chars_of(
                    self.bytes@.subrange(start as int, i as int),
                ).push(self.bytes@[i as int] as char));
            }
            i += 1;
        }
        proof {
            let rest = self.bytes@.skip(start as int);
            lemma_run_len_is(rest, |b: u8| is_token_byte(b), (i - start) as nat);
            assert(rest.skip(i - start) =~= self.bytes@.skip(i as int));
            assert(rest.take(i - start) =~= self.bytes@.subrange(start as int, i as int));
        }
        if i == start {
            None
        } else {
            self.pos = i;
            Some(text)
        }
    }

    /// Reads a quoted string and returns its text, without the quotes and with
    /// each escaped character in place of its escape. Where no quote stands at
    /// the cursor, the string does not end, or a byte in it is not ASCII,
    /// nothing is read.
    pub fn read_quoted_string(&mut self) -> (text: Option<String>)
        ensures
            reads(parse_quoted_string(old(self)@), text.deep_view(), old(self)@, final(self)@),
    {
        proof {
            use_type_invariant(&*self);
        }
        let start = self.pos;
        if start >= self.bytes.len() || self.bytes[start] != DQUOTE {
            return None;
        }
        let ghost tail = self.bytes@.skip(start + 1);
        let mut text = String::new();
        let mut i = start + 1;
        proof {
            assert(self@.skip(1) =~= tail);
        }
        loop
            invariant
                *self == *old(self),
                start < i <= self.bytes@.len(),
                self.pos == start,
                parse_quoted_string(self@) == after(
                    Seq::<char>::empty(),
                    1,
                    parse_quoted_tail(tail),
                ),
                tail == self.bytes@.skip(start + 1),
                parse_quoted_tail(tail) == after(
                    text@,
                    (i - start - 1) as nat,
                    parse_quoted_tail(self.bytes@.skip(i as int)),
                ),
            decreases self.bytes@.len() - i,
        {
            let ghost rest = self.bytes@.skip(i as int);
            if i >= self.bytes.len() {
                return None;
            }
            let b = self.bytes[i];
            if b >= 128 {
                return None;
            }
            if b == DQUOTE {
                proof {
                    assert(text@ + Seq::<char>::empty() =~= text@);
                    assert(Seq::<char>::empty() + text@ =~= text@);
                    assert(self@.skip(i + 1 - start) =~= self.bytes@.skip(i + 1));
                }
                self.pos = i + 1;
                return Some(text);
            }
            if b == BACKSLASH {
                if i + 1 >= self.bytes.len() {
                    return None;
                }
                let escaped = self.bytes[i + 1];
                if escaped >= 128 {
                    return None;
                }
                proof {
                    assert(rest[1] == escaped);
                    assert(rest.skip(2) =~= self.bytes@.skip(i + 2));
                    lemma_after_after(
                        text@,
                        (i - start - 1) as nat,
                        seq![escaped as char],
                        2,
                        parse_quoted_tail(rest.skip(2)),
                    );
                    assert(text@ + seq![escaped as char] =~= text@.push(escaped as char));
                }
                push_char(&mut text, escaped as char);
                i += 2;
            } else {
                proof {
                    assert(rest.skip(1) =~= self.bytes@.skip(i + 1));
                    lemma_after_after(
                        text@,
                        (i - start - 1) as nat,
                        seq![b as char],
                        1,
                        parse_quoted_tail(rest.skip(1)),
                    );
                    assert(text@ + seq![b as char] =~= text@.push(b as char));
                }
                push_char(&mut text, b as char);
                i += 1;
            }
        }
    }

    /// Reads a parameter value: a token, or else a quoted string.
    pub fn read_token_or_quoted_string(&mut self) -> (value: Option<String>)
        ensures
            reads(parse_value(old(self)@), value.deep_view(), old(self)@, final(self)@),
    {
        match self.read_token() {
            Some(token) => Some(token),
            None => self.read_quoted_string(),
        }
    }

    /// Reads one parameter behind its semicolon: a token, `=`, and a value.
    /// Where any of the three is missing, nothing is read.
    pub fn read_parameter(&mut self) -> (parameter: Option<(String, String)>)
        ensures
            reads(
                parse_parameter(old(self)@),
                parameter.deep_view(),
                old(self)@,
                final(self)@,
            ),
    {
        let saved = *self;
        let attribute = match self.read_token() {
            Some(token) => token,
            None => {
                return None;
            },
        };
        proof {
            lemma_parse_token_bounds(saved@);
        }
        let ghost n = token_len(saved@);
        match self.peek() {
            Some(b) if b == EQUALS => {},
            _ => {
                *self = saved;
                return None;
            },
        }
        self.advance();
        proof {
            assert(saved@.skip(n as int).skip(1) =~= saved@.skip((n + 1) as int));
        }
        match self.read_token_or_quoted_string() {
            Some(value) => {
                proof {
                    let found = parse_value(saved@.skip((n + 1) as int)).unwrap();
                    let m = found.1;
                    lemma_parse_value_bounds(saved@.skip((n + 1) as int));
                    assert(saved@.skip((n + 1) as int).skip(m as int) =~= saved@.skip(
                        (n + 1 + m) as int,
                    ));
                }
                Some((attribute, value))
            },
            None => {
                *self = saved;
                None
            },
        }
    }

    /// Reads a parameter list: as long as a semicolon follows optional
    /// whitespace, one more parameter. The list ends, behind that whitespace,
    /// where no semicolon follows. Where a semicolon is not followed by a
    /// parameter, the whole list is refused and nothing is read.
    pub fn read_parameters(&mut self) -> (parameters: Option<Vec<(String, String)>>)
        ensures
            reads(
                parse_parameters(old(self)@),
                parameters.deep_view(),
                old(self)@,
                final(self)@,
            ),
    {
        let saved = *self;
        let mut result: Vec<(String, String)> = Vec::new();
        let ghost mut taken: nat = 0;
        proof {
            assert(saved@.skip(0) =~= saved@);
            assert(result.deep_view() =~= Seq::<ParameterText>::empty());
            lemma_after_identity(parse_parameters(saved@));
        }
        loop
            invariant
                saved == *old(self),
                taken <= saved@.len(),
                self@ == saved@.skip(taken as int),
                parse_parameters(saved@) == after(
                    result.deep_view(),
                    taken,
                    parse_parameters(self@),
                ),
            decreases saved@.len() - taken,
        {
            let ghost w = whitespace_len(self@);
            let ghost head = result.deep_view();
            proof {
                lemma_parse_parameters_round(saved@, head, taken, self@);
            }
            self.skip_whitespace();
            let more = match self.peek() {
                Some(b) => b == SEMICOLON,
                None => false,
            };
            if !more {
                return Some(result);
            }
            self.advance();
            let ghost behind = self@;
            match self.read_parameter() {
                Some(parameter) => {
                    result.push(parameter);
                    proof {
                        let found = parse_parameter(behind).unwrap();
                        assert(result.deep_view() =~= head.push(found.0));
                        taken = taken + w + 1 + found.1;
                    }
                },
                None => {
                    *self = saved;
                    return None;
                },
            }
        }
    }

    /// Splits the list item at the cursor off: the bytes before the first comma
    /// that stands outside a quoted string, or all that is left. The item comes
    /// back as a reader of its own, and the cursor moves past the item and its
    /// comma.
    pub fn split_list_item(&mut self) -> (item: HeaderValueReader<'a>)
        ensures
            item@ == old(self)@.take(list_item_len(old(self)@, false) as int),
            final(self)@ == (if list_item_len(old(self)@, false) < old(self)@.len() {
                old(self)@.skip(list_item_len(old(self)@, false) as int + 1)
            } else {
                Seq::empty()
            }),
    {
        proof {
            use_type_invariant(&*self);
        }
        let start = self.pos;
        let end = self.bytes.len();
        let mut i = start;
        let mut quoted = false;
        let ghost whole = self@;
        loop
            invariant
                *self == *old(self),
                whole == self.bytes@.skip(start as int),
                end == self.bytes@.len(),
                start <= i <= end,
                list_item_len(whole, false) == (i - start) + list_item_len(
                    self.bytes@.skip(i as int),
                    quoted,
                ),
            ensures
                list_item_len(whole, false) == i - start,
            decreases end - i,
        {
            let ghost rest = self.bytes@.skip(i as int);
            if i >= end {
                break ;
            }
            let b = self.bytes[i];
            if !quoted && b == COMMA {
                break ;
            }
            if quoted && b == BACKSLASH && i + 1 < end {
                proof {
                    assert(rest.skip(2) =~= self.bytes@.skip(i + 2));
                }
                i += 2;
            } else {
                proof {
                    assert(rest.skip(1) =~= self.bytes@.skip(i + 1));
                }
                if b == DQUOTE {
                    quoted = !quoted;
                }
                i += 1;
            }
        }
        proof {
            assert(whole.take(i - start) =~= self.bytes@.subrange(start as int, i as int));
            if i < end {
                assert(whole.skip(i - start + 1) =~= self.bytes@.skip(i + 1));
            } else {
                assert(self.bytes@.skip(i as int) =~= Seq::<u8>::empty());
            }
        }
        let item = HeaderValueReader { bytes: slice_subrange(self.bytes, start, i), pos: 0 };
        proof {
            assert(item.bytes@.skip(0) =~= item.bytes@);
        }
        self.pos = if i < end {
            i + 1
        } else {
            i
        };
        item
    }
}

} // verus!
