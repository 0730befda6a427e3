//! The Transfer-Encoding header, defined in RFC 2616, sections 14.41 and 3.6.
//!
//! Transfer-Encoding       = "Transfer-Encoding" ":" 1#transfer-coding

use vstd::prelude::*;
use vstd::string::StringExecFns;
use vstd::utf8::encode_utf8;
use crate::convert::{CommaListHeaderConvertible, HeaderConvertible};
use crate::grammar::{ascii_lower, eq_ignore_ascii_case, is_whitespace, spec_is_token, COMMA};
use crate::reader::HeaderValueReader;
use crate::round_trip::{
    lemma_item_len_parameters, lemma_item_len_plain, lemma_parameters_round_trip,
    lemma_parameters_text_front, lemma_token_is_plain, lemma_token_round_trip,
};
use crate::serialization_utils::{
    lemma_encode_concat, parameters_text, push_parameters, write_parameters, write_token,
};
use crate::syntax::{
    lemma_parse_parameters_bounds, lemma_parse_token_bounds, lemma_run_len_is, lemma_skip_skip,
    list_item_len, parameters_wf, parse_parameters, parse_token, ParameterText,
};

verus! {

/// RFC 2616, section 3.6:
///
/// transfer-coding         = "chunked" | transfer-extension
/// transfer-extension      = token *( ";" parameter )
#[derive(Debug)]
pub enum TransferCoding {
    /// The coding `chunked`.
    Chunked,
    /// An extension coding: its name, as it was written, and its parameters,
    /// attribute and value, in their order.
    TransferExtension(String, Vec<(String, String)>),
}

/// A transfer coding as plain text: the model of [`TransferCoding`].
pub enum TransferCodingText {
    Chunked,
    TransferExtension(Seq<char>, Seq<ParameterText>),
}

impl View for TransferCoding {
    type V = TransferCodingText;

    open spec fn view(&self) -> TransferCodingText {
        match self {
            TransferCoding::Chunked => TransferCodingText::Chunked,
            TransferCoding::TransferExtension(name, parameters) => {
                TransferCodingText::TransferExtension(name@, parameters.deep_view())
            },
        }
    }
}

/// The keyword `chunked`.
pub open spec fn chunked() -> Seq<char> {
    seq!['c', 'h', 'u', 'n', 'k', 'e', 'd']
}

/// Whether a token is the keyword `chunked`, in any case.
pub open spec fn is_chunked(token: Seq<char>) -> bool {
    ascii_lower(token) == chunked()
}

impl TransferCodingText {
    /// A well-formed transfer coding: the name of an extension is a token other
    /// than `chunked` in any case, each attribute is a token, and each value is
    /// ASCII text.
    pub open spec fn wf(self) -> bool {
        match self {
            TransferCodingText::Chunked => true,
            TransferCodingText::TransferExtension(name, parameters) => {
                &&& spec_is_token(name)
                &&& !is_chunked(name)
                &&& parameters_wf(parameters)
            },
        }
    }
}

/// The transfer coding at the front of `s`: a token that is `chunked` in any
/// case, or else a token, kept as it is written, and its parameter list.
pub open spec fn parse_transfer_coding(s: Seq<u8>) -> Option<(TransferCodingText, nat)> {
    match parse_token(s) {
        Some((name, n)) => if is_chunked(name) {
            Some((TransferCodingText::Chunked, n))
        } else {
            match parse_parameters(s.skip(n as int)) {
                Some((parameters, m)) => Some(
                    (TransferCodingText::TransferExtension(name, parameters), n + m),
                ),
                None => None,
            }
        },
        None => None,
    }
}

/// The canonical text of a transfer coding: `chunked`, or the name of the
/// extension followed by its parameter list.
pub open spec fn transfer_coding_text(coding: TransferCodingText) -> Seq<char> {
    match coding {
        TransferCodingText::Chunked => chunked(),
        TransferCodingText::TransferExtension(name, parameters) => name + parameters_text(
            parameters,
        ),
    }
}

/// The text of the literal `"chunked"` is the keyword, which is in lower case.
pub proof fn lemma_chunked_literal()
    ensures
        "chunked"@ == chunked(),
        ascii_lower(chunked()) == chunked(),
{
    reveal_strlit("chunked");
    assert("chunked"@ =~= chunked());
    assert(ascii_lower(chunked()) =~= chunked());
}

/// The canonical form of a well-formed transfer coding, at the end of the input
/// or in front of a comma, is parsed whole, as that transfer coding.
pub proof fn lemma_round_trip_in_list(coding: TransferCodingText, rest: Seq<u8>)
    requires
        coding.wf(),
        rest.len() == 0 || rest[0] == COMMA,
    ensures
        parse_transfer_coding(encode_utf8(transfer_coding_text(coding)) + rest) == Some(
            (coding, encode_utf8(transfer_coding_text(coding)).len()),
        ),
{
    let s = encode_utf8(transfer_coding_text(coding)) + rest;
    lemma_run_len_is(rest, |b: u8| is_whitespace(b), 0);
    match coding {
        TransferCodingText::Chunked => {
            lemma_chunked_literal();
            assert(spec_is_token(chunked()));
            lemma_token_round_trip(chunked(), rest);
        },
        TransferCodingText::TransferExtension(name, parameters) => {
            let list = encode_utf8(parameters_text(parameters));
            lemma_encode_concat(name, parameters_text(parameters));
            lemma_parameters_text_front(parameters, rest);
            assert(s =~= encode_utf8(name) + (list + rest));
            lemma_token_round_trip(name, list + rest);
            assert(s.skip(name.len() as int) =~= list + rest);
            lemma_parameters_round_trip(parameters, rest);
        },
    }
}

/// Round trip: the canonical form of a well-formed transfer coding is parsed
/// whole, as that transfer coding.
pub proof fn lemma_round_trip(coding: TransferCodingText)
    requires
        coding.wf(),
    ensures
        parse_transfer_coding(encode_utf8(transfer_coding_text(coding))) == Some(
            (coding, encode_utf8(transfer_coding_text(coding)).len()),
        ),
{
    let s = encode_utf8(transfer_coding_text(coding));
    lemma_round_trip_in_list(coding, Seq::empty());
    assert(s + Seq::<u8>::empty() =~= s);
}

/// The canonical form of a well-formed transfer coding is one list item: with
/// anything behind it, the item it begins reaches at least to its end, and ends
/// there where a comma follows.
pub proof fn lemma_written_is_one_item(coding: TransferCodingText, rest: Seq<u8>)
    requires
        coding.wf(),
    ensures
        list_item_len(encode_utf8(transfer_coding_text(coding)) + rest, false) == encode_utf8(
            transfer_coding_text(coding),
        ).len() + list_item_len(rest, false),
        rest.len() > 0 && rest[0] == COMMA ==> list_item_len(
            encode_utf8(transfer_coding_text(coding)) + rest,
            false,
        ) == encode_utf8(transfer_coding_text(coding)).len(),
{
    match coding {
        TransferCodingText::Chunked => {
            lemma_token_is_plain(chunked());
            lemma_item_len_plain(encode_utf8(chunked()), rest);
        },
        TransferCodingText::TransferExtension(name, parameters) => {
            let list = encode_utf8(parameters_text(parameters));
            lemma_encode_concat(name, parameters_text(parameters));
            lemma_token_is_plain(name);
            assert(encode_utf8(transfer_coding_text(coding)) + rest =~= encode_utf8(name) + (list
                + rest));
            lemma_item_len_plain(encode_utf8(name), list + rest);
            lemma_item_len_parameters(parameters, rest);
        },
    }
}

/// Whatever is parsed is well-formed, and lies within the input.
pub proof fn lemma_parsed_is_wf(s: Seq<u8>)
    ensures
        match parse_transfer_coding(s) {
            Some((coding, n)) => coding.wf() && 0 < n <= s.len(),
            None => true,
        },
{
    lemma_parse_token_bounds(s);
    match parse_token(s) {
        Some((name, n)) => {
            lemma_parse_parameters_bounds(s.skip(n as int));
        },
        None => {},
    }
}

impl PartialEq for TransferCoding {
    fn eq(&self, other: &TransferCoding) -> (equal: bool) {
        match (self, other) {
            (TransferCoding::Chunked, TransferCoding::Chunked) => true,
            (
                TransferCoding::TransferExtension(name, parameters),
                TransferCoding::TransferExtension(other_name, other_parameters),
            ) => {
                *name == *other_name && same_parameters(parameters, other_parameters)
            },
            _ => false,
        }
    }
}

/// Whether two parameter lists hold the same parameters in the same order.
fn same_parameters(a: &Vec<(String, String)>, b: &Vec<(String, String)>) -> (same: bool)
    ensures
        same == (a.deep_view() == b.deep_view()),
{
    if a.len() != b.len() {
        proof {
            assert(a.deep_view().len() == a@.len());
            assert(b.deep_view().len() == b@.len());
        }
        return false;
    }
    let mut i: usize = 0;
    while i < a.len()
        invariant
            i <= a@.len(),
            a@.len() == b@.len(),
            forall|j: int| 0 <= j < i ==> #[trigger] a.deep_view()[j] == b.deep_view()[j],
        decreases a@.len() - i,
    {
        if !(a[i].0 == b[i].0) || !(a[i].1 == b[i].1) {
            proof {
                assert(a.deep_view()[i as int] != b.deep_view()[i as int]);
            }
            return false;
        }
        i += 1;
    }
    proof {
        assert(a.deep_view() =~= b.deep_view());
    }
    true
}

impl vstd::std_specs::cmp::PartialEqSpecImpl for TransferCoding {
    open spec fn obeys_eq_spec() -> bool {
        true
    }

    /// Two transfer codings are equal where their texts are: equality is
    /// structural.
    open spec fn eq_spec(&self, other: &TransferCoding) -> bool {
        self@ == other@
    }
}

impl Eq for TransferCoding {

}

impl Clone for TransferCoding {
    fn clone(&self) -> (copy: TransferCoding)
        ensures
            copy@ == self@,
    {
        match self {
            TransferCoding::Chunked => TransferCoding::Chunked,
            TransferCoding::TransferExtension(name, parameters) => {
                let mut copies: Vec<(String, String)> = Vec::new();
                let mut i: usize = 0;
                while i < parameters.len()
                    invariant
                        i <= parameters@.len(),
                        copies.deep_view() == parameters.deep_view().take(i as int),
                    decreases parameters@.len() - i,
                {
                    let ghost before = copies.deep_view();
                    copies.push((parameters[i].0.clone(), parameters[i].1.clone()));
                    proof {
                        assert(copies.deep_view() =~= before.push(parameters.deep_view()[i as int]));
                        assert(parameters.deep_view().take(i + 1) =~= before.push(
                            parameters.deep_view()[i as int],
                        ));
                    }
                    i += 1;
                }
                proof {
                    assert(parameters.deep_view().take(i as int) =~= parameters.deep_view());
                }
                TransferCoding::TransferExtension(name.clone(), copies)
            },
        }
    }
}

impl CommaListHeaderConvertible for TransferCoding {

}

impl HeaderConvertible for TransferCoding {
    open spec fn parse(input: Seq<u8>) -> Option<(TransferCodingText, nat)> {
        parse_transfer_coding(input)
    }

    open spec fn canonical(value: TransferCodingText) -> Seq<char> {
        transfer_coding_text(value)
    }

    fn from_stream(reader: &mut HeaderValueReader) -> (value: Option<TransferCoding>)
        ensures
            value matches Some(coding) ==> coding@.wf(),
    {
        let saved = *reader;
        proof {
            lemma_parsed_is_wf(saved@);
        }
        match reader.read_token() {
            Some(token) => {
                proof {
                    lemma_chunked_literal();
                }
                if eq_ignore_ascii_case(token.as_str(), "chunked") {
                    Some(TransferCoding::Chunked)
                } else {
                    match reader.read_parameters() {
                        Some(parameters) => {
                            proof {
                                let n = parse_token(saved@).unwrap().1;
                                let rest = saved@.skip(n as int);
                                let m = parse_parameters(rest).unwrap().1;
                                lemma_parse_token_bounds(saved@);
                                lemma_parse_parameters_bounds(rest);
                                lemma_skip_skip(saved@, n, m);
                            }
                            Some(TransferCoding::TransferExtension(token, parameters))
                        },
                        None => {
                            *reader = saved;
                            None
                        },
                    }
                }
            },
            None => None,
        }
    }

    fn to_stream(&self, writer: &mut Vec<u8>) {
        match self {
            TransferCoding::Chunked => {
                proof {
                    lemma_chunked_literal();
                }
                write_token(writer, "chunked")
            },
            TransferCoding::TransferExtension(token, parameters) => {
                write_token(writer, token.as_str());
                write_parameters(writer, parameters.as_slice());
                proof {
                    lemma_encode_concat(
                        token@,
                        parameters_text(parameters.deep_view()),
                    );
                    assert(writer@ =~= old(writer)@ + encode_utf8(
                        transfer_coding_text(self@),
                    ));
                }
            },
        }
    }

    fn http_value(&self) -> (text: String) {
        match self {
            TransferCoding::Chunked => {
                proof {
                    lemma_chunked_literal();
                }
                String::from_str("chunked")
            },
            TransferCoding::TransferExtension(token, parameters) => {
                let text = push_parameters(token.clone(), parameters.as_slice());
                text
            },
        }
    }
}

} // verus!
