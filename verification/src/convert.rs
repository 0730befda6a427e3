//! The conversion contract between the wire form of a header value and its
//! typed value, and the mark of the header types whose values form lists.

use vstd::prelude::*;
use vstd::utf8::encode_utf8;
use crate::reader::HeaderValueReader;
use crate::syntax::reads;

verus! {

/// An optional value by its view.
pub open spec fn viewed<T: View>(value: Option<T>) -> Option<T::V> {
    match value {
        Some(v) => Some(v@),
        None => None,
    }
}

/// A structured header value: it is parsed from a reader, written to a byte
/// sink, and shown as a string. The type says, as two functions on plain
/// sequences, what its grammar recognises and what its canonical text is; the
/// three operations are held to them.
pub trait HeaderConvertible: Sized + View {
    /// What the grammar of this header type finds at the front of `input`: a
    /// value and the number of bytes it takes, or nothing.
    spec fn parse(input: Seq<u8>) -> Option<(Self::V, nat)>;

    /// The canonical text of a value.
    spec fn canonical(value: Self::V) -> Seq<char>;

    /// Parses one value at the cursor. All or nothing: without a value the
    /// cursor stays where it was.
    fn from_stream(reader: &mut HeaderValueReader) -> (value: Option<Self>)
        ensures
            reads(Self::parse(old(reader)@), viewed(value), old(reader)@, final(reader)@),
    ;

    /// Writes the canonical text of the value, as UTF-8, to the sink.
    fn to_stream(&self, writer: &mut Vec<u8>)
        ensures
            final(writer)@ == old(writer)@ + encode_utf8(Self::canonical(self@)),
    ;

    /// The canonical text of the value as a string: what `to_stream` writes.
    fn http_value(&self) -> (text: String)
        ensures
            text@ == Self::canonical(self@),
    ;
}

/// The stream form and the string form of a value agree: what `to_stream` adds
/// to a sink is, byte for byte, the UTF-8 form of the text that `http_value`
/// returns, and what the sink held before stays in front of it.
pub proof fn lemma_stream_is_http_value<T: HeaderConvertible>(
    value: T,
    text: Seq<char>,
    before: Seq<u8>,
    now: Seq<u8>,
)
    requires
        text == T::canonical(value@),
        now == before + encode_utf8(T::canonical(value@)),
    ensures
        now.take(before.len() as int) == before,
        now.skip(before.len() as int) == encode_utf8(text),
{
    assert(now.take(before.len() as int) =~= before);
    assert(now.skip(before.len() as int) =~= encode_utf8(text));
}

/// Marks a header type whose field value is a comma-separated list of values,
/// so that the occurrences of the header may be merged into one sequence.
pub trait CommaListHeaderConvertible: HeaderConvertible {

}

} // verus!
