//! The header itself: an ordered list of canonical header lines, each a
//! record line produced by a builder, a comment line, or the verbatim blob
//! copied from an existing header's text.  Serialization joins the lines
//! with `\n` and never appends a trailing newline.

use vstd::prelude::*;
use crate::bytes::{copy_bytes, join_all, join_bytes, push_all, views_of};
use crate::grouped::GroupedHeader;
use crate::parser::{parse_header, parse_header_text, ParseError};
use crate::record::{record_bytes, HeaderRecord};
use crate::{AT_SIGN, NEWLINE, TAB};

verus! {

/// `s` with every trailing newline byte removed.
pub open spec fn strip_trailing_newlines(s: Seq<u8>) -> Seq<u8>
    decreases s.len(),
{
    if s.len() > 0 && s.last() == NEWLINE {
        strip_trailing_newlines(s.drop_last())
    } else {
        s
    }
}

/// The canonical line a comment is stored as: `@CO`, a tab, then the text.
pub open spec fn comment_line(text: Seq<u8>) -> Seq<u8> {
    seq![AT_SIGN, 67u8, 79u8, TAB] + text
}

/// An ordered collection of header lines.  Insertion order is preserved
/// verbatim on serialization; no stored line may contain a newline byte
/// (callers of `push_comment` are trusted on that point, as the original
/// interface is).
#[derive(Debug)]
pub struct Header {
    records: Vec<Vec<u8>>,
}

impl View for Header {
    type V = Seq<Seq<u8>>;

    closed spec fn view(&self) -> Seq<Seq<u8>> {
        views_of(self.records@)
    }
}

impl Header {
    /// An empty header.
    pub fn new() -> (r: Header)
        ensures
            r@ == Seq::<Seq<u8>>::empty(),
    {
        let r = Header { records: Vec::new() };
        proof {
            assert(r@ =~= Seq::<Seq<u8>>::empty());
        }
        r
    }

    /// Copies the raw text exposed by an existing header source, stripping
    /// every trailing newline so that re-serializing cannot introduce a
    /// blank line.  The copied bytes are stored as a single opaque blob;
    /// callers that need structure go through the parser.
    pub fn from_template(source: &[u8]) -> (r: Header)
        ensures
            r@ == seq![strip_trailing_newlines(source@)],
    {
        let mut blob: Vec<u8> = copy_bytes(source);
        while blob.len() > 0 && blob[blob.len() - 1] == NEWLINE
            invariant
                strip_trailing_newlines(source@) == strip_trailing_newlines(blob@),
            decreases blob@.len(),
        {
            let _ = blob.pop();
        }
        let mut records: Vec<Vec<u8>> = Vec::new();
        let ghost line = blob@;
        records.push(blob);
        let r = Header { records };
        proof {
            assert(r@ =~= seq![line]);
        }
        r
    }

    /// Appends one record line, serialized from the builder in push order.
    pub fn push_record(&mut self, record: &HeaderRecord)
        ensures
            final(self)@ == old(self)@.push(record_bytes(record@.0, record@.1)),
    {
        let ghost pre = self@;
        let line = record.to_bytes();
        self.records.push(line);
        proof {
            assert(self@ =~= pre.push(record_bytes(record@.0, record@.1)));
        }
    }

    /// Appends one comment line: `@CO`, a tab, then `comment` verbatim.
    /// The comment must not contain a newline byte, or the serialized form
    /// splits into more physical lines than were pushed.
    pub fn push_comment(&mut self, comment: &[u8])
        ensures
            final(self)@ == old(self)@.push(comment_line(comment@)),
    {
        let ghost pre = self@;
        let mut line: Vec<u8> = Vec::new();
        line.push(AT_SIGN);
        line.push(67);
        line.push(79);
        line.push(TAB);
        push_all(&mut line, comment);
        proof {
            assert(line@ =~= comment_line(comment@));
        }
        self.records.push(line);
        proof {
            assert(self@ =~= pre.push(comment_line(comment@)));
        }
    }

    /// Serializes the header: all lines joined by `\n`, with no leading or
    /// trailing newline.
    pub fn to_bytes(&self) -> (r: Vec<u8>)
        ensures
            r@ == join_bytes(self@, NEWLINE),
    {
        join_all(&self.records, NEWLINE)
    }

    /// Parses the serialized form back into the grouped representation.
    /// Fails if and only if some nonempty line of the serialized header
    /// violates the grammar.
    pub fn to_hashmap(&self) -> (r: Result<GroupedHeader, ParseError>)
        ensures
            match r {
                Ok(g) => parse_header(join_bytes(self@, NEWLINE)) == Some(g@),
                Err(_) => parse_header(join_bytes(self@, NEWLINE)) is None,
            },
    {
        let blob = self.to_bytes();
        parse_header_text(blob.as_slice())
    }
}

impl Default for Header {
    /// The empty header.
    fn default() -> (r: Header)
        ensures
            r@ == Seq::<Seq<u8>>::empty(),
    {
        Header::new()
    }
}

} // verus!
