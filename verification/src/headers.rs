//! Header lines, and header blocks read from a stream in memory.

use crate::fields::FieldMap;
use crate::mock_stream::{lemma_line_len_bounds, line_len, MockReadableStream};
use crate::text::{
    cut, ends_with_crlf, lowercase, split_once, strip_crlf, to_lower, without_crlf,
};
use crate::ResponseableError;
use vstd::prelude::*;
use vstd::utf8::{decode_utf8, valid_utf8};

verus! {

/// What parts a header's name from its value.
pub open spec fn separator() -> Seq<char> {
    seq![':', ' ']
}

/// The name and the value that a line's content holds: what stands before
/// and after its first separator.
pub open spec fn name_and_value(content: Seq<char>) -> Option<(Seq<char>, Seq<char>)> {
    split_once(content, separator())
}

/// The name and the value that a line's content gives: the name in its
/// lower-case form, the value as it stands.
pub open spec fn header_of(content: Seq<char>) -> Option<(Seq<char>, Seq<char>)> {
    match name_and_value(content) {
        Some((name, value)) => Some((lowercase(name), value)),
        None => None,
    }
}

/// Cuts a line's content into name and value at its first separator.
pub fn split_header(content: &str) -> (r: Option<(&str, &str)>)
    ensures
        match r {
            Some((name, value)) => name_and_value(content@) == Some((name@, value@)),
            None => name_and_value(content@) is None,
        },
{
    proof {
        reveal_strlit(": ");
        assert(": "@ =~= separator());
    }
    cut(content, ": ")
}

/// A line that ends a header block: nothing at all, which is the end of
/// the stream, or a line end alone.
pub open spec fn ends_block(raw: Seq<char>) -> bool {
    raw.len() == 0 || (raw.len() == 2 && ends_with_crlf(raw))
}

/// What a line of a header block is.
#[derive(Debug, PartialEq, Eq)]
pub enum HeaderLine {
    /// The block is over.
    End,
    /// A header, its name in lower case.
    Field(String, String),
    /// A complete line that is no header.
    Malformed,
    /// A line without its line end: the stream ended in it.
    Cut,
}

/// Tells what a line, as it was read, is in a header block.
pub fn classify(raw: &str) -> (r: HeaderLine)
    ensures
        match r {
            HeaderLine::End => ends_block(raw@),
            HeaderLine::Cut => !ends_block(raw@) && !ends_with_crlf(raw@),
            HeaderLine::Field(name, value) => {
                &&& !ends_block(raw@)
                &&& ends_with_crlf(raw@)
                &&& header_of(without_crlf(raw@)) == Some((name@, value@))
            },
            HeaderLine::Malformed => {
                &&& !ends_block(raw@)
                &&& ends_with_crlf(raw@)
                &&& header_of(without_crlf(raw@)) is None
            },
        },
{
    let n: usize = raw.unicode_len();
    if n == 0 {
        return HeaderLine::End;
    }
    match strip_crlf(raw) {
        None => HeaderLine::Cut,
        Some(content) => {
            if n == 2 {
                HeaderLine::End
            } else {
                match split_header(content) {
                    Some((name, value)) => HeaderLine::Field(to_lower(name), value.to_owned()),
                    None => HeaderLine::Malformed,
                }
            }
        },
    }
}

/// How the reading of a header block ends.
pub enum BlockEnd {
    /// With the headers, at the line that ends the block.
    Done(Map<Seq<char>, Seq<char>>),
    /// At a complete line that is no header; the line is kept as read.
    Bad(Seq<char>),
    /// At a line that was cut short or is no text.
    Broken,
}

/// The header block at the start of the bytes, read line by line into
/// `found`: how the reading ends, and the bytes that are left after it.
pub open spec fn header_block(bytes: Seq<u8>, found: Map<Seq<char>, Seq<char>>) -> (BlockEnd, Seq<u8>)
    decreases bytes.len(),
    via header_block_decreases
{
    let n = line_len(bytes) as int;
    let rest = bytes.skip(n);
    if !valid_utf8(bytes.take(n)) {
        (BlockEnd::Broken, rest)
    } else {
        let raw = decode_utf8(bytes.take(n));
        if n == 0 || ends_block(raw) {
            (BlockEnd::Done(found), rest)
        } else if !ends_with_crlf(raw) {
            (BlockEnd::Broken, rest)
        } else {
            match header_of(without_crlf(raw)) {
                Some((name, value)) => header_block(rest, found.insert(name, value)),
                None => (BlockEnd::Bad(raw), rest),
            }
        }
    }
}

#[via_fn]
proof fn header_block_decreases(bytes: Seq<u8>, found: Map<Seq<char>, Seq<char>>) {
    lemma_line_len_bounds(bytes);
}

/// Reads a header block from the stream: lines up to the one that ends the
/// block, or to the end of the stream. Of two headers with the same name
/// the later one stays. A complete line without a separator is refused; a
/// line that was cut short, or is no text, is an I/O failure.
pub fn parse_headers(reader: &mut MockReadableStream) -> (r: Result<FieldMap, ResponseableError>)
    ensures
        final(reader).remaining() == header_block(
            old(reader).remaining(),
            Map::<Seq<char>, Seq<char>>::empty(),
        ).1,
        match r {
            Ok(headers) => header_block(
                old(reader).remaining(),
                Map::<Seq<char>, Seq<char>>::empty(),
            ).0 == BlockEnd::Done(headers@) && headers.distinct(),
            Err(ResponseableError::BadHeader(line)) => header_block(
                old(reader).remaining(),
                Map::<Seq<char>, Seq<char>>::empty(),
            ).0 == BlockEnd::Bad(line@),
            Err(ResponseableError::IO) => header_block(
                old(reader).remaining(),
                Map::<Seq<char>, Seq<char>>::empty(),
            ).0 == BlockEnd::Broken,
            Err(_) => false,
        },
{
    let mut headers = FieldMap::new();
    let ghost start = reader.remaining();
    let ghost empty = Map::<Seq<char>, Seq<char>>::empty();
    loop
        invariant
            start == old(reader).remaining(),
            empty == Map::<Seq<char>, Seq<char>>::empty(),
            headers.distinct(),
            header_block(start, empty) == header_block(reader.remaining(), headers@),
        decreases reader.remaining().len(),
    {
        let ghost bytes = reader.remaining();
        proof {
            lemma_line_len_bounds(bytes);
        }
        let line = match reader.read_line() {
            Some(line) => line,
            None => {
                return Err(ResponseableError::IO);
            },
        };
        proof {
            if line_len(bytes) == 0 {
                assert(bytes.take(0) =~= Seq::<u8>::empty());
                assert(decode_utf8(Seq::<u8>::empty()) =~= Seq::<char>::empty());
            }
        }
        match classify(line.as_str()) {
            HeaderLine::End => {
                return Ok(headers);
            },
            HeaderLine::Cut => {
                return Err(ResponseableError::IO);
            },
            HeaderLine::Malformed => {
                return Err(ResponseableError::BadHeader(line));
            },
            HeaderLine::Field(name, value) => {
                headers.insert(name, value);
            },
        }
    }
}

} // verus!
