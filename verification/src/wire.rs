//! Responses as they go over the wire.

use crate::connection::chunk_size;
use crate::fields::FieldMap;
use crate::headers::{ends_block, header_block, header_of, separator, BlockEnd};
use crate::mock_stream::{crlf_bytes, lemma_line_len_scan, line_len};
use crate::text::{
    digits_of, ends_with_crlf, first_at, lemma_digits_round_trip, lemma_encode_concat,
    lemma_encode_no_line_feed, lemma_first_exists, lemma_split_once_at, lowercase, number_text,
    occurs_at, texts, without_crlf,
};
use vstd::prelude::*;
use vstd::utf8::{decode_utf8, encode_utf8, valid_utf8};

verus! {

/// The first line of a response.
pub open spec fn status_line(status: u32, reason: Seq<char>) -> Seq<char> {
    "HTTP/1.1 "@ + digits_of(status as nat, 10) + " "@ + reason + "\r\n"@
}

/// One header, or one trailer, as a line.
pub open spec fn field_line(name: Seq<char>, value: Seq<char>) -> Seq<char> {
    name + ": "@ + value + "\r\n"@
}

/// The lines of the given headers, in their order.
pub open spec fn field_lines(fields: Seq<(Seq<char>, Seq<char>)>) -> Seq<char>
    decreases fields.len(),
{
    if fields.len() == 0 {
        Seq::empty()
    } else {
        field_line(fields[0].0, fields[0].1) + field_lines(fields.drop_first())
    }
}

/// The headers of a response that may have none.
pub open spec fn fields_of(headers: Option<FieldMap>) -> Seq<(Seq<char>, Seq<char>)> {
    match headers {
        Some(map) => map.pairs(),
        None => Seq::empty(),
    }
}

/// The names and values of a list of pairs of strings.
pub open spec fn pair_texts(pairs: Seq<(String, String)>) -> Seq<(Seq<char>, Seq<char>)> {
    Seq::new(pairs.len(), |i: int| (pairs[i].0@, pairs[i].1@))
}

/// The line that tells the length of the body.
pub open spec fn length_line(len: nat) -> Seq<char> {
    "Content-Length: "@ + digits_of(len, 10) + "\r\n"@
}

/// All that stands before the body of a response with a body of known
/// length: the status line, the caller's headers, the length of the body,
/// and an empty line.
pub open spec fn fixed_head(
    status: u32,
    reason: Seq<char>,
    fields: Seq<(Seq<char>, Seq<char>)>,
    len: nat,
) -> Seq<char> {
    status_line(status, reason) + field_lines(fields) + length_line(len) + "\r\n"@
}

/// The names with a comma between each two of them.
pub open spec fn comma_list(names: Seq<Seq<char>>) -> Seq<char>
    decreases names.len(),
{
    if names.len() == 0 {
        Seq::empty()
    } else if names.len() == 1 {
        names[0]
    } else {
        comma_list(names.drop_last()) + ","@ + names.last()
    }
}

/// The line that announces the trailers; nothing where there are none.
pub open spec fn trailers_line(names: Seq<Seq<char>>) -> Seq<char> {
    if names.len() == 0 {
        Seq::empty()
    } else {
        "Trailers: "@ + comma_list(names) + "\r\n"@
    }
}

/// All that stands before the chunks of a streamed response: the status
/// line, the transfer encoding, the caller's headers, the names of the
/// trailers if there are any, and an empty line.
pub open spec fn stream_head_text(
    status: u32,
    reason: Seq<char>,
    fields: Seq<(Seq<char>, Seq<char>)>,
    names: Seq<Seq<char>>,
) -> Seq<char> {
    status_line(status, reason) + "Transfer-Encoding: chunked\r\n"@ + field_lines(fields)
        + trailers_line(names) + "\r\n"@
}

/// A chunk on the wire: its length in hexadecimal, a line end, its bytes,
/// a line end.
pub open spec fn frame(data: Seq<u8>) -> Seq<u8> {
    encode_utf8(digits_of(data.len(), 16) + "\r\n"@) + data + crlf_bytes()
}

/// The chunks on the wire, one after the other.
pub open spec fn frames(chunks: Seq<Seq<u8>>) -> Seq<u8>
    decreases chunks.len(),
{
    if chunks.len() == 0 {
        Seq::empty()
    } else {
        frame(chunks[0]) + frames(chunks.drop_first())
    }
}

/// What ends a streamed response: the chunk of length zero, the trailers
/// if any were announced, and an empty line.
pub open spec fn stream_tail_text(announced: bool, trailers: Seq<(Seq<char>, Seq<char>)>) -> Seq<
    char,
> {
    "0\r\n"@ + (if announced {
        field_lines(trailers)
    } else {
        Seq::empty()
    }) + "\r\n"@
}

/// The bytes that a list of chunks holds.
pub open spec fn chunk_bytes(chunks: Seq<Vec<u8>>) -> Seq<Seq<u8>> {
    Seq::new(chunks.len(), |i: int| chunks[i]@)
}

/// Lines of fields, one more at the end.
pub proof fn lemma_field_lines_push(fields: Seq<(Seq<char>, Seq<char>)>, last: (Seq<char>, Seq<char>))
    ensures
        field_lines(fields.push(last)) == field_lines(fields) + field_line(last.0, last.1),
    decreases fields.len(),
{
    let more = fields.push(last);
    if fields.len() == 0 {
        assert(more.drop_first() =~= Seq::<(Seq<char>, Seq<char>)>::empty());
        assert(field_lines(more.drop_first()) =~= Seq::<char>::empty());
        assert(more[0] == last);
        assert(field_lines(more) =~= field_line(last.0, last.1));
        assert(field_lines(fields) + field_line(last.0, last.1) =~= field_line(last.0, last.1));
    } else {
        assert(more.drop_first() =~= fields.drop_first().push(last));
        lemma_field_lines_push(fields.drop_first(), last);
        assert(field_lines(more) =~= field_lines(fields) + field_line(last.0, last.1));
    }
}

/// Frames of chunks, one more at the end.
pub proof fn lemma_frames_push(chunks: Seq<Seq<u8>>, last: Seq<u8>)
    ensures
        frames(chunks.push(last)) == frames(chunks) + frame(last),
    decreases chunks.len(),
{
    let more = chunks.push(last);
    if chunks.len() == 0 {
        assert(more.drop_first() =~= Seq::<Seq<u8>>::empty());
        assert(frames(more.drop_first()) =~= Seq::<u8>::empty());
        assert(more[0] == last);
        assert(frames(more) =~= frame(last));
        assert(frames(chunks) + frame(last) =~= frame(last));
    } else {
        assert(more.drop_first() =~= chunks.drop_first().push(last));
        lemma_frames_push(chunks.drop_first(), last);
        assert(frames(more) =~= frames(chunks) + frame(last));
    }
}

fn push_status_line(out: &mut String, status: u32, reason: &str)
    ensures
        final(out)@ == old(out)@ + status_line(status, reason@),
{
    let code = number_text(status as usize, 10);
    out.append("HTTP/1.1 ");
    out.append(code.as_str());
    out.append(" ");
    out.append(reason);
    out.append("\r\n");
    proof {
        assert(final(out)@ =~= old(out)@ + status_line(status, reason@));
    }
}

fn push_field(out: &mut String, name: &str, value: &str)
    ensures
        final(out)@ == old(out)@ + field_line(name@, value@),
{
    out.append(name);
    out.append(": ");
    out.append(value);
    out.append("\r\n");
    proof {
        assert(final(out)@ =~= old(out)@ + field_line(name@, value@));
    }
}

fn push_headers(out: &mut String, headers: &Option<FieldMap>)
    ensures
        final(out)@ == old(out)@ + field_lines(fields_of(*headers)),
{
    match headers {
        None => {
            proof {
                assert(out@ + field_lines(fields_of(*headers)) =~= out@);
            }
        },
        Some(map) => {
            let ghost all = map.pairs();
            let ghost start = out@;
            let n: usize = map.len();
            let mut i: usize = 0;
            proof {
                assert(all.take(0) =~= Seq::<(Seq<char>, Seq<char>)>::empty());
                assert(start + field_lines(all.take(0)) =~= start);
            }
            while i < n
                invariant
                    i <= n,
                    n == all.len(),
                    all == map.pairs(),
                    out@ == start + field_lines(all.take(i as int)),
                decreases n - i,
            {
                push_field(out, map.name_at(i).as_str(), map.value_at(i).as_str());
                proof {
                    lemma_field_lines_push(all.take(i as int), all[i as int]);
                    assert(all.take(i + 1) =~= all.take(i as int).push(all[i as int]));
                    assert(out@ =~= start + field_lines(all.take(i + 1)));
                }
                i = i + 1;
            }
            proof {
                assert(all.take(n as int) =~= all);
            }
        },
    }
}

fn push_pairs(out: &mut String, pairs: &Vec<(String, String)>)
    ensures
        final(out)@ == old(out)@ + field_lines(pair_texts(pairs@)),
{
    let ghost all = pair_texts(pairs@);
    let ghost start = out@;
    let mut i: usize = 0;
    proof {
        assert(all.take(0) =~= Seq::<(Seq<char>, Seq<char>)>::empty());
        assert(start + field_lines(all.take(0)) =~= start);
    }
    while i < pairs.len()
        invariant
            i <= pairs.len(),
            all == pair_texts(pairs@),
            out@ == start + field_lines(all.take(i as int)),
        decreases pairs.len() - i,
    {
        push_field(out, pairs[i].0.as_str(), pairs[i].1.as_str());
        proof {
            lemma_field_lines_push(all.take(i as int), all[i as int]);
            assert(all.take(i + 1) =~= all.take(i as int).push(all[i as int]));
            assert(out@ =~= start + field_lines(all.take(i + 1)));
        }
        i = i + 1;
    }
    proof {
        assert(all.take(pairs.len() as int) =~= all);
    }
}

/// A response with a body of known length, as it goes over the wire.
pub fn fixed_response(status: u32, reason: &str, headers: &Option<FieldMap>, body: &[u8]) -> (r:
    Vec<u8>)
    ensures
        r@ == encode_utf8(fixed_head(status, reason@, fields_of(*headers), body@.len())) + body@,
{
    let mut head = String::new();
    push_status_line(&mut head, status, reason);
    push_headers(&mut head, headers);
    let len = number_text(body.len(), 10);
    head.append("Content-Length: ");
    head.append(len.as_str());
    head.append("\r\n");
    head.append("\r\n");
    proof {
        assert(head@ =~= fixed_head(status, reason@, fields_of(*headers), body@.len()));
    }
    let mut out = head.as_str().as_bytes_vec();
    let mut rest = vstd::slice::slice_to_vec(body);
    out.append(&mut rest);
    out
}

/// What goes over the wire before the chunks of a streamed response.
pub fn stream_head(status: u32, reason: &str, headers: &Option<FieldMap>, names: &Vec<String>) -> (r:
    Vec<u8>)
    ensures
        r@ == encode_utf8(stream_head_text(status, reason@, fields_of(*headers), texts(names@))),
{
    let mut head = String::new();
    push_status_line(&mut head, status, reason);
    head.append("Transfer-Encoding: chunked\r\n");
    push_headers(&mut head, headers);
    let ghost before = head@;
    if names.len() > 0 {
        head.append("Trailers: ");
        let ghost start = head@;
        let ghost all = texts(names@);
        let mut i: usize = 0;
        proof {
            assert(all.take(0) =~= Seq::<Seq<char>>::empty());
            assert(start + comma_list(all.take(0)) =~= start);
        }
        while i < names.len()
            invariant
                i <= names.len(),
                all == texts(names@),
                head@ == start + comma_list(all.take(i as int)),
            decreases names.len() - i,
        {
            proof {
                assert(all.take(i + 1).drop_last() =~= all.take(i as int));
                assert(all.take(i + 1).last() == names@[i as int]@);
            }
            if i > 0 {
                head.append(",");
            }
            head.append(names[i].as_str());
            proof {
                assert(head@ =~= start + comma_list(all.take(i + 1)));
            }
            i = i + 1;
        }
        proof {
            assert(all.take(names.len() as int) =~= all);
        }
        head.append("\r\n");
        proof {
            assert(head@ =~= before + trailers_line(all));
        }
    } else {
        proof {
            assert(before + trailers_line(texts(names@)) =~= before);
        }
    }
    head.append("\r\n");
    proof {
        assert(head@ =~= stream_head_text(status, reason@, fields_of(*headers), texts(names@)));
    }
    head.as_str().as_bytes_vec()
}

/// A chunk as it goes over the wire.
pub fn chunk_frame(data: &[u8]) -> (r: Vec<u8>)
    ensures
        r@ == frame(data@),
{
    let mut size = number_text(data.len(), 16);
    size.append("\r\n");
    let mut out = size.as_str().as_bytes_vec();
    let mut body = vstd::slice::slice_to_vec(data);
    out.append(&mut body);
    out.push(13u8);
    out.push(10u8);
    proof {
        assert(out@ =~= frame(data@));
    }
    out
}

/// What goes over the wire after the chunks of a streamed response. The
/// trailers are sent only where their names were announced.
pub fn stream_tail(announced: bool, trailers: &Vec<(String, String)>) -> (r: Vec<u8>)
    ensures
        r@ == encode_utf8(stream_tail_text(announced, pair_texts(trailers@))),
{
    let mut tail = String::from_str("0\r\n");
    let ghost start = tail@;
    if announced {
        push_pairs(&mut tail, trailers);
    } else {
        proof {
            assert(start + Seq::<char>::empty() =~= start);
        }
    }
    tail.append("\r\n");
    proof {
        assert(tail@ =~= stream_tail_text(announced, pair_texts(trailers@)));
    }
    tail.as_str().as_bytes_vec()
}

/// What goes over the wire after the chunks of a streamed response whose
/// trailers have these names: the trailers are sent exactly where there is
/// a name for them.
pub fn stream_end(names: &Vec<String>, trailers: &Vec<(String, String)>) -> (r: Vec<u8>)
    ensures
        r@ == encode_utf8(stream_tail_text(names@.len() > 0, pair_texts(trailers@))),
{
    stream_tail(names.len() > 0, trailers)
}

/// A streamed response whose chunks are all there, as it goes over the
/// wire: the head, each chunk in its frame, and the tail. The trailers are
/// announced, and sent, where there are names for them.
pub fn stream_response(
    status: u32,
    reason: &str,
    headers: &Option<FieldMap>,
    chunks: &Vec<Vec<u8>>,
    names: &Vec<String>,
    trailers: &Vec<(String, String)>,
) -> (r: Vec<u8>)
    ensures
        r@ == encode_utf8(stream_head_text(status, reason@, fields_of(*headers), texts(names@)))
            + frames(chunk_bytes(chunks@)) + encode_utf8(
            stream_tail_text(names@.len() > 0, pair_texts(trailers@)),
        ),
{
    let mut out = stream_head(status, reason, headers, names);
    let ghost head = out@;
    let ghost all = chunk_bytes(chunks@);
    let mut i: usize = 0;
    proof {
        assert(all.take(0) =~= Seq::<Seq<u8>>::empty());
        assert(head + frames(all.take(0)) =~= head);
    }
    while i < chunks.len()
        invariant
            i <= chunks.len(),
            all == chunk_bytes(chunks@),
            out@ == head + frames(all.take(i as int)),
        decreases chunks.len() - i,
    {
        let mut framed = chunk_frame(chunks[i].as_slice());
        out.append(&mut framed);
        proof {
            lemma_frames_push(all.take(i as int), all[i as int]);
            assert(all.take(i + 1) =~= all.take(i as int).push(all[i as int]));
            assert(out@ =~= head + frames(all.take(i + 1)));
        }
        i = i + 1;
    }
    proof {
        assert(all.take(chunks.len() as int) =~= all);
    }
    let mut tail = stream_end(names, trailers);
    out.append(&mut tail);
    out
}

/// The text holds no line feed.
pub open spec fn one_line(s: Seq<char>) -> bool {
    forall|i: int| 0 <= i < s.len() ==> s[i] != '\n'
}

/// No name and no value of the fields holds a line feed.
pub open spec fn one_line_each(fields: Seq<(Seq<char>, Seq<char>)>) -> bool {
    forall|i: int|
        0 <= i < fields.len() ==> one_line((#[trigger] fields[i]).0) && one_line(fields[i].1)
}

/// A line that was written is read back as it was: on the wire it ends at
/// its own line feed, and its bytes are its text.
pub proof fn lemma_line_read_back(content: Seq<char>, rest: Seq<u8>)
    requires
        one_line(content),
    ensures
        ({
            let text = content + "\r\n"@;
            let line = encode_utf8(text);
            let wire = line + rest;
            &&& line_len(wire) == line.len()
            &&& line.len() >= 2
            &&& wire.take(line.len() as int) == line
            &&& wire.skip(line.len() as int) == rest
            &&& valid_utf8(line)
            &&& decode_utf8(line) == text
            &&& ends_with_crlf(text)
            &&& without_crlf(text) == content
        }),
{
    reveal_strlit("\r\n");
    let text = content + "\r\n"@;
    let line = encode_utf8(text);
    let wire = line + rest;
    let before = content + seq!['\r'];
    let feed = seq!['\n'];
    assert(text =~= before + feed);
    lemma_encode_concat(before, feed);
    vstd::utf8::is_ascii_chars_encode_utf8(feed);
    assert(encode_utf8(feed) =~= seq![10u8]);
    lemma_encode_concat(content, seq!['\r']);
    vstd::utf8::is_ascii_chars_encode_utf8(seq!['\r']);
    assert(encode_utf8(seq!['\r']) =~= seq![13u8]);
    assert(one_line(before));
    lemma_encode_no_line_feed(before);
    let e = encode_utf8(before);
    assert(line =~= e + seq![10u8]);
    assert(e.len() >= 1);
    assert forall|j: int| 0 <= j < e.len() implies wire[j] != 10u8 by {
        assert(wire[j] == e[j]);
    }
    lemma_line_len_scan(wire, e.len() as int);
    let tail = wire.skip(e.len() as int);
    assert(tail[0] == 10u8);
    assert(line_len(tail) == 1);
    assert(wire.take(line.len() as int) =~= line);
    assert(wire.skip(line.len() as int) =~= rest);
    vstd::utf8::encode_utf8_valid_utf8(text);
    vstd::utf8::encode_utf8_decode_utf8(text);
    assert(without_crlf(text) =~= content);
}

/// The body that a stream of chunks carries, and what follows the chunk
/// of length zero that ends it. Each chunk is read as the connection
/// reads it: a line with its size, that many bytes, a line end.
pub open spec fn dechunk(wire: Seq<u8>) -> Option<(Seq<u8>, Seq<u8>)>
    decreases wire.len(),
    via dechunk_decreases
{
    let n = line_len(wire) as int;
    let line = wire.take(n);
    let after = wire.skip(n);
    if !valid_utf8(line) {
        None
    } else {
        match chunk_size(decode_utf8(line)) {
            None => None,
            Some(size) => if size == 0 {
                Some((Seq::empty(), after))
            } else if after.len() < size + 2 || after[size as int] != 13u8 || after[size + 1]
                != 10u8 {
                None
            } else {
                match dechunk(after.skip(size + 2)) {
                    Some((data, rest)) => Some((after.take(size as int) + data, rest)),
                    None => None,
                }
            },
        }
    }
}

#[via_fn]
proof fn dechunk_decreases(wire: Seq<u8>) {
    crate::mock_stream::lemma_line_len_bounds(wire);
}

/// The bytes of the chunks, one after the other.
pub open spec fn concat(chunks: Seq<Seq<u8>>) -> Seq<u8>
    decreases chunks.len(),
{
    if chunks.len() == 0 {
        Seq::empty()
    } else {
        chunks[0] + concat(chunks.drop_first())
    }
}

/// A line with a size is read back as that size.
proof fn lemma_size_read_back(n: nat, rest: Seq<u8>)
    requires
        n <= usize::MAX,
    ensures
        ({
            let line = encode_utf8(digits_of(n, 16) + "\r\n"@);
            let wire = line + rest;
            &&& line_len(wire) == line.len()
            &&& wire.take(line.len() as int) == line
            &&& wire.skip(line.len() as int) == rest
            &&& valid_utf8(line)
            &&& chunk_size(decode_utf8(line)) == Some(n as usize)
        }),
{
    lemma_digits_round_trip(n, 16);
    assert(one_line(digits_of(n, 16)));
    lemma_line_read_back(digits_of(n, 16), rest);
}

/// What was framed chunk by chunk and ended with the chunk of length zero
/// is, read as chunks, the bytes of the chunks one after the other, and
/// what comes after the end is left.
pub proof fn lemma_chunks_read_back(chunks: Seq<Seq<u8>>, rest: Seq<u8>)
    requires
        forall|i: int| 0 <= i < chunks.len() ==> 0 < (#[trigger] chunks[i]).len() <= usize::MAX,
    ensures
        dechunk(frames(chunks) + encode_utf8("0\r\n"@) + rest) == Some((concat(chunks), rest)),
    decreases chunks.len(),
{
    reveal_strlit("0\r\n");
    reveal_strlit("\r\n");
    let end = encode_utf8("0\r\n"@);
    let wire = frames(chunks) + end + rest;
    if chunks.len() == 0 {
        assert(digits_of(0, 16) =~= seq!['0']);
        assert("0\r\n"@ =~= digits_of(0, 16) + "\r\n"@);
        lemma_size_read_back(0, rest);
        assert(wire =~= end + rest);
    } else {
        let first = chunks[0];
        let more = chunks.drop_first();
        let line = encode_utf8(digits_of(first.len(), 16) + "\r\n"@);
        let then = frames(more) + end + rest;
        let after = first + crlf_bytes() + then;
        assert(wire =~= line + after);
        lemma_size_read_back(first.len(), after);
        assert(after[first.len() as int] == 13u8);
        assert(after[first.len() as int + 1] == 10u8);
        assert(after.take(first.len() as int) =~= first);
        assert(after.skip(first.len() as int + 2) =~= then);
        assert forall|i: int| 0 <= i < more.len() implies 0 < (#[trigger] more[i]).len()
            <= usize::MAX by {
            assert(more[i] == chunks[i + 1]);
        }
        lemma_chunks_read_back(more, rest);
    }
}

/// What follows the chunk of length zero in a streamed response: the
/// trailers, if any were announced, and an empty line.
pub open spec fn after_last_chunk(announced: bool, trailers: Seq<(Seq<char>, Seq<char>)>) -> Seq<
    char,
> {
    (if announced {
        field_lines(trailers)
    } else {
        Seq::empty()
    }) + "\r\n"@
}

/// A streamed response gives back its chunks: what follows its head on
/// the wire is, read as chunks, the bytes of the chunks one after the
/// other, up to a chunk of length zero, and after that come the trailers
/// and the empty line. Left out are chunks without bytes: on the wire such
/// a chunk is itself the end.
pub proof fn law_stream_round_trip(
    chunks: Seq<Seq<u8>>,
    announced: bool,
    trailers: Seq<(Seq<char>, Seq<char>)>,
)
    requires
        forall|i: int| 0 <= i < chunks.len() ==> 0 < (#[trigger] chunks[i]).len() <= usize::MAX,
    ensures
        dechunk(frames(chunks) + encode_utf8(stream_tail_text(announced, trailers))) == Some(
            (concat(chunks), encode_utf8(after_last_chunk(announced, trailers))),
        ),
{
    let rest = after_last_chunk(announced, trailers);
    assert(stream_tail_text(announced, trailers) =~= "0\r\n"@ + rest);
    lemma_encode_concat("0\r\n"@, rest);
    lemma_chunks_read_back(chunks, encode_utf8(rest));
    assert(frames(chunks) + encode_utf8(stream_tail_text(announced, trailers)) =~= frames(chunks)
        + encode_utf8("0\r\n"@) + encode_utf8(rest));
}

/// The name under which the length of the body is found: the lower-case
/// form of the name it is written under.
pub open spec fn length_name() -> Seq<char> {
    lowercase("Content-Length"@)
}

/// The headers of a response and its body, as they are read from the
/// wire: the status line is passed over, the header block is read, and
/// what is left is the body.
pub open spec fn response_parts(wire: Seq<u8>) -> (BlockEnd, Seq<u8>) {
    header_block(wire.skip(line_len(wire) as int), Map::empty())
}

/// The header block of a response with a body of known length is read
/// back to its end, and the length of the body is found in it.
proof fn lemma_fields_read_back(
    fields: Seq<(Seq<char>, Seq<char>)>,
    len: nat,
    body: Seq<u8>,
    found: Map<Seq<char>, Seq<char>>,
)
    requires
        one_line_each(fields),
    ensures
        ({
            let wire = encode_utf8(field_lines(fields) + length_line(len) + "\r\n"@) + body;
            let end = header_block(wire, found);
            &&& end.1 == body
            &&& end.0 matches BlockEnd::Done(headers)
            &&& headers.contains_key(length_name())
            &&& headers[length_name()] == digits_of(len, 10)
        }),
    decreases fields.len(),
{
    reveal_strlit("\r\n");
    reveal_strlit(": ");
    assert(": "@ =~= separator());
    let close = "\r\n"@;
    let wire = encode_utf8(field_lines(fields) + length_line(len) + close) + body;
    if fields.len() == 0 {
        reveal_strlit("Content-Length: ");
        reveal_strlit("Content-Length");
        let digits = digits_of(len, 10);
        let label = "Content-Length: "@;
        assert(label =~= seq![
            'C',
            'o',
            'n',
            't',
            'e',
            'n',
            't',
            '-',
            'L',
            'e',
            'n',
            'g',
            't',
            'h',
            ':',
            ' ',
        ]);
        lemma_digits_round_trip(len, 10);
        let content = label + digits;
        assert(one_line(content));
        assert(field_lines(fields) + length_line(len) + close =~= (content + close) + close);
        lemma_encode_concat(content + close, close);
        let last = encode_utf8(close) + body;
        assert(wire =~= encode_utf8(content + close) + last);
        lemma_line_read_back(content, last);
        assert(first_at(content, separator(), 14)) by {
            assert(content.subrange(14, 16) =~= separator());
            assert forall|j: int| 0 <= j < 14 implies !occurs_at(content, separator(), j) by {
                assert(content.subrange(j, j + 2)[0] == content[j]);
                assert(content[j] == label[j]);
            }
        }
        lemma_split_once_at(content, separator(), 14);
        assert(content.take(14) =~= label.take(14));
        assert(content.skip(16) =~= digits);
        assert(label.take(14) =~= "Content-Length"@);
        assert(crate::headers::name_and_value(content) == Some((label.take(14), digits)));
        assert(header_of(content) == Some((length_name(), digits)));
        let empty = Seq::<char>::empty();
        assert(one_line(empty));
        assert(empty + close =~= close);
        lemma_line_read_back(empty, body);
        assert(ends_block(close));
        let kept = found.insert(length_name(), digits);
        assert(header_block(last, kept) == (BlockEnd::Done(kept), body));
        assert(!ends_block(content + close));
        assert(header_block(wire, found) == header_block(last, kept));
    } else {
        let name = fields[0].0;
        let value = fields[0].1;
        let others = fields.drop_first();
        let content = name + ": "@ + value;
        assert(one_line(name) && one_line(value));
        assert(one_line(content));
        assert(field_line(name, value) =~= content + close);
        let tail_text = field_lines(others) + length_line(len) + close;
        assert(field_lines(fields) + length_line(len) + close =~= (content + close) + tail_text);
        lemma_encode_concat(content + close, tail_text);
        let then = encode_utf8(tail_text) + body;
        assert(wire =~= encode_utf8(content + close) + then);
        lemma_line_read_back(content, then);
        assert(occurs_at(content, separator(), name.len() as int)) by {
            assert(content.subrange(name.len() as int, name.len() as int + 2) =~= separator());
        }
        let at = lemma_first_exists(content, separator(), name.len() as int);
        lemma_split_once_at(content, separator(), at);
        assert(header_of(content) is Some);
        let field = header_of(content)->0;
        assert(!ends_block(content + close));
        assert forall|i: int| 0 <= i < others.len() implies one_line((#[trigger] others[i]).0)
            && one_line(others[i].1) by {
            assert(others[i] == fields[i + 1]);
        }
        lemma_fields_read_back(others, len, body, found.insert(field.0, field.1));
        assert(header_block(wire, found) == header_block(then, found.insert(field.0, field.1)));
    }
}

/// A response with a body of known length gives back its body: read from
/// the wire, its headers tell the length of the body under the lower-case
/// form of `Content-Length`, whatever the caller's own headers say, and
/// what follows the header block is the body, byte for byte. Left out are
/// reasons, names and values with a line feed in them, which would break
/// their line.
pub proof fn law_fixed_round_trip(
    status: u32,
    reason: Seq<char>,
    fields: Seq<(Seq<char>, Seq<char>)>,
    body: Seq<u8>,
)
    requires
        one_line(reason),
        one_line_each(fields),
    ensures
        ({
            let wire = encode_utf8(fixed_head(status, reason, fields, body.len())) + body;
            let parts = response_parts(wire);
            &&& parts.1 == body
            &&& parts.0 matches BlockEnd::Done(headers)
            &&& headers.contains_key(length_name())
            &&& headers[length_name()] == digits_of(body.len(), 10)
        }),
{
    reveal_strlit("\r\n");
    reveal_strlit("HTTP/1.1 ");
    reveal_strlit(" ");
    let close = "\r\n"@;
    let start = "HTTP/1.1 "@;
    assert(start =~= seq!['H', 'T', 'T', 'P', '/', '1', '.', '1', ' ']);
    lemma_digits_round_trip(status as nat, 10);
    let content = start + digits_of(status as nat, 10) + " "@ + reason;
    assert(one_line(content));
    assert(status_line(status, reason) =~= content + close);
    let tail_text = field_lines(fields) + length_line(body.len()) + close;
    assert(fixed_head(status, reason, fields, body.len()) =~= (content + close) + tail_text);
    lemma_encode_concat(content + close, tail_text);
    let then = encode_utf8(tail_text) + body;
    let wire = encode_utf8(fixed_head(status, reason, fields, body.len())) + body;
    assert(wire =~= encode_utf8(content + close) + then);
    lemma_line_read_back(content, then);
    lemma_fields_read_back(fields, body.len(), body, Map::empty());
}

} // verus!
