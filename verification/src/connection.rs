//! The protocol engine of one connection, as a state machine.
//!
//! The engine does not read, write or call a handler. It is told what was
//! read or answered, as an `Event`, and says what is to be done next, as an
//! `Action`. The caller does what the action asks and comes back with the
//! event that tells how it went.

use crate::fields::FieldMap;
use crate::headers::{classify, ends_block, header_of, HeaderLine};
use crate::parsed_first_line::{request_fields, target_path, target_query, ParsedFirstLine};
use crate::routes::{normal, segments};
use crate::text::{
    ends_with_crlf, lower_each, lowered, parse_number, parse_usize, parts, parts_of, same_text,
    strip_crlf, texts, without_crlf,
};
use crate::{
    extract_length, framing, min, verb_of, BodyType, ContentLength, HandlerResult, HttpRoutes,
    Request, Response, ResponseableError, RouteWithoutVerb,
};
use vstd::prelude::*;
use vstd::utf8::encode_utf8;

verus! {

/// What the caller tells the engine.
pub enum Event {
    /// A line was read, given as it came, with its line end. An empty
    /// line is the end of the stream.
    Line(String),
    /// The bytes that were asked for were read.
    Bytes(Vec<u8>),
    /// The handler was constructed.
    Ready,
    /// The handler has taken a part of the body; here is what it said.
    Handled(HandlerResult),
    /// Reading has failed.
    Failed,
}

/// What the engine asks the caller to do.
pub enum Action<R, H> {
    /// Read a line and come back with `Event::Line`.
    ReadLine,
    /// Read exactly this many bytes and come back with `Event::Bytes`.
    ReadBytes(usize),
    /// Call the route with the request and send its response. This ends
    /// the exchange.
    Invoke(R, Request),
    /// Construct the handler of the route with the request and come back
    /// with `Event::Ready`.
    Construct(H, Request),
    /// Give the handler this part of the body and come back with
    /// `Event::Handled`.
    Chunk(Vec<u8>),
    /// Ask the handler for its response, with these trailers, and send it.
    /// This ends the exchange.
    End(Option<FieldMap>),
    /// Send this response. This ends the exchange.
    Respond(Response),
    /// Send the response that answers this error. This ends the exchange.
    Reject(ResponseableError),
    /// Drop the connection without an answer.
    Close,
}

/// Where the exchange stands: what the engine waits for.
pub enum Phase<R, H> {
    /// The request line.
    RequestLine,
    /// A line of the header block. The route is found already.
    Headers { route: RouteWithoutVerb<R, H>, params: FieldMap, query: Option<String>, headers: FieldMap },
    /// The handler's construction.
    Handler { length: ContentLength, trailers: Option<String> },
    /// Bytes of a body of fixed length, of which `left` are still to read.
    FixedRead { left: usize },
    /// The handler's word on a part of such a body; `left` bytes are still
    /// to read after that part.
    FixedFeed { left: usize },
    /// The line with the size of the next chunk.
    ChunkSize { trailers: Option<String> },
    /// Bytes of a chunk, of which `left` are still to read.
    ChunkRead { left: usize, trailers: Option<String> },
    /// The handler's word on a part of a chunk.
    ChunkFeed { left: usize, trailers: Option<String> },
    /// The line end after a chunk.
    ChunkEnd { trailers: Option<String> },
    /// A line of the trailer block.
    Trailers { declared: String, found: FieldMap },
    /// Nothing more: the exchange is over.
    Closed,
}

/// The engine of one connection.
pub struct Connection<R, H> {
    /// The most bytes to read at once, and the longest body of fixed
    /// length that is taken.
    pub buf_size: usize,
    pub phase: Phase<R, H>,
}

/// The text of a string that may be missing.
pub open spec fn text_of(s: Option<String>) -> Option<Seq<char>> {
    match s {
        Some(text) => Some(text@),
        None => None,
    }
}

/// The content of a request line as read: without its line end, if it has
/// one.
pub open spec fn first_line_content(raw: Seq<char>) -> Seq<char> {
    if ends_with_crlf(raw) {
        without_crlf(raw)
    } else {
        raw
    }
}

/// The only version that is served.
pub open spec fn served_version() -> Seq<char> {
    "HTTP/1.1"@
}

/// What separates the names in a `Trailers` header.
pub open spec fn comma() -> Seq<char> {
    seq![',']
}

/// The size that a chunk-size line tells: the hexadecimal number before
/// its line end. There is none where the line is cut short, is no such
/// number, or the number does not fit.
pub open spec fn chunk_size(raw: Seq<char>) -> Option<usize> {
    if ends_with_crlf(raw) {
        match parse_number(without_crlf(raw), 16) {
            Some(n) => if n <= usize::MAX {
                Some(n as usize)
            } else {
                None
            },
            None => None,
        }
    } else {
        None
    }
}

/// Of the given names, those that were found, with their values.
pub open spec fn kept(names: Seq<Seq<char>>, found: Map<Seq<char>, Seq<char>>) -> Map<
    Seq<char>,
    Seq<char>,
>
    decreases names.len(),
{
    if names.len() == 0 {
        Map::empty()
    } else {
        let before = kept(names.drop_last(), found);
        let name = names.last();
        if found.contains_key(name) {
            before.insert(name, found[name])
        } else {
            before
        }
    }
}

/// The trailers that are handed on: of the names that were declared, in
/// their lower-case forms, those that were found, with their values.
pub open spec fn allowed(names: Seq<Seq<char>>, found: Map<Seq<char>, Seq<char>>) -> Map<
    Seq<char>,
    Seq<char>,
> {
    kept(lowered(names), found)
}

/// The number of bytes to read next of `left`: all of them, but no more
/// than the limit.
pub open spec fn slice_len(left: usize, buf_size: usize) -> usize {
    if left < buf_size {
        left
    } else {
        buf_size
    }
}

/// The exchange is over with this error.
pub open spec fn rejected<R, H>(
    after: Connection<R, H>,
    action: Action<R, H>,
    error: ResponseableError,
) -> bool {
    after.phase is Closed && action == Action::<R, H>::Reject(error)
}

/// What follows the request line `raw`.
pub open spec fn after_request_line<R, H>(
    routes: HttpRoutes<R, H>,
    raw: Seq<char>,
    after: Connection<R, H>,
    action: Action<R, H>,
) -> bool {
    if raw.len() == 0 {
        rejected(after, action, ResponseableError::NotHttpConform)
    } else {
        match request_fields(first_line_content(raw)) {
            None => rejected(after, action, ResponseableError::NotHttpConform),
            Some((method, target, version)) => match verb_of(method) {
                None => {
                    &&& after.phase is Closed
                    &&& action matches Action::Reject(ResponseableError::MethodNotImplemented(name))
                    &&& name@ == method
                },
                Some(verb) => if version != served_version() {
                    {
                    &&& after.phase is Closed
                    &&& action matches Action::Reject(ResponseableError::UnsupportedVersion(name))
                    &&& name@ == version
                }
                } else {
                    match routes.resolve(verb, segments(normal(target_path(target)))) {
                        None => {
                    &&& after.phase is Closed
                    &&& action matches Action::Reject(ResponseableError::NotFound(name))
                    &&& name@ == target_path(target)
                },
                        Some((found, bound)) => {
                            &&& action is ReadLine
                            &&& after.phase matches Phase::Headers { route, params, query, headers }
                            &&& route == found
                            &&& params@ == bound
                            &&& params.distinct()
                            &&& text_of(query) == target_query(target)
                            &&& headers@ == Map::<Seq<char>, Seq<char>>::empty()
                            &&& headers.distinct()
                        },
                    }
                },
            },
        }
    }
}

/// What follows the line `raw` of the header block.
pub open spec fn after_header_line<R, H>(
    route: RouteWithoutVerb<R, H>,
    params: FieldMap,
    query: Option<String>,
    headers: FieldMap,
    raw: Seq<char>,
    after: Connection<R, H>,
    action: Action<R, H>,
) -> bool {
    if ends_block(raw) {
        match framing(headers@) {
            None => rejected(after, action, ResponseableError::InvalidLength),
            Some(told) => match route {
                RouteWithoutVerb::NoDate(item) => after.phase is Closed && action
                    == Action::<R, H>::Invoke(item, Request { params, query, headers }),
                RouteWithoutVerb::WithData(item) => {
                    &&& action == Action::<R, H>::Construct(item, Request { params, query, headers })
                    &&& after.phase matches Phase::Handler { length, trailers }
                    &&& length == told
                    &&& text_of(trailers) == (if headers@.contains_key("trailers"@) {
                        Some(headers@["trailers"@])
                    } else {
                        None
                    })
                },
            },
        }
    } else if !ends_with_crlf(raw) {
        after.phase is Closed && action is Close
    } else {
        match header_of(without_crlf(raw)) {
            None => {
                    &&& after.phase is Closed
                    &&& action matches Action::Reject(ResponseableError::BadHeader(line))
                    &&& line@ == raw
                },
            Some((name, value)) => {
                &&& action is ReadLine
                &&& after.phase matches Phase::Headers {
                    route: same_route,
                    params: same_params,
                    query: same_query,
                    headers: more,
                }
                &&& same_route == route
                &&& same_params == params
                &&& same_query == query
                &&& more@ == headers@.insert(name, value)
                &&& headers.distinct() ==> more.distinct()
            },
        }
    }
}

/// What follows the construction of the handler.
pub open spec fn after_ready<R, H>(
    buf_size: usize,
    length: ContentLength,
    trailers: Option<String>,
    after: Connection<R, H>,
    action: Action<R, H>,
) -> bool {
    match length {
        ContentLength::Fixed(n) => if n > buf_size {
            rejected(after, action, ResponseableError::PayloadToLarge)
        } else if n == 0 {
            after.phase is Closed && action == Action::<R, H>::End(None)
        } else {
            action == Action::<R, H>::ReadBytes(n) && after.phase == (Phase::<R, H>::FixedRead {
                left: n,
            })
        },
        ContentLength::Chunked => action is ReadLine && after.phase == (Phase::<
            R,
            H,
        >::ChunkSize { trailers }),
        ContentLength::Missing => {
            &&& after.phase is Closed
            &&& action matches Action::Respond(response)
            &&& response.status == 411
            &&& response.headers is None
            &&& response.body matches BodyType::Fixed(body)
            &&& body@ == encode_utf8("Include length or send chunked"@)
        },
    }
}

/// What follows the handler's word on a part of a body of fixed length.
pub open spec fn after_fixed_feed<R, H>(
    buf_size: usize,
    left: usize,
    said: HandlerResult,
    after: Connection<R, H>,
    action: Action<R, H>,
) -> bool {
    match said {
        HandlerResult::Abort(response) => after.phase is Closed && action == Action::<
            R,
            H,
        >::Respond(response),
        HandlerResult::Continue => if left == 0 {
            after.phase is Closed && action == Action::<R, H>::End(None)
        } else {
            action == Action::<R, H>::ReadBytes(slice_len(left, buf_size)) && after.phase == (
            Phase::<R, H>::FixedRead { left })
        },
    }
}

/// What follows the bytes that were read of a body, `left` of which were
/// still to read: they go to the handler if they are as many as were asked
/// for.
pub open spec fn after_body_bytes<R, H>(
    buf_size: usize,
    left: usize,
    data: Vec<u8>,
    fed: Phase<R, H>,
    after: Connection<R, H>,
    action: Action<R, H>,
) -> bool {
    if data@.len() == slice_len(left, buf_size) {
        action == Action::<R, H>::Chunk(data) && after.phase == fed
    } else {
        after.phase is Closed && action is Close
    }
}

/// What follows the chunk-size line `raw`.
pub open spec fn after_chunk_size<R, H>(
    buf_size: usize,
    trailers: Option<String>,
    raw: Seq<char>,
    after: Connection<R, H>,
    action: Action<R, H>,
) -> bool {
    match chunk_size(raw) {
        None => rejected(after, action, ResponseableError::BrokenChunk),
        Some(size) => if size == 0 {
            match trailers {
                Some(names) => {
                    &&& action is ReadLine
                    &&& after.phase matches Phase::Trailers { declared, found }
                    &&& declared == names
                    &&& found@ == Map::<Seq<char>, Seq<char>>::empty()
                },
                None => after.phase is Closed && action == Action::<R, H>::End(None),
            }
        } else if buf_size == 0 {
            rejected(after, action, ResponseableError::PayloadToLarge)
        } else {
            action == Action::<R, H>::ReadBytes(slice_len(size, buf_size)) && after.phase == (
            Phase::<R, H>::ChunkRead { left: size, trailers })
        },
    }
}

/// What follows the handler's word on a part of a chunk.
pub open spec fn after_chunk_feed<R, H>(
    buf_size: usize,
    left: usize,
    trailers: Option<String>,
    said: HandlerResult,
    after: Connection<R, H>,
    action: Action<R, H>,
) -> bool {
    match said {
        HandlerResult::Abort(response) => after.phase is Closed && action == Action::<
            R,
            H,
        >::Respond(response),
        HandlerResult::Continue => if left == 0 {
            action == Action::<R, H>::ReadBytes(2) && after.phase == (Phase::<R, H>::ChunkEnd {
                trailers,
            })
        } else {
            action == Action::<R, H>::ReadBytes(slice_len(left, buf_size)) && after.phase == (
            Phase::<R, H>::ChunkRead { left, trailers })
        },
    }
}

/// What follows the two bytes after a chunk: they must be a line end.
pub open spec fn after_chunk_end<R, H>(
    trailers: Option<String>,
    data: Seq<u8>,
    after: Connection<R, H>,
    action: Action<R, H>,
) -> bool {
    if data.len() != 2 {
        after.phase is Closed && action is Close
    } else if data[0] == 13u8 && data[1] == 10u8 {
        action is ReadLine && after.phase == (Phase::<R, H>::ChunkSize { trailers })
    } else {
        rejected(after, action, ResponseableError::BrokenChunk)
    }
}

/// What follows the line `raw` of the trailer block.
pub open spec fn after_trailer_line<R, H>(
    declared: String,
    found: FieldMap,
    raw: Seq<char>,
    after: Connection<R, H>,
    action: Action<R, H>,
) -> bool {
    if ends_block(raw) {
        &&& after.phase is Closed
        &&& action matches Action::End(Some(kept))
        &&& kept@ == allowed(parts(declared@, comma()), found@)
        &&& kept.distinct()
    } else if !ends_with_crlf(raw) {
        after.phase is Closed && action is Close
    } else {
        match header_of(without_crlf(raw)) {
            None => {
                    &&& after.phase is Closed
                    &&& action matches Action::Reject(ResponseableError::BadHeader(line))
                    &&& line@ == raw
                },
            Some((name, value)) => {
                &&& action is ReadLine
                &&& after.phase matches Phase::Trailers { declared: same, found: more }
                &&& same == declared
                &&& more@ == found@.insert(name, value)
            },
        }
    }
}

/// What follows `event` in the state `before`: the whole machine. An event
/// that the state does not wait for drops the connection.
pub open spec fn transition<R, H>(
    before: Connection<R, H>,
    routes: HttpRoutes<R, H>,
    event: Event,
    after: Connection<R, H>,
    action: Action<R, H>,
) -> bool {
    &&& after.buf_size == before.buf_size
    &&& match (before.phase, event) {
        (Phase::RequestLine, Event::Line(raw)) => after_request_line(routes, raw@, after, action),
        (Phase::Headers { route, params, query, headers }, Event::Line(raw)) => after_header_line(
            route,
            params,
            query,
            headers,
            raw@,
            after,
            action,
        ),
        (Phase::Handler { length, trailers }, Event::Ready) => after_ready(
            before.buf_size,
            length,
            trailers,
            after,
            action,
        ),
        (Phase::FixedRead { left }, Event::Bytes(data)) => after_body_bytes(
            before.buf_size,
            left,
            data,
            Phase::FixedFeed { left: (left - slice_len(left, before.buf_size)) as usize },
            after,
            action,
        ),
        (Phase::FixedFeed { left }, Event::Handled(said)) => after_fixed_feed(
            before.buf_size,
            left,
            said,
            after,
            action,
        ),
        (Phase::ChunkSize { trailers }, Event::Line(raw)) => after_chunk_size(
            before.buf_size,
            trailers,
            raw@,
            after,
            action,
        ),
        (Phase::ChunkRead { left, trailers }, Event::Bytes(data)) => after_body_bytes(
            before.buf_size,
            left,
            data,
            Phase::ChunkFeed {
                left: (left - slice_len(left, before.buf_size)) as usize,
                trailers,
            },
            after,
            action,
        ),
        (Phase::ChunkFeed { left, trailers }, Event::Handled(said)) => after_chunk_feed(
            before.buf_size,
            left,
            trailers,
            said,
            after,
            action,
        ),
        (Phase::ChunkEnd { trailers }, Event::Bytes(data)) => after_chunk_end(
            trailers,
            data@,
            after,
            action,
        ),
        (Phase::Trailers { declared, found }, Event::Line(raw)) => after_trailer_line(
            declared,
            found,
            raw@,
            after,
            action,
        ),
        _ => after.phase is Closed && action is Close,
    }
}

/// Of the given names, those that were found, with their values.
pub fn keep_declared(names: &Vec<String>, found: &FieldMap) -> (r: FieldMap)
    ensures
        r@ == kept(texts(names@), found@),
        r.distinct(),
{
    let ghost all = texts(names@);
    let mut out = FieldMap::new();
    let mut i: usize = 0;
    while i < names.len()
        invariant
            i <= names.len(),
            all == texts(names@),
            out@ == kept(all.take(i as int), found@),
            out.distinct(),
        decreases names.len() - i,
    {
        proof {
            assert(all.take(i + 1).drop_last() =~= all.take(i as int));
            assert(all.take(i + 1).last() == names@[i as int]@);
        }
        match found.get(names[i].as_str()) {
            Some(value) => {
                let name = names[i].clone();
                let value = value.clone();
                out.insert(name, value);
            },
            None => {},
        }
        i = i + 1;
    }
    proof {
        assert(all.take(names.len() as int) =~= all);
    }
    out
}

/// The trailers that are handed on to the handler: the declared names are
/// parted at their commas and brought to lower case, and those that were
/// found are kept.
pub fn allowed_trailers(declared: &str, found: &FieldMap) -> (r: FieldMap)
    ensures
        r@ == allowed(parts(declared@, comma()), found@),
        r.distinct(),
{
    proof {
        reveal_strlit(",");
        assert(","@ =~= comma());
    }
    let names = parts_of(declared, ",");
    let lower = lower_each(&names);
    keep_declared(&lower, found)
}

impl<R: Copy, H: Copy> Connection<R, H> {
    /// The engine of a fresh connection, and what it asks first: to read
    /// the request line.
    pub fn open(buf_size: usize) -> (r: (Self, Action<R, H>))
        ensures
            r.0.buf_size == buf_size,
            r.0.phase is RequestLine,
            r.1 is ReadLine,
    {
        (Connection { buf_size, phase: Phase::RequestLine }, Action::ReadLine)
    }

    fn closed(buf_size: usize) -> (r: Self)
        ensures
            r.buf_size == buf_size,
            r.phase is Closed,
    {
        Connection { buf_size, phase: Phase::Closed }
    }

    /// Takes an event and says what is to be done next.
    pub fn step(self, routes: &HttpRoutes<R, H>, event: Event) -> (r: (Self, Action<R, H>))
        ensures
            transition(self, *routes, event, r.0, r.1),
    {
        let buf_size = self.buf_size;
        match (self.phase, event) {
            (Phase::RequestLine, Event::Line(raw)) => Self::request_line(buf_size, routes, raw),
            (Phase::Headers { route, params, query, headers }, Event::Line(raw)) => {
                Self::header_line(buf_size, route, params, query, headers, raw)
            },
            (Phase::Handler { length, trailers }, Event::Ready) => Self::ready(
                buf_size,
                length,
                trailers,
            ),
            (Phase::FixedRead { left }, Event::Bytes(data)) => {
                let want = min(left, buf_size);
                if data.len() == want {
                    (
                        Connection { buf_size, phase: Phase::FixedFeed { left: left - want } },
                        Action::Chunk(data),
                    )
                } else {
                    (Self::closed(buf_size), Action::Close)
                }
            },
            (Phase::FixedFeed { left }, Event::Handled(said)) => match said {
                HandlerResult::Abort(response) => (
                    Self::closed(buf_size),
                    Action::Respond(response),
                ),
                HandlerResult::Continue => if left == 0 {
                    (Self::closed(buf_size), Action::End(None))
                } else {
                    (
                        Connection { buf_size, phase: Phase::FixedRead { left } },
                        Action::ReadBytes(min(left, buf_size)),
                    )
                },
            },
            (Phase::ChunkSize { trailers }, Event::Line(raw)) => Self::chunk_size_line(
                buf_size,
                trailers,
                raw,
            ),
            (Phase::ChunkRead { left, trailers }, Event::Bytes(data)) => {
                let want = min(left, buf_size);
                if data.len() == want {
                    (
                        Connection {
                            buf_size,
                            phase: Phase::ChunkFeed { left: left - want, trailers },
                        },
                        Action::Chunk(data),
                    )
                } else {
                    (Self::closed(buf_size), Action::Close)
                }
            },
            (Phase::ChunkFeed { left, trailers }, Event::Handled(said)) => match said {
                HandlerResult::Abort(response) => (
                    Self::closed(buf_size),
                    Action::Respond(response),
                ),
                HandlerResult::Continue => if left == 0 {
                    (
                        Connection { buf_size, phase: Phase::ChunkEnd { trailers } },
                        Action::ReadBytes(2),
                    )
                } else {
                    (
                        Connection { buf_size, phase: Phase::ChunkRead { left, trailers } },
                        Action::ReadBytes(min(left, buf_size)),
                    )
                },
            },
            (Phase::ChunkEnd { trailers }, Event::Bytes(data)) => {
                if data.len() != 2 {
                    (Self::closed(buf_size), Action::Close)
                } else if data[0] == 13u8 && data[1] == 10u8 {
                    (
                        Connection { buf_size, phase: Phase::ChunkSize { trailers } },
                        Action::ReadLine,
                    )
                } else {
                    (Self::closed(buf_size), Action::Reject(ResponseableError::BrokenChunk))
                }
            },
            (Phase::Trailers { declared, found }, Event::Line(raw)) => Self::trailer_line(
                buf_size,
                declared,
                found,
                raw,
            ),
            _ => (Self::closed(buf_size), Action::Close),
        }
    }

    /// Takes the request line: parses it, checks the version and looks the
    /// route up.
    fn request_line(buf_size: usize, routes: &HttpRoutes<R, H>, raw: String) -> (r: (
        Self,
        Action<R, H>,
    ))
        ensures
            r.0.buf_size == buf_size,
            after_request_line(*routes, raw@, r.0, r.1),
    {
        if raw.as_str().unicode_len() == 0 {
            return (Self::closed(buf_size), Action::Reject(ResponseableError::NotHttpConform));
        }
        let content: String = match strip_crlf(raw.as_str()) {
            Some(content) => content.to_owned(),
            None => raw,
        };
        let parsed = match ParsedFirstLine::parse(content) {
            Ok(parsed) => parsed,
            Err(e) => {
                return (Self::closed(buf_size), Action::Reject(e));
            },
        };
        let ParsedFirstLine { method, path, query, version } = parsed;
        if !same_text(version.as_str(), "HTTP/1.1") {
            return (
                Self::closed(buf_size),
                Action::Reject(ResponseableError::UnsupportedVersion(version)),
            );
        }
        match routes.find(&method, path.as_str()) {
            None => (Self::closed(buf_size), Action::Reject(ResponseableError::NotFound(path))),
            Some((route, params)) => (
                Connection {
                    buf_size,
                    phase: Phase::Headers { route, params, query, headers: FieldMap::new() },
                },
                Action::ReadLine,
            ),
        }
    }

    /// Takes a line of the header block; at its end, decides how the body
    /// is framed and hands the request to the route.
    fn header_line(
        buf_size: usize,
        route: RouteWithoutVerb<R, H>,
        params: FieldMap,
        query: Option<String>,
        headers: FieldMap,
        raw: String,
    ) -> (r: (Self, Action<R, H>))
        ensures
            r.0.buf_size == buf_size,
            after_header_line(route, params, query, headers, raw@, r.0, r.1),
    {
        match classify(raw.as_str()) {
            HeaderLine::End => {
                let length = match extract_length(&headers) {
                    Ok(length) => length,
                    Err(e) => {
                        return (Self::closed(buf_size), Action::Reject(e));
                    },
                };
                match route {
                    RouteWithoutVerb::NoDate(item) => (
                        Self::closed(buf_size),
                        Action::Invoke(item, Request { params, query, headers }),
                    ),
                    RouteWithoutVerb::WithData(item) => {
                        let trailers = match headers.get("trailers") {
                            Some(names) => Some(names.clone()),
                            None => None,
                        };
                        (
                            Connection { buf_size, phase: Phase::Handler { length, trailers } },
                            Action::Construct(item, Request { params, query, headers }),
                        )
                    },
                }
            },
            HeaderLine::Cut => (Self::closed(buf_size), Action::Close),
            HeaderLine::Malformed => (
                Self::closed(buf_size),
                Action::Reject(ResponseableError::BadHeader(raw)),
            ),
            HeaderLine::Field(name, value) => {
                let mut headers = headers;
                headers.insert(name, value);
                (
                    Connection { buf_size, phase: Phase::Headers { route, params, query, headers } },
                    Action::ReadLine,
                )
            },
        }
    }

    /// Starts on the body, once the handler is there.
    fn ready(buf_size: usize, length: ContentLength, trailers: Option<String>) -> (r: (
        Self,
        Action<R, H>,
    ))
        ensures
            r.0.buf_size == buf_size,
            after_ready(buf_size, length, trailers, r.0, r.1),
    {
        match length {
            ContentLength::Fixed(n) => {
                if n > buf_size {
                    (Self::closed(buf_size), Action::Reject(ResponseableError::PayloadToLarge))
                } else if n == 0 {
                    (Self::closed(buf_size), Action::End(None))
                } else {
                    (
                        Connection { buf_size, phase: Phase::FixedRead { left: n } },
                        Action::ReadBytes(n),
                    )
                }
            },
            ContentLength::Chunked => (
                Connection { buf_size, phase: Phase::ChunkSize { trailers } },
                Action::ReadLine,
            ),
            ContentLength::Missing => (
                Self::closed(buf_size),
                Action::Respond(Response::fixed_string(411, None, "Include length or send chunked")),
            ),
        }
    }

    /// Takes the line with the size of the next chunk.
    fn chunk_size_line(buf_size: usize, trailers: Option<String>, raw: String) -> (r: (
        Self,
        Action<R, H>,
    ))
        ensures
            r.0.buf_size == buf_size,
            after_chunk_size(buf_size, trailers, raw@, r.0, r.1),
    {
        let size = match Self::read_chunk_length(raw.as_str()) {
            Ok(size) => size,
            Err(e) => {
                return (Self::closed(buf_size), Action::Reject(e));
            },
        };
        if size == 0 {
            match trailers {
                Some(declared) => (
                    Connection {
                        buf_size,
                        phase: Phase::Trailers { declared, found: FieldMap::new() },
                    },
                    Action::ReadLine,
                ),
                None => (Self::closed(buf_size), Action::End(None)),
            }
        } else if buf_size == 0 {
            (Self::closed(buf_size), Action::Reject(ResponseableError::PayloadToLarge))
        } else {
            (
                Connection { buf_size, phase: Phase::ChunkRead { left: size, trailers } },
                Action::ReadBytes(min(size, buf_size)),
            )
        }
    }

    /// The size that a chunk-size line tells. A line that tells none is a
    /// broken chunk.
    pub fn read_chunk_length(raw: &str) -> (r: Result<usize, ResponseableError>)
        ensures
            match r {
                Ok(size) => chunk_size(raw@) == Some(size),
                Err(ResponseableError::BrokenChunk) => chunk_size(raw@) is None,
                Err(_) => false,
            },
    {
        match strip_crlf(raw) {
            None => Err(ResponseableError::BrokenChunk),
            Some(content) => match parse_usize(content, 16) {
                Some(size) => Ok(size),
                None => Err(ResponseableError::BrokenChunk),
            },
        }
    }

    /// Takes a line of the trailer block; at its end, hands the declared
    /// trailers to the handler.
    fn trailer_line(buf_size: usize, declared: String, found: FieldMap, raw: String) -> (r: (
        Self,
        Action<R, H>,
    ))
        ensures
            r.0.buf_size == buf_size,
            after_trailer_line(declared, found, raw@, r.0, r.1),
    {
        match classify(raw.as_str()) {
            HeaderLine::End => {
                let kept = allowed_trailers(declared.as_str(), &found);
                (Self::closed(buf_size), Action::End(Some(kept)))
            },
            HeaderLine::Cut => (Self::closed(buf_size), Action::Close),
            HeaderLine::Malformed => (
                Self::closed(buf_size),
                Action::Reject(ResponseableError::BadHeader(raw)),
            ),
            HeaderLine::Field(name, value) => {
                let mut found = found;
                found.insert(name, value);
                (
                    Connection { buf_size, phase: Phase::Trailers { declared, found } },
                    Action::ReadLine,
                )
            },
        }
    }
}

} // verus!
