//! An embeddable HTTP/1.1 server core: a path router, the request parsers,
//! the body framing state machine and the response serializers.
//!
//! The library does no input or output of its own. A caller reads lines and
//! bytes from its connection, hands them to a `connection::Connection`, does
//! what the returned action asks, and writes what `wire` serializes.

pub mod connection;
pub mod fields;
pub mod headers;
pub mod mock_stream;
pub mod parsed_first_line;
pub mod routes;
pub mod text;
pub mod wire;

use crate::fields::FieldMap;
use crate::routes::{
    all_literal, conflict_after, fills_parameter, normal, param_name, segments, unshadowed,
    Conflict, Routes, RoutesError,
};
use crate::text::begins_with;
use crate::text::{parse_number, same_text};
use vstd::prelude::*;
use vstd::utf8::encode_utf8;

verus! {

/// What can be wrong with a request. Every kind but `IO` is answered with a
/// response of its own.
#[derive(Debug, PartialEq, Eq)]
pub enum ResponseableError {
    /// The request line is missing or does not have its three fields.
    NotHttpConform,
    /// The request is for another version than HTTP/1.1; here is the one
    /// it named.
    UnsupportedVersion(String),
    /// No route is registered for this path.
    NotFound(String),
    /// This line of a header block is no header.
    BadHeader(String),
    /// The method with this name is not served.
    MethodNotImplemented(String),
    /// The `content-length` is no number.
    InvalidLength,
    /// The body is longer than the connection takes.
    PayloadToLarge,
    /// The chunks of the body are not framed as they must be.
    BrokenChunk,
    /// Reading has failed.
    IO,
}

impl ResponseableError {
    /// The status that answers this error; none for `IO`, after which the
    /// connection is dropped without an answer.
    pub open spec fn status(&self) -> Option<u32> {
        match self {
            ResponseableError::NotHttpConform => Some(400u32),
            ResponseableError::UnsupportedVersion(_) => Some(505u32),
            ResponseableError::NotFound(_) => Some(404u32),
            ResponseableError::BadHeader(_) => Some(400u32),
            ResponseableError::MethodNotImplemented(_) => Some(501u32),
            ResponseableError::InvalidLength => Some(411u32),
            ResponseableError::PayloadToLarge => Some(413u32),
            ResponseableError::BrokenChunk => Some(400u32),
            ResponseableError::IO => None,
        }
    }

    /// The text that answers this error.
    pub open spec fn message(&self) -> Seq<char> {
        match self {
            ResponseableError::NotHttpConform => "Not HTTP conform request\r\n"@,
            ResponseableError::UnsupportedVersion(version) => "Version "@ + version@
                + " not supported\r\n"@,
            ResponseableError::NotFound(path) => "Route "@ + path@ + " does not exists\r\n"@,
            ResponseableError::BadHeader(_) => "Invalid header data\r\n"@,
            ResponseableError::MethodNotImplemented(method) => "Method "@ + method@
                + " not implemented\r\n"@,
            ResponseableError::InvalidLength => "Length invalid\r\n"@,
            ResponseableError::PayloadToLarge => "Payload to large\r\n"@,
            ResponseableError::BrokenChunk => "Invalid chunk encoding\r\n"@,
            ResponseableError::IO => Seq::empty(),
        }
    }

    /// The response that answers this error: its status and its text, with
    /// no further header. There is none for `IO`.
    pub fn response(&self) -> (r: Option<Response>)
        ensures
            match r {
                Some(response) => {
                    &&& self.status() == Some(response.status)
                    &&& response.headers is None
                    &&& response.body matches BodyType::Fixed(body) && body@ == encode_utf8(
                        self.message(),
                    )
                },
                None => self is IO,
            },
    {
        match self {
            ResponseableError::NotHttpConform => Some(
                Response::fixed_string(400, None, "Not HTTP conform request\r\n"),
            ),
            ResponseableError::UnsupportedVersion(version) => {
                let mut text = String::from_str("Version ");
                text.append(version.as_str());
                text.append(" not supported\r\n");
                Some(Response::fixed_string(505, None, text.as_str()))
            },
            ResponseableError::NotFound(path) => {
                let mut text = String::from_str("Route ");
                text.append(path.as_str());
                text.append(" does not exists\r\n");
                Some(Response::fixed_string(404, None, text.as_str()))
            },
            ResponseableError::BadHeader(_) => Some(
                Response::fixed_string(400, None, "Invalid header data\r\n"),
            ),
            ResponseableError::MethodNotImplemented(method) => {
                let mut text = String::from_str("Method ");
                text.append(method.as_str());
                text.append(" not implemented\r\n");
                Some(Response::fixed_string(501, None, text.as_str()))
            },
            ResponseableError::InvalidLength => Some(
                Response::fixed_string(411, None, "Length invalid\r\n"),
            ),
            ResponseableError::PayloadToLarge => Some(
                Response::fixed_string(413, None, "Payload to large\r\n"),
            ),
            ResponseableError::BrokenChunk => Some(
                Response::fixed_string(400, None, "Invalid chunk encoding\r\n"),
            ),
            ResponseableError::IO => None,
        }
    }
}

/// What can go wrong with a server as a whole.
#[derive(Debug)]
pub enum HttpError {
    /// A route could not be registered: its path has a route already.
    RouteExists,
    /// A route could not be registered: where the routes have the
    /// parameter with the first name, its path has the second text.
    ParamMismatch(String, String),
    /// Reading or writing has failed.
    IO,
    /// A request was wrong.
    Responseable(ResponseableError),
    /// Anything else.
    Std,
}

impl From<ResponseableError> for HttpError {
    fn from(err: ResponseableError) -> (r: HttpError) {
        HttpError::Responseable(err)
    }
}

impl vstd::std_specs::convert::FromSpecImpl<ResponseableError> for HttpError {
    open spec fn obeys_from_spec() -> bool {
        true
    }

    open spec fn from_spec(err: ResponseableError) -> HttpError {
        HttpError::Responseable(err)
    }
}

impl From<RoutesError> for HttpError {
    /// A refused registration keeps its reason, and a mismatch both of its
    /// names.
    fn from(err: RoutesError) -> (r: HttpError) {
        match err {
            RoutesError::RouteExists => HttpError::RouteExists,
            RoutesError::ParamMismatch(old_name, new_name) => HttpError::ParamMismatch(
                old_name,
                new_name,
            ),
        }
    }
}

impl vstd::std_specs::convert::FromSpecImpl<RoutesError> for HttpError {
    open spec fn obeys_from_spec() -> bool {
        true
    }

    open spec fn from_spec(err: RoutesError) -> HttpError {
        match err {
            RoutesError::RouteExists => HttpError::RouteExists,
            RoutesError::ParamMismatch(old_name, new_name) => HttpError::ParamMismatch(
                old_name,
                new_name,
            ),
        }
    }
}

/// A body that comes chunk by chunk. `next_chunk` gives the next chunk
/// until there is none left.
pub trait Chunks {
    /// Whether `chunk` is what `next_chunk` may give in this state. Each
    /// body says so for itself; one that does not say it may give
    /// anything.
    open spec fn gives(&self, chunk: Option<Vec<u8>>) -> bool {
        true
    }

    /// The next chunk, or `None` when the body is complete.
    fn next_chunk(&mut self) -> (chunk: Option<Vec<u8>>)
        ensures
            old(self).gives(chunk),
    ;
}

/// A chunked body that ends with trailers. The names are asked for before
/// the first chunk, the values after the last.
pub trait Streamable {
    /// The next chunk, or `None` when the body is complete.
    fn next_chunk(&mut self) -> Option<Vec<u8>>;

    /// The names of the trailers that will follow the body.
    fn trailer_names(&self) -> Vec<String>;

    /// The trailers, asked for once the body is complete.
    fn trailers(&self) -> Vec<(String, String)>;
}

/// A chunked body without trailers, as a `Streamable`.
pub struct NoTrailers {
    /// The body whose chunks are handed on.
    pub base: Box<dyn Chunks>,
}

impl NoTrailers {
    /// Wraps a body that has no trailers.
    pub fn new(base: Box<dyn Chunks>) -> (r: Self)
        ensures
            r == (NoTrailers { base }),
    {
        Self { base }
    }
}

impl Streamable for NoTrailers {
    /// Hands on the next chunk of the wrapped body.
    fn next_chunk(&mut self) -> (r: Option<Vec<u8>>)
        ensures
            old(self).base.gives(r),
    {
        self.base.next_chunk()
    }

    fn trailer_names(&self) -> (r: Vec<String>)
        ensures
            r@.len() == 0,
    {
        Vec::new()
    }

    fn trailers(&self) -> (r: Vec<(String, String)>)
        ensures
            r@.len() == 0,
    {
        Vec::new()
    }
}

/// The body of a response.
pub enum BodyType {
    Fixed(Vec<u8>),
    Stream(Box<dyn Chunks>),
    StreamWithTrailers(Box<dyn Streamable>),
}

/// What a handler answers.
pub struct Response {
    pub status: u32,
    pub body: BodyType,
    pub headers: Option<FieldMap>,
}

impl Response {
    /// A response whose body is the given text.
    pub fn fixed_string(status: u32, headers: Option<FieldMap>, body: &str) -> (r: Self)
        ensures
            r.status == status,
            r.headers == headers,
            r.body matches BodyType::Fixed(bytes) && bytes@ == encode_utf8(body@),
    {
        Response { status, body: BodyType::Fixed(body.as_bytes_vec()), headers }
    }
}

/// What a handler is told of the request.
pub struct Request {
    pub params: FieldMap,
    pub query: Option<String>,
    pub headers: FieldMap,
}

/// What a handler says to a part of the body.
pub enum HandlerResult {
    Abort(Response),
    Continue,
}

/// The handler of a request with a body: it is given the body part by
/// part, and then asked for the response.
pub trait RequestHandler {
    /// Takes the next part of the body, and says whether to go on.
    fn chunk(&mut self, chunk: Vec<u8>) -> HandlerResult;

    /// Gives the response, once the body is complete. The trailers are
    /// those that the request declared and sent, if it declared any.
    fn end(&mut self, trailers: Option<FieldMap>) -> Response;
}

/// A handler that does not look at the body: it stops at the first part,
/// and answers with the response it was made with either way.
pub struct CancelHandler {
    status: u32,
    body: String,
    headers: Option<FieldMap>,
}

impl CancelHandler {
    /// The status it answers with.
    pub closed spec fn status(&self) -> u32 {
        self.status
    }

    /// The text it answers with.
    pub closed spec fn body(&self) -> Seq<char> {
        self.body@
    }

    /// The headers it answers with, in their order.
    pub closed spec fn headers(&self) -> Option<Seq<(Seq<char>, Seq<char>)>> {
        match self.headers {
            Some(map) => Some(map.pairs()),
            None => None,
        }
    }

    /// Whether `response` is the one this handler was made with.
    pub open spec fn answers(&self, response: Response) -> bool {
        &&& response.status == self.status()
        &&& response.body matches BodyType::Fixed(bytes) && bytes@ == encode_utf8(self.body())
        &&& match response.headers {
            Some(map) => self.headers() == Some(map.pairs()),
            None => self.headers() is None,
        }
    }

    /// A handler that answers with this status, these headers and this
    /// text.
    pub fn new(status: u32, headers: Option<FieldMap>, body: &str) -> (r: Box<Self>)
        ensures
            r.status() == status,
            r.body() == body@,
            r.headers() == match headers {
                Some(map) => Some(map.pairs()),
                None => None,
            },
    {
        Box::new(Self { status, body: body.to_owned(), headers })
    }

    fn answer(&self) -> (r: Response)
        ensures
            self.answers(r),
    {
        let headers = match &self.headers {
            Some(map) => Some(map.clone()),
            None => None,
        };
        Response::fixed_string(self.status, headers, self.body.as_str())
    }
}

impl RequestHandler for CancelHandler {
    fn chunk(&mut self, chunk: Vec<u8>) -> (r: HandlerResult)
        ensures
            r matches HandlerResult::Abort(response) && old(self).answers(response),
            *final(self) == *old(self),
    {
        HandlerResult::Abort(self.answer())
    }

    fn end(&mut self, trailers: Option<FieldMap>) -> (r: Response)
        ensures
            old(self).answers(r),
            *final(self) == *old(self),
    {
        self.answer()
    }
}

/// What a `CollectingHandler` calls once the body is complete.
pub trait CollectedRoute<T> {
    /// Whether `response` is what `respond` may give for this request,
    /// this context and this body. Each route says so for itself; one that
    /// does not say it may give anything.
    open spec fn answers(
        &self,
        req: &Request,
        context: &T,
        data: Seq<u8>,
        response: Response,
    ) -> bool {
        true
    }

    /// Gives the response to the request with this body.
    fn respond(&self, req: &Request, context: &T, data: &[u8]) -> (response: Response)
        ensures
            self.answers(req, context, data@, response),
    ;
}

/// A handler that keeps the whole body and hands it to its route at the
/// end.
pub struct CollectingHandler<T, F: CollectedRoute<T>> {
    route: F,
    req: Request,
    data: Vec<u8>,
    context: T,
}

impl<T, F: CollectedRoute<T>> CollectingHandler<T, F> {
    /// The body kept so far.
    pub closed spec fn collected(&self) -> Seq<u8> {
        self.data@
    }

    /// The request, the context and the route that the handler was made
    /// with.
    pub closed spec fn made_with(&self) -> (Request, T, F) {
        (self.req, self.context, self.route)
    }

    /// A handler for this request that has not seen any of the body yet.
    pub fn new(req: Request, context: T, route: F) -> (r: Box<Self>)
        ensures
            r.collected() == Seq::<u8>::empty(),
            r.made_with() == (req, context, route),
    {
        Box::new(Self { route, req, data: Vec::new(), context })
    }
}

impl<T, F: CollectedRoute<T>> RequestHandler for CollectingHandler<T, F> {
    fn chunk(&mut self, chunk: Vec<u8>) -> (r: HandlerResult)
        ensures
            r is Continue,
            final(self).collected() == old(self).collected() + chunk@,
            final(self).made_with() == old(self).made_with(),
    {
        let mut chunk = chunk;
        self.data.append(&mut chunk);
        HandlerResult::Continue
    }

    /// Asks the route for the response to the request that the handler was
    /// made with, with all of the body that was kept. The trailers are not
    /// looked at, and the handler stays as it is.
    fn end(&mut self, trailers: Option<FieldMap>) -> (r: Response)
        ensures
            old(self).made_with().2.answers(
                &old(self).made_with().0,
                &old(self).made_with().1,
                old(self).collected(),
                r,
            ),
            *final(self) == *old(self),
    {
        self.route.respond(&self.req, &self.context, self.data.as_slice())
    }
}

/// A route for one verb: an item for a request without a body, or an item
/// for a request whose body a handler takes.
#[derive(Debug, PartialEq, Eq, Clone, Copy)]
pub enum Route<R, H> {
    GET(R),
    POST(H),
    PUT(H),
    DELETE(R),
    PATCH(H),
}

/// What a lookup gives: the item of a route for a request without a body,
/// or of one with.
#[derive(Debug, PartialEq, Eq, Clone, Copy)]
pub enum RouteWithoutVerb<R, H> {
    NoDate(R),
    WithData(H),
}

/// The request methods that the server knows.
#[derive(Debug, PartialEq, Eq, Clone, Copy)]
pub enum HttpVerbs {
    GET,
    POST,
    PUT,
    DELETE,
    PATCH,
}

/// The verb that a method name stands for.
pub open spec fn verb_of(method: Seq<char>) -> Option<HttpVerbs> {
    if method == "GET"@ {
        Some(HttpVerbs::GET)
    } else if method == "POST"@ {
        Some(HttpVerbs::POST)
    } else if method == "PUT"@ {
        Some(HttpVerbs::PUT)
    } else if method == "DELETE"@ {
        Some(HttpVerbs::DELETE)
    } else if method == "PATCH"@ {
        Some(HttpVerbs::PATCH)
    } else {
        None
    }
}

impl HttpVerbs {
    /// The verb that a method name stands for; any other name is refused
    /// as a method that is not implemented.
    pub fn map_method(method: &str) -> (r: Result<Self, ResponseableError>)
        ensures
            match r {
                Ok(verb) => verb_of(method@) == Some(verb),
                Err(ResponseableError::MethodNotImplemented(name)) => verb_of(method@) is None
                    && name@ == method@,
                Err(_) => false,
            },
    {
        if same_text(method, "GET") {
            Ok(HttpVerbs::GET)
        } else if same_text(method, "POST") {
            Ok(HttpVerbs::POST)
        } else if same_text(method, "PUT") {
            Ok(HttpVerbs::PUT)
        } else if same_text(method, "DELETE") {
            Ok(HttpVerbs::DELETE)
        } else if same_text(method, "PATCH") {
            Ok(HttpVerbs::PATCH)
        } else {
            Err(ResponseableError::MethodNotImplemented(method.to_owned()))
        }
    }
}

/// The routes of a server: one trie for each verb.
pub struct HttpRoutes<R, H> {
    pub get: Routes<R>,
    pub post: Routes<H>,
    pub put: Routes<H>,
    pub patch: Routes<H>,
    pub delete: Routes<R>,
}

impl<R, H> Route<R, H> {
    /// The verb that the route is for.
    pub open spec fn verb(&self) -> HttpVerbs {
        match self {
            Route::GET(_) => HttpVerbs::GET,
            Route::POST(_) => HttpVerbs::POST,
            Route::PUT(_) => HttpVerbs::PUT,
            Route::DELETE(_) => HttpVerbs::DELETE,
            Route::PATCH(_) => HttpVerbs::PATCH,
        }
    }

    /// The item of the route, as a lookup gives it.
    pub open spec fn item(&self) -> RouteWithoutVerb<R, H> {
        match self {
            Route::GET(item) => RouteWithoutVerb::NoDate(*item),
            Route::POST(item) => RouteWithoutVerb::WithData(*item),
            Route::PUT(item) => RouteWithoutVerb::WithData(*item),
            Route::DELETE(item) => RouteWithoutVerb::NoDate(*item),
            Route::PATCH(item) => RouteWithoutVerb::WithData(*item),
        }
    }
}

impl<R, H> HttpRoutes<R, H> {
    /// Every trie is well-formed.
    pub open spec fn wf(&self) -> bool {
        &&& self.get.wf()
        &&& self.post.wf()
        &&& self.put.wf()
        &&& self.patch.wf()
        &&& self.delete.wf()
    }

    /// The item registered under `verb` for the pattern `p`.
    pub open spec fn registered(&self, verb: HttpVerbs, p: Seq<Seq<char>>) -> Option<
        RouteWithoutVerb<R, H>,
    > {
        match verb {
            HttpVerbs::GET => match self.get.root.registered(p) {
                Some(item) => Some(RouteWithoutVerb::NoDate(item)),
                None => None,
            },
            HttpVerbs::POST => match self.post.root.registered(p) {
                Some(item) => Some(RouteWithoutVerb::WithData(item)),
                None => None,
            },
            HttpVerbs::PUT => match self.put.root.registered(p) {
                Some(item) => Some(RouteWithoutVerb::WithData(item)),
                None => None,
            },
            HttpVerbs::PATCH => match self.patch.root.registered(p) {
                Some(item) => Some(RouteWithoutVerb::WithData(item)),
                None => None,
            },
            HttpVerbs::DELETE => match self.delete.root.registered(p) {
                Some(item) => Some(RouteWithoutVerb::NoDate(item)),
                None => None,
            },
        }
    }

    /// `after` is this table with the trie of the route's verb grown by
    /// the pattern `p`, and the other tries as they were.
    pub open spec fn grown(&self, func: Route<R, H>, p: Seq<Seq<char>>, after: Self) -> bool {
        match func {
            Route::GET(item) => {
                &&& self.get.root.grown(p, item, after.get.root)
                &&& after.post == self.post
                &&& after.put == self.put
                &&& after.patch == self.patch
                &&& after.delete == self.delete
            },
            Route::POST(item) => {
                &&& self.post.root.grown(p, item, after.post.root)
                &&& after.get == self.get
                &&& after.put == self.put
                &&& after.patch == self.patch
                &&& after.delete == self.delete
            },
            Route::PUT(item) => {
                &&& self.put.root.grown(p, item, after.put.root)
                &&& after.get == self.get
                &&& after.post == self.post
                &&& after.patch == self.patch
                &&& after.delete == self.delete
            },
            Route::PATCH(item) => {
                &&& self.patch.root.grown(p, item, after.patch.root)
                &&& after.get == self.get
                &&& after.post == self.post
                &&& after.put == self.put
                &&& after.delete == self.delete
            },
            Route::DELETE(item) => {
                &&& self.delete.root.grown(p, item, after.delete.root)
                &&& after.get == self.get
                &&& after.post == self.post
                &&& after.put == self.put
                &&& after.patch == self.patch
            },
        }
    }

    /// Why the pattern `p` cannot be registered under `verb`, if it cannot.
    pub open spec fn conflict(&self, verb: HttpVerbs, p: Seq<Seq<char>>) -> Option<Conflict> {
        match verb {
            HttpVerbs::GET => self.get.conflict(p),
            HttpVerbs::POST => self.post.conflict(p),
            HttpVerbs::PUT => self.put.conflict(p),
            HttpVerbs::PATCH => self.patch.conflict(p),
            HttpVerbs::DELETE => self.delete.conflict(p),
        }
    }

    /// At the position `k` of the pattern `p`, no literal route of `verb`
    /// takes the path `s` away from the parameter.
    pub open spec fn unshadowed(&self, verb: HttpVerbs, p: Seq<Seq<char>>, k: int, s: Seq<Seq<char>>) -> bool {
        match verb {
            HttpVerbs::GET => unshadowed(self.get.root, p, k, s),
            HttpVerbs::POST => unshadowed(self.post.root, p, k, s),
            HttpVerbs::PUT => unshadowed(self.put.root, p, k, s),
            HttpVerbs::PATCH => unshadowed(self.patch.root, p, k, s),
            HttpVerbs::DELETE => unshadowed(self.delete.root, p, k, s),
        }
    }

    /// What a lookup of the segments `s` gives under `verb`.
    pub open spec fn resolve(&self, verb: HttpVerbs, s: Seq<Seq<char>>) -> Option<
        (RouteWithoutVerb<R, H>, Map<Seq<char>, Seq<char>>),
    > {
        match verb {
            HttpVerbs::GET => match self.get.resolve(s) {
                Some((item, params)) => Some((RouteWithoutVerb::NoDate(item), params)),
                None => None,
            },
            HttpVerbs::POST => match self.post.resolve(s) {
                Some((item, params)) => Some((RouteWithoutVerb::WithData(item), params)),
                None => None,
            },
            HttpVerbs::PUT => match self.put.resolve(s) {
                Some((item, params)) => Some((RouteWithoutVerb::WithData(item), params)),
                None => None,
            },
            HttpVerbs::PATCH => match self.patch.resolve(s) {
                Some((item, params)) => Some((RouteWithoutVerb::WithData(item), params)),
                None => None,
            },
            HttpVerbs::DELETE => match self.delete.resolve(s) {
                Some((item, params)) => Some((RouteWithoutVerb::NoDate(item), params)),
                None => None,
            },
        }
    }

    /// Every path that is registered under a verb and has no parameter is
    /// found under that verb by the same path, with its own item and with
    /// no parameter bound.
    pub proof fn law_literal_route_found(&self, verb: HttpVerbs, p: Seq<Seq<char>>)
        requires
            self.wf(),
            self.registered(verb, p) is Some,
            all_literal(p),
        ensures
            self.resolve(verb, p) == Some(
                (self.registered(verb, p)->0, Map::<Seq<char>, Seq<char>>::empty()),
            ),
    {
        match verb {
            HttpVerbs::GET => self.get.law_literal_route_found(p),
            HttpVerbs::POST => self.post.law_literal_route_found(p),
            HttpVerbs::PUT => self.put.law_literal_route_found(p),
            HttpVerbs::PATCH => self.patch.law_literal_route_found(p),
            HttpVerbs::DELETE => self.delete.law_literal_route_found(p),
        }
    }

    /// A path that is registered under a verb and has one parameter segment
    /// is found under that verb by every path that has a segment of its own
    /// in the parameter's place and is the same elsewhere: the lookup gives
    /// the path's item, and binds the parameter's name to that segment.
    /// Left out are the paths that a literal route takes first.
    pub proof fn law_parameter_bound(
        &self,
        verb: HttpVerbs,
        p: Seq<Seq<char>>,
        k: int,
        s: Seq<Seq<char>>,
    )
        requires
            self.wf(),
            self.registered(verb, p) is Some,
            fills_parameter(p, k, s),
            self.unshadowed(verb, p, k, s),
        ensures
            self.resolve(verb, s) == Some(
                (
                    self.registered(verb, p)->0,
                    Map::<Seq<char>, Seq<char>>::empty().insert(param_name(p[k]), s[k]),
                ),
            ),
    {
        match verb {
            HttpVerbs::GET => self.get.law_parameter_bound(p, k, s),
            HttpVerbs::POST => self.post.law_parameter_bound(p, k, s),
            HttpVerbs::PUT => self.put.law_parameter_bound(p, k, s),
            HttpVerbs::PATCH => self.patch.law_parameter_bound(p, k, s),
            HttpVerbs::DELETE => self.delete.law_parameter_bound(p, k, s),
        }
    }

    /// The same path cannot be registered twice under one verb: the second
    /// registration is refused as a duplicate.
    pub proof fn law_duplicate_refused(&self, verb: HttpVerbs, p: Seq<Seq<char>>)
        requires
            self.registered(verb, p) is Some,
        ensures
            self.conflict(verb, p) == Some(Conflict::Exists),
    {
        match verb {
            HttpVerbs::GET => self.get.law_duplicate_refused(p),
            HttpVerbs::POST => self.post.law_duplicate_refused(p),
            HttpVerbs::PUT => self.put.law_duplicate_refused(p),
            HttpVerbs::PATCH => self.patch.law_duplicate_refused(p),
            HttpVerbs::DELETE => self.delete.law_duplicate_refused(p),
        }
    }

    /// Where a path registered under a verb has a parameter, a path for
    /// the same verb that comes the same way and brings a parameter of
    /// another name is refused, and the refusal names both parameters.
    pub proof fn law_parameter_mismatch(
        &self,
        verb: HttpVerbs,
        q: Seq<Seq<char>>,
        k: int,
        p: Seq<Seq<char>>,
    )
        requires
            self.wf(),
            self.registered(verb, q) is Some,
            0 <= k < q.len(),
            k < p.len(),
            p.take(k) == q.take(k),
            begins_with(q[k], ':'),
            begins_with(p[k], ':'),
            p[k] != q[k],
        ensures
            self.conflict(verb, p) == Some(Conflict::Mismatch(q[k], p[k])),
    {
        match verb {
            HttpVerbs::GET => self.get.law_parameter_mismatch(q, k, p),
            HttpVerbs::POST => self.post.law_parameter_mismatch(q, k, p),
            HttpVerbs::PUT => self.put.law_parameter_mismatch(q, k, p),
            HttpVerbs::PATCH => self.patch.law_parameter_mismatch(q, k, p),
            HttpVerbs::DELETE => self.delete.law_parameter_mismatch(q, k, p),
        }
    }
}

impl<R: Copy, H: Copy> HttpRoutes<R, H> {
    /// No route for any verb.
    pub fn new() -> (r: Self)
        ensures
            r.wf(),
            r.get.bare() && r.post.bare() && r.put.bare() && r.patch.bare() && r.delete.bare(),
            r.get@ == Map::<Seq<Seq<char>>, R>::empty(),
            r.post@ == Map::<Seq<Seq<char>>, H>::empty(),
            r.put@ == Map::<Seq<Seq<char>>, H>::empty(),
            r.patch@ == Map::<Seq<Seq<char>>, H>::empty(),
            r.delete@ == Map::<Seq<Seq<char>>, R>::empty(),
            forall|verb: HttpVerbs, p: Seq<Seq<char>>| #[trigger] r.conflict(verb, p) is None,
    {
        Self {
            get: Routes::new(),
            post: Routes::new(),
            put: Routes::new(),
            patch: Routes::new(),
            delete: Routes::new(),
        }
    }

    /// Registers a route in the trie of its verb; the other tries stay as
    /// they are. A path that is registered for the verb already is refused,
    /// and so is one that has another segment where the trie has a
    /// parameter.
    pub fn add(self, route: &str, func: Route<R, H>) -> (r: Result<Self, RoutesError>)
        ensures
            self.wf() ==> match r {
                Ok(after) => {
                    &&& self.conflict(func.verb(), segments(normal(route@))) is None
                    &&& after.wf()
                    &&& self.grown(func, segments(normal(route@)), after)
                    &&& forall|verb: HttpVerbs, q: Seq<Seq<char>>| #[trigger]
                        after.registered(verb, q) == if verb == func.verb() && q == segments(
                            normal(route@),
                        ) {
                            Some(func.item())
                        } else {
                            self.registered(verb, q)
                        }
                    &&& forall|verb: HttpVerbs, q: Seq<Seq<char>>| #[trigger]
                        after.conflict(verb, q) == if verb == func.verb() {
                            conflict_after(self.conflict(verb, q), segments(normal(route@)), q)
                        } else {
                            self.conflict(verb, q)
                        }
                },
                Err(e) => self.conflict(func.verb(), segments(normal(route@))) == Some(e@),
            },
            self.wf() && self.registered(func.verb(), segments(normal(route@))) is Some ==> r
                matches Err(RoutesError::RouteExists),
    {
        let ghost p = segments(normal(route@));
        proof {
            if self.registered(func.verb(), p) is Some {
                self.law_duplicate_refused(func.verb(), p);
            }
        }
        let HttpRoutes { get, post, put, patch, delete } = self;
        match func {
            Route::GET(item) => match get.add(route, item) {
                Ok(more) => {
                    proof {
                        if self.wf() {
                            crate::routes::lemma_one_more(self.get, more, p, item);
                        }
                    }
                    let get = more;
                    Ok(HttpRoutes { get, post, put, patch, delete })
                },
                Err(e) => Err(e),
            },
            Route::POST(item) => match post.add(route, item) {
                Ok(more) => {
                    proof {
                        if self.wf() {
                            crate::routes::lemma_one_more(self.post, more, p, item);
                        }
                    }
                    let post = more;
                    Ok(HttpRoutes { get, post, put, patch, delete })
                },
                Err(e) => Err(e),
            },
            Route::PUT(item) => match put.add(route, item) {
                Ok(more) => {
                    proof {
                        if self.wf() {
                            crate::routes::lemma_one_more(self.put, more, p, item);
                        }
                    }
                    let put = more;
                    Ok(HttpRoutes { get, post, put, patch, delete })
                },
                Err(e) => Err(e),
            },
            Route::PATCH(item) => match patch.add(route, item) {
                Ok(more) => {
                    proof {
                        if self.wf() {
                            crate::routes::lemma_one_more(self.patch, more, p, item);
                        }
                    }
                    let patch = more;
                    Ok(HttpRoutes { get, post, put, patch, delete })
                },
                Err(e) => Err(e),
            },
            Route::DELETE(item) => match delete.add(route, item) {
                Ok(more) => {
                    proof {
                        if self.wf() {
                            crate::routes::lemma_one_more(self.delete, more, p, item);
                        }
                    }
                    let delete = more;
                    Ok(HttpRoutes { get, post, put, patch, delete })
                },
                Err(e) => Err(e),
            },
        }
    }

    /// The item registered for `route` under `verb`, with the parameters
    /// bound on the way.
    pub fn find(&self, verb: &HttpVerbs, route: &str) -> (r: Option<
        (RouteWithoutVerb<R, H>, FieldMap),
    >)
        ensures
            match r {
                Some((item, params)) => self.resolve(*verb, segments(normal(route@))) == Some(
                    (item, params@),
                ) && params.distinct(),
                None => self.resolve(*verb, segments(normal(route@))) is None,
            },
    {
        match verb {
            HttpVerbs::GET => match self.get.find(route) {
                Some((item, params)) => Some((RouteWithoutVerb::NoDate(item), params)),
                None => None,
            },
            HttpVerbs::POST => match self.post.find(route) {
                Some((item, params)) => Some((RouteWithoutVerb::WithData(item), params)),
                None => None,
            },
            HttpVerbs::PUT => match self.put.find(route) {
                Some((item, params)) => Some((RouteWithoutVerb::WithData(item), params)),
                None => None,
            },
            HttpVerbs::PATCH => match self.patch.find(route) {
                Some((item, params)) => Some((RouteWithoutVerb::WithData(item), params)),
                None => None,
            },
            HttpVerbs::DELETE => match self.delete.find(route) {
                Some((item, params)) => Some((RouteWithoutVerb::NoDate(item), params)),
                None => None,
            },
        }
    }
}

/// How the length of a request's body is told.
#[derive(Debug, PartialEq, Eq, Clone, Copy)]
pub enum ContentLength {
    Fixed(usize),
    Chunked,
    Missing,
}

/// What the headers say of the body's length: `content-length` decides
/// where it is there, and must then be a number that fits; else
/// `transfer-encoding: chunked` does.
pub open spec fn framing(headers: Map<Seq<char>, Seq<char>>) -> Option<ContentLength> {
    if headers.contains_key("content-length"@) {
        match parse_number(headers["content-length"@], 10) {
            Some(n) => if n <= usize::MAX {
                Some(ContentLength::Fixed(n as usize))
            } else {
                None
            },
            None => None,
        }
    } else if headers.contains_key("transfer-encoding"@) && headers["transfer-encoding"@]
        == "chunked"@ {
        Some(ContentLength::Chunked)
    } else {
        Some(ContentLength::Missing)
    }
}

/// What the headers say of the body's length. A `content-length` that is no
/// number, or none that fits, is refused.
pub fn extract_length(headers: &FieldMap) -> (r: Result<ContentLength, ResponseableError>)
    ensures
        match r {
            Ok(length) => framing(headers@) == Some(length),
            Err(ResponseableError::InvalidLength) => framing(headers@) is None,
            Err(_) => false,
        },
{
    match headers.get("content-length") {
        Some(value) => match crate::text::parse_usize(value.as_str(), 10) {
            Some(n) => Ok(ContentLength::Fixed(n)),
            None => Err(ResponseableError::InvalidLength),
        },
        None => match headers.get("transfer-encoding") {
            Some(value) => if same_text(value.as_str(), "chunked") {
                Ok(ContentLength::Chunked)
            } else {
                Ok(ContentLength::Missing)
            },
            None => Ok(ContentLength::Missing),
        },
    }
}

/// The smaller of two sizes.
pub fn min(a: usize, b: usize) -> (r: usize)
    ensures
        r == if a < b {
            a
        } else {
            b
        },
{
    if a < b {
        a
    } else {
        b
    }
}

} // verus!
