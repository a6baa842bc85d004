use embeddable_rest_server::fields::FieldMap;
use embeddable_rest_server::wire::{
    chunk_frame, fixed_response, stream_end, stream_head, stream_response, stream_tail,
};
use embeddable_rest_server::{
    BodyType, CancelHandler, CollectedRoute, CollectingHandler, HandlerResult, NoTrailers,
    Chunks, Request, RequestHandler, Response, ResponseableError, Streamable,
};

fn text(bytes: Vec<u8>) -> String {
    String::from_utf8(bytes).unwrap()
}

fn headers(entries: &[(&str, &str)]) -> Option<FieldMap> {
    let mut out = FieldMap::new();
    for (name, value) in entries {
        out.insert(name.to_string(), value.to_string());
    }
    Some(out)
}

fn body_text(response: &Response) -> String {
    match &response.body {
        BodyType::Fixed(bytes) => String::from_utf8(bytes.clone()).unwrap(),
        _ => panic!("no fixed body"),
    }
}

#[test]
fn fixed_response_without_headers() {
    assert_eq!(
        text(fixed_response(200, "OK", &None, b"chunked\r\n")),
        "HTTP/1.1 200 OK\r\nContent-Length: 9\r\n\r\nchunked\r\n"
    );
    assert_eq!(
        text(fixed_response(204, "No Content", &None, b"")),
        "HTTP/1.1 204 No Content\r\nContent-Length: 0\r\n\r\n"
    );
}

#[test]
fn fixed_response_with_headers() {
    assert_eq!(
        text(fixed_response(
            200,
            "OK",
            &headers(&[("Foo", "bar"), ("Cache-Control", "no-cache")]),
            b"0123456789ab"
        )),
        "HTTP/1.1 200 OK\r\nFoo: bar\r\nCache-Control: no-cache\r\nContent-Length: 12\r\n\r\n0123456789ab"
    );
}

#[test]
fn fixed_response_keeps_raw_bytes() {
    let out = fixed_response(200, "OK", &None, &[0, 255, 13, 10]);
    assert_eq!(&out[out.len() - 4..], &[0, 255, 13, 10]);
    assert_eq!(
        &out[..out.len() - 4],
        b"HTTP/1.1 200 OK\r\nContent-Length: 4\r\n\r\n"
    );
}

#[test]
fn chunk_frames_have_hex_lengths() {
    assert_eq!(text(chunk_frame(b"Hello Data")), "a\r\nHello Data\r\n");
    assert_eq!(text(chunk_frame(&[b'x'; 255])), format!("ff\r\n{}\r\n", "x".repeat(255)));
    assert_eq!(text(chunk_frame(b"")), "0\r\n\r\n");
}

#[test]
fn stream_without_trailers() {
    assert_eq!(
        text(stream_response(
            200,
            "OK",
            &None,
            &vec![b"Hello\r\n".to_vec(), b"World\r\n".to_vec()],
            &vec![],
            &vec![]
        )),
        "HTTP/1.1 200 OK\r\nTransfer-Encoding: chunked\r\n\r\n7\r\nHello\r\n\r\n7\r\nWorld\r\n\r\n0\r\n\r\n"
    );
}

#[test]
fn stream_with_headers_and_trailers() {
    assert_eq!(
        text(stream_response(
            200,
            "OK",
            &headers(&[("Foo-Foo", "bar-bar")]),
            &vec![b"Hello\r\n".to_vec(), b"Trailers\r\n".to_vec()],
            &vec!["foo".to_string(), "sum".to_string()],
            &vec![
                ("foo".to_string(), "bar".to_string()),
                ("sum".to_string(), "17".to_string())
            ]
        )),
        "HTTP/1.1 200 OK\r\nTransfer-Encoding: chunked\r\nFoo-Foo: bar-bar\r\nTrailers: foo,sum\r\n\r\n7\r\nHello\r\n\r\na\r\nTrailers\r\n\r\n0\r\nfoo: bar\r\nsum: 17\r\n\r\n"
    );
}

#[test]
fn trailers_are_sent_only_where_announced() {
    assert_eq!(
        text(stream_response(
            200,
            "OK",
            &None,
            &vec![],
            &vec![],
            &vec![("foo".to_string(), "bar".to_string())]
        )),
        "HTTP/1.1 200 OK\r\nTransfer-Encoding: chunked\r\n\r\n0\r\n\r\n"
    );
    assert_eq!(text(stream_tail(false, &vec![("a".to_string(), "b".to_string())])), "0\r\n\r\n");
    assert_eq!(
        text(stream_tail(true, &vec![("a".to_string(), "b".to_string())])),
        "0\r\na: b\r\n\r\n"
    );
    assert_eq!(
        text(stream_end(&vec![], &vec![("a".to_string(), "b".to_string())])),
        "0\r\n\r\n"
    );
    assert_eq!(
        text(stream_end(
            &vec!["a".to_string()],
            &vec![("a".to_string(), "b".to_string())]
        )),
        "0\r\na: b\r\n\r\n"
    );
    assert_eq!(text(stream_end(&vec!["a".to_string()], &vec![])), "0\r\n\r\n");
    assert_eq!(
        text(stream_head(201, "Created", &None, &vec!["a".to_string()])),
        "HTTP/1.1 201 Created\r\nTransfer-Encoding: chunked\r\nTrailers: a\r\n\r\n"
    );
}

fn dechunk(wire: &[u8]) -> (Vec<u8>, Vec<u8>) {
    let mut data = vec![];
    let mut at = 0;
    loop {
        let end = at + wire[at..].iter().position(|b| *b == b'\n').unwrap();
        let line = std::str::from_utf8(&wire[at..end + 1]).unwrap();
        let size = usize::from_str_radix(line.strip_suffix("\r\n").unwrap(), 16).unwrap();
        at = end + 1;
        if size == 0 {
            return (data, wire[at..].to_vec());
        }
        data.extend_from_slice(&wire[at..at + size]);
        assert_eq!(&wire[at + size..at + size + 2], b"\r\n");
        at += size + 2;
    }
}

#[test]
fn stream_round_trip() {
    let c1 = b"first \r\n chunk".to_vec();
    let c2 = vec![0u8, 10, 13, 255, 48];
    let wire = stream_response(200, "OK", &None, &vec![c1.clone(), c2.clone()], &vec![], &vec![]);
    let head = b"HTTP/1.1 200 OK\r\nTransfer-Encoding: chunked\r\n\r\n";
    assert_eq!(&wire[..head.len()], head);
    let (data, rest) = dechunk(&wire[head.len()..]);
    assert_eq!(data, [c1, c2].concat());
    assert_eq!(rest, b"\r\n");
}

#[test]
fn fixed_round_trip() {
    let body = b"some body\r\n\r\nwith lines".to_vec();
    let wire = fixed_response(200, "OK", &headers(&[("X-A", "1: 2")]), &body);
    let mut reader = embeddable_rest_server::mock_stream::MockReadableStream::from_bytes(wire);
    assert_eq!(reader.read_line(), Some("HTTP/1.1 200 OK\r\n".to_string()));
    let parsed = embeddable_rest_server::headers::parse_headers(&mut reader).unwrap();
    assert_eq!(parsed.get("content-length"), Some(&body.len().to_string()));
    assert_eq!(parsed.get("x-a"), Some(&"1: 2".to_string()));
    assert_eq!(reader.read(usize::MAX), body);
}

#[test]
fn error_responses() {
    let cases: Vec<(ResponseableError, u32, &str)> = vec![
        (ResponseableError::NotHttpConform, 400, "Not HTTP conform request\r\n"),
        (
            ResponseableError::UnsupportedVersion("HTTP/2".to_string()),
            505,
            "Version HTTP/2 not supported\r\n",
        ),
        (
            ResponseableError::NotFound("/no_route".to_string()),
            404,
            "Route /no_route does not exists\r\n",
        ),
        (ResponseableError::BadHeader("x".to_string()), 400, "Invalid header data\r\n"),
        (
            ResponseableError::MethodNotImplemented("BLUB".to_string()),
            501,
            "Method BLUB not implemented\r\n",
        ),
        (ResponseableError::InvalidLength, 411, "Length invalid\r\n"),
        (ResponseableError::PayloadToLarge, 413, "Payload to large\r\n"),
        (ResponseableError::BrokenChunk, 400, "Invalid chunk encoding\r\n"),
    ];
    for (error, status, message) in cases {
        let response = error.response().unwrap();
        assert_eq!(response.status, status);
        assert!(response.headers.is_none());
        assert_eq!(body_text(&response), message);
    }
    assert!(ResponseableError::IO.response().is_none());
}

#[test]
fn fixed_string_response() {
    let response = Response::fixed_string(202, headers(&[("a", "b")]), "string\r\n");
    assert_eq!(response.status, 202);
    assert_eq!(response.headers, headers(&[("a", "b")]));
    assert_eq!(body_text(&response), "string\r\n");
}

#[test]
fn cancel_handler_answers_at_once() {
    let mut handler = CancelHandler::new(200, headers(&[("Foo", "bar")]), "fixed-handler\r\n");
    match handler.chunk(b"don't care".to_vec()) {
        HandlerResult::Abort(response) => {
            assert_eq!(response.status, 200);
            assert_eq!(response.headers, headers(&[("Foo", "bar")]));
            assert_eq!(body_text(&response), "fixed-handler\r\n");
        }
        HandlerResult::Continue => panic!("went on"),
    }
    let response = handler.end(None);
    assert_eq!(response.status, 200);
    assert_eq!(body_text(&response), "fixed-handler\r\n");
}

struct Echo;

impl CollectedRoute<u32> for Echo {
    fn respond(&self, req: &Request, context: &u32, data: &[u8]) -> Response {
        let text = format!(
            "{} {} {}",
            context,
            req.params.get("name").unwrap(),
            std::str::from_utf8(data).unwrap()
        );
        Response::fixed_string(200, None, &text)
    }
}

#[test]
fn collecting_handler_keeps_the_body() {
    let mut params = FieldMap::new();
    params.insert("name".to_string(), "Bob".to_string());
    let req = Request { params, query: None, headers: FieldMap::new() };
    let mut handler = CollectingHandler::new(req, 42u32, Echo);
    assert!(matches!(handler.chunk(b"Hello ".to_vec()), HandlerResult::Continue));
    assert!(matches!(handler.chunk(b"Data".to_vec()), HandlerResult::Continue));
    let response = handler.end(None);
    assert_eq!(body_text(&response), "42 Bob Hello Data");
}

struct Two {
    count: usize,
}

impl Chunks for Two {
    fn next_chunk(&mut self) -> Option<Vec<u8>> {
        self.count += 1;
        match self.count {
            1 => Some(b"Hello\r\n".to_vec()),
            2 => Some(b"World\r\n".to_vec()),
            _ => None,
        }
    }
}

#[test]
fn plain_streams_have_no_trailers() {
    let mut body = NoTrailers::new(Box::new(Two { count: 0 }));
    assert!(body.trailer_names().is_empty());
    assert_eq!(body.next_chunk(), Some(b"Hello\r\n".to_vec()));
    assert_eq!(body.next_chunk(), Some(b"World\r\n".to_vec()));
    assert_eq!(body.next_chunk(), None);
    assert!(body.trailers().is_empty());
}
