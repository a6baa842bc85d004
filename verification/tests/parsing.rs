use embeddable_rest_server::fields::FieldMap;
use embeddable_rest_server::headers::{classify, parse_headers, split_header, HeaderLine};
use embeddable_rest_server::mock_stream::MockReadableStream;
use embeddable_rest_server::parsed_first_line::ParsedFirstLine;
use embeddable_rest_server::text::{lower_each, number_text, parse_usize};
use embeddable_rest_server::{
    extract_length, ContentLength, HttpError, HttpVerbs, ResponseableError,
};

fn map(entries: &[(&str, &str)]) -> FieldMap {
    let mut out = FieldMap::new();
    for (name, value) in entries {
        out.insert(name.to_string(), value.to_string());
    }
    out
}

#[test]
fn lowercases_headers() {
    let mut reader = MockReadableStream::new(vec!["Host: localhost", "Content-Length: 42", ""]);

    assert_eq!(
        parse_headers(&mut reader),
        Ok(map(&[("host", "localhost"), ("content-length", "42")]))
    );
    assert!(reader.available() == 0);
}

#[test]
fn missing_space() {
    let mut reader = MockReadableStream::new(vec!["Host:localhost", ""]);

    assert_eq!(
        parse_headers(&mut reader),
        Err(ResponseableError::BadHeader(
            "Host:localhost\r\n".to_string()
        ))
    )
}

#[test]
fn merges_with_newline() {
    let mut reader = MockReadableStream::new(vec!["123", "456", ""]);

    let buf = reader.read_to_string().unwrap();
    let count = buf.len();

    assert_eq!(count, 10);
    assert_eq!(buf, "123\r\n456\r\n");
}

#[test]
fn handles_small_chunks() {
    let mut reader = MockReadableStream::new(vec!["1234567890", "1234567890", ""]);

    let mut bytes = vec![];
    loop {
        let part = reader.read(5);
        if part.is_empty() {
            break;
        }
        assert!(part.len() <= 5);
        bytes.extend(part);
    }
    let count = bytes.len();
    let buf = String::from_utf8(bytes).unwrap();

    assert_eq!(count, 24);
    assert_eq!(buf, "1234567890\r\n1234567890\r\n");
}

#[test]
fn missing_version() {
    assert_eq!(
        ParsedFirstLine::parse("GET /path".to_string()),
        Err(ResponseableError::NotHttpConform)
    );
}

#[test]
fn invalid_verb() {
    assert_eq!(
        ParsedFirstLine::parse("BLUB /path HTTP/1.1".to_string()),
        Err(ResponseableError::MethodNotImplemented("BLUB".to_string()))
    );
}

#[test]
fn no_query() {
    assert_eq!(
        ParsedFirstLine::parse("GET /path HTTP/1.1".to_string()),
        Ok(ParsedFirstLine {
            method: HttpVerbs::GET,
            path: "/path".to_string(),
            query: None,
            version: "HTTP/1.1".to_string()
        })
    );
}

#[test]
fn with_query() {
    assert_eq!(
        ParsedFirstLine::parse("GET /path?blub&foo=bar HTTP/1.1".to_string()),
        Ok(ParsedFirstLine {
            method: HttpVerbs::GET,
            path: "/path".to_string(),
            query: Some("blub&foo=bar".to_string()),
            version: "HTTP/1.1".to_string()
        })
    );
}

#[test]
fn too_many_fields() {
    assert_eq!(
        ParsedFirstLine::parse("GET /path HTTP/1.1 extra".to_string()),
        Err(ResponseableError::NotHttpConform)
    );
    assert_eq!(
        ParsedFirstLine::parse("".to_string()),
        Err(ResponseableError::NotHttpConform)
    );
}

#[test]
fn every_verb_is_mapped() {
    assert_eq!(HttpVerbs::map_method("GET"), Ok(HttpVerbs::GET));
    assert_eq!(HttpVerbs::map_method("POST"), Ok(HttpVerbs::POST));
    assert_eq!(HttpVerbs::map_method("PUT"), Ok(HttpVerbs::PUT));
    assert_eq!(HttpVerbs::map_method("DELETE"), Ok(HttpVerbs::DELETE));
    assert_eq!(HttpVerbs::map_method("PATCH"), Ok(HttpVerbs::PATCH));
    assert_eq!(
        HttpVerbs::map_method("get"),
        Err(ResponseableError::MethodNotImplemented("get".to_string()))
    );
}

#[test]
fn query_is_cut_at_the_first_question_mark() {
    let parsed = ParsedFirstLine::parse("PUT /a?b?c HTTP/1.1".to_string()).unwrap();
    assert_eq!(parsed.method, HttpVerbs::PUT);
    assert_eq!(parsed.path, "/a");
    assert_eq!(parsed.query, Some("b?c".to_string()));
}

#[test]
fn later_header_overwrites() {
    let mut reader = MockReadableStream::new(vec!["A: 1", "a: 2", "B: x: y", "", "rest"]);
    assert_eq!(
        parse_headers(&mut reader),
        Ok(map(&[("a", "2"), ("b", "x: y")]))
    );
    assert_eq!(reader.read_to_string().unwrap(), "rest");
}

#[test]
fn headers_end_with_the_stream() {
    let mut reader = MockReadableStream::from_bytes(b"A: 1\r\n".to_vec());
    assert_eq!(parse_headers(&mut reader), Ok(map(&[("a", "1")])));
}

#[test]
fn cut_header_line_is_an_io_failure() {
    let mut reader = MockReadableStream::from_bytes(b"A: 1\r\nB: 2".to_vec());
    assert_eq!(parse_headers(&mut reader), Err(ResponseableError::IO));
    let mut reader = MockReadableStream::from_bytes(vec![b'A', 0xff, b'\r', b'\n']);
    assert_eq!(parse_headers(&mut reader), Err(ResponseableError::IO));
}

#[test]
fn header_lines_are_classified() {
    assert_eq!(classify(""), HeaderLine::End);
    assert_eq!(classify("\r\n"), HeaderLine::End);
    assert_eq!(classify("\n"), HeaderLine::Cut);
    assert_eq!(classify("A: b"), HeaderLine::Cut);
    assert_eq!(classify("A:b\r\n"), HeaderLine::Malformed);
    assert_eq!(
        classify("Content-Type: text/plain\r\n"),
        HeaderLine::Field("content-type".to_string(), "text/plain".to_string())
    );
    assert_eq!(
        classify(": \r\n"),
        HeaderLine::Field("".to_string(), "".to_string())
    );
}

#[test]
fn stream_reads_lines_and_bytes() {
    let mut reader = MockReadableStream::from_bytes(b"one\r\ntwo\nthree".to_vec());
    assert_eq!(reader.available(), 14);
    assert_eq!(reader.read_line(), Some("one\r\n".to_string()));
    assert_eq!(reader.read_exact(2), Some(b"tw".to_vec()));
    assert_eq!(reader.read_line(), Some("o\n".to_string()));
    assert_eq!(reader.read_exact(6), None);
    assert_eq!(reader.available(), 5);
    assert_eq!(reader.read_line(), Some("three".to_string()));
    assert_eq!(reader.read_line(), Some("".to_string()));
    assert_eq!(reader.read(3), Vec::<u8>::new());
}

#[test]
fn stream_refuses_broken_text() {
    let mut reader = MockReadableStream::from_bytes(vec![0xc3, b'\n', b'o', b'k']);
    assert_eq!(reader.read_line(), None);
    assert_eq!(reader.read_line(), Some("ok".to_string()));
}

#[test]
fn numbers_are_read() {
    assert_eq!(parse_usize("0", 10), Some(0));
    assert_eq!(parse_usize("42", 10), Some(42));
    assert_eq!(parse_usize("+42", 10), Some(42));
    assert_eq!(parse_usize("042", 10), Some(42));
    assert_eq!(parse_usize("", 10), None);
    assert_eq!(parse_usize("+", 10), None);
    assert_eq!(parse_usize("-1", 10), None);
    assert_eq!(parse_usize(" 1", 10), None);
    assert_eq!(parse_usize("1a", 10), None);
    assert_eq!(parse_usize("a", 16), Some(10));
    assert_eq!(parse_usize("A", 16), Some(10));
    assert_eq!(parse_usize("fF", 16), Some(255));
    assert_eq!(parse_usize("g", 16), None);
    assert_eq!(
        parse_usize(&usize::MAX.to_string(), 10),
        Some(usize::MAX)
    );
    assert_eq!(parse_usize(&format!("{}0", usize::MAX), 10), None);
    assert_eq!(parse_usize(&format!("{:x}", usize::MAX), 16), Some(usize::MAX));
    assert_eq!(parse_usize(&format!("1{:x}", usize::MAX), 16), None);
}

#[test]
fn numbers_are_written() {
    assert_eq!(number_text(0, 10), "0");
    assert_eq!(number_text(9, 10), "9");
    assert_eq!(number_text(10, 10), "10");
    assert_eq!(number_text(1234567890, 10), "1234567890");
    assert_eq!(number_text(0, 16), "0");
    assert_eq!(number_text(10, 16), "a");
    assert_eq!(number_text(255, 16), "ff");
    assert_eq!(number_text(4096, 16), "1000");
    assert_eq!(number_text(usize::MAX, 10), usize::MAX.to_string());
    assert_eq!(number_text(usize::MAX, 16), format!("{:x}", usize::MAX));
}

#[test]
fn names_are_brought_to_lower_case() {
    assert_eq!(
        lower_each(&vec![
            "Content-Length".to_string(),
            "AZ az @[ 09".to_string(),
            "\u{c4}b".to_string(),
            "\u{39f}\u{394}\u{3a3}".to_string(),
            "".to_string(),
        ]),
        vec!["content-length", "az az @[ 09", "\u{e4}b", "\u{3bf}\u{3b4}\u{3c2}", ""]
    );
}

#[test]
fn header_names_outside_ascii_are_lowered_too() {
    assert_eq!(
        classify("\u{c4}-Key: \u{c4}\r\n"),
        HeaderLine::Field("\u{e4}-key".to_string(), "\u{c4}".to_string())
    );
    let mut reader = MockReadableStream::new(vec!["\u{c4}: 1", "\u{e4}: 2", ""]);
    assert_eq!(parse_headers(&mut reader), Ok(map(&[("\u{e4}", "2")])));
}

#[test]
fn header_lines_are_cut_at_the_first_separator() {
    assert_eq!(split_header("Host: localhost"), Some(("Host", "localhost")));
    assert_eq!(split_header("B: x: y"), Some(("B", "x: y")));
    assert_eq!(split_header(": "), Some(("", "")));
    assert_eq!(split_header("Host:localhost"), None);
    assert_eq!(split_header(""), None);
}

#[test]
fn framing_follows_the_headers() {
    assert_eq!(extract_length(&map(&[])), Ok(ContentLength::Missing));
    assert_eq!(
        extract_length(&map(&[("content-length", "42")])),
        Ok(ContentLength::Fixed(42))
    );
    assert_eq!(
        extract_length(&map(&[("transfer-encoding", "chunked"), ("content-length", "7")])),
        Ok(ContentLength::Fixed(7))
    );
    assert_eq!(
        extract_length(&map(&[("transfer-encoding", "chunked")])),
        Ok(ContentLength::Chunked)
    );
    assert_eq!(
        extract_length(&map(&[("transfer-encoding", "gzip")])),
        Ok(ContentLength::Missing)
    );
    assert_eq!(
        extract_length(&map(&[("content-length", "many")])),
        Err(ResponseableError::InvalidLength)
    );
    assert_eq!(
        extract_length(&map(&[("content-length", "-1")])),
        Err(ResponseableError::InvalidLength)
    );
}

#[test]
fn maps_compare_by_content() {
    let a = map(&[("a", "1"), ("b", "2")]);
    let b = map(&[("b", "2"), ("a", "1")]);
    assert_eq!(a, b);
    assert!(a.same(&b));
    assert_ne!(a, map(&[("a", "1")]));
    assert_ne!(a, map(&[("a", "1"), ("b", "3")]));
    assert_eq!(a.len(), 2);
    assert!(!a.is_empty());
    assert!(FieldMap::new().is_empty());
    assert_eq!(a.get("b"), Some(&"2".to_string()));
    assert_eq!(a.get("c"), None);
    assert!(a.contains_key("a"));
    assert_eq!(a.name_at(1), "b");
    assert_eq!(a.value_at(1), "2");
    let mut c = a.clone();
    c.insert("a".to_string(), "9".to_string());
    assert_eq!(c.len(), 2);
    assert_eq!(c.name_at(0), "a");
    assert_eq!(c.value_at(0), "9");
    assert_eq!(a.get("a"), Some(&"1".to_string()));
}

#[test]
fn errors_convert() {
    assert!(matches!(
        HttpError::from(ResponseableError::BrokenChunk),
        HttpError::Responseable(ResponseableError::BrokenChunk)
    ));
    assert!(matches!(
        HttpError::from(embeddable_rest_server::routes::RoutesError::RouteExists),
        HttpError::RouteExists
    ));
    match HttpError::from(embeddable_rest_server::routes::RoutesError::ParamMismatch(
        ":a".to_string(),
        ":b".to_string(),
    )) {
        HttpError::ParamMismatch(old_name, new_name) => {
            assert_eq!(old_name, ":a");
            assert_eq!(new_name, ":b");
        }
        other => panic!("the mismatch was lost: {:?}", other),
    }
}
