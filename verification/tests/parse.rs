use http_header::data::{Data, HeaderFieldKey};
use http_header::error::HttpError;
use http_header::header::Header;
use http_header::message::{parse_request, parse_response, RequestHeader};

fn key(name: &'static [u8]) -> Data<'static, HeaderFieldKey> {
    Data::validate(name).unwrap()
}

fn value_of<'a>(header: &RequestHeader<'a>, name: &'static [u8]) -> Option<&'a [u8]> {
    header.field(key(name)).map(|value| value.unwrap().as_bytes())
}

#[test]
fn request_example() {
    let (header, body) = parse_request(b"GET /x HTTP/1.1\r\nHost: a.com\r\n\r\nBODY").unwrap();
    assert_eq!(header.method().unwrap().as_bytes(), b"GET");
    assert_eq!(header.uri().unwrap().as_bytes(), b"/x");
    assert_eq!(header.version().unwrap().as_bytes(), b"HTTP/1.1");
    assert_eq!(value_of(&header, b"Host"), Some(&b"a.com"[..]));
    assert_eq!(header.fields().len(), 1);
    assert_eq!(body, b"BODY");
}

#[test]
fn response_example() {
    let bytes = b"HTTP/1.1 404 Not-Found\r\nContent-Length: 0\r\nServer: x\r\n\r\n";
    let (header, body) = parse_response(bytes).unwrap();
    assert_eq!(header.version().unwrap().as_bytes(), b"HTTP/1.1");
    assert_eq!(header.status(), Ok(404));
    assert_eq!(header.reason().unwrap().as_bytes(), b"Not-Found");
    let length = header.field(key(b"Content-Length")).unwrap().unwrap();
    assert_eq!(length.as_bytes(), b"0");
    assert_eq!(header.field(key(b"Server")).unwrap().unwrap().as_bytes(), b"x");
    assert!(header.field(key(b"Host")).is_none());
    assert_eq!(header.fields().len(), 2);
    assert!(body.is_empty());
}

#[test]
fn accessors_agree_when_called_twice() {
    let (request, _) = parse_request(b"GET /x HTTP/1.1\r\nHost: a.com\r\n\r\n").unwrap();
    assert_eq!(request.method().unwrap().as_bytes(), request.method().unwrap().as_bytes());
    assert_eq!(request.uri().unwrap().as_bytes(), request.uri().unwrap().as_bytes());
    assert_eq!(request.version().unwrap().as_bytes(), request.version().unwrap().as_bytes());
    assert_eq!(value_of(&request, b"Host"), value_of(&request, b"Host"));
    let (response, _) = parse_response(b"HTTP/1.1 200 OK\r\n\r\n").unwrap();
    assert_eq!(response.status(), response.status());
    assert_eq!(response.status(), Ok(200));
    let (bad, _) = parse_request(b"G\x01T /\x7f HTTP\r\n\r\n").unwrap();
    assert_eq!(bad.method().unwrap_err(), bad.method().unwrap_err());
    assert_eq!(bad.uri().unwrap_err(), bad.uri().unwrap_err());
}

#[test]
fn no_terminator_is_truncated_data() {
    let cut: [&[u8]; 8] = [
        b"",
        b"GET /x HTTP/1.1",
        b"GET /x HTTP/1.1\r\n",
        b"GET /x HTTP/1.1\r\nHost: a.com",
        b"GET /x HTTP/1.1\r\nHost: a.com\r\n",
        b"GET /x HTTP/1.1\r\nHost: a.com\r\n\r",
        b"GET /x HTTP/1.1\n\n",
        b"not a header at all \r\n \r\n",
    ];
    for bytes in cut {
        assert_eq!(parse_request(bytes).unwrap_err(), HttpError::TruncatedData);
        assert_eq!(parse_response(bytes).unwrap_err(), HttpError::TruncatedData);
    }
}

#[test]
fn start_line_with_two_tokens_is_a_violation() {
    assert_eq!(parse_request(b"GET /x\r\n\r\n").unwrap_err(), HttpError::ProtocolViolation);
    assert_eq!(parse_response(b"HTTP/1.1 200\r\n\r\n").unwrap_err(), HttpError::ProtocolViolation);
}

#[test]
fn start_line_with_four_tokens_is_a_violation() {
    assert_eq!(
        parse_request(b"GET /x HTTP/1.1 extra\r\n\r\n").unwrap_err(),
        HttpError::ProtocolViolation
    );
    assert_eq!(
        parse_response(b"HTTP/1.1 404 Not Found\r\n\r\n").unwrap_err(),
        HttpError::ProtocolViolation
    );
    assert_eq!(parse_request(b"GET  /x HTTP/1.1\r\n\r\n").unwrap_err(), HttpError::ProtocolViolation);
}

#[test]
fn start_line_with_three_tokens_succeeds() {
    let (header, body) = parse_request(b"A B C\r\n\r\n").unwrap();
    assert_eq!(header.method().unwrap().as_bytes(), b"A");
    assert_eq!(header.uri().unwrap().as_bytes(), b"B");
    assert_eq!(header.version().unwrap().as_bytes(), b"C");
    assert!(header.fields().is_empty());
    assert!(body.is_empty());
}

#[test]
fn start_line_is_trimmed_before_it_is_split() {
    let (header, _) = parse_request(b" \tGET /x HTTP/1.1 \r\n\r\n").unwrap();
    assert_eq!(header.method().unwrap().as_bytes(), b"GET");
    assert_eq!(header.version().unwrap().as_bytes(), b"HTTP/1.1");
}

#[test]
fn empty_start_line_is_a_violation() {
    assert_eq!(parse_request(b"\r\n\r\n").unwrap_err(), HttpError::ProtocolViolation);
    assert_eq!(parse_request(b"\r\n\r\nBODY").unwrap_err(), HttpError::ProtocolViolation);
    assert_eq!(parse_request(b"   \r\n\r\n").unwrap_err(), HttpError::ProtocolViolation);
    assert_eq!(parse_request(b"\r\nGET /x HTTP/1.1\r\n\r\n").unwrap_err(), HttpError::ProtocolViolation);
}

#[test]
fn tokens_are_stored_unchecked() {
    let (header, _) = parse_request(b"G\x01T /a\"b HTTP\xff\r\n\r\n").unwrap();
    assert_eq!(header.method().unwrap_err(), HttpError::ProtocolViolation);
    assert_eq!(header.uri().unwrap_err(), HttpError::ProtocolViolation);
    assert_eq!(header.version().unwrap_err(), HttpError::ProtocolViolation);
}

#[test]
fn field_line_without_colon_is_a_violation() {
    assert_eq!(
        parse_request(b"GET /x HTTP/1.1\r\nHost a.com\r\n\r\n").unwrap_err(),
        HttpError::ProtocolViolation
    );
    assert_eq!(
        parse_request(b"GET /x HTTP/1.1\r\nA: 1\r\nnocolon\r\nB: 2\r\n\r\n").unwrap_err(),
        HttpError::ProtocolViolation
    );
}

#[test]
fn field_line_with_colon_and_no_value_has_the_empty_value() {
    let (header, _) = parse_request(b"GET /x HTTP/1.1\r\nX-Empty:\r\n\r\n").unwrap();
    assert_eq!(value_of(&header, b"X-Empty"), Some(&b""[..]));
    let (header, _) = parse_request(b"GET /x HTTP/1.1\r\nX-Empty:   \r\n\r\n").unwrap();
    assert_eq!(value_of(&header, b"X-Empty"), Some(&b""[..]));
}

#[test]
fn field_value_may_hold_colons_and_is_trimmed() {
    let (header, _) =
        parse_request(b"GET /x HTTP/1.1\r\nHost:a.com:8080\r\nDate: \t 12:30:00 \r\n\r\n").unwrap();
    assert_eq!(value_of(&header, b"Host"), Some(&b"a.com:8080"[..]));
    assert_eq!(value_of(&header, b"Date"), Some(&b"12:30:00"[..]));
}

#[test]
fn field_name_is_checked_as_it_stands() {
    let bad: [&[u8]; 6] = [
        b"GET /x HTTP/1.1\r\n: value\r\n\r\n",
        b"GET /x HTTP/1.1\r\nHost : a.com\r\n\r\n",
        b"GET /x HTTP/1.1\r\n Host: a.com\r\n\r\n",
        b"GET /x HTTP/1.1\r\nH(ost): a.com\r\n\r\n",
        b"GET /x HTTP/1.1\r\nA: 1\r\n\tfolded: 2\r\n\r\n",
        b"GET /x HTTP/1.1\r\nH\xc3\xb6st: a.com\r\n\r\n",
    ];
    for bytes in bad {
        assert_eq!(parse_request(bytes).unwrap_err(), HttpError::ProtocolViolation);
    }
}

#[test]
fn field_names_match_exactly() {
    let (header, _) = parse_request(b"GET /x HTTP/1.1\r\nHost: a.com\r\n\r\n").unwrap();
    assert!(header.field(key(b"host")).is_none());
    assert!(header.field(key(b"HOST")).is_none());
    assert!(header.field(key(b"Hos")).is_none());
    assert!(header.field(key(b"Host")).is_some());
}

#[test]
fn field_value_is_checked_when_it_is_read() {
    let (header, _) = parse_request(b"GET /x HTTP/1.1\r\nA: caf\xc3\xa9\r\nB: ok\r\n\r\n").unwrap();
    assert_eq!(header.field(key(b"A")).unwrap().unwrap_err(), HttpError::ProtocolViolation);
    assert_eq!(value_of(&header, b"B"), Some(&b"ok"[..]));
    assert_eq!(header.fields()[0].1, b"caf\xc3\xa9");
}

#[test]
fn last_occurrence_of_a_name_wins() {
    let (header, _) = parse_request(b"GET /x HTTP/1.1\r\nA: 1\r\nA: 2\r\n\r\n").unwrap();
    assert_eq!(value_of(&header, b"A"), Some(&b"2"[..]));
    assert_eq!(header.fields().len(), 1);
}

#[test]
fn a_repeated_name_keeps_its_first_place() {
    let bytes = b"GET /x HTTP/1.1\r\nA: 1\r\nB: 2\r\nA: 3\r\nC: 4\r\nB: 5\r\n\r\n";
    let (header, _) = parse_request(bytes).unwrap();
    let fields = header.fields();
    assert_eq!(fields.len(), 3);
    assert_eq!((fields[0].0.as_bytes(), fields[0].1), (&b"A"[..], &b"3"[..]));
    assert_eq!((fields[1].0.as_bytes(), fields[1].1), (&b"B"[..], &b"5"[..]));
    assert_eq!((fields[2].0.as_bytes(), fields[2].1), (&b"C"[..], &b"4"[..]));
}

#[test]
fn body_is_what_stands_behind_the_first_terminator() {
    let (_, body) = parse_request(b"GET /x HTTP/1.1\r\n\r\n\r\n\r\nrest\r\n\r\n").unwrap();
    assert_eq!(body, b"\r\n\r\nrest\r\n\r\n");
    let (_, body) = parse_request(b"GET /x HTTP/1.1\r\n\r\n").unwrap();
    assert_eq!(body, b"");
}

#[test]
fn parsed_pieces_borrow_from_the_buffer() {
    let bytes: &[u8] = b"GET /x HTTP/1.1\r\nHost: a.com\r\n\r\nBODY";
    let range = bytes.as_ptr_range();
    let (header, body) = parse_request(bytes).unwrap();
    let (name, value) = (header.fields()[0].0.as_bytes(), header.fields()[0].1);
    for piece in [header.method().unwrap().as_bytes(), name, value, body] {
        assert!(range.start <= piece.as_ptr() && piece.as_ptr_range().end <= range.end);
    }
    assert_eq!(body.as_ptr(), bytes[bytes.len() - 4..].as_ptr());
}

#[test]
fn status_code_out_of_range_fails_at_the_accessor() {
    let (header, body) = parse_response(b"HTTP/1.1 70000 X\r\n\r\n").unwrap();
    assert_eq!(header.status(), Err(HttpError::ProtocolViolation));
    assert_eq!(header.version().unwrap().as_bytes(), b"HTTP/1.1");
    assert_eq!(header.reason().unwrap().as_bytes(), b"X");
    assert!(body.is_empty());
}

#[test]
fn status_code_at_the_edges_of_the_range() {
    let status = |bytes: &'static [u8]| parse_response(bytes).unwrap().0.status();
    assert_eq!(status(b"HTTP/1.1 0 X\r\n\r\n"), Ok(0));
    assert_eq!(status(b"HTTP/1.1 65535 X\r\n\r\n"), Ok(65535));
    assert_eq!(status(b"HTTP/1.1 65536 X\r\n\r\n"), Err(HttpError::ProtocolViolation));
    assert_eq!(status(b"HTTP/1.1 0200 X\r\n\r\n"), Ok(200));
}

#[test]
fn status_code_that_is_no_integer_is_a_violation() {
    let status = |bytes: &'static [u8]| parse_response(bytes).unwrap().0.status();
    assert_eq!(status(b"HTTP/1.1 abc X\r\n\r\n"), Err(HttpError::ProtocolViolation));
    assert_eq!(status(b"HTTP/1.1 -200 X\r\n\r\n"), Err(HttpError::ProtocolViolation));
    assert_eq!(status(b"HTTP/1.1 2.0 X\r\n\r\n"), Err(HttpError::ProtocolViolation));
    assert_eq!(status(b"HTTP/1.1  X\r\n\r\n"), Err(HttpError::ProtocolViolation));
}

#[test]
fn header_core_parses_both_directions_alike() {
    let bytes = b"HTTP/1.1 200 OK\r\nA: 1\r\n\r\nrest";
    let (header, body) = Header::parse(bytes).unwrap();
    let line = header.line();
    assert_eq!((line.0, line.1, line.2), (&b"HTTP/1.1"[..], &b"200"[..], &b"OK"[..]));
    assert_eq!(header.field(key(b"A")).unwrap().unwrap().as_bytes(), b"1");
    assert_eq!(header.fields().len(), 1);
    assert_eq!(body, b"rest");
    assert_eq!(Header::parse(b"x").unwrap_err(), HttpError::TruncatedData);
}
