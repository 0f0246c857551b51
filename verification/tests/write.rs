use http_header::data::{Data, HeaderFieldKey};
use http_header::header::{append, insert, position, same_bytes, Header};
use http_header::message::{parse_request, parse_response};

#[test]
fn write_gives_the_wire_bytes_and_their_count() {
    let bytes = b"GET /x HTTP/1.1\r\nHost: a.com\r\nAccept: */*\r\n\r\nBODY";
    let (header, _) = parse_request(bytes).unwrap();
    let mut sink = Vec::new();
    let written = header.write(&mut sink);
    assert_eq!(sink, b"GET /x HTTP/1.1\r\nHost: a.com\r\nAccept: */*\r\n\r\n");
    assert_eq!(written, 45);
}

#[test]
fn write_without_fields_ends_with_the_empty_line() {
    let (header, _) = parse_response(b"HTTP/1.1 204 Empty\r\n\r\n").unwrap();
    let mut sink = Vec::new();
    assert_eq!(header.write(&mut sink), 22);
    assert_eq!(sink, b"HTTP/1.1 204 Empty\r\n\r\n");
}

#[test]
fn write_appends_behind_what_the_sink_holds() {
    let (header, _) = parse_request(b"A B C\r\nK: v\r\n\r\n").unwrap();
    let mut sink = b"before".to_vec();
    assert_eq!(header.write(&mut sink), 15);
    assert_eq!(sink, b"beforeA B C\r\nK: v\r\n\r\n");
    assert_eq!(header.write(&mut sink), 15);
    assert_eq!(sink, b"beforeA B C\r\nK: v\r\n\r\nA B C\r\nK: v\r\n\r\n");
}

#[test]
fn write_puts_one_space_behind_the_colon() {
    let (header, _) = parse_request(b"A B C\r\nK:v\r\nL:    w   \r\nM:\r\n\r\n").unwrap();
    let mut sink = Vec::new();
    assert_eq!(header.write(&mut sink), 26);
    assert_eq!(sink, b"A B C\r\nK: v\r\nL: w\r\nM: \r\n\r\n");
}

#[test]
fn round_trip_reproduces_a_plain_block() {
    let blocks: [&[u8]; 4] = [
        b"GET /x HTTP/1.1\r\nHost: a.com\r\n\r\n",
        b"HTTP/1.1 200 OK\r\n\r\n",
        b"POST /a?b=c HTTP/1.0\r\nA: 1\r\nB: 2\r\nC: \r\nD: x: y\r\n\r\n",
        b"M  V\r\nK: a b\r\n\r\n",
    ];
    for block in blocks {
        let (header, body) = Header::parse(block).unwrap();
        assert!(body.is_empty());
        let mut sink = Vec::new();
        assert_eq!(header.serialize(&mut sink), block.len());
        assert_eq!(sink, block);
    }
}

#[test]
fn round_trip_keeps_the_header_of_any_block() {
    let blocks: [&[u8]; 4] = [
        b"  GET /x HTTP/1.1\t\r\nHost:a.com\r\nHost:   b.com  \r\nX:\r\n\r\nBODY",
        b"A B C\r\nK: 1\r\nL: 2\r\nK: 3\r\n\r\n\r\n\r\n",
        b"G\r /\n V\r\nK: a\rb\r\n\r\n",
        b"A B C\r\nK: caf\xc3\xa9\r\n\r\n",
    ];
    for block in blocks {
        let (header, body) = Header::parse(block).unwrap();
        let mut again = Vec::new();
        header.serialize(&mut again);
        again.extend_from_slice(body);
        let (second, second_body) = Header::parse(&again).unwrap();
        assert_eq!(second.line(), header.line());
        assert_eq!(second_body, body);
        assert_eq!(second.fields().len(), header.fields().len());
        for (a, b) in second.fields().iter().zip(header.fields().iter()) {
            assert_eq!((a.0.as_bytes(), a.1), (b.0.as_bytes(), b.1));
        }
    }
}

#[test]
fn same_bytes_compares_contents() {
    assert!(same_bytes(b"Host", b"Host"));
    assert!(same_bytes(b"", b""));
    assert!(!same_bytes(b"Host", b"host"));
    assert!(!same_bytes(b"Host", b"Hos"));
    assert!(!same_bytes(b"", b"a"));
}

#[test]
fn insert_replaces_in_place_or_adds_at_the_end() {
    let key = |name: &'static [u8]| Data::<HeaderFieldKey>::validate(name).unwrap();
    let mut fields = Vec::new();
    insert(&mut fields, key(b"A"), b"1");
    insert(&mut fields, key(b"B"), b"2");
    assert_eq!(position(&fields, b"A"), Some(0));
    assert_eq!(position(&fields, b"B"), Some(1));
    assert_eq!(position(&fields, b"C"), None);
    insert(&mut fields, key(b"A"), b"3");
    assert_eq!(fields.len(), 2);
    assert_eq!((fields[0].0.as_bytes(), fields[0].1), (&b"A"[..], &b"3"[..]));
    assert_eq!((fields[1].0.as_bytes(), fields[1].1), (&b"B"[..], &b"2"[..]));
}

#[test]
fn append_adds_the_bytes_at_the_end() {
    let mut sink = b"ab".to_vec();
    append(&mut sink, b"cd");
    append(&mut sink, b"");
    assert_eq!(sink, b"abcd");
}
