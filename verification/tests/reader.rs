use http_header::reader::{progress, read, ByteSource, Progress, SourceError};

const HEADER: &[u8] = b"GET /x HTTP/1.1\r\nHost: a.com\r\n\r\n";

#[test]
fn header_of_n_bytes_needs_a_buffer_of_n_bytes() {
    let n = HEADER.len();
    assert_eq!(n, 32);
    let mut small = vec![0u8; n - 1];
    assert_eq!(read(&mut ByteSource::new(HEADER), &mut small), Ok(None));
    assert_eq!(small, &HEADER[..n - 1]);
    let mut exact = vec![0u8; n];
    assert_eq!(read(&mut ByteSource::new(HEADER), &mut exact), Ok(Some(n)));
    assert_eq!(exact, HEADER);
}

#[test]
fn every_header_length_needs_its_own_size() {
    for extra in 0..40 {
        let mut header = b"A B C\r\nK: ".to_vec();
        header.extend(std::iter::repeat(b'v').take(extra));
        header.extend_from_slice(b"\r\n\r\n");
        let n = header.len();
        let mut small = vec![0u8; n - 1];
        assert_eq!(read(&mut ByteSource::new(&header), &mut small), Ok(None));
        let mut exact = vec![0u8; n];
        assert_eq!(read(&mut ByteSource::new(&header), &mut exact), Ok(Some(n)));
        let mut large = vec![0u8; n + 7];
        assert_eq!(read(&mut ByteSource::new(&header), &mut large), Ok(Some(n)));
    }
}

#[test]
fn read_takes_nothing_behind_the_terminator() {
    let mut stream = HEADER.to_vec();
    stream.extend_from_slice(b"BODY\r\n\r\nmore");
    let mut source = ByteSource::new(&stream);
    let mut buf = [0xeeu8; 64];
    assert_eq!(read(&mut source, &mut buf), Ok(Some(32)));
    assert_eq!(&buf[..32], HEADER);
    assert!(buf[32..].iter().all(|b| *b == 0xee));
    assert_eq!(source.as_bytes(), b"BODY\r\n\r\nmore");
    assert_eq!(read(&mut source, &mut buf), Ok(Some(8)));
    assert_eq!(&buf[..8], b"BODY\r\n\r\n");
    assert_eq!(source.as_bytes(), b"more");
}

#[test]
fn read_into_a_full_buffer_keeps_what_it_took() {
    let mut source = ByteSource::new(HEADER);
    let mut buf = [0u8; 10];
    assert_eq!(read(&mut source, &mut buf), Ok(None));
    assert_eq!(&buf, b"GET /x HTT");
    assert_eq!(source.as_bytes(), &HEADER[10..]);
}

#[test]
fn read_from_a_dry_source_is_an_error() {
    let mut source = ByteSource::new(b"GET /x HTTP/1.1\r\n");
    let mut buf = [0u8; 64];
    assert_eq!(read(&mut source, &mut buf), Err(SourceError::UnexpectedEof));
    assert_eq!(&buf[..17], b"GET /x HTTP/1.1\r\n");
    assert!(source.as_bytes().is_empty());
    assert_eq!(read(&mut ByteSource::new(b""), &mut buf), Err(SourceError::UnexpectedEof));
}

#[test]
fn read_into_an_empty_buffer_takes_nothing() {
    let mut source = ByteSource::new(HEADER);
    let mut buf = [0u8; 0];
    assert_eq!(read(&mut source, &mut buf), Ok(None));
    assert_eq!(source.as_bytes(), HEADER);
    assert_eq!(read(&mut ByteSource::new(b""), &mut buf), Ok(None));
}

#[test]
fn read_finds_a_bare_terminator() {
    let mut source = ByteSource::new(b"\r\n\r\nx");
    let mut buf = [0u8; 4];
    assert_eq!(read(&mut source, &mut buf), Ok(Some(4)));
    assert_eq!(source.as_bytes(), b"x");
    let mut short = [0u8; 3];
    assert_eq!(read(&mut ByteSource::new(b"\r\n\r\nx"), &mut short), Ok(None));
}

#[test]
fn read_tells_a_terminator_from_its_parts() {
    let mut buf = [0u8; 16];
    let mut source = ByteSource::new(b"a\r\n\rb\r\n\n\r\n\r\nrest");
    assert_eq!(read(&mut source, &mut buf), Ok(Some(12)));
    assert_eq!(source.as_bytes(), b"rest");
    let mut source = ByteSource::new(b"\r\n\r\r\n\r\n");
    assert_eq!(read(&mut source, &mut buf), Ok(Some(7)));
}

#[test]
fn next_byte_walks_the_source() {
    let mut source = ByteSource::new(b"ab");
    assert_eq!(source.next_byte(), Some(b'a'));
    assert_eq!(source.as_bytes(), b"b");
    assert_eq!(source.next_byte(), Some(b'b'));
    assert_eq!(source.next_byte(), None);
    assert_eq!(source.next_byte(), None);
    assert!(source.as_bytes().is_empty());
}

#[test]
fn progress_says_what_follows_a_stored_byte() {
    assert_eq!(progress(b"", 8), Progress::More);
    assert_eq!(progress(b"", 0), Progress::Full);
    assert_eq!(progress(b"abc", 8), Progress::More);
    assert_eq!(progress(b"abc", 3), Progress::Full);
    assert_eq!(progress(b"abc", 2), Progress::Full);
    assert_eq!(progress(b"\r\n\r", 8), Progress::More);
    assert_eq!(progress(b"\r\n\r\n", 8), Progress::Found(4));
    assert_eq!(progress(b"\r\n\r\n", 4), Progress::Found(4));
    assert_eq!(progress(b"ab\r\n\r\n", 6), Progress::Found(6));
    assert_eq!(progress(b"\r\n\r\nab", 8), Progress::More);
    assert_eq!(progress(b"\r\n\r\nab", 6), Progress::Full);
}
