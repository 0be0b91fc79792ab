use http_response::body::parse_chunk_size;
use http_response::framing::{names_chunked, select_framing, Framing};
use http_response::header::{eq_ignore_case, parse_header_line, parse_length, Headers};
use http_response::status::{parse_status_line, HttpVersion, StatusCode};

fn headers(fields: &[(&str, &str)]) -> Headers {
    let mut h = Headers::new();
    for (n, v) in fields {
        h.append(n.as_bytes().to_vec(), v.as_bytes().to_vec());
    }
    h
}

#[test]
fn selects_fixed_length() {
    assert_eq!(select_framing(&headers(&[("Content-Length", "5")])), Some(Framing::FixedLength(5)));
    assert_eq!(select_framing(&headers(&[("content-length", "0")])), Some(Framing::FixedLength(0)));
}

#[test]
fn selects_chunked_whatever_else() {
    let h = headers(&[("Content-Length", "7"), ("Transfer-Encoding", "gzip"), ("TRANSFER-ENCODING", " chunked ")]);
    assert_eq!(select_framing(&h), Some(Framing::Chunked));
    let h = headers(&[("Transfer-Encoding", "chunked, gzip"), ("Content-Length", "x")]);
    assert_eq!(select_framing(&h), Some(Framing::Chunked));
}

#[test]
fn selects_read_to_close() {
    assert_eq!(select_framing(&headers(&[])), Some(Framing::ReadToClose));
    assert_eq!(select_framing(&headers(&[("Transfer-Encoding", "gzip, deflate")])), Some(Framing::ReadToClose));
    assert_eq!(select_framing(&headers(&[("Transfer-Encoding", "chunkedx")])), Some(Framing::ReadToClose));
}

#[test]
fn rejects_bad_content_length() {
    assert_eq!(select_framing(&headers(&[("Content-Length", "-1")])), None);
    assert_eq!(select_framing(&headers(&[("Content-Length", "")])), None);
}

#[test]
fn coding_list_tokens() {
    assert!(names_chunked(&b"chunked".to_vec()));
    assert!(names_chunked(&b"gzip,\tChunked".to_vec()));
    assert!(!names_chunked(&b"gzip".to_vec()));
    assert!(!names_chunked(&b"chun ked".to_vec()));
    assert!(!names_chunked(&b"".to_vec()));
}

#[test]
fn lengths() {
    assert_eq!(parse_length(&b"0".to_vec()), Some(0));
    assert_eq!(parse_length(&b"1234".to_vec()), Some(1234));
    assert_eq!(parse_length(&b"18446744073709551615".to_vec()), Some(u64::MAX));
    assert_eq!(parse_length(&b"18446744073709551616".to_vec()), None);
    assert_eq!(parse_length(&b"12a".to_vec()), None);
    assert_eq!(parse_length(&b"".to_vec()), None);
}

#[test]
fn chunk_sizes() {
    assert_eq!(parse_chunk_size(&b"ff\r".to_vec()), Some(255));
    assert_eq!(parse_chunk_size(&b"1A;name=v".to_vec()), Some(26));
    assert_eq!(parse_chunk_size(&b" 0 ".to_vec()), Some(0));
    assert_eq!(parse_chunk_size(&b"ffffffffffffffff".to_vec()), Some(u64::MAX));
    assert_eq!(parse_chunk_size(&b"10000000000000000".to_vec()), None);
    assert_eq!(parse_chunk_size(&b"g".to_vec()), None);
    assert_eq!(parse_chunk_size(&b"".to_vec()), None);
}

#[test]
fn header_lines() {
    let (n, v) = parse_header_line(&b"Content-Length:   12 \r".to_vec()).unwrap();
    assert_eq!(n, b"Content-Length".to_vec());
    assert_eq!(v, b"12".to_vec());
    let (n, v) = parse_header_line(&b"X:".to_vec()).unwrap();
    assert_eq!(n, b"X".to_vec());
    assert_eq!(v, Vec::<u8>::new());
    assert!(parse_header_line(&b": v".to_vec()).is_none());
    assert!(parse_header_line(&b"A B: v".to_vec()).is_none());
}

#[test]
fn case_insensitive_names() {
    assert!(eq_ignore_case(&b"Content-LENGTH".to_vec(), &b"content-length".to_vec()));
    assert!(!eq_ignore_case(&b"Content".to_vec(), &b"content-length".to_vec()));
    assert!(!eq_ignore_case(&b"a[".to_vec(), &b"a{".to_vec()));
}

#[test]
fn status_lines() {
    let (v, raw) = parse_status_line(&b"HTTP/2.0 404 Not Found\r".to_vec()).unwrap();
    assert_eq!(v, HttpVersion::Http20);
    assert_eq!(raw.code, 404);
    assert_eq!(raw.reason, b"Not Found".to_vec());
    let (v, raw) = parse_status_line(&b"HTTP/0.9 100".to_vec()).unwrap();
    assert_eq!(v, HttpVersion::Http09);
    assert_eq!(raw.code, 100);
    assert!(parse_status_line(&b"HTTP/1.1 200OK".to_vec()).is_none());
}

#[test]
fn known_status_codes() {
    assert_eq!(StatusCode::from_u16(100).map(|s| s.to_u16()), Some(100));
    assert_eq!(StatusCode::from_u16(599).map(|s| s.to_u16()), Some(599));
    assert!(StatusCode::from_u16(99).is_none());
    assert!(StatusCode::from_u16(600).is_none());
    assert!(StatusCode::from_u16(999).is_none());
}
