use http_response::body::{BodyReader, ReaderMode};
use http_response::buffered::BufReader;
use http_response::error::HttpError;
use http_response::header::Headers;
use http_response::response::Response;
use http_response::status::{HttpVersion, RawStatus, StatusCode};
use http_response::transport::Transport;

fn respond(wire: &str) -> Result<Response, HttpError> {
    Response::new(Transport::new(wire.as_bytes().to_vec()))
}

fn read_all(res: &mut Response) -> Vec<u8> {
    let mut out = Vec::new();
    loop {
        let part = res.read(3).unwrap();
        if part.is_empty() {
            return out;
        }
        out.extend_from_slice(&part);
    }
}

#[test]
fn test_unwrap() {
    let res = Response::from_parts(
        StatusCode::from_u16(200).unwrap(),
        Headers::new(),
        HttpVersion::Http11,
        RawStatus { code: 200, reason: b"OK".to_vec() },
        BodyReader::new(BufReader::new(Transport::new(Vec::new())), ReaderMode::Eof),
    );
    let mut t = res.unwrap();
    assert_eq!(t.consumed(), 0);
    assert_eq!(t.read(16), Vec::<u8>::new());
}

#[test]
fn fixed_length_body_stops_at_boundary() {
    let mut res = respond("HTTP/1.1 200 OK\r\nContent-Length: 5\r\n\r\nhelloIGNORE").unwrap();
    assert_eq!(res.status.to_u16(), 200);
    assert_eq!(res.version, HttpVersion::Http11);
    assert_eq!(res.status_raw().code, 200);
    assert_eq!(res.status_raw().reason, b"OK".to_vec());
    assert_eq!(res.read(100).unwrap(), b"hello".to_vec());
    assert_eq!(res.read(100).unwrap(), Vec::<u8>::new());
    let mut t = res.unwrap();
    assert_eq!(t.read(100), b"IGNORE".to_vec());
}

#[test]
fn fixed_length_reads_in_pieces() {
    let mut res = respond("HTTP/1.1 200 OK\r\nContent-Length: 5\r\n\r\nhelloIGNORE").unwrap();
    assert_eq!(read_all(&mut res), b"hello".to_vec());
}

#[test]
fn chunked_body_is_decoded() {
    let mut res =
        respond("HTTP/1.1 200 OK\r\nTransfer-Encoding: chunked\r\n\r\n5\r\nhello\r\n0\r\n\r\n")
            .unwrap();
    assert_eq!(res.read(100).unwrap(), b"hello".to_vec());
    assert_eq!(res.read(100).unwrap(), Vec::<u8>::new());
    assert_eq!(res.read(100).unwrap(), Vec::<u8>::new());
}

#[test]
fn chunked_body_several_chunks_then_next_response() {
    let mut res = respond(
        "HTTP/1.1 200 OK\r\ntransfer-encoding: gzip, Chunked\r\n\r\n3;ext=1\r\nabc\r\nA\r\n0123456789\r\n0\r\nX-Trailer: 1\r\n\r\nNEXT",
    )
    .unwrap();
    assert_eq!(read_all(&mut res), b"abc0123456789".to_vec());
    let mut t = res.unwrap();
    assert_eq!(t.read(100), b"NEXT".to_vec());
}

#[test]
fn unknown_status_code_keeps_raw_status() {
    match respond("HTTP/1.1 999 Strange\r\n\r\n") {
        Err(e) => {
            assert!(matches!(e, HttpError::UnknownStatusCode(_)));
            let raw = e.raw_status().unwrap();
            assert_eq!(raw.code, 999);
            assert_eq!(raw.reason, b"Strange".to_vec());
        }
        Ok(_) => panic!("a response with status 999 was built"),
    }
}

#[test]
fn transfer_encoding_wins_over_content_length() {
    let mut res = respond(
        "HTTP/1.1 200 OK\r\nContent-Length: 2\r\nTransfer-Encoding: chunked\r\n\r\n4\r\nwiki\r\n0\r\n\r\n",
    )
    .unwrap();
    assert_eq!(read_all(&mut res), b"wiki".to_vec());
}

#[test]
fn other_coding_reads_to_close() {
    let mut res = respond("HTTP/1.1 200 OK\r\nTransfer-Encoding: gzip\r\nContent-Length: 2\r\n\r\nabcdef").unwrap();
    assert_eq!(read_all(&mut res), b"abcdef".to_vec());
}

#[test]
fn no_length_reads_to_close() {
    let mut res = respond("HTTP/1.0 200 OK\r\nServer: x\r\n\r\nall of it").unwrap();
    assert_eq!(res.version, HttpVersion::Http10);
    assert_eq!(read_all(&mut res), b"all of it".to_vec());
    let mut t = res.unwrap();
    assert_eq!(t.read(10), Vec::<u8>::new());
}

#[test]
fn invalid_content_length_is_rejected() {
    assert!(matches!(
        respond("HTTP/1.1 200 OK\r\nContent-Length: five\r\n\r\nhello"),
        Err(HttpError::InvalidContentLength)
    ));
    assert!(matches!(
        respond("HTTP/1.1 200 OK\r\nContent-Length: 18446744073709551616\r\n\r\n"),
        Err(HttpError::InvalidContentLength)
    ));
    assert!(matches!(
        respond("HTTP/1.1 200 OK\r\nContent-Length: 1\r\nContent-Length: 1\r\n\r\nx"),
        Err(HttpError::InvalidContentLength)
    ));
}

#[test]
fn largest_content_length_is_accepted() {
    let mut res = respond("HTTP/1.1 200 OK\r\nContent-Length: 18446744073709551615\r\n\r\nabc").unwrap();
    assert_eq!(read_all(&mut res), b"abc".to_vec());
}

#[test]
fn malformed_status_line_is_rejected() {
    assert!(matches!(respond("HTTP/1.1 20 OK\r\n\r\n"), Err(HttpError::MalformedStatusLine)));
    assert!(matches!(respond("HTTX/1.1 200 OK\r\n\r\n"), Err(HttpError::MalformedStatusLine)));
    assert!(matches!(respond("HTTP/3.1 200 OK\r\n\r\n"), Err(HttpError::MalformedStatusLine)));
    assert!(matches!(respond("HTTP/1.1 200 OK"), Err(HttpError::MalformedStatusLine)));
    assert!(matches!(respond(""), Err(HttpError::MalformedStatusLine)));
}

#[test]
fn status_line_without_reason() {
    let res = respond("HTTP/1.1 204\r\n\r\n").unwrap();
    assert_eq!(res.status.to_u16(), 204);
    assert_eq!(res.status_raw().reason, Vec::<u8>::new());
}

#[test]
fn malformed_headers_are_rejected() {
    assert!(matches!(respond("HTTP/1.1 200 OK\r\nNoColon\r\n\r\n"), Err(HttpError::MalformedHeaders)));
    assert!(matches!(respond("HTTP/1.1 200 OK\r\nBad Name: 1\r\n\r\n"), Err(HttpError::MalformedHeaders)));
    assert!(matches!(respond("HTTP/1.1 200 OK\r\nA: 1\r\n"), Err(HttpError::MalformedHeaders)));
}

#[test]
fn headers_are_kept_in_order() {
    let res = respond("HTTP/1.1 200 OK\r\nHost:  a.b \r\nX-Y: z\r\n\r\n").unwrap();
    assert_eq!(res.headers.len(), 2);
    let (n, v) = res.headers.entry(0);
    assert_eq!(n, &b"Host".to_vec());
    assert_eq!(v, &b"a.b".to_vec());
    assert!(res.headers.has(&b"x-y".to_vec()));
    assert!(!res.headers.has(&b"content-length".to_vec()));
}

#[test]
fn unwrap_before_draining_keeps_unread_bytes() {
    let mut res = respond("HTTP/1.1 200 OK\r\nContent-Length: 5\r\n\r\nhelloIGNORE").unwrap();
    assert_eq!(res.read(2).unwrap(), b"he".to_vec());
    let mut t = res.unwrap();
    assert_eq!(t.read(100), b"lloIGNORE".to_vec());
}

#[test]
fn read_of_zero_bytes_returns_nothing() {
    let mut res = respond("HTTP/1.1 200 OK\r\nContent-Length: 5\r\n\r\nhello").unwrap();
    assert_eq!(res.read(0).unwrap(), Vec::<u8>::new());
    assert_eq!(res.read(5).unwrap(), b"hello".to_vec());
}

#[test]
fn chunked_errors() {
    let mut res = respond("HTTP/1.1 200 OK\r\nTransfer-Encoding: chunked\r\n\r\nzz\r\n").unwrap();
    assert!(matches!(res.read(10), Err(HttpError::InvalidChunk)));
    let mut res = respond("HTTP/1.1 200 OK\r\nTransfer-Encoding: chunked\r\n\r\n5\r\nhel").unwrap();
    assert_eq!(res.read(10).unwrap(), b"hel".to_vec());
    assert!(matches!(res.read(10), Err(HttpError::UnexpectedEof)));
    let mut res = respond("HTTP/1.1 200 OK\r\nTransfer-Encoding: chunked\r\n\r\n2\r\nhiX\r\n").unwrap();
    assert!(matches!(res.read(10), Err(HttpError::InvalidChunk)));
}
