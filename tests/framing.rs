use relay_proxy::error::ProxyError;
use relay_proxy::head::{parse_head, split_header, write_head, Header};
use relay_proxy::message::{
    connection_keeps_alive, parse_request, parse_response, parse_status_line, FramingMode,
};
use relay_proxy::scan::parse_decimal;

fn names(hs: &[Header]) -> Vec<(String, String)> {
    hs.iter()
        .map(|h| {
            (
                String::from_utf8(h.name.clone()).unwrap(),
                String::from_utf8(h.value.clone()).unwrap(),
            )
        })
        .collect()
}

#[test]
fn request_headers_keep_order_and_duplicates() {
    let raw = b"GET /index.html HTTP/1.1\r\nHost: example.com\r\nAccept: a\r\nAccept: b\r\nX-Y:  z\r\n\r\nrest";
    let req = parse_request(raw).unwrap().unwrap();
    assert_eq!(req.method, b"GET".to_vec());
    assert_eq!(req.target, b"/index.html".to_vec());
    assert!(req.http11);
    assert_eq!(
        names(&req.headers),
        vec![
            ("Host".to_string(), "example.com".to_string()),
            ("Accept".to_string(), "a".to_string()),
            ("Accept".to_string(), "b".to_string()),
            ("X-Y".to_string(), "z".to_string()),
        ]
    );
    assert_eq!(req.framing, FramingMode::NoBody);
    assert_eq!(&raw[req.body_start..], b"rest");
}

#[test]
fn incomplete_head_asks_for_more() {
    assert!(matches!(parse_request(b"GET / HTTP/1.1\r\nHost: a\r\n"), Ok(None)));
    assert!(matches!(parse_request(b"GET / HTTP/1.1"), Ok(None)));
    assert!(matches!(parse_request(b""), Ok(None)));
}

#[test]
fn header_without_colon_is_malformed() {
    let r = parse_request(b"GET / HTTP/1.1\r\nHost example.com\r\n\r\n");
    assert!(matches!(r, Err(ProxyError::MalformedMessage)));
}

#[test]
fn bad_request_line_is_malformed() {
    assert!(matches!(parse_request(b"GET /\r\n\r\n"), Err(ProxyError::MalformedMessage)));
    assert!(matches!(parse_request(b"GET / HTTP/2.0\r\n\r\n"), Err(ProxyError::MalformedMessage)));
    assert!(matches!(parse_request(b"\r\n\r\n"), Err(ProxyError::MalformedMessage)));
}

#[test]
fn content_length_and_chunked_together_are_refused() {
    let raw = b"POST / HTTP/1.1\r\nContent-Length: 5\r\nTransfer-Encoding: chunked\r\n\r\nhello";
    assert!(matches!(parse_request(raw), Err(ProxyError::MalformedMessage)));
    let resp = b"HTTP/1.1 200 OK\r\ntransfer-encoding: chunked\r\ncontent-length: 3\r\n\r\n";
    assert!(matches!(parse_response(resp, false), Err(ProxyError::MalformedMessage)));
}

#[test]
fn content_length_gives_body_length() {
    let raw = b"POST /x HTTP/1.1\r\nCONTENT-LENGTH: 11\r\n\r\nhello world";
    let req = parse_request(raw).unwrap().unwrap();
    assert_eq!(req.framing, FramingMode::ContentLength(11));
    assert_eq!(raw.len() - req.body_start, 11);
}

#[test]
fn bad_content_length_is_malformed() {
    let raw = b"POST / HTTP/1.1\r\nContent-Length: 1x\r\n\r\n";
    assert!(matches!(parse_request(raw), Err(ProxyError::MalformedMessage)));
}

#[test]
fn chunked_request_framing() {
    let raw = b"POST / HTTP/1.1\r\nTransfer-Encoding: Chunked\r\n\r\n";
    assert_eq!(parse_request(raw).unwrap().unwrap().framing, FramingMode::Chunked);
    let gz = b"POST / HTTP/1.1\r\nTransfer-Encoding: gzip\r\n\r\n";
    assert!(matches!(parse_request(gz), Err(ProxyError::MalformedMessage)));
}

#[test]
fn response_framing_rules() {
    let r = parse_response(b"HTTP/1.1 200 OK\r\nContent-Length: 3\r\n\r\nabc", false).unwrap().unwrap();
    assert_eq!(r.status, 200);
    assert_eq!(r.framing, FramingMode::ContentLength(3));
    let r = parse_response(b"HTTP/1.1 200 OK\r\n\r\n", false).unwrap().unwrap();
    assert_eq!(r.framing, FramingMode::CloseDelimited);
    let r = parse_response(b"HTTP/1.1 204 No Content\r\n\r\n", false).unwrap().unwrap();
    assert_eq!(r.framing, FramingMode::NoBody);
    let r = parse_response(b"HTTP/1.1 304 Not Modified\r\nContent-Length: 9\r\n\r\n", false).unwrap().unwrap();
    assert_eq!(r.framing, FramingMode::NoBody);
    let r = parse_response(b"HTTP/1.0 100 Continue\r\n\r\n", false).unwrap().unwrap();
    assert_eq!(r.framing, FramingMode::NoBody);
    assert!(!r.http11);
    let r = parse_response(b"HTTP/1.1 200 OK\r\nContent-Length: 30\r\n\r\n", true).unwrap().unwrap();
    assert_eq!(r.framing, FramingMode::NoBody);
}

#[test]
fn status_line_forms() {
    assert_eq!(parse_status_line(b"HTTP/1.1 404 Not Found"), Some((true, 404)));
    assert_eq!(parse_status_line(b"HTTP/1.0 200"), Some((false, 200)));
    assert_eq!(parse_status_line(b"HTTP/1.1 20"), None);
    assert_eq!(parse_status_line(b"HTTP/1.1 2000"), None);
    assert_eq!(parse_status_line(b"HTTP/3 200 OK"), None);
}

#[test]
fn keep_alive_decisions() {
    let hs = parse_head(b"HTTP/1.1 200 OK\r\nConnection: close\r\n\r\n").unwrap().unwrap().headers;
    assert!(!connection_keeps_alive(&hs, true));
    let hs = parse_head(b"HTTP/1.0 200 OK\r\nConnection: Keep-Alive\r\n\r\n").unwrap().unwrap().headers;
    assert!(connection_keeps_alive(&hs, false));
    let hs = parse_head(b"HTTP/1.0 200 OK\r\n\r\n").unwrap().unwrap().headers;
    assert!(!connection_keeps_alive(&hs, false));
    assert!(connection_keeps_alive(&hs, true));
}

#[test]
fn split_header_trims_leading_blanks() {
    let h = split_header(b"Name:\t value").unwrap();
    assert_eq!(h.name, b"Name".to_vec());
    assert_eq!(h.value, b"value".to_vec());
    assert!(split_header(b":value").is_none());
    assert!(split_header(b"novalue").is_none());
}

#[test]
fn written_head_reads_back() {
    let hs = vec![
        Header { name: b"Host".to_vec(), value: b"a.example".to_vec() },
        Header { name: b"X".to_vec(), value: b"1".to_vec() },
        Header { name: b"X".to_vec(), value: b"2".to_vec() },
    ];
    let bytes = write_head(b"GET / HTTP/1.1", &hs);
    assert_eq!(bytes, b"GET / HTTP/1.1\r\nHost: a.example\r\nX: 1\r\nX: 2\r\n\r\n".to_vec());
    let head = parse_head(&bytes).unwrap().unwrap();
    assert_eq!(head.start_line, b"GET / HTTP/1.1".to_vec());
    assert_eq!(names(&head.headers), names(&hs));
    assert_eq!(head.body_start, bytes.len());
}

#[test]
fn decimal_numbers() {
    assert_eq!(parse_decimal(b"123"), Some(123));
    assert_eq!(parse_decimal(b"18446744073709551615"), Some(u64::MAX));
    assert_eq!(parse_decimal(b"18446744073709551616"), None);
    assert_eq!(parse_decimal(b""), None);
    assert_eq!(parse_decimal(b"1 "), None);
}

#[test]
fn header_values_are_trimmed() {
    let raw = b"POST / HTTP/1.1\r\nContent-Length: 5 \t\r\nX:  a b  \r\n\r\nhello";
    let req = parse_request(raw).unwrap().unwrap();
    assert_eq!(req.framing, FramingMode::ContentLength(5));
    assert_eq!(req.headers[1].value, b"a b".to_vec());
}

#[test]
fn differing_content_lengths_are_refused() {
    let raw = b"POST / HTTP/1.1\r\nContent-Length: 5\r\ncontent-length: 6\r\n\r\n";
    assert!(matches!(parse_request(raw), Err(ProxyError::MalformedMessage)));
    let same = b"POST / HTTP/1.1\r\nContent-Length: 5\r\ncontent-length: 5\r\n\r\n";
    assert_eq!(parse_request(same).unwrap().unwrap().framing, FramingMode::ContentLength(5));
}
