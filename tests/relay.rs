use relay_proxy::body::{relay_content_length, BodyCursor};
use relay_proxy::chunked::{ChunkState, ChunkedDecoder};
use relay_proxy::error::ProxyError;

#[test]
fn content_length_body_across_partial_reads() {
    let reads = vec![b"he".to_vec(), b"l".to_vec(), b"lo wor".to_vec(), b"ld".to_vec()];
    assert_eq!(relay_content_length(5, &reads), b"hello".to_vec());
    assert_eq!(relay_content_length(11, &reads), b"hello world".to_vec());
    assert_eq!(relay_content_length(20, &reads), b"hello world".to_vec());
    assert_eq!(relay_content_length(0, &reads), Vec::<u8>::new());
}

#[test]
fn body_cursor_stops_at_length() {
    let mut c = BodyCursor::new(4);
    let mut out = Vec::new();
    assert_eq!(c.forward(b"ab", &mut out), 2);
    assert!(!c.is_done());
    assert_eq!(c.forward(b"cdEXTRA", &mut out), 2);
    assert!(c.is_done());
    assert_eq!(out, b"abcd".to_vec());
    assert_eq!(c.forward(b"more", &mut out), 0);
}

const BODY: &[u8] = b"4\r\nWiki\r\n5;ext=1\r\npedia\r\nE\r\n in\r\n\r\nchunks.\r\n0\r\nExpires: never\r\nX: y\r\n\r\nNEXT";

#[test]
fn chunked_body_with_trailers_decodes() {
    let mut d = ChunkedDecoder::new();
    let mut out = Vec::new();
    let used = d.feed(BODY, &mut out).unwrap();
    assert_eq!(out, b"Wikipedia in\r\n\r\nchunks.".to_vec());
    assert_eq!(used, BODY.len() - 4);
    assert!(d.is_done());
    assert_eq!(d.feed(b"NEXT", &mut out).unwrap(), 0);
}

#[test]
fn chunked_body_byte_by_byte() {
    let mut d = ChunkedDecoder::new();
    let mut out = Vec::new();
    let mut used = 0;
    for b in BODY.iter() {
        used += d.feed(&[*b], &mut out).unwrap();
    }
    assert_eq!(out, b"Wikipedia in\r\n\r\nchunks.".to_vec());
    assert_eq!(used, BODY.len() - 4);
    assert_eq!(d.state, ChunkState::Done);
}

#[test]
fn chunked_matches_plain_payload() {
    let mut d = ChunkedDecoder::new();
    let mut out = Vec::new();
    d.feed(b"3\r\nabc\r\na\r\n0123456789\r\n0\r\n\r\n", &mut out).unwrap();
    let plain = relay_content_length(13, &vec![b"abc0123456789".to_vec()]);
    assert_eq!(out, plain);
    assert!(d.is_done());
}

#[test]
fn malformed_chunk_size() {
    let mut d = ChunkedDecoder::new();
    let mut out = Vec::new();
    assert_eq!(d.feed(b"zz\r\n", &mut out), Err(ProxyError::MalformedMessage));
    let mut d = ChunkedDecoder::new();
    assert_eq!(d.feed(b"\r\n", &mut out), Err(ProxyError::MalformedMessage));
    let mut d = ChunkedDecoder::new();
    assert_eq!(d.feed(b"2\r\nabX", &mut out), Err(ProxyError::MalformedMessage));
    let mut d = ChunkedDecoder::new();
    assert_eq!(d.feed(b"10000000000000000\r\n", &mut out), Err(ProxyError::MalformedMessage));
}
