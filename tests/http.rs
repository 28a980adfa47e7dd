use tokio_http_core::connection::{Connection, Phase};
use tokio_http_core::date::DateCache;
use tokio_http_core::number::parse_numeral;
use tokio_http_core::request::{parse, BodyKind, Header, Limits, ParseError, Parsed, Request};
use tokio_http_core::response::{encode_chunk, serialize, tag_response, Body, Message, Response};
use tokio_http_core::server::{server_limits, Server, SocketAddress};

fn limits() -> Limits {
    Limits { max_head_bytes: 1024, max_headers: 16 }
}

fn done(bytes: &[u8]) -> (Request, usize) {
    match parse(bytes, limits()) {
        Parsed::Done(r, n) => (r, n),
        Parsed::Incomplete => panic!("incomplete"),
        Parsed::Failed(e) => panic!("failed: {:?}", e),
    }
}

fn failure(bytes: &[u8]) -> ParseError {
    match parse(bytes, limits()) {
        Parsed::Failed(e) => e,
        _ => panic!("expected a failure"),
    }
}

fn ok_response(body: &[u8]) -> Response {
    Response {
        status: 200,
        reason: b"OK".to_vec(),
        headers: Vec::new(),
        body: Body::Fixed(body.to_vec()),
    }
}

fn text(bytes: &[u8]) -> String {
    String::from_utf8(bytes.to_vec()).unwrap()
}

#[test]
fn parses_ping_request() {
    let input = b"GET /ping HTTP/1.1\r\nHost: x\r\n\r\n";
    let (r, n) = done(input);
    assert_eq!(n, input.len());
    assert_eq!(r.method, b"GET".to_vec());
    assert_eq!(r.target, b"/ping".to_vec());
    assert_eq!(r.version, b"HTTP/1.1".to_vec());
    assert_eq!(r.headers.len(), 1);
    assert_eq!(r.headers[0].name, b"Host".to_vec());
    assert_eq!(r.headers[0].value, b"x".to_vec());
    assert_eq!(r.body_kind, BodyKind::Absent);
    assert!(r.body.is_empty());
}

#[test]
fn fixed_body_gets_content_length() {
    let out = text(&serialize(&ok_response(b"ok"), b"Fri, 13 Feb 2009 23:31:30 GMT"));
    assert!(out.contains("Content-Length: 2\r\n"));
    assert!(out.ends_with("\r\n\r\nok"));
    assert_eq!(out.matches("Content-Length").count(), 1);
    assert!(!out.contains("Transfer-Encoding"));
}

#[test]
fn request_split_over_two_reads() {
    let mut c = Connection::new(false, limits());
    let first = c.receive(b"GET / HTTP/1.1\r\n", b"d");
    assert_eq!(first.len(), 0);
    let second = c.receive(b"\r\n", b"d");
    assert_eq!(second.len(), 1);
    assert_eq!(second[0].0, 0);
    assert_eq!(second[0].1.target, b"/".to_vec());
    let third = c.receive(b"", b"d");
    assert_eq!(third.len(), 0);
}

#[test]
fn failed_handshake_parses_nothing() {
    let mut c = Connection::new(true, limits());
    assert_eq!(c.phase_now(), Phase::Handshake);
    assert_eq!(c.receive(b"GET / HTTP/1.1\r\n\r\n", b"d").len(), 0);
    c.handshake_finished(false);
    assert_eq!(c.phase_now(), Phase::Closed);
    assert_eq!(c.receive(b"GET / HTTP/1.1\r\n\r\n", b"d").len(), 0);
}

#[test]
fn handshake_then_requests() {
    let mut c = Connection::new(true, limits());
    c.handshake_finished(true);
    assert_eq!(c.phase_now(), Phase::Open);
    assert_eq!(c.receive(b"GET / HTTP/1.1\r\n\r\n", b"d").len(), 1);
}

#[test]
fn responses_leave_in_request_order() {
    let mut c = Connection::new(false, limits());
    let reqs = c.receive(
        b"GET /a HTTP/1.1\r\n\r\nGET /b HTTP/1.1\r\n\r\nGET /c HTTP/1.1\r\n\r\n",
        b"d",
    );
    assert_eq!(reqs.len(), 3);
    let ids: Vec<usize> = reqs.iter().map(|p| p.0).collect();
    assert_eq!(ids, vec![0, 1, 2]);
    let date = b"D";
    let out_c = c.respond(2, &ok_response(b"C"), date);
    assert!(out_c.is_empty());
    let out_a = c.respond(0, &ok_response(b"A"), date);
    let a = serialize(&ok_response(b"A"), date);
    assert_eq!(out_a, a);
    let out_b = c.respond(1, &ok_response(b"B"), date);
    let mut bc = serialize(&ok_response(b"B"), date);
    bc.extend(serialize(&ok_response(b"C"), date));
    assert_eq!(out_b, bc);
}

#[test]
fn oversized_head_fails() {
    let small = Limits { max_head_bytes: 32, max_headers: 4 };
    let mut input = b"GET / HTTP/1.1\r\nX-Long: ".to_vec();
    input.extend(std::iter::repeat(b'a').take(40));
    match parse(&input, small) {
        Parsed::Failed(e) => assert_eq!(e, ParseError::HeadersTooLarge),
        _ => panic!("expected HeadersTooLarge"),
    }
    let mut c = Connection::new(false, small);
    assert_eq!(c.receive(&input, b"D").len(), 0);
    assert_eq!(c.phase_now(), Phase::Closing);
    let out = text(&c.flush());
    assert!(out.starts_with("HTTP/1.1 431 "));
    assert_eq!(c.phase_now(), Phase::Closed);
}

#[test]
fn too_many_headers_fail() {
    let small = Limits { max_head_bytes: 1024, max_headers: 1 };
    match parse(b"GET / HTTP/1.1\r\nA: 1\r\nB: 2\r\n\r\n", small) {
        Parsed::Failed(e) => assert_eq!(e, ParseError::HeadersTooLarge),
        _ => panic!("expected HeadersTooLarge"),
    }
}

#[test]
fn date_is_cached_within_a_second() {
    let mut cache = DateCache::new(1234567890);
    let a = cache.at(1234567890);
    let b = cache.at(1234567890);
    assert_eq!(a, b);
    assert_eq!(text(&a), "Fri, 13 Feb 2009 23:31:30 GMT");
    let c = cache.at(1234567891);
    assert_eq!(text(&c), "Fri, 13 Feb 2009 23:31:31 GMT");
    assert_ne!(a, c);
}

#[test]
fn date_from_wall_clock_has_http_shape() {
    let mut cache = DateCache::new(0);
    let now = text(&cache.current());
    assert!(now.ends_with(" GMT"));
    assert_eq!(now.len(), 29);
}

#[test]
fn round_trip_in_every_split() {
    let wire = b"POST /submit HTTP/1.1\r\nHost: example\r\nContent-Length: 5\r\n\r\nhello";
    for cut in 0..=wire.len() {
        let mut c = Connection::new(false, limits());
        let mut got = c.receive(&wire[..cut], b"d");
        got.extend(c.receive(&wire[cut..], b"d"));
        assert_eq!(got.len(), 1, "split at {}", cut);
        assert_eq!(got[0].1.body, b"hello".to_vec());
        assert_eq!(got[0].1.body_kind, BodyKind::Fixed(5));
    }
    let mut c = Connection::new(false, limits());
    let mut got = Vec::new();
    for b in wire.iter() {
        got.extend(c.receive(&[*b], b"d"));
    }
    assert_eq!(got.len(), 1);
    assert_eq!(got[0].1.method, b"POST".to_vec());
    assert_eq!(got[0].1.headers.len(), 2);
}

#[test]
fn pipelined_bytes_are_kept() {
    let wire = b"GET /1 HTTP/1.1\r\n\r\nGET /2 HTTP/1.1\r\n\r\nGET /3 HT";
    let (r, n) = done(wire);
    assert_eq!(r.target, b"/1".to_vec());
    let (r2, n2) = done(&wire[n..]);
    assert_eq!(r2.target, b"/2".to_vec());
    assert!(matches!(parse(&wire[n + n2..], limits()), Parsed::Incomplete));
}

#[test]
fn chunked_request_body() {
    let wire = b"POST / HTTP/1.1\r\nTransfer-Encoding: chunked\r\n\r\n4\r\nWiki\r\n5\r\npedia\r\n0\r\n\r\nNEXT";
    let (r, n) = done(wire);
    assert_eq!(r.body_kind, BodyKind::Chunked);
    assert_eq!(r.body, b"Wikipedia".to_vec());
    assert_eq!(n, wire.len() - 4);
}

#[test]
fn chunked_request_with_trailer() {
    let wire = b"POST / HTTP/1.1\r\nTransfer-Encoding: Chunked\r\n\r\na\r\n0123456789\r\n0\r\nX-T: 1\r\n\r\n";
    let (r, n) = done(wire);
    assert_eq!(r.body, b"0123456789".to_vec());
    assert_eq!(n, wire.len());
}

#[test]
fn partial_chunk_is_incomplete() {
    let wire = b"POST / HTTP/1.1\r\nTransfer-Encoding: chunked\r\n\r\n4\r\nWi";
    assert!(matches!(parse(wire, limits()), Parsed::Incomplete));
}

#[test]
fn malformed_chunk() {
    let e = failure(b"POST / HTTP/1.1\r\nTransfer-Encoding: chunked\r\n\r\nzz\r\n");
    assert_eq!(e, ParseError::MalformedChunk);
    let e = failure(b"POST / HTTP/1.1\r\nTransfer-Encoding: chunked\r\n\r\n2\r\nabcd\r\n");
    assert_eq!(e, ParseError::MalformedChunk);
}

#[test]
fn malformed_request_line() {
    assert_eq!(failure(b"GET\r\n\r\n"), ParseError::MalformedRequestLine);
    assert_eq!(failure(b"G@T / HTTP/1.1\r\n\r\n"), ParseError::MalformedRequestLine);
    assert_eq!(failure(b"GET / HTTP/1.1 extra\r\n\r\n"), ParseError::MalformedRequestLine);
}

#[test]
fn malformed_header() {
    assert_eq!(failure(b"GET / HTTP/1.1\r\nNoColon\r\n\r\n"), ParseError::MalformedHeader);
    assert_eq!(failure(b"GET / HTTP/1.1\r\n: v\r\n\r\n"), ParseError::MalformedHeader);
}

#[test]
fn ambiguous_body_length() {
    let e = failure(b"POST / HTTP/1.1\r\nContent-Length: 1\r\ncontent-length: 1\r\n\r\na");
    assert_eq!(e, ParseError::AmbiguousBodyLength);
    let e = failure(b"POST / HTTP/1.1\r\nContent-Length: 1\r\nTransfer-Encoding: chunked\r\n\r\n");
    assert_eq!(e, ParseError::AmbiguousBodyLength);
}

#[test]
fn unreadable_content_length_means_no_body() {
    let (r, _) = done(b"POST / HTTP/1.1\r\nContent-Length: abc\r\n\r\n");
    assert_eq!(r.body_kind, BodyKind::Absent);
}

#[test]
fn header_value_is_trimmed() {
    let (r, _) = done(b"GET / HTTP/1.1\r\nAccept:  \t text/html \t\r\n\r\n");
    assert_eq!(r.headers[0].value, b"text/html".to_vec());
}

#[test]
fn incomplete_start_is_not_an_error() {
    for input in [&b""[..], b"GE", b"GET / HTTP/1.1\r", b"GET / HTTP/1.1\r\nHost: x\r\n"] {
        assert!(matches!(parse(input, limits()), Parsed::Incomplete));
    }
    assert!(matches!(
        parse(b"POST / HTTP/1.1\r\nContent-Length: 3\r\n\r\nab", limits()),
        Parsed::Incomplete
    ));
}

#[test]
fn chunked_response_ends_with_zero_chunk() {
    let resp = Response {
        status: 200,
        reason: b"OK".to_vec(),
        headers: vec![Header { name: b"X-A".to_vec(), value: b"1".to_vec() }],
        body: Body::Chunks(vec![b"hello".to_vec(), Vec::new(), b"0123456789abcdef".to_vec()]),
    };
    let out = text(&serialize(&resp, b"D"));
    assert_eq!(
        out,
        "HTTP/1.1 200 OK\r\nX-A: 1\r\nDate: D\r\nTransfer-Encoding: chunked\r\n\r\n5\r\nhello\r\n10\r\n0123456789abcdef\r\n0\r\n\r\n"
    );
}

#[test]
fn callers_framing_and_date_headers_are_replaced() {
    let resp = Response {
        status: 404,
        reason: b"Not Found".to_vec(),
        headers: vec![
            Header { name: b"date".to_vec(), value: b"old".to_vec() },
            Header { name: b"CONTENT-LENGTH".to_vec(), value: b"99".to_vec() },
            Header { name: b"Server".to_vec(), value: b"s".to_vec() },
        ],
        body: Body::Empty,
    };
    let out = text(&serialize(&resp, b"NOW"));
    assert_eq!(out, "HTTP/1.1 404 Not Found\r\nServer: s\r\nDate: NOW\r\nContent-Length: 0\r\n\r\n");
}

#[test]
fn empty_chunk_adds_nothing() {
    let mut out = Vec::new();
    encode_chunk(&mut out, b"");
    assert!(out.is_empty());
    encode_chunk(&mut out, &[7u8; 26]);
    assert_eq!(&out[..4], b"1a\r\n");
}

#[test]
fn numerals() {
    assert_eq!(parse_numeral(b"1234", 10), Some(1234));
    assert_eq!(parse_numeral(b"ff", 16), Some(255));
    assert_eq!(parse_numeral(b"1F", 16), Some(31));
    assert_eq!(parse_numeral(b"", 10), None);
    assert_eq!(parse_numeral(b"12a", 10), None);
    assert_eq!(parse_numeral(b"99999999999999999999999", 10), None);
}

#[test]
fn malformed_input_gets_400_then_closes() {
    let mut c = Connection::new(false, limits());
    let got = c.receive(b"GET / HTTP/1.1\r\n\r\nBAD LINE\r\n", b"D");
    assert_eq!(got.len(), 1);
    assert_eq!(c.phase_now(), Phase::Closing);
    assert!(c.flush().is_empty());
    let out = text(&c.respond(0, &ok_response(b"x"), b"D"));
    assert!(out.starts_with("HTTP/1.1 200 OK\r\n"));
    assert!(out.contains("HTTP/1.1 400 Bad Request\r\n"));
    assert_eq!(c.phase_now(), Phase::Closed);
}

#[test]
fn handler_result_is_tagged_by_body() {
    assert!(matches!(tag_response(ok_response(b"a")), Message::WithoutBody(_)));
    let streaming = Response {
        status: 200,
        reason: b"OK".to_vec(),
        headers: Vec::new(),
        body: Body::Chunks(Vec::new()),
    };
    assert!(matches!(tag_response(streaming), Message::WithBody(_)));
}

#[test]
fn server_configuration() {
    let s: Server<u8> = Server::default();
    assert_eq!(s.bind_address(), SocketAddress { ip: 0, port: 3000 });
    assert!(s.encryption_context().is_none());
    let addr = SocketAddress { ip: 0x7f000001, port: 8080 };
    let s = Server::new(addr).ssl(7u8);
    assert_eq!(s.bind_address(), addr);
    assert_eq!(s.encryption_context(), Some(&7u8));
    let s = s.addr(SocketAddress { ip: 1, port: 1 });
    assert_eq!(s.into_parts(), (SocketAddress { ip: 1, port: 1 }, Some(7u8)));
    assert_eq!(server_limits().max_head_bytes, 8192);
}

#[test]
fn chunked_round_trip_in_every_split() {
    let wire = b"PUT /x HTTP/1.1\r\nTransfer-Encoding: chunked\r\n\r\n5\r\nhello\r\n0\r\n\r\n";
    for cut in 0..=wire.len() {
        let mut c = Connection::new(false, limits());
        let mut got = c.receive(&wire[..cut], b"d");
        if cut < wire.len() {
            assert_eq!(got.len(), 0, "early request at {}", cut);
        }
        got.extend(c.receive(&wire[cut..], b"d"));
        assert_eq!(got.len(), 1, "split at {}", cut);
        assert_eq!(got[0].1.body, b"hello".to_vec());
        assert_eq!(got[0].1.body_kind, BodyKind::Chunked);
    }
}
