use bytes::BytesMut;
use http::{HeaderMap, HeaderName, HeaderValue};
use interceptor_rs::body::BodyFraming;
use interceptor_rs::chunked::ChunkState;
use interceptor_rs::forward::{read_head, HeadStep, SendEvent, SendStep, Sender};
use interceptor_rs::wire::{
    body_framing, collect_fields, read_response_head, request_head, take_head, HeadError,
    ParsedHead, ResponseHead,
};

fn headers(list: &[(&str, &[u8])]) -> HeaderMap<HeaderValue> {
    let mut h = HeaderMap::new();
    for (n, v) in list {
        h.append(
            HeaderName::from_bytes(n.as_bytes()).unwrap(),
            HeaderValue::from_bytes(v).unwrap(),
        );
    }
    h
}

fn read(bytes: &str) -> (Result<Option<ResponseHead>, HeadError>, BytesMut) {
    let mut buf = BytesMut::from(bytes.as_bytes());
    let r = read_response_head(&mut buf);
    (r, buf)
}

#[test]
fn request_head_is_written_for_the_backend() {
    let h = headers(&[
        ("Host", b"www.example.com:81"),
        ("Accept", b"*/*"),
        ("X-Forwarded-For", b"1.2.3.4"),
        ("x-forwarded-host", b"evil"),
        ("X-Forwarded-Proto", b"https"),
        ("Transfer-Encoding", b"chunked"),
        ("X-Raw", b"\xff"),
        ("Accept", b"text/html"),
    ]);
    let head = request_head("GET", "/a?b=c", "svc.ns:80", &h, "10.0.0.9");
    let mut expected = b"GET /a?b=c HTTP/1.1\r\nhost: svc.ns:80\r\naccept: */*\r\n\
accept: text/html\r\nx-raw: "
        .to_vec();
    expected.push(0xff);
    expected.extend_from_slice(
        b"\r\nx-forwarded-for: 10.0.0.9\r\nx-forwarded-host: www.example.com:81\r\n\
x-forwarded-proto: http\r\n\r\n",
    );
    assert_eq!(head, expected);
}

#[test]
fn fields_of_one_connection_are_not_forwarded() {
    let h = headers(&[
        ("Connection", b"keep-alive"),
        ("Proxy-Connection", b"keep-alive"),
        ("Keep-Alive", b"timeout=5"),
        ("Proxy-Authenticate", b"Basic"),
        ("Proxy-Authorization", b"Basic eHg="),
        ("TE", b"trailers"),
        ("Trailer", b"x-b"),
        ("Upgrade", b"websocket"),
        ("X-A", b"1"),
    ]);
    let head = request_head("GET", "/", "b:80", &h, "::1");
    assert_eq!(
        String::from_utf8(head).unwrap(),
        "GET / HTTP/1.1\r\nhost: b:80\r\nx-a: 1\r\nx-forwarded-for: ::1\r\n\
x-forwarded-host: \r\nx-forwarded-proto: http\r\n\r\n"
    );
}

#[test]
fn forwarded_host_is_empty_where_it_cannot_be_shown() {
    let none = request_head("GET", "/", "b:80", &headers(&[]), "::1");
    assert!(String::from_utf8(none).unwrap().contains("x-forwarded-host: \r\n"));
    let raw = request_head("GET", "/", "b:80", &headers(&[("host", b"\xe9")]), "::1");
    assert!(String::from_utf8(raw).unwrap().contains("x-forwarded-host: \r\n"));
}

#[test]
fn response_head_is_taken_when_it_is_complete() {
    let (r, buf) = read("HTTP/1.1 200 OK\r\nContent-Length: 5\r\n");
    assert!(matches!(r, Ok(None)));
    assert_eq!(&buf[..], b"HTTP/1.1 200 OK\r\nContent-Length: 5\r\n");
    let (r, buf) =
        read("HTTP/1.1 201 Created\r\nContent-Length: 5\r\nSet-Cookie: a\r\nX: \r\nSet-Cookie: b\r\n\r\nhello");
    let head = r.unwrap().unwrap();
    assert_eq!(head.status, 201);
    assert_eq!(&head.rest[..], b"hello");
    assert!(buf.is_empty());
    let got: Vec<(&str, &[u8])> =
        head.headers.iter().map(|(n, v)| (n.as_str(), v.as_bytes())).collect();
    assert_eq!(
        got,
        [
            ("content-length", &b"5"[..]),
            ("set-cookie", &b"a"[..]),
            ("set-cookie", &b"b"[..]),
            ("x", &b""[..]),
        ]
    );
}

#[test]
fn invalid_responses_are_errors() {
    let (r, _) = read("nonsense\r\n\r\n");
    match r {
        Err(e) => {
            assert_eq!(e.message(), "invalid HTTP response from backend: invalid HTTP version")
        }
        Ok(_) => panic!("this is no response"),
    }
    let mut many = "HTTP/1.1 200 OK\r\n".to_string();
    for i in 0..64 {
        many.push_str(&format!("x-{i}: y\r\n"));
    }
    assert!(matches!(read(&format!("{many}\r\n")).0, Ok(Some(_))));
    many.push_str("one: too-many\r\n\r\n");
    assert!(matches!(read(&many).0, Err(HeadError::Invalid(_))));
    assert_eq!(
        HeadError::Closed.message(),
        "backend closed connection before sending response headers"
    );
}

#[test]
fn parsed_heads_lead_to_responses() {
    let mut buf = BytesMut::from(&b"HEADbody"[..]);
    let parsed = ParsedHead {
        len: 4,
        code: None,
        fields: vec![
            ("X-A".to_string(), b"1".to_vec()),
            ("not a name".to_string(), b"2".to_vec()),
            ("x-b".to_string(), b"a\nb".to_vec()),
            ("x-a".to_string(), b"\t\x80".to_vec()),
        ],
    };
    let head = take_head(&mut buf, Ok(Some(parsed))).unwrap().unwrap();
    assert_eq!(head.status, 502);
    assert_eq!(&head.rest[..], b"body");
    assert!(buf.is_empty());
    let values: Vec<&[u8]> = head.headers.get_all("x-a").iter().map(|v| v.as_bytes()).collect();
    assert_eq!(values, [&b"1"[..], &b"\t\x80"[..]]);
    assert_eq!(head.headers.len(), 2);

    let mut buf = BytesMut::from(&b"HEA"[..]);
    assert!(matches!(take_head(&mut buf, Ok(None)), Ok(None)));
    let e = take_head(&mut buf, Err("why".to_string())).err().unwrap();
    assert_eq!(e.message(), "invalid HTTP response from backend: why");
    assert_eq!(&buf[..], b"HEA");
    assert!(collect_fields(&vec![]).is_empty());
}

#[test]
fn body_ends_where_the_content_length_says() {
    let framing = |list: &[(&str, &[u8])]| body_framing(&headers(list));
    assert_eq!(
        framing(&[("content-length", b"12")]),
        BodyFraming::ContentLength { remaining: 12 }
    );
    assert_eq!(
        framing(&[("content-length", b"18446744073709551615")]),
        BodyFraming::ContentLength { remaining: u64::MAX }
    );
    for bad in [&b"-1"[..], b"", b"1 2", b"18446744073709551616", b"\xff"] {
        assert_eq!(framing(&[("content-length", bad)]), BodyFraming::ReadUntilClose);
    }
    assert_eq!(
        framing(&[("content-length", b"x"), ("content-length", b"1")]),
        BodyFraming::ReadUntilClose
    );
    assert_eq!(framing(&[]), BodyFraming::ReadUntilClose);
}

#[test]
fn body_in_chunks_ends_with_the_last_of_them() {
    let framing = |list: &[(&str, &[u8])]| body_framing(&headers(list));
    let chunks = BodyFraming::Chunked { state: ChunkState::new() };
    for value in [&b"chunked"[..], b"Chunked", b"gzip, chunked", b"gzip,\tCHUNKED "] {
        assert_eq!(framing(&[("transfer-encoding", value)]), chunks);
    }
    for value in [&b""[..], b"gzip", b"chunked, gzip", b"chunked,", b"chunke", b"chunkedd", b"\xff"] {
        assert_eq!(framing(&[("transfer-encoding", value)]), BodyFraming::ReadUntilClose);
    }
    assert_eq!(framing(&[("transfer-encoding", b"gzip"), ("Transfer-Encoding", b"chunked")]), chunks);
    assert_eq!(
        framing(&[("transfer-encoding", b"chunked"), ("transfer-encoding", b"gzip")]),
        BodyFraming::ReadUntilClose
    );
    assert_eq!(
        framing(&[("transfer-encoding", b"chunked"), ("content-length", b"3")]),
        BodyFraming::ContentLength { remaining: 3 }
    );
}

#[test]
fn head_is_read_piece_by_piece() {
    let mut buf = BytesMut::new();
    assert!(matches!(read_head(&mut buf, None), HeadStep::Read));
    buf.extend_from_slice(b"HTTP/1.1 204 ");
    assert!(matches!(read_head(&mut buf, Some(13)), HeadStep::Read));
    buf.extend_from_slice(b"No Content\r\n\r\n");
    match read_head(&mut buf, Some(14)) {
        HeadStep::Done(head) => assert_eq!(head.status, 204),
        _ => panic!("the head is complete"),
    }
    buf.extend_from_slice(b"HTTP/1.1 2");
    assert!(matches!(read_head(&mut buf, Some(0)), HeadStep::Fail(HeadError::Closed)));
    buf.extend_from_slice(b"\0");
    assert!(matches!(read_head(&mut buf, Some(1)), HeadStep::Fail(HeadError::Invalid(_))));
}

#[test]
fn requests_go_out_head_first() {
    let s = Sender::new(b"HEAD".to_vec(), false);
    let mut out: Vec<u8> = Vec::new();
    let mut write = |step: SendStep| match step {
        SendStep::Write(b) => out.extend_from_slice(&b),
        _ => panic!("there is something to write"),
    };
    write(s.step(SendEvent::Connected));
    assert!(matches!(s.step(SendEvent::Written), SendStep::NextFrame));
    write(s.step(SendEvent::Frame(Some(b"ab".to_vec()))));
    assert!(matches!(s.step(SendEvent::Frame(None)), SendStep::NextFrame));
    write(s.step(SendEvent::Frame(Some(b"c".to_vec()))));
    assert!(matches!(s.step(SendEvent::BodyEnd), SendStep::Flush));
    assert!(matches!(s.step(SendEvent::Flushed), SendStep::ReadHead));
    assert_eq!(out, b"HEADabc");
    match s.step(SendEvent::BodyFailed("gone".to_string())) {
        SendStep::Fail(e) => assert_eq!(e, "error reading request body: gone"),
        _ => panic!("the body failed"),
    }
    let empty = Sender::new(b"HEAD".to_vec(), true);
    assert!(matches!(empty.step(SendEvent::Written), SendStep::Flush));
}
