use bytes::BytesMut;
use interceptor_rs::backend_pool::BackendPool;
use interceptor_rs::body::{BodyFraming, FrameStep, ProxyBody, RawResponseBody};
use interceptor_rs::chunked::ChunkState;
use interceptor_rs::duration::Duration;
use interceptor_rs::queue::QueueCounter;

type Pool = BackendPool<u32, u32>;

fn pool() -> Pool {
    BackendPool::new(Duration::from_secs(30), Duration::from_secs(1), 4)
}

fn idle(p: &mut Pool) -> Option<u32> {
    p.checkout("b:80", 0)
}

fn body(buffered: &str, framing: BodyFraming) -> RawResponseBody<u32> {
    RawResponseBody::new(7, BytesMut::from(buffered.as_bytes()), framing, "b:80".to_string())
}

fn text(step: FrameStep) -> String {
    match step {
        FrameStep::Data(b) => String::from_utf8(b.to_vec()).unwrap(),
        FrameStep::End => "<end>".to_string(),
        FrameStep::Read => "<read>".to_string(),
        FrameStep::Fail => "<fail>".to_string(),
    }
}

#[test]
fn body_of_known_length_gives_its_connection_back() {
    let mut p = pool();
    let mut b = body("hel", BodyFraming::ContentLength { remaining: 8 });
    assert_eq!(b.size_hint(), Some(8));
    assert_eq!(text(b.next_frame(&mut p, 0)), "hel");
    assert_eq!(b.size_hint(), Some(5));
    assert_eq!(text(b.next_frame(&mut p, 0)), "<read>");
    assert_eq!(text(b.on_read(b"lo ", &mut p, 0)), "lo ");
    assert!(!b.is_done());
    assert_eq!(text(b.next_frame(&mut p, 0)), "<read>");
    assert_eq!(text(b.on_read(b"you and more", &mut p, 0)), "yo");
    assert!(b.is_done());
    assert_eq!(idle(&mut p), Some(7));
    assert_eq!(text(b.next_frame(&mut p, 0)), "<end>");
    assert_eq!(idle(&mut p), None);
    assert!(b.stream_mut().is_none());
}

#[test]
fn body_that_is_buffered_whole() {
    let mut p = pool();
    let mut b = body("hello and more", BodyFraming::ContentLength { remaining: 5 });
    assert_eq!(text(b.next_frame(&mut p, 0)), "hello");
    assert_eq!(idle(&mut p), Some(7));
    assert_eq!(text(b.next_frame(&mut p, 0)), "<end>");
    // What was read beyond the body stays in the buffer.
    assert!(!b.is_done());
}

#[test]
fn empty_body_gives_its_connection_back() {
    let mut p = pool();
    let mut b = body("", BodyFraming::ContentLength { remaining: 0 });
    assert!(b.is_done());
    assert_eq!(text(b.next_frame(&mut p, 0)), "<end>");
    assert_eq!(idle(&mut p), Some(7));
}

#[test]
fn body_that_ends_with_its_connection() {
    let mut p = pool();
    let mut b = body("a", BodyFraming::ReadUntilClose);
    assert_eq!(b.size_hint(), None);
    assert_eq!(text(b.next_frame(&mut p, 0)), "a");
    assert_eq!(text(b.next_frame(&mut p, 0)), "<read>");
    assert_eq!(text(b.on_read(b"bc", &mut p, 0)), "bc");
    assert!(!b.is_done());
    assert_eq!(text(b.on_read(b"", &mut p, 0)), "<end>");
    assert!(b.is_done());
    assert_eq!(text(b.next_frame(&mut p, 0)), "<end>");
    assert_eq!(idle(&mut p), None);
}

#[test]
fn broken_connections_are_not_reused() {
    let mut p = pool();
    let mut early = body("", BodyFraming::ContentLength { remaining: 3 });
    assert_eq!(text(early.on_read(b"", &mut p, 0)), "<end>");
    assert_eq!(text(early.next_frame(&mut p, 0)), "<end>");
    let mut failed = body("", BodyFraming::ContentLength { remaining: 3 });
    failed.on_error();
    assert_eq!(text(failed.next_frame(&mut p, 0)), "<end>");
    assert_eq!(idle(&mut p), None);
}

#[test]
fn announced_sizes_do_not_depend_on_the_buffer() {
    let largest = BodyFraming::ContentLength { remaining: u64::MAX };
    assert_eq!(body("", largest).size_hint(), Some(u64::MAX));
    assert_eq!(body("x", largest).size_hint(), Some(u64::MAX));
    assert_eq!(body("x", BodyFraming::ReadUntilClose).size_hint(), None);
    assert_eq!(body("x", chunks()).size_hint(), None);
}

fn chunks() -> BodyFraming {
    BodyFraming::Chunked { state: ChunkState::new() }
}

#[test]
fn body_in_chunks_gives_its_connection_back() {
    let mut p = pool();
    let mut b = body("5\r\nhel", chunks());
    assert_eq!(text(b.next_frame(&mut p, 0)), "hel");
    assert_eq!(text(b.next_frame(&mut p, 0)), "<read>");
    assert_eq!(text(b.on_read(b"lo\r", &mut p, 0)), "lo");
    // Nothing of this is data.
    assert_eq!(text(b.on_read(b"\n6;x=y\r\n", &mut p, 0)), "<read>");
    assert_eq!(text(b.next_frame(&mut p, 0)), "<read>");
    assert_eq!(text(b.on_read(b" world\r\n0\r", &mut p, 0)), " world");
    assert!(!b.is_done());
    assert_eq!(idle(&mut p), None);
    assert_eq!(text(b.on_read(b"\nt: 1\r\n\r\nbeyond", &mut p, 0)), "<end>");
    assert!(b.is_done());
    assert_eq!(idle(&mut p), Some(7));
    assert_eq!(text(b.next_frame(&mut p, 0)), "<end>");
    assert_eq!(idle(&mut p), None);
}

#[test]
fn body_in_chunks_that_is_buffered_whole() {
    let mut p = pool();
    let mut b = body("3\r\nabc\r\n2\r\nde\r\n0\r\n\r\nbeyond", chunks());
    assert_eq!(text(b.next_frame(&mut p, 0)), "abcde");
    assert_eq!(idle(&mut p), Some(7));
    assert!(b.is_done());
    assert_eq!(text(b.next_frame(&mut p, 0)), "<end>");
}

#[test]
fn broken_chunks_are_an_error() {
    let mut p = pool();
    let mut b = body("3\r\nabcd", chunks());
    assert_eq!(text(b.next_frame(&mut p, 0)), "abc");
    assert_eq!(text(b.next_frame(&mut p, 0)), "<fail>");
    assert!(b.stream_mut().is_none());
    let mut early = body("3\r\nab", chunks());
    assert_eq!(text(early.next_frame(&mut p, 0)), "ab");
    assert_eq!(text(early.on_read(b"", &mut p, 0)), "<fail>");
    assert_eq!(text(early.next_frame(&mut p, 0)), "<fail>");
    assert_eq!(idle(&mut p), None);
}

#[test]
fn fixed_bodies_come_at_once() {
    let mut p = pool();
    let mut q = QueueCounter::new();
    q.ensure_key("k");
    let guard = q.increase("k", 0);
    let mut b: ProxyBody<u32> = ProxyBody::fixed("Not Found", Some(guard));
    assert!(!b.is_end_stream());
    assert_eq!(b.size_hint(), Some(9));
    assert_eq!(text(b.next_frame(&mut p, 0)), "Not Found");
    assert!(b.is_end_stream());
    assert_eq!(b.size_hint(), Some(0));
    assert_eq!(text(b.next_frame(&mut p, 0)), "<end>");
    q.release(b.take_guard().unwrap());
    assert!(b.take_guard().is_none());
    assert_eq!(q.current(0)[0].1.concurrency, 0);
}

#[test]
fn streamed_bodies_keep_their_count() {
    let mut p = pool();
    let mut q = QueueCounter::new();
    q.ensure_key("k");
    let guard = q.increase("k", 0);
    let mut b =
        ProxyBody::raw_stream(body("hi", BodyFraming::ContentLength { remaining: 2 }), guard);
    assert_eq!(b.size_hint(), Some(2));
    assert_eq!(text(b.next_frame(&mut p, 0)), "hi");
    assert!(b.is_end_stream());
    assert_eq!(q.current(0)[0].1.concurrency, 1);
    q.release(b.take_guard().unwrap());
    assert_eq!(q.current(0)[0].1.concurrency, 0);
}
