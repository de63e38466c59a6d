use std::sync::Arc;

use bytes::BytesMut;
use http::{HeaderMap, HeaderValue};
use interceptor_rs::body::FrameStep;
use interceptor_rs::config::Config;
use interceptor_rs::crd::{
    ColdStartFailoverRef, HTTPScaledObject, HTTPScaledObjectSpec, ObjectMeta, ScaleTargetRef,
    TimeoutSpec,
};
use interceptor_rs::diagnostics::DiagCounters;
use interceptor_rs::duration::Duration;
use interceptor_rs::endpoints::EndpointsCache;
use interceptor_rs::metrics::MetricsCollector;
use interceptor_rs::proxy::{
    backend_answered, backend_probed, endpoints_waited, forward_raw, forward_target,
    handle_proxy_request, probe_timeout, response, suppressed, AppState, ForwardOutcome, Pending,
    ProbeOutcome, Reply, Step,
};
use interceptor_rs::queue::QueueCounter;
use interceptor_rs::routing::RoutingTable;
use interceptor_rs::watch::{on_watch_event, WatchEvent};
use interceptor_rs::wire::read_response_head;

const SEC: u64 = 1_000_000_000;

type State = AppState<u32, u32>;

fn object(failover: bool) -> HTTPScaledObject {
    HTTPScaledObject {
        metadata: ObjectMeta { namespace: Some("ns".to_string()), name: Some("web".to_string()) },
        spec: HTTPScaledObjectSpec {
            hosts: vec!["h".to_string()],
            path_prefixes: vec![],
            headers: vec![],
            scale_target_ref: ScaleTargetRef {
                service: "svc".to_string(),
                port: Some(8080),
                port_name: None,
            },
            cold_start_timeout_failover_ref: if failover {
                Some(ColdStartFailoverRef {
                    service: "spare".to_string(),
                    port: 81,
                    timeout_seconds: 7,
                })
            } else {
                None
            },
            replicas: None,
            scaling_metric: None,
            timeouts: Some(TimeoutSpec {
                condition_wait: None,
                response_header: Some("3s".to_string()),
            }),
        },
    }
}

fn state(failover: bool) -> State {
    let mut table = RoutingTable::new();
    let mut queue = QueueCounter::new();
    let objects = [Arc::new(object(failover))];
    assert!(on_watch_event(WatchEvent::Apply, &mut table, &mut queue, &objects, 0));
    AppState::new(
        Config::from_env(&[]).unwrap(),
        table,
        queue,
        EndpointsCache::new(),
        MetricsCollector::new().unwrap(),
        DiagCounters::default(),
    )
}

fn arrive(s: &mut State, host: &'static str) -> Step<u32> {
    let mut h = HeaderMap::new();
    h.insert("host", HeaderValue::from_static(host));
    handle_proxy_request(
        &s.routing_table,
        &mut s.queue,
        &mut s.metrics,
        &mut s.diag,
        &s.config,
        "GET",
        "/x",
        &h,
        0,
    )
}

fn pending(s: &mut State) -> Pending {
    match arrive(s, "h") {
        Step::Wait { pending, .. } => pending,
        _ => panic!("there is a route"),
    }
}

fn waited(s: &mut State, p: Pending, ready: Result<bool, ()>) -> Step<u32> {
    endpoints_waited(p, ready, &mut s.metrics, &mut s.diag, &s.config, 10 * SEC)
}

fn probed(s: &mut State, p: Pending, n: u32, o: ProbeOutcome, now: u64) -> Step<u32> {
    backend_probed(p, 10 * SEC, n, o, &mut s.metrics, &s.config, now)
}

fn answered(s: &mut State, p: Pending, o: ForwardOutcome<u32>) -> Reply<u32> {
    backend_answered(p, o, &mut s.queue, &mut s.metrics, &mut s.diag)
}

fn backend(head: &str) -> ForwardOutcome<u32> {
    let mut buf = BytesMut::from(head.as_bytes());
    let head = read_response_head(&mut buf).unwrap().unwrap();
    let (status, headers, body) = forward_raw(7u32, head, "svc.ns:8080");
    ForwardOutcome::Response { status, headers, body }
}

fn in_flight(s: &State) -> i64 {
    s.queue.current(0)[0].1.concurrency
}

fn exported(s: &State, line: &str) -> bool {
    let text = String::from_utf8(s.metrics.handle().body).unwrap();
    text.lines().any(|l| l == line)
}

fn is_text(s: &mut State, mut r: Reply<u32>, status: u16, text: &str) -> bool {
    let body = match r.body.next_frame(&mut s.backend_pool, 0) {
        FrameStep::Data(b) => String::from_utf8(b.to_vec()).unwrap(),
        _ => String::new(),
    };
    if let Some(g) = r.body.take_guard() {
        s.queue.release(g);
    }
    r.status == status && body == text && r.headers.is_empty()
}

#[test]
fn requests_without_a_route_are_not_found() {
    let mut s = state(false);
    match arrive(&mut s, "nobody") {
        Step::Reply(r) => assert!(is_text(&mut s, r, 404, "Not Found")),
        _ => panic!("there is no route"),
    }
    assert_eq!((s.diag.requests_total, s.diag.requests_no_route), (1, 1));
    assert_eq!(in_flight(&s), 0);
    assert!(exported(
        &s,
        "keda_http_request_count{code=\"404\",host=\"nobody\",method=\"GET\",path=\"/x\"} 1"
    ));
}

#[test]
fn routed_requests_are_counted_and_wait() {
    let mut s = state(true);
    match arrive(&mut s, "h") {
        Step::Wait { pending, timeout } => {
            assert_eq!(timeout, Duration::from_secs(7));
            assert_eq!(pending.route.service_key, "ns/svc");
            assert_eq!(pending.route.authority, "svc.ns:8080");
            assert_eq!(pending.authority, "svc.ns:8080");
            assert!(!pending.cold_start);
        }
        _ => panic!("there is a route"),
    }
    assert_eq!(in_flight(&s), 1);
    let mut plain = state(false);
    match arrive(&mut plain, "h") {
        Step::Wait { timeout, .. } => assert_eq!(timeout, Duration::from_secs(20)),
        _ => panic!("there is a route"),
    }
}

#[test]
fn warm_backends_are_forwarded_to_at_once() {
    let mut s = state(false);
    let p = pending(&mut s);
    match waited(&mut s, p, Ok(false)) {
        Step::Forward { pending, timeout } => {
            assert_eq!(timeout, Duration::from_secs(3));
            assert!(!pending.cold_start);
            let r = answered(&mut s, pending, backend("HTTP/1.1 204 x\r\na: b\r\n\r\n"));
            assert_eq!(r.status, 204);
            assert_eq!(r.headers.len(), 1);
            assert!(r.headers.get("x-keda-http-cold-start").is_none());
        }
        _ => panic!("the backend is warm"),
    }
    assert_eq!(s.diag.requests_cold_start, 0);
    assert_eq!(in_flight(&s), 1);
    assert!(exported(
        &s,
        "keda_http_request_count{code=\"204\",host=\"h\",method=\"GET\",path=\"/x\"} 1"
    ));
}

#[test]
fn cold_backends_are_probed_and_marked() {
    let mut s = state(false);
    let p = pending(&mut s);
    let p = match waited(&mut s, p, Ok(true)) {
        Step::Probe { pending, started, attempt, delay } => {
            assert_eq!((started, attempt), (10 * SEC, 0));
            assert_eq!(delay, Duration::from_secs(0));
            assert_eq!(pending.target_url, "http://svc.ns:8080");
            assert_eq!(pending.authority, "svc.ns:8080");
            pending
        }
        _ => panic!("it is a cold start"),
    };
    assert_eq!(s.diag.requests_cold_start, 1);
    match probed(&mut s, p, 0, ProbeOutcome::Connected, 11 * SEC) {
        Step::Forward { pending, .. } => {
            let reply = "HTTP/1.1 200 x\r\nx-keda-http-cold-start: no\r\na: b\r\n\r\n";
            let r = answered(&mut s, pending, backend(reply));
            let all: Vec<_> = r.headers.get_all("x-keda-http-cold-start").iter().collect();
            assert_eq!(all, ["true"]);
            assert_eq!(r.headers.get("a").unwrap(), "b");
        }
        _ => panic!("the backend is reachable"),
    }
    assert_eq!(probe_timeout(), Duration::from_secs(1));
}

#[test]
fn probes_pause_longer_and_longer() {
    let mut s = state(false);
    let mut p = pending(&mut s);
    for (n, millis) in [(0, 200), (1, 400), (2, 800), (3, 1600), (4, 1600), (u32::MAX, 1600)] {
        match probed(&mut s, p, n, ProbeOutcome::Refused, 15 * SEC - 1) {
            Step::Probe { pending, started, attempt, delay } => {
                assert_eq!(started, 10 * SEC);
                assert_eq!(attempt, n.saturating_add(1));
                assert_eq!(delay, Duration::from_millis(millis));
                p = pending;
            }
            _ => panic!("there is time left"),
        }
    }
    match probed(&mut s, p, 5, ProbeOutcome::TimedOut, 15 * SEC - 1) {
        Step::Probe { pending, attempt, delay, .. } => {
            assert_eq!((attempt, delay), (6, Duration::from_secs(0)));
            p = pending;
        }
        _ => panic!("there is time left"),
    }
    match probed(&mut s, p, 6, ProbeOutcome::TimedOut, 15 * SEC) {
        Step::Reply(r) => assert!(is_text(&mut s, r, 502, "Bad Gateway")),
        _ => panic!("the time is up"),
    }
    let p = pending(&mut s);
    match probed(&mut s, p, 6, ProbeOutcome::Refused, 15 * SEC) {
        Step::Reply(r) => assert!(is_text(&mut s, r, 502, "Bad Gateway")),
        _ => panic!("the time is up"),
    }
    assert_eq!(in_flight(&s), 0);
}

#[test]
fn without_endpoints_requests_fail_or_fail_over() {
    let mut s = state(false);
    let p = pending(&mut s);
    match waited(&mut s, p, Err(())) {
        Step::Reply(r) => {
            assert_eq!(in_flight(&s), 1);
            assert!(is_text(&mut s, r, 502, "Bad Gateway"));
        }
        _ => panic!("there is no failover"),
    }
    assert_eq!(in_flight(&s), 0);
    assert_eq!(s.diag.requests_cold_start, 0);
    let mut s = state(true);
    let p = pending(&mut s);
    let p = match waited(&mut s, p, Err(())) {
        Step::Probe { pending, .. } => {
            assert!(pending.cold_start);
            assert_eq!(pending.target_url, "http://spare.ns:81");
            assert_eq!(pending.authority, "spare.ns:81");
            pending
        }
        _ => panic!("there is a failover"),
    };
    match probed(&mut s, p, 0, ProbeOutcome::Connected, 11 * SEC) {
        Step::Forward { pending, .. } => assert_eq!(pending.authority, "spare.ns:81"),
        _ => panic!("the failover is reachable"),
    }
    assert_eq!(s.diag.requests_cold_start, 1);
}

#[test]
fn chunks_are_handed_on_as_data() {
    let mut s = state(false);
    let p = pending(&mut s);
    let head = "HTTP/1.1 200 OK\r\nTransfer-Encoding: chunked\r\n\r\n2\r\nhi\r\n0\r\n\r\n";
    let mut r = answered(&mut s, p, backend(head));
    match r.body.next_frame(&mut s.backend_pool, 0) {
        FrameStep::Data(b) => assert_eq!(&b[..], b"hi"),
        _ => panic!("there is data"),
    }
    assert!(r.body.is_end_stream());
    assert_eq!(s.backend_pool.checkout("svc.ns:8080", 0), Some(7));
}

#[test]
fn failing_backends_are_bad_gateways() {
    for o in [ForwardOutcome::Failed, ForwardOutcome::TimedOut] {
        let mut s = state(false);
        let p = pending(&mut s);
        let r = answered(&mut s, p, o);
        assert!(is_text(&mut s, r, 502, "Bad Gateway"));
        assert_eq!(s.diag.requests_backend_error, 1);
        assert_eq!(in_flight(&s), 0);
        assert!(exported(
            &s,
            "keda_http_request_count{code=\"502\",host=\"h\",method=\"GET\",path=\"/x\"} 1"
        ));
    }
}

#[test]
fn impossible_statuses_are_server_errors() {
    let mut s = state(false);
    let p = pending(&mut s);
    let r = answered(&mut s, p, backend("HTTP/1.1 099 x\r\n\r\n"));
    assert_eq!(in_flight(&s), 0);
    assert!(is_text(&mut s, r, 500, "Internal Server Error"));
    let p = pending(&mut s);
    let r = answered(&mut s, p, backend("HTTP/1.1 100 x\r\n\r\n"));
    assert_eq!(r.status, 100);
    assert_eq!(in_flight(&s), 1);
}

#[test]
fn forwarded_targets_default_to_the_root() {
    assert_eq!(forward_target(Some("/a?b")), "/a?b");
    assert_eq!(forward_target(None), "/");
}

#[test]
fn short_responses_have_no_headers() {
    let mut s = state(false);
    assert!(is_text(&mut s, response(503, "x", None), 503, "x"));
}

#[test]
fn clients_that_go_away_make_no_noise() {
    assert!(suppressed("error: connection reset by peer"));
    assert!(suppressed("broken pipe"));
    assert!(suppressed("connection closed before message completed"));
    assert!(!suppressed("invalid HTTP method"));
}
