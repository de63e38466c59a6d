use interceptor_rs::backend_pool::{parse_authority, BackendPool, ConnectStep};
use interceptor_rs::diagnostics::DiagCounters;
use interceptor_rs::duration::Duration;

const SEC: u64 = 1_000_000_000;

fn pool(max: usize) -> BackendPool<&'static str, u32> {
    BackendPool::new(Duration::from_secs(30), Duration::from_millis(500), max)
}

#[test]
fn test_parse_authority() {
    assert_eq!(parse_authority("example.com:8080"), ("example.com", 8080));
    assert_eq!(parse_authority("example.com"), ("example.com", 80));
    assert_eq!(parse_authority("svc.ns:80"), ("svc.ns", 80));
    assert_eq!(parse_authority("[::1]:8080"), ("[::1]", 8080));
}

#[test]
fn authorities_without_a_readable_port() {
    assert_eq!(parse_authority(""), ("", 80));
    assert_eq!(parse_authority("svc.ns:70000"), ("svc.ns", 80));
    assert_eq!(parse_authority("svc.ns:-1"), ("svc.ns", 80));
    assert_eq!(parse_authority("svc.ns:"), ("svc.ns", 80));
    assert_eq!(parse_authority("a:b:99"), ("a:b", 99));
    assert_eq!(parse_authority("[::1]"), ("[::1]", 80));
    assert_eq!(parse_authority("[::1]8080"), ("[::1]", 80));
    assert_eq!(parse_authority("[::1]:x"), ("[::1]", 80));
    assert_eq!(parse_authority("h\u{e9}:81"), ("h\u{e9}", 81));
}

#[test]
fn connections_are_reused_latest_first() {
    let mut p = pool(2);
    assert_eq!(p.checkout("a:80", 0), None);
    p.checkin("a:80", "one", SEC);
    p.checkin("a:80", "two", 2 * SEC);
    p.checkin("a:80", "three", 3 * SEC);
    p.checkin("b:80", "other", 3 * SEC);
    assert_eq!(p.checkout("a:80", 4 * SEC), Some("two"));
    assert_eq!(p.checkout("a:80", 4 * SEC), Some("one"));
    assert_eq!(p.checkout("a:80", 4 * SEC), None);
    assert_eq!(p.checkout("b:80", 4 * SEC), Some("other"));
}

#[test]
fn stale_connections_are_dropped() {
    let mut p = pool(5);
    p.checkin("a:80", "old", 0);
    p.checkin("a:80", "older than it looks", 10 * SEC);
    p.checkin("a:80", "young", 20 * SEC);
    p.checkin("a:80", "old again", 5 * SEC);
    assert_eq!(p.checkout("a:80", 109 * SEC), Some("young"));
    assert_eq!(p.checkout("a:80", 109 * SEC), None);
    p.checkin("a:80", "edge", 0);
    assert_eq!(p.checkout("a:80", 90 * SEC), None);
    p.checkin("a:80", "edge", 0);
    assert_eq!(p.checkout("a:80", 90 * SEC - 1), Some("edge"));
}

#[test]
fn nothing_is_kept_where_nothing_may_be() {
    let mut p = pool(0);
    p.checkin("a:80", "one", 0);
    assert_eq!(p.checkout("a:80", 0), None);
}

#[test]
fn only_connections_that_were_made_are_counted() {
    let p = pool(1);
    let mut c = DiagCounters::default();
    c.count_arrival(true);
    c.count_arrival(true);
    c.count_arrival(true);
    assert_eq!(p.connected::<&str>(Err("refused"), &mut c), Err("refused"));
    assert_eq!(c.connections_established, 0);
    assert_eq!(p.connected::<&str>(Ok("one"), &mut c), Ok("one"));
    assert_eq!(c.connections_established, 1);
    c.count_reused();
    assert_eq!(c.connections_established, 1);
    assert_eq!(c.requests_total, 3);
    // One of the two requests that got a connection reused it.
    assert_eq!(f64::from_bits(c.snapshot().connection_reuse_pct.to_bits()), 50.0);
}

#[test]
fn names_are_resolved_once_per_time_to_live() {
    let mut p = pool(1);
    let mut c = DiagCounters::default();
    match p.connect("svc.ns:8080", 0, &mut c) {
        ConnectStep::Lookup { host, port } => assert_eq!((host.as_str(), port), ("svc.ns", 8080)),
        _ => panic!("the name is not known yet"),
    }
    match p.looked_up("svc.ns", 8080, vec![1, 2], SEC) {
        ConnectStep::Connect { addrs, timeout } => {
            assert_eq!(addrs, [1, 2]);
            assert_eq!(timeout, Duration::from_millis(500));
        }
        _ => panic!("there are addresses"),
    }
    match p.connect("svc.ns:8080", 31 * SEC - 1, &mut c) {
        ConnectStep::Connect { addrs, .. } => assert_eq!(addrs, [1, 2]),
        _ => panic!("the name is known"),
    }
    assert!(matches!(p.connect("svc.ns:8080", 31 * SEC, &mut c), ConnectStep::Lookup { .. }));
    assert!(matches!(p.connect("svc.ns:8081", SEC, &mut c), ConnectStep::Lookup { .. }));
    assert_eq!((c.dns_cache_hits, c.dns_cache_misses), (1, 3));
}

#[test]
fn names_without_addresses_are_not_kept() {
    let mut p = pool(1);
    let mut c = DiagCounters::default();
    assert!(matches!(p.looked_up("svc.ns", 80, vec![], 0), ConnectStep::NoAddresses));
    assert_eq!(p.resolve("svc.ns", 80, 0, &mut c), None);
}
