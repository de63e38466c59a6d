use interceptor_rs::admin::{
    flamegraph_reply, flamegraph_seconds, handle, json_reply, AdminAction, ProfileOutcome,
};
use interceptor_rs::diagnostics::{bump, DiagCounters};
use interceptor_rs::metrics::{metrics_reply, MetricsCollector};
use interceptor_rs::reply::PlainReply;

fn parts(r: PlainReply) -> (u16, Option<String>, String) {
    (r.status, r.content_type, String::from_utf8(r.body).unwrap())
}

fn plain(status: u16, text: &str) -> (u16, Option<String>, String) {
    (status, None, text.to_string())
}

fn replied(path: &str, synced: bool) -> (u16, Option<String>, String) {
    match handle(path, None, synced, true) {
        AdminAction::Reply(r) => parts(r),
        _ => panic!("this is answered at once"),
    }
}

#[test]
fn probes_are_well_once_the_table_is_built() {
    for path in ["/livez", "/readyz"] {
        assert_eq!(replied(path, true), plain(200, "OK"));
        assert_eq!(replied(path, false), plain(503, "Service Unavailable"));
    }
}

#[test]
fn admin_paths_lead_to_actions() {
    assert!(matches!(handle("/queue", None, false, false), AdminAction::Queue));
    assert!(matches!(handle("/debug/stats", None, false, false), AdminAction::Stats));
    assert_eq!(replied("/queue/", true), plain(404, "Not Found"));
    let flame = "/debug/pprof/flamegraph";
    match handle(flame, Some("seconds=10"), true, true) {
        AdminAction::Flamegraph { seconds } => assert_eq!(seconds, 10),
        _ => panic!("profiling is built in"),
    }
    match handle(flame, None, true, false) {
        AdminAction::Reply(r) => assert_eq!(parts(r), plain(404, "Not Found")),
        _ => panic!("profiling is not built in"),
    }
}

#[test]
fn profiles_take_as_long_as_asked() {
    assert_eq!(flamegraph_seconds(None), 5);
    assert_eq!(flamegraph_seconds(Some("")), 5);
    assert_eq!(flamegraph_seconds(Some("a=b&seconds=7&seconds=9")), 7);
    assert_eq!(flamegraph_seconds(Some("seconds=x&seconds=9")), 5);
    assert_eq!(flamegraph_seconds(Some("xseconds=9")), 5);
    assert_eq!(flamegraph_seconds(Some("seconds=121")), 120);
    assert_eq!(flamegraph_seconds(Some("seconds=0")), 0);
}

#[test]
fn documents_are_sent_with_their_type() {
    assert_eq!(
        parts(json_reply(Some(b"{}".to_vec()))),
        (200, Some("application/json".to_string()), "{}".to_string())
    );
    assert_eq!(parts(json_reply(None)), plain(500, "Internal Server Error"));
    assert_eq!(
        parts(flamegraph_reply(ProfileOutcome::Svg(b"<svg/>".to_vec()))),
        (200, Some("image/svg+xml".to_string()), "<svg/>".to_string())
    );
    assert_eq!(parts(flamegraph_reply(ProfileOutcome::Failed)), plain(500, "profiling error"));
    assert_eq!(
        parts(flamegraph_reply(ProfileOutcome::Panicked)),
        plain(500, "profiling task panicked")
    );
    assert_eq!(
        parts(metrics_reply(Err("why".to_string()))),
        plain(500, "metrics encoding error")
    );
}

#[test]
fn metrics_are_exported() {
    let mut m = MetricsCollector::new().unwrap();
    m.record_request("GET", "/a", 200, "h");
    m.record_request("GET", "/a", 200, "h");
    m.record_request("GET", "/a", 404, "h");
    m.record_pending("h", 3);
    m.record_pending("h", -2);
    let (status, kind, text) = parts(m.handle());
    assert_eq!((status, kind.as_deref()), (200, Some("text/plain; version=0.0.4")));
    let lines: Vec<&str> = text.lines().collect();
    for line in [
        "# HELP keda_http_request_count Total completed HTTP requests",
        "# TYPE keda_http_request_count counter",
        "keda_http_request_count{code=\"200\",host=\"h\",method=\"GET\",path=\"/a\"} 2",
        "keda_http_request_count{code=\"404\",host=\"h\",method=\"GET\",path=\"/a\"} 1",
        "# HELP keda_http_pending_request_count Current in-flight HTTP requests",
        "keda_http_pending_request_count{host=\"h\"} -2",
    ] {
        assert!(lines.contains(&line), "{line}\n{text}");
    }
}

#[test]
fn metrics_without_values_are_not_exported() {
    let mut m = MetricsCollector::new().unwrap();
    assert_eq!(parts(m.handle()).2, "");
    m.record_pending("h", 1);
    assert_eq!(
        parts(m.handle()).2,
        "# HELP keda_http_pending_request_count Current in-flight HTTP requests\n\
# TYPE keda_http_pending_request_count gauge\n\
keda_http_pending_request_count{host=\"h\"} 1\n"
    );
}

#[test]
fn label_values_with_the_same_text_share_a_series() {
    let mut m = MetricsCollector::new().unwrap();
    m.record_request("GET", "/a", 200, "1.h");
    m.record_request("GET", "/a2", 100, "1.h");
    m.record_request("GET", "/a", 210, "01.h");
    let text = parts(m.handle()).2;
    let counts: Vec<&str> =
        text.lines().filter(|l| l.starts_with("keda_http_request_count{")).collect();
    // "GET/a2001.h", "GET/a21001.h" twice.
    assert_eq!(counts.len(), 2, "{text}");
    // The series keeps the label values that it came up with.
    let first = "keda_http_request_count{code=\"100\",host=\"1.h\",method=\"GET\",path=\"/a2\"} 2";
    assert!(counts.contains(&first), "{text}");
}

#[test]
fn only_requests_with_a_connection_count_for_reuse() {
    let pct = |c: &DiagCounters| f64::from_bits(c.snapshot().connection_reuse_pct.to_bits());
    let mut c = DiagCounters::default();
    c.requests_total = 10;
    c.requests_no_route = 10;
    assert_eq!(pct(&c), 0.0);
    let mut c = DiagCounters::default();
    c.requests_total = 10;
    c.connections_established = 2;
    assert_eq!(pct(&c), 80.0);
    c.requests_no_route = 6;
    assert_eq!(pct(&c), 50.0);
    let mut c = DiagCounters::default();
    for _ in 0..4 {
        c.count_arrival(false);
        c.count_arrival(true);
    }
    assert_eq!((c.requests_total, c.requests_no_route), (8, 4));
    assert_eq!(pct(&c), 0.0);
    c.count_attempt(false);
    assert_eq!(pct(&c), 0.0);
    c.count_attempt(true);
    assert_eq!(pct(&c), 0.0);
    c.count_reused();
    c.count_reused();
    c.count_reused();
    assert_eq!(pct(&c), 75.0);
}

#[test]
fn reuse_is_a_percentage() {
    let some = [0, 1, 2, 3, 7, 10, 99, 1 << 53, (1 << 53) + 1, u64::MAX - 1, u64::MAX];
    for requests in some {
        for connections in some {
            let mut c = DiagCounters::default();
            c.requests_total = requests;
            c.connections_established = connections;
            let pct = f64::from_bits(c.snapshot().connection_reuse_pct.to_bits());
            assert!((0.0..=100.0).contains(&pct), "{requests} {connections} {pct}");
        }
    }
}

#[test]
fn diagnosis_tells_how_many_connections_are_reused() {
    let mut c = DiagCounters::default();
    let pct = |c: &DiagCounters| f64::from_bits(c.snapshot().connection_reuse_pct.to_bits());
    assert_eq!(pct(&c), 0.0);
    c.requests_total = 3;
    c.connections_established = 1;
    assert_eq!(pct(&c), 100.0 * (1.0 - 1.0 / 3.0));
    c.connections_established = 7;
    assert_eq!(pct(&c), 0.0);
    c.connections_established = 3;
    assert_eq!(pct(&c).to_bits(), 0.0f64.to_bits());
    c.connections_established = 0;
    assert_eq!(pct(&c), 100.0);
    c.connections_established = 7;
    c.requests_cold_start = 4;
    c.dns_cache_hits = 5;
    c.dns_cache_misses = 6;
    c.requests_no_route = 8;
    c.requests_backend_error = 9;
    let s = c.snapshot();
    assert_eq!((s.requests_total, s.requests_cold_start, s.connections_established), (3, 4, 7));
    assert_eq!((s.dns_cache_hits, s.dns_cache_misses), (5, 6));
    assert_eq!((s.requests_no_route, s.requests_backend_error), (8, 9));
    assert_eq!((bump(1), bump(u64::MAX)), (2, 0));
}
