use std::sync::Arc;

use http::{HeaderMap, HeaderName, HeaderValue};
use interceptor_rs::crd::{
    ColdStartFailoverRef, HTTPScaledObject, HTTPScaledObjectSpec, HeaderMatch, ObjectMeta,
    ScaleTargetRef, TimeoutSpec,
};
use interceptor_rs::duration::Duration;
use interceptor_rs::routing::{normalize_path, strip_port, timeouts_usable, RoutingTable};

fn object(name: &str, hosts: &[&str], prefixes: &[&str]) -> HTTPScaledObject {
    HTTPScaledObject {
        metadata: ObjectMeta {
            namespace: Some("ns".to_string()),
            name: Some(name.to_string()),
        },
        spec: HTTPScaledObjectSpec {
            hosts: hosts.iter().map(|s| s.to_string()).collect(),
            path_prefixes: prefixes.iter().map(|s| s.to_string()).collect(),
            headers: vec![],
            scale_target_ref: ScaleTargetRef {
                service: format!("{name}-svc"),
                port: Some(8080),
                port_name: None,
            },
            cold_start_timeout_failover_ref: None,
            replicas: None,
            scaling_metric: None,
            timeouts: None,
        },
    }
}

fn with_headers(mut o: HTTPScaledObject, headers: &[(&str, Option<&str>)]) -> HTTPScaledObject {
    o.spec.headers = headers
        .iter()
        .map(|(n, v)| HeaderMatch { name: n.to_string(), value: v.map(|v| v.to_string()) })
        .collect();
    o
}

fn table(objects: Vec<HTTPScaledObject>) -> RoutingTable {
    let objects: Vec<Arc<HTTPScaledObject>> = objects.into_iter().map(Arc::new).collect();
    assert!(timeouts_usable(&objects));
    let mut t = RoutingTable::new();
    t.rebuild(&objects);
    t
}

fn headers(list: &[(&str, &str)]) -> HeaderMap<HeaderValue> {
    let mut h = HeaderMap::new();
    for (n, v) in list {
        h.append(
            HeaderName::from_bytes(n.as_bytes()).unwrap(),
            HeaderValue::from_bytes(v.as_bytes()).unwrap(),
        );
    }
    h
}

fn key(t: &RoutingTable, host: &str, path: &str, list: &[(&str, &str)]) -> Option<(String, String)> {
    t.route(host, path, &headers(list)).map(|r| (r.queue_key, r.host))
}

fn hit(name: &str, host: &str) -> Option<(String, String)> {
    Some((format!("ns/{name}"), host.to_string()))
}

#[test]
fn strip_port_works() {
    assert_eq!(strip_port("example.com:8080"), "example.com");
    assert_eq!(strip_port("example.com"), "example.com");
    assert_eq!(strip_port("[::1]:8080"), "[::1]:8080");
}

#[test]
fn normalize_path_works() {
    assert_eq!(normalize_path(""), "/");
    assert_eq!(normalize_path("api"), "/api");
    assert_eq!(normalize_path("/api"), "/api");
}

#[test]
fn table_syncs_when_it_is_built() {
    let mut t = RoutingTable::new();
    assert!(!t.has_synced());
    assert!(key(&t, "a.com", "/", &[]).is_none());
    t.rebuild(&[]);
    assert!(t.has_synced());
}

#[test]
fn exact_host_then_wildcards_then_catch_all() {
    let t = table(vec![
        object("all", &[], &[]),
        object("com", &["*.com"], &[]),
        object("example", &["*.example.com"], &[]),
        object("exact", &["www.example.com"], &["/only"]),
    ]);
    assert_eq!(key(&t, "www.example.com", "/only/x", &[]), hit("exact", "www.example.com"));
    assert_eq!(key(&t, "www.example.com:81", "/only", &[]), hit("exact", "www.example.com"));
    assert_eq!(key(&t, "www.example.com", "/other", &[]), hit("example", "*.example.com"));
    assert_eq!(key(&t, "a.b.example.com", "/", &[]), hit("example", "*.example.com"));
    assert_eq!(key(&t, "example.com", "/", &[]), hit("com", "*.com"));
    assert_eq!(key(&t, "example.org", "/", &[]), hit("all", "*"));
    assert_eq!(key(&t, "", "", &[]), hit("all", "*"));
}

#[test]
fn first_of_equal_entries_wins() {
    let by = |name: &str, field: &str| {
        with_headers(object(name, &["h"], &["/p"]), &[(field, None)])
    };
    let t = table(vec![
        object("weak", &["h"], &["/p"]),
        by("a", "x-a"),
        object("weaker", &["h"], &["/"]),
        by("b", "x-b"),
        by("c", "x-a"),
    ]);
    assert_eq!(key(&t, "h", "/p", &[("x-a", "1"), ("x-b", "1")]), hit("a", "h"));
    assert_eq!(key(&t, "h", "/p", &[("x-b", "1")]), hit("b", "h"));
    assert_eq!(key(&t, "h", "/p", &[("x-a", "1")]), hit("a", "h"));
    assert_eq!(key(&t, "h", "/p", &[]), hit("weak", "h"));
}

#[test]
fn best_entry_of_a_host_wins() {
    let t = table(vec![
        object("root", &["h"], &[]),
        object("api", &["h"], &["api"]),
        with_headers(object("api1", &["h"], &["/api"]), &[("X-Kind", Some("one"))]),
        object("later", &["h"], &["/api"]),
        object("deep", &["h"], &["/api/v1", "/zzz"]),
    ]);
    assert_eq!(key(&t, "h", "/api/v1/x", &[]), hit("deep", "h"));
    assert_eq!(key(&t, "h", "/zzz", &[]), hit("deep", "h"));
    assert_eq!(key(&t, "h", "/api/v2", &[]), hit("api", "h"));
    assert_eq!(key(&t, "h", "/api/v2", &[("x-kind", "one")]), hit("api1", "h"));
    assert_eq!(key(&t, "h", "/", &[]), hit("root", "h"));
    assert_eq!(key(&t, "h", "", &[]), hit("root", "h"));
}

#[test]
fn prefixes_are_ranked_by_their_bytes() {
    let t = table(vec![
        object("ascii", &["h"], &["/ab"]),
        object("accent", &["h"], &["/\u{e9}"]),
        object("short", &["h"], &["/"]),
    ]);
    assert_eq!(key(&t, "h", "/ab", &[]), hit("ascii", "h"));
    assert_eq!(key(&t, "h", "/\u{e9}", &[]), hit("accent", "h"));
}

#[test]
fn header_conditions_must_all_hold() {
    let t = table(vec![with_headers(
        object("o", &["h"], &[]),
        &[("X-A", Some("1")), ("X-B", None)],
    )]);
    assert_eq!(key(&t, "h", "/", &[("x-a", "1"), ("x-b", "any")]), hit("o", "h"));
    assert!(key(&t, "h", "/", &[("x-a", "2"), ("x-b", "any")]).is_none());
    assert!(key(&t, "h", "/", &[("x-a", "1")]).is_none());
    // Of several values the first counts.
    assert!(key(&t, "h", "/", &[("x-a", "2"), ("x-a", "1"), ("x-b", "")]).is_none());
    // A value that is not visible ASCII reads as empty.
    let e = table(vec![with_headers(object("e", &["h"], &[]), &[("x", Some(""))])]);
    assert_eq!(key(&e, "h", "/", &[("x", "\u{e9}")]), hit("e", "h"));
    // What is no field name is never there.
    let n = table(vec![with_headers(object("n", &["h"], &[]), &[("x y", None)])]);
    assert!(key(&n, "h", "/", &[("x", "y")]).is_none());
}

#[test]
fn header_names_are_made_lower_case() {
    // The Kelvin sign becomes a plain `k`.
    let t = table(vec![with_headers(object("o", &["h"], &[]), &[("X-\u{212a}ind", None)])]);
    assert_eq!(key(&t, "h", "/", &[("x-kind", "")]), hit("o", "h"));
}

#[test]
fn route_tells_all_about_its_target() {
    let mut o = object("web", &["h"], &["p"]);
    o.metadata.namespace = None;
    o.spec.scale_target_ref.port = Some(70000);
    o.spec.cold_start_timeout_failover_ref = Some(ColdStartFailoverRef {
        service: "spare".to_string(),
        port: 81,
        timeout_seconds: -5,
    });
    o.spec.timeouts = Some(TimeoutSpec {
        condition_wait: Some("1m30s".to_string()),
        response_header: Some("bogus".to_string()),
    });
    let t = table(vec![o]);
    let r = t.route("h:1", "/p/q", &headers(&[])).unwrap();
    assert_eq!(r.queue_key, "default/web");
    assert_eq!(r.httpso_key, "default/web");
    assert_eq!(r.service_key, "default/web-svc");
    assert_eq!(r.target_url, "http://web-svc.default:70000");
    assert_eq!(r.authority, "web-svc.default:70000");
    assert_eq!(r.host, "h");
    assert_eq!(r.condition_wait_timeout, Some(Duration::from_secs(90)));
    assert_eq!(r.response_header_timeout, None);
    assert_eq!(r.failover_url.as_deref(), Some("http://spare.default:81"));
    assert_eq!(r.failover_timeout, Some(Duration::from_secs(0)));
    assert_eq!(r.target_namespace, "default");
    assert_eq!(r.target_service, "web-svc");
    assert_eq!(r.target_port, 70000i32 as u16);
}

#[test]
fn target_port_defaults_to_80() {
    let mut o = object("web", &["h"], &[]);
    o.spec.scale_target_ref.port = None;
    let r = table(vec![o]).route("h", "/", &headers(&[])).unwrap();
    assert_eq!((r.target_port, r.authority.as_str()), (80, "web-svc.ns:80"));
}

#[test]
fn timeouts_out_of_range_are_not_usable() {
    let mut o = object("web", &["h"], &[]);
    o.spec.timeouts =
        Some(TimeoutSpec { condition_wait: None, response_header: Some("-1s".to_string()) });
    assert!(!timeouts_usable(&[Arc::new(o)]));
}
