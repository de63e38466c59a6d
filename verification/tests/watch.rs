use std::sync::Arc;

use http::HeaderMap;
use interceptor_rs::crd::{
    default_failover_timeout, default_granularity, default_window, HTTPScaledObject,
    HTTPScaledObjectSpec, ObjectMeta, RequestRateMetric, ScaleTargetRef, ScalingMetricSpec,
};
use interceptor_rs::queue::QueueCounter;
use interceptor_rs::routing::RoutingTable;
use interceptor_rs::watch::{
    on_watch_event, rates_usable, should_rebuild, sync_queue_keys, watch_action,
    watched_namespace, WatchAction, WatchEvent,
};

fn object(name: Option<&str>, rate: Option<(&str, &str)>) -> Arc<HTTPScaledObject> {
    Arc::new(HTTPScaledObject {
        metadata: ObjectMeta {
            namespace: name.map(|_| "ns".to_string()),
            name: name.map(|s| s.to_string()),
        },
        spec: HTTPScaledObjectSpec {
            hosts: vec![],
            path_prefixes: vec![],
            headers: vec![],
            scale_target_ref: ScaleTargetRef {
                service: "svc".to_string(),
                port: None,
                port_name: None,
            },
            cold_start_timeout_failover_ref: None,
            replicas: None,
            scaling_metric: rate.map(|(window, granularity)| ScalingMetricSpec {
                concurrency: None,
                request_rate: Some(RequestRateMetric {
                    target_value: 1,
                    window: window.to_string(),
                    granularity: granularity.to_string(),
                }),
            }),
            timeouts: None,
        },
    })
}

fn counts(q: &QueueCounter, now: u64) -> Vec<(String, i64, f64)> {
    let mut all: Vec<(String, i64, f64)> = q
        .current(now)
        .into_iter()
        .map(|(k, c)| (k, c.concurrency, f64::from_bits(c.rps.to_bits())))
        .collect();
    all.sort_by(|a, b| a.0.cmp(&b.0));
    all
}

#[test]
fn counter_has_exactly_the_keys_of_the_resources() {
    let mut q = QueueCounter::new();
    sync_queue_keys(&mut q, &[object(Some("a"), None), object(None, None)], 0);
    let _ = q.increase("ns/a", 0);
    assert_eq!(
        counts(&q, 0),
        [("default/unknown".to_string(), 0, 0.0), ("ns/a".to_string(), 1, 0.0)]
    );
    sync_queue_keys(&mut q, &[object(Some("b"), None), object(Some("a"), None)], 0);
    assert_eq!(counts(&q, 0), [("ns/a".to_string(), 1, 0.0), ("ns/b".to_string(), 0, 0.0)]);
    sync_queue_keys(&mut q, &[], 0);
    assert!(counts(&q, 0).is_empty());
}

#[test]
fn rates_are_kept_where_resources_ask_for_them() {
    let mut q = QueueCounter::new();
    let objects = [object(Some("a"), Some(("10s", "1s"))), object(Some("b"), Some(("?", "?")))];
    assert!(rates_usable(&objects));
    sync_queue_keys(&mut q, &objects, 0);
    let _ = q.increase("ns/a", 0);
    let _ = q.increase("ns/b", 0);
    assert_eq!(
        counts(&q, 0),
        [("ns/a".to_string(), 1, 1.0 / 10.0), ("ns/b".to_string(), 1, 1.0 / 60.0)]
    );
    assert!(!rates_usable(&[object(Some("a"), Some(("-1s", "1s")))]));
    assert!(!rates_usable(&[object(Some("a"), Some(("1s", "-1s")))]));
    assert!(!rates_usable(&[object(Some("a"), Some(("18446744073709549568s", "1s")))]));
}

#[test]
fn complete_changes_rebuild() {
    assert!(should_rebuild(WatchEvent::Apply));
    assert!(should_rebuild(WatchEvent::Delete));
    assert!(should_rebuild(WatchEvent::InitDone));
    assert!(!should_rebuild(WatchEvent::Init));
    assert!(!should_rebuild(WatchEvent::InitApply));
}

#[test]
fn failed_items_are_passed_over_and_the_end_is_a_failure() {
    assert_eq!(watch_action(Some(Ok(WatchEvent::Apply))), WatchAction::Rebuild);
    assert_eq!(watch_action(Some(Ok(WatchEvent::Delete))), WatchAction::Rebuild);
    assert_eq!(watch_action(Some(Ok(WatchEvent::InitDone))), WatchAction::Rebuild);
    assert_eq!(watch_action(Some(Ok(WatchEvent::Init))), WatchAction::Ignore);
    assert_eq!(watch_action(Some(Ok(WatchEvent::InitApply))), WatchAction::Ignore);
    assert_eq!(watch_action(Some(Err(()))), WatchAction::Ignore);
    assert_eq!(watch_action(None), WatchAction::Fail);
}

#[test]
fn empty_list_makes_the_table_ready() {
    let mut t = RoutingTable::new();
    let mut q = QueueCounter::new();
    assert!(!on_watch_event(WatchEvent::Init, &mut t, &mut q, &[], 0));
    assert!(!t.has_synced());
    assert!(on_watch_event(WatchEvent::InitDone, &mut t, &mut q, &[], 0));
    assert!(t.has_synced());
    let objects = [object(Some("a"), None)];
    assert!(on_watch_event(WatchEvent::Apply, &mut t, &mut q, &objects, 0));
    let r = t.route("any", "/", &HeaderMap::new()).unwrap();
    assert_eq!(counts(&q, 0), [(r.queue_key, 0, 0.0)]);
}

#[test]
fn namespace_is_watched_where_one_is_named() {
    assert_eq!(watched_namespace(&Some("ns".to_string())), Some("ns"));
    assert_eq!(watched_namespace(&Some(String::new())), None);
    assert_eq!(watched_namespace(&None), None);
}

#[test]
fn defaults_of_resources() {
    assert_eq!(default_failover_timeout(), 30);
    assert_eq!(default_window(), "1m");
    assert_eq!(default_granularity(), "1s");
}
