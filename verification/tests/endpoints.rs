use interceptor_rs::endpoints::{
    count_ready, extract_service, service_key, Endpoint, EndpointConditions, EndpointSlice,
    EndpointsCache, WaitEvent, WaitStep,
};

fn endpoint(n: usize, conditions: Option<(Option<bool>, Option<bool>)>) -> Endpoint {
    Endpoint {
        addresses: (0..n).map(|i| format!("10.0.0.{i}")).collect(),
        conditions: conditions
            .map(|(ready, terminating)| EndpointConditions { ready, terminating }),
    }
}

fn slice(ns: Option<&str>, service: Option<&str>, endpoints: Vec<Endpoint>) -> EndpointSlice {
    EndpointSlice {
        namespace: ns.map(|s| s.to_string()),
        labels: service.map(|s| {
            vec![
                ("app".to_string(), "x".to_string()),
                ("kubernetes.io/service-name".to_string(), s.to_string()),
            ]
        }),
        endpoints,
    }
}

#[test]
fn services_are_named_by_their_label() {
    assert_eq!(service_key("ns", "svc"), "ns/svc");
    let pair = extract_service(&slice(Some("ns"), Some("svc"), vec![]));
    assert_eq!(pair, Some(("ns".to_string(), "svc".to_string())));
    let pair = extract_service(&slice(None, Some("svc"), vec![]));
    assert_eq!(pair, Some(("default".to_string(), "svc".to_string())));
    assert_eq!(extract_service(&slice(Some("ns"), None, vec![])), None);
    let mut other = slice(Some("ns"), Some("svc"), vec![]);
    other.labels.as_mut().unwrap().pop();
    assert_eq!(extract_service(&other), None);
}

#[test]
fn ready_addresses_are_counted() {
    let s = slice(
        Some("ns"),
        Some("svc"),
        vec![
            endpoint(1, None),
            endpoint(2, Some((None, None))),
            endpoint(4, Some((Some(true), Some(false)))),
            endpoint(8, Some((Some(false), None))),
            endpoint(16, Some((Some(true), Some(true)))),
        ],
    );
    assert_eq!(count_ready(&s), 7);
}

#[test]
fn refresh_counts_over_all_slices_of_a_service() {
    let mut cache = EndpointsCache::new();
    assert!(!cache.has_ready_endpoints("ns", "svc"));
    let slices = [
        slice(Some("ns"), Some("svc"), vec![endpoint(0, None)]),
        slice(Some("other"), Some("svc"), vec![endpoint(3, None)]),
        slice(Some("ns"), Some("svc"), vec![endpoint(2, None)]),
        slice(Some("ns"), None, vec![endpoint(5, None)]),
    ];
    assert_eq!(cache.refresh_service(&slices, &slices[0]).as_deref(), Some("ns/svc"));
    assert!(cache.has_ready_endpoints("ns", "svc"));
    assert!(!cache.has_ready_endpoints("other", "svc"));
    assert_eq!(cache.refresh_service(&slices, &slices[3]), None);
    assert_eq!(cache.refresh_service(&slices[..1], &slices[0]).as_deref(), Some("ns/svc"));
    assert!(!cache.has_ready_endpoints("ns", "svc"));
}

#[test]
fn waiting_goes_on_until_an_endpoint_is_ready() {
    let mut cache = EndpointsCache::new();
    let step = |c: &EndpointsCache, e: WaitEvent| c.wait_for_ready("ns", "svc", &e);
    assert_eq!(step(&cache, WaitEvent::Start), WaitStep::Subscribe);
    assert_eq!(step(&cache, WaitEvent::Subscribed), WaitStep::Receive);
    assert_eq!(step(&cache, WaitEvent::Lagged), WaitStep::Receive);
    assert_eq!(step(&cache, WaitEvent::Notified("ns/svc".to_string())), WaitStep::Receive);
    let slices = [slice(Some("ns"), Some("svc"), vec![endpoint(1, None)])];
    let key = cache.refresh_service(&slices, &slices[0]).unwrap();
    assert_eq!(step(&cache, WaitEvent::Notified("ns/other".to_string())), WaitStep::Receive);
    assert_eq!(step(&cache, WaitEvent::Notified(key)), WaitStep::ColdStart);
    assert_eq!(step(&cache, WaitEvent::Subscribed), WaitStep::ColdStart);
    assert_eq!(step(&cache, WaitEvent::Lagged), WaitStep::ColdStart);
    assert_eq!(step(&cache, WaitEvent::Start), WaitStep::Warm);
    assert_eq!(step(&cache, WaitEvent::Closed), WaitStep::Failed);
    assert_eq!(step(&cache, WaitEvent::TimedOut), WaitStep::Failed);
    assert_eq!(cache.wait_for_ready_by_key("ns/svc", &WaitEvent::Start), WaitStep::Warm);
}
