use interceptor_rs::config::{Config, Defect};
use interceptor_rs::duration::Duration;
use interceptor_rs::text::IntError;

fn vars(list: &[(&str, &str)]) -> Vec<(String, String)> {
    list.iter().map(|(k, v)| (k.to_string(), v.to_string())).collect()
}

#[test]
fn defaults_without_variables() {
    let v = vars(&[]);
    assert!(Config::env_usable(&v));
    let c = Config::from_env(&v).unwrap();
    assert_eq!((c.proxy_port, c.admin_port, c.metrics_port), (8080, 9090, 2223));
    assert_eq!(c.connect_timeout, Duration::from_millis(500));
    assert_eq!(c.keep_alive, Duration::from_secs(1));
    assert_eq!(c.response_header_timeout, Duration::from_millis(500));
    assert_eq!(c.condition_wait_timeout, Duration::from_secs(20));
    assert_eq!(c.dns_cache_ttl, Duration::from_secs(30));
    assert_eq!(c.max_idle_conns_per_host, 20);
    assert!(!c.force_http2 && !c.tls_enabled && !c.log_requests);
    assert_eq!(c.watch_namespace, None);
}

#[test]
fn variables_override_defaults() {
    let v = vars(&[
        ("KEDA_HTTP_PROXY_PORT", "81"),
        ("KEDA_HTTP_CONNECT_TIMEOUT", "2s"),
        ("KEDA_HTTP_DNS_CACHE_TTL", "1m30s"),
        ("KEDA_HTTP_KEEP_ALIVE", "nonsense"),
        ("KEDA_HTTP_MAX_IDLE_CONNS_PER_HOST", "7"),
        ("KEDA_HTTP_FORCE_HTTP2", "true"),
        ("KEDA_HTTP_WATCH_NAMESPACE", ""),
    ]);
    let c = Config::from_env(&v).unwrap();
    assert_eq!(c.proxy_port, 81);
    assert_eq!(c.connect_timeout, Duration::from_secs(2));
    assert_eq!(c.dns_cache_ttl, Duration::from_secs(90));
    assert_eq!(c.keep_alive, Duration::from_secs(1));
    assert_eq!(c.max_idle_conns_per_host, 7);
    assert!(c.force_http2);
    assert_eq!(c.watch_namespace.as_deref(), Some(""));
}

#[test]
fn first_unusable_variable_is_reported() {
    for (list, key, defect, words) in [
        (
            vec![("KEDA_HTTP_ADMIN_PORT", "")],
            "KEDA_HTTP_ADMIN_PORT",
            Defect::Int(IntError::Empty),
            "cannot parse integer from empty string",
        ),
        (
            vec![("KEDA_HTTP_LOG_REQUESTS", "yes"), ("KEDA_HTTP_PROXY_PORT", "8o80")],
            "KEDA_HTTP_PROXY_PORT",
            Defect::Int(IntError::InvalidDigit),
            "invalid digit found in string",
        ),
        (
            vec![("KEDA_HTTP_OTEL_PROM_EXPORTER_PORT", "65536")],
            "KEDA_HTTP_OTEL_PROM_EXPORTER_PORT",
            Defect::Int(IntError::PosOverflow),
            "number too large to fit in target type",
        ),
        (
            vec![("KEDA_HTTP_PROXY_TLS_ENABLED", "1")],
            "KEDA_HTTP_PROXY_TLS_ENABLED",
            Defect::Bool,
            "provided string was not `true` or `false`",
        ),
    ] {
        let e = Config::from_env(&vars(&list)).unwrap_err();
        assert_eq!((e.key.as_str(), e.defect), (key, defect));
        assert_eq!(e.message(), format!("invalid value for {key}: {words}"));
    }
}

#[test]
fn durations_out_of_range_are_noticed() {
    assert!(!Config::env_usable(&vars(&[("KEDA_HTTP_KEEP_ALIVE", "-1s")])));
    assert!(Config::env_usable(&vars(&[
        ("KEDA_HTTP_KEEP_ALIVE", "-1s"),
        ("KEDA_HTTP_PROXY_PORT", "x")
    ])));
}
