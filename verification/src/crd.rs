//! `HTTPScaledObject`, the custom resource that says which requests go where,
//! as far as the interceptor reads it.

use vstd::prelude::*;

verus! {

/// Name and namespace of a resource.
#[derive(Clone, Debug)]
pub struct ObjectMeta {
    pub namespace: Option<String>,
    pub name: Option<String>,
}

/// A custom resource with its metadata.
#[derive(Clone, Debug)]
pub struct HTTPScaledObject {
    pub metadata: ObjectMeta,
    pub spec: HTTPScaledObjectSpec,
}

#[derive(Clone, Debug)]
pub struct HTTPScaledObjectSpec {
    pub hosts: Vec<String>,
    pub path_prefixes: Vec<String>,
    pub headers: Vec<HeaderMatch>,
    pub scale_target_ref: ScaleTargetRef,
    pub cold_start_timeout_failover_ref: Option<ColdStartFailoverRef>,
    pub replicas: Option<ReplicaSpec>,
    pub scaling_metric: Option<ScalingMetricSpec>,
    pub timeouts: Option<TimeoutSpec>,
}

/// A header that a request must carry, with this value if one is given.
#[derive(Clone, Debug)]
pub struct HeaderMatch {
    pub name: String,
    pub value: Option<String>,
}

#[derive(Clone, Debug)]
pub struct ScaleTargetRef {
    pub service: String,
    pub port: Option<i32>,
    pub port_name: Option<String>,
}

#[derive(Clone, Debug)]
pub struct ColdStartFailoverRef {
    pub service: String,
    pub port: i32,
    pub timeout_seconds: i64,
}

/// Seconds to wait before failing over, where the resource gives none.
pub fn default_failover_timeout() -> (n: i64)
    ensures
        n == 30,
{
    30
}

#[derive(Clone, Debug)]
pub struct ReplicaSpec {
    pub min: Option<i32>,
    pub max: Option<i32>,
}

#[derive(Clone, Debug)]
pub struct ScalingMetricSpec {
    pub concurrency: Option<ConcurrencyMetric>,
    pub request_rate: Option<RequestRateMetric>,
}

#[derive(Clone, Debug)]
pub struct ConcurrencyMetric {
    pub target_value: i32,
}

#[derive(Clone, Debug)]
pub struct RequestRateMetric {
    pub target_value: i32,
    pub window: String,
    pub granularity: String,
}

/// The text of the window of a request rate, where the resource gives none.
pub open spec fn window_by_default() -> Seq<char> {
    "1m"@
}

/// The text of the granularity of a request rate, where the resource gives none.
pub open spec fn granularity_by_default() -> Seq<char> {
    "1s"@
}

/// The window of a request rate, where the resource gives none.
pub fn default_window() -> (s: String)
    ensures
        s@ == window_by_default(),
{
    "1m".to_string()
}

/// The granularity of a request rate, where the resource gives none.
pub fn default_granularity() -> (s: String)
    ensures
        s@ == granularity_by_default(),
{
    "1s".to_string()
}

#[derive(Clone, Debug)]
pub struct TimeoutSpec {
    pub condition_wait: Option<String>,
    pub response_header: Option<String>,
}

/// The namespace of a resource; `default` where it has none.
pub open spec fn namespace_of(m: ObjectMeta) -> Seq<char> {
    match m.namespace {
        Some(ns) => ns@,
        None => "default"@,
    }
}

/// The name of a resource; `unknown` where it has none.
pub open spec fn name_of(m: ObjectMeta) -> Seq<char> {
    match m.name {
        Some(n) => n@,
        None => "unknown"@,
    }
}

impl ObjectMeta {
    pub fn namespace_or_default(&self) -> (s: &str)
        ensures
            s@ == namespace_of(*self),
    {
        match &self.namespace {
            Some(ns) => ns.as_str(),
            None => "default",
        }
    }

    pub fn name_or_unknown(&self) -> (s: &str)
        ensures
            s@ == name_of(*self),
    {
        match &self.name {
            Some(n) => n.as_str(),
            None => "unknown",
        }
    }

    /// `namespace/name`.
    pub fn key(&self) -> (s: String)
        ensures
            s@ == object_key(*self),
    {
        let mut s = self.namespace_or_default().to_string();
        s.append("/");
        s.append(self.name_or_unknown());
        s
    }
}

/// `namespace/name`: the key under which the requests for a resource are
/// counted.
pub open spec fn object_key(m: ObjectMeta) -> Seq<char> {
    namespace_of(m) + "/"@ + name_of(m)
}

// ---------------------------------------------------------------------------
// Laws
// ---------------------------------------------------------------------------

/// Without a time of its own, a failover waits for half a minute.
pub proof fn law_failover_waits_half_a_minute(n: i64)
    requires
        call_ensures(default_failover_timeout, (), n),
    ensures
        2 * n == 60,
{
}

} // verus!
