//! The proxy: what happens to a request from its arrival to its response.
//!
//! The functions here are the decisions between the outside steps: waiting for
//! endpoints, probing the backend, and forwarding.

use http::{HeaderMap, HeaderValue};
use vstd::prelude::*;

use crate::backend_pool;
use crate::backend_pool::BackendPool;
use crate::body;
use crate::body::{BodyFraming, BodyView, Progress, ProxyBody, RawResponseBody};
use crate::buffer;
use crate::chunked;
use crate::config;
use crate::config::Config;
use crate::crd;
use crate::crd::HTTPScaledObject;
use crate::diagnostics;
use crate::diagnostics::{bump, DiagCounters};
use crate::duration::Duration;
use crate::endpoints::EndpointsCache;
use crate::fields;
use crate::fields::{header_insert, header_map, header_text, MAX_FIELDS};
use crate::metrics;
use crate::metrics::MetricsCollector;
use crate::queue;
use crate::queue::{QueueCounter, QueueGuard};
use crate::routing;
use crate::routing::{Route, RouteInfo, RoutingTable};
use crate::text;
use crate::text::{chars_of, contains, starts_with};
use crate::wire;
use crate::wire::{body_framing, ResponseHead};

verus! {

// ---------------------------------------------------------------------------
// State
// ---------------------------------------------------------------------------

/// All that the servers share.
#[verifier::reject_recursive_types(S)]
#[verifier::reject_recursive_types(A)]
pub struct AppState<S, A> {
    pub config: Config,
    pub routing_table: RoutingTable,
    pub queue: QueueCounter,
    pub endpoints_cache: EndpointsCache,
    pub metrics: MetricsCollector,
    pub backend_pool: BackendPool<S, A>,
    pub diag: DiagCounters,
}

impl<S, A: Copy> AppState<S, A> {
    /// The state made of its parts, with an empty pool as configured.
    pub fn new(
        config: Config,
        routing_table: RoutingTable,
        queue: QueueCounter,
        endpoints_cache: EndpointsCache,
        metrics: MetricsCollector,
        diag: DiagCounters,
    ) -> (s: Self)
        ensures
            s.config == config,
            s.routing_table == routing_table,
            s.queue == queue,
            s.endpoints_cache == endpoints_cache,
            s.metrics == metrics,
            s.diag == diag,
            s.backend_pool.wf(),
            s.backend_pool.idle().is_empty(),
            s.backend_pool.names().is_empty(),
            s.backend_pool.name_limit() == config.dns_cache_ttl,
            s.backend_pool.connect_limit() == config.connect_timeout,
            s.backend_pool.idle_per_host() == config.max_idle_conns_per_host,
    {
        let backend_pool = BackendPool::new(
            config.dns_cache_ttl,
            config.connect_timeout,
            config.max_idle_conns_per_host,
        );
        AppState { config, routing_table, queue, endpoints_cache, metrics, backend_pool, diag }
    }
}

// ---------------------------------------------------------------------------
// Steps
// ---------------------------------------------------------------------------

/// A response.
pub struct Reply<S> {
    pub status: u16,
    pub headers: HeaderMap<HeaderValue>,
    pub body: ProxyBody<S>,
}

impl<S> Reply<S> {
    /// Whether this is a short text without headers, which counts the request
    /// under `counted` until it is sent.
    pub open spec fn is_text(self, status: u16, s: Seq<char>, counted: Option<Seq<char>>) -> bool {
        &&& self.status == status
        &&& fields::header_fields(self.headers).len() == 0
        &&& self.body@ == BodyView::<S>::Fixed(Some(wire::utf8(s)))
        &&& self.body.counted() == counted
    }
}

/// A short text as a response.
pub fn response<S>(status: u16, body: &'static str, guard: Option<QueueGuard>) -> (r: Reply<S>)
    ensures
        r.is_text(
            status,
            body@,
            match guard {
                Some(g) => Some(g@),
                None => None,
            },
        ),
{
    Reply { status, headers: header_map(0), body: ProxyBody::fixed(body, guard) }
}

/// A request on its way.
pub struct Pending {
    pub method: String,
    pub path: String,
    pub host: String,
    pub route: RouteInfo,
    pub guard: QueueGuard,
    /// Whether the backend was not ready when the request came.
    pub cold_start: bool,
    /// The URL of the target, or of its failover where the target had no
    /// endpoint in time.
    pub target_url: String,
    /// Where the request goes: the host and port in that URL.
    pub authority: String,
}

/// The host and port in a URL.
pub open spec fn url_authority(url: Seq<char>) -> Seq<char> {
    if text::has_prefix(url, "http://"@) {
        url.skip("http://"@.len() as int)
    } else {
        url
    }
}

fn authority_in(url: &str) -> (s: String)
    ensures
        s@ == url_authority(url@),
{
    let v = chars_of(url);
    let start: usize = if starts_with(url, "http://") {
        chars_of("http://").len()
    } else {
        0
    };
    let mut s = String::new();
    for i in start..v.len()
        invariant
            start <= v@.len(),
            s@ == v@.subrange(start as int, i as int),
    {
        s.push(v[i]);
        assert(v@.subrange(start as int, i + 1) =~= v@.subrange(start as int, i as int).push(
            v@[i as int],
        ));
    }
    assert(s@ =~= v@.skip(start as int));
    assert(v@.skip(0) =~= v@);
    s
}

/// What to do next for a request.
pub enum Step<S> {
    /// Send this response.
    Reply(Reply<S>),
    /// Wait for the service of the route, for at most this long, then go on
    /// with [`endpoints_waited`].
    Wait { pending: Pending, timeout: Duration },
    /// After this delay, try to connect to the authority of the request within
    /// the probe time, then go on with [`backend_probed`].
    Probe { pending: Pending, started: u64, attempt: u32, delay: Duration },
    /// Forward to the authority of the request, with at most this long until the
    /// response begins, then go on with [`backend_answered`].
    Forward { pending: Pending, timeout: Duration },
}

impl<S> Step<S> {
    /// The key under which the request is counted from here on.
    pub open spec fn counted(self) -> Option<Seq<char>> {
        match self {
            Step::Reply(r) => r.body.counted(),
            Step::Wait { pending, .. } => Some(pending.guard@),
            Step::Probe { pending, .. } => Some(pending.guard@),
            Step::Forward { pending, .. } => Some(pending.guard@),
        }
    }
}

/// How long to wait for endpoints: as the route says, else as long as it gives
/// before failing over, else as configured.
pub open spec fn wait_limit(r: Route, config: Config) -> Duration {
    match r.condition_wait_timeout {
        Some(d) => d,
        None => match r.failover_timeout {
            Some(d) => d,
            None => config.condition_wait_timeout,
        },
    }
}

/// How long a response may take to begin.
pub open spec fn answer_limit(route: RouteInfo, config: Config) -> Duration {
    match route.response_header_timeout {
        Some(d) => d,
        None => config.response_header_timeout,
    }
}

fn answer_timeout(route: &RouteInfo, config: &Config) -> (d: Duration)
    ensures
        d == answer_limit(*route, *config),
{
    match route.response_header_timeout {
        Some(d) => d,
        None => config.response_header_timeout,
    }
}

// ---------------------------------------------------------------------------
// Arrival
// ---------------------------------------------------------------------------

/// What a step changes: before and after it, the requests in flight, the requests
/// answered, and the counters.
pub struct Change {
    pub hosts: Map<Seq<char>, queue::Host>,
    pub hosts_after: Map<Seq<char>, queue::Host>,
    pub counts: Map<u64, (Seq<Seq<char>>, u64)>,
    pub counts_after: Map<u64, (Seq<Seq<char>>, u64)>,
    pub diag: DiagCounters,
    pub diag_after: DiagCounters,
}

/// Whether a step and a change are those for a request that arrives: without a
/// route it is answered at once; else it is counted, and waits.
pub open spec fn is_arrival<S>(
    table: spec_fn(Seq<char>) -> Seq<Route>,
    config: Config,
    method: Seq<char>,
    path: Seq<char>,
    fs: Seq<(Seq<char>, Seq<u8>)>,
    now: u64,
    change: Change,
    r: Step<S>,
) -> bool {
    let host = fields::field_text(fs, "host"@);
    match routing::find_route(table, host, path, fs) {
        None => {
            &&& r matches Step::Reply(reply)
            &&& reply.is_text(404, "Not Found"@, None)
            &&& change.hosts_after == change.hosts
            &&& change.counts_after == metrics::one_request(
                change.counts,
                method,
                path,
                404,
                host,
            )
            &&& change.diag_after == diagnostics::unrouted(change.diag)
        },
        Some((h, route)) => {
            &&& r matches Step::Wait { pending, timeout }
            &&& pending.method@ == method
            &&& pending.path@ == path
            &&& pending.host@ == host
            &&& pending.route.tells(h, route)
            &&& pending.guard@ == route.key
            &&& !pending.cold_start
            &&& pending.target_url@ == route.target_url
            &&& pending.authority@ == route.authority
            &&& timeout == wait_limit(route, config)
            &&& change.hosts_after == queue::increased(change.hosts, route.key, now)
            &&& change.counts_after == change.counts
            &&& change.diag_after == diagnostics::routed(change.diag)
        },
    }
}

/// A request arrives: it is routed, and counted if it has a route.
pub fn handle_proxy_request<S>(
    table: &RoutingTable,
    queue: &mut QueueCounter,
    metrics: &mut MetricsCollector,
    diag: &mut DiagCounters,
    config: &Config,
    method: &str,
    path: &str,
    headers: &HeaderMap<HeaderValue>,
    now: u64,
) -> (r: Step<S>)
    requires
        table.wf(),
        old(queue).wf(),
        old(metrics).wf(),
    ensures
        final(queue).wf(),
        final(metrics).wf(),
        final(metrics).pending() == old(metrics).pending(),
        is_arrival(
            table.table(),
            *config,
            method@,
            path@,
            fields::header_fields(*headers),
            now,
            (Change {
                hosts: old(queue)@,
                hosts_after: final(queue)@,
                counts: old(metrics).requests(),
                counts_after: final(metrics).requests(),
                diag: *old(diag),
                diag_after: *final(diag),
            }),
            r,
        ),
{
    let host = header_text(headers, "host");
    let route = match table.route(host.as_str(), path, headers) {
        Some(r) => r,
        None => {
            diag.count_arrival(false);
            metrics.record_request(method, path, 404, host.as_str());
            return Step::Reply(response(404, "Not Found", None));
        },
    };
    diag.count_arrival(true);
    let guard = queue.increase(route.queue_key.as_str(), now);
    let timeout = match route.condition_wait_timeout {
        Some(d) => d,
        None => match route.failover_timeout {
            Some(d) => d,
            None => config.condition_wait_timeout,
        },
    };
    let target_url = route.target_url.clone();
    let authority = route.authority.clone();
    Step::Wait {
        pending: Pending {
            method: method.to_string(),
            path: path.to_string(),
            host,
            route,
            guard,
            cold_start: false,
            target_url,
            authority,
        },
        timeout,
    }
}

/// The requests counted after `p` was answered with `code`.
pub open spec fn answered(
    counts: Map<u64, (Seq<Seq<char>>, u64)>,
    p: Pending,
    code: u16,
) -> Map<u64, (Seq<Seq<char>>, u64)> {
    metrics::one_request(counts, p.method@, p.path@, code, p.host@)
}

fn bad_gateway<S>(pending: Pending, metrics: &mut MetricsCollector) -> (r: Reply<S>)
    requires
        old(metrics).wf(),
    ensures
        final(metrics).wf(),
        final(metrics).pending() == old(metrics).pending(),
        final(metrics).requests() == answered(old(metrics).requests(), pending, 502),
        r.is_text(502, "Bad Gateway"@, Some(pending.guard@)),
{
    metrics.record_request(
        pending.method.as_str(),
        pending.path.as_str(),
        502,
        pending.host.as_str(),
    );
    response(502, "Bad Gateway", Some(pending.guard))
}

// ---------------------------------------------------------------------------
// Endpoints
// ---------------------------------------------------------------------------

/// Whether a step is the one for a request whose wait is over: a warm backend is
/// forwarded to, a cold one is probed, and so is the failover where none became
/// ready; without a failover the gateway is bad.
pub open spec fn is_waited<S>(
    pending: Pending,
    ready: Result<bool, ()>,
    config: Config,
    now: u64,
    counts: Map<u64, (Seq<Seq<char>>, u64)>,
    counts_after: Map<u64, (Seq<Seq<char>>, u64)>,
    diag: DiagCounters,
    diag_after: DiagCounters,
    r: Step<S>,
) -> bool {
    if ready is Err && pending.route.failover_url is None {
        &&& r matches Step::Reply(reply)
        &&& reply.is_text(502, "Bad Gateway"@, Some(pending.guard@))
        &&& counts_after == answered(counts, pending, 502)
        &&& diag_after == diag
    } else if ready == Ok::<bool, ()>(false) {
        &&& r matches Step::Forward { pending: p, timeout }
        &&& p == (Pending { cold_start: false, ..pending })
        &&& timeout == answer_limit(pending.route, config)
        &&& counts_after == counts
        &&& diag_after == diag
    } else {
        &&& r matches Step::Probe { pending: p, started, attempt, delay }
        &&& p == (Pending {
            cold_start: true,
            target_url: p.target_url,
            authority: p.authority,
            ..pending
        })
        &&& p.target_url@ == (if ready is Ok {
            pending.target_url@
        } else {
            pending.route.failover_url->0@
        })
        &&& p.authority@ == (if ready is Ok {
            pending.authority@
        } else {
            url_authority(pending.route.failover_url->0@)
        })
        &&& started == now
        &&& attempt == 0
        &&& delay.total() == 0
        &&& counts_after == counts
        &&& diag_after == (DiagCounters {
            requests_cold_start: diagnostics::bumped(diag.requests_cold_start),
            ..diag
        })
    }
}

/// The wait for endpoints is over: `Ok` with whether it was a cold start, or
/// `Err` where none appeared in time. Without endpoints a request goes on as a
/// cold start to the failover of its route, where there is one, else it fails.
pub fn endpoints_waited<S>(
    pending: Pending,
    ready: Result<bool, ()>,
    metrics: &mut MetricsCollector,
    diag: &mut DiagCounters,
    config: &Config,
    now: u64,
) -> (r: Step<S>)
    requires
        old(metrics).wf(),
    ensures
        final(metrics).wf(),
        final(metrics).pending() == old(metrics).pending(),
        r.counted() == Some(pending.guard@),
        is_waited(
            pending,
            ready,
            *config,
            now,
            old(metrics).requests(),
            final(metrics).requests(),
            *old(diag),
            *final(diag),
            r,
        ),
{
    let (cold_start, target_url, authority) = match ready {
        Ok(cold) => (cold, pending.target_url.clone(), pending.authority.clone()),
        Err(_) => match &pending.route.failover_url {
            Some(url) => (true, url.clone(), authority_in(url.as_str())),
            None => {
                return Step::Reply(bad_gateway(pending, metrics));
            },
        },
    };
    if cold_start {
        diag.requests_cold_start = bump(diag.requests_cold_start);
        Step::Probe {
            pending: Pending { cold_start: true, target_url, authority, ..pending },
            started: now,
            attempt: 0,
            delay: Duration { secs: 0, nanos: 0 },
        }
    } else {
        let timeout = answer_timeout(&pending.route, config);
        Step::Forward { pending: Pending { cold_start: false, ..pending }, timeout }
    }
}

// ---------------------------------------------------------------------------
// Probing
// ---------------------------------------------------------------------------

/// What came of an attempt to connect.
#[derive(Clone, Copy, Debug, PartialEq, Eq, Structural)]
pub enum ProbeOutcome {
    Connected,
    Refused,
    TimedOut,
}

/// How long one attempt to connect may take: a second.
pub open spec fn probe_limit() -> Duration {
    Duration { secs: 1, nanos: 0 }
}

/// How long one attempt to connect may take.
pub fn probe_timeout() -> (d: Duration)
    ensures
        d == probe_limit(),
{
    Duration::from_secs(1)
}

/// How long attempts are made after the first one, in nanoseconds: 5 seconds.
pub const PROBE_NANOS: u64 = 5_000_000_000;

/// Whether no further attempt is made.
pub open spec fn probing_over(started: u64, now: u64) -> bool {
    now >= started + PROBE_NANOS
}

/// The pause before attempt `n`, in milliseconds, where the one before was
/// refused: it doubles from 200 up to 1600.
pub open spec fn pause_millis(n: u32) -> u64 {
    if n == 0 {
        100
    } else if n == 1 {
        200
    } else if n == 2 {
        400
    } else if n == 3 {
        800
    } else {
        1600
    }
}

fn pause(n: u32) -> (d: Duration)
    ensures
        d.total() == pause_millis(n) * 1_000_000,
{
    let shift: u32 = if n < 4 {
        n
    } else {
        4
    };
    assert(100u64 << 0u32 == 100) by (bit_vector);
    assert(100u64 << 1u32 == 200) by (bit_vector);
    assert(100u64 << 2u32 == 400) by (bit_vector);
    assert(100u64 << 3u32 == 800) by (bit_vector);
    assert(100u64 << 4u32 == 1600) by (bit_vector);
    let millis: u64 = 100 << shift;
    Duration::from_millis(millis)
}

/// An attempt count after one more.
pub open spec fn next_attempt(n: u32) -> u32 {
    if n == u32::MAX {
        n
    } else {
        (n + 1) as u32
    }
}

/// Whether a step is the one for a request whose backend was probed.
pub open spec fn is_probed<S>(
    pending: Pending,
    started: u64,
    attempt: u32,
    outcome: ProbeOutcome,
    config: Config,
    now: u64,
    counts: Map<u64, (Seq<Seq<char>>, u64)>,
    counts_after: Map<u64, (Seq<Seq<char>>, u64)>,
    r: Step<S>,
) -> bool {
    if outcome is Connected {
        &&& r matches Step::Forward { pending: p, timeout }
        &&& p == pending
        &&& timeout == answer_limit(pending.route, config)
        &&& counts_after == counts
    } else if probing_over(started, now) {
        &&& r matches Step::Reply(reply)
        &&& reply.is_text(502, "Bad Gateway"@, Some(pending.guard@))
        &&& counts_after == answered(counts, pending, 502)
    } else {
        &&& r matches Step::Probe { pending: p, started: s, attempt: n, delay }
        &&& p == pending
        &&& s == started
        &&& n == next_attempt(attempt)
        &&& delay.total() == (if outcome is Refused {
            pause_millis(n) * 1_000_000
        } else {
            0
        })
        &&& counts_after == counts
    }
}

/// An attempt to connect to a cold backend is over: forward once it is
/// reachable; else try again, after a pause where it refused, until the probe
/// time is up.
pub fn backend_probed<S>(
    pending: Pending,
    started: u64,
    attempt: u32,
    outcome: ProbeOutcome,
    metrics: &mut MetricsCollector,
    config: &Config,
    now: u64,
) -> (r: Step<S>)
    requires
        old(metrics).wf(),
    ensures
        final(metrics).wf(),
        final(metrics).pending() == old(metrics).pending(),
        r.counted() == Some(pending.guard@),
        is_probed(
            pending,
            started,
            attempt,
            outcome,
            *config,
            now,
            old(metrics).requests(),
            final(metrics).requests(),
            r,
        ),
{
    if let ProbeOutcome::Connected = outcome {
        let timeout = answer_timeout(&pending.route, config);
        return Step::Forward { pending, timeout };
    }
    if now as u128 >= started as u128 + PROBE_NANOS as u128 {
        return Step::Reply(bad_gateway(pending, metrics));
    }
    let n = attempt.saturating_add(1);
    let delay = match outcome {
        ProbeOutcome::Refused => pause(n),
        _ => Duration { secs: 0, nanos: 0 },
    };
    Step::Probe { pending, started, attempt: n, delay }
}

// ---------------------------------------------------------------------------
// Forwarding
// ---------------------------------------------------------------------------

/// The target of the forwarded request line; `/` where the request has none.
pub open spec fn target_of(path_and_query: Option<&str>) -> Seq<char> {
    match path_and_query {
        Some(p) => p@,
        None => "/"@,
    }
}

/// The target of the forwarded request line; `/` where the request has none.
pub fn forward_target(path_and_query: Option<&str>) -> (s: &str)
    ensures
        s@ == target_of(path_and_query),
{
    match path_and_query {
        Some(p) => p,
        None => "/",
    }
}

/// The body of a response that has begun: the bytes read beyond the head are its
/// first, and its headers say where it ends.
pub open spec fn body_of<S>(stream: S, head: ResponseHead, authority: Seq<char>) -> Progress<S> {
    Progress {
        stream: Some(stream),
        buffered: buffer::held(head.rest),
        framing: wire::framing_of(fields::header_fields(head.headers)),
        pooled: true,
        authority,
    }
}

/// A response has begun: its status, its headers, and its body.
pub fn forward_raw<S>(stream: S, head: ResponseHead, authority: &str) -> (r: (
    u16,
    HeaderMap<HeaderValue>,
    RawResponseBody<S>,
))
    ensures
        r.0 == head.status,
        r.1 == head.headers,
        r.2@ == body_of(stream, head, authority@),
{
    let framing = body_framing(&head.headers);
    let body = RawResponseBody::new(stream, head.rest, framing, authority.to_string());
    (head.status, head.headers, body)
}

/// What came of forwarding.
pub enum ForwardOutcome<S> {
    /// A response has begun.
    Response { status: u16, headers: HeaderMap<HeaderValue>, body: RawResponseBody<S> },
    /// The backend failed.
    Failed,
    /// The response did not begin in time.
    TimedOut,
}

/// The status codes that a response can have.
pub open spec fn is_status(code: u16) -> bool {
    100 <= code <= 999
}

/// The fields of the response: those of the backend, and a mark where it was a
/// cold start.
pub open spec fn reply_fields(fs: Seq<(Seq<char>, Seq<u8>)>, cold_start: bool) -> Seq<
    (Seq<char>, Seq<u8>),
> {
    if cold_start {
        fields::replaced(fs, "x-keda-http-cold-start"@, wire::utf8("true"@))
    } else {
        fs
    }
}

proof fn lemma_cold_start_field()
    ensures
        fields::field_name("x-keda-http-cold-start"@) == Some("x-keda-http-cold-start"@),
        fields::is_field_value(wire::utf8("true"@)),
{
    reveal_strlit("x-keda-http-cold-start");
    reveal_strlit("true");
    let name = "x-keda-http-cold-start"@;
    assert(name.map_values(|c: char| fields::small(c)) =~= name);
    let value = "true"@;
    vstd::utf8::is_ascii_chars_encode_utf8(value);
    assert forall|i: int| 0 <= i < wire::utf8(value).len() implies fields::is_value_byte(
        #[trigger] wire::utf8(value)[i],
    ) by {
        assert(wire::utf8(value)[i] == value[i] as u8);
    }
}

/// Whether a reply and a change are those for a request that was forwarded.
pub open spec fn is_answer<S>(
    pending: Pending,
    outcome: ForwardOutcome<S>,
    change: Change,
    r: Reply<S>,
) -> bool {
    match outcome {
        ForwardOutcome::Response { status, headers, body } => {
            &&& change.counts_after == answered(change.counts, pending, status)
            &&& change.diag_after == change.diag
            &&& if is_status(status) {
                &&& r.status == status
                &&& fields::header_fields(r.headers) == reply_fields(
                    fields::header_fields(headers),
                    pending.cold_start,
                )
                &&& r.body@ == BodyView::RawStream(body@)
                &&& r.body.counted() == Some(pending.guard@)
                &&& change.hosts_after == change.hosts
            } else {
                &&& r.is_text(500, "Internal Server Error"@, None)
                &&& change.hosts_after == queue::decreased(change.hosts, pending.guard@)
            }
        },
        ForwardOutcome::Failed | ForwardOutcome::TimedOut => {
            &&& r.is_text(502, "Bad Gateway"@, Some(pending.guard@))
            &&& change.counts_after == answered(change.counts, pending, 502)
            &&& change.diag_after == (DiagCounters {
                requests_backend_error: diagnostics::bumped(change.diag.requests_backend_error),
                ..change.diag
            })
            &&& change.hosts_after == change.hosts
        },
    }
}

/// Forwarding is over: the response of the backend is handed on, marked where
/// it was a cold start; a status that no response can have is an error of the
/// server, and then the request is done at once; without a response the gateway
/// is bad.
pub fn backend_answered<S>(
    pending: Pending,
    outcome: ForwardOutcome<S>,
    queue: &mut QueueCounter,
    metrics: &mut MetricsCollector,
    diag: &mut DiagCounters,
) -> (r: Reply<S>)
    requires
        old(queue).wf(),
        old(metrics).wf(),
        outcome matches ForwardOutcome::Response { headers, .. } ==> fields::header_fields(
            headers,
        ).len() < MAX_FIELDS,
    ensures
        final(queue).wf(),
        final(metrics).wf(),
        final(metrics).pending() == old(metrics).pending(),
        is_answer(
            pending,
            outcome,
            (Change {
                hosts: old(queue)@,
                hosts_after: final(queue)@,
                counts: old(metrics).requests(),
                counts_after: final(metrics).requests(),
                diag: *old(diag),
                diag_after: *final(diag),
            }),
            r,
        ),
{
    match outcome {
        ForwardOutcome::Response { status, headers, body } => {
            metrics.record_request(
                pending.method.as_str(),
                pending.path.as_str(),
                status,
                pending.host.as_str(),
            );
            if 100 <= status && status <= 999 {
                let mut headers = headers;
                if pending.cold_start {
                    proof {
                        lemma_cold_start_field();
                    }
                    header_insert(&mut headers, "x-keda-http-cold-start", "true".as_bytes());
                }
                Reply { status, headers, body: ProxyBody::raw_stream(body, pending.guard) }
            } else {
                queue.release(pending.guard);
                response(500, "Internal Server Error", None)
            }
        },
        _ => {
            diag.requests_backend_error = bump(diag.requests_backend_error);
            bad_gateway(pending, metrics)
        },
    }
}

// ---------------------------------------------------------------------------
// Connections
// ---------------------------------------------------------------------------

/// Whether the error of a client connection is not worth a word: the client
/// went away.
pub open spec fn is_noise(message: Seq<char>) -> bool {
    ||| text::contains_text(message, "connection reset"@)
    ||| text::contains_text(message, "broken pipe"@)
    ||| text::contains_text(message, "connection closed"@)
}

pub fn suppressed(message: &str) -> (b: bool)
    ensures
        b == is_noise(message@),
{
    contains(message, "connection reset") || contains(message, "broken pipe") || contains(
        message,
        "connection closed",
    )
}

// ---------------------------------------------------------------------------
// Laws
// ---------------------------------------------------------------------------

/// The client gets the body of the backend's response byte for byte: what was
/// read beyond the head, and then what the connection yields, up to the length
/// that the headers say, or the data of the chunks, or all up to the close of
/// the connection.
pub proof fn law_response_body_is_handed_on<S>(
    stream: S,
    head: ResponseHead,
    authority: Seq<char>,
    reads: Seq<Seq<u8>>,
)
    ensures
        ({
            let all = buffer::held(head.rest) + body::joined(reads);
            body::delivered(body_of(stream, head, authority), reads) == (match wire::framing_of(
                fields::header_fields(head.headers),
            ) {
                BodyFraming::ContentLength { remaining } => if remaining < all.len() {
                    all.take(remaining as int)
                } else {
                    all
                },
                BodyFraming::ReadUntilClose => all,
                BodyFraming::Chunked { state } => chunked::decoded(state, all).1,
            })
        }),
{
    let all = buffer::held(head.rest) + body::joined(reads);
    body::law_body_is_delivered(body_of(stream, head, authority), reads);
    assert(all.take(all.len() as int) =~= all);
}

/// The pauses between attempts grow, from 200 up to 1600 milliseconds.
pub proof fn law_pauses_grow(m: u32, n: u32)
    requires
        1 <= m <= n,
    ensures
        200 <= pause_millis(m) <= pause_millis(n) <= 1600,
{
}

/// Once its time is up, no further attempt is ever made.
pub proof fn law_probing_ends(started: u64, now: u64, later: u64)
    requires
        probing_over(started, now),
        now <= later,
    ensures
        probing_over(started, later),
{
}

/// A response after a cold start is marked as such, exactly once, and the other
/// fields are those of the backend.
pub proof fn law_cold_start_is_marked(fs: Seq<(Seq<char>, Seq<u8>)>)
    ensures
        fields::first_value(reply_fields(fs, true), "x-keda-http-cold-start"@) == Some(
            wire::utf8("true"@),
        ),
        fields::without(reply_fields(fs, true), "x-keda-http-cold-start"@) == fields::without(
            fs,
            "x-keda-http-cold-start"@,
        ),
        reply_fields(fs, false) == fs,
{
    fields::lemma_replaced(fs, "x-keda-http-cold-start"@, wire::utf8("true"@));
}

/// The authority of a route comes apart into the name of its service and its
/// port, where the port is one.
pub proof fn law_routes_lead_to_their_service(o: HTTPScaledObject, prefix: Seq<char>)
    requires
        0 <= routing::port_of(o.spec) <= 65535,
        !o.spec.scale_target_ref.service@.contains(']'),
        !crd::namespace_of(o.metadata).contains(']'),
    ensures
        ({
            let r = routing::route_of(o, prefix);
            backend_pool::authority_parts(r.authority) == (
                r.target_service + "."@ + r.target_namespace,
                r.target_port,
            )
        }),
{
    reveal_strlit(".");
    let r = routing::route_of(o, prefix);
    let port = routing::port_of(o.spec);
    let host = r.target_service + "."@ + r.target_namespace;
    assert(port as u16 == port) by {
        assert(0 <= port <= 65535 ==> port as u16 == port) by (bit_vector);
    }
    assert(r.authority =~= backend_pool::dns_key(host, r.target_port));
    text::lemma_find_from(host, ']', 0);
    let i = text::find(host, ']');
    if i < host.len() {
        let n = r.target_service.len();
        if i < n {
            assert(r.target_service[i] == ']');
        } else if i > n {
            assert(r.target_namespace[i - n - 1] == ']');
        }
    }
    backend_pool::law_authority_comes_apart(host, r.target_port);
}

/// The URLs of a route lead where the resource says: that of the target to its
/// service, and that of the failover to the service of the failover.
pub proof fn law_urls_lead_to_their_service(o: HTTPScaledObject, prefix: Seq<char>)
    ensures
        ({
            let r = routing::route_of(o, prefix);
            &&& url_authority(r.target_url) == r.authority
            &&& match o.spec.cold_start_timeout_failover_ref {
                Some(f) => r.failover_url is Some && url_authority(r.failover_url->0)
                    == routing::authority_of(
                    f.service@,
                    crd::namespace_of(o.metadata),
                    f.port as int,
                ),
                None => r.failover_url is None,
            }
        }),
{
    let r = routing::route_of(o, prefix);
    let ns = crd::namespace_of(o.metadata);
    lemma_url_authority(r.authority);
    if let Some(f) = o.spec.cold_start_timeout_failover_ref {
        lemma_url_authority(routing::authority_of(f.service@, ns, f.port as int));
    }
}

proof fn lemma_url_authority(authority: Seq<char>)
    ensures
        url_authority("http://"@ + authority) == authority,
{
    let url = "http://"@ + authority;
    let n = "http://"@.len() as int;
    assert(url.take(n) =~= "http://"@);
    assert(url.skip(n) =~= authority);
}

/// How long a routed request waits: where the resource gives `conditionWait` as
/// a duration, that long, whatever else is said; else, where it has a failover,
/// as many seconds as that gives; else as long as configured.
pub proof fn law_wait_is_as_long_as_the_resource_says<S>(
    table: spec_fn(Seq<char>) -> Seq<Route>,
    config: Config,
    method: Seq<char>,
    path: Seq<char>,
    fs: Seq<(Seq<char>, Seq<u8>)>,
    now: u64,
    change: Change,
    step: Step<S>,
    h: Seq<char>,
    o: HTTPScaledObject,
    prefix: Seq<char>,
)
    requires
        is_arrival(table, config, method, path, fs, now, change, step),
        routing::find_route(table, fields::field_text(fs, "host"@), path, fs) == Some(
            (h, routing::route_of(o, prefix)),
        ),
    ensures
        step is Wait,
        o.spec.timeouts is Some && o.spec.timeouts->0.condition_wait is Some && config::go_duration(
            o.spec.timeouts->0.condition_wait->0@,
        ) is Value ==> step->Wait_timeout == config::go_duration(
            o.spec.timeouts->0.condition_wait->0@,
        )->Value_0,
        (o.spec.timeouts is None || o.spec.timeouts->0.condition_wait is None
            || config::go_duration(o.spec.timeouts->0.condition_wait->0@) is Absent)
            && o.spec.cold_start_timeout_failover_ref is Some ==> step->Wait_timeout.nanos == 0
            && step->Wait_timeout.secs == (if o.spec.cold_start_timeout_failover_ref->0.timeout_seconds
            >= 0 {
            o.spec.cold_start_timeout_failover_ref->0.timeout_seconds as int
        } else {
            0
        }),
        (o.spec.timeouts is None || o.spec.timeouts->0.condition_wait is None
            || config::go_duration(o.spec.timeouts->0.condition_wait->0@) is Absent)
            && o.spec.cold_start_timeout_failover_ref is None ==> step->Wait_timeout
            == config.condition_wait_timeout,
{
}

/// How long a response may take to begin: as long as the resource gives as
/// `responseHeader`, else as configured. So it is for a warm backend, and for a
/// cold one once it is reachable.
pub proof fn law_answer_may_take_as_long_as_the_resource_says<S>(
    pending: Pending,
    config: Config,
    started: u64,
    attempt: u32,
    now: u64,
    counts: Map<u64, (Seq<Seq<char>>, u64)>,
    counts_after: Map<u64, (Seq<Seq<char>>, u64)>,
    diag: DiagCounters,
    diag_after: DiagCounters,
    step: Step<S>,
    h: Seq<char>,
    o: HTTPScaledObject,
    prefix: Seq<char>,
)
    requires
        pending.route.tells(h, routing::route_of(o, prefix)),
        is_waited(
            pending,
            Ok(false),
            config,
            now,
            counts,
            counts_after,
            diag,
            diag_after,
            step,
        ) || is_probed(
            pending,
            started,
            attempt,
            ProbeOutcome::Connected,
            config,
            now,
            counts,
            counts_after,
            step,
        ),
    ensures
        step is Forward,
        o.spec.timeouts is Some && o.spec.timeouts->0.response_header is Some && config::go_duration(
            o.spec.timeouts->0.response_header->0@,
        ) is Value ==> step->Forward_timeout == config::go_duration(
            o.spec.timeouts->0.response_header->0@,
        )->Value_0,
        o.spec.timeouts is None || o.spec.timeouts->0.response_header is None
            || config::go_duration(o.spec.timeouts->0.response_header->0@) is Absent
            ==> step->Forward_timeout == config.response_header_timeout,
{
}

/// A request without a route is answered with 404 and is not counted as in
/// flight; it is told among the answered requests and the requests without a
/// route.
pub proof fn law_unrouted_requests_are_not_found<S>(
    table: spec_fn(Seq<char>) -> Seq<Route>,
    config: Config,
    method: Seq<char>,
    path: Seq<char>,
    fs: Seq<(Seq<char>, Seq<u8>)>,
    now: u64,
    change: Change,
    step: Step<S>,
)
    requires
        is_arrival(table, config, method, path, fs, now, change, step),
        routing::find_route(table, fields::field_text(fs, "host"@), path, fs) is None,
    ensures
        step is Reply,
        step->Reply_0.status == 404,
        step->Reply_0.body@ == BodyView::<S>::Fixed(Some(vstd::utf8::encode_utf8("Not Found"@))),
        step->Reply_0.body.counted() is None,
        change.hosts_after == change.hosts,
        change.diag.requests_total < u64::MAX ==> change.diag_after.requests_total
            == change.diag.requests_total + 1,
        change.diag.requests_no_route < u64::MAX ==> change.diag_after.requests_no_route
            == change.diag.requests_no_route + 1,
        ({
            let series = metrics::series(
                method + path + text::decimal(404) + fields::field_text(fs, "host"@),
            );
            metrics::value_or_zero(change.counts, series) < u64::MAX ==> metrics::value_or_zero(
                change.counts_after,
                series,
            ) == metrics::value_or_zero(change.counts, series) + 1
        }),
{
}

/// A routed request is counted as in flight under the key of its resource, once,
/// and goes to the service of the resource. It is not answered yet.
pub proof fn law_routed_requests_are_counted_and_sent_to_their_service<S>(
    table: spec_fn(Seq<char>) -> Seq<Route>,
    config: Config,
    method: Seq<char>,
    path: Seq<char>,
    fs: Seq<(Seq<char>, Seq<u8>)>,
    now: u64,
    change: Change,
    step: Step<S>,
    h: Seq<char>,
    o: HTTPScaledObject,
    prefix: Seq<char>,
)
    requires
        is_arrival(table, config, method, path, fs, now, change, step),
        routing::find_route(table, fields::field_text(fs, "host"@), path, fs) == Some(
            (h, routing::route_of(o, prefix)),
        ),
    ensures
        step is Wait,
        ({
            let p = step->Wait_pending;
            let ns = match o.metadata.namespace {
                Some(ns) => ns@,
                None => "default"@,
            };
            let name = match o.metadata.name {
                Some(name) => name@,
                None => "unknown"@,
            };
            let key = ns + "/"@ + name;
            let service = o.spec.scale_target_ref.service@;
            let port = match o.spec.scale_target_ref.port {
                Some(port) => text::decimal_int(port as int),
                None => text::decimal_int(80),
            };
            &&& p.guard@ == key
            &&& p.route.queue_key@ == key
            &&& p.route.service_key@ == ns + "/"@ + service
            &&& p.authority@ == service + "."@ + ns + ":"@ + port
            &&& p.target_url@ == "http://"@ + (service + "."@ + ns + ":"@ + port)
            &&& p.method@ == method
            &&& p.path@ == path
            &&& p.host@ == fields::field_text(fs, "host"@)
            &&& !p.cold_start
            &&& change.hosts.contains_key(key) && change.hosts[key].concurrency < i64::MAX
                ==> change.hosts_after[key].concurrency == change.hosts[key].concurrency + 1
            &&& change.hosts.contains_key(key) && change.hosts[key].ring is Some
                ==> change.hosts_after[key].ring == Some(change.hosts[key].ring->0.recorded(now))
            &&& !change.hosts.contains_key(key) ==> change.hosts_after == change.hosts
            &&& forall|other: Seq<char>|
                other != key && #[trigger] change.hosts.contains_key(other)
                    ==> change.hosts_after[other] == change.hosts[other]
        }),
        change.counts_after == change.counts,
        change.diag.requests_total < u64::MAX ==> change.diag_after.requests_total
            == change.diag.requests_total + 1,
        change.diag_after.requests_no_route == change.diag.requests_no_route,
{
}

/// What follows a wait: a warm backend gets the request at once, unmarked; a
/// cold one is probed first, from this moment on, at the same place. Where no
/// endpoint became ready in time, the failover is probed, at its own place; and
/// where there is none, the client gets 502. The request stays counted.
pub proof fn law_what_follows_a_wait<S>(
    pending: Pending,
    ready: Result<bool, ()>,
    config: Config,
    now: u64,
    counts: Map<u64, (Seq<Seq<char>>, u64)>,
    counts_after: Map<u64, (Seq<Seq<char>>, u64)>,
    diag: DiagCounters,
    diag_after: DiagCounters,
    step: Step<S>,
)
    requires
        is_waited(
            pending,
            ready,
            config,
            now,
            counts,
            counts_after,
            diag,
            diag_after,
            step,
        ),
    ensures
        ready == Ok::<bool, ()>(false) ==> step is Forward && !step->Forward_pending.cold_start
            && step->Forward_pending.authority@ == pending.authority@
            && step->Forward_pending.guard == pending.guard && diag_after == diag && counts_after
            == counts,
        ready == Ok::<bool, ()>(true) ==> step is Probe && step->Probe_pending.cold_start
            && step->Probe_pending.authority@ == pending.authority@ && step->Probe_pending.guard
            == pending.guard && step->started == now && step->attempt == 0 && step->delay.total()
            == 0 && counts_after == counts,
        ready is Err ==> forall|authority: Seq<char>|
            pending.route.failover_url is Some && pending.route.failover_url->0@
                == #[trigger] ("http://"@ + authority) ==> step is Probe
                && step->Probe_pending.cold_start && step->Probe_pending.authority@ == authority
                && step->Probe_pending.target_url@ == pending.route.failover_url->0@
                && step->Probe_pending.guard == pending.guard && step->started == now
                && counts_after == counts,
        (ready == Ok::<bool, ()>(true) || (ready is Err && pending.route.failover_url is Some))
            && diag.requests_cold_start < u64::MAX ==> diag_after.requests_cold_start
            == diag.requests_cold_start + 1,
        ready is Err && pending.route.failover_url is None ==> step is Reply
            && step->Reply_0.status == 502 && step->Reply_0.body@ == BodyView::<S>::Fixed(
            Some(vstd::utf8::encode_utf8("Bad Gateway"@)),
        ) && step->Reply_0.body.counted() == Some(pending.guard@) && diag_after == diag,
        ready is Err && pending.route.failover_url is None ==> ({
            let series = metrics::series(
                pending.method@ + pending.path@ + text::decimal(502) + pending.host@,
            );
            metrics::value_or_zero(counts, series) < u64::MAX ==> metrics::value_or_zero(
                counts_after,
                series,
            ) == metrics::value_or_zero(counts, series) + 1
        }),
{
    assert forall|authority: Seq<char>| url_authority(#[trigger] ("http://"@ + authority))
        == authority by {
        lemma_url_authority(authority);
    }
}

/// What follows a probe: once the backend is reachable it gets the request as it
/// is. Else there is another attempt for five seconds from the first one on; a
/// refused one is followed by a pause of 200 milliseconds, which doubles up to
/// 1600; one that timed out is not. After that the client gets 502.
pub proof fn law_what_follows_a_probe<S>(
    pending: Pending,
    started: u64,
    attempt: u32,
    outcome: ProbeOutcome,
    config: Config,
    now: u64,
    counts: Map<u64, (Seq<Seq<char>>, u64)>,
    counts_after: Map<u64, (Seq<Seq<char>>, u64)>,
    step: Step<S>,
)
    requires
        is_probed(
            pending,
            started,
            attempt,
            outcome,
            config,
            now,
            counts,
            counts_after,
            step,
        ),
    ensures
        outcome is Connected ==> step is Forward && step->Forward_pending == pending
            && counts_after == counts,
        !(outcome is Connected) && now < started + 5_000_000_000 ==> step is Probe
            && step->Probe_pending == pending && step->started == started && counts_after == counts,
        !(outcome is Connected) && now < started + 5_000_000_000 && attempt < u32::MAX
            ==> step->attempt == attempt + 1,
        outcome is TimedOut && now < started + 5_000_000_000 ==> step->delay.total() == 0,
        outcome is Refused && now < started + 5_000_000_000 ==> step->delay.total() == (
        if attempt == 0 {
            200_000_000
        } else if attempt == 1 {
            400_000_000
        } else if attempt == 2 {
            800_000_000
        } else {
            1_600_000_000nat
        }),
        !(outcome is Connected) && now >= started + 5_000_000_000 ==> step is Reply
            && step->Reply_0.status == 502 && step->Reply_0.body@ == BodyView::<S>::Fixed(
            Some(vstd::utf8::encode_utf8("Bad Gateway"@)),
        ) && step->Reply_0.body.counted() == Some(pending.guard@),
        !(outcome is Connected) && now >= started + 5_000_000_000 ==> ({
            let series = metrics::series(
                pending.method@ + pending.path@ + text::decimal(502) + pending.host@,
            );
            metrics::value_or_zero(counts, series) < u64::MAX ==> metrics::value_or_zero(
                counts_after,
                series,
            ) == metrics::value_or_zero(counts, series) + 1
        }),
{
}

/// A response of the backend with a status from 100 to 999 is handed on: the
/// client gets that status, the fields of the backend, with a mark where it was a
/// cold start, and the body of the backend. The request stays counted until the
/// body is sent, and is told among the answered ones under that status.
pub proof fn law_responses_are_handed_on<S>(
    pending: Pending,
    status: u16,
    headers: HeaderMap<HeaderValue>,
    body: RawResponseBody<S>,
    change: Change,
    reply: Reply<S>,
)
    requires
        is_answer(pending, ForwardOutcome::Response { status, headers, body }, change, reply),
        100 <= status,
        status <= 999,
    ensures
        reply.status == status,
        !pending.cold_start ==> fields::header_fields(reply.headers) == fields::header_fields(
            headers,
        ),
        pending.cold_start ==> fields::first_value(
            fields::header_fields(reply.headers),
            "x-keda-http-cold-start"@,
        ) == Some(vstd::utf8::encode_utf8("true"@)),
        pending.cold_start ==> fields::without(
            fields::header_fields(reply.headers),
            "x-keda-http-cold-start"@,
        ) == fields::without(fields::header_fields(headers), "x-keda-http-cold-start"@),
        reply.body@ == BodyView::RawStream(body@),
        reply.body.counted() == Some(pending.guard@),
        change.hosts_after == change.hosts,
        change.diag_after == change.diag,
        ({
            let series = metrics::series(
                pending.method@ + pending.path@ + text::decimal(status as nat) + pending.host@,
            );
            metrics::value_or_zero(change.counts, series) < u64::MAX ==> metrics::value_or_zero(
                change.counts_after,
                series,
            ) == metrics::value_or_zero(change.counts, series) + 1
        }),
{
    law_cold_start_is_marked(fields::header_fields(headers));
}

/// Where there is no response that can be handed on, the client gets 502 where
/// the backend failed or took too long, which is told among the errors, and 500
/// where the status is one that no response can have; then the request is done.
pub proof fn law_without_a_response<S>(
    pending: Pending,
    outcome: ForwardOutcome<S>,
    change: Change,
    reply: Reply<S>,
)
    requires
        is_answer(pending, outcome, change, reply),
    ensures
        !(outcome is Response) ==> reply.status == 502 && reply.body@ == BodyView::<S>::Fixed(
            Some(vstd::utf8::encode_utf8("Bad Gateway"@)),
        ) && reply.body.counted() == Some(pending.guard@) && change.hosts_after == change.hosts,
        !(outcome is Response) && change.diag.requests_backend_error < u64::MAX
            ==> change.diag_after.requests_backend_error == change.diag.requests_backend_error + 1,
        outcome is Response && (outcome->status < 100 || outcome->status > 999) ==> reply.status
            == 500 && reply.body@ == BodyView::<S>::Fixed(
            Some(vstd::utf8::encode_utf8("Internal Server Error"@)),
        ) && reply.body.counted() is None && change.diag_after == change.diag,
        outcome is Response && (outcome->status < 100 || outcome->status > 999)
            && change.hosts.contains_key(pending.guard@)
            && change.hosts[pending.guard@].concurrency > 0
            ==> change.hosts_after[pending.guard@].concurrency
            == change.hosts[pending.guard@].concurrency - 1,
        ({
            let code = if outcome is Response {
                outcome->status as nat
            } else {
                502
            };
            let series = metrics::series(
                pending.method@ + pending.path@ + text::decimal(code) + pending.host@,
            );
            metrics::value_or_zero(change.counts, series) < u64::MAX ==> metrics::value_or_zero(
                change.counts_after,
                series,
            ) == metrics::value_or_zero(change.counts, series) + 1
        }),
        change.diag_after.requests_total == change.diag.requests_total,
        change.diag_after.requests_no_route == change.diag.requests_no_route,
        change.diag_after.requests_cold_start == change.diag.requests_cold_start,
        change.diag_after.requests_unconnected == change.diag.requests_unconnected,
        change.diag_after.connections_established == change.diag.connections_established,
{
}

/// A message of a client that went away is not worth a word, whatever stands
/// around the words that say so. A message without those words is.
pub proof fn law_noise_is_what_says_that_the_client_went_away(
    before: Seq<char>,
    after: Seq<char>,
    message: Seq<char>,
)
    ensures
        is_noise(before + "connection reset"@ + after),
        is_noise(before + "broken pipe"@ + after),
        is_noise(before + "connection closed"@ + after),
        is_noise(message) ==> exists|i: int, j: int|
            0 <= i <= j <= message.len() && (#[trigger] message.subrange(i, j)
                == "connection reset"@ || message.subrange(i, j) == "broken pipe"@
                || message.subrange(i, j) == "connection closed"@),
{
    text::law_texts_contain_their_parts(before, "connection reset"@, after);
    text::law_texts_contain_their_parts(before, "broken pipe"@, after);
    text::law_texts_contain_their_parts(before, "connection closed"@, after);
    if is_noise(message) {
        if text::contains_text(message, "connection reset"@) {
            text::law_contained_texts_are_parts(message, "connection reset"@);
        } else if text::contains_text(message, "broken pipe"@) {
            text::law_contained_texts_are_parts(message, "broken pipe"@);
        } else {
            text::law_contained_texts_are_parts(message, "connection closed"@);
        }
    }
}

/// The probe time has room for as many attempts as it has seconds, where none of
/// them gets an answer.
pub proof fn law_probe_time_has_room_for_five_attempts()
    ensures
        probe_limit().total() == 1_000_000_000,
        5 * probe_limit().total() == PROBE_NANOS,
{
}

/// The backend is asked for what the client asked for, path and query alike.
pub proof fn law_target_is_that_of_the_client(path_and_query: Option<&str>)
    ensures
        path_and_query is Some ==> target_of(path_and_query) == path_and_query->0@,
        path_and_query is None ==> target_of(path_and_query).len() == 1 && target_of(
            path_and_query,
        )[0] == '/',
{
    reveal_strlit("/");
}

/// The connection of a response goes back to the pool where the bytes that it
/// yields complete the body: as many as the headers say, or up to the last
/// chunk. It goes back under the authority that the request went to.
pub proof fn law_connection_of_a_complete_response_goes_back<S>(
    stream: S,
    head: ResponseHead,
    authority: Seq<char>,
    reads: Seq<Seq<u8>>,
    n: u64,
)
    ensures
        body_of(stream, head, authority).authority == authority,
        wire::framing_of(fields::header_fields(head.headers)) == (BodyFraming::ContentLength {
            remaining: n,
        }) && n <= buffer::held(head.rest).len() + body::joined(reads).len() ==> body::returned(
            body_of(stream, head, authority),
            reads,
        ) == Some(stream),
        wire::framing_of(fields::header_fields(head.headers)) == (BodyFraming::ContentLength {
            remaining: n,
        }) && n > buffer::held(head.rest).len() + body::joined(reads).len() ==> body::returned(
            body_of(stream, head, authority),
            reads,
        ) is None,
        wire::framing_of(fields::header_fields(head.headers)) is ReadUntilClose ==> body::returned(
            body_of(stream, head, authority),
            reads,
        ) is None,
{
    let p = body_of(stream, head, authority);
    let all = p.buffered + body::joined(reads);
    body::law_body_is_delivered(p, reads);
    body::law_length_limits_the_body(n, all);
}

/// Every short answer has a text and no headers.
pub proof fn law_short_answers_have_no_headers<S>(
    r: Reply<S>,
    status: u16,
    s: Seq<char>,
    counted: Option<Seq<char>>,
)
    requires
        r.is_text(status, s, counted),
    ensures
        r.status == status,
        fields::header_fields(r.headers).len() == 0,
        r.body@ == BodyView::<S>::Fixed(Some(vstd::utf8::encode_utf8(s))),
        r.body.counted() == counted,
{
}

/// A response that has begun keeps its status and headers.
pub proof fn law_begun_responses_keep_their_head<S>(
    stream: S,
    head: ResponseHead,
    authority: &str,
    r: (u16, HeaderMap<HeaderValue>, RawResponseBody<S>),
)
    requires
        call_ensures(forward_raw::<S>, (stream, head, authority), r),
    ensures
        r.0 == head.status,
        r.1 == head.headers,
        r.2@.stream == Some(stream),
        r.2@.buffered == buffer::held(head.rest),
        r.2@.authority == authority@,
        r.2@.pooled,
{
}

} // verus!
