//! The routing table.
//!
//! A request is matched by its host first: the exact host, then the wildcard
//! hosts from the most to the least specific, then the catch-all `*`. Among
//! the entries of one host the longest path prefix wins, then the one with the
//! most header conditions, then the one that was declared first.

use std::sync::Arc;

use http::{HeaderMap, HeaderValue};
use vstd::hash_map::StringHashMap;
use vstd::prelude::*;

use crate::config;
use crate::config::{parse_go_duration, read_go_duration, GoDuration};
use crate::crd;
use crate::crd::{HTTPScaledObject, HTTPScaledObjectSpec};
use crate::duration::Duration;
use crate::fields;
use crate::fields::{header_get, text_value};
use crate::text;
use crate::text::{append_decimal_int, chars_of, find_char, same_text, starts_with, to_lowercase};

verus! {

// ---------------------------------------------------------------------------
// Text helpers
// ---------------------------------------------------------------------------

/// A path prefix with a leading slash.
pub open spec fn normal_path(p: Seq<char>) -> Seq<char> {
    if p.len() > 0 && p[0] == '/' {
        p
    } else {
        seq!['/'] + p
    }
}

pub fn normalize_path(prefix: &str) -> (r: String)
    ensures
        r@ == normal_path(prefix@),
{
    proof {
        reveal_strlit("/");
    }
    if prefix.is_empty() {
        let r = "/".to_string();
        assert(r@ =~= seq!['/'] + prefix@);
        return r;
    }
    if starts_with(prefix, "/") {
        assert(prefix@.take(1)[0] == prefix@[0]);
        prefix.to_string()
    } else {
        assert(prefix@[0] == '/' ==> prefix@.take(1) =~= seq!['/']);
        assert("/"@ =~= seq!['/']);
        let mut r = "/".to_string();
        r.append(prefix);
        r
    }
}

/// A host without its port. A bracketed address is kept whole.
pub open spec fn without_port(host: Seq<char>) -> Seq<char> {
    if host.len() > 0 && host[0] == '[' {
        host
    } else {
        host.take(text::find(host, ':'))
    }
}

pub fn strip_port(host: &str) -> (r: &str)
    ensures
        r@ == without_port(host@),
{
    let v = chars_of(host);
    if v.len() > 0 && v[0] == '[' {
        return host;
    }
    let n = find_char(&v, ':', 0);
    let r = host.substring_char(0, n);
    assert(r@ =~= host@.take(n as int));
    r
}

pub open spec fn maybe_text(s: Option<String>) -> Option<Seq<char>> {
    match s {
        Some(s) => Some(s@),
        None => None,
    }
}

fn copy_maybe(s: &Option<String>) -> (r: Option<String>)
    ensures
        maybe_text(r) == maybe_text(*s),
{
    match s {
        Some(s) => Some(s.clone()),
        None => None,
    }
}

// ---------------------------------------------------------------------------
// What a table says
// ---------------------------------------------------------------------------

/// A condition on a header: its name, and its value if that matters.
pub struct Condition {
    pub name: Seq<char>,
    pub value: Option<Seq<char>>,
}

/// An entry of the table.
#[verifier::ext_equal]
pub struct Route {
    pub path_prefix: Seq<char>,
    pub conditions: Seq<Condition>,
    pub key: Seq<char>,
    pub service_key: Seq<char>,
    pub target_url: Seq<char>,
    pub authority: Seq<char>,
    pub condition_wait_timeout: Option<Duration>,
    pub response_header_timeout: Option<Duration>,
    pub failover_url: Option<Seq<char>>,
    pub failover_timeout: Option<Duration>,
    pub target_namespace: Seq<char>,
    pub target_service: Seq<char>,
    pub target_port: u16,
}

/// `service.namespace:port`.
pub open spec fn authority_of(service: Seq<char>, namespace: Seq<char>, port: int) -> Seq<char> {
    service + "."@ + namespace + ":"@ + text::decimal_int(port)
}

/// `http://service.namespace:port`.
pub open spec fn url_of(service: Seq<char>, namespace: Seq<char>, port: int) -> Seq<char> {
    "http://"@ + authority_of(service, namespace, port)
}

/// The duration that an optional text denotes, where it denotes one.
pub open spec fn maybe_duration(s: Option<String>) -> Option<Duration> {
    match s {
        Some(s) => match config::go_duration(s@) {
            GoDuration::Value(d) => Some(d),
            _ => None,
        },
        None => None,
    }
}

/// Whether an optional text denotes no duration that is out of range.
pub open spec fn maybe_fits(s: Option<String>) -> bool {
    match s {
        Some(s) => !(config::go_duration(s@) is OutOfRange),
        None => true,
    }
}

/// Whether the timeouts of a resource are within range.
pub open spec fn timeouts_fit(spec: HTTPScaledObjectSpec) -> bool {
    match spec.timeouts {
        Some(t) => maybe_fits(t.condition_wait) && maybe_fits(t.response_header),
        None => true,
    }
}

pub open spec fn all_timeouts_fit(objects: Seq<Arc<HTTPScaledObject>>) -> bool {
    forall|i: int| 0 <= i < objects.len() ==> timeouts_fit((#[trigger] objects[i]).spec)
}

/// The port of the target service; 80 where the resource gives none.
pub open spec fn port_of(spec: HTTPScaledObjectSpec) -> i32 {
    match spec.scale_target_ref.port {
        Some(p) => p,
        None => 80,
    }
}

pub open spec fn conditions_of(spec: HTTPScaledObjectSpec) -> Seq<Condition> {
    spec.headers@.map_values(
        |h: crd::HeaderMatch|
            Condition { name: text::lowercase(h.name@), value: maybe_text(h.value) },
    )
}

/// The entry that a resource makes for one of its path prefixes.
pub open spec fn route_of(o: HTTPScaledObject, prefix: Seq<char>) -> Route {
    let ns = crd::namespace_of(o.metadata);
    let service = o.spec.scale_target_ref.service@;
    Route {
        path_prefix: normal_path(prefix),
        conditions: conditions_of(o.spec),
        key: crd::object_key(o.metadata),
        service_key: ns + "/"@ + service,
        target_url: url_of(service, ns, port_of(o.spec) as int),
        authority: authority_of(service, ns, port_of(o.spec) as int),
        condition_wait_timeout: match o.spec.timeouts {
            Some(t) => maybe_duration(t.condition_wait),
            None => None,
        },
        response_header_timeout: match o.spec.timeouts {
            Some(t) => maybe_duration(t.response_header),
            None => None,
        },
        failover_url: match o.spec.cold_start_timeout_failover_ref {
            Some(f) => Some(url_of(f.service@, ns, f.port as int)),
            None => None,
        },
        failover_timeout: match o.spec.cold_start_timeout_failover_ref {
            Some(f) => Some(
                Duration {
                    secs: if f.timeout_seconds < 0 {
                        0
                    } else {
                        f.timeout_seconds as u64
                    },
                    nanos: 0,
                },
            ),
            None => None,
        },
        target_namespace: ns,
        target_service: service,
        target_port: port_of(o.spec) as u16,
    }
}

pub open spec fn texts(v: Seq<String>) -> Seq<Seq<char>> {
    v.map_values(|s: String| s@)
}

/// The texts of a list, or one default where the list is empty.
pub open spec fn texts_or(v: Seq<String>, default: Seq<char>) -> Seq<Seq<char>> {
    if v.len() == 0 {
        seq![default]
    } else {
        texts(v)
    }
}

/// The hosts of a resource; the catch-all where it names none.
pub open spec fn hosts_of(spec: HTTPScaledObjectSpec) -> Seq<Seq<char>> {
    texts_or(spec.hosts@, "*"@)
}

/// The path prefixes of a resource; every path where it names none.
pub open spec fn prefixes_of(spec: HTTPScaledObjectSpec) -> Seq<Seq<char>> {
    texts_or(spec.path_prefixes@, "/"@)
}

/// The entries that a resource makes for each of its hosts.
pub open spec fn routes_of(o: HTTPScaledObject) -> Seq<Route> {
    prefixes_of(o.spec).map_values(|p: Seq<char>| route_of(o, p))
}

/// `routes` once for each time that `host` is among `hosts`.
pub open spec fn repeated(hosts: Seq<Seq<char>>, routes: Seq<Route>, host: Seq<char>) -> Seq<Route>
    decreases hosts.len(),
{
    if hosts.len() == 0 {
        Seq::empty()
    } else if hosts.last() == host {
        repeated(hosts.drop_last(), routes, host) + routes
    } else {
        repeated(hosts.drop_last(), routes, host)
    }
}

/// The entries for a host in the order in which they are declared.
pub open spec fn declared(objects: Seq<Arc<HTTPScaledObject>>, host: Seq<char>) -> Seq<Route>
    decreases objects.len(),
{
    if objects.len() == 0 {
        Seq::empty()
    } else {
        let o = *objects.last();
        declared(objects.drop_last(), host) + repeated(hosts_of(o.spec), routes_of(o), host)
    }
}

/// The length of a text in bytes.
pub open spec fn byte_len(s: Seq<char>) -> usize {
    vstd::utf8::encode_utf8(s).len() as usize
}

/// Whether `a` goes before `b`: a longer prefix, or as long a prefix and more
/// header conditions.
pub open spec fn outranks(a: Route, b: Route) -> bool {
    ||| byte_len(a.path_prefix) > byte_len(b.path_prefix)
    ||| byte_len(a.path_prefix) == byte_len(b.path_prefix) && a.conditions.len()
        > b.conditions.len()
}

/// The first position at or after `from` whose entry `e` outranks, or the end.
pub open spec fn place(s: Seq<Route>, e: Route, from: int) -> int
    decreases s.len() - from,
{
    if from < 0 || from >= s.len() {
        s.len() as int
    } else if outranks(e, s[from]) {
        from
    } else {
        place(s, e, from + 1)
    }
}

/// `s` with `e` in front of the entries that it outranks.
pub open spec fn insert_ranked(s: Seq<Route>, e: Route) -> Seq<Route> {
    s.insert(place(s, e, 0), e)
}

/// The entries in order of rank; those of one rank stay in their order.
pub open spec fn ranked(s: Seq<Route>) -> Seq<Route>
    decreases s.len(),
{
    if s.len() == 0 {
        s
    } else {
        insert_ranked(ranked(s.drop_last()), s.last())
    }
}

/// The entries of each host, as a table holds them.
pub open spec fn table_of(objects: Seq<Arc<HTTPScaledObject>>) -> spec_fn(Seq<char>) -> Seq<
    Route,
> {
    |host: Seq<char>| ranked(declared(objects, host))
}

// ---------------------------------------------------------------------------
// What a lookup finds
// ---------------------------------------------------------------------------

/// Whether the fields of a request meet a condition.
pub open spec fn meets(fields: Seq<(Seq<char>, Seq<u8>)>, c: Condition) -> bool {
    match fields::value_of(fields, c.name) {
        Some(v) => match c.value {
            Some(expected) => fields::value_text_or_empty(v) == expected,
            None => true,
        },
        None => false,
    }
}

pub open spec fn meets_all(fields: Seq<(Seq<char>, Seq<u8>)>, cs: Seq<Condition>) -> bool {
    forall|i: int| 0 <= i < cs.len() ==> meets(fields, #[trigger] cs[i])
}

/// Whether an entry takes a request.
pub open spec fn takes(r: Route, path: Seq<char>, fields: Seq<(Seq<char>, Seq<u8>)>) -> bool {
    text::has_prefix(path, r.path_prefix) && meets_all(fields, r.conditions)
}

/// The first entry that takes a request.
pub open spec fn first_taking(
    s: Seq<Route>,
    path: Seq<char>,
    fields: Seq<(Seq<char>, Seq<u8>)>,
) -> Option<Route>
    decreases s.len(),
{
    if s.len() == 0 {
        None
    } else if takes(s[0], path, fields) {
        Some(s[0])
    } else {
        first_taking(s.skip(1), path, fields)
    }
}

/// The entry of one host that takes a request, with that host.
pub open spec fn match_host(
    table: spec_fn(Seq<char>) -> Seq<Route>,
    host: Seq<char>,
    path: Seq<char>,
    fields: Seq<(Seq<char>, Seq<u8>)>,
) -> Option<(Seq<char>, Route)> {
    match first_taking(table(host), path, fields) {
        Some(r) => Some((host, r)),
        None => None,
    }
}

/// The first match among the wildcard hosts of `host`: `*.` and what follows
/// its first dot, then its second dot, and so on.
pub open spec fn match_wildcards(
    table: spec_fn(Seq<char>) -> Seq<Route>,
    host: Seq<char>,
    path: Seq<char>,
    fields: Seq<(Seq<char>, Seq<u8>)>,
) -> Option<(Seq<char>, Route)>
    decreases host.len(),
{
    let dot = text::find(host, '.');
    if dot < 0 || dot >= host.len() {
        None
    } else {
        let rest = host.skip(dot + 1);
        match match_host(table, "*."@ + rest, path, fields) {
            Some(m) => Some(m),
            None => match_wildcards(table, rest, path, fields),
        }
    }
}

/// The path that is matched: `/` where a request has none.
pub open spec fn routed_path(path: Seq<char>) -> Seq<char> {
    if path.len() == 0 {
        "/"@
    } else {
        path
    }
}

/// The host and entry that a request leads to.
pub open spec fn find_route(
    table: spec_fn(Seq<char>) -> Seq<Route>,
    host: Seq<char>,
    path: Seq<char>,
    fields: Seq<(Seq<char>, Seq<u8>)>,
) -> Option<(Seq<char>, Route)> {
    let h = without_port(host);
    let p = routed_path(path);
    match match_host(table, h, p, fields) {
        Some(m) => Some(m),
        None => match match_wildcards(table, h, p, fields) {
            Some(m) => Some(m),
            None => match_host(table, "*"@, p, fields),
        },
    }
}

// ---------------------------------------------------------------------------
// Entries
// ---------------------------------------------------------------------------

#[derive(Clone, Debug)]
pub struct HeaderMatcher {
    pub name: String,
    pub value: Option<String>,
}

impl View for HeaderMatcher {
    type V = Condition;

    open spec fn view(&self) -> Condition {
        Condition { name: self.name@, value: maybe_text(self.value) }
    }
}

#[derive(Clone, Debug)]
pub struct RouteEntry {
    pub path_prefix: String,
    pub header_matchers: Vec<HeaderMatcher>,
    pub queue_key: String,
    pub httpso_key: String,
    pub service_key: String,
    pub target_url: String,
    pub authority: String,
    pub condition_wait_timeout: Option<Duration>,
    pub response_header_timeout: Option<Duration>,
    pub failover_url: Option<String>,
    pub failover_timeout: Option<Duration>,
    pub target_namespace: String,
    pub target_service: String,
    pub target_port: u16,
}

pub open spec fn conditions(v: Seq<HeaderMatcher>) -> Seq<Condition> {
    v.map_values(|m: HeaderMatcher| m@)
}

impl View for RouteEntry {
    type V = Route;

    open spec fn view(&self) -> Route {
        Route {
            path_prefix: self.path_prefix@,
            conditions: conditions(self.header_matchers@),
            key: self.queue_key@,
            service_key: self.service_key@,
            target_url: self.target_url@,
            authority: self.authority@,
            condition_wait_timeout: self.condition_wait_timeout,
            response_header_timeout: self.response_header_timeout,
            failover_url: maybe_text(self.failover_url),
            failover_timeout: self.failover_timeout,
            target_namespace: self.target_namespace@,
            target_service: self.target_service@,
            target_port: self.target_port,
        }
    }
}

/// What a lookup tells about the route of a request.
#[derive(Clone, Debug)]
pub struct RouteInfo {
    pub queue_key: String,
    pub httpso_key: String,
    pub service_key: String,
    pub target_url: String,
    pub authority: String,
    pub host: String,
    pub condition_wait_timeout: Option<Duration>,
    pub response_header_timeout: Option<Duration>,
    pub failover_url: Option<String>,
    pub failover_timeout: Option<Duration>,
    pub target_namespace: String,
    pub target_service: String,
    pub target_port: u16,
}

impl RouteInfo {
    /// Whether this is what is told of entry `r`, found under `host`.
    pub open spec fn tells(self, host: Seq<char>, r: Route) -> bool {
        &&& self.host@ == host
        &&& self.queue_key@ == r.key
        &&& self.httpso_key@ == r.key
        &&& self.service_key@ == r.service_key
        &&& self.target_url@ == r.target_url
        &&& self.authority@ == r.authority
        &&& self.condition_wait_timeout == r.condition_wait_timeout
        &&& self.response_header_timeout == r.response_header_timeout
        &&& maybe_text(self.failover_url) == r.failover_url
        &&& self.failover_timeout == r.failover_timeout
        &&& self.target_namespace@ == r.target_namespace
        &&& self.target_service@ == r.target_service
        &&& self.target_port == r.target_port
    }
}

/// Whether an outcome is what `found` says.
pub open spec fn tells_of(info: Option<RouteInfo>, found: Option<(Seq<char>, Route)>) -> bool {
    match (info, found) {
        (Some(i), Some((host, r))) => i.tells(host, r),
        (None, None) => true,
        _ => false,
    }
}

fn authority_text(service: &str, namespace: &str, port: i32) -> (s: String)
    ensures
        s@ == authority_of(service@, namespace@, port as int),
{
    let mut s = service.to_string();
    s.append(".");
    s.append(namespace);
    s.append(":");
    append_decimal_int(&mut s, port);
    s
}

fn url_text(service: &str, namespace: &str, port: i32) -> (s: String)
    ensures
        s@ == url_of(service@, namespace@, port as int),
{
    let mut s = "http://".to_string();
    let a = authority_text(service, namespace, port);
    s.append(a.as_str());
    s
}

fn timeout_of(s: &Option<String>) -> (r: Option<Duration>)
    requires
        maybe_fits(*s),
    ensures
        r == maybe_duration(*s),
{
    match s {
        Some(s) => parse_go_duration(s.as_str()),
        None => None,
    }
}

fn matchers_of(spec: &HTTPScaledObjectSpec) -> (r: Vec<HeaderMatcher>)
    ensures
        conditions(r@) == conditions_of(*spec),
{
    let mut r: Vec<HeaderMatcher> = Vec::new();
    for i in 0..spec.headers.len()
        invariant
            conditions(r@) == conditions_of(*spec).take(i as int),
            r@.len() == i,
    {
        let h = &spec.headers[i];
        r.push(HeaderMatcher { name: to_lowercase(h.name.as_str()), value: copy_maybe(&h.value) });
        assert(conditions(r@) =~= conditions_of(*spec).take(i + 1));
    }
    assert(conditions_of(*spec).take(spec.headers@.len() as int) =~= conditions_of(*spec));
    r
}

fn route_entry(o: &HTTPScaledObject, prefix: &str) -> (r: RouteEntry)
    requires
        timeouts_fit(o.spec),
    ensures
        r@ == route_of(*o, prefix@),
        r.httpso_key@ == r@.key,
{
    let spec = &o.spec;
    let namespace = o.metadata.namespace_or_default();
    let service = spec.scale_target_ref.service.as_str();
    let port: i32 = match spec.scale_target_ref.port {
        Some(p) => p,
        None => 80,
    };
    let (failover_url, failover_timeout) = match &spec.cold_start_timeout_failover_ref {
        Some(f) => (
            Some(url_text(f.service.as_str(), namespace, f.port)),
            Some(
                Duration::from_secs(
                    if f.timeout_seconds < 0 {
                        0
                    } else {
                        f.timeout_seconds as u64
                    },
                ),
            ),
        ),
        None => (None, None),
    };
    let (condition_wait_timeout, response_header_timeout) = match &spec.timeouts {
        Some(t) => (timeout_of(&t.condition_wait), timeout_of(&t.response_header)),
        None => (None, None),
    };
    let mut service_key = namespace.to_string();
    service_key.append("/");
    service_key.append(service);
    let key = o.metadata.key();
    RouteEntry {
        path_prefix: normalize_path(prefix),
        header_matchers: matchers_of(spec),
        queue_key: key.clone(),
        httpso_key: key,
        service_key,
        target_url: url_text(service, namespace, port),
        authority: authority_text(service, namespace, port),
        condition_wait_timeout,
        response_header_timeout,
        failover_url,
        failover_timeout,
        target_namespace: namespace.to_string(),
        target_service: service.to_string(),
        target_port: port as u16,
    }
}

fn list_or(v: &Vec<String>, default: &str) -> (r: Vec<String>)
    ensures
        texts(r@) == texts_or(v@, default@),
{
    let mut r: Vec<String> = Vec::new();
    if v.len() == 0 {
        r.push(default.to_string());
        assert(texts(r@) =~= seq![default@]);
        return r;
    }
    for i in 0..v.len()
        invariant
            r@.len() == i,
            forall|j: int| 0 <= j < i ==> (#[trigger] r@[j])@ == v@[j]@,
    {
        r.push(v[i].clone());
    }
    assert(texts(r@) =~= texts(v@));
    r
}

/// Whether `a` goes before `b`.
fn goes_before(a: &RouteEntry, b: &RouteEntry) -> (r: bool)
    ensures
        r == outranks(a@, b@),
{
    let x = a.path_prefix.as_str().len();
    let y = b.path_prefix.as_str().len();
    x > y || (x == y && a.header_matchers.len() > b.header_matchers.len())
}

// ---------------------------------------------------------------------------
// The table
// ---------------------------------------------------------------------------

pub open spec fn routes(v: Seq<RouteEntry>) -> Seq<Route> {
    v.map_values(|e: RouteEntry| e@)
}

/// The entries of all hosts: per host a list in order of rank.
pub struct TableMemory {
    index: StringHashMap<usize>,
    lists: Vec<Vec<RouteEntry>>,
}

impl TableMemory {
    /// Every host has a list of its own, and the two keys of an entry agree.
    pub closed spec fn wf(self) -> bool {
        &&& forall|h: Seq<char>| #[trigger]
            self.index@.contains_key(h) ==> self.index@[h] < self.lists@.len()
        &&& forall|g: Seq<char>, h: Seq<char>|
            #![trigger self.index@[g], self.index@[h]]
            self.index@.contains_key(g) && self.index@.contains_key(h) && g != h ==> self.index@[g]
                != self.index@[h]
        &&& forall|i: int, j: int|
            #![trigger self.lists@[i]@[j]]
            0 <= i < self.lists@.len() && 0 <= j < self.lists@[i]@.len()
                ==> self.lists@[i]@[j].httpso_key@ == self.lists@[i]@[j].queue_key@
    }

    /// The entries of a host.
    pub closed spec fn entries(self, host: Seq<char>) -> Seq<Route> {
        if self.index@.contains_key(host) {
            routes(self.lists@[self.index@[host] as int]@)
        } else {
            Seq::empty()
        }
    }

    /// The entries of each host.
    pub open spec fn table(self) -> spec_fn(Seq<char>) -> Seq<Route> {
        |host: Seq<char>| self.entries(host)
    }

    /// A table without entries.
    pub fn new() -> (t: TableMemory)
        ensures
            t.wf(),
            forall|host: Seq<char>| #[trigger] t.entries(host) == Seq::<Route>::empty(),
    {
        TableMemory { index: StringHashMap::new(), lists: Vec::new() }
    }

    /// Adds an entry for `host` at its rank.
    fn add_entry(&mut self, host: &str, e: RouteEntry)
        requires
            old(self).wf(),
            e.httpso_key@ == e.queue_key@,
        ensures
            final(self).wf(),
            final(self).entries(host@) == insert_ranked(old(self).entries(host@), e@),
            forall|h: Seq<char>|
                h != host@ ==> #[trigger] final(self).entries(h) == old(self).entries(h),
    {
        let at: Option<usize> = match self.index.get(host) {
            Some(i) => Some(*i),
            None => None,
        };
        match at {
            None => {
                let mut list: Vec<RouteEntry> = Vec::new();
                list.push(e);
                self.index.insert(host.to_string(), self.lists.len());
                self.lists.push(list);
                assert(routes(list@) =~= insert_ranked(Seq::empty(), e@));
                assert forall|h: Seq<char>| h != host@ implies #[trigger] self.entries(h) == old(
                    self,
                ).entries(h) by {
                    if self.index@.contains_key(h) {
                        assert(old(self).index@.contains_key(h));
                    }
                }
            },
            Some(i) => {
                let list = &mut self.lists[i];
                let ghost before = list@;
                let n = list.len();
                let mut p: usize = 0;
                while p < n && !goes_before(&e, &list[p])
                    invariant
                        p <= n,
                        n == list@.len(),
                        list@ == before,
                        place(routes(before), e@, 0) == place(routes(before), e@, p as int),
                    decreases n - p,
                {
                    p += 1;
                }
                list.insert(p, e);
                assert(routes(list@) =~= insert_ranked(routes(before), e@));
            },
        }
    }
}

/// `s` with the entries of `new` inserted one after the other.
spec fn merged(s: Seq<Route>, new: Seq<Route>) -> Seq<Route>
    decreases new.len(),
{
    if new.len() == 0 {
        s
    } else {
        insert_ranked(merged(s, new.drop_last()), new.last())
    }
}

proof fn lemma_merged_twice(s: Seq<Route>, a: Seq<Route>, b: Seq<Route>)
    ensures
        merged(merged(s, a), b) == merged(s, a + b),
    decreases b.len(),
{
    if b.len() == 0 {
        assert(a + b =~= a);
    } else {
        lemma_merged_twice(s, a, b.drop_last());
        assert((a + b).drop_last() =~= a + b.drop_last());
    }
}

proof fn lemma_ranked_sum(a: Seq<Route>, b: Seq<Route>)
    ensures
        ranked(a + b) == merged(ranked(a), b),
    decreases b.len(),
{
    if b.len() == 0 {
        assert(a + b =~= a);
    } else {
        lemma_ranked_sum(a, b.drop_last());
        assert((a + b).drop_last() =~= a + b.drop_last());
    }
}

proof fn lemma_repeated_step(hosts: Seq<Seq<char>>, i: int, rs: Seq<Route>, h: Seq<char>)
    requires
        0 <= i < hosts.len(),
    ensures
        repeated(hosts.take(i + 1), rs, h) == repeated(hosts.take(i), rs, h) + (if hosts[i] == h {
            rs
        } else {
            Seq::empty()
        }),
{
    assert(hosts.take(i + 1).drop_last() =~= hosts.take(i));
    assert(repeated(hosts.take(i), rs, h) + Seq::<Route>::empty() =~= repeated(
        hosts.take(i),
        rs,
        h,
    ));
}

impl TableMemory {
    /// Adds the entries of a resource for one of its hosts.
    fn add_host(&mut self, host: &str, o: &HTTPScaledObject, prefixes: &Vec<String>)
        requires
            old(self).wf(),
            timeouts_fit(o.spec),
            texts(prefixes@) == prefixes_of(o.spec),
        ensures
            final(self).wf(),
            final(self).entries(host@) == merged(old(self).entries(host@), routes_of(*o)),
            forall|h: Seq<char>|
                h != host@ ==> #[trigger] final(self).entries(h) == old(self).entries(h),
    {
        let ghost rs = routes_of(*o);
        for k in 0..prefixes.len()
            invariant
                self.wf(),
                timeouts_fit(o.spec),
                rs == routes_of(*o),
                texts(prefixes@) == prefixes_of(o.spec),
                rs.len() == prefixes@.len(),
                self.entries(host@) == merged(old(self).entries(host@), rs.take(k as int)),
                forall|h: Seq<char>|
                    h != host@ ==> #[trigger] self.entries(h) == old(self).entries(h),
        {
            let e = route_entry(o, prefixes[k].as_str());
            assert(texts(prefixes@)[k as int] == prefixes@[k as int]@);
            assert(e@ == rs[k as int]);
            self.add_entry(host, e);
            assert(rs.take(k + 1).drop_last() =~= rs.take(k as int));
        }
        assert(rs.take(rs.len() as int) =~= rs);
    }

    /// Adds the entries of a resource.
    fn add_object(&mut self, o: &HTTPScaledObject)
        requires
            old(self).wf(),
            timeouts_fit(o.spec),
        ensures
            final(self).wf(),
            forall|h: Seq<char>| #[trigger]
                final(self).entries(h) == merged(
                    old(self).entries(h),
                    repeated(hosts_of(o.spec), routes_of(*o), h),
                ),
    {
        let hosts = list_or(&o.spec.hosts, "*");
        let prefixes = list_or(&o.spec.path_prefixes, "/");
        let ghost rs = routes_of(*o);
        let ghost names = texts(hosts@);
        for j in 0..hosts.len()
            invariant
                self.wf(),
                timeouts_fit(o.spec),
                rs == routes_of(*o),
                names == texts(hosts@),
                texts(prefixes@) == prefixes_of(o.spec),
                forall|h: Seq<char>| #[trigger]
                    self.entries(h) == merged(
                        old(self).entries(h),
                        repeated(names.take(j as int), rs, h),
                    ),
        {
            let ghost before = *self;
            self.add_host(hosts[j].as_str(), o, &prefixes);
            assert forall|h: Seq<char>| #[trigger] self.entries(h) == merged(
                old(self).entries(h),
                repeated(names.take(j + 1), rs, h),
            ) by {
                lemma_repeated_step(names, j as int, rs, h);
                assert(before.entries(h) == merged(
                    old(self).entries(h),
                    repeated(names.take(j as int), rs, h),
                ));
                lemma_merged_twice(
                    old(self).entries(h),
                    repeated(names.take(j as int), rs, h),
                    if names[j as int] == h {
                        rs
                    } else {
                        Seq::empty()
                    },
                );
            }
        }
        assert(names.take(names.len() as int) =~= names);
    }

    /// The table that a list of resources makes.
    pub fn build(objects: &[Arc<HTTPScaledObject>]) -> (t: TableMemory)
        requires
            all_timeouts_fit(objects@),
        ensures
            t.wf(),
            t.table() == table_of(objects@),
    {
        let mut t = TableMemory::new();
        let n = objects.len();
        for i in 0..n
            invariant
                n == objects@.len(),
                all_timeouts_fit(objects@),
                t.wf(),
                forall|h: Seq<char>| #[trigger]
                    t.entries(h) == ranked(declared(objects@.take(i as int), h)),
        {
            let ghost before = t;
            let o: &HTTPScaledObject = &*objects[i];
            t.add_object(o);
            assert forall|h: Seq<char>| #[trigger] t.entries(h) == ranked(
                declared(objects@.take(i + 1), h),
            ) by {
                assert(before.entries(h) == ranked(declared(objects@.take(i as int), h)));
                assert(objects@.take(i + 1).drop_last() =~= objects@.take(i as int));
                lemma_ranked_sum(
                    declared(objects@.take(i as int), h),
                    repeated(hosts_of(o.spec), routes_of(*o), h),
                );
            }
        }
        assert(objects@.take(n as int) =~= objects@);
        assert(t.table() =~= table_of(objects@));
        t
    }
}

/// Whether the timeouts of every resource are within range.
pub fn timeouts_usable(objects: &[Arc<HTTPScaledObject>]) -> (b: bool)
    ensures
        b == all_timeouts_fit(objects@),
{
    let n = objects.len();
    for i in 0..n
        invariant
            n == objects@.len(),
            forall|j: int| 0 <= j < i ==> timeouts_fit((#[trigger] objects@[j]).spec),
    {
        let o: &HTTPScaledObject = &*objects[i];
        let fits = match &o.spec.timeouts {
            Some(t) => timeout_usable(&t.condition_wait) && timeout_usable(&t.response_header),
            None => true,
        };
        if !fits {
            assert(!timeouts_fit(objects@[i as int].spec));
            return false;
        }
    }
    true
}

fn timeout_usable(s: &Option<String>) -> (b: bool)
    ensures
        b == maybe_fits(*s),
{
    match s {
        Some(s) => match read_go_duration(s.as_str()) {
            GoDuration::OutOfRange => false,
            _ => true,
        },
        None => true,
    }
}

// ---------------------------------------------------------------------------
// Lookup
// ---------------------------------------------------------------------------

/// Whether a request with these headers meets all conditions.
fn headers_match(matchers: &Vec<HeaderMatcher>, headers: &HeaderMap<HeaderValue>) -> (b: bool)
    ensures
        b == meets_all(fields::header_fields(*headers), conditions(matchers@)),
{
    let ghost fs = fields::header_fields(*headers);
    let ghost cs = conditions(matchers@);
    for i in 0..matchers.len()
        invariant
            fs == fields::header_fields(*headers),
            cs == conditions(matchers@),
            forall|j: int| 0 <= j < i ==> meets(fs, #[trigger] cs[j]),
    {
        let m = &matchers[i];
        let met = match header_get(headers, m.name.as_str()) {
            Some(v) => match &m.value {
                Some(expected) => match text_value(&v) {
                    Some(s) => same_text(s.as_str(), expected.as_str()),
                    None => expected.as_str().is_empty(),
                },
                None => true,
            },
            None => false,
        };
        assert(cs[i as int] == m@);
        assert(met == meets(fs, cs[i as int])) by {
            if m.value is Some && m.value->0@.len() == 0 {
                assert(m.value->0@ =~= Seq::<char>::empty());
            }
        }
        if !met {
            return false;
        }
    }
    true
}

proof fn lemma_first_taking_skip(
    s: Seq<Route>,
    n: int,
    path: Seq<char>,
    fs: Seq<(Seq<char>, Seq<u8>)>,
)
    requires
        0 <= n <= s.len(),
        forall|j: int| 0 <= j < n ==> !takes(#[trigger] s[j], path, fs),
    ensures
        first_taking(s, path, fs) == first_taking(s.skip(n), path, fs),
    decreases n,
{
    if n == 0 {
        assert(s.skip(0) =~= s);
    } else {
        lemma_first_taking_skip(s, n - 1, path, fs);
        assert(s.skip(n - 1).skip(1) =~= s.skip(n));
        assert(s.skip(n - 1)[0] == s[n - 1]);
    }
}

impl TableMemory {
    /// The first entry of a host that takes the request.
    fn try_match(&self, hostname: &str, path: &str, headers: &HeaderMap<HeaderValue>) -> (r: Option<
        RouteInfo,
    >)
        requires
            self.wf(),
        ensures
            tells_of(
                r,
                match_host(self.table(), hostname@, path@, fields::header_fields(*headers)),
            ),
    {
        let at = match self.index.get(hostname) {
            Some(i) => *i,
            None => {
                return None;
            },
        };
        let list = &self.lists[at];
        let ghost fs = fields::header_fields(*headers);
        let ghost rs = routes(list@);
        assert(self.entries(hostname@) == rs);
        for k in 0..list.len()
            invariant
                self.wf(),
                at < self.lists@.len(),
                *list == self.lists@[at as int],
                fs == fields::header_fields(*headers),
                rs == routes(list@),
                self.entries(hostname@) == rs,
                forall|j: int| 0 <= j < k ==> !takes(#[trigger] rs[j], path@, fs),
        {
            let entry = &list[k];
            assert(rs[k as int] == entry@);
            if starts_with(path, entry.path_prefix.as_str()) && headers_match(
                &entry.header_matchers,
                headers,
            ) {
                proof {
                    lemma_first_taking_skip(rs, k as int, path@, fs);
                    assert(rs.skip(k as int)[0] == entry@);
                    assert(self.lists@[at as int]@[k as int].httpso_key@ == entry.queue_key@);
                }
                return Some(
                    RouteInfo {
                        queue_key: entry.queue_key.clone(),
                        httpso_key: entry.httpso_key.clone(),
                        service_key: entry.service_key.clone(),
                        target_url: entry.target_url.clone(),
                        authority: entry.authority.clone(),
                        host: hostname.to_string(),
                        condition_wait_timeout: entry.condition_wait_timeout,
                        response_header_timeout: entry.response_header_timeout,
                        failover_url: copy_maybe(&entry.failover_url),
                        failover_timeout: entry.failover_timeout,
                        target_namespace: entry.target_namespace.clone(),
                        target_service: entry.target_service.clone(),
                        target_port: entry.target_port,
                    },
                );
            }
        }
        proof {
            lemma_first_taking_skip(rs, rs.len() as int, path@, fs);
        }
        None
    }

    /// The first match among the wildcard hosts of `host`.
    fn try_wildcards(&self, host: &str, path: &str, headers: &HeaderMap<HeaderValue>) -> (r: Option<
        RouteInfo,
    >)
        requires
            self.wf(),
        ensures
            tells_of(
                r,
                match_wildcards(self.table(), host@, path@, fields::header_fields(*headers)),
            ),
    {
        let v = chars_of(host);
        let n = v.len();
        let ghost fs = fields::header_fields(*headers);
        let mut from: usize = 0;
        assert(host@.skip(0) =~= host@);
        loop
            invariant
                self.wf(),
                fs == fields::header_fields(*headers),
                v@ == host@,
                n == v@.len(),
                from <= n,
                match_wildcards(self.table(), host@, path@, fs) == match_wildcards(
                    self.table(),
                    host@.skip(from as int),
                    path@,
                    fs,
                ),
            decreases n - from,
        {
            let dot = find_char(&v, '.', from);
            proof {
                text::lemma_find_skip(host@, '.', from as int);
            }
            if dot == n {
                return None;
            }
            let mut wildcard = "*.".to_string();
            wildcard.append(host.substring_char(dot + 1, n));
            assert(host@.subrange(dot + 1, n as int) =~= host@.skip(from as int).skip(
                dot - from + 1,
            ));
            let found = self.try_match(wildcard.as_str(), path, headers);
            if found.is_some() {
                return found;
            }
            assert(host@.skip(from as int).skip(dot - from + 1) =~= host@.skip(dot + 1));
            from = dot + 1;
        }
    }

    /// The route of a request.
    pub fn lookup(&self, host: &str, path: &str, headers: &HeaderMap<HeaderValue>) -> (r: Option<
        RouteInfo,
    >)
        requires
            self.wf(),
        ensures
            tells_of(r, find_route(self.table(), host@, path@, fields::header_fields(*headers))),
    {
        let stripped = strip_port(host);
        let path = if path.is_empty() {
            "/"
        } else {
            path
        };
        let ghost fs = fields::header_fields(*headers);

        let exact = self.try_match(stripped, path, headers);
        if exact.is_some() {
            return exact;
        }
        let wild = self.try_wildcards(stripped, path, headers);
        if wild.is_some() {
            return wild;
        }
        self.try_match("*", path, headers)
    }
}

/// A routing table that is replaced as a whole whenever a resource changes.
pub struct RoutingTable {
    memory: TableMemory,
    synced: bool,
}

impl RoutingTable {
    pub closed spec fn wf(self) -> bool {
        self.memory.wf()
    }

    /// The entries of each host.
    pub closed spec fn table(self) -> spec_fn(Seq<char>) -> Seq<Route> {
        self.memory.table()
    }

    /// Whether the table has been built at least once.
    pub closed spec fn synced(self) -> bool {
        self.synced
    }

    /// A table without entries that has not been built yet.
    pub fn new() -> (t: RoutingTable)
        ensures
            t.wf(),
            t.table() == table_of(Seq::empty()),
            !t.synced(),
    {
        let memory = TableMemory::new();
        assert(memory.table() =~= table_of(Seq::empty()));
        RoutingTable { memory, synced: false }
    }

    /// The route of a request.
    pub fn route(&self, host: &str, path: &str, headers: &HeaderMap<HeaderValue>) -> (r: Option<
        RouteInfo,
    >)
        requires
            self.wf(),
        ensures
            tells_of(r, find_route(self.table(), host@, path@, fields::header_fields(*headers))),
    {
        self.memory.lookup(host, path, headers)
    }

    /// Replaces the table by the one that `objects` make.
    pub fn rebuild(&mut self, objects: &[Arc<HTTPScaledObject>])
        requires
            all_timeouts_fit(objects@),
        ensures
            final(self).wf(),
            final(self).table() == table_of(objects@),
            final(self).synced(),
    {
        self.memory = TableMemory::build(objects);
        self.synced = true;
    }

    /// `true` once the table has been built at least once.
    pub fn has_synced(&self) -> (b: bool)
        ensures
            b == self.synced(),
    {
        self.synced
    }
}

// ---------------------------------------------------------------------------
// Laws
// ---------------------------------------------------------------------------

/// Whether no entry stands behind one that it outranks.
pub open spec fn in_order(s: Seq<Route>) -> bool {
    forall|i: int, j: int| 0 <= i < j < s.len() ==> !outranks(#[trigger] s[j], #[trigger] s[i])
}

proof fn lemma_place(s: Seq<Route>, e: Route, from: int)
    requires
        0 <= from <= s.len(),
    ensures
        from <= place(s, e, from) <= s.len(),
        forall|i: int| from <= i < place(s, e, from) ==> !outranks(e, #[trigger] s[i]),
        place(s, e, from) < s.len() ==> outranks(e, s[place(s, e, from)]),
    decreases s.len() - from,
{
    if from < s.len() && !outranks(e, s[from]) {
        lemma_place(s, e, from + 1);
    }
}

/// The entries of a host are in order of rank.
pub proof fn law_table_in_order(objects: Seq<Arc<HTTPScaledObject>>, host: Seq<char>)
    ensures
        in_order(table_of(objects)(host)),
{
    lemma_ranked_in_order(declared(objects, host));
}

proof fn lemma_ranked_in_order(s: Seq<Route>)
    ensures
        in_order(ranked(s)),
    decreases s.len(),
{
    if s.len() > 0 {
        lemma_ranked_in_order(s.drop_last());
        let r = ranked(s.drop_last());
        let e = s.last();
        lemma_place(r, e, 0);
        let p = place(r, e, 0);
        let t = insert_ranked(r, e);
        assert forall|i: int, j: int| 0 <= i < j < t.len() implies !outranks(
            #[trigger] t[j],
            #[trigger] t[i],
        ) by {
            if j == p {
                assert(t[i] == r[i]);
            } else if i == p {
                assert(t[j] == r[j - 1]);
                assert(outranks(e, r[p]));
            } else if j < p {
                assert(t[i] == r[i] && t[j] == r[j]);
            } else if i > p {
                assert(t[i] == r[i - 1] && t[j] == r[j - 1]);
            } else {
                assert(t[i] == r[i] && t[j] == r[j - 1]);
            }
        }
    }
}

/// Whether neither of two entries goes before the other.
pub open spec fn same_rank(a: Route, b: Route) -> bool {
    !outranks(a, b) && !outranks(b, a)
}

/// The entries of a host that are of one rank, whichever it is, stand in the
/// order in which the resources declare them, each as often as there.
pub proof fn law_equal_rank_keeps_its_order(
    objects: Seq<Arc<HTTPScaledObject>>,
    host: Seq<char>,
    e: Route,
)
    ensures
        table_of(objects)(host).filter(|r: Route| same_rank(r, e)) == declared(
            objects,
            host,
        ).filter(|r: Route| same_rank(r, e)),
{
    lemma_ranked_filter(declared(objects, host), e);
}

proof fn lemma_ranked_filter(s: Seq<Route>, e: Route)
    ensures
        ranked(s).filter(|r: Route| same_rank(r, e)) == s.filter(|r: Route| same_rank(r, e)),
    decreases s.len(),
{
    let pred = |r: Route| same_rank(r, e);
    reveal(Seq::filter);
    if s.len() > 0 {
        let init = s.drop_last();
        let x = s.last();
        let r = ranked(init);
        lemma_ranked_filter(init, e);
        lemma_ranked_in_order(init);
        lemma_place(r, x, 0);
        let p = place(r, x, 0);
        let front = r.take(p);
        let back = r.skip(p);
        assert(r =~= front + back);
        assert(insert_ranked(r, x) =~= front.push(x) + back);
        Seq::filter_distributes_over_add(front, back, pred);
        Seq::filter_distributes_over_add(front.push(x), back, pred);
        assert(front.push(x).drop_last() =~= front);
        if same_rank(x, e) {
            assert forall|i: int| 0 <= i < back.len() implies !pred(#[trigger] back[i]) by {
                assert(back[i] == r[p + i]);
                assert(outranks(x, r[p]));
                if i > 0 {
                    assert(!outranks(r[p + i], r[p]));
                }
            }
            lemma_filter_nothing(back, pred);
            assert(front.filter(pred) + Seq::<Route>::empty() =~= front.filter(pred));
            assert(front.filter(pred).push(x) + Seq::<Route>::empty() =~= front.filter(pred).push(
                x,
            ));
        }
    }
}

proof fn lemma_filter_nothing(s: Seq<Route>, pred: spec_fn(Route) -> bool)
    requires
        forall|i: int| 0 <= i < s.len() ==> !pred(#[trigger] s[i]),
    ensures
        s.filter(pred) == Seq::<Route>::empty(),
    decreases s.len(),
{
    reveal(Seq::filter);
    if s.len() > 0 {
        assert forall|i: int| 0 <= i < s.drop_last().len() implies !pred(
            #[trigger] s.drop_last()[i],
        ) by {
            assert(s.drop_last()[i] == s[i]);
        }
        lemma_filter_nothing(s.drop_last(), pred);
    }
}

proof fn lemma_first_taking_some(
    s: Seq<Route>,
    path: Seq<char>,
    fs: Seq<(Seq<char>, Seq<u8>)>,
) -> (k: int)
    ensures
        0 <= k <= s.len(),
        forall|j: int| 0 <= j < k ==> !takes(#[trigger] s[j], path, fs),
        k < s.len() ==> takes(s[k], path, fs) && first_taking(s, path, fs) == Some(s[k]),
        k == s.len() ==> first_taking(s, path, fs) is None,
    decreases s.len(),
{
    if s.len() == 0 {
        0
    } else if takes(s[0], path, fs) {
        0
    } else {
        let t = s.skip(1);
        let k = lemma_first_taking_some(t, path, fs);
        assert forall|j: int| 0 <= j < k + 1 implies !takes(#[trigger] s[j], path, fs) by {
            if j > 0 {
                assert(t[j - 1] == s[j]);
            }
        }
        k + 1
    }
}

proof fn lemma_first_taking_inserted(
    s: Seq<Route>,
    e: Route,
    path: Seq<char>,
    fs: Seq<(Seq<char>, Seq<u8>)>,
)
    requires
        in_order(s),
    ensures
        first_taking(insert_ranked(s, e), path, fs) == (if takes(e, path, fs) && (first_taking(
            s,
            path,
            fs,
        ) is None || outranks(e, first_taking(s, path, fs)->0)) {
            Some(e)
        } else {
            first_taking(s, path, fs)
        }),
{
    lemma_place(s, e, 0);
    let p = place(s, e, 0);
    let t = insert_ranked(s, e);
    let k = lemma_first_taking_some(s, path, fs);
    let m = lemma_first_taking_some(t, path, fs);
    assert(forall|i: int| 0 <= i < p ==> t[i] == s[i]);
    assert(t[p] == e);
    assert(forall|i: int| p < i < t.len() ==> #[trigger] t[i] == s[i - 1]);
    if k < p {
        assert(t[k] == s[k]);
        if m < k {
            assert(t[m] == s[m]);
        }
        assert(!outranks(e, s[k]));
    } else if takes(e, path, fs) {
        if m < p {
            assert(t[m] == s[m]);
        }
        assert(m == p);
        if k < s.len() {
            assert(outranks(e, s[p]));
            assert(k > p ==> !outranks(s[k], s[p]));
        }
    } else {
        if m < p {
            assert(t[m] == s[m]);
        } else if m > p && m <= k {
            assert(t[m] == s[m - 1]);
        }
        if k < s.len() {
            assert(t[k + 1] == s[k]);
        } else if m < t.len() && m > p {
            assert(t[m] == s[m - 1]);
        }
    }
}

/// Whether entry `i` is the best of those that take a request: none outranks
/// it, and of the same rank it was declared first.
pub open spec fn is_best(
    s: Seq<Route>,
    i: int,
    path: Seq<char>,
    fields: Seq<(Seq<char>, Seq<u8>)>,
) -> bool {
    &&& 0 <= i < s.len()
    &&& takes(s[i], path, fields)
    &&& forall|j: int|
        0 <= j < s.len() && takes(#[trigger] s[j], path, fields) ==> !outranks(s[j], s[i])
    &&& forall|j: int| 0 <= j < i && takes(#[trigger] s[j], path, fields) ==> outranks(s[i], s[j])
}

/// Among the entries declared for a host, the one with the longest path prefix
/// wins, then the one with the most header conditions, then the one declared
/// first; and there is a winner whenever an entry takes the request.
pub proof fn law_best_entry_wins(
    objects: Seq<Arc<HTTPScaledObject>>,
    host: Seq<char>,
    path: Seq<char>,
    fields: Seq<(Seq<char>, Seq<u8>)>,
)
    ensures
        match match_host(table_of(objects), host, path, fields) {
            Some((h, r)) => h == host && exists|i: int|
                #[trigger] is_best(declared(objects, host), i, path, fields) && r == declared(
                    objects,
                    host,
                )[i],
            None => forall|i: int|
                0 <= i < declared(objects, host).len() ==> !takes(
                    #[trigger] declared(objects, host)[i],
                    path,
                    fields,
                ),
        },
{
    lemma_best(declared(objects, host), path, fields);
}

proof fn lemma_best(s: Seq<Route>, path: Seq<char>, fs: Seq<(Seq<char>, Seq<u8>)>)
    ensures
        match first_taking(ranked(s), path, fs) {
            Some(r) => exists|i: int| #[trigger] is_best(s, i, path, fs) && r == s[i],
            None => forall|i: int| 0 <= i < s.len() ==> !takes(#[trigger] s[i], path, fs),
        },
    decreases s.len(),
{
    if s.len() > 0 {
        let t = s.drop_last();
        let e = s.last();
        let n = s.len() - 1;
        lemma_best(t, path, fs);
        lemma_ranked_in_order(t);
        lemma_first_taking_inserted(ranked(t), e, path, fs);
        assert(forall|j: int| 0 <= j < n ==> t[j] == s[j]);
        match first_taking(ranked(t), path, fs) {
            Some(r) => {
                let i = choose|i: int| #[trigger] is_best(t, i, path, fs) && r == t[i];
                if takes(e, path, fs) && outranks(e, r) {
                    assert forall|j: int|
                        0 <= j < n && takes(#[trigger] s[j], path, fs) implies outranks(
                        s[n],
                        s[j],
                    ) by {
                        assert(t[j] == s[j]);
                        assert(!outranks(t[j], t[i]));
                    }
                    assert(is_best(s, n, path, fs));
                } else {
                    assert forall|j: int|
                        0 <= j < s.len() && takes(#[trigger] s[j], path, fs) implies !outranks(
                        s[j],
                        s[i],
                    ) by {
                        if j < n {
                            assert(t[j] == s[j]);
                        }
                    }
                    assert forall|j: int|
                        0 <= j < i && takes(#[trigger] s[j], path, fs) implies outranks(
                        s[i],
                        s[j],
                    ) by {
                        assert(t[j] == s[j]);
                    }
                    assert(is_best(s, i, path, fs));
                }
            },
            None => {
                assert forall|j: int| 0 <= j < n implies !takes(#[trigger] s[j], path, fs) by {
                    assert(t[j] == s[j]);
                }
                if takes(e, path, fs) {
                    assert(is_best(s, n, path, fs));
                }
            },
        }
    }
}

/// The wildcard hosts of `host`, the most specific first.
pub open spec fn wildcard_hosts(host: Seq<char>) -> Seq<Seq<char>>
    decreases host.len(),
{
    let dot = text::find(host, '.');
    if dot < 0 || dot >= host.len() {
        Seq::empty()
    } else {
        let rest = host.skip(dot + 1);
        seq!["*."@ + rest] + wildcard_hosts(rest)
    }
}

/// The hosts that are tried for a request, in order.
pub open spec fn hosts_tried(host: Seq<char>) -> Seq<Seq<char>> {
    seq![without_port(host)] + wildcard_hosts(without_port(host)) + seq!["*"@]
}

/// The first of `hosts` with a match.
pub open spec fn first_match(
    table: spec_fn(Seq<char>) -> Seq<Route>,
    hosts: Seq<Seq<char>>,
    path: Seq<char>,
    fields: Seq<(Seq<char>, Seq<u8>)>,
) -> Option<(Seq<char>, Route)>
    decreases hosts.len(),
{
    if hosts.len() == 0 {
        None
    } else {
        match match_host(table, hosts[0], path, fields) {
            Some(m) => Some(m),
            None => first_match(table, hosts.skip(1), path, fields),
        }
    }
}

/// A request goes to the exact host if an entry there takes it, else to the
/// most specific wildcard host with such an entry, else to the catch-all.
pub proof fn law_host_order(
    table: spec_fn(Seq<char>) -> Seq<Route>,
    host: Seq<char>,
    path: Seq<char>,
    fields: Seq<(Seq<char>, Seq<u8>)>,
)
    ensures
        find_route(table, host, path, fields) == first_match(
            table,
            hosts_tried(host),
            routed_path(path),
            fields,
        ),
{
    let h = without_port(host);
    let tail = wildcard_hosts(h) + seq!["*"@];
    assert(hosts_tried(host).skip(1) =~= tail);
    assert(hosts_tried(host)[0] == h);
    lemma_first_match_wildcards(table, h, routed_path(path), fields);
}

proof fn lemma_first_match_wildcards(
    table: spec_fn(Seq<char>) -> Seq<Route>,
    h: Seq<char>,
    path: Seq<char>,
    fs: Seq<(Seq<char>, Seq<u8>)>,
)
    ensures
        first_match(table, wildcard_hosts(h) + seq!["*"@], path, fs) == (match match_wildcards(
            table,
            h,
            path,
            fs,
        ) {
            Some(m) => Some(m),
            None => match_host(table, "*"@, path, fs),
        }),
    decreases h.len(),
{
    let all = wildcard_hosts(h) + seq!["*"@];
    let dot = text::find(h, '.');
    text::lemma_find_from(h, '.', 0);
    if dot < h.len() {
        let rest = h.skip(dot + 1);
        lemma_first_match_wildcards(table, rest, path, fs);
        assert(all.skip(1) =~= wildcard_hosts(rest) + seq!["*"@]);
    } else {
        assert(all =~= seq!["*"@]);
        assert(all.skip(1) =~= Seq::<Seq<char>>::empty());
        assert(first_match(table, all.skip(1), path, fs) is None);
    }
}

/// What follows any dot of a host, behind `*.`, is among its wildcard hosts.
pub proof fn law_wildcards_cover_every_dot(host: Seq<char>, dot: int)
    requires
        0 <= dot < host.len(),
        host[dot] == '.',
    ensures
        wildcard_hosts(host).contains("*."@ + host.skip(dot + 1)),
    decreases host.len(),
{
    let first = text::find(host, '.');
    text::lemma_find_from(host, '.', 0);
    let rest = host.skip(first + 1);
    if dot == first {
        assert(wildcard_hosts(host)[0] == "*."@ + rest);
    } else {
        law_wildcards_cover_every_dot(rest, dot - first - 1);
        assert(rest.skip(dot - first) =~= host.skip(dot + 1));
        let i = choose|i: int|
            0 <= i < wildcard_hosts(rest).len() && wildcard_hosts(rest)[i] == "*."@ + rest.skip(
                dot - first,
            );
        assert(wildcard_hosts(host)[i + 1] == wildcard_hosts(rest)[i]);
    }
}

/// The port in the host of a request does not matter.
pub proof fn law_port_is_ignored(
    table: spec_fn(Seq<char>) -> Seq<Route>,
    host: Seq<char>,
    port: Seq<char>,
    path: Seq<char>,
    fields: Seq<(Seq<char>, Seq<u8>)>,
)
    requires
        host.len() > 0 ==> host[0] != '[',
        !host.contains(':'),
    ensures
        find_route(table, host + seq![':'] + port, path, fields) == find_route(
            table,
            host,
            path,
            fields,
        ),
{
    let full = host + seq![':'] + port;
    text::lemma_find_from(full, ':', 0);
    text::lemma_find_from(host, ':', 0);
    let a = text::find(full, ':');
    assert(full[host.len() as int] == ':');
    if a < host.len() {
        assert(full[a] == host[a]);
    }
    assert(without_port(full) =~= host);
    assert(without_port(host) =~= host);
}

/// A request without a path is one for `/`.
pub proof fn law_empty_path_is_root(
    table: spec_fn(Seq<char>) -> Seq<Route>,
    host: Seq<char>,
    fields: Seq<(Seq<char>, Seq<u8>)>,
)
    ensures
        find_route(table, host, Seq::empty(), fields) == find_route(table, host, "/"@, fields),
{
    reveal_strlit("/");
}

proof fn lemma_ranked_contains(s: Seq<Route>, e: Route)
    ensures
        ranked(s).contains(e) <==> s.contains(e),
        ranked(s).len() == s.len(),
    decreases s.len(),
{
    if s.len() > 0 {
        let init = s.drop_last();
        let x = s.last();
        let r = ranked(init);
        lemma_ranked_contains(init, e);
        lemma_place(r, x, 0);
        let p = place(r, x, 0);
        let t = ranked(s);
        assert(t =~= r.insert(p, x));
        if s.contains(e) {
            let i = choose|i: int| 0 <= i < s.len() && s[i] == e;
            if i < init.len() {
                assert(init[i] == e);
                let j = choose|j: int| 0 <= j < r.len() && r[j] == e;
                if j < p {
                    assert(t[j] == e);
                } else {
                    assert(t[j + 1] == e);
                }
            } else {
                assert(t[p] == e);
            }
        }
        if t.contains(e) {
            let j = choose|j: int| 0 <= j < t.len() && t[j] == e;
            if j == p {
                assert(s[s.len() - 1] == e);
            } else {
                if j < p {
                    assert(r[j] == e);
                } else {
                    assert(r[j - 1] == e);
                }
                let i = choose|i: int| 0 <= i < init.len() && init[i] == e;
                assert(s[i] == e);
            }
        }
    }
}

proof fn lemma_repeated_contains(
    hosts: Seq<Seq<char>>,
    rs: Seq<Route>,
    host: Seq<char>,
    e: Route,
)
    ensures
        repeated(hosts, rs, host).contains(e) <==> hosts.contains(host) && rs.contains(e),
    decreases hosts.len(),
{
    if hosts.len() > 0 {
        let init = hosts.drop_last();
        lemma_repeated_contains(init, rs, host, e);
        let a = repeated(init, rs, host);
        let all = repeated(hosts, rs, host);
        assert(hosts.contains(host) <==> init.contains(host) || hosts.last() == host) by {
            if init.contains(host) {
                let i = choose|i: int| 0 <= i < init.len() && init[i] == host;
                assert(hosts[i] == host);
            }
            if hosts.last() == host {
                assert(hosts[hosts.len() - 1] == host);
            }
            if hosts.contains(host) {
                let i = choose|i: int| 0 <= i < hosts.len() && hosts[i] == host;
                if i < init.len() {
                    assert(init[i] == host);
                }
            }
        }
        if hosts.last() == host {
            lemma_sum_contains(a, rs, e);
        }
    }
}

proof fn lemma_sum_contains(a: Seq<Route>, b: Seq<Route>, e: Route)
    ensures
        (a + b).contains(e) <==> a.contains(e) || b.contains(e),
{
    if a.contains(e) {
        let i = choose|i: int| 0 <= i < a.len() && a[i] == e;
        assert((a + b)[i] == e);
    }
    if b.contains(e) {
        let i = choose|i: int| 0 <= i < b.len() && b[i] == e;
        assert((a + b)[a.len() + i] == e);
    }
    if (a + b).contains(e) {
        let i = choose|i: int| 0 <= i < (a + b).len() && (a + b)[i] == e;
        if i < a.len() {
            assert(a[i] == e);
        } else {
            assert(b[i - a.len()] == e);
        }
    }
}

proof fn lemma_declared_contains(
    objects: Seq<Arc<HTTPScaledObject>>,
    host: Seq<char>,
    n: int,
    e: Route,
)
    requires
        0 <= n < objects.len(),
        hosts_of(objects[n].spec).contains(host),
        routes_of(*objects[n]).contains(e),
    ensures
        declared(objects, host).contains(e),
    decreases objects.len(),
{
    let init = objects.drop_last();
    let o = *objects.last();
    let a = declared(init, host);
    let b = repeated(hosts_of(o.spec), routes_of(o), host);
    lemma_sum_contains(a, b, e);
    if n < init.len() {
        assert(init[n] == objects[n]);
        lemma_declared_contains(init, host, n, e);
    } else {
        lemma_repeated_contains(hosts_of(o.spec), routes_of(o), host, e);
    }
}

proof fn lemma_declared_by(objects: Seq<Arc<HTTPScaledObject>>, host: Seq<char>, e: Route) -> (n:
    int)
    requires
        declared(objects, host).contains(e),
    ensures
        0 <= n < objects.len(),
        hosts_of(objects[n].spec).contains(host),
        routes_of(*objects[n]).contains(e),
    decreases objects.len(),
{
    if objects.len() == 0 {
        0
    } else {
        let init = objects.drop_last();
        let o = *objects.last();
        let a = declared(init, host);
        let b = repeated(hosts_of(o.spec), routes_of(o), host);
        lemma_sum_contains(a, b, e);
        if a.contains(e) {
            let n = lemma_declared_by(init, host, e);
            assert(init[n] == objects[n]);
            n
        } else {
            lemma_repeated_contains(hosts_of(o.spec), routes_of(o), host, e);
            objects.len() - 1
        }
    }
}

/// What an entry takes over from its resource.
pub open spec fn stands_for(e: Route, o: HTTPScaledObject, prefix: Seq<char>) -> bool {
    let ns = match o.metadata.namespace {
        Some(ns) => ns@,
        None => "default"@,
    };
    let name = match o.metadata.name {
        Some(name) => name@,
        None => "unknown"@,
    };
    &&& e.key == ns + "/"@ + name
    &&& e.target_namespace == ns
    &&& e.target_service == o.spec.scale_target_ref.service@
    &&& e.path_prefix.len() > 0 && e.path_prefix[0] == '/'
    &&& if prefix.len() > 0 && prefix[0] == '/' {
        e.path_prefix == prefix
    } else {
        e.path_prefix.skip(1) == prefix
    }
}

/// Every resource has an entry in the table for each of its hosts and each of
/// its path prefixes; without hosts for `*`, without prefixes for `/`.
pub proof fn law_every_host_and_prefix_has_an_entry(
    objects: Seq<Arc<HTTPScaledObject>>,
    n: int,
    i: int,
    k: int,
)
    requires
        0 <= n < objects.len(),
    ensures
        ({
            let o = *objects[n];
            let hosts = o.spec.hosts@;
            let prefixes = o.spec.path_prefixes@;
            &&& 0 <= i < hosts.len() && 0 <= k < prefixes.len() ==> exists|j: int|
                0 <= j < table_of(objects)(hosts[i]@).len() && stands_for(
                    #[trigger] table_of(objects)(hosts[i]@)[j],
                    o,
                    prefixes[k]@,
                )
            &&& 0 <= i < hosts.len() && prefixes.len() == 0 ==> exists|j: int|
                0 <= j < table_of(objects)(hosts[i]@).len() && stands_for(
                    #[trigger] table_of(objects)(hosts[i]@)[j],
                    o,
                    "/"@,
                )
            &&& hosts.len() == 0 && 0 <= k < prefixes.len() ==> exists|j: int|
                0 <= j < table_of(objects)("*"@).len() && stands_for(
                    #[trigger] table_of(objects)("*"@)[j],
                    o,
                    prefixes[k]@,
                )
            &&& hosts.len() == 0 && prefixes.len() == 0 ==> exists|j: int|
                0 <= j < table_of(objects)("*"@).len() && stands_for(
                    #[trigger] table_of(objects)("*"@)[j],
                    o,
                    "/"@,
                )
        }),
{
    let o = *objects[n];
    let hosts = o.spec.hosts@;
    let prefixes = o.spec.path_prefixes@;
    if (0 <= i < hosts.len() || hosts.len() == 0) && (0 <= k < prefixes.len() || prefixes.len()
        == 0) {
        let at = if hosts.len() == 0 {
            0
        } else {
            i
        };
        let place = if prefixes.len() == 0 {
            0
        } else {
            k
        };
        let host = hosts_of(o.spec)[at];
        let prefix = prefixes_of(o.spec)[place];
        assert(host == if hosts.len() == 0 {
            "*"@
        } else {
            hosts[i]@
        });
        assert(prefix == if prefixes.len() == 0 {
            "/"@
        } else {
            prefixes[k]@
        });
        let e = route_of(o, prefix);
        assert(hosts_of(o.spec).contains(host));
        assert(routes_of(o)[place] == e);
        assert(routes_of(o).contains(e));
        lemma_declared_contains(objects, host, n, e);
        lemma_ranked_contains(declared(objects, host), e);
        lemma_stands_for(o, prefix);
        let t = table_of(objects)(host);
        let j = choose|j: int| 0 <= j < t.len() && t[j] == e;
        assert(stands_for(t[j], o, prefix));
    }
}

proof fn lemma_stands_for(o: HTTPScaledObject, prefix: Seq<char>)
    ensures
        stands_for(route_of(o, prefix), o, prefix),
{
    let p = normal_path(prefix);
    if !(prefix.len() > 0 && prefix[0] == '/') {
        assert(p.skip(1) =~= prefix);
    }
}

/// Every entry of the table comes from a resource that names its host, or names
/// none where the host is `*`, with one of the prefixes of that resource, or `/`
/// where it names none.
pub proof fn law_every_entry_comes_from_a_resource(
    objects: Seq<Arc<HTTPScaledObject>>,
    host: Seq<char>,
    j: int,
) -> (r: (int, Seq<char>))
    requires
        0 <= j < table_of(objects)(host).len(),
    ensures
        0 <= r.0 < objects.len(),
        ({
            let o = *objects[r.0];
            let hosts = o.spec.hosts@;
            let prefixes = o.spec.path_prefixes@;
            &&& table_of(objects)(host)[j] == route_of(o, r.1)
            &&& stands_for(table_of(objects)(host)[j], o, r.1)
            &&& if hosts.len() == 0 {
                host == "*"@
            } else {
                exists|i: int| 0 <= i < hosts.len() && (#[trigger] hosts[i])@ == host
            }
            &&& if prefixes.len() == 0 {
                r.1 == "/"@
            } else {
                exists|k: int| 0 <= k < prefixes.len() && (#[trigger] prefixes[k])@ == r.1
            }
        }),
{
    let t = table_of(objects)(host);
    let e = t[j];
    assert(t.contains(e));
    lemma_ranked_contains(declared(objects, host), e);
    let n = lemma_declared_by(objects, host, e);
    let o = *objects[n];
    let hosts = o.spec.hosts@;
    let prefixes = o.spec.path_prefixes@;
    let i = choose|i: int| 0 <= i < hosts_of(o.spec).len() && hosts_of(o.spec)[i] == host;
    let k = choose|k: int| 0 <= k < routes_of(o).len() && routes_of(o)[k] == e;
    let prefix = prefixes_of(o.spec)[k];
    lemma_stands_for(o, prefix);
    if hosts.len() > 0 {
        assert(hosts[i]@ == host);
    }
    if prefixes.len() > 0 {
        assert(prefixes[k]@ == prefix);
    }
    (n, prefix)
}

/// What an entry tells about its resource: where requests go, under which keys
/// they are counted and waited for, how long they wait, where they fail over to,
/// and which header conditions there are.
pub proof fn law_entries_tell_what_the_resource_says(o: HTTPScaledObject, prefix: Seq<char>)
    ensures
        ({
            let e = route_of(o, prefix);
            let spec = o.spec;
            let ns = match o.metadata.namespace {
                Some(ns) => ns@,
                None => "default"@,
            };
            let service = spec.scale_target_ref.service@;
            &&& stands_for(e, o, prefix)
            &&& e.service_key == ns + "/"@ + service
            &&& spec.scale_target_ref.port is Some ==> e.authority == service + "."@ + ns + ":"@
                + text::decimal_int(spec.scale_target_ref.port->0 as int)
            &&& spec.scale_target_ref.port is None ==> e.authority == service + "."@ + ns + ":80"@
            &&& e.target_url == "http://"@ + e.authority
            &&& spec.scale_target_ref.port is None ==> e.target_port == 80
            &&& spec.scale_target_ref.port is Some && 0 <= spec.scale_target_ref.port->0 <= 65535
                ==> e.target_port == spec.scale_target_ref.port->0
            &&& spec.cold_start_timeout_failover_ref is None ==> e.failover_url is None
                && e.failover_timeout is None
            &&& spec.cold_start_timeout_failover_ref is Some ==> e.failover_url == Some(
                "http://"@ + (spec.cold_start_timeout_failover_ref->0.service@ + "."@ + ns + ":"@
                    + text::decimal_int(spec.cold_start_timeout_failover_ref->0.port as int)),
            ) && e.failover_timeout is Some && e.failover_timeout->0.nanos == 0
            &&& spec.cold_start_timeout_failover_ref is Some
                && spec.cold_start_timeout_failover_ref->0.timeout_seconds >= 0
                ==> e.failover_timeout->0.secs
                == spec.cold_start_timeout_failover_ref->0.timeout_seconds
            &&& spec.cold_start_timeout_failover_ref is Some
                && spec.cold_start_timeout_failover_ref->0.timeout_seconds < 0
                ==> e.failover_timeout->0.secs == 0
            &&& spec.timeouts is None ==> e.condition_wait_timeout is None
                && e.response_header_timeout is None
            &&& spec.timeouts is Some && spec.timeouts->0.condition_wait is None
                ==> e.condition_wait_timeout is None
            &&& spec.timeouts is Some && spec.timeouts->0.response_header is None
                ==> e.response_header_timeout is None
            &&& spec.timeouts is Some && spec.timeouts->0.condition_wait is Some
                && config::go_duration(spec.timeouts->0.condition_wait->0@) is Value
                    ==> e.condition_wait_timeout
                == Some(config::go_duration(spec.timeouts->0.condition_wait->0@)->Value_0)
            &&& spec.timeouts is Some && spec.timeouts->0.response_header is Some
                && config::go_duration(spec.timeouts->0.response_header->0@) is Value
                    ==> e.response_header_timeout
                == Some(config::go_duration(spec.timeouts->0.response_header->0@)->Value_0)
            &&& e.conditions.len() == spec.headers@.len()
            &&& forall|i: int|
                0 <= i < spec.headers@.len() ==> (#[trigger] e.conditions[i]).name
                    == text::lowercase(spec.headers@[i].name@) && (match spec.headers@[i].value {
                    Some(v) => e.conditions[i].value == Some(v@),
                    None => e.conditions[i].value is None,
                })
        }),
{
    reveal_strlit(":80");
    reveal_strlit(":");
    lemma_stands_for(o, prefix);
    let ns = match o.metadata.namespace {
        Some(ns) => ns@,
        None => "default"@,
    };
    let service = o.spec.scale_target_ref.service@;
    text::lemma_decimal_80();
    assert(":80"@ =~= ":"@ + text::decimal_int(80));
    assert(service + "."@ + ns + ":80"@ =~= service + "."@ + ns + ":"@ + text::decimal_int(80));
    let port = port_of(o.spec);
    assert(0 <= port <= 65535 ==> port as u16 == port) by (bit_vector);
}

/// An entry takes a request whose path begins with its prefix and whose fields
/// meet each of its conditions: the first field of that name is there, and where
/// the condition gives a value, it is the text of that field.
pub proof fn law_entries_take_what_matches(
    e: Route,
    path: Seq<char>,
    fs: Seq<(Seq<char>, Seq<u8>)>,
)
    ensures
        takes(e, path, fs) ==> path.len() >= e.path_prefix.len() && path.subrange(
            0,
            e.path_prefix.len() as int,
        ) == e.path_prefix,
        takes(e, path, fs) ==> forall|c: int|
            0 <= c < e.conditions.len() ==> (fields::value_of(
                fs,
                (#[trigger] e.conditions[c]).name,
            ) is Some) && (e.conditions[c].value is Some
                ==> fields::field_text(fs, e.conditions[c].name) == e.conditions[c].value->0),
        path.len() >= e.path_prefix.len() && path.subrange(0, e.path_prefix.len() as int)
            == e.path_prefix && (forall|c: int|
            0 <= c < e.conditions.len() ==> (fields::value_of(
                fs,
                (#[trigger] e.conditions[c]).name,
            ) is Some) && (e.conditions[c].value is Some ==> fields::field_text(
                fs,
                e.conditions[c].name,
            ) == e.conditions[c].value->0)) ==> takes(e, path, fs),
{
    if path.len() >= e.path_prefix.len() {
        assert(path.take(e.path_prefix.len() as int) =~= path.subrange(
            0,
            e.path_prefix.len() as int,
        ));
    }
    if takes(e, path, fs) {
        assert forall|c: int| 0 <= c < e.conditions.len() implies (fields::value_of(
            fs,
            (#[trigger] e.conditions[c]).name,
        ) is Some) && (e.conditions[c].value is Some
            ==> fields::field_text(fs, e.conditions[c].name)
            == e.conditions[c].value->0) by {
            assert(meets(fs, e.conditions[c]));
        }
    }
}

/// One entry goes before another where its prefix has more bytes, or as many and
/// it has more header conditions; and only there.
pub proof fn law_longer_prefixes_and_more_conditions_go_first(a: Route, b: Route)
    requires
        vstd::utf8::encode_utf8(a.path_prefix).len() <= usize::MAX,
        vstd::utf8::encode_utf8(b.path_prefix).len() <= usize::MAX,
    ensures
        vstd::utf8::encode_utf8(a.path_prefix).len() > vstd::utf8::encode_utf8(b.path_prefix).len()
            ==> outranks(a, b) && !outranks(b, a),
        vstd::utf8::encode_utf8(a.path_prefix).len() == vstd::utf8::encode_utf8(b.path_prefix).len()
            && a.conditions.len() > b.conditions.len() ==> outranks(a, b) && !outranks(b, a),
        vstd::utf8::encode_utf8(a.path_prefix).len() == vstd::utf8::encode_utf8(b.path_prefix).len()
            && a.conditions.len() == b.conditions.len() ==> !outranks(a, b) && !outranks(b, a),
{
}

/// The host of a request is looked up without its port; an address in brackets
/// is looked up as it is.
pub proof fn law_hosts_are_looked_up_without_their_port(host: Seq<char>, port: Seq<char>)
    ensures
        host.len() > 0 && host[0] == '[' ==> without_port(host) == host,
        !host.contains(':') ==> without_port(host) == host,
        !host.contains(':') && (host.len() > 0 ==> host[0] != '[') ==> without_port(
            host + seq![':'] + port,
        ) == host,
{
    text::lemma_find_from(host, ':', 0);
    let full = host + seq![':'] + port;
    text::lemma_find_from(full, ':', 0);
    let a = text::find(full, ':');
    assert(full[host.len() as int] == ':');
    if !host.contains(':') {
        if text::find(host, ':') < host.len() {
            assert(host[text::find(host, ':')] == ':');
        }
        assert(host.take(host.len() as int) =~= host);
        if a < host.len() {
            assert(full[a] == host[a]);
        }
        assert(full.take(host.len() as int) =~= host);
    }
}

/// Whether an entry of `host` takes a request.
pub open spec fn some_entry_takes(
    table: spec_fn(Seq<char>) -> Seq<Route>,
    host: Seq<char>,
    path: Seq<char>,
    fs: Seq<(Seq<char>, Seq<u8>)>,
) -> bool {
    exists|j: int| 0 <= j < table(host).len() && takes(#[trigger] table(host)[j], path, fs)
}

proof fn lemma_match_host(
    table: spec_fn(Seq<char>) -> Seq<Route>,
    host: Seq<char>,
    path: Seq<char>,
    fs: Seq<(Seq<char>, Seq<u8>)>,
)
    ensures
        match_host(table, host, path, fs) is Some <==> some_entry_takes(table, host, path, fs),
        match_host(table, host, path, fs) matches Some((h, r)) ==> h == host && takes(r, path, fs)
            && table(host).contains(r),
{
    lemma_first_taking_found(table(host), path, fs);
}

proof fn lemma_first_taking_found(
    s: Seq<Route>,
    path: Seq<char>,
    fs: Seq<(Seq<char>, Seq<u8>)>,
)
    ensures
        first_taking(s, path, fs) is Some <==> exists|j: int|
            0 <= j < s.len() && takes(#[trigger] s[j], path, fs),
        first_taking(s, path, fs) is Some ==> takes(first_taking(s, path, fs)->0, path, fs)
            && s.contains(first_taking(s, path, fs)->0),
    decreases s.len(),
{
    if s.len() > 0 {
        let rest = s.skip(1);
        lemma_first_taking_found(rest, path, fs);
        if takes(s[0], path, fs) {
            assert(s.contains(s[0]));
        } else {
            if first_taking(rest, path, fs) is Some {
                let j = choose|j: int| 0 <= j < rest.len() && takes(#[trigger] rest[j], path, fs);
                assert(takes(s[j + 1], path, fs));
                let r = first_taking(rest, path, fs)->0;
                let i = choose|i: int| 0 <= i < rest.len() && rest[i] == r;
                assert(s[i + 1] == r);
            }
            if exists|j: int| 0 <= j < s.len() && takes(#[trigger] s[j], path, fs) {
                let j = choose|j: int| 0 <= j < s.len() && takes(#[trigger] s[j], path, fs);
                assert(takes(rest[j - 1], path, fs));
            }
        }
    }
}

proof fn lemma_match_wildcards(
    table: spec_fn(Seq<char>) -> Seq<Route>,
    host: Seq<char>,
    path: Seq<char>,
    fs: Seq<(Seq<char>, Seq<u8>)>,
)
    ensures
        match match_wildcards(table, host, path, fs) {
            Some((h, r)) => takes(r, path, fs) && table(h).contains(r) && exists|d: int|
                0 <= d < host.len() && host[d] == '.' && h == "*."@ + #[trigger] host.skip(d + 1)
                    && forall|c: int|
                    0 <= c < d && host[c] == '.' ==> !some_entry_takes(
                        table,
                        "*."@ + #[trigger] host.skip(c + 1),
                        path,
                        fs,
                    ),
            None => forall|c: int|
                0 <= c < host.len() && host[c] == '.' ==> !some_entry_takes(
                    table,
                    "*."@ + #[trigger] host.skip(c + 1),
                    path,
                    fs,
                ),
        },
    decreases host.len(),
{
    let dot = text::find(host, '.');
    text::lemma_find_from(host, '.', 0);
    if dot < host.len() {
        let rest = host.skip(dot + 1);
        lemma_match_host(table, "*."@ + rest, path, fs);
        if match_host(table, "*."@ + rest, path, fs) is Some {
            assert("*."@ + host.skip(dot + 1) == "*."@ + rest);
        } else {
            lemma_match_wildcards(table, rest, path, fs);
            assert forall|c: int|
                dot < c < host.len() implies #[trigger] host.skip(c + 1) == rest.skip(c - dot) by {
                assert(host.skip(c + 1) =~= rest.skip(c - dot));
            }
            assert forall|b: int| 0 <= b < rest.len() implies #[trigger] rest.skip(b + 1)
                == host.skip(b + dot + 2) && rest[b] == host[b + dot + 1] by {
                assert(rest.skip(b + 1) =~= host.skip(b + dot + 2));
            }
            match match_wildcards(table, rest, path, fs) {
                Some((h, r)) => {
                    let e = choose|e: int|
                        0 <= e < rest.len() && rest[e] == '.' && h == "*."@ + #[trigger] rest.skip(
                            e + 1,
                        ) && forall|c: int|
                            0 <= c < e && rest[c] == '.' ==> !some_entry_takes(
                                table,
                                "*."@ + #[trigger] rest.skip(c + 1),
                                path,
                                fs,
                            );
                    let d = e + dot + 1;
                    assert(host.skip(d + 1) == rest.skip(e + 1));
                    assert forall|c: int| 0 <= c < d && host[c] == '.' implies !some_entry_takes(
                        table,
                        "*."@ + #[trigger] host.skip(c + 1),
                        path,
                        fs,
                    ) by {
                        if c > dot {
                            let b = c - dot - 1;
                            assert(rest[b] == '.');
                            assert(rest.skip(b + 1) == host.skip(c + 1));
                        }
                    }
                },
                None => {
                    assert forall|c: int|
                        0 <= c < host.len() && host[c] == '.' implies !some_entry_takes(
                        table,
                        "*."@ + #[trigger] host.skip(c + 1),
                        path,
                        fs,
                    ) by {
                        if c > dot {
                            let b = c - dot - 1;
                            assert(rest[b] == '.');
                            assert(rest.skip(b + 1) == host.skip(c + 1));
                        }
                    }
                },
            }
        }
    }
}

/// Where a request leads. The exact host comes first, where one of its entries
/// takes the request; then the wildcard hosts, `*.` and what follows a dot of the
/// host, the earlier dots first; then `*`. The entry found is one of that host and
/// takes the request. Nothing is found only where no entry of any of those hosts
/// takes it.
pub proof fn law_most_specific_host_wins(
    table: spec_fn(Seq<char>) -> Seq<Route>,
    host: Seq<char>,
    path: Seq<char>,
    fs: Seq<(Seq<char>, Seq<u8>)>,
)
    requires
        !host.contains(':') || host[0] == '[',
        path.len() > 0,
    ensures
        match find_route(table, host, path, fs) {
            Some((h, r)) => takes(r, path, fs) && table(h).contains(r) && (h == host || ((exists|
                d: int,
            |
                0 <= d < host.len() && host[d] == '.' && h == "*."@ + #[trigger] host.skip(d + 1)
                    && (forall|c: int|
                    0 <= c < d && host[c] == '.' ==> !some_entry_takes(
                        table,
                        "*."@ + #[trigger] host.skip(c + 1),
                        path,
                        fs,
                    ))) && !some_entry_takes(table, host, path, fs)) || (h == "*"@
                && !some_entry_takes(table, host, path, fs) && forall|c: int|
                0 <= c < host.len() && host[c] == '.' ==> !some_entry_takes(
                    table,
                    "*."@ + #[trigger] host.skip(c + 1),
                    path,
                    fs,
                ))),
            None => !some_entry_takes(table, host, path, fs) && !some_entry_takes(
                table,
                "*"@,
                path,
                fs,
            ) && forall|c: int|
                0 <= c < host.len() && host[c] == '.' ==> !some_entry_takes(
                    table,
                    "*."@ + #[trigger] host.skip(c + 1),
                    path,
                    fs,
                ),
        },
{
    law_hosts_are_looked_up_without_their_port(host, Seq::empty());
    lemma_match_host(table, host, path, fs);
    lemma_match_wildcards(table, host, path, fs);
    lemma_match_host(table, "*"@, path, fs);
}

/// Later resources come behind earlier ones, whatever their hosts are.
pub proof fn law_resources_are_declared_in_order(
    a: Seq<Arc<HTTPScaledObject>>,
    b: Seq<Arc<HTTPScaledObject>>,
    host: Seq<char>,
)
    ensures
        declared(a + b, host) == declared(a, host) + declared(b, host),
    decreases b.len(),
{
    if b.len() == 0 {
        assert(a + b =~= a);
        assert(declared(a, host) + declared(b, host) =~= declared(a, host));
    } else {
        law_resources_are_declared_in_order(a, b.drop_last(), host);
        assert((a + b).drop_last() =~= a + b.drop_last());
        assert(declared(a + b, host) =~= declared(a, host) + declared(b, host));
    }
}

/// The prefixes of one resource are declared in the order in which it names
/// them, under each host that it names once.
pub proof fn law_prefixes_are_declared_in_order(
    one: Seq<Arc<HTTPScaledObject>>,
    i: int,
    k: int,
)
    requires
        one.len() == 1,
        0 <= i < one[0].spec.hosts@.len(),
        forall|j: int|
            0 <= j < one[0].spec.hosts@.len() && j != i ==> (#[trigger] one[0].spec.hosts@[j])@
                != one[0].spec.hosts@[i]@,
        0 <= k < one[0].spec.path_prefixes@.len(),
    ensures
        declared(one, one[0].spec.hosts@[i]@).len() == one[0].spec.path_prefixes@.len(),
        declared(one, one[0].spec.hosts@[i]@)[k] == route_of(
            *one[0],
            one[0].spec.path_prefixes@[k]@,
        ),
{
    let host = one[0].spec.hosts@[i]@;
    let o = *one[0];
    let hosts = hosts_of(o.spec);
    let rs = routes_of(o);
    assert(one.drop_last() =~= Seq::<Arc<HTTPScaledObject>>::empty());
    assert(declared(one.drop_last(), host) =~= Seq::<Route>::empty());
    assert forall|j: int| 0 <= j < hosts.len() && j != i implies #[trigger] hosts[j] != host by {
        assert(hosts[j] == one[0].spec.hosts@[j]@);
    }
    lemma_repeated_once(hosts, rs, host, i);
    assert(declared(one, host) =~= rs);
}

proof fn lemma_repeated_once(hosts: Seq<Seq<char>>, rs: Seq<Route>, host: Seq<char>, i: int)
    requires
        0 <= i < hosts.len(),
        hosts[i] == host,
        forall|j: int| 0 <= j < hosts.len() && j != i ==> #[trigger] hosts[j] != host,
    ensures
        repeated(hosts, rs, host) == rs,
    decreases hosts.len(),
{
    let init = hosts.drop_last();
    if i == hosts.len() - 1 {
        lemma_repeated_never(init, rs, host);
        assert(Seq::<Route>::empty() + rs =~= rs);
    } else {
        assert(hosts[hosts.len() - 1] != host);
        lemma_repeated_once(init, rs, host, i);
    }
}

proof fn lemma_repeated_never(hosts: Seq<Seq<char>>, rs: Seq<Route>, host: Seq<char>)
    requires
        forall|j: int| 0 <= j < hosts.len() ==> #[trigger] hosts[j] != host,
    ensures
        repeated(hosts, rs, host) == Seq::<Route>::empty(),
    decreases hosts.len(),
{
    if hosts.len() > 0 {
        assert(hosts[hosts.len() - 1] != host);
        lemma_repeated_never(hosts.drop_last(), rs, host);
    }
}

/// What a lookup tells is the entry that it found, field by field, under both
/// names of its key.
pub proof fn law_lookups_tell_the_entry(info: RouteInfo, host: Seq<char>, e: Route)
    requires
        tells_of(Some(info), Some((host, e))),
    ensures
        info.host@ == host,
        info.queue_key@ == e.key,
        info.httpso_key@ == info.queue_key@,
        info.service_key@ == e.service_key,
        info.authority@ == e.authority,
        info.target_url@ == e.target_url,
        info.condition_wait_timeout == e.condition_wait_timeout,
        info.response_header_timeout == e.response_header_timeout,
        info.failover_timeout == e.failover_timeout,
        info.failover_url is Some <==> e.failover_url is Some,
        info.failover_url is Some ==> info.failover_url->0@ == e.failover_url->0,
        info.target_namespace@ == e.target_namespace,
        info.target_service@ == e.target_service,
        info.target_port == e.target_port,
        !tells_of(None, Some((host, e))),
        !tells_of(Some(info), None),
{
}

/// A request for a host that a resource names, whose path begins with one of its
/// prefixes and whose fields meet its conditions, is routed under that host, to
/// that resource or to one whose entry goes before its own or is as good.
pub proof fn law_requests_reach_their_resource(
    objects: Seq<Arc<HTTPScaledObject>>,
    n: int,
    i: int,
    k: int,
    path: Seq<char>,
    fs: Seq<(Seq<char>, Seq<u8>)>,
)
    requires
        0 <= n < objects.len(),
        0 <= i < objects[n].spec.hosts@.len(),
        0 <= k < objects[n].spec.path_prefixes@.len(),
        !objects[n].spec.hosts@[i]@.contains(':'),
        path.len() > 0,
        takes(route_of(*objects[n], objects[n].spec.path_prefixes@[k]@), path, fs),
    ensures
        ({
            let host = objects[n].spec.hosts@[i]@;
            let found = find_route(table_of(objects), host, path, fs);
            &&& found is Some
            &&& found matches Some((h, r)) && h == host && takes(r, path, fs) && !outranks(
                route_of(*objects[n], objects[n].spec.path_prefixes@[k]@),
                r,
            )
        }),
{
    let o = *objects[n];
    let host = o.spec.hosts@[i]@;
    let prefix = o.spec.path_prefixes@[k]@;
    let e = route_of(o, prefix);
    let table = table_of(objects);
    assert(hosts_of(o.spec)[i] == host);
    assert(hosts_of(o.spec).contains(host));
    assert(prefixes_of(o.spec)[k] == prefix);
    assert(routes_of(o)[k] == e);
    assert(routes_of(o).contains(e));
    lemma_declared_contains(objects, host, n, e);
    lemma_ranked_contains(declared(objects, host), e);
    let t = table(host);
    assert(t.contains(e));
    let j = choose|j: int| 0 <= j < t.len() && t[j] == e;
    law_hosts_are_looked_up_without_their_port(host, Seq::empty());
    lemma_match_host(table, host, path, fs);
    assert(takes(table(host)[j], path, fs));
    law_table_in_order(objects, host);
    lemma_first_taking_before(t, path, fs, j);
}

proof fn lemma_first_taking_before(
    s: Seq<Route>,
    path: Seq<char>,
    fs: Seq<(Seq<char>, Seq<u8>)>,
    j: int,
)
    requires
        0 <= j < s.len(),
        takes(s[j], path, fs),
    ensures
        exists|i: int| 0 <= i <= j && first_taking(s, path, fs) == Some(#[trigger] s[i]),
    decreases s.len(),
{
    if takes(s[0], path, fs) {
        assert(first_taking(s, path, fs) == Some(s[0]));
    } else {
        let rest = s.skip(1);
        assert(rest[j - 1] == s[j]);
        lemma_first_taking_before(rest, path, fs, j - 1);
        let i = choose|i: int|
            0 <= i <= j - 1 && first_taking(rest, path, fs) == Some(#[trigger] rest[i]);
        assert(rest[i] == s[i + 1]);
    }
}

} // verus!
