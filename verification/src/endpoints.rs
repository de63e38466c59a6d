//! How many ready endpoints each service has, and waiting for the first one.

use vstd::prelude::*;

use crate::store::KeyedStore;
use crate::text::same_text;

verus! {

// ---------------------------------------------------------------------------
// Endpoint slices
// ---------------------------------------------------------------------------

/// What a slice says about the state of an endpoint.
#[derive(Clone, Copy, Debug)]
pub struct EndpointConditions {
    pub ready: Option<bool>,
    pub terminating: Option<bool>,
}

#[derive(Clone, Debug)]
pub struct Endpoint {
    pub addresses: Vec<String>,
    pub conditions: Option<EndpointConditions>,
}

/// Some of the endpoints of a service.
#[derive(Clone, Debug)]
pub struct EndpointSlice {
    pub namespace: Option<String>,
    pub labels: Option<Vec<(String, String)>>,
    pub endpoints: Vec<Endpoint>,
}

/// `namespace/service`.
pub open spec fn key_of(namespace: Seq<char>, service: Seq<char>) -> Seq<char> {
    namespace + "/"@ + service
}

pub fn service_key(namespace: &str, service: &str) -> (s: String)
    ensures
        s@ == key_of(namespace@, service@),
{
    let mut s = namespace.to_string();
    s.append("/");
    s.append(service);
    s
}

/// The value of the first label called `name`.
pub open spec fn label(labels: Seq<(String, String)>, name: Seq<char>) -> Option<Seq<char>>
    decreases labels.len(),
{
    if labels.len() == 0 {
        None
    } else if labels[0].0@ == name {
        Some(labels[0].1@)
    } else {
        label(labels.skip(1), name)
    }
}

fn find_label(labels: &Vec<(String, String)>, name: &str) -> (r: Option<String>)
    ensures
        match r {
            Some(v) => label(labels@, name@) == Some(v@),
            None => label(labels@, name@) is None,
        },
{
    assert(labels@.skip(0) =~= labels@);
    for i in 0..labels.len()
        invariant
            label(labels@, name@) == label(labels@.skip(i as int), name@),
    {
        assert(labels@.skip(i as int).skip(1) =~= labels@.skip(i + 1));
        assert(labels@.skip(i as int)[0] == labels@[i as int]);
        if same_text(labels[i].0.as_str(), name) {
            return Some(labels[i].1.clone());
        }
    }
    None
}

/// The namespace and name of the service that a slice belongs to: the label
/// `kubernetes.io/service-name` names the service, and a slice without a
/// namespace is in `default`.
pub open spec fn service_of(slice: EndpointSlice) -> Option<(Seq<char>, Seq<char>)> {
    match slice.labels {
        Some(labels) => match label(labels@, "kubernetes.io/service-name"@) {
            Some(service) => Some(
                (
                    match slice.namespace {
                        Some(ns) => ns@,
                        None => "default"@,
                    },
                    service,
                ),
            ),
            None => None,
        },
        None => None,
    }
}

pub fn extract_service(slice: &EndpointSlice) -> (r: Option<(String, String)>)
    ensures
        match r {
            Some((ns, service)) => service_of(*slice) == Some((ns@, service@)),
            None => service_of(*slice) is None,
        },
{
    let service = match &slice.labels {
        Some(labels) => match find_label(labels, "kubernetes.io/service-name") {
            Some(s) => s,
            None => {
                return None;
            },
        },
        None => {
            return None;
        },
    };
    let ns = match &slice.namespace {
        Some(ns) => ns.clone(),
        None => "default".to_string(),
    };
    Some((ns, service))
}

/// Whether an endpoint takes requests: it is ready, or says nothing about it,
/// and is not about to go away.
pub open spec fn serves(e: Endpoint) -> bool {
    match e.conditions {
        Some(c) => c.ready != Some(false) && c.terminating != Some(true),
        None => true,
    }
}

/// The number of addresses of the endpoints that take requests.
pub open spec fn ready_addresses(endpoints: Seq<Endpoint>) -> nat
    decreases endpoints.len(),
{
    if endpoints.len() == 0 {
        0
    } else {
        ready_addresses(endpoints.drop_last()) + (if serves(endpoints.last()) {
            endpoints.last().addresses@.len()
        } else {
            0
        })
    }
}

proof fn lemma_ready_addresses_grow(endpoints: Seq<Endpoint>, n: int)
    requires
        0 <= n <= endpoints.len(),
    ensures
        ready_addresses(endpoints.take(n)) <= ready_addresses(endpoints),
    decreases endpoints.len() - n,
{
    if n < endpoints.len() {
        lemma_ready_addresses_grow(endpoints, n + 1);
        assert(endpoints.take(n + 1).drop_last() =~= endpoints.take(n));
    } else {
        assert(endpoints.take(n) =~= endpoints);
    }
}

/// Counts the ready addresses of a slice.
pub fn count_ready(slice: &EndpointSlice) -> (n: usize)
    requires
        ready_addresses(slice.endpoints@) <= usize::MAX,
    ensures
        n == ready_addresses(slice.endpoints@),
{
    let mut total: usize = 0;
    for i in 0..slice.endpoints.len()
        invariant
            ready_addresses(slice.endpoints@) <= usize::MAX,
            total == ready_addresses(slice.endpoints@.take(i as int)),
    {
        let e = &slice.endpoints[i];
        proof {
            lemma_ready_addresses_grow(slice.endpoints@, i + 1);
            assert(slice.endpoints@.take(i + 1).drop_last() =~= slice.endpoints@.take(i as int));
        }
        let (is_ready, is_terminating) = match &e.conditions {
            Some(c) => (
                match c.ready {
                    Some(b) => b,
                    None => true,
                },
                match c.terminating {
                    Some(b) => b,
                    None => false,
                },
            ),
            None => (true, false),
        };
        if is_ready && !is_terminating {
            total = total + e.addresses.len();
        }
    }
    assert(slice.endpoints@.take(slice.endpoints@.len() as int) =~= slice.endpoints@);
    total
}

/// The number of ready addresses of a service over all slices.
pub open spec fn service_total(
    slices: Seq<EndpointSlice>,
    namespace: Seq<char>,
    service: Seq<char>,
) -> nat
    decreases slices.len(),
{
    if slices.len() == 0 {
        0
    } else {
        service_total(slices.drop_last(), namespace, service) + (if service_of(slices.last())
            == Some((namespace, service)) {
            ready_addresses(slices.last().endpoints@)
        } else {
            0
        })
    }
}

proof fn lemma_service_total_grows(
    slices: Seq<EndpointSlice>,
    namespace: Seq<char>,
    service: Seq<char>,
    n: int,
)
    requires
        0 <= n <= slices.len(),
    ensures
        service_total(slices.take(n), namespace, service) <= service_total(
            slices,
            namespace,
            service,
        ),
    decreases slices.len() - n,
{
    if n < slices.len() {
        lemma_service_total_grows(slices, namespace, service, n + 1);
        assert(slices.take(n + 1).drop_last() =~= slices.take(n));
    } else {
        assert(slices.take(n) =~= slices);
    }
}

/// Whether the addresses of the service that `changed` belongs to can be
/// counted.
pub open spec fn countable(slices: Seq<EndpointSlice>, changed: EndpointSlice) -> bool {
    match service_of(changed) {
        Some((ns, service)) => service_total(slices, ns, service) <= usize::MAX,
        None => true,
    }
}

// ---------------------------------------------------------------------------
// The cache
// ---------------------------------------------------------------------------

/// Whether a service has a ready endpoint.
pub open spec fn is_ready(counts: Map<Seq<char>, usize>, key: Seq<char>) -> bool {
    counts.contains_key(key) && counts[key] > 0
}

/// Whether the counts were made anew for the service that `changed` belongs to,
/// and its key is told; a slice of no service changes nothing.
pub open spec fn is_refreshed(
    counts: Map<Seq<char>, usize>,
    slices: Seq<EndpointSlice>,
    changed: EndpointSlice,
    counts_after: Map<Seq<char>, usize>,
    told: Option<String>,
) -> bool {
    match service_of(changed) {
        Some((ns, service)) => {
            &&& told is Some && told->0@ == key_of(ns, service)
            &&& counts_after == counts.insert(
                key_of(ns, service),
                service_total(slices, ns, service) as usize,
            )
        },
        None => told is None && counts_after == counts,
    }
}

/// The number of ready addresses per service.
pub struct EndpointsCache {
    ready_counts: KeyedStore<usize>,
}

impl View for EndpointsCache {
    type V = Map<Seq<char>, usize>;

    closed spec fn view(&self) -> Map<Seq<char>, usize> {
        self.ready_counts@
    }
}

impl EndpointsCache {
    pub closed spec fn wf(self) -> bool {
        self.ready_counts.wf()
    }

    pub fn new() -> (c: EndpointsCache)
        ensures
            c.wf(),
            c@ == Map::<Seq<char>, usize>::empty(),
    {
        EndpointsCache { ready_counts: KeyedStore::new() }
    }

    /// Whether the service under `key` has at least one ready endpoint.
    pub fn has_ready_key(&self, key: &str) -> (b: bool)
        requires
            self.wf(),
        ensures
            b == is_ready(self@, key@),
    {
        match self.ready_counts.get(key) {
            Some(n) => *n > 0,
            None => false,
        }
    }

    /// Whether a service has at least one ready endpoint.
    pub fn has_ready_endpoints(&self, namespace: &str, service: &str) -> (b: bool)
        requires
            self.wf(),
        ensures
            b == is_ready(self@, key_of(namespace@, service@)),
    {
        let key = service_key(namespace, service);
        self.has_ready_key(key.as_str())
    }

    /// Counts again the ready addresses of the service that `changed` belongs
    /// to, over all of `slices`. The result is the key of that service, which
    /// those who wait for it are told; a slice of no service changes nothing.
    pub fn refresh_service(&mut self, slices: &[EndpointSlice], changed: &EndpointSlice) -> (r:
        Option<String>)
        requires
            old(self).wf(),
            countable(slices@, *changed),
        ensures
            final(self).wf(),
            is_refreshed(old(self)@, slices@, *changed, final(self)@, r),
    {
        let (namespace, svc_name) = match extract_service(changed) {
            Some(pair) => pair,
            None => {
                return None;
            },
        };
        let key = service_key(namespace.as_str(), svc_name.as_str());
        let mut total: usize = 0;
        let n = slices.len();
        for i in 0..n
            invariant
                n == slices@.len(),
                total == service_total(slices@.take(i as int), namespace@, svc_name@),
                service_total(slices@, namespace@, svc_name@) <= usize::MAX,
        {
            proof {
                lemma_service_total_grows(slices@, namespace@, svc_name@, i + 1);
                assert(slices@.take(i + 1).drop_last() =~= slices@.take(i as int));
            }
            if let Some((ns, svc)) = extract_service(&slices[i]) {
                if same_text(ns.as_str(), namespace.as_str()) && same_text(
                    svc.as_str(),
                    svc_name.as_str(),
                ) {
                    total = total + count_ready(&slices[i]);
                }
            }
        }
        assert(slices@.take(n as int) =~= slices@);
        self.ready_counts.insert(key.as_str(), total);
        Some(key)
    }
}

// ---------------------------------------------------------------------------
// Waiting
// ---------------------------------------------------------------------------

/// What happens while a request waits for a service.
#[derive(Clone, Debug)]
pub enum WaitEvent {
    /// The wait begins.
    Start,
    /// From now on changes are told.
    Subscribed,
    /// The counts of the service under this key have changed.
    Notified(String),
    /// Some changes could not be told.
    Lagged,
    /// No more changes will be told.
    Closed,
    /// The time is up.
    TimedOut,
}

/// What to do next.
#[derive(Clone, Copy, Debug, PartialEq, Eq, Structural)]
pub enum WaitStep {
    /// Ask to be told of changes, then go on with [`WaitEvent::Subscribed`].
    Subscribe,
    /// Wait for a change, for at most the time that is left.
    Receive,
    /// A ready endpoint was there from the start.
    Warm,
    /// A ready endpoint has appeared.
    ColdStart,
    /// There is no ready endpoint, and no point in waiting on.
    Failed,
}

/// The step that follows an event, where `ready` tells whether the service has
/// a ready endpoint at that moment.
pub open spec fn step_after(event: WaitEvent, key: Seq<char>, ready: bool) -> WaitStep {
    match event {
        WaitEvent::Start => if ready {
            WaitStep::Warm
        } else {
            WaitStep::Subscribe
        },
        WaitEvent::Subscribed | WaitEvent::Lagged => if ready {
            WaitStep::ColdStart
        } else {
            WaitStep::Receive
        },
        WaitEvent::Notified(changed) => if changed@ == key && ready {
            WaitStep::ColdStart
        } else {
            WaitStep::Receive
        },
        WaitEvent::Closed | WaitEvent::TimedOut => WaitStep::Failed,
    }
}

impl EndpointsCache {
    /// One step of waiting for the service under `key`.
    pub fn wait_for_ready_by_key(&self, key: &str, event: &WaitEvent) -> (s: WaitStep)
        requires
            self.wf(),
        ensures
            s == step_after(*event, key@, is_ready(self@, key@)),
    {
        match event {
            WaitEvent::Start => if self.has_ready_key(key) {
                WaitStep::Warm
            } else {
                WaitStep::Subscribe
            },
            WaitEvent::Subscribed | WaitEvent::Lagged => if self.has_ready_key(key) {
                WaitStep::ColdStart
            } else {
                WaitStep::Receive
            },
            WaitEvent::Notified(changed) => if same_text(changed.as_str(), key)
                && self.has_ready_key(key) {
                WaitStep::ColdStart
            } else {
                WaitStep::Receive
            },
            WaitEvent::Closed | WaitEvent::TimedOut => WaitStep::Failed,
        }
    }

    /// One step of waiting for a service.
    pub fn wait_for_ready(&self, namespace: &str, service: &str, event: &WaitEvent) -> (s: WaitStep)
        requires
            self.wf(),
        ensures
            s == step_after(
                *event,
                key_of(namespace@, service@),
                is_ready(self@, key_of(namespace@, service@)),
            ),
    {
        let key = service_key(namespace, service);
        self.wait_for_ready_by_key(key.as_str(), event)
    }
}

// ---------------------------------------------------------------------------
// Laws
// ---------------------------------------------------------------------------

/// A wait succeeds only where there is a ready endpoint. It tells of a warm
/// service exactly where that was so at the start, and fails exactly where the
/// time is up or no more changes will be told.
pub proof fn law_outcome_of_a_wait(event: WaitEvent, key: Seq<char>, ready: bool)
    ensures
        step_after(event, key, ready) == WaitStep::Warm <==> event is Start && ready,
        step_after(event, key, ready) == WaitStep::ColdStart ==> ready,
        step_after(event, key, ready) == WaitStep::Failed <==> event is Closed || event is TimedOut,
        step_after(event, key, ready) == WaitStep::Subscribe <==> event is Start && !ready,
{
}

/// Who waits for a service is served as soon as it is looked at again: right
/// after subscribing, when told of a change to it, and when changes were
/// missed. So no change is lost, whenever it comes.
pub proof fn law_no_change_is_lost(
    event: WaitEvent,
    counts: Map<Seq<char>, usize>,
    key: Seq<char>,
    n: usize,
)
    requires
        n > 0,
        event is Subscribed || event is Lagged || (event is Notified && event->Notified_0@ == key),
    ensures
        step_after(event, key, is_ready(counts.insert(key, n), key)) == WaitStep::ColdStart,
{
}

/// An endpoint that is about to go away counts for nothing, though it still
/// says that it is ready.
pub proof fn law_terminating_endpoints_do_not_count(endpoints: Seq<Endpoint>, e: Endpoint)
    requires
        e.conditions is Some,
        e.conditions->0.terminating == Some(true),
    ensures
        ready_addresses(endpoints.push(e)) == ready_addresses(endpoints),
{
    assert(endpoints.push(e).drop_last() =~= endpoints);
}

/// A service is ready exactly where one of its slices has a ready endpoint
/// with an address.
pub proof fn law_ready_means_an_address(
    slices: Seq<EndpointSlice>,
    namespace: Seq<char>,
    service: Seq<char>,
)
    ensures
        service_total(slices, namespace, service) > 0 <==> exists|i: int, j: int|
            0 <= i < slices.len() && service_of(slices[i]) == Some((namespace, service)) && 0 <= j
                < slices[i].endpoints@.len() && serves(#[trigger] slices[i].endpoints@[j])
                && slices[i].endpoints@[j].addresses@.len() > 0,
    decreases slices.len(),
{
    if slices.len() > 0 {
        let init = slices.drop_last();
        let n = slices.len() - 1;
        law_ready_means_an_address(init, namespace, service);
        lemma_ready_means_an_address(slices[n].endpoints@);
        if service_total(init, namespace, service) > 0 {
            let (i, j) = choose|i: int, j: int|
                0 <= i < init.len() && service_of(init[i]) == Some((namespace, service)) && 0 <= j
                    < init[i].endpoints@.len() && serves(#[trigger] init[i].endpoints@[j])
                    && init[i].endpoints@[j].addresses@.len() > 0;
            assert(serves(slices[i].endpoints@[j]));
        }
        if service_of(slices[n]) == Some((namespace, service)) && ready_addresses(
            slices[n].endpoints@,
        ) > 0 {
            let j = choose|j: int|
                0 <= j < slices[n].endpoints@.len() && serves(#[trigger] slices[n].endpoints@[j])
                    && slices[n].endpoints@[j].addresses@.len() > 0;
            assert(serves(slices[n].endpoints@[j]));
        }
        if exists|i: int, j: int|
            0 <= i < slices.len() && service_of(slices[i]) == Some((namespace, service)) && 0 <= j
                < slices[i].endpoints@.len() && serves(#[trigger] slices[i].endpoints@[j])
                && slices[i].endpoints@[j].addresses@.len() > 0 {
            let (i, j) = choose|i: int, j: int|
                0 <= i < slices.len() && service_of(slices[i]) == Some((namespace, service)) && 0
                    <= j < slices[i].endpoints@.len() && serves(
                    #[trigger] slices[i].endpoints@[j],
                ) && slices[i].endpoints@[j].addresses@.len() > 0;
            if i < n {
                assert(init[i] == slices[i]);
                assert(serves(init[i].endpoints@[j]));
            }
        }
    }
}

proof fn lemma_ready_means_an_address(endpoints: Seq<Endpoint>)
    ensures
        ready_addresses(endpoints) > 0 <==> exists|j: int|
            0 <= j < endpoints.len() && serves(#[trigger] endpoints[j])
                && endpoints[j].addresses@.len() > 0,
    decreases endpoints.len(),
{
    if endpoints.len() > 0 {
        let init = endpoints.drop_last();
        let n = endpoints.len() - 1;
        lemma_ready_means_an_address(init);
        if ready_addresses(init) > 0 {
            let j = choose|j: int|
                0 <= j < init.len() && serves(#[trigger] init[j]) && init[j].addresses@.len() > 0;
            assert(serves(endpoints[j]));
        }
        assert(endpoints[n] == endpoints.last());
        if exists|j: int|
            0 <= j < endpoints.len() && serves(#[trigger] endpoints[j])
                && endpoints[j].addresses@.len() > 0 {
            let j = choose|j: int|
                0 <= j < endpoints.len() && serves(#[trigger] endpoints[j])
                    && endpoints[j].addresses@.len() > 0;
            if j < n {
                assert(init[j] == endpoints[j]);
            }
        }
    }
}

/// An endpoint that says it is not ready counts for nothing, whatever it says
/// about going away.
pub proof fn law_unready_endpoints_do_not_count(endpoints: Seq<Endpoint>, e: Endpoint)
    requires
        e.conditions is Some,
        e.conditions->0.ready == Some(false),
    ensures
        ready_addresses(endpoints.push(e)) == ready_addresses(endpoints),
{
    assert(endpoints.push(e).drop_last() =~= endpoints);
}

/// An endpoint counts with all of its addresses unless it says that it is not
/// ready or that it is about to go away; what it does not say does not count
/// against it. Without endpoints there are no addresses.
pub proof fn law_other_endpoints_count_in_full(endpoints: Seq<Endpoint>, e: Endpoint)
    requires
        e.conditions is None || ((e.conditions->0.ready is None || e.conditions->0.ready
            == Some(true)) && (e.conditions->0.terminating is None || e.conditions->0.terminating
            == Some(false))),
    ensures
        ready_addresses(endpoints.push(e)) == ready_addresses(endpoints) + e.addresses@.len(),
        ready_addresses(Seq::empty()) == 0,
{
    assert(endpoints.push(e).drop_last() =~= endpoints);
}

/// A slice belongs to the service that its first label
/// `kubernetes.io/service-name` names, in its namespace or in `default`.
pub proof fn law_slices_belong_to_the_service_of_their_label(slice: EndpointSlice, i: int)
    requires
        slice.labels is Some,
        0 <= i < slice.labels->0@.len(),
        slice.labels->0@[i].0@ == "kubernetes.io/service-name"@,
        forall|j: int|
            0 <= j < i ==> (#[trigger] slice.labels->0@[j]).0@ != "kubernetes.io/service-name"@,
    ensures
        service_of(slice) is Some,
        slice.namespace is Some ==> service_of(slice) == Some(
            (slice.namespace->0@, slice.labels->0@[i].1@),
        ),
        slice.namespace is None ==> service_of(slice) == Some(
            ("default"@, slice.labels->0@[i].1@),
        ),
{
    lemma_label_at(slice.labels->0@, "kubernetes.io/service-name"@, i);
}

/// A slice without that label belongs to no service.
pub proof fn law_slices_without_the_label_belong_to_no_service(slice: EndpointSlice)
    requires
        slice.labels is Some ==> forall|j: int|
            0 <= j < slice.labels->0@.len() ==> (#[trigger] slice.labels->0@[j]).0@
                != "kubernetes.io/service-name"@,
    ensures
        service_of(slice) is None,
{
    if slice.labels is Some {
        lemma_no_label(slice.labels->0@, "kubernetes.io/service-name"@);
    }
}

proof fn lemma_label_at(labels: Seq<(String, String)>, name: Seq<char>, i: int)
    requires
        0 <= i < labels.len(),
        labels[i].0@ == name,
        forall|j: int| 0 <= j < i ==> (#[trigger] labels[j]).0@ != name,
    ensures
        label(labels, name) == Some(labels[i].1@),
    decreases labels.len(),
{
    if i > 0 {
        let rest = labels.skip(1);
        assert(labels[0].0@ != name);
        assert forall|j: int| 0 <= j < i - 1 implies (#[trigger] rest[j]).0@ != name by {
            assert(rest[j] == labels[j + 1]);
        }
        lemma_label_at(rest, name, i - 1);
    }
}

proof fn lemma_no_label(labels: Seq<(String, String)>, name: Seq<char>)
    requires
        forall|j: int| 0 <= j < labels.len() ==> (#[trigger] labels[j]).0@ != name,
    ensures
        label(labels, name) is None,
    decreases labels.len(),
{
    if labels.len() > 0 {
        let rest = labels.skip(1);
        assert(labels[0].0@ != name);
        assert forall|j: int| 0 <= j < rest.len() implies (#[trigger] rest[j]).0@ != name by {
            assert(rest[j] == labels[j + 1]);
        }
        lemma_no_label(rest, name);
    }
}

/// A slice adds its ready addresses to the service that it belongs to and to no
/// other; without slices a service has none.
pub proof fn law_slices_add_up(
    slices: Seq<EndpointSlice>,
    slice: EndpointSlice,
    namespace: Seq<char>,
    service: Seq<char>,
)
    ensures
        service_of(slice) == Some((namespace, service)) ==> service_total(
            slices.push(slice),
            namespace,
            service,
        ) == service_total(slices, namespace, service) + ready_addresses(slice.endpoints@),
        service_of(slice) != Some((namespace, service)) ==> service_total(
            slices.push(slice),
            namespace,
            service,
        ) == service_total(slices, namespace, service),
        service_total(Seq::empty(), namespace, service) == 0,
{
    assert(slices.push(slice).drop_last() =~= slices);
}

/// A service is ready once it was counted with an address or more, and not
/// before. The count of another service makes no difference.
pub proof fn law_counted_services_are_ready(
    counts: Map<Seq<char>, usize>,
    key: Seq<char>,
    n: usize,
    other: Seq<char>,
)
    requires
        other != key,
    ensures
        n > 0 ==> is_ready(counts.insert(key, n), key),
        n == 0 ==> !is_ready(counts.insert(key, n), key),
        !is_ready(counts.remove(key), key),
        is_ready(counts.insert(key, n), other) == is_ready(counts, other),
{
}

/// The keys of two services differ where their namespaces or names do, as long
/// as namespaces have no slash in them.
pub proof fn law_services_have_their_own_keys(
    namespace: Seq<char>,
    service: Seq<char>,
    other_namespace: Seq<char>,
    other_service: Seq<char>,
)
    requires
        !namespace.contains('/'),
        !other_namespace.contains('/'),
    ensures
        key_of(namespace, service) == key_of(other_namespace, other_service) ==> namespace
            == other_namespace && service == other_service,
        key_of(namespace, service) == namespace + seq!['/'] + service,
{
    reveal_strlit("/");
    assert("/"@ =~= seq!['/']);
    let a = key_of(namespace, service);
    let b = key_of(other_namespace, other_service);
    if a == b {
        let m = namespace.len() as int;
        let n = other_namespace.len() as int;
        if m < n {
            assert(b[m] == other_namespace[m]);
            assert(a[m] == '/');
        } else if n < m {
            assert(a[n] == namespace[n]);
            assert(b[n] == '/');
        }
        assert(namespace =~= a.take(m));
        assert(other_namespace =~= b.take(n));
        assert(service =~= a.skip(m + 1));
        assert(other_service =~= b.skip(n + 1));
    }
}

/// A wait that is under way ends where the service is seen ready: right after
/// subscribing, after a gap, or when its own key is told. Told of another
/// service, or where it is not ready, it goes on.
pub proof fn law_wait_goes_on_until_the_service_is_ready(
    event: WaitEvent,
    key: Seq<char>,
    ready: bool,
)
    requires
        !(event is Start),
        !(event is Closed),
        !(event is TimedOut),
    ensures
        !ready ==> step_after(event, key, ready) == WaitStep::Receive,
        event is Notified && event->Notified_0@ != key ==> step_after(event, key, ready)
            == WaitStep::Receive,
        ready && (event is Notified ==> event->Notified_0@ == key) ==> step_after(
            event,
            key,
            ready,
        ) == WaitStep::ColdStart,
{
}

/// After a change the service of the changed slice is ready exactly where one of
/// its slices has a ready endpoint with an address; who waits for it is told.
/// Other services are as they were.
pub proof fn law_changes_are_counted_and_told(
    counts: Map<Seq<char>, usize>,
    slices: Seq<EndpointSlice>,
    changed: EndpointSlice,
    counts_after: Map<Seq<char>, usize>,
    told: Option<String>,
    namespace: Seq<char>,
    service: Seq<char>,
    other: Seq<char>,
)
    requires
        is_refreshed(counts, slices, changed, counts_after, told),
        countable(slices, changed),
    ensures
        service_of(changed) == Some((namespace, service)) ==> {
            &&& told is Some && told->0@ == namespace + "/"@ + service
            &&& counts_after.contains_key(told->0@)
            &&& counts_after[told->0@] == service_total(slices, namespace, service)
            &&& is_ready(counts_after, told->0@) <==> exists|i: int, j: int|
                0 <= i < slices.len() && service_of(slices[i]) == Some((namespace, service)) && 0
                    <= j < slices[i].endpoints@.len() && serves(
                    #[trigger] slices[i].endpoints@[j],
                ) && slices[i].endpoints@[j].addresses@.len() > 0
            &&& other != told->0@ ==> counts_after.contains_key(other) == counts.contains_key(
                other,
            ) && counts_after[other] == counts[other]
        },
        service_of(changed) is None ==> told is None && counts_after == counts,
{
    law_ready_means_an_address(slices, namespace, service);
}

} // verus!
