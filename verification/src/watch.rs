//! What changes when the watched resources change.

use std::sync::Arc;

use vstd::prelude::*;

use crate::config;
use crate::config::{parse_go_duration, read_go_duration, GoDuration};
use crate::crd;
use crate::crd::{HTTPScaledObject, HTTPScaledObjectSpec};
use crate::duration::Duration;
use crate::queue;
use crate::queue::{buckets_usable, QueueCounter};
use crate::routing;
use crate::routing::RoutingTable;
use crate::store::KeySet;

verus! {

// ---------------------------------------------------------------------------
// Counting keys
// ---------------------------------------------------------------------------

/// The duration that a text denotes, or a number of seconds where it denotes
/// none.
pub open spec fn duration_or_secs(s: Seq<char>, secs: u64) -> Duration {
    match config::go_duration(s) {
        GoDuration::Value(d) => d,
        _ => Duration { secs, nanos: 0 },
    }
}

fn read_or_secs(s: &str, secs: u64) -> (d: Duration)
    requires
        config::go_duration(s@) != GoDuration::OutOfRange,
    ensures
        d == duration_or_secs(s@, secs),
{
    match parse_go_duration(s) {
        Some(d) => d,
        None => Duration::from_secs(secs),
    }
}

/// The window and granularity of the request rate that a resource asks for, if
/// it asks for one.
pub open spec fn rate_of(spec: HTTPScaledObjectSpec) -> Option<(Duration, Duration)> {
    match spec.scaling_metric {
        Some(m) => match m.request_rate {
            Some(r) => Some(
                (duration_or_secs(r.window@, 60), duration_or_secs(r.granularity@, 1)),
            ),
            None => None,
        },
        None => None,
    }
}

/// Whether the request rate of a resource can be kept: its durations are
/// within range and its buckets fit into memory.
pub open spec fn rate_fits(spec: HTTPScaledObjectSpec) -> bool {
    match spec.scaling_metric {
        Some(m) => match m.request_rate {
            Some(r) => {
                &&& config::go_duration(r.window@) != GoDuration::OutOfRange
                &&& config::go_duration(r.granularity@) != GoDuration::OutOfRange
                &&& queue::buckets_fit(
                    duration_or_secs(r.window@, 60),
                    duration_or_secs(r.granularity@, 1),
                )
            },
            None => true,
        },
        None => true,
    }
}

pub open spec fn all_rates_fit(objects: Seq<Arc<HTTPScaledObject>>) -> bool {
    forall|i: int| 0 <= i < objects.len() ==> rate_fits((#[trigger] objects[i]).spec)
}

fn out_of_range(s: &str) -> (b: bool)
    ensures
        b == (config::go_duration(s@) == GoDuration::OutOfRange),
{
    match read_go_duration(s) {
        GoDuration::OutOfRange => true,
        _ => false,
    }
}

fn rate_usable(spec: &HTTPScaledObjectSpec) -> (b: bool)
    ensures
        b == rate_fits(*spec),
{
    match &spec.scaling_metric {
        Some(m) => match &m.request_rate {
            Some(r) => !out_of_range(r.window.as_str()) && !out_of_range(r.granularity.as_str())
                && buckets_usable(
                read_or_secs(r.window.as_str(), 60),
                read_or_secs(r.granularity.as_str(), 1),
            ),
            None => true,
        },
        None => true,
    }
}

/// Whether the request rate of every resource can be kept.
pub fn rates_usable(objects: &[Arc<HTTPScaledObject>]) -> (b: bool)
    ensures
        b == all_rates_fit(objects@),
{
    let n = objects.len();
    for i in 0..n
        invariant
            n == objects@.len(),
            forall|j: int| 0 <= j < i ==> rate_fits((#[trigger] objects@[j]).spec),
    {
        let o: &HTTPScaledObject = &*objects[i];
        if !rate_usable(&o.spec) {
            assert(!rate_fits(objects@[i as int].spec));
            return false;
        }
    }
    true
}

/// `hosts` after a resource was seen at `now`: its key is known, and has a new
/// ring if the resource asks for a request rate.
pub open spec fn object_seen(
    hosts: Map<Seq<char>, queue::Host>,
    o: HTTPScaledObject,
    now: u64,
) -> Map<Seq<char>, queue::Host> {
    let key = crd::object_key(o.metadata);
    let known = queue::ensured(hosts, key);
    match rate_of(o.spec) {
        Some((window, granularity)) => queue::with_ring(
            known,
            key,
            queue::fresh_ring(window, granularity, now),
        ),
        None => known,
    }
}

pub open spec fn objects_seen(
    hosts: Map<Seq<char>, queue::Host>,
    objects: Seq<Arc<HTTPScaledObject>>,
    now: u64,
) -> Map<Seq<char>, queue::Host>
    decreases objects.len(),
{
    if objects.len() == 0 {
        hosts
    } else {
        object_seen(objects_seen(hosts, objects.drop_last(), now), *objects.last(), now)
    }
}

/// The keys of the resources.
pub open spec fn keys_of(objects: Seq<Arc<HTTPScaledObject>>) -> Set<Seq<char>>
    decreases objects.len(),
{
    if objects.len() == 0 {
        Set::empty()
    } else {
        keys_of(objects.drop_last()).insert(crd::object_key(objects.last().metadata))
    }
}

/// `hosts` after all resources were seen and the keys of no resource were
/// forgotten.
pub open spec fn hosts_synced(
    hosts: Map<Seq<char>, queue::Host>,
    objects: Seq<Arc<HTTPScaledObject>>,
    now: u64,
) -> Map<Seq<char>, queue::Host> {
    objects_seen(hosts, objects, now).restrict(keys_of(objects))
}

/// Gives the counter exactly the keys of the resources, with a ring where a
/// resource asks for a request rate.
pub fn sync_queue_keys(queue: &mut QueueCounter, objects: &[Arc<HTTPScaledObject>], now: u64)
    requires
        old(queue).wf(),
        all_rates_fit(objects@),
    ensures
        final(queue).wf(),
        final(queue)@ == hosts_synced(old(queue)@, objects@, now),
{
    let mut new_keys = KeySet::new();
    let n = objects.len();
    for i in 0..n
        invariant
            n == objects@.len(),
            all_rates_fit(objects@),
            queue.wf(),
            queue@ == objects_seen(old(queue)@, objects@.take(i as int), now),
            new_keys@ == keys_of(objects@.take(i as int)),
    {
        let o: &HTTPScaledObject = &*objects[i];
        assert(rate_fits(objects@[i as int].spec));
        assert(objects@.take(i + 1).drop_last() =~= objects@.take(i as int));
        let key = o.metadata.key();
        queue.ensure_key(key.as_str());
        new_keys.insert(key.as_str());
        if let Some(m) = &o.spec.scaling_metric {
            if let Some(r) = &m.request_rate {
                let window = read_or_secs(r.window.as_str(), 60);
                let granularity = read_or_secs(r.granularity.as_str(), 1);
                queue.update_buckets(key.as_str(), window, granularity, now);
            }
        }
    }
    assert(objects@.take(n as int) =~= objects@);
    queue.retain_keys(&new_keys);
}

// ---------------------------------------------------------------------------
// Events
// ---------------------------------------------------------------------------

/// What a watch tells about the resources.
#[derive(Clone, Copy, Debug, PartialEq, Eq, Structural)]
pub enum WatchEvent {
    /// A new list of all resources begins.
    Init,
    /// A resource of that list.
    InitApply,
    /// The list is complete.
    InitDone,
    /// A resource was added or changed.
    Apply,
    /// A resource was deleted.
    Delete,
}

/// Whether an event changes what is routed and counted. A list in progress
/// does not; a complete one does, even where it is empty.
pub open spec fn changes_routes(event: WatchEvent) -> bool {
    event is Apply || event is Delete || event is InitDone
}

pub fn should_rebuild(event: WatchEvent) -> (b: bool)
    ensures
        b == changes_routes(event),
{
    match event {
        WatchEvent::Apply | WatchEvent::Delete | WatchEvent::InitDone => true,
        WatchEvent::Init | WatchEvent::InitApply => false,
    }
}

/// What to do with an item of a watch.
#[derive(Clone, Copy, Debug, PartialEq, Eq, Structural)]
pub enum WatchAction {
    /// Take over what the watch knows now.
    Rebuild,
    /// Go on and change nothing.
    Ignore,
    /// Give up: the watch is over.
    Fail,
}

/// What an item of a watch asks for. A failed item changes nothing, and the
/// watch goes on; a watch has no end, so the end is a failure.
pub open spec fn action_for(item: Option<Result<WatchEvent, ()>>) -> WatchAction {
    match item {
        None => WatchAction::Fail,
        Some(Err(_)) => WatchAction::Ignore,
        Some(Ok(event)) => if changes_routes(event) {
            WatchAction::Rebuild
        } else {
            WatchAction::Ignore
        },
    }
}

pub fn watch_action(item: Option<Result<WatchEvent, ()>>) -> (a: WatchAction)
    ensures
        a == action_for(item),
{
    match item {
        None => WatchAction::Fail,
        Some(Err(_)) => WatchAction::Ignore,
        Some(Ok(event)) => if should_rebuild(event) {
            WatchAction::Rebuild
        } else {
            WatchAction::Ignore
        },
    }
}

/// Brings table and counter in line with `objects`, if the event asks for it.
/// The result tells whether it did.
pub fn on_watch_event(
    event: WatchEvent,
    table: &mut RoutingTable,
    queue: &mut QueueCounter,
    objects: &[Arc<HTTPScaledObject>],
    now: u64,
) -> (rebuilt: bool)
    requires
        old(table).wf(),
        old(queue).wf(),
        routing::all_timeouts_fit(objects@),
        all_rates_fit(objects@),
    ensures
        rebuilt == changes_routes(event),
        final(table).wf(),
        final(queue).wf(),
        rebuilt ==> final(table).synced() && final(table).table() == routing::table_of(objects@)
            && final(queue)@ == hosts_synced(old(queue)@, objects@, now),
        !rebuilt ==> *final(table) == *old(table) && *final(queue) == *old(queue),
{
    if should_rebuild(event) {
        table.rebuild(objects);
        sync_queue_keys(queue, objects, now);
        true
    } else {
        false
    }
}

/// The namespace to watch: the one that is configured, or all of them where it
/// is missing or empty.
pub open spec fn namespace_to_watch(ns: Option<String>) -> Option<Seq<char>> {
    match ns {
        Some(s) => if s@.len() > 0 {
            Some(s@)
        } else {
            None
        },
        None => None,
    }
}

pub fn watched_namespace(ns: &Option<String>) -> (r: Option<&str>)
    ensures
        match r {
            Some(s) => namespace_to_watch(*ns) == Some(s@),
            None => namespace_to_watch(*ns) is None,
        },
{
    match ns {
        Some(s) => if s.as_str().is_empty() {
            None
        } else {
            Some(s.as_str())
        },
        None => None,
    }
}

// ---------------------------------------------------------------------------
// Laws
// ---------------------------------------------------------------------------

proof fn lemma_seen(
    hosts: Map<Seq<char>, queue::Host>,
    objects: Seq<Arc<HTTPScaledObject>>,
    now: u64,
    key: Seq<char>,
)
    ensures
        objects_seen(hosts, objects, now).contains_key(key) <==> hosts.contains_key(key)
            || keys_of(objects).contains(key),
        hosts.contains_key(key) ==> objects_seen(hosts, objects, now)[key].concurrency
            == hosts[key].concurrency,
        !hosts.contains_key(key) && keys_of(objects).contains(key) ==> objects_seen(
            hosts,
            objects,
            now,
        )[key].concurrency == 0,
    decreases objects.len(),
{
    if objects.len() > 0 {
        lemma_seen(hosts, objects.drop_last(), now, key);
    }
}

/// After a change the counter has exactly the keys of the resources.
pub proof fn law_exactly_the_keys(
    hosts: Map<Seq<char>, queue::Host>,
    objects: Seq<Arc<HTTPScaledObject>>,
    now: u64,
)
    ensures
        hosts_synced(hosts, objects, now).dom() == keys_of(objects),
{
    assert forall|k: Seq<char>| keys_of(objects).contains(k) implies hosts_synced(
        hosts,
        objects,
        now,
    ).contains_key(k) by {
        lemma_seen(hosts, objects, now, k);
    }
    assert(hosts_synced(hosts, objects, now).dom() =~= keys_of(objects));
}

/// A change keeps the requests in flight of the keys that stay, and starts new
/// keys at zero.
pub proof fn law_change_keeps_counts(
    hosts: Map<Seq<char>, queue::Host>,
    objects: Seq<Arc<HTTPScaledObject>>,
    now: u64,
    key: Seq<char>,
)
    requires
        keys_of(objects).contains(key),
    ensures
        hosts_synced(hosts, objects, now).contains_key(key),
        hosts_synced(hosts, objects, now)[key].concurrency == (if hosts.contains_key(key) {
            hosts[key].concurrency
        } else {
            0
        }),
{
    lemma_seen(hosts, objects, now, key);
}

/// The keys that the table counts requests under are keys of the counter.
pub proof fn law_routed_keys_are_counted(
    hosts: Map<Seq<char>, queue::Host>,
    objects: Seq<Arc<HTTPScaledObject>>,
    now: u64,
    host: Seq<char>,
    i: int,
)
    requires
        0 <= i < routing::declared(objects, host).len(),
    ensures
        hosts_synced(hosts, objects, now).contains_key(routing::declared(objects, host)[i].key),
{
    lemma_declared_key(objects, host, i);
    law_change_keeps_counts(hosts, objects, now, routing::declared(objects, host)[i].key);
}

proof fn lemma_declared_key(objects: Seq<Arc<HTTPScaledObject>>, host: Seq<char>, i: int)
    requires
        0 <= i < routing::declared(objects, host).len(),
    ensures
        keys_of(objects).contains(routing::declared(objects, host)[i].key),
    decreases objects.len(),
{
    if objects.len() > 0 {
        let init = routing::declared(objects.drop_last(), host);
        if i < init.len() {
            lemma_declared_key(objects.drop_last(), host, i);
        } else {
            let o = *objects.last();
            lemma_repeated_key(o, routing::hosts_of(o.spec), host, i - init.len());
        }
    }
}

proof fn lemma_repeated_key(
    o: HTTPScaledObject,
    hosts: Seq<Seq<char>>,
    host: Seq<char>,
    i: int,
)
    requires
        0 <= i < routing::repeated(hosts, routing::routes_of(o), host).len(),
    ensures
        routing::repeated(hosts, routing::routes_of(o), host)[i].key == crd::object_key(o.metadata),
    decreases hosts.len(),
{
    if hosts.len() > 0 {
        let init = routing::repeated(hosts.drop_last(), routing::routes_of(o), host);
        if i < init.len() {
            lemma_repeated_key(o, hosts.drop_last(), host, i);
        }
    }
}

/// Whether `key` is namespace and name, with `default` and `unknown` where they
/// are missing.
pub open spec fn names_resource(key: Seq<char>, m: crd::ObjectMeta) -> bool {
    let ns = match m.namespace {
        Some(ns) => ns@,
        None => "default"@,
    };
    match m.name {
        Some(name) => key == ns + "/"@ + name@,
        None => key == ns + "/"@ + "unknown"@,
    }
}

/// The keys are those that name a resource.
pub proof fn law_keys_name_the_resources(objects: Seq<Arc<HTTPScaledObject>>, key: Seq<char>)
    ensures
        keys_of(objects).contains(key) <==> exists|n: int|
            0 <= n < objects.len() && names_resource(key, (#[trigger] objects[n]).metadata),
    decreases objects.len(),
{
    if objects.len() > 0 {
        let init = objects.drop_last();
        law_keys_name_the_resources(init, key);
        if keys_of(init).contains(key) {
            let n = choose|n: int|
                0 <= n < init.len() && names_resource(key, (#[trigger] init[n]).metadata);
            assert(objects[n] == init[n]);
        }
        assert(objects[objects.len() - 1] == objects.last());
        if exists|n: int|
            0 <= n < objects.len() && names_resource(key, (#[trigger] objects[n]).metadata) {
            let n = choose|n: int|
                0 <= n < objects.len() && names_resource(key, (#[trigger] objects[n]).metadata);
            if n < init.len() {
                assert(init[n] == objects[n]);
            }
        }
    }
}

/// A resource that asks for a request rate gets an empty ring over its window,
/// sixty seconds where it gives none, in steps of its granularity, one second
/// where it gives none. One that does not keeps what was there. Its count stays,
/// and so do all other keys.
pub proof fn law_rates_are_kept_as_asked(
    hosts: Map<Seq<char>, queue::Host>,
    o: HTTPScaledObject,
    now: u64,
    other: Seq<char>,
)
    ensures
        ({
            let key = crd::object_key(o.metadata);
            let after = object_seen(hosts, o, now);
            let asked = o.spec.scaling_metric is Some && o.spec.scaling_metric->0.request_rate
                is Some;
            let r = o.spec.scaling_metric->0.request_rate->0;
            &&& after.contains_key(key)
            &&& hosts.contains_key(key) ==> after[key].concurrency == hosts[key].concurrency
            &&& !hosts.contains_key(key) ==> after[key].concurrency == 0
            &&& !asked && hosts.contains_key(key) ==> after[key].ring == hosts[key].ring
            &&& !asked && !hosts.contains_key(key) ==> after[key].ring is None
            &&& asked ==> after[key].ring is Some && after[key].ring->0.last == now
                && after[key].ring->0.start == now
            &&& asked ==> forall|i: int|
                0 <= i < after[key].ring->0.counts.len()
                    ==> #[trigger] after[key].ring->0.counts[i] == 0
            &&& asked && config::go_duration(r.window@) is Value ==> after[key].ring->0.window
                == config::go_duration(r.window@)->Value_0
            &&& asked && config::go_duration(r.window@) is Absent ==> after[key].ring->0.window.secs
                == 60 && after[key].ring->0.window.nanos == 0
            &&& asked && config::go_duration(r.granularity@) is Value
                ==> after[key].ring->0.granularity == config::go_duration(r.granularity@)->Value_0
            &&& asked && config::go_duration(r.granularity@) is Absent
                ==> after[key].ring->0.granularity.secs == 1
                && after[key].ring->0.granularity.nanos == 0
            &&& other != key ==> after.contains_key(other) == hosts.contains_key(other)
            &&& other != key && hosts.contains_key(other) ==> after[other] == hosts[other]
        }),
{
}

/// What stays is what was seen: the resources one after the other, and then
/// nothing but their keys.
pub proof fn law_resources_are_seen_one_by_one(
    hosts: Map<Seq<char>, queue::Host>,
    objects: Seq<Arc<HTTPScaledObject>>,
    o: Arc<HTTPScaledObject>,
    now: u64,
    key: Seq<char>,
)
    ensures
        objects_seen(hosts, Seq::empty(), now) == hosts,
        objects_seen(hosts, objects.push(o), now) == object_seen(
            objects_seen(hosts, objects, now),
            *o,
            now,
        ),
        keys_of(objects).contains(key) ==> hosts_synced(hosts, objects, now)[key] == objects_seen(
            hosts,
            objects,
            now,
        )[key],
        !keys_of(objects).contains(key) ==> !hosts_synced(hosts, objects, now).contains_key(key),
{
    assert(objects.push(o).drop_last() =~= objects);
    if keys_of(objects).contains(key) {
        lemma_seen(hosts, objects, now, key);
    }
}

/// What was added, changed or deleted is taken over, and so is a complete list;
/// a list in progress, and an item that failed, change nothing. The end of the
/// watch is a failure.
pub proof fn law_changes_are_taken_over(event: WatchEvent, e: ())
    ensures
        changes_routes(event) <==> event == WatchEvent::Apply || event == WatchEvent::Delete
            || event == WatchEvent::InitDone,
        action_for(Some(Ok(event))) is Rebuild <==> changes_routes(event),
        action_for(Some(Ok(event))) is Ignore <==> event == WatchEvent::Init || event
            == WatchEvent::InitApply,
        action_for(Some(Err(e))) is Ignore,
        action_for(None) is Fail,
{
}

/// A namespace is watched where one is given and not empty.
pub proof fn law_given_namespace_is_watched(ns: Option<String>)
    ensures
        ns is Some && ns->0@.len() > 0 ==> namespace_to_watch(ns) == Some(ns->0@),
        ns is Some && ns->0@.len() == 0 ==> namespace_to_watch(ns) is None,
        ns is None ==> namespace_to_watch(ns) is None,
{
}

/// The texts that stand for a missing window and a missing granularity denote
/// what a window and a granularity are that cannot be read: a minute and a
/// second.
#[verifier::spinoff_prover]
pub proof fn law_default_texts_denote_the_defaults(unread: Seq<char>)
    requires
        config::go_duration(unread) is Absent,
    ensures
        config::go_duration(crd::window_by_default()) == GoDuration::Value(
            duration_or_secs(unread, 60),
        ),
        config::go_duration(crd::granularity_by_default()) == GoDuration::Value(
            duration_or_secs(unread, 1),
        ),
{
    config::lemma_one_minute_and_one_second();
}

} // verus!
