//! Per-host counts of requests in flight, and request rates over a ring of
//! time buckets.
//!
//! Times are nanoseconds since a fixed moment.

use vstd::prelude::*;

use crate::double;
use crate::double::Double;
use crate::duration;
use crate::duration::Duration;
use crate::store::{KeySet, KeyedStore};

verus! {

// ---------------------------------------------------------------------------
// The ring
// ---------------------------------------------------------------------------

/// The count at which a bucket stays: a double that counts in steps of one
/// gets no further.
pub const COUNT_LIMIT: u64 = 9007199254740992;

/// A ring of buckets: the counts, what they cover, the last write, and where
/// the bucket of that write stands and when its time began.
#[verifier::ext_equal]
pub struct Ring {
    pub counts: Seq<u64>,
    pub window: Duration,
    pub granularity: Duration,
    pub last: u64,
    pub at: nat,
    pub start: u64,
}

/// How many nanoseconds one bucket covers.
pub open spec fn bucket_nanos(granularity: Duration) -> nat {
    if granularity.total() == 0 {
        1
    } else {
        granularity.total()
    }
}

/// How many buckets lie in a window, the last of them perhaps in part.
pub open spec fn buckets_within(window: Duration, granularity: Duration) -> nat {
    (window.total() + bucket_nanos(granularity) - 1) as nat / bucket_nanos(granularity)
}

/// How many buckets a ring has: those that lie in the window, and one more,
/// since a window that begins within a bucket ends within another.
pub open spec fn bucket_count(window: Duration, granularity: Duration) -> nat {
    (buckets_within(window, granularity) as usize) as nat + 1
}

/// Whether that many buckets fit into memory.
pub open spec fn buckets_fit(window: Duration, granularity: Duration) -> bool {
    bucket_count(window, granularity) * 8 <= isize::MAX
}

/// A ring with nothing in it.
pub open spec fn fresh_ring(window: Duration, granularity: Duration, now: u64) -> Ring {
    Ring {
        counts: Seq::new(bucket_count(window, granularity), |i: int| 0u64),
        window,
        granularity,
        last: now,
        at: 0,
        start: now,
    }
}

impl Ring {
    pub open spec fn wf(self) -> bool {
        &&& self.at < self.counts.len()
        &&& (self.counts.len() - 1) * bucket_nanos(self.granularity) < self.window.total()
            + bucket_nanos(self.granularity)
        &&& forall|i: int| 0 <= i < self.counts.len() ==> #[trigger] self.counts[i] <= COUNT_LIMIT
    }

    /// How many buckets on `now` is from the bucket of the last write.
    pub open spec fn steps(self, now: u64) -> nat {
        if now <= self.start {
            0
        } else {
            (now - self.start) as nat / bucket_nanos(self.granularity)
        }
    }

    /// How many buckets on position `i` is from the bucket of the last write: 1
    /// for the next one, up to the number of buckets for that bucket itself.
    pub open spec fn ahead(self, i: int) -> int {
        if i > self.at {
            i - self.at
        } else {
            i - self.at + self.counts.len()
        }
    }

    /// The counts at `now`: the buckets that time has passed over are empty.
    pub open spec fn advanced(self, now: u64) -> Seq<u64> {
        Seq::new(
            self.counts.len(),
            |i: int|
                if self.ahead(i) <= self.steps(now) {
                    0u64
                } else {
                    self.counts[i]
                },
        )
    }

    /// The bucket of `now`.
    pub open spec fn bucket_of(self, now: u64) -> nat {
        (self.at + self.steps(now)) % self.counts.len()
    }

    /// The ring after one event at `now`.
    pub open spec fn recorded(self, now: u64) -> Ring {
        let counts = self.advanced(now);
        let i = self.bucket_of(now) as int;
        Ring {
            counts: counts.update(i, one_more(counts[i])),
            last: now,
            at: self.bucket_of(now),
            start: (self.start + self.steps(now) * bucket_nanos(self.granularity)) as u64,
            ..self
        }
    }

    /// Whether the bucket at position `i` reaches into the window that ends at
    /// `now`: its time ends after that window begins.
    pub open spec fn reaches(self, i: int, now: u64) -> bool {
        let g = bucket_nanos(self.granularity);
        self.start + g + self.window.total() > now + (self.counts.len() - self.ahead(i)) * g
    }

    /// The counts at `now` of the buckets that reach into the window.
    pub open spec fn in_window(self, now: u64) -> Seq<u64> {
        Seq::new(
            self.counts.len(),
            |i: int|
                if self.reaches(i, now) {
                    self.counts[i]
                } else {
                    0u64
                },
        )
    }

    /// Events per second over the window; zero where the last write lies
    /// before the window.
    pub open spec fn rate(self, now: u64) -> Double {
        if self.last + self.window.total() < now || self.window.total() == 0 {
            double::zero(false)
        } else {
            double::quotient(total_of(self.in_window(now)), duration::secs_double(self.window))
        }
    }
}

/// A count with one more event in it.
pub open spec fn one_more(n: u64) -> u64 {
    if n < COUNT_LIMIT {
        (n + 1) as u64
    } else {
        n
    }
}

/// The sum of counts, added up from the left in doubles.
pub open spec fn total_of(counts: Seq<u64>) -> Double
    decreases counts.len(),
{
    if counts.len() == 0 {
        double::zero(false)
    } else {
        double::sum(
            total_of(counts.drop_last()),
            double::nearest(false, counts.last() as nat, 1),
        )
    }
}

/// Counts of events in buckets of equal length that are reused in turn.
pub struct RpsBuckets {
    buckets: Vec<u64>,
    window: Duration,
    granularity: Duration,
    last_write_time: u64,
    last_write_idx: usize,
    bucket_start: u64,
}

impl View for RpsBuckets {
    type V = Ring;

    closed spec fn view(&self) -> Ring {
        Ring {
            counts: self.buckets@,
            window: self.window,
            granularity: self.granularity,
            last: self.last_write_time,
            at: self.last_write_idx as nat,
            start: self.bucket_start,
        }
    }
}

fn nanos_of(granularity: Duration) -> (n: u128)
    ensures
        n == bucket_nanos(granularity),
        n > 0,
{
    let n = granularity.as_nanos();
    if n == 0 {
        1
    } else {
        n
    }
}

/// The number of buckets that lie in a window.
fn count_buckets(window: Duration, granularity: Duration) -> (n: usize)
    ensures
        n + 1 == bucket_count(window, granularity),
        n * bucket_nanos(granularity) < window.total() + bucket_nanos(granularity),
{
    let w = window.as_nanos();
    let g = nanos_of(granularity);
    let all = (w + (g - 1)) / g;
    let n = all as usize;
    assert(n <= all) by {
        assert((all as usize) <= all) by (bit_vector);
    }
    assert(n * g < w + g) by (nonlinear_arith)
        requires
            n <= all,
            all == (w + (g - 1)) / g as int,
            g > 0,
    ;
    n
}

/// Whether the buckets for a window fit into memory.
pub fn buckets_usable(window: Duration, granularity: Duration) -> (b: bool)
    ensures
        b == buckets_fit(window, granularity),
{
    count_buckets(window, granularity) < (isize::MAX / 8) as usize
}

impl RpsBuckets {
    pub fn new(window: Duration, granularity: Duration, now: u64) -> (r: RpsBuckets)
        requires
            buckets_fit(window, granularity),
        ensures
            r@.wf(),
            r@ == fresh_ring(window, granularity, now),
    {
        let n = count_buckets(window, granularity);
        let r = RpsBuckets {
            buckets: vec![0u64; n + 1],
            window,
            granularity,
            last_write_time: now,
            last_write_idx: 0,
            bucket_start: now,
        };
        assert(r@ =~= fresh_ring(window, granularity, now));
        r
    }

    fn steps_to(&self, now: u64) -> (n: u64)
        ensures
            n == self@.steps(now),
    {
        if now <= self.bucket_start {
            return 0;
        }
        let g = nanos_of(self.granularity);
        let elapsed = now - self.bucket_start;
        let n = elapsed as u128 / g;
        assert(n <= elapsed) by (nonlinear_arith)
            requires
                n == elapsed as u128 / g,
                g > 0,
        ;
        n as u64
    }

    fn bucket_index(&self, now: u64) -> (i: usize)
        requires
            self@.wf(),
        ensures
            i == self@.bucket_of(now),
            i < self@.counts.len(),
    {
        let n = self.buckets.len();
        ((self.last_write_idx as u128 + self.steps_to(now) as u128) % n as u128) as usize
    }

    /// When the time of the bucket of `now` began.
    fn start_of(&self, now: u64) -> (t: u64)
        ensures
            t == self@.start + self@.steps(now) * bucket_nanos(self@.granularity),
    {
        if now <= self.bucket_start {
            assert(0 * bucket_nanos(self@.granularity) == 0);
            return self.bucket_start;
        }
        let g = nanos_of(self.granularity);
        let elapsed = now - self.bucket_start;
        let part = elapsed as u128 % g;
        proof {
            vstd::arithmetic::div_mod::lemma_fundamental_div_mod(elapsed as int, g as int);
            vstd::arithmetic::mul::lemma_mul_is_commutative(g as int, elapsed as int / g as int);
            vstd::arithmetic::div_mod::lemma_mod_decreases(elapsed as nat, g as nat);
        }
        now - part as u64
    }

    /// Empties the buckets that time has passed over.
    fn advance_to(&mut self, now: u64)
        requires
            old(self)@.wf(),
        ensures
            final(self)@ == (Ring { counts: old(self)@.advanced(now), ..old(self)@ }),
            final(self)@.wf(),
    {
        let steps = self.steps_to(now);
        let n = self.buckets.len();
        let at = self.last_write_idx;
        let clear: usize = if (n as u128) < steps as u128 {
            n
        } else {
            steps as usize
        };
        let ghost ring = self@;
        for i in 0..clear
            invariant
                ring == old(self)@,
                ring.wf(),
                n == ring.counts.len(),
                at == ring.at,
                clear <= n,
                self@ == (Ring { counts: self.buckets@, ..ring }),
                self.buckets@.len() == n,
                forall|k: int|
                    0 <= k < n ==> #[trigger] self.buckets@[k] == (if ring.ahead(k) <= i {
                        0u64
                    } else {
                        ring.counts[k]
                    }),
        {
            let k: usize = if i + 1 < n - at {
                at + i + 1
            } else {
                i + 1 - (n - at)
            };
            assert(forall|j: int| 0 <= j < n && j != k ==> ring.ahead(j) != i + 1);
            self.buckets[k] = 0;
        }
        assert(self@.counts =~= ring.advanced(now));
    }

    /// Counts one event at `now`.
    pub fn record(&mut self, now: u64)
        requires
            old(self)@.wf(),
        ensures
            final(self)@.wf(),
            final(self)@ == old(self)@.recorded(now),
    {
        let idx = self.bucket_index(now);
        let start = self.start_of(now);
        self.advance_to(now);
        let n = self.buckets[idx];
        if n < COUNT_LIMIT {
            self.buckets[idx] = n + 1;
        }
        self.last_write_time = now;
        self.last_write_idx = idx;
        self.bucket_start = start;
        assert(self@ =~= old(self)@.recorded(now));
    }

    /// Events per second over the window.
    pub fn window_average(&self, now: u64) -> (r: Double)
        requires
            self@.wf(),
        ensures
            r == self@.rate(now),
            r.wf(),
    {
        let window = self.window.as_nanos();
        if self.last_write_time as u128 + window < now as u128 || window == 0 {
            return Double::Finite { neg: false, mant: 0, exp: -1074 };
        }
        let n = self.buckets.len();
        let at = self.last_write_idx;
        let g = nanos_of(self.granularity);
        let end = self.bucket_start as u128 + g + window;
        let ghost counts = self@.in_window(now);
        let mut total = Double::Finite { neg: false, mant: 0, exp: -1074 };
        for i in 0..n
            invariant
                self@.wf(),
                n == self@.counts.len(),
                n == counts.len(),
                at == self@.at,
                g == bucket_nanos(self@.granularity),
                window == self@.window.total(),
                window < 0x1_0000_0000_0000_0000_0000_0000,
                g < 0x1_0000_0000_0000_0000_0000_0000,
                end == self@.start + g + window,
                counts == self@.in_window(now),
                total == total_of(counts.take(i as int)),
                total.wf(),
        {
            let back: usize = if i > at {
                n - (i - at)
            } else {
                at - i
            };
            assert(back == n - self@.ahead(i as int));
            assert(back * g <= (n - 1) * g) by (nonlinear_arith)
                requires
                    back <= n - 1,
            ;
            let count: u64 = if end > now as u128 + back as u128 * g {
                self.buckets[i]
            } else {
                0
            };
            total = total.plus(Double::from_u64(count));
            assert(counts.take(i + 1).drop_last() =~= counts.take(i as int));
        }
        assert(counts.take(n as int) =~= counts);
        total.over(self.window.as_secs())
    }
}

// ---------------------------------------------------------------------------
// The counter
// ---------------------------------------------------------------------------

/// What is kept for a host.
pub struct Host {
    pub concurrency: i64,
    pub ring: Option<Ring>,
}

impl Host {
    pub open spec fn wf(self) -> bool {
        self.ring is Some ==> self.ring->0.wf()
    }
}

/// A host without requests and without a ring.
pub open spec fn idle_host() -> Host {
    Host { concurrency: 0, ring: None }
}

/// `hosts` with one for `key` if there was none.
pub open spec fn ensured(hosts: Map<Seq<char>, Host>, key: Seq<char>) -> Map<Seq<char>, Host> {
    if hosts.contains_key(key) {
        hosts
    } else {
        hosts.insert(key, idle_host())
    }
}

/// `hosts` with a new ring for `key`, if that host is known.
pub open spec fn with_ring(hosts: Map<Seq<char>, Host>, key: Seq<char>, ring: Ring) -> Map<
    Seq<char>,
    Host,
> {
    if hosts.contains_key(key) {
        hosts.insert(key, Host { ring: Some(ring), ..hosts[key] })
    } else {
        hosts
    }
}

/// One more request in flight. The count wraps around at its largest value.
pub open spec fn up(n: i64) -> i64 {
    if n == i64::MAX {
        i64::MIN
    } else {
        (n + 1) as i64
    }
}

/// One request less in flight, never below zero.
pub open spec fn down(n: i64) -> i64 {
    if n <= 0 {
        n
    } else {
        (n - 1) as i64
    }
}

/// `hosts` after a request for `key` came in, if that host is known.
pub open spec fn increased(hosts: Map<Seq<char>, Host>, key: Seq<char>, now: u64) -> Map<
    Seq<char>,
    Host,
> {
    if hosts.contains_key(key) {
        let h = hosts[key];
        hosts.insert(
            key,
            Host {
                concurrency: up(h.concurrency),
                ring: match h.ring {
                    Some(r) => Some(r.recorded(now)),
                    None => None,
                },
            },
        )
    } else {
        hosts
    }
}

/// `hosts` after a request for `key` is done, if that host is known.
pub open spec fn decreased(hosts: Map<Seq<char>, Host>, key: Seq<char>) -> Map<Seq<char>, Host> {
    if hosts.contains_key(key) {
        let h = hosts[key];
        hosts.insert(key, Host { concurrency: down(h.concurrency), ..h })
    } else {
        hosts
    }
}

pub struct HostEntry {
    concurrency: i64,
    rps_buckets: Option<RpsBuckets>,
}

impl View for HostEntry {
    type V = Host;

    closed spec fn view(&self) -> Host {
        Host {
            concurrency: self.concurrency,
            ring: match self.rps_buckets {
                Some(b) => Some(b@),
                None => None,
            },
        }
    }
}

impl HostEntry {
    fn new() -> (e: HostEntry)
        ensures
            e@ == idle_host(),
    {
        HostEntry { concurrency: 0, rps_buckets: None }
    }
}

/// Stands for one request that is being counted, under the key it holds. It is
/// given back to [`QueueCounter::release`] when the request is done.
pub struct QueueGuard {
    key: String,
}

impl View for QueueGuard {
    type V = Seq<char>;

    closed spec fn view(&self) -> Seq<char> {
        self.key@
    }
}

/// The counts of a host at some moment.
#[derive(Clone, Copy, Debug)]
pub struct QueueCount {
    pub concurrency: i64,
    pub rps: Double,
}

/// What a host counts at `now`.
pub open spec fn count_at(h: Host, now: u64) -> QueueCount {
    QueueCount {
        concurrency: h.concurrency,
        rps: match h.ring {
            Some(r) => r.rate(now),
            None => double::zero(false),
        },
    }
}

/// Whether `list` gives, for each of `hosts` once and for no other, what it
/// counts at `now`.
pub open spec fn lists_counts(
    list: Seq<(String, QueueCount)>,
    hosts: Map<Seq<char>, Host>,
    now: u64,
) -> bool {
    &&& forall|i: int|
        0 <= i < list.len() ==> hosts.contains_key((#[trigger] list[i]).0@) && list[i].1
            == count_at(hosts[list[i].0@], now)
    &&& forall|i: int, j: int|
        0 <= i < j < list.len() ==> (#[trigger] list[i]).0@ != (#[trigger] list[j]).0@
    &&& forall|k: Seq<char>| #[trigger]
        hosts.contains_key(k) ==> exists|i: int| 0 <= i < list.len() && (#[trigger] list[i]).0@ == k
}

/// Counts requests per host.
pub struct QueueCounter {
    entries: KeyedStore<HostEntry>,
}

impl View for QueueCounter {
    type V = Map<Seq<char>, Host>;

    closed spec fn view(&self) -> Map<Seq<char>, Host> {
        self.entries@.map_values(|e: HostEntry| e@)
    }
}

impl QueueCounter {
    pub closed spec fn wf(self) -> bool {
        &&& self.entries.wf()
        &&& forall|k: Seq<char>| #[trigger] self@.contains_key(k) ==> self@[k].wf()
    }

    pub fn new() -> (q: QueueCounter)
        ensures
            q.wf(),
            q@ == Map::<Seq<char>, Host>::empty(),
    {
        let q = QueueCounter { entries: KeyedStore::new() };
        assert(q@ =~= Map::<Seq<char>, Host>::empty());
        q
    }

    /// Makes sure that `key` is known.
    pub fn ensure_key(&mut self, key: &str)
        requires
            old(self).wf(),
        ensures
            final(self).wf(),
            final(self)@ == ensured(old(self)@, key@),
    {
        if self.entries.get(key).is_none() {
            self.entries.insert(key, HostEntry::new());
        }
        assert(self@ =~= ensured(old(self)@, key@));
    }

    /// Forgets `key`.
    pub fn remove_key(&mut self, key: &str)
        requires
            old(self).wf(),
        ensures
            final(self).wf(),
            final(self)@ == old(self)@.remove(key@),
    {
        self.entries.remove(key);
        assert(self@ =~= old(self)@.remove(key@));
    }

    /// Forgets every key that is not among `keys`.
    pub fn retain_keys(&mut self, keys: &KeySet)
        requires
            old(self).wf(),
        ensures
            final(self).wf(),
            final(self)@ == old(self)@.restrict(keys@),
    {
        self.entries.retain(keys);
        assert(self@ =~= old(self)@.restrict(keys@));
    }

    /// Gives `key` a new ring in place of the one it had.
    pub fn update_buckets(&mut self, key: &str, window: Duration, granularity: Duration, now: u64)
        requires
            old(self).wf(),
            buckets_fit(window, granularity),
        ensures
            final(self).wf(),
            final(self)@ == with_ring(old(self)@, key@, fresh_ring(window, granularity, now)),
    {
        if let Some(e) = self.entries.get_mut(key) {
            e.rps_buckets = Some(RpsBuckets::new(window, granularity, now));
        }
        assert(self@ =~= with_ring(old(self)@, key@, fresh_ring(window, granularity, now)));
    }

    /// Counts a request for `key` that came in at `now`.
    pub fn increase(&mut self, key: &str, now: u64) -> (g: QueueGuard)
        requires
            old(self).wf(),
        ensures
            final(self).wf(),
            final(self)@ == increased(old(self)@, key@, now),
            g@ == key@,
    {
        if let Some(e) = self.entries.get_mut(key) {
            assert(old(self)@.contains_key(key@) && old(self)@[key@] == e@);
            e.concurrency = e.concurrency.wrapping_add(1);
            if let Some(b) = &mut e.rps_buckets {
                b.record(now);
            }
        }
        assert(self@ =~= increased(old(self)@, key@, now));
        QueueGuard { key: key.to_string() }
    }

    /// The counts of all hosts at `now`.
    pub fn current(&self, now: u64) -> (r: Vec<(String, QueueCount)>)
        requires
            self.wf(),
        ensures
            lists_counts(r@, self@, now),
            forall|i: int| 0 <= i < r@.len() ==> (#[trigger] r@[i]).1.rps.wf(),
    {
        let mut r: Vec<(String, QueueCount)> = Vec::new();
        proof {
            self.entries.lemma_order();
        }
        let n = self.entries.len();
        for i in 0..n
            invariant
                self.wf(),
                n == self.entries.order().len(),
                r@.len() == i,
                forall|j: int|
                    #![trigger r@[j]]
                    0 <= j < i ==> r@[j].1.rps.wf() && r@[j].0@ == self.entries.order()[j] && r@[j].1 == count_at(
                        self@[self.entries.order()[j]],
                        now,
                    ),
                forall|j: int|
                    #![trigger self.entries.order()[j]]
                    0 <= j < n ==> self.entries@.contains_key(self.entries.order()[j]),
        {
            let e = self.entries.value_at(i);
            let ghost k = self.entries.order()[i as int];
            assert(self.entries@.contains_key(k));
            assert(self@.contains_key(k) && self@[k] == e@);
            let rps = match &e.rps_buckets {
                Some(b) => b.window_average(now),
                None => Double::Finite { neg: false, mant: 0, exp: -1074 },
            };
            r.push(
                (
                    self.entries.key_at(i).to_string(),
                    QueueCount { concurrency: e.concurrency, rps },
                ),
            );
        }
        proof {
            self.entries.lemma_order();
            assert forall|k: Seq<char>| #[trigger] self@.contains_key(k) implies exists|i: int|
                0 <= i < r@.len() && (#[trigger] r@[i]).0@ == k by {
                assert(self.entries@.contains_key(k));
                let i = choose|i: int|
                    0 <= i < self.entries.order().len() && #[trigger] self.entries.order()[i] == k;
                assert(r@[i].0@ == k);
            }
            assert forall|i: int| 0 <= i < r@.len() implies self@.contains_key(
                (#[trigger] r@[i]).0@,
            ) by {
                assert(self.entries@.contains_key(self.entries.order()[i]));
            }
            assert forall|i: int, j: int| 0 <= i < j < r@.len() implies (#[trigger] r@[i]).0@ != (
            #[trigger] r@[j]).0@ by {
                assert(self.entries.order()[i] != self.entries.order()[j]);
            }
        }
        r
    }

    /// Counts one request less for `key`, never below zero.
    pub fn decrease_inner(&mut self, key: &str)
        requires
            old(self).wf(),
        ensures
            final(self).wf(),
            final(self)@ == decreased(old(self)@, key@),
    {
        if let Some(e) = self.entries.get_mut(key) {
            assert(old(self)@[key@] == e@);
            if e.concurrency > 0 {
                e.concurrency = e.concurrency - 1;
            }
        }
        assert(self@ =~= decreased(old(self)@, key@));
    }

    /// The request that `guard` stands for is done.
    pub fn release(&mut self, guard: QueueGuard)
        requires
            old(self).wf(),
        ensures
            final(self).wf(),
            final(self)@ == decreased(old(self)@, guard@),
    {
        self.decrease_inner(guard.key.as_str());
    }
}

// ---------------------------------------------------------------------------
// Laws
// ---------------------------------------------------------------------------

/// To make sure of a key twice is to make sure of it once.
pub proof fn law_ensure_is_idempotent(hosts: Map<Seq<char>, Host>, key: Seq<char>)
    ensures
        ensured(ensured(hosts, key), key) == ensured(hosts, key),
        ensured(hosts, key).contains_key(key),
{
}

/// A request that came in and is done leaves every count as it was, unless the
/// count was negative or at its largest value.
pub proof fn law_done_request_leaves_no_trace(
    hosts: Map<Seq<char>, Host>,
    key: Seq<char>,
    now: u64,
    other: Seq<char>,
)
    requires
        hosts.contains_key(key) ==> 0 <= hosts[key].concurrency < i64::MAX,
    ensures
        decreased(increased(hosts, key, now), key).dom() == hosts.dom(),
        hosts.contains_key(other) ==> decreased(increased(hosts, key, now), key)[other].concurrency
            == hosts[other].concurrency,
{
    assert(decreased(increased(hosts, key, now), key).dom() =~= hosts.dom());
}

/// Whether no count is negative.
pub open spec fn no_negative(hosts: Map<Seq<char>, Host>) -> bool {
    forall|k: Seq<char>| #[trigger] hosts.contains_key(k) ==> hosts[k].concurrency >= 0
}

/// No count becomes negative, short of one that wraps around at its largest
/// value.
pub proof fn law_counts_stay_nonnegative(
    hosts: Map<Seq<char>, Host>,
    key: Seq<char>,
    keys: Set<Seq<char>>,
    ring: Ring,
    now: u64,
)
    requires
        no_negative(hosts),
        hosts.contains_key(key) ==> hosts[key].concurrency < i64::MAX,
    ensures
        no_negative(ensured(hosts, key)),
        no_negative(with_ring(hosts, key, ring)),
        no_negative(increased(hosts, key, now)),
        no_negative(decreased(hosts, key)),
        no_negative(hosts.remove(key)),
        no_negative(hosts.restrict(keys)),
{
}

/// Requests under one key never touch another one.
pub proof fn law_keys_are_independent(
    hosts: Map<Seq<char>, Host>,
    key: Seq<char>,
    other: Seq<char>,
    now: u64,
)
    requires
        key != other,
    ensures
        increased(hosts, key, now).contains_key(other) == hosts.contains_key(other),
        decreased(hosts, key).contains_key(other) == hosts.contains_key(other),
        increased(hosts, key, now)[other] == hosts[other],
        decreased(hosts, key)[other] == hosts[other],
{
}

/// A count after requests have come in (`true`) and were done (`false`).
pub open spec fn counted(start: i64, events: Seq<bool>) -> i64
    decreases events.len(),
{
    if events.len() == 0 {
        start
    } else if events.last() {
        up(counted(start, events.drop_last()))
    } else {
        down(counted(start, events.drop_last()))
    }
}

/// How many of the requests that came in are not done yet.
pub open spec fn in_flight(events: Seq<bool>) -> int
    decreases events.len(),
{
    if events.len() == 0 {
        0
    } else if events.last() {
        in_flight(events.drop_last()) + 1
    } else {
        in_flight(events.drop_last()) - 1
    }
}

/// Where every request is done after it came in, the count of a host is the
/// number of requests in flight, in whatever order they come and go.
pub proof fn law_count_is_requests_in_flight(events: Seq<bool>)
    requires
        events.len() < i64::MAX,
        forall|n: int| 0 <= n <= events.len() ==> in_flight(#[trigger] events.take(n)) >= 0,
    ensures
        counted(0, events) == in_flight(events),
        0 <= in_flight(events) <= events.len(),
    decreases events.len(),
{
    if events.len() > 0 {
        let n = events.len() as int;
        let init = events.drop_last();
        assert forall|k: int| 0 <= k <= init.len() implies in_flight(#[trigger] init.take(k))
            >= 0 by {
            assert(init.take(k) =~= events.take(k));
        }
        assert(events.take(n) =~= events);
        law_count_is_requests_in_flight(init);
    }
}

/// After a pause as long as the whole ring, an event finds it empty: it is
/// then the only one counted.
pub proof fn law_long_pause_empties_the_ring(ring: Ring, now: u64, i: int)
    requires
        ring.wf(),
        ring.steps(now) >= ring.counts.len(),
        0 <= i < ring.counts.len(),
    ensures
        ring.recorded(now).counts[i] == (if i == ring.recorded(now).at {
            1u64
        } else {
            0u64
        }),
{
    lemma_bucket_in_range(ring, now);
}

proof fn lemma_bucket_in_range(ring: Ring, now: u64)
    requires
        ring.wf(),
    ensures
        ring.bucket_of(now) < ring.counts.len(),
        ring.steps(now) == 0 ==> ring.bucket_of(now) == ring.at,
{
    let n = ring.counts.len();
    let m = ring.at + ring.steps(now);
    assert(0 <= m % n < n) by (nonlinear_arith)
        requires
            n > 0,
    ;
    if ring.steps(now) == 0 {
        vstd::arithmetic::div_mod::lemma_small_mod(ring.at, n);
    }
}

/// An event within the time of the bucket of the last write adds to that bucket and
/// changes no other.
pub proof fn law_same_bucket_adds_up(ring: Ring, now: u64, i: int)
    requires
        ring.wf(),
        ring.steps(now) == 0,
        0 <= i < ring.counts.len(),
    ensures
        ring.recorded(now).at == ring.at,
        ring.recorded(now).counts[i] == (if i == ring.at {
            one_more(ring.counts[i])
        } else {
            ring.counts[i]
        }),
{
    lemma_bucket_in_range(ring, now);
}

/// The number of events in a ring.
pub open spec fn events(counts: Seq<u64>) -> nat
    decreases counts.len(),
{
    if counts.len() == 0 {
        0
    } else {
        events(counts.drop_last()) + counts.last() as nat
    }
}

proof fn lemma_total_of(counts: Seq<u64>)
    requires
        events(counts) < COUNT_LIMIT,
    ensures
        total_of(counts) == double::nearest(false, events(counts), 1),
    decreases counts.len(),
{
    if counts.len() == 0 {
        double::law_nothing_is_zero(false, 1);
    } else {
        lemma_total_of(counts.drop_last());
        double::law_integers_add_exactly(events(counts.drop_last()), counts.last() as nat);
    }
}

/// The rate over a window of whole seconds is the number of events in the buckets
/// that reach into the window, divided by the seconds, rounded once, as long as
/// both stay below `2^53`.
pub proof fn law_rate_is_events_per_second(ring: Ring, now: u64)
    requires
        ring.window.nanos == 0,
        0 < ring.window.secs < COUNT_LIMIT,
        events(ring.in_window(now)) < COUNT_LIMIT,
        now <= ring.last + ring.window.total(),
    ensures
        ring.rate(now) == double::nearest(
            false,
            events(ring.in_window(now)),
            ring.window.secs as nat,
        ),
{
    let secs = ring.window.secs as nat;
    lemma_total_of(ring.in_window(now));
    double::law_quotients_of_integers_are_nearest(0, 1_000_000_000);
    double::law_nothing_is_zero(false, 1_000_000_000);
    double::law_nothing_is_zero(false, 1);
    double::law_integers_add_exactly(secs, 0);
    assert(duration::secs_double(ring.window) == double::nearest(false, secs, 1));
    double::law_quotients_of_integers_are_nearest(events(ring.in_window(now)), secs);
}

/// An event adds one to the number of events that are left when time has
/// passed over the ring.
pub proof fn law_event_is_counted_once(ring: Ring, now: u64)
    requires
        ring.wf(),
        ring.advanced(now)[ring.bucket_of(now) as int] < COUNT_LIMIT,
    ensures
        events(ring.recorded(now).counts) == events(ring.advanced(now)) + 1,
{
    lemma_bucket_in_range(ring, now);
    lemma_events_update(ring.advanced(now), ring.bucket_of(now) as int);
}

proof fn lemma_events_update(counts: Seq<u64>, i: int)
    requires
        0 <= i < counts.len(),
        counts[i] < COUNT_LIMIT,
    ensures
        events(counts.update(i, one_more(counts[i]))) == events(counts) + 1,
    decreases counts.len(),
{
    let new = counts.update(i, one_more(counts[i]));
    if i == counts.len() - 1 {
        assert(new.drop_last() =~= counts.drop_last());
    } else {
        lemma_events_update(counts.drop_last(), i);
        assert(new.drop_last() =~= counts.drop_last().update(i, one_more(counts[i])));
    }
}

/// A ring that was made at `made`, after events at `times`.
pub open spec fn ring_after(
    window: Duration,
    granularity: Duration,
    made: u64,
    times: Seq<u64>,
) -> Ring
    decreases times.len(),
{
    if times.len() == 0 {
        fresh_ring(window, granularity, made)
    } else {
        ring_after(window, granularity, made, times.drop_last()).recorded(times.last())
    }
}

/// Whether times come one after the other, none before `made`.
pub open spec fn in_order(made: u64, times: Seq<u64>) -> bool {
    &&& forall|i: int| 0 <= i < times.len() ==> made <= #[trigger] times[i]
    &&& forall|i: int, j: int|
        0 <= i <= j < times.len() ==> #[trigger] times[i] <= #[trigger] times[j]
}

/// The last of `times`, or `made`.
pub open spec fn latest(made: u64, times: Seq<u64>) -> u64 {
    if times.len() == 0 {
        made
    } else {
        times.last()
    }
}

/// The number of the bucket of a time, counted from when the ring was made.
pub open spec fn bucket_number(granularity: Duration, made: u64, t: u64) -> int {
    (t - made) / bucket_nanos(granularity) as int
}

/// How many of `times` have the bucket number `k`.
pub open spec fn in_bucket(granularity: Duration, made: u64, times: Seq<u64>, k: int) -> nat
    decreases times.len(),
{
    if times.len() == 0 {
        0
    } else {
        let before = in_bucket(granularity, made, times.drop_last(), k);
        if bucket_number(granularity, made, times.last()) == k {
            before + 1
        } else {
            before
        }
    }
}

/// Whether an event at `t` counts at `now`: the time of its bucket ends after
/// the window that ends at `now` begins.
pub open spec fn counts_at(
    window: Duration,
    granularity: Duration,
    made: u64,
    t: u64,
    now: u64,
) -> bool {
    made + (bucket_number(granularity, made, t) + 1) * bucket_nanos(granularity) + window.total()
        > now
}

/// How many of `times` count at `now`.
pub open spec fn counting(
    window: Duration,
    granularity: Duration,
    made: u64,
    times: Seq<u64>,
    now: u64,
) -> nat
    decreases times.len(),
{
    if times.len() == 0 {
        0
    } else {
        let before = counting(window, granularity, made, times.drop_last(), now);
        if counts_at(window, granularity, made, times.last(), now) {
            before + 1
        } else {
            before
        }
    }
}

proof fn lemma_in_order_before(made: u64, times: Seq<u64>)
    requires
        in_order(made, times),
        times.len() > 0,
    ensures
        in_order(made, times.drop_last()),
        made <= latest(made, times.drop_last()) <= times.last(),
{
    let init = times.drop_last();
    assert forall|i: int| 0 <= i < init.len() implies made <= #[trigger] init[i] by {
        assert(init[i] == times[i]);
    }
    assert forall|i: int, j: int| 0 <= i <= j < init.len() implies #[trigger] init[i]
        <= #[trigger] init[j] by {
        assert(init[i] == times[i] && init[j] == times[j]);
    }
    assert(made <= times[times.len() - 1]);
    if init.len() > 0 {
        assert(made <= times[times.len() - 2] <= times[times.len() - 1]);
    }
}

/// The position that is `j` buckets on from position `b % n`.
proof fn lemma_ahead(ring: Ring, b: int, j: int)
    requires
        ring.counts.len() > 0,
        ring.at == b % (ring.counts.len() as int),
        1 <= j <= ring.counts.len(),
    ensures
        0 <= (b + j) % (ring.counts.len() as int) < ring.counts.len(),
        ring.ahead((b + j) % (ring.counts.len() as int)) == j,
{
    let n = ring.counts.len() as int;
    let at = b % n;
    vstd::arithmetic::div_mod::lemma_add_mod_noop_right(j, b, n);
    assert((j + b) % n == (j + at) % n);
    vstd::arithmetic::div_mod::lemma_mod_bound(b + j, n);
    if at + j < n {
        vstd::arithmetic::div_mod::lemma_small_mod((at + j) as nat, n as nat);
    } else if at + j < 2 * n {
        vstd::arithmetic::div_mod::lemma_mod_multiples_vanish(-1, at + j, n);
        vstd::arithmetic::div_mod::lemma_small_mod((at + j - n) as nat, n as nat);
    }
}

/// The number of steps to `now` is the difference of the bucket numbers.
proof fn lemma_steps(ring: Ring, made: u64, b: int, now: u64)
    requires
        made <= now,
        0 <= b <= bucket_number(ring.granularity, made, now),
        ring.start == made + b * bucket_nanos(ring.granularity),
    ensures
        ring.steps(now) == bucket_number(ring.granularity, made, now) - b,
        ring.start + ring.steps(now) * bucket_nanos(ring.granularity) == made + bucket_number(
            ring.granularity,
            made,
            now,
        ) * bucket_nanos(ring.granularity),
        ring.start + ring.steps(now) * bucket_nanos(ring.granularity) <= now,
{
    let g = bucket_nanos(ring.granularity) as int;
    let x = now - made;
    let q = x / g;
    vstd::arithmetic::div_mod::lemma_fundamental_div_mod(x, g);
    vstd::arithmetic::mul::lemma_mul_is_commutative(g, q);
    vstd::arithmetic::mul::lemma_mul_is_distributive_sub_other_way(g, q, b);
    vstd::arithmetic::mul::lemma_mul_inequality(b, q, g);
    vstd::arithmetic::div_mod::lemma_fundamental_div_mod_converse(x - b * g, g, q - b, x % g);
    vstd::arithmetic::div_mod::lemma_mod_bound(x, g);
    if now <= ring.start {
        assert(q == b) by (nonlinear_arith)
            requires
                b <= q,
                q * g <= b * g,
                g > 0,
        ;
    }
}

/// What a ring holds after events: for each of the last bucket numbers, how many
/// of the events have it.
proof fn lemma_ring_after(
    window: Duration,
    granularity: Duration,
    made: u64,
    times: Seq<u64>,
)
    requires
        in_order(made, times),
        buckets_within(window, granularity) <= usize::MAX,
        times.len() < COUNT_LIMIT,
    ensures
        ({
            let ring = ring_after(window, granularity, made, times);
            let n = bucket_count(window, granularity) as int;
            let b = bucket_number(granularity, made, latest(made, times));
            &&& ring.wf()
            &&& ring.window == window
            &&& ring.granularity == granularity
            &&& ring.last == latest(made, times)
            &&& ring.counts.len() == n
            &&& n > 0
            &&& b >= 0
            &&& ring.at == b % n
            &&& ring.start == made + b * bucket_nanos(granularity)
            &&& forall|k: int|
                b - n < k <= b ==> ring.counts[#[trigger] (k % n)] == in_bucket(
                    granularity,
                    made,
                    times,
                    k,
                )
        }),
    decreases times.len(), 0int,
{
    let n = bucket_count(window, granularity) as int;
    let g = bucket_nanos(granularity) as int;
    let now = latest(made, times);
    let b = bucket_number(granularity, made, now);
    let ring = ring_after(window, granularity, made, times);
    if times.len() == 0 {
        lemma_buckets_within(window, granularity);
        vstd::arithmetic::div_mod::lemma_div_basics(g);
        assert(b == 0);
        vstd::arithmetic::div_mod::lemma_small_mod(0, n as nat);
        assert forall|k: int| b - n < k <= b implies ring.counts[#[trigger] (k % n)] == in_bucket(
            granularity,
            made,
            times,
            k,
        ) by {
            vstd::arithmetic::div_mod::lemma_mod_bound(k, n);
        }
    } else {
        let init = times.drop_last();
        lemma_in_order_before(made, times);
        lemma_ring_after(window, granularity, made, init);
        let old_ring = ring_after(window, granularity, made, init);
        let a = bucket_number(granularity, made, latest(made, init));
        vstd::arithmetic::div_mod::lemma_div_is_ordered(latest(made, init) - made, now - made, g);
        lemma_advanced(window, granularity, made, init, now);
        lemma_steps(old_ring, made, a, now);
        let steps = old_ring.steps(now);
        assert(old_ring.bucket_of(now) == b % n) by {
            vstd::arithmetic::div_mod::lemma_add_mod_noop_right(steps as int, a, n);
        }
        lemma_bucket_in_range(old_ring, now);
        let counts = old_ring.advanced(now);
        assert forall|k: int| b - n < k <= b implies ring.counts[#[trigger] (k % n)] == in_bucket(
            granularity,
            made,
            times,
            k,
        ) && counts[k % n] == in_bucket(granularity, made, init, k) by {
            vstd::arithmetic::div_mod::lemma_mod_bound(k, n);
            lemma_in_bucket_bound(granularity, made, init, k);
            if k % n == b % n {
                lemma_same_position(k, b, n);
            }
        }
        assert(ring.counts[b % n] == in_bucket(granularity, made, times, b));
        lemma_in_bucket_bound(granularity, made, times, b);
        assert forall|i: int| 0 <= i < ring.counts.len() implies #[trigger] ring.counts[i]
            <= COUNT_LIMIT by {
            if i != b % n {
                assert(ring.counts[i] == counts[i]);
            }
        }
    }
}

/// The buckets in a window cover it, and no more than one bucket besides.
proof fn lemma_buckets_within(window: Duration, granularity: Duration)
    ensures
        ({
            let covered = buckets_within(window, granularity) * bucket_nanos(granularity);
            window.total() <= covered < window.total() + bucket_nanos(granularity)
        }),
{
    let g = bucket_nanos(granularity) as int;
    let x = window.total() + g - 1;
    vstd::arithmetic::div_mod::lemma_fundamental_div_mod(x, g);
    vstd::arithmetic::div_mod::lemma_mod_bound(x, g);
    vstd::arithmetic::mul::lemma_mul_is_commutative(g, x / g);
}

/// Two numbers less than `n` apart stand at one position only if they are the
/// same.
proof fn lemma_same_position(k: int, b: int, n: int)
    requires
        0 <= b - k < n,
        k % n == b % n,
    ensures
        k == b,
{
    vstd::arithmetic::div_mod::lemma_fundamental_div_mod(k, n);
    vstd::arithmetic::div_mod::lemma_fundamental_div_mod(b, n);
    let x = b / n;
    let y = k / n;
    assert(n * x - n * y == n * (x - y)) by (nonlinear_arith);
    assert(x == y) by (nonlinear_arith)
        requires
            0 <= n * (x - y) < n,
    ;
}

proof fn lemma_in_bucket_bound(granularity: Duration, made: u64, times: Seq<u64>, k: int)
    ensures
        in_bucket(granularity, made, times, k) <= times.len(),
    decreases times.len(),
{
    if times.len() > 0 {
        lemma_in_bucket_bound(granularity, made, times.drop_last(), k);
    }
}

/// No event has a bucket number beyond that of the latest one.
proof fn lemma_in_bucket_beyond(granularity: Duration, made: u64, times: Seq<u64>, k: int)
    requires
        in_order(made, times),
        bucket_number(granularity, made, latest(made, times)) < k,
    ensures
        in_bucket(granularity, made, times, k) == 0,
    decreases times.len(),
{
    if times.len() > 0 {
        let init = times.drop_last();
        lemma_in_order_before(made, times);
        vstd::arithmetic::div_mod::lemma_div_is_ordered(
            latest(made, init) - made,
            times.last() - made,
            bucket_nanos(granularity) as int,
        );
        lemma_in_bucket_beyond(granularity, made, init, k);
    }
}

/// What is left of a ring at `now`.
proof fn lemma_advanced(
    window: Duration,
    granularity: Duration,
    made: u64,
    times: Seq<u64>,
    now: u64,
)
    requires
        in_order(made, times),
        buckets_within(window, granularity) <= usize::MAX,
        times.len() < COUNT_LIMIT,
        latest(made, times) <= now,
    ensures
        ({
            let ring = ring_after(window, granularity, made, times);
            let n = bucket_count(window, granularity) as int;
            let b = bucket_number(granularity, made, now);
            forall|k: int|
                b - n < k <= b ==> ring.advanced(now)[#[trigger] (k % n)] == in_bucket(
                    granularity,
                    made,
                    times,
                    k,
                )
        }),
    decreases times.len(), 1int,
{
    let ring = ring_after(window, granularity, made, times);
    let n = bucket_count(window, granularity) as int;
    let g = bucket_nanos(granularity) as int;
    let a = bucket_number(granularity, made, latest(made, times));
    let b = bucket_number(granularity, made, now);
    lemma_ring_after(window, granularity, made, times);
    assert(made <= latest(made, times)) by {
        if times.len() > 0 {
            assert(made <= times[times.len() - 1]);
        }
    }
    vstd::arithmetic::div_mod::lemma_div_is_ordered(latest(made, times) - made, now - made, g);
    lemma_steps(ring, made, a, now);
    assert forall|k: int| b - n < k <= b implies ring.advanced(now)[#[trigger] (k % n)]
        == in_bucket(granularity, made, times, k) by {
        vstd::arithmetic::div_mod::lemma_mod_bound(k, n);
        if k <= a {
            lemma_ahead(ring, a, k + n - a);
            vstd::arithmetic::div_mod::lemma_mod_multiples_vanish(1, k, n);
        } else {
            lemma_in_bucket_beyond(granularity, made, times, k);
            if k <= a + n {
                lemma_ahead(ring, a, k - a);
            }
        }
    }
}

/// The bucket number, among the last `n` up to `b`, that stands at position `i`.
spec fn number_at(b: int, n: int, i: int) -> int {
    b - (b - i) % n
}

proof fn lemma_number_at(b: int, n: int, i: int)
    requires
        0 <= i < n,
    ensures
        b - n < number_at(b, n, i) <= b,
        number_at(b, n, i) % n == i,
{
    let x = b - i;
    vstd::arithmetic::div_mod::lemma_mod_bound(x, n);
    vstd::arithmetic::div_mod::lemma_fundamental_div_mod(x, n);
    vstd::arithmetic::div_mod::lemma_mod_multiples_vanish(x / n, i, n);
    vstd::arithmetic::div_mod::lemma_small_mod(i as nat, n as nat);
}

proof fn lemma_no_events(counts: Seq<u64>)
    requires
        forall|i: int| 0 <= i < counts.len() ==> #[trigger] counts[i] == 0,
    ensures
        events(counts) == 0,
    decreases counts.len(),
{
    if counts.len() > 0 {
        lemma_no_events(counts.drop_last());
    }
}

/// The counts of the buckets that reach into the window add up to the number of
/// events that count, where the ring stands at bucket number `b`.
proof fn lemma_sum_of_buckets(
    window: Duration,
    granularity: Duration,
    made: u64,
    times: Seq<u64>,
    now: u64,
    counts: Seq<u64>,
    b: int,
)
    requires
        in_order(made, times),
        times.len() < COUNT_LIMIT,
        bucket_number(granularity, made, latest(made, times)) <= b,
        made + b * bucket_nanos(granularity) <= now,
        buckets_within(window, granularity) <= usize::MAX,
        counts.len() == bucket_count(window, granularity),
        forall|i: int|
            0 <= i < counts.len() ==> #[trigger] counts[i] == live_count(
                window,
                granularity,
                made,
                times,
                now,
                number_at(b, counts.len() as int, i),
            ),
    ensures
        events(counts) == counting(window, granularity, made, times, now),
    decreases times.len(),
{
    let n = counts.len() as int;
    let g = bucket_nanos(granularity) as int;
    if times.len() == 0 {
        lemma_no_events(counts);
    } else {
        let init = times.drop_last();
        let t = times.last();
        let k = bucket_number(granularity, made, t);
        lemma_in_order_before(made, times);
        vstd::arithmetic::div_mod::lemma_div_is_ordered(latest(made, init) - made, t - made, g);
        let before = Seq::new(
            n as nat,
            |i: int|
                live_count(window, granularity, made, init, now, number_at(b, n, i)) as u64,
        );
        assert forall|i: int| 0 <= i < n implies before[i] == live_count(
            window,
            granularity,
            made,
            init,
            now,
            number_at(b, n, i),
        ) && before[i] < COUNT_LIMIT by {
            lemma_in_bucket_bound(granularity, made, init, number_at(b, n, i));
        }
        lemma_sum_of_buckets(window, granularity, made, init, now, before, b);
        let j = k % n;
        vstd::arithmetic::div_mod::lemma_mod_bound(k, n);
        if b - k < n {
            lemma_number_at(b, n, j);
            let other = number_at(b, n, j);
            if other <= k {
                lemma_same_position(other, k, n);
            } else {
                lemma_same_position(k, other, n);
            }
            assert forall|i: int| 0 <= i < n && i != j implies counts[i] == before[i] by {
                lemma_number_at(b, n, i);
            }
            if counts_at(window, granularity, made, t, now) {
                assert(counts =~= before.update(j, one_more(before[j])));
                lemma_events_update(before, j);
            } else {
                assert(counts =~= before);
            }
        } else {
            // The bucket of this event is in use for another time.
            lemma_buckets_within(window, granularity);
            let c = buckets_within(window, granularity) as int;
            assert((k + 1) * g + c * g <= b * g) by (nonlinear_arith)
                requires
                    k + 1 + c <= b,
                    g > 0,
            ;
            assert(counts =~= before) by {
                assert forall|i: int| 0 <= i < n implies counts[i] == before[i] by {
                    lemma_number_at(b, n, i);
                }
            }
        }
    }
}

/// How many of `times` have the bucket number `k`, where that bucket reaches
/// into the window.
spec fn live_count(
    window: Duration,
    granularity: Duration,
    made: u64,
    times: Seq<u64>,
    now: u64,
    k: int,
) -> nat {
    if made + (k + 1) * bucket_nanos(granularity) + window.total() > now {
        in_bucket(granularity, made, times, k)
    } else {
        0
    }
}

/// The rate at `now` is taken over exactly those events of the ring that count
/// then, however close together they came.
pub proof fn law_rate_is_over_the_events_that_count(
    window: Duration,
    granularity: Duration,
    made: u64,
    times: Seq<u64>,
    now: u64,
)
    requires
        in_order(made, times),
        times.len() < COUNT_LIMIT,
        latest(made, times) <= now,
        buckets_within(window, granularity) <= usize::MAX,
    ensures
        events(ring_after(window, granularity, made, times).in_window(now)) == counting(
            window,
            granularity,
            made,
            times,
            now,
        ),
{
    let ring = ring_after(window, granularity, made, times);
    let counts = ring.in_window(now);
    let n = counts.len() as int;
    let g = bucket_nanos(granularity) as int;
    let top = latest(made, times);
    let b = bucket_number(granularity, made, top);
    lemma_ring_after(window, granularity, made, times);
    assert(made <= top) by {
        if times.len() > 0 {
            assert(made <= times[times.len() - 1]);
        }
    }
    vstd::arithmetic::div_mod::lemma_fundamental_div_mod(top - made, g);
    vstd::arithmetic::div_mod::lemma_mod_bound(top - made, g);
    vstd::arithmetic::mul::lemma_mul_is_commutative(g, b);
    assert forall|i: int| 0 <= i < n implies #[trigger] counts[i] == live_count(
        window,
        granularity,
        made,
        times,
        now,
        number_at(b, n, i),
    ) by {
        let k = number_at(b, n, i);
        lemma_number_at(b, n, i);
        lemma_ahead(ring, b, k + n - b);
        vstd::arithmetic::div_mod::lemma_mod_multiples_vanish(1, k, n);
        assert(ring.counts[k % n] == in_bucket(granularity, made, times, k));
        assert((b - k) * g == b * g - k * g) by (nonlinear_arith);
        assert((k + 1) * g == k * g + g) by (nonlinear_arith);
    }
    lemma_sum_of_buckets(window, granularity, made, times, now, counts, b);
}

/// An event counts as long as it is not older than the window. One that is older
/// than the window and one bucket does not.
pub proof fn law_old_events_do_not_count(
    window: Duration,
    granularity: Duration,
    made: u64,
    t: u64,
    now: u64,
)
    requires
        made <= t <= now,
    ensures
        now - t <= window.total() ==> counts_at(window, granularity, made, t, now),
        now - t >= window.total() + bucket_nanos(granularity) ==> !counts_at(
            window,
            granularity,
            made,
            t,
            now,
        ),
{
    let g = bucket_nanos(granularity) as int;
    let k = bucket_number(granularity, made, t);
    vstd::arithmetic::div_mod::lemma_fundamental_div_mod(t - made, g);
    vstd::arithmetic::div_mod::lemma_mod_bound(t - made, g);
    assert((k + 1) * g == g * k + g) by (nonlinear_arith);
}

proof fn lemma_counting_bound(
    window: Duration,
    granularity: Duration,
    made: u64,
    times: Seq<u64>,
    now: u64,
)
    ensures
        counting(window, granularity, made, times, now) <= times.len(),
    decreases times.len(),
{
    if times.len() > 0 {
        lemma_counting_bound(window, granularity, made, times.drop_last(), now);
    }
}

/// The rate at `now` over a window of whole seconds is the number of events that
/// count then, divided by the seconds, rounded once, as long as both stay below
/// `2^53`; it is zero where the last event is older than the window.
pub proof fn law_rate_of_events(
    window: Duration,
    granularity: Duration,
    made: u64,
    times: Seq<u64>,
    now: u64,
)
    requires
        in_order(made, times),
        times.len() < COUNT_LIMIT,
        latest(made, times) <= now,
        window.nanos == 0,
        0 < window.secs < COUNT_LIMIT,
        buckets_within(window, granularity) <= usize::MAX,
    ensures
        ring_after(window, granularity, made, times).rate(now) == (if latest(made, times)
            + window.total() < now {
            double::zero(false)
        } else {
            double::nearest(
                false,
                counting(window, granularity, made, times, now),
                window.secs as nat,
            )
        }),
{
    let ring = ring_after(window, granularity, made, times);
    lemma_ring_after(window, granularity, made, times);
    law_rate_is_over_the_events_that_count(window, granularity, made, times, now);
    lemma_counting_bound(window, granularity, made, times, now);
    if now <= ring.last + window.total() {
        law_rate_is_events_per_second(ring, now);
    }
}

/// A request counts as one while it is in flight, under a key that is known. It
/// is recorded in the ring of the key, if there is one, when it comes in and not
/// when it is done. Under a key that is not known nothing happens.
pub proof fn law_requests_count_one_each(hosts: Map<Seq<char>, Host>, key: Seq<char>, now: u64)
    ensures
        ({
            let more = increased(hosts, key, now);
            let less = decreased(hosts, key);
            let h = hosts[key];
            &&& !hosts.contains_key(key) ==> more == hosts && less == hosts
            &&& hosts.contains_key(key) ==> more == hosts.insert(key, more[key]) && less
                == hosts.insert(key, less[key])
            &&& hosts.contains_key(key) && h.concurrency < 0x7fff_ffff_ffff_ffff
                ==> more[key].concurrency == h.concurrency + 1
            &&& hosts.contains_key(key) && h.concurrency > 0 ==> less[key].concurrency
                == h.concurrency - 1
            &&& hosts.contains_key(key) && h.concurrency == 0 ==> less[key].concurrency == 0
            &&& hosts.contains_key(key) ==> less[key].ring == h.ring
            &&& hosts.contains_key(key) && h.ring is None ==> more[key].ring is None
            &&& hosts.contains_key(key) && h.ring is Some ==> more[key].ring == Some(
                h.ring->0.recorded(now),
            )
        }),
{
}

/// A key that was not known starts without requests and without a ring; one
/// that was known stays as it is. A new ring leaves the count alone.
pub proof fn law_new_keys_start_empty(
    hosts: Map<Seq<char>, Host>,
    key: Seq<char>,
    other: Seq<char>,
    ring: Ring,
)
    ensures
        hosts.contains_key(key) ==> ensured(hosts, key) == hosts,
        !hosts.contains_key(key) ==> ensured(hosts, key)[key].concurrency == 0 && ensured(
            hosts,
            key,
        )[key].ring is None,
        hosts.contains_key(key) ==> with_ring(hosts, key, ring)[key].concurrency
            == hosts[key].concurrency && with_ring(hosts, key, ring)[key].ring == Some(ring),
        !hosts.contains_key(key) ==> with_ring(hosts, key, ring) == hosts,
        other != key ==> ensured(hosts, key).contains_key(other) == hosts.contains_key(other),
        other != key && hosts.contains_key(other) ==> ensured(hosts, key)[other] == hosts[other]
            && with_ring(hosts, key, ring)[other] == hosts[other],
{
}

/// A list of counts tells the requests in flight of every key, and the rate of
/// its ring; the rate is zero where there is none.
pub proof fn law_lists_tell_every_count(
    list: Seq<(String, QueueCount)>,
    hosts: Map<Seq<char>, Host>,
    now: u64,
    key: Seq<char>,
) -> (i: int)
    requires
        lists_counts(list, hosts, now),
        hosts.contains_key(key),
    ensures
        0 <= i < list.len(),
        list[i].0@ == key,
        list[i].1.concurrency == hosts[key].concurrency,
        hosts[key].ring is Some ==> list[i].1.rps == hosts[key].ring->0.rate(now),
        hosts[key].ring is None ==> list[i].1.rps == double::nearest(false, 0, 1),
        forall|j: int| 0 <= j < list.len() && j != i ==> (#[trigger] list[j]).0@ != key,
{
    double::law_nothing_is_zero(false, 1);
    let i = choose|i: int| 0 <= i < list.len() && (#[trigger] list[i]).0@ == key;
    i
}

/// No key is listed that is not known.
pub proof fn law_lists_tell_no_other_key(
    list: Seq<(String, QueueCount)>,
    hosts: Map<Seq<char>, Host>,
    now: u64,
    i: int,
)
    requires
        lists_counts(list, hosts, now),
        0 <= i < list.len(),
    ensures
        hosts.contains_key(list[i].0@),
{
}

/// Where every event is within the window, the rate is their number divided by
/// the seconds of the window, rounded once.
pub proof fn law_recent_events_all_count(
    window: Duration,
    granularity: Duration,
    made: u64,
    times: Seq<u64>,
    now: u64,
)
    requires
        in_order(made, times),
        0 < times.len() < 9007199254740992,
        times.last() <= now,
        window.nanos == 0,
        0 < window.secs < 9007199254740992,
        buckets_within(window, granularity) <= usize::MAX,
        forall|i: int|
            0 <= i < times.len() ==> now - (#[trigger] times[i]) <= window.secs * 1_000_000_000,
    ensures
        ring_after(window, granularity, made, times).rate(now) == double::nearest(
            false,
            times.len(),
            window.secs as nat,
        ),
{
    law_rate_of_events(window, granularity, made, times, now);
    lemma_counting_all(window, granularity, made, times, now);
}

proof fn lemma_counting_all(
    window: Duration,
    granularity: Duration,
    made: u64,
    times: Seq<u64>,
    now: u64,
)
    requires
        forall|i: int|
            0 <= i < times.len() ==> made <= #[trigger] times[i] <= now && now - times[i]
                <= window.total(),
    ensures
        counting(window, granularity, made, times, now) == times.len(),
    decreases times.len(),
{
    if times.len() > 0 {
        let init = times.drop_last();
        assert forall|i: int| 0 <= i < init.len() implies made <= #[trigger] init[i] <= now && now
            - init[i] <= window.total() by {
            assert(init[i] == times[i]);
        }
        lemma_counting_all(window, granularity, made, init, now);
        law_old_events_do_not_count(window, granularity, made, times[times.len() - 1], now);
    }
}

/// Events that are older than the window by a step of the granularity or more
/// do not count beside one that is recent.
pub proof fn law_only_recent_events_count(
    window: Duration,
    granularity: Duration,
    made: u64,
    times: Seq<u64>,
    recent: u64,
    now: u64,
)
    requires
        in_order(made, times.push(recent)),
        times.len() + 1 < 9007199254740992,
        recent <= now,
        now - recent <= window.secs * 1_000_000_000,
        window.nanos == 0,
        0 < window.secs < 9007199254740992,
        buckets_within(window, granularity) <= usize::MAX,
        granularity.secs > 0 || granularity.nanos > 0,
        forall|i: int|
            0 <= i < times.len() ==> now - (#[trigger] times[i]) >= window.secs * 1_000_000_000
                + granularity.secs * 1_000_000_000 + granularity.nanos,
    ensures
        ring_after(window, granularity, made, times.push(recent)).rate(now) == double::nearest(
            false,
            1,
            window.secs as nat,
        ),
{
    let all = times.push(recent);
    assert(all.drop_last() =~= times);
    assert(all[all.len() - 1] == recent);
    law_rate_of_events(window, granularity, made, all, now);
    law_old_events_do_not_count(window, granularity, made, recent, now);
    assert forall|i: int| 0 <= i < times.len() implies made <= #[trigger] times[i] <= now by {
        assert(all[i] == times[i]);
        assert(all[i] <= all[all.len() - 1]);
    }
    lemma_counting_none(window, granularity, made, times, now);
}

proof fn lemma_counting_none(
    window: Duration,
    granularity: Duration,
    made: u64,
    times: Seq<u64>,
    now: u64,
)
    requires
        forall|i: int|
            0 <= i < times.len() ==> made <= #[trigger] times[i] <= now && now - times[i]
                >= window.total() + bucket_nanos(granularity),
    ensures
        counting(window, granularity, made, times, now) == 0,
    decreases times.len(),
{
    if times.len() > 0 {
        let init = times.drop_last();
        assert forall|i: int| 0 <= i < init.len() implies made <= #[trigger] init[i] <= now && now
            - init[i] >= window.total() + bucket_nanos(granularity) by {
            assert(init[i] == times[i]);
        }
        lemma_counting_none(window, granularity, made, init, now);
        law_old_events_do_not_count(window, granularity, made, times[times.len() - 1], now);
    }
}

/// Where the last event is older than the window, the rate is zero.
pub proof fn law_rate_falls_to_zero(
    window: Duration,
    granularity: Duration,
    made: u64,
    times: Seq<u64>,
    now: u64,
)
    requires
        times.len() > 0,
        now > times.last() + window.secs * 1_000_000_000 + window.nanos,
    ensures
        ring_after(window, granularity, made, times).rate(now) == double::nearest(false, 0, 1),
{
    double::law_nothing_is_zero(false, 1);
    let before = ring_after(window, granularity, made, times.drop_last());
    assert(ring_after(window, granularity, made, times) == before.recorded(times.last()));
    lemma_ring_window(window, granularity, made, times.drop_last());
}

proof fn lemma_ring_window(
    window: Duration,
    granularity: Duration,
    made: u64,
    times: Seq<u64>,
)
    ensures
        ring_after(window, granularity, made, times).window == window,
        ring_after(window, granularity, made, times).granularity == granularity,
    decreases times.len(),
{
    if times.len() > 0 {
        lemma_ring_window(window, granularity, made, times.drop_last());
    }
}

/// Where every event is within a window of less than a second, the rate is their
/// number divided by that part of a second.
pub proof fn law_recent_events_all_count_in_short_windows(
    window: Duration,
    granularity: Duration,
    made: u64,
    times: Seq<u64>,
    now: u64,
)
    requires
        in_order(made, times),
        0 < times.len() < 9007199254740992,
        times.last() <= now,
        window.secs == 0,
        0 < window.nanos < 1_000_000_000,
        buckets_within(window, granularity) <= usize::MAX,
        forall|i: int| 0 <= i < times.len() ==> now - (#[trigger] times[i]) <= window.nanos,
    ensures
        ring_after(window, granularity, made, times).rate(now) == double::quotient(
            double::nearest(false, times.len(), 1),
            double::nearest(false, window.nanos as nat, 1_000_000_000),
        ),
{
    let ring = ring_after(window, granularity, made, times);
    lemma_ring_after(window, granularity, made, times);
    law_rate_is_over_the_events_that_count(window, granularity, made, times, now);
    lemma_counting_all(window, granularity, made, times, now);
    lemma_total_of(ring.in_window(now));
    duration::law_parts_of_a_second_are_the_nearest(window.nanos);
    lemma_ring_window(window, granularity, made, times);
}

} // verus!
