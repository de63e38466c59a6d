//! Idle connections to backends, kept for reuse, and resolved names.
//!
//! A connection is whatever the caller connects with (`S`), an address
//! whatever names resolve to (`A`). Times are nanoseconds since a fixed moment.

use vstd::prelude::*;

use crate::diagnostics;
use crate::diagnostics::{bump, DiagCounters};
use crate::duration::Duration;
use crate::store::KeyedStore;
use crate::text;
use crate::text::{append_decimal, chars_of, find_char, parse_unsigned, rfind_char, slice_of};

verus! {

// ---------------------------------------------------------------------------
// Authorities
// ---------------------------------------------------------------------------

/// The port that a text denotes, or 80.
pub open spec fn port_or_80(s: Seq<char>) -> u16 {
    match text::unsigned(s, 65535) {
        Ok(n) => n as u16,
        Err(_) => 80,
    }
}

/// Host and port of an authority: split at the last colon, or behind a
/// bracketed address. The port is 80 where there is none that can be read.
pub open spec fn authority_parts(s: Seq<char>) -> (Seq<char>, u16) {
    let bracket = text::find(s, ']');
    let colon = text::rfind(s, ':');
    if bracket < s.len() {
        let rest = s.skip(bracket + 1);
        (
            s.take(bracket + 1),
            if rest.len() > 0 && rest[0] == ':' {
                port_or_80(rest.skip(1))
            } else {
                80
            },
        )
    } else if colon >= 0 {
        (s.take(colon), port_or_80(s.skip(colon + 1)))
    } else {
        (s, 80)
    }
}

fn read_port(v: &Vec<char>, from: usize) -> (port: u16)
    requires
        from <= v@.len(),
    ensures
        port == port_or_80(v@.skip(from as int)),
{
    let digits = slice_of(v, from, v.len());
    assert(digits@ =~= v@.skip(from as int));
    match parse_unsigned(&digits, 65535) {
        Ok(n) => n as u16,
        Err(_) => 80,
    }
}

pub fn parse_authority(authority: &str) -> (r: (&str, u16))
    ensures
        (r.0@, r.1) == authority_parts(authority@),
{
    let v = chars_of(authority);
    let n = v.len();
    let bracket = find_char(&v, ']', 0);
    if bracket < n {
        let host = authority.substring_char(0, bracket + 1);
        assert(host@ =~= authority@.take(bracket + 1));
        if bracket + 1 < n && v[bracket + 1] == ':' {
            let port = read_port(&v, bracket + 2);
            assert(authority@.skip(bracket + 1).skip(1) =~= authority@.skip(bracket + 2));
            return (host, port);
        }
        return (host, 80);
    }
    match rfind_char(&v, ':') {
        Some(colon) => {
            let host = authority.substring_char(0, colon);
            assert(host@ =~= authority@.take(colon as int));
            (host, read_port(&v, colon + 1))
        },
        None => (authority, 80),
    }
}

/// `host:port`.
pub open spec fn dns_key(host: Seq<char>, port: u16) -> Seq<char> {
    host + ":"@ + text::decimal(port as nat)
}

fn dns_key_text(host: &str, port: u16) -> (s: String)
    ensures
        s@ == dns_key(host@, port),
{
    let mut s = host.to_string();
    s.append(":");
    append_decimal(&mut s, port as u64);
    s
}

// ---------------------------------------------------------------------------
// The pool
// ---------------------------------------------------------------------------

/// An idle connection.
pub struct PooledConn<S> {
    pub stream: S,
    pub idle_since: u64,
}

/// The addresses that a name resolved to.
pub struct CachedDns<A> {
    pub addrs: Vec<A>,
    pub inserted_at: u64,
}

/// How long ago `then` was.
pub open spec fn elapsed(then: u64, now: u64) -> nat {
    if now <= then {
        0
    } else {
        (now - then) as nat
    }
}

/// Whether something from `then` is younger than `limit`.
pub open spec fn younger(then: u64, now: u64, limit: Duration) -> bool {
    elapsed(then, now) < limit.total()
}

fn is_younger(then: u64, now: u64, limit: Duration) -> (b: bool)
    ensures
        b == younger(then, now, limit),
{
    let age: u64 = if now <= then {
        0
    } else {
        now - then
    };
    (age as u128) < limit.as_nanos()
}

/// How long a connection may be idle and still be reused: 90 seconds.
pub open spec fn idle_limit() -> Duration {
    Duration { secs: 90, nanos: 0 }
}

/// The last connection that may still be reused, or -1.
pub open spec fn last_usable<S>(conns: Seq<PooledConn<S>>, now: u64) -> int
    decreases conns.len(),
{
    if conns.len() == 0 {
        -1
    } else if younger(conns.last().idle_since, now, idle_limit()) {
        conns.len() - 1
    } else {
        last_usable(conns.drop_last(), now)
    }
}

proof fn lemma_last_usable<S>(conns: Seq<PooledConn<S>>, now: u64)
    ensures
        -1 <= last_usable(conns, now) < conns.len(),
        last_usable(conns, now) >= 0 ==> younger(
            conns[last_usable(conns, now)].idle_since,
            now,
            idle_limit(),
        ),
    decreases conns.len(),
{
    if conns.len() > 0 {
        lemma_last_usable(conns.drop_last(), now);
    }
}

/// Takes the last connection that may still be reused, with all that came
/// after it.
fn take_usable<S>(conns: &mut Vec<PooledConn<S>>, now: u64, timeout: Duration) -> (r: Option<S>)
    requires
        timeout == idle_limit(),
    ensures
        match r {
            Some(s) => last_usable(old(conns)@, now) >= 0 && s == old(conns)@[last_usable(
                old(conns)@,
                now,
            )].stream && final(conns)@ == old(conns)@.take(last_usable(old(conns)@, now)),
            None => last_usable(old(conns)@, now) == -1 && final(conns)@.len() == 0,
        },
{
    let ghost before = conns@;
    assert(before.take(before.len() as int) =~= before);
    loop
        invariant
            timeout == idle_limit(),
            before == old(conns)@,
            conns@.len() <= before.len(),
            conns@ == before.take(conns@.len() as int),
            last_usable(before, now) == last_usable(conns@, now),
        decreases conns@.len(),
    {
        let ghost n = conns@.len() as int;
        match conns.pop() {
            Some(c) => {
                assert(before.take(n).drop_last() =~= before.take(n - 1));
                if is_younger(c.idle_since, now, timeout) {
                    return Some(c.stream);
                }
            },
            None => {
                return None;
            },
        }
    }
}

/// What to do next to make a connection.
pub enum ConnectStep<A> {
    /// Resolve this name, then go on with [`BackendPool::looked_up`].
    Lookup { host: String, port: u16 },
    /// Connect to one of these addresses within this time.
    Connect { addrs: Vec<A>, timeout: Duration },
    /// Fail: the name resolved to no address.
    NoAddresses,
}

/// Idle connections and resolved names.
#[verifier::reject_recursive_types(S)]
#[verifier::reject_recursive_types(A)]
pub struct BackendPool<S, A> {
    idle: KeyedStore<Vec<PooledConn<S>>>,
    dns_cache: KeyedStore<CachedDns<A>>,
    dns_ttl: Duration,
    pool_idle_timeout: Duration,
    connect_timeout: Duration,
    max_idle_per_host: usize,
}

impl<S, A: Copy> BackendPool<S, A> {
    /// The lists of idle connections are no longer than allowed, and no name
    /// is kept without an address.
    pub closed spec fn wf(self) -> bool {
        &&& self.idle.wf()
        &&& self.dns_cache.wf()
        &&& self.pool_idle_timeout == idle_limit()
        &&& forall|k: Seq<char>| #[trigger]
            self.idle@.contains_key(k) ==> self.idle@[k]@.len() <= self.max_idle_per_host
        &&& forall|k: Seq<char>| #[trigger]
            self.dns_cache@.contains_key(k) ==> self.dns_cache@[k].addrs@.len() > 0
    }

    /// The idle connections per authority, the latest last.
    pub closed spec fn idle(self) -> Map<Seq<char>, Seq<PooledConn<S>>> {
        self.idle@.map_values(|v: Vec<PooledConn<S>>| v@)
    }

    /// The resolved names: addresses, and when they were found.
    pub closed spec fn names(self) -> Map<Seq<char>, (Seq<A>, u64)> {
        self.dns_cache@.map_values(|d: CachedDns<A>| (d.addrs@, d.inserted_at))
    }

    /// How long a resolved name is used.
    pub closed spec fn name_limit(self) -> Duration {
        self.dns_ttl
    }

    pub closed spec fn connect_limit(self) -> Duration {
        self.connect_timeout
    }

    /// How many idle connections are kept per authority.
    pub closed spec fn idle_per_host(self) -> nat {
        self.max_idle_per_host as nat
    }

    /// Whether nothing but the idle connections and the names differs.
    pub open spec fn same_limits(self, other: Self) -> bool {
        &&& self.name_limit() == other.name_limit()
        &&& self.connect_limit() == other.connect_limit()
        &&& self.idle_per_host() == other.idle_per_host()
    }

    pub fn new(dns_ttl: Duration, connect_timeout: Duration, max_idle_per_host: usize) -> (p: Self)
        ensures
            p.wf(),
            p.idle() == Map::<Seq<char>, Seq<PooledConn<S>>>::empty(),
            p.names() == Map::<Seq<char>, (Seq<A>, u64)>::empty(),
            p.name_limit() == dns_ttl,
            p.connect_limit() == connect_timeout,
            p.idle_per_host() == max_idle_per_host,
    {
        let p = BackendPool {
            idle: KeyedStore::new(),
            dns_cache: KeyedStore::new(),
            dns_ttl,
            pool_idle_timeout: Duration::from_secs(90),
            connect_timeout,
            max_idle_per_host,
        };
        assert(p.idle() =~= Map::<Seq<char>, Seq<PooledConn<S>>>::empty());
        assert(p.names() =~= Map::<Seq<char>, (Seq<A>, u64)>::empty());
        p
    }

    /// Takes the latest connection to `authority` that may still be reused, and
    /// drops those that were idle for too long. Where there is none, a new one
    /// has to be made: see [`BackendPool::connect`].
    pub fn checkout(&mut self, authority: &str, now: u64) -> (r: Option<S>)
        requires
            old(self).wf(),
        ensures
            final(self).wf(),
            final(self).same_limits(*old(self)),
            final(self).names() == old(self).names(),
            checked_out(old(self).idle(), authority@, now, final(self).idle(), r),
    {
        let timeout = self.pool_idle_timeout;
        let found = match self.idle.get_mut(authority) {
            Some(conns) => take_usable(conns, now, timeout),
            None => None,
        };
        assert(old(self).idle().contains_key(authority@) ==> old(self).idle()[authority@]
            == old(self).idle@[authority@]@);
        proof {
            if old(self).idle().contains_key(authority@) {
                lemma_last_usable(old(self).idle()[authority@], now);
                assert(self.idle() =~= old(self).idle().insert(
                    authority@,
                    self.idle@[authority@]@,
                ));
                if found is None {
                    assert(self.idle@[authority@]@ =~= Seq::<PooledConn<S>>::empty());
                }
            }
        }
        assert(self.names() =~= old(self).names());
        found
    }
}

/// What taking a connection does to the idle ones: the latest that may still
/// be reused is taken, with all that came after it; where there is none, all
/// are dropped.
pub open spec fn checked_out<S>(
    before: Map<Seq<char>, Seq<PooledConn<S>>>,
    authority: Seq<char>,
    now: u64,
    after: Map<Seq<char>, Seq<PooledConn<S>>>,
    taken: Option<S>,
) -> bool {
    if !before.contains_key(authority) {
        after == before && taken is None
    } else {
        let conns = before[authority];
        let k = last_usable(conns, now);
        if k < 0 {
            after == before.insert(authority, Seq::empty()) && taken is None
        } else {
            after == before.insert(authority, conns.take(k)) && taken == Some(conns[k].stream)
        }
    }
}

/// What giving back a connection does to the idle ones: it is kept unless the
/// list is full.
pub open spec fn checked_in<S>(
    idle: Map<Seq<char>, Seq<PooledConn<S>>>,
    authority: Seq<char>,
    stream: S,
    now: u64,
    max: nat,
) -> Map<Seq<char>, Seq<PooledConn<S>>> {
    let conns = if idle.contains_key(authority) {
        idle[authority]
    } else {
        Seq::empty()
    };
    idle.insert(
        authority,
        if conns.len() < max {
            conns.push(PooledConn { stream, idle_since: now })
        } else {
            conns
        },
    )
}

/// The addresses of a name that are still good at `now`.
pub open spec fn known_addrs<A>(
    names: Map<Seq<char>, (Seq<A>, u64)>,
    key: Seq<char>,
    now: u64,
    limit: Duration,
) -> Option<Seq<A>> {
    if names.contains_key(key) && younger(names[key].1, now, limit) {
        Some(names[key].0)
    } else {
        None
    }
}

/// What the first step to a connection is, and how it is counted: connect where
/// the addresses of the host are known, else resolve it.
pub open spec fn is_first_step<A>(
    names: Map<Seq<char>, (Seq<A>, u64)>,
    name_limit: Duration,
    connect_limit: Duration,
    authority: Seq<char>,
    now: u64,
    step: ConnectStep<A>,
    counters: DiagCounters,
    counters_after: DiagCounters,
) -> bool {
    let (host, port) = authority_parts(authority);
    match known_addrs(names, dns_key(host, port), now, name_limit) {
        Some(addrs) => {
            &&& step is Connect && step->addrs@ == addrs
            &&& step->timeout == connect_limit
            &&& counters_after == (DiagCounters {
                dns_cache_hits: diagnostics::bumped(counters.dns_cache_hits),
                ..counters
            })
        },
        None => {
            &&& step is Lookup && step->host@ == host && step->port == port
            &&& counters_after == (DiagCounters {
                dns_cache_misses: diagnostics::bumped(counters.dns_cache_misses),
                ..counters
            })
        },
    }
}

/// What follows a lookup that found `addrs`: connect to them, and keep them;
/// fail where there are none.
pub open spec fn is_second_step<A>(
    names: Map<Seq<char>, (Seq<A>, u64)>,
    connect_limit: Duration,
    host: Seq<char>,
    port: u16,
    addrs: Seq<A>,
    now: u64,
    step: ConnectStep<A>,
    names_after: Map<Seq<char>, (Seq<A>, u64)>,
) -> bool {
    if addrs.len() == 0 {
        &&& step is NoAddresses
        &&& names_after == names
    } else {
        &&& step is Connect && step->addrs@ == addrs && step->timeout == connect_limit
        &&& names_after == names.insert(dns_key(host, port), (addrs, now))
    }
}

fn copy_all<A: Copy>(v: &Vec<A>) -> (r: Vec<A>)
    ensures
        r@ == v@,
{
    let mut r: Vec<A> = Vec::new();
    for i in 0..v.len()
        invariant
            r@ == v@.take(i as int),
    {
        r.push(v[i]);
        assert(v@.take(i + 1) =~= v@.take(i as int).push(v@[i as int]));
    }
    assert(v@.take(v@.len() as int) =~= v@);
    r
}

impl<S, A: Copy> BackendPool<S, A> {
    /// Gives back a connection for reuse. It is dropped where enough are idle
    /// already.
    pub fn checkin(&mut self, authority: &str, stream: S, now: u64)
        requires
            old(self).wf(),
        ensures
            final(self).wf(),
            final(self).same_limits(*old(self)),
            final(self).names() == old(self).names(),
            final(self).idle() == checked_in(
                old(self).idle(),
                authority@,
                stream,
                now,
                old(self).idle_per_host(),
            ),
    {
        let max = self.max_idle_per_host;
        if self.idle.get(authority).is_none() {
            self.idle.insert(authority, Vec::new());
        }
        let ghost mid = self.idle@;
        assert(mid.contains_key(authority@));
        if let Some(conns) = self.idle.get_mut(authority) {
            if conns.len() < max {
                conns.push(PooledConn { stream, idle_since: now });
            }
        }
        assert(mid[authority@]@ =~= (if old(self).idle().contains_key(authority@) {
            old(self).idle()[authority@]
        } else {
            Seq::empty()
        }));
        assert(self.idle() =~= checked_in(
            old(self).idle(),
            authority@,
            stream,
            now,
            old(self).idle_per_host(),
        ));
    }

    /// The addresses of a name, if they are known and still good. Each call is
    /// counted as a hit or a miss.
    pub fn resolve(&self, host: &str, port: u16, now: u64, counters: &mut DiagCounters) -> (r: Option<
        Vec<A>,
    >)
        requires
            self.wf(),
        ensures
            match r {
                Some(addrs) => known_addrs(
                    self.names(),
                    dns_key(host@, port),
                    now,
                    self.name_limit(),
                ) == Some(addrs@) && addrs@.len() > 0 && *final(counters) == (DiagCounters {
                    dns_cache_hits: diagnostics::bumped(old(counters).dns_cache_hits),
                    ..*old(counters)
                }),
                None => known_addrs(
                    self.names(),
                    dns_key(host@, port),
                    now,
                    self.name_limit(),
                ) is None && *final(counters) == (DiagCounters {
                    dns_cache_misses: diagnostics::bumped(old(counters).dns_cache_misses),
                    ..*old(counters)
                }),
            },
    {
        let key = dns_key_text(host, port);
        if let Some(entry) = self.dns_cache.get(key.as_str()) {
            if is_younger(entry.inserted_at, now, self.dns_ttl) {
                counters.dns_cache_hits = bump(counters.dns_cache_hits);
                return Some(copy_all(&entry.addrs));
            }
        }
        counters.dns_cache_misses = bump(counters.dns_cache_misses);
        None
    }

    /// The first step to a new connection: connect where the addresses are
    /// known, else resolve the name.
    pub fn connect(&self, authority: &str, now: u64, counters: &mut DiagCounters) -> (r: ConnectStep<
        A,
    >)
        requires
            self.wf(),
        ensures
            is_first_step(
                self.names(),
                self.name_limit(),
                self.connect_limit(),
                authority@,
                now,
                r,
                *old(counters),
                *final(counters),
            ),
    {
        let (host, port) = parse_authority(authority);
        match self.resolve(host, port, now, counters) {
            Some(addrs) => self.connect_to(addrs),
            None => ConnectStep::Lookup { host: host.to_string(), port },
        }
    }

    /// Goes on where a name has been resolved to `addrs`, which are kept unless
    /// there are none.
    pub fn looked_up(&mut self, host: &str, port: u16, addrs: Vec<A>, now: u64) -> (r: ConnectStep<
        A,
    >)
        requires
            old(self).wf(),
        ensures
            final(self).wf(),
            final(self).same_limits(*old(self)),
            final(self).idle() == old(self).idle(),
            is_second_step(
                old(self).names(),
                old(self).connect_limit(),
                host@,
                port,
                addrs@,
                now,
                r,
                final(self).names(),
            ),
    {
        if addrs.len() > 0 {
            let key = dns_key_text(host, port);
            self.dns_cache.insert(
                key.as_str(),
                CachedDns { addrs: copy_all(&addrs), inserted_at: now },
            );
            assert(self.names() =~= old(self).names().insert(dns_key(host@, port), (addrs@, now)));
        }
        self.connect_to(addrs)
    }

    /// An attempt to connect is over. Where it made a connection, that is counted
    /// and handed on.
    pub fn connected<E>(&self, made: Result<S, E>, counters: &mut DiagCounters) -> (r: Result<S, E>)
        ensures
            r == made,
            *final(counters) == (if made is Ok {
                diagnostics::established(*old(counters))
            } else {
                *old(counters)
            }),
    {
        counters.count_attempt(made.is_ok());
        made
    }

    /// Connects to `addrs`, or fails where there are none.
    fn connect_to(&self, addrs: Vec<A>) -> (r: ConnectStep<A>)
        ensures
            addrs@.len() == 0 ==> r is NoAddresses,
            addrs@.len() > 0 ==> r is Connect && r->addrs@ == addrs@ && r->timeout
                == self.connect_limit(),
    {
        if addrs.len() == 0 {
            ConnectStep::NoAddresses
        } else {
            ConnectStep::Connect { addrs, timeout: self.connect_timeout }
        }
    }

    /// No authority ever has more idle connections than allowed.
    pub proof fn law_idle_lists_are_bounded(self, authority: Seq<char>)
        requires
            self.wf(),
            self.idle().contains_key(authority),
        ensures
            self.idle()[authority].len() <= self.idle_per_host(),
    {
    }
}

// ---------------------------------------------------------------------------
// Laws
// ---------------------------------------------------------------------------

/// A connection that was given back while there was room is the next one taken
/// for its authority, within the idle limit, and taking it restores the list.
pub proof fn law_given_back_is_taken_next<S>(
    idle: Map<Seq<char>, Seq<PooledConn<S>>>,
    authority: Seq<char>,
    stream: S,
    then: u64,
    now: u64,
    max: nat,
    after: Map<Seq<char>, Seq<PooledConn<S>>>,
    taken: Option<S>,
)
    requires
        idle.contains_key(authority) ==> idle[authority].len() < max,
        max > 0,
        younger(then, now, idle_limit()),
        checked_out(
            checked_in(idle, authority, stream, then, max),
            authority,
            now,
            after,
            taken,
        ),
    ensures
        taken == Some(stream),
        idle.contains_key(authority) ==> after == idle,
{
    let conns = if idle.contains_key(authority) {
        idle[authority]
    } else {
        Seq::empty()
    };
    let c = PooledConn { stream, idle_since: then };
    assert(conns.push(c).last() == c);
    assert(conns.push(c).take(conns.len() as int) =~= conns);
    if idle.contains_key(authority) {
        assert(idle.insert(authority, conns) =~= idle);
        assert(after =~= idle);
    }
}

/// A connection that was idle for too long is never taken.
pub proof fn law_no_stale_connection<S>(
    before: Map<Seq<char>, Seq<PooledConn<S>>>,
    authority: Seq<char>,
    now: u64,
    after: Map<Seq<char>, Seq<PooledConn<S>>>,
    taken: Option<S>,
)
    requires
        checked_out(before, authority, now, after, taken),
        taken is Some,
    ensures
        before.contains_key(authority),
        exists|k: int|
            #![trigger before[authority][k]]
            0 <= k < before[authority].len() && before[authority][k].stream == taken->0 && younger(
                before[authority][k].idle_since,
                now,
                idle_limit(),
            ),
{
    lemma_last_usable(before[authority], now);
    let k = last_usable(before[authority], now);
    assert(before[authority][k].stream == taken->0);
}

/// Connections to other authorities are left alone.
pub proof fn law_authorities_are_independent<S>(
    idle: Map<Seq<char>, Seq<PooledConn<S>>>,
    authority: Seq<char>,
    other: Seq<char>,
    stream: S,
    now: u64,
    max: nat,
    after: Map<Seq<char>, Seq<PooledConn<S>>>,
    taken: Option<S>,
)
    requires
        authority != other,
        checked_out(idle, authority, now, after, taken),
    ensures
        after.contains_key(other) == idle.contains_key(other),
        after[other] == idle[other],
        checked_in(idle, authority, stream, now, max).contains_key(other) == idle.contains_key(
            other,
        ),
        checked_in(idle, authority, stream, now, max)[other] == idle[other],
{
}

/// The addresses of a resolved name are known until its time is up.
pub proof fn law_resolved_names_are_known<A>(
    names: Map<Seq<char>, (Seq<A>, u64)>,
    key: Seq<char>,
    addrs: Seq<A>,
    then: u64,
    now: u64,
    limit: Duration,
)
    ensures
        known_addrs(names.insert(key, (addrs, then)), key, now, limit) == (if younger(
            then,
            now,
            limit,
        ) {
            Some(addrs)
        } else {
            None
        }),
{
}

/// An authority that is put together from a host and a port comes apart into
/// them again, where a bracket closes only at the end of the host.
pub proof fn law_authority_comes_apart(host: Seq<char>, port: u16)
    requires
        text::find(host, ']') >= host.len() - 1,
    ensures
        authority_parts(dns_key(host, port)) == (host, port),
{
    reveal_strlit(":");
    let digits = text::decimal(port as nat);
    let s = dns_key(host, port);
    text::lemma_decimal(port as nat);
    text::lemma_find_from(s, ']', 0);
    text::lemma_find_from(host, ']', 0);
    assert(s =~= host + seq![':'] + digits);
    let b = text::find(s, ']');
    let h = text::find(host, ']');
    if b < s.len() {
        if b < host.len() {
            assert(host[b] == s[b]);
            assert(b == h);
        } else if b > host.len() {
            assert(s[b] == digits[b - host.len() - 1]);
            assert(text::is_digit(digits[b - host.len() - 1]));
        }
    }
    if h < host.len() {
        assert(s[h] == ']');
        let rest = s.skip(b + 1);
        assert(s.take(b + 1) =~= host);
        assert(rest[0] == ':');
        assert(rest.skip(1) =~= digits);
    }
    lemma_rfind(host, digits);
    assert(s.take(host.len() as int) =~= host);
    assert(s.skip(host.len() as int + 1) =~= digits);
}

proof fn lemma_rfind(host: Seq<char>, digits: Seq<char>)
    requires
        text::all_digits(digits),
    ensures
        text::rfind(host + seq![':'] + digits, ':') == host.len(),
    decreases digits.len(),
{
    let s = host + seq![':'] + digits;
    if digits.len() > 0 {
        assert(s.last() == digits.last());
        assert(text::is_digit(digits[digits.len() - 1]));
        assert(s.drop_last() =~= host + seq![':'] + digits.drop_last());
        lemma_rfind(host, digits.drop_last());
    } else {
        assert(s.last() == ':');
    }
}

proof fn lemma_usable_at<S>(conns: Seq<PooledConn<S>>, now: u64, k: int)
    requires
        -1 <= k < conns.len(),
        k >= 0 ==> younger(conns[k].idle_since, now, idle_limit()),
        forall|j: int|
            k < j < conns.len() ==> !younger((#[trigger] conns[j]).idle_since, now, idle_limit()),
    ensures
        last_usable(conns, now) == k,
    decreases conns.len(),
{
    if conns.len() > 0 && k < conns.len() - 1 {
        assert(!younger(conns[conns.len() - 1].idle_since, now, idle_limit()));
        let init = conns.drop_last();
        assert forall|j: int| k < j < init.len() implies !younger(
            (#[trigger] init[j]).idle_since,
            now,
            idle_limit(),
        ) by {
            assert(init[j] == conns[j]);
        }
        lemma_usable_at(init, now, k);
    }
}

/// The connection that is taken is the one that was given back last, of those
/// that were idle for less than ninety seconds. The ones before it stay, and so
/// do those of other authorities.
pub proof fn law_latest_fresh_connection_is_taken<S>(
    before: Map<Seq<char>, Seq<PooledConn<S>>>,
    authority: Seq<char>,
    now: u64,
    after: Map<Seq<char>, Seq<PooledConn<S>>>,
    taken: Option<S>,
    k: int,
)
    requires
        checked_out(before, authority, now, after, taken),
        before.contains_key(authority),
        0 <= k < before[authority].len(),
        now - before[authority][k].idle_since < 90_000_000_000,
        forall|j: int|
            k < j < before[authority].len() ==> now - (#[trigger] before[authority][j]).idle_since
                >= 90_000_000_000,
    ensures
        taken == Some(before[authority][k].stream),
        after[authority] == before[authority].subrange(0, k),
        after == before.insert(authority, before[authority].subrange(0, k)),
{
    lemma_usable_at(before[authority], now, k);
    assert(before[authority].take(k) =~= before[authority].subrange(0, k));
}

/// Where all were idle for ninety seconds or more, none is taken and none stays;
/// where there is none, nothing changes.
pub proof fn law_stale_connections_are_dropped<S>(
    before: Map<Seq<char>, Seq<PooledConn<S>>>,
    authority: Seq<char>,
    now: u64,
    after: Map<Seq<char>, Seq<PooledConn<S>>>,
    taken: Option<S>,
)
    requires
        checked_out(before, authority, now, after, taken),
    ensures
        !before.contains_key(authority) ==> taken is None && after == before,
        before.contains_key(authority) && (forall|j: int|
            0 <= j < before[authority].len() ==> now - (#[trigger] before[authority][j]).idle_since
                >= 90_000_000_000) ==> taken is None && after[authority].len() == 0 && after
            == before.insert(authority, after[authority]),
{
    if before.contains_key(authority) && (forall|j: int|
        0 <= j < before[authority].len() ==> now - (#[trigger] before[authority][j]).idle_since
            >= 90_000_000_000) {
        lemma_usable_at(before[authority], now, -1);
    }
}

/// A connection that is given back stands last, with the time, as long as fewer
/// than `max` are idle; otherwise the idle ones stay as they are.
pub proof fn law_connections_are_kept_while_there_is_room<S>(
    idle: Map<Seq<char>, Seq<PooledConn<S>>>,
    authority: Seq<char>,
    stream: S,
    now: u64,
    max: nat,
)
    ensures
        ({
            let after = checked_in(idle, authority, stream, now, max);
            &&& idle.contains_key(authority) && idle[authority].len() < max ==> after[authority].len()
                == idle[authority].len() + 1 && after[authority].drop_last() == idle[authority]
                && after[authority].last().stream == stream && after[authority].last().idle_since
                == now
            &&& idle.contains_key(authority) && idle[authority].len() >= max ==> after[authority]
                == idle[authority]
            &&& !idle.contains_key(authority) && max > 0 ==> after[authority].len() == 1
                && after[authority][0].stream == stream && after[authority][0].idle_since == now
            &&& !idle.contains_key(authority) && max == 0 ==> after[authority].len() == 0
        }),
{
    let after = checked_in(idle, authority, stream, now, max);
    if idle.contains_key(authority) && idle[authority].len() < max {
        assert(after[authority].drop_last() =~= idle[authority]);
    }
}

/// The addresses of a name are good for as long as the limit says, counted in
/// nanoseconds from when they were found, and no longer.
pub proof fn law_addresses_are_good_until_the_limit<A>(
    names: Map<Seq<char>, (Seq<A>, u64)>,
    key: Seq<char>,
    now: u64,
    limit: Duration,
)
    ensures
        !names.contains_key(key) ==> known_addrs(names, key, now, limit) is None,
        names.contains_key(key) && now >= names[key].1 && now - names[key].1 < limit.secs
            * 1_000_000_000 + limit.nanos ==> known_addrs(names, key, now, limit) == Some(
            names[key].0,
        ),
        names.contains_key(key) && now >= names[key].1 && now - names[key].1 >= limit.secs
            * 1_000_000_000 + limit.nanos ==> known_addrs(names, key, now, limit) is None,
{
}

/// An authority without a colon is a host, and its port is 80; so it is where
/// what stands behind the colon is no port.
pub proof fn law_port_is_80_where_none_is_given(host: Seq<char>, rest: Seq<char>)
    requires
        !host.contains(']'),
        !rest.contains(']'),
        !rest.contains(':'),
    ensures
        !host.contains(':') ==> authority_parts(host) == (host, 80u16),
        text::unsigned(rest, 65535) is Err ==> authority_parts(host + seq![':'] + rest) == (
            host,
            80u16,
        ),
        text::unsigned(rest, 65535) is Ok ==> authority_parts(host + seq![':'] + rest) == (
            host,
            text::unsigned(rest, 65535)->Ok_0 as u16,
        ),
        authority_parts(seq!['['] + host + seq![']']) == (seq!['['] + host + seq![']'], 80u16),
{
    text::lemma_find_from(host, ']', 0);
    let b = text::find(host, ']');
    if b < host.len() {
        assert(host[b] == ']');
    }
    lemma_no_rfind(host, ':');
    let s = host + seq![':'] + rest;
    text::lemma_find_from(s, ']', 0);
    let c = text::find(s, ']');
    if c < s.len() {
        if c < host.len() {
            assert(host[c] == ']');
        } else {
            assert(rest[c - host.len() - 1] == ']');
        }
    }
    lemma_rfind_at(host, ':', rest);
    assert(s.take(host.len() as int) =~= host);
    assert(s.skip(host.len() as int + 1) =~= rest);
    let t = seq!['['] + host + seq![']'];
    text::lemma_find_from(t, ']', 0);
    let d = text::find(t, ']');
    assert(t[host.len() as int + 1] == ']');
    if d < host.len() + 1 {
        if d > 0 {
            assert(host[d - 1] == ']');
        }
    }
    assert(t.take(t.len() as int) =~= t);
}

proof fn lemma_no_rfind(s: Seq<char>, c: char)
    ensures
        !s.contains(c) ==> text::rfind(s, c) == -1,
    decreases s.len(),
{
    if s.len() > 0 && !s.contains(c) {
        assert(s[s.len() - 1] != c);
        let init = s.drop_last();
        assert(!init.contains(c)) by {
            if init.contains(c) {
                let i = choose|i: int| 0 <= i < init.len() && init[i] == c;
                assert(s[i] == c);
            }
        }
        lemma_no_rfind(init, c);
    }
}

proof fn lemma_rfind_at(before: Seq<char>, c: char, rest: Seq<char>)
    requires
        !rest.contains(c),
    ensures
        text::rfind(before + seq![c] + rest, c) == before.len(),
    decreases rest.len(),
{
    let s = before + seq![c] + rest;
    if rest.len() > 0 {
        let init = rest.drop_last();
        assert(rest[rest.len() - 1] != c);
        assert(!init.contains(c)) by {
            if init.contains(c) {
                let i = choose|i: int| 0 <= i < init.len() && init[i] == c;
                assert(rest[i] == c);
            }
        }
        lemma_rfind_at(before, c, init);
        assert(s.drop_last() =~= before + seq![c] + init);
    }
}

/// A name that was just resolved is not resolved again until its time is up:
/// the next connection goes to the same addresses, within the same time. Each
/// step counts as one hit or one miss.
pub proof fn law_resolved_names_are_not_resolved_again<A>(
    names: Map<Seq<char>, (Seq<A>, u64)>,
    name_limit: Duration,
    connect_limit: Duration,
    authority: Seq<char>,
    addrs: Seq<A>,
    then: u64,
    now: u64,
    lookup: ConnectStep<A>,
    second: ConnectStep<A>,
    names_after: Map<Seq<char>, (Seq<A>, u64)>,
    later: ConnectStep<A>,
    counters: DiagCounters,
    counters_after: DiagCounters,
    counters_later: DiagCounters,
)
    requires
        is_first_step(
            names,
            name_limit,
            connect_limit,
            authority,
            then,
            lookup,
            counters,
            counters_after,
        ),
        lookup is Lookup,
        addrs.len() > 0,
        is_second_step(
            names,
            connect_limit,
            lookup->host@,
            lookup->port,
            addrs,
            then,
            second,
            names_after,
        ),
        then <= now,
        now - then < name_limit.secs * 1_000_000_000 + name_limit.nanos,
        is_first_step(
            names_after,
            name_limit,
            connect_limit,
            authority,
            now,
            later,
            counters_after,
            counters_later,
        ),
        counters.dns_cache_misses < u64::MAX,
        counters.dns_cache_hits < u64::MAX,
    ensures
        second is Connect && second->addrs@ == addrs && second->timeout == connect_limit,
        later is Connect && later->addrs@ == addrs && later->timeout == connect_limit,
        counters_after.dns_cache_misses == counters.dns_cache_misses + 1,
        counters_after.dns_cache_hits == counters.dns_cache_hits,
        counters_later.dns_cache_misses == counters.dns_cache_misses + 1,
        counters_later.dns_cache_hits == counters.dns_cache_hits + 1,
        counters_later.requests_total == counters.requests_total,
        counters_later.connections_established == counters.connections_established,
        counters_later.requests_unconnected == counters.requests_unconnected,
{
}

/// What is not known is looked up, under the host and port of the authority;
/// what resolves to nothing fails, and is not kept.
pub proof fn law_unknown_names_are_looked_up<A>(
    name_limit: Duration,
    connect_limit: Duration,
    host: Seq<char>,
    port: u16,
    now: u64,
    step: ConnectStep<A>,
    second: ConnectStep<A>,
    names: Map<Seq<char>, (Seq<A>, u64)>,
    names_after: Map<Seq<char>, (Seq<A>, u64)>,
    counters: DiagCounters,
    counters_after: DiagCounters,
)
    requires
        text::find(host, ']') >= host.len() - 1,
        !names.contains_key(host + ":"@ + text::decimal(port as nat)),
        is_first_step(
            names,
            name_limit,
            connect_limit,
            host + ":"@ + text::decimal(port as nat),
            now,
            step,
            counters,
            counters_after,
        ),
        is_second_step(names, connect_limit, host, port, Seq::empty(), now, second, names_after),
    ensures
        step is Lookup && step->host@ == host && step->port == port,
        second is NoAddresses,
        names_after == names,
{
    law_authority_comes_apart(host, port);
}

} // verus!
