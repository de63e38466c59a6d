//! Counters for diagnosis.

use vstd::prelude::*;

use crate::double;
use crate::double::Double;

verus! {

/// What has happened so far. The counters wrap around at their largest value.
#[derive(Clone, Copy, Debug)]
pub struct DiagCounters {
    /// Requests that reached the proxy.
    pub requests_total: u64,
    /// Requests that had to wait for a cold start.
    pub requests_cold_start: u64,
    /// Connections to backends that were made because none could be reused.
    pub connections_established: u64,
    /// Routed requests without a connection: those still on their way to one,
    /// and those that ended before they got one.
    pub requests_unconnected: u64,
    /// Names resolved from memory.
    pub dns_cache_hits: u64,
    /// Names that had to be resolved anew.
    pub dns_cache_misses: u64,
    /// Requests without a route.
    pub requests_no_route: u64,
    /// Requests whose backend failed or took too long.
    pub requests_backend_error: u64,
}

/// The counters at some moment.
#[derive(Clone, Copy, Debug)]
pub struct DiagSnapshot {
    pub requests_total: u64,
    pub requests_cold_start: u64,
    pub connections_established: u64,
    pub dns_cache_hits: u64,
    pub dns_cache_misses: u64,
    pub requests_no_route: u64,
    pub requests_backend_error: u64,
    /// The share of the requests with a connection that reused one, in percent.
    pub connection_reuse_pct: Double,
}

/// All counters at zero.
pub open spec fn no_events() -> DiagCounters {
    DiagCounters {
        requests_total: 0,
        requests_cold_start: 0,
        connections_established: 0,
        requests_unconnected: 0,
        dns_cache_hits: 0,
        dns_cache_misses: 0,
        requests_no_route: 0,
        requests_backend_error: 0,
    }
}

/// A counter after one more event.
pub open spec fn bumped(n: u64) -> u64 {
    if n == u64::MAX {
        0
    } else {
        (n + 1) as u64
    }
}

pub fn bump(n: u64) -> (r: u64)
    ensures
        r == bumped(n),
{
    n.wrapping_add(1)
}

/// A counter after one event was taken back.
pub open spec fn lowered(n: u64) -> u64 {
    if n == 0 {
        u64::MAX
    } else {
        (n - 1) as u64
    }
}

/// A request has arrived that has a route.
pub open spec fn routed(c: DiagCounters) -> DiagCounters {
    DiagCounters {
        requests_total: bumped(c.requests_total),
        requests_unconnected: bumped(c.requests_unconnected),
        ..c
    }
}

/// A request has arrived that has no route.
pub open spec fn unrouted(c: DiagCounters) -> DiagCounters {
    DiagCounters {
        requests_total: bumped(c.requests_total),
        requests_no_route: bumped(c.requests_no_route),
        ..c
    }
}

/// A request has got an idle connection.
pub open spec fn reused(c: DiagCounters) -> DiagCounters {
    DiagCounters { requests_unconnected: lowered(c.requests_unconnected), ..c }
}

/// A request has got a new connection.
pub open spec fn established(c: DiagCounters) -> DiagCounters {
    DiagCounters {
        connections_established: bumped(c.connections_established),
        requests_unconnected: lowered(c.requests_unconnected),
        ..c
    }
}

/// How many requests have got a connection: all but those without a route, and
/// those without a connection. The count wraps around with the counters.
pub open spec fn connected(c: DiagCounters) -> u64 {
    ((c.requests_total - c.requests_no_route - c.requests_unconnected)
        % 0x1_0000_0000_0000_0000) as u64
}

/// `100 * (1 - connections / requests)` in doubles, for requests that got a
/// connection and connections that were made for them; zero without such
/// requests, and where there are no more of them than connections.
pub open spec fn reuse_pct(requests: u64, connections: u64) -> Double {
    if connections >= requests {
        double::zero(false)
    } else {
        let share = double::quotient(
            double::nearest(false, connections as nat, 1),
            double::nearest(false, requests as nat, 1),
        );
        double::product(
            double::nearest(false, 100, 1),
            double::sum(double::nearest(false, 1, 1), share.negated()),
        )
    }
}

/// The counters as they are, with the share of reused connections.
pub open spec fn snapshot_of(c: DiagCounters) -> DiagSnapshot {
    DiagSnapshot {
        requests_total: c.requests_total,
        requests_cold_start: c.requests_cold_start,
        connections_established: c.connections_established,
        dns_cache_hits: c.dns_cache_hits,
        dns_cache_misses: c.dns_cache_misses,
        requests_no_route: c.requests_no_route,
        requests_backend_error: c.requests_backend_error,
        connection_reuse_pct: reuse_pct(connected(c), c.connections_established),
    }
}

impl DiagCounters {
    /// A request has arrived.
    pub fn count_arrival(&mut self, has_route: bool)
        ensures
            *final(self) == (if has_route {
                routed(*old(self))
            } else {
                unrouted(*old(self))
            }),
    {
        self.requests_total = self.requests_total.wrapping_add(1);
        if has_route {
            self.requests_unconnected = self.requests_unconnected.wrapping_add(1);
        } else {
            self.requests_no_route = self.requests_no_route.wrapping_add(1);
        }
    }

    /// A request has got an idle connection.
    pub fn count_reused(&mut self)
        ensures
            *final(self) == reused(*old(self)),
    {
        self.requests_unconnected = self.requests_unconnected.wrapping_sub(1);
    }

    /// An attempt to make a connection for a request is over. It counts where
    /// there is a connection.
    pub fn count_attempt(&mut self, made: bool)
        ensures
            *final(self) == (if made {
                established(*old(self))
            } else {
                *old(self)
            }),
    {
        if made {
            self.connections_established = self.connections_established.wrapping_add(1);
            self.requests_unconnected = self.requests_unconnected.wrapping_sub(1);
        }
    }

    /// The counters now, with the share of reused connections.
    pub fn snapshot(&self) -> (s: DiagSnapshot)
        ensures
            s == snapshot_of(*self),
            s.connection_reuse_pct.wf(),
    {
        let requests = self.requests_total.wrapping_sub(self.requests_no_route).wrapping_sub(
            self.requests_unconnected,
        );
        assert(requests == connected(*self));
        let connection_reuse_pct = if self.connections_established < requests {
            let share = Double::from_u64(self.connections_established).over(
                Double::from_u64(requests),
            );
            Double::from_u64(100).times(Double::from_u64(1).plus(share.neg()))
        } else {
            Double::Finite { neg: false, mant: 0, exp: -1074 }
        };
        DiagSnapshot {
            requests_total: self.requests_total,
            requests_cold_start: self.requests_cold_start,
            connections_established: self.connections_established,
            dns_cache_hits: self.dns_cache_hits,
            dns_cache_misses: self.dns_cache_misses,
            requests_no_route: self.requests_no_route,
            requests_backend_error: self.requests_backend_error,
            connection_reuse_pct,
        }
    }
}

impl Default for DiagCounters {
    fn default() -> (c: DiagCounters)
        ensures
            c == no_events(),
    {
        DiagCounters {
            requests_total: 0,
            requests_cold_start: 0,
            connections_established: 0,
            requests_unconnected: 0,
            dns_cache_hits: 0,
            dns_cache_misses: 0,
            requests_no_route: 0,
            requests_backend_error: 0,
        }
    }
}

// ---------------------------------------------------------------------------
// Laws
// ---------------------------------------------------------------------------

/// Only a request that gets a connection counts as one: not one that arrives,
/// with a route or without.
pub proof fn law_connected_requests(c: DiagCounters)
    ensures
        connected(no_events()) == 0,
        connected(routed(c)) == connected(c),
        connected(unrouted(c)) == connected(c),
        connected(reused(c)) == bumped(connected(c)),
        connected(established(c)) == bumped(connected(c)),
{
    let n = c.requests_total - c.requests_no_route - c.requests_unconnected;
    let r = routed(c);
    let u = unrouted(c);
    lemma_wrapped(n, r.requests_total - r.requests_no_route - r.requests_unconnected);
    lemma_wrapped(n, u.requests_total - u.requests_no_route - u.requests_unconnected);
    lemma_wrapped(n + 1, n + 1);
    lemma_wrapped(n + 1, n + 1 - 0x1_0000_0000_0000_0000);
    lemma_wrapped_up(n);
}

proof fn lemma_wrapped(x: int, y: int)
    requires
        y == x || y == x + 0x1_0000_0000_0000_0000 || y == x - 0x1_0000_0000_0000_0000,
    ensures
        y % 0x1_0000_0000_0000_0000 == x % 0x1_0000_0000_0000_0000,
{
}

proof fn lemma_wrapped_up(x: int)
    ensures
        ((x + 1) % 0x1_0000_0000_0000_0000) as u64 == bumped(
            (x % 0x1_0000_0000_0000_0000) as u64,
        ),
{
}

/// Where every request with a connection took one of its own, none was reused:
/// the share is zero percent. So it is where no request got a connection.
pub proof fn law_no_reuse_is_zero_percent(n: u64)
    ensures
        reuse_pct(n, n) == double::zero(false),
{
}

/// Where no request took a new connection, all were reused: the share is a
/// hundred percent.
pub proof fn law_full_reuse_is_a_hundred_percent(n: u64)
    requires
        n > 0,
    ensures
        reuse_pct(n, 0) == double::nearest(false, 100, 1),
{
    let one = double::nearest(false, 1, 1);
    double::law_nothing_is_zero(false, 1);
    double::lemma_positive(n as nat);
    double::lemma_quotient_of_nothing(double::nearest(false, n as nat, 1));
    double::law_integers_add_exactly(1, 0);
    double::lemma_positive(1);
    double::lemma_sum_with_negative_zero(one);
    double::law_integers_multiply_exactly(100, 1);
}

/// The share is a percentage: a number from zero to a hundred, whatever the
/// counts are.
pub proof fn law_reuse_is_a_percentage(requests: u64, connections: u64)
    ensures
        double::up_to(reuse_pct(requests, connections), 100),
{
    if connections >= requests {
        double::lemma_zero_is_up_to(100);
    } else {
        let a = double::nearest(false, connections as nat, 1);
        let b = double::nearest(false, requests as nat, 1);
        double::lemma_nearest_wf(false, connections as nat, 1);
        double::lemma_nearest_wf(false, requests as nat, 1);
        double::lemma_positive(requests as nat);
        double::law_rounding_keeps_the_order(connections as nat, requests as nat, 1);
        double::law_quotient_by_no_less_is_up_to_one(a, b);
        let share = double::quotient(a, b);
        double::law_difference_from_one_is_up_to_one(share);
        let rest = double::sum(double::nearest(false, 1, 1), share.negated());
        double::law_product_is_up_to_the_integer(100, rest);
    }
}

/// A routed request counts as one more request, and as one more without a
/// connection; a connection takes it off the latter, and counts itself where it
/// was made anew. One without a route counts as such. Nothing else changes.
pub proof fn law_each_event_counts_once(c: DiagCounters)
    requires
        c.requests_total < u64::MAX,
        c.requests_no_route < u64::MAX,
        c.connections_established < u64::MAX,
        0 < c.requests_unconnected < u64::MAX,
    ensures
        routed(c).requests_total == c.requests_total + 1,
        routed(c).requests_unconnected == c.requests_unconnected + 1,
        routed(c).requests_no_route == c.requests_no_route,
        routed(c).connections_established == c.connections_established,
        unrouted(c).requests_total == c.requests_total + 1,
        unrouted(c).requests_no_route == c.requests_no_route + 1,
        unrouted(c).requests_unconnected == c.requests_unconnected,
        unrouted(c).connections_established == c.connections_established,
        reused(c).requests_unconnected == c.requests_unconnected - 1,
        reused(c).requests_total == c.requests_total,
        reused(c).requests_no_route == c.requests_no_route,
        reused(c).connections_established == c.connections_established,
        established(c).requests_unconnected == c.requests_unconnected - 1,
        established(c).connections_established == c.connections_established + 1,
        established(c).requests_total == c.requests_total,
        established(c).requests_no_route == c.requests_no_route,
{
}

/// No event but those of their own changes the other counters.
pub proof fn law_events_leave_other_counters_alone(c: DiagCounters, d: DiagCounters)
    requires
        d == routed(c) || d == unrouted(c) || d == reused(c) || d == established(c),
    ensures
        d.requests_cold_start == c.requests_cold_start,
        d.dns_cache_hits == c.dns_cache_hits,
        d.dns_cache_misses == c.dns_cache_misses,
        d.requests_backend_error == c.requests_backend_error,
{
}

/// A snapshot tells each counter as it is. Where every request with a connection
/// got one of its own, no reuse is told, and where none did, a hundred percent.
pub proof fn law_snapshots_tell_the_counters(c: DiagCounters)
    requires
        c.requests_total >= c.requests_no_route + c.requests_unconnected,
    ensures
        snapshot_of(c).requests_total == c.requests_total,
        snapshot_of(c).requests_cold_start == c.requests_cold_start,
        snapshot_of(c).connections_established == c.connections_established,
        snapshot_of(c).dns_cache_hits == c.dns_cache_hits,
        snapshot_of(c).dns_cache_misses == c.dns_cache_misses,
        snapshot_of(c).requests_no_route == c.requests_no_route,
        snapshot_of(c).requests_backend_error == c.requests_backend_error,
        c.connections_established == c.requests_total - c.requests_no_route - c.requests_unconnected
            ==> snapshot_of(c).connection_reuse_pct == double::zero(false),
        c.connections_established == 0 && c.requests_total > c.requests_no_route
            + c.requests_unconnected ==> snapshot_of(c).connection_reuse_pct == double::nearest(
            false,
            100,
            1,
        ),
{
    law_no_reuse_is_zero_percent(connected(c));
    if c.requests_total > c.requests_no_route + c.requests_unconnected {
        law_full_reuse_is_a_hundred_percent(connected(c));
    }
}

/// Where half of the requests took a new connection, the share is fifty percent.
pub proof fn law_half_reuse_is_fifty_percent(n: u64)
    requires
        0 < n < 0x10_0000_0000_0000,
    ensures
        reuse_pct((2 * n) as u64, n) == double::nearest(false, 50, 1),
{
    let m = n as nat;
    double::law_quotients_of_integers_are_nearest(m, 2 * m);
    double::law_rounding_ignores_common_factors(false, 1, 2, m);
    assert(1 * m == m) by (nonlinear_arith);
    double::law_one_less_a_half_is_a_half();
    double::law_half_of_an_even_integer(50);
}

} // verus!
