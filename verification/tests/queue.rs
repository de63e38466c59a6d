use interceptor_rs::duration::Duration;
use interceptor_rs::queue::{buckets_usable, QueueCount, QueueCounter, RpsBuckets};
use interceptor_rs::store::KeySet;

const SEC: u64 = 1_000_000_000;

fn count(q: &QueueCounter, key: &str, now: u64) -> Option<QueueCount> {
    q.current(now).into_iter().find(|(k, _)| k == key).map(|(_, c)| c)
}

fn rps(q: &QueueCounter, key: &str, now: u64) -> f64 {
    f64::from_bits(count(q, key, now).unwrap().rps.to_bits())
}

#[test]
fn requests_in_flight_are_counted() {
    let mut q = QueueCounter::new();
    q.ensure_key("ns/a");
    q.ensure_key("ns/b");
    let g1 = q.increase("ns/a", 0);
    let g2 = q.increase("ns/a", 0);
    assert_eq!(count(&q, "ns/a", 0).unwrap().concurrency, 2);
    assert_eq!(count(&q, "ns/b", 0).unwrap().concurrency, 0);
    q.ensure_key("ns/a");
    assert_eq!(count(&q, "ns/a", 0).unwrap().concurrency, 2);
    q.release(g1);
    q.release(g2);
    assert_eq!(count(&q, "ns/a", 0).unwrap().concurrency, 0);
    q.decrease_inner("ns/a");
    assert_eq!(count(&q, "ns/a", 0).unwrap().concurrency, 0);
    assert_eq!(rps(&q, "ns/a", 0), 0.0);
}

#[test]
fn unknown_keys_are_not_counted() {
    let mut q = QueueCounter::new();
    let g = q.increase("ns/x", 0);
    assert!(q.current(0).is_empty());
    q.ensure_key("ns/x");
    q.release(g);
    assert_eq!(count(&q, "ns/x", 0).unwrap().concurrency, 0);
}

#[test]
fn keys_are_removed_and_retained() {
    let mut q = QueueCounter::new();
    for k in ["a", "b", "c", "d", "e"] {
        q.ensure_key(k);
        let _ = q.increase(k, 0);
    }
    q.remove_key("b");
    q.remove_key("zz");
    let mut keep = KeySet::new();
    keep.insert("a");
    keep.insert("d");
    keep.insert("b");
    q.retain_keys(&keep);
    let mut keys: Vec<String> = q.current(0).into_iter().map(|(k, _)| k).collect();
    keys.sort();
    assert_eq!(keys, ["a", "d"]);
    assert_eq!(count(&q, "d", 0).unwrap().concurrency, 1);
}

#[test]
fn rates_are_averages_over_the_window() {
    let mut q = QueueCounter::new();
    q.ensure_key("k");
    q.update_buckets("k", Duration::from_secs(10), Duration::from_secs(1), 0);
    for i in 0..5u64 {
        let _ = q.increase("k", i * SEC);
    }
    assert_eq!(rps(&q, "k", 4 * SEC), 5.0 / 10.0);
    // One event after the other leaves the window, with its bucket.
    assert_eq!(rps(&q, "k", 11 * SEC - 1), 0.5);
    assert_eq!(rps(&q, "k", 11 * SEC), 0.4);
    assert_eq!(rps(&q, "k", 13 * SEC), 0.2);
    // The last one is as old as the window, then older.
    assert_eq!(rps(&q, "k", 14 * SEC), 0.1);
    assert_eq!(rps(&q, "k", 14 * SEC + 1), 0.0);
    // A pause as long as the ring empties it.
    let _ = q.increase("k", 15 * SEC);
    assert_eq!(rps(&q, "k", 15 * SEC), 0.1);
    // Several events fall into one bucket.
    let _ = q.increase("k", 15 * SEC + 5);
    let _ = q.increase("k", 15 * SEC + 6);
    assert_eq!(rps(&q, "k", 16 * SEC), 3.0 / 10.0);
    // Time passes over three buckets and reuses them.
    let _ = q.increase("k", 18 * SEC + 6);
    assert_eq!(rps(&q, "k", 19 * SEC), 4.0 / 10.0);
    q.update_buckets("k", Duration::from_secs(10), Duration::from_secs(1), 20 * SEC);
    assert_eq!(rps(&q, "k", 20 * SEC), 0.0);
}

fn average(b: &RpsBuckets, now: u64) -> f64 {
    f64::from_bits(b.window_average(now).to_bits())
}

#[test]
fn steady_events_give_a_steady_rate() {
    let t0 = 7 * SEC;
    let mut b = RpsBuckets::new(Duration::from_secs(2), Duration::from_secs(1), t0);
    for k in 1..=20u64 {
        b.record(t0 + k * SEC / 2);
        assert!(average(&b, t0 + k * SEC / 2) <= 3.0);
    }
    // The buckets that reach into the last two seconds hold five of the events.
    assert_eq!(average(&b, t0 + 10 * SEC), 2.5);
    // An event older than the window and one bucket does not count.
    assert_eq!(average(&b, t0 + 13 * SEC), 0.0);
    // A burst is forgotten, though each event comes soon after the one before.
    let mut b = RpsBuckets::new(Duration::from_secs(2), Duration::from_secs(1), 0);
    for _ in 0..1000 {
        b.record(0);
    }
    for k in 1..=6u64 {
        b.record(k * SEC / 2);
    }
    assert_eq!(average(&b, 3 * SEC), 2.5);
}

#[test]
fn events_count_while_they_are_younger_than_the_window() {
    let mut b = RpsBuckets::new(Duration::from_secs(60), Duration::from_secs(1), 0);
    b.record(9 * SEC / 10);
    assert_eq!(average(&b, 121 * SEC / 2), 1.0 / 60.0);
    assert_eq!(average(&b, 609 * SEC / 10), 1.0 / 60.0);
    assert_eq!(average(&b, 609 * SEC / 10 + 1), 0.0);
    // A later event does not push out one that is younger than the window.
    b.record(60 * SEC);
    assert_eq!(average(&b, 121 * SEC / 2), 2.0 / 60.0);
    assert_eq!(average(&b, 61 * SEC - 1), 2.0 / 60.0);
    assert_eq!(average(&b, 61 * SEC), 1.0 / 60.0);
    // Nor where the window ends within a bucket.
    let mut b = RpsBuckets::new(Duration::from_millis(2500), Duration::from_secs(1), 0);
    b.record(9 * SEC / 10);
    b.record(32 * SEC / 10);
    assert_eq!(average(&b, 32 * SEC / 10), 2.0 / 2.5);
    assert_eq!(average(&b, 35 * SEC / 10), 1.0 / 2.5);
}

#[test]
fn odd_windows_have_at_least_one_bucket() {
    let mut q = QueueCounter::new();
    q.ensure_key("k");
    q.update_buckets("k", Duration::from_secs(1), Duration::from_secs(60), 0);
    let _ = q.increase("k", SEC / 2);
    assert_eq!(rps(&q, "k", SEC / 2), 1.0);
    q.update_buckets("k", Duration::from_secs(0), Duration::from_secs(1), 0);
    let _ = q.increase("k", 0);
    assert_eq!(rps(&q, "k", 0), 0.0);
    q.update_buckets("nobody", Duration::from_secs(1), Duration::from_secs(1), 0);
    assert_eq!(q.current(0).len(), 1);
}

#[test]
fn buckets_must_fit_into_memory() {
    let second = Duration::from_secs(1);
    assert!(buckets_usable(Duration::from_secs(60), second));
    assert!(!buckets_usable(Duration::from_secs(u64::MAX), second));
    assert!(buckets_usable(Duration::from_secs(1), Duration::from_secs(0)));
}
