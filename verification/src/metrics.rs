//! Counts of requests for Prometheus.
//!
//! * `keda_http_request_count{method, path, code, host}`
//! * `keda_http_pending_request_count{host}`

use prometheus::{Encoder, IntCounterVec, IntGaugeVec, Opts, Registry, TextEncoder};
use vstd::prelude::*;

use crate::diagnostics;
use crate::reply::PlainReply;
use crate::text;
use crate::text::append_decimal;
use crate::wire;

verus! {

// ---------------------------------------------------------------------------
// Counters and gauges of the `prometheus` crate
// ---------------------------------------------------------------------------

/// A registry with the set of counters and the set of gauges that it shows.
#[verifier::external_body]
pub struct Exposition {
    registry: Registry,
    counters: Option<IntCounterVec>,
    gauges: Option<IntGaugeVec>,
}

/// The name, the help text and the label names of the counters, once there are
/// any.
pub uninterp spec fn counter_title(e: Exposition) -> Option<
    (Seq<char>, Seq<char>, Seq<Seq<char>>),
>;

/// The label values and the value of each series of counters.
pub uninterp spec fn counter_rows(e: Exposition) -> Map<u64, (Seq<Seq<char>>, u64)>;

/// The name, the help text and the label names of the gauges, once there are
/// any.
pub uninterp spec fn gauge_title(e: Exposition) -> Option<(Seq<char>, Seq<char>, Seq<Seq<char>>)>;

/// The label values and the value of each series of gauges.
pub uninterp spec fn gauge_rows(e: Exposition) -> Map<u64, (Seq<Seq<char>>, i64)>;

/// The ids of the metrics that the registry shows.
pub uninterp spec fn shown(e: Exposition) -> Set<u64>;

/// The text in which the crate shows counters and gauges of these titles, of
/// different ids, with these values: what `TextEncoder::encode` makes of what
/// `Registry::gather` gives, where the registry shows both and nothing else.
pub uninterp spec fn text_of(
    counters: (Seq<char>, Seq<char>, Seq<Seq<char>>),
    counts: Map<u64, (Seq<Seq<char>>, u64)>,
    gauges: (Seq<char>, Seq<char>, Seq<Seq<char>>),
    values: Map<u64, (Seq<Seq<char>>, i64)>,
) -> Seq<u8>;

/// The name in a title.
pub open spec fn name_in(title: Option<(Seq<char>, Seq<char>, Seq<Seq<char>>)>) -> Seq<char> {
    match title {
        Some((name, _, _)) => name,
        None => Seq::empty(),
    }
}

/// How many labels a title has.
pub open spec fn labels_in(title: Option<(Seq<char>, Seq<char>, Seq<Seq<char>>)>) -> nat {
    match title {
        Some((_, _, labels)) => labels.len(),
        None => 0,
    }
}

/// Whether two expositions have the same counters.
pub open spec fn same_counters(a: Exposition, b: Exposition) -> bool {
    counter_title(a) == counter_title(b) && counter_rows(a) == counter_rows(b)
}

/// Whether two expositions have the same gauges.
pub open spec fn same_gauges(a: Exposition, b: Exposition) -> bool {
    gauge_title(a) == gauge_title(b) && gauge_rows(a) == gauge_rows(b)
}

/// One more byte in an FNV-1a hash of 64 bits.
pub open spec fn fnv_step(h: u64, b: u8) -> u64 {
    (((h ^ (b as u64)) * 0x100_0000_01b3) % 0x1_0000_0000_0000_0000) as u64
}

/// The FNV-1a hash of bytes.
pub open spec fn fnv(bytes: Seq<u8>) -> u64
    decreases bytes.len(),
{
    if bytes.len() == 0 {
        0xcbf2_9ce4_8422_2325
    } else {
        fnv_step(fnv(bytes.drop_last()), bytes.last())
    }
}

/// The series that label values belong to, given their texts one after the
/// other: the crate tells series apart by a hash of those bytes.
pub open spec fn series(labels: Seq<char>) -> u64 {
    fnv(wire::utf8(labels))
}

/// The id that the crate gives to metrics of a name: a hash of the name and a
/// separator.
pub open spec fn metric_id(name: Seq<char>) -> u64 {
    fnv(wire::utf8(name).push(0xff))
}

/// Label values one after the other.
pub open spec fn joined(labels: Seq<&str>) -> Seq<char>
    decreases labels.len(),
{
    if labels.len() == 0 {
        Seq::empty()
    } else {
        joined(labels.drop_last()) + labels.last()@
    }
}

/// Labels as plain texts.
pub open spec fn texts(labels: Seq<&str>) -> Seq<Seq<char>> {
    Seq::new(labels.len(), |i: int| labels[i]@)
}

/// Whether a text is a letter or underscore, and then letters, underscores and
/// digits; a colon counts as a letter where `colon` says so.
pub open spec fn is_identifier(s: Seq<char>, colon: bool) -> bool {
    &&& s.len() > 0
    &&& forall|i: int|
        0 <= i < s.len() ==> {
            ||| 'a' <= #[trigger] s[i] <= 'z'
            ||| 'A' <= s[i] <= 'Z'
            ||| s[i] == '_'
            ||| (colon && s[i] == ':')
            ||| (i > 0 && '0' <= s[i] <= '9')
        }
}

/// Whether the crate takes a name, a help text and label names: there is a help
/// text, the names are identifiers, and no label occurs twice.
pub open spec fn acceptable(name: Seq<char>, help: Seq<char>, labels: Seq<&str>) -> bool {
    &&& help.len() > 0
    &&& is_identifier(name, true)
    &&& forall|i: int| 0 <= i < labels.len() ==> is_identifier((#[trigger] labels[i])@, false)
    &&& forall|i: int, j: int|
        0 <= i < j < labels.len() ==> (#[trigger] labels[i])@ != (#[trigger] labels[j])@
}

/// `Registry::new`: a registry without metrics.
#[verifier::external_body]
fn new_exposition() -> (e: Exposition)
    ensures
        shown(e).is_empty(),
        counter_title(e) is None,
        gauge_title(e) is None,
{
    Exposition { registry: Registry::new(), counters: None, gauges: None }
}

/// `IntCounterVec::new`: counters without a series yet, where the crate takes
/// the names.
#[verifier::external_body]
fn make_counters(e: &mut Exposition, name: &str, help: &str, labels: &[&str]) -> (r: Result<
    (),
    String,
>)
    requires
        counter_title(*old(e)) is None,
    ensures
        r is Ok <==> acceptable(name@, help@, labels@),
        r is Ok ==> counter_title(*final(e)) == Some((name@, help@, texts(labels@))),
        r is Ok ==> counter_rows(*final(e)).is_empty(),
        r is Err ==> counter_title(*final(e)) is None,
        same_gauges(*final(e), *old(e)),
        shown(*final(e)) == shown(*old(e)),
{
    IntCounterVec::new(Opts::new(name, help), labels).map(|c| e.counters = Some(c)).map_err(
        |e| e.to_string(),
    )
}

/// `IntGaugeVec::new`: gauges without a series yet, where the crate takes the
/// names.
#[verifier::external_body]
fn make_gauges(e: &mut Exposition, name: &str, help: &str, labels: &[&str]) -> (r: Result<
    (),
    String,
>)
    requires
        gauge_title(*old(e)) is None,
    ensures
        r is Ok <==> acceptable(name@, help@, labels@),
        r is Ok ==> gauge_title(*final(e)) == Some((name@, help@, texts(labels@))),
        r is Ok ==> gauge_rows(*final(e)).is_empty(),
        r is Err ==> gauge_title(*final(e)) is None,
        same_counters(*final(e), *old(e)),
        shown(*final(e)) == shown(*old(e)),
{
    IntGaugeVec::new(Opts::new(name, help), labels).map(|g| e.gauges = Some(g)).map_err(
        |e| e.to_string(),
    )
}

/// `Registry::register` for the counters: the registry takes them unless it
/// shows metrics of the same id already.
#[verifier::external_body]
fn register_counters(e: &mut Exposition) -> (done: Result<(), String>)
    requires
        counter_title(*old(e)) is Some,
    ensures
        done is Ok <==> !shown(*old(e)).contains(metric_id(name_in(counter_title(*old(e))))),
        done is Ok ==> shown(*final(e)) == shown(*old(e)).insert(
            metric_id(name_in(counter_title(*old(e)))),
        ),
        done is Err ==> shown(*final(e)) == shown(*old(e)),
        same_counters(*final(e), *old(e)),
        same_gauges(*final(e), *old(e)),
{
    e.registry.register(Box::new(e.counters.clone().unwrap())).map_err(|e| e.to_string())
}

/// `Registry::register` for the gauges: the registry takes them unless it shows
/// metrics of the same id already.
#[verifier::external_body]
fn register_gauges(e: &mut Exposition) -> (done: Result<(), String>)
    requires
        gauge_title(*old(e)) is Some,
    ensures
        done is Ok <==> !shown(*old(e)).contains(metric_id(name_in(gauge_title(*old(e))))),
        done is Ok ==> shown(*final(e)) == shown(*old(e)).insert(
            metric_id(name_in(gauge_title(*old(e)))),
        ),
        done is Err ==> shown(*final(e)) == shown(*old(e)),
        same_counters(*final(e), *old(e)),
        same_gauges(*final(e), *old(e)),
{
    e.registry.register(Box::new(e.gauges.clone().unwrap())).map_err(|e| e.to_string())
}

/// The count of a series, zero where it has none yet.
pub open spec fn value_or_zero(rows: Map<u64, (Seq<Seq<char>>, u64)>, series: u64) -> u64 {
    if rows.contains_key(series) {
        rows[series].1
    } else {
        0
    }
}

/// Counts with one more in the series of these label values. A series keeps the
/// label values that it came up with.
pub open spec fn one_more_row(
    rows: Map<u64, (Seq<Seq<char>>, u64)>,
    series: u64,
    labels: Seq<Seq<char>>,
) -> Map<u64, (Seq<Seq<char>>, u64)> {
    let kept = if rows.contains_key(series) {
        rows[series].0
    } else {
        labels
    };
    rows.insert(series, (kept, diagnostics::bumped(value_or_zero(rows, series))))
}

/// Gauges with a value in the series of these label values. A series keeps the
/// label values that it came up with.
pub open spec fn row_set(
    rows: Map<u64, (Seq<Seq<char>>, i64)>,
    series: u64,
    labels: Seq<Seq<char>>,
    value: i64,
) -> Map<u64, (Seq<Seq<char>>, i64)> {
    let kept = if rows.contains_key(series) {
        rows[series].0
    } else {
        labels
    };
    rows.insert(series, (kept, value))
}

/// `IntCounterVec::with_label_values` and `IntCounter::inc`: one more in the
/// series of these label values, which starts at zero. It wraps around at its
/// largest value.
#[verifier::external_body]
fn increment(e: &mut Exposition, labels: &[&str])
    requires
        counter_title(*old(e)) is Some,
        labels@.len() == labels_in(counter_title(*old(e))),
    ensures
        counter_title(*final(e)) == counter_title(*old(e)),
        counter_rows(*final(e)) == one_more_row(
            counter_rows(*old(e)),
            series(joined(labels@)),
            texts(labels@),
        ),
        same_gauges(*final(e), *old(e)),
        shown(*final(e)) == shown(*old(e)),
{
    e.counters.as_ref().unwrap().with_label_values(labels).inc();
}

/// `IntGaugeVec::with_label_values` and `IntGauge::set`: the series of these
/// label values has that value.
#[verifier::external_body]
fn set_gauge(e: &mut Exposition, labels: &[&str], value: i64)
    requires
        gauge_title(*old(e)) is Some,
        labels@.len() == labels_in(gauge_title(*old(e))),
    ensures
        gauge_title(*final(e)) == gauge_title(*old(e)),
        gauge_rows(*final(e)) == row_set(
            gauge_rows(*old(e)),
            series(joined(labels@)),
            texts(labels@),
            value,
        ),
        same_counters(*final(e), *old(e)),
        shown(*final(e)) == shown(*old(e)),
{
    e.gauges.as_ref().unwrap().with_label_values(labels).set(value);
}

/// Whether an exposition has counters and gauges, and its registry shows both:
/// their ids differ, so each stands for a registration of its own.
pub open spec fn shows_all(e: Exposition) -> bool {
    &&& counter_title(e) is Some
    &&& gauge_title(e) is Some
    &&& metric_id(name_in(counter_title(e))) != metric_id(name_in(gauge_title(e)))
    &&& shown(e).contains(metric_id(name_in(counter_title(e))))
    &&& shown(e).contains(metric_id(name_in(gauge_title(e))))
}

/// `Registry::gather` and `TextEncoder::encode`: the text of what the counters
/// and the gauges hold, which depends on that and on their titles alone. There
/// is nothing in it that cannot be encoded. Nothing is said about how the text
/// is laid out.
#[verifier::external_body]
fn encode(e: &Exposition) -> (r: Result<Vec<u8>, String>)
    requires
        shows_all(*e),
    ensures
        r is Ok,
        r->Ok_0@ == text_of(
            counter_title(*e)->0,
            counter_rows(*e),
            gauge_title(*e)->0,
            gauge_rows(*e),
        ),
{
    let mut buf = Vec::new();
    let encoded = TextEncoder::new().encode(&e.registry.gather(), &mut buf);
    encoded.map(|_| buf).map_err(|e| e.to_string())
}

/// `TextEncoder::format_type`.
#[verifier::external_body]
fn text_format() -> (s: String)
    ensures
        s@ == "text/plain; version=0.0.4"@,
{
    TextEncoder::new().format_type().to_string()
}

// ---------------------------------------------------------------------------
// The collector
// ---------------------------------------------------------------------------

/// Counts requests by method, path, status code and host, and requests in
/// flight by host.
pub struct MetricsCollector {
    exposition: Exposition,
}

/// The name, help text and label names of the counts of requests.
pub open spec fn request_title() -> (Seq<char>, Seq<char>, Seq<Seq<char>>) {
    (
        "keda_http_request_count"@,
        "Total completed HTTP requests"@,
        seq!["method"@, "path"@, "code"@, "host"@],
    )
}

/// The name, help text and label name of the requests in flight.
pub open spec fn pending_title() -> (Seq<char>, Seq<char>, Seq<Seq<char>>) {
    ("keda_http_pending_request_count"@, "Current in-flight HTTP requests"@, seq!["host"@])
}

/// The series of a request.
pub open spec fn request_series(
    method: Seq<char>,
    path: Seq<char>,
    code: u16,
    host: Seq<char>,
) -> u64 {
    series(method + path + text::decimal(code as nat) + host)
}

/// `counts` with one more request.
pub open spec fn one_request(
    counts: Map<u64, (Seq<Seq<char>>, u64)>,
    method: Seq<char>,
    path: Seq<char>,
    code: u16,
    host: Seq<char>,
) -> Map<u64, (Seq<Seq<char>>, u64)> {
    one_more_row(
        counts,
        request_series(method, path, code, host),
        seq![method, path, text::decimal(code as nat), host],
    )
}

/// `values` with the number of requests in flight for a host.
pub open spec fn pending_set(
    values: Map<u64, (Seq<Seq<char>>, i64)>,
    host: Seq<char>,
    value: i64,
) -> Map<u64, (Seq<Seq<char>>, i64)> {
    row_set(values, series(host), seq![host], value)
}

impl MetricsCollector {
    pub closed spec fn wf(self) -> bool {
        &&& counter_title(self.exposition) == Some(request_title())
        &&& gauge_title(self.exposition) == Some(pending_title())
        &&& shows_all(self.exposition)
    }

    /// The requests counted so far, by series.
    pub closed spec fn requests(self) -> Map<u64, (Seq<Seq<char>>, u64)> {
        counter_rows(self.exposition)
    }

    /// The requests in flight as last told, by series.
    pub closed spec fn pending(self) -> Map<u64, (Seq<Seq<char>>, i64)> {
        gauge_rows(self.exposition)
    }

    /// All metrics as text.
    pub open spec fn document(self) -> Seq<u8> {
        text_of(request_title(), self.requests(), pending_title(), self.pending())
    }

    /// A collector that has counted nothing.
    pub fn new() -> (r: Result<MetricsCollector, String>)
        ensures
            r is Ok,
            r->Ok_0.wf(),
            r->Ok_0.requests().is_empty(),
            r->Ok_0.pending().is_empty(),
    {
        proof {
            reveal_strlit("keda_http_request_count");
            reveal_strlit("Total completed HTTP requests");
            reveal_strlit("method");
            reveal_strlit("path");
            reveal_strlit("code");
            reveal_strlit("host");
            reveal_strlit("keda_http_pending_request_count");
            reveal_strlit("Current in-flight HTTP requests");
            assert("method"@[0] == 'm' && "path"@[0] == 'p' && "code"@[0] == 'c' && "host"@[0]
                == 'h');
            lemma_ids_differ();
        }
        let mut exposition = new_exposition();
        let labels = ["method", "path", "code", "host"];
        if let Err(e) = make_counters(
            &mut exposition,
            "keda_http_request_count",
            "Total completed HTTP requests",
            &labels,
        ) {
            return Err(e);
        }
        assert(texts(labels@) =~= request_title().2);
        if let Err(e) = register_counters(&mut exposition) {
            return Err(e);
        }
        let labels = ["host"];
        if let Err(e) = make_gauges(
            &mut exposition,
            "keda_http_pending_request_count",
            "Current in-flight HTTP requests",
            &labels,
        ) {
            return Err(e);
        }
        assert(texts(labels@) =~= pending_title().2);
        if let Err(e) = register_gauges(&mut exposition) {
            return Err(e);
        }
        Ok(MetricsCollector { exposition })
    }

    /// Counts a request whose status is known.
    pub fn record_request(&mut self, method: &str, path: &str, code: u16, host: &str)
        requires
            old(self).wf(),
        ensures
            final(self).wf(),
            final(self).requests() == one_request(old(self).requests(), method@, path@, code, host@),
            final(self).pending() == old(self).pending(),
    {
        let mut code_text = String::new();
        append_decimal(&mut code_text, code as u64);
        let labels = [method, path, code_text.as_str(), host];
        proof {
            reveal_with_fuel(joined, 5);
            let l = labels@;
            assert(l.drop_last().drop_last().drop_last().drop_last() =~= Seq::<&str>::empty());
            assert(joined(l) =~= method@ + path@ + text::decimal(code as nat) + host@);
            assert(texts(l) =~= seq![method@, path@, text::decimal(code as nat), host@]);
        }
        increment(&mut self.exposition, &labels);
    }

    /// Tells how many requests are in flight for a host.
    pub fn record_pending(&mut self, host: &str, value: i64)
        requires
            old(self).wf(),
        ensures
            final(self).wf(),
            final(self).requests() == old(self).requests(),
            final(self).pending() == pending_set(old(self).pending(), host@, value),
    {
        let labels = [host];
        proof {
            reveal_with_fuel(joined, 2);
            assert(labels@.drop_last() =~= Seq::<&str>::empty());
            assert(joined(labels@) =~= host@);
            assert(texts(labels@) =~= seq![host@]);
        }
        set_gauge(&mut self.exposition, &labels, value);
    }

    /// All metrics as a response.
    pub fn handle(&self) -> (r: PlainReply)
        requires
            self.wf(),
        ensures
            r.is_document("text/plain; version=0.0.4"@, self.document()),
    {
        metrics_reply(encode(&self.exposition))
    }
}

/// Four more bytes in a hash.
spec fn four_steps(h: u64, a: u8, b: u8, c: u8, d: u8) -> u64 {
    fnv_step(fnv_step(fnv_step(fnv_step(h, a), b), c), d)
}

proof fn lemma_four_steps(bytes: Seq<u8>, n: int)
    requires
        0 <= n,
        n + 4 <= bytes.len(),
    ensures
        fnv(bytes.take(n + 4)) == four_steps(
            fnv(bytes.take(n)),
            bytes[n],
            bytes[n + 1],
            bytes[n + 2],
            bytes[n + 3],
        ),
{
    reveal_with_fuel(fnv, 5);
    let b = bytes.take(n + 4);
    assert(b.drop_last().drop_last().drop_last().drop_last() =~= bytes.take(n));
}

/// The two metrics have different ids.
proof fn lemma_ids_differ()
    ensures
        metric_id("keda_http_request_count"@) != metric_id("keda_http_pending_request_count"@),
{
    reveal_strlit("keda_http_request_count");
    reveal_strlit("keda_http_pending_request_count");
    let x = "keda_http_request_count"@;
    let y = "keda_http_pending_request_count"@;
    vstd::utf8::is_ascii_chars_encode_utf8(x);
    vstd::utf8::is_ascii_chars_encode_utf8(y);
    let a = wire::utf8(x).push(0xff);
    let b = wire::utf8(y).push(0xff);
    assert(a =~= seq![
        107u8, 101u8, 100u8, 97u8, 95u8, 104u8, 116u8, 116u8, 112u8, 95u8, 114u8, 101u8,
        113u8, 117u8, 101u8, 115u8, 116u8, 95u8, 99u8, 111u8, 117u8, 110u8, 116u8, 255u8,
    ]);
    assert(b =~= seq![
        107u8, 101u8, 100u8, 97u8, 95u8, 104u8, 116u8, 116u8, 112u8, 95u8, 112u8, 101u8,
        110u8, 100u8, 105u8, 110u8, 103u8, 95u8, 114u8, 101u8, 113u8, 117u8, 101u8, 115u8,
        116u8, 95u8, 99u8, 111u8, 117u8, 110u8, 116u8, 255u8,
    ]);
    lemma_four_steps(a, 0);
    lemma_four_steps(a, 4);
    lemma_four_steps(a, 8);
    lemma_four_steps(a, 12);
    lemma_four_steps(a, 16);
    lemma_four_steps(a, 20);
    assert(a.take(24) =~= a);
    lemma_four_steps(b, 0);
    lemma_four_steps(b, 4);
    lemma_four_steps(b, 8);
    lemma_four_steps(b, 12);
    lemma_four_steps(b, 16);
    lemma_four_steps(b, 20);
    lemma_four_steps(b, 24);
    lemma_four_steps(b, 28);
    assert(b.take(32) =~= b);
    assert(four_steps(
        four_steps(
            four_steps(
                four_steps(
                    four_steps(
                        four_steps(0xcbf2_9ce4_8422_2325u64, 107u8, 101u8, 100u8, 97u8),
                        95u8,
                        104u8,
                        116u8,
                        116u8,
                    ),
                    112u8,
                    95u8,
                    114u8,
                    101u8,
                ),
                113u8,
                117u8,
                101u8,
                115u8,
            ),
            116u8,
            95u8,
            99u8,
            111u8,
        ),
        117u8,
        110u8,
        116u8,
        255u8,
    ) == 0x7c03_f25c_2b92_8c5eu64) by (bit_vector);
    assert(four_steps(
        four_steps(
            four_steps(
                four_steps(
                    four_steps(
                        four_steps(
                            four_steps(
                                four_steps(0xcbf2_9ce4_8422_2325u64, 107u8, 101u8, 100u8, 97u8),
                                95u8,
                                104u8,
                                116u8,
                                116u8,
                            ),
                            112u8,
                            95u8,
                            112u8,
                            101u8,
                        ),
                        110u8,
                        100u8,
                        105u8,
                        110u8,
                    ),
                    103u8,
                    95u8,
                    114u8,
                    101u8,
                ),
                113u8,
                117u8,
                101u8,
                115u8,
            ),
            116u8,
            95u8,
            99u8,
            111u8,
        ),
        117u8,
        110u8,
        116u8,
        255u8,
    ) == 0x6861_57c5_2a73_53dau64) by (bit_vector);
}

/// The response with encoded metrics.
pub fn metrics_reply(encoded: Result<Vec<u8>, String>) -> (r: PlainReply)
    ensures
        match encoded {
            Ok(body) => r.is_document("text/plain; version=0.0.4"@, body@),
            Err(_) => r.is_text(500, "metrics encoding error"@),
        },
{
    match encoded {
        Ok(body) => PlainReply::document(text_format().as_str(), body),
        Err(_) => PlainReply::text(500, "metrics encoding error"),
    }
}

// ---------------------------------------------------------------------------
// Laws
// ---------------------------------------------------------------------------

/// A request adds one to its own series and leaves every other series as it
/// is.
pub proof fn law_request_is_counted_once(
    counts: Map<u64, (Seq<Seq<char>>, u64)>,
    method: Seq<char>,
    path: Seq<char>,
    code: u16,
    host: Seq<char>,
    other: u64,
)
    requires
        value_or_zero(counts, request_series(method, path, code, host)) < u64::MAX,
    ensures
        ({
            let after = one_request(counts, method, path, code, host);
            if other == request_series(method, path, code, host) {
                value_or_zero(after, other) == value_or_zero(counts, other) + 1
            } else {
                value_or_zero(after, other) == value_or_zero(counts, other)
            }
        }),
{
}

/// A request that is the first of its series comes up with method, path, status
/// code and host, in that order, and a count of one. The series keeps them.
pub proof fn law_new_series_show_their_labels(
    counts: Map<u64, (Seq<Seq<char>>, u64)>,
    method: Seq<char>,
    path: Seq<char>,
    code: u16,
    host: Seq<char>,
)
    ensures
        ({
            let s = series(method + path + text::decimal(code as nat) + host);
            let after = one_request(counts, method, path, code, host);
            let (labels, count) = after[s];
            &&& after.contains_key(s)
            &&& !counts.contains_key(s) ==> count == 1 && labels.len() == 4 && labels[0] == method
                && labels[1] == path && labels[2] == text::decimal(code as nat) && labels[3]
                == host
            &&& counts.contains_key(s) ==> labels == counts[s].0
            &&& counts.contains_key(s) && counts[s].1 < 0xffff_ffff_ffff_ffff ==> count
                == counts[s].1 + 1
        }),
{
}

/// The number of requests in flight is the one that was told last, under the
/// host; other series stay as they are.
pub proof fn law_last_number_in_flight_is_shown(
    values: Map<u64, (Seq<Seq<char>>, i64)>,
    host: Seq<char>,
    a: i64,
    b: i64,
    other: u64,
)
    ensures
        ({
            let after = pending_set(pending_set(values, host, a), host, b);
            let (labels, value) = after[series(host)];
            &&& after.contains_key(series(host))
            &&& value == b
            &&& !values.contains_key(series(host)) ==> labels.len() == 1 && labels[0] == host
            &&& values.contains_key(series(host)) ==> labels == values[series(host)].0
            &&& other != series(host) ==> after.contains_key(other) == values.contains_key(other)
            &&& other != series(host) && values.contains_key(other) ==> after[other]
                == values[other]
        }),
{
}

/// There is a name for each label of a request and for that of a number in
/// flight, in the order of the label values.
pub proof fn law_titles_name_the_labels()
    ensures
        ({
            let (name, help, labels) = request_title();
            &&& name == "keda_http_request_count"@ && help == "Total completed HTTP requests"@
            &&& labels.len() == 4 && labels[0] == "method"@ && labels[1] == "path"@ && labels[2]
                == "code"@ && labels[3] == "host"@
        }),
        ({
            let (name, help, labels) = pending_title();
            &&& name == "keda_http_pending_request_count"@ && help
                == "Current in-flight HTTP requests"@
            &&& labels.len() == 1 && labels[0] == "host"@
        }),
{
}

} // verus!
