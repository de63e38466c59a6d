//! Configuration of the interceptor, read from environment variables.

use vstd::prelude::*;

use crate::double;
use crate::double::Double;
use crate::duration;
use crate::duration::Duration;
use crate::natural;
use crate::text;
use crate::text::IntError;

verus! {

/// All of the configuration.
#[derive(Clone, Debug)]
pub struct Config {
    pub proxy_port: u16,
    pub admin_port: u16,
    pub metrics_port: u16,
    pub connect_timeout: Duration,
    pub keep_alive: Duration,
    pub response_header_timeout: Duration,
    pub condition_wait_timeout: Duration,
    pub dns_cache_ttl: Duration,
    pub max_idle_conns_per_host: usize,
    pub force_http2: bool,
    pub tls_enabled: bool,
    pub watch_namespace: Option<String>,
    pub log_requests: bool,
}

/// What is wrong with the value of a variable.
#[derive(Clone, Copy, Debug, PartialEq, Eq, Structural)]
pub enum Defect {
    Int(IntError),
    /// Neither `true` nor `false`.
    Bool,
}

/// A variable whose value cannot be used.
#[derive(Clone, Debug)]
pub struct ConfigError {
    pub key: String,
    pub defect: Defect,
}

/// The words for a defect.
pub open spec fn defect_text(d: Defect) -> Seq<char> {
    match d {
        Defect::Int(IntError::Empty) => "cannot parse integer from empty string"@,
        Defect::Int(IntError::InvalidDigit) => "invalid digit found in string"@,
        Defect::Int(IntError::PosOverflow) => "number too large to fit in target type"@,
        Defect::Bool => "provided string was not `true` or `false`"@,
    }
}

impl ConfigError {
    /// `invalid value for <key>: <reason>`.
    pub fn message(&self) -> (s: String)
        ensures
            s@ == "invalid value for "@ + self.key@ + ": "@ + defect_text(self.defect),
    {
        let mut s = "invalid value for ".to_string();
        s.append(self.key.as_str());
        s.append(": ");
        let reason = match self.defect {
            Defect::Int(IntError::Empty) => "cannot parse integer from empty string",
            Defect::Int(IntError::InvalidDigit) => "invalid digit found in string",
            Defect::Int(IntError::PosOverflow) => "number too large to fit in target type",
            Defect::Bool => "provided string was not `true` or `false`",
        };
        s.append(reason);
        s
    }
}

// ---------------------------------------------------------------------------
// Durations
// ---------------------------------------------------------------------------

/// What a duration text denotes.
#[derive(Clone, Copy, Debug, PartialEq, Eq, Structural)]
pub enum GoDuration {
    /// No duration.
    Absent,
    Value(Duration),
    /// A number of seconds that no duration can hold: negative, too large,
    /// infinite, or no number.
    OutOfRange,
}

pub open spec fn of_secs(secs: Double) -> GoDuration {
    match duration::secs_to_nanos(secs) {
        Some(n) => GoDuration::Value(duration::of_nanos(n)),
        None => GoDuration::OutOfRange,
    }
}

pub open spec fn of_maybe_secs(secs: Option<Double>) -> GoDuration {
    match secs {
        Some(d) => of_secs(d),
        None => GoDuration::Absent,
    }
}

pub open spec fn integer(n: nat) -> Double {
    double::nearest(false, n, 1)
}

/// One number with one unit: `ms` for whole milliseconds, `s`, `m`, or none
/// for seconds.
pub open spec fn simple_duration(t: Seq<char>) -> GoDuration {
    if text::has_suffix(t, seq!['m', 's']) {
        match text::unsigned(t.take(t.len() - 2), u64::MAX as nat) {
            Ok(n) => GoDuration::Value(duration::of_nanos(n * 1_000_000)),
            Err(_) => GoDuration::Absent,
        }
    } else if text::has_suffix(t, seq!['s']) {
        of_maybe_secs(double::parse_double(t.drop_last()))
    } else if text::has_suffix(t, seq!['m']) {
        match double::parse_double(t.drop_last()) {
            Some(m) => of_secs(double::product(m, integer(60))),
            None => GoDuration::Absent,
        }
    } else {
        of_maybe_secs(double::parse_double(t))
    }
}

/// The duration that a text denotes: minutes followed by seconds or
/// milliseconds (`1m30s`, `1m500ms`), or one number with one unit.
pub open spec fn go_duration(s: Seq<char>) -> GoDuration {
    let t = text::trim(s);
    let at = text::find(t, 'm');
    let rest = t.skip(at + 1);
    if t.len() == 0 {
        GoDuration::Absent
    } else if at < t.len() && rest.len() > 0 && rest[0] != 's' {
        match double::parse_double(t.take(at)) {
            None => GoDuration::Absent,
            Some(mins) => {
                let base = double::product(mins, integer(60));
                if text::has_suffix(rest, seq!['m', 's']) {
                    match double::parse_double(rest.take(rest.len() - 2)) {
                        Some(ms) => of_secs(
                            double::sum(base, double::quotient(ms, integer(1000))),
                        ),
                        None => GoDuration::Absent,
                    }
                } else if text::has_suffix(rest, seq!['s']) {
                    match double::parse_double(rest.drop_last()) {
                        Some(secs) => of_secs(double::sum(base, secs)),
                        None => GoDuration::Absent,
                    }
                } else {
                    simple_duration(t)
                }
            },
        }
    } else {
        simple_duration(t)
    }
}

fn from_secs(secs: Double) -> (r: GoDuration)
    ensures
        r == of_secs(secs),
{
    match Duration::from_double(secs) {
        Some(d) => GoDuration::Value(d),
        None => GoDuration::OutOfRange,
    }
}

fn from_maybe_secs(secs: Option<Double>) -> (r: GoDuration)
    ensures
        r == of_maybe_secs(secs),
{
    match secs {
        Some(d) => from_secs(d),
        None => GoDuration::Absent,
    }
}

fn ends_with_char(v: &[char], c: char) -> (b: bool)
    ensures
        b == text::has_suffix(v@, seq![c]),
{
    let n = v.len();
    if n == 0 {
        return false;
    }
    assert(v@.skip(n - 1) =~= seq![v@[n - 1]]);
    assert(v@.skip(n - 1)[0] == v@[n - 1]);
    assert(seq![c][0] == c);
    v[n - 1] == c
}

fn ends_with_ms(v: &[char]) -> (b: bool)
    ensures
        b == text::has_suffix(v@, seq!['m', 's']),
{
    let n = v.len();
    if n < 2 {
        return false;
    }
    let ghost tail = v@.skip(n - 2);
    assert(tail[0] == v@[n - 2] && tail[1] == v@[n - 1]);
    let b = v[n - 2] == 'm' && v[n - 1] == 's';
    proof {
        if b {
            assert(tail =~= seq!['m', 's']);
        }
    }
    b
}

fn read_simple(t: &[char]) -> (r: GoDuration)
    ensures
        r == simple_duration(t@),
{
    let n = t.len();
    if ends_with_ms(t) {
        let digits = text::slice_of(t, 0, n - 2);
        assert(digits@ =~= t@.take(n - 2));
        return match text::parse_unsigned(&digits, u64::MAX) {
            Ok(ms) => GoDuration::Value(Duration::from_millis(ms)),
            Err(_) => GoDuration::Absent,
        };
    }
    if ends_with_char(t, 's') {
        let num = text::slice_of(t, 0, n - 1);
        assert(num@ =~= t@.drop_last());
        return from_maybe_secs(Double::parse(&num));
    }
    if ends_with_char(t, 'm') {
        let num = text::slice_of(t, 0, n - 1);
        assert(num@ =~= t@.drop_last());
        return match Double::parse(&num) {
            Some(m) => from_secs(m.times(Double::from_u64(60))),
            None => GoDuration::Absent,
        };
    }
    from_maybe_secs(Double::parse(t))
}

/// Reads a duration, and tells texts that denote none from numbers that no
/// duration can hold.
pub fn read_go_duration(s: &str) -> (r: GoDuration)
    ensures
        r == go_duration(s@),
{
    let t = text::trimmed(&text::chars_of(s));
    let n = t.len();
    if n == 0 {
        return GoDuration::Absent;
    }
    let at = text::find_char(&t, 'm', 0);
    if at < n && at + 1 < n && t[at + 1] != 's' {
        let rest = text::slice_of(&t, at + 1, n);
        assert(rest@ =~= t@.skip(at + 1));
        let head = text::slice_of(&t, 0, at);
        assert(head@ =~= t@.take(at as int));
        let mins = match Double::parse(&head) {
            Some(m) => m,
            None => return GoDuration::Absent,
        };
        let base = mins.times(Double::from_u64(60));
        let k = rest.len();
        if ends_with_ms(&rest) {
            let num = text::slice_of(&rest, 0, k - 2);
            assert(num@ =~= rest@.take(k - 2));
            return match Double::parse(&num) {
                Some(ms) => from_secs(base.plus(ms.over(Double::from_u64(1000)))),
                None => GoDuration::Absent,
            };
        }
        if ends_with_char(&rest, 's') {
            let num = text::slice_of(&rest, 0, k - 1);
            assert(num@ =~= rest@.drop_last());
            return match Double::parse(&num) {
                Some(secs) => from_secs(base.plus(secs)),
                None => GoDuration::Absent,
            };
        }
    }
    read_simple(&t)
}

/// Parses duration texts such as `500ms`, `1s`, `20s`, `1m` and `1m30s`. What
/// denotes a number that no duration can hold is not for this function; see
/// [`read_go_duration`].
pub fn parse_go_duration(s: &str) -> (r: Option<Duration>)
    requires
        go_duration(s@) != GoDuration::OutOfRange,
    ensures
        match r {
            Some(d) => go_duration(s@) == GoDuration::Value(d),
            None => go_duration(s@) == GoDuration::Absent,
        },
{
    match read_go_duration(s) {
        GoDuration::Value(d) => Some(d),
        _ => None,
    }
}

// ---------------------------------------------------------------------------
// Environment
// ---------------------------------------------------------------------------

/// Position `i` of `vars` or later: the value of the first variable named
/// `key`.
pub open spec fn value_from(vars: Seq<(String, String)>, key: Seq<char>, i: int) -> Option<
    Seq<char>,
>
    decreases vars.len() - i,
{
    if i < 0 || i >= vars.len() {
        None
    } else if vars[i].0@ == key {
        Some(vars[i].1@)
    } else {
        value_from(vars, key, i + 1)
    }
}

/// The value of the variable `key`.
pub open spec fn value(vars: Seq<(String, String)>, key: Seq<char>) -> Option<Seq<char>> {
    value_from(vars, key, 0)
}

/// An unsigned integer of at most `max`, or `default` where the variable is
/// not set.
pub open spec fn unsigned_or(
    vars: Seq<(String, String)>,
    key: Seq<char>,
    max: nat,
    default: nat,
) -> Result<nat, IntError> {
    match value(vars, key) {
        Some(v) => text::unsigned(v, max),
        None => Ok(default),
    }
}

/// `true` or `false`, or `default` where the variable is not set.
pub open spec fn bool_or(vars: Seq<(String, String)>, key: Seq<char>, default: bool) -> Option<
    bool,
> {
    match value(vars, key) {
        Some(v) => if v == "true"@ {
            Some(true)
        } else if v == "false"@ {
            Some(false)
        } else {
            None
        },
        None => Some(default),
    }
}

/// A duration; `default` where the variable is not set or denotes none.
pub open spec fn duration_or(
    vars: Seq<(String, String)>,
    key: Seq<char>,
    default: Duration,
) -> Duration {
    match value(vars, key) {
        Some(v) => match go_duration(v) {
            GoDuration::Value(d) => d,
            _ => default,
        },
        None => default,
    }
}

/// Whether the variable holds no number that a duration cannot hold.
pub open spec fn duration_fits(vars: Seq<(String, String)>, key: Seq<char>) -> bool {
    value(vars, key) matches Some(v) ==> go_duration(v) != GoDuration::OutOfRange
}

fn lookup<'a>(vars: &'a [(String, String)], key: &str) -> (r: Option<&'a String>)
    ensures
        match r {
            Some(v) => value(vars@, key@) == Some(v@),
            None => value(vars@, key@) is None,
        },
{
    let mut i: usize = 0;
    while i < vars.len()
        invariant
            i <= vars@.len(),
            value(vars@, key@) == value_from(vars@, key@, i as int),
        decreases vars@.len() - i,
    {
        if text::same_text(vars[i].0.as_str(), key) {
            return Some(&vars[i].1);
        }
        i += 1;
    }
    None
}

/// Reads an unsigned integer variable.
pub fn env_or(vars: &[(String, String)], key: &str, max: u64, default: u64) -> (r: Result<
    u64,
    ConfigError,
>)
    requires
        default <= max,
    ensures
        match r {
            Ok(n) => unsigned_or(vars@, key@, max as nat, default as nat) == Ok::<nat, IntError>(
                n as nat,
            ) && n <= max,
            Err(e) => e.key@ == key@ && e.defect is Int && unsigned_or(
                vars@,
                key@,
                max as nat,
                default as nat,
            ) == Err::<nat, IntError>(e.defect->Int_0),
        },
{
    match lookup(vars, key) {
        Some(v) => match text::parse_unsigned(&text::chars_of(v.as_str()), max) {
            Ok(n) => Ok(n),
            Err(d) => Err(ConfigError { key: key.to_string(), defect: Defect::Int(d) }),
        },
        None => Ok(default),
    }
}

/// Reads a variable that is `true` or `false`.
pub fn env_flag(vars: &[(String, String)], key: &str, default: bool) -> (r: Result<
    bool,
    ConfigError,
>)
    ensures
        match r {
            Ok(b) => bool_or(vars@, key@, default) == Some(b),
            Err(e) => e.key@ == key@ && e.defect == Defect::Bool && bool_or(
                vars@,
                key@,
                default,
            ) is None,
        },
{
    match lookup(vars, key) {
        Some(v) => {
            if text::same_text(v.as_str(), "true") {
                Ok(true)
            } else if text::same_text(v.as_str(), "false") {
                Ok(false)
            } else {
                Err(ConfigError { key: key.to_string(), defect: Defect::Bool })
            }
        },
        None => Ok(default),
    }
}

/// Reads a duration variable.
pub fn env_duration(vars: &[(String, String)], key: &str, default: Duration) -> (r: Duration)
    requires
        duration_fits(vars@, key@),
    ensures
        r == duration_or(vars@, key@, default),
{
    match lookup(vars, key) {
        Some(v) => match parse_go_duration(v.as_str()) {
            Some(d) => d,
            None => default,
        },
        None => default,
    }
}

/// The port that the variable `key` gives.
pub open spec fn port_or(vars: Seq<(String, String)>, key: Seq<char>, default: nat) -> Result<
    nat,
    IntError,
> {
    unsigned_or(vars, key, 0xffff, default)
}

pub open spec fn proxy_port(vars: Seq<(String, String)>) -> Result<nat, IntError> {
    port_or(vars, "KEDA_HTTP_PROXY_PORT"@, 8080)
}

pub open spec fn admin_port(vars: Seq<(String, String)>) -> Result<nat, IntError> {
    port_or(vars, "KEDA_HTTP_ADMIN_PORT"@, 9090)
}

pub open spec fn metrics_port(vars: Seq<(String, String)>) -> Result<nat, IntError> {
    port_or(vars, "KEDA_HTTP_OTEL_PROM_EXPORTER_PORT"@, 2223)
}

pub open spec fn max_idle(vars: Seq<(String, String)>) -> Result<nat, IntError> {
    unsigned_or(vars, "KEDA_HTTP_MAX_IDLE_CONNS_PER_HOST"@, usize::MAX as nat, 20)
}

/// Whether the three ports can be read.
pub open spec fn ports_ok(vars: Seq<(String, String)>) -> bool {
    proxy_port(vars) is Ok && admin_port(vars) is Ok && metrics_port(vars) is Ok
}

/// Whether no duration variable holds a number that a duration cannot hold.
pub open spec fn durations_fit(vars: Seq<(String, String)>) -> bool {
    &&& duration_fits(vars, "KEDA_HTTP_CONNECT_TIMEOUT"@)
    &&& duration_fits(vars, "KEDA_HTTP_KEEP_ALIVE"@)
    &&& duration_fits(vars, "KEDA_HTTP_RESPONSE_HEADER_TIMEOUT"@)
    &&& duration_fits(vars, "KEDA_HTTP_WORKLOAD_REPLICAS_TIMEOUT"@)
    &&& duration_fits(vars, "KEDA_HTTP_DNS_CACHE_TTL"@)
}

/// The first variable, in the order in which they are read, whose value
/// cannot be used.
pub open spec fn first_defect(vars: Seq<(String, String)>) -> Option<(Seq<char>, Defect)> {
    if proxy_port(vars) is Err {
        Some(("KEDA_HTTP_PROXY_PORT"@, Defect::Int(proxy_port(vars)->Err_0)))
    } else if admin_port(vars) is Err {
        Some(("KEDA_HTTP_ADMIN_PORT"@, Defect::Int(admin_port(vars)->Err_0)))
    } else if metrics_port(vars) is Err {
        Some(("KEDA_HTTP_OTEL_PROM_EXPORTER_PORT"@, Defect::Int(metrics_port(vars)->Err_0)))
    } else if max_idle(vars) is Err {
        Some(("KEDA_HTTP_MAX_IDLE_CONNS_PER_HOST"@, Defect::Int(max_idle(vars)->Err_0)))
    } else if bool_or(vars, "KEDA_HTTP_FORCE_HTTP2"@, false) is None {
        Some(("KEDA_HTTP_FORCE_HTTP2"@, Defect::Bool))
    } else if bool_or(vars, "KEDA_HTTP_PROXY_TLS_ENABLED"@, false) is None {
        Some(("KEDA_HTTP_PROXY_TLS_ENABLED"@, Defect::Bool))
    } else if bool_or(vars, "KEDA_HTTP_LOG_REQUESTS"@, false) is None {
        Some(("KEDA_HTTP_LOG_REQUESTS"@, Defect::Bool))
    } else {
        None
    }
}

/// Whether `c` is the configuration that the variables describe.
pub open spec fn describes(c: Config, vars: Seq<(String, String)>) -> bool {
    &&& first_defect(vars) is None
    &&& proxy_port(vars) == Ok::<nat, IntError>(c.proxy_port as nat)
    &&& admin_port(vars) == Ok::<nat, IntError>(c.admin_port as nat)
    &&& metrics_port(vars) == Ok::<nat, IntError>(c.metrics_port as nat)
    &&& c.connect_timeout == duration_or(
        vars,
        "KEDA_HTTP_CONNECT_TIMEOUT"@,
        duration::of_nanos(500_000_000),
    )
    &&& c.keep_alive == duration_or(
        vars,
        "KEDA_HTTP_KEEP_ALIVE"@,
        duration::of_nanos(1_000_000_000),
    )
    &&& c.response_header_timeout == duration_or(
        vars,
        "KEDA_HTTP_RESPONSE_HEADER_TIMEOUT"@,
        duration::of_nanos(500_000_000),
    )
    &&& c.condition_wait_timeout == duration_or(
        vars,
        "KEDA_HTTP_WORKLOAD_REPLICAS_TIMEOUT"@,
        duration::of_nanos(20_000_000_000),
    )
    &&& c.dns_cache_ttl == duration_or(
        vars,
        "KEDA_HTTP_DNS_CACHE_TTL"@,
        duration::of_nanos(30_000_000_000),
    )
    &&& max_idle(vars) == Ok::<nat, IntError>(c.max_idle_conns_per_host as nat)
    &&& bool_or(vars, "KEDA_HTTP_FORCE_HTTP2"@, false) == Some(c.force_http2)
    &&& bool_or(vars, "KEDA_HTTP_PROXY_TLS_ENABLED"@, false) == Some(
        c.tls_enabled,
    )
    &&& match c.watch_namespace {
        Some(ns) => value(vars, "KEDA_HTTP_WATCH_NAMESPACE"@) == Some(ns@),
        None => value(vars, "KEDA_HTTP_WATCH_NAMESPACE"@) is None,
    }
    &&& bool_or(vars, "KEDA_HTTP_LOG_REQUESTS"@, false) == Some(c.log_requests)
}

impl Config {
    /// The configuration that the variables `vars` of an environment describe.
    pub fn from_env(vars: &[(String, String)]) -> (r: Result<Config, ConfigError>)
        requires
            ports_ok(vars@) ==> durations_fit(vars@),
        ensures
            match r {
                Ok(c) => describes(c, vars@),
                Err(e) => first_defect(vars@) == Some((e.key@, e.defect)),
            },
    {
        let proxy_port = match env_or(vars, "KEDA_HTTP_PROXY_PORT", 0xffff, 8080) {
            Ok(n) => n as u16,
            Err(e) => return Err(e),
        };
        let admin_port = match env_or(vars, "KEDA_HTTP_ADMIN_PORT", 0xffff, 9090) {
            Ok(n) => n as u16,
            Err(e) => return Err(e),
        };
        let metrics_port = match env_or(vars, "KEDA_HTTP_OTEL_PROM_EXPORTER_PORT", 0xffff, 2223) {
            Ok(n) => n as u16,
            Err(e) => return Err(e),
        };
        let connect_timeout = env_duration(
            vars,
            "KEDA_HTTP_CONNECT_TIMEOUT",
            Duration::from_millis(500),
        );
        let keep_alive = env_duration(vars, "KEDA_HTTP_KEEP_ALIVE", Duration::from_secs(1));
        let response_header_timeout = env_duration(
            vars,
            "KEDA_HTTP_RESPONSE_HEADER_TIMEOUT",
            Duration::from_millis(500),
        );
        let condition_wait_timeout = env_duration(
            vars,
            "KEDA_HTTP_WORKLOAD_REPLICAS_TIMEOUT",
            Duration::from_secs(20),
        );
        let dns_cache_ttl = env_duration(
            vars,
            "KEDA_HTTP_DNS_CACHE_TTL",
            Duration::from_secs(30),
        );
        let max_idle_conns_per_host = match env_or(
            vars,
            "KEDA_HTTP_MAX_IDLE_CONNS_PER_HOST",
            usize::MAX as u64,
            20,
        ) {
            Ok(n) => n as usize,
            Err(e) => return Err(e),
        };
        let force_http2 = match env_flag(vars, "KEDA_HTTP_FORCE_HTTP2", false) {
            Ok(b) => b,
            Err(e) => return Err(e),
        };
        let tls_enabled = match env_flag(vars, "KEDA_HTTP_PROXY_TLS_ENABLED", false) {
            Ok(b) => b,
            Err(e) => return Err(e),
        };
        let watch_namespace = match lookup(vars, "KEDA_HTTP_WATCH_NAMESPACE") {
            Some(v) => Some(v.clone()),
            None => None,
        };
        let log_requests = match env_flag(vars, "KEDA_HTTP_LOG_REQUESTS", false) {
            Ok(b) => b,
            Err(e) => return Err(e),
        };
        Ok(
            Config {
                proxy_port,
                admin_port,
                metrics_port,
                connect_timeout,
                keep_alive,
                response_header_timeout,
                condition_wait_timeout,
                dns_cache_ttl,
                max_idle_conns_per_host,
                force_http2,
                tls_enabled,
                watch_namespace,
                log_requests,
            },
        )
    }

    /// Whether [`Config::from_env`] can be called: where the ports can be
    /// read, every duration variable must hold what a duration can hold.
    pub fn env_usable(vars: &[(String, String)]) -> (b: bool)
        ensures
            b == (ports_ok(vars@) ==> durations_fit(vars@)),
    {
        if env_or(vars, "KEDA_HTTP_PROXY_PORT", 0xffff, 8080).is_err() || env_or(
            vars,
            "KEDA_HTTP_ADMIN_PORT",
            0xffff,
            9090,
        ).is_err() || env_or(vars, "KEDA_HTTP_OTEL_PROM_EXPORTER_PORT", 0xffff, 2223).is_err() {
            return true;
        }
        fits(vars, "KEDA_HTTP_CONNECT_TIMEOUT") && fits(vars, "KEDA_HTTP_KEEP_ALIVE") && fits(
            vars,
            "KEDA_HTTP_RESPONSE_HEADER_TIMEOUT",
        ) && fits(vars, "KEDA_HTTP_WORKLOAD_REPLICAS_TIMEOUT") && fits(
            vars,
            "KEDA_HTTP_DNS_CACHE_TTL",
        )
    }
}

fn fits(vars: &[(String, String)], key: &str) -> (b: bool)
    ensures
        b == duration_fits(vars@, key@),
{
    match lookup(vars, key) {
        Some(v) => match read_go_duration(v.as_str()) {
            GoDuration::OutOfRange => false,
            _ => true,
        },
        None => true,
    }
}

// ---------------------------------------------------------------------------
// Laws
// ---------------------------------------------------------------------------

/// A whole number of milliseconds is read as such.
pub proof fn law_milliseconds_are_read(n: u64)
    ensures
        go_duration(text::decimal(n as nat) + seq!['m', 's']) == GoDuration::Value(
            duration::of_nanos(n as nat * 1_000_000),
        ),
{
    let digits = text::decimal(n as nat);
    let t = digits + seq!['m', 's'];
    text::lemma_decimal(n as nat);
    assert(text::is_digit(digits[0]));
    text::lemma_trim_nothing(t);
    text::lemma_find_behind_digits(digits, seq!['m', 's'], 'm');
    assert(t.skip(digits.len() as int + 1)[0] == 's');
    assert(t.skip(t.len() - 2) =~= seq!['m', 's']);
    assert(t.take(t.len() - 2) =~= digits);
}

/// A whole number of seconds is read as such, with or without its unit.
pub proof fn law_seconds_are_read(n: u64)
    requires
        n < 0x20_0000_0000_0000,
    ensures
        go_duration(text::decimal(n as nat) + seq!['s']) == GoDuration::Value(
            duration::of_nanos(n as nat * 1_000_000_000),
        ),
        go_duration(text::decimal(n as nat)) == GoDuration::Value(
            duration::of_nanos(n as nat * 1_000_000_000),
        ),
{
    let digits = text::decimal(n as nat);
    let t = digits + seq!['s'];
    text::lemma_decimal(n as nat);
    assert(text::is_digit(digits[0]));
    assert(text::is_digit(digits[digits.len() - 1]));
    duration::law_whole_seconds_are_exact(n as nat);
    double::law_integers_are_read(n as nat);

    text::lemma_trim_nothing(t);
    lemma_no_minutes(digits, seq!['s']);
    assert(t.skip(t.len() - 1) =~= seq!['s']);
    assert(t.drop_last() =~= digits);
    lemma_no_ms(t, 's');

    text::lemma_trim_nothing(digits);
    lemma_no_minutes(digits, Seq::empty());
    assert(digits + Seq::<char>::empty() =~= digits);
    let last = digits.last();
    lemma_no_ms(digits, last);
    assert(digits.skip(digits.len() - 1) =~= seq![last]);
}

proof fn lemma_no_minutes(digits: Seq<char>, rest: Seq<char>)
    requires
        text::all_digits(digits),
        forall|i: int| 0 <= i < rest.len() ==> #[trigger] rest[i] != 'm',
    ensures
        text::find(digits + rest, 'm') == (digits + rest).len(),
{
    let s = digits + rest;
    text::lemma_find_from(s, 'm', 0);
    let a = text::find(s, 'm');
    if a < s.len() {
        if a < digits.len() {
            assert(s[a] == digits[a]);
            assert(text::is_digit(digits[a]));
        } else {
            assert(s[a] == rest[a - digits.len()]);
        }
    }
}

/// What does not hold an `m` before its last character does not end in `ms`,
/// nor in any unit but its last character.
proof fn lemma_no_ms(t: Seq<char>, last: char)
    requires
        t.len() > 0,
        t.last() == last,
        text::find(t, 'm') == t.len(),
    ensures
        !text::has_suffix(t, seq!['m', 's']),
        last != 's' ==> !text::has_suffix(t, seq!['s']),
        last != 'm' ==> !text::has_suffix(t, seq!['m']),
{
    text::lemma_find_from(t, 'm', 0);
    if t.len() >= 2 {
        assert(t.skip(t.len() - 2)[0] == t[t.len() - 2]);
    }
    assert(t.skip(t.len() - 1)[0] == last);
}

/// Whole minutes are read as such, and so are whole minutes with whole seconds
/// behind them.
pub proof fn law_minutes_are_read(minutes: u64, secs: u64)
    requires
        minutes * 60 + secs < 0x20_0000_0000_0000,
    ensures
        go_duration(text::decimal(minutes as nat) + seq!['m']) == GoDuration::Value(
            duration::of_nanos(minutes as nat * 60 * 1_000_000_000),
        ),
        go_duration(
            text::decimal(minutes as nat) + seq!['m'] + text::decimal(secs as nat) + seq!['s'],
        ) == GoDuration::Value(
            duration::of_nanos((minutes as nat * 60 + secs as nat) * 1_000_000_000),
        ),
{
    lemma_minutes(minutes as nat);
    lemma_minutes_and_seconds(minutes as nat, secs as nat);
}

#[verifier::rlimit(30)]
proof fn lemma_minutes(m: nat)
    requires
        m * 60 < 0x20_0000_0000_0000,
    ensures
        go_duration(text::decimal(m) + seq!['m']) == GoDuration::Value(
            duration::of_nanos(m * 60 * 1_000_000_000),
        ),
{
    let a = text::decimal(m);
    text::lemma_decimal(m);
    assert(text::is_digit(a[0]));
    double::law_integers_are_read(m);
    double::law_integers_multiply_exactly(m, 60);
    duration::law_whole_seconds_are_exact(m * 60);
    let t = a + seq!['m'];
    text::lemma_trim_nothing(t);
    text::lemma_find_behind_digits(a, seq!['m'], 'm');
    assert(t.skip(t.len() - 1) =~= seq!['m']);
    assert(t.drop_last() =~= a);
    if t.len() >= 2 {
        assert(t.skip(t.len() - 2)[1] == 'm');
    }
}

#[verifier::rlimit(30)]
proof fn lemma_minutes_and_seconds(m: nat, n: nat)
    requires
        m * 60 + n < 0x20_0000_0000_0000,
    ensures
        go_duration(text::decimal(m) + seq!['m'] + text::decimal(n) + seq!['s'])
            == GoDuration::Value(duration::of_nanos((m * 60 + n) * 1_000_000_000)),
{
    let a = text::decimal(m);
    let b = text::decimal(n);
    text::lemma_decimal(m);
    text::lemma_decimal(n);
    assert(text::is_digit(a[0]));
    assert(text::is_digit(b[0]));
    double::law_integers_are_read(m);
    double::law_integers_are_read(n);
    double::law_integers_multiply_exactly(m, 60);
    double::law_integers_add_exactly(m * 60, n);
    duration::law_whole_seconds_are_exact(m * 60 + n);
    let u = a + seq!['m'] + b + seq!['s'];
    let rest = b + seq!['s'];
    assert(u =~= a + (seq!['m'] + rest));
    text::lemma_trim_nothing(u);
    text::lemma_find_behind_digits(a, seq!['m'] + rest, 'm');
    assert(u.skip(a.len() as int + 1) =~= rest);
    assert(rest[0] == b[0]);
    assert(u.take(a.len() as int) =~= a);
    assert(rest.skip(rest.len() - 2)[0] == b[b.len() - 1]);
    assert(text::is_digit(b[b.len() - 1]));
    assert(rest.skip(rest.len() - 1) =~= seq!['s']);
    assert(rest.drop_last() =~= b);
}

/// Whether no variable is called `key`.
pub open spec fn unset(vars: Seq<(String, String)>, key: Seq<char>) -> bool {
    forall|i: int| 0 <= i < vars.len() ==> (#[trigger] vars[i]).0@ != key
}

/// Whether `v` is the value of the first variable that is called `key`.
pub open spec fn sets(vars: Seq<(String, String)>, key: Seq<char>, v: Seq<char>) -> bool {
    exists|i: int|
        0 <= i < vars.len() && (#[trigger] vars[i]).0@ == key && vars[i].1@ == v && forall|j: int|
            0 <= j < i ==> (#[trigger] vars[j]).0@ != key
}

/// The first variable of a name counts, and no other.
pub proof fn law_first_variable_of_a_name_counts(
    vars: Seq<(String, String)>,
    key: Seq<char>,
    v: Seq<char>,
)
    ensures
        unset(vars, key) <==> value(vars, key) is None,
        sets(vars, key, v) <==> value(vars, key) == Some(v),
{
    lemma_value_from(vars, key, v, 0);
}

proof fn lemma_value_from(
    vars: Seq<(String, String)>,
    key: Seq<char>,
    v: Seq<char>,
    i: int,
)
    requires
        0 <= i <= vars.len(),
        forall|j: int| 0 <= j < i ==> (#[trigger] vars[j]).0@ != key,
    ensures
        unset(vars, key) <==> value_from(vars, key, i) is None,
        sets(vars, key, v) <==> value_from(vars, key, i) == Some(v),
    decreases vars.len() - i,
{
    if i < vars.len() {
        if vars[i].0@ != key {
            lemma_value_from(vars, key, v, i + 1);
        } else if sets(vars, key, v) {
            let k = choose|k: int|
                0 <= k < vars.len() && (#[trigger] vars[k]).0@ == key && vars[k].1@ == v
                    && forall|j: int| 0 <= j < k ==> (#[trigger] vars[j]).0@ != key;
            assert(k == i);
        }
    }
}

/// What is not set has its default.
pub proof fn law_unset_variables_have_their_defaults(c: Config, vars: Seq<(String, String)>)
    requires
        describes(c, vars),
    ensures
        unset(vars, "KEDA_HTTP_PROXY_PORT"@) ==> c.proxy_port == 8080,
        unset(vars, "KEDA_HTTP_ADMIN_PORT"@) ==> c.admin_port == 9090,
        unset(vars, "KEDA_HTTP_OTEL_PROM_EXPORTER_PORT"@) ==> c.metrics_port == 2223,
        unset(vars, "KEDA_HTTP_MAX_IDLE_CONNS_PER_HOST"@) ==> c.max_idle_conns_per_host == 20,
        unset(vars, "KEDA_HTTP_CONNECT_TIMEOUT"@)
            ==> c.connect_timeout.secs * 1_000_000_000 + c.connect_timeout.nanos == 500_000_000,
        unset(vars, "KEDA_HTTP_KEEP_ALIVE"@)
            ==> c.keep_alive.secs * 1_000_000_000 + c.keep_alive.nanos == 1_000_000_000,
        unset(vars, "KEDA_HTTP_RESPONSE_HEADER_TIMEOUT"@)
            ==> c.response_header_timeout.secs * 1_000_000_000
                + c.response_header_timeout.nanos == 500_000_000,
        unset(vars, "KEDA_HTTP_WORKLOAD_REPLICAS_TIMEOUT"@)
            ==> c.condition_wait_timeout.secs * 1_000_000_000
                + c.condition_wait_timeout.nanos == 20_000_000_000,
        unset(vars, "KEDA_HTTP_DNS_CACHE_TTL"@)
            ==> c.dns_cache_ttl.secs * 1_000_000_000 + c.dns_cache_ttl.nanos == 30_000_000_000,
        unset(vars, "KEDA_HTTP_FORCE_HTTP2"@) ==> !c.force_http2,
        unset(vars, "KEDA_HTTP_PROXY_TLS_ENABLED"@) ==> !c.tls_enabled,
        unset(vars, "KEDA_HTTP_LOG_REQUESTS"@) ==> !c.log_requests,
        unset(vars, "KEDA_HTTP_WATCH_NAMESPACE"@) ==> c.watch_namespace is None,
{
    assert forall|key: Seq<char>| #[trigger] unset(vars, key) implies value(vars, key) is None by {
        law_first_variable_of_a_name_counts(vars, key, key);
    }
}

/// A number counts as it is read, under its name.
pub proof fn law_set_numbers_count(c: Config, vars: Seq<(String, String)>, n: nat)
    requires
        describes(c, vars),
    ensures
        n <= 65535 && sets(vars, "KEDA_HTTP_PROXY_PORT"@, text::decimal(n)) ==> c.proxy_port == n,
        n <= 65535 && sets(vars, "KEDA_HTTP_ADMIN_PORT"@, text::decimal(n)) ==> c.admin_port == n,
        n <= 65535 && sets(vars, "KEDA_HTTP_OTEL_PROM_EXPORTER_PORT"@, text::decimal(n))
            ==> c.metrics_port == n,
        n <= usize::MAX && sets(vars, "KEDA_HTTP_MAX_IDLE_CONNS_PER_HOST"@, text::decimal(n))
            ==> c.max_idle_conns_per_host == n,
{
    text::lemma_decimal(n);
    law_first_variable_of_a_name_counts(vars, "KEDA_HTTP_PROXY_PORT"@, text::decimal(n));
    law_first_variable_of_a_name_counts(vars, "KEDA_HTTP_ADMIN_PORT"@, text::decimal(n));
    law_first_variable_of_a_name_counts(
        vars,
        "KEDA_HTTP_OTEL_PROM_EXPORTER_PORT"@,
        text::decimal(n),
    );
    law_first_variable_of_a_name_counts(
        vars,
        "KEDA_HTTP_MAX_IDLE_CONNS_PER_HOST"@,
        text::decimal(n),
    );
}

/// A duration counts as it is read, under its name; one that denotes none
/// leaves the default.
pub proof fn law_set_durations_count(c: Config, vars: Seq<(String, String)>, v: Seq<char>)
    requires
        describes(c, vars),
    ensures
        sets(vars, "KEDA_HTTP_CONNECT_TIMEOUT"@, v) && go_duration(v) is Value
            ==> c.connect_timeout == go_duration(v)->Value_0,
        sets(vars, "KEDA_HTTP_CONNECT_TIMEOUT"@, v) && go_duration(v) is Absent
            ==> c.connect_timeout.secs * 1_000_000_000
            + c.connect_timeout.nanos == 500_000_000,
        sets(vars, "KEDA_HTTP_KEEP_ALIVE"@, v) && go_duration(v) is Value
            ==> c.keep_alive == go_duration(v)->Value_0,
        sets(vars, "KEDA_HTTP_KEEP_ALIVE"@, v) && go_duration(v) is Absent
            ==> c.keep_alive.secs * 1_000_000_000
            + c.keep_alive.nanos == 1_000_000_000,
        sets(vars, "KEDA_HTTP_RESPONSE_HEADER_TIMEOUT"@, v) && go_duration(v) is Value
            ==> c.response_header_timeout == go_duration(v)->Value_0,
        sets(vars, "KEDA_HTTP_RESPONSE_HEADER_TIMEOUT"@, v) && go_duration(v) is Absent
            ==> c.response_header_timeout.secs * 1_000_000_000
            + c.response_header_timeout.nanos == 500_000_000,
        sets(vars, "KEDA_HTTP_WORKLOAD_REPLICAS_TIMEOUT"@, v) && go_duration(v) is Value
            ==> c.condition_wait_timeout == go_duration(v)->Value_0,
        sets(vars, "KEDA_HTTP_WORKLOAD_REPLICAS_TIMEOUT"@, v) && go_duration(v) is Absent
            ==> c.condition_wait_timeout.secs * 1_000_000_000
            + c.condition_wait_timeout.nanos == 20_000_000_000,
        sets(vars, "KEDA_HTTP_DNS_CACHE_TTL"@, v) && go_duration(v) is Value
            ==> c.dns_cache_ttl == go_duration(v)->Value_0,
        sets(vars, "KEDA_HTTP_DNS_CACHE_TTL"@, v) && go_duration(v) is Absent
            ==> c.dns_cache_ttl.secs * 1_000_000_000
            + c.dns_cache_ttl.nanos == 30_000_000_000,
{
    law_first_variable_of_a_name_counts(vars, "KEDA_HTTP_CONNECT_TIMEOUT"@, v);
    law_first_variable_of_a_name_counts(vars, "KEDA_HTTP_KEEP_ALIVE"@, v);
    law_first_variable_of_a_name_counts(vars, "KEDA_HTTP_RESPONSE_HEADER_TIMEOUT"@, v);
    law_first_variable_of_a_name_counts(vars, "KEDA_HTTP_WORKLOAD_REPLICAS_TIMEOUT"@, v);
    law_first_variable_of_a_name_counts(vars, "KEDA_HTTP_DNS_CACHE_TTL"@, v);
}

/// `true` and `false` count under their names, and the namespace to watch is
/// the one that is set.
pub proof fn law_set_flags_count(c: Config, vars: Seq<(String, String)>, v: Seq<char>)
    requires
        describes(c, vars),
    ensures
        sets(vars, "KEDA_HTTP_FORCE_HTTP2"@, "true"@) ==> c.force_http2,
        sets(vars, "KEDA_HTTP_FORCE_HTTP2"@, "false"@) ==> !c.force_http2,
        sets(vars, "KEDA_HTTP_PROXY_TLS_ENABLED"@, "true"@) ==> c.tls_enabled,
        sets(vars, "KEDA_HTTP_PROXY_TLS_ENABLED"@, "false"@) ==> !c.tls_enabled,
        sets(vars, "KEDA_HTTP_LOG_REQUESTS"@, "true"@) ==> c.log_requests,
        sets(vars, "KEDA_HTTP_LOG_REQUESTS"@, "false"@) ==> !c.log_requests,
        sets(vars, "KEDA_HTTP_WATCH_NAMESPACE"@, v) ==> c.watch_namespace is Some
            && c.watch_namespace->0@ == v,
{
    reveal_strlit("true");
    reveal_strlit("false");
    assert("true"@.len() != "false"@.len());
    law_first_variable_of_a_name_counts(vars, "KEDA_HTTP_FORCE_HTTP2"@, "true"@);
    law_first_variable_of_a_name_counts(vars, "KEDA_HTTP_PROXY_TLS_ENABLED"@, "true"@);
    law_first_variable_of_a_name_counts(vars, "KEDA_HTTP_LOG_REQUESTS"@, "true"@);
    law_first_variable_of_a_name_counts(vars, "KEDA_HTTP_FORCE_HTTP2"@, "false"@);
    law_first_variable_of_a_name_counts(vars, "KEDA_HTTP_PROXY_TLS_ENABLED"@, "false"@);
    law_first_variable_of_a_name_counts(vars, "KEDA_HTTP_LOG_REQUESTS"@, "false"@);
    law_first_variable_of_a_name_counts(vars, "KEDA_HTTP_WATCH_NAMESPACE"@, v);
}

/// The defect that is told is the first in the order of the variables: the
/// ports, which are at most 65535, the limit, and the flags, which are `true`
/// or `false`. Without a defect there is none.
pub proof fn law_first_defect_is_told(vars: Seq<(String, String)>)
    ensures
        ({
            let v0 = value(vars, "KEDA_HTTP_PROXY_PORT"@);
            let bad0 = (v0 is Some && text::unsigned(v0->0, 65535nat) is Err);
            let v1 = value(vars, "KEDA_HTTP_ADMIN_PORT"@);
            let bad1 = (v1 is Some && text::unsigned(v1->0, 65535nat) is Err);
            let v2 = value(vars, "KEDA_HTTP_OTEL_PROM_EXPORTER_PORT"@);
            let bad2 = (v2 is Some && text::unsigned(v2->0, 65535nat) is Err);
            let v3 = value(vars, "KEDA_HTTP_MAX_IDLE_CONNS_PER_HOST"@);
            let bad3 = (v3 is Some && text::unsigned(v3->0, usize::MAX as nat) is Err);
            let v4 = value(vars, "KEDA_HTTP_FORCE_HTTP2"@);
            let bad4 = (v4 is Some && v4->0 != "true"@ && v4->0 != "false"@);
            let v5 = value(vars, "KEDA_HTTP_PROXY_TLS_ENABLED"@);
            let bad5 = (v5 is Some && v5->0 != "true"@ && v5->0 != "false"@);
            let v6 = value(vars, "KEDA_HTTP_LOG_REQUESTS"@);
            let bad6 = (v6 is Some && v6->0 != "true"@ && v6->0 != "false"@);
            &&& bad0
                ==> first_defect(vars) == Some((
                    "KEDA_HTTP_PROXY_PORT"@, Defect::Int(text::unsigned(v0->0, 65535nat)->Err_0)))
            &&& !bad0 && bad1
                ==> first_defect(vars) == Some((
                    "KEDA_HTTP_ADMIN_PORT"@, Defect::Int(text::unsigned(v1->0, 65535nat)->Err_0)))
            &&& !bad0 && !bad1 && bad2
                ==> first_defect(vars) == Some((
                    "KEDA_HTTP_OTEL_PROM_EXPORTER_PORT"@,
                    Defect::Int(text::unsigned(v2->0, 65535nat)->Err_0)))
            &&& !bad0 && !bad1 && !bad2 && bad3
                ==> first_defect(vars) == Some((
                    "KEDA_HTTP_MAX_IDLE_CONNS_PER_HOST"@,
                    Defect::Int(text::unsigned(v3->0, usize::MAX as nat)->Err_0)))
            &&& !bad0 && !bad1 && !bad2 && !bad3 && bad4
                ==> first_defect(vars) == Some(("KEDA_HTTP_FORCE_HTTP2"@, Defect::Bool))
            &&& !bad0 && !bad1 && !bad2 && !bad3 && !bad4 && bad5
                ==> first_defect(vars) == Some(("KEDA_HTTP_PROXY_TLS_ENABLED"@, Defect::Bool))
            &&& !bad0 && !bad1 && !bad2 && !bad3 && !bad4 && !bad5 && bad6
                ==> first_defect(vars) == Some(("KEDA_HTTP_LOG_REQUESTS"@, Defect::Bool))
            &&& !bad0 && !bad1 && !bad2 && !bad3 && !bad4 && !bad5 && !bad6
                ==> first_defect(vars) is None
        }),
{
}

/// White space around a duration does not matter.
pub proof fn law_durations_are_trimmed(s: Seq<char>)
    ensures
        go_duration(s) == go_duration(text::trim(s)),
{
    let t = text::trim(s);
    let (lo, hi) = text::law_only_white_space_is_trimmed(s);
    if t.len() > 0 {
        assert(t[0] == s[lo]);
        assert(t.last() == s[hi - 1]);
        text::lemma_trim_nothing(t);
    } else {
        assert(text::trim(t) =~= t);
    }
}

/// Whole minutes with whole seconds in milliseconds behind them are read as
/// such.
#[verifier::rlimit(60)]
pub proof fn law_minutes_and_milliseconds_are_read(m: nat, n: nat)
    requires
        m * 60 + n < 0x20_0000_0000_0000,
        n * 1000 < 0x20_0000_0000_0000,
    ensures
        go_duration(text::decimal(m) + seq!['m'] + text::decimal(n * 1000) + seq!['m', 's'])
            == GoDuration::Value(duration::of_nanos((m * 60 + n) * 1_000_000_000)),
{
    let a = text::decimal(m);
    let b = text::decimal(n * 1000);
    text::lemma_decimal(m);
    text::lemma_decimal(n * 1000);
    assert(text::is_digit(a[0]));
    assert(text::is_digit(b[0]));
    double::law_integers_are_read(m);
    double::law_integers_are_read(n * 1000);
    double::law_integers_multiply_exactly(m, 60);
    double::law_quotients_of_integers_are_nearest(n * 1000, 1000);
    double::law_rounding_ignores_common_factors(false, n, 1, 1000);
    double::law_integers_add_exactly(m * 60, n);
    duration::law_whole_seconds_are_exact(m * 60 + n);
    let u = a + seq!['m'] + b + seq!['m', 's'];
    let rest = b + seq!['m', 's'];
    assert(u =~= a + (seq!['m'] + rest));
    text::lemma_trim_nothing(u);
    text::lemma_find_behind_digits(a, seq!['m'] + rest, 'm');
    assert(u.skip(a.len() as int + 1) =~= rest);
    assert(rest[0] == b[0]);
    assert(u.take(a.len() as int) =~= a);
    assert(rest.skip(rest.len() - 2) =~= seq!['m', 's']);
    assert(rest.take(rest.len() - 2) =~= b);
}

/// A text without anything, or with a unit alone, denotes no duration.
pub proof fn law_units_alone_are_no_duration(s: Seq<char>)
    requires
        text::trim(s).len() == 0 || text::trim(s) == seq!['s'] || text::trim(s) == seq!['m', 's']
            || text::trim(s) == seq!['m'],
    ensures
        go_duration(s) == GoDuration::Absent,
{
    let t = text::trim(s);
    if t.len() > 0 {
        text::lemma_find_from(t, 'm', 0);
        let e = Seq::<char>::empty();
        assert(t.drop_last() == e || t.take(t.len() - 2) == e);
        text::lemma_find_from(e, 'e', 0);
        text::lemma_find_from(e, 'E', 0);
        text::lemma_find_from(e, '.', 0);
        assert(e.take(0) =~= e);
        assert(double::number(e) is None);
        assert(!double::spells(e, seq!['i', 'n', 'f']));
        assert(double::parse_double(e) is None);
        assert(t.skip(t.len() - 1) =~= seq![t.last()]);
        if t.len() == 2 {
            assert(t.skip(0) =~= t);
            assert(t.skip(1)[0] == 's');
        }
    }
}

/// `1m` is a minute, and `1s` a second.
#[verifier::spinoff_prover]
#[verifier::rlimit(60)]
pub proof fn lemma_one_minute_and_one_second()
    ensures
        go_duration("1m"@) == GoDuration::Value(Duration { secs: 60, nanos: 0 }),
        go_duration("1s"@) == GoDuration::Value(Duration { secs: 1, nanos: 0 }),
{
    reveal_strlit("1m");
    reveal_strlit("1s");
    assert(text::decimal(1) =~= seq!['1']);
    assert("1m"@ =~= text::decimal(1) + seq!['m']);
    assert("1s"@ =~= text::decimal(1) + seq!['s']);
    law_minutes_are_read(1, 0);
    law_seconds_are_read(1);
    assert(duration::of_nanos(1 * 60 * 1_000_000_000) == (Duration { secs: 60, nanos: 0 }));
    assert(duration::of_nanos(1 * 1_000_000_000) == (Duration { secs: 1, nanos: 0 }));
}

/// Seconds and minutes may have a fraction; the seconds may go without their
/// unit.
#[verifier::spinoff_prover]
#[verifier::rlimit(60)]
pub proof fn law_fractions_of_seconds_are_read(whole: Seq<char>, fraction: Seq<char>)
    requires
        whole.len() > 0,
        fraction.len() > 0,
        forall|i: int| 0 <= i < whole.len() ==> '0' <= #[trigger] whole[i] <= '9',
        forall|i: int| 0 <= i < fraction.len() ==> '0' <= #[trigger] fraction[i] <= '9',
    ensures
        ({
            let number = whole + seq!['.'] + fraction;
            let value = double::nearest(
                false,
                text::digits_value(whole + fraction),
                natural::pow10(fraction.len()),
            );
            &&& go_duration(number) == of_secs(value)
            &&& go_duration(number + seq!['s']) == of_secs(value)
            &&& go_duration(number + seq!['m']) == of_secs(
                double::product(value, double::nearest(false, 60, 1)),
            )
        }),
{
    let number = whole + seq!['.'] + fraction;
    double::law_fractions_are_read(whole, fraction);
    assert forall|i: int| 0 <= i < number.len() implies #[trigger] number[i] != 'm' && number[i]
        != 's' && !text::is_space(number[i]) by {
        if i < whole.len() {
            assert(number[i] == whole[i]);
        } else if i > whole.len() {
            assert(number[i] == fraction[i - whole.len() - 1]);
        }
    }
    assert(!text::is_space(number[0]) && !text::is_space(number[number.len() - 1]));
    text::lemma_trim_nothing(number);
    lemma_no_m(number);
    lemma_no_ms(number, number.last());
    assert(number.skip(number.len() - 1) =~= seq![number.last()]);
    assert(number[number.len() - 1] != 's');

    let t = number + seq!['s'];
    assert(t[0] == number[0]);
    text::lemma_trim_nothing(t);
    assert forall|i: int| 0 <= i < t.len() implies #[trigger] t[i] != 'm' by {
        if i < number.len() {
            assert(t[i] == number[i]);
        }
    }
    lemma_no_m(t);
    lemma_no_ms(t, 's');
    assert(t.skip(t.len() - 1) =~= seq!['s']);
    assert(t.drop_last() =~= number);

    let u = number + seq!['m'];
    assert(u[0] == number[0]);
    text::lemma_trim_nothing(u);
    text::lemma_find_from(u, 'm', 0);
    assert(text::find(u, 'm') == number.len()) by {
        let a = text::find(u, 'm');
        assert(u[number.len() as int] == 'm');
        if a < number.len() {
            assert(u[a] == number[a]);
        }
    }
    assert(u.skip(u.len() - 1) =~= seq!['m']);
    assert(u.drop_last() =~= number);
    assert(u.skip(u.len() - 2)[1] == 'm');
}

proof fn lemma_no_m(t: Seq<char>)
    requires
        forall|i: int| 0 <= i < t.len() ==> #[trigger] t[i] != 'm',
    ensures
        text::find(t, 'm') == t.len(),
{
    text::lemma_find_from(t, 'm', 0);
    if text::find(t, 'm') < t.len() {
        assert(t[text::find(t, 'm')] == 'm');
    }
}

/// A number of seconds is the span nearest to it, and out of range where there
/// is none.
pub proof fn law_numbers_without_a_span_are_out_of_range(d: Double)
    ensures
        of_secs(d) is OutOfRange <==> duration::secs_to_nanos(d) is None,
        duration::secs_to_nanos(d) is Some ==> of_secs(d) is Value && of_secs(d)->Value_0.total()
            == duration::secs_to_nanos(d)->0,
{
    if duration::secs_to_nanos(d) is Some {
        duration::law_spans_are_finite_and_not_negative(d);
        duration::law_spans_keep_their_nanoseconds(duration::secs_to_nanos(d)->0);
    }
}

/// The message about a variable names it and says why its value cannot be used.
pub proof fn law_messages_name_the_variable(e: ConfigError, s: String)
    requires
        call_ensures(ConfigError::message, (&e,), s),
    ensures
        s@ == "invalid value for "@ + e.key@ + ": "@ + defect_text(e.defect),
        text::contains_text(s@, e.key@),
        text::contains_text(s@, defect_text(e.defect)),
        e.defect == Defect::Int(IntError::Empty) ==> text::contains_text(
            s@,
            "cannot parse integer from empty string"@,
        ),
        e.defect == Defect::Int(IntError::InvalidDigit) ==> text::contains_text(
            s@,
            "invalid digit found in string"@,
        ),
        e.defect == Defect::Int(IntError::PosOverflow) ==> text::contains_text(
            s@,
            "number too large to fit in target type"@,
        ),
        e.defect == Defect::Bool ==> text::contains_text(
            s@,
            "provided string was not `true` or `false`"@,
        ),
{
    let a = "invalid value for "@;
    let b = ": "@ + defect_text(e.defect);
    text::law_texts_contain_their_parts(a, e.key@, b);
    assert(a + e.key@ + b =~= s@);
    text::law_texts_contain_their_parts(
        a + e.key@ + ": "@,
        defect_text(e.defect),
        Seq::<char>::empty(),
    );
    assert(a + e.key@ + ": "@ + defect_text(e.defect) + Seq::<char>::empty() =~= s@);
}

} // verus!
