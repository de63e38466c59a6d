use interceptor_rs::config::{parse_go_duration, read_go_duration, GoDuration};
use interceptor_rs::double::Double;
use interceptor_rs::text::chars_of;
use std::time::Duration;

fn std_of(d: Option<interceptor_rs::duration::Duration>) -> Option<Duration> {
    d.map(|d| Duration::new(d.secs, d.nanos))
}

#[test]
fn parse_durations() {
    assert_eq!(std_of(parse_go_duration("500ms")), Some(Duration::from_millis(500)));
    assert_eq!(std_of(parse_go_duration("1s")), Some(Duration::from_secs(1)));
    assert_eq!(std_of(parse_go_duration("20s")), Some(Duration::from_secs(20)));
    assert_eq!(std_of(parse_go_duration("1m")), Some(Duration::from_secs(60)));
    assert_eq!(std_of(parse_go_duration("1m30s")), Some(Duration::from_secs_f64(90.0)));
    assert_eq!(std_of(parse_go_duration("")), None);
}

/// The same computation in machine floating point. `Err` where no duration
/// can hold the number.
fn machine(s: &str) -> Result<Option<Duration>, ()> {
    fn secs(x: f64) -> Result<Option<Duration>, ()> {
        Duration::try_from_secs_f64(x).map(Some).map_err(|_| ())
    }
    let s = s.trim();
    if s.is_empty() {
        return Ok(None);
    }
    if let Some(at) = s.find('m') {
        let rest = &s[at + 1..];
        if !rest.is_empty() && !rest.starts_with('s') {
            let mins: f64 = match s[..at].parse() {
                Ok(x) => x,
                Err(_) => return Ok(None),
            };
            if let Some(t) = rest.strip_suffix("ms") {
                return match t.parse::<f64>() {
                    Ok(ms) => secs(mins * 60.0 + ms / 1000.0),
                    Err(_) => Ok(None),
                };
            }
            if let Some(t) = rest.strip_suffix('s') {
                return match t.parse::<f64>() {
                    Ok(x) => secs(mins * 60.0 + x),
                    Err(_) => Ok(None),
                };
            }
        }
    }
    if let Some(ms) = s.strip_suffix("ms") {
        return Ok(ms.parse::<u64>().ok().map(Duration::from_millis));
    }
    let (num, factor) = if let Some(t) = s.strip_suffix('s') {
        (t, 1.0)
    } else if let Some(t) = s.strip_suffix('m') {
        (t, 60.0)
    } else {
        (s, 1.0)
    };
    match num.parse::<f64>() {
        Ok(x) => secs(x * factor),
        Err(_) => Ok(None),
    }
}

#[test]
fn durations_agree_with_machine_arithmetic() {
    for s in [
        "0.1s", "1.1s", "2.7s", "0.0000000005s", "0.0000000015s", "10000000.000000001s", "1e3s",
        "1.5e-3s", "-1s", "-0s", "1e30s", "inf", "nan", "-inf s", "+5", ".5", "5.", ".", "e5", "1e",
        "1e+", "1e400s", "1e-400s", "1m500ms", "1.5m0.25s", "-1m90s", "1m30", "1m30m", "m30s",
        "ms", "s", "m", "+12ms", "-12ms", "1.0ms", "18446744073709551615ms",
        "18446744073709551616ms", "18446744073709551615s", "18446744073709549568s",
        "18446744073709551616s", "0.99999999949999s", "0.9999999995s", "0.9999999996s", " 7s ",
        "\u{2003}7s\u{3000}", "7 s", "1m 5s", "INFs", "NaNm", "infinitys", "1E2", "00012.500s",
        "123456789012345678901234567890e-20s", "0.1m0.2s", "3.3333333333333333m", "1h", "x",
        "4.9e-324s", "1e-9s", "1.4999999999999999e-9s", "2.5e-9s", "4503599627370497.5s",
        "9007199254740993s", "1e99999999999999999999999999s", "1e-99999999999999999999999999s",
        "0e99999999999999999999999999s", "12345.678901234567891s", "0.3m0.7ms",
    ] {
        let got = match read_go_duration(s) {
            GoDuration::Absent => Ok(None),
            GoDuration::Value(d) => Ok(std_of(Some(d))),
            GoDuration::OutOfRange => Err(()),
        };
        assert_eq!(got, machine(s), "{s}");
    }
}

fn bits(s: &str) -> Option<u64> {
    Double::parse(&chars_of(s)).map(|d| d.to_bits())
}

#[test]
fn doubles_agree_with_machine_arithmetic() {
    let texts = [
        "0", "-0", "1", "-1", "0.1", "1e23", "8.5e22", "2.2250738585072014e-308",
        "2.2250738585072011e-308", "4.9e-324", "2.4e-324", "2.5e-324", "1.7976931348623157e308",
        "1.7976931348623159e308", "9007199254740993", "123456.789e-3", "3.141592653589793238462643",
        "60", "1000", "1e9", "inf", "-infinity", "1e-5", "5e-324", "0.30000000000000004",
    ];
    for a in texts {
        let x: f64 = a.parse().unwrap();
        assert_eq!(bits(a), Some(x.to_bits()), "{a}");
        for b in texts {
            let y: f64 = b.parse().unwrap();
            let p = Double::parse(&chars_of(a)).unwrap();
            let q = Double::parse(&chars_of(b)).unwrap();
            for (op, d, f) in [
                ("+", p.plus(q), x + y),
                ("-", p.plus(q.neg()), x - y),
                ("*", p.times(q), x * y),
                ("/", p.over(q), x / y),
            ] {
                if f.is_nan() {
                    assert_eq!(d, Double::NotANumber, "{a} {op} {b}");
                } else {
                    assert_eq!(d.to_bits(), f.to_bits(), "{a} {op} {b}");
                }
            }
        }
    }
    assert_eq!(Double::from_u64(u64::MAX).to_bits(), (u64::MAX as f64).to_bits());
}
