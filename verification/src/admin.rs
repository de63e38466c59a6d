//! The admin server: health probes, request counts, diagnosis, and profiling.

use vstd::prelude::*;

use crate::reply::PlainReply;
use crate::text;
use crate::text::{chars_of, find_char, parse_unsigned, prefix_at, same_text, slice_of, starts_with};

verus! {

/// What to do for a request.
pub enum AdminAction {
    /// Send this.
    Reply(PlainReply),
    /// Send the request counts, see [`json_reply`].
    Queue,
    /// Send the diagnostic counters, see [`json_reply`].
    Stats,
    /// Profile for this many seconds, see [`flamegraph_reply`].
    Flamegraph { seconds: u64 },
}

/// What stands behind `seconds=` in the first part of a query that begins with
/// it; parts are set apart by `&`.
pub open spec fn seconds_text(query: Seq<char>) -> Option<Seq<char>>
    decreases query.len(),
{
    let end = text::find(query, '&');
    let part = query.take(end);
    if text::has_prefix(part, "seconds="@) {
        Some(part.skip("seconds="@.len() as int))
    } else if end < 0 || end >= query.len() {
        None
    } else {
        seconds_text(query.skip(end + 1))
    }
}

/// How long to profile: as many seconds as the query says, five where it says
/// nothing that can be read, and no more than two minutes.
pub open spec fn profile_seconds(query: Option<&str>) -> u64 {
    match query {
        Some(q) => match seconds_text(q@) {
            Some(s) => match text::unsigned(s, u64::MAX as nat) {
                Ok(n) => if n > 120 {
                    120
                } else {
                    n as u64
                },
                Err(_) => 5,
            },
            None => 5,
        },
        None => 5,
    }
}

fn find_seconds(query: &str) -> (r: Option<Vec<char>>)
    ensures
        match r {
            Some(s) => seconds_text(query@) == Some(s@),
            None => seconds_text(query@) is None,
        },
{
    let v = chars_of(query);
    let n = v.len();
    let key = chars_of("seconds=");
    let mut from: usize = 0;
    assert(query@.skip(0) =~= query@);
    loop
        invariant
            v@ == query@,
            n == v@.len(),
            key@ == "seconds="@,
            from <= n,
            seconds_text(query@) == seconds_text(query@.skip(from as int)),
        decreases n - from,
    {
        let end = find_char(&v, '&', from);
        let ghost rest = query@.skip(from as int);
        proof {
            text::lemma_find_skip(query@, '&', from as int);
        }
        let part = slice_of(&v, from, end);
        assert(part@ =~= rest.take(end - from));
        assert(part@.skip(0) =~= part@);
        if prefix_at(&part, &key, 0) {
            let s = slice_of(&part, key.len(), part.len());
            assert(s@ =~= part@.skip(key@.len() as int));
            return Some(s);
        }
        if end == n {
            return None;
        }
        assert(rest.skip(end - from + 1) =~= query@.skip(end + 1));
        from = end + 1;
    }
}

/// How long to profile, from the query of a request.
pub fn flamegraph_seconds(query: Option<&str>) -> (n: u64)
    ensures
        n == profile_seconds(query),
        n <= 120,
{
    match query {
        Some(q) => match find_seconds(q) {
            Some(s) => match parse_unsigned(&s, u64::MAX) {
                Ok(n) => if n > 120 {
                    120
                } else {
                    n
                },
                Err(_) => 5,
            },
            None => 5,
        },
        None => 5,
    }
}

/// Whether an action is the one for a request: the probes are well once the
/// routing table has been built; the counts and the counters have paths of
/// their own; profiling has one where it is built in; all else is not found.
pub open spec fn is_action(
    a: AdminAction,
    path: Seq<char>,
    query: Option<&str>,
    synced: bool,
    profiling: bool,
) -> bool {
    if path == "/livez"@ || path == "/readyz"@ {
        a is Reply && if synced {
            a->Reply_0.is_text(200, "OK"@)
        } else {
            a->Reply_0.is_text(503, "Service Unavailable"@)
        }
    } else if path == "/queue"@ {
        a is Queue
    } else if path == "/debug/stats"@ {
        a is Stats
    } else if profiling && text::has_prefix(path, "/debug/pprof/flamegraph"@) {
        a is Flamegraph && a->seconds == profile_seconds(query)
    } else {
        a is Reply && a->Reply_0.is_text(404, "Not Found"@)
    }
}

/// What to do for a request.
pub fn handle(path: &str, query: Option<&str>, synced: bool, profiling: bool) -> (a: AdminAction)
    ensures
        is_action(a, path@, query, synced, profiling),
{
    if same_text(path, "/livez") || same_text(path, "/readyz") {
        if synced {
            AdminAction::Reply(PlainReply::text(200, "OK"))
        } else {
            AdminAction::Reply(PlainReply::text(503, "Service Unavailable"))
        }
    } else if same_text(path, "/queue") {
        AdminAction::Queue
    } else if same_text(path, "/debug/stats") {
        AdminAction::Stats
    } else if profiling && starts_with(path, "/debug/pprof/flamegraph") {
        AdminAction::Flamegraph { seconds: flamegraph_seconds(query) }
    } else {
        AdminAction::Reply(PlainReply::text(404, "Not Found"))
    }
}

/// Whether `r` is the response with a JSON document, or without one.
pub open spec fn is_json_reply(json: Option<Vec<u8>>, r: PlainReply) -> bool {
    match json {
        Some(body) => r.is_document("application/json"@, body@),
        None => r.is_text(500, "Internal Server Error"@),
    }
}

/// The response with a JSON document, or without one where it could not be
/// made.
pub fn json_reply(json: Option<Vec<u8>>) -> (r: PlainReply)
    ensures
        is_json_reply(json, r),
{
    match json {
        Some(body) => PlainReply::document("application/json", body),
        None => PlainReply::text(500, "Internal Server Error"),
    }
}

/// How profiling ended.
pub enum ProfileOutcome {
    /// With a picture.
    Svg(Vec<u8>),
    /// The profiler failed.
    Failed,
    /// The task that ran it did not end properly.
    Panicked,
}

/// Whether `r` is the response to a request for a profile.
pub open spec fn is_flamegraph_reply(outcome: ProfileOutcome, r: PlainReply) -> bool {
    match outcome {
        ProfileOutcome::Svg(svg) => r.is_document("image/svg+xml"@, svg@),
        ProfileOutcome::Failed => r.is_text(500, "profiling error"@),
        ProfileOutcome::Panicked => r.is_text(500, "profiling task panicked"@),
    }
}

/// The response to a request for a profile.
pub fn flamegraph_reply(outcome: ProfileOutcome) -> (r: PlainReply)
    ensures
        is_flamegraph_reply(outcome, r),
{
    match outcome {
        ProfileOutcome::Svg(svg) => PlainReply::document("image/svg+xml", svg),
        ProfileOutcome::Failed => PlainReply::text(500, "profiling error"),
        ProfileOutcome::Panicked => PlainReply::text(500, "profiling task panicked"),
    }
}

// ---------------------------------------------------------------------------
// Laws
// ---------------------------------------------------------------------------

/// The probes are well exactly where the routing table has been built.
pub proof fn law_probes_follow_the_table(
    a: AdminAction,
    path: Seq<char>,
    query: Option<&str>,
    synced: bool,
    profiling: bool,
)
    requires
        path == "/livez"@ || path == "/readyz"@,
        is_action(a, path, query, synced, profiling),
    ensures
        a is Reply,
        a->Reply_0.status == 200 <==> synced,
        a->Reply_0.status == 503 <==> !synced,
{
}

/// No request profiles for more than two minutes.
pub proof fn law_profiles_are_short(query: Option<&str>)
    ensures
        profile_seconds(query) <= 120,
{
}

/// Every path has its action, whatever the query is: the probes answer 200 or
/// 503, the counts and the counters are sent, profiling is done where it is
/// built in, and all else is answered 404.
pub proof fn law_every_path_has_its_action(
    a: AdminAction,
    path: Seq<char>,
    query: Option<&str>,
    synced: bool,
    profiling: bool,
    rest: Seq<char>,
)
    requires
        is_action(a, path, query, synced, profiling),
    ensures
        (path == "/livez"@ || path == "/readyz"@) && synced ==> a is Reply && a->Reply_0.status
            == 200 && a->Reply_0.body@ == vstd::utf8::encode_utf8("OK"@),
        (path == "/livez"@ || path == "/readyz"@) && !synced ==> a is Reply && a->Reply_0.status
            == 503 && a->Reply_0.body@ == vstd::utf8::encode_utf8("Service Unavailable"@),
        path == "/queue"@ ==> a is Queue,
        path == "/debug/stats"@ ==> a is Stats,
        profiling && path == "/debug/pprof/flamegraph"@ + rest ==> a is Flamegraph && a->seconds
            == profile_seconds(query),
        path != "/livez"@ && path != "/readyz"@ && path != "/queue"@ && path != "/debug/stats"@
            && (!profiling || !text::has_prefix(path, "/debug/pprof/flamegraph"@)) ==> a is Reply
            && a->Reply_0.status == 404 && a->Reply_0.body@ == vstd::utf8::encode_utf8(
            "Not Found"@,
        ),
        a is Reply ==> a->Reply_0.content_type is None,
{
    reveal_strlit("/livez");
    reveal_strlit("/readyz");
    reveal_strlit("/queue");
    reveal_strlit("/debug/stats");
    reveal_strlit("/debug/pprof/flamegraph");
    assert("/queue"@[1] == 'q' && "/livez"@[1] == 'l');
    assert("/readyz"@.len() == 7 && "/queue"@.len() == 6 && "/debug/stats"@.len() == 12);
    if path == "/debug/pprof/flamegraph"@ + rest {
        assert(path.take("/debug/pprof/flamegraph"@.len() as int) =~= "/debug/pprof/flamegraph"@);
        assert(path.len() >= 23);
    }
}

proof fn lemma_part(part: Seq<char>, rest: Seq<char>)
    requires
        !part.contains('&'),
    ensures
        text::find(part, '&') == part.len(),
        part.take(part.len() as int) == part,
        text::find(part + seq!['&'] + rest, '&') == part.len(),
        (part + seq!['&'] + rest).take(part.len() as int) == part,
        (part + seq!['&'] + rest).skip(part.len() as int + 1) == rest,
{
    text::lemma_find_from(part, '&', 0);
    let i = text::find(part, '&');
    if i < part.len() {
        assert(part[i] == '&');
    }
    let s = part + seq!['&'] + rest;
    text::lemma_find_from(s, '&', 0);
    let j = text::find(s, '&');
    assert(s[part.len() as int] == '&');
    if j < part.len() {
        assert(part[j] == s[j]);
    }
    assert(s.take(part.len() as int) =~= part);
    assert(s.skip(part.len() as int + 1) =~= rest);
}

/// The number behind `seconds=` is read from wherever it stands in a query; the
/// first counts.
pub proof fn law_seconds_are_found(part: Seq<char>, rest: Seq<char>, digits: Seq<char>)
    requires
        !part.contains('&'),
        !digits.contains('&'),
    ensures
        seconds_text("seconds="@ + digits) == Some(digits),
        seconds_text("seconds="@ + digits + seq!['&'] + rest) == Some(digits),
        !text::has_prefix(part, "seconds="@) ==> seconds_text(part) is None,
        !text::has_prefix(part, "seconds="@) ==> seconds_text(part + seq!['&'] + rest)
            == seconds_text(rest),
{
    reveal_strlit("seconds=");
    let key = "seconds="@;
    let named = key + digits;
    assert(!named.contains('&')) by {
        if named.contains('&') {
            let i = choose|i: int| 0 <= i < named.len() && named[i] == '&';
            if i >= key.len() {
                assert(digits[i - key.len()] == '&');
            }
        }
    }
    lemma_part(named, rest);
    assert(named.take(key.len() as int) =~= key);
    assert(named.skip(key.len() as int) =~= digits);
    lemma_part(part, rest);
}

/// Profiling takes as many seconds as the query says, two minutes at most; five
/// where it says nothing that can be read.
pub proof fn law_seconds_are_kept_up_to_two_minutes(query: Option<&str>, n: u64)
    ensures
        query is None ==> profile_seconds(query) == 5,
        query is Some && seconds_text(query->0@) is None ==> profile_seconds(query) == 5,
        query is Some && seconds_text(query->0@) is Some && text::unsigned(
            seconds_text(query->0@)->0,
            0xffff_ffff_ffff_ffff,
        ) is Err ==> profile_seconds(query) == 5,
        query is Some && seconds_text(query->0@) == Some(text::decimal(n as nat)) && n <= 120
            ==> profile_seconds(query) == n,
        query is Some && seconds_text(query->0@) == Some(text::decimal(n as nat)) && n > 120
            ==> profile_seconds(query) == 120,
{
    text::lemma_decimal(n as nat);
}

/// A document is sent as it is, with its type; without one the answer is 500.
pub proof fn law_documents_are_sent_as_they_are(
    json: Option<Vec<u8>>,
    outcome: ProfileOutcome,
    a: PlainReply,
    b: PlainReply,
)
    requires
        is_json_reply(json, a),
        is_flamegraph_reply(outcome, b),
    ensures
        json is Some ==> a.status == 200 && a.body@ == json->0@ && a.content_type is Some
            && a.content_type->0@ == "application/json"@,
        json is None ==> a.status == 500 && a.body@ == vstd::utf8::encode_utf8(
            "Internal Server Error"@,
        ),
        outcome is Svg ==> b.status == 200 && b.body@ == outcome->Svg_0@ && b.content_type is Some
            && b.content_type->0@ == "image/svg+xml"@,
        outcome is Failed ==> b.status == 500 && b.body@ == vstd::utf8::encode_utf8(
            "profiling error"@,
        ),
        outcome is Panicked ==> b.status == 500 && b.body@ == vstd::utf8::encode_utf8(
            "profiling task panicked"@,
        ),
{
}

} // verus!
