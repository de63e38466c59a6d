//! HTTP on the wire: the head of a forwarded request, and the head of the
//! response to it.

use bytes::BytesMut;
use http::{HeaderMap, HeaderValue};
use vstd::prelude::*;

use crate::body::BodyFraming;
use crate::buffer;
use crate::buffer::{buffer_clear, buffer_split_off};
use crate::chunked;
use crate::chunked::ChunkState;
use crate::fields;
use crate::fields::{
    header_append, header_get, header_list, header_map, header_name, header_text, header_value,
    small_letter, text_value, MAX_FIELDS,
};
use crate::text;
use crate::text::{chars_of, parse_unsigned, rfind_char, same_text, slice_of, trimmed};

verus! {

// ---------------------------------------------------------------------------
// Request heads
// ---------------------------------------------------------------------------

/// The bytes of a text.
pub open spec fn utf8(s: Seq<char>) -> Seq<u8> {
    vstd::utf8::encode_utf8(s)
}

/// Whether a field speaks of one connection alone, and not of the request.
pub open spec fn hop_by_hop(name: Seq<char>) -> bool {
    ||| name == "connection"@
    ||| name == "proxy-connection"@
    ||| name == "keep-alive"@
    ||| name == "proxy-authenticate"@
    ||| name == "proxy-authorization"@
    ||| name == "te"@
    ||| name == "trailer"@
    ||| name == "transfer-encoding"@
    ||| name == "upgrade"@
}

/// Whether a field is left out when a request is forwarded: the host and the
/// fields that say where the request came from are set anew, and what speaks of
/// the connection to the client ends here.
pub open spec fn left_out(name: Seq<char>) -> bool {
    ||| name == "host"@
    ||| name == "x-forwarded-for"@
    ||| name == "x-forwarded-host"@
    ||| name == "x-forwarded-proto"@
    ||| hop_by_hop(name)
}

fn is_hop_by_hop(name: &str) -> (b: bool)
    ensures
        b == hop_by_hop(name@),
{
    same_text(name, "connection") || same_text(name, "proxy-connection") || same_text(
        name,
        "keep-alive",
    ) || same_text(name, "proxy-authenticate") || same_text(name, "proxy-authorization")
        || same_text(name, "te") || same_text(name, "trailer") || same_text(
        name,
        "transfer-encoding",
    ) || same_text(name, "upgrade")
}

fn is_left_out(name: &str) -> (b: bool)
    ensures
        b == left_out(name@),
{
    same_text(name, "host") || same_text(name, "x-forwarded-for") || same_text(
        name,
        "x-forwarded-host",
    ) || same_text(name, "x-forwarded-proto") || is_hop_by_hop(name)
}

/// One field of a head.
pub open spec fn field_line(name: Seq<char>, value: Seq<u8>) -> Seq<u8> {
    utf8(name) + utf8(": "@) + value + utf8("\r\n"@)
}

/// The fields that are forwarded, one line each, in order.
pub open spec fn field_lines(fs: Seq<(Seq<char>, Seq<u8>)>) -> Seq<u8>
    decreases fs.len(),
{
    if fs.len() == 0 {
        Seq::empty()
    } else if left_out(fs.last().0) {
        field_lines(fs.drop_last())
    } else {
        field_lines(fs.drop_last()) + field_line(fs.last().0, fs.last().1)
    }
}

/// The head of a forwarded request: the request line, the backend as host, the
/// fields of the request but for those left out, and where it came from.
pub open spec fn request_bytes(
    method: Seq<char>,
    target: Seq<char>,
    authority: Seq<char>,
    fs: Seq<(Seq<char>, Seq<u8>)>,
    peer: Seq<char>,
) -> Seq<u8> {
    utf8(method) + utf8(" "@) + utf8(target) + utf8(" HTTP/1.1\r\n"@) + field_line(
        "host"@,
        utf8(authority),
    ) + field_lines(fs) + field_line("x-forwarded-for"@, utf8(peer)) + field_line(
        "x-forwarded-host"@,
        utf8(fields::field_text(fs, "host"@)),
    ) + field_line("x-forwarded-proto"@, utf8("http"@)) + utf8("\r\n"@)
}

fn put_bytes(out: &mut Vec<u8>, b: &[u8])
    ensures
        final(out)@ == old(out)@ + b@,
{
    let n = b.len();
    for i in 0..n
        invariant
            n == b@.len(),
            out@ == old(out)@ + b@.take(i as int),
    {
        out.push(b[i]);
        assert(out@ =~= old(out)@ + b@.take(i + 1));
    }
    assert(b@.take(n as int) =~= b@);
}

fn put(out: &mut Vec<u8>, s: &str)
    ensures
        final(out)@ == old(out)@ + utf8(s@),
{
    put_bytes(out, s.as_bytes());
}

fn put_field(out: &mut Vec<u8>, name: &str, value: &[u8])
    ensures
        final(out)@ == old(out)@ + field_line(name@, value@),
{
    put(out, name);
    put(out, ": ");
    put_bytes(out, value);
    put(out, "\r\n");
    assert(out@ =~= old(out)@ + field_line(name@, value@));
}

/// The head of the request that goes to the backend.
pub fn request_head(
    method: &str,
    target: &str,
    authority: &str,
    headers: &HeaderMap<HeaderValue>,
    peer: &str,
) -> (out: Vec<u8>)
    ensures
        out@ == request_bytes(
            method@,
            target@,
            authority@,
            fields::header_fields(*headers),
            peer@,
        ),
{
    let ghost fs = fields::header_fields(*headers);
    let mut out: Vec<u8> = Vec::new();
    put(&mut out, method);
    put(&mut out, " ");
    put(&mut out, target);
    put(&mut out, " HTTP/1.1\r\n");
    put_field(&mut out, "host", authority.as_bytes());
    let ghost start = out@;
    assert(start =~= utf8(method@) + utf8(" "@) + utf8(target@) + utf8(" HTTP/1.1\r\n"@)
        + field_line("host"@, utf8(authority@)));

    let list = header_list(headers);
    assert(start =~= start + field_lines(fs.take(0)));
    for i in 0..list.len()
        invariant
            fs == fields::plain(list@),
            out@ == start + field_lines(fs.take(i as int)),
    {
        let f = &list[i];
        assert(fs.take(i + 1).drop_last() =~= fs.take(i as int));
        assert(fs[i as int] == (f.0@, f.1@));
        if !is_left_out(f.0.as_str()) {
            put_field(&mut out, f.0.as_str(), f.1.as_slice());
            assert(out@ =~= start + field_lines(fs.take(i + 1)));
        }
    }
    assert(fs.take(fs.len() as int) =~= fs);

    put_field(&mut out, "x-forwarded-for", peer.as_bytes());
    let host = header_text(headers, "host");
    put_field(&mut out, "x-forwarded-host", host.as_str().as_bytes());
    put_field(&mut out, "x-forwarded-proto", "http".as_bytes());
    put(&mut out, "\r\n");
    assert(out@ =~= request_bytes(method@, target@, authority@, fs, peer@));
    out
}

// ---------------------------------------------------------------------------
// Response heads
// ---------------------------------------------------------------------------

/// What the `httparse` crate makes of the bytes at the start of a response,
/// with room for `max` fields: nothing while they do not make a whole head;
/// else how long the head is, the status code, and the fields; or what is
/// wrong with them.
pub uninterp spec fn parsed_head(bytes: Seq<u8>, max: nat) -> Result<
    Option<(nat, Option<u16>, Seq<(Seq<char>, Seq<u8>)>)>,
    Seq<char>,
>;

/// A parsed head: its length, the status code, and the fields.
pub struct ParsedHead {
    pub len: usize,
    pub code: Option<u16>,
    pub fields: Vec<(String, Vec<u8>)>,
}

/// The outcome of parsing as plain values.
pub open spec fn plain_outcome(r: Result<Option<ParsedHead>, String>) -> Result<
    Option<(nat, Option<u16>, Seq<(Seq<char>, Seq<u8>)>)>,
    Seq<char>,
> {
    match r {
        Ok(Some(h)) => Ok(Some((h.len as nat, h.code, fields::plain(h.fields@)))),
        Ok(None) => Ok(None),
        Err(e) => Err(e@),
    }
}

/// Whether an outcome is one of parsing `n` bytes with room for `max` fields:
/// a head is no longer than the bytes, and has no more fields than that.
pub open spec fn within(r: Result<Option<ParsedHead>, String>, n: nat, max: nat) -> bool {
    match r {
        Ok(Some(h)) => h.len <= n && h.fields@.len() <= max,
        _ => true,
    }
}

/// `httparse::Response::parse` with room for `max` fields. The outcome depends
/// on the bytes and on that number alone. A complete head is a prefix of the
/// bytes, and has at most `max` fields. Nothing is said about which bytes make
/// a head.
#[verifier::external_body]
fn parse_response(buf: &BytesMut, max: usize) -> (r: Result<Option<ParsedHead>, String>)
    requires
        max <= MAX_FIELDS,
    ensures
        plain_outcome(r) == parsed_head(buffer::held(*buf), max as nat),
        within(r, buffer::held(*buf).len(), max as nat),
{
    let mut slots = vec![httparse::EMPTY_HEADER; max];
    let mut parsed = httparse::Response::new(&mut slots);
    match parsed.parse(buf) {
        Ok(httparse::Status::Complete(len)) => {
            let list = parsed.headers.iter().map(|h| (h.name.to_string(), h.value.to_vec()));
            Ok(Some(ParsedHead { len, code: parsed.code, fields: list.collect() }))
        },
        Ok(httparse::Status::Partial) => Ok(None),
        Err(e) => Err(e.to_string()),
    }
}

/// How many fields the head of a response may have.
pub const MAX_RESPONSE_FIELDS: usize = 64;

/// Why there is no response.
#[derive(Clone, Debug)]
pub enum HeadError {
    /// The connection was closed before the head was complete.
    Closed,
    /// The bytes are no HTTP response.
    Invalid(String),
}

impl HeadError {
    pub fn message(&self) -> (s: String)
        ensures
            s@ == (match *self {
                HeadError::Closed =>
                    "backend closed connection before sending response headers"@,
                HeadError::Invalid(e) => "invalid HTTP response from backend: "@ + e@,
            }),
    {
        match self {
            HeadError::Closed =>
                "backend closed connection before sending response headers".to_string(),
            HeadError::Invalid(e) => {
                let mut s = "invalid HTTP response from backend: ".to_string();
                s.append(e.as_str());
                s
            },
        }
    }
}

/// The head of a response, and the bytes that were read beyond it.
pub struct ResponseHead {
    pub status: u16,
    pub headers: HeaderMap<HeaderValue>,
    pub rest: BytesMut,
}

impl ResponseHead {
    pub open spec fn wf(self) -> bool {
        fields::header_fields(self.headers).len() <= MAX_RESPONSE_FIELDS
    }
}

/// The fields of a parsed head: those with a proper name and value, under the
/// normal form of the name, fields of one name together.
pub open spec fn proper_fields(list: Seq<(Seq<char>, Seq<u8>)>) -> Seq<(Seq<char>, Seq<u8>)>
    decreases list.len(),
{
    if list.len() == 0 {
        Seq::empty()
    } else {
        let before = proper_fields(list.drop_last());
        let (name, value) = list.last();
        match fields::field_name(name) {
            Some(n) => if fields::is_field_value(value) {
                fields::appended(before, n, value)
            } else {
                before
            },
            None => before,
        }
    }
}

/// The header map of a list of fields.
pub fn collect_fields(list: &Vec<(String, Vec<u8>)>) -> (h: HeaderMap<HeaderValue>)
    requires
        list@.len() <= MAX_FIELDS,
    ensures
        fields::header_fields(h) == proper_fields(fields::plain(list@)),
        fields::header_fields(h).len() <= list@.len(),
{
    let ghost fs = fields::plain(list@);
    let mut h = header_map(list.len());
    for i in 0..list.len()
        invariant
            list@.len() <= MAX_FIELDS,
            fs == fields::plain(list@),
            fields::header_fields(h) == proper_fields(fs.take(i as int)),
            fields::header_fields(h).len() <= i,
    {
        assert(fs.take(i + 1).drop_last() =~= fs.take(i as int));
        assert(fs[i as int] == (list@[i as int].0@, list@[i as int].1@));
        if let Some(name) = header_name(list[i].0.as_str()) {
            if let Some(value) = header_value(list[i].1.as_slice()) {
                proof {
                    fields::lemma_field_name_is_normal(list@[i as int].0@);
                    fields::lemma_append_at(fields::header_fields(h), name@);
                }
                header_append(&mut h, name.as_str(), value.as_slice());
            }
        }
    }
    assert(fs.take(fs.len() as int) =~= fs);
    h
}

/// What a buffer leads to, given the outcome of parsing it: more has to be read
/// (`None`), a head, or an error.
pub fn take_head(buf: &mut BytesMut, parsed: Result<Option<ParsedHead>, String>) -> (r: Result<
    Option<ResponseHead>,
    HeadError,
>)
    requires
        within(parsed, buffer::held(*old(buf)).len(), MAX_RESPONSE_FIELDS as nat),
    ensures
        is_taken(
            plain_outcome(parsed),
            buffer::held(*old(buf)),
            r,
            buffer::held(*final(buf)),
        ),
{
    match parsed {
        Ok(Some(head)) => {
            let status = match head.code {
                Some(c) => c,
                None => 502,
            };
            let headers = collect_fields(&head.fields);
            let rest = buffer_split_off(buf, head.len);
            buffer_clear(buf);
            Ok(Some(ResponseHead { status, headers, rest }))
        },
        Ok(None) => Ok(None),
        Err(e) => Err(HeadError::Invalid(e)),
    }
}

/// Whether a response was taken from the buffer as the outcome of parsing says:
/// the status (502 where there is none), the fields, and the bytes behind the
/// head; nothing is left then. Otherwise the buffer is as it was.
pub open spec fn is_taken(
    outcome: Result<Option<(nat, Option<u16>, Seq<(Seq<char>, Seq<u8>)>)>, Seq<char>>,
    bytes: Seq<u8>,
    r: Result<Option<ResponseHead>, HeadError>,
    left: Seq<u8>,
) -> bool {
    match outcome {
        Ok(Some((len, code, fs))) => {
            &&& r matches Ok(Some(head))
            &&& head.wf()
            &&& head.status == (match code {
                Some(c) => c,
                None => 502u16,
            })
            &&& fields::header_fields(head.headers) == proper_fields(fs)
            &&& buffer::held(head.rest) == bytes.skip(len as int)
            &&& left.len() == 0
        },
        Ok(None) => r matches Ok(None) && left == bytes,
        Err(e) => r matches Err(HeadError::Invalid(text)) && text@ == e && left == bytes,
    }
}

/// Takes the head of a response from the buffer, if it is complete.
pub fn read_response_head(buf: &mut BytesMut) -> (r: Result<Option<ResponseHead>, HeadError>)
    ensures
        is_taken(
            parsed_head(buffer::held(*old(buf)), MAX_RESPONSE_FIELDS as nat),
            buffer::held(*old(buf)),
            r,
            buffer::held(*final(buf)),
        ),
{
    let parsed = parse_response(buf, MAX_RESPONSE_FIELDS);
    take_head(buf, parsed)
}

/// The last of the transfer codings that a field value lists, in small letters.
pub open spec fn last_coding(s: Seq<char>) -> Seq<char> {
    text::trim(s.skip(text::rfind(s, ',') + 1)).map_values(|c: char| fields::small(c))
}

/// Whether the last transfer coding of a response is the chunked one.
pub open spec fn in_chunks(fs: Seq<(Seq<char>, Seq<u8>)>) -> bool {
    let i = fields::last_of(fs, "transfer-encoding"@);
    0 <= i && last_coding(fields::value_text_or_empty(fs[i].1)) == "chunked"@
}

/// Where the body of a response ends: after the number of bytes that the first
/// `content-length` field says, if it says one. Where there is no such field, a
/// body in chunks ends with the last of them.
pub open spec fn framing_of(fs: Seq<(Seq<char>, Seq<u8>)>) -> BodyFraming {
    match fields::value_of(fs, "content-length"@) {
        Some(v) => match fields::value_text(v) {
            Some(s) => match text::unsigned(s, u64::MAX as nat) {
                Ok(n) => BodyFraming::ContentLength { remaining: n as u64 },
                Err(_) => BodyFraming::ReadUntilClose,
            },
            None => BodyFraming::ReadUntilClose,
        },
        None => if in_chunks(fs) {
            BodyFraming::Chunked { state: chunked::start() }
        } else {
            BodyFraming::ReadUntilClose
        },
    }
}

fn is_chunked(value: &[u8]) -> (b: bool)
    ensures
        b == (last_coding(fields::value_text_or_empty(value@)) == "chunked"@),
{
    let codings = match text_value(value) {
        Some(s) => s,
        None => String::new(),
    };
    assert(codings@ =~= fields::value_text_or_empty(value@));
    let list = chars_of(codings.as_str());
    let start: usize = match rfind_char(&list, ',') {
        Some(i) => i + 1,
        None => 0,
    };
    let coding = trimmed(&slice_of(&list, start, list.len()));
    assert(list@.subrange(start as int, list@.len() as int) =~= list@.skip(start as int));
    let ghost lowered = coding@.map_values(|c: char| fields::small(c));
    let chunked = chars_of("chunked");
    if coding.len() != chunked.len() {
        assert(lowered.len() != chunked@.len());
        return false;
    }
    for i in 0..coding.len()
        invariant
            coding@.len() == chunked@.len(),
            chunked@ == "chunked"@,
            lowered == coding@.map_values(|c: char| fields::small(c)),
            lowered == last_coding(fields::value_text_or_empty(value@)),
            forall|j: int| 0 <= j < i ==> lowered[j] == #[trigger] chunked@[j],
    {
        if small_letter(coding[i]) != chunked[i] {
            assert(lowered[i as int] != chunked@[i as int]);
            return false;
        }
    }
    assert(lowered =~= chunked@);
    true
}

fn comes_in_chunks(headers: &HeaderMap<HeaderValue>) -> (b: bool)
    ensures
        b == in_chunks(fields::header_fields(*headers)),
{
    let ghost fs = fields::header_fields(*headers);
    let list = header_list(headers);
    let mut n = list.len();
    assert(fs.take(n as int) =~= fs);
    while n > 0
        invariant
            n <= list@.len(),
            fs == fields::header_fields(*headers),
            fs == fields::plain(list@),
            fields::last_of(fs, "transfer-encoding"@) == fields::last_of(
                fs.take(n as int),
                "transfer-encoding"@,
            ),
        decreases n,
    {
        assert(fs.take(n as int).drop_last() =~= fs.take(n - 1));
        assert(fs[n - 1] == (list@[n - 1].0@, list@[n - 1].1@));
        if same_text(list[n - 1].0.as_str(), "transfer-encoding") {
            return is_chunked(list[n - 1].1.as_slice());
        }
        n -= 1;
    }
    false
}

pub fn body_framing(headers: &HeaderMap<HeaderValue>) -> (f: BodyFraming)
    ensures
        f == framing_of(fields::header_fields(*headers)),
{
    let value = match header_get(headers, "content-length") {
        Some(v) => v,
        None => {
            return if comes_in_chunks(headers) {
                BodyFraming::Chunked { state: ChunkState::new() }
            } else {
                BodyFraming::ReadUntilClose
            };
        },
    };
    match text_value(value.as_slice()) {
        Some(s) => {
            let digits = chars_of(s.as_str());
            match parse_unsigned(&digits, u64::MAX) {
                Ok(n) => BodyFraming::ContentLength { remaining: n },
                Err(_) => BodyFraming::ReadUntilClose,
            }
        },
        None => BodyFraming::ReadUntilClose,
    }
}

// ---------------------------------------------------------------------------
// Laws
// ---------------------------------------------------------------------------

/// The fields that are forwarded.
pub open spec fn forwarded(fs: Seq<(Seq<char>, Seq<u8>)>) -> Seq<(Seq<char>, Seq<u8>)>
    decreases fs.len(),
{
    if fs.len() == 0 {
        Seq::empty()
    } else if left_out(fs.last().0) {
        forwarded(fs.drop_last())
    } else {
        forwarded(fs.drop_last()).push(fs.last())
    }
}

/// The fields that are forwarded are those of the request that are not left
/// out: none of the others, and all of them. So the backend sees one host, and
/// one account of where the request came from.
pub proof fn law_left_out_fields_are_gone(fs: Seq<(Seq<char>, Seq<u8>)>, f: (Seq<char>, Seq<u8>))
    ensures
        field_lines(fs) == field_lines(forwarded(fs)),
        forwarded(fs).contains(f) <==> fs.contains(f) && !left_out(f.0),
    decreases fs.len(),
{
    if fs.len() > 0 {
        let init = fs.drop_last();
        let last = fs.last();
        law_left_out_fields_are_gone(init, f);
        assert(fs =~= init.push(last));
        if !left_out(last.0) {
            assert(forwarded(fs).drop_last() =~= forwarded(init));
        }
        lemma_push_contains(init, last, f);
        lemma_push_contains(forwarded(init), last, f);
    }
}

proof fn lemma_push_contains(
    s: Seq<(Seq<char>, Seq<u8>)>,
    last: (Seq<char>, Seq<u8>),
    f: (Seq<char>, Seq<u8>),
)
    ensures
        s.push(last).contains(f) <==> s.contains(f) || f == last,
{
    if s.contains(f) {
        let i = choose|i: int| 0 <= i < s.len() && s[i] == f;
        assert(s.push(last)[i] == f);
    }
    if f == last {
        assert(s.push(last)[s.len() as int] == f);
    }
    if s.push(last).contains(f) {
        let i = choose|i: int| 0 <= i < s.push(last).len() && s.push(last)[i] == f;
        if i < s.len() {
            assert(s[i] == f);
        }
    }
}

/// Every field of a request is forwarded with its value, but for the host, the
/// three fields that say where the request came from, and the nine fields that
/// speak of one connection. Those are not.
pub proof fn law_other_fields_are_forwarded(
    fs: Seq<(Seq<char>, Seq<u8>)>,
    f: (Seq<char>, Seq<u8>),
)
    requires
        fs.contains(f),
    ensures
        f.0 != "host"@ && f.0 != "x-forwarded-for"@ && f.0 != "x-forwarded-host"@ && f.0
            != "x-forwarded-proto"@ && f.0 != "connection"@ && f.0 != "proxy-connection"@ && f.0
            != "keep-alive"@ && f.0 != "proxy-authenticate"@ && f.0 != "proxy-authorization"@
            && f.0 != "te"@ && f.0 != "trailer"@ && f.0 != "transfer-encoding"@ && f.0
            != "upgrade"@ ==> forwarded(fs).contains(f),
        f.0 == "host"@ || f.0 == "x-forwarded-for"@ || f.0 == "x-forwarded-host"@ || f.0
            == "x-forwarded-proto"@ || f.0 == "connection"@ || f.0 == "proxy-connection"@ || f.0
            == "keep-alive"@ || f.0 == "proxy-authenticate"@ || f.0 == "proxy-authorization"@
            || f.0 == "te"@ || f.0 == "trailer"@ || f.0 == "transfer-encoding"@ || f.0
            == "upgrade"@ ==> !forwarded(fs).contains(f),
{
    law_left_out_fields_are_gone(fs, f);
}

/// The head of a forwarded request, byte by byte: the request line, the backend
/// as host, the lines of the fields, where the request came from, and an empty
/// line. One more field adds one line, `name: value`, behind the others, unless
/// it is one of those that are left out; then it adds nothing.
pub proof fn law_head_is_laid_out_line_by_line(
    method: Seq<char>,
    target: Seq<char>,
    authority: Seq<char>,
    fs: Seq<(Seq<char>, Seq<u8>)>,
    peer: Seq<char>,
    f: (Seq<char>, Seq<u8>),
)
    ensures
        request_bytes(method, target, authority, fs, peer) == vstd::utf8::encode_utf8(method)
            + vstd::utf8::encode_utf8(" "@) + vstd::utf8::encode_utf8(target)
            + vstd::utf8::encode_utf8(" HTTP/1.1\r\n"@) + (vstd::utf8::encode_utf8("host"@)
            + vstd::utf8::encode_utf8(": "@) + vstd::utf8::encode_utf8(authority)
            + vstd::utf8::encode_utf8("\r\n"@)) + field_lines(fs) + (vstd::utf8::encode_utf8(
            "x-forwarded-for"@,
        ) + vstd::utf8::encode_utf8(": "@) + vstd::utf8::encode_utf8(peer)
            + vstd::utf8::encode_utf8("\r\n"@)) + (vstd::utf8::encode_utf8("x-forwarded-host"@)
            + vstd::utf8::encode_utf8(": "@) + vstd::utf8::encode_utf8(
            fields::field_text(fs, "host"@),
        ) + vstd::utf8::encode_utf8("\r\n"@)) + (vstd::utf8::encode_utf8("x-forwarded-proto"@)
            + vstd::utf8::encode_utf8(": "@) + vstd::utf8::encode_utf8("http"@)
            + vstd::utf8::encode_utf8("\r\n"@)) + vstd::utf8::encode_utf8("\r\n"@),
        field_lines(Seq::empty()) == Seq::<u8>::empty(),
        f.0 != "host"@ && f.0 != "x-forwarded-for"@ && f.0 != "x-forwarded-host"@ && f.0
            != "x-forwarded-proto"@ && f.0 != "connection"@ && f.0 != "proxy-connection"@ && f.0
            != "keep-alive"@ && f.0 != "proxy-authenticate"@ && f.0 != "proxy-authorization"@
            && f.0 != "te"@ && f.0 != "trailer"@ && f.0 != "transfer-encoding"@ && f.0
            != "upgrade"@ ==> field_lines(fs.push(f)) == field_lines(fs) + (
        vstd::utf8::encode_utf8(f.0) + vstd::utf8::encode_utf8(": "@) + f.1
            + vstd::utf8::encode_utf8("\r\n"@)),
        f.0 == "host"@ || f.0 == "x-forwarded-for"@ || f.0 == "x-forwarded-host"@ || f.0
            == "x-forwarded-proto"@ || f.0 == "connection"@ || f.0 == "proxy-connection"@ || f.0
            == "keep-alive"@ || f.0 == "proxy-authenticate"@ || f.0 == "proxy-authorization"@
            || f.0 == "te"@ || f.0 == "trailer"@ || f.0 == "transfer-encoding"@ || f.0
            == "upgrade"@ ==> field_lines(fs.push(f)) == field_lines(fs),
{
    assert(fs.push(f).drop_last() =~= fs);
}

/// A field of a response is kept where its value holds nothing but what a field
/// may hold: its value stays as it is, behind the others of its name. A value
/// with a control character drops the field, and so does a name that is empty.
pub proof fn law_proper_fields_are_kept(
    list: Seq<(Seq<char>, Seq<u8>)>,
    name: Seq<char>,
    value: Seq<u8>,
    i: int,
)
    requires
        name.len() <= 65535,
        forall|j: int|
            0 <= j < name.len() ==> 'a' <= #[trigger] name[j] <= 'z' || '0' <= name[j] <= '9'
                || name[j] == '-',
    ensures
        proper_fields(Seq::empty()) == Seq::<(Seq<char>, Seq<u8>)>::empty(),
        name.len() > 0 && (forall|j: int|
            0 <= j < value.len() ==> (32 <= #[trigger] value[j] && value[j] != 127) || value[j]
                == 9) ==> proper_fields(list.push((name, value))) == fields::appended(
            proper_fields(list),
            name,
            value,
        ),
        name.len() == 0 ==> proper_fields(list.push((name, value))) == proper_fields(list),
        0 <= i < value.len() && (value[i] < 32 || value[i] == 127) && value[i] != 9
            ==> proper_fields(list.push((name, value))) == proper_fields(list),
{
    let all = list.push((name, value));
    assert(all.drop_last() =~= list);
    assert forall|j: int| 0 <= j < name.len() implies fields::is_name_char(#[trigger] name[j])
        && fields::small(name[j]) == name[j] by {}
    assert(name.map_values(|c: char| fields::small(c)) =~= name);
    if 0 <= i < value.len() && (value[i] < 32 || value[i] == 127) && value[i] != 9 {
        assert(!fields::is_value_byte(value[i]));
    }
    if forall|j: int|
        0 <= j < value.len() ==> (32 <= #[trigger] value[j] && value[j] != 127) || value[j] == 9 {
        assert forall|j: int| 0 <= j < value.len() implies fields::is_value_byte(
            #[trigger] value[j],
        ) by {}
    }
}

/// The bytes of an ASCII text are its characters.
pub open spec fn spelled_by(v: Seq<u8>, s: Seq<char>) -> bool {
    v.len() == s.len() && forall|j: int|
        0 <= j < v.len() ==> 32 <= #[trigger] v[j] <= 126 && v[j] as u32 == s[j] as u32
}

proof fn lemma_spelled(v: Seq<u8>, s: Seq<char>)
    requires
        spelled_by(v, s),
    ensures
        fields::value_text(v) == Some(s),
        fields::value_text_or_empty(v) == s,
{
    assert forall|j: int| 0 <= j < v.len() implies fields::is_visible(#[trigger] v[j]) by {}
    assert forall|j: int| 0 <= j < v.len() implies (#[trigger] v[j]) as char == s[j] by {
        lemma_same_char(v[j], s[j]);
    }
    assert(v.map_values(|b: u8| b as char) =~= s);
}

proof fn lemma_same_char(b: u8, c: char)
    requires
        b as u32 == c as u32,
    ensures
        b as char == c,
{
}

/// A body is as long as the first `content-length` field says, whatever else
/// the head holds.
pub proof fn law_content_length_frames_the_body(
    fs: Seq<(Seq<char>, Seq<u8>)>,
    i: int,
    n: u64,
)
    requires
        0 <= i < fs.len(),
        fs[i].0 == "content-length"@,
        forall|j: int| 0 <= j < i ==> (#[trigger] fs[j]).0 != "content-length"@,
    ensures
        spelled_by(fs[i].1, text::decimal(n as nat)) ==> framing_of(fs)
            == (BodyFraming::ContentLength { remaining: n }),
        forall|k: int|
            0 <= k < fs[i].1.len() && !(48 <= #[trigger] fs[i].1[k] <= 57) && (k > 0 || fs[i].1[0]
                != 43) ==> framing_of(fs) == BodyFraming::ReadUntilClose,
        fs[i].1.len() == 0 ==> framing_of(fs) == BodyFraming::ReadUntilClose,
{
    reveal_strlit("content-length");
    let key = "content-length"@;
    fields::law_first_field_of_a_name_is_read(fs, key, i);
    let v = fs[i].1;
    assert(fields::value_of(fs, key) == Some(v));
    if spelled_by(v, text::decimal(n as nat)) {
        lemma_spelled(v, text::decimal(n as nat));
        text::lemma_decimal(n as nat);
    }
    assert forall|k: int|
        0 <= k < v.len() && !(48 <= #[trigger] v[k] <= 57) && (k > 0 || v[0]
            != 43) implies framing_of(fs) == BodyFraming::ReadUntilClose by {
        fields::law_values_are_read_byte_by_byte(v, k);
        fields::law_values_are_read_byte_by_byte(v, 0);
        if fields::value_text(v) is Some {
            let s = fields::value_text(v)->0;
            lemma_digit_byte(v[k]);
            lemma_plus_byte(v[0]);
            assert(s[k] == v[k] as char);
            assert(s[0] == v[0] as char);
            text::law_other_texts_are_no_numbers(s, u64::MAX as nat, k);
        }
    }
    if v.len() == 0 {
        assert(fields::value_text(v) == Some(v.map_values(|b: u8| b as char)));
    }
}

proof fn lemma_digit_byte(b: u8)
    ensures
        '0' <= b as char <= '9' <==> 48 <= b <= 57,
{
}

proof fn lemma_plus_byte(b: u8)
    ensures
        b as char == '+' <==> b == 43,
{
}

/// Without a `content-length` field, a body comes in chunks where the last
/// `transfer-encoding` field is `chunked`, or ends in it behind a comma;
/// without such a field it ends where the connection does.
pub proof fn law_chunks_frame_the_body(fs: Seq<(Seq<char>, Seq<u8>)>, i: int, before: Seq<char>)
    requires
        forall|j: int| 0 <= j < fs.len() ==> (#[trigger] fs[j]).0 != "content-length"@,
        -1 <= i < fs.len(),
        i >= 0 ==> fs[i].0 == "transfer-encoding"@,
        forall|j: int| i < j < fs.len() ==> (#[trigger] fs[j]).0 != "transfer-encoding"@,
    ensures
        i < 0 ==> framing_of(fs) == BodyFraming::ReadUntilClose,
        i >= 0 && spelled_by(fs[i].1, "chunked"@) ==> framing_of(fs) == (BodyFraming::Chunked {
            state: chunked::start(),
        }),
        i >= 0 && spelled_by(fs[i].1, before + ", chunked"@) ==> framing_of(fs) == (
        BodyFraming::Chunked { state: chunked::start() }),
        i >= 0 && spelled_by(fs[i].1, "identity"@) ==> framing_of(fs)
            == BodyFraming::ReadUntilClose,
        i >= 0 && spelled_by(fs[i].1, "chunked, gzip"@) ==> framing_of(fs)
            == BodyFraming::ReadUntilClose,
{
    reveal_strlit("content-length");
    reveal_strlit("chunked");
    reveal_strlit(", chunked");
    reveal_strlit("identity");
    reveal_strlit("chunked, gzip");
    fields::law_first_field_of_a_name_is_read(fs, "content-length"@, fs.len() as int);
    fields::law_last_field_of_a_name_is_found(fs, "transfer-encoding"@, i);
    if i >= 0 {
        let v = fs[i].1;
        let c = "chunked"@;
        if spelled_by(v, c) {
            lemma_spelled(v, c);
            lemma_last_coding(Seq::empty(), Seq::empty(), c);
            assert(Seq::<char>::empty() + Seq::<char>::empty() + c =~= c);
        }
        if spelled_by(v, before + ", chunked"@) {
            lemma_spelled(v, before + ", chunked"@);
            lemma_last_coding(before, seq![',', ' '], c);
            assert(before + seq![',', ' '] + c =~= before + ", chunked"@);
        }
        if spelled_by(v, "identity"@) {
            lemma_spelled(v, "identity"@);
            lemma_last_coding(Seq::empty(), Seq::empty(), "identity"@);
            assert(Seq::<char>::empty() + Seq::<char>::empty() + "identity"@ =~= "identity"@);
            assert("identity"@[0] != c[0]);
        }
        if spelled_by(v, "chunked, gzip"@) {
            let g = seq!['g', 'z', 'i', 'p'];
            lemma_spelled(v, "chunked, gzip"@);
            lemma_last_coding(c, seq![',', ' '], g);
            assert(c + seq![',', ' '] + g =~= "chunked, gzip"@);
            assert(g[0] != c[0]);
        }
    }
}

/// The last coding of a list is what stands behind the last comma.
proof fn lemma_last_coding(before: Seq<char>, comma: Seq<char>, last: Seq<char>)
    requires
        comma.len() == 0 && before.len() == 0 || comma == seq![',', ' '],
        last.len() > 0,
        forall|j: int| 0 <= j < last.len() ==> 'a' <= #[trigger] last[j] <= 'z',
    ensures
        last_coding(before + comma + last) == last,
{
    let s = before + comma + last;
    lemma_rfind(s, ',', if comma.len() == 0 {
        -1
    } else {
        before.len() as int
    });
    let rest = s.skip(text::rfind(s, ',') + 1);
    let n = rest.len() - last.len();
    assert(rest.skip(n) =~= last);
    assert forall|j: int| 0 <= j < last.len() implies !text::is_space(#[trigger] last[j])
        && fields::small(last[j]) == last[j] by {
        let c = last[j];
        assert('a' <= c <= 'z');
    }
    let (lo, hi) = text::law_only_white_space_is_trimmed(rest);
    assert(rest[n] == last[0]);
    assert(rest[rest.len() - 1] == last[last.len() - 1]);
    if n == 1 {
        assert(rest[0] == ' ');
        assert(text::is_space(rest[0]));
    }
    assert(lo == n) by {
        if lo > n {
            assert(text::is_space(rest[n]));
        }
        if lo == hi {
            assert(n < lo || hi <= n);
            assert(text::is_space(rest[n]));
        }
        if lo < n {
            assert(lo == 0);
        }
    }
    assert(hi == rest.len()) by {
        if hi < rest.len() {
            assert(text::is_space(rest[rest.len() - 1]));
        }
    }
    assert(text::trim(rest) =~= last);
    assert(last.map_values(|c: char| fields::small(c)) =~= last);
}

proof fn lemma_rfind(s: Seq<char>, c: char, i: int)
    requires
        -1 <= i < s.len(),
        i >= 0 ==> s[i] == c,
        forall|j: int| i < j < s.len() ==> #[trigger] s[j] != c,
    ensures
        text::rfind(s, c) == i,
    decreases s.len(),
{
    if s.len() > 0 && i < s.len() - 1 {
        assert(s[s.len() - 1] != c);
        let init = s.drop_last();
        assert forall|j: int| i < j < init.len() implies #[trigger] init[j] != c by {
            assert(init[j] == s[j]);
        }
        lemma_rfind(init, c, i);
    }
}

/// Taking a head loses no byte: the head and what is left for the body make up
/// what was there. Without a whole head all stays. The status is that of the
/// head, or 502 where it has none.
pub proof fn law_no_byte_is_lost(
    len: nat,
    code: Option<u16>,
    fs: Seq<(Seq<char>, Seq<u8>)>,
    bytes: Seq<u8>,
    r: Result<Option<ResponseHead>, HeadError>,
    left: Seq<u8>,
)
    requires
        len <= bytes.len(),
        is_taken(Ok(Some((len, code, fs))), bytes, r, left),
    ensures
        r is Ok && r->Ok_0 is Some,
        bytes.take(len as int) + buffer::held(r->Ok_0->0.rest) + left == bytes,
        code is Some ==> r->Ok_0->0.status == code->0,
        code is None ==> r->Ok_0->0.status == 502,
        fields::header_fields(r->Ok_0->0.headers) == proper_fields(fs),
{
}

/// Where there is no whole head, or the bytes are none, all of them stay, and
/// what is wrong is told.
pub proof fn law_without_a_head_all_bytes_stay(
    wrong: Seq<char>,
    bytes: Seq<u8>,
    r: Result<Option<ResponseHead>, HeadError>,
    left: Seq<u8>,
)
    ensures
        is_taken(Ok(None), bytes, r, left) ==> r is Ok && r->Ok_0 is None && left == bytes,
        is_taken(Err(wrong), bytes, r, left) ==> r is Err && r->Err_0 is Invalid
            && r->Err_0->Invalid_0@ == wrong && left == bytes,
{
}

/// The head of a response has room for 64 fields, and for no more.
pub proof fn law_heads_have_room_for_64_fields(head: ResponseHead)
    ensures
        head.wf() <==> fields::header_fields(head.headers).len() <= 64,
{
}

/// The message about a missing response says what is wrong with the bytes, where
/// there are any.
pub proof fn law_messages_say_what_is_wrong(e: HeadError, s: String)
    requires
        call_ensures(HeadError::message, (&e,), s),
    ensures
        e is Closed ==> s@ == "backend closed connection before sending response headers"@,
        e is Invalid ==> s@ == "invalid HTTP response from backend: "@ + e->Invalid_0@
            && text::has_suffix(s@, e->Invalid_0@),
{
    if e is Invalid {
        assert(s@.skip(s@.len() - e->Invalid_0@.len()) =~= e->Invalid_0@);
    }
}

} // verus!
