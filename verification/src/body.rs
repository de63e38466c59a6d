//! Response bodies: bytes that stream in from a backend connection, which goes
//! back to the pool when the body is complete, or a short fixed text.

use bytes::{Bytes, BytesMut};
use vstd::prelude::*;

use crate::backend_pool;
use crate::backend_pool::{BackendPool, PooledConn};
use crate::buffer;
use crate::buffer::{
    buffer_bytes, buffer_freeze, buffer_len, buffer_split_to, chunk_len, chunk_of, chunk_of_text,
};
use crate::chunked;
use crate::chunked::ChunkState;
use crate::queue::QueueGuard;

verus! {

/// Where a body ends.
#[derive(Clone, Copy, Debug, PartialEq, Eq, Structural)]
pub enum BodyFraming {
    /// After this many more bytes.
    ContentLength { remaining: u64 },
    /// Where the connection is closed. It cannot be reused.
    ReadUntilClose,
    /// Behind the last of its chunks.
    Chunked { state: ChunkState },
}

/// A body in progress: its connection, the bytes read but not yet handed on,
/// where it ends, and whether the connection may go back to the pool.
#[verifier::ext_equal]
pub struct Progress<S> {
    pub stream: Option<S>,
    pub buffered: Seq<u8>,
    pub framing: BodyFraming,
    pub pooled: bool,
    pub authority: Seq<char>,
}

/// What a body does next.
pub enum Outcome {
    /// It hands on these bytes.
    Data(Seq<u8>),
    /// It is over.
    End,
    /// It has to read more from its connection.
    Read,
    /// It cannot be completed.
    Fail,
}

/// What a body makes of bytes of its connection: where it ends behind them, its
/// data among them, and the bytes that it leaves.
pub open spec fn taken(framing: BodyFraming, bytes: Seq<u8>) -> (BodyFraming, Seq<u8>, Seq<u8>) {
    match framing {
        BodyFraming::ContentLength { remaining } => {
            let n = if remaining < bytes.len() {
                remaining as int
            } else {
                bytes.len() as int
            };
            let left = BodyFraming::ContentLength { remaining: (remaining - n) as u64 };
            (left, bytes.take(n), bytes.skip(n))
        },
        BodyFraming::ReadUntilClose => (framing, bytes, Seq::empty()),
        BodyFraming::Chunked { state } => {
            let (end, data, rest) = chunked::decoded(state, bytes);
            (BodyFraming::Chunked { state: end }, data, rest)
        },
    }
}

/// Whether all of the body has come.
pub open spec fn complete(framing: BodyFraming) -> bool {
    match framing {
        BodyFraming::ContentLength { remaining } => remaining == 0,
        BodyFraming::ReadUntilClose => false,
        BodyFraming::Chunked { state } => state is Done,
    }
}

/// Whether what has come is no such body.
pub open spec fn broken(framing: BodyFraming) -> bool {
    framing matches BodyFraming::Chunked { state } && state is Broken
}

/// What the end of the connection means for a body that is not complete: chunks
/// without a last one are no body.
pub open spec fn unfinished(framing: BodyFraming) -> Outcome {
    if framing is Chunked {
        Outcome::Fail
    } else {
        Outcome::End
    }
}

impl<S> Progress<S> {
    /// The body without its connection, if it is complete.
    pub open spec fn settled(self) -> Progress<S> {
        if complete(self.framing) {
            Progress { stream: None, pooled: false, ..self }
        } else {
            self
        }
    }

    /// The connection that goes back to the pool, if the body is complete.
    pub open spec fn given_back(self) -> Option<S> {
        if complete(self.framing) && self.pooled {
            self.stream
        } else {
            None
        }
    }

    /// What a body does behind `data`.
    pub open spec fn behind(self, data: Seq<u8>) -> (Progress<S>, Outcome, Option<S>) {
        if data.len() > 0 {
            (self.settled(), Outcome::Data(data), self.given_back())
        } else if complete(self.framing) {
            (self.settled(), Outcome::End, self.given_back())
        } else if broken(self.framing) {
            (self.cut_off(), Outcome::Fail, None)
        } else if self.stream is None {
            (self, unfinished(self.framing), None)
        } else {
            (self, Outcome::Read, None)
        }
    }

    /// What comes next without reading.
    pub open spec fn next(self) -> (Progress<S>, Outcome, Option<S>) {
        let (framing, data, rest) = taken(self.framing, self.buffered);
        Progress { framing, buffered: rest, ..self }.behind(data)
    }

    /// The body cut off from its connection.
    pub open spec fn cut_off(self) -> Progress<S> {
        Progress { stream: None, pooled: false, ..self }
    }

    /// What comes next after `data` was read; nothing read means that the
    /// connection was closed.
    pub open spec fn read(self, data: Seq<u8>) -> (Progress<S>, Outcome, Option<S>) {
        if data.len() == 0 {
            (self.cut_off(), unfinished(self.framing), None)
        } else {
            let (framing, part, _) = taken(self.framing, data);
            Progress { framing, ..self }.behind(part)
        }
    }

    /// Whether nothing more will come.
    pub open spec fn over(self) -> bool {
        match self.framing {
            BodyFraming::ContentLength { remaining } => remaining == 0 && self.buffered.len() == 0,
            BodyFraming::ReadUntilClose => self.stream is None,
            BodyFraming::Chunked { state } => state is Done,
        }
    }
}

/// What a body does next, with the bytes it hands on.
pub enum FrameStep {
    Data(Bytes),
    End,
    Read,
    Fail,
}

impl FrameStep {
    pub open spec fn outcome(self) -> Outcome {
        match self {
            FrameStep::Data(b) => Outcome::Data(buffer::content(b)),
            FrameStep::End => Outcome::End,
            FrameStep::Read => Outcome::Read,
            FrameStep::Fail => Outcome::Fail,
        }
    }
}

/// The smaller of a length and a number of bytes.
fn at_most(length: u64, n: usize) -> (m: usize)
    ensures
        m == if length < n {
            length as int
        } else {
            n as int
        },
{
    if (length as u128) < n as u128 {
        length as usize
    } else {
        n
    }
}

impl BodyFraming {
    fn is_complete(&self) -> (b: bool)
        ensures
            b == complete(*self),
    {
        match self {
            BodyFraming::ContentLength { remaining } => *remaining == 0,
            BodyFraming::Chunked { state: ChunkState::Done } => true,
            _ => false,
        }
    }

    fn is_broken(&self) -> (b: bool)
        ensures
            b == broken(*self),
    {
        match self {
            BodyFraming::Chunked { state: ChunkState::Broken } => true,
            _ => false,
        }
    }

    fn step_unfinished(&self) -> (r: FrameStep)
        ensures
            r.outcome() == unfinished(*self),
    {
        match self {
            BodyFraming::Chunked { .. } => FrameStep::Fail,
            _ => FrameStep::End,
        }
    }
}

/// The idle connections after `stream` has gone back, if there is one.
pub open spec fn with_given_back<S>(
    idle: Map<Seq<char>, Seq<PooledConn<S>>>,
    authority: Seq<char>,
    stream: Option<S>,
    now: u64,
    max: nat,
) -> Map<Seq<char>, Seq<PooledConn<S>>> {
    match stream {
        Some(s) => backend_pool::checked_in(idle, authority, s, now, max),
        None => idle,
    }
}

/// A body that streams in from a backend connection.
pub struct RawResponseBody<S> {
    stream: Option<S>,
    buffered: BytesMut,
    framing: BodyFraming,
    pooled: bool,
    authority: String,
}

impl<S> View for RawResponseBody<S> {
    type V = Progress<S>;

    closed spec fn view(&self) -> Progress<S> {
        Progress {
            stream: self.stream,
            buffered: buffer::held(self.buffered),
            framing: self.framing,
            pooled: self.pooled,
            authority: self.authority@,
        }
    }
}

/// Whether a pool took back `stream`, and nothing else happened to it.
pub open spec fn took_back<S, A: Copy>(
    before: BackendPool<S, A>,
    after: BackendPool<S, A>,
    authority: Seq<char>,
    stream: Option<S>,
    now: u64,
) -> bool {
    &&& after.wf()
    &&& after.same_limits(before)
    &&& after.names() == before.names()
    &&& after.idle() == with_given_back(
        before.idle(),
        authority,
        stream,
        now,
        before.idle_per_host(),
    )
}

impl<S> RawResponseBody<S> {
    /// A body of which `buffered` has been read already.
    pub fn new(stream: S, buffered: BytesMut, framing: BodyFraming, authority: String) -> (b: Self)
        ensures
            b@ == (Progress {
                stream: Some(stream),
                buffered: buffer::held(buffered),
                framing,
                pooled: true,
                authority: authority@,
            }),
    {
        RawResponseBody { stream: Some(stream), buffered, framing, pooled: true, authority }
    }

    pub fn is_done(&self) -> (b: bool)
        ensures
            b == self@.over(),
    {
        match self.framing {
            BodyFraming::ContentLength { remaining } => remaining == 0 && buffer_len(&self.buffered)
                == 0,
            BodyFraming::ReadUntilClose => self.stream.is_none(),
            BodyFraming::Chunked { state } => match state {
                ChunkState::Done => true,
                _ => false,
            },
        }
    }

    /// The announced size: the bytes still to be handed on.
    pub fn size_hint(&self) -> (n: Option<u64>)
        ensures
            n == announced(self@),
    {
        match self.framing {
            BodyFraming::ContentLength { remaining } => Some(remaining),
            _ => None,
        }
    }

    /// Gives the connection of a complete body back to the pool.
    fn maybe_return_to_pool<A: Copy>(&mut self, pool: &mut BackendPool<S, A>, now: u64)
        requires
            old(pool).wf(),
        ensures
            final(self)@ == old(self)@.settled(),
            took_back(
                *old(pool),
                *final(pool),
                old(self)@.authority,
                old(self)@.given_back(),
                now,
            ),
    {
        if self.framing.is_complete() {
            let stream = self.stream.take();
            if self.pooled {
                if let Some(s) = stream {
                    pool.checkin(self.authority.as_str(), s, now);
                }
            }
            self.pooled = false;
        }
    }

    /// Takes what belongs to the body from the buffer.
    fn take_buffered(&mut self) -> (r: Bytes)
        ensures
            ({
                let (framing, data, rest) = taken(old(self)@.framing, old(self)@.buffered);
                &&& final(self)@ == (Progress { framing, buffered: rest, ..old(self)@ })
                &&& buffer::content(r) == data
            }),
    {
        match self.framing {
            BodyFraming::ContentLength { remaining } => {
                let n = at_most(remaining, buffer_len(&self.buffered));
                let chunk = buffer_freeze(buffer_split_to(&mut self.buffered, n));
                self.framing = BodyFraming::ContentLength { remaining: remaining - n as u64 };
                chunk
            },
            BodyFraming::ReadUntilClose => {
                let n = buffer_len(&self.buffered);
                let chunk = buffer_freeze(buffer_split_to(&mut self.buffered, n));
                assert(buffer::content(chunk) =~= old(self)@.buffered);
                assert(self@.buffered =~= Seq::<u8>::empty());
                chunk
            },
            BodyFraming::Chunked { state } => {
                let (end, data, n) = state.decode(buffer_bytes(&self.buffered));
                let _ = buffer_split_to(&mut self.buffered, n);
                self.framing = BodyFraming::Chunked { state: end };
                chunk_of(data.as_slice())
            },
        }
    }

    /// Takes what belongs to the body from bytes just read.
    fn take_read(&mut self, data: &[u8]) -> (r: Bytes)
        ensures
            ({
                let (framing, part, _) = taken(old(self)@.framing, data@);
                &&& final(self)@ == (Progress { framing, ..old(self)@ })
                &&& buffer::content(r) == part
            }),
    {
        match self.framing {
            BodyFraming::ContentLength { remaining } => {
                let n = at_most(remaining, data.len());
                let part = vstd::slice::slice_subrange(data, 0, n);
                assert(part@ =~= data@.take(n as int));
                self.framing = BodyFraming::ContentLength { remaining: remaining - n as u64 };
                chunk_of(part)
            },
            BodyFraming::ReadUntilClose => chunk_of(data),
            BodyFraming::Chunked { state } => {
                let (end, part, _) = state.decode(data);
                self.framing = BodyFraming::Chunked { state: end };
                chunk_of(part.as_slice())
            },
        }
    }

    /// What the body does behind `chunk`.
    fn step_behind<A: Copy>(&mut self, chunk: Bytes, pool: &mut BackendPool<S, A>, now: u64) -> (r:
        FrameStep)
        requires
            old(pool).wf(),
        ensures
            ({
                let (after, outcome, back) = old(self)@.behind(buffer::content(chunk));
                &&& final(self)@ == after
                &&& r.outcome() == outcome
                &&& took_back(*old(pool), *final(pool), old(self)@.authority, back, now)
            }),
    {
        if chunk_len(&chunk) > 0 {
            self.maybe_return_to_pool(pool, now);
            return FrameStep::Data(chunk);
        }
        if self.framing.is_complete() {
            self.maybe_return_to_pool(pool, now);
            return FrameStep::End;
        }
        if self.framing.is_broken() {
            self.on_error();
            FrameStep::Fail
        } else if self.stream.is_none() {
            self.framing.step_unfinished()
        } else {
            FrameStep::Read
        }
    }

    /// What comes next without reading.
    pub fn next_frame<A: Copy>(&mut self, pool: &mut BackendPool<S, A>, now: u64) -> (r: FrameStep)
        requires
            old(pool).wf(),
        ensures
            ({
                let (after, outcome, back) = old(self)@.next();
                &&& final(self)@ == after
                &&& r.outcome() == outcome
                &&& took_back(*old(pool), *final(pool), old(self)@.authority, back, now)
            }),
    {
        let chunk = self.take_buffered();
        self.step_behind(chunk, pool, now)
    }

    /// What comes next after `data` was read from the connection.
    pub fn on_read<A: Copy>(&mut self, data: &[u8], pool: &mut BackendPool<S, A>, now: u64) -> (r:
        FrameStep)
        requires
            old(pool).wf(),
        ensures
            ({
                let (after, outcome, back) = old(self)@.read(data@);
                &&& final(self)@ == after
                &&& r.outcome() == outcome
                &&& took_back(*old(pool), *final(pool), old(self)@.authority, back, now)
            }),
    {
        if data.len() == 0 {
            self.on_error();
            return self.framing.step_unfinished();
        }
        let chunk = self.take_read(data);
        self.step_behind(chunk, pool, now)
    }

    /// The connection failed.
    pub fn on_error(&mut self)
        ensures
            final(self)@ == old(self)@.cut_off(),
    {
        self.stream = None;
        self.pooled = false;
    }

    /// The connection to read from, if there is one.
    pub fn stream_mut(&mut self) -> (r: Option<&mut S>)
        ensures
            match r {
                Some(s) => old(self)@.stream == Some(*s) && final(self)@ == (Progress {
                    stream: Some(*final(s)),
                    ..old(self)@
                }),
                None => old(self)@.stream is None && final(self)@ == old(self)@,
            },
    {
        match &mut self.stream {
            Some(s) => Some(s),
            None => None,
        }
    }
}

/// The announced size of a body: the bytes still to be handed on; none where
/// its end is not known beforehand.
pub open spec fn announced<S>(p: Progress<S>) -> Option<u64> {
    match p.framing {
        BodyFraming::ContentLength { remaining } => Some(remaining),
        _ => None,
    }
}

// ---------------------------------------------------------------------------
// The body of a response
// ---------------------------------------------------------------------------

/// The body of a response, with the count of its request, which is given back
/// when the body has been sent or dropped.
pub enum ProxyBody<S> {
    /// Streams in from a backend.
    RawStream { inner: RawResponseBody<S>, guard: Option<QueueGuard> },
    /// A short text.
    Fixed { data: Option<Bytes>, guard: Option<QueueGuard> },
}

/// What a body is about to do, whatever its kind.
pub enum BodyView<S> {
    RawStream(Progress<S>),
    Fixed(Option<Seq<u8>>),
}

/// What a body does next without reading, and what happens to the pool. A fixed
/// text comes at once and whole.
pub open spec fn is_next<S, A: Copy>(
    before: BodyView<S>,
    after: BodyView<S>,
    outcome: Outcome,
    pool: BackendPool<S, A>,
    pool_after: BackendPool<S, A>,
    now: u64,
) -> bool {
    match before {
        BodyView::RawStream(p) => {
            let (q, next, back) = p.next();
            &&& after == BodyView::RawStream(q)
            &&& outcome == next
            &&& took_back(pool, pool_after, p.authority, back, now)
        },
        BodyView::Fixed(data) => {
            &&& after == BodyView::<S>::Fixed(None)
            &&& outcome == (match data {
                Some(b) => Outcome::Data(b),
                None => Outcome::End,
            })
            &&& pool_after == pool
        },
    }
}

/// Whether nothing more will come.
pub open spec fn ended<S>(v: BodyView<S>) -> bool {
    match v {
        BodyView::RawStream(p) => p.over(),
        BodyView::Fixed(data) => data is None,
    }
}

/// The announced size of what is still to come.
pub open spec fn size_of_rest<S>(v: BodyView<S>) -> Option<u64> {
    match v {
        BodyView::RawStream(p) => announced(p),
        BodyView::Fixed(Some(b)) => Some(b.len() as u64),
        BodyView::Fixed(None) => Some(0u64),
    }
}

pub open spec fn maybe_content(data: Option<Bytes>) -> Option<Seq<u8>> {
    match data {
        Some(b) => Some(buffer::content(b)),
        None => None,
    }
}

impl<S> ProxyBody<S> {
    /// The key of the request that is still being counted.
    pub open spec fn counted(self) -> Option<Seq<char>> {
        let guard = match self {
            ProxyBody::RawStream { guard, .. } => guard,
            ProxyBody::Fixed { guard, .. } => guard,
        };
        match guard {
            Some(g) => Some(g@),
            None => None,
        }
    }
}

impl<S> View for ProxyBody<S> {
    type V = BodyView<S>;

    open spec fn view(&self) -> BodyView<S> {
        match self {
            ProxyBody::RawStream { inner, .. } => BodyView::RawStream(inner@),
            ProxyBody::Fixed { data, .. } => BodyView::Fixed(maybe_content(*data)),
        }
    }
}

impl<S> ProxyBody<S> {
    pub fn raw_stream(body: RawResponseBody<S>, guard: QueueGuard) -> (r: Self)
        ensures
            r@ == BodyView::RawStream(body@),
            r.counted() == Some(guard@),
    {
        ProxyBody::RawStream { inner: body, guard: Some(guard) }
    }

    pub fn fixed(status_text: &'static str, guard: Option<QueueGuard>) -> (r: Self)
        ensures
            r@ == BodyView::<S>::Fixed(Some(vstd::utf8::encode_utf8(status_text@))),
            guard is Some ==> r.counted() == Some(guard->0@),
            guard is None ==> r.counted() is None,
    {
        ProxyBody::Fixed { data: Some(chunk_of_text(status_text)), guard }
    }

    /// What comes next without reading. A fixed text comes at once and whole.
    pub fn next_frame<A: Copy>(&mut self, pool: &mut BackendPool<S, A>, now: u64) -> (r: FrameStep)
        requires
            old(pool).wf(),
        ensures
            final(self).counted() == old(self).counted(),
            is_next(old(self)@, final(self)@, r.outcome(), *old(pool), *final(pool), now),
    {
        match self {
            ProxyBody::RawStream { inner, .. } => inner.next_frame(pool, now),
            ProxyBody::Fixed { data, .. } => match data.take() {
                Some(b) => FrameStep::Data(b),
                None => FrameStep::End,
            },
        }
    }

    /// Whether nothing more will come.
    pub fn is_end_stream(&self) -> (b: bool)
        ensures
            b == ended(self@),
    {
        match self {
            ProxyBody::RawStream { inner, .. } => inner.is_done(),
            ProxyBody::Fixed { data, .. } => data.is_none(),
        }
    }

    /// The announced size, where there is one.
    pub fn size_hint(&self) -> (n: Option<u64>)
        ensures
            n == size_of_rest(self@),
    {
        match self {
            ProxyBody::RawStream { inner, .. } => inner.size_hint(),
            ProxyBody::Fixed { data, .. } => match data {
                Some(b) => Some(chunk_len(b) as u64),
                None => Some(0),
            },
        }
    }

    /// Hands out what stands for the counted request, once.
    pub fn take_guard(&mut self) -> (g: Option<QueueGuard>)
        ensures
            final(self)@ == old(self)@,
            final(self).counted() is None,
            match g {
                Some(g) => old(self).counted() == Some(g@),
                None => old(self).counted() is None,
            },
    {
        match self {
            ProxyBody::RawStream { guard, .. } => guard.take(),
            ProxyBody::Fixed { guard, .. } => guard.take(),
        }
    }
}

// ---------------------------------------------------------------------------
// Laws
// ---------------------------------------------------------------------------

/// The bytes that a body hands on until it is over or waits for a read, where
/// the connection yields `reads` one after the other.
pub open spec fn delivered<S>(p: Progress<S>, reads: Seq<Seq<u8>>) -> Seq<u8>
    decreases reads.len(), p.buffered.len(),
{
    proof {
        lemma_taken_is_shorter(p.framing, p.buffered);
    }
    let (q, outcome, _) = p.next();
    match outcome {
        Outcome::Data(b) => b + delivered(q, reads),
        Outcome::Read => if reads.len() == 0 {
            Seq::empty()
        } else {
            let (r, got, _) = q.read(reads[0]);
            match got {
                Outcome::Data(b) => b + delivered(r, reads.skip(1)),
                Outcome::Read => delivered(r, reads.skip(1)),
                _ => Seq::empty(),
            }
        },
        _ => Seq::empty(),
    }
}

/// The connection that goes back to the pool in that time.
pub open spec fn returned<S>(p: Progress<S>, reads: Seq<Seq<u8>>) -> Option<S>
    decreases reads.len(), p.buffered.len(),
{
    proof {
        lemma_taken_is_shorter(p.framing, p.buffered);
    }
    let (q, outcome, back) = p.next();
    if back is Some {
        back
    } else {
        match outcome {
            Outcome::Data(_) => returned(q, reads),
            Outcome::Read => if reads.len() == 0 {
                None
            } else {
                let (r, got, back) = q.read(reads[0]);
                if back is Some {
                    back
                } else {
                    match got {
                        Outcome::Data(_) | Outcome::Read => returned(r, reads.skip(1)),
                        _ => None,
                    }
                }
            },
            _ => None,
        }
    }
}

/// All that a connection yields up to its close.
pub open spec fn joined(reads: Seq<Seq<u8>>) -> Seq<u8>
    decreases reads.len(),
{
    if reads.len() == 0 || reads[0].len() == 0 {
        Seq::empty()
    } else {
        reads[0] + joined(reads.skip(1))
    }
}

/// What is data is no longer left.
pub proof fn lemma_taken_is_shorter(framing: BodyFraming, bytes: Seq<u8>)
    ensures
        taken(framing, bytes).1.len() + taken(framing, bytes).2.len() <= bytes.len(),
{
    if let BodyFraming::Chunked { state } = framing {
        chunked::lemma_decoded_is_shorter(state, bytes);
    }
}

/// Whether a body takes no more bytes.
pub open spec fn halted(framing: BodyFraming) -> bool {
    complete(framing) || broken(framing)
}

/// A body may take its bytes piece by piece.
pub proof fn law_bytes_are_taken_piece_by_piece(framing: BodyFraming, a: Seq<u8>, b: Seq<u8>)
    ensures
        ({
            let (mid, x, r) = taken(framing, a);
            let (end, y, s) = taken(mid, b);
            if halted(mid) {
                taken(framing, a + b) == (mid, x, r + b)
            } else {
                r.len() == 0 && taken(framing, a + b) == (end, x + y, s)
            }
        }),
{
    match framing {
        BodyFraming::ContentLength { remaining } => {
            let (mid, x, r) = taken(framing, a);
            let (end, y, s) = taken(mid, b);
            let (e, z, t) = taken(framing, a + b);
            if remaining <= a.len() {
                assert(z =~= x);
                assert(t =~= r + b);
            } else {
                assert(z =~= x + y);
                assert(t =~= s);
            }
        },
        BodyFraming::ReadUntilClose => {},
        BodyFraming::Chunked { state } => {
            chunked::law_decoding_goes_piece_by_piece(state, a, b);
        },
    }
}

proof fn lemma_halted_takes_nothing(framing: BodyFraming, bytes: Seq<u8>)
    requires
        halted(framing) || bytes.len() == 0,
    ensures
        taken(framing, bytes) == (framing, Seq::<u8>::empty(), bytes),
{
    assert(bytes.take(0) =~= Seq::<u8>::empty());
    assert(bytes.skip(0) =~= bytes);
}

proof fn lemma_halted_delivers_nothing<S>(p: Progress<S>, reads: Seq<Seq<u8>>)
    requires
        halted(p.framing),
    ensures
        delivered(p, reads) == Seq::<u8>::empty(),
        returned(p, reads) == p.given_back(),
{
    lemma_halted_takes_nothing(p.framing, p.buffered);
}

/// A body hands on exactly its data, in order: what belongs to it among the
/// bytes that were buffered and those that the connection yields up to its
/// close. Its connection goes back to the pool just where that makes the body
/// complete.
pub proof fn law_body_is_delivered<S>(p: Progress<S>, reads: Seq<Seq<u8>>)
    requires
        p.stream is Some,
    ensures
        ({
            let (end, data, _) = taken(p.framing, p.buffered + joined(reads));
            &&& delivered(p, reads) == data
            &&& returned(p, reads) == (if complete(end) && p.pooled {
                p.stream
            } else {
                None
            })
        }),
    decreases reads.len(), p.buffered.len(),
{
    let later = joined(reads);
    let (framing, data, rest) = taken(p.framing, p.buffered);
    let (q, outcome, back) = p.next();
    lemma_taken_is_shorter(p.framing, p.buffered);
    law_bytes_are_taken_piece_by_piece(p.framing, p.buffered, later);
    if halted(framing) {
        lemma_halted_delivers_nothing(q, reads);
        assert(data + Seq::<u8>::empty() =~= data);
    } else if data.len() > 0 {
        law_body_is_delivered(q, reads);
        assert(rest + later =~= later);
    } else {
        assert(data + taken(framing, later).1 =~= taken(framing, later).1);
        if reads.len() == 0 || reads[0].len() == 0 {
            lemma_halted_takes_nothing(framing, later);
        } else {
            let tail = reads.skip(1);
            let (r, got, _) = q.read(reads[0]);
            let (next, part, _) = taken(framing, reads[0]);
            law_bytes_are_taken_piece_by_piece(framing, reads[0], joined(tail));
            assert(r.buffered + joined(tail) =~= joined(tail));
            if halted(next) {
                lemma_halted_delivers_nothing(r, tail);
                assert(part + Seq::<u8>::empty() =~= part);
            } else {
                law_body_is_delivered(r, tail);
                if part.len() == 0 {
                    assert(part + taken(next, joined(tail)).1 =~= taken(next, joined(tail)).1);
                }
            }
        }
    }
}

/// A body in chunks hands on the data of its chunks, and its connection goes
/// back to the pool behind the last of them, however the bytes come in.
pub proof fn law_chunked_body_is_delivered<S>(
    p: Progress<S>,
    reads: Seq<Seq<u8>>,
    chunks: Seq<Seq<u8>>,
    beyond: Seq<u8>,
)
    requires
        p.stream is Some,
        p.pooled,
        p.framing == (BodyFraming::Chunked { state: chunked::start() }),
        forall|i: int| 0 <= i < chunks.len() ==> 0 < (#[trigger] chunks[i]).len() <= u64::MAX,
        p.buffered + joined(reads) == chunked::encoded(chunks) + beyond,
    ensures
        delivered(p, reads) == chunked::joined(chunks),
        returned(p, reads) == p.stream,
{
    law_body_is_delivered(p, reads);
    chunked::law_chunks_decode_to_their_data(chunks, beyond);
}

/// A connection goes back to the pool only when its body is complete, and then
/// the body no longer has it: it goes back once at most. A body that ends with
/// its connection never gives it back.
pub proof fn law_connection_goes_back_once<S>(p: Progress<S>, data: Seq<u8>)
    ensures
        p.next().2 is Some ==> complete(p.next().0.framing) && p.next().0.stream is None
            && p.next().0.next().2 is None && p.stream == p.next().2,
        p.read(data).2 is Some ==> complete(p.read(data).0.framing) && p.read(data).0.stream is None
            && p.read(data).0.next().2 is None && p.stream == p.read(data).2,
        p.framing is ReadUntilClose ==> p.next().2 is None && p.read(data).2 is None,
        !p.pooled ==> p.next().2 is None && p.read(data).2 is None,
{
}

/// When a body is complete, its connection does go back: with the last of its
/// bytes, or at the next step where there were none.
pub proof fn law_complete_body_gives_its_connection_back<S>(p: Progress<S>, data: Seq<u8>)
    requires
        p.stream is Some,
        p.pooled,
    ensures
        complete(p.next().0.framing) ==> p.next().2 == p.stream,
        complete(p.read(data).0.framing) && data.len() > 0 ==> p.read(data).2 == p.stream,
{
}

/// A connection that was closed or failed before its body was complete never
/// goes back to the pool.
pub proof fn law_broken_connection_is_dropped<S>(p: Progress<S>, data: Seq<u8>)
    ensures
        p.cut_off().stream is None,
        p.cut_off().next().2 is None,
        p.cut_off().read(data).2 is None,
{
}

/// The announced size is the number of bytes that are handed on, where the
/// connection yields enough of them.
pub proof fn law_announced_size<S>(p: Progress<S>, reads: Seq<Seq<u8>>)
    requires
        p.stream is Some,
        p.framing is ContentLength,
        p.buffered.len() + joined(reads).len() >= p.framing->remaining,
    ensures
        announced(p) == Some(p.framing->remaining),
        delivered(p, reads).len() == p.framing->remaining,
{
    law_body_is_delivered(p, reads);
}

/// A fixed text comes once and whole: its size is announced, it is handed on,
/// and then the body is over. The pool is left alone.
pub proof fn law_fixed_text_comes_once<S, A: Copy>(
    text: Seq<u8>,
    second: BodyView<S>,
    third: BodyView<S>,
    first_step: Outcome,
    second_step: Outcome,
    pool: BackendPool<S, A>,
    pool_between: BackendPool<S, A>,
    pool_after: BackendPool<S, A>,
    now: u64,
)
    requires
        text.len() <= u64::MAX,
        is_next(BodyView::Fixed(Some(text)), second, first_step, pool, pool_between, now),
        is_next(second, third, second_step, pool_between, pool_after, now),
    ensures
        size_of_rest(BodyView::<S>::Fixed(Some(text))) == Some(text.len() as u64),
        !ended(BodyView::<S>::Fixed(Some(text))),
        first_step is Data && first_step->Data_0 == text,
        ended(second) && size_of_rest(second) == Some(0u64),
        second_step is End,
        ended(third),
        pool_after == pool,
{
}

/// A body of a known length takes that many bytes and leaves the others; one
/// that ends with its connection takes all.
pub proof fn law_length_limits_the_body(remaining: u64, bytes: Seq<u8>)
    ensures
        ({
            let (end, data, rest) = taken(BodyFraming::ContentLength { remaining }, bytes);
            &&& data + rest == bytes
            &&& remaining <= bytes.len() ==> data.len() == remaining && complete(end)
            &&& remaining > bytes.len() ==> data == bytes && end == (BodyFraming::ContentLength {
                remaining: (remaining - bytes.len()) as u64,
            }) && !complete(end)
        }),
        ({
            let (end, data, rest) = taken(BodyFraming::ReadUntilClose, bytes);
            &&& data == bytes && rest.len() == 0
            &&& end is ReadUntilClose && !complete(end)
        }),
{
    let (end, data, rest) = taken(BodyFraming::ContentLength { remaining }, bytes);
    assert(data + rest =~= bytes);
    if remaining > bytes.len() {
        assert(data =~= bytes);
    }
}

/// When the connection is closed, a body that ends with it is over, and so is
/// one of a known length; chunks without a last one fail. The connection is
/// gone either way.
pub proof fn law_closed_connection_ends_the_body<S>(p: Progress<S>, closed: Seq<u8>)
    requires
        closed.len() == 0,
    ensures
        p.framing is ContentLength || p.framing is ReadUntilClose ==> p.read(closed).1 is End,
        p.framing is Chunked ==> p.read(closed).1 is Fail,
        p.read(closed).2 is None,
        p.read(closed).0.stream is None && !p.read(closed).0.pooled,
        p.read(closed).0.framing == p.framing && p.read(closed).0.buffered == p.buffered,
{
}

/// A body that is over hands on nothing more, and one that hands on bytes of a
/// known length or in chunks was not over. A body is over when its length is
/// used up, when its connection is gone, or behind its last chunk.
pub proof fn law_over_means_nothing_more<S>(p: Progress<S>)
    ensures
        p.over() && p.buffered.len() == 0 ==> p.next().1 is End,
        p.next().1 is Data && !(p.framing is ReadUntilClose) ==> !p.over(),
        p.next().1 is Read && p.buffered.len() == 0 ==> !p.over(),
        p.framing is ContentLength ==> (p.over() <==> p.framing->remaining == 0
            && p.buffered.len() == 0),
        p.framing is ReadUntilClose ==> (p.over() <==> p.stream is None),
        p.framing is Chunked ==> (p.over() <==> p.framing->state is Done),
{
    assert(p.buffered.len() == 0 ==> p.buffered =~= Seq::<u8>::empty());
    if p.framing is Chunked {
        let state = p.framing->state;
        assert(chunked::decoded(state, Seq::<u8>::empty()) == (
            state,
            Seq::<u8>::empty(),
            Seq::<u8>::empty(),
        ));
        if state is Done {
            assert(chunked::decoded(state, p.buffered) == (
                state,
                Seq::<u8>::empty(),
                p.buffered,
            ));
        }
    }
}

/// A body whose connection is gone and whose bytes are used up ends, but for one
/// in chunks, which fails unless its last chunk has come. With a connection it
/// reads on.
pub proof fn law_without_bytes_a_body_reads_or_ends<S>(p: Progress<S>)
    requires
        p.buffered.len() == 0,
    ensures
        p.stream is None && (p.framing is ContentLength || p.framing is ReadUntilClose)
            ==> p.next().1 is End,
        p.stream is None && p.framing is Chunked && !(p.framing->state is Done) ==> p.next().1
            is Fail,
        p.framing is Chunked && p.framing->state is Done ==> p.next().1 is End,
        p.framing is Chunked && p.framing->state is Broken ==> p.next().1 is Fail
            && p.next().0.stream is None,
        p.stream is Some && p.framing is ContentLength && p.framing->remaining > 0 ==> p.next().1
            is Read && p.next().0.stream == p.stream,
        p.stream is Some && p.framing is ReadUntilClose ==> p.next().1 is Read
            && p.next().0.stream == p.stream,
        p.stream is Some && p.framing is Chunked && !(p.framing->state is Done)
            && !(p.framing->state is Broken) ==> p.next().1 is Read && p.next().0.stream
            == p.stream,
{
    assert(p.buffered =~= Seq::<u8>::empty());
    if p.framing is Chunked {
        let state = p.framing->state;
        assert(chunked::decoded(state, Seq::<u8>::empty()) == (
            state,
            Seq::<u8>::empty(),
            Seq::<u8>::empty(),
        ));
    }
}

/// Only a body of a known length announces its size: what is still to come.
pub proof fn law_only_known_lengths_are_announced<S>(p: Progress<S>)
    ensures
        p.framing is ContentLength ==> size_of_rest(BodyView::RawStream(p)) == Some(
            p.framing->remaining,
        ),
        !(p.framing is ContentLength) ==> size_of_rest(BodyView::RawStream(p)) is None,
        ended(BodyView::RawStream(p)) == p.over(),
{
}

/// The connection of a complete body is the next one taken for its authority.
pub proof fn law_returned_connection_is_reused<S, A: Copy>(
    before: BackendPool<S, A>,
    after: BackendPool<S, A>,
    authority: Seq<char>,
    stream: S,
    then: u64,
    now: u64,
    left: Map<Seq<char>, Seq<PooledConn<S>>>,
    taken: Option<S>,
)
    requires
        took_back(before, after, authority, Some(stream), then),
        before.idle().contains_key(authority) ==> before.idle()[authority].len()
            < before.idle_per_host(),
        before.idle_per_host() > 0,
        now - then < 90_000_000_000,
        backend_pool::checked_out(after.idle(), authority, now, left, taken),
    ensures
        taken == Some(stream),
{
    backend_pool::law_given_back_is_taken_next(
        before.idle(),
        authority,
        stream,
        then,
        now,
        before.idle_per_host(),
        left,
        taken,
    );
}

/// Where no connection goes back, the pool is as it was.
pub proof fn law_pool_is_left_alone<S, A: Copy>(
    before: BackendPool<S, A>,
    after: BackendPool<S, A>,
    authority: Seq<char>,
    now: u64,
)
    requires
        took_back(before, after, authority, None, now),
    ensures
        after.idle() == before.idle(),
        after.names() == before.names(),
{
}

} // verus!
