//! The exchange with a backend: the request goes out, then the head of the
//! response is read.

use bytes::BytesMut;
use vstd::prelude::*;

use crate::buffer;
use crate::wire;
use crate::wire::{read_response_head, HeadError, ResponseHead};

verus! {

// ---------------------------------------------------------------------------
// Sending
// ---------------------------------------------------------------------------

/// What happens while a request is sent.
pub enum SendEvent {
    /// There is a connection.
    Connected,
    /// What was to be written has been written.
    Written,
    /// The body of the request has yielded these bytes, or something other
    /// than bytes.
    Frame(Option<Vec<u8>>),
    /// The body of the request is over.
    BodyEnd,
    /// The body of the request could not be read.
    BodyFailed(String),
    /// All that was written is on its way.
    Flushed,
}

/// What to do next.
pub enum SendStep {
    /// Write these bytes.
    Write(Vec<u8>),
    /// Ask the body of the request for more.
    NextFrame,
    /// Send what was written.
    Flush,
    /// Read the head of the response, see [`read_head`].
    ReadHead,
    /// Give up.
    Fail(String),
}

/// An event as plain values.
pub enum Happened {
    Connected,
    Written,
    Frame(Option<Seq<u8>>),
    BodyEnd,
    BodyFailed(Seq<char>),
    Flushed,
}

/// A step as plain values.
pub enum Doing {
    Write(Seq<u8>),
    NextFrame,
    Flush,
    ReadHead,
    Fail(Seq<char>),
}

impl View for SendEvent {
    type V = Happened;

    open spec fn view(&self) -> Happened {
        match self {
            SendEvent::Connected => Happened::Connected,
            SendEvent::Written => Happened::Written,
            SendEvent::Frame(Some(data)) => Happened::Frame(Some(data@)),
            SendEvent::Frame(None) => Happened::Frame(None),
            SendEvent::BodyEnd => Happened::BodyEnd,
            SendEvent::BodyFailed(e) => Happened::BodyFailed(e@),
            SendEvent::Flushed => Happened::Flushed,
        }
    }
}

impl View for SendStep {
    type V = Doing;

    open spec fn view(&self) -> Doing {
        match self {
            SendStep::Write(data) => Doing::Write(data@),
            SendStep::NextFrame => Doing::NextFrame,
            SendStep::Flush => Doing::Flush,
            SendStep::ReadHead => Doing::ReadHead,
            SendStep::Fail(e) => Doing::Fail(e@),
        }
    }
}

/// The step after an event, for a request with this head; `empty` says that it
/// has no body. The head goes first, then the body as it comes, then all is
/// flushed, and then the response is read.
pub open spec fn doing_after(head: Seq<u8>, empty: bool, event: Happened) -> Doing {
    match event {
        Happened::Connected => Doing::Write(head),
        Happened::Written => if empty {
            Doing::Flush
        } else {
            Doing::NextFrame
        },
        Happened::Frame(Some(data)) => Doing::Write(data),
        Happened::Frame(None) => Doing::NextFrame,
        Happened::BodyEnd => Doing::Flush,
        Happened::BodyFailed(e) => Doing::Fail("error reading request body: "@ + e),
        Happened::Flushed => Doing::ReadHead,
    }
}

/// A request that is being sent.
pub struct Sender {
    head: Vec<u8>,
    empty: bool,
}

impl Sender {
    /// The head of the request.
    pub closed spec fn head(self) -> Seq<u8> {
        self.head@
    }

    /// Whether the request has no body.
    pub closed spec fn empty(self) -> bool {
        self.empty
    }

    pub fn new(head: Vec<u8>, empty: bool) -> (s: Sender)
        ensures
            s.head() == head@,
            s.empty() == empty,
    {
        Sender { head, empty }
    }

    /// The step after an event.
    pub fn step(&self, event: SendEvent) -> (r: SendStep)
        ensures
            r@ == doing_after(self.head(), self.empty(), event@),
    {
        match event {
            SendEvent::Connected => SendStep::Write(copy_bytes(&self.head)),
            SendEvent::Written => if self.empty {
                SendStep::Flush
            } else {
                SendStep::NextFrame
            },
            SendEvent::Frame(Some(data)) => SendStep::Write(data),
            SendEvent::Frame(None) => SendStep::NextFrame,
            SendEvent::BodyEnd => SendStep::Flush,
            SendEvent::BodyFailed(e) => {
                let mut s = "error reading request body: ".to_string();
                s.append(e.as_str());
                SendStep::Fail(s)
            },
            SendEvent::Flushed => SendStep::ReadHead,
        }
    }
}

fn copy_bytes(v: &Vec<u8>) -> (r: Vec<u8>)
    ensures
        r@ == v@,
{
    let mut r: Vec<u8> = Vec::new();
    for i in 0..v.len()
        invariant
            r@ == v@.take(i as int),
    {
        r.push(v[i]);
        assert(v@.take(i + 1) =~= v@.take(i as int).push(v@[i as int]));
    }
    assert(v@.take(v@.len() as int) =~= v@);
    r
}

// ---------------------------------------------------------------------------
// Reading the head
// ---------------------------------------------------------------------------

/// What to do next to read the head of a response.
pub enum HeadStep {
    /// Read more into the buffer.
    Read,
    /// The head is complete.
    Done(ResponseHead),
    /// There is no response.
    Fail(HeadError),
}

/// Whether a step is the one for a response that parses to `outcome`.
pub open spec fn is_head_step(
    outcome: Result<Option<(nat, Option<u16>, Seq<(Seq<char>, Seq<u8>)>)>, Seq<char>>,
    bytes: Seq<u8>,
    step: HeadStep,
    left: Seq<u8>,
) -> bool {
    wire::is_taken(
        outcome,
        bytes,
        match step {
            HeadStep::Read => Ok(None),
            HeadStep::Done(head) => Ok(Some(head)),
            HeadStep::Fail(e) => Err(e),
        },
        left,
    )
}

/// Whether a step is the one after `read` bytes were read, where the buffer
/// parses to `outcome`: a connection that was closed has no response.
pub open spec fn is_read(
    read: Option<usize>,
    outcome: Result<Option<(nat, Option<u16>, Seq<(Seq<char>, Seq<u8>)>)>, Seq<char>>,
    bytes: Seq<u8>,
    step: HeadStep,
    left: Seq<u8>,
) -> bool {
    if read == Some(0usize) {
        step == HeadStep::Fail(HeadError::Closed) && left == bytes
    } else {
        is_head_step(outcome, bytes, step, left)
    }
}

/// Looks for the head of a response in the buffer. `read` is the number of bytes
/// that were just read into it; none read means that the connection was closed.
pub fn read_head(buf: &mut BytesMut, read: Option<usize>) -> (r: HeadStep)
    ensures
        is_read(
            read,
            wire::parsed_head(buffer::held(*old(buf)), wire::MAX_RESPONSE_FIELDS as nat),
            buffer::held(*old(buf)),
            r,
            buffer::held(*final(buf)),
        ),
{
    if let Some(n) = read {
        if n == 0 {
            return HeadStep::Fail(HeadError::Closed);
        }
    }
    match read_response_head(buf) {
        Ok(Some(head)) => HeadStep::Done(head),
        Ok(None) => HeadStep::Read,
        Err(e) => HeadStep::Fail(e),
    }
}

// ---------------------------------------------------------------------------
// Laws
// ---------------------------------------------------------------------------

/// All that is written for a list of events.
pub open spec fn written(head: Seq<u8>, empty: bool, events: Seq<Happened>) -> Seq<u8>
    decreases events.len(),
{
    if events.len() == 0 {
        Seq::empty()
    } else {
        written(head, empty, events.drop_last()) + (match doing_after(head, empty, events.last()) {
            Doing::Write(data) => data,
            _ => Seq::empty(),
        })
    }
}

/// All that the body of the request yields over a list of events.
pub open spec fn yielded(events: Seq<Happened>) -> Seq<u8>
    decreases events.len(),
{
    if events.len() == 0 {
        Seq::empty()
    } else {
        yielded(events.drop_last()) + (match events.last() {
            Happened::Frame(Some(data)) => data,
            _ => Seq::empty(),
        })
    }
}

/// What goes out on a new connection is the head of the request, and then its
/// body, whole and in order.
pub proof fn law_request_goes_out_whole(head: Seq<u8>, empty: bool, events: Seq<Happened>)
    requires
        events.len() > 0,
        events[0] is Connected,
        forall|i: int| 1 <= i < events.len() ==> !(#[trigger] events[i] is Connected),
    ensures
        written(head, empty, events) == head + yielded(events),
    decreases events.len(),
{
    let init = events.drop_last();
    if events.len() == 1 {
        assert(written(head, empty, init) =~= Seq::<u8>::empty());
        assert(written(head, empty, events) =~= head);
        assert(yielded(init) =~= Seq::<u8>::empty());
        assert(yielded(events) =~= Seq::<u8>::empty());
        assert(head + yielded(events) =~= head);
    } else {
        assert(init[0] == events[0]);
        assert forall|i: int| 1 <= i < init.len() implies !(#[trigger] init[i] is Connected) by {
            assert(init[i] == events[i]);
        }
        law_request_goes_out_whole(head, empty, init);
        assert(!(events[events.len() - 1] is Connected));
        assert(written(head, empty, events) =~= head + yielded(events));
    }
}

/// The head is written once there is a connection, and what the body yields as
/// it comes. The body is asked for more until it ends, unless there is none.
/// Then all is flushed, and only then the response is read. A body that cannot
/// be read ends it all, and the reason is told.
pub proof fn law_each_step_has_its_cause(head: Seq<u8>, empty: bool, event: Happened)
    ensures
        doing_after(head, empty, event) is ReadHead <==> event is Flushed,
        doing_after(head, empty, event) is Flush <==> event is BodyEnd || (event is Written
            && empty),
        doing_after(head, empty, event) is NextFrame <==> (event is Written && !empty) || (
        event is Frame && event->Frame_0 is None),
        doing_after(head, empty, event) is Fail <==> event is BodyFailed,
        doing_after(head, empty, event) is Write <==> event is Connected || (event is Frame
            && event->Frame_0 is Some),
        event is Connected ==> doing_after(head, empty, event)->Write_0 == head,
        event is Frame && event->Frame_0 is Some ==> doing_after(head, empty, event)->Write_0
            == event->Frame_0->0,
        event is BodyFailed ==> doing_after(head, empty, event)->Fail_0
            == "error reading request body: "@ + event->BodyFailed_0,
{
}

/// Reading stops where the connection is closed, where the head is complete, or
/// where the bytes are no response, and nowhere else. Until then no byte is
/// lost.
pub proof fn law_reading_goes_on_until_the_head_is_complete(
    read: Option<usize>,
    outcome: Result<Option<(nat, Option<u16>, Seq<(Seq<char>, Seq<u8>)>)>, Seq<char>>,
    bytes: Seq<u8>,
    step: HeadStep,
    left: Seq<u8>,
)
    requires
        is_read(read, outcome, bytes, step, left),
    ensures
        read == Some(0usize) ==> step is Fail && step->Fail_0 is Closed && left == bytes,
        read != Some(0usize) ==> (step is Read <==> outcome is Ok && outcome->Ok_0 is None),
        read != Some(0usize) ==> (step is Done <==> outcome is Ok && outcome->Ok_0 is Some),
        read != Some(0usize) && outcome is Err ==> step is Fail && step->Fail_0 is Invalid
            && step->Fail_0->Invalid_0@ == outcome->Err_0,
        step is Read ==> left == bytes,
        step is Done ==> ({
            let (len, code, fs) = outcome->Ok_0->0;
            &&& buffer::held(step->Done_0.rest) == bytes.skip(len as int)
            &&& code is Some ==> step->Done_0.status == code->0
        }),
{
}

} // verus!
