//! One exchange with a server, from the handshake to the JSON text, as a
//! state machine.
//!
//! The machine never touches the transport.  The caller tells it what the
//! transport did (`Event`), the machine moves by one transition and says
//! what to do next (`Action`): send these bytes, read up to so many bytes,
//! step again, or stop.  Transitions only go forward, and what the exchange
//! ends with depends on the bytes of the stream alone, not on how the
//! transport cut them.

use crate::error::CodecError;
use crate::frame::{
    fed, framing, joined, lemma_fed_split, lemma_framing_settled, lemma_settle, outcome, settle,
    Envelope, FrameReader, Framing,
};
use crate::groups::{lemma_read_groups_settled, lemma_read_groups_waiting};
use crate::mc_string::string_span;
use crate::packets::{
    payload_decode, response_decode, status_query_bytes, ServerQueryResponse, StatusQuery,
    PACKET_ID,
};
use crate::varint::{read_var_int, varint_decode, VARINT_MAX_GROUPS};
use vstd::prelude::*;

verus! {

/// Where an exchange stands.
#[derive(Debug, Clone, Copy, PartialEq, Eq, Structural)]
pub enum Phase {
    /// Nothing was sent yet.
    Idle,
    /// The handshake was handed out to be sent.
    HandshakeSent,
    /// The status request was handed out to be sent.
    QuerySent,
    /// The length of the envelope is not complete.
    AwaitingEnvelopeLength,
    /// The length of the envelope is known and the frame is not complete.
    AwaitingEnvelopeBody,
    /// The frame is complete; the packet id and the length of the JSON text
    /// are looked at next.
    AwaitingJsonLength,
    /// The length of the JSON text is known; the text is taken next.
    AwaitingJsonBody,
    /// The exchange has ended, with the JSON text or with an error.
    Done,
}

/// The place of a phase in the order of the exchange.
pub open spec fn rank(phase: Phase) -> nat {
    match phase {
        Phase::Idle => 0,
        Phase::HandshakeSent => 1,
        Phase::QuerySent => 2,
        Phase::AwaitingEnvelopeLength => 3,
        Phase::AwaitingEnvelopeBody => 4,
        Phase::AwaitingJsonLength => 5,
        Phase::AwaitingJsonBody => 6,
        Phase::Done => 7,
    }
}

/// What the transport did since the last step.
pub enum Event<'a> {
    /// What was asked for was done, and it brought no bytes.
    Proceed,
    /// These bytes were read.
    Data(&'a [u8]),
    /// The stream has ended.
    EndOfStream,
}

/// An event as specifications see it.
pub enum EventView {
    Proceed,
    Data(Seq<u8>),
    EndOfStream,
}

impl<'a> View for Event<'a> {
    type V = EventView;

    open spec fn view(&self) -> EventView {
        match self {
            Event::Proceed => EventView::Proceed,
            Event::Data(bytes) => EventView::Data(bytes@),
            Event::EndOfStream => EventView::EndOfStream,
        }
    }
}

/// What the caller is to do next.
#[derive(Debug)]
pub enum Action {
    /// Send these bytes, then step with `Event::Proceed`.
    Send(Vec<u8>),
    /// Read at most this many bytes, then step with what was read, or with
    /// `Event::EndOfStream` where the stream has ended.
    Read(usize),
    /// Step again with `Event::Proceed`.
    Proceed,
    /// Stop: the exchange has ended.
    Finish,
}

/// An action as specifications see it.
pub enum ActionView {
    Send(Seq<u8>),
    Read(nat),
    Proceed,
    Finish,
}

impl View for Action {
    type V = ActionView;

    open spec fn view(&self) -> ActionView {
        match self {
            Action::Send(bytes) => ActionView::Send(bytes@),
            Action::Read(n) => ActionView::Read(*n as nat),
            Action::Proceed => ActionView::Proceed,
            Action::Finish => ActionView::Finish,
        }
    }
}

/// An exchange as specifications see it: where it stands and what it holds.
pub enum Stage {
    Idle,
    HandshakeSent,
    QuerySent,
    /// The bytes taken from the stream so far, and whether it has ended.
    Reading { received: Seq<u8>, closed: bool },
    /// The packet id and the payload of the complete frame.
    JsonLength { id: i32, payload: Seq<u8> },
    /// The payload of the complete frame, whose packet id was accepted and
    /// whose text has a length that decodes.
    JsonBody { id: i32, payload: Seq<u8> },
    /// The JSON text, or why there is none.
    Done { result: Result<Seq<char>, CodecError> },
}

/// The phase of a stage.
pub open spec fn phase_of(stage: Stage) -> Phase {
    match stage {
        Stage::Idle => Phase::Idle,
        Stage::HandshakeSent => Phase::HandshakeSent,
        Stage::QuerySent => Phase::QuerySent,
        Stage::Reading { received, closed } => if varint_decode(received) is Ok {
            Phase::AwaitingEnvelopeBody
        } else {
            Phase::AwaitingEnvelopeLength
        },
        Stage::JsonLength { .. } => Phase::AwaitingJsonLength,
        Stage::JsonBody { .. } => Phase::AwaitingJsonBody,
        Stage::Done { .. } => Phase::Done,
    }
}

/// How many bytes a reader that holds `received` asks for.
pub open spec fn wanted(received: Seq<u8>) -> nat {
    match framing(received) {
        Framing::Short { missing } => missing,
        _ => 0,
    }
}

/// The stage that reading leaves, and what to do next, once the reader
/// holds `received`.
pub open spec fn after_reading(received: Seq<u8>, closed: bool) -> (Stage, ActionView) {
    match outcome(received, closed) {
        None => (Stage::Reading { received, closed }, ActionView::Read(wanted(received))),
        Some(Err(e)) => (Stage::Done { result: Err(e) }, ActionView::Finish),
        Some(Ok((id, payload))) => (Stage::JsonLength { id, payload }, ActionView::Proceed),
    }
}

/// One transition: the stage that follows `stage` on `event`, and what the
/// caller is to do next.  `handshake` is what the exchange sends first.
pub open spec fn step_spec(stage: Stage, handshake: Seq<u8>, event: EventView) -> (
    Stage,
    ActionView,
) {
    match stage {
        Stage::Idle => (Stage::HandshakeSent, ActionView::Send(handshake)),
        Stage::HandshakeSent => (Stage::QuerySent, ActionView::Send(status_query_bytes())),
        Stage::QuerySent => after_reading(Seq::empty(), false),
        Stage::Reading { received, closed } => match event {
            EventView::Proceed => after_reading(received, closed),
            EventView::Data(chunk) => after_reading(fed(received, closed, chunk), closed),
            EventView::EndOfStream => after_reading(received, true),
        },
        Stage::JsonLength { id, payload } => if id != PACKET_ID {
            (Stage::Done { result: Err(CodecError::UnexpectedPacketId) }, ActionView::Finish)
        } else if varint_decode(payload) is Err {
            (Stage::Done { result: Err(CodecError::MalformedVarInt) }, ActionView::Finish)
        } else {
            (Stage::JsonBody { id, payload }, ActionView::Proceed)
        },
        Stage::JsonBody { id, payload } => (
            Stage::Done { result: payload_decode(id, payload) },
            ActionView::Finish,
        ),
        Stage::Done { result } => (Stage::Done { result }, ActionView::Finish),
    }
}

/// What an exchange will end with, as far as its stage decides it: nothing
/// while bytes are needed and may come.
pub open spec fn decided(stage: Stage) -> Option<Result<Seq<char>, CodecError>> {
    match stage {
        Stage::Idle | Stage::HandshakeSent | Stage::QuerySent => None,
        Stage::Reading { received, closed } => match outcome(received, closed) {
            None => None,
            Some(Err(e)) => Some(Err(e)),
            Some(Ok((id, payload))) => Some(payload_decode(id, payload)),
        },
        Stage::JsonLength { id, payload } => Some(payload_decode(id, payload)),
        Stage::JsonBody { id, payload } => Some(payload_decode(id, payload)),
        Stage::Done { result } => Some(result),
    }
}

/// No transition goes back: the phase after a step is the phase before it or
/// a later one.
pub proof fn lemma_step_forward(stage: Stage, handshake: Seq<u8>, event: EventView)
    requires
        stage matches Stage::Reading { received, closed } ==> settle(received)
            == received,
    ensures
        rank(phase_of(stage)) <= rank(phase_of(step_spec(stage, handshake, event).0)),
        step_spec(stage, handshake, event).0 matches Stage::Reading { received, closed }
            ==> settle(received) == received,
{
    match stage {
        Stage::Reading { received, closed } => {
            match event {
                EventView::Data(chunk) => {
                    lemma_fed_split(received, closed, chunk, Seq::empty());
                    if !closed && varint_decode(received) is Ok {
                        lemma_read_groups_settled(
                            received,
                            chunk,
                            VARINT_MAX_GROUPS as nat,
                        );
                        lemma_settle(received + chunk);
                    }
                },
                _ => {},
            }
        },
        Stage::QuerySent => {
            lemma_settle(Seq::<u8>::empty());
        },
        _ => {},
    }
}

/// Once the stage of an exchange decides what it ends with, no event
/// changes that; and an exchange that is done stays as it is.
pub proof fn lemma_step_keeps_decided(stage: Stage, handshake: Seq<u8>, event: EventView)
    requires
        decided(stage) is Some,
        stage matches Stage::Reading { received, closed } ==> settle(received)
            == received,
    ensures
        decided(step_spec(stage, handshake, event).0) == decided(stage),
        stage is Done ==> step_spec(stage, handshake, event) == (stage, ActionView::Finish),
{
    match stage {
        Stage::Reading { received, closed } => {
            match event {
                EventView::Data(chunk) => {
                    if !closed {
                        lemma_framing_settled(received, chunk);
                        assert((received + chunk).take(received.len() as int) == received);
                    }
                },
                _ => {},
            }
        },
        Stage::JsonLength { id, payload } => {
            if id == PACKET_ID && varint_decode(payload) is Err {
                assert(string_span(payload) is Err);
            }
        },
        _ => {},
    }
}

/// The stage that a run of events leaves.
pub open spec fn run(stage: Stage, handshake: Seq<u8>, events: Seq<EventView>) -> Stage
    decreases events.len(),
{
    if events.len() == 0 {
        stage
    } else {
        run(step_spec(stage, handshake, events[0]).0, handshake, events.drop_first())
    }
}

/// The events of a transport that hands over `chunks` one after another and
/// then ends, followed by the three steps that need no transport.
pub open spec fn script(chunks: Seq<Seq<u8>>) -> Seq<EventView>
    decreases chunks.len(),
{
    if chunks.len() == 0 {
        seq![
            EventView::EndOfStream,
            EventView::Proceed,
            EventView::Proceed,
            EventView::Proceed,
        ]
    } else {
        seq![EventView::Data(chunks[0])] + script(chunks.drop_first())
    }
}

/// How many steps a stage that decides the end is from the end.
pub open spec fn steps_left(stage: Stage) -> nat {
    match stage {
        Stage::Done { .. } => 0,
        Stage::JsonBody { .. } => 1,
        Stage::JsonLength { .. } => 2,
        _ => 3,
    }
}

/// An exchange whose stage decides what it ends with is done after three
/// more events at most, whatever they are, and ends with just that.
pub proof fn lemma_decided_runs_to_done(stage: Stage, handshake: Seq<u8>, events: Seq<EventView>)
    requires
        decided(stage) is Some,
        settled(stage),
        events.len() >= steps_left(stage),
    ensures
        run(stage, handshake, events) == (Stage::Done { result: decided(stage)->Some_0 }),
    decreases events.len(),
{
    if events.len() > 0 {
        let next = step_spec(stage, handshake, events[0]).0;
        lemma_step_keeps_decided(stage, handshake, events[0]);
        lemma_step_forward(stage, handshake, events[0]);
        lemma_decided_runs_to_done(next, handshake, events.drop_first());
    }
}

/// The script of some chunks is at least four events long.
pub proof fn lemma_script_len(chunks: Seq<Seq<u8>>)
    ensures
        script(chunks).len() == chunks.len() + 4,
    decreases chunks.len(),
{
    if chunks.len() > 0 {
        lemma_script_len(chunks.drop_first());
    }
}

/// An exchange that is reading and is handed the rest of a stream, cut in
/// any way, ends with what parsing the whole stream gives.
pub proof fn lemma_reading_ends_with_response(
    received: Seq<u8>,
    chunks: Seq<Seq<u8>>,
    handshake: Seq<u8>,
)
    requires
        settle(received) == received,
        outcome(received, false) is None,
    ensures
        run(Stage::Reading { received, closed: false }, handshake, script(chunks)) == (Stage::Done {
            result: response_decode(received + joined(chunks)),
        }),
    decreases chunks.len(),
{
    let stage = Stage::Reading { received, closed: false };
    let events = script(chunks);
    let next = step_spec(stage, handshake, events[0]).0;
    lemma_script_len(chunks);
    if chunks.len() == 0 {
        assert(received + joined(chunks) == received);
        assert(events.drop_first().len() == 3);
        if decided(next) is Some {
            lemma_decided_runs_to_done(next, handshake, events.drop_first());
        }
    } else {
        let chunk = chunks[0];
        let rest = chunks.drop_first();
        let whole = received + chunk;
        let kept = settle(whole);
        assert(events.drop_first() == script(rest));
        assert(whole + joined(rest) == received + joined(chunks));
        lemma_settle(whole);
        lemma_script_len(rest);
        if outcome(kept, false) is None {
            lemma_reading_ends_with_response(kept, rest, handshake);
        } else {
            lemma_framing_settled(whole, joined(rest));
            lemma_decided_runs_to_done(next, handshake, script(rest));
        }
    }
}

/// However the transport cuts the stream, an exchange that has sent its
/// request and is handed the whole stream ends with what parsing the whole
/// stream gives.
pub proof fn lemma_exchange_ends_with_response(chunks: Seq<Seq<u8>>, handshake: Seq<u8>)
    ensures
        run(Stage::QuerySent, handshake, seq![EventView::Proceed] + script(chunks)) == (Stage::Done {
            result: response_decode(joined(chunks)),
        }),
{
    let events = seq![EventView::Proceed] + script(chunks);
    let empty = Seq::<u8>::empty();
    assert(events.drop_first() == script(chunks));
    lemma_settle(empty);
    lemma_read_groups_waiting(empty, VARINT_MAX_GROUPS as nat);
    assert(empty + joined(chunks) == joined(chunks));
    lemma_reading_ends_with_response(empty, chunks, handshake);
}

/// What an exchange holds at each stage.
enum State {
    Idle,
    HandshakeSent,
    QuerySent,
    Reading(FrameReader),
    JsonLength(Envelope),
    JsonBody(Envelope),
    Done(Result<ServerQueryResponse, CodecError>),
}

impl State {
    spec fn stage(self) -> Stage {
        match self {
            State::Idle => Stage::Idle,
            State::HandshakeSent => Stage::HandshakeSent,
            State::QuerySent => Stage::QuerySent,
            State::Reading(reader) => Stage::Reading {
                received: reader.received(),
                closed: reader.is_closed(),
            },
            State::JsonLength(envelope) => Stage::JsonLength {
                id: envelope.packet_id@,
                payload: envelope.payload@,
            },
            State::JsonBody(envelope) => Stage::JsonBody {
                id: envelope.packet_id@,
                payload: envelope.payload@,
            },
            State::Done(result) => Stage::Done { result: result_view(result) },
        }
    }
}

/// One exchange with a server.
pub struct StatusExchange {
    handshake: Vec<u8>,
    state: State,
}

/// The result of an exchange as specifications see it: the JSON text.
pub open spec fn result_view(r: Result<ServerQueryResponse, CodecError>) -> Result<
    Seq<char>,
    CodecError,
> {
    match r {
        Ok(response) => Ok(response.json@),
        Err(e) => Err(e),
    }
}

/// Whether a stage that is reading holds no more than a reader keeps.
pub open spec fn settled(stage: Stage) -> bool {
    stage matches Stage::Reading { received, closed } ==> settle(received)
        == received
}

impl StatusExchange {
    /// Where the exchange stands and what it holds.
    pub closed spec fn stage(&self) -> Stage {
        self.state.stage()
    }

    /// The bytes that the exchange sends first.
    pub closed spec fn handshake(&self) -> Seq<u8> {
        self.handshake@
    }

    /// An exchange that sends `handshake`, then the status request, and then
    /// reads the response.
    pub fn new(handshake: Vec<u8>) -> (x: StatusExchange)
        ensures
            x.stage() == Stage::Idle,
            x.handshake() == handshake@,
    {
        StatusExchange { handshake, state: State::Idle }
    }

    /// An exchange on a stream on which the handshake was sent already: it
    /// sends the status request and reads the response.
    pub fn after_handshake() -> (x: StatusExchange)
        ensures
            x.stage() == Stage::HandshakeSent,
    {
        StatusExchange { handshake: Vec::new(), state: State::HandshakeSent }
    }

    /// Where the exchange stands.
    pub fn phase(&self) -> (p: Phase)
        ensures
            p == phase_of(self.stage()),
    {
        match &self.state {
            State::Idle => Phase::Idle,
            State::HandshakeSent => Phase::HandshakeSent,
            State::QuerySent => Phase::QuerySent,
            State::Reading(reader) => if reader.has_length() {
                Phase::AwaitingEnvelopeBody
            } else {
                Phase::AwaitingEnvelopeLength
            },
            State::JsonLength(_) => Phase::AwaitingJsonLength,
            State::JsonBody(_) => Phase::AwaitingJsonBody,
            State::Done(_) => Phase::Done,
        }
    }

    /// What follows reading: more reading, the end, or the look at what the
    /// frame holds.
    fn leave_reading(reader: FrameReader) -> (next: (State, Action))
        ensures
            (next.0.stage(), next.1@) == after_reading(reader.received(), reader.is_closed()),
            settled(next.0.stage()),
    {
        match reader.finish() {
            None => {
                let n = reader.missing();
                (State::Reading(reader), Action::Read(n))
            },
            Some(Err(e)) => (State::Done(Err(e)), Action::Finish),
            Some(Ok(envelope)) => (State::JsonLength(envelope), Action::Proceed),
        }
    }

    /// Moves the exchange by one transition on `event`, and says what to do
    /// next.  Events that bring bytes matter only while the exchange reads
    /// the envelope; everywhere else any event moves it on.
    pub fn step(&mut self, event: Event<'_>) -> (action: Action)
        ensures
            (final(self).stage(), action@) == step_spec(
                old(self).stage(),
                old(self).handshake(),
                event@,
            ),
            final(self).handshake() == old(self).handshake(),
            settled(final(self).stage()),
    {
        let mut state = State::Idle;
        core::mem::swap(&mut state, &mut self.state);
        let (next, action) = match state {
            State::Idle => (
                State::HandshakeSent,
                Action::Send(vstd::slice::slice_to_vec(self.handshake.as_slice())),
            ),
            State::HandshakeSent => (State::QuerySent, Action::Send(StatusQuery::new().to_bytes())),
            State::QuerySent => StatusExchange::leave_reading(FrameReader::new()),
            State::Reading(reader) => {
                let mut reader = reader;
                match event {
                    Event::Proceed => {},
                    Event::Data(chunk) => {
                        reader.feed(chunk);
                    },
                    Event::EndOfStream => {
                        reader.close();
                    },
                }
                StatusExchange::leave_reading(reader)
            },
            State::JsonLength(envelope) => {
                if envelope.packet_id.value() != PACKET_ID {
                    (State::Done(Err(CodecError::UnexpectedPacketId)), Action::Finish)
                } else {
                    match read_var_int(envelope.payload.as_slice()) {
                        Err(_) => (State::Done(Err(CodecError::MalformedVarInt)), Action::Finish),
                        Ok(_) => (State::JsonBody(envelope), Action::Proceed),
                    }
                }
            },
            State::JsonBody(envelope) => (
                State::Done(ServerQueryResponse::from_envelope(envelope)),
                Action::Finish,
            ),
            State::Done(result) => (State::Done(result), Action::Finish),
        };
        self.state = next;
        action
    }

    /// What the exchange ended with, once it is done.
    pub fn into_result(self) -> (r: Option<Result<ServerQueryResponse, CodecError>>)
        ensures
            match r {
                None => !(self.stage() is Done),
                Some(result) => self.stage() == (Stage::Done { result: result_view(result) }),
            },
    {
        match self.state {
            State::Done(result) => Some(result),
            _ => None,
        }
    }
}

} // verus!
