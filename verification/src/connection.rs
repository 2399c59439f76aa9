//! The life of one client connection, as a state machine without I/O.
//!
//! The machine is told what happened on the stream and answers with what to
//! do next. Whoever drives it reads and writes the stream and executes the
//! commands on the store; the machine frames, interprets and decides.

use vstd::prelude::*;
use crate::codec::{decode, encode, Decoded};
use crate::command::{
    command_of, interpret, request_of, same_word, Command, CommandError, Request,
};
use crate::decimal::numeral;
use crate::store::{entries_after, reply_to, Entries};
use crate::value::{Model, Value};
use crate::wire::{
    crlf, lemma_parse_len, lemma_parse_stable, lemma_short_bulk, parse, wire, Parsed,
    ProtocolError, TAG_BULK,
};

verus! {

/// Where a connection stands.
#[derive(Clone, Copy, Debug, PartialEq, Eq, Structural)]
pub enum Phase {
    /// Waiting for bytes of the next request.
    Reading,
    /// A command was handed out and its result is awaited.
    Dispatching,
    /// A reply was handed out and is being written.
    Writing,
    /// Over; nothing more is read or written.
    Closed,
}

/// Why a connection was closed.
#[derive(Clone, Copy, Debug, PartialEq, Eq, Structural)]
pub enum Reason {
    /// The peer ended the stream between two requests. This is no error.
    Disconnected,
    /// The bytes received are no value of the protocol.
    Protocol(ProtocolError),
    /// The value received is no well-formed command.
    Command(CommandError),
    /// Reading or writing the stream failed.
    Io,
    /// The driver reported something that cannot happen in the current phase.
    Unexpected,
}

/// What happened since the last step.
#[derive(Debug, PartialEq, Eq)]
pub enum Event {
    /// These bytes were read from the stream.
    Received(Vec<u8>),
    /// The stream reached its end.
    EndOfStream,
    /// The command was executed, with this reply or this error.
    Executed(Result<Value, CommandError>),
    /// The reply was written and flushed.
    Flushed,
    /// Reading or writing the stream failed.
    Failed,
}

/// What to do next.
#[derive(Debug, PartialEq, Eq)]
pub enum Action {
    /// Read more bytes from the stream.
    Read,
    /// Execute this command on the store.
    Execute(Command),
    /// Write these bytes to the stream and flush it.
    Write(Vec<u8>),
    /// Stop, for this reason.
    Close(Reason),
}

/// The model of an [`Event`].
pub enum Occurrence {
    Received(Seq<u8>),
    EndOfStream,
    Executed(Result<Model, CommandError>),
    Flushed,
    Failed,
}

/// The model of an [`Action`].
pub enum Decision {
    Read,
    Execute(Request),
    Write(Seq<u8>),
    Close(Reason),
}

/// The model of a [`Connection`]: its phase and the bytes received but not
/// yet used.
pub struct State {
    pub phase: Phase,
    pub buffer: Seq<u8>,
}

impl View for Event {
    type V = Occurrence;

    open spec fn view(&self) -> Occurrence {
        match self {
            Event::Received(bytes) => Occurrence::Received(bytes@),
            Event::EndOfStream => Occurrence::EndOfStream,
            Event::Executed(Ok(reply)) => Occurrence::Executed(Ok(reply@)),
            Event::Executed(Err(e)) => Occurrence::Executed(Err(*e)),
            Event::Flushed => Occurrence::Flushed,
            Event::Failed => Occurrence::Failed,
        }
    }
}

impl View for Action {
    type V = Decision;

    open spec fn view(&self) -> Decision {
        match self {
            Action::Read => Decision::Read,
            Action::Execute(command) => Decision::Execute(command@),
            Action::Write(bytes) => Decision::Write(bytes@),
            Action::Close(reason) => Decision::Close(*reason),
        }
    }
}

/// The end of a connection: the closed state that keeps `buffer`, and the
/// decision to stop for `reason`.
pub open spec fn close(buffer: Seq<u8>, reason: Reason) -> (State, Decision) {
    (State { phase: Phase::Closed, buffer }, Decision::Close(reason))
}

/// What a connection does when it looks for the next request in `buffer`.
/// A whole value at the front is taken out and interpreted: a command is
/// handed out, anything else ends the connection. Where no whole value is
/// there yet, more bytes are asked for. Bytes that begin no value end the
/// connection.
pub open spec fn next_request(buffer: Seq<u8>) -> (State, Decision) {
    match parse(buffer) {
        Parsed::Complete { value, len } => {
            let rest = buffer.skip(len as int);
            match command_of(value) {
                Ok((name, args)) => match request_of(name, args) {
                    Ok(request) => (
                        State { phase: Phase::Dispatching, buffer: rest },
                        Decision::Execute(request),
                    ),
                    Err(e) => close(rest, Reason::Command(e)),
                },
                Err(e) => close(rest, Reason::Command(e)),
            }
        },
        Parsed::Incomplete => (State { phase: Phase::Reading, buffer }, Decision::Read),
        Parsed::Invalid(e) => close(buffer, Reason::Protocol(e)),
    }
}

/// The transition function: the state after `event` and what to do then.
pub open spec fn step(state: State, event: Occurrence) -> (State, Decision) {
    match (state.phase, event) {
        (Phase::Closed, _) => close(state.buffer, Reason::Unexpected),
        (_, Occurrence::Failed) => close(state.buffer, Reason::Io),
        (Phase::Reading, Occurrence::Received(bytes)) => next_request(state.buffer + bytes),
        (Phase::Reading, Occurrence::EndOfStream) => if state.buffer.len() == 0 {
            close(state.buffer, Reason::Disconnected)
        } else {
            close(state.buffer, Reason::Protocol(ProtocolError::Truncated))
        },
        (Phase::Dispatching, Occurrence::Executed(Ok(reply))) => (
            State { phase: Phase::Writing, buffer: state.buffer },
            Decision::Write(wire(reply)),
        ),
        (Phase::Dispatching, Occurrence::Executed(Err(e))) => close(
            state.buffer,
            Reason::Command(e),
        ),
        (Phase::Writing, Occurrence::Flushed) => next_request(state.buffer),
        _ => close(state.buffer, Reason::Unexpected),
    }
}

/// One client connection: its phase and the bytes received but not yet used.
pub struct Connection {
    phase: Phase,
    buffer: Vec<u8>,
}

impl View for Connection {
    type V = State;

    closed spec fn view(&self) -> State {
        State { phase: self.phase, buffer: self.buffer@ }
    }
}

impl Connection {
    /// A connection that has received nothing yet and waits for bytes.
    pub fn new() -> (connection: Connection)
        ensures
            connection@ == (State { phase: Phase::Reading, buffer: Seq::<u8>::empty() }),
    {
        Connection { phase: Phase::Reading, buffer: Vec::new() }
    }

    /// The phase the connection is in.
    pub fn phase(&self) -> (phase: Phase)
        ensures
            phase == self@.phase,
    {
        self.phase
    }

    /// The number of bytes received but not yet used.
    pub fn buffered(&self) -> (n: usize)
        ensures
            n == self@.buffer.len(),
    {
        self.buffer.len()
    }

    /// Closes the connection for `reason`.
    fn close(&mut self, reason: Reason) -> (action: Action)
        ensures
            (final(self)@, action@) == close(old(self)@.buffer, reason),
    {
        self.phase = Phase::Closed;
        Action::Close(reason)
    }

    /// Looks for the next request in the buffer.
    fn next_request(&mut self) -> (action: Action)
        ensures
            (final(self)@, action@) == next_request(old(self)@.buffer),
    {
        match decode(self.buffer.as_slice()) {
            Decoded::Complete { value, len } => {
                let rest = self.buffer.split_off(len);
                self.buffer = rest;
                match value.to_command() {
                    Ok((name, args)) => match interpret(name, args) {
                        Ok(command) => {
                            self.phase = Phase::Dispatching;
                            Action::Execute(command)
                        },
                        Err(e) => self.close(Reason::Command(e)),
                    },
                    Err(e) => self.close(Reason::Command(e)),
                }
            },
            Decoded::Incomplete => {
                self.phase = Phase::Reading;
                Action::Read
            },
            Decoded::Invalid(e) => self.close(Reason::Protocol(e)),
        }
    }

    /// Takes note of `event` and says what to do next.
    pub fn step(&mut self, event: Event) -> (action: Action)
        ensures
            (final(self)@, action@) == step(old(self)@, event@),
    {
        match self.phase {
            Phase::Closed => self.close(Reason::Unexpected),
            Phase::Reading => match event {
                Event::Failed => self.close(Reason::Io),
                Event::Received(bytes) => {
                    let mut bytes = bytes;
                    self.buffer.append(&mut bytes);
                    self.next_request()
                },
                Event::EndOfStream => if self.buffer.len() == 0 {
                    self.close(Reason::Disconnected)
                } else {
                    self.close(Reason::Protocol(ProtocolError::Truncated))
                },
                _ => self.close(Reason::Unexpected),
            },
            Phase::Dispatching => match event {
                Event::Failed => self.close(Reason::Io),
                Event::Executed(Ok(reply)) => {
                    self.phase = Phase::Writing;
                    Action::Write(encode(&reply))
                },
                Event::Executed(Err(e)) => self.close(Reason::Command(e)),
                _ => self.close(Reason::Unexpected),
            },
            Phase::Writing => match event {
                Event::Failed => self.close(Reason::Io),
                Event::Flushed => self.next_request(),
                _ => self.close(Reason::Unexpected),
            },
        }
    }
}

/// A closed connection stays closed, whatever is reported to it.
pub proof fn lemma_closed_is_final(state: State, event: Occurrence)
    requires
        state.phase == Phase::Closed,
    ensures
        step(state, event) == close(state.buffer, Reason::Unexpected),
{
}

/// A connection asks for more bytes only when the bytes it has hold no whole
/// value: no request waits in the buffer while the connection reads.
pub proof fn lemma_reads_only_when_incomplete(state: State, event: Occurrence)
    ensures
        step(state, event).1 is Read ==> step(state, event).0.phase == Phase::Reading && parse(
            step(state, event).0.buffer,
        ) is Incomplete,
        step(state, event).1 is Close <==> step(state, event).0.phase == Phase::Closed,
{
}

/// How the stream is cut into reads makes no difference to what is decided:
/// once the buffer holds a request, or bytes that are none, the decision is
/// the same when more bytes have already arrived behind them, and those bytes
/// wait in the buffer.
pub proof fn lemma_decision_is_final(buffer: Seq<u8>, more: Seq<u8>)
    ensures
        !(next_request(buffer).1 is Read) ==> {
            &&& next_request(buffer + more).1 == next_request(buffer).1
            &&& next_request(buffer + more).0.phase == next_request(buffer).0.phase
            &&& next_request(buffer + more).0.buffer == next_request(buffer).0.buffer + more
        },
{
    lemma_parse_stable(buffer, more);
    lemma_parse_len(buffer);
}

/// Requests are handled one at a time: a command is handed out only for a
/// request found on new bytes or once the reply before it was flushed, and a
/// reply is handed out only for the command that was executed.
pub proof fn lemma_one_request_at_a_time(state: State, event: Occurrence)
    ensures
        step(state, event).1 is Execute ==> (state.phase == Phase::Reading && event is Received)
            || (state.phase == Phase::Writing && event is Flushed),
        step(state, event).1 is Write ==> state.phase == Phase::Dispatching
            && event matches Occurrence::Executed(Ok(_)),
        step(state, event).1 is Execute <==> step(state, event).0.phase == Phase::Dispatching,
        step(state, event).1 is Write <==> step(state, event).0.phase == Phase::Writing,
{
}

/// A name that is none of the four commands is answered with an error that
/// names it, the store stays as it is, and the connection goes on: once the
/// reply is written it looks for the next request in what it has buffered.
pub proof fn lemma_unknown_command_is_answered(
    name: Seq<char>,
    args: Seq<Model>,
    db: Entries,
    buffer: Seq<u8>,
)
    requires
        !same_word(name, "ping"@),
        !same_word(name, "echo"@),
        !same_word(name, "set"@),
        !same_word(name, "get"@),
    ensures
        request_of(name, args) == Ok::<_, CommandError>(Request::Unknown(name)),
        reply_to(db, Request::Unknown(name)) == Ok::<_, CommandError>(
            Model::Error("command not implemented: "@ + name),
        ),
        entries_after(db, Request::Unknown(name)) == db,
        step(
            State { phase: Phase::Dispatching, buffer },
            Occurrence::Executed(reply_to(db, Request::Unknown(name))),
        ) == (
            State { phase: Phase::Writing, buffer },
            Decision::Write(wire(Model::Error("command not implemented: "@ + name))),
        ),
        step(State { phase: Phase::Writing, buffer }, Occurrence::Flushed) == next_request(buffer),
{
}

/// A bulk string whose header announces more bytes than arrive closes the
/// connection without a reply: the connection asks for more bytes, and when
/// the stream ends instead it stops with an error.
pub proof fn lemma_truncated_bulk_closes(n: nat, payload: Seq<u8>)
    requires
        n <= u64::MAX,
        payload.len() < n + 2,
    ensures
        ({
            let bytes = seq![TAG_BULK] + numeral(n) + crlf() + payload;
            let start = State { phase: Phase::Reading, buffer: Seq::<u8>::empty() };
            let waiting = State { phase: Phase::Reading, buffer: bytes };
            &&& step(start, Occurrence::Received(bytes)) == (waiting, Decision::Read)
            &&& step(waiting, Occurrence::EndOfStream) == close(
                bytes,
                Reason::Protocol(ProtocolError::Truncated),
            )
        }),
{
    lemma_short_bulk(n, payload);
}

} // verus!
