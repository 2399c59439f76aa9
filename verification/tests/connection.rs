use respkv::command::{Command, CommandError};
use respkv::connection::{Action, Reason, Connection, Event, Phase};
use respkv::store::{Expiry, Store};
use respkv::value::Value;
use respkv::wire::ProtocolError;

fn received(bytes: &[u8]) -> Event {
    Event::Received(bytes.to_vec())
}

fn write(bytes: &[u8]) -> Action {
    Action::Write(bytes.to_vec())
}

fn text(s: &str) -> String {
    s.to_string()
}

/// Plays the part of the driver on the bytes `input`, followed by the end of
/// the stream: returns what was written, the removals asked for, and why the
/// connection closed.
fn serve(store: &mut Store, input: &[u8]) -> (Vec<u8>, Vec<Expiry>, Reason) {
    let mut connection = Connection::new();
    let mut written = Vec::new();
    let mut due = Vec::new();
    let mut unread = Some(input.to_vec());
    let mut action = Action::Read;
    for _ in 0..10_000 {
        let event = match action {
            Action::Read => match unread.take() {
                Some(bytes) => Event::Received(bytes),
                None => Event::EndOfStream,
            },
            Action::Execute(command) => match store.execute(command) {
                Ok(outcome) => {
                    due.extend(outcome.expiry);
                    Event::Executed(Ok(outcome.reply))
                }
                Err(e) => Event::Executed(Err(e)),
            },
            Action::Write(bytes) => {
                written.extend(bytes);
                Event::Flushed
            }
            Action::Close(reason) => return (written, due, reason),
        };
        action = connection.step(event);
    }
    panic!("the connection did not close");
}

#[test]
fn a_new_connection_reads() {
    let connection = Connection::new();
    assert_eq!(connection.phase(), Phase::Reading);
    assert_eq!(connection.buffered(), 0);
}

#[test]
fn ping_is_answered_with_pong() {
    let mut store = Store::new();
    let (written, due, reason) = serve(&mut store, b"*1\r\n$4\r\nPING\r\n");
    assert_eq!(written, b"+PONG\r\n".to_vec());
    assert_eq!(due, vec![]);
    assert_eq!(reason, Reason::Disconnected);
}

#[test]
fn echo_is_answered_with_its_argument() {
    let mut store = Store::new();
    let (written, _, reason) = serve(&mut store, b"*2\r\n$4\r\nECHO\r\n$5\r\nhello\r\n");
    assert_eq!(written, b"$5\r\nhello\r\n".to_vec());
    assert_eq!(reason, Reason::Disconnected);
}

#[test]
fn get_of_a_key_never_set_is_answered_with_null() {
    let mut store = Store::new();
    let (written, _, reason) = serve(&mut store, b"*2\r\n$3\r\nGET\r\n$3\r\nkey\r\n");
    assert_eq!(written, b"$-1\r\n".to_vec());
    assert_eq!(reason, Reason::Disconnected);
}

#[test]
fn set_then_get_in_one_session() {
    let mut store = Store::new();
    let (written, due, reason) = serve(
        &mut store,
        b"*3\r\n$3\r\nSET\r\n$1\r\nk\r\n$1\r\nv\r\n*2\r\n$3\r\nGET\r\n$1\r\nk\r\n",
    );
    assert_eq!(written, b"+OK\r\n$1\r\nv\r\n".to_vec());
    assert_eq!(due, vec![]);
    assert_eq!(reason, Reason::Disconnected);
    assert_eq!(store.get("k"), Some(text("v")));
}

#[test]
fn set_with_px_asks_for_the_removal() {
    let mut store = Store::new();
    let (written, due, reason) = serve(
        &mut store,
        b"*5\r\n$3\r\nset\r\n$1\r\nk\r\n$1\r\nv\r\n$2\r\npx\r\n$3\r\n100\r\n",
    );
    assert_eq!(written, b"+OK\r\n".to_vec());
    assert_eq!(due, vec![Expiry { key: text("k"), delay_ms: 100 }]);
    assert_eq!(reason, Reason::Disconnected);
    assert_eq!(store.get("k"), Some(text("v")));
    store.expire(&due[0]);
    assert_eq!(store.get("k"), None);
}

#[test]
fn set_with_other_flag_sets_without_expiry() {
    let mut store = Store::new();
    let (written, due, _) = serve(
        &mut store,
        b"*5\r\n$3\r\nSET\r\n$1\r\nk\r\n$1\r\nv\r\n$2\r\nEX\r\n$3\r\n100\r\n",
    );
    assert_eq!(written, b"+OK\r\n".to_vec());
    assert_eq!(due, vec![]);
    assert_eq!(store.get("k"), Some(text("v")));
}

#[test]
fn an_unknown_command_is_answered_and_the_connection_goes_on() {
    let mut store = Store::new();
    let (written, _, reason) = serve(&mut store, b"*1\r\n$3\r\nFOO\r\n*1\r\n$4\r\nPING\r\n");
    assert_eq!(written, b"-command not implemented: FOO\r\n+PONG\r\n".to_vec());
    assert_eq!(reason, Reason::Disconnected);
}

#[test]
fn a_truncated_bulk_string_closes_without_reply() {
    let mut store = Store::new();
    let (written, _, reason) = serve(&mut store, b"*2\r\n$4\r\nECHO\r\n$10\r\nhel");
    assert_eq!(written, Vec::<u8>::new());
    assert_eq!(reason, Reason::Protocol(ProtocolError::Truncated));
}

#[test]
fn a_truncated_request_after_a_whole_one_closes_after_the_first_reply() {
    let mut store = Store::new();
    let (written, _, reason) = serve(&mut store, b"*1\r\n$4\r\nPING\r\n*1\r\n$4\r\nPI");
    assert_eq!(written, b"+PONG\r\n".to_vec());
    assert_eq!(reason, Reason::Protocol(ProtocolError::Truncated));
}

#[test]
fn the_end_of_the_stream_before_any_byte_is_a_disconnect() {
    let mut store = Store::new();
    let (written, _, reason) = serve(&mut store, b"");
    assert_eq!(written, Vec::<u8>::new());
    assert_eq!(reason, Reason::Disconnected);
}

#[test]
fn malformed_framing_closes_without_reply() {
    let mut store = Store::new();
    let (written, _, reason) = serve(&mut store, b"PING\r\n");
    assert_eq!(written, Vec::<u8>::new());
    assert_eq!(reason, Reason::Protocol(ProtocolError::UnknownTag));
    let (written, _, reason) = serve(&mut store, b"*1\r\n$x\r\nPING\r\n");
    assert_eq!(written, Vec::<u8>::new());
    assert_eq!(reason, Reason::Protocol(ProtocolError::InvalidLength));
    let (written, _, reason) = serve(&mut store, b"*1\r\n$4\r\nPINGPONG\r\n");
    assert_eq!(written, Vec::<u8>::new());
    assert_eq!(reason, Reason::Protocol(ProtocolError::MissingTerminator));
    let (written, _, reason) = serve(&mut store, b"*1\r\n$1\r\n\xff\r\n");
    assert_eq!(written, Vec::<u8>::new());
    assert_eq!(reason, Reason::Protocol(ProtocolError::InvalidText));
}

#[test]
fn a_value_that_is_no_command_closes_without_reply() {
    let mut store = Store::new();
    let (written, _, reason) = serve(&mut store, b"+PING\r\n");
    assert_eq!(written, Vec::<u8>::new());
    assert_eq!(reason, Reason::Command(CommandError::NotAnArray));
    let (_, _, reason) = serve(&mut store, b"*0\r\n");
    assert_eq!(reason, Reason::Command(CommandError::EmptyArray));
    let (_, _, reason) = serve(&mut store, b"*2\r\n$4\r\nECHO\r\n+x\r\n");
    assert_eq!(reason, Reason::Command(CommandError::NotBulkString));
    let (_, _, reason) = serve(&mut store, b"$-1\r\n");
    assert_eq!(reason, Reason::Command(CommandError::NotAnArray));
}

#[test]
fn a_missing_argument_closes_without_reply() {
    let mut store = Store::new();
    let (written, _, reason) = serve(&mut store, b"*1\r\n$4\r\nECHO\r\n");
    assert_eq!(written, Vec::<u8>::new());
    assert_eq!(reason, Reason::Command(CommandError::MissingArgument));
    let (written, _, reason) = serve(&mut store, b"*2\r\n$3\r\nSET\r\n$1\r\nk\r\n");
    assert_eq!(written, Vec::<u8>::new());
    assert_eq!(reason, Reason::Command(CommandError::MissingArgument));
    assert_eq!(store.get("k"), None);
}

#[test]
fn an_unreadable_expiry_closes_after_the_value_was_stored() {
    let mut store = Store::new();
    let (written, due, reason) = serve(
        &mut store,
        b"*5\r\n$3\r\nSET\r\n$1\r\nk\r\n$1\r\nv\r\n$2\r\nPX\r\n$4\r\nsoon\r\n*1\r\n$4\r\nPING\r\n",
    );
    assert_eq!(written, Vec::<u8>::new());
    assert_eq!(due, vec![]);
    assert_eq!(reason, Reason::Command(CommandError::InvalidExpiry));
    assert_eq!(store.get("k"), Some(text("v")));
}

#[test]
fn a_request_may_arrive_in_pieces() {
    let mut connection = Connection::new();
    assert_eq!(connection.step(received(b"*2\r\n$4\r")), Action::Read);
    assert_eq!(connection.phase(), Phase::Reading);
    assert_eq!(connection.step(received(b"\nECHO\r\n$2\r\nh")), Action::Read);
    assert_eq!(connection.buffered(), 19);
    assert_eq!(
        connection.step(received(b"i\r\n")),
        Action::Execute(Command::Echo(Value::BulkString(text("hi"))))
    );
    assert_eq!(connection.phase(), Phase::Dispatching);
    assert_eq!(connection.buffered(), 0);
}

#[test]
fn requests_received_together_are_answered_one_by_one() {
    let mut connection = Connection::new();
    assert_eq!(
        connection.step(received(b"*1\r\n$4\r\nPING\r\n*2\r\n$3\r\nGET\r\n$1\r\nk\r\n*1\r\n")),
        Action::Execute(Command::Ping)
    );
    assert_eq!(
        connection.step(Event::Executed(Ok(Value::SimpleString(text("PONG"))))),
        write(b"+PONG\r\n")
    );
    assert_eq!(connection.phase(), Phase::Writing);
    assert_eq!(
        connection.step(Event::Flushed),
        Action::Execute(Command::GetKey { key: text("k") })
    );
    assert_eq!(connection.step(Event::Executed(Ok(Value::NullValue))), write(b"$-1\r\n"));
    assert_eq!(connection.step(Event::Flushed), Action::Read);
    assert_eq!(connection.phase(), Phase::Reading);
    assert_eq!(connection.buffered(), 4);
    assert_eq!(
        connection.step(Event::EndOfStream),
        Action::Close(Reason::Protocol(ProtocolError::Truncated))
    );
    assert_eq!(connection.phase(), Phase::Closed);
}

#[test]
fn an_error_of_the_execution_closes() {
    let mut connection = Connection::new();
    let _ = connection.step(received(b"*1\r\n$4\r\nPING\r\n"));
    assert_eq!(
        connection.step(Event::Executed(Err(CommandError::InvalidExpiry))),
        Action::Close(Reason::Command(CommandError::InvalidExpiry))
    );
    assert_eq!(connection.phase(), Phase::Closed);
}

#[test]
fn a_failure_of_the_stream_closes_in_every_phase() {
    let mut reading = Connection::new();
    assert_eq!(reading.step(Event::Failed), Action::Close(Reason::Io));
    let mut dispatching = Connection::new();
    let _ = dispatching.step(received(b"*1\r\n$4\r\nPING\r\n"));
    assert_eq!(dispatching.step(Event::Failed), Action::Close(Reason::Io));
    let mut writing = Connection::new();
    let _ = writing.step(received(b"*1\r\n$4\r\nPING\r\n"));
    let _ = writing.step(Event::Executed(Ok(Value::NullValue)));
    assert_eq!(writing.step(Event::Failed), Action::Close(Reason::Io));
    assert_eq!(writing.phase(), Phase::Closed);
}

#[test]
fn events_out_of_turn_close() {
    let mut reading = Connection::new();
    assert_eq!(reading.step(Event::Flushed), Action::Close(Reason::Unexpected));
    let mut reading = Connection::new();
    assert_eq!(
        reading.step(Event::Executed(Ok(Value::NullValue))),
        Action::Close(Reason::Unexpected)
    );
    let mut dispatching = Connection::new();
    let _ = dispatching.step(received(b"*1\r\n$4\r\nPING\r\n"));
    assert_eq!(dispatching.step(received(b"more")), Action::Close(Reason::Unexpected));
    let mut dispatching = Connection::new();
    let _ = dispatching.step(received(b"*1\r\n$4\r\nPING\r\n"));
    assert_eq!(dispatching.step(Event::EndOfStream), Action::Close(Reason::Unexpected));
    let mut writing = Connection::new();
    let _ = writing.step(received(b"*1\r\n$4\r\nPING\r\n"));
    let _ = writing.step(Event::Executed(Ok(Value::NullValue)));
    assert_eq!(writing.step(Event::EndOfStream), Action::Close(Reason::Unexpected));
}

#[test]
fn a_closed_connection_stays_closed() {
    let mut connection = Connection::new();
    assert_eq!(connection.step(Event::EndOfStream), Action::Close(Reason::Disconnected));
    assert_eq!(connection.phase(), Phase::Closed);
    assert_eq!(
        connection.step(received(b"*1\r\n$4\r\nPING\r\n")),
        Action::Close(Reason::Unexpected)
    );
    assert_eq!(connection.step(Event::Flushed), Action::Close(Reason::Unexpected));
    assert_eq!(connection.step(Event::Failed), Action::Close(Reason::Unexpected));
    assert_eq!(connection.phase(), Phase::Closed);
}

#[test]
fn two_clients_share_one_store() {
    let mut store = Store::new();
    let (first, _, _) = serve(&mut store, b"*3\r\n$3\r\nSET\r\n$1\r\nk\r\n$3\r\none\r\n");
    let (second, _, _) = serve(&mut store, b"*3\r\n$3\r\nSET\r\n$1\r\nk\r\n$3\r\ntwo\r\n");
    let (third, _, _) = serve(&mut store, b"*2\r\n$3\r\nGET\r\n$1\r\nk\r\n");
    assert_eq!(first, b"+OK\r\n".to_vec());
    assert_eq!(second, b"+OK\r\n".to_vec());
    assert_eq!(third, b"$3\r\ntwo\r\n".to_vec());
}
