//! A client connection, driven by events.

use miniredis::connection::{Action, Connection, Decision, Event};
use miniredis::resp::{encode, Value};
use miniredis::store::Store;
use std::sync::{Arc, Mutex};

fn new_store() -> Arc<Mutex<Store>> {
    Arc::new(Mutex::new(Store::new()))
}

fn command(parts: &[&[u8]]) -> Vec<u8> {
    encode(&Value::Array(parts.iter().map(|p| Value::Bulk(p.to_vec())).collect()))
}

/// Sends what the connection asks to send, until it asks for something else.
fn answers(connection: &mut Connection, store: &Arc<Mutex<Store>>, chunk: &[u8]) -> (Vec<u8>, Action) {
    let mut out: Vec<u8> = Vec::new();
    let mut action = connection.step(Event::Received(chunk), store);
    loop {
        match action {
            Action::Send(bytes) => out.extend_from_slice(&bytes),
            other => return (out, other),
        }
        action = connection.step(Event::Sent, store);
    }
}

#[test]
fn opened_connection_waits_for_bytes() {
    let mut connection = Connection::new();
    assert!(matches!(connection.step(Event::Opened, &new_store()), Action::Receive));
}

#[test]
fn pipelined_commands_are_answered_before_more_is_read() {
    let store = new_store();
    let mut connection = Connection::new();
    let mut batch = command(&[b"SET", b"pipe", b"lined"]);
    batch.extend_from_slice(&command(&[b"GET", b"pipe"]));
    batch.extend_from_slice(&command(&[b"PING"]));
    let (out, next) = answers(&mut connection, &store, &batch);
    assert_eq!(out, b"+OK\r\n$5\r\nlined\r\n+PONG\r\n");
    assert!(matches!(next, Action::Receive));
}

#[test]
fn replies_do_not_depend_on_the_chunks() {
    let mut input = command(&[b"SET", b"k", b"v"]);
    input.extend_from_slice(&command(&[b"GET", b"k"]));
    input.extend_from_slice(&command(&[b"DEL", b"k", b"x"]));
    for size in 1..input.len() {
        let store = new_store();
        let mut connection = Connection::new();
        let mut out: Vec<u8> = Vec::new();
        for chunk in input.chunks(size) {
            let (bytes, next) = answers(&mut connection, &store, chunk);
            out.extend_from_slice(&bytes);
            assert!(matches!(next, Action::Receive));
        }
        assert_eq!(out, b"+OK\r\n$1\r\nv\r\n:1\r\n");
    }
}

#[test]
fn fault_is_reported_and_closes() {
    let store = new_store();
    let mut connection = Connection::new();
    let mut input = command(&[b"PING"]);
    input.extend_from_slice(b"@oops\r\n");
    input.extend_from_slice(&command(&[b"SET", b"k", b"v"]));
    let (out, next) = answers(&mut connection, &store, &input);
    assert_eq!(out, b"+PONG\r\n");
    assert!(matches!(next, Action::SendLast(bytes) if bytes == b"-ERR invalid type byte\r\n"));
    assert!(matches!(connection.step(Event::Sent, &store), Action::Close));
    assert!(matches!(connection.step(Event::Received(&input), &store), Action::Close));
    assert_eq!(store.lock().unwrap().len(), 0);
}

#[test]
fn half_a_frame_then_disconnect_stores_nothing() {
    let store = new_store();
    let mut connection = Connection::new();
    let full = command(&[b"SET", b"half", b"frame"]);
    let (out, next) = answers(&mut connection, &store, &full[..full.len() / 2]);
    assert!(out.is_empty() && matches!(next, Action::Receive));
    assert!(matches!(connection.step(Event::Received(b""), &store), Action::Close));
    assert_eq!(store.lock().unwrap().len(), 0);
}

#[test]
fn failures_close_the_connection() {
    let store = new_store();
    let mut connection = Connection::new();
    assert!(matches!(connection.step(Event::ReceiveFailed, &store), Action::Close));
    let mut connection = Connection::new();
    let mut batch = command(&[b"PING"]);
    batch.extend_from_slice(&command(&[b"SET", b"k", b"v"]));
    assert!(matches!(connection.step(Event::Received(&batch), &store), Action::Send(_)));
    assert!(matches!(connection.step(Event::SendFailed, &store), Action::Close));
    assert_eq!(store.lock().unwrap().len(), 0);
}

#[test]
fn decisions_come_without_a_store() {
    let mut connection = Connection::new();
    assert!(matches!(
        connection.advance(Event::Received(b":7\r\n+x")),
        Decision::Answer(Value::Integer(7))
    ));
    assert!(matches!(connection.advance(Event::Sent), Decision::Receive));
    assert!(matches!(
        connection.advance(Event::Received(b"\xff\r\n")),
        Decision::Refuse(bytes) if bytes == b"-ERR simple string is not valid UTF-8\r\n"
    ));
    assert!(matches!(connection.advance(Event::Opened), Decision::Close));
}

#[test]
fn whole_connection_sends_replies_then_one_refusal() {
    let mut input = command(&[b"SET", b"k", b"v"]);
    input.extend_from_slice(b":5\r\n");
    input.extend_from_slice(&command(&[b"GET", b"k"]));
    input.extend_from_slice(b"$-2\r\n+more\r\n");
    for size in 1..=input.len() {
        let store = new_store();
        let mut connection = Connection::new();
        let mut out: Vec<u8> = Vec::new();
        let mut action = connection.step(Event::Opened, &store);
        let mut chunks = input.chunks(size);
        loop {
            let event = match action {
                Action::Send(bytes) => {
                    out.extend_from_slice(&bytes);
                    Event::Sent
                }
                Action::Receive => Event::Received(chunks.next().unwrap_or(&[])),
                Action::SendLast(bytes) => {
                    out.extend_from_slice(&bytes);
                    break;
                }
                Action::Close => break,
            };
            action = connection.step(event, &store);
        }
        let expected: &[u8] = b"+OK\r\n-ERR protocol error: expected array of bulk strings\r\n\
            $1\r\nv\r\n-ERR negative bulk length\r\n";
        assert_eq!(out, expected);
    }
}
