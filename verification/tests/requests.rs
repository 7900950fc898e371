//! Requests, their replies and their errors.

use miniredis::clock::Instant;
use miniredis::command::{
    dispatch, execute, execute_locked, interpret, lock_store, release, unknown_command, Lifetime,
    Request,
};
use miniredis::decimal::{parse_integer, push_decimal, push_signed_decimal};
use miniredis::resp::{encode, ParseError, Parser, Value};
use miniredis::store::Store;
use std::sync::{Arc, Mutex};

fn command(parts: &[&[u8]]) -> Value {
    Value::Array(parts.iter().map(|p| Value::Bulk(p.to_vec())).collect())
}

fn err(text: &str) -> Value {
    Value::Error(text.to_string())
}

fn at(secs: u64) -> Instant {
    Instant { nanos: secs as u128 * 1_000_000_000 }
}

fn ask(store: &mut Store, parts: &[&[u8]], now: Instant) -> Value {
    execute(store, interpret(command(parts)), now)
}

#[test]
fn wrong_numbers_of_arguments() {
    let mut store = Store::new();
    assert_eq!(
        ask(&mut store, &[b"PING", b"a", b"b"], at(0)),
        err("ERR wrong number of arguments for 'ping' command")
    );
    assert_eq!(
        ask(&mut store, &[b"SET", b"k"], at(0)),
        err("ERR wrong number of arguments for 'set' command")
    );
    assert_eq!(
        ask(&mut store, &[b"GET"], at(0)),
        err("ERR wrong number of arguments for 'get' command")
    );
    assert_eq!(
        ask(&mut store, &[b"DEL"], at(0)),
        err("ERR wrong number of arguments for 'del' command")
    );
    assert_eq!(
        ask(&mut store, &[b"EXPIRE", b"k"], at(0)),
        err("ERR wrong number of arguments for 'expire' command")
    );
    assert_eq!(
        ask(&mut store, &[b"TTL"], at(0)),
        err("ERR wrong number of arguments for 'ttl' command")
    );
}

#[test]
fn frames_that_are_no_command() {
    let store = Arc::new(Mutex::new(Store::new()));
    assert_eq!(
        dispatch(&store, Value::Null),
        err("ERR protocol error: expected array of bulk strings")
    );
    assert_eq!(
        dispatch(&store, Value::Array(vec![Value::Bulk(b"GET".to_vec()), Value::Null])),
        err("ERR protocol error: expected array of bulk strings")
    );
    assert_eq!(dispatch(&store, Value::Array(vec![])), err("ERR empty command"));
}

#[test]
fn set_options() {
    let mut store = Store::new();
    let ok = Value::Simple("OK".to_string());
    assert_eq!(ask(&mut store, &[b"SET", b"a", b"1", b"EX", b"10"], at(100)), ok);
    assert_eq!(ask(&mut store, &[b"TTL", b"a"], at(100)), Value::Integer(10));
    assert_eq!(ask(&mut store, &[b"SET", b"b", b"2", b"px", b"5000"], at(100)), ok);
    assert_eq!(ask(&mut store, &[b"TTL", b"b"], at(100)), Value::Integer(5));
    assert_eq!(ask(&mut store, &[b"GET", b"b"], at(105)), Value::Null);
    assert_eq!(ask(&mut store, &[b"GET", b"a"], at(109)), Value::Bulk(b"1".to_vec()));
    assert_eq!(ask(&mut store, &[b"GET", b"a"], at(110)), Value::Null);
}

#[test]
fn set_options_that_are_refused() {
    let mut store = Store::new();
    let not_a_number = err("ERR value is not an integer or out of range");
    let bad_time = err("ERR invalid expire time in 'set' command");
    let syntax = err("ERR syntax error");
    assert_eq!(ask(&mut store, &[b"SET", b"k", b"v", b"EX", b"abc"], at(0)), not_a_number);
    assert_eq!(ask(&mut store, &[b"SET", b"k", b"v", b"EX", b"0"], at(0)), bad_time);
    assert_eq!(ask(&mut store, &[b"SET", b"k", b"v", b"EX", b"-5"], at(0)), bad_time);
    assert_eq!(ask(&mut store, &[b"SET", b"k", b"v", b"FOO", b"5"], at(0)), syntax);
    assert_eq!(ask(&mut store, &[b"SET", b"k", b"v", b"EX"], at(0)), syntax);
    assert_eq!(ask(&mut store, &[b"SET", b"k", b"v", b"EX", b"5", b"NX"], at(0)), syntax);
    assert_eq!(store.len(), 0);
}

#[test]
fn longest_lifetime_does_not_overflow() {
    let mut store = Store::new();
    let most = i64::MAX.to_string();
    ask(&mut store, &[b"SET", b"k", b"v", b"EX", most.as_bytes()], at(1));
    assert_eq!(ask(&mut store, &[b"TTL", b"k"], at(1)), Value::Integer(i64::MAX));
    assert_eq!(ask(&mut store, &[b"EXPIRE", b"k", most.as_bytes()], at(1)), Value::Integer(1));
}

#[test]
fn expire_and_ttl() {
    let mut store = Store::new();
    assert_eq!(ask(&mut store, &[b"EXPIRE", b"k", b"10"], at(0)), Value::Integer(0));
    assert_eq!(ask(&mut store, &[b"TTL", b"k"], at(0)), Value::Integer(-2));
    ask(&mut store, &[b"SET", b"k", b"v"], at(0));
    assert_eq!(ask(&mut store, &[b"TTL", b"k"], at(0)), Value::Integer(-1));
    assert_eq!(ask(&mut store, &[b"EXPIRE", b"k", b"100"], at(5)), Value::Integer(1));
    assert_eq!(ask(&mut store, &[b"TTL", b"k"], at(5)), Value::Integer(100));
    assert_eq!(
        ask(&mut store, &[b"EXPIRE", b"k", b"abc"], at(5)),
        err("ERR value is not an integer or out of range")
    );
    assert_eq!(ask(&mut store, &[b"GET", b"k"], at(105)), Value::Null);
}

#[test]
fn expire_that_is_not_positive_deletes() {
    let mut store = Store::new();
    ask(&mut store, &[b"SET", b"k", b"v"], at(0));
    assert_eq!(ask(&mut store, &[b"EXPIRE", b"k", b"0"], at(0)), Value::Integer(1));
    assert_eq!(ask(&mut store, &[b"GET", b"k"], at(0)), Value::Null);
    assert_eq!(ask(&mut store, &[b"EXPIRE", b"k", b"-1"], at(0)), Value::Integer(0));
}

#[test]
fn del_counts_a_repeated_key_once() {
    let mut store = Store::new();
    ask(&mut store, &[b"SET", b"k", b"v"], at(0));
    assert_eq!(ask(&mut store, &[b"DEL", b"k", b"k", b"other"], at(0)), Value::Integer(1));
}

#[test]
fn refused_request_changes_nothing() {
    let mut store = Store::new();
    ask(&mut store, &[b"SET", b"k", b"v"], at(0));
    ask(&mut store, &[b"SET", b"k", b"w", b"EX", b"abc"], at(0));
    assert_eq!(ask(&mut store, &[b"GET", b"k"], at(0)), Value::Bulk(b"v".to_vec()));
}

#[test]
fn unknown_command_is_quoted_in_upper_case() {
    let store = Arc::new(Mutex::new(Store::new()));
    assert_eq!(
        dispatch(&store, command(&[b"flush-all"])),
        err("ERR unknown command 'FLUSH-ALL'")
    );
    assert_eq!(
        dispatch(&store, command(&[b"ab\xffcd"])),
        err("ERR unknown command 'AB\u{fffd}CD'")
    );
    assert_eq!(
        dispatch(&store, command(&["gr\u{fc}n".as_bytes()])),
        err("ERR unknown command 'GR\u{fc}N'")
    );
    assert_eq!(unknown_command("x"), err("ERR unknown command 'X'"));
}

#[test]
fn names_close_to_a_command_are_unknown() {
    let store = Arc::new(Mutex::new(Store::new()));
    assert_eq!(dispatch(&store, command(&[b"PIN"])), err("ERR unknown command 'PIN'"));
    assert_eq!(dispatch(&store, command(&[b"PINGS"])), err("ERR unknown command 'PINGS'"));
    assert_eq!(dispatch(&store, command(&[b""])), err("ERR unknown command ''"));
    assert_eq!(dispatch(&store, command(&[b"0ING"])), err("ERR unknown command '0ING'"));
}

#[test]
fn dispatch_reads_the_clock() {
    let store = Arc::new(Mutex::new(Store::new()));
    dispatch(&store, command(&[b"SET", b"k", b"v", b"PX", b"10"]));
    dispatch(&store, command(&[b"SET", b"far", b"v", b"EX", b"60"]));
    let begin = std::time::Instant::now();
    while begin.elapsed().as_millis() < 40 {}
    assert_eq!(dispatch(&store, command(&[b"GET", b"k"])), Value::Null);
    assert_eq!(dispatch(&store, command(&[b"TTL", b"far"])), Value::Integer(60));
}

#[test]
fn locked_store_is_the_shared_one() {
    let store = Arc::new(Mutex::new(Store::new()));
    lock_store(&store).set(b"k".to_vec(), b"v".to_vec(), None);
    assert_eq!(dispatch(&store, command(&[b"GET", b"k"])), Value::Bulk(b"v".to_vec()));
    assert_eq!(lock_store(&store).len(), 1);
}

#[test]
fn requests_hold_their_arguments() {
    match interpret(command(&[b"set", b"k", b"v", b"ex", b"7"])) {
        Request::Put { key, value, lifetime: Some(Lifetime::Seconds(n)) } => {
            assert_eq!((key, value, n), (b"k".to_vec(), b"v".to_vec(), 7));
        }
        _ => panic!("not a write"),
    }
    match interpret(command(&[b"del", b"a", b"b"])) {
        Request::Del { keys } => assert_eq!(keys, vec![b"a".to_vec(), b"b".to_vec()]),
        _ => panic!("not a removal"),
    }
}

#[test]
fn integers_are_read_with_sign_and_zeros() {
    assert_eq!(parse_integer(b"0"), Some(0));
    assert_eq!(parse_integer(b"-0"), Some(0));
    assert_eq!(parse_integer(b"+7"), Some(7));
    assert_eq!(parse_integer(b"0000000000000000000000000000000000000000000042"), Some(42));
    assert_eq!(parse_integer(b"9223372036854775807"), Some(i64::MAX));
    assert_eq!(parse_integer(b"9223372036854775808"), None);
    assert_eq!(parse_integer(b"-9223372036854775808"), Some(i64::MIN));
    assert_eq!(parse_integer(b"-9223372036854775809"), None);
    assert_eq!(parse_integer(b"99999999999999999999999999999999999999999999"), None);
    assert_eq!(parse_integer(b""), None);
    assert_eq!(parse_integer(b"-"), None);
    assert_eq!(parse_integer(b"+"), None);
    assert_eq!(parse_integer(b"+-1"), None);
    assert_eq!(parse_integer(b" 1"), None);
    assert_eq!(parse_integer(b"1x"), None);
}

#[test]
fn integers_are_written_as_std_writes_them() {
    for n in [0, 9, 10, -1, -10, 12345, i64::MAX, i64::MIN] {
        let mut out: Vec<u8> = Vec::new();
        push_signed_decimal(&mut out, n);
        assert_eq!(out, n.to_string().into_bytes());
        assert_eq!(parse_integer(&out), Some(n));
    }
    let mut out = b"n=".to_vec();
    push_decimal(&mut out, u64::MAX);
    assert_eq!(out, b"n=18446744073709551615");
}

#[test]
fn protocol_errors_describe_the_fault() {
    let cases: [(&[u8], &str); 10] = [
        (b"@oops\r\n", "invalid type byte"),
        (b"+\xff\r\n", "simple string is not valid UTF-8"),
        (b"-\xff\r\n", "simple string is not valid UTF-8"),
        (b":abc\r\n", "invalid integer"),
        (b"$abc\r\n", "invalid bulk length"),
        (b"$-2\r\n", "negative bulk length"),
        (b"$536870913\r\n", "bulk length exceeds limit"),
        (b"$3\r\nfooXY", "bulk string missing trailing CRLF"),
        (b"*x\r\n", "invalid array length"),
        (b"*1\r\n*-2\r\n", "negative array length"),
    ];
    for (bytes, expected) in cases {
        let mut parser = Parser::new();
        parser.feed(bytes);
        for _ in 0..2 {
            match parser.try_parse() {
                Err(ParseError::Protocol(text)) => assert_eq!(text, expected),
                other => panic!("expected a protocol error, got {other:?}"),
            }
        }
    }
    let mut parser = Parser::default();
    parser.feed(b"*1048577\r\n");
    assert!(matches!(
        parser.try_parse(),
        Err(ParseError::Protocol(text)) if text == "array length exceeds limit"
    ));
}

#[test]
fn fault_behind_an_incomplete_element_waits() {
    let mut parser = Parser::new();
    parser.feed(b"*2\r\n$3\r\nfo");
    assert!(matches!(parser.try_parse(), Err(ParseError::Incomplete)));
    parser.feed(b"o\r\n@");
    assert!(matches!(parser.try_parse(), Err(ParseError::Protocol(_))));
}

#[test]
fn lone_carriage_return_stays_in_a_line() {
    let value = Value::Simple("a\rb\r".to_string());
    let mut parser = Parser::new();
    parser.feed(&encode(&value));
    assert_eq!(parser.try_parse().unwrap(), value);
    assert!(matches!(parser.try_parse(), Err(ParseError::Incomplete)));
}

#[test]
fn text_of_every_width_survives() {
    let value = Value::Error("a\u{e9}\u{20ac}\u{1f980}".to_string());
    let bytes = encode(&value);
    assert_eq!(bytes, b"-a\xc3\xa9\xe2\x82\xac\xf0\x9f\xa6\x80\r\n");
    let mut parser = Parser::new();
    parser.feed(&bytes);
    assert_eq!(parser.try_parse().unwrap(), value);
}

#[test]
fn clone_copies_nested_values() {
    let value = Value::Array(vec![
        Value::Array(vec![Value::Simple("x".to_string()), Value::Null]),
        Value::Bulk(vec![1, 2, 3]),
        Value::Integer(-7),
        Value::Error("e".to_string()),
    ]);
    assert_eq!(value.clone(), value);
}

#[test]
fn replies_are_read_back_as_one_frame() {
    let mut store = Store::new();
    let requests: [&[&[u8]]; 7] = [
        &[b"SET", b"k", b"a\r\nb"],
        &[b"GET", b"k"],
        &[b"GET", b"absent"],
        &[b"DEL", b"k"],
        &[b"PING", b"\r\n"],
        &[b"nope"],
        &[],
    ];
    for request in requests {
        let reply = ask(&mut store, request, at(0));
        let mut parser = Parser::new();
        parser.feed(&encode(&reply));
        parser.feed(b"+next\r\n");
        assert_eq!(parser.try_parse().unwrap(), reply);
        assert_eq!(parser.try_parse().unwrap(), Value::Simple("next".to_string()));
    }
}

#[test]
fn decoded_values_can_be_encoded_and_decoded_again() {
    let inputs: [&[u8]; 4] = [b":+007\r\n", b"*-1\r\n", b"*2\r\n$0\r\n\r\n-E\r\n", b"$04\r\n\r\n\r\n\r\n"];
    for input in inputs {
        let mut parser = Parser::new();
        parser.feed(input);
        let value = parser.try_parse().unwrap();
        parser.feed(&encode(&value));
        assert_eq!(parser.try_parse().unwrap(), value);
    }
}

#[test]
fn sweeping_and_reading_change_no_answer() {
    for sweep in [false, true] {
        let mut store = Store::new();
        ask(&mut store, &[b"SET", b"short", b"1", b"EX", b"1"], at(0));
        ask(&mut store, &[b"SET", b"long", b"2", b"EX", b"9"], at(0));
        ask(&mut store, &[b"SET", b"always", b"3"], at(0));
        if sweep {
            store.sweep_expired_at(at(2));
            ask(&mut store, &[b"GET", b"short"], at(2));
        }
        assert_eq!(ask(&mut store, &[b"GET", b"short"], at(3)), Value::Null);
        assert_eq!(ask(&mut store, &[b"TTL", b"short"], at(3)), Value::Integer(-2));
        assert_eq!(ask(&mut store, &[b"TTL", b"long"], at(3)), Value::Integer(6));
        assert_eq!(ask(&mut store, &[b"GET", b"always"], at(3)), Value::Bulk(b"3".to_vec()));
    }
}

#[test]
fn case_matters_for_keys_and_values_only() {
    let mut store = Store::new();
    ask(&mut store, &[b"sEt", b"Key", b"Value"], at(0));
    assert_eq!(ask(&mut store, &[b"get", b"Key"], at(0)), Value::Bulk(b"Value".to_vec()));
    assert_eq!(ask(&mut store, &[b"GET", b"key"], at(0)), Value::Null);
    for name in ["n\u{f6}Pe", "N\u{f6}pE"] {
        assert_eq!(
            ask(&mut store, &[name.as_bytes()], at(0)),
            err("ERR unknown command 'N\u{f6}PE'")
        );
    }
}

#[test]
fn frames_are_decided_by_their_own_bytes() {
    let frames: [&[u8]; 4] = [b":+007\r\n", b"$003\r\nfoo\r\n", b"*02\r\n*-1\r\n+x\r\n", b"$-01\r\n"];
    for frame in frames {
        let mut whole = Parser::new();
        whole.feed(frame);
        whole.feed(b"@trailing");
        let value = whole.try_parse().unwrap();
        let mut alone = Parser::new();
        alone.feed(frame);
        assert_eq!(alone.try_parse().unwrap(), value);
        for received in 0..frame.len() {
            let mut part = Parser::new();
            part.feed(&frame[..received]);
            assert!(matches!(part.try_parse(), Err(ParseError::Incomplete)));
        }
        assert!(encode(&value).len() <= frame.len());
    }
}

#[test]
fn writing_keeps_the_answers_about_other_keys() {
    let mut store = Store::with_capacity(2);
    ask(&mut store, &[b"SET", b"a", b"1"], at(0));
    ask(&mut store, &[b"SET", b"b", b"2"], at(0));
    let answer = ask(&mut store, &[b"GET", b"a"], at(1));
    ask(&mut store, &[b"SET", b"c", b"3"], at(1));
    assert_eq!(ask(&mut store, &[b"GET", b"a"], at(1)), answer);
    assert_eq!(ask(&mut store, &[b"GET", b"b"], at(1)), Value::Null);
}

#[test]
fn released_lock_can_be_taken_again() {
    let store = Arc::new(Mutex::new(Store::new()));
    let mut guard = lock_store(&store);
    let request = interpret(command(&[b"SET", b"k", b"v"]));
    assert_eq!(execute_locked(&mut guard, request), Value::Simple("OK".to_string()));
    release(guard);
    assert_eq!(dispatch(&store, command(&[b"GET", b"k"])), Value::Bulk(b"v".to_vec()));
}
