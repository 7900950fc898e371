//! Encoding, decoding and fragmentation of RESP frames.

use miniredis::resp::{encode, ParseError, Parser, Value};

/// Decode exactly one frame from a complete byte slice.
fn decode(bytes: &[u8]) -> Result<Value, ParseError> {
    let mut parser = Parser::new();
    parser.feed(bytes);
    parser.try_parse()
}

fn assert_protocol(result: Result<Value, ParseError>) {
    assert!(
        matches!(result, Err(ParseError::Protocol(_))),
        "expected Protocol error, got {result:?}"
    );
}

fn assert_incomplete(result: Result<Value, ParseError>) {
    assert!(
        matches!(result, Err(ParseError::Incomplete)),
        "expected Incomplete, got {result:?}"
    );
}

fn feed_fragmented(chunks: &[&[u8]]) -> Value {
    let mut parser = Parser::new();
    let mut result = None;
    for chunk in chunks {
        parser.feed(chunk);
        match parser.try_parse() {
            Ok(v) => result = Some(v),
            Err(ParseError::Incomplete) => {}
            Err(e) => panic!("unexpected error {e:?}"),
        }
    }
    result.expect("frame never completed")
}

fn nested_array_sample() -> (Value, Vec<u8>) {
    let value = Value::Array(vec![
        Value::Bulk(b"SET".to_vec()),
        Value::Bulk(b"key".to_vec()),
        Value::Array(vec![Value::Integer(-42), Value::Null]),
        Value::Simple("OK".into()),
    ]);
    let bytes = encode(&value);
    (value, bytes)
}

// --- Encoding ---

#[test]
fn encodes_simple_string() {
    assert_eq!(encode(&Value::Simple("OK".into())), b"+OK\r\n");
}

#[test]
fn encodes_error() {
    assert_eq!(
        encode(&Value::Error("ERR unknown command".into())),
        b"-ERR unknown command\r\n"
    );
}

#[test]
fn encodes_integer() {
    assert_eq!(encode(&Value::Integer(-42)), b":-42\r\n");
}

#[test]
fn encodes_bulk_string() {
    assert_eq!(encode(&Value::Bulk(b"hello".to_vec())), b"$5\r\nhello\r\n");
}

#[test]
fn encodes_empty_bulk_distinct_from_null() {
    assert_eq!(encode(&Value::Bulk(vec![])), b"$0\r\n\r\n");
    assert_eq!(encode(&Value::Null), b"$-1\r\n");
}

#[test]
fn encodes_array() {
    let v = Value::Array(vec![
        Value::Bulk(b"GET".to_vec()),
        Value::Bulk(b"foo".to_vec()),
    ]);
    assert_eq!(encode(&v), b"*2\r\n$3\r\nGET\r\n$3\r\nfoo\r\n");
}

// --- Round-trip ---

#[test]
fn roundtrips_every_variant() {
    let values = [
        Value::Simple("PONG".into()),
        Value::Error("ERR oops".into()),
        Value::Integer(i64::MIN),
        Value::Bulk(b"binary\x00\xff\xfe not utf8".to_vec()),
        Value::Bulk(vec![]),
        Value::Null,
        Value::Array(vec![]),
    ];
    for v in values {
        assert_eq!(
            decode(&encode(&v)).unwrap(),
            v,
            "round-trip failed for {v:?}"
        );
    }
}

#[test]
fn roundtrips_nested_array() {
    let (value, bytes) = nested_array_sample();
    assert_eq!(decode(&bytes).unwrap(), value);
}

// --- Fragmentation ---

#[test]
fn parses_byte_by_byte() {
    let (expected, bytes) = nested_array_sample();
    let mut parser = Parser::new();
    for &b in &bytes[..bytes.len() - 1] {
        parser.feed(&[b]);
        assert_incomplete(parser.try_parse());
    }
    parser.feed(&bytes[bytes.len() - 1..]);
    assert_eq!(parser.try_parse().unwrap(), expected);
    assert_incomplete(parser.try_parse());
}

#[test]
fn parses_random_chunks() {
    let (expected, bytes) = nested_array_sample();
    // A deterministic linear congruential generator.
    let mut seed: u64 = 0x9E37_79B9_7F4A_7C15;
    for round in 0..100 {
        let mut parser = Parser::new();
        let mut pos = 0;
        let mut result = None;
        while pos < bytes.len() {
            seed = seed.wrapping_mul(6364136223846793005).wrapping_add(1);
            let max = bytes.len() - pos;
            let chunk = 1 + (seed >> 33) as usize % max;
            parser.feed(&bytes[pos..pos + chunk]);
            pos += chunk;
            match parser.try_parse() {
                Ok(v) => result = Some(v),
                Err(ParseError::Incomplete) => {}
                Err(e) => panic!("round {round}: unexpected error {e:?}"),
            }
        }
        assert_eq!(result, Some(expected.clone()), "round {round} diverged");
    }
}

#[test]
fn parses_multiple_frames_in_one_chunk() {
    let mut parser = Parser::new();
    parser.feed(b"+OK\r\n:7\r\n");
    assert_eq!(parser.try_parse().unwrap(), Value::Simple("OK".into()));
    assert_eq!(parser.try_parse().unwrap(), Value::Integer(7));
    assert_incomplete(parser.try_parse());
}

#[test]
fn feed_across_frame_boundary_mixed() {
    // Chunk 1 = whole first frame + start of second; chunk 2 = rest of second.
    let mut parser = Parser::new();
    parser.feed(b"$3\r\nfoo\r\n*2\r\n:1\r");
    assert_eq!(parser.try_parse().unwrap(), Value::Bulk(b"foo".to_vec()));
    assert_incomplete(parser.try_parse());
    parser.feed(b"\n:2\r\n");
    assert_eq!(
        parser.try_parse().unwrap(),
        Value::Array(vec![Value::Integer(1), Value::Integer(2)])
    );
    assert_incomplete(parser.try_parse());
}

#[test]
fn property_split_invariant() {
    let (expected, bytes) = nested_array_sample();
    // Exhaustive sweep of every 2-way split point of the frame.
    for i in 1..bytes.len() {
        let got = feed_fragmented(&[&bytes[..i], &bytes[i..]]);
        assert_eq!(got, expected, "split at byte {i} diverged");
    }
}

// --- Incomplete input ---

#[test]
fn empty_buffer_is_incomplete() {
    assert_incomplete(Parser::new().try_parse());
}

#[test]
fn line_without_crlf_is_incomplete() {
    assert_incomplete(decode(b"+OK"));
    assert_incomplete(decode(b"+OK\r"));
    assert_incomplete(decode(b":123"));
}

#[test]
fn bulk_with_partial_body_is_incomplete() {
    assert_incomplete(decode(b"$5\r\nhel"));
    assert_incomplete(decode(b"$5\r\nhello"));
    assert_incomplete(decode(b"$5\r\nhello\r"));
}

#[test]
fn array_with_missing_elements_is_incomplete() {
    assert_incomplete(decode(b"*2\r\n$3\r\nfoo\r\n"));
}

#[test]
fn incomplete_does_not_consume_partial_bytes() {
    let mut parser = Parser::new();
    parser.feed(b"$5\r\nhel");
    assert_incomplete(parser.try_parse());
    // If partial bytes had been consumed, completing the frame would fail.
    parser.feed(b"lo\r\n");
    assert_eq!(parser.try_parse().unwrap(), Value::Bulk(b"hello".to_vec()));
}

// --- Protocol errors (must never panic) ---

#[test]
fn rejects_unknown_type_byte() {
    assert_protocol(decode(b"@oops\r\n"));
}

#[test]
fn rejects_non_numeric_integer() {
    assert_protocol(decode(b":abc\r\n"));
}

#[test]
fn rejects_invalid_utf8_simple_string() {
    assert_protocol(decode(b"+\xff\xfe\r\n"));
}

#[test]
fn rejects_non_numeric_bulk_length() {
    assert_protocol(decode(b"$abc\r\n"));
}

#[test]
fn rejects_non_numeric_array_length() {
    assert_protocol(decode(b"*abc\r\n"));
}

#[test]
fn rejects_bulk_length_below_minus_one() {
    assert_protocol(decode(b"$-2\r\n"));
}

#[test]
fn rejects_array_length_below_minus_one() {
    assert_protocol(decode(b"*-2\r\n"));
}

#[test]
fn rejects_bulk_length_over_limit_before_allocation() {
    assert_protocol(decode(b"$536870913\r\n"));
}

#[test]
fn rejects_array_length_over_limit() {
    assert_protocol(decode(b"*1048577\r\n"));
}

#[test]
fn rejects_bulk_with_bad_trailing_crlf() {
    // Incomplete while the tail bytes are missing, Protocol once present but wrong.
    assert_incomplete(decode(b"$3\r\nfoo"));
    assert_protocol(decode(b"$3\r\nfooXY"));
}

#[test]
fn nested_protocol_error_propagates() {
    assert_protocol(decode(b"*2\r\n:1\r\n$-5\r\n"));
}

// --- Nulls are values, not errors ---

#[test]
fn decodes_null_bulk() {
    assert_eq!(decode(b"$-1\r\n").unwrap(), Value::Null);
}

#[test]
fn decodes_null_array_as_null() {
    assert_eq!(decode(b"*-1\r\n").unwrap(), Value::Null);
}

#[test]
fn decodes_null_inside_array() {
    assert_eq!(
        decode(b"*1\r\n$-1\r\n").unwrap(),
        Value::Array(vec![Value::Null])
    );
}
