//! RESP2 wire codec: a resumable decoder and its encoder.
//!
//! Frames travel over a byte stream, so one read may bring a part of a frame, exactly one
//! frame, or several. [`Parser`] buffers what was read and hands out one value for each
//! complete frame.
//!
//! The leading byte gives the type of a value: `+` simple string, `-` error, `:` integer,
//! `$` bulk string, `*` array. Every element ends with CRLF. Clients send a command as an
//! array of bulk strings: `SET foo bar` is
//! `*3\r\n$3\r\nSET\r\n$3\r\nfoo\r\n$3\r\nbar\r\n`.

use crate::decimal::{
    decimal, integer_value, parse_integer, push_decimal, push_signed_decimal, signed_decimal,
};
use vstd::prelude::*;
use vstd::slice::{slice_subrange, slice_to_vec};
use vstd::string::*;
use vstd::utf8::{decode_utf8, encode_utf8, valid_utf8};

verus! {

/// The longest bulk string that is accepted, in bytes. A longer one is refused by its
/// length prefix, before anything is allocated for it.
pub const MAX_BULK_LEN: i64 = 536_870_912;

/// The largest number of elements that an array may announce.
pub const MAX_ARRAY_LEN: i64 = 1_048_576;

pub const CR: u8 = 0x0d;

pub const LF: u8 = 0x0a;

pub const SIMPLE_TAG: u8 = 0x2b;

pub const ERROR_TAG: u8 = 0x2d;

pub const INTEGER_TAG: u8 = 0x3a;

pub const BULK_TAG: u8 = 0x24;

pub const ARRAY_TAG: u8 = 0x2a;

/// A decoded RESP value.
#[derive(Debug, PartialEq, Eq)]
pub enum Value {
    Simple(String),
    Error(String),
    Integer(i64),
    Bulk(Vec<u8>),
    /// The null bulk string (`$-1\r\n`). A null array (`*-1\r\n`) decodes to it too.
    Null,
    Array(Vec<Value>),
}

/// Why the decoder gave no value.
#[derive(Debug)]
pub enum ParseError {
    /// The buffer does not hold a full frame yet: read more and try again.
    Incomplete,
    /// The bytes violate the framing: an unknown type byte, a bad length, and so on.
    Protocol(String),
}

/// A RESP value as a mathematical object.
#[verifier::ext_equal]
pub enum ValueModel {
    Simple(Seq<char>),
    Error(Seq<char>),
    Integer(int),
    Bulk(Seq<u8>),
    Null,
    Array(Seq<ValueModel>),
}

impl Value {
    /// The mathematical value.
    pub open spec fn view(&self) -> ValueModel
        decreases self,
    {
        match self {
            Value::Simple(s) => ValueModel::Simple(s@),
            Value::Error(s) => ValueModel::Error(s@),
            Value::Integer(n) => ValueModel::Integer(*n as int),
            Value::Bulk(b) => ValueModel::Bulk(b@),
            Value::Null => ValueModel::Null,
            Value::Array(items) => ValueModel::Array(
                Seq::new(
                    items@.len(),
                    |i: int|
                        if 0 <= i < items@.len() {
                            items@[i].view()
                        } else {
                            ValueModel::Null
                        },
                ),
            ),
        }
    }
}

/// The mathematical values of a sequence of values, in order.
pub open spec fn models(items: Seq<Value>) -> Seq<ValueModel> {
    Seq::new(items.len(), |i: int| items[i].view())
}

impl Value {
    /// A value equal to this one, with its own storage.
    fn duplicate(&self) -> (copy: Value)
        ensures
            copy.view() == self.view(),
        decreases self,
    {
        match self {
            Value::Simple(s) => Value::Simple(s.clone()),
            Value::Error(s) => Value::Error(s.clone()),
            Value::Integer(n) => Value::Integer(*n),
            Value::Bulk(b) => {
                let bytes = b.clone();
                assert(bytes@ =~= b@);
                Value::Bulk(bytes)
            },
            Value::Null => Value::Null,
            Value::Array(items) => {
                let mut copies: Vec<Value> = Vec::with_capacity(items.len());
                let mut i: usize = 0;
                while i < items.len()
                    invariant
                        self is Array && self->Array_0 == items,
                        i <= items@.len(),
                        models(copies@) =~= models(items@).take(i as int),
                    decreases items.len() - i,
                {
                    assert(decreases_to!(self => items@[i as int]));
                    let ghost before = copies@;
                    copies.push(items[i].duplicate());
                    assert(models(copies@) =~= models(before).push(items@[i as int].view()));
                    i += 1;
                }
                assert(models(items@).take(i as int) =~= models(items@));
                let copy = Value::Array(copies);
                proof {
                    lemma_array_view(copy);
                    lemma_array_view(*self);
                }
                copy
            },
        }
    }
}

impl Clone for Value {
    fn clone(&self) -> (copy: Self)
        ensures
            copy.view() == self.view(),
    {
        self.duplicate()
    }
}

/// The model of an array is the array of the models of its elements.
pub proof fn lemma_array_view(value: Value)
    requires
        value is Array,
    ensures
        value.view() == ValueModel::Array(models(value->Array_0@)),
{
    assert(value.view()->Array_0 =~= models(value->Array_0@));
}

/// What the bytes at the start of a buffer amount to.
#[verifier::ext_equal]
pub enum Outcome {
    /// A complete frame: its value, and the number of bytes that it takes.
    Frame(ValueModel, nat),
    /// The beginning of a frame, so far without fault.
    Incomplete,
    /// A violation of the framing, with its description.
    Protocol(Seq<char>),
}

/// What a number of consecutive frames at the start of a buffer amount to.
#[verifier::ext_equal]
pub enum Items {
    Frames(Seq<ValueModel>, nat),
    Incomplete,
    Protocol(Seq<char>),
}

/// The two bytes at `i` are CRLF.
pub open spec fn crlf_at(buf: Seq<u8>, i: int) -> bool {
    0 <= i && i + 1 < buf.len() && buf[i] == CR && buf[i + 1] == LF
}

/// The position of the first CRLF at or after `from`.
pub open spec fn first_crlf(buf: Seq<u8>, from: int) -> Option<int>
    decreases buf.len() - from,
{
    if from + 1 >= buf.len() {
        None
    } else if crlf_at(buf, from) {
        Some(from)
    } else {
        first_crlf(buf, from + 1)
    }
}

/// The frame `+` or `-` with the given line, which must be UTF-8.
pub open spec fn text_outcome(tag: u8, line: Seq<u8>, used: nat) -> Outcome {
    if !valid_utf8(line) {
        Outcome::Protocol("simple string is not valid UTF-8"@)
    } else if tag == SIMPLE_TAG {
        Outcome::Frame(ValueModel::Simple(decode_utf8(line)), used)
    } else {
        Outcome::Frame(ValueModel::Error(decode_utf8(line)), used)
    }
}

/// The frame `:` with the given line, which must be an integer.
pub open spec fn integer_outcome(line: Seq<u8>, used: nat) -> Outcome {
    match integer_value(line) {
        None => Outcome::Protocol("invalid "@ + "integer"@),
        Some(n) => Outcome::Frame(ValueModel::Integer(n), used),
    }
}

/// The frame `$` with the given length line, whose body starts at `start`.
pub open spec fn bulk_outcome(buf: Seq<u8>, line: Seq<u8>, start: int) -> Outcome {
    match integer_value(line) {
        None => Outcome::Protocol("invalid "@ + "bulk length"@),
        Some(n) => if n == -1 {
            Outcome::Frame(ValueModel::Null, start as nat)
        } else if n < -1 {
            Outcome::Protocol("negative bulk length"@)
        } else if n > MAX_BULK_LEN {
            Outcome::Protocol("bulk length exceeds limit"@)
        } else if buf.len() < start + n + 2 {
            Outcome::Incomplete
        } else if !crlf_at(buf, start + n) {
            Outcome::Protocol("bulk string missing trailing CRLF"@)
        } else {
            Outcome::Frame(ValueModel::Bulk(buf.subrange(start, start + n)), (start + n + 2) as nat)
        },
    }
}

/// The array whose length line takes `start` bytes and whose elements are `items`.
pub open spec fn array_outcome(start: nat, items: Items) -> Outcome {
    match items {
        Items::Frames(values, used) => Outcome::Frame(ValueModel::Array(values), start + used),
        Items::Incomplete => Outcome::Incomplete,
        Items::Protocol(message) => Outcome::Protocol(message),
    }
}

/// What the bytes at the start of `buf` amount to.
pub open spec fn parse(buf: Seq<u8>) -> Outcome
    decreases buf.len(), 0nat,
{
    if buf.len() == 0 {
        Outcome::Incomplete
    } else {
        let tag = buf[0];
        if tag != SIMPLE_TAG && tag != ERROR_TAG && tag != INTEGER_TAG && tag != BULK_TAG && tag
            != ARRAY_TAG {
            Outcome::Protocol("invalid type byte"@)
        } else {
            match first_crlf(buf, 1) {
                None => Outcome::Incomplete,
                Some(end) => {
                    let line = buf.subrange(1, end);
                    let start = end + 2;
                    if tag == SIMPLE_TAG || tag == ERROR_TAG {
                        text_outcome(tag, line, start as nat)
                    } else if tag == INTEGER_TAG {
                        integer_outcome(line, start as nat)
                    } else if tag == BULK_TAG {
                        bulk_outcome(buf, line, start)
                    } else {
                        match integer_value(line) {
                            None => Outcome::Protocol("invalid "@ + "array length"@),
                            Some(n) => if n == -1 {
                                Outcome::Frame(ValueModel::Null, start as nat)
                            } else if n < -1 {
                                Outcome::Protocol("negative array length"@)
                            } else if n > MAX_ARRAY_LEN {
                                Outcome::Protocol("array length exceeds limit"@)
                            } else {
                                proof {
                                    lemma_first_crlf(buf, 1);
                                }
                                array_outcome(start as nat, parse_items(buf.skip(start), n as nat))
                            },
                        }
                    }
                },
            }
        }
    }
}

/// What the bytes at the start of `buf` amount to, read as `n` consecutive frames. The
/// first frame that is incomplete or at fault decides.
pub open spec fn parse_items(buf: Seq<u8>, n: nat) -> Items
    decreases buf.len(), n + 1,
{
    if n == 0 {
        Items::Frames(Seq::empty(), 0)
    } else {
        match parse(buf) {
            Outcome::Incomplete => Items::Incomplete,
            Outcome::Protocol(message) => Items::Protocol(message),
            Outcome::Frame(first, used) => if used <= buf.len() {
                match parse_items(buf.skip(used as int), (n - 1) as nat) {
                    Items::Frames(rest, more) => Items::Frames(seq![first] + rest, used + more),
                    Items::Incomplete => Items::Incomplete,
                    Items::Protocol(message) => Items::Protocol(message),
                }
            } else {
                Items::Incomplete
            },
        }
    }
}

/// The frames `front`, which take `used` bytes, followed by what the bytes after them
/// amount to.
pub open spec fn prepend(front: Seq<ValueModel>, used: nat, items: Items) -> Items {
    match items {
        Items::Frames(rest, more) => Items::Frames(front + rest, used + more),
        Items::Incomplete => Items::Incomplete,
        Items::Protocol(message) => Items::Protocol(message),
    }
}

/// The result of an attempt to decode, as the model has it.
pub open spec fn agrees(result: Result<(Value, usize), ParseError>, outcome: Outcome) -> bool {
    match outcome {
        Outcome::Frame(value, used) => result matches Ok((decoded, consumed)) && decoded@ == value
            && consumed == used,
        Outcome::Incomplete => result matches Err(ParseError::Incomplete),
        Outcome::Protocol(message) => result matches Err(ParseError::Protocol(text)) && text@
            == message,
    }
}

/// A complete frame takes at least one byte, and no more than there are.
pub proof fn lemma_frame_fits(buf: Seq<u8>)
    ensures
        parse(buf) matches Outcome::Frame(_, used) ==> 0 < used <= buf.len(),
    decreases buf.len(), 0nat,
{
    lemma_first_crlf(buf, 1);
    if buf.len() > 0 && buf[0] == ARRAY_TAG {
        if let Some(end) = first_crlf(buf, 1) {
            if let Some(n) = integer_value(buf.subrange(1, end)) {
                if 0 <= n <= MAX_ARRAY_LEN {
                    lemma_items_fit(buf.skip(end + 2), n as nat);
                }
            }
        }
    }
}

/// Consecutive frames take no more bytes than there are.
pub proof fn lemma_items_fit(buf: Seq<u8>, n: nat)
    ensures
        parse_items(buf, n) matches Items::Frames(items, used) ==> used <= buf.len() && items.len()
            == n,
    decreases buf.len(), n + 1,
{
    if n > 0 {
        lemma_frame_fits(buf);
        if let Outcome::Frame(_, used) = parse(buf) {
            lemma_items_fit(buf.skip(used as int), (n - 1) as nat);
        }
    }
}

/// The error type of `std::str::from_utf8`.
#[verifier::external_type_specification]
#[verifier::external_body]
pub struct ExUtf8Error(core::str::Utf8Error);

/// `std::str::from_utf8` succeeds exactly on valid UTF-8, and the string slice that it
/// returns holds the same bytes.
pub assume_specification[ core::str::from_utf8 ](bytes: &[u8]) -> (result: Result<
    &str,
    core::str::Utf8Error,
>)
    ensures
        result is Ok <==> valid_utf8(bytes@),
        result matches Ok(text) ==> text.spec_bytes() == bytes@,
;

/// The position of the first CRLF at or after `from`.
fn find_crlf(buf: &[u8], from: usize) -> (result: Option<usize>)
    ensures
        result is Some <==> first_crlf(buf@, from as int) is Some,
        result matches Some(i) ==> first_crlf(buf@, from as int) == Some(i as int),
{
    let len = buf.len();
    if len < 2 {
        return None;
    }
    let mut i: usize = from;
    while i < len - 1
        invariant
            2 <= len == buf@.len(),
            first_crlf(buf@, from as int) == first_crlf(buf@, i as int),
        decreases len - i,
    {
        if buf[i] == CR && buf[i + 1] == LF {
            return Some(i);
        }
        i += 1;
    }
    None
}

/// Reads a decimal integer, or gives the error that names what it stood for.
fn parse_i64(bytes: &[u8], what: &str) -> (result: Result<i64, ParseError>)
    ensures
        match integer_value(bytes@) {
            Some(n) => result matches Ok(value) && value == n,
            None => result matches Err(ParseError::Protocol(text)) && text@ == "invalid "@ + what@,
        },
{
    match parse_integer(bytes) {
        Some(n) => Ok(n),
        None => Err(ParseError::Protocol("invalid ".to_owned().concat(what))),
    }
}

/// Decodes the bulk string whose length line is `line` and whose body starts at `start`.
fn parse_bulk(buf: &[u8], line: &[u8], start: usize) -> (result: Result<
    (Value, usize),
    ParseError,
>)
    requires
        start <= buf@.len(),
    ensures
        agrees(result, bulk_outcome(buf@, line@, start as int)),
{
    let len = match parse_i64(line, "bulk length") {
        Ok(n) => n,
        Err(e) => {
            return Err(e);
        },
    };
    if len == -1 {
        return Ok((Value::Null, start));
    }
    if len < -1 {
        return Err(ParseError::Protocol("negative bulk length".to_owned()));
    }
    if len > MAX_BULK_LEN {
        return Err(ParseError::Protocol("bulk length exceeds limit".to_owned()));
    }
    let n: usize = len as usize;
    if buf.len() - start < n + 2 {
        return Err(ParseError::Incomplete);
    }
    let body_end: usize = start + n;
    if buf[body_end] != CR || buf[body_end + 1] != LF {
        return Err(ParseError::Protocol("bulk string missing trailing CRLF".to_owned()));
    }
    let body = slice_to_vec(slice_subrange(buf, start, body_end));
    Ok((Value::Bulk(body), body_end + 2))
}

/// Decodes one value from the start of `buf`: the value and the number of bytes it takes.
fn parse_value(buf: &[u8]) -> (result: Result<(Value, usize), ParseError>)
    ensures
        agrees(result, parse(buf@)),
    decreases buf@.len(),
{
    if buf.len() == 0 {
        return Err(ParseError::Incomplete);
    }
    let tag = buf[0];
    if tag != SIMPLE_TAG && tag != ERROR_TAG && tag != INTEGER_TAG && tag != BULK_TAG && tag
        != ARRAY_TAG {
        return Err(ParseError::Protocol("invalid type byte".to_owned()));
    }
    let end = match find_crlf(buf, 1) {
        Some(end) => end,
        None => {
            return Err(ParseError::Incomplete);
        },
    };
    proof {
        lemma_first_crlf(buf@, 1);
    }
    let line = slice_subrange(buf, 1, end);
    let start: usize = end + 2;
    if tag == SIMPLE_TAG || tag == ERROR_TAG {
        match core::str::from_utf8(line) {
            Err(_) => Err(ParseError::Protocol("simple string is not valid UTF-8".to_owned())),
            Ok(text) => {
                proof {
                    vstd::utf8::encode_utf8_decode_utf8(text@);
                }
                let owned = text.to_owned();
                if tag == SIMPLE_TAG {
                    Ok((Value::Simple(owned), start))
                } else {
                    Ok((Value::Error(owned), start))
                }
            },
        }
    } else if tag == INTEGER_TAG {
        match parse_i64(line, "integer") {
            Ok(n) => Ok((Value::Integer(n), start)),
            Err(e) => Err(e),
        }
    } else if tag == BULK_TAG {
        parse_bulk(buf, line, start)
    } else {
        let count = match parse_i64(line, "array length") {
            Ok(n) => n,
            Err(e) => {
                return Err(e);
            },
        };
        if count == -1 {
            return Ok((Value::Null, start));
        }
        if count < -1 {
            return Err(ParseError::Protocol("negative array length".to_owned()));
        }
        if count > MAX_ARRAY_LEN {
            return Err(ParseError::Protocol("array length exceeds limit".to_owned()));
        }
        let mut items: Vec<Value> = Vec::with_capacity(count as usize);
        let mut pos: usize = start;
        let mut left: i64 = count;
        while left > 0
            invariant
                0 <= left <= count <= MAX_ARRAY_LEN,
                0 < start <= pos <= buf@.len(),
                parse(buf@) == array_outcome(
                    start as nat,
                    parse_items(buf@.skip(start as int), count as nat),
                ),
                prepend(models(items@), (pos - start) as nat, parse_items(buf@.skip(pos as int), left as nat))
                    == parse_items(buf@.skip(start as int), count as nat),
            decreases left,
        {
            let rest = slice_subrange(buf, pos, buf.len());
            assert(rest@ =~= buf@.skip(pos as int));
            proof {
                lemma_frame_fits(rest@);
            }
            match parse_value(rest) {
                Ok((item, consumed)) => {
                    let ghost before = items@;
                    let ghost first = item@;
                    items.push(item);
                    assert(rest@.skip(consumed as int) =~= buf@.skip(pos + consumed));
                    assert(models(items@) =~= models(before).push(first));
                    pos += consumed;
                    left -= 1;
                    assert(models(before).push(first) =~= models(before) + seq![first]);
                    proof {
                        let tail = parse_items(buf@.skip(pos as int), left as nat);
                        if let Items::Frames(more, _) = tail {
                            assert(models(before) + (seq![first] + more) =~= models(items@) + more);
                        }
                    }
                },
                Err(e) => {
                    return Err(e);
                },
            }
        }
        let value = Value::Array(items);
        proof {
            lemma_array_view(value);
            assert(models(items@) + Seq::<ValueModel>::empty() =~= models(items@));
        }
        Ok((value, pos))
    }
}

/// The first CRLF, where there is one, is a CRLF, and none comes before it.
pub proof fn lemma_first_crlf(buf: Seq<u8>, from: int)
    requires
        0 <= from,
    ensures
        first_crlf(buf, from) matches Some(i) ==> from <= i && crlf_at(buf, i) && (forall|j: int|
            from <= j < i ==> !crlf_at(buf, j)),
        first_crlf(buf, from) is None ==> (forall|j: int| from <= j ==> !crlf_at(buf, j)),
    decreases buf.len() - from,
{
    if from + 1 < buf.len() && !crlf_at(buf, from) {
        lemma_first_crlf(buf, from + 1);
    }
}

/// A CRLF with none before it is the first one.
pub proof fn lemma_first_crlf_is(buf: Seq<u8>, from: int, i: int)
    requires
        0 <= from <= i,
        crlf_at(buf, i),
        forall|j: int| from <= j < i ==> !crlf_at(buf, j),
    ensures
        first_crlf(buf, from) == Some(i),
    decreases i - from,
{
    if from < i {
        lemma_first_crlf_is(buf, from + 1, i);
    }
}

/// CRLF.
pub open spec fn crlf() -> Seq<u8> {
    seq![CR, LF]
}

/// The wire form of a value. Null is always the null bulk string.
pub open spec fn encoding(value: ValueModel) -> Seq<u8>
    decreases value,
{
    match value {
        ValueModel::Simple(text) => seq![SIMPLE_TAG] + encode_utf8(text) + crlf(),
        ValueModel::Error(text) => seq![ERROR_TAG] + encode_utf8(text) + crlf(),
        ValueModel::Integer(n) => seq![INTEGER_TAG] + signed_decimal(n) + crlf(),
        ValueModel::Bulk(bytes) => seq![BULK_TAG] + decimal(bytes.len()) + crlf() + bytes + crlf(),
        ValueModel::Null => seq![BULK_TAG] + signed_decimal(-1) + crlf(),
        ValueModel::Array(items) => seq![ARRAY_TAG] + decimal(items.len()) + crlf()
            + encodings(items),
    }
}

/// The wire forms of a sequence of values, one after the other.
pub open spec fn encodings(items: Seq<ValueModel>) -> Seq<u8>
    decreases items,
{
    if items.len() == 0 {
        Seq::empty()
    } else {
        encodings(items.drop_last()) + encoding(items.last())
    }
}

fn push_crlf(out: &mut Vec<u8>)
    ensures
        final(out)@ == old(out)@ + crlf(),
{
    out.push(CR);
    out.push(LF);
    assert(out@ =~= old(out)@ + crlf());
}

fn push_bytes(out: &mut Vec<u8>, bytes: &[u8])
    ensures
        final(out)@ == old(out)@ + bytes@,
{
    out.extend_from_slice(bytes);
    assert(out@ =~= old(out)@ + bytes@);
}

/// Appends the wire form of a value.
fn encode_into(value: &Value, out: &mut Vec<u8>)
    ensures
        final(out)@ == old(out)@ + encoding(value@),
    decreases value,
{
    match value {
        Value::Simple(text) => {
            out.push(SIMPLE_TAG);
            push_bytes(out, text.as_str().as_bytes());
            push_crlf(out);
        },
        Value::Error(text) => {
            out.push(ERROR_TAG);
            push_bytes(out, text.as_str().as_bytes());
            push_crlf(out);
        },
        Value::Integer(n) => {
            out.push(INTEGER_TAG);
            push_signed_decimal(out, *n);
            push_crlf(out);
        },
        Value::Bulk(bytes) => {
            out.push(BULK_TAG);
            push_decimal(out, bytes.len() as u64);
            push_crlf(out);
            push_bytes(out, bytes.as_slice());
            push_crlf(out);
        },
        Value::Null => {
            out.push(BULK_TAG);
            push_signed_decimal(out, -1);
            push_crlf(out);
        },
        Value::Array(items) => {
            out.push(ARRAY_TAG);
            push_decimal(out, items.len() as u64);
            push_crlf(out);
            let ghost header = out@;
            let ghost all = models(items@);
            proof {
                lemma_array_view(*value);
                assert(all.take(0) =~= Seq::<ValueModel>::empty());
                assert(header + encodings(all.take(0)) =~= header);
            }
            let mut i: usize = 0;
            while i < items.len()
                invariant
                    value is Array && value->Array_0 == items,
                    all == models(items@),
                    i <= items@.len(),
                    out@ == header + encodings(all.take(i as int)),
                decreases items.len() - i,
            {
                assert(decreases_to!(value => items@[i as int]));
                encode_into(&items[i], out);
                proof {
                    let longer = all.take(i + 1);
                    assert(longer.drop_last() =~= all.take(i as int));
                    assert(longer.last() == items@[i as int]@);
                    assert(out@ =~= header + encodings(longer));
                }
                i += 1;
            }
            assert(all.take(i as int) =~= all);
        },
    }
    assert(out@ =~= old(out)@ + encoding(value@));
}

/// The wire form of a value.
pub fn encode(value: &Value) -> (bytes: Vec<u8>)
    ensures
        bytes@ == encoding(value@),
{
    let mut out: Vec<u8> = Vec::new();
    encode_into(value, &mut out);
    assert(out@ =~= encoding(value@));
    out
}

/// A resumable decoder over a stream of bytes.
///
/// `feed` appends what was read; `try_parse` takes one complete frame off the front. The
/// buffer always begins where the next frame does.
pub struct Parser {
    buf: Vec<u8>,
}

impl View for Parser {
    type V = Seq<u8>;

    /// The bytes that were fed and not yet taken by a frame.
    closed spec fn view(&self) -> Seq<u8> {
        self.buf@
    }
}

impl Default for Parser {
    fn default() -> (parser: Self)
        ensures
            parser@ == Seq::<u8>::empty(),
    {
        Parser { buf: Vec::new() }
    }
}

impl Parser {
    /// A decoder with nothing buffered.
    pub fn new() -> (parser: Self)
        ensures
            parser@ == Seq::<u8>::empty(),
    {
        Parser { buf: Vec::new() }
    }

    /// Appends freshly read bytes.
    pub fn feed(&mut self, bytes: &[u8])
        ensures
            final(self)@ == old(self)@ + bytes@,
    {
        push_bytes(&mut self.buf, bytes);
    }

    /// Decodes one frame from the front of the buffer and takes its bytes off. Where there
    /// is no complete frame, or the bytes are at fault, the buffer stays as it was.
    pub fn try_parse(&mut self) -> (result: Result<Value, ParseError>)
        ensures
            match parse(old(self)@) {
                Outcome::Frame(value, used) => {
                    &&& result matches Ok(decoded)
                    &&& decoded@ == value
                    &&& used <= old(self)@.len()
                    &&& final(self)@ == old(self)@.skip(used as int)
                },
                Outcome::Incomplete => {
                    &&& result matches Err(ParseError::Incomplete)
                    &&& final(self)@ == old(self)@
                },
                Outcome::Protocol(message) => {
                    &&& result matches Err(ParseError::Protocol(text))
                    &&& text@ == message
                    &&& final(self)@ == old(self)@
                },
            },
    {
        match parse_value(self.buf.as_slice()) {
            Ok((value, consumed)) => {
                proof {
                    lemma_frame_fits(self@);
                }
                self.buf = self.buf.split_off(consumed);
                assert(self@ =~= old(self)@.skip(consumed as int));
                Ok(value)
            },
            Err(e) => Err(e),
        }
    }
}

} // verus!
