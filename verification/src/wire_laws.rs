//! What the bytes of a frame mean, byte by byte, and which bytes a value is sent as.
//!
//! A line ends with the bytes 0x0d 0x0a (CRLF). The laws speak of a frame as its type byte,
//! its first line and what follows.

use crate::codec_laws::lemma_line;
use crate::decimal::{decimal, has_sign, integer_value, is_digit, signed_decimal, unsigned_part};
use crate::resp::{
    crlf, crlf_at, encoding, encodings, first_crlf, lemma_first_crlf, lemma_frame_fits, parse,
    Outcome, Value, ValueModel,
};
use vstd::prelude::*;
use vstd::utf8::{decode_utf8, encode_utf8, valid_utf8};

verus! {

/// A type byte, a line, its end, and what follows.
pub open spec fn framed(tag: u8, line: Seq<u8>, rest: Seq<u8>) -> Seq<u8> {
    seq![tag] + line + seq![0x0du8, 0x0au8] + rest
}

/// No 0x0d is followed by a 0x0a.
pub open spec fn has_no_line_end(line: Seq<u8>) -> bool {
    forall|i: int|
        0 <= i && i + 1 < line.len() ==> !(#[trigger] line[i] == 0x0d && line[i + 1] == 0x0a)
}

proof fn lemma_framed(tag: u8, line: Seq<u8>, rest: Seq<u8>)
    requires
        has_no_line_end(line),
    ensures
        ({
            let buf = framed(tag, line, rest);
            &&& buf.len() == 3 + line.len() + rest.len()
            &&& buf[0] == tag
            &&& first_crlf(buf, 1) == Some(1 + line.len() as int)
            &&& buf.subrange(1, 1 + line.len() as int) == line
            &&& buf.skip(3 + line.len() as int) == rest
        }),
{
    assert(crlf() =~= seq![0x0du8, 0x0au8]);
    assert forall|i: int| !crlf_at(line, i) by {
        if 0 <= i && i + 1 < line.len() {
            assert(!(line[i] == 0x0d && line[i + 1] == 0x0a));
        }
    }
    lemma_line(tag, line, rest);
}

/// A text that stands for an integer holds no line end.
proof fn lemma_integer_has_no_line_end(line: Seq<u8>)
    requires
        integer_value(line) is Some,
    ensures
        has_no_line_end(line),
{
    let digits = unsigned_part(line);
    assert forall|i: int| 0 <= i && i + 1 < line.len() implies !(#[trigger] line[i] == 0x0d && line[i
        + 1] == 0x0a) by {
        if has_sign(line) {
            assert(is_digit(digits[i]));
            assert(line[i + 1] == digits[i]);
        } else {
            assert(is_digit(digits[i]));
        }
    }
}

/// Nothing is no frame yet.
pub proof fn law_no_bytes_are_incomplete()
    ensures
        parse(Seq::empty()) == Outcome::Incomplete,
{
}

/// A first byte other than `+`, `-`, `:`, `$` and `*` is at fault, whatever follows.
pub proof fn law_unknown_type_byte_is_a_fault(buf: Seq<u8>)
    requires
        buf.len() > 0,
        buf[0] != 0x2b,
        buf[0] != 0x2d,
        buf[0] != 0x3a,
        buf[0] != 0x24,
        buf[0] != 0x2a,
    ensures
        parse(buf) == Outcome::Protocol("invalid type byte"@),
{
}

/// One of these bytes without the end of its line is incomplete, however long the line is.
pub proof fn law_unfinished_line_is_incomplete(tag: u8, line: Seq<u8>)
    requires
        tag == 0x2b || tag == 0x2d || tag == 0x3a || tag == 0x24 || tag == 0x2a,
        has_no_line_end(line),
    ensures
        parse(seq![tag] + line) == Outcome::Incomplete,
{
    let buf = seq![tag] + line;
    lemma_first_crlf(buf, 1);
    if let Some(i) = first_crlf(buf, 1) {
        assert(line[i - 1] == 0x0d && line[i] == 0x0a);
    }
}

/// A line behind `+` is a simple string and one behind `-` an error, with that text, if the
/// line is UTF-8, and a fault if it is not.
pub proof fn law_text_frames(line: Seq<u8>, rest: Seq<u8>)
    requires
        has_no_line_end(line),
    ensures
        valid_utf8(line) ==> parse(framed(0x2b, line, rest)) == Outcome::Frame(
            ValueModel::Simple(decode_utf8(line)),
            line.len() + 3,
        ),
        valid_utf8(line) ==> parse(framed(0x2d, line, rest)) == Outcome::Frame(
            ValueModel::Error(decode_utf8(line)),
            line.len() + 3,
        ),
        !valid_utf8(line) ==> parse(framed(0x2b, line, rest)) == Outcome::Protocol(
            "simple string is not valid UTF-8"@,
        ),
        !valid_utf8(line) ==> parse(framed(0x2d, line, rest)) == Outcome::Protocol(
            "simple string is not valid UTF-8"@,
        ),
{
    lemma_framed(0x2b, line, rest);
    lemma_framed(0x2d, line, rest);
}

/// A line behind `:` is the integer that it stands for, or a fault.
pub proof fn law_integer_frames(line: Seq<u8>, rest: Seq<u8>)
    requires
        has_no_line_end(line),
    ensures
        parse(framed(0x3a, line, rest)) == match integer_value(line) {
            Some(n) => Outcome::Frame(ValueModel::Integer(n), line.len() + 3),
            None => Outcome::Protocol("invalid integer"@),
        },
{
    lemma_framed(0x3a, line, rest);
    lemma_messages();
}

/// A line behind `$` is the length of a bulk string: that many bytes, of any kind, and a line
/// end follow. A length of -1 is null. Any other negative length, one over 536,870,912, and
/// bytes without their line end are faults.
pub proof fn law_bulk_frames(line: Seq<u8>, rest: Seq<u8>)
    requires
        has_no_line_end(line),
    ensures
        parse(framed(0x24, line, rest)) == match integer_value(line) {
            None => Outcome::Protocol("invalid bulk length"@),
            Some(n) => if n == -1 {
                Outcome::Frame(ValueModel::Null, line.len() + 3)
            } else if n < 0 {
                Outcome::Protocol("negative bulk length"@)
            } else if n > 536_870_912 {
                Outcome::Protocol("bulk length exceeds limit"@)
            } else if rest.len() < n + 2 {
                Outcome::Incomplete
            } else if rest[n] == 0x0d && rest[n + 1] == 0x0a {
                Outcome::Frame(ValueModel::Bulk(rest.take(n)), (line.len() + 3 + n + 2) as nat)
            } else {
                Outcome::Protocol("bulk string missing trailing CRLF"@)
            },
        },
{
    let buf = framed(0x24, line, rest);
    let start = 3 + line.len() as int;
    lemma_framed(0x24, line, rest);
    lemma_messages();
    if let Some(n) = integer_value(line) {
        if 0 <= n && n + 2 <= rest.len() {
            assert(buf.subrange(start, start + n) =~= rest.take(n));
            assert(buf[start + n] == rest[n] && buf[start + n + 1] == rest[n + 1]);
        }
    }
}

/// A line behind `*` is the number of elements of an array. A number of 0 is the empty
/// array, and -1 is null. Any other negative number, and one over 1,048,576, are faults.
pub proof fn law_array_lengths(line: Seq<u8>, rest: Seq<u8>)
    requires
        has_no_line_end(line),
    ensures
        match integer_value(line) {
            None => parse(framed(0x2a, line, rest)) == Outcome::Protocol("invalid array length"@),
            Some(n) => {
                &&& n == -1 ==> parse(framed(0x2a, line, rest)) == Outcome::Frame(
                    ValueModel::Null,
                    line.len() + 3,
                )
                &&& n < -1 ==> parse(framed(0x2a, line, rest)) == Outcome::Protocol(
                    "negative array length"@,
                )
                &&& n > 1_048_576 ==> parse(framed(0x2a, line, rest)) == Outcome::Protocol(
                    "array length exceeds limit"@,
                )
                &&& n == 0 ==> parse(framed(0x2a, line, rest)) == Outcome::Frame(
                    ValueModel::Array(Seq::empty()),
                    line.len() + 3,
                )
            },
        },
{
    lemma_framed(0x2a, line, rest);
    lemma_messages();
}

/// The elements of an array are the frames that follow, one by one: an array of `n` frames
/// is its first frame, put before the array of `n - 1` frames that begins behind it. A first
/// frame that is incomplete or at fault decides on the whole.
pub proof fn law_array_elements(line: Seq<u8>, shorter: Seq<u8>, rest: Seq<u8>)
    requires
        integer_value(line) is Some,
        1 <= integer_value(line)->Some_0 <= 1_048_576,
        integer_value(shorter) == Some(integer_value(line)->Some_0 - 1),
    ensures
        match parse(rest) {
            Outcome::Incomplete => parse(framed(0x2a, line, rest)) == Outcome::Incomplete,
            Outcome::Protocol(message) => parse(framed(0x2a, line, rest)) == Outcome::Protocol(
                message,
            ),
            Outcome::Frame(first, used) => match parse(
                framed(0x2a, shorter, rest.skip(used as int)),
            ) {
                Outcome::Frame(others, all) => {
                    &&& others is Array
                    &&& parse(framed(0x2a, line, rest)) == Outcome::Frame(
                        ValueModel::Array(seq![first] + others->Array_0),
                        (all - shorter.len() + line.len() + used) as nat,
                    )
                },
                faulty => parse(framed(0x2a, line, rest)) == faulty,
            },
        },
{
    let n = integer_value(line)->Some_0 as nat;
    lemma_integer_has_no_line_end(line);
    lemma_integer_has_no_line_end(shorter);
    lemma_framed(0x2a, line, rest);
    lemma_frame_fits(rest);
    if let Outcome::Frame(_, used) = parse(rest) {
        lemma_framed(0x2a, shorter, rest.skip(used as int));
    }
}

/// The texts of the faults that are put together from two.
proof fn lemma_messages()
    ensures
        "invalid "@ + "integer"@ == "invalid integer"@,
        "invalid "@ + "bulk length"@ == "invalid bulk length"@,
        "invalid "@ + "array length"@ == "invalid array length"@,
{
    reveal_strlit("invalid ");
    reveal_strlit("integer");
    reveal_strlit("bulk length");
    reveal_strlit("array length");
    reveal_strlit("invalid integer");
    reveal_strlit("invalid bulk length");
    reveal_strlit("invalid array length");
    assert("invalid "@ + "integer"@ =~= "invalid integer"@);
    assert("invalid "@ + "bulk length"@ =~= "invalid bulk length"@);
    assert("invalid "@ + "array length"@ =~= "invalid array length"@);
}

/// The bytes that a string, an error, an integer, a bulk string and null are sent as.
pub proof fn law_wire_forms(text: Seq<char>, n: int, bytes: Seq<u8>)
    requires
        -0x8000_0000_0000_0000 <= n <= 0x7fff_ffff_ffff_ffff,
    ensures
        encoding(ValueModel::Simple(text)) == framed(0x2b, encode_utf8(text), Seq::empty()),
        encoding(ValueModel::Error(text)) == framed(0x2d, encode_utf8(text), Seq::empty()),
        encoding(ValueModel::Integer(n)) == framed(0x3a, signed_decimal(n), Seq::empty()),
        encoding(ValueModel::Bulk(bytes)) == framed(
            0x24,
            decimal(bytes.len()),
            bytes + seq![0x0du8, 0x0au8],
        ),
        encoding(ValueModel::Null) == seq![0x24u8, 0x2du8, 0x31u8, 0x0du8, 0x0au8],
{
    assert(encoding(ValueModel::Simple(text)) =~= framed(0x2b, encode_utf8(text), Seq::empty()));
    assert(encoding(ValueModel::Error(text)) =~= framed(0x2d, encode_utf8(text), Seq::empty()));
    assert(encoding(ValueModel::Integer(n)) =~= framed(0x3a, signed_decimal(n), Seq::empty()));
    assert(encoding(ValueModel::Bulk(bytes)) =~= framed(
        0x24,
        decimal(bytes.len()),
        bytes + seq![0x0du8, 0x0au8],
    ));
    assert(decimal(1) =~= seq![0x31u8]);
    assert(encoding(ValueModel::Null) =~= seq![0x24u8, 0x2du8, 0x31u8, 0x0du8, 0x0au8]);
}

/// An array is sent as the number of its elements and then these, one after the other.
pub proof fn law_array_wire_form(items: Seq<ValueModel>)
    ensures
        encoding(ValueModel::Array(items)) == framed(
            0x2a,
            decimal(items.len()),
            encodings(items),
        ),
{
    assert(encoding(ValueModel::Array(items)) =~= framed(
        0x2a,
        decimal(items.len()),
        encodings(items),
    ));
}

/// Values that are sent one after the other are sent each in its own wire form.
pub proof fn law_wire_forms_follow_each_other(
    first: Seq<ValueModel>,
    second: Seq<ValueModel>,
    value: ValueModel,
)
    ensures
        encodings(Seq::empty()) == Seq::<u8>::empty(),
        encodings(seq![value]) == encoding(value),
        encodings(first + second) == encodings(first) + encodings(second),
    decreases second.len(),
{
    assert(seq![value].drop_last() =~= Seq::<ValueModel>::empty());
    assert(encodings(seq![value].drop_last()) == Seq::<u8>::empty());
    assert(encodings(seq![value]) =~= encoding(value));
    if second.len() == 0 {
        assert(first + second =~= first);
        assert(encodings(first + second) =~= encodings(first) + encodings(second));
    } else {
        law_wire_forms_follow_each_other(first, second.drop_last(), value);
        assert((first + second).drop_last() =~= first + second.drop_last());
        assert((first + second).last() == second.last());
        assert(encodings(first + second) =~= encodings(first) + encodings(second));
    }
}

/// What a value stands for: a text, a number, bytes, nothing, or its elements in order.
pub proof fn law_value_contents(value: Value)
    ensures
        match value {
            Value::Simple(text) => value@ == ValueModel::Simple(text@),
            Value::Error(text) => value@ == ValueModel::Error(text@),
            Value::Integer(n) => value@ == ValueModel::Integer(n as int),
            Value::Bulk(bytes) => value@ == ValueModel::Bulk(bytes@),
            Value::Null => value@ == ValueModel::Null,
            Value::Array(items) => {
                &&& value@ is Array
                &&& value@->Array_0.len() == items@.len()
                &&& forall|i: int|
                    0 <= i < items@.len() ==> #[trigger] value@->Array_0[i] == items@[i]@
            },
        },
{
}

} // verus!
