//! What holds of the codec as a whole: decoding undoes encoding, and the way in which a
//! stream is cut into pieces does not matter.

use crate::decimal::{
    integer_value, lemma_decimal_is_printable, lemma_integer_round_trip,
    lemma_signed_decimal_is_shortest, signed_decimal,
};
use crate::resp::{
    crlf, crlf_at, encoding, encodings, first_crlf, lemma_first_crlf, lemma_first_crlf_is,
    lemma_frame_fits, lemma_items_fit, parse, parse_items, Items, Outcome, ValueModel, ARRAY_TAG,
    BULK_TAG, ERROR_TAG, INTEGER_TAG, MAX_ARRAY_LEN, MAX_BULK_LEN, SIMPLE_TAG,
};
use vstd::prelude::*;
use vstd::utf8::{encode_utf8, valid_utf8};

verus! {

/// No CRLF occurs in the bytes.
pub open spec fn one_line(bytes: Seq<u8>) -> bool {
    forall|i: int| !crlf_at(bytes, i)
}

/// The wire form of the value can be read back: strings of the line types stay on one
/// line, and every length is within the limits of the decoder.
pub open spec fn encodable(value: ValueModel) -> bool
    decreases value,
{
    match value {
        ValueModel::Simple(text) => one_line(encode_utf8(text)),
        ValueModel::Error(text) => one_line(encode_utf8(text)),
        ValueModel::Integer(n) => i64::MIN <= n <= i64::MAX,
        ValueModel::Bulk(bytes) => bytes.len() <= MAX_BULK_LEN,
        ValueModel::Null => true,
        ValueModel::Array(items) => items.len() <= MAX_ARRAY_LEN && forall|i: int|
            0 <= i < items.len() ==> encodable(#[trigger] items[i]),
    }
}

/// A line without CRLF, between a type byte and CRLF, is found as that line.
pub proof fn lemma_line(tag: u8, line: Seq<u8>, rest: Seq<u8>)
    requires
        one_line(line),
    ensures
        ({
            let buf = seq![tag] + line + crlf() + rest;
            &&& buf.len() >= 3
            &&& buf[0] == tag
            &&& first_crlf(buf, 1) == Some(1 + line.len() as int)
            &&& buf.subrange(1, 1 + line.len() as int) == line
            &&& buf.skip(3 + line.len() as int) == rest
        }),
{
    let buf = seq![tag] + line + crlf() + rest;
    let end = 1 + line.len() as int;
    assert(buf.subrange(1, end) =~= line);
    assert(buf.skip(end + 2) =~= rest);
    assert forall|j: int| 1 <= j < end implies !crlf_at(buf, j) by {
        assert(!crlf_at(line, j - 1));
        assert(buf[j] == line[j - 1]);
        if j + 1 < end {
            assert(buf[j + 1] == line[j]);
        }
    }
    lemma_first_crlf_is(buf, 1, end);
}

/// The decimal form of an integer is one line.
proof fn lemma_number_is_one_line(n: int)
    ensures
        one_line(signed_decimal(n)),
{
    lemma_decimal_is_printable(n);
}

/// The wire forms of several values begin with that of the first.
proof fn lemma_encodings_first(items: Seq<ValueModel>)
    requires
        items.len() > 0,
    ensures
        encodings(items) == encoding(items[0]) + encodings(items.drop_first()),
    decreases items.len(),
{
    if items.len() == 1 {
        assert(items.drop_last() =~= Seq::<ValueModel>::empty());
        assert(items.drop_first() =~= Seq::<ValueModel>::empty());
        assert(encodings(items.drop_last()) =~= Seq::<u8>::empty());
        assert(encodings(items) =~= encoding(items[0]) + encodings(items.drop_first()));
    } else {
        lemma_encodings_first(items.drop_last());
        assert(items.drop_first().drop_last() =~= items.drop_last().drop_first());
        assert(encodings(items) =~= encoding(items[0]) + encodings(items.drop_first()));
    }
}

/// Decoding undoes encoding: at the start of a buffer, the wire form of a value is one
/// complete frame that holds this value, whatever bytes follow.
pub proof fn law_decode_undoes_encode(value: ValueModel, rest: Seq<u8>)
    requires
        encodable(value),
    ensures
        parse(encoding(value) + rest) == Outcome::Frame(value, encoding(value).len()),
    decreases value, 0nat,
{
    let buf = encoding(value) + rest;
    match value {
        ValueModel::Simple(text) => {
            lemma_line(SIMPLE_TAG, encode_utf8(text), rest);
            vstd::utf8::encode_utf8_valid_utf8(text);
            vstd::utf8::encode_utf8_decode_utf8(text);
        },
        ValueModel::Error(text) => {
            lemma_line(ERROR_TAG, encode_utf8(text), rest);
            vstd::utf8::encode_utf8_valid_utf8(text);
            vstd::utf8::encode_utf8_decode_utf8(text);
        },
        ValueModel::Integer(n) => {
            lemma_number_is_one_line(n);
            lemma_line(INTEGER_TAG, signed_decimal(n), rest);
            lemma_integer_round_trip(n as i64);
        },
        ValueModel::Bulk(bytes) => {
            let n = bytes.len() as int;
            lemma_number_is_one_line(n);
            lemma_line(BULK_TAG, signed_decimal(n), bytes + crlf() + rest);
            lemma_integer_round_trip(n as i64);
            assert(buf =~= seq![BULK_TAG] + signed_decimal(n) + crlf() + (bytes + crlf() + rest));
            let start = 3 + signed_decimal(n).len() as int;
            assert(buf.subrange(start, start + n) =~= bytes);
            assert(crlf_at(buf, start + n));
        },
        ValueModel::Null => {
            lemma_number_is_one_line(-1);
            lemma_line(BULK_TAG, signed_decimal(-1), rest);
            lemma_integer_round_trip(-1i64);
        },
        ValueModel::Array(items) => {
            let n = items.len() as int;
            lemma_number_is_one_line(n);
            lemma_line(ARRAY_TAG, signed_decimal(n), encodings(items) + rest);
            lemma_integer_round_trip(n as i64);
            assert(buf =~= seq![ARRAY_TAG] + signed_decimal(n) + crlf() + (encodings(items) + rest));
            lemma_items_round_trip(items, rest);
        },
    }
}

/// The wire forms of several values are as many frames that hold these values.
proof fn lemma_items_round_trip(items: Seq<ValueModel>, rest: Seq<u8>)
    requires
        forall|i: int| 0 <= i < items.len() ==> encodable(#[trigger] items[i]),
    ensures
        parse_items(encodings(items) + rest, items.len()) == Items::Frames(
            items,
            encodings(items).len(),
        ),
    decreases items, 1nat,
{
    if items.len() > 0 {
        let tail = items.drop_first();
        let more = encodings(tail) + rest;
        lemma_encodings_first(items);
        law_decode_undoes_encode(items[0], more);
        assert(encodings(items) + rest =~= encoding(items[0]) + more);
        assert((encodings(items) + rest).skip(encoding(items[0]).len() as int) =~= more);
        lemma_items_round_trip(tail, rest);
        assert(seq![items[0]] + tail =~= items);
    }
}

/// Bytes that arrive later do not move the first CRLF.
proof fn lemma_first_crlf_stays(buf: Seq<u8>, more: Seq<u8>)
    requires
        first_crlf(buf, 1) is Some,
    ensures
        first_crlf(buf + more, 1) == first_crlf(buf, 1),
{
    lemma_first_crlf(buf, 1);
    let end = first_crlf(buf, 1)->Some_0;
    assert forall|j: int| 1 <= j < end implies !crlf_at(buf + more, j) by {
        assert(!crlf_at(buf, j));
    }
    assert(crlf_at(buf + more, end));
    lemma_first_crlf_is(buf + more, 1, end);
}

/// What a buffer amounts to is final once it is a frame or a fault: bytes that arrive
/// later change nothing about it. Only an incomplete frame waits for more.
pub proof fn law_outcome_is_final(buf: Seq<u8>, more: Seq<u8>)
    ensures
        parse(buf) is Incomplete || parse(buf + more) == parse(buf),
    decreases buf.len(), 0nat,
{
    if buf.len() > 0 && !(parse(buf) is Incomplete) {
        let whole = buf + more;
        if let Some(end) = first_crlf(buf, 1) {
            lemma_first_crlf(buf, 1);
            lemma_first_crlf_stays(buf, more);
            let line = buf.subrange(1, end);
            let start = end + 2;
            assert(whole.subrange(1, end) =~= line);
            if let Some(n) = integer_value(line) {
                if buf[0] == BULK_TAG && 0 <= n <= MAX_BULK_LEN {
                    assert(whole.subrange(start, start + n) =~= buf.subrange(start, start + n));
                }
                if buf[0] == ARRAY_TAG && 0 <= n <= MAX_ARRAY_LEN {
                    assert(whole.skip(start) =~= buf.skip(start) + more);
                    lemma_items_are_final(buf.skip(start), more, n as nat);
                }
            }
        }
    }
}

/// The same of several consecutive frames.
proof fn lemma_items_are_final(buf: Seq<u8>, more: Seq<u8>, n: nat)
    ensures
        parse_items(buf, n) is Incomplete || parse_items(buf + more, n) == parse_items(buf, n),
    decreases buf.len(), n + 1,
{
    if n > 0 {
        law_outcome_is_final(buf, more);
        lemma_frame_fits(buf);
        if let Outcome::Frame(_, used) = parse(buf) {
            assert((buf + more).skip(used as int) =~= buf.skip(used as int) + more);
            lemma_items_are_final(buf.skip(used as int), more, (n - 1) as nat);
        }
    }
}

/// A frame that has not arrived whole is incomplete: no beginning of the wire form of a
/// value is taken for a frame or for a fault.
pub proof fn law_partial_frame_is_incomplete(value: ValueModel, received: int)
    requires
        encodable(value),
        0 <= received < encoding(value).len(),
    ensures
        parse(encoding(value).take(received)) == Outcome::Incomplete,
{
    let whole = encoding(value);
    let part = whole.take(received);
    let missing = whole.skip(received);
    assert(part + missing =~= whole);
    assert(whole + Seq::<u8>::empty() =~= whole);
    law_decode_undoes_encode(value, Seq::empty());
    law_outcome_is_final(part, missing);
    lemma_frame_fits(part);
}

/// A complete frame is decided by its own bytes: they alone give the same frame, and any
/// lesser part of them is incomplete, neither a frame nor a fault.
pub proof fn law_frame_is_decided_by_its_bytes(buf: Seq<u8>, received: int)
    requires
        parse(buf) is Frame,
        0 <= received < parse(buf)->Frame_1,
    ensures
        parse(buf)->Frame_1 <= buf.len(),
        parse(buf.take(parse(buf)->Frame_1 as int)) == parse(buf),
        parse(buf.take(received)) == Outcome::Incomplete,
{
    lemma_frame_fits(buf);
    lemma_frame_alone(buf);
    let part = buf.take(received);
    let missing = buf.skip(received);
    assert(part + missing =~= buf);
    law_outcome_is_final(part, missing);
    lemma_frame_fits(part);
}

/// The bytes of a complete frame alone give the same frame.
proof fn lemma_frame_alone(buf: Seq<u8>)
    ensures
        parse(buf) matches Outcome::Frame(_, used) ==> parse(buf.take(used as int)) == parse(buf),
    decreases buf.len(), 0nat,
{
    lemma_frame_fits(buf);
    if let Outcome::Frame(_, used) = parse(buf) {
        let alone = buf.take(used as int);
        let end = first_crlf(buf, 1)->Some_0;
        let start = end + 2;
        let line = buf.subrange(1, end);
        lemma_first_crlf(buf, 1);
        if buf[0] == ARRAY_TAG {
            if let Some(n) = integer_value(line) {
                if 0 <= n <= MAX_ARRAY_LEN {
                    lemma_items_alone(buf.skip(start), n as nat);
                    lemma_items_fit(buf.skip(start), n as nat);
                    assert(alone.skip(start) =~= buf.skip(start).take(used - start));
                }
            }
        }
        assert(start <= used);
        assert forall|j: int| 1 <= j < end implies !crlf_at(alone, j) by {
            assert(!crlf_at(buf, j));
        }
        lemma_first_crlf_is(alone, 1, end);
        assert(alone.subrange(1, end) =~= line);
        if buf[0] == BULK_TAG {
            if let Some(n) = integer_value(line) {
                if 0 <= n <= MAX_BULK_LEN {
                    assert(crlf_at(alone, start + n));
                    assert(alone.subrange(start, start + n) =~= buf.subrange(start, start + n));
                }
            }
        }
    }
}

/// The same of several consecutive frames.
proof fn lemma_items_alone(buf: Seq<u8>, n: nat)
    ensures
        parse_items(buf, n) matches Items::Frames(_, used) ==> parse_items(
            buf.take(used as int),
            n,
        ) == parse_items(buf, n),
    decreases buf.len(), n + 1,
{
    lemma_items_fit(buf, n);
    if n > 0 {
        lemma_frame_fits(buf);
        if let Outcome::Frame(_, first) = parse(buf) {
            let rest = buf.skip(first as int);
            lemma_frame_alone(buf);
            lemma_items_fit(rest, (n - 1) as nat);
            lemma_items_alone(rest, (n - 1) as nat);
            if let Items::Frames(_, more) = parse_items(rest, (n - 1) as nat) {
                let alone = buf.take((first + more) as int);
                assert(alone =~= buf.take(first as int) + rest.take(more as int));
                law_outcome_is_final(buf.take(first as int), rest.take(more as int));
                assert(alone.skip(first as int) =~= rest.take(more as int));
            }
        }
    }
}

/// The complete frames at the front of a buffer, in order, up to the first incomplete or
/// faulty one.
pub open spec fn frames(buf: Seq<u8>) -> Seq<ValueModel>
    decreases buf.len(),
{
    match parse(buf) {
        Outcome::Frame(value, used) if 0 < used <= buf.len() => seq![value] + frames(
            buf.skip(used as int),
        ),
        _ => Seq::empty(),
    }
}

/// The bytes behind the complete frames at the front of a buffer.
pub open spec fn leftover(buf: Seq<u8>) -> Seq<u8>
    decreases buf.len(),
{
    match parse(buf) {
        Outcome::Frame(_, used) if 0 < used <= buf.len() => leftover(buf.skip(used as int)),
        _ => buf,
    }
}

/// The frames taken when the buffer holds `buffered`, each of `chunks` is appended in turn,
/// and after each all complete frames are taken off.
pub open spec fn frames_of_chunks(buffered: Seq<u8>, chunks: Seq<Seq<u8>>) -> Seq<ValueModel>
    decreases chunks.len(),
{
    if chunks.len() == 0 {
        Seq::empty()
    } else {
        frames(buffered + chunks[0]) + frames_of_chunks(
            leftover(buffered + chunks[0]),
            chunks.drop_first(),
        )
    }
}

/// The bytes that are left in the buffer after all of that.
pub open spec fn leftover_of_chunks(buffered: Seq<u8>, chunks: Seq<Seq<u8>>) -> Seq<u8>
    decreases chunks.len(),
{
    if chunks.len() == 0 {
        buffered
    } else {
        leftover_of_chunks(leftover(buffered + chunks[0]), chunks.drop_first())
    }
}

/// The chunks, one after the other.
pub open spec fn joined(chunks: Seq<Seq<u8>>) -> Seq<u8>
    decreases chunks.len(),
{
    if chunks.len() == 0 {
        Seq::empty()
    } else {
        chunks[0] + joined(chunks.drop_first())
    }
}

/// Taking all complete frames leaves none: what is left is incomplete or at fault, and it
/// is nothing but the end of what was there.
pub proof fn law_leftover_holds_no_frame(buf: Seq<u8>)
    ensures
        !(parse(leftover(buf)) is Frame),
        leftover(buf).len() <= buf.len(),
        leftover(buf) == buf.skip(buf.len() - leftover(buf).len()),
    decreases buf.len(),
{
    lemma_frame_fits(buf);
    if let Outcome::Frame(_, used) = parse(buf) {
        let rest = buf.skip(used as int);
        law_leftover_holds_no_frame(rest);
        assert(leftover(buf) =~= buf.skip(buf.len() - leftover(buf).len()));
    } else {
        assert(leftover(buf) =~= buf.skip(0));
    }
}

/// Taking frames before more bytes arrive, or only afterwards, makes no difference.
proof fn lemma_split(first: Seq<u8>, second: Seq<u8>)
    ensures
        frames(first + second) == frames(first) + frames(leftover(first) + second),
        leftover(first + second) == leftover(leftover(first) + second),
    decreases first.len(),
{
    lemma_frame_fits(first);
    if let Outcome::Frame(value, used) = parse(first) {
        let rest = first.skip(used as int);
        law_outcome_is_final(first, second);
        assert((first + second).skip(used as int) =~= rest + second);
        lemma_split(rest, second);
        assert(frames(first + second) =~= frames(first) + frames(leftover(first) + second));
    } else {
        assert(frames(first + second) =~= frames(first) + frames(leftover(first) + second));
    }
}

/// The way in which a stream is cut into chunks does not matter: taking all complete frames
/// after each chunk gives the same frames, and leaves the same bytes, as taking them once
/// after the whole stream.
pub proof fn law_chunking_does_not_matter(buffered: Seq<u8>, chunks: Seq<Seq<u8>>)
    requires
        !(parse(buffered) is Frame),
    ensures
        frames_of_chunks(buffered, chunks) == frames(buffered + joined(chunks)),
        leftover_of_chunks(buffered, chunks) == leftover(buffered + joined(chunks)),
    decreases chunks.len(),
{
    if chunks.len() == 0 {
        assert(buffered + joined(chunks) =~= buffered);
    } else {
        let tail = chunks.drop_first();
        let now = buffered + chunks[0];
        assert(buffered + joined(chunks) =~= now + joined(tail));
        lemma_split(now, joined(tail));
        law_leftover_holds_no_frame(now);
        law_chunking_does_not_matter(leftover(now), tail);
    }
}

/// Frames that arrive in one piece come out one by one, in order, with nothing left.
pub proof fn law_pipelined_frames(values: Seq<ValueModel>)
    requires
        forall|i: int| 0 <= i < values.len() ==> encodable(#[trigger] values[i]),
    ensures
        frames(encodings(values)) == values,
        leftover(encodings(values)) == Seq::<u8>::empty(),
    decreases values.len(),
{
    if values.len() > 0 {
        let tail = values.drop_first();
        lemma_encodings_first(values);
        law_decode_undoes_encode(values[0], encodings(tail));
        lemma_frame_fits(encodings(values));
        assert(encodings(values).skip(encoding(values[0]).len() as int) =~= encodings(tail));
        law_pipelined_frames(tail);
        assert(seq![values[0]] + tail =~= values);
    }
}

/// Whatever the decoder accepts can be encoded and read back: the value of every frame has a
/// wire form that is a frame with that value.
pub proof fn law_decoded_value_is_encodable(buf: Seq<u8>)
    ensures
        parse(buf) matches Outcome::Frame(value, _) ==> encodable(value),
    decreases buf.len(), 0nat,
{
    lemma_first_crlf(buf, 1);
    if buf.len() > 0 {
        if let Some(end) = first_crlf(buf, 1) {
            let line = buf.subrange(1, end);
            if buf[0] == SIMPLE_TAG || buf[0] == ERROR_TAG {
                if valid_utf8(line) {
                    vstd::utf8::decode_utf8_encode_utf8(line);
                    assert forall|i: int| !crlf_at(line, i) by {
                        assert(!crlf_at(buf, i + 1) || i + 1 < 1 || i + 1 >= end);
                    }
                }
            } else if buf[0] == ARRAY_TAG {
                if let Some(n) = integer_value(line) {
                    if 0 <= n <= MAX_ARRAY_LEN {
                        lemma_decoded_items_are_encodable(buf.skip(end + 2), n as nat);
                        lemma_items_fit(buf.skip(end + 2), n as nat);
                    }
                }
            }
        }
    }
}

/// The same of several consecutive frames.
proof fn lemma_decoded_items_are_encodable(buf: Seq<u8>, n: nat)
    ensures
        parse_items(buf, n) matches Items::Frames(items, _) ==> forall|i: int|
            0 <= i < items.len() ==> encodable(#[trigger] items[i]),
    decreases buf.len(), n + 1,
{
    if n > 0 {
        law_decoded_value_is_encodable(buf);
        lemma_frame_fits(buf);
        if let Outcome::Frame(first, used) = parse(buf) {
            let rest = buf.skip(used as int);
            lemma_decoded_items_are_encodable(rest, (n - 1) as nat);
            if let Items::Frames(more, _) = parse_items(rest, (n - 1) as nat) {
                let items = seq![first] + more;
                assert forall|i: int| 0 <= i < items.len() implies encodable(
                    #[trigger] items[i],
                ) by {
                    if i > 0 {
                        assert(items[i] == more[i - 1]);
                    }
                }
            }
        }
    }
}

/// Encoding is canonical: what was decoded, encoded again, is a frame with the same value,
/// and no frame with that value is shorter.
pub proof fn law_encoding_is_shortest(buf: Seq<u8>)
    requires
        parse(buf) is Frame,
    ensures
        ({
            let wire = encoding(parse(buf)->Frame_0);
            &&& parse(wire) == Outcome::Frame(parse(buf)->Frame_0, wire.len())
            &&& wire.len() <= parse(buf)->Frame_1
        }),
{
    let value = parse(buf)->Frame_0;
    law_decoded_value_is_encodable(buf);
    law_decode_undoes_encode(value, Seq::empty());
    assert(encoding(value) + Seq::<u8>::empty() =~= encoding(value));
    lemma_encoding_is_shortest(buf);
}

/// No frame is shorter than the wire form of its value.
proof fn lemma_encoding_is_shortest(buf: Seq<u8>)
    ensures
        parse(buf) matches Outcome::Frame(value, used) ==> encoding(value).len() <= used,
    decreases buf.len(), 0nat,
{
    if let Outcome::Frame(value, used) = parse(buf) {
        let end = first_crlf(buf, 1)->Some_0;
        let line = buf.subrange(1, end);
        lemma_first_crlf(buf, 1);
        lemma_signed_decimal_is_shortest(line);
        if buf[0] == SIMPLE_TAG || buf[0] == ERROR_TAG {
            vstd::utf8::decode_utf8_encode_utf8(line);
        } else if buf[0] == ARRAY_TAG {
            let n = integer_value(line)->Some_0;
            if n >= 0 {
                lemma_items_fit(buf.skip(end + 2), n as nat);
                lemma_encodings_are_shortest(buf.skip(end + 2), n as nat);
            }
        }
    }
}

/// The same of several consecutive frames.
proof fn lemma_encodings_are_shortest(buf: Seq<u8>, n: nat)
    ensures
        parse_items(buf, n) matches Items::Frames(items, used) ==> encodings(items).len() <= used,
    decreases buf.len(), n + 1,
{
    if n > 0 {
        lemma_encoding_is_shortest(buf);
        lemma_frame_fits(buf);
        if let Outcome::Frame(first, used) = parse(buf) {
            let rest = buf.skip(used as int);
            lemma_encodings_are_shortest(rest, (n - 1) as nat);
            if let Items::Frames(more, _) = parse_items(rest, (n - 1) as nat) {
                let items = seq![first] + more;
                lemma_encodings_first(items);
                assert(items.drop_first() =~= more);
            }
        }
    }
}

} // verus!
