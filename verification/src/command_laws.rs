//! What holds of the commands as a whole.

use crate::clock::Instant;
use crate::codec_laws::{
    encodable, frames, frames_of_chunks, joined, law_chunking_does_not_matter,
    law_decode_undoes_encode, one_line,
};
use crate::command::{
    after_del, after_request, arguments, ascii_upper, ascii_upper_char, ascii_upper_text, del_count,
    name_text, reply_to, request_of, set_lifetime, spells, unknown_command_reply, RequestModel,
};
use crate::model::{Bytes, StoreModel};
use crate::resp::{crlf_at, encoding, parse, Outcome, ValueModel, MAX_BULK_LEN};
use crate::store_laws::{law_set_keeps_other_keys, makes_room};
use vstd::prelude::*;
use vstd::utf8::{
    decode_first_scalar, decode_utf8, encode_utf8, is_ascii_chars, is_ascii_chars_encode_utf8,
    length_of_first_scalar, pop_first_scalar, valid_utf8,
};

verus! {

/// The bytes name a command, in either case.
pub open spec fn is_command(name: Bytes) -> bool {
    ||| spells(name, "PING"@)
    ||| spells(name, "SET"@)
    ||| spells(name, "GET"@)
    ||| spells(name, "DEL"@)
    ||| spells(name, "EXPIRE"@)
    ||| spells(name, "TTL"@)
}

/// Two byte strings that differ in the case of ASCII letters at most.
pub open spec fn same_letters(a: Bytes, b: Bytes) -> bool {
    &&& a.len() == b.len()
    &&& forall|i: int| 0 <= i < a.len() ==> ascii_upper(#[trigger] a[i]) == ascii_upper(b[i])
}

/// A successful `SET` is answered `OK`, and a `GET` then gives the value back, until the
/// lifetime that was asked for is over.
pub proof fn law_get_answers_what_set_stored(
    store: StoreModel,
    key: Bytes,
    value: Bytes,
    lifetime: Option<int>,
    now: Instant,
    later: Instant,
)
    requires
        lifetime matches Some(nanos) ==> later.nanos < now.later(nanos).nanos,
    ensures
        reply_to(store, RequestModel::Put { key, value, lifetime }, now) == ValueModel::Simple(
            "OK"@,
        ),
        reply_to(
            after_request(store, RequestModel::Put { key, value, lifetime }, now),
            RequestModel::Get { key },
            later,
        ) == ValueModel::Bulk(value),
{
}

/// A frame of bulk strings with the given arguments.
pub open spec fn frame_of(args: Seq<Bytes>) -> ValueModel {
    ValueModel::Array(Seq::new(args.len(), |i: int| ValueModel::Bulk(args[i])))
}

/// The same of the frames that a client sends: after a `SET` frame with options that are
/// understood, a `GET` frame for the key is answered with the value, as long as it lives,
/// and with null from then on.
pub proof fn law_get_frame_answers_set_frame(
    store: StoreModel,
    set_name: Bytes,
    get_name: Bytes,
    key: Bytes,
    value: Bytes,
    options: Seq<Bytes>,
    now: Instant,
    later: Instant,
)
    requires
        spells(set_name, "SET"@),
        spells(get_name, "GET"@),
        set_lifetime(options) is Ok,
    ensures
        ({
            let set = request_of(frame_of(seq![set_name, key, value] + options));
            let get = request_of(frame_of(seq![get_name, key]));
            let alive = set_lifetime(options)->Ok_0 matches Some(nanos) ==> later.nanos
                < now.later(nanos).nanos;
            &&& reply_to(store, set, now) == ValueModel::Simple("OK"@)
            &&& reply_to(after_request(store, set, now), get, later) == if alive {
                ValueModel::Bulk(value)
            } else {
                ValueModel::Null
            }
        }),
{
    lemma_set_frame(set_name, key, value, options);
    lemma_get_frame(get_name, key);
}

/// What a `SET` frame with options that are understood asks for.
proof fn lemma_set_frame(name: Bytes, key: Bytes, value: Bytes, options: Seq<Bytes>)
    requires
        spells(name, "SET"@),
        set_lifetime(options) is Ok,
    ensures
        request_of(frame_of(seq![name, key, value] + options)) == (RequestModel::Put {
            key,
            value,
            lifetime: set_lifetime(options)->Ok_0,
        }),
{
    let args = seq![name, key, value] + options;
    lemma_frame_arguments(args);
    reveal_strlit("PING");
    reveal_strlit("SET");
    assert(ascii_upper(name[0]) == 'S' as u8);
    assert(args.skip(3) =~= options);
}

/// What a `GET` frame asks for.
proof fn lemma_get_frame(name: Bytes, key: Bytes)
    requires
        spells(name, "GET"@),
    ensures
        request_of(frame_of(seq![name, key])) == (RequestModel::Get { key }),
{
    lemma_frame_arguments(seq![name, key]);
    reveal_strlit("PING");
    reveal_strlit("SET");
    reveal_strlit("GET");
    assert(ascii_upper(name[0]) == 'G' as u8);
}

/// A `SET` frame leaves the answers about other keys alone: a `GET` of another key before it
/// and one after it are answered the same, unless that key made room or expired meanwhile.
pub proof fn law_set_frame_keeps_other_answers(
    store: StoreModel,
    set_name: Bytes,
    get_name: Bytes,
    key: Bytes,
    value: Bytes,
    options: Seq<Bytes>,
    other: Bytes,
    first: Instant,
    now: Instant,
    later: Instant,
)
    requires
        spells(set_name, "SET"@),
        spells(get_name, "GET"@),
        set_lifetime(options) is Ok,
        other != key,
        store.is_live(other, first) ==> store.is_live(other, later),
        ({
            let read = store.after_get(other, first);
            !(makes_room(read, key) && other == read.order.last())
        }),
    ensures
        ({
            let set = request_of(frame_of(seq![set_name, key, value] + options));
            let get = request_of(frame_of(seq![get_name, other]));
            let read = after_request(store, get, first);
            let written = after_request(read, set, now);
            reply_to(written, get, later) == reply_to(store, get, first)
        }),
{
    lemma_set_frame(set_name, key, value, options);
    lemma_get_frame(get_name, other);
    let lifetime = set_lifetime(options)->Ok_0;
    let expires_at = match lifetime {
        Some(nanos) => Some(now.later(nanos)),
        None => None,
    };
    law_set_keeps_other_keys(store.after_get(other, first), key, value, expires_at, other);
}

/// The arguments of a frame of bulk strings are those strings.
pub proof fn lemma_frame_arguments(args: Seq<Bytes>)
    ensures
        arguments(frame_of(args)) == Ok::<Seq<Bytes>, Seq<char>>(args),
{
    let items = frame_of(args)->Array_0;
    assert(Seq::new(items.len(), |i: int| items[i]->Bulk_0) =~= args);
}

/// Once its lifetime is over, a key is answered as one that does not exist.
pub proof fn law_expired_key_answers_as_absent(
    store: StoreModel,
    key: Bytes,
    value: Bytes,
    nanos: int,
    now: Instant,
    later: Instant,
)
    requires
        now.later(nanos).nanos <= later.nanos,
    ensures
        ({
            let stored = after_request(
                store,
                RequestModel::Put { key, value, lifetime: Some(nanos) },
                now,
            );
            &&& reply_to(stored, RequestModel::Get { key }, later) == ValueModel::Null
            &&& reply_to(stored, RequestModel::Ttl { key }, later) == ValueModel::Integer(-2)
        }),
{
}

/// A frame that is refused, or asks for nothing of the store, leaves the store as it is, and
/// its answer depends on the frame alone.
pub proof fn law_refused_request_changes_nothing(
    store: StoreModel,
    other: StoreModel,
    frame: ValueModel,
    now: Instant,
    later: Instant,
)
    requires
        request_of(frame) is Reply,
    ensures
        after_request(store, request_of(frame), now) == store,
        reply_to(store, request_of(frame), now) == reply_to(other, request_of(frame), later),
{
}

/// Names that differ in the case of letters at most are both valid UTF-8 or neither is, and
/// read the same in upper case.
proof fn lemma_same_text(a: Bytes, b: Bytes)
    requires
        same_letters(a, b),
        valid_utf8(a),
    ensures
        valid_utf8(b),
        ascii_upper_text(decode_utf8(a)) == ascii_upper_text(decode_utf8(b)),
    decreases a.len(),
{
    if a.len() > 0 {
        let first = a[0];
        let other = b[0];
        assert(ascii_upper(first) == ascii_upper(other));
        if first < 0x80 {
            assert((first & 0x7f) as u32 == first) by (bit_vector)
                requires
                    first < 0x80,
            ;
            assert((other & 0x7f) as u32 == other) by (bit_vector)
                requires
                    other < 0x80,
            ;
        }
        let rest = pop_first_scalar(a);
        let others = pop_first_scalar(b);
        assert forall|i: int| 0 <= i < rest.len() implies ascii_upper(#[trigger] rest[i])
            == ascii_upper(others[i]) by {
            let width = length_of_first_scalar(a);
            assert(ascii_upper(a[i + width]) == ascii_upper(b[i + width]));
        }
        lemma_same_text(rest, others);
        let c = decode_first_scalar(a) as char;
        let d = decode_first_scalar(b) as char;
        assert(ascii_upper_char(c) == ascii_upper_char(d));
        assert(decode_utf8(a) == seq![c] + decode_utf8(rest));
        assert(decode_utf8(b) == seq![d] + decode_utf8(others));
        assert(ascii_upper_text(decode_utf8(a)) =~= seq![ascii_upper_char(c)] + ascii_upper_text(
            decode_utf8(rest),
        ));
        assert(ascii_upper_text(decode_utf8(b)) =~= seq![ascii_upper_char(d)] + ascii_upper_text(
            decode_utf8(others),
        ));
    } else {
        assert(a =~= b);
    }
}

/// An error reply means that nothing was done: the store is exactly as it was.
pub proof fn law_error_reply_changes_nothing(store: StoreModel, request: RequestModel, now: Instant)
    requires
        reply_to(store, request, now) is Error,
    ensures
        after_request(store, request, now) == store,
{
}

/// Asking changes nothing that is stored: a `GET` of a key that has not expired, or that is
/// absent, changes at most which keys were used last, and a `TTL` of one changes nothing.
pub proof fn law_asking_changes_nothing_stored(store: StoreModel, key: Bytes, now: Instant)
    requires
        !store.is_expired(key, now),
    ensures
        after_request(store, RequestModel::Get { key }, now).entries == store.entries,
        !store.has(key) ==> after_request(store, RequestModel::Get { key }, now) == store,
        after_request(store, RequestModel::Ttl { key }, now) == store,
{
}

/// A command may be written in either case: two frames whose first arguments differ in the
/// case of letters at most, and in nothing else, ask for the same, so that they have the
/// same reply and the same effect. This holds of names that are no command too, as the reply
/// quotes them in upper case; of those that are not valid UTF-8 it is left unsaid.
pub proof fn law_command_name_ignores_case(
    args: Seq<Bytes>,
    name: Bytes,
    store: StoreModel,
    now: Instant,
)
    requires
        args.len() > 0,
        is_command(args[0]) || valid_utf8(args[0]),
        same_letters(args[0], name),
    ensures
        ({
            let one = request_of(frame_of(args));
            let other = request_of(frame_of(args.update(0, name)));
            &&& other == one
            &&& reply_to(store, other, now) == reply_to(store, one, now)
            &&& after_request(store, other, now) == after_request(store, one, now)
        }),
{
    let others = args.update(0, name);
    lemma_frame_arguments(args);
    lemma_frame_arguments(others);
    if valid_utf8(args[0]) {
        lemma_same_text(args[0], name);
    }
    assert forall|word: Seq<char>| spells(args[0], word) == #[trigger] spells(name, word) by {
        if spells(args[0], word) {
            assert forall|i: int| 0 <= i < name.len() implies ascii_upper(#[trigger] name[i])
                == word[i] as u8 by {
                assert(ascii_upper(args[0][i]) == ascii_upper(name[i]));
            }
        }
        if spells(name, word) {
            assert forall|i: int| 0 <= i < args[0].len() implies ascii_upper(
                #[trigger] args[0][i],
            ) == word[i] as u8 by {
                assert(ascii_upper(args[0][i]) == ascii_upper(name[i]));
            }
        }
    }
    assert(others.skip(1) =~= args.skip(1));
    if args.len() >= 3 {
        assert(others.skip(3) =~= args.skip(3));
    }
}

/// Removing keys one after the other leaves just the keys that are not among them.
proof fn lemma_after_del(store: StoreModel, keys: Seq<Bytes>)
    ensures
        forall|key: Bytes| #[trigger]
            after_del(store, keys).has(key) <==> store.has(key) && !keys.contains(key),
    decreases keys.len(),
{
    if keys.len() > 0 {
        let front = keys.drop_last();
        lemma_after_del(store, front);
        assert forall|key: Bytes| #[trigger] after_del(store, keys).has(key) <==> store.has(key)
            && !keys.contains(key) by {
            assert(after_del(store, front).has(key) <==> store.has(key) && !front.contains(key));
            if keys.contains(key) {
                let i = keys.index_of(key);
                if i < front.len() {
                    assert(front[i] == key);
                }
            }
            if front.contains(key) {
                assert(keys[front.index_of(key)] == key);
            }
            assert(keys[keys.len() - 1] == keys.last());
        }
    }
}

/// `DEL` removes just the keys that it names, and counts those that were there, each once
/// however often it is named.
pub proof fn law_del_counts_existing_keys(store: StoreModel, keys: Seq<Bytes>)
    ensures
        forall|key: Bytes| #[trigger]
            after_del(store, keys).has(key) <==> store.has(key) && !keys.contains(key),
        keys.to_set().filter(|key: Bytes| store.has(key)).finite(),
        del_count(store, keys) == keys.to_set().filter(|key: Bytes| store.has(key)).len(),
        del_count(store, keys) <= keys.len(),
    decreases keys.len(),
{
    lemma_after_del(store, keys);
    let had = |key: Bytes| store.has(key);
    let named = keys.to_set().filter(had);
    if keys.len() == 0 {
        assert(named =~= Set::<Bytes>::empty());
    } else {
        let front = keys.drop_last();
        let last = keys.last();
        law_del_counts_existing_keys(store, front);
        let before = front.to_set().filter(had);
        assert(keys =~= front.push(last));
        assert forall|key: Bytes| keys.contains(key) <==> front.contains(key) || key == last by {
            if keys.contains(key) {
                let i = keys.index_of(key);
                if i < front.len() {
                    assert(front[i] == key);
                }
            }
            if front.contains(key) {
                assert(keys[front.index_of(key)] == key);
            }
            assert(keys[keys.len() - 1] == last);
        }
        if store.has(last) {
            assert(named =~= before.insert(last));
        } else {
            assert(named =~= before);
        }
        assert(after_del(store, front).has(last) <==> store.has(last) && !front.contains(last));
    }
}

/// No request changes the clock of the store, nor how many keys it is to hold: an expiry
/// keeps its meaning as long as the store lives.
pub proof fn law_request_keeps_clock_and_capacity(
    store: StoreModel,
    request: RequestModel,
    now: Instant,
)
    ensures
        after_request(store, request, now).clock == store.clock,
        after_request(store, request, now).capacity == store.capacity,
{
    if let RequestModel::Del { keys } = request {
        lemma_del_keeps_clock(store, keys);
    }
}

/// Removing keys changes neither the clock nor the capacity.
proof fn lemma_del_keeps_clock(store: StoreModel, keys: Seq<Bytes>)
    ensures
        after_del(store, keys).clock == store.clock,
        after_del(store, keys).capacity == store.capacity,
    decreases keys.len(),
{
    if keys.len() > 0 {
        lemma_del_keeps_clock(store, keys.drop_last());
    }
}

/// An `EXPIRE` that is not positive is a `DEL` of the key.
pub proof fn law_expire_in_the_past_deletes(store: StoreModel, key: Bytes, secs: int, now: Instant)
    requires
        secs <= 0,
    ensures
        after_request(store, RequestModel::Expire { key, secs }, now) == after_request(
            store,
            RequestModel::Del { keys: seq![key] },
            now,
        ),
        reply_to(store, RequestModel::Expire { key, secs }, now) == reply_to(
            store,
            RequestModel::Del { keys: seq![key] },
            now,
        ),
{
    let keys = seq![key];
    assert(keys.drop_last() =~= Seq::<Bytes>::empty());
    assert(keys.last() == key);
    assert(after_del(store, keys.drop_last()) == store);
    assert(del_count(store, keys.drop_last()) == 0);
}

/// Only printable ASCII characters.
pub open spec fn printable(text: Seq<char>) -> bool {
    forall|i: int| 0 <= i < text.len() ==> ' ' <= #[trigger] text[i] <= '~'
}

/// Printable text is one line.
proof fn lemma_printable_is_one_line(text: Seq<char>)
    requires
        printable(text),
    ensures
        one_line(encode_utf8(text)),
{
    assert(is_ascii_chars(text));
    is_ascii_chars_encode_utf8(text);
    assert forall|i: int| !crlf_at(encode_utf8(text), i) by {
        if 0 <= i < text.len() {
            assert(encode_utf8(text)[i] == text[i] as u8);
        }
    }
}

/// The fixed texts of the replies are printable.
proof fn lemma_fixed_texts()
    ensures
        printable("OK"@),
        printable("PONG"@),
        printable("ERR empty command"@),
        printable("ERR syntax error"@),
        printable("ERR value is not an integer or out of range"@),
        printable("ERR invalid expire time in 'set' command"@),
        printable("ERR protocol error: expected array of bulk strings"@),
        printable("ERR wrong number of arguments for 'ping' command"@),
        printable("ERR wrong number of arguments for 'set' command"@),
        printable("ERR wrong number of arguments for 'get' command"@),
        printable("ERR wrong number of arguments for 'del' command"@),
        printable("ERR wrong number of arguments for 'expire' command"@),
        printable("ERR wrong number of arguments for 'ttl' command"@),
{
    reveal_strlit("OK");
    reveal_strlit("PONG");
    reveal_strlit("ERR empty command");
    reveal_strlit("ERR syntax error");
    reveal_strlit("ERR value is not an integer or out of range");
    reveal_strlit("ERR invalid expire time in 'set' command");
    reveal_strlit("ERR protocol error: expected array of bulk strings");
    reveal_strlit("ERR wrong number of arguments for 'ping' command");
    reveal_strlit("ERR wrong number of arguments for 'set' command");
    reveal_strlit("ERR wrong number of arguments for 'get' command");
    reveal_strlit("ERR wrong number of arguments for 'del' command");
    reveal_strlit("ERR wrong number of arguments for 'expire' command");
    reveal_strlit("ERR wrong number of arguments for 'ttl' command");
}

/// Every stored value is within the limit of a bulk string.
pub open spec fn values_fit(store: StoreModel) -> bool {
    forall|key: Bytes| #[trigger]
        store.entries.contains_key(key) ==> store.entries[key].value.len() <= MAX_BULK_LEN
}

/// The arguments of a frame that can be read from the wire are within the limit of a bulk
/// string.
proof fn lemma_arguments_fit(frame: ValueModel)
    requires
        encodable(frame),
    ensures
        arguments(frame) matches Ok(args) ==> forall|i: int|
            0 <= i < args.len() ==> (#[trigger] args[i]).len() <= MAX_BULK_LEN,
{
    if let Ok(args) = arguments(frame) {
        assert forall|i: int| 0 <= i < args.len() implies (#[trigger] args[i]).len()
            <= MAX_BULK_LEN by {
            assert(encodable(frame->Array_0[i]));
            assert(frame->Array_0[i] is Bulk);
        }
    }
}

/// What is stored through frames stays within the limit of a bulk string, so that it can be
/// sent back.
pub proof fn law_stored_values_stay_within_limits(
    store: StoreModel,
    frame: ValueModel,
    now: Instant,
)
    requires
        values_fit(store),
        encodable(frame),
    ensures
        values_fit(after_request(store, request_of(frame), now)),
{
    lemma_arguments_fit(frame);
    if let RequestModel::Del { keys } = request_of(frame) {
        lemma_del_keeps_values(store, keys);
    }
}

/// Removing keys changes no value that stays.
proof fn lemma_del_keeps_values(store: StoreModel, keys: Seq<Bytes>)
    ensures
        forall|key: Bytes| #[trigger]
            after_del(store, keys).entries.contains_key(key) ==> store.entries.contains_key(key)
                && after_del(store, keys).entries[key] == store.entries[key],
    decreases keys.len(),
{
    if keys.len() > 0 {
        lemma_del_keeps_values(store, keys.drop_last());
    }
}

/// Every reply can be read back by the client as one frame, whatever follows it. The one
/// exception is the reply to an unknown command whose name, which the reply quotes, holds a
/// line break.
pub proof fn law_reply_is_one_frame(
    store: StoreModel,
    frame: ValueModel,
    now: Instant,
    rest: Seq<u8>,
)
    requires
        values_fit(store),
        encodable(frame),
        arguments(frame) matches Ok(args) ==> args.len() == 0 || is_command(args[0]) || encodable(
            unknown_command_reply(name_text(args[0])),
        ),
    ensures
        ({
            let reply = reply_to(store, request_of(frame), now);
            parse(encoding(reply) + rest) == Outcome::Frame(reply, encoding(reply).len())
        }),
{
    let reply = reply_to(store, request_of(frame), now);
    lemma_arguments_fit(frame);
    lemma_fixed_texts();
    assert(encodable(reply)) by {
        if let ValueModel::Error(text) = reply {
            if printable(text) {
                lemma_printable_is_one_line(text);
            }
        }
        if let ValueModel::Simple(text) = reply {
            lemma_printable_is_one_line(text);
        }
        if let RequestModel::Del { keys } = request_of(frame) {
            law_del_counts_existing_keys(store, keys);
        }
    }
    law_decode_undoes_encode(reply, rest);
}

/// The replies to frames that are answered in order, each at its time, as they are sent.
pub open spec fn replies(store: StoreModel, requests: Seq<ValueModel>, times: Seq<Instant>) -> Seq<u8>
    decreases requests.len(),
{
    if requests.len() == 0 {
        Seq::empty()
    } else {
        let request = request_of(requests[0]);
        encoding(reply_to(store, request, times[0])) + replies(
            after_request(store, request, times[0]),
            requests.drop_first(),
            times.drop_first(),
        )
    }
}

/// The way in which the requests of a client are cut into chunks does not matter: the
/// replies are those to the same bytes in one piece.
pub proof fn law_chunking_does_not_change_replies(
    store: StoreModel,
    chunks: Seq<Seq<u8>>,
    times: Seq<Instant>,
)
    ensures
        replies(store, frames_of_chunks(Seq::empty(), chunks), times) == replies(
            store,
            frames(joined(chunks)),
            times,
        ),
{
    law_chunking_does_not_matter(Seq::empty(), chunks);
    assert(Seq::<u8>::empty() + joined(chunks) =~= joined(chunks));
}

} // verus!
