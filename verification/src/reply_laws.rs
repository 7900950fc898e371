//! What each command does, in terms of the bytes of its arguments, the clock in nanoseconds,
//! and what is stored.
//!
//! A client sends a command as an array of bulk strings, its arguments. The laws give, for
//! every list of arguments, the reply and the store that the command leaves.

use crate::clock::Instant;
use crate::command::{
    after_del, after_request, ascii_upper, ascii_upper_text, reply_to, request_of,
    request_of_arguments, spells, utf8_lossy, Lifetime, Request, RequestModel,
};
use crate::command_laws::{frame_of, law_del_counts_existing_keys, lemma_frame_arguments};
use crate::decimal::integer_value;
use crate::model::{lemma_without_none, lemma_without_twice, Bytes, StoreModel};
use crate::resp::ValueModel;
use crate::store_laws::{alive, lemma_order_without, same_order_but};
use vstd::prelude::*;
use vstd::utf8::{decode_utf8, valid_utf8};

verus! {

/// The reply to a command at the time `now`.
pub open spec fn answer(store: StoreModel, args: Seq<Bytes>, now: Instant) -> ValueModel {
    reply_to(store, request_of(frame_of(args)), now)
}

/// The store that a command at the time `now` leaves.
pub open spec fn outcome(store: StoreModel, args: Seq<Bytes>, now: Instant) -> StoreModel {
    after_request(store, request_of(frame_of(args)), now)
}

/// The bytes are those of a word in capital letters, each of which may be written small.
pub open spec fn is_written(bytes: Bytes, capitals: Seq<u8>) -> bool {
    &&& bytes.len() == capitals.len()
    &&& forall|i: int|
        0 <= i < capitals.len() ==> #[trigger] bytes[i] == capitals[i] || bytes[i] == capitals[i]
            + 0x20
}

pub open spec fn is_ping(name: Bytes) -> bool {
    is_written(name, seq![0x50u8, 0x49u8, 0x4eu8, 0x47u8])
}

pub open spec fn is_set(name: Bytes) -> bool {
    is_written(name, seq![0x53u8, 0x45u8, 0x54u8])
}

pub open spec fn is_get(name: Bytes) -> bool {
    is_written(name, seq![0x47u8, 0x45u8, 0x54u8])
}

pub open spec fn is_del(name: Bytes) -> bool {
    is_written(name, seq![0x44u8, 0x45u8, 0x4cu8])
}

pub open spec fn is_expire(name: Bytes) -> bool {
    is_written(name, seq![0x45u8, 0x58u8, 0x50u8, 0x49u8, 0x52u8, 0x45u8])
}

pub open spec fn is_ttl(name: Bytes) -> bool {
    is_written(name, seq![0x54u8, 0x54u8, 0x4cu8])
}

/// The option of `SET` for seconds.
pub open spec fn is_ex(name: Bytes) -> bool {
    is_written(name, seq![0x45u8, 0x58u8])
}

/// The option of `SET` for milliseconds.
pub open spec fn is_px(name: Bytes) -> bool {
    is_written(name, seq![0x50u8, 0x58u8])
}

/// The point that many nanoseconds later, or the last one there is.
pub open spec fn point_after(now: Instant, nanos: int) -> Instant {
    if now.nanos + nanos <= 0xffff_ffff_ffff_ffff_ffff_ffff_ffff_ffff {
        Instant { nanos: (now.nanos + nanos) as u128 }
    } else {
        Instant { nanos: 0xffff_ffff_ffff_ffff_ffff_ffff_ffff_ffff }
    }
}

/// A word that is spelled with the given capital letters.
proof fn lemma_written(bytes: Bytes, word: Seq<char>, capitals: Seq<u8>)
    requires
        word.len() == capitals.len(),
        forall|i: int| 0 <= i < word.len() ==> #[trigger] word[i] as u8 == capitals[i],
        forall|i: int| 0 <= i < capitals.len() ==> 0x41 <= #[trigger] capitals[i] <= 0x5a,
    ensures
        spells(bytes, word) <==> is_written(bytes, capitals),
{
    if spells(bytes, word) {
        assert forall|i: int| 0 <= i < capitals.len() implies #[trigger] bytes[i] == capitals[i]
            || bytes[i] == capitals[i] + 0x20 by {
            assert(ascii_upper(bytes[i]) == word[i] as u8);
            assert(0x41 <= capitals[i] <= 0x5a);
        }
    }
    if is_written(bytes, capitals) {
        assert forall|i: int| 0 <= i < bytes.len() implies ascii_upper(#[trigger] bytes[i])
            == word[i] as u8 by {
            assert(bytes[i] == capitals[i] || bytes[i] == capitals[i] + 0x20);
            assert(0x41 <= capitals[i] <= 0x5a);
        }
    }
}

/// The names of the commands and options are the bytes `PING`, `SET`, `GET`, `DEL`, `EXPIRE`,
/// `TTL`, `EX` and `PX`, each letter capital or small, and nothing else.
pub proof fn law_names_of_commands(name: Bytes)
    ensures
        spells(name, "PING"@) <==> is_ping(name),
        spells(name, "SET"@) <==> is_set(name),
        spells(name, "GET"@) <==> is_get(name),
        spells(name, "DEL"@) <==> is_del(name),
        spells(name, "EXPIRE"@) <==> is_expire(name),
        spells(name, "TTL"@) <==> is_ttl(name),
        spells(name, "EX"@) <==> is_ex(name),
        spells(name, "PX"@) <==> is_px(name),
{
    reveal_strlit("PING");
    reveal_strlit("SET");
    reveal_strlit("GET");
    reveal_strlit("DEL");
    reveal_strlit("EXPIRE");
    reveal_strlit("TTL");
    reveal_strlit("EX");
    reveal_strlit("PX");
    lemma_written(name, "PING"@, seq![0x50u8, 0x49u8, 0x4eu8, 0x47u8]);
    lemma_written(name, "SET"@, seq![0x53u8, 0x45u8, 0x54u8]);
    lemma_written(name, "GET"@, seq![0x47u8, 0x45u8, 0x54u8]);
    lemma_written(name, "DEL"@, seq![0x44u8, 0x45u8, 0x4cu8]);
    lemma_written(name, "EXPIRE"@, seq![0x45u8, 0x58u8, 0x50u8, 0x49u8, 0x52u8, 0x45u8]);
    lemma_written(name, "TTL"@, seq![0x54u8, 0x54u8, 0x4cu8]);
    lemma_written(name, "EX"@, seq![0x45u8, 0x58u8]);
    lemma_written(name, "PX"@, seq![0x50u8, 0x58u8]);
}

/// A name is that of one command at most.
proof fn lemma_one_command(name: Bytes)
    ensures
        is_set(name) ==> !is_ping(name),
        is_get(name) ==> !is_ping(name) && !is_set(name),
        is_del(name) ==> !is_ping(name) && !is_set(name) && !is_get(name),
        is_expire(name) ==> !is_ping(name) && !is_set(name) && !is_get(name) && !is_del(name),
        is_ttl(name) ==> !is_ping(name) && !is_set(name) && !is_get(name) && !is_del(name)
            && !is_expire(name),
        is_px(name) ==> !is_ex(name),
{
    if name.len() > 0 {
        let first = name[0];
        assert(is_set(name) ==> first == 0x53 || first == 0x73);
        assert(is_get(name) ==> first == 0x47 || first == 0x67);
        assert(is_del(name) ==> first == 0x44 || first == 0x64);
        assert(is_ttl(name) ==> first == 0x54 || first == 0x74);
        assert(is_ex(name) ==> first == 0x45 || first == 0x65);
        assert(is_px(name) ==> first == 0x50 || first == 0x70);
    }
}

/// The arguments of a frame are read by the name of their command.
proof fn lemma_request(args: Seq<Bytes>)
    ensures
        request_of(frame_of(args)) == request_of_arguments(args),
{
    lemma_frame_arguments(args);
    if args.len() > 0 {
        law_names_of_commands(args[0]);
        lemma_one_command(args[0]);
    }
}

/// A `GET` with one key asks for that key.
pub proof fn lemma_get_request(args: Seq<Bytes>)
    requires
        args.len() == 2,
        is_get(args[0]),
    ensures
        request_of(frame_of(args)) == (RequestModel::Get { key: args[1] }),
{
    lemma_request(args);
    law_names_of_commands(args[0]);
    lemma_one_command(args[0]);
}

/// `PING` answers `PONG`, and `PING message` the message. The store stays as it is.
pub proof fn law_ping(store: StoreModel, args: Seq<Bytes>, now: Instant)
    requires
        args.len() > 0,
        is_ping(args[0]),
    ensures
        outcome(store, args, now) == store,
        args.len() == 1 ==> answer(store, args, now) == ValueModel::Simple("PONG"@),
        args.len() == 2 ==> answer(store, args, now) == ValueModel::Bulk(args[1]),
        args.len() > 2 ==> answer(store, args, now) == ValueModel::Error(
            "ERR wrong number of arguments for 'ping' command"@,
        ),
{
    lemma_request(args);
    law_names_of_commands(args[0]);
}

/// `GET key` answers the value of the key, or null where no live key is stored.
pub proof fn law_get(store: StoreModel, args: Seq<Bytes>, now: Instant)
    requires
        args.len() > 0,
        is_get(args[0]),
    ensures
        args.len() != 2 ==> answer(store, args, now) == ValueModel::Error(
            "ERR wrong number of arguments for 'get' command"@,
        ) && outcome(store, args, now) == store,
        args.len() == 2 && alive(store, args[1], now) ==> answer(store, args, now)
            == ValueModel::Bulk(store.entries[args[1]].value),
        args.len() == 2 && !alive(store, args[1], now) ==> answer(store, args, now)
            == ValueModel::Null,
        args.len() == 2 ==> outcome(store, args, now) == store.after_get(args[1], now),
{
    lemma_request(args);
    law_names_of_commands(args[0]);
    lemma_one_command(args[0]);
}

/// `SET key value` stores the value without an expiry, and with `EX n` or `PX n` for `n`
/// times 1,000,000,000 or 1,000,000 nanoseconds. Any other form is refused and stores
/// nothing.
pub proof fn law_set(store: StoreModel, args: Seq<Bytes>, now: Instant)
    requires
        args.len() > 0,
        is_set(args[0]),
    ensures
        args.len() < 3 ==> answer(store, args, now) == ValueModel::Error(
            "ERR wrong number of arguments for 'set' command"@,
        ),
        args.len() == 3 ==> answer(store, args, now) == ValueModel::Simple("OK"@) && outcome(
            store,
            args,
            now,
        ) == store.after_set(args[1], args[2], None),
        args.len() == 4 || args.len() > 5 ==> answer(store, args, now) == ValueModel::Error(
            "ERR syntax error"@,
        ),
        args.len() == 5 ==> match integer_value(args[4]) {
            None => answer(store, args, now) == ValueModel::Error(
                "ERR value is not an integer or out of range"@,
            ),
            Some(n) => if n <= 0 {
                answer(store, args, now) == ValueModel::Error(
                    "ERR invalid expire time in 'set' command"@,
                )
            } else if is_ex(args[3]) {
                answer(store, args, now) == ValueModel::Simple("OK"@) && outcome(store, args, now)
                    == store.after_set(
                    args[1],
                    args[2],
                    Some(point_after(now, n * 1_000_000_000)),
                )
            } else if is_px(args[3]) {
                answer(store, args, now) == ValueModel::Simple("OK"@) && outcome(store, args, now)
                    == store.after_set(args[1], args[2], Some(point_after(now, n * 1_000_000)))
            } else {
                answer(store, args, now) == ValueModel::Error("ERR syntax error"@)
            },
        },
        answer(store, args, now) is Error ==> outcome(store, args, now) == store,
{
    lemma_request(args);
    law_names_of_commands(args[0]);
    lemma_one_command(args[0]);
    if args.len() == 5 {
        assert(args.skip(3)[0] == args[3] && args.skip(3)[1] == args[4]);
        law_names_of_commands(args[3]);
    }
}

/// The store after several removals is the store without these keys.
proof fn lemma_after_del_at_once(store: StoreModel, keys: Seq<Bytes>)
    ensures
        after_del(store, keys) == store.without_keys(keys.to_set()),
    decreases keys.len(),
{
    if keys.len() == 0 {
        assert(keys.to_set() =~= Set::<Bytes>::empty());
        lemma_without_none(store.order, keys.to_set());
        assert(store.entries.remove_keys(keys.to_set()) =~= store.entries);
    } else {
        let front = keys.drop_last();
        let last = keys.last();
        lemma_after_del_at_once(store, front);
        lemma_without_twice(store.order, front.to_set(), set![last]);
        assert forall|key: Bytes| keys.contains(key) <==> front.contains(key) || key == last by {
            if keys.contains(key) {
                let i = keys.index_of(key);
                if i < front.len() {
                    assert(front[i] == key);
                }
            }
            if front.contains(key) {
                assert(keys[front.index_of(key)] == key);
            }
            assert(keys[keys.len() - 1] == last);
        }
        assert(front.to_set().union(set![last]) =~= keys.to_set());
        assert(store.entries.remove_keys(front.to_set()).remove_keys(set![last])
            =~= store.entries.remove_keys(keys.to_set()));
    }
}

/// `DEL key ...` removes the named keys and no others, whether or not they have expired, and
/// answers how many different ones of them were stored.
pub proof fn law_del(store: StoreModel, args: Seq<Bytes>, now: Instant)
    requires
        args.len() > 0,
        is_del(args[0]),
    ensures
        args.len() < 2 ==> answer(store, args, now) == ValueModel::Error(
            "ERR wrong number of arguments for 'del' command"@,
        ) && outcome(store, args, now) == store,
        args.len() >= 2 ==> {
            let named = args.skip(1).to_set();
            let found = named.filter(|key: Bytes| store.entries.contains_key(key));
            let after = outcome(store, args, now);
            &&& found.finite()
            &&& found.len() <= 0x7fff_ffff_ffff_ffff ==> answer(store, args, now)
                == ValueModel::Integer(found.len() as int)
            &&& found.len() > 0x7fff_ffff_ffff_ffff ==> answer(store, args, now)
                == ValueModel::Integer(0x7fff_ffff_ffff_ffff)
            &&& after.entries == store.entries.remove_keys(named)
            &&& same_order_but(store.order, after.order, named)
            &&& after.capacity == store.capacity
            &&& after.clock == store.clock
        },
{
    lemma_request(args);
    law_names_of_commands(args[0]);
    lemma_one_command(args[0]);
    if args.len() >= 2 {
        let keys = args.skip(1);
        lemma_after_del_at_once(store, keys);
        law_del_counts_existing_keys(store, keys);
        lemma_order_without(store.order, keys.to_set());
        assert(keys.to_set().filter(|key: Bytes| store.has(key)) =~= keys.to_set().filter(
            |key: Bytes| store.entries.contains_key(key),
        ));
    }
}

/// `EXPIRE key n` lets a live key expire `n` times 1,000,000,000 nanoseconds from now, and
/// answers 1, or 0 where there is none. Where `n` is not positive it removes the key, and
/// answers whether it was stored.
pub proof fn law_expire(store: StoreModel, args: Seq<Bytes>, now: Instant)
    requires
        args.len() > 0,
        is_expire(args[0]),
    ensures
        args.len() != 3 ==> answer(store, args, now) == ValueModel::Error(
            "ERR wrong number of arguments for 'expire' command"@,
        ) && outcome(store, args, now) == store,
        args.len() == 3 ==> match integer_value(args[2]) {
            None => answer(store, args, now) == ValueModel::Error(
                "ERR value is not an integer or out of range"@,
            ) && outcome(store, args, now) == store,
            Some(n) => {
                let found = if n <= 0 {
                    store.entries.contains_key(args[1])
                } else {
                    alive(store, args[1], now)
                };
                &&& answer(store, args, now) == ValueModel::Integer(
                    if found {
                        1
                    } else {
                        0
                    },
                )
                &&& n <= 0 ==> outcome(store, args, now) == store.removed(args[1])
                &&& n > 0 ==> outcome(store, args, now) == store.after_expire(
                    args[1],
                    point_after(now, n * 1_000_000_000),
                    now,
                )
            },
        },
{
    lemma_request(args);
    law_names_of_commands(args[0]);
    lemma_one_command(args[0]);
}

/// `TTL key` answers the remaining seconds of the key. An expired key is removed, and
/// nothing else changes.
pub proof fn law_ttl(store: StoreModel, args: Seq<Bytes>, now: Instant)
    requires
        args.len() > 0,
        is_ttl(args[0]),
    ensures
        args.len() != 2 ==> answer(store, args, now) == ValueModel::Error(
            "ERR wrong number of arguments for 'ttl' command"@,
        ) && outcome(store, args, now) == store,
        args.len() == 2 ==> {
            &&& answer(store, args, now) == ValueModel::Integer(store.ttl(args[1], now))
            &&& outcome(store, args, now) == if store.entries.contains_key(args[1]) && !alive(
                store,
                args[1],
                now,
            ) {
                store.removed(args[1])
            } else {
                store
            }
        },
{
    lemma_request(args);
    law_names_of_commands(args[0]);
    lemma_one_command(args[0]);
}

/// Any other name is answered with an error that quotes it, its small ASCII letters turned
/// into capital ones. Nothing is stored or removed.
pub proof fn law_unknown_name(store: StoreModel, args: Seq<Bytes>, now: Instant)
    requires
        args.len() > 0,
        !is_ping(args[0]),
        !is_set(args[0]),
        !is_get(args[0]),
        !is_del(args[0]),
        !is_expire(args[0]),
        !is_ttl(args[0]),
    ensures
        outcome(store, args, now) == store,
        ({
            let name = if valid_utf8(args[0]) {
                decode_utf8(args[0])
            } else {
                utf8_lossy(args[0])
            };
            answer(store, args, now) == ValueModel::Error(
                "ERR unknown command '"@ + ascii_upper_text(name) + "'"@,
            )
        }),
{
    lemma_request(args);
    law_names_of_commands(args[0]);
}

/// Turning into capital letters keeps the length of a text, moves `a` to `z` by 32 places,
/// and leaves every other character alone.
pub proof fn law_capital_letters(text: Seq<char>)
    ensures
        ascii_upper_text(text).len() == text.len(),
        forall|i: int|
            0 <= i < text.len() ==> #[trigger] ascii_upper_text(text)[i] as u32 == (if 0x61
                <= text[i] as u32 <= 0x7a {
                text[i] as u32 - 32
            } else {
                text[i] as int
            }),
{
}

/// An empty array is refused.
pub proof fn law_empty_command(store: StoreModel, now: Instant)
    ensures
        answer(store, Seq::empty(), now) == ValueModel::Error("ERR empty command"@),
        outcome(store, Seq::empty(), now) == store,
{
    lemma_request(Seq::empty());
}

/// A frame that is no array, or one with an element that is no bulk string, is refused.
pub proof fn law_frame_that_is_no_command(
    store: StoreModel,
    frame: ValueModel,
    i: int,
    now: Instant,
)
    requires
        frame matches ValueModel::Array(items) ==> 0 <= i < items.len() && !(items[i] is Bulk),
    ensures
        reply_to(store, request_of(frame), now) == ValueModel::Error(
            "ERR protocol error: expected array of bulk strings"@,
        ),
        after_request(store, request_of(frame), now) == store,
{
}

/// A value that was set with `PX n` can be read for `n` milliseconds and not after: a `GET`
/// at any later point is answered with it just if fewer than `n` times 1,000,000 nanoseconds
/// have passed.
pub proof fn law_px_counts_milliseconds(
    store: StoreModel,
    set: Seq<Bytes>,
    get: Seq<Bytes>,
    n: int,
    now: Instant,
    later: Instant,
)
    requires
        set.len() == 5,
        is_set(set[0]),
        is_px(set[3]),
        integer_value(set[4]) == Some(n),
        n > 0,
        get.len() == 2,
        is_get(get[0]),
        get[1] == set[1],
        now.nanos + n * 1_000_000 <= 0xffff_ffff_ffff_ffff_ffff_ffff_ffff_ffff,
    ensures
        answer(store, set, now) == ValueModel::Simple("OK"@),
        answer(outcome(store, set, now), get, later) == if later.nanos - now.nanos < n * 1_000_000 {
            ValueModel::Bulk(set[2])
        } else {
            ValueModel::Null
        },
{
    lemma_one_command(set[3]);
    law_set(store, set, now);
    law_get(outcome(store, set, now), get, later);
}

/// A value that was set with `EX n` can be read for `n` seconds and not after.
pub proof fn law_ex_counts_seconds(
    store: StoreModel,
    set: Seq<Bytes>,
    get: Seq<Bytes>,
    n: int,
    now: Instant,
    later: Instant,
)
    requires
        set.len() == 5,
        is_set(set[0]),
        is_ex(set[3]),
        integer_value(set[4]) == Some(n),
        n > 0,
        get.len() == 2,
        is_get(get[0]),
        get[1] == set[1],
        now.nanos + n * 1_000_000_000 <= 0xffff_ffff_ffff_ffff_ffff_ffff_ffff_ffff,
    ensures
        answer(store, set, now) == ValueModel::Simple("OK"@),
        answer(outcome(store, set, now), get, later) == if later.nanos - now.nanos < n
            * 1_000_000_000 {
            ValueModel::Bulk(set[2])
        } else {
            ValueModel::Null
        },
{
    law_set(store, set, now);
    law_get(outcome(store, set, now), get, later);
}

/// A value that was set without an option can be read at any time, and has no remaining
/// time, whatever expiry the key had before.
pub proof fn law_plain_set_never_expires(
    store: StoreModel,
    set: Seq<Bytes>,
    get: Seq<Bytes>,
    ttl: Seq<Bytes>,
    now: Instant,
    later: Instant,
)
    requires
        set.len() == 3,
        is_set(set[0]),
        get.len() == 2,
        is_get(get[0]),
        get[1] == set[1],
        ttl.len() == 2,
        is_ttl(ttl[0]),
        ttl[1] == set[1],
    ensures
        answer(outcome(store, set, now), get, later) == ValueModel::Bulk(set[2]),
        answer(outcome(store, set, now), ttl, later) == ValueModel::Integer(-1),
{
    law_set(store, set, now);
    law_get(outcome(store, set, now), get, later);
    law_ttl(outcome(store, set, now), ttl, later);
}

/// A positive `EXPIRE` of a live key takes effect whatever expiry the key had: a `TTL` at the
/// same moment answers the number, and a `GET` finds the value until that many seconds have
/// passed and not after.
pub proof fn law_expire_replaces_the_lifetime(
    store: StoreModel,
    expire: Seq<Bytes>,
    get: Seq<Bytes>,
    ttl: Seq<Bytes>,
    n: int,
    now: Instant,
    later: Instant,
)
    requires
        expire.len() == 3,
        is_expire(expire[0]),
        integer_value(expire[2]) == Some(n),
        n > 0,
        alive(store, expire[1], now),
        get.len() == 2,
        is_get(get[0]),
        get[1] == expire[1],
        ttl.len() == 2,
        is_ttl(ttl[0]),
        ttl[1] == expire[1],
        now.nanos + n * 1_000_000_000 <= 0xffff_ffff_ffff_ffff_ffff_ffff_ffff_ffff,
    ensures
        answer(store, expire, now) == ValueModel::Integer(1),
        outcome(store, expire, now).entries[expire[1]].expires_at == Some(
            Instant { nanos: (now.nanos + n * 1_000_000_000) as u128 },
        ),
        answer(outcome(store, expire, now), ttl, now) == ValueModel::Integer(n),
        answer(outcome(store, expire, now), get, later) == if later.nanos - now.nanos < n
            * 1_000_000_000 {
            ValueModel::Bulk(store.entries[expire[1]].value)
        } else {
            ValueModel::Null
        },
{
    law_expire(store, expire, now);
    law_get(outcome(store, expire, now), get, later);
    law_ttl(outcome(store, expire, now), ttl, now);
}

/// What every request does and is answered, whether or not a frame can ask for it.
pub proof fn law_request_effect(store: StoreModel, request: RequestModel, now: Instant)
    ensures
        ({
            let reply = reply_to(store, request, now);
            let after = after_request(store, request, now);
            match request {
                RequestModel::Reply(known) => reply == known && after == store,
                RequestModel::Put { key, value, lifetime } => {
                    &&& reply == ValueModel::Simple("OK"@)
                    &&& after == store.after_set(
                        key,
                        value,
                        match lifetime {
                            Some(nanos) => Some(point_after(now, nanos)),
                            None => None,
                        },
                    )
                },
                RequestModel::Get { key } => {
                    &&& alive(store, key, now) ==> reply == ValueModel::Bulk(
                        store.entries[key].value,
                    )
                    &&& !alive(store, key, now) ==> reply == ValueModel::Null
                    &&& after == store.after_get(key, now)
                },
                RequestModel::Del { keys } => {
                    let found = keys.to_set().filter(
                        |key: Bytes| store.entries.contains_key(key),
                    ).len() as int;
                    &&& reply == ValueModel::Integer(
                        if found <= 0x7fff_ffff_ffff_ffff {
                            found
                        } else {
                            0x7fff_ffff_ffff_ffff
                        },
                    )
                    &&& after == store.without_keys(keys.to_set())
                },
                RequestModel::Expire { key, secs } => if secs <= 0 {
                    &&& reply == ValueModel::Integer(
                        if store.entries.contains_key(key) {
                            1
                        } else {
                            0
                        },
                    )
                    &&& after == store.removed(key)
                } else {
                    &&& reply == ValueModel::Integer(
                        if alive(store, key, now) {
                            1
                        } else {
                            0
                        },
                    )
                    &&& after == store.after_expire(
                        key,
                        point_after(now, secs * 1_000_000_000),
                        now,
                    )
                },
                RequestModel::Ttl { key } => {
                    &&& reply == ValueModel::Integer(store.ttl(key, now))
                    &&& after == if store.entries.contains_key(key) && !alive(store, key, now) {
                        store.removed(key)
                    } else {
                        store
                    }
                },
            }
        }),
{
    if let RequestModel::Del { keys } = request {
        lemma_after_del_at_once(store, keys);
        law_del_counts_existing_keys(store, keys);
        assert(keys.to_set().filter(|key: Bytes| store.has(key)) =~= keys.to_set().filter(
            |key: Bytes| store.entries.contains_key(key),
        ));
    }
}

/// What a request stands for: its keys and values byte by byte, and its lifetime in
/// nanoseconds.
pub proof fn law_request_contents(request: Request)
    ensures
        match request {
            Request::Reply(reply) => request@ == RequestModel::Reply(reply@),
            Request::Put { key, value, lifetime } => {
                &&& request@ matches RequestModel::Put { key: k, value: v, lifetime: l }
                &&& k == key@
                &&& v == value@
                &&& match lifetime {
                    None => l is None,
                    Some(Lifetime::Seconds(n)) => l == Some(n * 1_000_000_000),
                    Some(Lifetime::Millis(n)) => l == Some(n * 1_000_000),
                }
            },
            Request::Get { key } => request@ == (RequestModel::Get { key: key@ }),
            Request::Del { keys } => {
                &&& request@ is Del
                &&& request@->keys.len() == keys@.len()
                &&& forall|i: int| 0 <= i < keys@.len() ==> #[trigger] request@->keys[i] == keys@[i]@
            },
            Request::Expire { key, secs } => request@ == (RequestModel::Expire {
                key: key@,
                secs: secs as int,
            }),
            Request::Ttl { key } => request@ == (RequestModel::Ttl { key: key@ }),
        },
{
}

} // verus!
