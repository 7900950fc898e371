//! What calls of the library's functions give, and how calls that follow each other relate.
//!
//! A law speaks of calls by their arguments and results. Of a store or a connection that a
//! call changes, `old` is what it was before and `final` what it is afterwards.

use crate::clock::{Clock, Instant};
use crate::codec_laws::{encodable, law_decode_undoes_encode};
use crate::command::{
    after_request, ascii_upper_text, discarded, dispatch, execute, execute_locked, given_back,
    handed_out, interpret, lock_store, release, reply_to, request_of, served, unknown_command,
    Lifetime, Request,
};
use crate::command_laws::frame_of;
use crate::connection::{
    law_decision, law_event_effect, Action, Connection, Decision, DecisionModel, Event,
};
use crate::decimal::{
    decimal, integer_value, parse_integer, push_decimal, push_signed_decimal, signed_decimal,
};
use crate::model::{Bytes, StoreModel};
use crate::reply_laws::{answer, is_get, law_get, lemma_get_request, outcome, point_after};
use crate::resp::{encode, encoding, parse, Outcome, ParseError, Parser, Value, ValueModel};
use crate::shared::guarded;
use crate::store::{Entry, Store};
use crate::store_laws::{
    alive, law_expire_effect, law_order_counts_the_keys, law_read_effect,
    law_read_finds_live_keys, law_removal_effect, law_sweep_effect, law_ttl_counts_seconds,
    law_write_effect, same_order_but,
};
use std::sync::{Arc, LockResult, Mutex, MutexGuard, PoisonError};
use vstd::prelude::*;

verus! {

/// `Store::new` and `Store::default` give a store without keys and without a limit.
pub proof fn law_call_new(store: Store, key: Bytes)
    requires
        call_ensures(Store::new, (), store) || call_ensures(Store::default, (), store),
    ensures
        !store@.entries.contains_key(key),
        store@.order.len() == 0,
        store@.capacity is None,
{
}

/// `Store::with_capacity` gives a store without keys and with that limit.
pub proof fn law_call_with_capacity(capacity: usize, store: Store, key: Bytes)
    requires
        call_ensures(Store::with_capacity, (capacity,), store),
    ensures
        !store@.entries.contains_key(key),
        store@.order.len() == 0,
        store@.capacity == Some(capacity as nat),
{
}

/// `Store::len` counts the keys.
pub proof fn law_call_len(store: &Store, len: usize)
    requires
        call_ensures(Store::len, (store,), len),
        store@.well_formed(),
    ensures
        len == store@.entries.dom().len(),
        len == store@.order.len(),
{
    law_order_counts_the_keys(store@);
}

/// `Store::get_at` gives the value of a key just if it is stored and its expiry lies ahead.
/// It changes no value and no expiry.
pub proof fn law_call_get_at(store: &mut Store, key: &[u8], now: Instant, result: Option<Vec<u8>>)
    requires
        call_ensures(Store::get_at, (store, key, now), result),
        old(store)@.well_formed(),
    ensures
        result is Some <==> alive(old(store)@, key@, now),
        result matches Some(value) ==> value@ == old(store)@.entries[key@].value,
        result is Some ==> final(store)@.entries == old(store)@.entries && final(store)@.order[0]
            == key@,
        result is None ==> final(store)@.entries == old(store)@.entries.remove(key@),
        same_order_but(old(store)@.order, final(store)@.order, set![key@]),
        final(store)@.capacity == old(store)@.capacity,
        final(store)@.clock == old(store)@.clock,
{
    law_read_effect(old(store)@, key@, now);
    law_read_finds_live_keys(old(store)@, key@, now, Seq::empty());
    if !old(store)@.entries.contains_key(key@) {
        assert(old(store)@.entries.remove(key@) =~= old(store)@.entries);
    }
}

/// `Store::set` stores the key with this value and this expiry, and makes it the most
/// recently used one. No other key changes, and none leaves while there are fewer keys than
/// the limit.
pub proof fn law_call_set(
    store: &mut Store,
    key: Vec<u8>,
    value: Vec<u8>,
    expires_at: Option<Instant>,
    other: Bytes,
)
    requires
        call_ensures(Store::set, (store, key, value, expires_at), ()),
        old(store)@.well_formed(),
        other != key@,
    ensures
        final(store)@.entries.contains_key(key@),
        final(store)@.entries[key@].value == value@,
        final(store)@.entries[key@].expires_at == expires_at,
        final(store)@.order[0] == key@,
        final(store)@.entries.contains_key(other) ==> old(store)@.entries.contains_key(other)
            && final(store)@.entries[other] == old(store)@.entries[other],
        old(store)@.entries.contains_key(other) && (old(store)@.entries.contains_key(key@)
            || match old(store)@.capacity {
            Some(capacity) => old(store)@.order.len() < capacity,
            None => true,
        }) ==> final(store)@.entries.contains_key(other),
        final(store)@.capacity == old(store)@.capacity,
        final(store)@.clock == old(store)@.clock,
{
    law_write_effect(old(store)@, key@, value@, expires_at);
}

/// What `Store::set` stored, `Store::get_at` gives back until the expiry, and not after.
pub proof fn law_call_get_after_set(
    first: &mut Store,
    key: Vec<u8>,
    value: Vec<u8>,
    expires_at: Option<Instant>,
    second: &mut Store,
    asked: &[u8],
    now: Instant,
    result: Option<Vec<u8>>,
)
    requires
        call_ensures(Store::set, (first, key, value, expires_at), ()),
        call_ensures(Store::get_at, (second, asked, now), result),
        *old(second) == *final(first),
        asked@ == key@,
    ensures
        (expires_at matches Some(at) ==> now.nanos < at.nanos) ==> result is Some
            && result->Some_0@ == value@,
        (expires_at matches Some(at) && at.nanos <= now.nanos) ==> result is None,
{
}

/// `Store::del` removes the key, says whether it was stored, and leaves all others.
pub proof fn law_call_del(store: &mut Store, key: &[u8], existed: bool)
    requires
        call_ensures(Store::del, (store, key), existed),
        old(store)@.well_formed(),
    ensures
        existed <==> old(store)@.entries.contains_key(key@),
        final(store)@.entries == old(store)@.entries.remove(key@),
        same_order_but(old(store)@.order, final(store)@.order, set![key@]),
        final(store)@.capacity == old(store)@.capacity,
        final(store)@.clock == old(store)@.clock,
{
    law_removal_effect(old(store)@, key@);
}

/// `Store::expire_at` gives a live key this expiry in place of any that it had, and says
/// whether there was one. No value changes, and no other key.
pub proof fn law_call_expire_at(
    store: &mut Store,
    key: &[u8],
    expires_at: Instant,
    now: Instant,
    found: bool,
    other: Bytes,
)
    requires
        call_ensures(Store::expire_at, (store, key, expires_at, now), found),
        old(store)@.well_formed(),
        other != key@,
    ensures
        found <==> alive(old(store)@, key@, now),
        found ==> final(store)@.entries.contains_key(key@)
            && final(store)@.entries[key@].expires_at == Some(expires_at)
            && final(store)@.entries[key@].value == old(store)@.entries[key@].value
            && final(store)@.order == old(store)@.order,
        !found ==> !final(store)@.entries.contains_key(key@),
        final(store)@.entries.contains_key(other) <==> old(store)@.entries.contains_key(other),
        old(store)@.entries.contains_key(other) ==> final(store)@.entries[other]
            == old(store)@.entries[other],
        final(store)@.capacity == old(store)@.capacity,
        final(store)@.clock == old(store)@.clock,
{
    law_expire_effect(old(store)@, key@, expires_at, now);
}

/// `Store::ttl_secs_at` gives -2 where no live key is stored, -1 where the key never expires,
/// and otherwise the seconds left, a begun one counted as whole. It removes the key if that
/// has expired, and changes nothing else.
pub proof fn law_call_ttl_secs_at(store: &mut Store, key: &[u8], now: Instant, secs: i64)
    requires
        call_ensures(Store::ttl_secs_at, (store, key, now), secs),
        old(store)@.well_formed(),
    ensures
        secs == -2 <==> !alive(old(store)@, key@, now),
        secs == -1 <==> alive(old(store)@, key@, now)
            && old(store)@.entries[key@].expires_at is None,
        secs >= 0 ==> {
            let left = old(store)@.entries[key@].expires_at->Some_0.nanos - now.nanos;
            &&& (secs - 1) * 1_000_000_000 < left
            &&& left <= secs * 1_000_000_000 || secs == 0x7fff_ffff_ffff_ffff
        },
        secs != -2 ==> final(store)@ == old(store)@,
        secs == -2 ==> final(store)@.entries == old(store)@.entries.remove(key@),
        same_order_but(old(store)@.order, final(store)@.order, set![key@]),
        final(store)@.capacity == old(store)@.capacity,
        final(store)@.clock == old(store)@.clock,
{
    law_ttl_counts_seconds(old(store)@, key@, now);
    law_removal_effect(old(store)@, key@);
    if !old(store)@.entries.contains_key(key@) {
        assert(old(store)@.entries.remove(key@) =~= old(store)@.entries);
    }
}

/// `Store::sweep_expired_at` removes the keys whose expiry has come, and no others.
pub proof fn law_call_sweep_expired_at(store: &mut Store, now: Instant, key: Bytes)
    requires
        call_ensures(Store::sweep_expired_at, (store, now), ()),
        old(store)@.well_formed(),
    ensures
        final(store)@.entries.contains_key(key) <==> alive(old(store)@, key, now),
        alive(old(store)@, key, now) ==> final(store)@.entries[key] == old(store)@.entries[key],
        final(store)@.capacity == old(store)@.capacity,
        final(store)@.clock == old(store)@.clock,
{
    law_sweep_effect(old(store)@, now);
}

/// `Store::get` reads the key at a time that the clock of the store shows.
pub proof fn law_call_get(store: &mut Store, key: &[u8], result: Option<Vec<u8>>)
    requires
        call_ensures(Store::get, (store, key), result),
    ensures
        exists|now: Instant|
            {
                &&& old(store)@.clock.shows(now)
                &&& result is Some <==> #[trigger] alive(old(store)@, key@, now)
                &&& result matches Some(value) ==> value@ == old(store)@.entries[key@].value
                &&& final(store)@ == old(store)@.after_get(key@, now)
            },
{
    let now = choose|now: Instant|
        {
            &&& old(store)@.clock.shows(now)
            &&& final(store)@ == #[trigger] old(store)@.after_get(key@, now)
            &&& match result {
                Some(value) => old(store)@.lookup(key@, now) == Some(value@),
                None => old(store)@.lookup(key@, now) is None,
            }
        };
    law_read_finds_live_keys(old(store)@, key@, now, Seq::empty());
    assert(result is Some <==> alive(old(store)@, key@, now));
}

/// `Store::sweep_expired` removes the keys whose expiry has come at a time that the clock of
/// the store shows.
pub proof fn law_call_sweep_expired(store: &mut Store)
    requires
        call_ensures(Store::sweep_expired, (store,), ()),
    ensures
        exists|now: Instant|
            {
                &&& #[trigger] old(store)@.clock.shows(now)
                &&& forall|key: Bytes| #[trigger]
                    final(store)@.entries.contains_key(key) <==> alive(old(store)@, key, now)
                &&& final(store)@ == old(store)@.after_sweep(now)
            },
{
    let now = choose|now: Instant|
        {
            &&& old(store)@.clock.shows(now)
            &&& final(store)@ == #[trigger] old(store)@.after_sweep(now)
        };
    assert(old(store)@.clock.shows(now));
}

/// `Store::ttl_secs` gives the remaining time of a key at a time that the clock of the store
/// shows.
pub proof fn law_call_ttl_secs(store: &mut Store, key: &[u8], secs: i64)
    requires
        call_ensures(Store::ttl_secs, (store, key), secs),
    ensures
        exists|now: Instant|
            {
                &&& #[trigger] old(store)@.clock.shows(now)
                &&& secs == old(store)@.ttl(key@, now)
                &&& secs != -2 ==> final(store)@ == old(store)@
                &&& secs == -2 ==> final(store)@.entries == old(store)@.entries.remove(key@)
            },
{
    let now = choose|now: Instant|
        {
            &&& old(store)@.clock.shows(now)
            &&& final(store)@ == #[trigger] old(store)@.purged(key@, now)
            &&& secs == old(store)@.ttl(key@, now)
        };
    let entries = old(store)@.entries;
    assert(entries.remove_keys(set![key@]) =~= entries.remove(key@));
    if !entries.contains_key(key@) {
        assert(entries.remove(key@) =~= entries);
    }
    assert(old(store)@.clock.shows(now));
}

/// `Store::expire` gives a key that is live at a time that the clock shows this expiry.
pub proof fn law_call_expire(store: &mut Store, key: &[u8], expires_at: Instant, found: bool)
    requires
        call_ensures(Store::expire, (store, key, expires_at), found),
    ensures
        exists|now: Instant|
            {
                &&& old(store)@.clock.shows(now)
                &&& found <==> #[trigger] alive(old(store)@, key@, now)
                &&& final(store)@ == old(store)@.after_expire(key@, expires_at, now)
            },
        found ==> final(store)@.entries[key@].expires_at == Some(expires_at),
        found ==> final(store)@.entries[key@].value == old(store)@.entries[key@].value,
{
    let now = choose|now: Instant|
        {
            &&& old(store)@.clock.shows(now)
            &&& final(store)@ == #[trigger] old(store)@.after_expire(key@, expires_at, now)
            &&& found == old(store)@.is_live(key@, now)
        };
    assert(found <==> alive(old(store)@, key@, now));
}

/// `Clock::now` and `Store::now` give what the clock shows.
pub proof fn law_call_now(clock: &Clock, store: &Store, now: Instant)
    ensures
        call_ensures(Clock::now, (clock,), now) ==> clock.shows(now),
        call_ensures(Store::now, (store,), now) ==> store@.clock.shows(now),
{
}

/// `Instant::after_secs`, `Instant::after_millis` and `Lifetime::end` give the point that is as
/// many times 1,000,000,000 or 1,000,000 nanoseconds away as was asked for, or the last one
/// there is.
pub proof fn law_call_later_points(now: Instant, amount: u64, lifetime: &Lifetime, at: Instant)
    ensures
        call_ensures(Instant::after_secs, (now, amount), at) ==> at == point_after(
            now,
            amount * 1_000_000_000,
        ),
        call_ensures(Instant::after_millis, (now, amount), at) ==> at == point_after(
            now,
            amount * 1_000_000,
        ),
        call_ensures(Lifetime::end, (lifetime, now), at) ==> at == point_after(
            now,
            match *lifetime {
                Lifetime::Seconds(n) => n * 1_000_000_000,
                Lifetime::Millis(n) => n * 1_000_000,
            },
        ),
{
}

/// `Parser::feed` keeps every byte, behind those that it had, and a new parser has none.
pub proof fn law_call_feed(fresh: Parser, parser: &mut Parser, bytes: &[u8])
    requires
        call_ensures(Parser::new, (), fresh) || call_ensures(Parser::default, (), fresh),
        call_ensures(Parser::feed, (parser, bytes), ()),
    ensures
        fresh@.len() == 0,
        final(parser)@ == old(parser)@ + bytes@,
{
}

/// `Parser::try_parse` gives the value of the frame at the front and takes off its bytes, no
/// more and no less. Without a whole frame, and over a fault, it says which and takes
/// nothing.
pub proof fn law_call_try_parse(parser: &mut Parser, result: Result<Value, ParseError>)
    requires
        call_ensures(Parser::try_parse, (parser,), result),
    ensures
        result matches Ok(value) ==> parse(old(parser)@) is Frame && value@ == parse(
            old(parser)@,
        )->Frame_0 && final(parser)@ == old(parser)@.skip(parse(old(parser)@)->Frame_1 as int),
        result is Ok <==> parse(old(parser)@) is Frame,
        result matches Err(ParseError::Incomplete) <==> parse(old(parser)@) is Incomplete,
        result matches Err(ParseError::Protocol(text)) ==> parse(old(parser)@)
            == Outcome::Protocol(text@),
        result is Err ==> final(parser)@ == old(parser)@,
{
}

/// What `encode` wrote, a parser that is fed with it reads back: the same value, with the
/// bytes that follow left over.
pub proof fn law_call_parse_after_encode(
    value: &Value,
    bytes: Vec<u8>,
    rest: Seq<u8>,
    parser: &mut Parser,
    result: Result<Value, ParseError>,
)
    requires
        encodable(value@),
        call_ensures(encode, (value,), bytes),
        call_ensures(Parser::try_parse, (parser,), result),
        old(parser)@ == bytes@ + rest,
    ensures
        result is Ok,
        result->Ok_0@ == value@,
        final(parser)@ == rest,
{
    law_decode_undoes_encode(value@, rest);
    assert((bytes@ + rest).skip(bytes@.len() as int) =~= rest);
}

/// A clone of a value stands for the same, and a clone of an entry holds the same.
pub proof fn law_call_clone(value: &Value, copy: Value, entry: &Entry, twin: Entry)
    ensures
        call_ensures(Value::clone, (value,), copy) ==> copy@ == value@,
        call_ensures(Entry::clone, (entry,), twin) ==> twin.value@ == entry.value@
            && twin.expires_at == entry.expires_at,
{
}

/// `encode` gives the wire form of a value.
pub proof fn law_call_encode(value: &Value, bytes: Vec<u8>)
    requires
        call_ensures(encode, (value,), bytes),
    ensures
        bytes@ == encoding(value@),
{
}

/// `parse_integer` gives the integer that a text stands for, and the functions that write one
/// append it and nothing else.
pub proof fn law_call_integers(
    text: &[u8],
    read: Option<i64>,
    out: &mut Vec<u8>,
    n: i64,
    wide: &mut Vec<u8>,
    m: u64,
)
    requires
        call_ensures(parse_integer, (text,), read),
        call_ensures(push_signed_decimal, (out, n), ()),
        call_ensures(push_decimal, (wide, m), ()),
    ensures
        read matches Some(value) ==> integer_value(text@) == Some(value as int),
        read is None ==> integer_value(text@) is None,
        final(out)@ == old(out)@ + signed_decimal(n as int),
        final(wide)@ == old(wide)@ + decimal(m as nat),
{
}

/// Interpreting a frame of bulk strings and executing the request answers the command and
/// leaves the store as the command should.
pub proof fn law_call_execute(
    args: Seq<Bytes>,
    frame: Value,
    request: Request,
    store: &mut Store,
    now: Instant,
    reply: Value,
)
    requires
        frame@ == frame_of(args),
        call_ensures(interpret, (frame,), request),
        call_ensures(execute, (store, request, now), reply),
    ensures
        reply@ == answer(old(store)@, args, now),
        final(store)@ == outcome(old(store)@, args, now),
{
}

/// `unknown_command` quotes the name in capital letters.
pub proof fn law_call_unknown_command(name: &str, reply: Value)
    requires
        call_ensures(unknown_command, (name,), reply),
    ensures
        reply@ == ValueModel::Error(
            "ERR unknown command '"@ + ascii_upper_text(name@) + "'"@,
        ),
{
}

/// `lock_store` gives access to the store as `Mutex::lock` hands it over, or, where the lock
/// is poisoned, as `PoisonError::into_inner` does. It changes nothing in it.
pub proof fn law_call_lock_store(store: &Arc<Mutex<Store>>, guard: MutexGuard<'_, Store>)
    requires
        call_ensures(lock_store, (store,), guard),
    ensures
        exists|locked: LockResult<MutexGuard<'_, Store>>|
            {
                &&& #[trigger] call_ensures(Mutex::<Store>::lock, (&**store,), locked)
                &&& locked matches Ok(free) ==> guarded(guard) == guarded(free)
                &&& locked matches Err(poisoned) ==> exists|inner: MutexGuard<'_, Store>|
                    {
                        &&& #[trigger] call_ensures(
                            PoisonError::<MutexGuard<'_, Store>>::into_inner,
                            (poisoned,),
                            inner,
                        )
                        &&& guarded(guard) == guarded(inner)
                    }
            },
{
}

/// `release` drops the guard as it is given: `Result::ok` discards the error that it is
/// handed, and nothing is done with the guard before.
pub proof fn law_call_release(guard: MutexGuard<'_, Store>)
    requires
        call_ensures(release, (guard,), ()),
    ensures
        exists|nothing: Option<()>| #[trigger]
            call_ensures(
                Result::<(), MutexGuard<'_, Store>>::ok,
                (Err::<(), MutexGuard<'_, Store>>(guard),),
                nothing,
            ),
{
    assert(discarded(guard));
}

/// Only a guard that `lock_store` returned counts as handed out, and only one that `release`
/// took as given back.
pub proof fn law_guards(store: &Arc<Mutex<Store>>, guard: MutexGuard<'_, Store>)
    ensures
        handed_out(store, guard) <==> call_ensures(lock_store, (store,), guard),
        given_back(guard) <==> call_ensures(release, (guard,), ()),
{
}

/// `execute_locked` executes the request on the guarded store, at a time that the clock of
/// the store shows.
pub proof fn law_call_execute_locked(
    guard: &mut MutexGuard<'_, Store>,
    request: Request,
    reply: Value,
)
    requires
        call_ensures(execute_locked, (guard, request), reply),
    ensures
        exists|now: Instant|
            {
                &&& #[trigger] guarded(*old(guard)).clock.shows(now)
                &&& reply@ == reply_to(guarded(*old(guard)), request@, now)
                &&& guarded(*final(guard)) == after_request(
                    guarded(*old(guard)),
                    request@,
                    now,
                )
            },
{
    let now = choose|now: Instant|
        {
            &&& guarded(*old(guard)).clock.shows(now)
            &&& guarded(*final(guard)) == after_request(
                guarded(*old(guard)),
                request@,
                now,
            )
            &&& reply@ == #[trigger] reply_to(
                guarded(*old(guard)),
                request@,
                now,
            )
        };
    assert(guarded(*old(guard)).clock.shows(now));
}

/// `dispatch` answers a `GET` with the value that the key has in the store as the lock hands
/// it out, and gives the lock back with every value and expiry as it was, but for that key if
/// it had expired.
pub proof fn law_call_dispatch_get(
    store: &Arc<Mutex<Store>>,
    args: Seq<Bytes>,
    frame: Value,
    reply: Value,
)
    requires
        call_ensures(dispatch, (store, frame), reply),
        frame@ == frame_of(args),
        args.len() == 2,
        is_get(args[0]),
    ensures
        exists|before: MutexGuard<'_, Store>, after: MutexGuard<'_, Store>, now: Instant|
            {
                &&& call_ensures(lock_store, (store,), before)
                &&& #[trigger] call_ensures(release, (after,), ())
                &&& guarded(before).clock.shows(now)
                &&& reply@ == if #[trigger] alive(guarded(before), args[1], now) {
                    ValueModel::Bulk(guarded(before).entries[args[1]].value)
                } else {
                    ValueModel::Null
                }
                &&& guarded(after).entries == if alive(guarded(before), args[1], now) {
                    guarded(before).entries
                } else {
                    guarded(before).entries.remove(args[1])
                }
            },
{
    lemma_get_request(args);
    let request = request_of(frame@);
    let (before, after, now) = choose|
        before: MutexGuard<'_, Store>,
        after: MutexGuard<'_, Store>,
        now: Instant,
    |
        {
            &&& handed_out(store, before)
            &&& guarded(before).well_formed()
            &&& guarded(before).clock.shows(now)
            &&& now.is_reading()
            &&& reply@ == #[trigger] reply_to(guarded(before), request, now)
            &&& guarded(after) == after_request(guarded(before), request, now)
            &&& #[trigger] given_back(after)
        };
    law_get(guarded(before), args, now);
    law_read_effect(guarded(before), args[1], now);
    if !guarded(before).entries.contains_key(args[1]) {
        assert(guarded(before).entries.remove(args[1]) =~= guarded(before).entries);
    }
    assert(call_ensures(release, (after,), ()));
    assert(alive(guarded(before), args[1], now) || !alive(guarded(before), args[1], now));
}

/// `dispatch` answers a command as the store that the lock hands out should, and gives the
/// lock back with the store as the command should leave it.
pub proof fn law_call_dispatch(
    store: &Arc<Mutex<Store>>,
    args: Seq<Bytes>,
    frame: Value,
    reply: Value,
)
    requires
        call_ensures(dispatch, (store, frame), reply),
        frame@ == frame_of(args),
        !(request_of(frame@) is Reply),
    ensures
        exists|before: MutexGuard<'_, Store>, after: MutexGuard<'_, Store>, now: Instant|
            {
                &&& call_ensures(lock_store, (store,), before)
                &&& #[trigger] call_ensures(release, (after,), ())
                &&& guarded(before).clock.shows(now)
                &&& reply@ == #[trigger] answer(guarded(before), args, now)
                &&& guarded(after) == outcome(guarded(before), args, now)
            },
{
    let request = request_of(frame@);
    let (before, after, now) = choose|
        before: MutexGuard<'_, Store>,
        after: MutexGuard<'_, Store>,
        now: Instant,
    |
        {
            &&& handed_out(store, before)
            &&& guarded(before).well_formed()
            &&& guarded(before).clock.shows(now)
            &&& now.is_reading()
            &&& reply@ == #[trigger] reply_to(guarded(before), request, now)
            &&& guarded(after) == after_request(guarded(before), request, now)
            &&& #[trigger] given_back(after)
        };
    assert(call_ensures(release, (after,), ()));
    assert(reply@ == answer(guarded(before), args, now));
}

/// `dispatch` answers what needs no store with an answer that is the same on every store.
pub proof fn law_call_dispatch_without_store(
    store: &Arc<Mutex<Store>>,
    frame: Value,
    reply: Value,
    any: StoreModel,
    now: Instant,
)
    requires
        call_ensures(dispatch, (store, frame), reply),
        request_of(frame@) is Reply,
    ensures
        reply@ == reply_to(any, request_of(frame@), now),
{
}

/// `Connection::advance` puts all bytes that arrived behind those that wait, and decides by
/// the frame at the front.
pub proof fn law_call_advance(
    connection: &mut Connection,
    event: Event<'_>,
    bytes: &[u8],
    decision: Decision,
)
    requires
        call_ensures(Connection::advance, (connection, event), decision),
        event == Event::Received(bytes),
        bytes@.len() > 0,
        !old(connection)@.closed,
    ensures
        ({
            let waiting = old(connection)@.buffered + bytes@;
            match parse(waiting) {
                Outcome::Frame(frame, used) => {
                    &&& decision matches Decision::Answer(value)
                    &&& value@ == frame
                    &&& final(connection)@.buffered == waiting.skip(used as int)
                    &&& !final(connection)@.closed
                },
                Outcome::Incomplete => {
                    &&& decision is Receive
                    &&& final(connection)@.buffered == waiting
                    &&& !final(connection)@.closed
                },
                Outcome::Protocol(_) => decision is Refuse && final(connection)@.closed,
            }
        }),
{
    law_event_effect(old(connection)@, event);
    law_decision(old(connection)@.noted(event));
}

/// After the other events `Connection::advance` goes on with the bytes that wait, or closes.
pub proof fn law_call_advance_without_bytes(
    connection: &mut Connection,
    event: Event<'_>,
    decision: Decision,
)
    requires
        call_ensures(Connection::advance, (connection, event), decision),
    ensures
        event matches Event::Received(bytes) ==> bytes@.len() == 0 ==> decision is Close
            && final(connection)@.closed,
        event is SendFailed || event is ReceiveFailed ==> decision is Close
            && final(connection)@.closed,
        old(connection)@.closed ==> decision is Close && final(connection)@.closed,
        (event is Opened || event is Sent) && !old(connection)@.closed ==> match parse(
            old(connection)@.buffered,
        ) {
            Outcome::Frame(frame, used) => {
                &&& decision matches Decision::Answer(value)
                &&& value@ == frame
                &&& final(connection)@.buffered == old(connection)@.buffered.skip(used as int)
                &&& !final(connection)@.closed
            },
            Outcome::Incomplete => decision is Receive && final(connection)@ == old(connection)@,
            Outcome::Protocol(_) => decision is Refuse && final(connection)@.closed,
        },
{
    law_event_effect(old(connection)@, event);
    law_decision(old(connection)@.noted(event));
}

/// `Connection::new` gives an open connection on which no bytes wait.
pub proof fn law_call_new_connection(connection: Connection)
    requires
        call_ensures(Connection::new, (), connection),
    ensures
        connection@.buffered.len() == 0,
        !connection@.closed,
{
}

/// `Connection::step` does what `Connection::advance` decides: it sends the wire form of the
/// reply to a frame, receives, refuses or closes. The reply is the known one, or that of the
/// store as the lock hands it out, which is given back as the request leaves it.
pub proof fn law_call_step(
    connection: &mut Connection,
    event: Event<'_>,
    store: &Arc<Mutex<Store>>,
    action: Action,
    any: StoreModel,
    moment: Instant,
)
    requires
        call_ensures(Connection::step, (connection, event, store), action),
    ensures
        final(connection)@ == old(connection)@.noted(event).decided(),
        match old(connection)@.noted(event).decision() {
            DecisionModel::Answer(frame) => {
                &&& action matches Action::Send(bytes)
                &&& request_of(frame) is Reply ==> bytes@ == encoding(
                    reply_to(any, request_of(frame), moment),
                )
                &&& !(request_of(frame) is Reply) ==> exists|
                    before: MutexGuard<'_, Store>,
                    after: MutexGuard<'_, Store>,
                    now: Instant,
                |
                    {
                        &&& call_ensures(lock_store, (store,), before)
                        &&& #[trigger] call_ensures(release, (after,), ())
                        &&& guarded(before).clock.shows(now)
                        &&& bytes@ == encoding(
                            #[trigger] reply_to(guarded(before), request_of(frame), now),
                        )
                        &&& guarded(after) == after_request(
                            guarded(before),
                            request_of(frame),
                            now,
                        )
                    }
            },
            DecisionModel::Receive => action is Receive,
            DecisionModel::Refuse(bytes) => action matches Action::SendLast(last) && last@ == bytes,
            DecisionModel::Close => action is Close,
        },
{
    if let DecisionModel::Answer(frame) = old(connection)@.noted(event).decision() {
        if !(request_of(frame) is Reply) {
            let request = request_of(frame);
            let bytes = action->Send_0;
            let reply = choose|reply: ValueModel| #[trigger]
                served(store, request, reply) && bytes@ == encoding(reply);
            let (before, after, now) = choose|
                before: MutexGuard<'_, Store>,
                after: MutexGuard<'_, Store>,
                now: Instant,
            |
                {
                    &&& handed_out(store, before)
                    &&& guarded(before).well_formed()
                    &&& guarded(before).clock.shows(now)
                    &&& now.is_reading()
                    &&& reply == #[trigger] reply_to(guarded(before), request, now)
                    &&& guarded(after) == after_request(guarded(before), request, now)
                    &&& #[trigger] given_back(after)
                };
            assert(call_ensures(release, (after,), ()));
            assert(bytes@ == encoding(reply_to(guarded(before), request, now)));
        }
    }
}

} // verus!
