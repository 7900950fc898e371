//! The command layer: what a client frame asks for, and the reply to it.
//!
//! A frame is first read as a [`Request`], which needs no store; then the request is
//! executed on the store.

use crate::clock::{Instant, NANOS_PER_MILLI, NANOS_PER_SEC};
use crate::decimal::{integer_value, parse_integer};
use crate::model::{Bytes, StoreModel};
use crate::resp::{lemma_array_view, models, Value, ValueModel};
use crate::shared::{guarded, store_in};
use crate::store::Store;
use std::sync::{Arc, LockResult, Mutex, MutexGuard, PoisonError};
use vstd::prelude::*;
use vstd::string::*;
use vstd::utf8::{decode_utf8, valid_utf8};

verus! {

/// How long a key is to live.
pub enum Lifetime {
    Seconds(u64),
    Millis(u64),
}

impl Lifetime {
    /// The lifetime in nanoseconds.
    pub open spec fn nanos(self) -> int {
        match self {
            Lifetime::Seconds(n) => n * NANOS_PER_SEC,
            Lifetime::Millis(n) => n * NANOS_PER_MILLI,
        }
    }

    /// When a lifetime that begins now ends.
    pub fn end(&self, now: Instant) -> (at: Instant)
        ensures
            at == now.later(self.nanos()),
    {
        match self {
            Lifetime::Seconds(n) => now.after_secs(*n),
            Lifetime::Millis(n) => now.after_millis(*n),
        }
    }
}

/// What a client frame asks for.
pub enum Request {
    /// Nothing of the store: the reply is known.
    Reply(Value),
    Put { key: Vec<u8>, value: Vec<u8>, lifetime: Option<Lifetime> },
    Get { key: Vec<u8> },
    Del { keys: Vec<Vec<u8>> },
    Expire { key: Vec<u8>, secs: i64 },
    Ttl { key: Vec<u8> },
}

/// A request as a mathematical object.
#[verifier::ext_equal]
pub enum RequestModel {
    Reply(ValueModel),
    /// The lifetime, where there is one, is in nanoseconds.
    Put { key: Bytes, value: Bytes, lifetime: Option<int> },
    Get { key: Bytes },
    Del { keys: Seq<Bytes> },
    Expire { key: Bytes, secs: int },
    Ttl { key: Bytes },
}

/// Byte strings as mathematical ones.
pub open spec fn texts(args: Seq<Vec<u8>>) -> Seq<Bytes> {
    Seq::new(args.len(), |i: int| args[i]@)
}

impl View for Request {
    type V = RequestModel;

    open spec fn view(&self) -> RequestModel {
        match self {
            Request::Reply(reply) => RequestModel::Reply(reply@),
            Request::Put { key, value, lifetime } => RequestModel::Put {
                key: key@,
                value: value@,
                lifetime: match lifetime {
                    Some(lifetime) => Some(lifetime.nanos()),
                    None => None,
                },
            },
            Request::Get { key } => RequestModel::Get { key: key@ },
            Request::Del { keys } => RequestModel::Del { keys: texts(keys@) },
            Request::Expire { key, secs } => RequestModel::Expire { key: key@, secs: *secs as int },
            Request::Ttl { key } => RequestModel::Ttl { key: key@ },
        }
    }
}

/// The upper-case form of an ASCII letter; any other byte as it is.
pub open spec fn ascii_upper(byte: u8) -> u8 {
    if 0x61 <= byte <= 0x7a {
        (byte - 0x20) as u8
    } else {
        byte
    }
}

/// The upper-case form of an ASCII letter; any other character as it is.
pub open spec fn ascii_upper_char(c: char) -> char {
    if 'a' <= c <= 'z' {
        (c as u32 - 0x20) as char
    } else {
        c
    }
}

/// The text with its ASCII letters in upper case.
pub open spec fn ascii_upper_text(text: Seq<char>) -> Seq<char> {
    Seq::new(text.len(), |i: int| ascii_upper_char(text[i]))
}

/// The bytes spell the given word, in either case.
pub open spec fn spells(bytes: Bytes, word: Seq<char>) -> bool {
    &&& bytes.len() == word.len()
    &&& forall|i: int| 0 <= i < bytes.len() ==> ascii_upper(#[trigger] bytes[i]) == word[i] as u8
}

/// What `String::from_utf8_lossy` makes of bytes.
pub uninterp spec fn utf8_lossy(bytes: Seq<u8>) -> Seq<char>;

/// `String::from_utf8_lossy` depends on the bytes alone, and gives the text itself where
/// they are valid UTF-8. How many replacement characters stand for what is not valid is
/// left to the name.
#[verifier::external_body]
fn from_utf8_lossy(bytes: &[u8]) -> (text: String)
    ensures
        text@ == utf8_lossy(bytes@),
        valid_utf8(bytes@) ==> text@ == decode_utf8(bytes@),
{
    String::from_utf8_lossy(bytes).into_owned()
}

/// `str::to_ascii_uppercase` changes the ASCII letters `a` to `z` to `A` to `Z` and nothing
/// else.
pub assume_specification[ str::to_ascii_uppercase ](text: &str) -> (upper: String)
    ensures
        upper@ == ascii_upper_text(text@),
;

/// The text that is quoted for a command name: the name itself where it is valid UTF-8.
pub open spec fn name_text(name: Bytes) -> Seq<char> {
    if valid_utf8(name) {
        decode_utf8(name)
    } else {
        utf8_lossy(name)
    }
}

/// An error reply.
pub open spec fn error(text: Seq<char>) -> RequestModel {
    RequestModel::Reply(ValueModel::Error(text))
}

/// The reply to a command whose name is not known.
pub open spec fn unknown_command_reply(name: Seq<char>) -> ValueModel {
    ValueModel::Error("ERR unknown command '"@ + ascii_upper_text(name) + "'"@)
}

/// The frame is an array of bulk strings.
pub open spec fn is_command_frame(frame: ValueModel) -> bool {
    frame matches ValueModel::Array(items) && forall|i: int|
        0 <= i < items.len() ==> (#[trigger] items[i]) is Bulk
}

/// The arguments of a frame: an array of bulk strings, and nothing else, has any.
pub open spec fn arguments(frame: ValueModel) -> Result<Seq<Bytes>, Seq<char>> {
    if is_command_frame(frame) {
        let items = frame->Array_0;
        Ok(Seq::new(items.len(), |i: int| items[i]->Bulk_0))
    } else {
        Err("ERR protocol error: expected array of bulk strings"@)
    }
}

/// `PING` and `PING message`.
pub open spec fn ping_request(args: Seq<Bytes>) -> RequestModel {
    if args.len() == 1 {
        RequestModel::Reply(ValueModel::Simple("PONG"@))
    } else if args.len() == 2 {
        RequestModel::Reply(ValueModel::Bulk(args[1]))
    } else {
        error("ERR wrong number of arguments for 'ping' command"@)
    }
}

/// The options of `SET`: none, `EX seconds` or `PX milliseconds`.
pub open spec fn set_lifetime(options: Seq<Bytes>) -> Result<Option<int>, Seq<char>> {
    if options.len() == 0 {
        Ok(None)
    } else if options.len() != 2 {
        Err("ERR syntax error"@)
    } else {
        match integer_value(options[1]) {
            None => Err("ERR value is not an integer or out of range"@),
            Some(n) => if n <= 0 {
                Err("ERR invalid expire time in 'set' command"@)
            } else if spells(options[0], "EX"@) {
                Ok(Some(n * NANOS_PER_SEC))
            } else if spells(options[0], "PX"@) {
                Ok(Some(n * NANOS_PER_MILLI))
            } else {
                Err("ERR syntax error"@)
            },
        }
    }
}

/// `SET key value [EX seconds | PX milliseconds]`.
pub open spec fn set_request(args: Seq<Bytes>) -> RequestModel {
    if args.len() < 3 {
        error("ERR wrong number of arguments for 'set' command"@)
    } else {
        match set_lifetime(args.skip(3)) {
            Ok(lifetime) => RequestModel::Put { key: args[1], value: args[2], lifetime },
            Err(text) => error(text),
        }
    }
}

/// `GET key`.
pub open spec fn get_request(args: Seq<Bytes>) -> RequestModel {
    if args.len() != 2 {
        error("ERR wrong number of arguments for 'get' command"@)
    } else {
        RequestModel::Get { key: args[1] }
    }
}

/// `DEL key [key ...]`.
pub open spec fn del_request(args: Seq<Bytes>) -> RequestModel {
    if args.len() < 2 {
        error("ERR wrong number of arguments for 'del' command"@)
    } else {
        RequestModel::Del { keys: args.skip(1) }
    }
}

/// `EXPIRE key seconds`.
pub open spec fn expire_request(args: Seq<Bytes>) -> RequestModel {
    if args.len() != 3 {
        error("ERR wrong number of arguments for 'expire' command"@)
    } else {
        match integer_value(args[2]) {
            None => error("ERR value is not an integer or out of range"@),
            Some(secs) => RequestModel::Expire { key: args[1], secs },
        }
    }
}

/// `TTL key`.
pub open spec fn ttl_request(args: Seq<Bytes>) -> RequestModel {
    if args.len() != 2 {
        error("ERR wrong number of arguments for 'ttl' command"@)
    } else {
        RequestModel::Ttl { key: args[1] }
    }
}

/// What the arguments of a frame ask for. The first one names the command, in either case.
pub open spec fn request_of_arguments(args: Seq<Bytes>) -> RequestModel {
    if args.len() == 0 {
        error("ERR empty command"@)
    } else if spells(args[0], "PING"@) {
        ping_request(args)
    } else if spells(args[0], "SET"@) {
        set_request(args)
    } else if spells(args[0], "GET"@) {
        get_request(args)
    } else if spells(args[0], "DEL"@) {
        del_request(args)
    } else if spells(args[0], "EXPIRE"@) {
        expire_request(args)
    } else if spells(args[0], "TTL"@) {
        ttl_request(args)
    } else {
        RequestModel::Reply(unknown_command_reply(name_text(args[0])))
    }
}

/// What a frame asks for.
pub open spec fn request_of(frame: ValueModel) -> RequestModel {
    match arguments(frame) {
        Err(text) => error(text),
        Ok(args) => request_of_arguments(args),
    }
}

/// Whether the bytes spell the given word, in either case.
fn is_word(bytes: &[u8], word: &str) -> (result: bool)
    requires
        word.is_ascii(),
    ensures
        result == spells(bytes@, word@),
{
    let letters = word.as_bytes();
    proof {
        is_ascii_spec_bytes(word);
    }
    if bytes.len() != letters.len() {
        return false;
    }
    let mut i: usize = 0;
    while i < bytes.len()
        invariant
            bytes@.len() == letters@.len() == word@.len(),
            letters@ == Seq::new(word@.len(), |i: int| word@[i] as u8),
            i <= bytes@.len(),
            forall|j: int| 0 <= j < i ==> ascii_upper(#[trigger] bytes@[j]) == word@[j] as u8,
        decreases bytes.len() - i,
    {
        let byte = bytes[i];
        let upper: u8 = if 0x61 <= byte && byte <= 0x7a {
            byte - 0x20
        } else {
            byte
        };
        if upper != letters[i] {
            assert(ascii_upper(bytes@[i as int]) != word@[i as int] as u8);
            return false;
        }
        i += 1;
    }
    true
}

/// The reply to a command whose name is not known.
pub fn unknown_command(name: &str) -> (reply: Value)
    ensures
        reply@ == unknown_command_reply(name@),
{
    let upper = name.to_ascii_uppercase();
    Value::Error("ERR unknown command '".to_owned().concat(upper.as_str()).concat("'"))
}

/// The arguments of a frame.
fn extract_args(frame: Value) -> (result: Result<Vec<Vec<u8>>, String>)
    ensures
        match arguments(frame@) {
            Ok(args) => result matches Ok(found) && texts(found@) == args,
            Err(text) => result matches Err(found) && found@ == text,
        },
{
    match frame {
        Value::Array(items) => {
            let ghost all = models(items@);
            proof {
                lemma_array_view(frame);
            }
            let mut args: Vec<Vec<u8>> = Vec::with_capacity(items.len());
            for item in iter: items
                invariant
                    iter.seq() == items@,
                    all == models(items@),
                    frame@ == ValueModel::Array(all),
                    args@.len() == iter.index(),
                    forall|j: int|
                        0 <= j < iter.index() ==> all[j] == ValueModel::Bulk(#[trigger] args@[j]@),
            {
                assert(item@ == all[iter.index()]);
                match item {
                    Value::Bulk(bytes) => {
                        args.push(bytes);
                    },
                    _ => {
                        assert(!(all[iter.index()] is Bulk));
                        return Err(
                            "ERR protocol error: expected array of bulk strings".to_owned(),
                        );
                    },
                }
            }
            proof {
                assert forall|i: int| 0 <= i < all.len() implies (#[trigger] all[i]) is Bulk by {
                    assert(all[i] == ValueModel::Bulk(args@[i]@));
                }
                assert(texts(args@) =~= Seq::new(all.len(), |i: int| all[i]->Bulk_0));
            }
            Ok(args)
        },
        _ => Err("ERR protocol error: expected array of bulk strings".to_owned()),
    }
}

/// An error reply.
fn refuse(text: &str) -> (request: Request)
    ensures
        request@ == error(text@),
{
    Request::Reply(Value::Error(text.to_owned()))
}

fn copy_of(bytes: &Vec<u8>) -> (copy: Vec<u8>)
    ensures
        copy@ == bytes@,
{
    let copy = bytes.clone();
    assert(copy@ =~= bytes@);
    copy
}

fn cmd_ping(args: &Vec<Vec<u8>>) -> (request: Request)
    ensures
        request@ == ping_request(texts(args@)),
{
    if args.len() == 1 {
        Request::Reply(Value::Simple("PONG".to_owned()))
    } else if args.len() == 2 {
        Request::Reply(Value::Bulk(copy_of(&args[1])))
    } else {
        refuse("ERR wrong number of arguments for 'ping' command")
    }
}

/// The lifetime that the options of `SET`, from the fourth argument on, ask for.
fn parse_set_expiry(args: &Vec<Vec<u8>>) -> (result: Result<Option<Lifetime>, String>)
    requires
        args@.len() >= 3,
    ensures
        match set_lifetime(texts(args@).skip(3)) {
            Ok(None) => result matches Ok(None),
            Ok(Some(nanos)) => result matches Ok(Some(lifetime)) && lifetime.nanos() == nanos,
            Err(text) => result matches Err(found) && found@ == text,
        },
{
    let ghost options = texts(args@).skip(3);
    if args.len() == 3 {
        return Ok(None);
    }
    if args.len() != 5 {
        return Err("ERR syntax error".to_owned());
    }
    assert(options[0] == args@[3]@ && options[1] == args@[4]@);
    let n = match parse_integer(args[4].as_slice()) {
        Some(n) => n,
        None => {
            return Err("ERR value is not an integer or out of range".to_owned());
        },
    };
    if n <= 0 {
        return Err("ERR invalid expire time in 'set' command".to_owned());
    }
    proof {
        reveal_strlit("EX");
        reveal_strlit("PX");
    }
    if is_word(args[3].as_slice(), "EX") {
        Ok(Some(Lifetime::Seconds(n as u64)))
    } else if is_word(args[3].as_slice(), "PX") {
        Ok(Some(Lifetime::Millis(n as u64)))
    } else {
        Err("ERR syntax error".to_owned())
    }
}

fn cmd_set(args: &Vec<Vec<u8>>) -> (request: Request)
    ensures
        request@ == set_request(texts(args@)),
{
    if args.len() < 3 {
        return refuse("ERR wrong number of arguments for 'set' command");
    }
    match parse_set_expiry(args) {
        Ok(lifetime) => Request::Put {
            key: copy_of(&args[1]),
            value: copy_of(&args[2]),
            lifetime,
        },
        Err(text) => Request::Reply(Value::Error(text)),
    }
}

fn cmd_get(args: &Vec<Vec<u8>>) -> (request: Request)
    ensures
        request@ == get_request(texts(args@)),
{
    if args.len() != 2 {
        return refuse("ERR wrong number of arguments for 'get' command");
    }
    Request::Get { key: copy_of(&args[1]) }
}

fn cmd_del(args: Vec<Vec<u8>>) -> (request: Request)
    ensures
        request@ == del_request(texts(args@)),
{
    if args.len() < 2 {
        return refuse("ERR wrong number of arguments for 'del' command");
    }
    let ghost all = texts(args@);
    let mut args = args;
    let keys = args.split_off(1);
    assert(texts(keys@) =~= all.skip(1));
    Request::Del { keys }
}

fn cmd_expire(args: &Vec<Vec<u8>>) -> (request: Request)
    ensures
        request@ == expire_request(texts(args@)),
{
    if args.len() != 3 {
        return refuse("ERR wrong number of arguments for 'expire' command");
    }
    match parse_integer(args[2].as_slice()) {
        Some(secs) => Request::Expire { key: copy_of(&args[1]), secs },
        None => refuse("ERR value is not an integer or out of range"),
    }
}

fn cmd_ttl(args: &Vec<Vec<u8>>) -> (request: Request)
    ensures
        request@ == ttl_request(texts(args@)),
{
    if args.len() != 2 {
        return refuse("ERR wrong number of arguments for 'ttl' command");
    }
    Request::Ttl { key: copy_of(&args[1]) }
}

/// Reads what a frame asks for.
pub fn interpret(frame: Value) -> (request: Request)
    ensures
        request@ == request_of(frame@),
{
    let args = match extract_args(frame) {
        Ok(args) => args,
        Err(text) => {
            return Request::Reply(Value::Error(text));
        },
    };
    if args.len() == 0 {
        return refuse("ERR empty command");
    }
    proof {
        reveal_strlit("PING");
        reveal_strlit("SET");
        reveal_strlit("GET");
        reveal_strlit("DEL");
        reveal_strlit("EXPIRE");
        reveal_strlit("TTL");
    }
    let name = args[0].as_slice();
    if is_word(name, "PING") {
        cmd_ping(&args)
    } else if is_word(name, "SET") {
        cmd_set(&args)
    } else if is_word(name, "GET") {
        cmd_get(&args)
    } else if is_word(name, "DEL") {
        cmd_del(args)
    } else if is_word(name, "EXPIRE") {
        cmd_expire(&args)
    } else if is_word(name, "TTL") {
        cmd_ttl(&args)
    } else {
        Request::Reply(unknown_command(from_utf8_lossy(name).as_str()))
    }
}

/// The store after keys are removed one after the other.
pub open spec fn after_del(store: StoreModel, keys: Seq<Bytes>) -> StoreModel
    decreases keys.len(),
{
    if keys.len() == 0 {
        store
    } else {
        after_del(store, keys.drop_last()).removed(keys.last())
    }
}

/// How many of these removals find their key.
pub open spec fn del_count(store: StoreModel, keys: Seq<Bytes>) -> int
    decreases keys.len(),
{
    if keys.len() == 0 {
        0
    } else {
        del_count(store, keys.drop_last()) + (if after_del(store, keys.drop_last()).has(
            keys.last(),
        ) {
            1int
        } else {
            0
        })
    }
}

/// A number of keys as a reply, as far as an `i64` holds it.
pub open spec fn count_reply(count: int) -> ValueModel {
    ValueModel::Integer(if count > i64::MAX {
        i64::MAX as int
    } else {
        count
    })
}

/// Yes or no as a reply.
pub open spec fn flag_reply(flag: bool) -> ValueModel {
    ValueModel::Integer(if flag {
        1
    } else {
        0
    })
}

/// The store after a request at the time `now`.
pub open spec fn after_request(store: StoreModel, request: RequestModel, now: Instant) -> StoreModel {
    match request {
        RequestModel::Reply(_) => store,
        RequestModel::Put { key, value, lifetime } => store.after_set(
            key,
            value,
            match lifetime {
                Some(nanos) => Some(now.later(nanos)),
                None => None,
            },
        ),
        RequestModel::Get { key } => store.after_get(key, now),
        RequestModel::Del { keys } => after_del(store, keys),
        RequestModel::Expire { key, secs } => if secs <= 0 {
            store.removed(key)
        } else {
            store.after_expire(key, now.later(secs * NANOS_PER_SEC), now)
        },
        RequestModel::Ttl { key } => store.purged(key, now),
    }
}

/// The reply to a request at the time `now`.
pub open spec fn reply_to(store: StoreModel, request: RequestModel, now: Instant) -> ValueModel {
    match request {
        RequestModel::Reply(reply) => reply,
        RequestModel::Put { .. } => ValueModel::Simple("OK"@),
        RequestModel::Get { key } => match store.lookup(key, now) {
            Some(value) => ValueModel::Bulk(value),
            None => ValueModel::Null,
        },
        RequestModel::Del { keys } => count_reply(del_count(store, keys)),
        RequestModel::Expire { key, secs } => if secs <= 0 {
            flag_reply(store.has(key))
        } else {
            flag_reply(store.is_live(key, now))
        },
        RequestModel::Ttl { key } => ValueModel::Integer(store.ttl(key, now)),
    }
}

/// Removes keys, and counts those that were there.
fn delete_all(store: &mut Store, keys: &Vec<Vec<u8>>) -> (reply: Value)
    ensures
        final(store)@ == after_del(old(store)@, texts(keys@)),
        reply@ == count_reply(del_count(old(store)@, texts(keys@))),
{
    let ghost all = texts(keys@);
    let mut count: usize = 0;
    let mut i: usize = 0;
    assert(all.take(0) =~= Seq::<Bytes>::empty());
    while i < keys.len()
        invariant
            all == texts(keys@),
            i <= keys@.len(),
            count <= i,
            store@ == after_del(old(store)@, all.take(i as int)),
            count == del_count(old(store)@, all.take(i as int)),
        decreases keys.len() - i,
    {
        let ghost longer = all.take(i + 1);
        assert(longer.drop_last() =~= all.take(i as int));
        assert(longer.last() == keys@[i as int]@);
        if store.del(keys[i].as_slice()) {
            count += 1;
        }
        i += 1;
    }
    assert(all.take(i as int) =~= all);
    if count as u64 > i64::MAX as u64 {
        Value::Integer(i64::MAX)
    } else {
        Value::Integer(count as i64)
    }
}

/// Executes a request on the store at the time `now`.
pub fn execute(store: &mut Store, request: Request, now: Instant) -> (reply: Value)
    ensures
        final(store)@ == after_request(old(store)@, request@, now),
        reply@ == reply_to(old(store)@, request@, now),
        old(store)@.well_formed(),
        final(store)@.well_formed(),
{
    proof {
        use_type_invariant(&*store);
        store.lemma_well_formed();
    }
    let reply = match request {
        Request::Reply(reply) => reply,
        Request::Put { key, value, lifetime } => {
            let expires_at = match lifetime {
                Some(lifetime) => Some(lifetime.end(now)),
                None => None,
            };
            store.set(key, value, expires_at);
            Value::Simple("OK".to_owned())
        },
        Request::Get { key } => match store.get_at(key.as_slice(), now) {
            Some(value) => Value::Bulk(value),
            None => Value::Null,
        },
        Request::Del { keys } => delete_all(store, &keys),
        Request::Expire { key, secs } => {
            let found = if secs <= 0 {
                store.del(key.as_slice())
            } else {
                store.expire_at(key.as_slice(), now.after_secs(secs as u64), now)
            };
            Value::Integer(
                if found {
                    1
                } else {
                    0
                },
            )
        },
        Request::Ttl { key } => Value::Integer(store.ttl_secs_at(key.as_slice(), now)),
    };
    proof {
        use_type_invariant(&*store);
        store.lemma_well_formed();
    }
    reply
}

/// The contents are those that the lock of a shared store hands over: what `Mutex::lock`
/// gives access to, or, where a panicking thread left the lock poisoned, what
/// `PoisonError::into_inner` does.
pub open spec fn lock_gives(store: &Arc<Mutex<Store>>, contents: StoreModel) -> bool {
    exists|locked: LockResult<MutexGuard<'_, Store>>|
        {
            &&& #[trigger] call_ensures(Mutex::<Store>::lock, (&**store,), locked)
            &&& match locked {
                Ok(free) => contents == guarded(free),
                Err(poisoned) => exists|inner: MutexGuard<'_, Store>|
                    {
                        &&& #[trigger] call_ensures(
                            PoisonError::<MutexGuard<'_, Store>>::into_inner,
                            (poisoned,),
                            inner,
                        )
                        &&& contents == guarded(inner)
                    },
            }
        }
}

/// Waits for exclusive access to a shared store. A lock that a panicking thread left
/// poisoned is taken all the same, and the store is as that thread left it. Which contents
/// that is rests on what the other threads did; they are well-formed in any case.
///
/// The calling thread must not hold a guard of the same store: it would wait for itself.
pub fn lock_store(store: &Arc<Mutex<Store>>) -> (guard: MutexGuard<'_, Store>)
    ensures
        lock_gives(store, guarded(guard)),
        guarded(guard).well_formed(),
{
    let locked = store.lock();
    let ghost handed_over = locked;
    let mut guard = match locked {
        Ok(guard) => guard,
        Err(poisoned) => poisoned.into_inner(),
    };
    assert(call_ensures(Mutex::<Store>::lock, (&**store,), handed_over));
    let contents = store_in(&mut guard);
    proof {
        use_type_invariant(&*contents);
        contents.lemma_well_formed();
    }
    guard
}

/// The guard is discarded as it is, and with it the lock given back: `Result::ok` drops the
/// error that it is handed.
pub open spec fn discarded(guard: MutexGuard<'_, Store>) -> bool {
    exists|nothing: Option<()>| #[trigger]
        call_ensures(
            Result::<(), MutexGuard<'_, Store>>::ok,
            (Err::<(), MutexGuard<'_, Store>>(guard),),
            nothing,
        )
}

/// Gives a lock back: the store is as the guard leaves it.
pub fn release(guard: MutexGuard<'_, Store>)
    ensures
        discarded(guard),
{
    let spent: Result<(), MutexGuard<'_, Store>> = Err(guard);
    let nothing = spent.ok();
    assert(call_ensures(
        Result::<(), MutexGuard<'_, Store>>::ok,
        (Err::<(), MutexGuard<'_, Store>>(guard),),
        nothing,
    ));
}

/// The guard is one that [`lock_store`] hands out for this shared store.
pub open spec fn handed_out(store: &Arc<Mutex<Store>>, guard: MutexGuard<'_, Store>) -> bool {
    call_ensures(lock_store, (store,), guard)
}

/// The guard is one with which [`release`] gives the lock back.
pub open spec fn given_back(guard: MutexGuard<'_, Store>) -> bool {
    call_ensures(release, (guard,), ())
}

/// Executes a request on the store that a guard gives access to, at the time of the call.
pub fn execute_locked(guard: &mut MutexGuard<'_, Store>, request: Request) -> (reply: Value)
    ensures
        guarded(*old(guard)).well_formed(),
        exists|now: Instant|
            {
                &&& guarded(*old(guard)).clock.shows(now)
                &&& now.is_reading()
                &&& guarded(*final(guard)) == after_request(guarded(*old(guard)), request@, now)
                &&& reply@ == #[trigger] reply_to(guarded(*old(guard)), request@, now)
            },
{
    let store = store_in(guard);
    let now = store.now();
    execute(store, request, now)
}

/// A request has been executed on a shared store, with the given reply: `before` is the
/// guard as the lock hands it out, `now` the time that the clock of the store shows, and
/// `after` the guard with which the lock is given back.
pub open spec fn served(
    store: &Arc<Mutex<Store>>,
    request: RequestModel,
    reply: ValueModel,
) -> bool {
    exists|before: MutexGuard<'_, Store>, after: MutexGuard<'_, Store>, now: Instant|
        {
            &&& handed_out(store, before)
            &&& guarded(before).well_formed()
            &&& guarded(before).clock.shows(now)
            &&& now.is_reading()
            &&& reply == #[trigger] reply_to(guarded(before), request, now)
            &&& guarded(after) == after_request(guarded(before), request, now)
            &&& #[trigger] given_back(after)
        }
}

/// Answers one client frame on a shared store, under its lock. A frame that needs no store
/// has a known reply; that the lock is not taken for it is not stated. Nor is anything said
/// of the store after the lock is given back: other threads may have used it since.
///
/// The calling thread must not hold a guard of the same store: it would wait for itself.
pub fn dispatch(store: &Arc<Mutex<Store>>, frame: Value) -> (reply: Value)
    ensures
        request_of(frame@) matches RequestModel::Reply(known) ==> reply@ == known,
        !(request_of(frame@) is Reply) ==> served(store, request_of(frame@), reply@),
{
    match interpret(frame) {
        Request::Reply(reply) => reply,
        request => {
            let mut guard = lock_store(store);
            let reply = execute_locked(&mut guard, request);
            let ghost after = guard;
            release(guard);
            assert(given_back(after));
            reply
        },
    }
}

} // verus!
