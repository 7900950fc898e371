//! What holds of the store as a whole.

use crate::clock::{Clock, Instant, NANOS_PER_SEC};
use crate::model::{
    lemma_without, lemma_without_at, lemma_without_none, lemma_without_twice, without, Bytes,
    StoreModel,
};
use vstd::prelude::*;

verus! {

/// An expiry, where there is one, that has not been reached.
pub open spec fn not_reached(expires_at: Option<Instant>, now: Instant) -> bool {
    expires_at matches Some(at) ==> now.nanos < at.nanos
}

/// A write of the key makes the least recently used key leave.
pub open spec fn makes_room(store: StoreModel, key: Bytes) -> bool {
    !store.has(key) && store.is_full() && store.order.len() > 0
}

/// A read gives back what was written last, until it expires.
pub proof fn law_get_returns_what_was_set(
    store: StoreModel,
    key: Bytes,
    value: Bytes,
    expires_at: Option<Instant>,
    now: Instant,
)
    requires
        not_reached(expires_at, now),
    ensures
        store.after_set(key, value, expires_at).lookup(key, now) == Some(value),
{
}

/// Once its expiry is reached, a key reads as absent, and the read removes it.
pub proof fn law_expired_key_is_absent(
    store: StoreModel,
    key: Bytes,
    value: Bytes,
    expires_at: Option<Instant>,
    now: Instant,
)
    requires
        !not_reached(expires_at, now),
    ensures
        store.after_set(key, value, expires_at).lookup(key, now) is None,
        store.after_set(key, value, expires_at).ttl(key, now) == -2,
        !store.after_set(key, value, expires_at).after_get(key, now).has(key),
{
}

/// A write leaves every other key as it was, but for the one that makes room.
pub proof fn law_set_keeps_other_keys(
    store: StoreModel,
    key: Bytes,
    value: Bytes,
    expires_at: Option<Instant>,
    other: Bytes,
)
    requires
        other != key,
        !(makes_room(store, key) && other == store.order.last()),
    ensures
        store.after_set(key, value, expires_at).has(other) == store.has(other),
        store.has(other) ==> store.after_set(key, value, expires_at).entries[other]
            == store.entries[other],
{
}

/// A new key in a full store makes the least recently used key leave, and no other.
pub proof fn law_least_recently_used_leaves(
    store: StoreModel,
    key: Bytes,
    value: Bytes,
    expires_at: Option<Instant>,
)
    requires
        store.well_formed(),
        makes_room(store, key),
    ensures
        store.has(store.order.last()),
        !store.after_set(key, value, expires_at).has(store.order.last()),
        store.after_set(key, value, expires_at).order == seq![key] + store.order.drop_last(),
{
    let order = store.order;
    assert(order.contains(order[order.len() - 1]));
    lemma_without_at(order, order.len() - 1);
    assert(order.remove(order.len() - 1) =~= order.drop_last());
}

/// A store without a capacity never drops a key to make room.
pub proof fn law_unlimited_store_keeps_all(
    store: StoreModel,
    key: Bytes,
    value: Bytes,
    expires_at: Option<Instant>,
    other: Bytes,
)
    requires
        store.capacity is None,
        store.has(other),
    ensures
        store.after_set(key, value, expires_at).has(other),
{
}

/// Overwriting a key takes no room: no key leaves, however full the store is.
pub proof fn law_overwrite_takes_no_room(
    store: StoreModel,
    key: Bytes,
    value: Bytes,
    expires_at: Option<Instant>,
)
    requires
        store.well_formed(),
        store.has(key),
    ensures
        store.after_set(key, value, expires_at).entries.dom() == store.entries.dom(),
        store.after_set(key, value, expires_at).order.len() == store.order.len(),
{
    assert(store.order.contains(key));
    lemma_without_at(store.order, store.order.index_of(key));
    assert(store.after_set(key, value, expires_at).entries.dom() =~= store.entries.dom());
}

/// A key that was just read or written is the most recently used one, so it outlives the
/// next new key wherever there is another key to drop.
pub proof fn law_use_protects_from_eviction(
    store: StoreModel,
    used: Bytes,
    now: Instant,
    key: Bytes,
    value: Bytes,
    expires_at: Option<Instant>,
)
    requires
        store.well_formed(),
        store.is_live(used, now),
        store.order.len() >= 2,
        key != used,
    ensures
        store.after_get(used, now).order[0] == used,
        store.after_get(used, now).after_set(key, value, expires_at).has(used),
        store.after_set(used, value, expires_at).order[0] == used,
        store.after_set(used, value, expires_at).after_set(key, value, expires_at).has(used),
{
    let rest = without(store.order, set![used]);
    assert(store.order.contains(used));
    lemma_without(store.order, set![used]);
    lemma_without_at(store.order, store.order.index_of(used));
    let order = seq![used] + rest;
    assert(order.last() == rest.last());
    assert(rest.contains(rest[rest.len() - 1]));
    assert(rest.last() != used);
}

/// A read changes nothing but the recency order, and that an expired key is gone: what any
/// later read finds is the same with it or without it.
pub proof fn law_get_changes_no_value(
    store: StoreModel,
    key: Bytes,
    now: Instant,
    other: Bytes,
    later: Instant,
)
    requires
        now.nanos <= later.nanos,
    ensures
        store.after_get(key, now).lookup(other, later) == store.lookup(other, later),
        store.after_get(key, now).ttl(other, later) == store.ttl(other, later),
{
}

/// A removed key is gone, a second removal finds nothing, and no other key is touched.
pub proof fn law_del_removes_one_key(store: StoreModel, key: Bytes, other: Bytes)
    requires
        store.well_formed(),
        other != key,
    ensures
        !store.removed(key).has(key),
        store.removed(key).removed(key) == store.removed(key),
        store.removed(key).has(other) == store.has(other),
        store.has(other) ==> store.removed(key).entries[other] == store.entries[other],
{
    let gone = set![key];
    lemma_without_twice(store.order, gone, gone);
    assert(gone.union(gone) =~= gone);
    assert(store.removed(key).removed(key).entries =~= store.removed(key).entries);
}

/// A sweep removes all expired keys and only those, and keeps the others in order.
pub proof fn law_sweep_removes_the_expired(store: StoreModel, now: Instant, key: Bytes)
    ensures
        store.after_sweep(now).has(key) == store.is_live(key, now),
        store.is_live(key, now) ==> store.after_sweep(now).entries[key] == store.entries[key],
        store.after_sweep(now).order == without(store.order, store.expired_keys(now)),
{
}

/// Sweeping cannot be noticed by reading: what any later read finds is the same with it or
/// without it.
pub proof fn law_sweep_changes_no_answer(
    store: StoreModel,
    now: Instant,
    key: Bytes,
    later: Instant,
)
    requires
        now.nanos <= later.nanos,
    ensures
        store.after_sweep(now).lookup(key, later) == store.lookup(key, later),
        store.after_sweep(now).ttl(key, later) == store.ttl(key, later),
{
}

/// The remaining time of a key tells what a read finds: -2 where it finds nothing, -1 for
/// a value that never expires, and a positive number of seconds for any other.
pub proof fn law_ttl_agrees_with_get(store: StoreModel, key: Bytes, now: Instant)
    ensures
        store.ttl(key, now) == -2 <==> store.lookup(key, now) is None,
        store.ttl(key, now) == -1 <==> store.lookup(key, now) is Some
            && store.entries[key].expires_at is None,
        store.ttl(key, now) == -2 || store.ttl(key, now) == -1 || store.ttl(key, now) >= 1,
{
}

/// The remaining time is rounded up: it never says less than is left, and less than a
/// second more. What an `i64` cannot hold is cut to its largest value.
pub proof fn law_ttl_rounds_up(store: StoreModel, key: Bytes, now: Instant, at: Instant)
    requires
        store.is_live(key, now),
        store.entries[key].expires_at == Some(at),
        at.nanos - now.nanos <= i64::MAX * NANOS_PER_SEC,
    ensures
        at.nanos - now.nanos <= store.ttl(key, now) * NANOS_PER_SEC < at.nanos - now.nanos
            + NANOS_PER_SEC,
{
}

/// Setting an expiry takes effect: the value stays readable until then and not after, and
/// no other key is touched. Without a live key nothing is set.
pub proof fn law_expire_sets_the_expiry(
    store: StoreModel,
    key: Bytes,
    at: Instant,
    now: Instant,
    other: Bytes,
    later: Instant,
)
    requires
        now.nanos <= later.nanos,
        other != key,
    ensures
        store.after_expire(key, at, now).lookup(key, later) == (if store.is_live(key, now)
            && later.nanos < at.nanos {
            Some(store.entries[key].value)
        } else {
            None
        }),
        store.after_expire(key, at, now).has(other) == store.has(other),
        store.has(other) ==> store.after_expire(key, at, now).entries[other]
            == store.entries[other],
        store.is_live(key, now) ==> store.after_expire(key, at, now).order == store.order,
{
}

/// The recency order and the table hold the same number of keys.
pub proof fn law_order_counts_the_keys(store: StoreModel)
    requires
        store.well_formed(),
    ensures
        store.order.to_set() == store.entries.dom(),
        store.entries.dom().finite(),
        store.entries.dom().len() == store.order.len(),
{
    store.order.unique_seq_to_set();
    assert forall|key: Bytes| #[trigger]
        store.order.to_set().contains(key) <==> store.entries.dom().contains(key) by {
        assert(store.order.contains(key) <==> store.entries.contains_key(key));
    }
    assert(store.order.to_set() =~= store.entries.dom());
}

/// Removing any keys, one or all that have expired, keeps the store well-formed: the
/// recency order holds just the stored keys, each once, and their number keeps to the
/// capacity.
pub proof fn law_removal_keeps_well_formed(store: StoreModel, gone: Set<Bytes>)
    requires
        store.well_formed(),
    ensures
        store.without_keys(gone).well_formed(),
{
    lemma_without(store.order, gone);
}

/// A read keeps the store well-formed.
pub proof fn law_get_keeps_well_formed(store: StoreModel, key: Bytes, now: Instant)
    requires
        store.well_formed(),
    ensures
        store.after_get(key, now).well_formed(),
{
    law_removal_keeps_well_formed(store, set![key]);
    if store.has(key) {
        lemma_touched_well_formed(store, key);
    }
}

/// A write keeps the store well-formed: the number of keys never exceeds the capacity. A
/// capacity of zero still lets one key in.
pub proof fn law_set_keeps_well_formed(
    store: StoreModel,
    key: Bytes,
    value: Bytes,
    expires_at: Option<Instant>,
)
    requires
        store.well_formed(),
    ensures
        store.after_set(key, value, expires_at).well_formed(),
{
    let after = store.after_set(key, value, expires_at);
    if store.has(key) {
        lemma_touched_well_formed(store, key);
        let touched = store.touched(key);
        assert forall|k: Bytes| #[trigger]
            after.order.contains(k) <==> after.entries.contains_key(k) by {
            assert(touched.order.contains(k) <==> touched.entries.contains_key(k));
        }
    } else {
        let room = if store.is_full() {
            store.evicted()
        } else {
            store
        };
        if store.order.len() > 0 {
            law_removal_keeps_well_formed(store, set![store.order.last()]);
            lemma_without_at(store.order, store.order.len() - 1);
        }
        assert(!room.has(key));
        lemma_front(room.order, key);
        assert forall|k: Bytes| #[trigger]
            after.order.contains(k) <==> after.entries.contains_key(k) by {
            assert(room.order.contains(k) <==> room.entries.contains_key(k));
        }
    }
}

/// Setting an expiry keeps the store well-formed.
pub proof fn law_expire_keeps_well_formed(store: StoreModel, key: Bytes, at: Instant, now: Instant)
    requires
        store.well_formed(),
    ensures
        store.after_expire(key, at, now).well_formed(),
{
    law_removal_keeps_well_formed(store, set![key]);
    if store.is_live(key, now) {
        let after = store.after_expire(key, at, now);
        assert forall|k: Bytes| #[trigger]
            after.order.contains(k) <==> after.entries.contains_key(k) by {
            assert(store.order.contains(k) <==> store.entries.contains_key(k));
        }
    }
}

/// Using a key keeps the store well-formed.
proof fn lemma_touched_well_formed(store: StoreModel, key: Bytes)
    requires
        store.well_formed(),
        store.has(key),
    ensures
        store.touched(key).well_formed(),
{
    let rest = without(store.order, set![key]);
    let touched = store.touched(key);
    assert(store.order.contains(key));
    lemma_without(store.order, set![key]);
    lemma_without_at(store.order, store.order.index_of(key));
    lemma_front(rest, key);
    assert forall|k: Bytes| #[trigger]
        touched.order.contains(k) <==> touched.entries.contains_key(k) by {
        assert(store.order.contains(k) <==> store.entries.contains_key(k));
        assert(rest.contains(k) <==> store.order.contains(k) && k != key);
    }
}

/// A key put before an order that lacks it.
proof fn lemma_front(order: Seq<Bytes>, key: Bytes)
    requires
        order.no_duplicates(),
        !order.contains(key),
    ensures
        (seq![key] + order).no_duplicates(),
        forall|k: Bytes| #[trigger] (seq![key] + order).contains(k) <==> k == key || order.contains(k),
{
    let all = seq![key] + order;
    assert forall|k: Bytes| #[trigger] all.contains(k) <==> k == key || order.contains(k) by {
        if all.contains(k) {
            let i = all.index_of(k);
            if i > 0 {
                assert(order[i - 1] == k);
            }
        }
        if order.contains(k) {
            assert(all[order.index_of(k) + 1] == k);
        }
        assert(all[0] == key);
    }
    assert forall|i: int, j: int|
        0 <= i < all.len() && 0 <= j < all.len() && i != j implies all[i] != all[j] by {
        if i > 0 {
            assert(order.contains(order[i - 1]));
        }
        if j > 0 {
            assert(order.contains(order[j - 1]));
        }
    }
}

/// The key `a` stands before the key `b`: it was used more recently.
pub open spec fn comes_before(order: Seq<Bytes>, a: Bytes, b: Bytes) -> bool {
    exists|i: int, j: int|
        0 <= i < j < order.len() && #[trigger] order[i] == a && #[trigger] order[j] == b
}

/// The keys outside `moved` stand in the same order before and after.
pub open spec fn same_order_but(before: Seq<Bytes>, after: Seq<Bytes>, moved: Set<Bytes>) -> bool {
    forall|a: Bytes, b: Bytes|
        !moved.contains(a) && !moved.contains(b) ==> (#[trigger] comes_before(after, a, b)
            <==> comes_before(before, a, b))
}

/// The key is stored, and its expiry, where it has one, lies ahead.
pub open spec fn alive(store: StoreModel, key: Bytes, now: Instant) -> bool {
    store.entries.contains_key(key) && match store.entries[key].expires_at {
        Some(at) => now.nanos < at.nanos,
        None => true,
    }
}

/// A new store holds no key, and has the capacity and the clock that it is made with.
pub proof fn law_new_store_is_empty(capacity: Option<nat>, clock: Clock, key: Bytes)
    ensures
        !StoreModel::empty(capacity, clock).entries.contains_key(key),
        StoreModel::empty(capacity, clock).order.len() == 0,
        StoreModel::empty(capacity, clock).capacity == capacity,
        StoreModel::empty(capacity, clock).clock == clock,
{
}

/// A well-formed store lists each of its keys once, no other key, and no more of them than
/// its capacity, where that is not zero.
pub proof fn law_well_formed_store_keeps_to_its_capacity(store: StoreModel)
    requires
        store.well_formed(),
    ensures
        forall|i: int, j: int|
            0 <= i < j < store.order.len() ==> #[trigger] store.order[i]
                != #[trigger] store.order[j],
        forall|key: Bytes| #[trigger]
            store.entries.contains_key(key) <==> store.order.contains(key),
        store.capacity matches Some(capacity) ==> capacity >= 1 ==> store.order.len() <= capacity,
        store.capacity == Some(0nat) ==> store.order.len() <= 1,
{
}

/// What a read finds: the value of a key that is stored and whose expiry has not come, and
/// nothing else.
pub proof fn law_read_finds_live_keys(store: StoreModel, key: Bytes, now: Instant, value: Bytes)
    ensures
        store.lookup(key, now) == Some(value) <==> alive(store, key, now)
            && store.entries[key].value == value,
        store.lookup(key, now) is None <==> !alive(store, key, now),
{
}

/// What a read does: a live key becomes the most recently used, an expired one is removed,
/// and an absent one changes nothing. No value and no expiry changes, and the other keys
/// keep their order.
pub proof fn law_read_effect(store: StoreModel, key: Bytes, now: Instant)
    requires
        store.well_formed(),
    ensures
        ({
            let after = store.after_get(key, now);
            &&& after.capacity == store.capacity
            &&& after.clock == store.clock
            &&& same_order_but(store.order, after.order, set![key])
            &&& alive(store, key, now) ==> after.entries == store.entries && after.order.len()
                == store.order.len() && after.order[0] == key
            &&& !store.entries.contains_key(key) ==> after == store
            &&& store.entries.contains_key(key) && !alive(store, key, now) ==> after.entries
                == store.entries.remove(key) && !after.order.contains(key)
        }),
{
    lemma_without(store.order, set![key]);
    lemma_order_without(store.order, set![key]);
    assert(store.entries.remove_keys(set![key]) =~= store.entries.remove(key));
    if alive(store, key, now) {
        assert(store.order.contains(key));
        lemma_without_at(store.order, store.order.index_of(key));
        lemma_order_front(without(store.order, set![key]), key);
    }
}

/// What a write stores: the key with just this value and this expiry. Whatever the key held
/// before is gone. The key becomes the most recently used one, and the other keys keep their
/// order.
pub proof fn law_write_effect(
    store: StoreModel,
    key: Bytes,
    value: Bytes,
    expires_at: Option<Instant>,
)
    requires
        store.well_formed(),
    ensures
        ({
            let after = store.after_set(key, value, expires_at);
            &&& after.capacity == store.capacity
            &&& after.clock == store.clock
            &&& after.entries.contains_key(key)
            &&& after.entries[key].value == value
            &&& after.entries[key].expires_at == expires_at
            &&& after.order[0] == key
            &&& forall|other: Bytes| #[trigger]
                after.entries.contains_key(other) && other != key
                    ==> store.entries.contains_key(other) && after.entries[other]
                    == store.entries[other]
            &&& forall|a: Bytes, b: Bytes|
                a != key && b != key && after.entries.contains_key(a) && after.entries.contains_key(b)
                    ==> (#[trigger] comes_before(after.order, a, b) <==> comes_before(
                    store.order,
                    a,
                    b,
                ))
        }),
{
    let after = store.after_set(key, value, expires_at);
    let gone = if store.has(key) {
        set![key]
    } else if store.is_full() && store.order.len() > 0 {
        set![store.order.last()]
    } else {
        Set::empty()
    };
    let rest = without(store.order, gone);
    lemma_order_without(store.order, gone);
    lemma_without(store.order, gone);
    if !store.has(key) && gone =~= Set::<Bytes>::empty() {
        lemma_without_none(store.order, gone);
    }
    assert(after.order == seq![key] + rest);
    lemma_order_front(rest, key);
}

/// While a store holds fewer keys than its capacity, and always where it has none, a write
/// removes no key.
pub proof fn law_no_key_leaves_while_there_is_room(
    store: StoreModel,
    key: Bytes,
    value: Bytes,
    expires_at: Option<Instant>,
    other: Bytes,
)
    requires
        store.entries.contains_key(other),
        match store.capacity {
            Some(capacity) => store.order.len() < capacity,
            None => true,
        },
    ensures
        store.after_set(key, value, expires_at).entries.contains_key(other),
        other != key ==> store.after_set(key, value, expires_at).entries[other]
            == store.entries[other],
{
}

/// A write of a stored key removes no key, however many there are.
pub proof fn law_no_key_leaves_for_a_stored_key(
    store: StoreModel,
    key: Bytes,
    value: Bytes,
    expires_at: Option<Instant>,
    other: Bytes,
)
    requires
        store.entries.contains_key(key),
        store.entries.contains_key(other),
    ensures
        store.after_set(key, value, expires_at).entries.contains_key(other),
        other != key ==> store.after_set(key, value, expires_at).entries[other]
            == store.entries[other],
{
}

/// A new key in a store that holds as many keys as its capacity, or more, takes the place of
/// one key: the one that was used before all others. The number of keys stays.
pub proof fn law_one_key_leaves_at_the_capacity(
    store: StoreModel,
    key: Bytes,
    value: Bytes,
    expires_at: Option<Instant>,
    capacity: nat,
)
    requires
        store.well_formed(),
        store.capacity == Some(capacity),
        capacity <= store.order.len(),
        store.order.len() > 0,
        !store.entries.contains_key(key),
    ensures
        ({
            let after = store.after_set(key, value, expires_at);
            let oldest = store.order[store.order.len() - 1];
            &&& after.order.len() == store.order.len()
            &&& forall|other: Bytes| #[trigger]
                after.entries.contains_key(other) <==> other == key || (store.entries.contains_key(
                    other,
                ) && other != oldest)
            &&& forall|other: Bytes|
                store.entries.contains_key(other) && other != oldest ==> comes_before(
                    store.order,
                    other,
                    oldest,
                )
        }),
{
    let order = store.order;
    let oldest = order[order.len() - 1];
    lemma_without_at(order, order.len() - 1);
    assert(order.contains(oldest));
    assert forall|other: Bytes|
        store.entries.contains_key(other) && other != oldest implies comes_before(
        order,
        other,
        oldest,
    ) by {
        assert(order.contains(other));
        let i = order.index_of(other);
        assert(order[i] == other && order[order.len() - 1] == oldest);
    }
}

/// A store with a capacity of at least one never holds more keys than that, whatever is
/// written to it.
pub proof fn law_capacity_is_never_exceeded(
    store: StoreModel,
    key: Bytes,
    value: Bytes,
    expires_at: Option<Instant>,
    capacity: nat,
)
    requires
        store.well_formed(),
        store.capacity == Some(capacity),
        capacity >= 1,
        store.order.len() <= capacity,
    ensures
        store.after_set(key, value, expires_at).order.len() <= capacity,
        store.after_set(key, value, expires_at).entries.dom().len() <= capacity,
{
    law_set_keeps_well_formed(store, key, value, expires_at);
    law_order_counts_the_keys(store.after_set(key, value, expires_at));
}

/// Removing several keys removes just these, and leaves all others with their values and
/// expiries and in their order.
pub proof fn law_removal_of_several_effect(store: StoreModel, gone: Set<Bytes>)
    ensures
        ({
            let after = store.without_keys(gone);
            &&& after.entries == store.entries.remove_keys(gone)
            &&& same_order_but(store.order, after.order, gone)
            &&& forall|key: Bytes| #[trigger]
                after.order.contains(key) <==> store.order.contains(key) && !gone.contains(key)
            &&& after.capacity == store.capacity
            &&& after.clock == store.clock
        }),
{
    lemma_without(store.order, gone);
    lemma_order_without(store.order, gone);
}

/// What a removal does: this key is gone, all others stay with their values and expiries and
/// in their order.
pub proof fn law_removal_effect(store: StoreModel, key: Bytes)
    requires
        store.well_formed(),
    ensures
        ({
            let after = store.removed(key);
            &&& after.entries == store.entries.remove(key)
            &&& same_order_but(store.order, after.order, set![key])
            &&& !after.order.contains(key)
            &&& after.capacity == store.capacity
            &&& after.clock == store.clock
            &&& store.has(key) <==> store.entries.contains_key(key)
        }),
{
    lemma_without(store.order, set![key]);
    lemma_order_without(store.order, set![key]);
    assert(store.entries.remove_keys(set![key]) =~= store.entries.remove(key));
}

/// What a sweep does: the keys whose expiry has come are gone, all others stay with their
/// values and expiries and in their order.
pub proof fn law_sweep_effect(store: StoreModel, now: Instant)
    requires
        store.well_formed(),
    ensures
        ({
            let after = store.after_sweep(now);
            &&& after.capacity == store.capacity
            &&& after.clock == store.clock
            &&& forall|key: Bytes| #[trigger]
                after.entries.contains_key(key) <==> alive(store, key, now)
            &&& forall|key: Bytes| #[trigger]
                after.entries.contains_key(key) ==> after.entries[key] == store.entries[key]
            &&& forall|a: Bytes, b: Bytes|
                alive(store, a, now) && alive(store, b, now) ==> (#[trigger] comes_before(
                    after.order,
                    a,
                    b,
                ) <==> comes_before(store.order, a, b))
        }),
{
    lemma_order_without(store.order, store.expired_keys(now));
}

/// What setting an expiry does: a live key gets this expiry in place of any that it had, and
/// keeps its value. An expired key is removed, and an absent one changes nothing. No other
/// key is touched, and none is moved.
pub proof fn law_expire_effect(store: StoreModel, key: Bytes, at: Instant, now: Instant)
    requires
        store.well_formed(),
    ensures
        ({
            let after = store.after_expire(key, at, now);
            &&& after.capacity == store.capacity
            &&& after.clock == store.clock
            &&& store.is_live(key, now) <==> alive(store, key, now)
            &&& alive(store, key, now) ==> {
                &&& after.entries.dom() == store.entries.dom()
                &&& after.entries[key].value == store.entries[key].value
                &&& after.entries[key].expires_at == Some(at)
                &&& after.order == store.order
            }
            &&& !store.entries.contains_key(key) ==> after == store
            &&& store.entries.contains_key(key) && !alive(store, key, now) ==> after.entries
                == store.entries.remove(key)
            &&& forall|other: Bytes|
                other != key ==> (#[trigger] after.entries.contains_key(other)
                    <==> store.entries.contains_key(other))
            &&& forall|other: Bytes|
                other != key && #[trigger] after.entries.contains_key(other)
                    ==> after.entries[other] == store.entries[other]
            &&& same_order_but(store.order, after.order, set![key])
        }),
{
    lemma_order_without(store.order, set![key]);
    assert(store.entries.remove_keys(set![key]) =~= store.entries.remove(key));
    assert(alive(store, key, now) ==> store.after_expire(key, at, now).entries.dom()
        =~= store.entries.dom());
}

/// What the remaining time of a key says: -2 where no live key is stored, -1 where the key
/// never expires, and otherwise the whole seconds, of 1,000,000,000 nanoseconds each, that
/// are left, a begun one counted as whole, as far as an `i64` holds them.
pub proof fn law_ttl_counts_seconds(store: StoreModel, key: Bytes, now: Instant)
    ensures
        !alive(store, key, now) ==> store.ttl(key, now) == -2,
        alive(store, key, now) && store.entries[key].expires_at is None ==> store.ttl(key, now)
            == -1,
        alive(store, key, now) ==> (store.entries[key].expires_at matches Some(at) ==> {
            let left = at.nanos - now.nanos;
            let ttl = store.ttl(key, now);
            &&& 1 <= ttl <= 0x7fff_ffff_ffff_ffff
            &&& left <= ttl * 1_000_000_000 || ttl == 0x7fff_ffff_ffff_ffff
            &&& (ttl - 1) * 1_000_000_000 < left
        }),
{
}

/// Taking keys out does not change the order of the others.
pub proof fn lemma_order_without(order: Seq<Bytes>, gone: Set<Bytes>)
    ensures
        same_order_but(order, without(order, gone), gone),
    decreases order.len(),
{
    if order.len() > 0 {
        let front = order.drop_last();
        let last = order.last();
        let left = without(front, gone);
        lemma_order_without(front, gone);
        lemma_without(front, gone);
        assert(order =~= front.push(last));
        assert forall|a: Bytes, b: Bytes| !gone.contains(a) && !gone.contains(b) implies (
        #[trigger] comes_before(without(order, gone), a, b) <==> comes_before(order, a, b)) by {
            lemma_order_push(front, last, a, b);
            lemma_order_push(left, last, a, b);
            assert(comes_before(left, a, b) <==> comes_before(front, a, b));
        }
    }
}

/// A key put at the end comes after all others.
proof fn lemma_order_push(order: Seq<Bytes>, last: Bytes, a: Bytes, b: Bytes)
    ensures
        comes_before(order.push(last), a, b) <==> comes_before(order, a, b) || (b == last
            && order.contains(a)),
{
    let all = order.push(last);
    if comes_before(all, a, b) {
        let (i, j) = choose|i: int, j: int|
            0 <= i < j < all.len() && #[trigger] all[i] == a && #[trigger] all[j] == b;
        assert(order[i] == a);
        if j < order.len() {
            assert(order[j] == b);
        }
    }
    if comes_before(order, a, b) {
        let (i, j) = choose|i: int, j: int|
            0 <= i < j < order.len() && #[trigger] order[i] == a && #[trigger] order[j] == b;
        assert(all[i] == a && all[j] == b);
    }
    if b == last && order.contains(a) {
        assert(all[order.index_of(a)] == a && all[order.len() as int] == b);
    }
}

/// A key put before an order does not change the order of the others.
proof fn lemma_order_front(order: Seq<Bytes>, key: Bytes)
    ensures
        same_order_but(order, seq![key] + order, set![key]),
{
    let all = seq![key] + order;
    assert forall|a: Bytes, b: Bytes|
        !set![key].contains(a) && !set![key].contains(b) implies (#[trigger] comes_before(all, a, b)
        <==> comes_before(order, a, b)) by {
        if comes_before(all, a, b) {
            let (i, j) = choose|i: int, j: int|
                0 <= i < j < all.len() && #[trigger] all[i] == a && #[trigger] all[j] == b;
            assert(order[i - 1] == a && order[j - 1] == b);
        }
        if comes_before(order, a, b) {
            let (i, j) = choose|i: int, j: int|
                0 <= i < j < order.len() && #[trigger] order[i] == a && #[trigger] order[j] == b;
            assert(all[i + 1] == a && all[j + 1] == b);
        }
    }
}

} // verus!
