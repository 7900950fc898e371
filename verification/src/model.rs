//! The mathematical model of the key/value store, and what each operation does to it.

use crate::clock::{Clock, Instant, NANOS_PER_SEC};
use vstd::prelude::*;

verus! {

/// A key or a value, as a mathematical byte string.
pub type Bytes = Seq<u8>;

/// What is stored under a key.
#[verifier::ext_equal]
pub struct EntryModel {
    pub value: Bytes,
    /// When the entry expires; `None` for never.
    pub expires_at: Option<Instant>,
}

/// The contents of a store.
#[verifier::ext_equal]
pub struct StoreModel {
    pub entries: Map<Bytes, EntryModel>,
    /// The keys, most recently used first.
    pub order: Seq<Bytes>,
    /// How many keys the store is to hold; `None` for no limit.
    pub capacity: Option<nat>,
    /// The clock on which the expiries are points in time.
    pub clock: Clock,
}

/// The keys of `order` that are not `gone`, in the same order.
pub open spec fn without(order: Seq<Bytes>, gone: Set<Bytes>) -> Seq<Bytes>
    decreases order.len(),
{
    if order.len() == 0 {
        order
    } else if gone.contains(order.last()) {
        without(order.drop_last(), gone)
    } else {
        without(order.drop_last(), gone).push(order.last())
    }
}

/// The seconds from `now` until `at`, rounded up, as far as an `i64` holds them.
pub open spec fn seconds_until(at: Instant, now: Instant) -> int {
    let secs = (at.nanos - now.nanos + NANOS_PER_SEC - 1) / (NANOS_PER_SEC as int);
    if secs > i64::MAX {
        i64::MAX as int
    } else {
        secs
    }
}

impl EntryModel {
    /// The expiry of the entry has been reached.
    pub open spec fn is_expired(self, now: Instant) -> bool {
        self.expires_at matches Some(at) && at.nanos <= now.nanos
    }
}

impl StoreModel {
    /// A store that holds nothing.
    pub open spec fn empty(capacity: Option<nat>, clock: Clock) -> StoreModel {
        StoreModel { entries: Map::empty(), order: Seq::empty(), capacity, clock }
    }

    /// Every key stands in the recency order exactly once, and the number of keys keeps to
    /// the capacity. A capacity of zero still lets one key in.
    pub open spec fn well_formed(self) -> bool {
        &&& self.order.no_duplicates()
        &&& forall|key: Bytes| #[trigger] self.order.contains(key) <==> self.entries.contains_key(key)
        &&& self.capacity matches Some(capacity) ==> self.order.len() <= capacity || self.order.len()
            <= 1
    }

    /// The key is stored, whether or not it has expired.
    pub open spec fn has(self, key: Bytes) -> bool {
        self.entries.contains_key(key)
    }

    /// The key is stored and has expired.
    pub open spec fn is_expired(self, key: Bytes, now: Instant) -> bool {
        self.has(key) && self.entries[key].is_expired(now)
    }

    /// The key is stored and has not expired.
    pub open spec fn is_live(self, key: Bytes, now: Instant) -> bool {
        self.has(key) && !self.entries[key].is_expired(now)
    }

    /// The keys that have expired.
    pub open spec fn expired_keys(self, now: Instant) -> Set<Bytes> {
        Set::new(|key: Bytes| self.is_expired(key, now))
    }

    /// The store without the keys that are `gone`.
    pub open spec fn without_keys(self, gone: Set<Bytes>) -> StoreModel {
        StoreModel {
            entries: self.entries.remove_keys(gone),
            order: without(self.order, gone),
            ..self
        }
    }

    /// The store without a key.
    pub open spec fn removed(self, key: Bytes) -> StoreModel {
        self.without_keys(set![key])
    }

    /// The store without a key, if that key has expired.
    pub open spec fn purged(self, key: Bytes, now: Instant) -> StoreModel {
        if self.is_expired(key, now) {
            self.removed(key)
        } else {
            self
        }
    }

    /// The key becomes the most recently used one.
    pub open spec fn touched(self, key: Bytes) -> StoreModel {
        StoreModel { order: seq![key] + without(self.order, set![key]), ..self }
    }

    /// The store without its least recently used key.
    pub open spec fn evicted(self) -> StoreModel {
        if self.order.len() == 0 {
            self
        } else {
            self.removed(self.order.last())
        }
    }

    /// No key can be added without another one leaving.
    pub open spec fn is_full(self) -> bool {
        self.capacity matches Some(capacity) && self.order.len() >= capacity
    }

    /// What a read finds: the value of a live key.
    pub open spec fn lookup(self, key: Bytes, now: Instant) -> Option<Bytes> {
        if self.is_live(key, now) {
            Some(self.entries[key].value)
        } else {
            None
        }
    }

    /// The store after a read: an expired key is gone, a live one is the most recently
    /// used.
    pub open spec fn after_get(self, key: Bytes, now: Instant) -> StoreModel {
        if self.is_live(key, now) {
            self.touched(key)
        } else {
            self.purged(key, now)
        }
    }

    /// The store after a write. An existing key, expired or not, is overwritten; a new one
    /// first makes the least recently used key leave, if the store is full.
    pub open spec fn after_set(
        self,
        key: Bytes,
        value: Bytes,
        expires_at: Option<Instant>,
    ) -> StoreModel {
        let entry = EntryModel { value, expires_at };
        if self.has(key) {
            StoreModel { entries: self.entries.insert(key, entry), ..self.touched(key) }
        } else {
            let room = if self.is_full() {
                self.evicted()
            } else {
                self
            };
            StoreModel {
                entries: room.entries.insert(key, entry),
                order: seq![key] + room.order,
                ..room
            }
        }
    }

    /// The store after the expiry of a key is set. Its place in the order stays.
    pub open spec fn after_expire(self, key: Bytes, expires_at: Instant, now: Instant) -> StoreModel {
        if self.is_live(key, now) {
            let entry = EntryModel { expires_at: Some(expires_at), ..self.entries[key] };
            StoreModel { entries: self.entries.insert(key, entry), ..self }
        } else {
            self.purged(key, now)
        }
    }

    /// The seconds that a key has left, rounded up: -2 where there is no live key, -1 where
    /// it never expires.
    pub open spec fn ttl(self, key: Bytes, now: Instant) -> int {
        if !self.is_live(key, now) {
            -2
        } else {
            match self.entries[key].expires_at {
                None => -1,
                Some(at) => seconds_until(at, now),
            }
        }
    }

    /// The store after all expired keys are removed.
    pub open spec fn after_sweep(self, now: Instant) -> StoreModel {
        self.without_keys(self.expired_keys(now))
    }
}

/// What is left is what was there and is not gone, without repetition where there was
/// none.
pub proof fn lemma_without(order: Seq<Bytes>, gone: Set<Bytes>)
    ensures
        without(order, gone).len() <= order.len(),
        forall|key: Bytes| #[trigger]
            without(order, gone).contains(key) <==> order.contains(key) && !gone.contains(key),
        order.no_duplicates() ==> without(order, gone).no_duplicates(),
    decreases order.len(),
{
    if order.len() > 0 {
        let front = order.drop_last();
        let last = order.last();
        lemma_without(front, gone);
        let left = without(front, gone);
        let all = without(order, gone);
        assert(order =~= front.push(last));
        assert forall|key: Bytes| #[trigger] all.contains(key) <==> order.contains(key)
            && !gone.contains(key) by {
            if order.contains(key) {
                let i = order.index_of(key);
                if i < front.len() {
                    assert(front[i] == key);
                    assert(front.contains(key));
                }
            }
            if front.contains(key) {
                let i = front.index_of(key);
                assert(order[i] == key);
            }
            assert(order[order.len() - 1] == last);
            if left.contains(key) {
                let i = left.index_of(key);
                assert(all[i] == key);
            }
            if all.contains(key) {
                let i = all.index_of(key);
                if i < left.len() {
                    assert(left[i] == key);
                    assert(left.contains(key));
                }
            }
            if !gone.contains(last) {
                assert(all[all.len() - 1] == last);
            }
        }
        if order.no_duplicates() {
            assert(front.no_duplicates());
            if !gone.contains(last) {
                assert forall|i: int, j: int|
                    0 <= i < all.len() && 0 <= j < all.len() && i != j implies all[i]
                    != all[j] by {
                    if i < left.len() {
                        assert(left.contains(all[i]));
                        assert(front.contains(all[i]));
                    }
                    if j < left.len() {
                        assert(left.contains(all[j]));
                        assert(front.contains(all[j]));
                    }
                }
            }
        }
    }
}

/// Where nothing of the order is gone, nothing changes.
pub proof fn lemma_without_none(order: Seq<Bytes>, gone: Set<Bytes>)
    requires
        forall|key: Bytes| #[trigger] order.contains(key) ==> !gone.contains(key),
    ensures
        without(order, gone) == order,
    decreases order.len(),
{
    if order.len() > 0 {
        let front = order.drop_last();
        assert(order.contains(order[order.len() - 1]));
        assert forall|key: Bytes| #[trigger] front.contains(key) implies !gone.contains(key) by {
            assert(order[front.index_of(key)] == key);
            assert(order.contains(key));
        }
        lemma_without_none(front, gone);
        assert(front.push(order.last()) =~= order);
    }
}

/// Taking a key out of an order without repetition takes out its one place.
pub proof fn lemma_without_at(order: Seq<Bytes>, p: int)
    requires
        order.no_duplicates(),
        0 <= p < order.len(),
    ensures
        without(order, set![order[p]]) == order.remove(p),
    decreases order.len(),
{
    let gone = set![order[p]];
    let front = order.drop_last();
    if p == order.len() - 1 {
        assert forall|key: Bytes| #[trigger] front.contains(key) implies !gone.contains(key) by {
            assert(order[front.index_of(key)] == key);
        }
        lemma_without_none(front, gone);
        assert(order.remove(p) =~= front);
    } else {
        lemma_without_at(front, p);
        assert(order[order.len() - 1] != order[p]);
        assert(order.remove(p) =~= front.remove(p).push(order.last()));
    }
}

/// Taking keys out in two steps is taking them out in one.
pub proof fn lemma_without_twice(order: Seq<Bytes>, first: Set<Bytes>, second: Set<Bytes>)
    ensures
        without(without(order, first), second) == without(order, first.union(second)),
    decreases order.len(),
{
    if order.len() > 0 {
        let front = order.drop_last();
        lemma_without_twice(front, first, second);
        if !first.contains(order.last()) {
            let left = without(front, first).push(order.last());
            assert(left.drop_last() =~= without(front, first));
        }
    }
}

} // verus!
