//! The key/value store: expiry of keys, and eviction of the least recently used one.
//!
//! An expired key is treated as absent by the operations that read it, which also remove
//! it; a sweep removes all of them. A store with a capacity makes room for a new key by
//! dropping the one that was not used for longest.

use crate::clock::{Clock, Instant, NANOS_PER_SEC};
use crate::lru::{LruList, NIL};
use crate::model::{
    lemma_without_at, lemma_without_none, lemma_without_twice, without, Bytes, EntryModel,
    StoreModel,
};
use crate::store_laws::{
    law_expire_keeps_well_formed, law_get_keeps_well_formed, law_order_counts_the_keys,
    law_removal_keeps_well_formed, law_set_keeps_well_formed,
};
use crate::table::Table;
use vstd::prelude::*;
use vstd::slice::slice_to_vec;

verus! {

/// A stored value with its expiry.
#[derive(Debug)]
pub struct Entry {
    pub value: Vec<u8>,
    /// When the entry expires; `None` for never.
    pub expires_at: Option<Instant>,
}

impl Entry {
    /// The value and the expiry.
    pub open spec fn model(self) -> EntryModel {
        EntryModel { value: self.value@, expires_at: self.expires_at }
    }
}

impl Clone for Entry {
    fn clone(&self) -> (copy: Self)
        ensures
            copy.model() == self.model(),
    {
        let value = self.value.clone();
        assert(value@ =~= self.value@);
        Entry { value, expires_at: self.expires_at }
    }
}

/// What the table maps a key to.
struct Stored {
    entry: Entry,
    /// The node of the key in the recency order.
    lru_idx: usize,
}

/// The table of entries and the recency order of their keys.
struct Core {
    map: Table<Stored>,
    lru: LruList,
    capacity: Option<usize>,
    clock: Clock,
}

impl Core {
    /// The contents.
    spec fn model(self) -> StoreModel {
        StoreModel {
            entries: self.map@.map_values(|stored: Stored| stored.entry.model()),
            order: self.lru.keys(),
            capacity: match self.capacity {
                Some(capacity) => Some(capacity as nat),
                None => None,
            },
            clock: self.clock,
        }
    }

    /// Every entry has its node in the recency order, and every node there its entry.
    spec fn matched(map: Map<Bytes, Stored>, lru: LruList) -> bool {
        &&& forall|key: Bytes| #[trigger]
            map.contains_key(key) ==> lru.chain().contains(map[key].lru_idx) && lru.key_of(
                map[key].lru_idx,
            ) == key
        &&& forall|idx: usize| #[trigger]
            lru.chain().contains(idx) ==> map.contains_key(lru.key_of(idx)) && map[lru.key_of(
                idx,
            )].lru_idx == idx
    }

    spec fn wf(self) -> bool {
        &&& self.map.wf()
        &&& self.lru.wf()
        &&& Self::matched(self.map@, self.lru)
        &&& self.model().well_formed()
    }

    /// The recency order holds every key of the table exactly once.
    proof fn lemma_order(map: Map<Bytes, Stored>, lru: LruList)
        requires
            lru.wf(),
            Self::matched(map, lru),
        ensures
            lru.keys().no_duplicates(),
            forall|key: Bytes| #[trigger] lru.keys().contains(key) <==> map.contains_key(key),
            forall|key: Bytes| #[trigger]
                map.contains_key(key) ==> lru.keys()[lru.chain().index_of(map[key].lru_idx)] == key,
    {
        lru.lemma_chain();
        let chain = lru.chain();
        let keys = lru.keys();
        assert forall|i: int, j: int|
            0 <= i < keys.len() && 0 <= j < keys.len() && i != j implies keys[i] != keys[j] by {
            assert(chain.contains(chain[i]) && chain.contains(chain[j]));
            assert(chain[i] != chain[j]);
        }
        assert forall|key: Bytes| #[trigger] keys.contains(key) <==> map.contains_key(key) by {
            if keys.contains(key) {
                let i = keys.index_of(key);
                assert(chain.contains(chain[i]));
            }
            if map.contains_key(key) {
                let i = chain.index_of(map[key].lru_idx);
                assert(keys[i] == key);
            }
        }
    }

    /// Taking the node at place `p` out of the list takes its key out of the order.
    proof fn lemma_removed(before: LruList, after: LruList, p: int)
        requires
            before.keys().no_duplicates(),
            0 <= p < before.chain().len(),
            before.chain().no_duplicates(),
            after.chain() == before.chain().remove(p),
            forall|i: usize|
                before.chain().contains(i) && i != before.chain()[p] ==> #[trigger] after.key_of(i)
                    == before.key_of(i),
        ensures
            after.keys() == without(before.keys(), set![before.keys()[p]]),
    {
        let chain = before.chain();
        lemma_without_at(before.keys(), p);
        assert forall|i: int| 0 <= i < after.keys().len() implies after.keys()[i]
            == before.keys().remove(p)[i] by {
            let a = if i < p {
                i
            } else {
                i + 1
            };
            assert(after.chain()[i] == chain[a]);
            assert(chain[a] != chain[p]);
            assert(chain.contains(chain[a]));
        }
        assert(after.keys() =~= before.keys().remove(p));
    }

    /// Removing a key that is not there changes nothing.
    proof fn lemma_nothing_removed(model: StoreModel, key: Bytes)
        requires
            model.well_formed(),
            !model.has(key),
        ensures
            model.removed(key) == model,
    {
        lemma_without_none(model.order, set![key]);
        assert(model.entries.remove_keys(set![key]) =~= model.entries);
    }

    /// An empty store.
    fn new(capacity: Option<usize>, clock: Clock) -> (core: Core)
        ensures
            core.wf(),
            core.capacity == capacity,
            core.model() == StoreModel::empty(core.model().capacity, clock),
    {
        let core = Core { map: Table::new(), lru: LruList::new(), capacity, clock };
        proof {
            assert(core.model().entries =~= Map::<Bytes, EntryModel>::empty());
            assert(core.model().order =~= Seq::<Bytes>::empty());
        }
        core
    }

    /// Takes a key out of the table and out of the order, and says whether it was there.
    fn remove_internal(&mut self, key: &[u8]) -> (existed: bool)
        requires
            old(self).wf(),
        ensures
            final(self).wf(),
            final(self).capacity == old(self).capacity,
            final(self).model() == old(self).model().removed(key@),
            existed == old(self).model().has(key@),
    {
        proof {
            Self::lemma_order(self.map@, self.lru);
            law_removal_keeps_well_formed(self.model(), set![key@]);
        }
        let ghost map = self.map@;
        let ghost lru = self.lru;
        match self.map.remove(key) {
            None => {
                proof {
                    Self::lemma_nothing_removed(old(self).model(), key@);
                    assert(self.map@ =~= map);
                }
                false
            },
            Some(stored) => {
                let ghost p = lru.chain().index_of(stored.lru_idx);
                self.lru.remove(stored.lru_idx);
                proof {
                    lru.lemma_chain();
                    Self::lemma_removed(lru, self.lru, p);
                    assert(self.model().entries =~= old(self).model().removed(key@).entries);
                    Self::lemma_matched_removed(map, lru, self.lru, key@);
                }
                true
            },
        }
    }

    /// Taking the node of a key out of the list, and the key out of the table, keeps them
    /// matched.
    proof fn lemma_matched_removed(map: Map<Bytes, Stored>, before: LruList, after: LruList, key: Bytes)
        requires
            before.wf(),
            after.wf(),
            Self::matched(map, before),
            map.contains_key(key),
            after.chain() == before.chain().remove(before.chain().index_of(map[key].lru_idx)),
            forall|i: usize|
                before.chain().contains(i) && i != map[key].lru_idx ==> #[trigger] after.key_of(i)
                    == before.key_of(i),
        ensures
            Self::matched(map.remove(key), after),
    {
        let chain = before.chain();
        let gone = map[key].lru_idx;
        let p = chain.index_of(gone);
        let rest = after.chain();
        before.lemma_chain();
        assert forall|i: usize| rest.contains(i) <==> chain.contains(i) && i != gone by {
            if rest.contains(i) {
                let q = rest.index_of(i);
                let a = if q < p {
                    q
                } else {
                    q + 1
                };
                assert(chain[a] == i);
                assert(chain[a] != chain[p]);
            }
            if chain.contains(i) && i != gone {
                let a = chain.index_of(i);
                let q = if a < p {
                    a
                } else {
                    a - 1
                };
                assert(rest[q] == i);
            }
        }
    }

    /// Moving the node of a key to the front makes the key the most recently used one.
    proof fn lemma_touched(map: Map<Bytes, Stored>, before: LruList, after: LruList, key: Bytes)
        requires
            before.wf(),
            after.wf(),
            Self::matched(map, before),
            map.contains_key(key),
            after.chain() == seq![map[key].lru_idx] + before.chain().remove(
                before.chain().index_of(map[key].lru_idx),
            ),
            forall|i: usize|
                before.chain().contains(i) ==> #[trigger] after.key_of(i) == before.key_of(i),
        ensures
            Self::matched(map, after),
            after.keys() == seq![key] + without(before.keys(), set![key]),
    {
        let chain = before.chain();
        let idx = map[key].lru_idx;
        let p = chain.index_of(idx);
        let rest = chain.remove(p);
        before.lemma_chain();
        Self::lemma_order(map, before);
        lemma_without_at(before.keys(), p);
        assert(before.keys()[p] == key);
        assert forall|i: int| 0 <= i < after.keys().len() implies after.keys()[i] == (seq![key]
            + before.keys().remove(p))[i] by {
            if i > 0 {
                let a = if i - 1 < p {
                    i - 1
                } else {
                    i
                };
                assert(after.chain()[i] == rest[i - 1]);
                assert(rest[i - 1] == chain[a]);
                assert(chain.contains(chain[a]));
            }
        }
        assert(after.keys() =~= seq![key] + before.keys().remove(p));
        assert forall|i: usize| after.chain().contains(i) <==> chain.contains(i) by {
            if after.chain().contains(i) {
                let q = after.chain().index_of(i);
                if q > 0 {
                    assert(rest[q - 1] == i);
                    assert(rest[q - 1] == chain[if q - 1 < p {
                        q - 1
                    } else {
                        q
                    }]);
                }
            }
            if chain.contains(i) {
                let a = chain.index_of(i);
                if a == p {
                    assert(after.chain()[0] == i);
                } else {
                    let q = if a < p {
                        a
                    } else {
                        a - 1
                    };
                    assert(rest[q] == i);
                    assert(after.chain()[q + 1] == i);
                }
            }
        }
        assert forall|k: Bytes| #[trigger] map.contains_key(k) implies after.chain().contains(
            map[k].lru_idx,
        ) && after.key_of(map[k].lru_idx) == k by {
            assert(chain.contains(map[k].lru_idx));
            assert(after.chain().contains(map[k].lru_idx));
        }
        assert forall|i: usize| #[trigger] after.chain().contains(i) implies map.contains_key(
            after.key_of(i),
        ) && map[after.key_of(i)].lru_idx == i by {
            assert(chain.contains(i));
        }
    }

    /// Drops the least recently used key, if there is one.
    fn evict_one(&mut self)
        requires
            old(self).wf(),
        ensures
            final(self).wf(),
            final(self).capacity == old(self).capacity,
            final(self).model() == old(self).model().evicted(),
    {
        let ghost map = self.map@;
        let ghost lru = self.lru;
        proof {
            Self::lemma_order(map, lru);
            lru.lemma_chain();
        }
        if let Some(key) = self.lru.evict() {
            self.map.remove(key.as_slice());
            proof {
                let chain = lru.chain();
                let p = chain.len() - 1;
                assert(chain.contains(chain[p]));
                assert(lru.keys()[p] == key@);
                assert(map[key@].lru_idx == chain[p]);
                assert(chain.index_of(chain[p]) == p);
                assert(chain.remove(p) =~= chain.drop_last());
                assert forall|i: usize|
                    chain.contains(i) && i != chain[p] implies #[trigger] self.lru.key_of(i)
                    == lru.key_of(i) by {
                    assert(chain.drop_last()[chain.index_of(i)] == i);
                    assert(chain.drop_last().contains(i));
                }
                Self::lemma_removed(lru, self.lru, p);
                Self::lemma_matched_removed(map, lru, self.lru, key@);
                law_removal_keeps_well_formed(old(self).model(), set![key@]);
                assert(self.model().entries =~= old(self).model().removed(key@).entries);
            }
        }
    }

    /// Whether a key is stored and has expired.
    fn is_expired(&self, key: &[u8], now: Instant) -> (expired: bool)
        requires
            self.wf(),
        ensures
            expired == self.model().is_expired(key@, now),
    {
        match self.map.get(key) {
            Some(stored) => match stored.entry.expires_at {
                Some(at) => at.nanos <= now.nanos,
                None => false,
            },
            None => false,
        }
    }

    /// Removes a key if it has expired.
    fn purge(&mut self, key: &[u8], now: Instant)
        requires
            old(self).wf(),
        ensures
            final(self).wf(),
            final(self).capacity == old(self).capacity,
            final(self).model() == old(self).model().purged(key@, now),
            !final(self).model().is_expired(key@, now),
            final(self).model().has(key@) == old(self).model().is_live(key@, now),
            final(self).model().has(key@) ==> final(self).model() == old(self).model(),
    {
        if self.is_expired(key, now) {
            self.remove_internal(key);
        }
    }

    fn get(&mut self, key: &[u8], now: Instant) -> (result: Option<Vec<u8>>)
        requires
            old(self).wf(),
        ensures
            final(self).wf(),
            final(self).capacity == old(self).capacity,
            final(self).model() == old(self).model().after_get(key@, now),
            match result {
                Some(value) => old(self).model().lookup(key@, now) == Some(value@),
                None => old(self).model().lookup(key@, now) is None,
            },
    {
        self.purge(key, now);
        let (idx, value) = match self.map.get(key) {
            Some(stored) => {
                let value = stored.entry.value.clone();
                assert(value@ =~= stored.entry.value@);
                (stored.lru_idx, value)
            },
            None => {
                assert(!self.model().has(key@));
                return None;
            },
        };
        let ghost map = self.map@;
        let ghost lru = self.lru;
        assert(self.model().has(key@));
        self.lru.move_to_front(idx);
        proof {
            Self::lemma_touched(map, lru, self.lru, key@);
            law_get_keeps_well_formed(old(self).model(), key@, now);
        }
        Some(value)
    }

    fn set(&mut self, key: Vec<u8>, value: Vec<u8>, expires_at: Option<Instant>)
        requires
            old(self).wf(),
        ensures
            final(self).wf(),
            final(self).capacity == old(self).capacity,
            final(self).model() == old(self).model().after_set(key@, value@, expires_at),
    {
        let ghost name = key@;
        let ghost entry = EntryModel { value: value@, expires_at };
        let known: Option<usize> = match self.map.get(key.as_slice()) {
            Some(stored) => Some(stored.lru_idx),
            None => None,
        };
        if let Some(idx) = known {
            let ghost map = self.map@;
            let ghost lru = self.lru;
            self.map.insert(key, Stored { entry: Entry { value, expires_at }, lru_idx: idx });
            assert(Self::matched(self.map@, lru));
            self.lru.move_to_front(idx);
            proof {
                Self::lemma_touched(self.map@, lru, self.lru, name);
                assert(self.model().entries =~= old(self).model().entries.insert(name, entry));
                law_set_keeps_well_formed(old(self).model(), name, entry.value, expires_at);
            }
            return;
        }
        if let Some(capacity) = self.capacity {
            if self.lru.len() >= capacity {
                self.evict_one();
            }
        }
        let ghost room = self.model();
        let ghost map = self.map@;
        let ghost lru = self.lru;
        proof {
            assert(!room.has(name));
            assert(!map.contains_key(name));
            Self::lemma_order(map, lru);
            lru.lemma_chain();
            law_set_keeps_well_formed(old(self).model(), name, entry.value, expires_at);
        }
        let copy = key.clone();
        assert(copy@ =~= key@);
        let idx = self.lru.push_front(copy);
        self.map.insert(key, Stored { entry: Entry { value, expires_at }, lru_idx: idx });
        proof {
            let chain = self.lru.chain();
            assert forall|i: usize| chain.contains(i) <==> i == idx || lru.chain().contains(i) by {
                if chain.contains(i) {
                    let q = chain.index_of(i);
                    if q > 0 {
                        assert(lru.chain()[q - 1] == i);
                    }
                }
                if lru.chain().contains(i) {
                    assert(chain[lru.chain().index_of(i) + 1] == i);
                }
                assert(chain[0] == idx);
            }
            assert forall|k: Bytes| #[trigger] self.map@.contains_key(k) implies chain.contains(
                self.map@[k].lru_idx,
            ) && self.lru.key_of(self.map@[k].lru_idx) == k by {
                if k != name {
                    assert(map.contains_key(k));
                    assert(lru.chain().contains(map[k].lru_idx));
                }
                assert(chain.contains(self.map@[k].lru_idx));
            }
            assert forall|i: usize| #[trigger] chain.contains(i) implies self.map@.contains_key(
                self.lru.key_of(i),
            ) && self.map@[self.lru.key_of(i)].lru_idx == i by {
                if i != idx {
                    assert(lru.chain().contains(i));
                    assert(map.contains_key(lru.key_of(i)));
                }
            }
            assert forall|i: int| 0 <= i < self.lru.keys().len() implies self.lru.keys()[i] == (
            seq![name] + lru.keys())[i] by {
                if i > 0 {
                    assert(chain[i] == lru.chain()[i - 1]);
                    assert(lru.chain().contains(lru.chain()[i - 1]));
                }
            }
            assert(self.lru.keys() =~= seq![name] + lru.keys());
            assert(self.model().entries =~= room.entries.insert(name, entry));
        }
    }

    fn expire(&mut self, key: &[u8], expires_at: Instant, now: Instant) -> (found: bool)
        requires
            old(self).wf(),
        ensures
            final(self).wf(),
            final(self).capacity == old(self).capacity,
            final(self).model() == old(self).model().after_expire(key@, expires_at, now),
            found == old(self).model().is_live(key@, now),
    {
        self.purge(key, now);
        let ghost map = self.map@;
        let ghost model = self.model();
        match self.map.remove(key) {
            None => {
                assert(!model.has(key@));
                assert(self.map@ =~= map);
                false
            },
            Some(stored) => {
                assert(model.has(key@));
                let entry = Entry { value: stored.entry.value, expires_at: Some(expires_at) };
                self.map.insert(slice_to_vec(key), Stored { entry, lru_idx: stored.lru_idx });
                proof {
                    let entry = EntryModel {
                        expires_at: Some(expires_at),
                        ..model.entries[key@]
                    };
                    assert(self.model().entries =~= model.entries.insert(key@, entry));
                    law_expire_keeps_well_formed(old(self).model(), key@, expires_at, now);
                }
                true
            },
        }
    }

    fn ttl_secs(&mut self, key: &[u8], now: Instant) -> (secs: i64)
        requires
            old(self).wf(),
        ensures
            final(self).wf(),
            final(self).capacity == old(self).capacity,
            final(self).model() == old(self).model().purged(key@, now),
            secs == old(self).model().ttl(key@, now),
    {
        self.purge(key, now);
        match self.map.get(key) {
            None => {
                assert(!self.model().has(key@));
                -2
            },
            Some(stored) => {
                assert(self.model().has(key@));
                match stored.entry.expires_at {
                    None => -1,
                    Some(at) => {
                        assert(self.model().entries[key@].expires_at == Some(at));
                        let remaining: u128 = at.nanos - now.nanos;
                        let whole: u128 = remaining / NANOS_PER_SEC;
                        let secs: u128 = if remaining % NANOS_PER_SEC > 0 {
                            whole + 1
                        } else {
                            whole
                        };
                        assert(secs == (remaining + NANOS_PER_SEC - 1) / (NANOS_PER_SEC as int));
                        if secs > i64::MAX as u128 {
                            i64::MAX
                        } else {
                            secs as i64
                        }
                    },
                }
            },
        }
    }

    /// The first `n` of some keys.
    spec fn listed(keys: Seq<Vec<u8>>, n: int) -> Set<Bytes> {
        Set::new(|key: Bytes| exists|m: int| 0 <= m < n && (#[trigger] keys[m])@ == key)
    }

    /// The keys that have expired.
    fn collect_expired(&self, now: Instant) -> (expired: Vec<Vec<u8>>)
        requires
            self.wf(),
        ensures
            Self::listed(expired@, expired@.len() as int) == self.model().expired_keys(now),
    {
        let ghost chain = self.lru.chain();
        let ghost keys = self.lru.keys();
        let ghost model = self.model();
        proof {
            self.lru.lemma_chain();
            Self::lemma_order(self.map@, self.lru);
        }
        let mut expired: Vec<Vec<u8>> = Vec::new();
        let mut idx: usize = self.lru.first();
        let ghost mut i: int = 0;
        while idx != NIL
            invariant
                self.wf(),
                chain == self.lru.chain(),
                keys == self.lru.keys(),
                model == self.model(),
                chain.no_duplicates(),
                !chain.contains(NIL),
                0 <= i <= chain.len(),
                i < chain.len() ==> idx == chain[i],
                i == chain.len() ==> idx == NIL,
                forall|m: int|
                    0 <= m < expired@.len() ==> model.is_expired((#[trigger] expired@[m])@, now),
                forall|j: int|
                    0 <= j < i && model.is_expired(#[trigger] keys[j], now) ==> Self::listed(
                        expired@,
                        expired@.len() as int,
                    ).contains(keys[j]),
            decreases chain.len() - i,
        {
            assert(chain.contains(idx));
            assert(chain.index_of(idx) == i);
            let ghost before = expired@;
            let key = self.lru.key(idx);
            assert(key@ == keys[i]);
            if self.is_expired(key, now) {
                expired.push(slice_to_vec(key));
                assert(expired@[before.len() as int]@ == keys[i]);
            }
            proof {
                assert forall|j: int|
                    0 <= j < i + 1 && model.is_expired(
                        #[trigger] keys[j],
                        now,
                    ) implies Self::listed(expired@, expired@.len() as int).contains(keys[j]) by {
                    if j < i {
                        assert(Self::listed(before, before.len() as int).contains(keys[j]));
                        let m = choose|m: int|
                            0 <= m < before.len() && (#[trigger] before[m])@ == keys[j];
                        assert(expired@[m]@ == keys[j]);
                    }
                }
            }
            idx = self.lru.next(idx);
            proof {
                i = i + 1;
            }
        }
        proof {
            if i < chain.len() {
                assert(chain.contains(chain[i]));
            }
            let all = Self::listed(expired@, expired@.len() as int);
            assert forall|key: Bytes| all.contains(key) <==> model.is_expired(key, now) by {
                if model.is_expired(key, now) {
                    assert(self.map@.contains_key(key));
                    assert(keys.contains(key));
                    assert(keys[keys.index_of(key)] == key);
                }
            }
            assert(all =~= model.expired_keys(now));
        }
        expired
    }

    fn sweep_expired(&mut self, now: Instant)
        requires
            old(self).wf(),
        ensures
            final(self).wf(),
            final(self).capacity == old(self).capacity,
            final(self).model() == old(self).model().after_sweep(now),
    {
        let expired = self.collect_expired(now);
        let ghost model = self.model();
        let mut m: usize = 0;
        proof {
            assert(Self::listed(expired@, 0) =~= Set::<Bytes>::empty());
            lemma_without_none(model.order, Self::listed(expired@, 0));
            assert(model.entries.remove_keys(Self::listed(expired@, 0)) =~= model.entries);
        }
        while m < expired.len()
            invariant
                self.wf(),
                self.capacity == old(self).capacity,
                m <= expired@.len(),
                self.model() == model.without_keys(Self::listed(expired@, m as int)),
            decreases expired.len() - m,
        {
            let ghost key = expired@[m as int]@;
            let ghost gone = Self::listed(expired@, m as int);
            let ghost more = Self::listed(expired@, m + 1);
            self.remove_internal(expired[m].as_slice());
            proof {
                assert(gone.union(set![key]) =~= more);
                lemma_without_twice(model.order, gone, set![key]);
                assert(model.entries.remove_keys(gone).remove_keys(set![key])
                    =~= model.entries.remove_keys(more));
            }
            m += 1;
        }
    }
}

/// A key/value store with expiry and, where it has a capacity, eviction of the least
/// recently used key.
pub struct Store {
    core: Core,
}

impl View for Store {
    type V = StoreModel;

    closed spec fn view(&self) -> StoreModel {
        self.core.model()
    }
}

impl Default for Store {
    fn default() -> (store: Self)
        ensures
            store@ == StoreModel::empty(None, store@.clock),
            store@.clock.began(),
    {
        Store { core: Core::new(None, Clock::start()) }
    }
}

impl Store {
    /// The table of entries and the recency order agree. This holds of every store.
    #[verifier::type_invariant]
    pub(crate) closed spec fn inv(&self) -> bool {
        self.core.wf()
    }

    /// The contents of every store are well-formed.
    pub(crate) proof fn lemma_well_formed(&self)
        requires
            self.inv(),
        ensures
            self@.well_formed(),
    {
    }

    /// An empty store that holds any number of keys.
    pub fn new() -> (store: Self)
        ensures
            store@ == StoreModel::empty(None, store@.clock),
            store@.clock.began(),
    {
        Store { core: Core::new(None, Clock::start()) }
    }

    /// An empty store that is to hold `capacity` keys.
    pub fn with_capacity(capacity: usize) -> (store: Self)
        ensures
            store@ == StoreModel::empty(Some(capacity as nat), store@.clock),
            store@.clock.began(),
    {
        Store { core: Core::new(Some(capacity), Clock::start()) }
    }

    /// The current point in time on the clock of the store. It rests on when the call is
    /// made.
    pub fn now(&self) -> (now: Instant)
        ensures
            self@.clock.shows(now),
            now.is_reading(),
    {
        self.core.clock.now()
    }

    /// The number of keys, expired ones that were not removed yet among them.
    pub fn len(&self) -> (len: usize)
        ensures
            len == self@.entries.dom().len(),
    {
        proof {
            use_type_invariant(self);
            law_order_counts_the_keys(self@);
        }
        self.core.lru.len()
    }

    /// The value of a key at the time `now`, if it is live. An expired key is removed, a
    /// live one becomes the most recently used.
    pub fn get_at(&mut self, key: &[u8], now: Instant) -> (result: Option<Vec<u8>>)
        ensures
            final(self)@ == old(self)@.after_get(key@, now),
            final(self)@.well_formed(),
            match result {
                Some(value) => old(self)@.lookup(key@, now) == Some(value@),
                None => old(self)@.lookup(key@, now) is None,
            },
    {
        proof {
            use_type_invariant(&*self);
        }
        let mut core = Core::new(None, self.core.clock);
        std::mem::swap(&mut core, &mut self.core);
        let result = core.get(key, now);
        self.core = core;
        result
    }

    /// The value of a key, if it is live at the time of the call.
    pub fn get(&mut self, key: &[u8]) -> (result: Option<Vec<u8>>)
        ensures
            exists|now: Instant|
                {
                    &&& old(self)@.clock.shows(now)
                    &&& now.is_reading()
                    &&& final(self)@ == #[trigger] old(self)@.after_get(key@, now)
                    &&& match result {
                        Some(value) => old(self)@.lookup(key@, now) == Some(value@),
                        None => old(self)@.lookup(key@, now) is None,
                    }
                },
            final(self)@.well_formed(),
    {
        let now = self.core.clock.now();
        self.get_at(key, now)
    }

    /// Stores a value under a key, with an expiry or without one. An existing key is
    /// overwritten and becomes the most recently used; a new one first makes the least
    /// recently used key leave, if the store is full.
    pub fn set(&mut self, key: Vec<u8>, value: Vec<u8>, expires_at: Option<Instant>)
        ensures
            final(self)@ == old(self)@.after_set(key@, value@, expires_at),
            final(self)@.well_formed(),
    {
        proof {
            use_type_invariant(&*self);
        }
        let mut core = Core::new(None, self.core.clock);
        std::mem::swap(&mut core, &mut self.core);
        core.set(key, value, expires_at);
        self.core = core;
    }

    /// Removes a key, and says whether it was there.
    pub fn del(&mut self, key: &[u8]) -> (existed: bool)
        ensures
            final(self)@ == old(self)@.removed(key@),
            final(self)@.well_formed(),
            existed == old(self)@.has(key@),
    {
        proof {
            use_type_invariant(&*self);
        }
        let mut core = Core::new(None, self.core.clock);
        std::mem::swap(&mut core, &mut self.core);
        let existed = core.remove_internal(key);
        self.core = core;
        existed
    }

    /// Sets the expiry of a key that is live at the time `now`, and says whether there was
    /// one. An expired key is removed.
    pub fn expire_at(&mut self, key: &[u8], expires_at: Instant, now: Instant) -> (found: bool)
        ensures
            final(self)@ == old(self)@.after_expire(key@, expires_at, now),
            final(self)@.well_formed(),
            found == old(self)@.is_live(key@, now),
    {
        proof {
            use_type_invariant(&*self);
        }
        let mut core = Core::new(None, self.core.clock);
        std::mem::swap(&mut core, &mut self.core);
        let found = core.expire(key, expires_at, now);
        self.core = core;
        found
    }

    /// Sets the expiry of a key, if it is live at the time of the call.
    pub fn expire(&mut self, key: &[u8], expires_at: Instant) -> (found: bool)
        ensures
            exists|now: Instant|
                {
                    &&& old(self)@.clock.shows(now)
                    &&& now.is_reading()
                    &&& final(self)@ == #[trigger] old(self)@.after_expire(key@, expires_at, now)
                    &&& found == old(self)@.is_live(key@, now)
                },
            final(self)@.well_formed(),
    {
        let now = self.core.clock.now();
        self.expire_at(key, expires_at, now)
    }

    /// The seconds that a key has left at the time `now`, rounded up: -2 where there is no
    /// live key, -1 where it never expires. An expired key is removed.
    pub fn ttl_secs_at(&mut self, key: &[u8], now: Instant) -> (secs: i64)
        ensures
            final(self)@ == old(self)@.purged(key@, now),
            final(self)@.well_formed(),
            secs == old(self)@.ttl(key@, now),
    {
        proof {
            use_type_invariant(&*self);
        }
        let mut core = Core::new(None, self.core.clock);
        std::mem::swap(&mut core, &mut self.core);
        let secs = core.ttl_secs(key, now);
        self.core = core;
        secs
    }

    /// The seconds that a key has left at the time of the call.
    pub fn ttl_secs(&mut self, key: &[u8]) -> (secs: i64)
        ensures
            exists|now: Instant|
                {
                    &&& old(self)@.clock.shows(now)
                    &&& now.is_reading()
                    &&& final(self)@ == #[trigger] old(self)@.purged(key@, now)
                    &&& secs == old(self)@.ttl(key@, now)
                },
            final(self)@.well_formed(),
    {
        let now = self.core.clock.now();
        self.ttl_secs_at(key, now)
    }

    /// Removes all keys that have expired at the time `now`.
    pub fn sweep_expired_at(&mut self, now: Instant)
        ensures
            final(self)@ == old(self)@.after_sweep(now),
            final(self)@.well_formed(),
    {
        proof {
            use_type_invariant(&*self);
        }
        let mut core = Core::new(None, self.core.clock);
        std::mem::swap(&mut core, &mut self.core);
        core.sweep_expired(now);
        self.core = core;
    }

    /// Removes all keys that have expired at the time of the call.
    pub fn sweep_expired(&mut self)
        ensures
            exists|now: Instant|
                {
                    &&& old(self)@.clock.shows(now)
                    &&& now.is_reading()
                    &&& final(self)@ == #[trigger] old(self)@.after_sweep(now)
                },
            final(self)@.well_formed(),
    {
        let now = self.core.clock.now();
        self.sweep_expired_at(now);
    }
}

} // verus!
