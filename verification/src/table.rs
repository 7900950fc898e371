//! A hash table keyed by byte strings.
//!
//! Keys are spread by a 64-bit digest; the few keys that share a digest share a bucket.

use std::collections::hash_map::DefaultHasher;
use std::collections::HashMap;
use std::hash::Hasher;
use vstd::prelude::*;
use vstd::std_specs::hash::DefaultHasherAdditionalSpecFns;

verus! {

/// Compares two byte strings.
pub fn bytes_equal(a: &[u8], b: &[u8]) -> (equal: bool)
    ensures
        equal == (a@ == b@),
{
    if a.len() != b.len() {
        return false;
    }
    let mut i: usize = 0;
    while i < a.len()
        invariant
            a@.len() == b@.len(),
            i <= a@.len(),
            forall|j: int| 0 <= j < i ==> a@[j] == b@[j],
        decreases a.len() - i,
    {
        if a[i] != b[i] {
            return false;
        }
        i += 1;
    }
    assert(a@ =~= b@);
    true
}

/// The digest of a key.
pub open spec fn digest_of(key: Seq<u8>) -> u64 {
    DefaultHasher::spec_finish(seq![key])
}

fn digest(key: &[u8]) -> (digest: u64)
    ensures
        digest == digest_of(key@),
{
    let mut hasher = DefaultHasher::new();
    hasher.write(key);
    assert(hasher@ =~= seq![key@]);
    hasher.finish()
}

/// A key with its value.
struct Slot<V> {
    key: Vec<u8>,
    value: V,
}

/// The position of a key in a bucket.
fn position<V>(bucket: &Vec<Slot<V>>, key: &[u8]) -> (result: Option<usize>)
    ensures
        match result {
            Some(i) => i < bucket@.len() && bucket@[i as int].key@ == key@,
            None => forall|i: int| 0 <= i < bucket@.len() ==> (#[trigger] bucket@[i]).key@ != key@,
        },
{
    let mut i: usize = 0;
    while i < bucket.len()
        invariant
            i <= bucket@.len(),
            forall|j: int| 0 <= j < i ==> (#[trigger] bucket@[j]).key@ != key@,
        decreases bucket.len() - i,
    {
        if bytes_equal(bucket[i].key.as_slice(), key) {
            return Some(i);
        }
        i += 1;
    }
    None
}

/// A map from byte strings to values.
pub struct Table<V> {
    buckets: HashMap<u64, Vec<Slot<V>>>,
    contents: Ghost<Map<Seq<u8>, V>>,
}

impl<V> View for Table<V> {
    type V = Map<Seq<u8>, V>;

    closed spec fn view(&self) -> Map<Seq<u8>, V> {
        self.contents@
    }
}

impl<V> Table<V> {
    /// The slot `i` of the bucket `d` belongs there and holds what the table maps its key
    /// to.
    spec fn slot_ok(buckets: Map<u64, Vec<Slot<V>>>, contents: Map<Seq<u8>, V>, d: u64, i: int) -> bool {
        let slot = buckets[d]@[i];
        &&& digest_of(slot.key@) == d
        &&& contents.contains_key(slot.key@)
        &&& contents[slot.key@] == slot.value
    }

    /// The slots under a digest.
    spec fn bucket_at(buckets: Map<u64, Vec<Slot<V>>>, d: u64) -> Seq<Slot<V>> {
        if buckets.contains_key(d) {
            buckets[d]@
        } else {
            Seq::empty()
        }
    }

    /// The key stands in its bucket.
    spec fn placed(buckets: Map<u64, Vec<Slot<V>>>, key: Seq<u8>) -> bool {
        let d = digest_of(key);
        &&& buckets.contains_key(d)
        &&& exists|i: int| 0 <= i < buckets[d]@.len() && (#[trigger] buckets[d]@[i]).key@ == key
    }

    spec fn consistent(buckets: Map<u64, Vec<Slot<V>>>, contents: Map<Seq<u8>, V>) -> bool {
        &&& forall|d: u64, i: int|
            #![trigger buckets[d]@[i]]
            buckets.contains_key(d) && 0 <= i < buckets[d]@.len() ==> Self::slot_ok(
                buckets,
                contents,
                d,
                i,
            )
        &&& forall|d: u64, i: int, j: int|
            #![trigger buckets[d]@[i], buckets[d]@[j]]
            buckets.contains_key(d) && 0 <= i < j < buckets[d]@.len() ==> buckets[d]@[i].key@
                != buckets[d]@[j].key@
        &&& forall|key: Seq<u8>| #[trigger]
            contents.contains_key(key) ==> Self::placed(buckets, key)
    }

    /// The buckets hold exactly the contents, each key once and under its digest.
    pub closed spec fn wf(&self) -> bool {
        Self::consistent(self.buckets@, self.contents@)
    }

    /// Putting a slot for `name` at place `p` of its bucket maps `name` to its value.
    proof fn lemma_put(
        buckets: Map<u64, Vec<Slot<V>>>,
        contents: Map<Seq<u8>, V>,
        bucket: Vec<Slot<V>>,
        p: int,
    )
        requires
            Self::consistent(buckets, contents),
            0 <= p < bucket@.len(),
            ({
                let name = bucket@[p].key@;
                let d = digest_of(name);
                let had = Self::bucket_at(buckets, d);
                &&& had.len() <= bucket@.len() <= had.len() + 1
                &&& p < had.len() ==> had.len() == bucket@.len() && had[p].key@ == name
                &&& p >= had.len() ==> forall|j: int|
                    0 <= j < had.len() ==> (#[trigger] had[j]).key@ != name
                &&& forall|j: int|
                    0 <= j < bucket@.len() && j != p ==> j < had.len() && #[trigger] bucket@[j]
                        == had[j]
            }),
        ensures
            ({
                let name = bucket@[p].key@;
                Self::consistent(
                    buckets.insert(digest_of(name), bucket),
                    contents.insert(name, bucket@[p].value),
                )
            }),
    {
        let name = bucket@[p].key@;
        let d = digest_of(name);
        let had = Self::bucket_at(buckets, d);
        let after = buckets.insert(d, bucket);
        let now = contents.insert(name, bucket@[p].value);
        assert forall|e: u64, i: int|
            #![trigger after[e]@[i]]
            after.contains_key(e) && 0 <= i < after[e]@.len() implies Self::slot_ok(
            after,
            now,
            e,
            i,
        ) by {
            if e == d {
                if i != p {
                    assert(bucket@[i] == had[i]);
                    assert(had[i] == buckets[d]@[i]);
                    assert(Self::slot_ok(buckets, contents, d, i));
                    if p < had.len() {
                        assert(had[p] == buckets[d]@[p]);
                    }
                    assert(bucket@[i].key@ != name);
                }
            } else {
                assert(Self::slot_ok(buckets, contents, e, i));
            }
        }
        assert forall|e: u64, i: int, j: int|
            #![trigger after[e]@[i], after[e]@[j]]
            after.contains_key(e) && 0 <= i < j < after[e]@.len() implies after[e]@[i].key@
            != after[e]@[j].key@ by {
            if e == d {
                if i != p {
                    assert(bucket@[i] == had[i]);
                    assert(had[i] == buckets[d]@[i]);
                }
                if j != p {
                    assert(bucket@[j] == had[j]);
                    assert(had[j] == buckets[d]@[j]);
                }
                if p < had.len() {
                    assert(had[p] == buckets[d]@[p]);
                }
                assert(bucket@[i].key@ != bucket@[j].key@);
            } else {
                assert(buckets[e]@[i].key@ != buckets[e]@[j].key@);
            }
        }
        assert forall|key: Seq<u8>| #[trigger] now.contains_key(key) implies Self::placed(
            after,
            key,
        ) by {
            if key == name {
                assert(after[d]@[p].key@ == key);
            } else {
                assert(contents.contains_key(key));
                assert(Self::placed(buckets, key));
                let e = digest_of(key);
                let i = choose|i: int|
                    0 <= i < buckets[e]@.len() && (#[trigger] buckets[e]@[i]).key@ == key;
                if e == d {
                    assert(had[i] == buckets[d]@[i]);
                    assert(i != p);
                    assert(bucket@[i] == had[i]);
                }
                assert(after[e]@[i].key@ == key);
            }
        }
    }

    /// Taking the slot at place `p` out of its bucket, the last slot filling the gap, takes
    /// its key out of the table.
    proof fn lemma_take(
        buckets: Map<u64, Vec<Slot<V>>>,
        contents: Map<Seq<u8>, V>,
        bucket: Vec<Slot<V>>,
        d: u64,
        p: int,
    )
        requires
            Self::consistent(buckets, contents),
            buckets.contains_key(d),
            0 <= p < buckets[d]@.len(),
            bucket@ == buckets[d]@.update(p, buckets[d]@.last()).drop_last(),
        ensures
            Self::consistent(buckets.insert(d, bucket), contents.remove(buckets[d]@[p].key@)),
            bucket@.len() == 0 ==> Self::consistent(
                buckets.remove(d),
                contents.remove(buckets[d]@[p].key@),
            ),
    {
        let had = buckets[d]@;
        let name = had[p].key@;
        let last = had.len() - 1;
        let after = buckets.insert(d, bucket);
        let now = contents.remove(name);
        assert(Self::slot_ok(buckets, contents, d, p));
        assert forall|i: int| 0 <= i < bucket@.len() implies #[trigger] bucket@[i] == had[if i == p {
            last
        } else {
            i
        }] by {}
        assert forall|e: u64, i: int|
            #![trigger after[e]@[i]]
            after.contains_key(e) && 0 <= i < after[e]@.len() implies Self::slot_ok(
            after,
            now,
            e,
            i,
        ) by {
            if e == d {
                let from = if i == p {
                    last
                } else {
                    i
                };
                assert(bucket@[i] == had[from]);
                assert(Self::slot_ok(buckets, contents, d, from));
                assert(buckets[d]@[from].key@ != buckets[d]@[p].key@);
            } else {
                assert(Self::slot_ok(buckets, contents, e, i));
                assert(digest_of(buckets[e]@[i].key@) == e);
            }
        }
        assert forall|e: u64, i: int, j: int|
            #![trigger after[e]@[i], after[e]@[j]]
            after.contains_key(e) && 0 <= i < j < after[e]@.len() implies after[e]@[i].key@
            != after[e]@[j].key@ by {
            if e == d {
                assert(bucket@[i] == had[if i == p {
                    last
                } else {
                    i
                }]);
                assert(bucket@[j] == had[if j == p {
                    last
                } else {
                    j
                }]);
                assert(buckets[d]@[i].key@ != buckets[d]@[j].key@);
                assert(buckets[d]@[j].key@ != buckets[d]@[last].key@);
                assert(buckets[d]@[i].key@ != buckets[d]@[last].key@);
            } else {
                assert(buckets[e]@[i].key@ != buckets[e]@[j].key@);
            }
        }
        assert forall|key: Seq<u8>| #[trigger] now.contains_key(key) implies {
            &&& Self::placed(after, key)
            &&& bucket@.len() == 0 ==> Self::placed(buckets.remove(d), key)
        } by {
            assert(contents.contains_key(key));
            assert(Self::placed(buckets, key));
            let e = digest_of(key);
            let i = choose|i: int|
                0 <= i < buckets[e]@.len() && (#[trigger] buckets[e]@[i]).key@ == key;
            if e == d {
                assert(i != p);
                if i == last {
                    assert(after[e]@[p].key@ == key);
                } else {
                    assert(after[e]@[i].key@ == key);
                }
            } else {
                assert(after[e]@[i].key@ == key);
                assert(buckets.remove(d)[e]@[i].key@ == key);
            }
        }
        if bucket@.len() == 0 {
            let rest = buckets.remove(d);
            assert forall|e: u64, i: int|
                #![trigger rest[e]@[i]]
                rest.contains_key(e) && 0 <= i < rest[e]@.len() implies Self::slot_ok(
                rest,
                now,
                e,
                i,
            ) by {
                assert(after[e]@[i] == rest[e]@[i]);
                assert(Self::slot_ok(after, now, e, i));
            }
            assert forall|e: u64, i: int, j: int|
                #![trigger rest[e]@[i], rest[e]@[j]]
                rest.contains_key(e) && 0 <= i < j < rest[e]@.len() implies rest[e]@[i].key@
                != rest[e]@[j].key@ by {
                assert(after[e]@[i].key@ != after[e]@[j].key@);
            }
        }
    }

    /// An empty table.
    pub fn new() -> (table: Self)
        ensures
            table.wf(),
            table@ == Map::<Seq<u8>, V>::empty(),
    {
        Table { buckets: HashMap::new(), contents: Ghost(Map::empty()) }
    }

    /// The value of a key.
    pub fn get(&self, key: &[u8]) -> (result: Option<&V>)
        requires
            self.wf(),
        ensures
            match result {
                Some(value) => self@.contains_key(key@) && *value == self@[key@],
                None => !self@.contains_key(key@),
            },
    {
        match self.buckets.get(&digest(key)) {
            None => None,
            Some(bucket) => match position(bucket, key) {
                None => None,
                Some(i) => {
                    assert(Self::slot_ok(self.buckets@, self.contents@, digest_of(key@), i as int));
                    Some(&bucket[i].value)
                },
            },
        }
    }

    /// Maps a key to a value, in place of the one it had.
    pub fn insert(&mut self, key: Vec<u8>, value: V)
        requires
            old(self).wf(),
        ensures
            final(self).wf(),
            final(self)@ == old(self)@.insert(key@, value),
    {
        let ghost before = self.buckets@;
        let ghost contents = self.contents@;
        let ghost name = key@;
        let d = digest(key.as_slice());
        let mut bucket: Vec<Slot<V>> = match self.buckets.remove(&d) {
            Some(bucket) => bucket,
            None => Vec::new(),
        };
        let place: usize = match position(&bucket, key.as_slice()) {
            Some(i) => {
                bucket[i].value = value;
                i
            },
            None => {
                bucket.push(Slot { key, value });
                bucket.len() - 1
            },
        };
        proof {
            Self::lemma_put(before, contents, bucket, place as int);
            assert(before.remove(d).insert(d, bucket) =~= before.insert(d, bucket));
        }
        self.buckets.insert(d, bucket);
        self.contents = Ghost(contents.insert(name, value));
    }

    /// Takes a key out, with its value.
    pub fn remove(&mut self, key: &[u8]) -> (result: Option<V>)
        requires
            old(self).wf(),
        ensures
            final(self).wf(),
            final(self)@ == old(self)@.remove(key@),
            match result {
                Some(value) => old(self)@.contains_key(key@) && value == old(self)@[key@],
                None => !old(self)@.contains_key(key@),
            },
    {
        let ghost before = self.buckets@;
        let ghost contents = self.contents@;
        let d = digest(key);
        let mut bucket: Vec<Slot<V>> = match self.buckets.remove(&d) {
            Some(bucket) => bucket,
            None => {
                assert(contents.remove(key@) =~= contents);
                assert(self.buckets@ =~= before);
                return None;
            },
        };
        match position(&bucket, key) {
            None => {
                self.buckets.insert(d, bucket);
                assert(contents.remove(key@) =~= contents);
                assert(self.buckets@ =~= before);
                None
            },
            Some(i) => {
                assert(Self::slot_ok(before, contents, d, i as int));
                let slot = bucket.swap_remove(i);
                proof {
                    Self::lemma_take(before, contents, bucket, d, i as int);
                    assert(before.remove(d).insert(d, bucket) =~= before.insert(d, bucket));
                }
                if bucket.len() > 0 {
                    self.buckets.insert(d, bucket);
                }
                self.contents = Ghost(contents.remove(key@));
                Some(slot.value)
            },
        }
    }
}

} // verus!
