//! The recency order of keys: a doubly linked list over an arena of nodes, linked by index.
//!
//! Insertion, moving a node to the front, removal and eviction of the last node each touch
//! a constant number of nodes.

use vstd::prelude::*;

verus! {

/// The index that stands for "no node".
pub const NIL: usize = usize::MAX;

/// A node of the arena. `prev` and `next` are indices of nodes, or [`NIL`].
struct Node {
    key: Vec<u8>,
    prev: usize,
    next: usize,
}

/// A list of keys, most recently used first.
pub struct LruList {
    nodes: Vec<Node>,
    /// The most recently used node, or [`NIL`].
    head: usize,
    /// The least recently used node, or [`NIL`].
    tail: usize,
    /// Nodes that are not in the list and can be used again.
    free: Vec<usize>,
    /// The nodes of the list, from `head` to `tail`.
    chain: Ghost<Seq<usize>>,
}

impl LruList {
    /// The nodes of the list, most recently used first.
    pub closed spec fn chain(&self) -> Seq<usize> {
        self.chain@
    }

    /// The key of a node.
    pub closed spec fn key_of(&self, idx: usize) -> Seq<u8> {
        self.nodes@[idx as int].key@
    }

    /// The keys of the list, most recently used first.
    pub open spec fn keys(&self) -> Seq<Seq<u8>> {
        Seq::new(self.chain().len(), |i: int| self.key_of(self.chain()[i]))
    }

    /// The number of nodes of the arena, in the list or free.
    pub closed spec fn arena_len(&self) -> nat {
        self.nodes@.len()
    }

    /// The number of free nodes.
    pub closed spec fn free_len(&self) -> nat {
        self.free@.len()
    }

    /// The node before place `i` of a chain.
    spec fn before(chain: Seq<usize>, i: int) -> usize {
        if i <= 0 {
            NIL
        } else {
            chain[i - 1]
        }
    }

    /// The node after place `i` of a chain.
    spec fn after(chain: Seq<usize>, i: int) -> usize {
        if i + 1 >= chain.len() {
            NIL
        } else {
            chain[i + 1]
        }
    }

    /// The links run along `chain`, forwards and backwards.
    spec fn linked(nodes: Seq<Node>, chain: Seq<usize>) -> bool {
        &&& chain.no_duplicates()
        &&& forall|i: int|
            #![trigger chain[i]]
            0 <= i < chain.len() ==> chain[i] < nodes.len() && nodes[chain[i] as int].prev
                == Self::before(chain, i) && nodes[chain[i] as int].next == Self::after(chain, i)
    }

    /// The free nodes are just those outside the list.
    spec fn pooled(arena_len: nat, chain: Seq<usize>, free: Seq<usize>) -> bool {
        &&& free.no_duplicates()
        &&& chain.len() + free.len() == arena_len
        &&& forall|i: int|
            #![trigger free[i]]
            0 <= i < free.len() ==> free[i] < arena_len && !chain.contains(free[i])
    }

    /// The links, the ends and the free nodes agree with the list.
    pub closed spec fn wf(&self) -> bool {
        let chain = self.chain@;
        &&& Self::linked(self.nodes@, chain)
        &&& Self::pooled(self.nodes@.len(), chain, self.free@)
        &&& self.head == Self::after(chain, -1)
        &&& self.tail == Self::before(chain, chain.len() as int)
    }

    /// No node occurs twice in the list, and the arena holds the list and the free nodes,
    /// nothing else.
    pub proof fn lemma_chain(&self)
        requires
            self.wf(),
        ensures
            self.chain().no_duplicates(),
            self.chain().len() + self.free_len() == self.arena_len(),
            self.arena_len() <= usize::MAX,
            !self.chain().contains(NIL),
    {
        assert(self.nodes.len() == self.nodes@.len());
        if self.chain@.contains(NIL) {
            assert(self.chain@[self.chain@.index_of(NIL)] < self.nodes@.len());
        }
    }

    /// An empty list.
    pub fn new() -> (list: Self)
        ensures
            list.wf(),
            list.chain() == Seq::<usize>::empty(),
    {
        LruList {
            nodes: Vec::new(),
            head: NIL,
            tail: NIL,
            free: Vec::new(),
            chain: Ghost(Seq::empty()),
        }
    }

    /// The number of keys in the list.
    pub fn len(&self) -> (len: usize)
        requires
            self.wf(),
        ensures
            len == self.chain().len(),
    {
        self.nodes.len() - self.free.len()
    }

    /// The most recently used node, or [`NIL`].
    pub fn first(&self) -> (idx: usize)
        requires
            self.wf(),
        ensures
            self.chain().len() == 0 ==> idx == NIL,
            self.chain().len() > 0 ==> idx == self.chain()[0] && idx != NIL,
    {
        assert(self.nodes.len() == self.nodes@.len());
        proof {
            if self.chain@.len() > 0 {
                assert(self.chain@[0] < self.nodes@.len());
            }
        }
        self.head
    }

    /// The node behind another one of the list, or [`NIL`].
    pub fn next(&self, idx: usize) -> (next: usize)
        requires
            self.wf(),
            self.chain().contains(idx),
        ensures
            ({
                let chain = self.chain();
                let i = chain.index_of(idx);
                &&& i + 1 >= chain.len() ==> next == NIL
                &&& i + 1 < chain.len() ==> next == chain[i + 1] && next != NIL
            }),
    {
        let ghost chain = self.chain@;
        let ghost i = chain.index_of(idx);
        assert(self.nodes.len() == self.nodes@.len());
        assert(chain[i] == idx);
        proof {
            if i + 1 < chain.len() {
                assert(chain[i + 1] < self.nodes@.len());
            }
        }
        self.nodes[idx].next
    }

    /// The key of a node of the list.
    pub fn key(&self, idx: usize) -> (key: &[u8])
        requires
            self.wf(),
            self.chain().contains(idx),
        ensures
            key@ == self.key_of(idx),
    {
        assert(self.chain@[self.chain@.index_of(idx)] == idx);
        self.nodes[idx].key.as_slice()
    }

    /// Links past the node at place `p` make the chain without it.
    proof fn lemma_unlink(before: Seq<Node>, now: Seq<Node>, chain: Seq<usize>, p: int)
        requires
            Self::linked(before, chain),
            0 <= p < chain.len(),
            before.len() == now.len(),
            forall|j: int|
                #![trigger now[j]]
                0 <= j < now.len() ==> now[j].next == (if p > 0 && j == chain[p - 1] {
                    Self::after(chain, p)
                } else {
                    before[j].next
                }) && now[j].prev == (if p + 1 < chain.len() && j == chain[p + 1] {
                    Self::before(chain, p)
                } else {
                    before[j].prev
                }),
        ensures
            Self::linked(now, chain.remove(p)),
            Self::after(chain.remove(p), -1) == (if p > 0 {
                chain[0]
            } else {
                Self::after(chain, p)
            }),
            Self::before(chain.remove(p), chain.len() - 1) == (if p + 1 < chain.len() {
                chain.last()
            } else {
                Self::before(chain, p)
            }),
    {
        let rest = chain.remove(p);
        assert forall|i: int, j: int|
            0 <= i < rest.len() && 0 <= j < rest.len() && i != j implies rest[i] != rest[j] by {
            let a = if i < p {
                i
            } else {
                i + 1
            };
            let b = if j < p {
                j
            } else {
                j + 1
            };
            assert(chain[a] != chain[b]);
        }
        assert forall|i: int|
            #![trigger rest[i]]
            0 <= i < rest.len() implies rest[i] < now.len() && now[rest[i] as int].prev
            == Self::before(rest, i) && now[rest[i] as int].next == Self::after(rest, i) by {
            let a = if i < p {
                i
            } else {
                i + 1
            };
            let node = chain[a];
            assert(rest[i] == node);
            assert(node < before.len());
            assert(now[node as int].next == (if p > 0 && node == chain[p - 1] {
                Self::after(chain, p)
            } else {
                before[node as int].next
            }));
            if p > 0 {
                assert(node == chain[p - 1] <==> a == p - 1);
            }
            if p + 1 < chain.len() {
                assert(node == chain[p + 1] <==> a == p + 1);
            }
        }
    }

    /// Links the neighbours of a node, and the ends of the list, past it. The node keeps
    /// its own links.
    fn unlink(&mut self, idx: usize)
        requires
            old(self).wf(),
            old(self).chain().contains(idx),
        ensures
            ({
                let chain = old(self).chain();
                let rest = chain.remove(chain.index_of(idx));
                &&& final(self).chain@ == rest
                &&& Self::linked(final(self).nodes@, rest)
                &&& final(self).head == Self::after(rest, -1)
                &&& final(self).tail == Self::before(rest, rest.len() as int)
                &&& final(self).free == old(self).free
                &&& final(self).nodes@.len() == old(self).nodes@.len()
                &&& forall|i: int|
                    0 <= i < old(self).nodes@.len() ==> (#[trigger] final(self).nodes@[i]).key
                        == old(self).nodes@[i].key
            }),
    {
        let ghost chain = self.chain@;
        let ghost p = chain.index_of(idx);
        let ghost rest = chain.remove(p);
        assert(chain[p] == idx);
        proof {
            assert(self.nodes.len() == self.nodes@.len());
            if p > 0 {
                assert(chain[p - 1] < self.nodes@.len());
            }
            if p + 1 < chain.len() {
                assert(chain[p + 1] < self.nodes@.len());
            }
        }
        let prev = self.nodes[idx].prev;
        let next = self.nodes[idx].next;
        if prev == NIL {
            self.head = next;
        } else {
            self.nodes[prev].next = next;
        }
        if next == NIL {
            self.tail = prev;
        } else {
            self.nodes[next].prev = prev;
        }
        self.chain = Ghost(rest);
        proof {
            let before = old(self).nodes@;
            assert(prev == Self::before(chain, p) && next == Self::after(chain, p));
            assert forall|j: int|
                #![trigger self.nodes@[j]]
                0 <= j < self.nodes@.len() implies self.nodes@[j].next == (if p > 0 && j
                == chain[p - 1] {
                Self::after(chain, p)
            } else {
                before[j].next
            }) && self.nodes@[j].prev == (if p + 1 < chain.len() && j == chain[p + 1] {
                Self::before(chain, p)
            } else {
                before[j].prev
            }) by {}
            Self::lemma_unlink(before, self.nodes@, chain, p);
        }
    }

    /// Linking a node before the head makes the chain that begins with it.
    proof fn lemma_link_front(before: Seq<Node>, now: Seq<Node>, rest: Seq<usize>, idx: usize)
        requires
            Self::linked(before, rest),
            !rest.contains(idx),
            idx < now.len(),
            before.len() <= now.len(),
            now[idx as int].prev == NIL,
            now[idx as int].next == Self::after(rest, -1),
            forall|j: int|
                #![trigger now[j]]
                0 <= j < before.len() && j != idx ==> now[j].next == before[j].next && now[j].prev
                    == (if rest.len() > 0 && j == rest[0] {
                    idx
                } else {
                    before[j].prev
                }),
        ensures
            Self::linked(now, seq![idx] + rest),
            Self::after(seq![idx] + rest, -1) == idx,
            Self::before(seq![idx] + rest, rest.len() as int + 1) == (if rest.len() == 0 {
                idx
            } else {
                rest.last()
            }),
    {
        let chain = seq![idx] + rest;
        assert forall|i: int, j: int|
            0 <= i < chain.len() && 0 <= j < chain.len() && i != j implies chain[i] != chain[j] by {
            if i > 0 {
                assert(chain[i] == rest[i - 1]);
            }
            if j > 0 {
                assert(chain[j] == rest[j - 1]);
            }
        }
        assert forall|i: int|
            #![trigger chain[i]]
            0 <= i < chain.len() implies chain[i] < now.len() && now[chain[i] as int].prev
            == Self::before(chain, i) && now[chain[i] as int].next == Self::after(chain, i) by {
            if i > 0 {
                let node = rest[i - 1];
                assert(chain[i] == node);
                assert(node < before.len() && node != idx);
                assert(now[node as int].next == before[node as int].next);
                assert(node == rest[0] <==> i == 1);
            }
        }
    }

    /// Puts a key before all others. The result is its node.
    pub fn push_front(&mut self, key: Vec<u8>) -> (idx: usize)
        requires
            old(self).wf(),
        ensures
            final(self).wf(),
            !old(self).chain().contains(idx),
            final(self).chain() == seq![idx] + old(self).chain(),
            final(self).key_of(idx) == key@,
            forall|i: usize|
                old(self).chain().contains(i) ==> #[trigger] final(self).key_of(i) == old(
                    self,
                ).key_of(i),
    {
        let ghost chain = self.chain@;
        let ghost free = self.free@;
        let ghost before = self.nodes@;
        assert(self.nodes.len() == self.nodes@.len());
        let next = self.head;
        let idx: usize = match self.free.pop() {
            Some(i) => {
                assert(free[free.len() - 1] == i);
                self.nodes[i] = Node { key, prev: NIL, next };
                i
            },
            None => {
                self.nodes.push(Node { key, prev: NIL, next });
                self.nodes.len() - 1
            },
        };
        proof {
            if chain.contains(idx) {
                let i = chain.index_of(idx);
                assert(chain[i] < before.len());
            }
            if chain.len() > 0 {
                assert(chain[0] < before.len());
            }
        }
        if self.head != NIL {
            self.nodes[next].prev = idx;
        }
        self.head = idx;
        if self.tail == NIL {
            self.tail = idx;
        }
        self.chain = Ghost(seq![idx] + chain);
        proof {
            if chain.len() > 0 {
                assert(chain[chain.len() - 1] < before.len());
            }
            assert forall|i: usize| chain.contains(i) implies #[trigger] self.key_of(i) == old(
                self,
            ).key_of(i) by {
                let at = chain.index_of(i);
                assert(chain[at] < before.len());
            }
            Self::lemma_link_front(before, self.nodes@, chain, idx);
            assert forall|i: int|
                #![trigger self.free@[i]]
                0 <= i < self.free@.len() implies self.free@[i] < self.nodes@.len()
                && !self.chain@.contains(self.free@[i]) by {
                assert(self.free@[i] == free[i]);
                if self.chain@.contains(free[i]) {
                    let at = self.chain@.index_of(free[i]);
                    assert(at > 0 ==> chain[at - 1] == free[i]);
                }
            }
        }
        idx
    }

    /// Moves a node before all others.
    pub fn move_to_front(&mut self, idx: usize)
        requires
            old(self).wf(),
            old(self).chain().contains(idx),
        ensures
            final(self).wf(),
            ({
                let chain = old(self).chain();
                final(self).chain() == seq![idx] + chain.remove(chain.index_of(idx))
            }),
            forall|i: usize|
                old(self).chain().contains(i) ==> #[trigger] final(self).key_of(i) == old(
                    self,
                ).key_of(i),
    {
        let ghost chain = self.chain@;
        let ghost p = chain.index_of(idx);
        let ghost rest = chain.remove(p);
        assert(chain[p] == idx);
        assert(self.nodes.len() == self.nodes@.len());
        if self.head == idx {
            proof {
                assert(chain[0] == idx);
                assert(p == 0);
                assert(seq![idx] + rest =~= chain);
            }
            return;
        }
        let ghost original = self.nodes@;
        self.unlink(idx);
        let ghost before = self.nodes@;
        let next = self.head;
        proof {
            assert(self.nodes.len() == self.nodes@.len());
            if rest.len() > 0 {
                assert(rest[0] < before.len());
                assert(rest[rest.len() - 1] < before.len());
            }
            if rest.contains(idx) {
                let q = rest.index_of(idx);
                assert(rest[q] == chain[if q < p {
                    q
                } else {
                    q + 1
                }]);
            }
        }
        self.nodes[idx].prev = NIL;
        self.nodes[idx].next = next;
        if self.head != NIL {
            self.nodes[next].prev = idx;
        }
        self.head = idx;
        if self.tail == NIL {
            self.tail = idx;
        }
        self.chain = Ghost(seq![idx] + rest);
        proof {
            Self::lemma_link_front(before, self.nodes@, rest, idx);
            assert forall|i: usize| chain.contains(i) implies #[trigger] self.key_of(i) == old(
                self,
            ).key_of(i) by {
                let at = chain.index_of(i);
                assert(chain[at] < original.len());
                assert(before[i as int].key == original[i as int].key);
            }
            assert forall|i: int|
                #![trigger self.free@[i]]
                0 <= i < self.free@.len() implies self.free@[i] < self.nodes@.len()
                && !self.chain@.contains(self.free@[i]) by {
                let f = self.free@[i];
                if self.chain@.contains(f) {
                    let at = self.chain@.index_of(f);
                    if at == 0 {
                        assert(chain.contains(f));
                    } else {
                        assert(f == rest[at - 1]);
                        assert(rest[at - 1] == chain[if at - 1 < p {
                            at - 1
                        } else {
                            at
                        }]);
                    }
                }
            }
        }
    }

    /// Takes a node out of the list and frees it.
    pub fn remove(&mut self, idx: usize)
        requires
            old(self).wf(),
            old(self).chain().contains(idx),
        ensures
            final(self).wf(),
            ({
                let chain = old(self).chain();
                final(self).chain() == chain.remove(chain.index_of(idx))
            }),
            forall|i: usize|
                old(self).chain().contains(i) && i != idx ==> #[trigger] final(self).key_of(i)
                    == old(self).key_of(i),
    {
        let _ = self.take(idx);
    }

    /// Takes a node out of the list, frees it and hands out its key.
    fn take(&mut self, idx: usize) -> (key: Vec<u8>)
        requires
            old(self).wf(),
            old(self).chain().contains(idx),
        ensures
            final(self).wf(),
            key@ == old(self).key_of(idx),
            ({
                let chain = old(self).chain();
                final(self).chain() == chain.remove(chain.index_of(idx))
            }),
            forall|i: usize|
                old(self).chain().contains(i) && i != idx ==> #[trigger] final(self).key_of(i)
                    == old(self).key_of(i),
    {
        let ghost chain = self.chain@;
        let ghost p = chain.index_of(idx);
        let ghost rest = chain.remove(p);
        let ghost free = self.free@;
        let ghost original = self.nodes@;
        assert(chain[p] == idx);
        self.unlink(idx);
        let ghost before = self.nodes@;
        let mut key: Vec<u8> = Vec::new();
        std::mem::swap(&mut key, &mut self.nodes[idx].key);
        self.free.push(idx);
        proof {
            assert(Self::linked(self.nodes@, rest)) by {
                assert forall|i: int|
                    #![trigger rest[i]]
                    0 <= i < rest.len() implies rest[i] < self.nodes@.len()
                    && self.nodes@[rest[i] as int].prev == Self::before(rest, i)
                    && self.nodes@[rest[i] as int].next == Self::after(rest, i) by {}
            }
            assert forall|i: int|
                #![trigger self.free@[i]]
                0 <= i < self.free@.len() implies self.free@[i] < self.nodes@.len()
                && !rest.contains(self.free@[i]) by {
                let f = self.free@[i];
                if i < free.len() {
                    assert(f == free[i]);
                }
                if rest.contains(f) {
                    let q = rest.index_of(f);
                    let a = if q < p {
                        q
                    } else {
                        q + 1
                    };
                    assert(rest[q] == chain[a]);
                    assert(chain[a] != chain[p]);
                    assert(chain.contains(f));
                }
            }
            assert(self.free@.no_duplicates()) by {
                assert forall|i: int, j: int|
                    0 <= i < self.free@.len() && 0 <= j < self.free@.len() && i
                        != j implies self.free@[i] != self.free@[j] by {
                    if i < free.len() {
                        assert(self.free@[i] == free[i]);
                        assert(free[i] != idx);
                    }
                    if j < free.len() {
                        assert(self.free@[j] == free[j]);
                        assert(free[j] != idx);
                    }
                }
            }
            assert forall|i: usize| chain.contains(i) && i != idx implies #[trigger] self.key_of(i)
                == old(self).key_of(i) by {
                let at = chain.index_of(i);
                assert(chain[at] < original.len());
                assert(before[i as int].key == original[i as int].key);
            }
        }
        key
    }

    /// Takes the least recently used node out of the list and hands out its key; `None`
    /// where the list is empty.
    pub fn evict(&mut self) -> (result: Option<Vec<u8>>)
        requires
            old(self).wf(),
        ensures
            final(self).wf(),
            match result {
                None => old(self).chain().len() == 0 && final(self).chain() == old(self).chain(),
                Some(key) => {
                    let chain = old(self).chain();
                    &&& chain.len() > 0
                    &&& key@ == old(self).key_of(chain.last())
                    &&& final(self).chain() == chain.drop_last()
                    &&& forall|i: usize|
                        chain.drop_last().contains(i) ==> #[trigger] final(self).key_of(i) == old(
                            self,
                        ).key_of(i)
                },
            },
    {
        assert(self.nodes.len() == self.nodes@.len());
        let ghost chain = self.chain@;
        proof {
            if chain.len() > 0 {
                assert(chain[chain.len() - 1] < self.nodes@.len());
            }
        }
        if self.tail == NIL {
            return None;
        }
        let idx = self.tail;
        assert(chain.len() > 0 && chain[chain.len() - 1] == idx);
        assert(chain.contains(idx));
        let key = self.take(idx);
        proof {
            let p = chain.index_of(idx);
            assert(p == chain.len() - 1);
            assert(chain.remove(p) =~= chain.drop_last());
            assert forall|i: usize| chain.drop_last().contains(i) implies #[trigger] self.key_of(i)
                == old(self).key_of(i) by {
                let q = chain.drop_last().index_of(i);
                assert(chain[q] == i);
            }
        }
        Some(key)
    }
}

} // verus!
