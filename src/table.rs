//! The open-addressing table.
use crate::key::{bytes_equal, hash_bytes, TableKey};
use crate::slots::{
    chain_intact, chains_intact, dist, holds, home, keys_unique, lemma_all_empty,
    lemma_all_occupied, lemma_clear_entry, lemma_count_prefix, lemma_slots_map,
    lemma_update_keeps_chains, lemma_write_entry, occupied_count, passable, probe, slots_map,
    Slot,
};
use vstd::pervasive::VecAdditionalExecFns;
use vstd::prelude::*;

verus! {

/// The number of slots of a new table.
pub const INITIAL_CAPACITY: usize = 16;

/// `c` is the initial capacity doubled some number of times.
pub open spec fn grown_capacity(c: nat) -> bool
    decreases c,
{
    if c <= INITIAL_CAPACITY {
        c == INITIAL_CAPACITY
    } else {
        c % 2 == 0 && grown_capacity(c / 2)
    }
}

/// A map from keys to values. Its abstract value is a map from the byte
/// encodings of the keys to the values bound to them.
pub struct HashTable<K, V> {
    slots: Vec<Slot<K, V>>,
    size: usize,
}

impl<K: TableKey, V> View for HashTable<K, V> {
    type V = Map<Seq<u8>, V>;

    closed spec fn view(&self) -> Map<Seq<u8>, V> {
        slots_map(self.slots@)
    }
}

/// A vector of `n` empty slots.
fn empty_slots<K, V>(n: usize) -> (r: Vec<Slot<K, V>>)
    ensures
        r.len() == n,
        forall|i: int| 0 <= i < n ==> (#[trigger] r@[i]) is Empty,
{
    let mut r: Vec<Slot<K, V>> = Vec::new();
    while r.len() < n
        invariant
            r.len() <= n,
            forall|i: int| 0 <= i < r.len() ==> (#[trigger] r@[i]) is Empty,
        decreases n - r.len(),
    {
        r.push(Slot::Empty);
    }
    r
}

impl<K: TableKey, V> HashTable<K, V> {
    /// The number of slots.
    pub closed spec fn spec_capacity(&self) -> nat {
        self.slots.len() as nat
    }

    /// The table's invariant: no key is held twice, every key is reachable
    /// from its home slot, the count of entries is exact, and at most half
    /// of the slots are occupied.
    pub closed spec fn wf(&self) -> bool {
        &&& keys_unique(self.slots@)
        &&& chains_intact(self.slots@)
        &&& slots_map(self.slots@).dom().finite()
        &&& self.size == slots_map(self.slots@).dom().len()
        &&& 2 * self.size <= self.slots.len()
        &&& grown_capacity(self.slots.len() as nat)
    }

    /// A table holds finitely many entries and has at least two slots for
    /// each of them; its capacity is the initial one doubled some number of
    /// times.
    pub proof fn lemma_capacity(&self)
        requires
            self.wf(),
        ensures
            self@.dom().finite(),
            2 * self@.len() <= self.spec_capacity(),
            grown_capacity(self.spec_capacity()),
            self.spec_capacity() >= INITIAL_CAPACITY,
    {
    }

    /// Makes an empty table of `INITIAL_CAPACITY` slots.
    pub fn new() -> (t: Self)
        ensures
            t.wf(),
            t@ == Map::<Seq<u8>, V>::empty(),
            t.spec_capacity() == INITIAL_CAPACITY,
    {
        let slots = empty_slots(INITIAL_CAPACITY);
        proof {
            lemma_all_empty(slots@);
        }
        HashTable { slots, size: 0 }
    }

    /// The number of entries.
    pub fn size(&self) -> (r: usize)
        requires
            self.wf(),
        ensures
            r == self@.len(),
    {
        self.size
    }

    /// The number of slots.
    pub fn capacity(&self) -> (r: usize)
        ensures
            r == self.spec_capacity(),
    {
        self.slots.len()
    }

    /// The home slot of a key, given its byte encoding.
    fn hash(&self, key_bytes: &Vec<u8>) -> (r: usize)
        requires
            self.slots.len() > 0,
        ensures
            r == home(key_bytes@, self.slots.len() as int),
            r < self.slots.len(),
    {
        (hash_bytes(key_bytes) as usize) % self.slots.len()
    }

    /// Scans forward from the key's home slot for the slot that holds it. The
    /// scan stops at an empty slot, or after it has visited every slot.
    fn find_slot(&self, key: &K) -> (r: Option<usize>)
        requires
            self.wf(),
        ensures
            match r {
                Some(i) => holds(self.slots@, i as int, key.key_bytes()),
                None => forall|i: int| !holds(self.slots@, i, key.key_bytes()),
            },
    {
        let kb = key.to_key_bytes();
        let cap = self.slots.len();
        let start = self.hash(&kb);
        let mut index = start;
        let mut steps: usize = 0;
        loop
            invariant
                self.wf(),
                cap == self.slots.len(),
                kb@ == key.key_bytes(),
                start == home(kb@, cap as int),
                start < cap,
                steps < cap,
                index == probe(start as int, steps as int, cap as int),
                forall|d: int|
                    0 <= d < steps ==> !holds(
                        self.slots@,
                        #[trigger] probe(start as int, d, cap as int),
                        kb@,
                    ),
            decreases cap - steps,
        {
            match &self.slots[index] {
                Slot::Empty => {
                    proof {
                        let s = self.slots@;
                        assert forall|j: int| !holds(s, j, kb@) by {
                            if holds(s, j, kb@) {
                                let dd = dist(start as int, j, cap as int);
                                assert(probe(start as int, dd, cap as int) == j);
                                assert(chain_intact(s, j));
                                if dd < steps {
                                    assert(!holds(s, probe(start as int, dd, cap as int), kb@));
                                } else if dd > steps {
                                    assert(passable(s, start as int, steps as int));
                                }
                            }
                        }
                    }
                    return None;
                },
                Slot::Occupied(stored, _) => {
                    let stored_bytes = stored.to_key_bytes();
                    if bytes_equal(&stored_bytes, &kb) {
                        return Some(index);
                    }
                },
                Slot::Removed => {},
            }
            index = if index + 1 == cap {
                0
            } else {
                index + 1
            };
            steps = steps + 1;
            if index == start {
                proof {
                    let s = self.slots@;
                    assert forall|j: int| !holds(s, j, kb@) by {
                        if 0 <= j < cap {
                            let dd = dist(start as int, j, cap as int);
                            assert(probe(start as int, dd, cap as int) == j);
                        }
                    }
                }
                return None;
            }
        }
    }

    /// Puts a new entry into the first slot at or after the key's home slot
    /// that is not occupied.
    fn place(&mut self, key: K, value: V)
        requires
            old(self).wf(),
            !old(self)@.contains_key(key.key_bytes()),
            2 * (old(self).size + 1) <= old(self).slots.len(),
        ensures
            final(self).wf(),
            final(self)@ == old(self)@.insert(key.key_bytes(), value),
            final(self).slots.len() == old(self).slots.len(),
    {
        let kb = key.to_key_bytes();
        let cap = self.slots.len();
        let start = self.hash(&kb);
        let mut index = start;
        let ghost mut steps: int = 0;
        proof {
            lemma_slots_map(self.slots@);
        }
        while self.slots[index].is_occupied()
            invariant
                self.wf(),
                cap == self.slots.len(),
                2 * (self.size + 1) <= cap,
                start < cap,
                0 <= steps < cap,
                index == probe(start as int, steps, cap as int),
                forall|d: int|
                    0 <= d < steps ==> (#[trigger] self.slots@[probe(
                        start as int,
                        d,
                        cap as int,
                    )]) is Occupied,
            decreases cap - steps,
        {
            proof {
                if steps + 1 == cap {
                    let s = self.slots@;
                    assert forall|j: int| 0 <= j < s.len() implies (#[trigger] s[j]) is Occupied by {
                        let dd = dist(start as int, j, cap as int);
                        assert(probe(start as int, dd, cap as int) == j);
                    }
                    lemma_all_occupied(s);
                    lemma_slots_map(s);
                }
            }
            index = if index + 1 == cap {
                0
            } else {
                index + 1
            };
            proof {
                steps = steps + 1;
            }
        }
        let ghost s = self.slots@;
        let ghost x = Slot::Occupied(key, value);
        proof {
            lemma_write_entry(s, index as int, key, value);
            let t = s.update(index as int, x);
            assert(t.len() == s.len());
            assert(t[index as int].key() == kb@);
            assert(dist(start as int, index as int, cap as int) == steps);
            assert forall|d: int|
                0 <= d < dist(
                    home(t[index as int].key(), cap as int),
                    index as int,
                    cap as int,
                ) implies #[trigger] passable(t, home(t[index as int].key(), cap as int), d) by {
                assert(s[probe(start as int, d, cap as int)] is Occupied);
            }
            assert(chain_intact(t, index as int));
            lemma_update_keeps_chains(s, index as int, x);
        }
        self.slots.set(index, Slot::Occupied(key, value));
        self.size = self.size + 1;
    }

    /// Doubles the number of slots and puts every entry back, in the order of
    /// the old slots.
    fn resize(&mut self)
        requires
            old(self).wf(),
            old(self).slots.len() * 2 <= usize::MAX,
        ensures
            final(self).wf(),
            final(self)@ == old(self)@,
            final(self).slots.len() == 2 * old(self).slots.len(),
    {
        let new_cap = self.slots.len() * 2;
        let mut old_slots = empty_slots(new_cap);
        std::mem::swap(&mut self.slots, &mut old_slots);
        self.size = 0;
        let ghost src = old_slots@;
        proof {
            lemma_all_empty(self.slots@);
            lemma_slots_map(src);
            assert(src.take(0) =~= Seq::<Slot<K, V>>::empty());
            assert(grown_capacity(new_cap as nat));
        }
        for slot in it: old_slots.into_iter()
            invariant
                it.seq() == src,
                keys_unique(src),
                slots_map(src) == old(self)@,
                2 * occupied_count(src) <= src.len(),
                new_cap == 2 * src.len(),
                self.wf(),
                self.slots.len() == new_cap,
                self@ == slots_map(src.take(it.index() as int)),
        {
            let ghost i = it.index() as int;
            proof {
                let p = src.take(i);
                let q = src.take(i + 1);
                assert(q.drop_last() =~= p);
                assert(q.last() == src[i]);
                assert forall|a: int, b: int|
                    0 <= a < q.len() && 0 <= b < q.len() && (#[trigger] q[a]) is Occupied
                        && (#[trigger] q[b]) is Occupied && q[a].key() == q[b].key() implies a
                        == b by {
                    assert(q[a] == src[a] && q[b] == src[b]);
                }
                assert forall|a: int, b: int|
                    0 <= a < p.len() && 0 <= b < p.len() && (#[trigger] p[a]) is Occupied
                        && (#[trigger] p[b]) is Occupied && p[a].key() == p[b].key() implies a
                        == b by {
                    assert(p[a] == src[a] && p[b] == src[b]);
                }
                lemma_slots_map(p);
                lemma_slots_map(q);
                lemma_count_prefix(src, i + 1);
                if src[i] is Occupied {
                    assert(!slots_map(p).contains_key(src[i].key())) by {
                        if slots_map(p).contains_key(src[i].key()) {
                            let j = choose|j: int| holds(p, j, src[i].key());
                            assert(p[j] == src[j]);
                        }
                    }
                }
            }
            match slot {
                Slot::Occupied(k, v) => self.place(k, v),
                _ => {},
            }
        }
        proof {
            assert(src.take(src.len() as int) =~= src);
        }
    }

    /// Binds `key` to `value`. An entry for an equal key is overwritten in
    /// place; otherwise, when at least half of the slots are occupied, the
    /// table first doubles its slots, and the entry then takes the first
    /// slot at or after the key's home slot that is not occupied.
    pub fn insert(&mut self, key: K, value: V)
        requires
            old(self).wf(),
            old(self).spec_capacity() * 2 <= usize::MAX,
        ensures
            final(self).wf(),
            final(self)@ == old(self)@.insert(key.key_bytes(), value),
            final(self).spec_capacity() == if !old(self)@.contains_key(key.key_bytes()) && 2
                * old(self)@.len() >= old(self).spec_capacity() {
                2 * old(self).spec_capacity()
            } else {
                old(self).spec_capacity()
            },
    {
        proof {
            lemma_slots_map(self.slots@);
        }
        match self.find_slot(&key) {
            Some(index) => {
                let ghost s = self.slots@;
                let ghost x = Slot::Occupied(key, value);
                proof {
                    lemma_write_entry(s, index as int, key, value);
                    let t = s.update(index as int, x);
                    assert(t.len() == s.len());
                    assert(chain_intact(s, index as int));
                    let h = home(s[index as int].key(), s.len() as int);
                    assert forall|d: int| 0 <= d < dist(h, index as int, s.len() as int) implies
                        #[trigger] passable(t, h, d) by {
                        assert(passable(s, h, d));
                    }
                    assert(chain_intact(t, index as int));
                    lemma_update_keeps_chains(s, index as int, x);
                }
                self.slots.set(index, Slot::Occupied(key, value));
                return;
            },
            None => {},
        }
        if self.size * 2 >= self.slots.len() {
            self.resize();
        }
        self.place(key, value);
    }

    /// The value bound to `key`, if any.
    pub fn get(&self, key: &K) -> (r: Option<&V>)
        requires
            self.wf(),
        ensures
            match r {
                Some(v) => self@.contains_key(key.key_bytes()) && *v == self@[key.key_bytes()],
                None => !self@.contains_key(key.key_bytes()),
            },
    {
        proof {
            lemma_slots_map(self.slots@);
        }
        match self.find_slot(key) {
            Some(index) => match &self.slots[index] {
                Slot::Occupied(_, v) => Some(v),
                _ => None,
            },
            None => None,
        }
    }

    /// Takes the entry for `key` out of the table and returns its value, if
    /// there is one. The slot is marked removed, so that the scans for keys
    /// placed past it still reach them.
    pub fn remove(&mut self, key: &K) -> (r: Option<V>)
        requires
            old(self).wf(),
        ensures
            final(self).wf(),
            final(self)@ == old(self)@.remove(key.key_bytes()),
            final(self).spec_capacity() == old(self).spec_capacity(),
            match r {
                Some(v) => old(self)@.contains_key(key.key_bytes()) && v == old(self)@[key.key_bytes()],
                None => !old(self)@.contains_key(key.key_bytes()),
            },
    {
        proof {
            lemma_slots_map(self.slots@);
        }
        match self.find_slot(key) {
            Some(index) => {
                let ghost s = self.slots@;
                proof {
                    assert(self@.contains_key(key.key_bytes()));
                    assert(self@.dom().remove(key.key_bytes()).len() == self@.dom().len() - 1);
                    lemma_clear_entry(s, index as int);
                    lemma_update_keeps_chains(s, index as int, Slot::Removed);
                }
                let mut taken = Slot::Removed;
                self.slots.set_and_swap(index, &mut taken);
                match taken {
                    Slot::Occupied(_, v) => {
                        self.size = self.size - 1;
                        Some(v)
                    },
                    _ => None,
                }
            },
            None => {
                proof {
                    assert(self@ =~= self@.remove(key.key_bytes()));
                }
                None
            },
        }
    }
}

impl<K: TableKey, V> Default for HashTable<K, V> {
    fn default() -> (t: Self)
        ensures
            t.wf(),
            t@ == Map::<Seq<u8>, V>::empty(),
            t.spec_capacity() == INITIAL_CAPACITY,
    {
        Self::new()
    }
}

} // verus!
