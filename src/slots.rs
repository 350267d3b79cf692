//! The slot array: its abstract contents, the probing geometry, and the
//! facts about both that the table relies on.
use crate::key::{bytes_hash, TableKey};
use vstd::prelude::*;

verus! {

/// One cell of the slot array. `Removed` marks a cell whose entry was taken
/// out: lookups probe past it, as they do past an occupied cell, and an
/// insertion may reuse it.
pub enum Slot<K, V> {
    Empty,
    Occupied(K, V),
    Removed,
}

impl<K: TableKey, V> Slot<K, V> {
    /// The byte encoding of the key held by an occupied slot.
    pub open spec fn key(self) -> Seq<u8> {
        match self {
            Slot::Occupied(k, _) => k.key_bytes(),
            _ => Seq::empty(),
        }
    }

    pub fn is_occupied(&self) -> (r: bool)
        ensures
            r == (*self is Occupied),
    {
        match self {
            Slot::Occupied(_, _) => true,
            _ => false,
        }
    }
}

/// Slot `i` holds the key with encoding `kb`.
pub open spec fn holds<K: TableKey, V>(s: Seq<Slot<K, V>>, i: int, kb: Seq<u8>) -> bool {
    0 <= i < s.len() && s[i] is Occupied && s[i].key() == kb
}

/// No key is held by two slots.
pub open spec fn keys_unique<K: TableKey, V>(s: Seq<Slot<K, V>>) -> bool {
    forall|i: int, j: int|
        0 <= i < s.len() && 0 <= j < s.len() && (#[trigger] s[i]) is Occupied
            && (#[trigger] s[j]) is Occupied && s[i].key() == s[j].key() ==> i == j
}

/// The entries of the slots, as a map from key encodings to values.
pub open spec fn slots_map<K: TableKey, V>(s: Seq<Slot<K, V>>) -> Map<Seq<u8>, V>
    decreases s.len(),
{
    if s.len() == 0 {
        Map::empty()
    } else {
        let m = slots_map(s.drop_last());
        match s.last() {
            Slot::Occupied(k, v) => m.insert(k.key_bytes(), v),
            _ => m,
        }
    }
}

/// The number of occupied slots.
pub open spec fn occupied_count<K, V>(s: Seq<Slot<K, V>>) -> nat
    decreases s.len(),
{
    if s.len() == 0 {
        0
    } else {
        occupied_count(s.drop_last()) + if s.last() is Occupied {
            1nat
        } else {
            0nat
        }
    }
}

/// The slot reached `d` steps after slot `h`, wrapping around at `cap`.
pub open spec fn probe(h: int, d: int, cap: int) -> int {
    if h + d < cap {
        h + d
    } else {
        h + d - cap
    }
}

/// How many steps a forward scan from slot `h` takes to reach slot `j`.
pub open spec fn dist(h: int, j: int, cap: int) -> int {
    if h <= j {
        j - h
    } else {
        j + cap - h
    }
}

/// The slot at which the scan for a key starts in a table of `cap` slots.
pub open spec fn home(kb: Seq<u8>, cap: int) -> int {
    (bytes_hash(kb) as usize) as int % cap
}

/// The slot `d` steps after `h` is not empty.
pub open spec fn passable<K, V>(s: Seq<Slot<K, V>>, h: int, d: int) -> bool {
    !(s[probe(h, d, s.len() as int)] is Empty)
}

/// A scan for the key of slot `j` reaches it without meeting an empty slot.
pub open spec fn chain_intact<K: TableKey, V>(s: Seq<Slot<K, V>>, j: int) -> bool {
    s[j] is Occupied ==> forall|d: int|
        0 <= d < dist(home(s[j].key(), s.len() as int), j, s.len() as int) ==> #[trigger] passable(
            s,
            home(s[j].key(), s.len() as int),
            d,
        )
}

pub open spec fn chains_intact<K: TableKey, V>(s: Seq<Slot<K, V>>) -> bool {
    forall|j: int| 0 <= j < s.len() ==> #[trigger] chain_intact(s, j)
}

/// What the map of a slot array holds, when no key is held twice.
pub proof fn lemma_slots_map<K: TableKey, V>(s: Seq<Slot<K, V>>)
    requires
        keys_unique(s),
    ensures
        slots_map(s).dom().finite(),
        slots_map(s).dom().len() == occupied_count(s),
        forall|kb: Seq<u8>| #[trigger]
            slots_map(s).contains_key(kb) <==> exists|i: int| holds(s, i, kb),
        forall|i: int|
            0 <= i < s.len() && (#[trigger] s[i]) is Occupied ==> slots_map(s)[s[i].key()]
                == s[i]->Occupied_1,
    decreases s.len(),
{
    if s.len() > 0 {
        let p = s.drop_last();
        let n = s.len() - 1;
        assert forall|i: int, j: int|
            0 <= i < p.len() && 0 <= j < p.len() && (#[trigger] p[i]) is Occupied
                && (#[trigger] p[j]) is Occupied && p[i].key() == p[j].key() implies i == j by {
            assert(s[i] == p[i] && s[j] == p[j]);
        }
        lemma_slots_map(p);
        assert forall|kb: Seq<u8>| #[trigger]
            slots_map(s).contains_key(kb) <==> exists|i: int| holds(s, i, kb) by {
            assert(s[n] == s.last());
            if s.last() is Occupied && kb == s.last().key() {
                assert(holds(s, n, kb));
            }
            if slots_map(p).contains_key(kb) {
                let i = choose|i: int| holds(p, i, kb);
                assert(s[i] == p[i]);
                assert(holds(s, i, kb));
            }
            if exists|i: int| holds(s, i, kb) {
                let i = choose|i: int| holds(s, i, kb);
                if i < n {
                    assert(s[i] == p[i]);
                    assert(holds(p, i, kb));
                }
            }
        }
        if s.last() is Occupied {
            let kb0 = s.last().key();
            assert(!slots_map(p).contains_key(kb0)) by {
                if slots_map(p).contains_key(kb0) {
                    let i = choose|i: int| holds(p, i, kb0);
                    assert(s[i] == p[i]);
                    assert(s[n] == s.last());
                }
            }
            assert forall|i: int| 0 <= i < s.len() && (#[trigger] s[i]) is Occupied implies slots_map(
                s,
            )[s[i].key()] == s[i]->Occupied_1 by {
                if i < n {
                    assert(s[i] == p[i]);
                    assert(s[n] == s.last());
                }
            }
        } else {
            assert forall|i: int| 0 <= i < s.len() && (#[trigger] s[i]) is Occupied implies slots_map(
                s,
            )[s[i].key()] == s[i]->Occupied_1 by {
                assert(s[n] == s.last());
                if i < n {
                    assert(s[i] == p[i]);
                }
            }
        }
    }
}

/// When every slot is occupied, the count is the length.
pub proof fn lemma_all_occupied<K, V>(s: Seq<Slot<K, V>>)
    requires
        forall|i: int| 0 <= i < s.len() ==> (#[trigger] s[i]) is Occupied,
    ensures
        occupied_count(s) == s.len(),
    decreases s.len(),
{
    if s.len() > 0 {
        let p = s.drop_last();
        assert forall|i: int| 0 <= i < p.len() implies (#[trigger] p[i]) is Occupied by {
            assert(p[i] == s[i]);
        }
        lemma_all_occupied(p);
    }
}

/// A prefix holds no more occupied slots than the whole.
pub proof fn lemma_count_prefix<K, V>(s: Seq<Slot<K, V>>, i: int)
    requires
        0 <= i <= s.len(),
    ensures
        occupied_count(s.take(i)) <= occupied_count(s),
    decreases s.len(),
{
    if i < s.len() {
        assert(s.take(i) =~= s.drop_last().take(i));
        lemma_count_prefix(s.drop_last(), i);
    } else {
        assert(s.take(i) =~= s);
    }
}

/// Slots that are all empty hold nothing.
pub proof fn lemma_all_empty<K: TableKey, V>(s: Seq<Slot<K, V>>)
    requires
        forall|i: int| 0 <= i < s.len() ==> (#[trigger] s[i]) is Empty,
    ensures
        slots_map(s) == Map::<Seq<u8>, V>::empty(),
        occupied_count(s) == 0,
        keys_unique(s),
        chains_intact(s),
    decreases s.len(),
{
    if s.len() > 0 {
        let p = s.drop_last();
        assert forall|i: int| 0 <= i < p.len() implies (#[trigger] p[i]) is Empty by {
            assert(p[i] == s[i]);
        }
        lemma_all_empty(p);
    }
}

/// Writing a non-empty slot keeps every other scan intact.
pub proof fn lemma_update_keeps_chains<K: TableKey, V>(s: Seq<Slot<K, V>>, i: int, x: Slot<K, V>)
    requires
        chains_intact(s),
        0 <= i < s.len(),
        !(x is Empty),
        x is Occupied ==> chain_intact(s.update(i, x), i),
    ensures
        chains_intact(s.update(i, x)),
{
    let t = s.update(i, x);
    assert forall|j: int| 0 <= j < t.len() implies #[trigger] chain_intact(t, j) by {
        assert(t.len() == s.len());
        if j != i && s[j] is Occupied {
            assert(chain_intact(s, j));
            assert(t[j] == s[j]);
            let h = home(s[j].key(), s.len() as int);
            assert forall|d: int| 0 <= d < dist(h, j, s.len() as int) implies #[trigger] passable(
                t,
                h,
                d,
            ) by {
                assert(passable(s, h, d));
            }
        }
    }
}

/// Writing an entry for key `k` into slot `i` binds `k` to `v`, provided no
/// other slot holds `k` and slot `i` holds no other key.
pub proof fn lemma_write_entry<K: TableKey, V>(s: Seq<Slot<K, V>>, i: int, k: K, v: V)
    requires
        keys_unique(s),
        0 <= i < s.len(),
        s[i] is Occupied ==> s[i].key() == k.key_bytes(),
        forall|j: int| j != i ==> !holds(s, j, k.key_bytes()),
    ensures
        keys_unique(s.update(i, Slot::Occupied(k, v))),
        slots_map(s.update(i, Slot::Occupied(k, v))) == slots_map(s).insert(k.key_bytes(), v),
{
    let kb = k.key_bytes();
    let t = s.update(i, Slot::Occupied(k, v));
    assert(t[i].key() == kb);
    assert forall|a: int, b: int|
        0 <= a < t.len() && 0 <= b < t.len() && (#[trigger] t[a]) is Occupied
            && (#[trigger] t[b]) is Occupied && t[a].key() == t[b].key() implies a == b by {
        if a != i && b != i {
            assert(t[a] == s[a] && t[b] == s[b]);
        } else if a == i && b != i {
            assert(t[b] == s[b]);
            assert(holds(s, b, kb));
        } else if a != i && b == i {
            assert(t[a] == s[a]);
            assert(holds(s, a, kb));
        }
    }
    lemma_slots_map(s);
    lemma_slots_map(t);
    let m = slots_map(s).insert(kb, v);
    assert forall|kb2: Seq<u8>| #[trigger] slots_map(t).contains_key(kb2) == m.contains_key(kb2) by {
        if kb2 == kb {
            assert(holds(t, i, kb));
        } else {
            if slots_map(s).contains_key(kb2) {
                let j = choose|j: int| holds(s, j, kb2);
                assert(t[j] == s[j]);
                assert(holds(t, j, kb2));
            }
            if slots_map(t).contains_key(kb2) {
                let j = choose|j: int| holds(t, j, kb2);
                assert(t[j] == s[j]);
                assert(holds(s, j, kb2));
            }
        }
    }
    assert forall|kb2: Seq<u8>| slots_map(t).contains_key(kb2) implies #[trigger] slots_map(t)[kb2]
        == m[kb2] by {
        if kb2 == kb {
            assert(t[i] is Occupied);
        } else {
            let j = choose|j: int| holds(t, j, kb2);
            assert(t[j] == s[j]);
        }
    }
    assert(slots_map(t) =~= m);
}

/// Marking an occupied slot removed unbinds its key.
pub proof fn lemma_clear_entry<K: TableKey, V>(s: Seq<Slot<K, V>>, i: int)
    requires
        keys_unique(s),
        0 <= i < s.len(),
        s[i] is Occupied,
    ensures
        keys_unique(s.update(i, Slot::Removed)),
        slots_map(s.update(i, Slot::Removed)) == slots_map(s).remove(s[i].key()),
{
    let kb = s[i].key();
    let t = s.update(i, Slot::Removed);
    assert forall|a: int, b: int|
        0 <= a < t.len() && 0 <= b < t.len() && (#[trigger] t[a]) is Occupied
            && (#[trigger] t[b]) is Occupied && t[a].key() == t[b].key() implies a == b by {
        assert(t[a] == s[a] && t[b] == s[b]);
    }
    lemma_slots_map(s);
    lemma_slots_map(t);
    let m = slots_map(s).remove(kb);
    assert forall|kb2: Seq<u8>| #[trigger] slots_map(t).contains_key(kb2) == m.contains_key(kb2) by {
        if slots_map(s).contains_key(kb2) && kb2 != kb {
            let j = choose|j: int| holds(s, j, kb2);
            assert(t[j] == s[j]);
            assert(holds(t, j, kb2));
        }
        if slots_map(t).contains_key(kb2) {
            let j = choose|j: int| holds(t, j, kb2);
            assert(t[j] == s[j]);
            assert(holds(s, j, kb2));
        }
    }
    assert forall|kb2: Seq<u8>| slots_map(t).contains_key(kb2) implies #[trigger] slots_map(t)[kb2]
        == m[kb2] by {
        let j = choose|j: int| holds(t, j, kb2);
        assert(t[j] == s[j]);
    }
    assert(slots_map(t) =~= m);
}

} // verus!
