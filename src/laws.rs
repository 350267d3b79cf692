//! Laws that hold of sequences of operations on a table, stated over the
//! map that `HashTable`'s view gives and that its operations' contracts
//! speak of.
use crate::key::TableKey;
use crate::table::{grown_capacity, HashTable, INITIAL_CAPACITY};
use vstd::arithmetic::power2::{lemma2_to64, lemma_pow2_unfold, pow2};
use vstd::prelude::*;

verus! {

/// One mutating operation on a table.
pub enum Op<K, V> {
    Insert(K, V),
    Remove(K),
}

/// The map after inserting `keys[0]` with `vals[0]`, then `keys[1]` with
/// `vals[1]`, and so on, into `m`.
pub open spec fn insert_all<K: TableKey, V>(m: Map<Seq<u8>, V>, keys: Seq<K>, vals: Seq<V>) -> Map<
    Seq<u8>,
    V,
>
    decreases keys.len(),
{
    if keys.len() == 0 {
        m
    } else {
        insert_all(m, keys.drop_last(), vals).insert(
            keys.last().key_bytes(),
            vals[keys.len() - 1],
        )
    }
}

/// The map after applying `ops` in order to `m`.
pub open spec fn apply_ops<K: TableKey, V>(m: Map<Seq<u8>, V>, ops: Seq<Op<K, V>>) -> Map<
    Seq<u8>,
    V,
>
    decreases ops.len(),
{
    if ops.len() == 0 {
        m
    } else {
        let prev = apply_ops(m, ops.drop_last());
        match ops.last() {
            Op::Insert(k, v) => prev.insert(k.key_bytes(), v),
            Op::Remove(k) => prev.remove(k.key_bytes()),
        }
    }
}

/// The keys that `ops` inserted and did not remove afterwards.
pub open spec fn live_keys<K: TableKey, V>(ops: Seq<Op<K, V>>) -> Set<Seq<u8>>
    decreases ops.len(),
{
    if ops.len() == 0 {
        Set::empty()
    } else {
        let prev = live_keys(ops.drop_last());
        match ops.last() {
            Op::Insert(k, _) => prev.insert(k.key_bytes()),
            Op::Remove(k) => prev.remove(k.key_bytes()),
        }
    }
}

/// Inserting distinct keys into an empty table, in any order, binds each
/// key to its value, and the table then holds exactly that many entries.
pub proof fn law_round_trip<K: TableKey, V>(keys: Seq<K>, vals: Seq<V>)
    requires
        keys.len() == vals.len(),
        forall|i: int, j: int|
            0 <= i < keys.len() && 0 <= j < keys.len() && i != j ==> (#[trigger] keys[i]).key_bytes()
                != (#[trigger] keys[j]).key_bytes(),
    ensures
        insert_all(Map::empty(), keys, vals).dom().finite(),
        insert_all(Map::empty(), keys, vals).len() == keys.len(),
        forall|i: int|
            0 <= i < keys.len() ==> insert_all(Map::empty(), keys, vals).contains_key(
                (#[trigger] keys[i]).key_bytes(),
            ) && insert_all(Map::empty(), keys, vals)[keys[i].key_bytes()] == vals[i],
    decreases keys.len(),
{
    if keys.len() > 0 {
        let n = keys.len() - 1;
        let pk = keys.drop_last();
        let pv = vals.drop_last();
        assert forall|i: int, j: int|
            0 <= i < pk.len() && 0 <= j < pk.len() && i != j implies (#[trigger] pk[i]).key_bytes()
            != (#[trigger] pk[j]).key_bytes() by {
            assert(pk[i] == keys[i] && pk[j] == keys[j]);
        }
        law_round_trip(pk, pv);
        lemma_insert_all_prefix_vals(Map::empty(), pk, vals, pv);
        let m = insert_all(Map::<Seq<u8>, V>::empty(), pk, vals);
        assert(!m.contains_key(keys[n].key_bytes())) by {
            lemma_insert_all_dom(Map::empty(), pk, vals, keys[n].key_bytes());
            if m.contains_key(keys[n].key_bytes()) {
                let i = choose|i: int|
                    0 <= i < pk.len() && (#[trigger] pk[i]).key_bytes() == keys[n].key_bytes();
                assert(pk[i] == keys[i]);
            }
        }
        assert forall|i: int| 0 <= i < keys.len() implies insert_all(
            Map::empty(),
            keys,
            vals,
        ).contains_key((#[trigger] keys[i]).key_bytes()) && insert_all(Map::empty(), keys, vals)[
            keys[i].key_bytes()] == vals[i] by {
            if i < n {
                assert(pk[i] == keys[i]);
                assert(pv[i] == vals[i]);
            }
        }
    }
}

/// `insert_all` reads only the first `keys.len()` values.
proof fn lemma_insert_all_prefix_vals<K: TableKey, V>(
    m: Map<Seq<u8>, V>,
    keys: Seq<K>,
    vals: Seq<V>,
    other: Seq<V>,
)
    requires
        keys.len() <= vals.len(),
        keys.len() <= other.len(),
        forall|i: int| 0 <= i < keys.len() ==> vals[i] == other[i],
    ensures
        insert_all(m, keys, vals) == insert_all(m, keys, other),
    decreases keys.len(),
{
    if keys.len() > 0 {
        lemma_insert_all_prefix_vals(m, keys.drop_last(), vals, other);
    }
}

/// A key is bound after `insert_all` exactly when it was bound before or is
/// one of the inserted keys.
proof fn lemma_insert_all_dom<K: TableKey, V>(
    m: Map<Seq<u8>, V>,
    keys: Seq<K>,
    vals: Seq<V>,
    kb: Seq<u8>,
)
    ensures
        insert_all(m, keys, vals).contains_key(kb) <==> m.contains_key(kb) || exists|i: int|
            0 <= i < keys.len() && (#[trigger] keys[i]).key_bytes() == kb,
    decreases keys.len(),
{
    if keys.len() > 0 {
        let pk = keys.drop_last();
        lemma_insert_all_dom(m, pk, vals, kb);
        if exists|i: int| 0 <= i < pk.len() && (#[trigger] pk[i]).key_bytes() == kb {
            let i = choose|i: int| 0 <= i < pk.len() && (#[trigger] pk[i]).key_bytes() == kb;
            assert(keys[i] == pk[i]);
        }
        if exists|i: int| 0 <= i < keys.len() && (#[trigger] keys[i]).key_bytes() == kb {
            let i = choose|i: int| 0 <= i < keys.len() && (#[trigger] keys[i]).key_bytes() == kb;
            if i < pk.len() {
                assert(keys[i] == pk[i]);
            }
        }
    }
}

/// Inserting the same key twice leaves the number of entries as the first
/// insertion left it, and the key bound to the second value.
pub proof fn law_overwrite<V>(m: Map<Seq<u8>, V>, kb: Seq<u8>, v1: V, v2: V)
    requires
        m.dom().finite(),
    ensures
        m.insert(kb, v1).insert(kb, v2).len() == m.insert(kb, v1).len(),
        m.insert(kb, v1).insert(kb, v2).contains_key(kb),
        m.insert(kb, v1).insert(kb, v2)[kb] == v2,
{
    assert(m.insert(kb, v1).insert(kb, v2).dom() =~= m.insert(kb, v1).dom());
}

/// A removed key is absent, and removing or looking up an absent key
/// leaves the table as it was.
pub proof fn law_absent<V>(m: Map<Seq<u8>, V>, kb: Seq<u8>)
    ensures
        !m.remove(kb).contains_key(kb),
        !m.contains_key(kb) ==> m.remove(kb) == m,
{
    if !m.contains_key(kb) {
        assert(m.remove(kb) =~= m);
    }
}

/// After any sequence of operations on an empty table, its entries are
/// bound exactly to the keys inserted and not removed since, so the number
/// of entries is the number of those keys.
pub proof fn law_size_accounting<K: TableKey, V>(ops: Seq<Op<K, V>>)
    ensures
        apply_ops(Map::empty(), ops).dom() == live_keys(ops),
        live_keys(ops).finite(),
        apply_ops(Map::empty(), ops).len() == live_keys(ops).len(),
    decreases ops.len(),
{
    if ops.len() > 0 {
        law_size_accounting(ops.drop_last());
        let prev = apply_ops(Map::<Seq<u8>, V>::empty(), ops.drop_last());
        match ops.last() {
            Op::Insert(k, v) => {
                assert(prev.insert(k.key_bytes(), v).dom() =~= prev.dom().insert(k.key_bytes()));
            },
            Op::Remove(k) => {
                assert(prev.remove(k.key_bytes()).dom() =~= prev.dom().remove(k.key_bytes()));
            },
        }
    }
}

/// A table has at least two slots for each entry, and its number of slots
/// is the initial capacity times a power of two.
pub proof fn law_capacity<K: TableKey, V>(t: &HashTable<K, V>)
    requires
        t.wf(),
    ensures
        2 * t@.len() <= t.spec_capacity(),
        exists|e: nat| t.spec_capacity() == INITIAL_CAPACITY * #[trigger] pow2(e),
{
    t.lemma_capacity();
    lemma_grown_is_power(t.spec_capacity());
}

proof fn lemma_grown_is_power(c: nat)
    requires
        grown_capacity(c),
    ensures
        exists|e: nat| c == INITIAL_CAPACITY * #[trigger] pow2(e),
    decreases c,
{
    if c <= INITIAL_CAPACITY {
        lemma2_to64();
        assert(c == INITIAL_CAPACITY * pow2(0));
    } else {
        lemma_grown_is_power(c / 2);
        let e = choose|e: nat| c / 2 == INITIAL_CAPACITY * #[trigger] pow2(e);
        lemma_pow2_unfold(e + 1);
        assert(c == INITIAL_CAPACITY * pow2(e + 1));
    }
}

} // verus!
