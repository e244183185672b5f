//! Laws of the table's operations, stated over the map of entries that their contracts
//! speak of: `insert` turns `m` into `m.insert(k, v)`, `delete` turns it into
//! `m.remove(k)`, and `get` returns `lookup(m, k)`, whatever resizing happens inside.

use vstd::prelude::*;

use crate::table::lookup;

verus! {

/// The entries in order, as a run of `insert` calls adds them to `m`.
pub open spec fn insert_all<T>(m: Map<u64, T>, entries: Seq<(u64, T)>) -> Map<u64, T>
    decreases entries.len(),
{
    if entries.len() == 0 {
        m
    } else {
        insert_all(m, entries.drop_last()).insert(entries.last().0, entries.last().1)
    }
}

/// `m` after a run of `delete` calls on `keys`, in order.
pub open spec fn delete_all<T>(m: Map<u64, T>, keys: Seq<u64>) -> Map<u64, T>
    decreases keys.len(),
{
    if keys.len() == 0 {
        m
    } else {
        delete_all(m, keys.drop_last()).remove(keys.last())
    }
}

/// No key occurs twice among the entries.
pub open spec fn distinct_keys<T>(entries: Seq<(u64, T)>) -> bool {
    forall|i: int, j: int|
        0 <= i < entries.len() && 0 <= j < entries.len() && entries[i].0 == entries[j].0 ==> i == j
}

/// The keys of the entries, last inserted first.
pub open spec fn keys_reversed<T>(entries: Seq<(u64, T)>) -> Seq<u64> {
    Seq::new(entries.len(), |i: int| entries[entries.len() - 1 - i].0)
}

/// After `insert(k, v)`, `get(k)` returns `v`.
pub proof fn law_insert_then_get<T>(m: Map<u64, T>, k: u64, v: T)
    ensures
        lookup(m.insert(k, v), k) == Some(v),
{
}

/// After `insert(k, v)` and then `delete(k)`, `get(k)` finds nothing.
pub proof fn law_delete_then_get<T>(m: Map<u64, T>, k: u64, v: T)
    ensures
        lookup(m.insert(k, v).remove(k), k) == None::<T>,
{
}

/// After `insert(k, v1)`, a second `insert(k, v2)` returns `v1`, leaves `get(k)` at
/// `v2`, and does not change the count.
pub proof fn law_overwrite<T>(m: Map<u64, T>, k: u64, v1: T, v2: T)
    requires
        m.dom().finite(),
    ensures
        lookup(m.insert(k, v1), k) == Some(v1),
        lookup(m.insert(k, v1).insert(k, v2), k) == Some(v2),
        m.insert(k, v1).insert(k, v2).len() == m.insert(k, v1).len(),
{
    assert(m.insert(k, v1).insert(k, v2).dom() =~= m.insert(k, v1).dom());
}

/// Inserting entries with distinct keys, then reading them back, returns each value,
/// however many times the table grew in between.
pub proof fn law_round_trip<T>(m: Map<u64, T>, entries: Seq<(u64, T)>, i: int)
    requires
        distinct_keys(entries),
        0 <= i < entries.len(),
    ensures
        lookup(insert_all(m, entries), entries[i].0) == Some(entries[i].1),
    decreases entries.len(),
{
    let last = entries.len() - 1;
    if i < last {
        let prefix = entries.drop_last();
        assert(distinct_keys(prefix));
        law_round_trip(m, prefix, i);
        assert(entries[i].0 != entries[last].0);
        assert(prefix[i] == entries[i]);
    }
}

/// After inserting entries with distinct keys into an empty table, the count is the
/// number of entries.
pub proof fn law_count_after_inserts<T>(entries: Seq<(u64, T)>)
    requires
        distinct_keys(entries),
    ensures
        insert_all(Map::<u64, T>::empty(), entries).dom().finite(),
        insert_all(Map::<u64, T>::empty(), entries).len() == entries.len(),
    decreases entries.len(),
{
    if entries.len() > 0 {
        let prefix = entries.drop_last();
        let last = entries.last();
        assert(distinct_keys(prefix));
        law_count_after_inserts(prefix);
        let m = insert_all(Map::<u64, T>::empty(), prefix);
        lemma_insert_all_keys(Map::<u64, T>::empty(), prefix, last.0);
        if m.contains_key(last.0) {
            let j = choose|j: int| 0 <= j < prefix.len() && prefix[j].0 == last.0;
            assert(entries[j].0 == entries[entries.len() - 1].0);
        }
        assert(m.insert(last.0, last.1).dom() == m.dom().insert(last.0));
    }
}

/// After the inserts, a key that none of the entries has is absent.
pub proof fn law_round_trip_absent<T>(entries: Seq<(u64, T)>, k: u64)
    requires
        forall|j: int| 0 <= j < entries.len() ==> #[trigger] entries[j].0 != k,
    ensures
        lookup(insert_all(Map::<u64, T>::empty(), entries), k) == None::<T>,
{
    lemma_insert_all_keys(Map::<u64, T>::empty(), entries, k);
}

/// After the inserts, deleting keys (and so shrinking the table) leaves every other
/// entry readable with its value.
pub proof fn law_round_trip_after_deletes<T>(
    m: Map<u64, T>,
    entries: Seq<(u64, T)>,
    keys: Seq<u64>,
    i: int,
)
    requires
        distinct_keys(entries),
        0 <= i < entries.len(),
        !keys.contains(entries[i].0),
    ensures
        lookup(delete_all(insert_all(m, entries), keys), entries[i].0) == Some(entries[i].1),
    decreases keys.len(),
{
    if keys.len() == 0 {
        law_round_trip(m, entries, i);
    } else {
        let prefix = keys.drop_last();
        assert(!prefix.contains(entries[i].0)) by {
            if prefix.contains(entries[i].0) {
                let j = choose|j: int| 0 <= j < prefix.len() && prefix[j] == entries[i].0;
                assert(keys[j] == entries[i].0);
            }
        }
        law_round_trip_after_deletes(m, entries, prefix, i);
        assert(keys[keys.len() - 1] != entries[i].0);
    }
}

/// The keys of `insert_all(m, entries)` are those of `m` and of the entries.
proof fn lemma_insert_all_keys<T>(m: Map<u64, T>, entries: Seq<(u64, T)>, k: u64)
    ensures
        insert_all(m, entries).contains_key(k) <==> (m.contains_key(k) || exists|j: int|
            0 <= j < entries.len() && entries[j].0 == k),
    decreases entries.len(),
{
    if entries.len() > 0 {
        let prefix = entries.drop_last();
        lemma_insert_all_keys(m, prefix, k);
        if exists|j: int| 0 <= j < prefix.len() && prefix[j].0 == k {
            let j = choose|j: int| 0 <= j < prefix.len() && prefix[j].0 == k;
            assert(entries[j].0 == k);
        }
        if exists|j: int| 0 <= j < entries.len() && entries[j].0 == k {
            let j = choose|j: int| 0 <= j < entries.len() && entries[j].0 == k;
            if j < prefix.len() {
                assert(prefix[j].0 == k);
            }
        }
    }
}

/// The keys of `delete_all(m, keys)` are those of `m` less `keys`.
proof fn lemma_delete_all_keys<T>(m: Map<u64, T>, keys: Seq<u64>, k: u64)
    ensures
        delete_all(m, keys).contains_key(k) <==> (m.contains_key(k) && !keys.contains(k)),
    decreases keys.len(),
{
    if keys.len() > 0 {
        let prefix = keys.drop_last();
        lemma_delete_all_keys(m, prefix, k);
        if prefix.contains(k) {
            let j = choose|j: int| 0 <= j < prefix.len() && prefix[j] == k;
            assert(keys[j] == k);
        }
        if keys.contains(k) && k != keys.last() {
            let j = choose|j: int| 0 <= j < keys.len() && keys[j] == k;
            assert(prefix[j] == k);
        }
    }
}

/// Deleting every inserted key, last inserted first, empties a table that started
/// empty.
pub proof fn law_delete_all_inserted<T>(entries: Seq<(u64, T)>)
    ensures
        delete_all(insert_all(Map::<u64, T>::empty(), entries), keys_reversed(entries))
            == Map::<u64, T>::empty(),
{
    let full = insert_all(Map::<u64, T>::empty(), entries);
    let keys = keys_reversed(entries);
    assert forall|k: u64| !#[trigger] delete_all(full, keys).contains_key(k) by {
        lemma_delete_all_keys(full, keys, k);
        lemma_insert_all_keys(Map::<u64, T>::empty(), entries, k);
        if exists|j: int| 0 <= j < entries.len() && entries[j].0 == k {
            let j = choose|j: int| 0 <= j < entries.len() && entries[j].0 == k;
            assert(keys[entries.len() - 1 - j] == k);
        }
    }
    assert(delete_all(full, keys) =~= Map::<u64, T>::empty());
}

} // verus!
