//! What holds of the map across several operations.
//!
//! Each law speaks of tables before and after an operation, related by the
//! predicate that the operation itself promises (`inserted`, `removed`,
//! `rewritten`), and of what lookups then see.

use crate::bucket::helpers::{
    lemma_probe_first_all, lemma_probe_first_at, lemma_probe_first_reaches, probe_index,
    probe_step,
};
use crate::bucket::model::{
    at_limit, distinct_keys, entries_of, has_key, lookup, value_of, well_formed,
};
use crate::bucket::model::{
    lemma_absent, lemma_cloned_items, lemma_found_at, lemma_set_value, slot_of,
};
use crate::bucket::{
    all_empty, key_hits, room_hits, slots_cloned, Bucket, BucketStore, OptionBucket,
};
use crate::hash::Hasher;
use crate::kv::{Key, Value};
use crate::{InsertError, PrimitiveMap};
use vstd::prelude::*;

verus! {

/// Two tables agree on `key`: slot by slot, their buckets hold it or not
/// alike, and where they hold it, with the same value.
pub open spec fn same_on_key<K: Key, V: Value, B: Bucket<K, V>>(
    a: Seq<B>,
    b: Seq<B>,
    key: K,
) -> bool {
    &&& a.len() == b.len()
    &&& forall|i: int|
        0 <= i < a.len() ==> {
            &&& has_key(#[trigger] a[i].items(), key) == has_key(b[i].items(), key)
            &&& has_key(a[i].items(), key) ==> value_of(a[i].items(), key) == value_of(
                b[i].items(),
                key,
            )
        }
}

/// Lookups of a key see the same in two tables that agree on it.
pub proof fn lemma_same_on_key<K, V, B, BL, H>(
    a: PrimitiveMap<K, V, B, BL, H>,
    b: PrimitiveMap<K, V, B, BL, H>,
    key: K,
) where K: Key, V: Value, B: Bucket<K, V> + 'static, BL: BucketStore<K, V, B>, H: Hasher<K>
    requires
        a.wf(),
        same_on_key(a.slots(), b.slots(), key),
    ensures
        a.home(key) == b.home(key),
        a.holder(key) == b.holder(key),
        a@.contains_key(key) == b@.contains_key(key),
        a@.contains_key(key) ==> a@[key] == b@[key],
{
    a.lemma_slots_in_range(key);
    assert forall|i: int| 0 <= i < a.slots().len() implies key_hits(a.slots(), key)[i]
        == key_hits(b.slots(), key)[i] by {
        assert(has_key(a.slots()[i].items(), key) == has_key(b.slots()[i].items(), key));
    }
    assert(key_hits(a.slots(), key) =~= key_hits(b.slots(), key));
    if a.holder(key).is_some() {
        let i = a.holder(key).unwrap();
        assert(has_key(a.slots()[i].items(), key));
    }
}

/// Every key that some bucket of the table holds is a key that lookups see:
/// the walk from the key's address goes round the whole table, so it meets
/// a bucket that holds the key.
pub proof fn law_stored_key_is_seen<K, V, B, BL, H>(
    table: PrimitiveMap<K, V, B, BL, H>,
    slot: int,
    key: K,
) where K: Key, V: Value, B: Bucket<K, V> + 'static, BL: BucketStore<K, V, B>, H: Hasher<K>
    requires
        table.wf(),
        0 <= slot < table.slots().len(),
        has_key(table.slots()[slot].items(), key),
    ensures
        table@.contains_key(key),
{
    table.lemma_slots_in_range(key);
    let n = table.slots().len() as int;
    let home = table.home(key);
    let step = probe_step(home, n, slot);
    assert(probe_index(home, n, step) == slot);
    assert(key_hits(table.slots(), key)[probe_index(home, n, step)]);
    lemma_probe_first_reaches(key_hits(table.slots(), key), home, 0, step);
}

/// An insert leaves what lookups see under every other key as it was.
pub proof fn law_insert_keeps_other_keys<K, V, B, BL, H>(
    before: PrimitiveMap<K, V, B, BL, H>,
    key: K,
    value: V,
    after: PrimitiveMap<K, V, B, BL, H>,
    outcome: Result<Option<V>, InsertError>,
    other: K,
) where K: Key, V: Value, B: Bucket<K, V> + 'static, BL: BucketStore<K, V, B>, H: Hasher<K>
    requires
        before.wf(),
        before.inserted(key, value, after, outcome),
        other != key,
    ensures
        after@.contains_key(other) == before@.contains_key(other),
        before@.contains_key(other) ==> after@[other] == before@[other],
{
    before.lemma_slots_in_range(key);
    match before.vacancy(key) {
        Some(i) => {
            assert forall|j: int| 0 <= j < before.slots().len() implies {
                &&& has_key(#[trigger] before.slots()[j].items(), other) == has_key(
                    after.slots()[j].items(),
                    other,
                )
                &&& has_key(before.slots()[j].items(), other) ==> value_of(
                    before.slots()[j].items(),
                    other,
                ) == value_of(after.slots()[j].items(), other)
            } by {
                if j == i {
                    let was = entries_of(before.slots()[i].items());
                    let now = entries_of(after.slots()[i].items());
                    assert(now == was.insert(key, value));
                    assert(now.contains_key(other) == was.contains_key(other));
                    if was.contains_key(other) {
                        assert(now[other] == was[other]);
                    }
                } else {
                    assert(after.slots()[j] == before.slots()[j]);
                }
            }
            lemma_same_on_key(before, after, other);
        },
        None => {
            lemma_same_on_key(before, after, other);
        },
    }
}

/// An insert that fails changes nothing that lookups see.
pub proof fn law_failed_insert_changes_nothing<K, V, B, BL, H>(
    before: PrimitiveMap<K, V, B, BL, H>,
    key: K,
    value: V,
    after: PrimitiveMap<K, V, B, BL, H>,
    outcome: Result<Option<V>, InsertError>,
) where K: Key, V: Value, B: Bucket<K, V> + 'static, BL: BucketStore<K, V, B>, H: Hasher<K>
    requires
        before.wf(),
        before.inserted(key, value, after, outcome),
        outcome.is_err(),
    ensures
        outcome == Err::<Option<V>, InsertError>(InsertError::CapacityExhausted),
        after.slots() == before.slots(),
        after@ == before@,
        forall|i: int|
            0 <= i < before.slots().len() ==> at_limit(
                (#[trigger] before.slots()[i]).items(),
                B::limit(),
            ),
{
    before.lemma_slots_in_range(key);
    lemma_probe_first_all(room_hits(before.slots()), before.home(key));
    assert forall|i: int| 0 <= i < before.slots().len() implies at_limit(
        (#[trigger] before.slots()[i]).items(),
        B::limit(),
    ) by {
        assert(!room_hits(before.slots())[i]);
    }
    assert forall|k: K| #[trigger] after@.dom().contains(k) == before@.dom().contains(k) by {
        lemma_same_on_key(before, after, k);
    }
    assert forall|k: K| after@.dom().contains(k) implies #[trigger] after@[k] == before@[k] by {
        lemma_same_on_key(before, after, k);
    }
    assert(after@ =~= before@);
}

/// Round trip, one step: a key that lookups did not see is, once inserted,
/// seen with the inserted value, and every other key is seen as before.
pub proof fn law_insert_new_key<K, V, B, BL, H>(
    before: PrimitiveMap<K, V, B, BL, H>,
    key: K,
    value: V,
    after: PrimitiveMap<K, V, B, BL, H>,
    outcome: Result<Option<V>, InsertError>,
) where K: Key, V: Value, B: Bucket<K, V> + 'static, BL: BucketStore<K, V, B>, H: Hasher<K>
    requires
        before.wf(),
        before.inserted(key, value, after, outcome),
        outcome.is_ok(),
        !before@.contains_key(key),
    ensures
        outcome == Ok::<Option<V>, InsertError>(None),
        after@ == before@.insert(key, value),
{
    before.lemma_slots_in_range(key);
    let n = before.slots().len() as int;
    let home = before.home(key);
    let i = before.vacancy(key).unwrap();
    // No bucket held the key.
    lemma_probe_first_all(key_hits(before.slots(), key), home);
    assert forall|j: int| 0 <= j < n implies !has_key(
        (#[trigger] before.slots()[j]).items(),
        key,
    ) by {
        assert(!key_hits(before.slots(), key)[j]);
    }
    assert(!has_key(before.slots()[i].items(), key));
    // Now the bucket at the vacancy holds it, and no other does.
    let now = entries_of(after.slots()[i].items());
    assert(now == entries_of(before.slots()[i].items()).insert(key, value));
    assert(now.contains_key(key) && now[key] == value);
    assert(has_key(after.slots()[i].items(), key));
    let hits = key_hits(after.slots(), key);
    assert forall|j: int| 0 <= j < n implies hits[j] == (j == i) by {
        if j != i {
            assert(after.slots()[j] == before.slots()[j]);
            assert(!has_key(before.slots()[j].items(), key));
        }
    }
    let step = if i >= home {
        i - home
    } else {
        i + n - home
    };
    assert(probe_index(home, n, step) == i);
    assert forall|j: int| 0 <= j < step implies !#[trigger] hits[probe_index(home, n, j)] by {
        assert(probe_index(home, n, j) != i);
    }
    lemma_probe_first_at(hits, home, 0, step);
    assert(after.home(key) == home);
    assert(after.holder(key) == Some(i));
    assert(after@.contains_key(key));
    assert(after@[key] == value);
    let expected = before@.insert(key, value);
    assert forall|k: K| #[trigger] after@.dom().contains(k) == expected.dom().contains(k) by {
        if k != key {
            law_insert_keeps_other_keys(before, key, value, after, outcome, k);
        }
    }
    assert forall|k: K| after@.dom().contains(k) implies #[trigger] after@[k] == expected[k] by {
        if k != key {
            law_insert_keeps_other_keys(before, key, value, after, outcome, k);
        }
    }
    assert(after@ =~= expected);
}

/// A removal leaves what lookups see under every other key as it was, and
/// leaves the table well formed.
pub proof fn law_remove_keeps_other_keys<K, V, B, BL, H>(
    before: PrimitiveMap<K, V, B, BL, H>,
    key: K,
    after: PrimitiveMap<K, V, B, BL, H>,
    outcome: Option<V>,
    other: K,
) where K: Key, V: Value, B: Bucket<K, V> + 'static, BL: BucketStore<K, V, B>, H: Hasher<K>
    requires
        before.wf(),
        before.removed(key, after, outcome),
        other != key,
    ensures
        after.wf(),
        after@.contains_key(other) == before@.contains_key(other),
        before@.contains_key(other) ==> after@[other] == before@[other],
{
    before.lemma_slots_in_range(key);
    match before.holder(key) {
        Some(i) => {
            assert forall|j: int| 0 <= j < before.slots().len() implies {
                &&& has_key(#[trigger] before.slots()[j].items(), other) == has_key(
                    after.slots()[j].items(),
                    other,
                )
                &&& has_key(before.slots()[j].items(), other) ==> value_of(
                    before.slots()[j].items(),
                    other,
                ) == value_of(after.slots()[j].items(), other)
            } by {
                if j == i {
                    let was = entries_of(before.slots()[i].items());
                    let now = entries_of(after.slots()[i].items());
                    assert(now == was.remove(key));
                    assert(now.contains_key(other) == was.contains_key(other));
                    if was.contains_key(other) {
                        assert(now[other] == was[other]);
                    }
                } else {
                    assert(after.slots()[j] == before.slots()[j]);
                }
            }
            assert forall|j: int| 0 <= j < after.slots().len() implies well_formed(
                (#[trigger] after.slots()[j]).items(),
                B::limit(),
            ) by {
                if j != i {
                    assert(after.slots()[j] == before.slots()[j]);
                }
            }
            lemma_same_on_key(before, after, other);
        },
        None => {
            lemma_same_on_key(before, after, other);
        },
    }
}

/// Where a single bucket holds a key, removing the key takes it out of what
/// lookups see.
pub proof fn law_remove_takes_key<K, V, B, BL, H>(
    before: PrimitiveMap<K, V, B, BL, H>,
    key: K,
    after: PrimitiveMap<K, V, B, BL, H>,
    outcome: Option<V>,
) where K: Key, V: Value, B: Bucket<K, V> + 'static, BL: BucketStore<K, V, B>, H: Hasher<K>
    requires
        before.wf(),
        before.removed(key, after, outcome),
        forall|j: int|
            0 <= j < before.slots().len() && Some(j) != before.holder(key) ==> !has_key(
                (#[trigger] before.slots()[j]).items(),
                key,
            ),
    ensures
        after@ == before@.remove(key),
{
    before.lemma_slots_in_range(key);
    let n = before.slots().len() as int;
    assert forall|j: int| 0 <= j < n implies !#[trigger] key_hits(after.slots(), key)[j] by {
        if Some(j) == before.holder(key) {
            let now = entries_of(after.slots()[j].items());
            assert(now == entries_of(before.slots()[j].items()).remove(key));
            assert(!now.contains_key(key));
        } else {
            assert(!has_key(before.slots()[j].items(), key));
            assert(after.slots()[j] == before.slots()[j]);
        }
    }
    lemma_probe_first_all(key_hits(after.slots(), key), before.home(key));
    assert(after.home(key) == before.home(key));
    assert(!after@.contains_key(key));
    let expected = before@.remove(key);
    assert forall|k: K| #[trigger] after@.dom().contains(k) == expected.dom().contains(k) by {
        if k != key {
            law_remove_keeps_other_keys(before, key, after, outcome, k);
        }
    }
    assert forall|k: K| after@.dom().contains(k) implies #[trigger] after@[k] == expected[k] by {
        if k != key {
            law_remove_keeps_other_keys(before, key, after, outcome, k);
        }
    }
    assert(after@ =~= expected);
}

/// Writing a value through a reference handed out for a key changes what
/// lookups see under that key to the value written, and nothing else.
pub proof fn law_rewrite_sets_value<K, V, B, BL, H>(
    before: PrimitiveMap<K, V, B, BL, H>,
    key: K,
    value: V,
    after: PrimitiveMap<K, V, B, BL, H>,
) where K: Key, V: Value, B: Bucket<K, V> + 'static, BL: BucketStore<K, V, B>, H: Hasher<K>
    requires
        before.wf(),
        before@.contains_key(key),
        before.rewritten(key, value, after),
    ensures
        after.wf(),
        after@ == before@.insert(key, value),
{
    before.lemma_slots_in_range(key);
    let n = before.slots().len() as int;
    let i = before.holder(key).unwrap();
    let items = before.slots()[i].items();
    let at = slot_of(items, key);
    assert(has_key(items, key));
    assert(items[at].0 == key);
    lemma_set_value(items, at, value);
    let now = after.slots()[i].items();
    assert(now == items.update(at, (key, value)));
    assert(entries_of(now) == entries_of(items).insert(key, value));
    assert forall|j: int| 0 <= j < after.slots().len() implies well_formed(
        (#[trigger] after.slots()[j]).items(),
        B::limit(),
    ) by {
        if j != i {
            assert(after.slots()[j] == before.slots()[j]);
        }
    }
    assert forall|k: K, j: int| 0 <= j < n implies {
        &&& has_key(#[trigger] before.slots()[j].items(), k) == #[trigger] has_key(
            after.slots()[j].items(),
            k,
        )
        &&& k != key && has_key(before.slots()[j].items(), k) ==> value_of(
            before.slots()[j].items(),
            k,
        ) == value_of(after.slots()[j].items(), k)
    } by {
        if j == i {
            assert(entries_of(now).contains_key(k) == entries_of(items).contains_key(k));
            if k != key && entries_of(items).contains_key(k) {
                assert(entries_of(now)[k] == entries_of(items)[k]);
            }
        } else {
            assert(after.slots()[j] == before.slots()[j]);
        }
    }
    assert forall|j: int| 0 <= j < n implies key_hits(before.slots(), key)[j] == key_hits(
        after.slots(),
        key,
    )[j] by {
        assert(has_key(before.slots()[j].items(), key) == has_key(after.slots()[j].items(), key));
    }
    assert(key_hits(before.slots(), key) =~= key_hits(after.slots(), key));
    assert(after.home(key) == before.home(key));
    assert(after.holder(key) == Some(i));
    assert(entries_of(now)[key] == value);
    let expected = before@.insert(key, value);
    assert forall|k: K| k != key implies #[trigger] same_on_key(
        before.slots(),
        after.slots(),
        k,
    ) by {
        assert forall|j: int| 0 <= j < n implies {
            &&& has_key(#[trigger] before.slots()[j].items(), k) == has_key(
                after.slots()[j].items(),
                k,
            )
            &&& has_key(before.slots()[j].items(), k) ==> value_of(before.slots()[j].items(), k)
                == value_of(after.slots()[j].items(), k)
        } by {
            assert(has_key(before.slots()[j].items(), k) == has_key(
                after.slots()[j].items(),
                k,
            ));
        }
    }
    assert forall|k: K| #[trigger] after@.dom().contains(k) == expected.dom().contains(k) by {
        if k != key {
            assert(same_on_key(before.slots(), after.slots(), k));
            lemma_same_on_key(before, after, k);
        }
    }
    assert forall|k: K| after@.dom().contains(k) implies #[trigger] after@[k] == expected[k] by {
        if k != key {
            assert(same_on_key(before.slots(), after.slots(), k));
            lemma_same_on_key(before, after, k);
        }
    }
    assert(after@ =~= expected);
}

/// An insert leaves a well-formed table well formed.
pub proof fn lemma_inserted_wf<K, V, B, BL, H>(
    before: PrimitiveMap<K, V, B, BL, H>,
    key: K,
    value: V,
    after: PrimitiveMap<K, V, B, BL, H>,
    outcome: Result<Option<V>, InsertError>,
) where K: Key, V: Value, B: Bucket<K, V> + 'static, BL: BucketStore<K, V, B>, H: Hasher<K>
    requires
        before.wf(),
        before.inserted(key, value, after, outcome),
    ensures
        after.wf(),
        after.slots().len() == before.slots().len(),
        forall|k: K| after.home(k) == before.home(k),
{
    before.lemma_slots_in_range(key);
    match before.vacancy(key) {
        Some(i) => {
            assert forall|j: int| 0 <= j < after.slots().len() implies well_formed(
                (#[trigger] after.slots()[j]).items(),
                B::limit(),
            ) by {
                if j != i {
                    assert(after.slots()[j] == before.slots()[j]);
                }
            }
        },
        None => {},
    }
}

/// Upsert overwrite: where the bucket that answers for a key is also the one
/// that takes an insert of it, inserting the key again hands back the value
/// stored before, and lookups then see the new value.
///
/// The condition holds after any insert into a table of buckets without a
/// bound. It fails where the bucket that took the key has reached its bound:
/// a second insert then goes to a later bucket, and lookups keep seeing the
/// first value.
pub proof fn law_upsert_overwrite<K, V, B, BL, H>(
    before: PrimitiveMap<K, V, B, BL, H>,
    key: K,
    value: V,
    after: PrimitiveMap<K, V, B, BL, H>,
    outcome: Result<Option<V>, InsertError>,
) where K: Key, V: Value, B: Bucket<K, V> + 'static, BL: BucketStore<K, V, B>, H: Hasher<K>
    requires
        before.wf(),
        before@.contains_key(key),
        before.vacancy(key) == before.holder(key),
        before.inserted(key, value, after, outcome),
    ensures
        outcome == Ok::<Option<V>, InsertError>(Some(before@[key])),
        after@ == before@.insert(key, value),
{
    before.lemma_slots_in_range(key);
    lemma_inserted_wf(before, key, value, after, outcome);
    let n = before.slots().len() as int;
    let home = before.home(key);
    let i = before.holder(key).unwrap();
    let items = before.slots()[i].items();
    assert(has_key(items, key));
    assert(lookup(items, key) == Some(before@[key]));
    // The bucket still holds the key, now with the new value, and it is
    // still the first on the walk to hold it.
    let now = entries_of(after.slots()[i].items());
    assert(now == entries_of(items).insert(key, value));
    assert(now.contains_key(key) && now[key] == value);
    assert(has_key(after.slots()[i].items(), key));
    let was_hits = key_hits(before.slots(), key);
    let hits = key_hits(after.slots(), key);
    assert forall|j: int| 0 <= j < n implies hits[j] == was_hits[j] by {
        if j != i {
            assert(after.slots()[j] == before.slots()[j]);
        }
    }
    assert(hits =~= was_hits);
    assert(after.holder(key) == Some(i));
    let expected = before@.insert(key, value);
    assert forall|k: K| #[trigger] after@.dom().contains(k) == expected.dom().contains(k) by {
        if k != key {
            law_insert_keeps_other_keys(before, key, value, after, outcome, k);
        }
    }
    assert forall|k: K| after@.dom().contains(k) implies #[trigger] after@[k] == expected[k] by {
        if k != key {
            law_insert_keeps_other_keys(before, key, value, after, outcome, k);
        }
    }
    assert(after@ =~= expected);
}

/// In a table of buckets without a bound, the bucket at a key's address both
/// takes every insert of the key and answers for it once it holds it: a key
/// inserted twice is overwritten.
pub proof fn law_upsert_overwrite_unbounded<K, V, B, BL, H>(
    start: PrimitiveMap<K, V, B, BL, H>,
    key: K,
    first: V,
    before: PrimitiveMap<K, V, B, BL, H>,
    first_outcome: Result<Option<V>, InsertError>,
    second: V,
    after: PrimitiveMap<K, V, B, BL, H>,
    second_outcome: Result<Option<V>, InsertError>,
) where K: Key, V: Value, B: Bucket<K, V> + 'static, BL: BucketStore<K, V, B>, H: Hasher<K>
    requires
        start.wf(),
        B::limit().is_none(),
        start.inserted(key, first, before, first_outcome),
        before.inserted(key, second, after, second_outcome),
    ensures
        first_outcome.is_ok(),
        second_outcome == Ok::<Option<V>, InsertError>(Some(first)),
        after@.contains_key(key),
        after@[key] == second,
{
    start.lemma_slots_in_range(key);
    lemma_inserted_wf(start, key, first, before, first_outcome);
    before.lemma_slots_in_range(key);
    let home = start.home(key);
    assert(before.home(key) == home);
    // The bucket at the address has room, before and after.
    assert(room_hits(start.slots())[probe_index(home, start.slots().len() as int, 0)]);
    lemma_probe_first_at(room_hits(start.slots()), home, 0, 0);
    assert(start.vacancy(key) == Some(home));
    assert(room_hits(before.slots())[probe_index(home, before.slots().len() as int, 0)]);
    lemma_probe_first_at(room_hits(before.slots()), home, 0, 0);
    assert(before.vacancy(key) == Some(home));
    // After the first insert it holds the key with the first value.
    let now = entries_of(before.slots()[home].items());
    assert(now == entries_of(start.slots()[home].items()).insert(key, first));
    assert(now.contains_key(key) && now[key] == first);
    assert(has_key(before.slots()[home].items(), key));
    assert(key_hits(before.slots(), key)[probe_index(home, before.slots().len() as int, 0)]);
    lemma_probe_first_at(key_hits(before.slots(), key), home, 0, 0);
    assert(before.holder(key) == Some(home));
    assert(before@[key] == first);
    law_upsert_overwrite(before, key, second, after, second_outcome);
}

/// `states` is what a table goes through while `entries` are inserted one
/// after the other, with `outcomes` what the inserts hand back.
pub open spec fn insert_run<K, V, B, BL, H>(
    states: Seq<PrimitiveMap<K, V, B, BL, H>>,
    entries: Seq<(K, V)>,
    outcomes: Seq<Result<Option<V>, InsertError>>,
) -> bool where
    K: Key,
    V: Value,
    B: Bucket<K, V> + 'static,
    BL: BucketStore<K, V, B>,
    H: Hasher<K>,
 {
    &&& states.len() == entries.len() + 1
    &&& outcomes.len() == entries.len()
    &&& forall|i: int|
        0 <= i < entries.len() ==> (#[trigger] states[i]).inserted(
            entries[i].0,
            entries[i].1,
            states[i + 1],
            outcomes[i],
        )
}

/// Round trip: after any run of inserts that all succeed, of keys that differ
/// from each other and that lookups did not see before, lookups see every
/// inserted key with its value, and see every other key as before the run.
pub proof fn law_round_trip<K, V, B, BL, H>(
    states: Seq<PrimitiveMap<K, V, B, BL, H>>,
    entries: Seq<(K, V)>,
    outcomes: Seq<Result<Option<V>, InsertError>>,
) where K: Key, V: Value, B: Bucket<K, V> + 'static, BL: BucketStore<K, V, B>, H: Hasher<K>
    requires
        insert_run(states, entries, outcomes),
        states[0].wf(),
        distinct_keys(entries),
        forall|i: int|
            0 <= i < entries.len() ==> !states[0]@.contains_key((#[trigger] entries[i]).0),
        forall|i: int| 0 <= i < outcomes.len() ==> (#[trigger] outcomes[i]).is_ok(),
    ensures
        states.last().wf(),
        forall|i: int|
            0 <= i < entries.len() ==> states.last()@.contains_key((#[trigger] entries[i]).0)
                && states.last()@[entries[i].0] == entries[i].1,
        forall|k: K|
            !has_key(entries, k) ==> (#[trigger] states.last()@.contains_key(k))
                == states[0]@.contains_key(k),
        forall|k: K|
            !has_key(entries, k) && states[0]@.contains_key(k) ==> #[trigger] states.last()@[k]
                == states[0]@[k],
    decreases entries.len(),
{
    let n = entries.len() as int;
    if n > 0 {
        let mid = states[n - 1];
        let last = states[n];
        let (key, value) = entries[n - 1];
        let earlier_states = states.drop_last();
        let earlier = entries.drop_last();
        let earlier_outcomes = outcomes.drop_last();
        assert forall|i: int| 0 <= i < earlier.len() implies (
        #[trigger] earlier_states[i]).inserted(
            earlier[i].0,
            earlier[i].1,
            earlier_states[i + 1],
            earlier_outcomes[i],
        ) by {
            assert(states[i].inserted(entries[i].0, entries[i].1, states[i + 1], outcomes[i]));
        }
        assert forall|i: int, j: int| 0 <= i < j < earlier.len() implies (#[trigger] earlier[i]).0
            != (#[trigger] earlier[j]).0 by {
            assert(entries[i].0 != entries[j].0);
        }
        assert forall|i: int| 0 <= i < earlier.len() implies !states[0]@.contains_key(
            (#[trigger] earlier[i]).0,
        ) by {
            assert(!states[0]@.contains_key(entries[i].0));
        }
        assert forall|i: int| 0 <= i < earlier_outcomes.len() implies (
        #[trigger] earlier_outcomes[i]).is_ok() by {
            assert(outcomes[i].is_ok());
        }
        law_round_trip(earlier_states, earlier, earlier_outcomes);
        assert(earlier_states.last() == mid);
        // The last key is new to the table that the earlier inserts left.
        assert(!has_key(earlier, key)) by {
            if has_key(earlier, key) {
                let i = choose|i: int| 0 <= i < earlier.len() && (#[trigger] earlier[i]).0 == key;
                assert(entries[i].0 != entries[n - 1].0);
            }
        }
        assert(mid@.contains_key(key) == states[0]@.contains_key(key));
        assert(!states[0]@.contains_key(entries[n - 1].0));
        assert(mid.inserted(key, value, last, outcomes[n - 1]));
        assert(outcomes[n - 1].is_ok());
        law_insert_new_key(mid, key, value, last, outcomes[n - 1]);
        lemma_inserted_wf(mid, key, value, last, outcomes[n - 1]);
        assert forall|i: int| 0 <= i < entries.len() implies last@.contains_key(
            (#[trigger] entries[i]).0,
        ) && last@[entries[i].0] == entries[i].1 by {
            if i < n - 1 {
                assert(earlier[i] == entries[i]);
                assert(entries[i].0 != entries[n - 1].0);
                assert(mid@.contains_key(earlier[i].0));
            }
        }
        assert forall|k: K| !has_key(entries, k) implies (#[trigger] last@.contains_key(k))
            == states[0]@.contains_key(k) by {
            assert(k != key) by {
                assert(entries[n - 1].0 == key);
            }
            assert(!has_key(earlier, k)) by {
                if has_key(earlier, k) {
                    let i = choose|i: int| 0 <= i < earlier.len() && (#[trigger] earlier[i]).0 == k;
                    assert(entries[i].0 == k);
                }
            }
            assert(mid@.contains_key(k) == states[0]@.contains_key(k));
        }
        assert forall|k: K|
            !has_key(entries, k) && states[0]@.contains_key(k) implies #[trigger] last@[k]
            == states[0]@[k] by {
            assert(k != key) by {
                assert(entries[n - 1].0 == key);
            }
            assert(!has_key(earlier, k)) by {
                if has_key(earlier, k) {
                    let i = choose|i: int| 0 <= i < earlier.len() && (#[trigger] earlier[i]).0 == k;
                    assert(entries[i].0 == k);
                }
            }
            assert(mid@.contains_key(k) == states[0]@.contains_key(k));
            assert(mid@[k] == states[0]@[k]);
        }
    }
}

/// Absence: a key that lookups did not see before a run of inserts, and that
/// is not among the keys inserted, is not seen after it. Lookups in a table
/// of empty buckets see no key at all, so a key that was never inserted is absent.
pub proof fn law_never_inserted_key_is_absent<K, V, B, BL, H>(
    states: Seq<PrimitiveMap<K, V, B, BL, H>>,
    entries: Seq<(K, V)>,
    outcomes: Seq<Result<Option<V>, InsertError>>,
    key: K,
) where K: Key, V: Value, B: Bucket<K, V> + 'static, BL: BucketStore<K, V, B>, H: Hasher<K>
    requires
        insert_run(states, entries, outcomes),
        states[0].wf(),
        !states[0]@.contains_key(key) || all_empty(states[0].slots()),
        !has_key(entries, key),
    ensures
        states.last().wf(),
        !states.last()@.contains_key(key),
    decreases entries.len(),
{
    let n = entries.len() as int;
    if n == 0 {
        if all_empty(states[0].slots()) {
            states[0].lemma_empty_view();
        }
    } else {
        let mid = states[n - 1];
        let earlier_states = states.drop_last();
        let earlier = entries.drop_last();
        let earlier_outcomes = outcomes.drop_last();
        assert forall|i: int| 0 <= i < earlier.len() implies (
        #[trigger] earlier_states[i]).inserted(
            earlier[i].0,
            earlier[i].1,
            earlier_states[i + 1],
            earlier_outcomes[i],
        ) by {
            assert(states[i].inserted(entries[i].0, entries[i].1, states[i + 1], outcomes[i]));
        }
        assert(!has_key(earlier, key)) by {
            if has_key(earlier, key) {
                let i = choose|i: int| 0 <= i < earlier.len() && (#[trigger] earlier[i]).0 == key;
                assert(entries[i].0 == key);
            }
        }
        law_never_inserted_key_is_absent(earlier_states, earlier, earlier_outcomes, key);
        assert(earlier_states.last() == mid);
        assert(entries[n - 1].0 != key);
        assert(mid.inserted(entries[n - 1].0, entries[n - 1].1, states[n], outcomes[n - 1]));
        lemma_inserted_wf(mid, entries[n - 1].0, entries[n - 1].1, states[n], outcomes[n - 1]);
        law_insert_keeps_other_keys(
            mid,
            entries[n - 1].0,
            entries[n - 1].1,
            states[n],
            outcomes[n - 1],
            key,
        );
    }
}

/// A copy of a well-formed table is well formed, and lookups in it see the
/// keys of the table it was made from, each with a clone of its value.
pub proof fn law_copy_sees_the_same<K, V, B, BL, H>(
    base: PrimitiveMap<K, V, B, BL, H>,
    copy: PrimitiveMap<K, V, B, BL, H>,
    key: K,
) where K: Key, V: Value, B: Bucket<K, V> + 'static, BL: BucketStore<K, V, B>, H: Hasher<K>
    requires
        base.wf(),
        slots_cloned(base.slots(), copy.slots()),
    ensures
        copy.wf(),
        copy@.contains_key(key) == base@.contains_key(key),
        base@.contains_key(key) ==> cloned(base@[key], copy@[key]),
{
    base.lemma_slots_in_range(key);
    let n = base.slots().len() as int;
    assert forall|i: int| 0 <= i < n implies well_formed(
        (#[trigger] copy.slots()[i]).items(),
        B::limit(),
    ) by {
        lemma_cloned_items(base.slots()[i].items(), copy.slots()[i].items(), B::limit());
    }
    assert forall|i: int| 0 <= i < n implies key_hits(base.slots(), key)[i] == key_hits(
        copy.slots(),
        key,
    )[i] by {
        lemma_cloned_items(base.slots()[i].items(), copy.slots()[i].items(), B::limit());
    }
    assert(key_hits(base.slots(), key) =~= key_hits(copy.slots(), key));
    assert(copy.home(key) == base.home(key));
    if base.holder(key).is_some() {
        let i = base.holder(key).unwrap();
        lemma_cloned_items(base.slots()[i].items(), copy.slots()[i].items(), B::limit());
    }
}

/// Every key of `entries` has an address of its own in `table`.
pub open spec fn distinct_homes<K, V, B, BL, H>(
    table: PrimitiveMap<K, V, B, BL, H>,
    entries: Seq<(K, V)>,
) -> bool where
    K: Key,
    V: Value,
    B: Bucket<K, V> + 'static,
    BL: BucketStore<K, V, B>,
    H: Hasher<K>,
 {
    forall|i: int, j: int|
        0 <= i < j < entries.len() ==> table.home((#[trigger] entries[i]).0) != table.home(
            (#[trigger] entries[j]).0,
        )
}

/// Every slot of `table` is the address of the key of some entry.
pub open spec fn homes_cover<K, V, B, BL, H>(
    table: PrimitiveMap<K, V, B, BL, H>,
    entries: Seq<(K, V)>,
) -> bool where
    K: Key,
    V: Value,
    B: Bucket<K, V> + 'static,
    BL: BucketStore<K, V, B>,
    H: Hasher<K>,
 {
    forall|slot: int| 0 <= slot < table.slots().len() ==> #[trigger] is_home(table, entries, slot)
}

/// The slot `slot` is the address of the key of some entry.
pub open spec fn is_home<K, V, B, BL, H>(
    table: PrimitiveMap<K, V, B, BL, H>,
    entries: Seq<(K, V)>,
    slot: int,
) -> bool where
    K: Key,
    V: Value,
    B: Bucket<K, V> + 'static,
    BL: BucketStore<K, V, B>,
    H: Hasher<K>,
 {
    exists|i: int| 0 <= i < entries.len() && #[trigger] home_of(table, entries, i) == slot
}

/// The address in `table` of the key of the entry at position `i`.
pub open spec fn home_of<K, V, B, BL, H>(
    table: PrimitiveMap<K, V, B, BL, H>,
    entries: Seq<(K, V)>,
    i: int,
) -> int where K: Key, V: Value, B: Bucket<K, V> + 'static, BL: BucketStore<K, V, B>, H: Hasher<K> {
    table.home(entries[i].0)
}

/// In a table of single-slot buckets, an insert of a key whose address is
/// empty succeeds and puts the entry at that address.
pub proof fn lemma_insert_into_empty_home<K, V, BL, H>(
    before: PrimitiveMap<K, V, OptionBucket<K, V>, BL, H>,
    key: K,
    value: V,
    after: PrimitiveMap<K, V, OptionBucket<K, V>, BL, H>,
    outcome: Result<Option<V>, InsertError>,
) where K: Key, V: Value, BL: BucketStore<K, V, OptionBucket<K, V>>, H: Hasher<K>
    requires
        before.wf(),
        0 <= before.home(key) < before.slots().len() ==> before.slots()[before.home(
            key,
        )].is_none(),
        before.inserted(key, value, after, outcome),
    ensures
        after.wf(),
        after.slots().len() == before.slots().len(),
        outcome == Ok::<Option<V>, InsertError>(None),
        after.slots()[before.home(key)] == Some((key, value)),
        forall|j: int|
            0 <= j < before.slots().len() && j != before.home(key) ==> after.slots()[j]
                == before.slots()[j],
        forall|k: K| after.home(k) == before.home(k),
{
    before.lemma_slots_in_range(key);
    lemma_inserted_wf(before, key, value, after, outcome);
    let home = before.home(key);
    let size = before.slots().len() as int;
    assert(before.slots()[home].items().len() == 0);
    assert(room_hits(before.slots())[probe_index(home, size, 0)]);
    lemma_probe_first_at(room_hits(before.slots()), home, 0, 0);
    assert(before.vacancy(key) == Some(home));
    lemma_absent(before.slots()[home].items(), key);
    let now = after.slots()[home];
    assert(now.items() == before.slots()[home].items().push((key, value)));
    assert(now.items().len() == 1);
    assert(now.is_some());
    assert(now.items()[0] == (key, value));
}

/// In a table of single-slot buckets, lookups see an entry that lies at the
/// address of its key.
pub proof fn lemma_found_at_home<K, V, BL, H>(
    table: PrimitiveMap<K, V, OptionBucket<K, V>, BL, H>,
    key: K,
    value: V,
) where K: Key, V: Value, BL: BucketStore<K, V, OptionBucket<K, V>>, H: Hasher<K>
    requires
        table.wf(),
        0 <= table.home(key) < table.slots().len() ==> table.slots()[table.home(key)] == Some(
            (key, value),
        ),
    ensures
        table@.contains_key(key),
        table@[key] == value,
{
    table.lemma_slots_in_range(key);
    let at = table.home(key);
    let size = table.slots().len() as int;
    lemma_found_at(table.slots()[at].items(), 0);
    assert(key_hits(table.slots(), key)[probe_index(at, size, 0)]);
    lemma_probe_first_at(key_hits(table.slots(), key), at, 0, 0);
    assert(table.holder(key) == Some(at));
}

/// Saturation, filling: a table of empty single-slot buckets takes every
/// entry of a run whose keys have addresses of their own. Each entry comes to
/// lie at the address of its key, every slot that is no such address stays
/// empty, and lookups see every entry.
pub proof fn law_saturation_fill<K, V, BL, H>(
    states: Seq<PrimitiveMap<K, V, OptionBucket<K, V>, BL, H>>,
    entries: Seq<(K, V)>,
    outcomes: Seq<Result<Option<V>, InsertError>>,
) where K: Key, V: Value, BL: BucketStore<K, V, OptionBucket<K, V>>, H: Hasher<K>
    requires
        insert_run(states, entries, outcomes),
        states[0].wf(),
        all_empty(states[0].slots()),
        distinct_homes(states[0], entries),
    ensures
        states.last().wf(),
        states.last().slots().len() == states[0].slots().len(),
        forall|i: int|
            0 <= i < entries.len() ==> (#[trigger] outcomes[i]) == Ok::<Option<V>, InsertError>(
                None,
            ),
        forall|i: int|
            0 <= i < entries.len() ==> states.last().slots()[states[0].home(
                (#[trigger] entries[i]).0,
            )] == Some(entries[i]),
        forall|slot: int|
            0 <= slot < states[0].slots().len() && (forall|i: int|
                0 <= i < entries.len() ==> #[trigger] home_of(states[0], entries, i) != slot)
                ==> (#[trigger] states.last().slots()[slot]).is_none(),
        forall|i: int|
            0 <= i < entries.len() ==> states.last()@.contains_key((#[trigger] entries[i]).0)
                && states.last()@[entries[i].0] == entries[i].1,
    decreases entries.len(),
{
    let n = entries.len() as int;
    let first = states[0];
    let size = first.slots().len() as int;
    if n == 0 {
        assert forall|slot: int| 0 <= slot < size implies (
        #[trigger] first.slots()[slot]).is_none() by {
            assert(first.slots()[slot].items().len() == 0);
        }
    } else {
        let mid = states[n - 1];
        let last = states[n];
        let (key, value) = entries[n - 1];
        let earlier_states = states.drop_last();
        let earlier = entries.drop_last();
        let earlier_outcomes = outcomes.drop_last();
        assert forall|i: int| 0 <= i < earlier.len() implies (
        #[trigger] earlier_states[i]).inserted(
            earlier[i].0,
            earlier[i].1,
            earlier_states[i + 1],
            earlier_outcomes[i],
        ) by {
            assert(states[i].inserted(entries[i].0, entries[i].1, states[i + 1], outcomes[i]));
        }
        assert forall|i: int, j: int| 0 <= i < j < earlier.len() implies first.home(
            (#[trigger] earlier[i]).0,
        ) != first.home((#[trigger] earlier[j]).0) by {
            assert(first.home(entries[i].0) != first.home(entries[j].0));
        }
        law_saturation_fill(earlier_states, earlier, earlier_outcomes);
        assert(earlier_states.last() == mid);
        assert(earlier_states[0] == first);
        first.lemma_slots_in_range(key);
        // The address of the last key is still empty, so the entry goes there.
        let home = first.home(key);
        assert(mid.home(key) == home);
        assert forall|i: int| 0 <= i < earlier.len() implies #[trigger] home_of(first, earlier, i)
            != home by {
            assert(first.home(entries[i].0) != first.home(entries[n - 1].0));
        }
        assert(mid.slots()[home].is_none());
        assert(mid.inserted(key, value, last, outcomes[n - 1]));
        lemma_insert_into_empty_home(mid, key, value, last, outcomes[n - 1]);
        assert forall|i: int| 0 <= i < entries.len() implies (#[trigger] outcomes[i]) == Ok::<
            Option<V>,
            InsertError,
        >(None) by {
            if i < n - 1 {
                assert(earlier_outcomes[i] == outcomes[i]);
            }
        }
        assert forall|i: int| 0 <= i < entries.len() implies last.slots()[first.home(
            (#[trigger] entries[i]).0,
        )] == Some(entries[i]) by {
            if i < n - 1 {
                assert(earlier[i] == entries[i]);
                assert(home_of(first, earlier, i) != home);
                first.lemma_slots_in_range(entries[i].0);
                assert(last.slots()[first.home(entries[i].0)] == mid.slots()[first.home(
                    entries[i].0,
                )]);
            }
        }
        assert forall|slot: int|
            0 <= slot < size && (forall|i: int|
                0 <= i < entries.len() ==> #[trigger] home_of(first, entries, i) != slot) implies (
        #[trigger] last.slots()[slot]).is_none() by {
            assert(home_of(first, entries, n - 1) != slot);
            assert forall|i: int| 0 <= i < earlier.len() implies #[trigger] home_of(
                first,
                earlier,
                i,
            ) != slot by {
                assert(home_of(first, entries, i) != slot);
            }
            assert(mid.slots()[slot].is_none());
            assert(last.slots()[slot] == mid.slots()[slot]);
        }
        assert forall|i: int| 0 <= i < entries.len() implies last@.contains_key(
            (#[trigger] entries[i]).0,
        ) && last@[entries[i].0] == entries[i].1 by {
            assert(last.home(entries[i].0) == first.home(entries[i].0));
            lemma_found_at_home(last, entries[i].0, entries[i].1);
        }
    }
}

/// Saturation, overflow: once the keys of the run have filled every slot of
/// a table of single-slot buckets, one more insert fails with
/// `CapacityExhausted`, changes nothing, and lookups still see every entry
/// of the run.
pub proof fn law_saturation_overflow<K, V, BL, H>(
    states: Seq<PrimitiveMap<K, V, OptionBucket<K, V>, BL, H>>,
    entries: Seq<(K, V)>,
    outcomes: Seq<Result<Option<V>, InsertError>>,
    key: K,
    value: V,
    after: PrimitiveMap<K, V, OptionBucket<K, V>, BL, H>,
    outcome: Result<Option<V>, InsertError>,
) where K: Key, V: Value, BL: BucketStore<K, V, OptionBucket<K, V>>, H: Hasher<K>
    requires
        insert_run(states, entries, outcomes),
        states[0].wf(),
        all_empty(states[0].slots()),
        distinct_homes(states[0], entries),
        homes_cover(states[0], entries),
        states.last().inserted(key, value, after, outcome),
    ensures
        outcome == Err::<Option<V>, InsertError>(InsertError::CapacityExhausted),
        after.slots() == states.last().slots(),
        forall|i: int|
            0 <= i < entries.len() ==> after@.contains_key((#[trigger] entries[i]).0)
                && after@[entries[i].0] == entries[i].1,
{
    let first = states[0];
    let last = states.last();
    law_saturation_fill(states, entries, outcomes);
    last.lemma_slots_in_range(key);
    let size = last.slots().len() as int;
    assert forall|slot: int| 0 <= slot < size implies !#[trigger] room_hits(last.slots())[slot] by {
        assert(is_home(first, entries, slot));
        let i = choose|i: int| 0 <= i < entries.len() && #[trigger] home_of(first, entries, i)
            == slot;
        assert(last.slots()[first.home(entries[i].0)] == Some(entries[i]));
        assert(last.slots()[slot].items().len() == 1);
    }
    lemma_probe_first_all(room_hits(last.slots()), last.home(key));
    assert(last.vacancy(key).is_none());
    law_failed_insert_changes_nothing(last, key, value, after, outcome);
}

} // verus!
