//! The mathematical content of a bucket: a sequence of entries in which no key
//! occurs twice, read as a finite map from keys to values.

use vstd::prelude::*;

verus! {

/// Some entry of `items` has the key `key`.
pub open spec fn has_key<K, V>(items: Seq<(K, V)>, key: K) -> bool {
    exists|i: int| 0 <= i < items.len() && (#[trigger] items[i]).0 == key
}

/// The position of an entry with the key `key`; the only one where no key occurs twice.
pub open spec fn slot_of<K, V>(items: Seq<(K, V)>, key: K) -> int {
    choose|i: int| 0 <= i < items.len() && (#[trigger] items[i]).0 == key
}

/// The value stored under `key`, where there is one.
pub open spec fn value_of<K, V>(items: Seq<(K, V)>, key: K) -> V {
    items[slot_of(items, key)].1
}

/// The value stored under `key`, or `None`.
pub open spec fn lookup<K, V>(items: Seq<(K, V)>, key: K) -> Option<V> {
    if has_key(items, key) {
        Some(value_of(items, key))
    } else {
        None
    }
}

/// No key occurs in two entries.
pub open spec fn distinct_keys<K, V>(items: Seq<(K, V)>) -> bool {
    forall|i: int, j: int|
        0 <= i < j < items.len() ==> (#[trigger] items[i]).0 != (#[trigger] items[j]).0
}

/// The entries as a map from keys to values.
pub open spec fn entries_of<K, V>(items: Seq<(K, V)>) -> Map<K, V> {
    Map::new(|k: K| has_key(items, k), |k: K| value_of(items, k))
}

/// The entries respect the bucket's bound, if it has one, and hold no key twice.
pub open spec fn well_formed<K, V>(items: Seq<(K, V)>, limit: Option<nat>) -> bool {
    &&& distinct_keys(items)
    &&& limit matches Some(bound) ==> items.len() <= bound
}

/// The bucket's bound is reached: an entry with a new key would not fit.
pub open spec fn at_limit<K, V>(items: Seq<(K, V)>, limit: Option<nat>) -> bool {
    limit matches Some(bound) && items.len() >= bound
}

/// Where keys are distinct, an entry is found under its key at its own position.
pub proof fn lemma_found_at<K, V>(items: Seq<(K, V)>, i: int)
    requires
        distinct_keys(items),
        0 <= i < items.len(),
    ensures
        has_key(items, items[i].0),
        slot_of(items, items[i].0) == i,
        value_of(items, items[i].0) == items[i].1,
        lookup(items, items[i].0) == Some(items[i].1),
{
    let j = slot_of(items, items[i].0);
    assert(0 <= j < items.len() && items[j].0 == items[i].0);
    if i < j {
        assert(items[i].0 != items[j].0);
    }
    if j < i {
        assert(items[j].0 != items[i].0);
    }
}

/// Where no entry of the first `n` has the key, and they are all there is, the key is absent.
pub proof fn lemma_absent<K, V>(items: Seq<(K, V)>, key: K)
    requires
        forall|i: int| 0 <= i < items.len() ==> (#[trigger] items[i]).0 != key,
    ensures
        !has_key(items, key),
        lookup(items, key).is_none(),
        !entries_of(items).contains_key(key),
{
}

/// Appending an entry with a new key adds that entry to the map.
pub proof fn lemma_push<K, V>(items: Seq<(K, V)>, key: K, value: V)
    requires
        distinct_keys(items),
        !has_key(items, key),
    ensures
        distinct_keys(items.push((key, value))),
        entries_of(items.push((key, value))) =~= entries_of(items).insert(key, value),
{
    let after = items.push((key, value));
    assert forall|i: int, j: int| 0 <= i < j < after.len() implies (#[trigger] after[i]).0 != (
    #[trigger] after[j]).0 by {
        if j == items.len() {
            assert(items[i].0 != key);
        } else {
            assert(items[i].0 != items[j].0);
        }
    }
    assert forall|k: K| has_key(after, k) == (k == key || has_key(items, k)) by {
        if has_key(after, k) {
            let i = slot_of(after, k);
            if i < items.len() {
                assert(items[i].0 == k);
            }
        }
        if k == key {
            assert(after[items.len() as int].0 == key);
        }
        if has_key(items, k) {
            let i = slot_of(items, k);
            assert(after[i].0 == k);
        }
    }
    assert forall|k: K| has_key(after, k) implies value_of(after, k) == (if k == key {
        value
    } else {
        value_of(items, k)
    }) by {
        let i = slot_of(after, k);
        lemma_found_at(after, i);
        if k == key {
            lemma_found_at(after, items.len() as int);
        } else {
            assert(i < items.len());
            assert(items[i].0 == k);
            lemma_found_at(items, i);
        }
    }
}

/// Replacing the value of the entry at `i` replaces the value under its key in the map.
pub proof fn lemma_set_value<K, V>(items: Seq<(K, V)>, i: int, value: V)
    requires
        distinct_keys(items),
        0 <= i < items.len(),
    ensures
        distinct_keys(items.update(i, (items[i].0, value))),
        entries_of(items.update(i, (items[i].0, value))) =~= entries_of(items).insert(
            items[i].0,
            value,
        ),
{
    let key = items[i].0;
    let after = items.update(i, (key, value));
    assert forall|a: int, b: int| 0 <= a < b < after.len() implies (#[trigger] after[a]).0 != (
    #[trigger] after[b]).0 by {
        assert(items[a].0 != items[b].0);
    }
    assert forall|k: K| has_key(after, k) == has_key(items, k) by {
        if has_key(after, k) {
            let j = slot_of(after, k);
            assert(items[j].0 == k);
        }
        if has_key(items, k) {
            let j = slot_of(items, k);
            assert(after[j].0 == k);
        }
    }
    lemma_found_at(items, i);
    assert forall|k: K| has_key(after, k) implies value_of(after, k) == (if k == key {
        value
    } else {
        value_of(items, k)
    }) by {
        let j = slot_of(after, k);
        lemma_found_at(after, j);
        if k == key {
            lemma_found_at(after, i);
        } else {
            assert(items[j].0 == k);
            lemma_found_at(items, j);
        }
    }
}

/// Moving the last entry into position `i` and dropping the last position
/// removes the key of the entry that stood at `i` from the map.
pub proof fn lemma_swap_remove<K, V>(items: Seq<(K, V)>, i: int)
    requires
        distinct_keys(items),
        0 <= i < items.len(),
    ensures
        distinct_keys(items.update(i, items.last()).drop_last()),
        !has_key(items.update(i, items.last()).drop_last(), items[i].0),
        entries_of(items.update(i, items.last()).drop_last()) =~= entries_of(items).remove(
            items[i].0,
        ),
{
    let key = items[i].0;
    let last = items.len() - 1;
    let after = items.update(i, items.last()).drop_last();
    assert forall|a: int| 0 <= a < after.len() implies #[trigger] after[a] == (if a == i {
        items[last]
    } else {
        items[a]
    }) by {}
    assert forall|a: int, b: int| 0 <= a < b < after.len() implies (#[trigger] after[a]).0 != (
    #[trigger] after[b]).0 by {
        let a0 = if a == i {
            last
        } else {
            a
        };
        let b0 = if b == i {
            last
        } else {
            b
        };
        if a0 < b0 {
            assert(items[a0].0 != items[b0].0);
        } else {
            assert(items[b0].0 != items[a0].0);
        }
    }
    assert forall|a: int| 0 <= a < after.len() implies (#[trigger] after[a]).0 != key by {
        let a0 = if a == i {
            last
        } else {
            a
        };
        if a0 < i {
            assert(items[a0].0 != items[i].0);
        } else {
            assert(items[i].0 != items[a0].0);
        }
    }
    assert forall|k: K| has_key(after, k) == (k != key && has_key(items, k)) by {
        if has_key(after, k) {
            let a = slot_of(after, k);
            let a0 = if a == i {
                last
            } else {
                a
            };
            assert(items[a0].0 == k);
        }
        if k != key && has_key(items, k) {
            let a0 = slot_of(items, k);
            let a = if a0 == last {
                i
            } else {
                a0
            };
            assert(after[a].0 == k);
        }
    }
    assert forall|k: K| has_key(after, k) implies value_of(after, k) == value_of(items, k) by {
        let a = slot_of(after, k);
        let a0 = if a == i {
            last
        } else {
            a
        };
        lemma_found_at(after, a);
        assert(items[a0] == after[a]);
        lemma_found_at(items, a0);
    }
}

/// `copy` has the keys of `base` in the same order, each with a clone of
/// its value.
pub open spec fn items_cloned<K, V: Clone>(base: Seq<(K, V)>, copy: Seq<(K, V)>) -> bool {
    &&& copy.len() == base.len()
    &&& forall|i: int|
        0 <= i < base.len() ==> (#[trigger] copy[i]).0 == base[i].0 && cloned(
            base[i].1,
            copy[i].1,
        )
}

/// A copy with the same keys in the same order is well formed where
/// `base` is, holds the same keys, and holds under each key a clone of the
/// value that `base` holds.
pub proof fn lemma_cloned_items<K, V: Clone>(
    base: Seq<(K, V)>,
    copy: Seq<(K, V)>,
    limit: Option<nat>,
)
    requires
        well_formed(base, limit),
        items_cloned(base, copy),
    ensures
        well_formed(copy, limit),
        forall|key: K| #[trigger] has_key(copy, key) == has_key(base, key),
        forall|key: K|
            has_key(base, key) ==> cloned(
                value_of(base, key),
                #[trigger] value_of(copy, key),
            ),
{
    assert forall|i: int, j: int| 0 <= i < j < copy.len() implies (#[trigger] copy[i]).0 != (
    #[trigger] copy[j]).0 by {
        assert(base[i].0 != base[j].0);
    }
    assert forall|key: K| #[trigger] has_key(copy, key) == has_key(base, key) by {
        if has_key(copy, key) {
            let i = slot_of(copy, key);
            assert(base[i].0 == key);
        }
        if has_key(base, key) {
            let i = slot_of(base, key);
            assert(copy[i].0 == key);
        }
    }
    assert forall|key: K| has_key(base, key) implies cloned(
        value_of(base, key),
        #[trigger] value_of(copy, key),
    ) by {
        let i = slot_of(base, key);
        lemma_found_at(base, i);
        assert(copy[i].0 == key);
        lemma_found_at(copy, i);
    }
}

} // verus!
