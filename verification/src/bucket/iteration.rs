//! The order of iteration over a table: bucket after bucket in slot order,
//! each bucket in its own order; and the splitting of a table into mutable
//! references that follow that order.

use crate::bucket::Bucket;
use crate::kv::{Key, Value};
use vstd::prelude::*;

verus! {

/// The entries of the first `n` buckets: bucket after bucket in slot order,
/// each bucket in its own order.
pub open spec fn entries_through<K: Key, V: Value, B: Bucket<K, V>>(slots: Seq<B>, n: int) -> Seq<
    (K, V),
>
    decreases n,
{
    if n <= 0 {
        Seq::empty()
    } else {
        entries_through(slots, n - 1) + slots[n - 1].items()
    }
}

/// The position, in the order of iteration, of the first entry of the bucket
/// in slot `slot`.
pub open spec fn entry_offset<K: Key, V: Value, B: Bucket<K, V>>(slots: Seq<B>, slot: int) -> int {
    entries_through(slots, slot).len() as int
}

/// The entries of the whole table, in the order in which iteration yields them.
pub open spec fn all_entries<K: Key, V: Value, B: Bucket<K, V>>(slots: Seq<B>) -> Seq<(K, V)> {
    entries_through(slots, slots.len() as int)
}

/// What a list of references points to.
pub open spec fn targets<T>(refs: Seq<&T>) -> Seq<T> {
    refs.map_values(|r: &T| *r)
}

/// One more reference adds what it points to.
pub proof fn lemma_targets_push<T>(refs: Seq<&T>, last: &T)
    ensures
        targets(refs.push(last)) =~= targets(refs).push(*last),
{
}

/// The entries of a bucket end before those of a later bucket begin.
pub proof fn lemma_offsets_grow<K: Key, V: Value, B: Bucket<K, V>>(
    slots: Seq<B>,
    slot: int,
    later: int,
)
    requires
        0 <= slot < later,
    ensures
        entry_offset(slots, slot) + slots[slot].items().len() <= entry_offset(slots, later),
    decreases later - slot,
{
    if slot + 1 < later {
        lemma_offsets_grow(slots, slot, later - 1);
    }
}

/// The entry at position `at` of the bucket in slot `slot` stands, in the
/// order of iteration, `at` places behind the first entry of that bucket.
pub proof fn lemma_entry_position<K: Key, V: Value, B: Bucket<K, V>>(
    slots: Seq<B>,
    n: int,
    slot: int,
    at: int,
)
    requires
        0 <= slot < n,
        0 <= at < slots[slot].items().len(),
    ensures
        0 <= entry_offset(slots, slot) + at < entries_through(slots, n).len(),
        entries_through(slots, n)[entry_offset(slots, slot) + at] == slots[slot].items()[at],
    decreases n,
{
    if slot < n - 1 {
        lemma_entry_position(slots, n - 1, slot, at);
    }
}

/// Splits a slice into mutable references to its elements, in their order.
/// What the holders of the references leave behind them is what the slice
/// holds afterwards, position by position.
pub fn each_mut<T>(slice: &mut [T]) -> (refs: Vec<&mut T>)
    ensures
        refs@.len() == old(slice)@.len(),
        forall|i: int| 0 <= i < refs@.len() ==> *#[trigger] refs@[i] == old(slice)@[i],
        final(slice)@.len() == old(slice)@.len(),
        forall|i: int| 0 <= i < refs@.len() ==> #[trigger] final(slice)@[i] == *final(refs@[i]),
{
    let mut refs: Vec<&mut T> = Vec::new();
    let mut rest = slice;
    loop
        invariant
            refs@.len() + rest@.len() == old(slice)@.len(),
            forall|i: int| 0 <= i < refs@.len() ==> *#[trigger] refs@[i] == old(slice)@[i],
            forall|i: int|
                0 <= i < rest@.len() ==> #[trigger] rest@[i] == old(slice)@[refs@.len() + i],
            final(slice)@.len() == refs@.len() + final(rest)@.len(),
            forall|i: int|
                0 <= i < refs@.len() ==> #[trigger] final(slice)@[i] == *final(refs@[i]),
            forall|i: int|
                0 <= i < final(rest)@.len() ==> final(slice)@[refs@.len() + i]
                    == #[trigger] final(rest)@[i],
        decreases rest@.len(),
    {
        if rest.len() == 0 {
            return refs;
        }
        let ghost done = refs@.len() as int;
        let ghost taken = refs@;
        let ghost rest_final = final(rest)@;
        let (head, tail) = rest.split_at_mut(1);
        let ghost head_final = final(head)@;
        let ghost tail_final = final(tail)@;
        assert(rest_final == head_final + tail_final);
        match head.first_mut() {
            Some(first) => {
                assert(head_final.len() == 1);
                assert(head_final[0] == *final(first));
                refs.push(first);
            },
            None => {},
        }
        rest = tail;
        assert(refs@.len() == done + 1);
        assert(final(rest)@ == tail_final);
        assert forall|i: int| 0 <= i < refs@.len() implies #[trigger] final(slice)@[i] == *final(
            refs@[i]
        ) by {
            if i < done {
                assert(refs@[i] == taken[i]);
            } else {
                assert(final(slice)@[done + 0] == rest_final[0]);
            }
        }
        assert forall|i: int| 0 <= i < final(rest)@.len() implies final(slice)@[refs@.len() + i]
            == #[trigger] final(rest)@[i] by {
            assert(final(slice)@[done + (1 + i)] == rest_final[1 + i]);
        }
    }
}

/// Splits a table into mutable references to its entries, bucket after
/// bucket in slot order, each bucket in its own order. What the holders of
/// the references leave behind them is what the buckets hold afterwards,
/// position by position.
pub fn each_entry_mut<K: Key, V: Value, B: Bucket<K, V>>(slice: &mut [B]) -> (entries: Vec<
    &mut (K, V),
>)
    ensures
        entries@.len() == all_entries(old(slice)@).len(),
        forall|k: int|
            0 <= k < entries@.len() ==> *#[trigger] entries@[k] == all_entries(old(slice)@)[k],
        final(slice)@.len() == old(slice)@.len(),
        forall|i: int|
            0 <= i < old(slice)@.len() ==> (#[trigger] final(slice)@[i]).items().len()
                == old(slice)@[i].items().len(),
        forall|i: int, j: int|
            0 <= i < old(slice)@.len() && 0 <= j < old(slice)@[i].items().len()
                ==> #[trigger] final(slice)@[i].items()[j] == *final(
                entries@[entry_offset(old(slice)@, i) + j]
            ),
{
    let ghost before = slice@;
    let ghost n = before.len() as int;
    let mut entries: Vec<&mut (K, V)> = Vec::new();
    let mut rest = slice;
    let ghost mut done: int = 0;
    loop
        invariant
            before == old(slice)@,
            n == before.len(),
            0 <= done <= n,
            rest@.len() == n - done,
            forall|i: int| 0 <= i < rest@.len() ==> #[trigger] rest@[i] == before[done + i],
            entries@.len() == entry_offset(before, done),
            forall|k: int|
                0 <= k < entries@.len() ==> *#[trigger] entries@[k] == entries_through(
                    before,
                    done,
                )[k],
            final(slice)@.len() == done + final(rest)@.len(),
            forall|i: int|
                0 <= i < final(rest)@.len() ==> final(slice)@[done + i]
                    == #[trigger] final(rest)@[i],
            forall|i: int|
                0 <= i < done ==> (#[trigger] final(slice)@[i]).items().len()
                    == before[i].items().len(),
            forall|i: int, j: int|
                0 <= i < done && 0 <= j < before[i].items().len()
                    ==> #[trigger] final(slice)@[i].items()[j] == *final(
                    entries@[entry_offset(before, i) + j]
                ),
        decreases rest@.len(),
    {
        if rest.len() == 0 {
            return entries;
        }
        let ghost taken = entries@;
        let ghost rest_final = final(rest)@;
        let (head, tail) = rest.split_at_mut(1);
        let ghost head_final = final(head)@;
        let ghost tail_final = final(tail)@;
        assert(rest_final == head_final + tail_final);
        match head.first_mut() {
            Some(bucket) => {
                assert(head_final.len() == 1);
                assert(head_final[0] == *final(bucket));
                assert(*bucket == before[done + 0]);
                let mut more = bucket.entries_mut();
                let ghost added = more@;
                assert(forall|j: int|
                    0 <= j < added.len() ==> #[trigger] head_final[0].items()[j] == *final(
                        added[j]
                    ));
                entries.append(&mut more);
                assert(entries@ == taken + added);
            },
            None => {},
        }
        rest = tail;
        proof {
            assert(entries_through(before, done + 1) == entries_through(before, done)
                + before[done].items());
            assert(final(rest)@ == tail_final);
            assert(final(slice)@[done + 0] == rest_final[0]);
            assert forall|i: int| 0 <= i < final(rest)@.len() implies final(slice)@[(done + 1)
                + i] == #[trigger] final(rest)@[i] by {
                assert(final(slice)@[done + (1 + i)] == rest_final[1 + i]);
            }
            assert forall|i: int, j: int|
                0 <= i < done + 1 && 0 <= j < before[i].items().len() implies #[trigger] final(
                slice
            )@[i].items()[j] == *final(entries@[entry_offset(before, i) + j]) by {
                if i < done {
                    lemma_offsets_grow(before, i, done);
                    assert(entries@[entry_offset(before, i) + j] == taken[entry_offset(before, i)
                        + j]);
                } else {
                    assert(entries@[entry_offset(before, done) + j] == entries@[taken.len() + j]);
                }
            }
            done = done + 1;
        }
    }
}

/// Turns mutable references to entries into mutable references to their
/// values, in the same order. The keys of the entries stay as they are, and
/// what the holders of the references leave behind them are the values of
/// the entries afterwards.
pub fn each_value_mut<K, V>(entries: Vec<&mut (K, V)>) -> (values: Vec<&mut V>)
    ensures
        values@.len() == entries@.len(),
        forall|k: int| 0 <= k < values@.len() ==> *#[trigger] values@[k] == (*entries@[k]).1,
        forall|k: int|
            0 <= k < values@.len() ==> *final(#[trigger] entries@[k]) == (
                (*entries@[k]).0,
                *final(values@[k]),
            ),
{
    let ghost all = entries@;
    let ghost total = all.len() as int;
    let mut entries = entries;
    // The references come off the end of the list, so they are gathered
    // back to front and turned round afterwards.
    let mut backwards: Vec<&mut V> = Vec::new();
    loop
        invariant
            total == all.len(),
            entries@.len() + backwards@.len() == total,
            forall|k: int| 0 <= k < entries@.len() ==> #[trigger] entries@[k] == all[k],
            forall|i: int|
                0 <= i < backwards@.len() ==> *#[trigger] backwards@[i] == (*all[total - 1 - i]).1,
            forall|i: int|
                0 <= i < backwards@.len() ==> *final(all[total - 1 - i]) == (
                    (*all[total - 1 - i]).0,
                    *final(#[trigger] backwards@[i]),
                ),
        ensures
            entries@.len() == 0,
        decreases entries@.len(),
    {
        let ghost turned = backwards@;
        match entries.pop() {
            Some(entry) => {
                backwards.push(&mut entry.1);
                assert forall|i: int| 0 <= i < backwards@.len() implies *final(
                    all[total - 1 - i]
                ) == ((*all[total - 1 - i]).0, *final(#[trigger] backwards@[i])) by {
                    if i < turned.len() {
                        assert(backwards@[i] == turned[i]);
                    }
                }
            },
            None => {
                break ;
            },
        }
    }
    let ghost reversed = backwards@;
    let mut values: Vec<&mut V> = Vec::new();
    loop
        invariant
            total == all.len(),
            reversed.len() == total,
            backwards@.len() + values@.len() == total,
            forall|i: int| 0 <= i < backwards@.len() ==> #[trigger] backwards@[i] == reversed[i],
            forall|k: int|
                0 <= k < values@.len() ==> *#[trigger] values@[k] == *reversed[total - 1 - k],
            forall|k: int|
                0 <= k < values@.len() ==> *final(#[trigger] values@[k]) == *final(
                    reversed[total - 1 - k]
                ),
        ensures
            backwards@.len() == 0,
        decreases backwards@.len(),
    {
        let ghost placed = values@;
        let ghost was = backwards@.len() as int;
        match backwards.pop() {
            Some(value) => {
                assert(value == reversed[was - 1]);
                values.push(value);
                assert(total - 1 - placed.len() == was - 1);
                assert forall|k: int| 0 <= k < values@.len() implies *#[trigger] values@[k]
                    == *reversed[total - 1 - k] by {
                    if k < placed.len() {
                        assert(values@[k] == placed[k]);
                    }
                }
                assert forall|k: int| 0 <= k < values@.len() implies *final(
                    #[trigger] values@[k]
                ) == *final(reversed[total - 1 - k]) by {
                    if k < placed.len() {
                        assert(values@[k] == placed[k]);
                    }
                }
            },
            None => {
                break ;
            },
        }
    }
    values
}

} // verus!
