//! What buckets and stores share: the probe order, a wrap-around walk over
//! the indices of a table, and the search for a key in a list of entries.

use crate::kv::Key;
use vstd::prelude::*;

verus! {

/// Finding the position of a key in a list of entries.
pub trait IndexOf<K: Key> {
    /// The keys of the entries, in their order.
    spec fn keys(&self) -> Seq<K>;

    /// The first position at which `key` stands.
    fn index_of(&self, key: K) -> (found: Option<usize>)
        ensures
            match found {
                Some(idx) => {
                    &&& idx < self.keys().len()
                    &&& self.keys()[idx as int] == key
                    &&& forall|j: int| 0 <= j < idx ==> #[trigger] self.keys()[j] != key
                },
                None => forall|j: int|
                    0 <= j < self.keys().len() ==> #[trigger] self.keys()[j] != key,
            },
    ;
}

/// The index visited at step `k` of the walk over `n` slots that begins at `start`.
pub open spec fn probe_index(start: int, n: int, k: int) -> int {
    if start + k < n {
        start + k
    } else {
        start + k - n
    }
}

/// The whole walk over `n` slots that begins at `start`:
/// `start, start + 1, .., n - 1, 0, 1, .., start - 1`.
pub open spec fn probe_order(start: int, n: int) -> Seq<usize> {
    Seq::new(n as nat, |k: int| probe_index(start, n, k) as usize)
}

/// The step at which the walk over `n` slots that begins at `start` visits the index `i`.
pub open spec fn probe_step(start: int, n: int, i: int) -> int {
    if i >= start {
        i - start
    } else {
        i + n - start
    }
}

/// Probe completeness: the walk over a table of `n` slots that begins at any
/// `start` from `0` to `n` has `n` steps, stays inside the table, visits
/// every index of the table, and visits none twice. Over an empty table it
/// has no step.
pub proof fn law_probe_visits_each_index_once(start: int, n: int)
    requires
        0 <= start <= n <= usize::MAX,
    ensures
        probe_order(start, n).len() == n,
        forall|k: int| 0 <= k < n ==> 0 <= #[trigger] probe_order(start, n)[k] < n,
        forall|i: int|
            0 <= i < n ==> 0 <= #[trigger] probe_step(start, n, i) < n && probe_order(
                start,
                n,
            )[probe_step(start, n, i)] == i,
        forall|j: int, k: int|
            0 <= j < k < n ==> #[trigger] probe_order(start, n)[j] != #[trigger] probe_order(
                start,
                n,
            )[k],
{
}

/// The first slot marked in `hits` that the walk from `start` reaches at step
/// `k` or later, or `None` where it reaches none.
pub open spec fn probe_first(hits: Seq<bool>, start: int, k: int) -> Option<int>
    decreases hits.len() - k,
{
    if k < 0 || k >= hits.len() {
        None
    } else if hits[probe_index(start, hits.len() as int, k)] {
        Some(probe_index(start, hits.len() as int, k))
    } else {
        probe_first(hits, start, k + 1)
    }
}

/// A walk that meets its first marked slot at step `step` finds that slot.
pub proof fn lemma_probe_first_at(hits: Seq<bool>, start: int, k: int, step: int)
    requires
        0 <= k <= step < hits.len(),
        hits[probe_index(start, hits.len() as int, step)],
        forall|j: int| k <= j < step ==> !#[trigger] hits[probe_index(start, hits.len() as int, j)],
    ensures
        probe_first(hits, start, k) == Some(probe_index(start, hits.len() as int, step)),
    decreases step - k,
{
    if k < step {
        assert(!hits[probe_index(start, hits.len() as int, k)]);
        lemma_probe_first_at(hits, start, k + 1, step);
    }
}

/// A walk that meets no marked slot from step `k` on finds none.
pub proof fn lemma_probe_first_none(hits: Seq<bool>, start: int, k: int)
    requires
        0 <= k <= hits.len(),
        forall|j: int|
            k <= j < hits.len() ==> !#[trigger] hits[probe_index(start, hits.len() as int, j)],
    ensures
        probe_first(hits, start, k).is_none(),
    decreases hits.len() - k,
{
    if k < hits.len() {
        assert(!hits[probe_index(start, hits.len() as int, k)]);
        lemma_probe_first_none(hits, start, k + 1);
    }
}

/// What a walk finds is a marked slot, met at some step before which no slot was marked.
pub proof fn lemma_probe_first_found(hits: Seq<bool>, start: int, k: int) -> (step: int)
    requires
        0 <= start <= hits.len(),
        0 <= k,
        probe_first(hits, start, k).is_some(),
    ensures
        k <= step < hits.len(),
        probe_first(hits, start, k) == Some(probe_index(start, hits.len() as int, step)),
        0 <= probe_index(start, hits.len() as int, step) < hits.len(),
        hits[probe_index(start, hits.len() as int, step)],
        forall|j: int| k <= j < step ==> !#[trigger] hits[probe_index(start, hits.len() as int, j)],
    decreases hits.len() - k,
{
    if hits[probe_index(start, hits.len() as int, k)] {
        k
    } else {
        lemma_probe_first_found(hits, start, k + 1)
    }
}

/// A walk over the whole table finds nothing exactly where no slot is marked.
pub proof fn lemma_probe_first_all(hits: Seq<bool>, start: int)
    requires
        0 <= start <= hits.len(),
    ensures
        probe_first(hits, start, 0).is_none() <==> forall|i: int|
            0 <= i < hits.len() ==> !#[trigger] hits[i],
{
    let n = hits.len() as int;
    if probe_first(hits, start, 0).is_some() {
        let step = lemma_probe_first_found(hits, start, 0);
    } else {
        assert forall|i: int| 0 <= i < n implies !#[trigger] hits[i] by {
            let step = if i >= start {
                i - start
            } else {
                i + n - start
            };
            assert(probe_index(start, n, step) == i);
            if hits[i] {
                lemma_probe_first_reaches(hits, start, 0, step);
            }
        }
    }
    if forall|i: int| 0 <= i < hits.len() ==> !#[trigger] hits[i] {
        assert forall|j: int| 0 <= j < n implies !#[trigger] hits[probe_index(start, n, j)] by {
            assert(0 <= probe_index(start, n, j) < n);
        }
        lemma_probe_first_none(hits, start, 0);
    }
}

/// A walk that has a marked slot ahead of it finds one.
pub proof fn lemma_probe_first_reaches(hits: Seq<bool>, start: int, k: int, step: int)
    requires
        0 <= k <= step < hits.len(),
        hits[probe_index(start, hits.len() as int, step)],
    ensures
        probe_first(hits, start, k).is_some(),
    decreases step - k,
{
    if k < step && !hits[probe_index(start, hits.len() as int, k)] {
        lemma_probe_first_reaches(hits, start, k + 1, step);
    }
}

/// Yields every index of a table once, beginning at a chosen index and wrapping
/// around at the end of the table.
pub struct WrappingIndexIterator {
    start: usize,
    length: usize,
    current: usize,
    first: bool,
}

impl View for WrappingIndexIterator {
    type V = Seq<usize>;

    /// The indices that are still to come, in the order in which `next` hands them out.
    open spec fn view(&self) -> Seq<usize> {
        probe_order(self.origin() as int, self.span() as int).skip(self.yielded() as int)
    }
}

impl WrappingIndexIterator {
    #[verifier::type_invariant]
    spec fn bounds(&self) -> bool {
        &&& self.start <= self.length
        &&& self.current <= self.length
        &&& self.first ==> self.current == self.start
    }

    /// The index at which the walk began.
    pub closed spec fn origin(&self) -> usize {
        self.start
    }

    /// The number of slots in the table that is walked.
    pub closed spec fn span(&self) -> usize {
        self.length
    }

    /// How many indices have been handed out so far.
    pub closed spec fn yielded(&self) -> nat {
        if self.first {
            0
        } else if self.current > self.start {
            (self.current - self.start) as nat
        } else {
            (self.length - self.start + self.current) as nat
        }
    }

    /// Whether the walk stands behind the last slot with indices still to come,
    /// so that it has to wrap before it can hand out another index.
    pub closed spec fn at_end(&self) -> bool {
        (self.current != self.start || self.first) && self.current >= self.length
    }

    /// Begins a walk over a table of `length` slots at `start`.
    pub fn new(start: usize, length: usize) -> (it: Self)
        requires
            start <= length,
        ensures
            it.origin() == start,
            it.span() == length,
            it.yielded() == 0,
            it@ == probe_order(start as int, length as int),
    {
        let it = WrappingIndexIterator { start, length, current: start, first: true };
        assert(it@ =~= probe_order(start as int, length as int));
        it
    }

    /// Runs the walk to its end and hands back the indices in the order in
    /// which it visits them.
    pub fn to_vec(self) -> (indices: Vec<usize>)
        ensures
            indices@ == self@,
    {
        let mut walk = self;
        let mut indices: Vec<usize> = Vec::new();
        loop
            invariant
                walk.origin() == self.origin(),
                walk.span() == self.span(),
                self.yielded() <= walk.yielded(),
                indices@ + walk@ =~= self@,
            decreases walk.span() - walk.yielded(),
        {
            match walk.next() {
                Some(idx) => {
                    indices.push(idx);
                },
                None => {
                    return indices;
                },
            }
        }
    }

    /// Hands out the next index of the walk, or `None` once every index has been visited.
    pub fn next(&mut self) -> (item: Option<usize>)
        ensures
            final(self).origin() == old(self).origin(),
            final(self).span() == old(self).span(),
            old(self).yielded() <= old(self).span(),
            old(self).yielded() < old(self).span() ==> {
                &&& item == Some(
                    probe_index(
                        old(self).origin() as int,
                        old(self).span() as int,
                        old(self).yielded() as int,
                    ) as usize,
                )
                &&& final(self).yielded() == old(self).yielded() + 1
                &&& item == Some(old(self)@[0])
                &&& final(self)@ == old(self)@.drop_first()
            },
            old(self).yielded() == old(self).span() ==> {
                &&& item.is_none()
                &&& final(self).yielded() == old(self).yielded()
                &&& final(self)@ == old(self)@
                &&& old(self)@.len() == 0
            },
        decreases
            (if old(self).at_end() {
                1nat
            } else {
                0nat
            }),
    {
        proof {
            use_type_invariant(&*self);
        }
        // Check that we haven't returned to the beginning
        if self.current != self.start || self.first {
            self.first = false;

            // Check that we shouldn't wrap
            if self.current < self.length {
                let item = self.current;
                self.current += 1;
                proof {
                    assert(self@ =~= old(self)@.drop_first());
                }
                Some(item)
            } else {
                self.current = 0;
                self.next()
            }
        } else {
            None
        }
    }
}

} // verus!
