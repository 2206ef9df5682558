use vstd::prelude::*;

use crate::error::{MetricChronoError, Result};
use crate::geometry::{is_key_order, radial_sort};

verus! {

/// Fixed-capacity ring that keeps the most recent values in chronological
/// order.
#[derive(Clone, Debug)]
pub struct Ring<T> {
    values: Vec<T>,
    start: usize,
    len: usize,
}

impl<T: Copy> Ring<T> {
    /// Retained values, oldest first.
    pub closed spec fn contents(&self) -> Seq<T> {
        Seq::new(
            self.len as nat,
            |i: int|
                self.values@[if self.start + i < self.values@.len() {
                    self.start + i
                } else {
                    self.start + i - self.values@.len()
                }],
        )
    }

    /// Number of values the ring retains at most.
    pub closed spec fn cap(&self) -> nat {
        self.values@.len()
    }

    /// Well-formedness: the window of retained values fits the storage.
    pub closed spec fn wf(&self) -> bool {
        &&& self.len <= self.values@.len()
        &&& (self.values@.len() > 0 ==> self.start < self.values@.len())
        &&& (self.values@.len() == 0 ==> self.start == 0)
    }

    /// An empty ring with room for `capacity` values; `fill` only occupies
    /// the unused slots.
    pub fn new(capacity: usize, fill: T) -> (r: Self)
        ensures
            r.wf(),
            r.cap() == capacity,
            r.contents() == Seq::<T>::empty(),
    {
        let mut values: Vec<T> = Vec::new();
        let mut i: usize = 0;
        while i < capacity
            invariant
                i <= capacity,
                values@.len() == i,
            decreases capacity - i,
        {
            values.push(fill);
            i = i + 1;
        }
        let r = Ring { values, start: 0, len: 0 };
        assert(r.contents() =~= Seq::<T>::empty());
        r
    }

    /// Number of values the ring retains at most.
    pub fn capacity(&self) -> (n: usize)
        ensures
            n == self.cap(),
    {
        self.values.len()
    }

    /// Number of values currently retained.
    pub fn len(&self) -> (n: usize)
        requires
            self.wf(),
        ensures
            n == self.contents().len(),
    {
        self.len
    }

    /// The retained value at `chronological_index`, oldest first.
    pub fn get(&self, chronological_index: usize) -> (v: T)
        requires
            self.wf(),
            chronological_index < self.contents().len(),
        ensures
            v == self.contents()[chronological_index as int],
    {
        let cap = self.values.len();
        let offset = cap - self.start;
        let index = if chronological_index < offset {
            self.start + chronological_index
        } else {
            chronological_index - offset
        };
        self.values[index]
    }

    /// Push a value; a full ring forgets its oldest value.
    pub fn push(&mut self, value: T)
        requires
            old(self).wf(),
            old(self).cap() > 0,
        ensures
            final(self).wf(),
            final(self).cap() == old(self).cap(),
            final(self).contents() == (if old(self).contents().len() < old(self).cap() {
                old(self).contents().push(value)
            } else {
                old(self).contents().drop_first().push(value)
            }),
    {
        let ghost before = self.contents();
        let cap = self.values.len();
        if self.len < cap {
            let offset = cap - self.start;
            let index = if self.len < offset {
                self.start + self.len
            } else {
                self.len - offset
            };
            self.values[index] = value;
            self.len = self.len + 1;
            assert(self.contents() =~= before.push(value));
        } else {
            let s = self.start;
            self.values[s] = value;
            self.start = if s + 1 == cap {
                0
            } else {
                s + 1
            };
            assert(self.contents() =~= before.drop_first().push(value));
        }
    }
}

/// Guarded history of a scalar statistic, stored as total-order keys: the
/// last `reference_len + guard_len` values, laid out as
/// `[reference values][guard values]` before the next test value.
#[derive(Clone, Debug)]
pub struct GuardedWindow {
    reference_len: usize,
    guard_len: usize,
    history: Ring<i64>,
}

/// The reference values of a warm history: its oldest `reference_len` values.
pub open spec fn reference_of(history: Seq<i64>, reference_len: nat) -> Seq<i64> {
    history.subrange(0, reference_len as int)
}

/// `sorted` is `values` rearranged by key, ties by position.
pub open spec fn sorted_by_key(values: Seq<i64>, sorted: Seq<i64>) -> bool {
    exists|order: Seq<usize>|
        is_key_order(values, order, values.len()) && sorted.len() == values.len() && forall|k: int|
            0 <= k < sorted.len() ==> #[trigger] sorted[k] == values[order[k] as int]
}

impl GuardedWindow {
    /// Retained values, oldest first.
    pub closed spec fn history(&self) -> Seq<i64> {
        self.history.contents()
    }

    /// Number of reference values `R`.
    pub closed spec fn reference_count(&self) -> nat {
        self.reference_len as nat
    }

    /// Number of guard values `G`.
    pub closed spec fn guard_count(&self) -> nat {
        self.guard_len as nat
    }

    /// Well-formedness: the ring holds exactly `R + G` values when full.
    pub closed spec fn wf(&self) -> bool {
        &&& self.history.wf()
        &&& self.history.cap() == self.reference_len + self.guard_len
        &&& self.reference_len > 0
    }

    /// A window with `reference_len` reference values behind `guard_len`
    /// guard values.
    pub fn new(reference_len: usize, guard_len: usize) -> (r: Result<Self>)
        requires
            reference_len + guard_len <= usize::MAX,
        ensures
            reference_len == 0 ==> r == Err::<Self, MetricChronoError>(
                MetricChronoError::InvalidArgument("reference_len must be > 0"),
            ),
            r matches Ok(w) ==> {
                &&& w.wf()
                &&& w.reference_count() == reference_len
                &&& w.guard_count() == guard_len
                &&& w.history() == Seq::<i64>::empty()
            },
            r is Ok <==> reference_len > 0,
    {
        if reference_len == 0 {
            return Err(MetricChronoError::InvalidArgument("reference_len must be > 0"));
        }
        Ok(GuardedWindow {
            reference_len,
            guard_len,
            history: Ring::new(reference_len + guard_len, 0),
        })
    }

    /// Number of reference values `R`.
    pub fn reference_len(&self) -> (n: usize)
        ensures
            n == self.reference_count(),
    {
        self.reference_len
    }

    /// Number of guard values `G`.
    pub fn guard_len(&self) -> (n: usize)
        ensures
            n == self.guard_count(),
    {
        self.guard_len
    }

    /// Number of retained values.
    pub fn len(&self) -> (n: usize)
        requires
            self.wf(),
        ensures
            n == self.history().len(),
    {
        self.history.len()
    }

    /// Whether no value is retained.
    pub fn is_empty(&self) -> (b: bool)
        requires
            self.wf(),
        ensures
            b == (self.history().len() == 0),
    {
        self.history.len() == 0
    }

    /// Whether fewer than `R + G` values are retained.
    pub fn is_warming_up(&self) -> (b: bool)
        requires
            self.wf(),
        ensures
            b == (self.history().len() < self.reference_count() + self.guard_count()),
    {
        self.history.len() < self.history.capacity()
    }

    /// Admit one value behind the guard; the oldest leaves a full window.
    pub fn push(&mut self, key: i64)
        requires
            old(self).wf(),
        ensures
            final(self).wf(),
            final(self).reference_count() == old(self).reference_count(),
            final(self).guard_count() == old(self).guard_count(),
            final(self).history() == (if old(self).history().len() < old(self).reference_count()
                + old(self).guard_count() {
                old(self).history().push(key)
            } else {
                old(self).history().drop_first().push(key)
            }),
    {
        self.history.push(key);
    }

    /// The `rank`-th smallest reference value (1-indexed) of a warm window,
    /// or `None` while warming up.
    pub fn rank_threshold(&self, rank: usize) -> (r: Option<i64>)
        requires
            self.wf(),
            1 <= rank <= self.reference_count(),
        ensures
            self.history().len() < self.reference_count() + self.guard_count() <==> r is None,
            r matches Some(t) ==> exists|s: Seq<i64>|
                sorted_by_key(reference_of(self.history(), self.reference_count()), s) && t == s[rank
                    - 1],
    {
        match self.sorted_reference() {
            None => None,
            Some(sorted) => {
                proof {
                    let order = choose|order: Seq<usize>|
                        is_key_order(
                            reference_of(self.history(), self.reference_count()),
                            order,
                            self.reference_count(),
                        ) && sorted@.len() == self.reference_count() && forall|k: int|
                            0 <= k < sorted@.len() ==> #[trigger] sorted@[k] == reference_of(
                                self.history(),
                                self.reference_count(),
                            )[order[k] as int];
                }
                Some(sorted[rank - 1])
            },
        }
    }

    /// Observe one value: the threshold at `rank` of the window as it stood
    /// before the value (so a value never judges itself), then admit it.
    pub fn observe(&mut self, key: i64, rank: usize) -> (r: Option<i64>)
        requires
            old(self).wf(),
            1 <= rank <= old(self).reference_count(),
        ensures
            final(self).wf(),
            final(self).reference_count() == old(self).reference_count(),
            final(self).guard_count() == old(self).guard_count(),
            final(self).history() == (if old(self).history().len() < old(self).reference_count()
                + old(self).guard_count() {
                old(self).history().push(key)
            } else {
                old(self).history().drop_first().push(key)
            }),
            old(self).history().len() < old(self).reference_count() + old(self).guard_count()
                <==> r is None,
            r matches Some(t) ==> exists|s: Seq<i64>|
                sorted_by_key(reference_of(old(self).history(), old(self).reference_count()), s)
                    && t == s[rank - 1],
    {
        let threshold = self.rank_threshold(rank);
        self.push(key);
        threshold
    }

    /// The reference values of a warm window sorted by key, or `None` while
    /// warming up.
    pub fn sorted_reference(&self) -> (r: Option<Vec<i64>>)
        requires
            self.wf(),
        ensures
            self.history().len() < self.reference_count() + self.guard_count() <==> r is None,
            r matches Some(s) ==> sorted_by_key(
                reference_of(self.history(), self.reference_count()),
                s@,
            ),
    {
        if self.is_warming_up() {
            return None;
        }
        let mut reference: Vec<i64> = Vec::new();
        let mut i: usize = 0;
        while i < self.reference_len
            invariant
                self.wf(),
                self.history().len() == self.reference_count() + self.guard_count(),
                i <= self.reference_len,
                reference@ == self.history().subrange(0, i as int),
            decreases self.reference_len - i,
        {
            reference.push(self.history.get(i));
            i = i + 1;
            assert(reference@ =~= self.history().subrange(0, i as int));
        }
        let order = radial_sort(reference.as_slice());
        let mut sorted: Vec<i64> = Vec::new();
        let mut k: usize = 0;
        while k < order.len()
            invariant
                is_key_order(reference@, order@, reference@.len()),
                k <= order@.len(),
                sorted@.len() == k,
                forall|j: int| 0 <= j < k ==> #[trigger] sorted@[j] == reference@[order@[j] as int],
            decreases order@.len() - k,
        {
            sorted.push(reference[order[k]]);
            k = k + 1;
        }
        assert(reference@ == reference_of(self.history(), self.reference_count()));
        Some(sorted)
    }
}


/// The last `capacity` values of a stream (all of them while fewer arrived).
pub open spec fn latest<T>(stream: Seq<T>, capacity: nat) -> Seq<T> {
    if stream.len() <= capacity {
        stream
    } else {
        stream.subrange(stream.len() - capacity, stream.len() as int)
    }
}

/// A ring fed a stream retains exactly the stream's last `capacity` values:
/// pushing one more value onto the latest window of a stream, as
/// [`Ring::push`] does, gives the latest window of the longer stream. The
/// window is short of `capacity` exactly while fewer values have arrived, so
/// a guarded window warms up after exactly `R + G` values.
pub proof fn lemma_ring_keeps_latest<T>(stream: Seq<T>, value: T, capacity: nat)
    requires
        capacity > 0,
    ensures
        latest(stream.push(value), capacity) == (if latest(stream, capacity).len() < capacity {
            latest(stream, capacity).push(value)
        } else {
            latest(stream, capacity).drop_first().push(value)
        }),
        (latest(stream, capacity).len() < capacity) == (stream.len() < capacity),
{
    let s2 = stream.push(value);
    if stream.len() < capacity {
        assert(latest(s2, capacity) =~= stream.push(value));
    } else {
        let w = latest(stream, capacity);
        assert(w.len() == capacity);
        assert(latest(s2, capacity) =~= w.drop_first().push(value));
    }
}

} // verus!
