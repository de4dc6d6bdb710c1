//! A fixed-capacity ring keyed by sequence number.
//!
//! A sequence occupies exactly the slot `sequence % capacity`; storing a new
//! sequence into an occupied slot evicts the previous occupant. Lookups
//! return a value only when the slot still records the asked-for sequence.

use vstd::prelude::*;
use vstd::pervasive::VecAdditionalExecFns;

verus! {

/// A monotonically increasing identifier scoped to a channel or connection.
pub type SequenceNumber = u64;

/// Two distinct sequences that share a slot cannot be stored at once: while
/// one is readable, a lookup of the other returns `None`. With `insert`'s
/// contract this pins the ring's eviction behaviour — storing a sequence
/// wipes out exactly the earlier occupant of `sequence % capacity`.
pub proof fn lemma_eviction<T>(buf: SequenceBuffer<T>, a: SequenceNumber, b: SequenceNumber)
    requires
        buf.wf(),
        buf.spec_entry(b) is Some,
        a != b,
        a as int % buf.spec_capacity() == b as int % buf.spec_capacity(),
    ensures
        buf.spec_entry(a) is None,
{
}

/// A ring of `capacity` slots, each holding at most one sequence number and
/// its value.
pub struct SequenceBuffer<T> {
    pub sequences: Vec<Option<SequenceNumber>>,
    pub data: Vec<Option<T>>,
}

impl<T> SequenceBuffer<T> {
    /// Well-formedness: the two vectors run in parallel, the capacity is
    /// positive, every stored sequence sits in its own slot, and a slot holds
    /// a value exactly when it holds a sequence.
    pub open spec fn wf(self) -> bool {
        &&& self.sequences@.len() == self.data@.len()
        &&& self.sequences@.len() > 0
        &&& forall|i: int|
            0 <= i < self.sequences@.len() ==> ((#[trigger] self.sequences@[i]) matches Some(s)
                ==> s as int % self.sequences@.len() as int == i)
        &&& forall|i: int|
            0 <= i < self.sequences@.len() ==> ((#[trigger] self.sequences@[i]) is Some
                <==> self.data@[i] is Some)
    }

    /// The number of slots.
    pub open spec fn spec_capacity(self) -> int {
        self.sequences@.len() as int
    }

    /// The slot a sequence number maps to.
    pub open spec fn spec_index_of(self, sequence: SequenceNumber) -> int {
        sequence as int % self.spec_capacity()
    }

    /// The value stored for `sequence`, if its slot still records exactly
    /// that sequence.
    pub open spec fn spec_entry(self, sequence: SequenceNumber) -> Option<T> {
        if 0 <= self.spec_index_of(sequence) < self.sequences@.len() && self.sequences@[
            self.spec_index_of(sequence)] == Some(sequence) {
            self.data@[self.spec_index_of(sequence)]
        } else {
            None
        }
    }

    /// An empty buffer of `capacity` slots.
    pub fn with_capacity(capacity: usize) -> (r: Self)
        requires
            capacity > 0,
        ensures
            r.wf(),
            r.spec_capacity() == capacity,
            forall|i: int| 0 <= i < capacity ==> (#[trigger] r.sequences@[i]) is None,
            forall|s: SequenceNumber| r.spec_entry(s) is None,
    {
        let mut sequences: Vec<Option<SequenceNumber>> = Vec::new();
        let mut data: Vec<Option<T>> = Vec::new();
        let mut i: usize = 0;
        while i < capacity
            invariant
                i <= capacity,
                sequences@.len() == i,
                data@.len() == i,
                forall|j: int| 0 <= j < i ==> (#[trigger] sequences@[j]) is None,
                forall|j: int| 0 <= j < i ==> (#[trigger] data@[j]) is None,
            decreases capacity - i,
        {
            sequences.push(None);
            data.push(None);
            i += 1;
        }
        SequenceBuffer { sequences, data }
    }

    /// The number of slots.
    pub fn capacity(&self) -> (r: usize)
        ensures
            r == self.spec_capacity(),
    {
        self.sequences.len()
    }

    /// The slot `sequence` maps to.
    pub fn index_of(&self, sequence: SequenceNumber) -> (r: usize)
        requires
            self.wf(),
        ensures
            r == self.spec_index_of(sequence),
            r < self.spec_capacity(),
    {
        (sequence % (self.data.len() as u64)) as usize
    }

    /// Whether the slot for `sequence` currently records exactly that
    /// sequence.
    pub fn contains(&self, sequence: SequenceNumber) -> (r: bool)
        requires
            self.wf(),
        ensures
            r == (self.spec_entry(sequence) is Some),
    {
        let index = self.index_of(sequence);
        match self.sequences[index] {
            Some(s) => s == sequence,
            None => false,
        }
    }

    /// The slot contents for `sequence`, or `None` if another sequence (or
    /// nothing) occupies its slot.
    pub fn get(&self, sequence: SequenceNumber) -> (r: Option<&Option<T>>)
        requires
            self.wf(),
        ensures
            match r {
                Some(inner) => *inner == self.spec_entry(sequence) && *inner is Some,
                None => self.spec_entry(sequence) is None,
            },
    {
        let index = self.index_of(sequence);
        let hit = match self.sequences[index] {
            Some(s) => s == sequence,
            None => false,
        };
        if hit {
            Some(&self.data[index])
        } else {
            None
        }
    }

    /// Mutable slot contents for `sequence`, or `None` if another sequence
    /// (or nothing) occupies its slot. The caller must leave the slot
    /// occupied.
    pub fn get_mut(&mut self, sequence: SequenceNumber) -> (r: Option<&mut Option<T>>)
        requires
            old(self).wf(),
        ensures
            match r {
                Some(inner) => {
                    &&& *inner == old(self).spec_entry(sequence)
                    &&& *inner is Some
                    &&& final(self).sequences@ == old(self).sequences@
                    &&& final(self).data@ == old(self).data@.update(
                        old(self).spec_index_of(sequence),
                        *final(inner),
                    )
                    &&& (*final(inner) is Some ==> final(self).wf() && final(self).spec_entry(
                        sequence,
                    ) == *final(inner))
                },
                None => {
                    &&& old(self).spec_entry(sequence) is None
                    &&& *final(self) == *old(self)
                },
            },
    {
        let index = self.index_of(sequence);
        let hit = match self.sequences[index] {
            Some(s) => s == sequence,
            None => false,
        };
        if hit {
            Some(&mut self.data[index])
        } else {
            None
        }
    }

    /// The sequence and contents stored at a slot index.
    pub fn get_index(&self, index: usize) -> (r: (&Option<SequenceNumber>, &Option<T>))
        requires
            self.wf(),
            index < self.spec_capacity(),
        ensures
            *r.0 == self.sequences@[index as int],
            *r.1 == self.data@[index as int],
    {
        (&self.sequences[index], &self.data[index])
    }

    /// The sequence stored at a slot index, and its contents mutably. The
    /// caller must leave an occupied slot occupied.
    pub fn get_index_mut(&mut self, index: usize) -> (r: (Option<SequenceNumber>, &mut Option<T>))
        requires
            old(self).wf(),
            index < old(self).spec_capacity(),
        ensures
            r.0 == old(self).sequences@[index as int],
            *r.1 == old(self).data@[index as int],
            final(self).sequences@ == old(self).sequences@,
            final(self).data@ == old(self).data@.update(index as int, *final(r.1)),
    {
        let seq_here = self.sequences[index];
        (seq_here, &mut self.data[index])
    }

    /// Stores `data` under `sequence`, evicting whatever occupied the slot,
    /// and hands back the stored value mutably.
    pub fn insert(&mut self, sequence: SequenceNumber, data: T) -> (r: &mut T)
        requires
            old(self).wf(),
        ensures
            *r == data,
            final(self).sequences@ == old(self).sequences@.update(
                old(self).spec_index_of(sequence),
                Some(sequence),
            ),
            final(self).data@ == old(self).data@.update(
                old(self).spec_index_of(sequence),
                Some(*final(r)),
            ),
            final(self).wf(),
            final(self).spec_entry(sequence) == Some(*final(r)),
    {
        let index = self.index_of(sequence);
        self.sequences.set(index, Some(sequence));
        let slot = &mut self.data[index];
        slot.insert(data)
    }

    /// The value under `sequence`, or `data` stored there if the slot does
    /// not record `sequence` (evicting any other occupant), handed back
    /// mutably.
    pub fn get_or_insert(&mut self, sequence: SequenceNumber, data: T) -> (r: &mut T)
        requires
            old(self).wf(),
        ensures
            *r == (match old(self).spec_entry(sequence) {
                Some(t) => t,
                None => data,
            }),
            final(self).sequences@ == old(self).sequences@.update(
                old(self).spec_index_of(sequence),
                Some(sequence),
            ),
            final(self).data@ == old(self).data@.update(
                old(self).spec_index_of(sequence),
                Some(*final(r)),
            ),
            final(self).wf(),
            final(self).spec_entry(sequence) == Some(*final(r)),
    {
        let index = self.index_of(sequence);
        let hit = match self.sequences[index] {
            Some(s) => s == sequence,
            None => false,
        };
        if hit {
            proof {
                assert(old(self).sequences@.update(index as int, Some(sequence)) =~= old(
                    self,
                ).sequences@);
            }
            let slot = &mut self.data[index];
            let r = slot.get_or_insert(data);
            r
        } else {
            self.insert(sequence, data)
        }
    }

    /// Like `get_or_insert`, with the value built only on a miss.
    pub fn get_or_insert_with<F: FnOnce() -> T>(&mut self, sequence: SequenceNumber, f: F) -> (r:
        &mut T)
        requires
            old(self).wf(),
            f.requires(()),
        ensures
            (match old(self).spec_entry(sequence) {
                Some(t) => *r == t,
                None => f.ensures((), *r),
            }),
            final(self).sequences@ == old(self).sequences@.update(
                old(self).spec_index_of(sequence),
                Some(sequence),
            ),
            final(self).data@ == old(self).data@.update(
                old(self).spec_index_of(sequence),
                Some(*final(r)),
            ),
            final(self).wf(),
            final(self).spec_entry(sequence) == Some(*final(r)),
    {
        let index = self.index_of(sequence);
        let hit = match self.sequences[index] {
            Some(s) => s == sequence,
            None => false,
        };
        if hit {
            proof {
                assert(old(self).sequences@.update(index as int, Some(sequence)) =~= old(
                    self,
                ).sequences@);
            }
            let slot = &mut self.data[index];
            let r = slot.get_or_insert(f());
            r
        } else {
            self.insert(sequence, f())
        }
    }

    /// Clears the slot `sequence` maps to, returning whatever it held.
    pub fn remove(&mut self, sequence: SequenceNumber) -> (r: Option<T>)
        requires
            old(self).wf(),
        ensures
            r == old(self).data@[old(self).spec_index_of(sequence)],
            final(self).sequences@ == old(self).sequences@.update(
                old(self).spec_index_of(sequence),
                None,
            ),
            final(self).data@ == old(self).data@.update(
                old(self).spec_index_of(sequence),
                None,
            ),
            final(self).wf(),
            final(self).spec_entry(sequence) is None,
    {
        let index = self.index_of(sequence);
        self.sequences.set(index, None);
        let slot = &mut self.data[index];
        slot.take()
    }

    /// Clears a slot by index, returning the sequence and value it held.
    pub fn remove_index(&mut self, index: usize) -> (r: (Option<SequenceNumber>, Option<T>))
        requires
            old(self).wf(),
            index < old(self).spec_capacity(),
        ensures
            r.0 == old(self).sequences@[index as int],
            r.1 == old(self).data@[index as int],
            final(self).sequences@ == old(self).sequences@.update(index as int, None),
            final(self).data@ == old(self).data@.update(index as int, None),
            final(self).wf(),
    {
        let seq_here = self.sequences[index];
        self.sequences.set(index, None);
        let slot = &mut self.data[index];
        let d = slot.take();
        (seq_here, d)
    }

    /// Whether slot `i` falls in the index span from `start`'s slot
    /// (inclusive) to `end`'s slot (exclusive), wrapping at the capacity.
    pub open spec fn spec_in_index_range(
        self,
        start: SequenceNumber,
        end: SequenceNumber,
        i: int,
    ) -> bool {
        let si = self.spec_index_of(start);
        let ei = self.spec_index_of(end);
        if ei < si {
            i < ei || si <= i
        } else {
            si <= i < ei
        }
    }

    /// Clears every slot in the index span from `start`'s slot to `end`'s
    /// slot, wrapping when `end`'s index is below `start`'s.
    pub fn remove_range(&mut self, start: SequenceNumber, end: SequenceNumber)
        requires
            old(self).wf(),
        ensures
            final(self).wf(),
            final(self).sequences@.len() == old(self).sequences@.len(),
            forall|i: int|
                0 <= i < old(self).spec_capacity() ==> (#[trigger] final(self).sequences@[i])
                    == if old(self).spec_in_index_range(start, end, i) {
                    None
                } else {
                    old(self).sequences@[i]
                },
            forall|i: int|
                0 <= i < old(self).spec_capacity() ==> (#[trigger] final(self).data@[i]) == if old(
                    self,
                ).spec_in_index_range(start, end, i) {
                    None
                } else {
                    old(self).data@[i]
                },
    {
        let start_idx = self.index_of(start);
        let end_idx = self.index_of(end);
        let cap = self.sequences.len();
        if end_idx < start_idx {
            let mut i: usize = 0;
            while i < end_idx
                invariant
                    end_idx < start_idx < cap,
                    i <= end_idx,
                    self.sequences@.len() == cap,
                    self.data@.len() == cap,
                    forall|j: int|
                        0 <= j < cap ==> (#[trigger] self.sequences@[j]) == if j < i {
                            None
                        } else {
                            old(self).sequences@[j]
                        },
                    forall|j: int|
                        0 <= j < cap ==> (#[trigger] self.data@[j]) == if j < i {
                            None
                        } else {
                            old(self).data@[j]
                        },
                decreases end_idx - i,
            {
                self.sequences.set(i, None);
                self.data.set(i, None);
                i += 1;
            }
            let mut k: usize = start_idx;
            while k < cap
                invariant
                    end_idx < start_idx < cap,
                    start_idx <= k <= cap,
                    self.sequences@.len() == cap,
                    self.data@.len() == cap,
                    forall|j: int|
                        0 <= j < cap ==> (#[trigger] self.sequences@[j]) == if j < end_idx || (
                        start_idx <= j < k) {
                            None
                        } else {
                            old(self).sequences@[j]
                        },
                    forall|j: int|
                        0 <= j < cap ==> (#[trigger] self.data@[j]) == if j < end_idx || (start_idx
                            <= j < k) {
                            None
                        } else {
                            old(self).data@[j]
                        },
                decreases cap - k,
            {
                self.sequences.set(k, None);
                self.data.set(k, None);
                k += 1;
            }
        } else {
            let mut i: usize = start_idx;
            while i < end_idx
                invariant
                    start_idx <= i <= end_idx <= cap,
                    self.sequences@.len() == cap,
                    self.data@.len() == cap,
                    forall|j: int|
                        0 <= j < cap ==> (#[trigger] self.sequences@[j]) == if start_idx <= j < i {
                            None
                        } else {
                            old(self).sequences@[j]
                        },
                    forall|j: int|
                        0 <= j < cap ==> (#[trigger] self.data@[j]) == if start_idx <= j < i {
                            None
                        } else {
                            old(self).data@[j]
                        },
                decreases end_idx - i,
            {
                self.sequences.set(i, None);
                self.data.set(i, None);
                i += 1;
            }
        }
    }
}

} // verus!
