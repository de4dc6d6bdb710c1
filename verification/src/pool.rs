//! A fixed-capacity pool of equal-sized byte buffers with generation-checked
//! handles.
//!
//! A handle stays valid until its buffer is released; releasing bumps the
//! slot's generation, so every outstanding handle to that slot goes stale and
//! `get` on it returns `None`. Free slots form a doubly-linked list threaded
//! through the slot metadata, so acquire and release are constant time.

use vstd::prelude::*;
use vstd::pervasive::VecAdditionalExecFns;
use vstd::seq_lib::*;
use vstd::set_lib::*;

verus! {

/// An error from the buffer pool.
#[derive(Clone, Copy, Debug, PartialEq, Eq, Structural)]
pub enum PoolError {
    /// Every buffer is held; the request is refused, not queued.
    Exhausted,
    /// The handle's slot was released (and possibly reused) since the handle
    /// was issued, or the handle never came from this pool.
    StaleHandle,
}

/// An opaque reference into the pool: a slot index tagged with the slot's
/// generation at acquire time.
#[derive(Clone, Copy, Debug, PartialEq, Eq, Structural)]
pub struct BufferHandle {
    pub index: u32,
    pub generation: u32,
}

/// Bookkeeping for one pool slot.
#[derive(Clone, Copy, Debug, PartialEq, Eq)]
pub struct BufferMetadata {
    /// The connection and channel the buffer was acquired for, while held.
    pub holder: Option<(u64, u64)>,
    /// Bumped on every release to invalidate outstanding handles.
    pub generation: u32,
    /// Previous slot in the freelist, while free.
    pub prev: Option<usize>,
    /// Next slot in the freelist, while free.
    pub next: Option<usize>,
}

/// A fixed set of equal-sized buffers handed out and taken back in constant
/// time.
pub struct BufferPool {
    pub bufs: Vec<Vec<u8>>,
    pub meta: Vec<BufferMetadata>,
    pub buffer_size: usize,
    pub capacity: usize,
    pub capacity_remaining: usize,
    pub free_head: Option<usize>,
    /// The freelist order, head first: a ghost mirror of the links threaded
    /// through `meta`.
    pub free_list: Ghost<Seq<usize>>,
}

/// Distinct values below `cap` cannot number more than `cap`.
proof fn lemma_distinct_bounded_len(s: Seq<usize>, cap: nat)
    requires
        s.no_duplicates(),
        forall|k: int| 0 <= k < s.len() ==> (#[trigger] s[k]) < cap,
    ensures
        s.len() <= cap,
{
    let f = |x: usize| x as int;
    let t = s.map_values(f);
    s.lemma_no_duplicates_injective(f);
    t.unique_seq_to_set();
    assert(t.to_set().subset_of(set_int_range(0, cap as int))) by {
        assert forall|x: int| t.to_set().contains(x) implies set_int_range(
            0,
            cap as int,
        ).contains(x) by {
            let k = choose|k: int| 0 <= k < t.len() && t[k] == x;
            assert(s[k] < cap);
        }
    }
    lemma_int_range(0, cap as int);
    lemma_len_subset(t.to_set(), set_int_range(0, cap as int));
}

impl BufferPool {
    /// The slot indices the freelist holds, in order; a free slot appears
    /// exactly once, a held slot never.
    pub open spec fn spec_free(self) -> Seq<usize> {
        self.free_list@
    }

    /// Well-formedness: the parallel vectors agree with `capacity`, every
    /// buffer has the fixed size, and the freelist links mirror the ghost
    /// order exactly.
    pub open spec fn wf(self) -> bool {
        &&& self.meta@.len() == self.capacity
        &&& self.bufs@.len() == self.capacity
        &&& self.capacity <= u32::MAX
        &&& forall|i: int|
            0 <= i < self.capacity ==> (#[trigger] self.bufs@[i])@.len() == self.buffer_size
        &&& self.free_list@.len() == self.capacity_remaining
        &&& self.free_list@.no_duplicates()
        &&& forall|k: int|
            0 <= k < self.free_list@.len() ==> (#[trigger] self.free_list@[k]) < self.capacity
        &&& forall|i: int|
            0 <= i < self.capacity ==> ((#[trigger] self.meta@[i].holder) is None
                <==> self.free_list@.contains(i as usize))
        &&& (self.free_list@.len() == 0 <==> self.free_head is None)
        &&& (self.free_list@.len() > 0 ==> self.free_head == Some(self.free_list@[0]))
        &&& forall|k: int|
            0 <= k < self.free_list@.len() - 1 ==> self.meta@[#[trigger] self.free_list@[k] as int].next
                == Some(self.free_list@[k + 1])
        &&& (self.free_list@.len() > 0 ==> self.meta@[self.free_list@.last() as int].next is None)
        &&& (self.free_list@.len() > 0 ==> self.meta@[self.free_list@[0] as int].prev is None)
        &&& forall|k: int|
            1 <= k < self.free_list@.len() ==> self.meta@[#[trigger] self.free_list@[k] as int].prev
                == Some(self.free_list@[k - 1])
    }

    /// A handle currently addresses its slot: the index is in range and the
    /// generation matches.
    pub open spec fn spec_valid_handle(self, handle: BufferHandle) -> bool {
        &&& (handle.index as int) < self.capacity
        &&& self.meta@[handle.index as int].generation == handle.generation
    }

    /// Builds a pool of `capacity` buffers of `buffer_size` bytes each, all
    /// free, generations zero, freelist in index order.
    pub fn new(buffer_size: usize, capacity: usize) -> (r: Self)
        requires
            capacity <= u32::MAX,
        ensures
            r.wf(),
            r.buffer_size == buffer_size,
            r.capacity == capacity,
            r.capacity_remaining == capacity,
            r.free_head == (if capacity > 0 {
                Some(0usize)
            } else {
                None
            }),
            r.spec_free() == Seq::new(capacity as nat, |k: int| k as usize),
            forall|i: int|
                0 <= i < capacity ==> (#[trigger] r.meta@[i]).holder is None && r.meta@[
                    i].generation == 0,
    {
        let mut meta: Vec<BufferMetadata> = Vec::new();
        let mut bufs: Vec<Vec<u8>> = Vec::new();
        let mut i: usize = 0;
        while i < capacity
            invariant
                i <= capacity <= u32::MAX,
                meta@.len() == i,
                bufs@.len() == i,
                forall|j: int|
                    0 <= j < i ==> {
                        &&& (#[trigger] meta@[j]).holder is None
                        &&& meta@[j].generation == 0
                        &&& meta@[j].prev == if j == 0 {
                            Option::<usize>::None
                        } else {
                            Some((j - 1) as usize)
                        }
                        &&& meta@[j].next == if j == i - 1 {
                            Option::<usize>::None
                        } else {
                            Some((j + 1) as usize)
                        }
                    },
                forall|j: int| 0 <= j < i ==> (#[trigger] bufs@[j])@ =~= Seq::new(
                    buffer_size as nat,
                    |k: int| 0u8,
                ),
            decreases capacity - i,
        {
            let metadata = BufferMetadata {
                holder: None,
                generation: 0,
                prev: if i == 0 {
                    None
                } else {
                    Some(i - 1)
                },
                next: None,
            };
            if meta.len() > 0 {
                let last = meta.len() - 1;
                let mut prev_meta = meta[last];
                prev_meta.next = Some(i);
                meta.set(last, prev_meta);
            }
            meta.push(metadata);
            let buf: Vec<u8> = vec![0u8; buffer_size];
            assert(buf@ =~= Seq::new(buffer_size as nat, |k: int| 0u8));
            bufs.push(buf);
            i += 1;
        }
        let free_head = if capacity > 0 {
            Some(0usize)
        } else {
            None
        };
        let r = BufferPool {
            bufs,
            meta,
            buffer_size,
            capacity,
            capacity_remaining: capacity,
            free_head,
            free_list: Ghost(Seq::new(capacity as nat, |k: int| k as usize)),
        };
        proof {
            let fl = r.free_list@;
            assert(fl.no_duplicates());
            assert forall|i2: int| 0 <= i2 < capacity implies ((#[trigger] r.meta@[i2].holder)
                is None <==> fl.contains(i2 as usize)) by {
                assert(fl[i2] == i2 as usize);
            }
        }
        r
    }

    /// How many buffers are still free.
    pub fn capacity_remaining(&self) -> (r: usize)
        ensures
            r == self.capacity_remaining,
    {
        self.capacity_remaining
    }

    /// The buffer a handle addresses, or `None` if the handle is stale or
    /// foreign — the sole defense against reads through outdated handles.
    pub fn get(&self, handle: BufferHandle) -> (r: Option<&Vec<u8>>)
        requires
            self.wf(),
        ensures
            match r {
                Some(b) => {
                    &&& self.spec_valid_handle(handle)
                    &&& *b == self.bufs@[handle.index as int]
                },
                None => !self.spec_valid_handle(handle),
            },
    {
        let idx = handle.index as usize;
        if idx < self.meta.len() && idx < self.bufs.len() {
            if self.meta[idx].generation == handle.generation {
                Some(&self.bufs[idx])
            } else {
                None
            }
        } else {
            None
        }
    }

    /// Mutable access to the buffer a handle addresses, or `None` if the
    /// handle is stale. Nothing but the addressed buffer changes; the caller
    /// must keep its length.
    pub fn get_mut(&mut self, handle: BufferHandle) -> (r: Option<&mut Vec<u8>>)
        requires
            old(self).wf(),
        ensures
            match r {
                Some(b) => {
                    &&& old(self).spec_valid_handle(handle)
                    &&& *b == old(self).bufs@[handle.index as int]
                    &&& final(self).bufs@ == old(self).bufs@.update(
                        handle.index as int,
                        *final(b),
                    )
                    &&& final(self).meta@ == old(self).meta@
                    &&& final(self).buffer_size == old(self).buffer_size
                    &&& final(self).capacity == old(self).capacity
                    &&& final(self).capacity_remaining == old(self).capacity_remaining
                    &&& final(self).free_head == old(self).free_head
                    &&& final(self).free_list@ == old(self).free_list@
                    &&& ((*final(b))@.len() == old(self).buffer_size ==> final(self).wf())
                },
                None => {
                    &&& !old(self).spec_valid_handle(handle)
                    &&& *final(self) == *old(self)
                },
            },
    {
        let idx = handle.index as usize;
        if idx < self.meta.len() && idx < self.bufs.len() {
            if self.meta[idx].generation == handle.generation {
                Some(&mut self.bufs[idx])
            } else {
                None
            }
        } else {
            None
        }
    }

    /// Replaces the buffer a handle addresses. The replacement must have the
    /// pool's fixed buffer size; a stale handle or a wrong length is refused.
    pub fn put(&mut self, handle: BufferHandle, data: Vec<u8>) -> (r: Result<(), PoolError>)
        requires
            old(self).wf(),
        ensures
            final(self).wf(),
            match r {
                Ok(()) => {
                    &&& old(self).spec_valid_handle(handle)
                    &&& data@.len() == old(self).buffer_size
                    &&& final(self).bufs@ == old(self).bufs@.update(handle.index as int, data)
                    &&& final(self).meta@ == old(self).meta@
                    &&& final(self).buffer_size == old(self).buffer_size
                    &&& final(self).capacity == old(self).capacity
                    &&& final(self).capacity_remaining == old(self).capacity_remaining
                    &&& final(self).free_head == old(self).free_head
                    &&& final(self).free_list@ == old(self).free_list@
                },
                Err(e) => {
                    &&& e == PoolError::StaleHandle
                    &&& !(old(self).spec_valid_handle(handle) && data@.len() == old(
                        self,
                    ).buffer_size)
                    &&& *final(self) == *old(self)
                },
            },
    {
        let idx = handle.index as usize;
        if idx < self.meta.len() && idx < self.bufs.len() && data.len() == self.buffer_size {
            if self.meta[idx].generation == handle.generation {
                self.bufs.set(idx, data);
                return Ok(());
            }
        }
        Err(PoolError::StaleHandle)
    }

    /// Pops the freelist head: marks it held for `holder` and hands out a
    /// handle carrying the slot's current generation. Fails only when every
    /// buffer is held.
    pub fn acquire_for(&mut self, conn: u64, chan: u64) -> (r: Result<BufferHandle, PoolError>)
        requires
            old(self).wf(),
        ensures
            final(self).wf(),
            final(self).buffer_size == old(self).buffer_size,
            final(self).capacity == old(self).capacity,
            match r {
                Ok(h) => {
                    &&& old(self).capacity_remaining > 0
                    &&& final(self).capacity_remaining == old(self).capacity_remaining - 1
                    &&& (h.index as int) < old(self).capacity
                    &&& old(self).free_head == Some(h.index as usize)
                    &&& h.index as usize == old(self).spec_free()[0]
                    &&& final(self).spec_free() == old(self).spec_free().drop_first()
                    &&& old(self).meta@[h.index as int].holder is None
                    &&& h.generation == old(self).meta@[h.index as int].generation
                    &&& final(self).meta@[h.index as int].holder == Some((conn, chan))
                    &&& final(self).meta@[h.index as int].generation == h.generation
                    &&& final(self).spec_valid_handle(h)
                    &&& forall|i: int|
                        0 <= i < old(self).capacity && i != h.index ==> (#[trigger] final(self).meta@[i]).holder == old(self).meta@[i].holder
                            && final(self).meta@[i].generation == old(self).meta@[i].generation
                    &&& final(self).bufs@ == old(self).bufs@
                },
                Err(e) => {
                    &&& e == PoolError::Exhausted
                    &&& old(self).capacity_remaining == 0
                    &&& *final(self) == *old(self)
                },
            },
    {
        let head = match self.free_head {
            Some(h) => h,
            None => {
                return Err(PoolError::Exhausted);
            },
        };
        proof {
            assert(self.free_list@.len() > 0);
            assert(head == self.free_list@[0]);
            assert(self.free_list@.contains(head));
            assert(self.meta@[head as int].holder is None);
        }
        let generation = self.meta[head].generation;
        let next = self.meta[head].next;
        self.meta.set(
            head,
            BufferMetadata { holder: Some((conn, chan)), generation, prev: None, next: None },
        );
        if let Some(n) = next {
            proof {
                if self.free_list@.len() > 1 {
                    assert(old(self).meta@[head as int].next == Some(self.free_list@[1]));
                } else {
                    assert(old(self).meta@[head as int].next is None);
                }
            }
            let mut m = self.meta[n];
            m.prev = None;
            self.meta.set(n, m);
        }
        self.free_head = next;
        self.capacity_remaining = self.capacity_remaining - 1;
        let ghost fl0 = self.free_list@;
        proof {
            self.free_list@ = self.free_list@.drop_first();
        }
        let h = BufferHandle { index: head as u32, generation };
        proof {
            let fl = fl0;
            let fl1 = self.free_list@;
            assert(fl1 =~= fl.subrange(1, fl.len() as int));
            assert forall|i: int| 0 <= i < self.capacity implies ((#[trigger] self.meta@[
                i].holder) is None <==> fl1.contains(i as usize)) by {
                if i == head {
                    if fl1.contains(i as usize) {
                        let k = choose|k: int| 0 <= k < fl1.len() && fl1[k] == i as usize;
                        assert(fl[k + 1] == fl[0]);
                        assert(false);
                    }
                } else {
                    if self.meta@[i].holder is None {
                        assert(fl.contains(i as usize));
                        let k = choose|k: int| 0 <= k < fl.len() && fl[k] == i as usize;
                        assert(k != 0);
                        assert(fl1[k - 1] == i as usize);
                    }
                    if fl1.contains(i as usize) {
                        let k = choose|k: int| 0 <= k < fl1.len() && fl1[k] == i as usize;
                        assert(fl[k + 1] == i as usize);
                        assert(fl.contains(i as usize));
                    }
                }
            }
            assert(self.wf());
        }
        Ok(h)
    }

    /// Pops the freelist head with no holder tag.
    pub fn acquire(&mut self) -> (r: Result<BufferHandle, PoolError>)
        requires
            old(self).wf(),
        ensures
            final(self).wf(),
            final(self).buffer_size == old(self).buffer_size,
            final(self).capacity == old(self).capacity,
            match r {
                Ok(h) => {
                    &&& old(self).capacity_remaining > 0
                    &&& final(self).capacity_remaining == old(self).capacity_remaining - 1
                    &&& (h.index as int) < old(self).capacity
                    &&& old(self).free_head == Some(h.index as usize)
                    &&& h.index as usize == old(self).spec_free()[0]
                    &&& final(self).spec_free() == old(self).spec_free().drop_first()
                    &&& old(self).meta@[h.index as int].holder is None
                    &&& h.generation == old(self).meta@[h.index as int].generation
                    &&& final(self).meta@[h.index as int].holder == Some((0u64, 0u64))
                    &&& final(self).meta@[h.index as int].generation == h.generation
                    &&& final(self).spec_valid_handle(h)
                    &&& forall|i: int|
                        0 <= i < old(self).capacity && i != h.index ==> (#[trigger] final(self).meta@[i]).holder == old(self).meta@[i].holder
                            && final(self).meta@[i].generation == old(self).meta@[i].generation
                    &&& final(self).bufs@ == old(self).bufs@
                },
                Err(e) => {
                    &&& e == PoolError::Exhausted
                    &&& old(self).capacity_remaining == 0
                    &&& *final(self) == *old(self)
                },
            },
    {
        self.acquire_for(0, 0)
    }

    /// Returns a held buffer to the pool: validates the handle, clears the
    /// holder, bumps the generation (invalidating every outstanding handle to
    /// the slot) and pushes the slot onto the freelist head.
    pub fn release(&mut self, handle: BufferHandle) -> (r: Result<(), PoolError>)
        requires
            old(self).wf(),
        ensures
            final(self).wf(),
            final(self).buffer_size == old(self).buffer_size,
            final(self).capacity == old(self).capacity,
            match r {
                Ok(()) => {
                    &&& old(self).spec_valid_handle(handle)
                    &&& old(self).meta@[handle.index as int].holder is Some
                    &&& final(self).free_head == Some(handle.index as usize)
                    &&& final(self).spec_free() == seq![handle.index as usize].add(
                        old(self).spec_free(),
                    )
                    &&& final(self).capacity_remaining == old(self).capacity_remaining + 1
                    &&& final(self).meta@[handle.index as int].holder is None
                    &&& final(self).meta@[handle.index as int].generation != handle.generation
                    &&& !final(self).spec_valid_handle(handle)
                    &&& forall|i: int|
                        0 <= i < old(self).capacity && i != handle.index ==> (#[trigger] final(self).meta@[i]).holder == old(self).meta@[i].holder
                            && final(self).meta@[i].generation == old(self).meta@[i].generation
                    &&& final(self).bufs@ == old(self).bufs@
                },
                Err(e) => {
                    &&& e == PoolError::StaleHandle
                    &&& !(old(self).spec_valid_handle(handle) && old(self).meta@[
                        handle.index as int].holder is Some)
                    &&& *final(self) == *old(self)
                },
            },
    {
        let idx = handle.index as usize;
        if !(idx < self.meta.len()) {
            return Err(PoolError::StaleHandle);
        }
        if self.meta[idx].generation != handle.generation {
            return Err(PoolError::StaleHandle);
        }
        if matches!(self.meta[idx].holder, None) {
            return Err(PoolError::StaleHandle);
        }
        proof {
            assert(!self.free_list@.contains(idx));
            lemma_distinct_bounded_len(self.free_list@, self.capacity as nat);
            if self.free_list@.len() == self.capacity as nat {
                let fl = self.free_list@;
                let f = |x: usize| x as int;
                let t = fl.map_values(f);
                fl.lemma_no_duplicates_injective(f);
                t.unique_seq_to_set();
                assert forall|x: int| set_int_range(0, self.capacity as int).contains(
                    x,
                ) implies t.to_set().contains(x) by {
                    if !t.to_set().contains(x) {
                        assert(t.to_set().subset_of(
                            set_int_range(0, self.capacity as int).remove(x),
                        )) by {
                            assert forall|y: int| t.to_set().contains(y) implies set_int_range(
                                0,
                                self.capacity as int,
                            ).remove(x).contains(y) by {
                                let k = choose|k: int| 0 <= k < t.len() && t[k] == y;
                                assert(fl[k] < self.capacity);
                            }
                        }
                        lemma_int_range(0, self.capacity as int);
                        assert(set_int_range(0, self.capacity as int).remove(x).len()
                            == self.capacity - 1);
                        lemma_len_subset(
                            t.to_set(),
                            set_int_range(0, self.capacity as int).remove(x),
                        );
                        assert(false);
                    }
                }
                assert(t.to_set().contains(idx as int));
                let k = choose|k: int| 0 <= k < t.len() && t[k] == idx as int;
                assert(fl[k] == idx);
                assert(false);
            }
            assert(self.free_list@.len() < self.capacity as nat);
        }
        let generation = if self.meta[idx].generation == u32::MAX {
            0
        } else {
            self.meta[idx].generation + 1
        };
        let old_head = self.free_head;
        self.meta.set(
            idx,
            BufferMetadata { holder: None, generation, prev: None, next: old_head },
        );
        if let Some(o) = old_head {
            proof {
                assert(o == self.free_list@[0]);
                assert(self.free_list@.contains(o));
            }
            let mut m = self.meta[o];
            m.prev = Some(idx);
            self.meta.set(o, m);
        }
        self.free_head = Some(idx);
        self.capacity_remaining = self.capacity_remaining + 1;
        let ghost fl0 = self.free_list@;
        proof {
            self.free_list@ = seq![idx].add(fl0);
        }
        proof {
            let fl = fl0;
            let fl1 = self.free_list@;
            assert(fl1.len() == fl.len() + 1);
            assert(fl1[0] == idx);
            assert forall|k: int| 0 <= k < fl.len() implies fl1[k + 1] == fl[k] by {}
            assert(fl1.no_duplicates()) by {
                assert forall|a: int, b: int|
                    0 <= a < fl1.len() && 0 <= b < fl1.len() && a != b implies fl1[a] != fl1[
                    b] by {
                    if a == 0 {
                        assert(fl.contains(fl1[b]) || true);
                        if fl1[b] == idx {
                            assert(fl[b - 1] == idx);
                            assert(fl.contains(idx));
                            assert(false);
                        }
                    } else if b == 0 {
                        if fl1[a] == idx {
                            assert(fl[a - 1] == idx);
                            assert(fl.contains(idx));
                            assert(false);
                        }
                    } else {
                        assert(fl[a - 1] != fl[b - 1]);
                    }
                }
            }
            assert forall|i: int| 0 <= i < self.capacity implies ((#[trigger] self.meta@[
                i].holder) is None <==> fl1.contains(i as usize)) by {
                if i == idx {
                    assert(fl1[0] == idx);
                } else {
                    if self.meta@[i].holder is None {
                        assert(fl.contains(i as usize));
                        let k = choose|k: int| 0 <= k < fl.len() && fl[k] == i as usize;
                        assert(fl1[k + 1] == i as usize);
                    }
                    if fl1.contains(i as usize) {
                        let k = choose|k: int| 0 <= k < fl1.len() && fl1[k] == i as usize;
                        assert(k != 0);
                        assert(fl[k - 1] == i as usize);
                        assert(fl.contains(i as usize));
                    }
                }
            }
            assert(self.wf());
        }
        Ok(())
    }
}

} // verus!
