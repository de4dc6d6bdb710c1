//! Per-channel state: fragmentation, reassembly and delivery guarantees.
//!
//! A channel splits outgoing messages into fragments staged in pool buffers,
//! reassembles incoming fragments, and enforces its receive guarantee:
//! unordered delivery, sequenced (newest supersedes), or ordered (held until
//! every earlier message arrived).

use vstd::prelude::*;
use vstd::arithmetic::div_mod::lemma_fundamental_div_mod;

use crate::constants::{
    DATA_FRAME_HEADER_BYTES, DEFAULT_SEND_WINDOW_SIZE, MAX_FRAGMENTS, MAX_FRAGMENT_BYTES,
    REDUNDANT_ACK_MASK_BITS,
};
use crate::cursor::BytesMut;
use crate::frames::{spec_frame_bytes, Frame};
use crate::pool::{BufferHandle, BufferPool};
use crate::sequence_buffer::{SequenceBuffer, SequenceNumber};
use vstd::arithmetic::div_mod::lemma_div_plus_one;

verus! {

/// The reliability a channel promises for what it sends.
#[derive(Copy, Clone, Debug, PartialEq, Eq, Structural)]
pub enum Send {
    Unreliable,
    Reliable,
}

/// The ordering a channel enforces on what it receives.
#[derive(Copy, Clone, Debug, PartialEq, Eq, Structural)]
pub enum Receive {
    /// Deliver every complete message as it completes.
    Unordered,
    /// Deliver only messages newer than everything delivered before.
    Sequenced,
    /// Deliver strictly in sequence order, holding newer messages back.
    Ordered,
}

/// Where a staged outgoing fragment stands.
#[derive(Copy, Clone, Debug, PartialEq, Eq, Structural)]
pub enum SendStatus {
    Unsent,
    Sent,
    Delivered,
    Lost,
}

/// A recoverable failure while storing a message or fragment.
#[derive(Copy, Clone, Debug, PartialEq, Eq, Structural)]
pub enum ErrorKind {
    /// The fragment index lies outside the message's fragment count.
    FragmentIndexInvalid,
    /// This fragment index was already filled for the message.
    FragmentIndexAlreadyReceived,
    /// The fragment count is zero or contradicts the message's.
    FragmentCountInvalid,
    /// The message would need more fragments than the protocol allows.
    FragmentCountExceedsMax,
    /// The sequence lies below the channel's staleness threshold.
    MessageOlderThanThreshold,
    /// The pool cannot stage every fragment; nothing was acquired.
    NotEnoughBuffersAvailable,
    /// Empty messages are rejected outright.
    SendMessageZeroLength,
}

/// Per-channel acknowledgment state, one sequence space per direction.
pub struct Acknowledgement {
    /// The sequence the next outgoing message will take.
    pub next_send: SequenceNumber,
    /// The newest completed incoming sequence.
    pub latest_recv: Option<SequenceNumber>,
    /// Bit `k` set means sequence `latest_recv - k` was received.
    pub latest_recv_mask: u64,
    /// The newest of our sequences the peer acknowledged.
    pub latest_send_acked: Option<SequenceNumber>,
    /// The oldest of our sequences with no acknowledgment yet.
    pub oldest_send_unacked: Option<SequenceNumber>,
    /// Ordered receive: the sequence the application still waits for.
    pub next_recv_ordered: Option<SequenceNumber>,
}

impl Acknowledgement {
    /// Fresh state: sending from zero, nothing received or acknowledged.
    pub fn new() -> (r: Self)
        ensures
            r.next_send == 0,
            r.latest_recv is None,
            r.latest_recv_mask == 0,
            r.latest_send_acked is None,
            r.oldest_send_unacked is None,
            r.next_recv_ordered is None,
    {
        Acknowledgement {
            next_send: 0,
            latest_recv: None,
            latest_recv_mask: 0,
            latest_send_acked: None,
            oldest_send_unacked: None,
            next_recv_ordered: None,
        }
    }

    /// The sequence the next outgoing message will take.
    pub fn sequence(&self) -> (r: SequenceNumber)
        ensures
            r == self.next_send,
    {
        self.next_send
    }

    /// Bitset over the sequences just below the newest received one.
    pub fn latest_recv_mask(&self) -> (r: u64)
        ensures
            r == self.latest_recv_mask,
    {
        self.latest_recv_mask
    }

    /// The newest completed incoming sequence, if any.
    pub fn latest_recv(&self) -> (r: Option<SequenceNumber>)
        ensures
            r == self.latest_recv,
    {
        self.latest_recv
    }

    /// The newest of our sequences the peer acknowledged, if any.
    pub fn latest_send_acked(&self) -> (r: Option<SequenceNumber>)
        ensures
            r == self.latest_send_acked,
    {
        self.latest_send_acked
    }

    /// Ordered receive: the sequence the application still waits for.
    pub fn next_recv_ordered(&self) -> (r: Option<SequenceNumber>)
        ensures
            r == self.next_recv_ordered,
    {
        self.next_recv_ordered
    }

    /// The oldest of our sequences with no acknowledgment yet.
    pub fn oldest_send_unacked(&self) -> (r: Option<SequenceNumber>)
        ensures
            r == self.oldest_send_unacked,
    {
        self.oldest_send_unacked
    }
}

/// A fragment's staging place: a pool handle and the byte range inside the
/// buffer that holds the fragment payload.
pub type FragmentLocation = (BufferHandle, usize, usize);

/// How many entries of a fragment table are filled.
pub open spec fn count_some(s: Seq<Option<FragmentLocation>>) -> int
    decreases s.len(),
{
    if s.len() == 0 {
        0
    } else {
        count_some(s.drop_last()) + if s.last() is Some {
            1int
        } else {
            0int
        }
    }
}

/// Filling one empty entry raises the count by one; the count never leaves
/// `[0, len]`; a full count means every entry is filled.
pub proof fn lemma_count_some_update(
    s: Seq<Option<FragmentLocation>>,
    i: int,
    v: Option<FragmentLocation>,
)
    requires
        0 <= i < s.len(),
    ensures
        count_some(s.update(i, v)) == count_some(s) - (if s[i] is Some {
            1int
        } else {
            0int
        }) + (if v is Some {
            1int
        } else {
            0int
        }),
    decreases s.len(),
{
    let t = s.update(i, v);
    if i == s.len() - 1 {
        assert(t.drop_last() =~= s.drop_last());
    } else {
        assert(t.drop_last() =~= s.drop_last().update(i, v));
        lemma_count_some_update(s.drop_last(), i, v);
    }
}

/// The count stays within `[0, len]`.
pub proof fn lemma_count_some_bounds(s: Seq<Option<FragmentLocation>>)
    ensures
        0 <= count_some(s) <= s.len(),
    decreases s.len(),
{
    if s.len() > 0 {
        lemma_count_some_bounds(s.drop_last());
    }
}

/// A full count means every entry is filled.
pub proof fn lemma_count_some_full(s: Seq<Option<FragmentLocation>>)
    requires
        count_some(s) == s.len(),
    ensures
        forall|i: int| 0 <= i < s.len() ==> (#[trigger] s[i]) is Some,
    decreases s.len(),
{
    if s.len() > 0 {
        lemma_count_some_bounds(s.drop_last());
        lemma_count_some_full(s.drop_last());
        assert forall|i: int| 0 <= i < s.len() implies (#[trigger] s[i]) is Some by {
            if i < s.len() - 1 {
                assert(s.drop_last()[i] is Some);
            }
        }
    }
}

/// An empty fragment table counts zero.
pub proof fn lemma_count_some_none(n: nat)
    ensures
        count_some(Seq::new(n, |i: int| Option::<FragmentLocation>::None)) == 0,
    decreases n,
{
    if n > 0 {
        let s = Seq::new(n, |i: int| Option::<FragmentLocation>::None);
        assert(s.drop_last() =~= Seq::new((n - 1) as nat, |i: int| Option::<FragmentLocation>::None));
        lemma_count_some_none((n - 1) as nat);
    }
}

/// A message being put back together from incoming fragments.
pub struct RecvMessage {
    pub sequence: SequenceNumber,
    pub fragment_count: u8,
    /// How many distinct fragments have arrived.
    pub fragment_recv: u8,
    /// One staging place per fragment index, filled as fragments arrive.
    pub fragment_data: Vec<Option<FragmentLocation>>,
    pub time_created: u64,
    /// Set when the last fragment arrives.
    pub time_recv: Option<u64>,
}

impl RecvMessage {
    /// The fragment table matches the count; the arrival counter equals the
    /// number of filled entries. The message is complete exactly when the
    /// counter reaches the fragment count.
    pub open spec fn wf(self) -> bool {
        &&& self.fragment_data@.len() == self.fragment_count
        &&& 1 <= self.fragment_count
        &&& self.fragment_recv == count_some(self.fragment_data@)
    }

    /// Every fragment has arrived.
    pub open spec fn spec_complete(self) -> bool {
        self.fragment_recv == self.fragment_count
    }
}

/// A message staged for sending, fragment by fragment.
pub struct SendMessage {
    pub sequence: SequenceNumber,
    pub fragment_count: u8,
    /// How many fragments have been sent at least once.
    pub fragment_sent: u8,
    /// One staging place per fragment index.
    pub fragment_data: Vec<Option<FragmentLocation>>,
    /// Where each fragment stands.
    pub fragment_status: Vec<SendStatus>,
    pub time_created: u64,
    pub time_sent: Option<u64>,
}

impl SendMessage {
    /// The fragment tables match the count.
    pub open spec fn wf(self) -> bool {
        &&& self.fragment_data@.len() == self.fragment_count
        &&& self.fragment_status@.len() == self.fragment_count
        &&& 1 <= self.fragment_count
    }
}

/// One directionally-sequenced stream with its own guarantees and buffers.
pub struct Channel {
    pub id: u64,
    pub acks: Acknowledgement,
    pub send_guarantee: Send,
    pub recv_guarantee: Receive,
    pub send_buffer: SequenceBuffer<SendMessage>,
    pub recv_buffer: SequenceBuffer<RecvMessage>,
    /// Completed sequences awaiting the application, oldest first.
    pub delivered: Vec<SequenceNumber>,
    pub time_latest_send: Option<u64>,
    pub time_latest_recv: Option<u64>,
}

impl Channel {
    /// Both ring buffers are well formed and every stored message is well
    /// formed under its own sequence.
    pub open spec fn wf(self) -> bool {
        &&& self.send_buffer.wf()
        &&& self.recv_buffer.wf()
        &&& forall|s: SequenceNumber|
            (#[trigger] self.recv_buffer.spec_entry(s)) matches Some(m) ==> m.wf() && m.sequence
                == s
        &&& forall|s: SequenceNumber|
            (#[trigger] self.send_buffer.spec_entry(s)) matches Some(m) ==> m.wf() && m.sequence
                == s
    }

    /// A fresh channel with empty windows of the default size.
    pub fn new(id: u64, send_guarantee: Send, recv_guarantee: Receive) -> (r: Self)
        ensures
            r.wf(),
            r.id == id,
            r.send_guarantee == send_guarantee,
            r.recv_guarantee == recv_guarantee,
            r.acks.next_send == 0,
            r.acks.latest_recv is None,
            r.acks.latest_recv_mask == 0,
            r.acks.latest_send_acked is None,
            r.acks.oldest_send_unacked is None,
            r.acks.next_recv_ordered is None,
            r.time_latest_send is None,
            r.time_latest_recv is None,
            r.delivered@.len() == 0,
            r.recv_buffer.spec_capacity() == DEFAULT_SEND_WINDOW_SIZE,
            r.send_buffer.spec_capacity() == DEFAULT_SEND_WINDOW_SIZE,
            forall|s: SequenceNumber| r.recv_buffer.spec_entry(s) is None,
            forall|s: SequenceNumber| r.send_buffer.spec_entry(s) is None,
    {
        Channel {
            id,
            acks: Acknowledgement::new(),
            send_guarantee,
            recv_guarantee,
            send_buffer: SequenceBuffer::with_capacity(DEFAULT_SEND_WINDOW_SIZE),
            recv_buffer: SequenceBuffer::with_capacity(DEFAULT_SEND_WINDOW_SIZE),
            delivered: Vec::new(),
            time_latest_send: None,
            time_latest_recv: None,
        }
    }
}

/// The larger of an optional previous maximum and a new sequence.
pub open spec fn spec_max_seq(prev: Option<SequenceNumber>, s: SequenceNumber) -> SequenceNumber {
    match prev {
        None => s,
        Some(l) => if l > s {
            l
        } else {
            s
        },
    }
}

impl Channel {
    /// Whether an incoming sequence falls below the channel's staleness
    /// threshold: a window behind the newest completed sequence for
    /// unordered channels, the newest completed sequence itself for
    /// sequenced ones, and the next undelivered sequence for ordered ones.
    pub open spec fn spec_stale(self, sequence: SequenceNumber) -> bool {
        match self.recv_guarantee {
            Receive::Unordered => match self.acks.latest_recv {
                Some(lr) => (sequence as int) < lr - self.recv_buffer.spec_capacity(),
                None => false,
            },
            Receive::Sequenced => match self.acks.latest_recv {
                Some(lr) => sequence < lr,
                None => false,
            },
            Receive::Ordered => match self.acks.next_recv_ordered {
                Some(n) => sequence < n,
                None => false,
            },
        }
    }

    /// The error an incoming fragment is rejected with, if any: staleness
    /// first; then, when a message is already being assembled under this
    /// sequence, a count mismatch before the index-range check before the
    /// duplicate check; for a fresh sequence, the fragment's own shape.
    pub open spec fn spec_incoming_error(
        self,
        sequence: SequenceNumber,
        fragment_index: u8,
        fragment_count: u8,
    ) -> Option<ErrorKind> {
        if self.spec_stale(sequence) {
            Some(ErrorKind::MessageOlderThanThreshold)
        } else {
            match self.recv_buffer.spec_entry(sequence) {
                Some(m) => if m.fragment_count != fragment_count {
                    Some(ErrorKind::FragmentCountInvalid)
                } else if fragment_index >= fragment_count {
                    Some(ErrorKind::FragmentIndexInvalid)
                } else if m.fragment_data@[fragment_index as int] is Some {
                    Some(ErrorKind::FragmentIndexAlreadyReceived)
                } else {
                    None
                },
                None => if fragment_count == 0 {
                    Some(ErrorKind::FragmentCountInvalid)
                } else if fragment_index >= fragment_count {
                    Some(ErrorKind::FragmentIndexInvalid)
                } else {
                    None
                },
            }
        }
    }

    /// A message is stored under `s` and every one of its fragments arrived.
    pub open spec fn spec_complete_at(self, s: SequenceNumber) -> bool {
        self.recv_buffer.spec_entry(s) matches Some(m) && m.spec_complete()
    }

    /// What completing `sequence` delivers. Unordered channels deliver it at
    /// once. Sequenced channels do too: their staleness rule already rejects
    /// fragments below the newest completed sequence, so an older message
    /// can never complete after a newer one — that is this design's
    /// supersession rule, keyed by sequence number. Ordered channels deliver
    /// the unbroken run of complete messages starting at the next
    /// undelivered sequence.
    pub open spec fn spec_delivery(pre: Channel, post: Channel, sequence: SequenceNumber) -> bool {
        match pre.recv_guarantee {
            Receive::Unordered => {
                &&& post.delivered@ == pre.delivered@.push(sequence)
                &&& post.acks.next_recv_ordered == pre.acks.next_recv_ordered
            },
            Receive::Sequenced => {
                &&& post.delivered@ == pre.delivered@.push(sequence)
                &&& post.acks.next_recv_ordered == pre.acks.next_recv_ordered
            },
            Receive::Ordered => {
                let n1 = match pre.acks.next_recv_ordered {
                    Some(n) => n,
                    None => 0,
                };
                &&& post.acks.next_recv_ordered matches Some(n2) && {
                    &&& n1 <= n2
                    &&& (n2 == n1 || n2 <= spec_max_seq(pre.acks.latest_recv, sequence) + 1)
                    &&& post.delivered@.len() == pre.delivered@.len() + (n2 - n1)
                    &&& forall|i: int|
                        0 <= i < pre.delivered@.len() ==> (#[trigger] post.delivered@[i])
                            == pre.delivered@[i]
                    &&& forall|i: int|
                        0 <= i < n2 - n1 ==> (#[trigger] post.delivered@[pre.delivered@.len() + i])
                            as int == n1 + i
                    &&& forall|i: int|
                        0 <= i < n2 - n1 ==> #[trigger] post.spec_complete_at(((n1 + i) as u64))
                    &&& (n2 <= spec_max_seq(pre.acks.latest_recv, sequence) && n2 < u64::MAX
                        ==> !post.spec_complete_at(n2))
                }
            },
        }
    }

    /// Whether the message stored under `s` (if any) has every fragment.
    fn is_complete(&self, s: SequenceNumber) -> (r: bool)
        requires
            self.wf(),
        ensures
            r == self.spec_complete_at(s),
    {
        match self.recv_buffer.get(s) {
            Some(inner) => match inner {
                Some(m) => m.fragment_recv == m.fragment_count,
                None => false,
            },
            None => false,
        }
    }

    /// Releases every pool buffer a dying inbound message still holds.
    fn release_recv_message(pool: &mut BufferPool, m: &RecvMessage)
        requires
            old(pool).wf(),
        ensures
            final(pool).wf(),
            final(pool).buffer_size == old(pool).buffer_size,
            final(pool).capacity == old(pool).capacity,
            final(pool).capacity_remaining >= old(pool).capacity_remaining,
            final(pool).bufs@ == old(pool).bufs@,
            forall|i: int|
                0 <= i < old(pool).capacity && (#[trigger] old(pool).meta@[i]).holder is None
                    ==> final(pool).meta@[i].holder is None && final(pool).meta@[i].generation
                    == old(pool).meta@[i].generation,
    {
        let mut i: usize = 0;
        while i < m.fragment_data.len()
            invariant
                pool.wf(),
                pool.buffer_size == old(pool).buffer_size,
                pool.capacity == old(pool).capacity,
                pool.capacity_remaining >= old(pool).capacity_remaining,
                pool.bufs@ == old(pool).bufs@,
                forall|k: int|
                    0 <= k < old(pool).capacity && (#[trigger] old(pool).meta@[k]).holder
                        is None ==> pool.meta@[k].holder is None && pool.meta@[k].generation
                        == old(pool).meta@[k].generation,
            decreases m.fragment_data@.len() - i,
        {
            if let Some(loc) = m.fragment_data[i] {
                let _ = pool.release(loc.0);
            }
            i += 1;
        }
    }

    /// Stores one incoming fragment, creating (and if need be evicting) the
    /// message slot for its sequence, and on completion queues deliveries
    /// according to the receive guarantee. Returns whether the fragment
    /// completed its message. On any error nothing changes.
    #[verifier::rlimit(80)]
    pub fn store_incoming_data(
        &mut self,
        pool: &mut BufferPool,
        sequence: SequenceNumber,
        fragment_index: u8,
        fragment_count: u8,
        handle: BufferHandle,
        start: usize,
        end: usize,
        now: u64,
    ) -> (r: Result<bool, ErrorKind>)
        requires
            old(self).wf(),
            old(pool).wf(),
        ensures
            final(self).wf(),
            final(pool).wf(),
            final(pool).buffer_size == old(pool).buffer_size,
            final(pool).capacity == old(pool).capacity,
            final(pool).bufs@ == old(pool).bufs@,
            final(pool).capacity_remaining >= old(pool).capacity_remaining,
            forall|i: int|
                0 <= i < old(pool).capacity && (#[trigger] old(pool).meta@[i]).holder is None
                    ==> final(pool).meta@[i].holder is None && final(pool).meta@[i].generation
                    == old(pool).meta@[i].generation,
            final(self).id == old(self).id,
            final(self).recv_guarantee == old(self).recv_guarantee,
            final(self).send_guarantee == old(self).send_guarantee,
            final(self).acks.next_send == old(self).acks.next_send,
            match r {
                Err(e) => {
                    &&& old(self).spec_incoming_error(sequence, fragment_index, fragment_count)
                        == Some(e)
                    &&& *final(self) == *old(self)
                    &&& *final(pool) == *old(pool)
                },
                Ok(completed) => {
                    &&& old(self).spec_incoming_error(sequence, fragment_index, fragment_count)
                        is None
                    &&& final(self).recv_buffer.spec_entry(sequence) matches Some(m2) && {
                        &&& m2.fragment_count == fragment_count
                        &&& m2.fragment_data@ == (match old(self).recv_buffer.spec_entry(
                            sequence,
                        ) {
                            Some(m1) => m1.fragment_data@,
                            None => Seq::new(
                                fragment_count as nat,
                                |i: int| Option::<FragmentLocation>::None,
                            ),
                        }).update(fragment_index as int, Some((handle, start, end)))
                        &&& m2.fragment_data@[fragment_index as int] == Some(
                            (handle, start, end),
                        )
                        &&& completed == m2.spec_complete()
                    }
                    &&& forall|s2: SequenceNumber|
                        s2 != sequence ==> (#[trigger] final(self).recv_buffer.spec_entry(s2))
                            == (if old(self).recv_buffer.spec_index_of(s2) == old(
                            self,
                        ).recv_buffer.spec_index_of(sequence) {
                            Option::<RecvMessage>::None
                        } else {
                            old(self).recv_buffer.spec_entry(s2)
                        })
                    &&& (completed ==> final(self).acks.latest_recv == Some(
                        spec_max_seq(old(self).acks.latest_recv, sequence),
                    ) && final(self).time_latest_recv == Some(now) && Channel::spec_delivery(
                        *old(self),
                        *final(self),
                        sequence,
                    ))
                    &&& (!completed ==> final(self).acks == old(self).acks
                        && final(self).delivered@ == old(self).delivered@
                        && final(self).time_latest_recv == old(self).time_latest_recv)
                },
            },
    {
        match self.recv_guarantee {
            Receive::Unordered => {
                if let Some(lr) = self.acks.latest_recv {
                    let window = self.recv_buffer.capacity() as u64;
                    let threshold = if lr >= window {
                        lr - window
                    } else {
                        0
                    };
                    if sequence < threshold {
                        return Err(ErrorKind::MessageOlderThanThreshold);
                    }
                }
            },
            Receive::Sequenced => {
                if let Some(lr) = self.acks.latest_recv {
                    if sequence < lr {
                        return Err(ErrorKind::MessageOlderThanThreshold);
                    }
                }
            },
            Receive::Ordered => {
                if let Some(n) = self.acks.next_recv_ordered {
                    if sequence < n {
                        return Err(ErrorKind::MessageOlderThanThreshold);
                    }
                }
            },
        }
        let mut message: RecvMessage = if self.recv_buffer.contains(sequence) {
            let hit_count_ok = match self.recv_buffer.get(sequence) {
                Some(inner) => match inner {
                    Some(m) => m.fragment_count == fragment_count,
                    None => false,
                },
                None => false,
            };
            if !hit_count_ok {
                return Err(ErrorKind::FragmentCountInvalid);
            }
            if fragment_index >= fragment_count {
                return Err(ErrorKind::FragmentIndexInvalid);
            }
            let hit_free = match self.recv_buffer.get(sequence) {
                Some(inner) => match inner {
                    Some(m) => m.fragment_data[fragment_index as usize].is_none(),
                    None => false,
                },
                None => false,
            };
            if !hit_free {
                return Err(ErrorKind::FragmentIndexAlreadyReceived);
            }
            match self.recv_buffer.remove(sequence) {
                Some(m) => m,
                None => {
                    return Err(ErrorKind::FragmentCountInvalid);
                },
            }
        } else {
            if fragment_count == 0 {
                return Err(ErrorKind::FragmentCountInvalid);
            }
            if fragment_index >= fragment_count {
                return Err(ErrorKind::FragmentIndexInvalid);
            }
            let index = self.recv_buffer.index_of(sequence);
            let (_, evicted) = self.recv_buffer.remove_index(index);
            if let Some(old_message) = evicted {
                Channel::release_recv_message(pool, &old_message);
            }
            let mut fragment_data: Vec<Option<FragmentLocation>> = Vec::new();
            let mut i: usize = 0;
            while i < fragment_count as usize
                invariant
                    i <= fragment_count as usize,
                    fragment_data@.len() == i,
                    forall|j: int| 0 <= j < i ==> (#[trigger] fragment_data@[j]) is None,
                decreases fragment_count as usize - i,
            {
                fragment_data.push(None);
                i += 1;
            }
            proof {
                assert(fragment_data@ =~= Seq::new(
                    fragment_count as nat,
                    |i: int| Option::<FragmentLocation>::None,
                ));
            }
            RecvMessage {
                sequence,
                fragment_count,
                fragment_recv: 0,
                fragment_data,
                time_created: now,
                time_recv: None,
            }
        };
        let ghost pre_data = message.fragment_data@;
        proof {
            lemma_count_some_none(fragment_count as nat);
            assert(message.fragment_data@.len() == fragment_count as int);
            assert(message.fragment_recv == count_some(pre_data));
            assert(pre_data[fragment_index as int] is None);
            lemma_count_some_bounds(pre_data);
            if count_some(pre_data) == pre_data.len() {
                lemma_count_some_full(pre_data);
                assert(false);
            }
            lemma_count_some_update(pre_data, fragment_index as int, Some((handle, start, end)));
        }
        message.fragment_data.set(fragment_index as usize, Some((handle, start, end)));
        message.fragment_recv = message.fragment_recv + 1;
        let completed = message.fragment_recv == message.fragment_count;
        if completed {
            message.time_recv = Some(now);
        }
        proof {
            assert(message.fragment_recv == count_some(message.fragment_data@));
            assert(message.wf());
            if completed {
                lemma_count_some_full(message.fragment_data@);
            }
        }
        let ghost pre_insert = *self;
        let _ = self.recv_buffer.insert(sequence, message);
        proof {
            let idx = pre_insert.recv_buffer.spec_index_of(sequence);
            assert forall|s2: SequenceNumber| #[trigger]
                self.recv_buffer.spec_entry(s2) is Some implies (self.recv_buffer.spec_entry(
                s2,
            )->Some_0.wf() && self.recv_buffer.spec_entry(s2)->Some_0.sequence == s2) by {
                if self.recv_buffer.spec_index_of(s2) == idx {
                    assert(self.recv_buffer.sequences@[idx] == Some(sequence));
                } else {
                    assert(self.recv_buffer.spec_entry(s2) == old(self).recv_buffer.spec_entry(
                        s2,
                    ));
                }
            }
            assert(self.wf());
        }
        if !completed {
            return Ok(false);
        }
        self.time_latest_recv = Some(now);
        let prev_latest = self.acks.latest_recv;
        let latest = match prev_latest {
            None => sequence,
            Some(lr) => if lr > sequence {
                lr
            } else {
                sequence
            },
        };
        self.acks.latest_recv = Some(latest);
        match self.recv_guarantee {
            Receive::Unordered => {
                self.delivered.push(sequence);
            },
            Receive::Sequenced => {
                self.delivered.push(sequence);
            },
            Receive::Ordered => {
                let n1 = match self.acks.next_recv_ordered {
                    Some(n) => n,
                    None => 0,
                };
                let mut s = n1;
                let ghost frozen = *self;
                let ghost pre_delivered = self.delivered@;
                loop
                    invariant
                        self.wf(),
                        n1 <= s,
                        s <= u64::MAX,
                        s == n1 || s <= latest + 1,
                        forall|i: int|
                            0 <= i < s - n1 ==> #[trigger] self.spec_complete_at(
                                ((n1 + i) as u64),
                            ),
                        self.recv_buffer == frozen.recv_buffer,
                        self.acks == frozen.acks,
                        self.send_buffer == frozen.send_buffer,
                        self.id == frozen.id,
                        self.recv_guarantee == frozen.recv_guarantee,
                        self.send_guarantee == frozen.send_guarantee,
                        self.time_latest_recv == frozen.time_latest_recv,
                        self.time_latest_send == frozen.time_latest_send,
                        self.delivered@.len() == pre_delivered.len() + (s - n1),
                        forall|i: int|
                            0 <= i < pre_delivered.len() ==> (#[trigger] self.delivered@[i])
                                == pre_delivered[i],
                        forall|i: int|
                            0 <= i < s - n1 ==> (#[trigger] self.delivered@[pre_delivered.len()
                                + i]) as int == n1 + i,
                    ensures
                        s == u64::MAX || s > latest || !self.spec_complete_at(s),
                    decreases u64::MAX - s,
                {
                    if !(s < u64::MAX && s <= latest) {
                        break;
                    }
                    if !self.is_complete(s) {
                        break;
                    }
                    let ghost prev = *self;
                    self.delivered.push(s);
                    proof {
                        assert forall|i: int|
                            0 <= i < (s - n1) + 1 implies #[trigger] self.spec_complete_at(
                            ((n1 + i) as u64),
                        ) by {
                            if i < s - n1 {
                                assert(prev.spec_complete_at(((n1 + i) as u64)));
                                assert(self.recv_buffer == prev.recv_buffer);
                            } else {
                                assert(prev.spec_complete_at(s));
                                assert(self.spec_complete_at(s));
                            }
                        }
                    }
                    s = s + 1;
                }
                let ghost walk_end = *self;
                self.acks.next_recv_ordered = Some(s);
                proof {
                    assert(self.recv_buffer == walk_end.recv_buffer);
                    assert forall|i: int|
                        0 <= i < s - n1 implies #[trigger] self.spec_complete_at(
                        ((n1 + i) as u64),
                    ) by {
                        assert(walk_end.spec_complete_at(((n1 + i) as u64)));
                    }
                    assert(self.spec_complete_at(s) == walk_end.spec_complete_at(s));
                }
            },
        }
        Ok(true)
    }
}


/// The outcome of noting a newly received sequence.
#[derive(Copy, Clone, Debug, PartialEq, Eq, Structural)]
pub enum NoteOutcome {
    /// The sequence is stale or duplicate; nothing changed.
    Stale,
    /// The gap exceeds the tracking window: a protocol fault.
    WindowExceeded,
    /// The newest-received sequence and its mask were advanced.
    Accepted,
}

impl Acknowledgement {
    /// Notes receipt of `seq`: rejects stale or duplicate sequences, treats
    /// a gap beyond `window` as a protocol fault, and otherwise slides the
    /// receive mask by the gap — resetting to just the newest bit when the
    /// gap reaches the mask width.
    pub fn note_recv(&mut self, seq: SequenceNumber, window: u64) -> (r: NoteOutcome)
        ensures
            final(self).next_send == old(self).next_send,
            final(self).latest_send_acked == old(self).latest_send_acked,
            final(self).oldest_send_unacked == old(self).oldest_send_unacked,
            final(self).next_recv_ordered == old(self).next_recv_ordered,
            match r {
                NoteOutcome::Stale => {
                    &&& old(self).latest_recv matches Some(lr) && seq <= lr
                    &&& *final(self) == *old(self)
                },
                NoteOutcome::WindowExceeded => {
                    &&& old(self).latest_recv matches Some(lr) && seq > lr && seq - lr > window
                    &&& *final(self) == *old(self)
                },
                NoteOutcome::Accepted => {
                    let gap = spec_gap(old(self).latest_recv, seq);
                    &&& (old(self).latest_recv matches Some(lr) ==> seq > lr && seq - lr
                        <= window)
                    &&& final(self).latest_recv == Some(seq)
                    &&& final(self).latest_recv_mask == (if gap >= REDUNDANT_ACK_MASK_BITS {
                        1u64
                    } else {
                        (old(self).latest_recv_mask << (gap as u64)) | 1u64
                    })
                },
            },
    {
        let gap: u64;
        match self.latest_recv {
            Some(lr) => {
                if seq <= lr {
                    return NoteOutcome::Stale;
                }
                let g = seq - lr;
                if g > window {
                    return NoteOutcome::WindowExceeded;
                }
                gap = g;
            },
            None => {
                gap = 0;
            },
        }
        self.latest_recv = Some(seq);
        self.latest_recv_mask = if gap >= REDUNDANT_ACK_MASK_BITS {
            1
        } else {
            (self.latest_recv_mask << gap) | 1
        };
        NoteOutcome::Accepted
    }
}

/// The outcome of processing an acknowledgment frame.
#[derive(Debug)]
pub enum AckOutcome {
    /// The receive sequence was stale or duplicate; nothing changed.
    Stale,
    /// The gap beyond the newest received sequence exceeds the tracking
    /// window: a protocol fault the caller must answer with a disconnect.
    WindowExceeded,
    /// The acknowledgment was applied: each removed sent sequence, paired
    /// with `true` when the peer reported it delivered and `false` when it
    /// counts as probably lost.
    Processed(Vec<(SequenceNumber, bool)>),
}

/// Whether a mask relative to the acknowledged sequence records receipt at
/// distance `d` below it.
pub open spec fn spec_mask_delivered(d: u64, acked_mask: u64) -> bool {
    &&& d < 64
    &&& ((acked_mask >> d) & 1u64) == 1u64
}

/// The gap from the newest received sequence to a new one (zero before
/// anything was received).
pub open spec fn spec_gap(latest_recv: Option<SequenceNumber>, recv: SequenceNumber) -> int {
    match latest_recv {
        Some(lr) => recv - lr,
        None => 0,
    }
}

impl Channel {
    /// Releases every pool buffer a dying outbound message still holds.
    fn release_send_message(pool: &mut BufferPool, m: &SendMessage)
        requires
            old(pool).wf(),
        ensures
            final(pool).wf(),
            final(pool).buffer_size == old(pool).buffer_size,
            final(pool).capacity == old(pool).capacity,
            final(pool).capacity_remaining >= old(pool).capacity_remaining,
            final(pool).bufs@ == old(pool).bufs@,
            forall|i: int|
                0 <= i < old(pool).capacity && (#[trigger] old(pool).meta@[i]).holder is None
                    ==> final(pool).meta@[i].holder is None && final(pool).meta@[i].generation
                    == old(pool).meta@[i].generation,
    {
        let mut i: usize = 0;
        while i < m.fragment_data.len()
            invariant
                pool.wf(),
                pool.buffer_size == old(pool).buffer_size,
                pool.capacity == old(pool).capacity,
                pool.capacity_remaining >= old(pool).capacity_remaining,
                pool.bufs@ == old(pool).bufs@,
                forall|k: int|
                    0 <= k < old(pool).capacity && (#[trigger] old(pool).meta@[k]).holder
                        is None ==> pool.meta@[k].holder is None && pool.meta@[k].generation
                        == old(pool).meta@[k].generation,
            decreases m.fragment_data@.len() - i,
        {
            if let Some(loc) = m.fragment_data[i] {
                let _ = pool.release(loc.0);
            }
            i += 1;
        }
    }

    /// Applies an acknowledgment frame: records the newest received sequence
    /// and slides the receive mask by the gap (resetting when the gap
    /// reaches the mask width), then classifies every tracked sent sequence
    /// up to the acknowledged one as delivered or probably lost, removing it
    /// from the send window and releasing its staged buffers.
    #[verifier::rlimit(100)]
    pub fn acknowledge(
        &mut self,
        pool: &mut BufferPool,
        recv: SequenceNumber,
        acked: SequenceNumber,
        acked_mask: u64,
    ) -> (r: AckOutcome)
        requires
            old(self).wf(),
            old(pool).wf(),
        ensures
            final(self).wf(),
            final(pool).wf(),
            final(pool).buffer_size == old(pool).buffer_size,
            final(pool).capacity == old(pool).capacity,
            final(pool).bufs@ == old(pool).bufs@,
            final(pool).capacity_remaining >= old(pool).capacity_remaining,
            forall|i: int|
                0 <= i < old(pool).capacity && (#[trigger] old(pool).meta@[i]).holder is None
                    ==> final(pool).meta@[i].holder is None && final(pool).meta@[i].generation
                    == old(pool).meta@[i].generation,
            final(self).id == old(self).id,
            final(self).recv_guarantee == old(self).recv_guarantee,
            final(self).send_guarantee == old(self).send_guarantee,
            final(self).recv_buffer == old(self).recv_buffer,
            final(self).delivered == old(self).delivered,
            final(self).acks.next_send == old(self).acks.next_send,
            final(self).acks.next_recv_ordered == old(self).acks.next_recv_ordered,
            match r {
                AckOutcome::Stale => {
                    &&& old(self).acks.latest_recv matches Some(lr) && recv <= lr
                    &&& *final(self) == *old(self)
                    &&& *final(pool) == *old(pool)
                },
                AckOutcome::WindowExceeded => {
                    &&& old(self).acks.latest_recv matches Some(lr) && recv > lr && recv - lr
                        > old(self).recv_buffer.spec_capacity()
                    &&& *final(self) == *old(self)
                    &&& *final(pool) == *old(pool)
                },
                AckOutcome::Processed(list) => {
                    let gap = spec_gap(old(self).acks.latest_recv, recv);
                    let start = match old(self).acks.oldest_send_unacked {
                        Some(o) => o,
                        None => 0,
                    };
                    &&& (old(self).acks.latest_recv matches Some(lr) ==> recv > lr && recv - lr
                        <= old(self).recv_buffer.spec_capacity())
                    &&& final(self).acks.latest_recv == Some(recv)
                    &&& final(self).acks.latest_send_acked == Some(acked)
                    &&& final(self).acks.latest_recv_mask == (if gap >= REDUNDANT_ACK_MASK_BITS {
                        1u64
                    } else {
                        (old(self).acks.latest_recv_mask << (gap as u64)) | 1u64
                    })
                    &&& final(self).acks.oldest_send_unacked == Some(
                        if acked < u64::MAX {
                            (acked + 1) as u64
                        } else {
                            u64::MAX
                        },
                    )
                    &&& forall|s: SequenceNumber|
                        start <= s <= acked ==> (#[trigger] final(self).send_buffer.spec_entry(s))
                            is None
                    &&& forall|s: SequenceNumber|
                        !(start <= s <= acked) ==> (#[trigger] final(self).send_buffer.spec_entry(
                            s,
                        )) == old(self).send_buffer.spec_entry(s)
                    &&& forall|k: int|
                        0 <= k < list@.len() ==> {
                            &&& start <= (#[trigger] list@[k]).0 <= acked
                            &&& old(self).send_buffer.spec_entry(list@[k].0) is Some
                            &&& list@[k].1 == spec_mask_delivered(
                                (acked - list@[k].0) as u64,
                                acked_mask,
                            )
                        }
                    &&& forall|s: SequenceNumber|
                        start <= s <= acked && (#[trigger] old(self).send_buffer.spec_entry(s))
                            is Some ==> exists|k: int| 0 <= k < list@.len() && list@[k].0 == s
                },
            },
    {
        let gap_u: u64;
        match self.acks.latest_recv {
            Some(lr) => {
                if recv <= lr {
                    return AckOutcome::Stale;
                }
                let g = recv - lr;
                if g > self.recv_buffer.capacity() as u64 {
                    return AckOutcome::WindowExceeded;
                }
                gap_u = g;
            },
            None => {
                gap_u = 0;
            },
        }
        let start = match self.acks.oldest_send_unacked {
            Some(o) => o,
            None => 0,
        };
        self.acks.latest_send_acked = Some(acked);
        self.acks.latest_recv = Some(recv);
        self.acks.latest_recv_mask = if gap_u >= REDUNDANT_ACK_MASK_BITS {
            1
        } else {
            (self.acks.latest_recv_mask << gap_u) | 1
        };
        self.acks.oldest_send_unacked = Some(
            if acked < u64::MAX {
                acked + 1
            } else {
                u64::MAX
            },
        );
        let mut list: Vec<(SequenceNumber, bool)> = Vec::new();
        let cap = self.send_buffer.capacity();
        let ghost pre = *self;
        let mut i: usize = 0;
        while i < cap
            invariant
                i <= cap,
                self.send_buffer.wf(),
                self.send_buffer.spec_capacity() == cap,
                cap == pre.send_buffer.spec_capacity(),
                pre.send_buffer.wf(),
                pool.wf(),
                pool.buffer_size == old(pool).buffer_size,
                pool.capacity == old(pool).capacity,
                pool.bufs@ == old(pool).bufs@,
                pool.capacity_remaining >= old(pool).capacity_remaining,
                forall|q: int|
                    0 <= q < old(pool).capacity && (#[trigger] old(pool).meta@[q]).holder
                        is None ==> pool.meta@[q].holder is None && pool.meta@[q].generation
                        == old(pool).meta@[q].generation,
                self.recv_buffer == pre.recv_buffer,
                self.acks == pre.acks,
                self.delivered == pre.delivered,
                self.id == pre.id,
                self.recv_guarantee == pre.recv_guarantee,
                self.send_guarantee == pre.send_guarantee,
                self.time_latest_recv == pre.time_latest_recv,
                self.time_latest_send == pre.time_latest_send,
                forall|j: int|
                    i <= j < cap ==> (#[trigger] self.send_buffer.sequences@[j])
                        == pre.send_buffer.sequences@[j],
                forall|j: int|
                    i <= j < cap ==> (#[trigger] self.send_buffer.data@[j])
                        == pre.send_buffer.data@[j],
                forall|j: int|
                    0 <= j < i ==> (#[trigger] self.send_buffer.sequences@[j]) == (
                    if pre.send_buffer.sequences@[j] matches Some(s) && start <= s <= acked {
                        Option::<SequenceNumber>::None
                    } else {
                        pre.send_buffer.sequences@[j]
                    }),
                forall|j: int|
                    0 <= j < i ==> (#[trigger] self.send_buffer.data@[j]) == (
                    if pre.send_buffer.sequences@[j] matches Some(s) && start <= s <= acked {
                        Option::<SendMessage>::None
                    } else {
                        pre.send_buffer.data@[j]
                    }),
                forall|k: int|
                    0 <= k < list@.len() ==> {
                        &&& start <= (#[trigger] list@[k]).0 <= acked
                        &&& pre.send_buffer.spec_entry(list@[k].0) is Some
                        &&& list@[k].1 == spec_mask_delivered(
                            (acked - list@[k].0) as u64,
                            acked_mask,
                        )
                    },
                forall|j: int|
                    (0 <= j < i && (#[trigger] pre.send_buffer.sequences@[j]) is Some && start
                        <= pre.send_buffer.sequences@[j]->Some_0 <= acked) ==> exists|k: int|
                        0 <= k < list@.len() && (#[trigger] list@[k]).0
                            == pre.send_buffer.sequences@[j]->Some_0,
            decreases cap - i,
        {
            let (seq_here, _) = self.send_buffer.get_index(i);
            let seq_copy: Option<SequenceNumber> = *seq_here;
            if let Some(s) = seq_copy {
                if start <= s && s <= acked {
                    let (_, removed) = self.send_buffer.remove_index(i);
                    if let Some(m) = &removed {
                        Channel::release_send_message(pool, m);
                    }
                    let d = acked - s;
                    let delivered_flag = d < 64 && ((acked_mask >> d) & 1) == 1;
                    proof {
                        assert(pre.send_buffer.sequences@[i as int] == Some(s));
                        assert(s as int % cap as int == i as int);
                        assert(pre.send_buffer.spec_entry(s) is Some);
                    }
                    let ghost list0 = list@;
                    list.push((s, delivered_flag));
                    proof {
                        assert forall|j: int|
                            (0 <= j < i + 1 && (#[trigger] pre.send_buffer.sequences@[j]) is Some
                                && start <= pre.send_buffer.sequences@[j]->Some_0
                                <= acked) implies exists|k: int|
                            0 <= k < list@.len() && (#[trigger] list@[k]).0
                                == pre.send_buffer.sequences@[j]->Some_0 by {
                            let s3 = pre.send_buffer.sequences@[j]->Some_0;
                            if j == i as int {
                                assert(list@[list0.len() as int].0 == s3);
                            } else {
                                let k0 = choose|k: int|
                                    0 <= k < list0.len() && (#[trigger] list0[k]).0 == s3;
                                assert(list@[k0].0 == s3);
                            }
                        }
                    }
                }
            }
            i += 1;
        }
        proof {
            assert forall|s: SequenceNumber| start <= s <= acked implies (#[trigger] final(self).send_buffer.spec_entry(s)) is None by {
                let j = self.send_buffer.spec_index_of(s);
                if self.send_buffer.sequences@[j] == Some(s) {
                    assert(pre.send_buffer.sequences@[j] == Some(s) || (
                    pre.send_buffer.sequences@[j] matches Some(s2) && start <= s2 <= acked));
                }
            }
            assert forall|s: SequenceNumber| !(start <= s <= acked) implies (#[trigger] final(self).send_buffer.spec_entry(s)) == pre.send_buffer.spec_entry(s) by {
                let j = self.send_buffer.spec_index_of(s);
                if pre.send_buffer.sequences@[j] matches Some(s2) && start <= s2 <= acked {
                    assert(self.send_buffer.sequences@[j] is None);
                } else {
                    assert(self.send_buffer.sequences@[j] == pre.send_buffer.sequences@[j]);
                    assert(self.send_buffer.data@[j] == pre.send_buffer.data@[j]);
                }
            }
            assert forall|s: SequenceNumber|
                start <= s <= acked && (#[trigger] pre.send_buffer.spec_entry(s))
                    is Some implies exists|k: int|
                0 <= k < list@.len() && (#[trigger] list@[k]).0 == s by {
                let j = pre.send_buffer.spec_index_of(s);
                assert(pre.send_buffer.sequences@[j] == Some(s));
            }
        }
        AckOutcome::Processed(list)
    }
}


impl Channel {
    /// The error an outgoing message is rejected with, if any: emptiness,
    /// then the fragment-count cap, then pool exhaustion — all checked before
    /// any buffer is acquired, so failure leaves everything untouched.
    pub open spec fn spec_outgoing_error(self, pool: BufferPool, len: int) -> Option<ErrorKind> {
        let count = spec_chunk_count(len, MAX_FRAGMENT_BYTES as int);
        if len == 0 {
            Some(ErrorKind::SendMessageZeroLength)
        } else if count > MAX_FRAGMENTS {
            Some(ErrorKind::FragmentCountExceedsMax)
        } else if count > pool.capacity_remaining {
            Some(ErrorKind::NotEnoughBuffersAvailable)
        } else {
            None
        }
    }

    /// One staged outgoing fragment: its location names the payload range
    /// behind the serialized data frame header, and the pool buffer holds
    /// exactly that frame header followed by the fragment's bytes.
    pub open spec fn spec_fragment_staged(
        channel_id: u64,
        sequence: SequenceNumber,
        count: int,
        data: Seq<u8>,
        i: int,
        loc: Option<FragmentLocation>,
        pool: BufferPool,
    ) -> bool {
        loc matches Some(l) && {
            let chunk = spec_chunk(data, i, MAX_FRAGMENT_BYTES as int);
            &&& l.1 == DATA_FRAME_HEADER_BYTES
            &&& l.2 == DATA_FRAME_HEADER_BYTES + chunk.len()
            &&& pool.spec_valid_handle(l.0)
            &&& (l.0.index as int) < pool.bufs@.len()
            &&& pool.meta@[l.0.index as int].holder == Some((0u64, channel_id))
            &&& pool.bufs@[l.0.index as int]@.len() == pool.buffer_size
            &&& pool.bufs@[l.0.index as int]@.subrange(0, DATA_FRAME_HEADER_BYTES as int)
                == spec_frame_bytes(
                Frame::Data {
                    channel_id,
                    channel_sequence: sequence,
                    fragment_index: i as u8,
                    fragment_count: count as u8,
                    len: chunk.len() as u16,
                },
            )
            &&& pool.bufs@[l.0.index as int]@.subrange(
                DATA_FRAME_HEADER_BYTES as int,
                l.2 as int,
            ) == chunk
        }
    }

    /// Splits a message into fragments, stages each one in its own pool
    /// buffer — a serialized data frame header followed by the fragment
    /// payload — and tracks the message in the send window under the next
    /// sequence. Rejects empty and oversized messages, and messages the pool
    /// cannot stage whole, before acquiring anything.
    #[verifier::rlimit(100)]
    pub fn store_outgoing_data(
        &mut self,
        pool: &mut BufferPool,
        data: &[u8],
        now: u64,
    ) -> (r: Result<(), ErrorKind>)
        requires
            old(self).wf(),
            old(pool).wf(),
            old(self).acks.next_send < u64::MAX,
            old(pool).buffer_size >= DATA_FRAME_HEADER_BYTES + MAX_FRAGMENT_BYTES,
        ensures
            final(self).wf(),
            final(pool).wf(),
            final(pool).buffer_size == old(pool).buffer_size,
            final(pool).capacity == old(pool).capacity,
            final(self).id == old(self).id,
            final(self).recv_guarantee == old(self).recv_guarantee,
            final(self).send_guarantee == old(self).send_guarantee,
            final(self).recv_buffer == old(self).recv_buffer,
            final(self).delivered == old(self).delivered,
            final(self).acks.latest_recv == old(self).acks.latest_recv,
            final(self).acks.next_recv_ordered == old(self).acks.next_recv_ordered,
            match r {
                Err(e) => {
                    &&& old(self).spec_outgoing_error(*old(pool), data@.len() as int) == Some(e)
                    &&& *final(self) == *old(self)
                    &&& *final(pool) == *old(pool)
                },
                Ok(()) => {
                    let sequence = old(self).acks.next_send;
                    let count = spec_chunk_count(data@.len() as int, MAX_FRAGMENT_BYTES as int);
                    &&& old(self).spec_outgoing_error(*old(pool), data@.len() as int) is None
                    &&& 1 <= count <= MAX_FRAGMENTS
                    &&& final(self).acks.next_send == sequence + 1
                    &&& final(self).send_buffer.spec_entry(sequence) matches Some(m) && {
                        &&& m.fragment_count == count
                        &&& m.fragment_sent == 0
                        &&& m.time_sent is None
                        &&& forall|i: int|
                            0 <= i < count ==> Channel::spec_fragment_staged(
                                old(self).id,
                                sequence,
                                count,
                                data@,
                                i,
                                #[trigger] m.fragment_data@[i],
                                *final(pool),
                            )
                        &&& forall|i: int|
                            0 <= i < count ==> (#[trigger] m.fragment_status@[i])
                                == SendStatus::Unsent
                    }
                },
            },
    {
        if data.len() == 0 {
            return Err(ErrorKind::SendMessageZeroLength);
        }
        let count: usize = (data.len() - 1) / MAX_FRAGMENT_BYTES + 1;
        proof {
            lemma_div_plus_one((data@.len() - 1) as int, MAX_FRAGMENT_BYTES as int);
            assert(count == spec_chunk_count(data@.len() as int, MAX_FRAGMENT_BYTES as int));
        }
        if count > MAX_FRAGMENTS {
            return Err(ErrorKind::FragmentCountExceedsMax);
        }
        if count > pool.capacity_remaining() {
            return Err(ErrorKind::NotEnoughBuffersAvailable);
        }
        let sequence = self.acks.next_send;
        self.acks.next_send = sequence + 1;
        let index = self.send_buffer.index_of(sequence);
        let (_, evicted) = self.send_buffer.remove_index(index);
        if let Some(old_message) = evicted {
            Channel::release_send_message(pool, &old_message);
        }
        let buffer_size = pool.buffer_size;
        let channel_id = self.id;
        let ghost len = data@.len() as int;
        let ghost mf = MAX_FRAGMENT_BYTES as int;
        proof {
            lemma_fundamental_div_mod(len - 1, mf);
        }
        let mut fragment_data: Vec<Option<FragmentLocation>> = Vec::new();
        let mut fragment_status: Vec<SendStatus> = Vec::new();
        let mut start_off: usize = 0;
        let mut i: usize = 0;
        while i < count
            invariant
                i <= count,
                count == spec_chunk_count(len, mf),
                count == (len - 1) / mf + 1,
                len == data@.len(),
                len >= 1,
                len <= usize::MAX,
                1 <= count <= MAX_FRAGMENTS,
                mf == MAX_FRAGMENT_BYTES as int,
                i < count ==> start_off == i * mf,
                i < count ==> start_off < len,
                pool.wf(),
                pool.buffer_size == buffer_size,
                buffer_size >= DATA_FRAME_HEADER_BYTES + MAX_FRAGMENT_BYTES,
                pool.capacity == old(pool).capacity,
                pool.capacity_remaining >= count - i,
                fragment_data@.len() == i,
                fragment_status@.len() == i,
                forall|j: int|
                    0 <= j < i ==> Channel::spec_fragment_staged(
                        channel_id,
                        sequence,
                        count as int,
                        data@,
                        j,
                        #[trigger] fragment_data@[j],
                        *pool,
                    ),
                forall|j: int|
                    0 <= j < i ==> (#[trigger] fragment_status@[j]) == SendStatus::Unsent,
            decreases count - i,
        {
            proof {
                lemma_fundamental_div_mod(len - 1, mf);
                assert((i + 1) * mf == i * mf + mf) by (nonlinear_arith);
                assert(((len - 1) / mf) * mf == mf * ((len - 1) / mf)) by (nonlinear_arith);
                if i + 1 < count {
                    assert(i + 1 <= (len - 1) / mf);
                    assert((i + 1) * mf <= ((len - 1) / mf) * mf) by (nonlinear_arith)
                        requires
                            i + 1 <= (len - 1) / mf,
                            mf > 0,
                    ;
                    assert(((len - 1) / mf) * mf <= len - 1);
                }
            }
            let end_off: usize = if data.len() - start_off > MAX_FRAGMENT_BYTES {
                start_off + MAX_FRAGMENT_BYTES
            } else {
                data.len()
            };
            let chunk_len = end_off - start_off;
            let mut chunk: Vec<u8> = Vec::new();
            let mut j: usize = 0;
            while j < chunk_len
                invariant
                    j <= chunk_len,
                    start_off + chunk_len <= data@.len(),
                    data@.len() <= usize::MAX,
                    chunk@ == data@.subrange(start_off as int, start_off + j),
                decreases chunk_len - j,
            {
                chunk.push(data[start_off + j]);
                assert(chunk@ =~= data@.subrange(start_off as int, start_off + j + 1));
                j += 1;
            }
            let ghost spec_piece = spec_chunk(data@, i as int, mf);
            proof {
                assert(chunk@ == spec_piece);
            }
            let handle = match pool.acquire_for(0, channel_id) {
                Ok(h) => h,
                Err(_) => {
                    proof {
                        assert(false);
                    }
                    return Err(ErrorKind::NotEnoughBuffersAvailable);
                },
            };
            let mut cur = BytesMut::zeroed(buffer_size);
            let frame = Frame::Data {
                channel_id,
                channel_sequence: sequence,
                fragment_index: i as u8,
                fragment_count: count as u8,
                len: chunk_len as u16,
            };
            let ghost cur0 = cur.inner@;
            let wrote = frame.write(&mut cur);
            proof {
                crate::cursor::lemma_be_bytes_len(channel_id as nat, 8);
                crate::cursor::lemma_be_bytes_len(sequence as nat, 8);
                crate::cursor::lemma_be_bytes_len(chunk_len as nat, 2);
                assert(spec_frame_bytes(frame).len() == DATA_FRAME_HEADER_BYTES);
                assert(wrote is Ok);
            }
            let ghost cur1 = cur.inner@;
            let copied = cur.copy_from_slice(chunk.as_slice());
            proof {
                assert(copied is Ok);
            }
            let filled = cur.into_inner();
            proof {
                assert(filled@.len() == buffer_size);
                assert(filled@.subrange(0, DATA_FRAME_HEADER_BYTES as int) =~= spec_frame_bytes(
                    frame,
                ));
                assert(filled@.subrange(
                    DATA_FRAME_HEADER_BYTES as int,
                    DATA_FRAME_HEADER_BYTES + chunk_len,
                ) =~= chunk@);
            }
            let ghost pool_before_put = *pool;
            let put_r = pool.put(handle, filled);
            proof {
                assert(put_r is Ok);
            }
            fragment_data.push(Some((handle, DATA_FRAME_HEADER_BYTES, DATA_FRAME_HEADER_BYTES
                + chunk_len)));
            fragment_status.push(SendStatus::Unsent);
            proof {
                assert(Channel::spec_fragment_staged(
                    channel_id,
                    sequence,
                    count as int,
                    data@,
                    i as int,
                    fragment_data@[i as int],
                    *pool,
                ));
            }
            start_off = end_off;
            proof {
                if i + 1 < count {
                    assert(start_off == (i + 1) * mf);
                }
            }
            i += 1;
        }
        let message = SendMessage {
            sequence,
            fragment_count: count as u8,
            fragment_sent: 0,
            fragment_data,
            fragment_status,
            time_created: now,
            time_sent: None,
        };
        let ghost pre_insert = *self;
        let _ = self.send_buffer.insert(sequence, message);
        proof {
            let idx = pre_insert.send_buffer.spec_index_of(sequence);
            assert forall|s2: SequenceNumber| #[trigger]
                self.send_buffer.spec_entry(s2) is Some implies (self.send_buffer.spec_entry(
                s2,
            )->Some_0.wf() && self.send_buffer.spec_entry(s2)->Some_0.sequence == s2) by {
                if self.send_buffer.spec_index_of(s2) == idx {
                    assert(self.send_buffer.sequences@[idx] == Some(sequence));
                } else {
                    assert(self.send_buffer.spec_entry(s2) == old(self).send_buffer.spec_entry(
                        s2,
                    ));
                }
            }
            assert(self.wf());
        }
        Ok(())
    }
}


/// The fragments of a fragment table, glued in index order as their bytes
/// sit in the pool (missing entries contribute nothing).
pub open spec fn spec_assemble_upto(
    fd: Seq<Option<FragmentLocation>>,
    pool: BufferPool,
    n: int,
) -> Seq<u8>
    decreases n,
{
    if n <= 0 {
        Seq::empty()
    } else {
        spec_assemble_upto(fd, pool, n - 1) + (match fd[n - 1] {
            Some(l) => pool.bufs@[l.0.index as int]@.subrange(l.1 as int, l.2 as int),
            None => Seq::empty(),
        })
    }
}

/// Every fragment entry is filled and still addresses a live pool buffer
/// with a byte range inside it.
pub open spec fn spec_frags_live(fd: Seq<Option<FragmentLocation>>, pool: BufferPool) -> bool {
    forall|i: int|
        0 <= i < fd.len() ==> ((#[trigger] fd[i]) matches Some(l) && {
            &&& pool.spec_valid_handle(l.0)
            &&& (l.0.index as int) < pool.bufs@.len()
            &&& l.1 <= l.2 <= pool.bufs@[l.0.index as int]@.len()
        })
}

impl Channel {
    /// Hands the application the oldest queued delivery: reassembles its
    /// fragments in index order, releases their pool buffers and drops the
    /// message from the receive window. Returns `None` when nothing is
    /// queued, or when the queued message was since evicted, superseded or
    /// lost its buffers.
    pub fn recv(&mut self, pool: &mut BufferPool) -> (r: Option<Vec<u8>>)
        requires
            old(self).wf(),
            old(pool).wf(),
        ensures
            final(self).wf(),
            final(pool).wf(),
            final(pool).buffer_size == old(pool).buffer_size,
            final(pool).capacity == old(pool).capacity,
            final(pool).bufs@ == old(pool).bufs@,
            final(pool).capacity_remaining >= old(pool).capacity_remaining,
            forall|i: int|
                0 <= i < old(pool).capacity && (#[trigger] old(pool).meta@[i]).holder is None
                    ==> final(pool).meta@[i].holder is None && final(pool).meta@[i].generation
                    == old(pool).meta@[i].generation,
            final(self).id == old(self).id,
            final(self).acks == old(self).acks,
            final(self).send_buffer == old(self).send_buffer,
            old(self).delivered@.len() == 0 ==> r is None && *final(self) == *old(self)
                && *final(pool) == *old(pool),
            old(self).delivered@.len() > 0 ==> {
                let s = old(self).delivered@[0];
                &&& final(self).delivered@ == old(self).delivered@.drop_first()
                &&& (!old(self).spec_complete_at(s) ==> r is None && final(self).recv_buffer
                    == old(self).recv_buffer && *final(pool) == *old(pool))
                &&& (old(self).spec_complete_at(s) ==> final(self).recv_buffer.spec_entry(s)
                    is None)
                &&& (old(self).spec_complete_at(s) && spec_frags_live(
                    old(self).recv_buffer.spec_entry(s)->Some_0.fragment_data@,
                    *old(pool),
                ) ==> (r matches Some(bytes) && bytes@ == spec_assemble_upto(
                    old(self).recv_buffer.spec_entry(s)->Some_0.fragment_data@,
                    *old(pool),
                    old(self).recv_buffer.spec_entry(s)->Some_0.fragment_data@.len() as int,
                )))
            },
    {
        if self.delivered.len() == 0 {
            return None;
        }
        let s = self.delivered.remove(0);
        proof {
            assert(self.delivered@ =~= old(self).delivered@.drop_first());
        }
        if !self.is_complete(s) {
            return None;
        }
        let message = match self.recv_buffer.remove(s) {
            Some(m) => m,
            None => {
                proof {
                    assert(false);
                }
                return None;
            },
        };
        proof {
            let idx = old(self).recv_buffer.spec_index_of(s);
            assert forall|s2: SequenceNumber| #[trigger]
                self.recv_buffer.spec_entry(s2) is Some implies (self.recv_buffer.spec_entry(
                s2,
            )->Some_0.wf() && self.recv_buffer.spec_entry(s2)->Some_0.sequence == s2) by {
                if self.recv_buffer.spec_index_of(s2) != idx {
                    assert(self.recv_buffer.spec_entry(s2) == old(self).recv_buffer.spec_entry(
                        s2,
                    ));
                }
            }
            assert(self.wf());
        }
        let count = message.fragment_data.len();
        let ghost fd = message.fragment_data@;
        let mut out: Vec<u8> = Vec::new();
        let mut live = true;
        let mut i: usize = 0;
        while live && i < count
            invariant
                i <= count,
                count == fd.len(),
                fd == message.fragment_data@,
                pool.wf(),
                *pool == *old(pool),
                live ==> out@ == spec_assemble_upto(fd, *pool, i as int),
                spec_frags_live(fd, *pool) ==> live,
            decreases count - i + (if live {
                1int
            } else {
                0int
            }),
        {
            let mut ok_here = false;
            match message.fragment_data[i] {
                Some(loc) => {
                    match pool.get(loc.0) {
                        Some(buf) => {
                            if loc.1 <= loc.2 && loc.2 <= buf.len() {
                                let mut j: usize = loc.1;
                                while j < loc.2
                                    invariant
                                        loc.1 <= j <= loc.2 <= buf@.len(),
                                        buf@.len() <= usize::MAX,
                                        out@ == spec_assemble_upto(fd, *pool, i as int) + buf@.subrange(
                                            loc.1 as int,
                                            j as int,
                                        ),
                                    decreases loc.2 - j,
                                {
                                    out.push(buf[j]);
                                    proof {
                                        assert(out@ =~= spec_assemble_upto(fd, *pool, i as int)
                                            + buf@.subrange(loc.1 as int, j + 1));
                                    }
                                    j += 1;
                                }
                                ok_here = true;
                                proof {
                                    assert(out@ =~= spec_assemble_upto(fd, *pool, i + 1));
                                }
                            }
                        },
                        None => {},
                    }
                },
                None => {},
            }
            if ok_here {
                i += 1;
            } else {
                live = false;
            }
        }
        Channel::release_recv_message(pool, &message);
        if live {
            Some(out)
        } else {
            None
        }
    }
}


/// The transmission state a collecting pass looks for: fragments a
/// reliable channel must resend, or fragments never sent.
pub open spec fn spec_due_status(want_lost: bool) -> SendStatus {
    if want_lost {
        SendStatus::Lost
    } else {
        SendStatus::Unsent
    }
}

/// A staged fragment that can actually be copied out of the pool: its
/// location is filled, its handle live, and its byte range inside the
/// buffer.
pub open spec fn spec_fragment_live(loc: Option<FragmentLocation>, pool: BufferPool) -> bool {
    loc matches Some(l) && {
        &&& pool.spec_valid_handle(l.0)
        &&& (l.0.index as int) < pool.bufs@.len()
        &&& l.1 <= l.2 <= pool.bufs@[l.0.index as int]@.len()
    }
}

/// How one collecting pass may change a tracked message: everything is kept
/// except that fragments in the sought state may move to `Sent`.
pub open spec fn spec_collect_rel(m1: SendMessage, m2: SendMessage, want_lost: bool) -> bool {
    &&& m2.sequence == m1.sequence
    &&& m2.fragment_count == m1.fragment_count
    &&& m2.fragment_data@ == m1.fragment_data@
    &&& m2.fragment_status@.len() == m1.fragment_status@.len()
    &&& m2.time_created == m1.time_created
    &&& m2.time_sent == m1.time_sent
    &&& forall|fi: int|
        0 <= fi < m1.fragment_status@.len() ==> (#[trigger] m2.fragment_status@[fi])
            == m1.fragment_status@[fi] || (m2.fragment_status@[fi] == SendStatus::Sent
            && m1.fragment_status@[fi] == spec_due_status(want_lost))
}

/// No fragment of the message is both in the sought state and still
/// copyable: the pass left nothing due behind.
pub open spec fn spec_no_live_due(m: SendMessage, pool: BufferPool, want_lost: bool) -> bool {
    forall|fi: int|
        0 <= fi < m.fragment_status@.len() && (#[trigger] m.fragment_status@[fi])
            == spec_due_status(want_lost) ==> !spec_fragment_live(m.fragment_data@[fi], pool)
}

impl Channel {
    /// Fragments due for transmission: with `want_lost` the fragments a
    /// reliable channel must resend, otherwise the not-yet-sent ones. Each
    /// item carries the staged frame region copied out of the pool — the
    /// serialized data frame header and payload — with its message sequence
    /// and fragment index; the fragment is marked sent and everything else
    /// is kept. At most `budget` items are taken, and fewer only when no
    /// copyable due fragment remains. An unreliable channel never resends
    /// lost fragments.
    #[verifier::rlimit(100)]
    pub fn collect_outgoing(&mut self, pool: &BufferPool, want_lost: bool, budget: usize) -> (r:
        Vec<(Vec<u8>, SequenceNumber, u8)>)
        requires
            old(self).wf(),
            pool.wf(),
        ensures
            final(self).wf(),
            final(self).id == old(self).id,
            final(self).send_guarantee == old(self).send_guarantee,
            final(self).recv_guarantee == old(self).recv_guarantee,
            final(self).recv_buffer == old(self).recv_buffer,
            final(self).delivered == old(self).delivered,
            final(self).acks == old(self).acks,
            r@.len() <= budget,
            forall|k: int| 0 <= k < r@.len() ==> (#[trigger] r@[k]).0@.len() <= pool.buffer_size,
            forall|s: SequenceNumber|
                (#[trigger] final(self).send_buffer.spec_entry(s)) is Some <==> old(
                    self,
                ).send_buffer.spec_entry(s) is Some,
            forall|s: SequenceNumber|
                (#[trigger] old(self).send_buffer.spec_entry(s)) is Some ==> spec_collect_rel(
                    old(self).send_buffer.spec_entry(s)->Some_0,
                    final(self).send_buffer.spec_entry(s)->Some_0,
                    want_lost,
                ),
            (r@.len() < budget && !(want_lost && old(self).send_guarantee == Send::Unreliable))
                ==> forall|s: SequenceNumber|
                (#[trigger] final(self).send_buffer.spec_entry(s)) is Some ==> spec_no_live_due(
                    final(self).send_buffer.spec_entry(s)->Some_0,
                    *pool,
                    want_lost,
                ),
            (want_lost && old(self).send_guarantee == Send::Unreliable) ==> r@.len() == 0
                && *final(self) == *old(self),
    {
        let mut out: Vec<(Vec<u8>, SequenceNumber, u8)> = Vec::new();
        if want_lost && matches!(self.send_guarantee, Send::Unreliable) {
            return out;
        }
        let cap = self.send_buffer.capacity();
        let ghost pre = *self;
        let mut slot: usize = 0;
        while slot < cap && out.len() < budget
            invariant
                slot <= cap,
                self.wf(),
                pre.wf(),
                self.send_buffer.spec_capacity() == cap,
                cap == pre.send_buffer.spec_capacity(),
                pre == *old(self),
                self.id == pre.id,
                self.send_guarantee == pre.send_guarantee,
                self.recv_guarantee == pre.recv_guarantee,
                self.recv_buffer == pre.recv_buffer,
                self.delivered == pre.delivered,
                self.acks == pre.acks,
                self.time_latest_recv == pre.time_latest_recv,
                self.time_latest_send == pre.time_latest_send,
                pool.wf(),
                out@.len() <= budget,
                forall|k: int|
                    0 <= k < out@.len() ==> (#[trigger] out@[k]).0@.len() <= pool.buffer_size,
                forall|j: int|
                    0 <= j < cap ==> (#[trigger] self.send_buffer.sequences@[j])
                        == pre.send_buffer.sequences@[j],
                forall|j: int|
                    slot <= j < cap ==> (#[trigger] self.send_buffer.data@[j])
                        == pre.send_buffer.data@[j],
                forall|j: int|
                    0 <= j < slot ==> ((#[trigger] self.send_buffer.data@[j]) is Some <==> pre.send_buffer.data@[j] is Some),
                forall|j: int|
                    0 <= j < slot && (#[trigger] pre.send_buffer.data@[j]) is Some
                        ==> spec_collect_rel(
                        pre.send_buffer.data@[j]->Some_0,
                        self.send_buffer.data@[j]->Some_0,
                        want_lost,
                    ),
                out@.len() < budget ==> forall|j: int|
                    0 <= j < slot && (#[trigger] self.send_buffer.data@[j]) is Some
                        ==> spec_no_live_due(
                        self.send_buffer.data@[j]->Some_0,
                        *pool,
                        want_lost,
                    ),
            decreases cap - slot,
        {
            let (seq_opt, _) = self.send_buffer.get_index(slot);
            let seq_copy: Option<SequenceNumber> = *seq_opt;
            if let Some(s) = seq_copy {
                let ghost top = *self;
                proof {
                    assert(s as int % cap as int == slot as int);
                    assert(self.send_buffer.spec_entry(s) is Some);
                }
                let (_, removed) = self.send_buffer.remove_index(slot);
                if let Some(m) = removed {
                    let mut message = m;
                    let ghost m1 = m;
                    proof {
                        assert(message.wf());
                        assert(message.sequence == s);
                    }
                    let count = message.fragment_data.len();
                    let mut fi: usize = 0;
                    while fi < count && out.len() < budget
                        invariant
                            fi <= count,
                            message.fragment_data@.len() == count,
                            message.fragment_status@.len() == count,
                            1 <= message.fragment_count,
                            message.fragment_data@.len() == message.fragment_count,
                            message.sequence == s,
                            message.fragment_data@ == m1.fragment_data@,
                            message.fragment_count == m1.fragment_count,
                            message.time_created == m1.time_created,
                            message.time_sent == m1.time_sent,
                            m1.fragment_status@.len() == count,
                            forall|f2: int|
                                fi <= f2 < count ==> (#[trigger] message.fragment_status@[f2])
                                    == m1.fragment_status@[f2],
                            forall|f2: int|
                                0 <= f2 < fi ==> (#[trigger] message.fragment_status@[f2])
                                    == m1.fragment_status@[f2] || (message.fragment_status@[f2]
                                    == SendStatus::Sent && m1.fragment_status@[f2]
                                    == spec_due_status(want_lost)),
                            out@.len() < budget ==> forall|f2: int|
                                0 <= f2 < fi && (#[trigger] message.fragment_status@[f2])
                                    == spec_due_status(want_lost) ==> !spec_fragment_live(
                                    message.fragment_data@[f2],
                                    *pool,
                                ),
                            pool.wf(),
                            out@.len() <= budget,
                            forall|k: int|
                                0 <= k < out@.len() ==> (#[trigger] out@[k]).0@.len()
                                    <= pool.buffer_size,
                        decreases count - fi,
                    {
                        let due = if want_lost {
                            matches!(message.fragment_status[fi], SendStatus::Lost)
                        } else {
                            matches!(message.fragment_status[fi], SendStatus::Unsent)
                        };
                        if due {
                            if let Some(loc) = message.fragment_data[fi] {
                                if let Some(buf) = pool.get(loc.0) {
                                    if loc.1 <= loc.2 && loc.2 <= buf.len() {
                                        let mut region: Vec<u8> = Vec::new();
                                        let mut j: usize = 0;
                                        while j < loc.2
                                            invariant
                                                j <= loc.2 <= buf@.len(),
                                                buf@.len() <= pool.buffer_size,
                                                region@.len() == j,
                                            decreases loc.2 - j,
                                        {
                                            region.push(buf[j]);
                                            j += 1;
                                        }
                                        out.push((region, message.sequence, fi as u8));
                                        message.fragment_status.set(fi, SendStatus::Sent);
                                        if message.fragment_sent < 255 {
                                            message.fragment_sent = message.fragment_sent + 1;
                                        }
                                    }
                                }
                            }
                        }
                        fi += 1;
                    }
                    let ghost pre_insert = *self;
                    let ghost msnap = message;
                    proof {
                        assert(msnap.wf());
                        assert(msnap.sequence == s);
                        assert(spec_collect_rel(m1, msnap, want_lost));
                    }
                    let _ = self.send_buffer.insert(s, message);
                    proof {
                        let idx = pre_insert.send_buffer.spec_index_of(s);
                        assert(self.send_buffer.spec_entry(s) == Some(msnap));
                        assert forall|s2: SequenceNumber| #[trigger]
                            self.send_buffer.spec_entry(s2) is Some implies (
                        self.send_buffer.spec_entry(s2)->Some_0.wf()
                            && self.send_buffer.spec_entry(s2)->Some_0.sequence == s2) by {
                            if self.send_buffer.spec_index_of(s2) == idx {
                                assert(self.send_buffer.sequences@[idx] == Some(s));
                            } else {
                                assert(self.send_buffer.spec_entry(s2)
                                    == pre_insert.send_buffer.spec_entry(s2));
                                assert(pre_insert.send_buffer.spec_entry(s2)
                                    == top.send_buffer.spec_entry(s2));
                                assert(top.send_buffer.spec_entry(s2) is Some
                                    ==> top.send_buffer.spec_entry(s2)->Some_0.wf()
                                    && top.send_buffer.spec_entry(s2)->Some_0.sequence == s2);
                            }
                        }
                        assert(self.wf());
                        if out@.len() < budget {
                            assert(fi == count);
                            assert(spec_no_live_due(msnap, *pool, want_lost));
                        }
                    }
                }
            }
            slot += 1;
        }
        proof {
            assert forall|s2: SequenceNumber|
                ((#[trigger] self.send_buffer.spec_entry(s2)) is Some <==> pre.send_buffer.spec_entry(
                    s2,
                ) is Some) by {
                let j = self.send_buffer.spec_index_of(s2);
                assert(self.send_buffer.sequences@[j] == pre.send_buffer.sequences@[j]);
            }
            assert forall|s2: SequenceNumber|
                (#[trigger] pre.send_buffer.spec_entry(s2)) is Some implies spec_collect_rel(
                pre.send_buffer.spec_entry(s2)->Some_0,
                self.send_buffer.spec_entry(s2)->Some_0,
                want_lost,
            ) by {
                let j = self.send_buffer.spec_index_of(s2);
                assert(pre.send_buffer.sequences@[j] == Some(s2));
                if j < slot {
                    assert(spec_collect_rel(
                        pre.send_buffer.data@[j]->Some_0,
                        self.send_buffer.data@[j]->Some_0,
                        want_lost,
                    ));
                } else {
                    assert(self.send_buffer.data@[j] == pre.send_buffer.data@[j]);
                    assert(spec_collect_rel(
                        pre.send_buffer.data@[j]->Some_0,
                        pre.send_buffer.data@[j]->Some_0,
                        want_lost,
                    ));
                }
            }
            if out@.len() < budget {
                assert(slot == cap);
                assert forall|s2: SequenceNumber|
                    (#[trigger] self.send_buffer.spec_entry(s2)) is Some implies
                    spec_no_live_due(
                    self.send_buffer.spec_entry(s2)->Some_0,
                    *pool,
                    want_lost,
                ) by {
                    let j = self.send_buffer.spec_index_of(s2);
                    assert(self.send_buffer.sequences@[j] == Some(s2));
                }
            }
        }
        out
    }
}

/// The `i`-th piece of `data` when cut into pieces of `mf` bytes.
pub open spec fn spec_chunk(data: Seq<u8>, i: int, mf: int) -> Seq<u8>
    recommends
        mf > 0,
        0 <= i,
        i * mf < data.len(),
{
    data.subrange(
        i * mf,
        if (i + 1) * mf <= data.len() {
            (i + 1) * mf
        } else {
            data.len() as int
        },
    )
}

/// How many `mf`-byte pieces `len` bytes make (the last may be short).
pub open spec fn spec_chunk_count(len: int, mf: int) -> int
    recommends
        mf > 0,
{
    (len + mf - 1) / mf
}

/// The first `n` pieces of `data`, in index order, glued back together.
pub open spec fn spec_concat_chunks(data: Seq<u8>, n: int, mf: int) -> Seq<u8>
    decreases n,
{
    if n <= 0 {
        Seq::empty()
    } else {
        spec_concat_chunks(data, n - 1, mf) + spec_chunk(data, n - 1, mf)
    }
}

/// Cutting a message into its fragments and gluing every fragment back in
/// index order reproduces the message exactly — so reassembly is correct in
/// whatever order the fragments arrived, once all of them are present.
pub proof fn lemma_fragments_reassemble(data: Seq<u8>, mf: int)
    requires
        mf > 0,
        data.len() > 0,
    ensures
        spec_concat_chunks(data, spec_chunk_count(data.len() as int, mf), mf) == data,
{
    let len = data.len() as int;
    let count = spec_chunk_count(len, mf);
    lemma_fundamental_div_mod(len + mf - 1, mf);
    assert(len + mf - 1 == mf * count + (len + mf - 1) % mf);
    assert((count - 1) * mf == mf * count - mf) by (nonlinear_arith);
    assert(count * mf == mf * count) by (nonlinear_arith);
    assert((count - 1) * mf < len);
    lemma_concat_chunks_prefix(data, count, mf);
    assert(count * mf >= len);
    assert(spec_concat_chunks(data, count, mf) =~= data);
}

/// The first `n` chunks concatenate to the prefix `data[0 .. min(n*mf, len)]`.
proof fn lemma_concat_chunks_prefix(data: Seq<u8>, n: int, mf: int)
    requires
        mf > 0,
        0 <= n,
        (n - 1) * mf < data.len(),
    ensures
        spec_concat_chunks(data, n, mf).len() == if n * mf <= data.len() {
            n * mf
        } else {
            data.len() as int
        },
        spec_concat_chunks(data, n, mf) == data.subrange(
            0,
            if n * mf <= data.len() {
                n * mf
            } else {
                data.len() as int
            },
        ),
    decreases n,
{
    let len = data.len() as int;
    if n == 0 {
        assert(n * mf == 0) by (nonlinear_arith)
            requires
                n == 0,
        ;
        assert(spec_concat_chunks(data, 0, mf) =~= data.subrange(0, 0));
    } else {
        assert((n - 1) * mf == n * mf - mf) by (nonlinear_arith);
        assert((n - 2) * mf == (n - 1) * mf - mf) by (nonlinear_arith);
        assert((n - 1) * mf >= 0) by (nonlinear_arith)
            requires
                n >= 1,
                mf > 0,
        ;
        lemma_concat_chunks_prefix(data, n - 1, mf);
        let hi = if n * mf <= len {
            n * mf
        } else {
            len
        };
        let mid = if (n - 1) * mf <= len {
            (n - 1) * mf
        } else {
            len
        };
        assert(mid == (n - 1) * mf);
        assert(spec_chunk(data, n - 1, mf) == data.subrange(mid, hi));
        assert(spec_concat_chunks(data, n, mf) =~= data.subrange(0, hi));
    }
}

} // verus!
