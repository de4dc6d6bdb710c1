//! Packet-level acknowledgment state and the wrapped 16-bit packet distance.

use vstd::prelude::*;

verus! {

/// Per-connection packet acknowledgment bookkeeping.
pub struct Acknowledgement {
    /// The number the next outgoing packet will carry.
    pub next_packet_number: u64,
    /// The newest of our packets the peer has acknowledged.
    pub last_delivered_packet_number: Option<u64>,
    /// The newest packet received from the peer.
    pub last_recv_packet_number: Option<u64>,
    /// Bit `k` set means packet `last_recv_packet_number - k` was received.
    pub last_recv_packet_mask: u32,
}

/// The wrapped 16-bit distance `p1 - p2`, as a residue in `[0, 65536)`.
pub open spec fn spec_distance_mod(p1: u64, p2: u64) -> int {
    ((p1 as int % 65536) + 65536 - (p2 as int % 65536)) % 65536
}

impl Acknowledgement {
    /// Fresh state: counting from zero, nothing received or delivered.
    pub fn new() -> (r: Self)
        ensures
            r.next_packet_number == 0,
            r.last_delivered_packet_number is None,
            r.last_recv_packet_number is None,
            r.last_recv_packet_mask == 0,
    {
        Acknowledgement {
            next_packet_number: 0,
            last_delivered_packet_number: None,
            last_recv_packet_number: None,
            last_recv_packet_mask: 0,
        }
    }

    /// The number the next outgoing packet will carry.
    pub fn packet_number(&self) -> (r: u64)
        ensures
            r == self.next_packet_number,
    {
        self.next_packet_number
    }

    /// The newest packet received from the peer, if any.
    pub fn ack_packet_number(&self) -> (r: Option<u64>)
        ensures
            r == self.last_recv_packet_number,
    {
        self.last_recv_packet_number
    }

    /// Bitset over the packets just below the newest received one.
    pub fn ack_packet_mask(&self) -> (r: u32)
        ensures
            r == self.last_recv_packet_mask,
    {
        self.last_recv_packet_mask
    }

    /// How many sent packets are newer than the last one the peer
    /// acknowledged.
    pub fn sent_packets_in_flight(&self) -> (r: u64)
        ensures
            r as int == match self.last_delivered_packet_number {
                None => self.next_packet_number as int,
                Some(d) => if self.next_packet_number > d + 1 {
                    self.next_packet_number - d - 1
                } else {
                    0int
                },
            },
    {
        match self.last_delivered_packet_number {
            None => self.next_packet_number,
            Some(d) => {
                if d < u64::MAX && self.next_packet_number > d + 1 {
                    self.next_packet_number - d - 1
                } else {
                    0
                }
            },
        }
    }

    /// The signed 16-bit distance from `p2` to `p1` under wraparound. The
    /// order of two numbers exactly half the range apart is undefined in
    /// signed arithmetic, so a residue of `0x8000` is a hard error rather
    /// than a guess at the peer's intent.
    pub fn packet_distance(p1: u64, p2: u64) -> (r: Result<i16, ()>)
        ensures
            match r {
                Ok(d) => {
                    &&& spec_distance_mod(p1, p2) != 0x8000
                    &&& d == if spec_distance_mod(p1, p2) < 0x8000 {
                        spec_distance_mod(p1, p2)
                    } else {
                        spec_distance_mod(p1, p2) - 0x10000
                    }
                },
                Err(()) => spec_distance_mod(p1, p2) == 0x8000,
            },
    {
        let a: u32 = (p1 % 65536) as u32;
        let b: u32 = (p2 % 65536) as u32;
        let m: u32 = (a + 65536 - b) % 65536;
        if m == 0x8000 {
            Err(())
        } else if m < 0x8000 {
            Ok(m as i16)
        } else {
            Ok((m as i32 - 0x10000) as i16)
        }
    }
}

} // verus!
