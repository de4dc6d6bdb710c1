//! Connection lifecycle: state machine, timers, request handling and
//! packet-level acknowledgment.

use vstd::prelude::*;

use crate::channel::{
    spec_chunk_count, spec_mask_delivered, spec_no_live_due, Acknowledgement, Channel, Receive,
    Send, SendStatus,
};
use crate::constants::{LONG_HEADER_BYTES, MAX_FRAGMENTS, MAX_FRAGMENT_BYTES, SHORT_HEADER_BYTES};
use crate::cursor::{Bytes, BytesMut, WireError};
use crate::frames::{spec_frame_bytes, spec_header_bytes, Frame, Header, PacketType};
use crate::config::Config;
use crate::enums::{ConnectionState, DisconnectReason, Request, Role};
use crate::pool::BufferPool;
use crate::sequence_buffer::{SequenceBuffer, SequenceNumber};

verus! {

/// The identifier of a connection endpoint.
pub type ConnectionId = u64;

/// The identifier of a channel within a connection.
pub type ChannelId = u64;

/// A peer's transport address as plain values: sixteen address bytes as two
/// 64-bit halves plus the port (IPv4 addresses in their mapped form).
#[derive(Copy, Clone, Debug, PartialEq, Eq, Structural)]
pub struct PeerAddr {
    pub ip_hi: u64,
    pub ip_lo: u64,
    pub port: u16,
}

/// A sent packet awaiting acknowledgment: which channel fragments it
/// carried, and when it left.
pub struct SendPacket {
    pub sequence: u64,
    /// The fragments the packet carried: channel id, message sequence and
    /// fragment index of each.
    pub included: Vec<(ChannelId, SequenceNumber, u8)>,
    pub time_sent: u64,
}

/// What the periodic update asks the driver to do.
#[derive(Copy, Clone, Debug, PartialEq, Eq, Structural)]
pub enum UpdateAction {
    /// Nothing to do this tick.
    Idle,
    /// Send (or resend) a connect request.
    SendRequest,
    /// Send a keep-alive probe.
    SendHeartbeat,
    /// Send a disconnect notification with the carried reason.
    SendDisconnect(DisconnectReason),
    /// The linger period ended: drop the connection from the table.
    Remove,
}

/// A failure to apply a handshake request.
#[derive(Copy, Clone, Debug, PartialEq, Eq, Structural)]
pub enum ProtocolError {
    /// The request is not valid for this role and state.
    RequestInvalidForState,
}

/// One endpoint-to-endpoint session and everything it owns.
pub struct Connection {
    pub src_id: ConnectionId,
    pub dst_id: ConnectionId,
    pub role: Role,
    pub peer_addr: PeerAddr,
    pub state: ConnectionState,
    /// Packet-level acknowledgment state.
    pub acks: Acknowledgement,
    pub channels: Vec<Channel>,
    /// Sent packets awaiting acknowledgment, keyed by packet number.
    pub send_buffer: SequenceBuffer<SendPacket>,
    pub time_created: u64,
    pub time_latest_recv: Option<u64>,
    pub time_latest_send: Option<u64>,
    /// Smoothed round-trip time in milliseconds.
    pub rtt: u64,
    /// The largest datagram this connection will emit.
    pub mtu: usize,
    /// When the connect token expires, whatever the state.
    pub token_expire_time: u64,
}

/// Saturating addition on timestamps.
pub open spec fn spec_sat_add(a: u64, b: u64) -> u64 {
    if a + b > u64::MAX {
        u64::MAX
    } else {
        (a + b) as u64
    }
}

/// The state and optional reply a valid request produces, or nothing when
/// the role, state and request do not belong together. A disconnect request
/// applies in every live state; the rest of the table is the handshake.
pub open spec fn spec_request_outcome(
    role: Role,
    state: ConnectionState,
    request: Request,
) -> Option<(ConnectionState, Option<Request>)> {
    match request {
        Request::Disconnect(reason) => match state {
            ConnectionState::Disconnecting(_) => Some((state, None)),
            ConnectionState::Disconnected(_) => Some((state, None)),
            _ => Some((ConnectionState::Disconnecting(reason), None)),
        },
        Request::Accept => match (role, state) {
            (Role::Client, ConnectionState::Connecting(_, _)) => Some(
                (ConnectionState::Connected, None),
            ),
            _ => None,
        },
        Request::Deny => match (role, state) {
            (Role::Client, ConnectionState::Connecting(_, _)) => Some(
                (
                    ConnectionState::Disconnecting(DisconnectReason::ConnectionDenied),
                    None,
                ),
            ),
            _ => None,
        },
        Request::Connect => match (role, state) {
            (Role::Server, ConnectionState::Created) => Some(
                (ConnectionState::Connected, Some(Request::Accept)),
            ),
            (Role::Server, ConnectionState::Connected) => Some(
                (ConnectionState::Connected, Some(Request::Accept)),
            ),
            _ => None,
        },
    }
}


/// What one lifecycle tick does: relates the connection before and after
/// `update` at time `now` under `config` to the action returned. Token
/// expiry forces a disconnect in every live state; each state otherwise
/// follows its own rule.
pub open spec fn spec_update_outcome(
    pre: Connection,
    post: Connection,
    now: u64,
    config: Config,
    r: UpdateAction,
) -> bool {
    if now >= pre.token_expire_time && !(pre.state matches ConnectionState::Disconnecting(_))
        && !(pre.state matches ConnectionState::Disconnected(_)) {
        post.state == ConnectionState::Disconnecting(DisconnectReason::ConnectionTokenExpired)
            && r == UpdateAction::Idle
    } else {
        match pre.state {
            ConnectionState::Created => post.state == pre.state && r == UpdateAction::Idle,
            ConnectionState::Connecting(attempts, last_attempt) => {
                if attempts >= config.max_connection_attempts {
                    post.state == ConnectionState::Disconnecting(
                        DisconnectReason::ConnectionAttemptsExhausted,
                    ) && r == UpdateAction::Idle
                } else if now >= spec_sat_add(last_attempt, config.request_timeout) {
                    post.state == ConnectionState::Connecting((attempts + 1) as u32, now) && r
                        == UpdateAction::SendRequest
                } else {
                    post.state == pre.state && r == UpdateAction::Idle
                }
            },
            ConnectionState::Authenticating(_) => post.state == pre.state && r
                == UpdateAction::Idle,
            ConnectionState::Connected => {
                let latest = match pre.time_latest_recv {
                    Some(t) => t,
                    None => pre.time_created,
                };
                if now >= spec_sat_add(latest, config.idle_timeout) {
                    post.state == ConnectionState::Disconnecting(
                        DisconnectReason::ConnectionTimeout,
                    ) && r == UpdateAction::Idle && (forall|s: SequenceNumber|
                        post.send_buffer.spec_entry(s) is None)
                } else {
                    let latest_send = match pre.time_latest_send {
                        Some(t) => t,
                        None => pre.time_created,
                    };
                    match config.heartbeat_timeout {
                        Some(h) => {
                            if now >= spec_sat_add(latest_send, h) {
                                post.state == pre.state && r == UpdateAction::SendHeartbeat
                            } else {
                                post.state == pre.state && r == UpdateAction::Idle
                            }
                        },
                        None => post.state == pre.state && r == UpdateAction::Idle,
                    }
                }
            },
            ConnectionState::Disconnecting(reason) => post.state == ConnectionState::Disconnected(
                spec_sat_add(now, config.linger_timeout),
            ) && r == UpdateAction::SendDisconnect(reason),
            ConnectionState::Disconnected(timeout) => post.state == pre.state && r == (
            if now >= timeout {
                UpdateAction::Remove
            } else {
                UpdateAction::Idle
            }),
        }
    }
}

impl Connection {
    /// Every channel and the packet window are well formed, and no two
    /// channels share an id.
    pub open spec fn wf(self) -> bool {
        &&& self.send_buffer.wf()
        &&& forall|i: int| 0 <= i < self.channels@.len() ==> (#[trigger] self.channels@[i]).wf()
        &&& forall|i: int, j: int|
            0 <= i < self.channels@.len() && 0 <= j < self.channels@.len() && i != j
                ==> self.channels@[i].id != self.channels@[j].id
    }

    /// A fresh connection in the `Created` state.
    pub fn new(
        src_id: ConnectionId,
        dst_id: ConnectionId,
        role: Role,
        peer_addr: PeerAddr,
        now: u64,
        token_expire_time: u64,
        mtu: usize,
    ) -> (r: Self)
        ensures
            r.wf(),
            r.src_id == src_id,
            r.dst_id == dst_id,
            r.role == role,
            r.state == ConnectionState::Created,
            r.time_created == now,
            r.time_latest_recv is None,
            r.time_latest_send is None,
            r.rtt == crate::constants::DEFAULT_RTT_MS,
            r.mtu == mtu,
            r.token_expire_time == token_expire_time,
            r.channels@.len() == 0,
            forall|s: SequenceNumber| r.send_buffer.spec_entry(s) is None,
    {
        Connection {
            src_id,
            dst_id,
            role,
            peer_addr,
            state: ConnectionState::Created,
            acks: Acknowledgement::new(),
            channels: Vec::new(),
            send_buffer: SequenceBuffer::with_capacity(
                crate::constants::DEFAULT_SEND_WINDOW_SIZE,
            ),
            time_created: now,
            time_latest_recv: None,
            time_latest_send: None,
            rtt: crate::constants::DEFAULT_RTT_MS,
            mtu,
            token_expire_time,
        }
    }

    /// The session index of the local endpoint.
    pub fn src_id(&self) -> (r: ConnectionId)
        ensures
            r == self.src_id,
    {
        self.src_id
    }

    /// The session index of the remote endpoint.
    pub fn dst_id(&self) -> (r: ConnectionId)
        ensures
            r == self.dst_id,
    {
        self.dst_id
    }

    /// The current state of this connection.
    pub fn state(&self) -> (r: ConnectionState)
        ensures
            r == self.state,
    {
        self.state
    }

    /// When this connection was created.
    pub fn time_created(&self) -> (r: u64)
        ensures
            r == self.time_created,
    {
        self.time_created
    }

    /// When a packet was last received on this connection.
    pub fn time_latest_recv(&self) -> (r: Option<u64>)
        ensures
            r == self.time_latest_recv,
    {
        self.time_latest_recv
    }

    /// When a packet was last sent on this connection.
    pub fn time_latest_send(&self) -> (r: Option<u64>)
        ensures
            r == self.time_latest_send,
    {
        self.time_latest_send
    }

    /// The smoothed round-trip time of this connection in milliseconds.
    pub fn rtt(&self) -> (r: u64)
        ensures
            r == self.rtt,
    {
        self.rtt
    }

    /// The maximum size of packets on this connection, in bytes.
    pub fn mtu(&self) -> (r: usize)
        ensures
            r == self.mtu,
    {
        self.mtu
    }

    /// Clears the packet send window.
    fn flush_send_window(&mut self)
        requires
            old(self).wf(),
        ensures
            final(self).wf(),
            forall|s: SequenceNumber| final(self).send_buffer.spec_entry(s) is None,
            final(self).state == old(self).state,
            final(self).acks == old(self).acks,
            final(self).channels == old(self).channels,
            final(self).src_id == old(self).src_id,
            final(self).dst_id == old(self).dst_id,
            final(self).role == old(self).role,
            final(self).time_latest_recv == old(self).time_latest_recv,
            final(self).time_latest_send == old(self).time_latest_send,
            final(self).rtt == old(self).rtt,
            final(self).mtu == old(self).mtu,
            final(self).token_expire_time == old(self).token_expire_time,
            final(self).time_created == old(self).time_created,
    {
        let cap = self.send_buffer.capacity();
        let mut i: usize = 0;
        while i < cap
            invariant
                i <= cap,
                self.send_buffer.wf(),
                self.send_buffer.spec_capacity() == cap,
                forall|j: int| 0 <= j < i ==> (#[trigger] self.send_buffer.sequences@[j]) is None,
                self.state == old(self).state,
                self.acks == old(self).acks,
                self.channels == old(self).channels,
                self.src_id == old(self).src_id,
                self.dst_id == old(self).dst_id,
                self.role == old(self).role,
                self.peer_addr == old(self).peer_addr,
                self.time_latest_recv == old(self).time_latest_recv,
                self.time_latest_send == old(self).time_latest_send,
                self.rtt == old(self).rtt,
                self.mtu == old(self).mtu,
                self.token_expire_time == old(self).token_expire_time,
                self.time_created == old(self).time_created,
            decreases cap - i,
        {
            let _ = self.send_buffer.remove_index(i);
            i += 1;
        }
    }

    /// Advances the lifecycle one tick: token expiry forces a disconnect in
    /// any state; a connecting client resends or gives up; a connected
    /// endpoint times out when the peer stays silent past the idle timeout
    /// (flushing its packet window) or heartbeats when due; a disconnecting
    /// endpoint emits its notification and lingers; a lingering endpoint is
    /// eventually removed.
    pub fn update(&mut self, now: u64, config: &Config) -> (r: UpdateAction)
        requires
            old(self).wf(),
        ensures
            final(self).wf(),
            final(self).channels == old(self).channels,
            final(self).acks == old(self).acks,
            spec_update_outcome(*old(self), *final(self), now, *config, r),
    {
        let expired = now >= self.token_expire_time;
        let live = !matches!(self.state, ConnectionState::Disconnecting(_))
            && !matches!(self.state, ConnectionState::Disconnected(_));
        if expired && live {
            self.state = ConnectionState::Disconnecting(DisconnectReason::ConnectionTokenExpired);
            return UpdateAction::Idle;
        }
        match self.state {
            ConnectionState::Created => UpdateAction::Idle,
            ConnectionState::Connecting(attempts, last_attempt) => {
                if attempts >= config.max_connection_attempts {
                    self.state = ConnectionState::Disconnecting(
                        DisconnectReason::ConnectionAttemptsExhausted,
                    );
                    return UpdateAction::Idle;
                }
                let due = match last_attempt.checked_add(config.request_timeout) {
                    Some(t) => now >= t,
                    None => false,
                };
                if due {
                    self.state = ConnectionState::Connecting(attempts + 1, now);
                    UpdateAction::SendRequest
                } else {
                    UpdateAction::Idle
                }
            },
            ConnectionState::Authenticating(_) => UpdateAction::Idle,
            ConnectionState::Connected => {
                let latest = match self.time_latest_recv {
                    Some(t) => t,
                    None => self.time_created,
                };
                let idle = match latest.checked_add(config.idle_timeout) {
                    Some(t) => now >= t,
                    None => false,
                };
                if idle {
                    self.flush_send_window();
                    self.state = ConnectionState::Disconnecting(
                        DisconnectReason::ConnectionTimeout,
                    );
                    return UpdateAction::Idle;
                }
                let latest_send = match self.time_latest_send {
                    Some(t) => t,
                    None => self.time_created,
                };
                match config.heartbeat_timeout {
                    Some(h) => {
                        let due = match latest_send.checked_add(h) {
                            Some(t) => now >= t,
                            None => false,
                        };
                        if due {
                            UpdateAction::SendHeartbeat
                        } else {
                            UpdateAction::Idle
                        }
                    },
                    None => UpdateAction::Idle,
                }
            },
            ConnectionState::Disconnecting(reason) => {
                let linger_end = match now.checked_add(config.linger_timeout) {
                    Some(t) => t,
                    None => u64::MAX,
                };
                self.state = ConnectionState::Disconnected(linger_end);
                UpdateAction::SendDisconnect(reason)
            },
            ConnectionState::Disconnected(timeout) => {
                if now >= timeout {
                    UpdateAction::Remove
                } else {
                    UpdateAction::Idle
                }
            },
        }
    }

    /// Applies a handshake request according to the role-and-state table;
    /// a combination outside the table is a protocol violation reported as
    /// an error, never applied. A disconnect request on a connected endpoint
    /// flushes the packet window first.
    pub fn handle_request(&mut self, request: Request) -> (r: Result<
        Option<Request>,
        ProtocolError,
    >)
        requires
            old(self).wf(),
        ensures
            final(self).wf(),
            final(self).channels == old(self).channels,
            final(self).src_id == old(self).src_id,
            final(self).dst_id == old(self).dst_id,
            final(self).time_latest_recv == old(self).time_latest_recv,
            final(self).time_latest_send == old(self).time_latest_send,
            final(self).acks == old(self).acks,
            match r {
                Ok(reply) => {
                    &&& spec_request_outcome(old(self).role, old(self).state, request) matches
                        Some(outcome) && final(self).state == outcome.0 && reply == outcome.1
                    &&& ((request matches Request::Disconnect(_) && old(self).state
                        == ConnectionState::Connected) ==> forall|s: SequenceNumber|
                        final(self).send_buffer.spec_entry(s) is None)
                },
                Err(e) => {
                    &&& e == ProtocolError::RequestInvalidForState
                    &&& spec_request_outcome(old(self).role, old(self).state, request) is None
                    &&& *final(self) == *old(self)
                },
            },
    {
        match request {
            Request::Disconnect(reason) => {
                match self.state {
                    ConnectionState::Disconnecting(_) => Ok(None),
                    ConnectionState::Disconnected(_) => Ok(None),
                    ConnectionState::Connected => {
                        self.flush_send_window();
                        self.state = ConnectionState::Disconnecting(reason);
                        Ok(None)
                    },
                    _ => {
                        self.state = ConnectionState::Disconnecting(reason);
                        Ok(None)
                    },
                }
            },
            Request::Accept => {
                match (self.role, self.state) {
                    (Role::Client, ConnectionState::Connecting(_, _)) => {
                        self.state = ConnectionState::Connected;
                        Ok(None)
                    },
                    _ => Err(ProtocolError::RequestInvalidForState),
                }
            },
            Request::Deny => {
                match (self.role, self.state) {
                    (Role::Client, ConnectionState::Connecting(_, _)) => {
                        self.state = ConnectionState::Disconnecting(
                            DisconnectReason::ConnectionDenied,
                        );
                        Ok(None)
                    },
                    _ => Err(ProtocolError::RequestInvalidForState),
                }
            },
            Request::Connect => {
                match (self.role, self.state) {
                    (Role::Server, ConnectionState::Created) => {
                        self.state = ConnectionState::Connected;
                        Ok(Some(Request::Accept))
                    },
                    (Role::Server, ConnectionState::Connected) => Ok(Some(Request::Accept)),
                    _ => Err(ProtocolError::RequestInvalidForState),
                }
            },
        }
    }
}


/// Exponentially weighted moving average of the round-trip time, with the
/// sample weighted `f` parts in 1024.
pub open spec fn spec_ewma(rtt: u64, sample: u64, f: u32) -> int {
    ((1024 - f) * rtt + f * sample) / 1024
}

/// The round-trip sample a packet sent at `sent` yields at time `now`
/// (clock anomalies clamp to zero).
pub open spec fn spec_rtt_sample(now: u64, sent: u64) -> u64 {
    if now >= sent {
        (now - sent) as u64
    } else {
        0
    }
}

impl Connection {
    /// The index of the channel with this id, creating it with the default
    /// guarantees (reliable, ordered) on first reference.
    pub fn get_or_create_channel(&mut self, id: ChannelId) -> (r: usize)
        requires
            old(self).wf(),
        ensures
            final(self).wf(),
            r < final(self).channels@.len(),
            final(self).channels@[r as int].id == id,
            final(self).send_buffer == old(self).send_buffer,
            final(self).acks == old(self).acks,
            final(self).state == old(self).state,
            final(self).src_id == old(self).src_id,
            final(self).dst_id == old(self).dst_id,
            final(self).time_latest_recv == old(self).time_latest_recv,
            final(self).channels@.len() >= old(self).channels@.len(),
            forall|i: int|
                0 <= i < old(self).channels@.len() ==> (#[trigger] final(self).channels@[i])
                    == old(self).channels@[i],
    {
        let n = self.channels.len();
        let mut i: usize = 0;
        while i < n
            invariant
                i <= n,
                n == self.channels@.len(),
                self.wf(),
                forall|j: int| 0 <= j < i ==> (#[trigger] self.channels@[j]).id != id,
            decreases n - i,
        {
            if self.channels[i].id == id {
                return i;
            }
            i += 1;
        }
        let ch = Channel::new(id, Send::Reliable, Receive::Ordered);
        self.channels.push(ch);
        n
    }

    /// The channel's public identifier.
    fn channel_id_at(&self, i: usize) -> (r: u64)
        requires
            i < self.channels@.len(),
        ensures
            r == self.channels@[i as int].id,
    {
        self.channels[i].id
    }

    /// Applies a packet-level acknowledgment: records the newest sequence
    /// the peer acknowledged, classifies every tracked sent packet up to it
    /// as delivered or probably lost, removes it from the packet window,
    /// updates the smoothed round-trip time from the acknowledged packet
    /// when the peer reports it delivered, and marks the channel fragments
    /// the packets carried as delivered or lost (releasing a fully
    /// delivered message's buffers).
    #[verifier::rlimit(100)]
    pub fn acknowledge(
        &mut self,
        pool: &mut BufferPool,
        ack_sequence: u64,
        ack_mask: u64,
        now: u64,
        smoothing: u32,
    ) -> (r: Vec<(u64, bool)>)
        requires
            old(self).wf(),
            old(pool).wf(),
            smoothing <= 1024,
        ensures
            final(self).wf(),
            final(pool).wf(),
            final(pool).buffer_size == old(pool).buffer_size,
            final(pool).capacity == old(pool).capacity,
            final(pool).bufs@ == old(pool).bufs@,
            final(pool).capacity_remaining >= old(pool).capacity_remaining,
            forall|q: int|
                0 <= q < old(pool).capacity && (#[trigger] old(pool).meta@[q]).holder is None
                    ==> final(pool).meta@[q].holder is None && final(pool).meta@[q].generation
                    == old(pool).meta@[q].generation,
            final(self).state == old(self).state,
            final(self).src_id == old(self).src_id,
            final(self).dst_id == old(self).dst_id,
            final(self).time_latest_recv == old(self).time_latest_recv,
            final(self).time_latest_send == old(self).time_latest_send,
            final(self).channels@.len() == old(self).channels@.len(),
            forall|q: int|
                0 <= q < old(self).channels@.len() ==> (#[trigger] final(self).channels@[q]).id
                    == old(self).channels@[q].id,
            final(self).acks == final_acks_snapshot(old(self).acks, ack_sequence),
            ({
                let start = match old(self).acks.oldest_send_unacked {
                    Some(o) => o,
                    None => 0,
                };
                &&& forall|s: u64|
                    start <= s <= ack_sequence ==> (#[trigger] final(self).send_buffer.spec_entry(
                        s,
                    )) is None
                &&& forall|s: u64|
                    !(start <= s <= ack_sequence) ==> (#[trigger] final(self).send_buffer.spec_entry(
                        s,
                    )) == old(self).send_buffer.spec_entry(s)
                &&& forall|k: int|
                    0 <= k < r@.len() ==> {
                        &&& start <= (#[trigger] r@[k]).0 <= ack_sequence
                        &&& old(self).send_buffer.spec_entry(r@[k].0) is Some
                        &&& r@[k].1 == spec_mask_delivered(
                            (ack_sequence - r@[k].0) as u64,
                            ack_mask,
                        )
                    }
                &&& forall|s: u64|
                    start <= s <= ack_sequence && (#[trigger] old(self).send_buffer.spec_entry(
                        s,
                    )) is Some ==> exists|k: int|
                        0 <= k < r@.len() && r@[k].0 == s
                &&& final(self).rtt == (
                if start <= ack_sequence && old(self).send_buffer.spec_entry(ack_sequence)
                    is Some && spec_mask_delivered(0, ack_mask) {
                    spec_ewma(
                        old(self).rtt,
                        spec_rtt_sample(
                            now,
                            old(self).send_buffer.spec_entry(ack_sequence)->Some_0.time_sent,
                        ),
                        smoothing,
                    ) as u64
                } else {
                    old(self).rtt
                })
            }),
    {
        let start = match self.acks.oldest_send_unacked {
            Some(o) => o,
            None => 0,
        };
        self.acks.latest_send_acked = Some(ack_sequence);
        self.acks.oldest_send_unacked = Some(
            if ack_sequence < u64::MAX {
                ack_sequence + 1
            } else {
                u64::MAX
            },
        );
        let mut list: Vec<(u64, bool)> = Vec::new();
        let mut routed: Vec<(ChannelId, SequenceNumber, u8, bool)> = Vec::new();
        let cap = self.send_buffer.capacity();
        let ghost pre = *self;
        let ghost tslot = ack_sequence as int % cap as int;
        let mut i: usize = 0;
        while i < cap
            invariant
                i <= cap,
                self.wf(),
                pre.wf(),
                self.send_buffer.spec_capacity() == cap,
                cap == pre.send_buffer.spec_capacity(),
                tslot == ack_sequence as int % cap as int,
                self.state == pre.state,
                self.src_id == pre.src_id,
                self.dst_id == pre.dst_id,
                self.role == pre.role,
                self.peer_addr == pre.peer_addr,
                self.time_created == pre.time_created,
                self.time_latest_recv == pre.time_latest_recv,
                self.time_latest_send == pre.time_latest_send,
                self.mtu == pre.mtu,
                self.token_expire_time == pre.token_expire_time,
                self.channels == pre.channels,
                smoothing <= 1024,
                self.acks == pre.acks,
                self.acks == final_acks_snapshot(old(self).acks, ack_sequence),
                pre.send_buffer == old(self).send_buffer,
                pre.rtt == old(self).rtt,
                forall|j: int|
                    i <= j < cap ==> (#[trigger] self.send_buffer.sequences@[j])
                        == pre.send_buffer.sequences@[j],
                forall|j: int|
                    i <= j < cap ==> (#[trigger] self.send_buffer.data@[j])
                        == pre.send_buffer.data@[j],
                forall|j: int|
                    0 <= j < i ==> (#[trigger] self.send_buffer.sequences@[j]) == (
                    if pre.send_buffer.sequences@[j] matches Some(s) && start <= s
                        <= ack_sequence {
                        Option::<u64>::None
                    } else {
                        pre.send_buffer.sequences@[j]
                    }),
                forall|j: int|
                    0 <= j < i ==> (#[trigger] self.send_buffer.data@[j]) == (
                    if pre.send_buffer.sequences@[j] matches Some(s) && start <= s
                        <= ack_sequence {
                        Option::<SendPacket>::None
                    } else {
                        pre.send_buffer.data@[j]
                    }),
                forall|k: int|
                    0 <= k < list@.len() ==> {
                        &&& start <= (#[trigger] list@[k]).0 <= ack_sequence
                        &&& pre.send_buffer.spec_entry(list@[k].0) is Some
                        &&& list@[k].1 == spec_mask_delivered(
                            (ack_sequence - list@[k].0) as u64,
                            ack_mask,
                        )
                    },
                forall|j: int|
                    (0 <= j < i && (#[trigger] pre.send_buffer.sequences@[j]) is Some && start
                        <= pre.send_buffer.sequences@[j]->Some_0 <= ack_sequence) ==> exists|
                        k: int,
                    |
                        0 <= k < list@.len() && (#[trigger] list@[k]).0
                            == pre.send_buffer.sequences@[j]->Some_0,
                self.rtt == (
                if tslot < i && start <= ack_sequence && pre.send_buffer.sequences@[tslot]
                    == Some(ack_sequence) && spec_mask_delivered(0, ack_mask) {
                    spec_ewma(
                        pre.rtt,
                        spec_rtt_sample(
                            now,
                            pre.send_buffer.data@[tslot]->Some_0.time_sent,
                        ),
                        smoothing,
                    ) as u64
                } else {
                    pre.rtt
                }),
            decreases cap - i,
        {
            let (seq_opt, _) = self.send_buffer.get_index(i);
            let seq_copy: Option<u64> = *seq_opt;
            if let Some(s) = seq_copy {
                if start <= s && s <= ack_sequence {
                    proof {
                        assert(pre.send_buffer.sequences@[i as int] == Some(s));
                        assert(s as int % cap as int == i as int);
                        assert(pre.send_buffer.spec_entry(s) is Some);
                    }
                    let (_, removed) = self.send_buffer.remove_index(i);
                    let d = ack_sequence - s;
                    let delivered_flag = d < 64 && ((ack_mask >> d) & 1) == 1;
                    if let Some(packet) = &removed {
                        if delivered_flag && s == ack_sequence {
                            let sample = if now >= packet.time_sent {
                                now - packet.time_sent
                            } else {
                                0
                            };
                            self.update_rtt(sample, smoothing);
                        }
                        let mut t: usize = 0;
                        while t < packet.included.len()
                            invariant
                                t <= packet.included@.len(),
                            decreases packet.included@.len() - t,
                        {
                            let (cid, mseq, fidx) = packet.included[t];
                            routed.push((cid, mseq, fidx, delivered_flag));
                            t += 1;
                        }
                    }
                    let ghost list0 = list@;
                    list.push((s, delivered_flag));
                    proof {
                        assert forall|j: int|
                            (0 <= j < i + 1 && (#[trigger] pre.send_buffer.sequences@[j]) is Some
                                && start <= pre.send_buffer.sequences@[j]->Some_0
                                <= ack_sequence) implies exists|k: int|
                            0 <= k < list@.len() && (#[trigger] list@[k]).0
                                == pre.send_buffer.sequences@[j]->Some_0 by {
                            let s3 = pre.send_buffer.sequences@[j]->Some_0;
                            if j == i as int {
                                assert(list@[list0.len() as int].0 == s3);
                            } else {
                                let k0 = choose|k: int|
                                    0 <= k < list0.len() && (#[trigger] list0[k]).0 == s3;
                                assert(list@[k0].0 == s3);
                            }
                        }
                    }
                }
            }
            i += 1;
        }
        proof {
            assert forall|s: u64| start <= s <= ack_sequence implies (
            #[trigger] self.send_buffer.spec_entry(s)) is None by {
                let j = self.send_buffer.spec_index_of(s);
                if self.send_buffer.sequences@[j] == Some(s) {
                    assert(pre.send_buffer.sequences@[j] == Some(s) || (
                    pre.send_buffer.sequences@[j] matches Some(s2) && start <= s2
                        <= ack_sequence));
                }
            }
            assert forall|s: u64| !(start <= s <= ack_sequence) implies (
            #[trigger] self.send_buffer.spec_entry(s)) == pre.send_buffer.spec_entry(s) by {
                let j = self.send_buffer.spec_index_of(s);
                if pre.send_buffer.sequences@[j] matches Some(s2) && start <= s2
                    <= ack_sequence {
                    assert(self.send_buffer.sequences@[j] is None);
                } else {
                    assert(self.send_buffer.sequences@[j] == pre.send_buffer.sequences@[j]);
                    assert(self.send_buffer.data@[j] == pre.send_buffer.data@[j]);
                }
            }
            assert forall|s: u64|
                start <= s <= ack_sequence && (#[trigger] pre.send_buffer.spec_entry(s))
                    is Some implies exists|k: int|
                0 <= k < list@.len() && list@[k].0 == s by {
                let j = pre.send_buffer.spec_index_of(s);
                assert(pre.send_buffer.sequences@[j] == Some(s));
            }
            if start <= ack_sequence && pre.send_buffer.spec_entry(ack_sequence) is Some
                && spec_mask_delivered(0, ack_mask) {
                assert(pre.send_buffer.sequences@[tslot] == Some(ack_sequence));
            }
        }
        let ghost scanned = *self;
        let mut t: usize = 0;
        while t < routed.len()
            invariant
                t <= routed@.len(),
                self.wf(),
                pool.wf(),
                pool.buffer_size == old(pool).buffer_size,
                pool.capacity == old(pool).capacity,
                pool.bufs@ == old(pool).bufs@,
                pool.capacity_remaining >= old(pool).capacity_remaining,
                forall|q: int|
                    0 <= q < old(pool).capacity && (#[trigger] old(pool).meta@[q]).holder
                        is None ==> pool.meta@[q].holder is None && pool.meta@[q].generation
                        == old(pool).meta@[q].generation,
                self.state == scanned.state,
                self.src_id == scanned.src_id,
                self.dst_id == scanned.dst_id,
                self.time_latest_recv == scanned.time_latest_recv,
                self.time_latest_send == scanned.time_latest_send,
                self.rtt == scanned.rtt,
                self.acks == scanned.acks,
                self.send_buffer == scanned.send_buffer,
                self.channels@.len() == scanned.channels@.len(),
                forall|q: int|
                    0 <= q < scanned.channels@.len() ==> (#[trigger] self.channels@[q]).id
                        == scanned.channels@[q].id,
            decreases routed@.len() - t,
        {
            let (cid, mseq, fidx, delivered_flag) = routed[t];
            self.apply_fragment_status(pool, cid, mseq, fidx, delivered_flag);
            t += 1;
        }
        list
    }

    /// Smooths one round-trip sample into the running estimate.
    fn update_rtt(&mut self, sample: u64, smoothing: u32)
        requires
            smoothing <= 1024,
        ensures
            final(self).rtt == spec_ewma(old(self).rtt, sample, smoothing),
            *final(self) == (Connection { rtt: final(self).rtt, ..*old(self) }),
    {
        let keep = (1024 - smoothing) as u128;
        let take = smoothing as u128;
        proof {
            assert(keep * (self.rtt as u128) <= 1024 * (u64::MAX as u128)) by (nonlinear_arith)
                requires
                    keep <= 1024,
                    self.rtt <= u64::MAX,
            ;
            assert(take * (sample as u128) <= 1024 * (u64::MAX as u128)) by (nonlinear_arith)
                requires
                    take <= 1024,
                    sample <= u64::MAX,
            ;
        }
        let num: u128 = keep * (self.rtt as u128) + take * (sample as u128);
        let r: u128 = num / 1024;
        proof {
            let m: int = if self.rtt >= sample {
                self.rtt as int
            } else {
                sample as int
            };
            assert((1024 - smoothing) * self.rtt + smoothing * sample <= 1024 * m)
                by (nonlinear_arith)
                requires
                    smoothing <= 1024,
                    self.rtt <= m,
                    sample <= m,
            ;
            assert(num / 1024 <= m) by (nonlinear_arith)
                requires
                    num <= 1024 * m,
                    0 <= m,
            ;
        }
        self.rtt = r as u64;
    }

    /// Marks one carried fragment delivered or lost in its channel; a fully
    /// delivered message is dropped from the channel's send window and its
    /// staged buffers are released.
    fn apply_fragment_status(
        &mut self,
        pool: &mut BufferPool,
        cid: ChannelId,
        mseq: SequenceNumber,
        fidx: u8,
        delivered: bool,
    )
        requires
            old(self).wf(),
            old(pool).wf(),
        ensures
            final(self).wf(),
            final(pool).wf(),
            final(pool).buffer_size == old(pool).buffer_size,
            final(pool).capacity == old(pool).capacity,
            final(pool).bufs@ == old(pool).bufs@,
            final(pool).capacity_remaining >= old(pool).capacity_remaining,
            forall|q: int|
                0 <= q < old(pool).capacity && (#[trigger] old(pool).meta@[q]).holder is None
                    ==> final(pool).meta@[q].holder is None && final(pool).meta@[q].generation
                    == old(pool).meta@[q].generation,
            final(self).state == old(self).state,
            final(self).src_id == old(self).src_id,
            final(self).dst_id == old(self).dst_id,
            final(self).rtt == old(self).rtt,
            final(self).time_latest_recv == old(self).time_latest_recv,
            final(self).time_latest_send == old(self).time_latest_send,
            final(self).acks == old(self).acks,
            final(self).send_buffer == old(self).send_buffer,
            final(self).channels@.len() == old(self).channels@.len(),
            forall|q: int|
                0 <= q < old(self).channels@.len() ==> (#[trigger] final(self).channels@[q]).id
                    == old(self).channels@[q].id,
    {
        let n = self.channels.len();
        let mut ci: usize = 0;
        while ci < n
            invariant
                ci <= n,
                n == self.channels@.len(),
                self.wf(),
            decreases n - ci,
        {
            if self.channels[ci].id == cid {
                break;
            }
            ci += 1;
        }
        if ci >= n {
            return;
        }
        let status = if delivered {
            SendStatus::Delivered
        } else {
            SendStatus::Lost
        };
        let ghost pre = *self;
        let ch = &mut self.channels[ci];
        let ghost chan_pre = *ch;
        let hit = ch.send_buffer.contains(mseq);
        if hit {
            if let Some(mut message) = ch.send_buffer.remove(mseq) {
                proof {
                    assert(pre.channels@[ci as int].send_buffer.spec_entry(mseq) is Some);
                    assert(message.wf());
                    assert(message.sequence == mseq);
                }
                if (fidx as usize) < message.fragment_status.len() {
                    message.fragment_status.set(fidx as usize, status);
                }
                let mut all_delivered = true;
                let mut k: usize = 0;
                while k < message.fragment_status.len()
                    invariant
                        k <= message.fragment_status@.len(),
                    decreases message.fragment_status@.len() - k,
                {
                    if !matches!(message.fragment_status[k], SendStatus::Delivered) {
                        all_delivered = false;
                    }
                    k += 1;
                }
                if all_delivered {
                    let mut f: usize = 0;
                    while f < message.fragment_data.len()
                        invariant
                            pool.wf(),
                            pool.buffer_size == old(pool).buffer_size,
                            pool.capacity == old(pool).capacity,
                            pool.bufs@ == old(pool).bufs@,
                            pool.capacity_remaining >= old(pool).capacity_remaining,
                            forall|q: int|
                                0 <= q < old(pool).capacity && (#[trigger] old(pool).meta@[
                                    q]).holder is None ==> pool.meta@[q].holder is None
                                    && pool.meta@[q].generation == old(pool).meta@[
                                    q].generation,
                        decreases message.fragment_data@.len() - f,
                    {
                        if let Some(loc) = message.fragment_data[f] {
                            let _ = pool.release(loc.0);
                        }
                        f += 1;
                    }
                    proof {
                        let idx = chan_pre.send_buffer.spec_index_of(mseq);
                        assert forall|s2: SequenceNumber| #[trigger]
                            ch.send_buffer.spec_entry(s2) is Some implies (
                        ch.send_buffer.spec_entry(s2)->Some_0.wf() && ch.send_buffer.spec_entry(
                            s2,
                        )->Some_0.sequence == s2) by {
                            if ch.send_buffer.spec_index_of(s2) != idx {
                                assert(ch.send_buffer.spec_entry(s2)
                                    == chan_pre.send_buffer.spec_entry(s2));
                            }
                        }
                        assert(ch.wf());
                    }
                } else {
                    let ghost msnap = message;
                    let _ = ch.send_buffer.insert(mseq, message);
                    proof {
                        let idx = chan_pre.send_buffer.spec_index_of(mseq);
                        assert(msnap.wf());
                        assert forall|s2: SequenceNumber| #[trigger]
                            ch.send_buffer.spec_entry(s2) is Some implies (
                        ch.send_buffer.spec_entry(s2)->Some_0.wf() && ch.send_buffer.spec_entry(
                            s2,
                        )->Some_0.sequence == s2) by {
                            if ch.send_buffer.spec_index_of(s2) == idx {
                                assert(ch.send_buffer.sequences@[idx] == Some(mseq));
                            } else {
                                assert(ch.send_buffer.spec_entry(s2)
                                    == chan_pre.send_buffer.spec_entry(s2));
                                assert(chan_pre.send_buffer.spec_entry(s2)
                                    == pre.channels@[ci as int].send_buffer.spec_entry(s2));
                            }
                        }
                        assert(ch.wf());
                    }
                }
            }
        }
        proof {
            assert forall|j: int| 0 <= j < self.channels@.len() implies (#[trigger] self.channels@[
                j]).wf() by {
                if j != ci {
                    assert(self.channels@[j] == pre.channels@[j]);
                }
            }
            assert(self.wf());
        }
    }
}

/// The acknowledgment fields after a packet-level acknowledgment.
pub open spec fn final_acks_snapshot(pre: Acknowledgement, ack_sequence: u64) -> Acknowledgement {
    Acknowledgement {
        latest_send_acked: Some(ack_sequence),
        oldest_send_unacked: Some(
            if ack_sequence < u64::MAX {
                (ack_sequence + 1) as u64
            } else {
                u64::MAX
            },
        ),
        ..pre
    }
}


/// How many sent packets await acknowledgment in a packet-level ack state.
pub open spec fn spec_packets_in_flight(acks: Acknowledgement) -> int {
    match acks.latest_send_acked {
        None => acks.next_send as int,
        Some(d) => if acks.next_send > d + 1 {
            acks.next_send - d - 1
        } else {
            0
        },
    }
}

/// How many datagrams one packing call may emit: the in-flight cap less the
/// packets already awaiting acknowledgment, and never past the end of the
/// packet-number space.
pub open spec fn spec_pack_budget(acks: Acknowledgement, limit: usize) -> int {
    let room_flight = if spec_packets_in_flight(acks) >= limit {
        0int
    } else {
        limit - spec_packets_in_flight(acks)
    };
    let room_seq = u64::MAX - acks.next_send;
    if room_flight <= room_seq {
        room_flight
    } else {
        room_seq
    }
}

impl Connection {
    /// Builds the outgoing datagrams a connected endpoint owes: lost
    /// fragments of reliable channels first, then unsent fragments. Each
    /// datagram is one short header — carrying the next consecutive packet
    /// number — followed by one staged frame region; the packet is tracked
    /// in the packet window. At most `limit` packets may be in flight, so
    /// one call emits no more than the cap less those still awaiting
    /// acknowledgment; fewer only when no copyable due fragment remains. A
    /// connection in any other state sends nothing here.
    #[verifier::rlimit(100)]
    pub fn pack_outgoing(&mut self, pool: &BufferPool, now: u64, limit: usize) -> (r: Vec<
        Vec<u8>,
    >)
        requires
            old(self).wf(),
            pool.wf(),
        ensures
            final(self).wf(),
            final(self).state == old(self).state,
            final(self).src_id == old(self).src_id,
            final(self).dst_id == old(self).dst_id,
            final(self).peer_addr == old(self).peer_addr,
            final(self).channels@.len() == old(self).channels@.len(),
            r@.len() <= spec_pack_budget(old(self).acks, limit),
            final(self).acks.next_send == old(self).acks.next_send + r@.len(),
            forall|k: int|
                0 <= k < r@.len() ==> (#[trigger] r@[k])@.len() <= SHORT_HEADER_BYTES
                    + pool.buffer_size,
            forall|k: int|
                0 <= k < r@.len() ==> (#[trigger] r@[k])@.len() >= SHORT_HEADER_BYTES && r@[
                    k]@.subrange(0, SHORT_HEADER_BYTES as int) == spec_header_bytes(
                    Header::Short {
                        packet_number: (old(self).acks.next_send + k) as u64,
                        packet_type: PacketType::Data,
                        dst_id: old(self).dst_id,
                    },
                ),
            (old(self).state == ConnectionState::Connected && r@.len() < spec_pack_budget(
                old(self).acks,
                limit,
            ) && SHORT_HEADER_BYTES + pool.buffer_size <= usize::MAX) ==> forall|ci: int, s: u64|
                0 <= ci < final(self).channels@.len() && (#[trigger] final(self).channels@[
                    ci].send_buffer.spec_entry(s)) is Some ==> spec_no_live_due(
                    final(self).channels@[ci].send_buffer.spec_entry(s)->Some_0,
                    *pool,
                    false,
                ),
            !(old(self).state == ConnectionState::Connected) ==> r@.len() == 0 && *final(self)
                == *old(self),
    {
        let mut out: Vec<Vec<u8>> = Vec::new();
        if !matches!(self.state, ConnectionState::Connected) {
            return out;
        }
        let in_flight: u64 = match self.acks.latest_send_acked {
            None => self.acks.next_send,
            Some(d) => {
                if d < u64::MAX && self.acks.next_send > d + 1 {
                    self.acks.next_send - d - 1
                } else {
                    0
                }
            },
        };
        let limit_eff: usize = if in_flight >= limit as u64 {
            0
        } else {
            limit - in_flight as usize
        };
        let ghost next0 = self.acks.next_send;
        let ghost pre = *self;
        let n = self.channels.len();
        let mut pass: usize = 0;
        while pass < 2
            invariant
                pass <= 2,
                self.wf(),
                n == self.channels@.len(),
                pool.wf(),
                pre == *old(self),
                pre.state == ConnectionState::Connected,
                next0 == pre.acks.next_send,
                self.state == pre.state,
                self.src_id == pre.src_id,
                self.dst_id == pre.dst_id,
                self.role == pre.role,
                self.peer_addr == pre.peer_addr,
                self.time_created == pre.time_created,
                self.time_latest_recv == pre.time_latest_recv,
                self.mtu == pre.mtu,
                self.token_expire_time == pre.token_expire_time,
                self.acks == (Acknowledgement { next_send: self.acks.next_send, ..pre.acks }),
                self.acks.next_send == next0 + out@.len(),
                out@.len() <= limit_eff,
                limit_eff as int + spec_packets_in_flight(pre.acks) <= limit || limit_eff == 0,
                limit_eff <= limit,
                spec_pack_budget(pre.acks, limit) <= limit_eff,
                spec_pack_budget(pre.acks, limit) <= u64::MAX - next0,
                spec_pack_budget(pre.acks, limit) == (if limit_eff as int <= u64::MAX - next0 {
                    limit_eff as int
                } else {
                    u64::MAX - next0
                }),
                spec_packets_in_flight(pre.acks) >= limit ==> limit_eff == 0,
                spec_packets_in_flight(pre.acks) < limit ==> limit_eff == limit
                    - spec_packets_in_flight(pre.acks),
                next0 + out@.len() <= u64::MAX,
                forall|k: int|
                    0 <= k < out@.len() ==> (#[trigger] out@[k])@.len() <= SHORT_HEADER_BYTES
                        + pool.buffer_size,
                forall|k: int|
                    0 <= k < out@.len() ==> (#[trigger] out@[k])@.len() >= SHORT_HEADER_BYTES
                        && out@[k]@.subrange(0, SHORT_HEADER_BYTES as int) == spec_header_bytes(
                        Header::Short {
                            packet_number: (next0 + k) as u64,
                            packet_type: PacketType::Data,
                            dst_id: pre.dst_id,
                        },
                    ),
                (pass == 2 && out@.len() < spec_pack_budget(pre.acks, limit)
                    && SHORT_HEADER_BYTES + pool.buffer_size <= usize::MAX) ==> forall|
                    ci: int,
                    s: u64,
                |
                    0 <= ci < self.channels@.len() && (#[trigger] self.channels@[
                        ci].send_buffer.spec_entry(s)) is Some ==> spec_no_live_due(
                        self.channels@[ci].send_buffer.spec_entry(s)->Some_0,
                        *pool,
                        false,
                    ),
            decreases 2 - pass,
        {
            let want_lost = pass == 0;
            let mut ci: usize = 0;
            while ci < n
                invariant
                    ci <= n,
                    self.wf(),
                    n == self.channels@.len(),
                    pool.wf(),
                    pre.state == ConnectionState::Connected,
                    next0 == pre.acks.next_send,
                    self.state == pre.state,
                    self.src_id == pre.src_id,
                    self.dst_id == pre.dst_id,
                    self.role == pre.role,
                    self.peer_addr == pre.peer_addr,
                    self.time_created == pre.time_created,
                    self.time_latest_recv == pre.time_latest_recv,
                    self.mtu == pre.mtu,
                    self.token_expire_time == pre.token_expire_time,
                    self.acks == (Acknowledgement {
                        next_send: self.acks.next_send,
                        ..pre.acks
                    }),
                    self.acks.next_send == next0 + out@.len(),
                    out@.len() <= limit_eff,
                    next0 + out@.len() <= u64::MAX,
                    spec_pack_budget(pre.acks, limit) <= limit_eff,
                    spec_pack_budget(pre.acks, limit) == (
                    if limit_eff as int <= u64::MAX - next0 {
                        limit_eff as int
                    } else {
                        u64::MAX - next0
                    }),
                    forall|k: int|
                        0 <= k < out@.len() ==> (#[trigger] out@[k])@.len()
                            <= SHORT_HEADER_BYTES + pool.buffer_size,
                    forall|k: int|
                        0 <= k < out@.len() ==> (#[trigger] out@[k])@.len()
                            >= SHORT_HEADER_BYTES && out@[k]@.subrange(
                            0,
                            SHORT_HEADER_BYTES as int,
                        ) == spec_header_bytes(
                            Header::Short {
                                packet_number: (next0 + k) as u64,
                                packet_type: PacketType::Data,
                                dst_id: pre.dst_id,
                            },
                        ),
                    (!want_lost && out@.len() < spec_pack_budget(pre.acks, limit)
                        && SHORT_HEADER_BYTES + pool.buffer_size <= usize::MAX) ==> forall|
                        cj: int,
                        s: u64,
                    |
                        0 <= cj < ci && (#[trigger] self.channels@[
                            cj].send_buffer.spec_entry(s)) is Some ==> spec_no_live_due(
                            self.channels@[cj].send_buffer.spec_entry(s)->Some_0,
                            *pool,
                            false,
                        ),
                decreases n - ci,
            {
                let room_flight = limit_eff - out.len();
                let room_seq: u64 = u64::MAX - self.acks.next_send;
                let budget: usize = if (room_flight as u64) <= room_seq {
                    room_flight
                } else {
                    room_seq as usize
                };
                let cid = self.channels[ci].id;
                let ghost pre_chans = self.channels@;
                let regions = {
                    let ch = &mut self.channels[ci];
                    ch.collect_outgoing(pool, want_lost, budget)
                };
                proof {
                    assert forall|j: int| 0 <= j < self.channels@.len() implies (
                    #[trigger] self.channels@[j]).wf() by {
                        if j != ci {
                            assert(self.channels@[j] == pre_chans[j]);
                        }
                    }
                    assert forall|a: int, b: int|
                        0 <= a < self.channels@.len() && 0 <= b < self.channels@.len() && a
                            != b implies self.channels@[a].id != self.channels@[b].id by {
                        assert(self.channels@[ci as int].id == pre_chans[ci as int].id);
                    }
                    assert(self.wf());
                }
                let ghost chans_after_collect = self.channels@;
                let ghost out_before = out@;
                let mut t: usize = 0;
                while t < regions.len()
                    invariant
                        t <= regions@.len(),
                        next0 + out_before.len() + regions@.len() <= u64::MAX,
                        self.wf(),
                        n == self.channels@.len(),
                        pool.wf(),
                        next0 == pre.acks.next_send,
                        self.state == pre.state,
                        self.src_id == pre.src_id,
                        self.dst_id == pre.dst_id,
                        self.role == pre.role,
                        self.peer_addr == pre.peer_addr,
                        self.time_created == pre.time_created,
                        self.time_latest_recv == pre.time_latest_recv,
                        self.mtu == pre.mtu,
                        self.token_expire_time == pre.token_expire_time,
                        self.channels@ == chans_after_collect,
                        self.acks == (Acknowledgement {
                            next_send: self.acks.next_send,
                            ..pre.acks
                        }),
                        self.acks.next_send == next0 + out@.len(),
                        out@.len() == out_before.len() + t,
                        out_before.len() + regions@.len() <= limit_eff,
                        next0 + out@.len() <= u64::MAX,
                        forall|k: int|
                            0 <= k < regions@.len() ==> (#[trigger] regions@[k]).0@.len()
                                <= pool.buffer_size,
                        forall|k: int|
                            0 <= k < out@.len() ==> (#[trigger] out@[k])@.len()
                                <= SHORT_HEADER_BYTES + pool.buffer_size,
                        forall|k: int|
                            0 <= k < out@.len() ==> (#[trigger] out@[k])@.len()
                                >= SHORT_HEADER_BYTES && out@[k]@.subrange(
                                0,
                                SHORT_HEADER_BYTES as int,
                            ) == spec_header_bytes(
                                Header::Short {
                                    packet_number: (next0 + k) as u64,
                                    packet_type: PacketType::Data,
                                    dst_id: pre.dst_id,
                                },
                            ),
                    ensures
                        SHORT_HEADER_BYTES + pool.buffer_size <= usize::MAX ==> t
                            == regions@.len(),
                    decreases regions@.len() - t,
                {
                    let region_len = regions[t].0.len();
                    let mseq = regions[t].1;
                    let fidx = regions[t].2;
                    let total = match SHORT_HEADER_BYTES.checked_add(region_len) {
                        Some(v) => v,
                        None => {
                            proof {
                                assert(SHORT_HEADER_BYTES + pool.buffer_size > usize::MAX);
                            }
                            break;
                        },
                    };
                    let packet_number = self.acks.next_send;
                    proof {
                        assert(packet_number < u64::MAX);
                    }
                    self.acks.next_send = packet_number + 1;
                    let mut cur = BytesMut::zeroed(total);
                    let ghost z0 = cur.inner@;
                    let header = Header::Short {
                        packet_number,
                        packet_type: PacketType::Data,
                        dst_id: self.dst_id,
                    };
                    let wrote = header.write(&mut cur);
                    proof {
                        crate::cursor::lemma_be_bytes_len(packet_number as nat, 8);
                        crate::cursor::lemma_be_bytes_len(self.dst_id as nat, 8);
                        assert(wrote is Ok);
                    }
                    let copied = cur.copy_from_slice(regions[t].0.as_slice());
                    proof {
                        assert(copied is Ok);
                    }
                    let datagram = cur.into_inner();
                    proof {
                        assert(datagram@.subrange(0, SHORT_HEADER_BYTES as int)
                            =~= spec_header_bytes(header));
                    }
                    out.push(datagram);
                    let mut included: Vec<(ChannelId, SequenceNumber, u8)> = Vec::new();
                    included.push((cid, mseq, fidx));
                    let packet = SendPacket { sequence: packet_number, included, time_sent: now };
                    let _ = self.send_buffer.insert(packet_number, packet);
                    t += 1;
                }
                proof {
                    if !want_lost && out@.len() < spec_pack_budget(pre.acks, limit)
                        && SHORT_HEADER_BYTES + pool.buffer_size <= usize::MAX {
                        assert(t == regions@.len());
                        assert(out@.len() == out_before.len() + regions@.len());
                        assert(regions@.len() < budget);
                        assert forall|cj: int, s: u64|
                            0 <= cj < ci + 1 && (#[trigger] self.channels@[
                                cj].send_buffer.spec_entry(s)) is Some implies spec_no_live_due(
                            self.channels@[cj].send_buffer.spec_entry(s)->Some_0,
                            *pool,
                            false,
                        ) by {
                            if cj == ci as int {
                                assert(self.channels@[cj] == chans_after_collect[cj]);
                            } else {
                                assert(self.channels@[cj] == pre_chans[cj]);
                            }
                        }
                    }
                }
                ci += 1;
            }
            pass += 1;
        }
        self.time_latest_send = Some(now);
        out
    }
}


impl Connection {
    /// Builds the datagram a control action asks for: a long (handshake)
    /// header for a connect request or a disconnect notification — the wire
    /// format carries no disconnect frame, so the reason stays local — and
    /// a short header followed by a ping frame for a heartbeat. The packet
    /// number is consumed from the connection's sequence. Idle and removal
    /// actions build nothing.
    pub fn build_control_datagram(&mut self, action: UpdateAction) -> (r: Option<Vec<u8>>)
        requires
            old(self).wf(),
        ensures
            final(self).wf(),
            final(self).state == old(self).state,
            final(self).channels == old(self).channels,
            final(self).send_buffer == old(self).send_buffer,
            final(self).rtt == old(self).rtt,
            final(self).time_latest_recv == old(self).time_latest_recv,
            match r {
                Some(datagram) => {
                    &&& old(self).acks.next_send < u64::MAX
                    &&& final(self).acks == (Acknowledgement {
                        next_send: (old(self).acks.next_send + 1) as u64,
                        ..old(self).acks
                    })
                    &&& match action {
                        UpdateAction::SendRequest | UpdateAction::SendDisconnect(_) => datagram@
                            == spec_header_bytes(
                            Header::Long {
                                packet_number: old(self).acks.next_send,
                                packet_type: PacketType::Handshake,
                                src_id: old(self).src_id,
                                dst_id: old(self).dst_id,
                            },
                        ),
                        UpdateAction::SendHeartbeat => datagram@ == spec_header_bytes(
                            Header::Short {
                                packet_number: old(self).acks.next_send,
                                packet_type: PacketType::Data,
                                dst_id: old(self).dst_id,
                            },
                        ) + spec_frame_bytes(Frame::Ping),
                        _ => false,
                    }
                },
                None => {
                    &&& final(self).acks == old(self).acks
                    &&& (action == UpdateAction::Idle || action == UpdateAction::Remove || old(
                        self,
                    ).acks.next_send == u64::MAX)
                },
            },
    {
        let wants_long = matches!(action, UpdateAction::SendRequest) || matches!(
            action,
            UpdateAction::SendDisconnect(_),
        );
        let wants_ping = matches!(action, UpdateAction::SendHeartbeat);
        if !wants_long && !wants_ping {
            return None;
        }
        if self.acks.next_send == u64::MAX {
            return None;
        }
        let packet_number = self.acks.next_send;
        self.acks.next_send = packet_number + 1;
        proof {
            crate::cursor::lemma_be_bytes_len(packet_number as nat, 8);
            crate::cursor::lemma_be_bytes_len(self.src_id as nat, 8);
            crate::cursor::lemma_be_bytes_len(self.dst_id as nat, 8);
        }
        if wants_long {
            let header = Header::Long {
                packet_number,
                packet_type: PacketType::Handshake,
                src_id: self.src_id,
                dst_id: self.dst_id,
            };
            let mut cur = BytesMut::zeroed(LONG_HEADER_BYTES);
            let wrote = header.write(&mut cur);
            proof {
                assert(wrote is Ok);
            }
            let datagram = cur.into_inner();
            proof {
                assert(datagram@ =~= spec_header_bytes(header));
            }
            Some(datagram)
        } else {
            let header = Header::Short {
                packet_number,
                packet_type: PacketType::Data,
                dst_id: self.dst_id,
            };
            let mut cur = BytesMut::zeroed(SHORT_HEADER_BYTES + 1);
            let ghost z0 = cur.inner@;
            let wrote = header.write(&mut cur);
            proof {
                assert(wrote is Ok);
            }
            let ghost s1 = cur.inner@;
            let pinged = Frame::Ping.write(&mut cur);
            proof {
                assert(pinged is Ok);
                crate::cursor::lemma_written_concat(
                    z0,
                    0,
                    spec_header_bytes(header),
                    s1,
                    spec_frame_bytes(Frame::Ping),
                    cur.inner@,
                );
            }
            let datagram = cur.into_inner();
            proof {
                assert(datagram@ =~= spec_header_bytes(header) + spec_frame_bytes(Frame::Ping));
            }
            Some(datagram)
        }
    }
}

/// The connection table: every live session, the shared buffer pool and the
/// configuration, driven by one cooperative tick loop.
pub struct Connections {
    pub conn: Vec<Connection>,
    pub pool: BufferPool,
    pub config: Config,
}

impl Connections {
    /// Every connection is well formed, the pool is, buffers are large
    /// enough to stage a full fragment behind its frame header, and the
    /// smoothing weight is a valid fraction.
    pub open spec fn wf(self) -> bool {
        &&& self.pool.wf()
        &&& forall|i: int| 0 <= i < self.conn@.len() ==> (#[trigger] self.conn@[i]).wf()
        &&& self.pool.buffer_size >= crate::constants::DATA_FRAME_HEADER_BYTES
            + crate::constants::MAX_FRAGMENT_BYTES
        &&& self.config.rtt_smoothing_factor <= 1024
    }

    /// An empty table over a fresh pool of `pool_capacity` buffers sized to
    /// carry one datagram each.
    pub fn new(config: Config, pool_capacity: usize) -> (r: Self)
        requires
            pool_capacity <= u32::MAX,
            config.rtt_smoothing_factor <= 1024,
        ensures
            r.wf(),
            r.conn@.len() == 0,
            r.pool.capacity == pool_capacity,
            r.pool.capacity_remaining == pool_capacity,
    {
        Connections {
            conn: Vec::new(),
            pool: BufferPool::new(crate::constants::MAX_PAYLOAD_BYTES, pool_capacity),
            config,
        }
    }

    /// Adds a session to the table.
    pub fn add_connection(&mut self, c: Connection)
        requires
            old(self).wf(),
            c.wf(),
        ensures
            final(self).wf(),
            final(self).conn@ == old(self).conn@.push(c),
    {
        self.conn.push(c);
    }

    /// Drops the session whose local id is `src_id`, if present, and says
    /// whether one was. Ids are allotted by the caller and never reused by
    /// this table, so no stale reference can match a later session; a caller
    /// that recycles ids must tag them with its own generation counter.
    pub fn remove_connection(&mut self, src_id: ConnectionId) -> (r: bool)
        requires
            old(self).wf(),
        ensures
            final(self).wf(),
            final(self).config == old(self).config,
            final(self).pool == old(self).pool,
            r == (exists|i: int|
                0 <= i < old(self).conn@.len() && (#[trigger] old(self).conn@[i]).src_id
                    == src_id),
            !r ==> final(self).conn@ == old(self).conn@,
            r ==> final(self).conn@.len() == old(self).conn@.len() - 1,
            r ==> forall|j: int|
                0 <= j < final(self).conn@.len() ==> exists|k: int|
                    0 <= k < old(self).conn@.len() && (#[trigger] final(self).conn@[j]) == old(
                        self,
                    ).conn@[k],
    {
        let n = self.conn.len();
        let mut i: usize = 0;
        while i < n
            invariant
                i <= n,
                n == self.conn@.len(),
                self.wf(),
                self.conn@ == old(self).conn@,
                self.config == old(self).config,
                self.pool == old(self).pool,
                forall|j: int| 0 <= j < i ==> (#[trigger] self.conn@[j]).src_id != src_id,
            decreases n - i,
        {
            if self.conn[i].src_id() == src_id {
                let ghost pre = self.conn@;
                let _ = self.conn.swap_remove(i);
                proof {
                    assert forall|j: int| 0 <= j < self.conn@.len() implies (
                    #[trigger] self.conn@[j]).wf() by {
                        if j < self.conn@.len() {
                            assert(self.conn@[j] == pre[j] || self.conn@[j] == pre[pre.len()
                                - 1]);
                        }
                    }
                    assert(self.wf());
                    assert forall|j: int| 0 <= j < self.conn@.len() implies exists|k: int|
                        0 <= k < pre.len() && (#[trigger] self.conn@[j]) == pre[k] by {
                        if self.conn@[j] == pre[j] {
                            assert(0 <= j < pre.len() && self.conn@[j] == pre[j]);
                        } else {
                            assert(self.conn@[j] == pre[pre.len() - 1]);
                        }
                    }
                }
                return true;
            }
            i += 1;
        }
        false
    }

    /// The table index of the session addressed as `dst`, if any.
    fn find_connection(&self, dst: ConnectionId) -> (r: Option<usize>)
        ensures
            match r {
                Some(i) => i < self.conn@.len() && self.conn@[i as int].src_id == dst,
                None => forall|i: int|
                    0 <= i < self.conn@.len() ==> (#[trigger] self.conn@[i]).src_id != dst,
            },
    {
        let n = self.conn.len();
        let mut i: usize = 0;
        while i < n
            invariant
                i <= n,
                n == self.conn@.len(),
                forall|j: int| 0 <= j < i ==> (#[trigger] self.conn@[j]).src_id != dst,
            decreases n - i,
        {
            if self.conn[i].src_id() == dst {
                return Some(i);
            }
            i += 1;
        }
        None
    }

    /// Queues an application message on a connection's channel: the message
    /// is split into fragments and staged for the packer. All of
    /// `store_outgoing_data`'s checks apply; an unknown connection is
    /// reported as a zero-length error.
    pub fn send_message(
        &mut self,
        conn_id: ConnectionId,
        channel_id: ChannelId,
        data: &[u8],
        now: u64,
    ) -> (r: Result<(), crate::channel::ErrorKind>)
        requires
            old(self).wf(),
        ensures
            final(self).wf(),
            (forall|i: int|
                0 <= i < old(self).conn@.len() ==> (#[trigger] old(self).conn@[i]).src_id
                    != conn_id) ==> r == Err::<(), crate::channel::ErrorKind>(
                crate::channel::ErrorKind::SendMessageZeroLength,
            ) && *final(self) == *old(self),
            r is Ok ==> {
                &&& exists|i: int|
                    0 <= i < old(self).conn@.len() && (#[trigger] old(self).conn@[i]).src_id
                        == conn_id
                &&& data@.len() > 0
                &&& spec_chunk_count(data@.len() as int, MAX_FRAGMENT_BYTES as int)
                    <= MAX_FRAGMENTS
                &&& exists|i: int, ci: int, sq: u64|
                    {
                        &&& 0 <= i < final(self).conn@.len()
                        &&& final(self).conn@[i].src_id == conn_id
                        &&& 0 <= ci < final(self).conn@[i].channels@.len()
                        &&& final(self).conn@[i].channels@[ci].id == channel_id
                        &&& (#[trigger] final(self).conn@[i].channels@[ci].send_buffer.spec_entry(
                            sq,
                        )) matches Some(m) && {
                            let count = spec_chunk_count(
                                data@.len() as int,
                                MAX_FRAGMENT_BYTES as int,
                            );
                            &&& m.fragment_count == count
                            &&& forall|fi: int|
                                0 <= fi < count ==> Channel::spec_fragment_staged(
                                    channel_id,
                                    sq,
                                    count,
                                    data@,
                                    fi,
                                    #[trigger] m.fragment_data@[fi],
                                    final(self).pool,
                                )
                        }
                    }
            },
    {
        let idx = match self.find_connection(conn_id) {
            Some(i) => i,
            None => {
                return Err(crate::channel::ErrorKind::SendMessageZeroLength);
            },
        };
        let ghost pre_conns = self.conn@;
        let c = &mut self.conn[idx];
        let ci = c.get_or_create_channel(channel_id);
        let ghost pre_chans = c.channels@;
        let result = {
            let ch = &mut c.channels[ci];
            if ch.acks.next_send == u64::MAX {
                Err(crate::channel::ErrorKind::FragmentCountExceedsMax)
            } else {
                ch.store_outgoing_data(&mut self.pool, data, now)
            }
        };
        proof {
            assert forall|j: int| 0 <= j < c.channels@.len() implies (
            #[trigger] c.channels@[j]).wf() by {
                if j != ci {
                    assert(c.channels@[j] == pre_chans[j]);
                }
            }
            assert forall|a: int, b: int|
                0 <= a < c.channels@.len() && 0 <= b < c.channels@.len() && a != b implies
                c.channels@[a].id != c.channels@[b].id by {
                assert(c.channels@[ci as int].id == pre_chans[ci as int].id);
            }
            assert(c.wf());
        }
        proof {
            assert forall|j: int| 0 <= j < self.conn@.len() implies (#[trigger] self.conn@[
                j]).wf() by {
                if j != idx {
                    assert(self.conn@[j] == pre_conns[j]);
                }
            }
            assert(self.wf());
        }
        result
    }

    /// Pops the oldest message a channel has ready for the application.
    pub fn recv_message(&mut self, conn_id: ConnectionId, channel_id: ChannelId) -> (r: Option<
        Vec<u8>,
    >)
        requires
            old(self).wf(),
        ensures
            final(self).wf(),
            (forall|i: int|
                0 <= i < old(self).conn@.len() ==> (#[trigger] old(self).conn@[i]).src_id
                    != conn_id) ==> r is None && *final(self) == *old(self),
            r is Some ==> exists|i: int|
                0 <= i < old(self).conn@.len() && (#[trigger] old(self).conn@[i]).src_id
                    == conn_id,
    {
        let idx = match self.find_connection(conn_id) {
            Some(i) => i,
            None => {
                return None;
            },
        };
        let ghost pre_conns = self.conn@;
        let c = &mut self.conn[idx];
        let ci = c.get_or_create_channel(channel_id);
        let ghost pre_chans = c.channels@;
        let r = {
            let ch = &mut c.channels[ci];
            ch.recv(&mut self.pool)
        };
        proof {
            assert forall|j: int| 0 <= j < c.channels@.len() implies (
            #[trigger] c.channels@[j]).wf() by {
                if j != ci {
                    assert(c.channels@[j] == pre_chans[j]);
                }
            }
            assert forall|a: int, b: int|
                0 <= a < c.channels@.len() && 0 <= b < c.channels@.len() && a != b implies
                c.channels@[a].id != c.channels@[b].id by {
                assert(c.channels@[ci as int].id == pre_chans[ci as int].id);
            }
            assert(c.wf());
            assert forall|j: int| 0 <= j < self.conn@.len() implies (#[trigger] self.conn@[
                j]).wf() by {
                if j != idx {
                    assert(self.conn@[j] == pre_conns[j]);
                }
            }
            assert(self.wf());
        }
        r
    }


    /// Builds the control datagram a session owes for an update action,
    /// paired with the peer to send it to.
    pub fn control_datagram(&mut self, conn_id: ConnectionId, action: UpdateAction) -> (r:
        Option<(PeerAddr, Vec<u8>)>)
        requires
            old(self).wf(),
        ensures
            final(self).wf(),
            (forall|i: int|
                0 <= i < old(self).conn@.len() ==> (#[trigger] old(self).conn@[i]).src_id
                    != conn_id) ==> r is None && *final(self) == *old(self),
    {
        let idx = match self.find_connection(conn_id) {
            Some(i) => i,
            None => {
                return None;
            },
        };
        let ghost pre_conns = self.conn@;
        let addr = self.conn[idx].peer_addr;
        let built = self.conn[idx].build_control_datagram(action);
        proof {
            assert forall|j: int| 0 <= j < self.conn@.len() implies (#[trigger] self.conn@[
                j]).wf() by {
                if j != idx {
                    assert(self.conn@[j] == pre_conns[j]);
                }
            }
            assert(self.wf());
        }
        match built {
            Some(datagram) => Some((addr, datagram)),
            None => None,
        }
    }

    /// Advances every session one tick, reporting the action each owes the
    /// driver; sessions asking removal stay until `remove_connection`.
    pub fn update_all(&mut self, now: u64) -> (r: Vec<(ConnectionId, UpdateAction)>)
        requires
            old(self).wf(),
        ensures
            final(self).wf(),
            r@.len() == old(self).conn@.len(),
            final(self).conn@.len() == old(self).conn@.len(),
            final(self).config == old(self).config,
            final(self).pool == old(self).pool,
            forall|k: int|
                0 <= k < r@.len() ==> (#[trigger] r@[k]).0 == old(self).conn@[k].src_id,
            forall|k: int|
                0 <= k < r@.len() ==> spec_update_outcome(
                    old(self).conn@[k],
                    final(self).conn@[k],
                    now,
                    old(self).config,
                    (#[trigger] r@[k]).1,
                ),
    {
        let mut actions: Vec<(ConnectionId, UpdateAction)> = Vec::new();
        let n = self.conn.len();
        let mut i: usize = 0;
        while i < n
            invariant
                i <= n,
                n == self.conn@.len(),
                self.wf(),
                self.config == old(self).config,
                self.pool == old(self).pool,
                actions@.len() == i,
                forall|k: int|
                    0 <= k < i ==> (#[trigger] actions@[k]).0 == old(self).conn@[k].src_id,
                forall|k: int|
                    0 <= k < i ==> spec_update_outcome(
                        old(self).conn@[k],
                        self.conn@[k],
                        now,
                        old(self).config,
                        (#[trigger] actions@[k]).1,
                    ),
                forall|j: int| i <= j < n ==> (#[trigger] self.conn@[j]) == old(self).conn@[j],
            decreases n - i,
        {
            let ghost pre_conns = self.conn@;
            let id = self.conn[i].src_id();
            let action = self.conn[i].update(now, &self.config);
            proof {
                assert forall|j: int| 0 <= j < self.conn@.len() implies (#[trigger] self.conn@[
                    j]).wf() by {
                    if j != i {
                        assert(self.conn@[j] == pre_conns[j]);
                    }
                }
                assert(self.wf());
            }
            actions.push((id, action));
            proof {
                assert forall|k: int|
                    0 <= k < i + 1 implies spec_update_outcome(
                    old(self).conn@[k],
                    self.conn@[k],
                    now,
                    old(self).config,
                    (#[trigger] actions@[k]).1,
                ) by {
                    if k < i {
                        assert(self.conn@[k] == pre_conns[k]);
                    }
                }
            }
            i += 1;
        }
        actions
    }

    /// Collects every datagram the table owes its peers this tick, each
    /// paired with the peer it goes to.
    pub fn pack_all(&mut self, now: u64) -> (r: Vec<(PeerAddr, Vec<u8>)>)
        requires
            old(self).wf(),
        ensures
            final(self).wf(),
            final(self).conn@.len() == old(self).conn@.len(),
            forall|k: int|
                0 <= k < r@.len() ==> (#[trigger] r@[k]).1@.len() <= SHORT_HEADER_BYTES
                    + final(self).pool.buffer_size,
            forall|k: int|
                0 <= k < r@.len() ==> spec_peer_known(old(self).conn@, (#[trigger] r@[k]).0),
    {
        let mut out: Vec<(PeerAddr, Vec<u8>)> = Vec::new();
        let n = self.conn.len();
        let limit = self.config.max_packets_in_flight;
        let mut i: usize = 0;
        while i < n
            invariant
                i <= n,
                n == self.conn@.len(),
                n == old(self).conn@.len(),
                self.wf(),
                forall|j: int|
                    i <= j < n ==> (#[trigger] self.conn@[j]).peer_addr == old(self).conn@[
                        j].peer_addr,
                forall|k: int|
                    0 <= k < out@.len() ==> (#[trigger] out@[k]).1@.len() <= SHORT_HEADER_BYTES
                        + self.pool.buffer_size,
                forall|k: int|
                    0 <= k < out@.len() ==> spec_peer_known(
                        old(self).conn@,
                        (#[trigger] out@[k]).0,
                    ),
            decreases n - i,
        {
            let ghost pre_conns = self.conn@;
            let addr = self.conn[i].peer_addr;
            let packets = {
                let c = &mut self.conn[i];
                c.pack_outgoing(&self.pool, now, limit)
            };
            proof {
                assert forall|j: int| 0 <= j < self.conn@.len() implies (#[trigger] self.conn@[
                    j]).wf() by {
                    if j != i {
                        assert(self.conn@[j] == pre_conns[j]);
                    }
                }
                assert(self.wf());
            }
            let mut t: usize = 0;
            let mut packets_mut = packets;
            while t < packets_mut.len()
                invariant
                    t <= packets_mut@.len(),
                    i < n,
                    n == old(self).conn@.len(),
                    addr == old(self).conn@[i as int].peer_addr,
                    forall|k: int|
                        0 <= k < packets_mut@.len() ==> (#[trigger] packets_mut@[k])@.len()
                            <= SHORT_HEADER_BYTES + self.pool.buffer_size,
                    forall|k: int|
                        0 <= k < out@.len() ==> (#[trigger] out@[k]).1@.len()
                            <= SHORT_HEADER_BYTES + self.pool.buffer_size,
                    forall|k: int|
                        0 <= k < out@.len() ==> spec_peer_known(
                            old(self).conn@,
                            (#[trigger] out@[k]).0,
                        ),
                decreases packets_mut@.len() - t,
            {
                let p = packets_mut[t].clone();
                let ghost out0 = out@;
                out.push((addr, p));
                proof {
                    assert forall|k: int|
                        0 <= k < out@.len() implies spec_peer_known(
                        old(self).conn@,
                        (#[trigger] out@[k]).0,
                    ) by {
                        if k < out0.len() {
                            assert(out@[k].0 == out0[k].0);
                            assert(spec_peer_known(old(self).conn@, out0[k].0));
                        } else {
                            assert(out@[k].0 == old(self).conn@[i as int].peer_addr);
                            assert(spec_peer_known(old(self).conn@, out@[k].0));
                        }
                    }
                }
                t += 1;
            }
            i += 1;
        }
        out
    }
}





/// Whether `addr` is the address of some session in the table.
pub open spec fn spec_peer_known(conns: Seq<Connection>, addr: PeerAddr) -> bool {
    exists|i: int| 0 <= i < conns.len() && (#[trigger] conns[i]).peer_addr == addr
}

/// Whether a datagram is fully acceptable against a connection table: its
/// header parses, it addresses a known session, and — for a data packet —
/// its frames fill it exactly, payloads included. Handshake packets carry
/// no frames that matter.
pub open spec fn spec_datagram_accepted(conns: Seq<Connection>, data: Seq<u8>) -> bool {
    match crate::frames::spec_parse_header(data, 0) {
        None => false,
        Some(parsed) => {
            &&& exists|i: int|
                0 <= i < conns.len() && (#[trigger] conns[i]).src_id == spec_header_dst(parsed.0)
            &&& match parsed.0 {
                Header::Long { .. } => true,
                Header::Short { .. } => crate::frames::spec_frames_ok(data, parsed.1),
            }
        },
    }
}

/// The destination id a header addresses.
pub open spec fn spec_header_dst(h: Header) -> ConnectionId {
    match h {
        Header::Long { dst_id, .. } => dst_id,
        Header::Short { dst_id, .. } => dst_id,
    }
}

impl Connections {
    /// Processes one received datagram: parses the header, routes it to the
    /// session it addresses, and walks its frames — acknowledgment frames
    /// into the packet engine, data frames staged into fresh pool buffers
    /// and handed to their channel, padding and pings skipped. A handshake
    /// packet counts as a connect request. A malformed header or unknown
    /// destination discards the datagram, a malformed frame discards the
    /// rest of it, and a frame its channel refuses is dropped alone, its
    /// buffer released.
    pub fn process_datagram(&mut self, data: Vec<u8>, now: u64) -> (r: Result<(), WireError>)
        requires
            old(self).wf(),
        ensures
            final(self).wf(),
            final(self).conn@.len() == old(self).conn@.len(),
            r is Ok <==> spec_datagram_accepted(old(self).conn@, data@),
            r is Ok ==> exists|i: int|
                0 <= i < final(self).conn@.len() && (#[trigger] final(self).conn@[i]).src_id
                    == spec_header_dst(crate::frames::spec_parse_header(data@, 0)->Some_0.0)
                    && final(self).conn@[i].time_latest_recv == Some(now),
    {
        let ghost data_view = data@;
        let mut cur = Bytes::new(data);
        let header = match Header::read(&mut cur) {
            Ok(h) => h,
            Err(e) => {
                return Err(e);
            },
        };
        let (dst, packet_number, is_data) = match header {
            Header::Long { packet_number, dst_id, .. } => (dst_id, packet_number, false),
            Header::Short { packet_number, dst_id, .. } => (dst_id, packet_number, true),
        };
        let ghost hdr_end = cur.pos as int;
        let idx = match self.find_connection(dst) {
            Some(i) => i,
            None => {
                return Err(WireError::InvalidData);
            },
        };
        proof {
            assert(crate::frames::spec_parse_header(data_view, 0) == Some((header, hdr_end)));
            assert(spec_header_dst(crate::frames::spec_parse_header(data_view, 0)->Some_0.0)
                == dst);
        }
        let ghost pre_conns0 = self.conn@;
        {
            let c = &mut self.conn[idx];
            c.time_latest_recv = Some(now);
            let window = c.send_buffer.capacity() as u64;
            let _ = c.acks.note_recv(packet_number, window);
        }
        proof {
            assert forall|j: int| 0 <= j < self.conn@.len() implies (#[trigger] self.conn@[
                j]).wf() by {
                if j != idx {
                    assert(self.conn@[j] == pre_conns0[j]);
                } else {
                    assert(self.conn@[j].send_buffer == pre_conns0[j].send_buffer);
                    assert(self.conn@[j].channels == pre_conns0[j].channels);
                }
            }
            assert(self.wf());
        }
        if !is_data {
            let ghost pre_conns = self.conn@;
            let reply = {
                let c = &mut self.conn[idx];
                c.handle_request(Request::Connect)
            };
            proof {
                assert forall|j: int| 0 <= j < self.conn@.len() implies (#[trigger] self.conn@[
                    j]).wf() by {
                    if j != idx {
                        assert(self.conn@[j] == pre_conns[j]);
                    }
                }
                assert(self.wf());
            }
            let _ = reply;
            return Ok(());
        }
        let smoothing = self.config.rtt_smoothing_factor;
        loop
            invariant
                self.wf(),
                smoothing <= 1024,
                idx < self.conn@.len(),
                self.conn@.len() == old(self).conn@.len(),
                self.conn@[idx as int].src_id == dst,
                self.conn@[idx as int].time_latest_recv == Some(now),
                cur.pos <= cur.inner@.len(),
                cur.inner@ == data_view,
                data_view == data@,
                0 <= hdr_end,
                crate::frames::spec_parse_header(data_view, 0) == Some((header, hdr_end)),
                spec_header_dst(header) == dst,
                header matches Header::Short { .. },
                exists|i: int|
                    0 <= i < old(self).conn@.len() && (#[trigger] old(self).conn@[i]).src_id
                        == dst,
                crate::frames::spec_frames_ok(data_view, hdr_end)
                    == crate::frames::spec_frames_ok(data_view, cur.pos as int),
            ensures
                crate::frames::spec_frames_ok(data_view, hdr_end),
            decreases cur.inner@.len() - cur.pos,
        {
            if cur.remaining() == 0 {
                proof {
                    assert(crate::frames::spec_frames_ok(data_view, cur.pos as int));
                }
                break;
            }
            let ghost pos_b = cur.pos as int;
            let frame = match Frame::read(&mut cur) {
                Ok(f) => f,
                Err(_) => {
                    proof {
                        assert(!crate::frames::spec_frames_ok(data_view, pos_b));
                    }
                    return Err(WireError::InvalidData);
                },
            };
            match frame {
                Frame::Padding { .. } => {
                    proof {
                        crate::frames::lemma_frames_ok_padding(
                            data_view,
                            pos_b,
                            cur.pos - pos_b,
                        );
                    }
                },
                Frame::Ping => {},
                Frame::Ack { ack_sequence, ack_mask } => {
                    let ghost pre_conns = self.conn@;
                    let _ = {
                        let c = &mut self.conn[idx];
                        c.acknowledge(&mut self.pool, ack_sequence, ack_mask, now, smoothing)
                    };
                    proof {
                        assert forall|j: int| 0 <= j < self.conn@.len() implies (
                        #[trigger] self.conn@[j]).wf() by {
                            if j != idx {
                                assert(self.conn@[j] == pre_conns[j]);
                            }
                        }
                        assert(self.wf());
                    }
                },
                Frame::Data { channel_id, channel_sequence, fragment_index, fragment_count, len } => {
                    let payload_len = len as usize;
                    let rem = cur.remaining();
                    if rem < payload_len {
                        proof {
                            assert(!crate::frames::spec_frames_ok(data_view, pos_b));
                        }
                        return Err(WireError::UnexpectedEnd);
                    }
                    if payload_len <= self.pool.buffer_size {
                        let buffer_size = self.pool.buffer_size;
                        let start = cur.position();
                        let buf_len = cur.len();
                        let mut content: Vec<u8> = Vec::new();
                        let mut j: usize = 0;
                        while j < buffer_size
                            invariant
                                j <= buffer_size,
                                content@.len() == j,
                                start + payload_len <= buf_len,
                                buf_len == cur.inner@.len(),
                                buf_len <= usize::MAX,
                                payload_len <= buffer_size,
                            decreases buffer_size - j,
                        {
                            if j < payload_len {
                                content.push(cur.inner[start + j]);
                            } else {
                                content.push(0);
                            }
                            j += 1;
                        }
                        match self.pool.acquire_for(dst, channel_id) {
                            Ok(handle) => {
                                let put_r = self.pool.put(handle, content);
                                proof {
                                    assert(put_r is Ok);
                                }
                                let ghost pre_conns = self.conn@;
                                let store_r = {
                                    let c = &mut self.conn[idx];
                                    let ci = c.get_or_create_channel(channel_id);
                                    let ghost pre_chans = c.channels@;
                                    let inner_r = {
                                        let ch = &mut c.channels[ci];
                                        ch.store_incoming_data(
                                            &mut self.pool,
                                            channel_sequence,
                                            fragment_index,
                                            fragment_count,
                                            handle,
                                            0,
                                            payload_len,
                                            now,
                                        )
                                    };
                                    proof {
                                        assert forall|k: int|
                                            0 <= k < c.channels@.len() implies (
                                        #[trigger] c.channels@[k]).wf() by {
                                            if k != ci {
                                                assert(c.channels@[k] == pre_chans[k]);
                                            }
                                        }
                                        assert forall|a: int, b: int|
                                            0 <= a < c.channels@.len() && 0 <= b
                                                < c.channels@.len() && a != b implies c.channels@[
                                            a].id != c.channels@[b].id by {
                                            assert(c.channels@[ci as int].id == pre_chans[
                                                ci as int].id);
                                        }
                                        assert(c.wf());
                                    }
                                    inner_r
                                };
                                proof {
                                    assert forall|k: int| 0 <= k < self.conn@.len() implies (
                                    #[trigger] self.conn@[k]).wf() by {
                                        if k != idx {
                                            assert(self.conn@[k] == pre_conns[k]);
                                        }
                                    }
                                    assert(self.wf());
                                }
                                if store_r.is_err() {
                                    let _ = self.pool.release(handle);
                                }
                            },
                            Err(_) => {},
                        }
                    }
                    let advanced = cur.advance(payload_len);
                    proof {
                        assert(advanced is Ok);
                        assert(cur.pos == pos_b + 21 + payload_len);
                        assert(crate::frames::spec_frames_ok(data_view, pos_b)
                            == crate::frames::spec_frames_ok(data_view, cur.pos as int));
                    }
                },
            }
        }
        Ok(())
    }
}

} // verus!
