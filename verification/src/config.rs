//! Tunable protocol parameters. All times are in milliseconds.

use vstd::prelude::*;

use crate::constants::{MAX_FRAGMENTS, MAX_FRAGMENT_BYTES, MAX_MESSAGE_BYTES};

verus! {

/// The configuration surface of the protocol stack.
#[derive(Clone, Debug)]
pub struct Config {
    /// The size of the underlying socket's buffer for incoming packets.
    pub socket_recv_buffer_bytes: usize,
    /// The size of the underlying socket's buffer for outgoing packets.
    pub socket_send_buffer_bytes: usize,
    /// The size of the event buffer socket events are received into.
    pub socket_event_buffer_size: usize,
    /// Whether the underlying socket blocks.
    pub socket_should_block: bool,
    /// How long polling for socket events may block; `None` polls forever,
    /// zero yields immediately.
    pub socket_polling_timeout: Option<u64>,
    /// The most fragments a message may be split into.
    pub max_fragments: usize,
    /// The most payload bytes one fragment may carry.
    pub max_fragment_bytes: usize,
    /// The largest message accepted for sending, before fragmentation.
    pub max_payload_bytes: usize,
    /// The most simultaneous connections; guards against memory exhaustion.
    pub max_connections: usize,
    /// When nothing else is sent, a heartbeat goes out at this interval;
    /// `None` disables heartbeats.
    pub heartbeat_timeout: Option<u64>,
    /// How long a peer may stay silent before the connection is dropped.
    pub idle_timeout: u64,
    /// The most sent packets that may await acknowledgment at once.
    pub max_packets_in_flight: usize,
    /// Round-trip smoothing weight for new samples, as a fraction of 1024.
    pub rtt_smoothing_factor: u32,
    /// The largest round-trip time still considered healthy.
    pub rtt_max_good_value: u64,
    /// How many connect requests a client sends before giving up.
    pub max_connection_attempts: u32,
    /// How long a client waits before resending a connect request.
    pub request_timeout: u64,
    /// How long a closed connection's slot lingers so late packets die
    /// quietly.
    pub linger_timeout: u64,
}

impl Default for Config {
    /// Conservative defaults for internet use.
    fn default() -> (r: Self)
        ensures
            r.max_fragments == MAX_FRAGMENTS,
            r.max_fragment_bytes == MAX_FRAGMENT_BYTES,
            r.max_payload_bytes == MAX_MESSAGE_BYTES,
            r.max_connections == 32,
            r.heartbeat_timeout is None,
            r.idle_timeout == 5000,
            r.max_packets_in_flight == 256,
            r.rtt_smoothing_factor == 102,
            r.rtt_smoothing_factor <= 1024,
            r.rtt_max_good_value == 250,
            r.max_connection_attempts == 10,
            r.request_timeout == 1000,
            r.linger_timeout == 1000,
    {
        Config {
            socket_recv_buffer_bytes: 256 * 1024,
            socket_send_buffer_bytes: 256 * 1024,
            socket_event_buffer_size: 1024,
            socket_should_block: false,
            socket_polling_timeout: Some(0),
            max_fragments: MAX_FRAGMENTS,
            max_fragment_bytes: MAX_FRAGMENT_BYTES,
            max_payload_bytes: MAX_MESSAGE_BYTES,
            max_connections: 32,
            heartbeat_timeout: None,
            idle_timeout: 5000,
            max_packets_in_flight: 256,
            rtt_smoothing_factor: 102,
            rtt_max_good_value: 250,
            max_connection_attempts: 10,
            request_timeout: 1000,
            linger_timeout: 1000,
        }
    }
}

} // verus!
