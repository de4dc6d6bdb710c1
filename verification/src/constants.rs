//! Wire-format and protocol-wide size constants.

use vstd::prelude::*;

verus! {

/// Bytes taken by an IPv6 header on the wire.
pub const IPV6_HEADER_BYTES: usize = 40;

/// Bytes taken by a UDP header on the wire.
pub const UDP_HEADER_BYTES: usize = 8;

/// Largest datagram this protocol will emit (conservative internet MTU).
pub const MAX_PACKET_BYTES: usize = 1280;

/// Largest payload a single datagram can carry after IP and UDP overhead.
pub const MAX_PAYLOAD_BYTES: usize = MAX_PACKET_BYTES - IPV6_HEADER_BYTES - UDP_HEADER_BYTES;

/// Serialized size of a long (handshake) header: packet number, tag, source
/// and destination ids.
pub const LONG_HEADER_BYTES: usize = 8 + 1 + 8 + 8;

/// Serialized size of a short (data) header: packet number, tag and
/// destination id.
pub const SHORT_HEADER_BYTES: usize = 8 + 1 + 8;

/// Serialized size of a data frame header: tag, channel id, channel sequence,
/// fragment index, fragment count and payload length.
pub const DATA_FRAME_HEADER_BYTES: usize = 1 + 8 + 8 + 1 + 1 + 2;

/// Serialized size of an acknowledgment frame: tag, sequence and mask.
pub const ACK_FRAME_BYTES: usize = 1 + 8 + 8;

/// The most fragments a message can be split into; the fragment index and
/// count travel as single bytes.
pub const MAX_FRAGMENTS: usize = 255;

/// The most payload bytes one fragment can carry, leaving room in a datagram
/// for the short header and the data frame header.
pub const MAX_FRAGMENT_BYTES: usize = MAX_PAYLOAD_BYTES - SHORT_HEADER_BYTES
    - DATA_FRAME_HEADER_BYTES;

/// The largest message that can be fragmented.
pub const MAX_MESSAGE_BYTES: usize = MAX_FRAGMENTS * MAX_FRAGMENT_BYTES;

/// Width of the redundant acknowledgment mask: receipt of this many sequence
/// numbers below the latest one is reported with each acknowledgment.
pub const REDUNDANT_ACK_MASK_BITS: u64 = 64;

/// Default capacity of the per-channel send and receive sequence buffers.
pub const DEFAULT_SEND_WINDOW_SIZE: usize = 256;

/// Round-trip time assumed for a connection before any measurement exists.
pub const DEFAULT_RTT_MS: u64 = 100;

/// Channel used when the caller does not pick one.
pub const DEFAULT_CHANNEL_ID: u64 = 0;

} // verus!
