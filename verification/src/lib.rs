//! A reliable messaging protocol core for an unreliable, packet-oriented
//! transport: wire framing, a generation-checked buffer pool, sequence-number
//! ring buffers, a sliding-window acknowledgment engine with loss inference,
//! per-channel fragmentation and delivery guarantees, and a connection
//! lifecycle state machine.

pub mod acknowledgment;
pub mod channel;
pub mod config;
pub mod connection;
pub mod constants;
pub mod enums;
pub mod cursor;
pub mod frames;
pub mod pool;
pub mod sequence_buffer;
