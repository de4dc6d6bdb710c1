//! Packet headers and frames: the wire format of every datagram.
//!
//! A datagram is one header followed by a run of frames. Multi-byte integers
//! are big-endian; unknown frame tags are a decode error.

use vstd::prelude::*;

use crate::cursor::{
    spec_be_bytes, spec_be_from, spec_written, lemma_be_bytes_len, lemma_be_round_trip,
    lemma_written_concat, pow256, Bytes, BytesMut, WireError,
};

verus! {

/// Whether a packet carries handshake traffic or channel data.
#[derive(Copy, Clone, Debug, PartialEq, Eq, Structural)]
pub enum PacketType {
    Handshake,
    Data,
}

/// A packet header.
#[derive(Copy, Clone, Debug, PartialEq, Eq, Structural)]
pub enum Header {
    /// Handshake header carrying both endpoint ids.
    Long { packet_number: u64, packet_type: PacketType, src_id: u64, dst_id: u64 },
    /// Data header carrying only the destination id.
    Short { packet_number: u64, packet_type: PacketType, dst_id: u64 },
}

/// A frame inside a packet.
#[derive(Copy, Clone, Debug, PartialEq, Eq, Structural)]
pub enum Frame {
    /// A run of `len` zero bytes (the tag itself counts).
    Padding { len: u16 },
    /// A keep-alive probe.
    Ping,
    /// Cumulative acknowledgment: the newest sequence received and a bitmask
    /// over the sequences just below it.
    Ack { ack_sequence: u64, ack_mask: u64 },
    /// One fragment of a channel message.
    Data {
        channel_id: u64,
        channel_sequence: u64,
        fragment_index: u8,
        fragment_count: u8,
        len: u16,
    },
}

/// A header whose variant and type tag agree, as every decoded header does.
pub open spec fn spec_header_wf(h: Header) -> bool {
    match h {
        Header::Long { packet_type, .. } => packet_type == PacketType::Handshake,
        Header::Short { packet_type, .. } => packet_type == PacketType::Data,
    }
}

/// The serialized bytes of a header.
pub open spec fn spec_header_bytes(h: Header) -> Seq<u8> {
    match h {
        Header::Long { packet_number, packet_type, src_id, dst_id } => spec_be_bytes(
            packet_number as nat,
            8,
        ) + seq![0x01u8] + spec_be_bytes(src_id as nat, 8) + spec_be_bytes(dst_id as nat, 8),
        Header::Short { packet_number, packet_type, dst_id } => spec_be_bytes(
            packet_number as nat,
            8,
        ) + seq![0x10u8] + spec_be_bytes(dst_id as nat, 8),
    }
}

/// Parses a header at `pos`: the header and the bytes consumed, or nothing if
/// the buffer is too short or the type tag unknown.
pub open spec fn spec_parse_header(s: Seq<u8>, pos: int) -> Option<(Header, int)> {
    if pos < 0 || pos + 9 > s.len() {
        None
    } else {
        let packet_number = spec_be_from(s.subrange(pos, pos + 8)) as u64;
        let tag = s[pos + 8];
        if tag == 0x01 {
            if pos + 25 > s.len() {
                None
            } else {
                Some(
                    (
                        Header::Long {
                            packet_number,
                            packet_type: PacketType::Handshake,
                            src_id: spec_be_from(s.subrange(pos + 9, pos + 17)) as u64,
                            dst_id: spec_be_from(s.subrange(pos + 17, pos + 25)) as u64,
                        },
                        25,
                    ),
                )
            }
        } else if tag == 0x10 {
            if pos + 17 > s.len() {
                None
            } else {
                Some(
                    (
                        Header::Short {
                            packet_number,
                            packet_type: PacketType::Data,
                            dst_id: spec_be_from(s.subrange(pos + 9, pos + 17)) as u64,
                        },
                        17,
                    ),
                )
            }
        } else {
            None
        }
    }
}

/// The length of a run of zero bytes starting at `pos`.
pub open spec fn spec_zero_run(s: Seq<u8>, pos: int) -> int
    decreases s.len() - pos,
{
    if pos < 0 || pos >= s.len() || s[pos] != 0 {
        0
    } else {
        1 + spec_zero_run(s, pos + 1)
    }
}

/// The serialized bytes of a frame.
pub open spec fn spec_frame_bytes(f: Frame) -> Seq<u8> {
    match f {
        Frame::Padding { len } => Seq::new(len as nat, |i: int| 0u8),
        Frame::Ping => seq![0x10u8],
        Frame::Ack { ack_sequence, ack_mask } => seq![0x20u8] + spec_be_bytes(
            ack_sequence as nat,
            8,
        ) + spec_be_bytes(ack_mask as nat, 8),
        Frame::Data { channel_id, channel_sequence, fragment_index, fragment_count, len } => seq![
            0x31u8,
        ] + spec_be_bytes(channel_id as nat, 8) + spec_be_bytes(channel_sequence as nat, 8)
            + seq![fragment_index] + seq![fragment_count] + spec_be_bytes(len as nat, 2),
    }
}

/// A frame every field of which lies in its valid wire domain.
pub open spec fn spec_frame_wf(f: Frame) -> bool {
    match f {
        Frame::Padding { len } => len >= 1,
        _ => true,
    }
}

/// Parses one frame at `pos`: the frame and the bytes consumed, or nothing on
/// a truncated buffer, an unknown tag, or an overlong padding run.
pub open spec fn spec_parse_frame(s: Seq<u8>, pos: int) -> Option<(Frame, int)> {
    if pos < 0 || pos >= s.len() {
        None
    } else {
        let tag = s[pos];
        if tag == 0x00 {
            let run = spec_zero_run(s, pos);
            if run > u16::MAX {
                None
            } else {
                Some((Frame::Padding { len: run as u16 }, run))
            }
        } else if tag == 0x10 {
            Some((Frame::Ping, 1))
        } else if tag == 0x20 {
            if pos + 17 > s.len() {
                None
            } else {
                Some(
                    (
                        Frame::Ack {
                            ack_sequence: spec_be_from(s.subrange(pos + 1, pos + 9)) as u64,
                            ack_mask: spec_be_from(s.subrange(pos + 9, pos + 17)) as u64,
                        },
                        17,
                    ),
                )
            }
        } else if tag == 0x31 {
            if pos + 21 > s.len() {
                None
            } else {
                Some(
                    (
                        Frame::Data {
                            channel_id: spec_be_from(s.subrange(pos + 1, pos + 9)) as u64,
                            channel_sequence: spec_be_from(s.subrange(pos + 9, pos + 17)) as u64,
                            fragment_index: s[pos + 17],
                            fragment_count: s[pos + 18],
                            len: spec_be_from(s.subrange(pos + 19, pos + 21)) as u16,
                        },
                        21,
                    ),
                )
            }
        } else {
            None
        }
    }
}


/// Whether frames fill the buffer from `pos` to the end: every frame parses
/// and every data frame's payload is fully present. A padding byte steps
/// forward one byte — the rest of its run reads as padding again — so the
/// walk agrees with skipping whole runs.
pub open spec fn spec_frames_ok(s: Seq<u8>, pos: int) -> bool
    decreases s.len() - pos,
{
    if pos >= s.len() {
        true
    } else {
        match spec_parse_frame(s, pos) {
            None => false,
            Some(fc) => match fc.0 {
                Frame::Padding { .. } => spec_frames_ok(s, pos + 1),
                Frame::Ping => spec_frames_ok(s, pos + 1),
                Frame::Ack { .. } => spec_frames_ok(s, pos + 17),
                Frame::Data { len, .. } => pos + 21 + len <= s.len() && spec_frames_ok(
                    s,
                    pos + 21 + len,
                ),
            },
        }
    }
}

/// The zero-run length is never negative, and positive on a zero byte.
proof fn lemma_zero_run_bounds(s: Seq<u8>, pos: int)
    ensures
        spec_zero_run(s, pos) >= 0,
        0 <= pos < s.len() && s[pos] == 0 ==> spec_zero_run(s, pos) >= 1,
    decreases s.len() - pos,
{
    if 0 <= pos < s.len() && s[pos] == 0 {
        lemma_zero_run_bounds(s, pos + 1);
    }
}

/// Walking a padding run byte by byte or skipping it whole reads the same:
/// the frames after the run decide.
pub proof fn lemma_frames_ok_padding(s: Seq<u8>, pos: int, run: int)
    requires
        0 <= pos < s.len(),
        s[pos] == 0,
        run == spec_zero_run(s, pos),
        run <= u16::MAX,
    ensures
        spec_frames_ok(s, pos) == spec_frames_ok(s, pos + run),
    decreases run,
{
    lemma_zero_run_bounds(s, pos);
    lemma_zero_run_bounds(s, pos + 1);
    assert(run >= 1);
    if run == 1 {
        assert(spec_frames_ok(s, pos) == spec_frames_ok(s, pos + 1));
    } else {
        assert(spec_zero_run(s, pos + 1) == run - 1);
        assert(pos + 1 < s.len() && s[pos + 1] == 0) by {
            if !(pos + 1 < s.len() && s[pos + 1] == 0) {
                assert(spec_zero_run(s, pos + 1) == 0);
            }
        }
        lemma_frames_ok_padding(s, pos + 1, run - 1);
        assert(spec_frames_ok(s, pos) == spec_frames_ok(s, pos + 1));
    }
}

/// A `u64` always fits in eight bytes, a `u16` in two, a `u8` in one.
proof fn lemma_widths()
    ensures
        pow256(8) == 0x1_0000_0000_0000_0000,
        pow256(2) == 0x1_0000,
        pow256(1) == 0x100,
{
    reveal_with_fuel(pow256, 9);
}

/// Decoding the encoding of a well-formed header gives the header back,
/// consuming exactly its serialized bytes.
pub proof fn lemma_header_round_trip(h: Header)
    requires
        spec_header_wf(h),
    ensures
        spec_parse_header(spec_header_bytes(h), 0) == Some(
            (h, spec_header_bytes(h).len() as int),
        ),
{
    lemma_widths();
    match h {
        Header::Long { packet_number, packet_type, src_id, dst_id } => {
            let a = spec_be_bytes(packet_number as nat, 8);
            let b = spec_be_bytes(src_id as nat, 8);
            let c = spec_be_bytes(dst_id as nat, 8);
            lemma_be_bytes_len(packet_number as nat, 8);
            lemma_be_bytes_len(src_id as nat, 8);
            lemma_be_bytes_len(dst_id as nat, 8);
            let s = spec_header_bytes(h);
            assert(s.len() == 25);
            assert(s.subrange(0, 8) =~= a);
            assert(s[8] == 0x01);
            assert(s.subrange(9, 17) =~= b);
            assert(s.subrange(17, 25) =~= c);
            lemma_be_round_trip(packet_number as nat, 8);
            lemma_be_round_trip(src_id as nat, 8);
            lemma_be_round_trip(dst_id as nat, 8);
        },
        Header::Short { packet_number, packet_type, dst_id } => {
            let a = spec_be_bytes(packet_number as nat, 8);
            let b = spec_be_bytes(dst_id as nat, 8);
            lemma_be_bytes_len(packet_number as nat, 8);
            lemma_be_bytes_len(dst_id as nat, 8);
            let s = spec_header_bytes(h);
            assert(s.len() == 17);
            assert(s.subrange(0, 8) =~= a);
            assert(s[8] == 0x10);
            assert(s.subrange(9, 17) =~= b);
            lemma_be_round_trip(packet_number as nat, 8);
            lemma_be_round_trip(dst_id as nat, 8);
        },
    }
}

/// A run of zeros reads back as its own length.
proof fn lemma_zero_run_all_zero(s: Seq<u8>, pos: int)
    requires
        0 <= pos <= s.len(),
        forall|i: int| pos <= i < s.len() ==> s[i] == 0,
    ensures
        spec_zero_run(s, pos) == s.len() - pos,
    decreases s.len() - pos,
{
    if pos < s.len() {
        lemma_zero_run_all_zero(s, pos + 1);
    }
}

/// Decoding the encoding of a well-formed frame gives the frame back,
/// consuming exactly its serialized bytes.
pub proof fn lemma_frame_round_trip(f: Frame)
    requires
        spec_frame_wf(f),
    ensures
        spec_parse_frame(spec_frame_bytes(f), 0) == Some((f, spec_frame_bytes(f).len() as int)),
{
    lemma_widths();
    match f {
        Frame::Padding { len } => {
            let s = spec_frame_bytes(f);
            assert(s.len() == len);
            assert(s[0] == 0);
            lemma_zero_run_all_zero(s, 0);
        },
        Frame::Ping => {
            assert(spec_frame_bytes(f) =~= seq![0x10u8]);
        },
        Frame::Ack { ack_sequence, ack_mask } => {
            let a = spec_be_bytes(ack_sequence as nat, 8);
            let b = spec_be_bytes(ack_mask as nat, 8);
            lemma_be_bytes_len(ack_sequence as nat, 8);
            lemma_be_bytes_len(ack_mask as nat, 8);
            let s = spec_frame_bytes(f);
            assert(s.len() == 17);
            assert(s[0] == 0x20);
            assert(s.subrange(1, 9) =~= a);
            assert(s.subrange(9, 17) =~= b);
            lemma_be_round_trip(ack_sequence as nat, 8);
            lemma_be_round_trip(ack_mask as nat, 8);
        },
        Frame::Data { channel_id, channel_sequence, fragment_index, fragment_count, len } => {
            let a = spec_be_bytes(channel_id as nat, 8);
            let b = spec_be_bytes(channel_sequence as nat, 8);
            let c = spec_be_bytes(len as nat, 2);
            lemma_be_bytes_len(channel_id as nat, 8);
            lemma_be_bytes_len(channel_sequence as nat, 8);
            lemma_be_bytes_len(len as nat, 2);
            let s = spec_frame_bytes(f);
            assert(s.len() == 21);
            assert(s[0] == 0x31);
            assert(s.subrange(1, 9) =~= a);
            assert(s.subrange(9, 17) =~= b);
            assert(s[17] == fragment_index);
            assert(s[18] == fragment_count);
            assert(s.subrange(19, 21) =~= c);
            lemma_be_round_trip(channel_id as nat, 8);
            lemma_be_round_trip(channel_sequence as nat, 8);
            lemma_be_round_trip(len as nat, 2);
        },
    }
}

impl Header {
    /// Serialized size of a short header.
    pub fn short_header_bytes() -> (r: usize)
        ensures
            r == 17,
    {
        17
    }

    /// Decodes a header from the cursor, consuming its bytes on success.
    pub fn read(buf: &mut Bytes) -> (r: Result<Header, WireError>)
        ensures
            match r {
                Ok(h) => {
                    &&& spec_parse_header(old(buf).inner@, old(buf).pos as int) == Some(
                        (h, final(buf).pos - old(buf).pos),
                    )
                    &&& spec_header_wf(h)
                    &&& final(buf).inner@ == old(buf).inner@
                    &&& final(buf).pos <= final(buf).inner@.len()
                },
                Err(e) => {
                    &&& spec_parse_header(old(buf).inner@, old(buf).pos as int) is None
                    &&& final(buf).inner@ == old(buf).inner@
                },
            },
    {
        let ghost pos0 = buf.pos as int;
        let packet_number = match buf.read_u64() {
            Ok(v) => v,
            Err(e) => {
                return Err(e);
            },
        };
        let tag = match buf.read_u8() {
            Ok(v) => v,
            Err(e) => {
                return Err(e);
            },
        };
        if tag == 0x01 {
            let src_id = match buf.read_u64() {
                Ok(v) => v,
                Err(e) => {
                    return Err(e);
                },
            };
            let dst_id = match buf.read_u64() {
                Ok(v) => v,
                Err(e) => {
                    return Err(e);
                },
            };
            Ok(Header::Long { packet_number, packet_type: PacketType::Handshake, src_id, dst_id })
        } else if tag == 0x10 {
            let dst_id = match buf.read_u64() {
                Ok(v) => v,
                Err(e) => {
                    return Err(e);
                },
            };
            Ok(Header::Short { packet_number, packet_type: PacketType::Data, dst_id })
        } else {
            Err(WireError::InvalidData)
        }
    }

    /// Encodes the header at the cursor position.
    pub fn write(&self, buf: &mut BytesMut) -> (r: Result<(), WireError>)
        ensures
            match r {
                Ok(()) => {
                    &&& spec_written(
                        old(buf).inner@,
                        old(buf).pos as int,
                        spec_header_bytes(*self),
                        final(buf).inner@,
                    )
                    &&& final(buf).pos == old(buf).pos + spec_header_bytes(*self).len()
                },
                Err(e) => {
                    &&& e == WireError::UnexpectedEnd
                    &&& old(buf).pos + spec_header_bytes(*self).len() > old(buf).inner@.len()
                    &&& final(buf).inner@.len() == old(buf).inner@.len()
                },
            },
    {
        let ghost s0 = buf.inner@;
        let ghost pos0 = buf.pos as int;
        proof {
            match *self {
                Header::Long { packet_number, packet_type, src_id, dst_id } => {
                    lemma_be_bytes_len(packet_number as nat, 8);
                    lemma_be_bytes_len(src_id as nat, 8);
                    lemma_be_bytes_len(dst_id as nat, 8);
                },
                Header::Short { packet_number, packet_type, dst_id } => {
                    lemma_be_bytes_len(packet_number as nat, 8);
                    lemma_be_bytes_len(dst_id as nat, 8);
                },
            }
        }
        match *self {
            Header::Long { packet_number, packet_type, src_id, dst_id } => {
                let ghost a = spec_be_bytes(packet_number as nat, 8);
                let ghost b = seq![0x01u8];
                let ghost c = spec_be_bytes(src_id as nat, 8);
                let ghost d = spec_be_bytes(dst_id as nat, 8);
                proof {
                    lemma_be_bytes_len(packet_number as nat, 8);
                    lemma_be_bytes_len(src_id as nat, 8);
                    lemma_be_bytes_len(dst_id as nat, 8);
                }
                if let Err(e) = buf.write_u64(packet_number) {
                    return Err(e);
                }
                let ghost s1 = buf.inner@;
                if let Err(e) = buf.write_u8(0x01) {
                    return Err(e);
                }
                let ghost s2 = buf.inner@;
                if let Err(e) = buf.write_u64(src_id) {
                    return Err(e);
                }
                let ghost s3 = buf.inner@;
                if let Err(e) = buf.write_u64(dst_id) {
                    return Err(e);
                }
                proof {
                    lemma_written_concat(s0, pos0, a, s1, b, s2);
                    lemma_written_concat(s0, pos0, a + b, s2, c, s3);
                    lemma_written_concat(s0, pos0, a + b + c, s3, d, buf.inner@);
                }
                Ok(())
            },
            Header::Short { packet_number, packet_type, dst_id } => {
                let ghost a = spec_be_bytes(packet_number as nat, 8);
                let ghost b = seq![0x10u8];
                let ghost c = spec_be_bytes(dst_id as nat, 8);
                proof {
                    lemma_be_bytes_len(packet_number as nat, 8);
                    lemma_be_bytes_len(dst_id as nat, 8);
                }
                if let Err(e) = buf.write_u64(packet_number) {
                    return Err(e);
                }
                let ghost s1 = buf.inner@;
                if let Err(e) = buf.write_u8(0x10) {
                    return Err(e);
                }
                let ghost s2 = buf.inner@;
                if let Err(e) = buf.write_u64(dst_id) {
                    return Err(e);
                }
                proof {
                    lemma_written_concat(s0, pos0, a, s1, b, s2);
                    lemma_written_concat(s0, pos0, a + b, s2, c, buf.inner@);
                }
                Ok(())
            },
        }
    }
}

impl Frame {
    /// Decodes one frame from the cursor, consuming its bytes on success.
    pub fn read(buf: &mut Bytes) -> (r: Result<Frame, WireError>)
        ensures
            match r {
                Ok(f) => {
                    &&& spec_parse_frame(old(buf).inner@, old(buf).pos as int) == Some(
                        (f, final(buf).pos - old(buf).pos),
                    )
                    &&& spec_frame_wf(f)
                    &&& final(buf).inner@ == old(buf).inner@
                    &&& final(buf).pos <= final(buf).inner@.len()
                    &&& final(buf).pos > old(buf).pos
                },
                Err(e) => {
                    &&& spec_parse_frame(old(buf).inner@, old(buf).pos as int) is None
                    &&& final(buf).inner@ == old(buf).inner@
                },
            },
    {
        let buf_len = buf.len();
        let ghost pos0 = buf.pos as int;
        let tag = match buf.read_u8() {
            Ok(v) => v,
            Err(e) => {
                return Err(e);
            },
        };
        if tag == 0x00 {
            let mut run: usize = 1;
            loop
                invariant
                    0 <= pos0,
                    1 <= run,
                    buf.pos == pos0 + run,
                    buf.pos <= buf.inner@.len(),
                    buf.inner@.len() == buf_len,
                    buf_len <= usize::MAX,
                    buf.inner@ == old(buf).inner@,
                    spec_zero_run(buf.inner@, pos0) == run + spec_zero_run(
                        buf.inner@,
                        buf.pos as int,
                    ),
                ensures
                    spec_zero_run(buf.inner@, buf.pos as int) == 0,
                decreases buf.inner@.len() - buf.pos,
            {
                let more = match buf.peek_u8() {
                    Ok(b) => b == 0x00,
                    Err(_) => false,
                };
                if !more {
                    proof {
                        if buf.pos < buf.inner@.len() {
                            assert(buf.inner@[buf.pos as int] != 0);
                        }
                    }
                    break;
                }
                let consumed = buf.read_u8();
                assert(consumed is Ok);
                run = run + 1;
            }
            assert(spec_zero_run(buf.inner@, pos0) == run);
            if run > 0xFFFF {
                return Err(WireError::InvalidData);
            }
            Ok(Frame::Padding { len: run as u16 })
        } else if tag == 0x10 {
            Ok(Frame::Ping)
        } else if tag == 0x20 {
            let ack_sequence = match buf.read_u64() {
                Ok(v) => v,
                Err(e) => {
                    return Err(e);
                },
            };
            let ack_mask = match buf.read_u64() {
                Ok(v) => v,
                Err(e) => {
                    return Err(e);
                },
            };
            Ok(Frame::Ack { ack_sequence, ack_mask })
        } else if tag == 0x31 {
            let channel_id = match buf.read_u64() {
                Ok(v) => v,
                Err(e) => {
                    return Err(e);
                },
            };
            let channel_sequence = match buf.read_u64() {
                Ok(v) => v,
                Err(e) => {
                    return Err(e);
                },
            };
            let fragment_index = match buf.read_u8() {
                Ok(v) => v,
                Err(e) => {
                    return Err(e);
                },
            };
            let fragment_count = match buf.read_u8() {
                Ok(v) => v,
                Err(e) => {
                    return Err(e);
                },
            };
            let len = match buf.read_u16() {
                Ok(v) => v,
                Err(e) => {
                    return Err(e);
                },
            };
            Ok(Frame::Data { channel_id, channel_sequence, fragment_index, fragment_count, len })
        } else {
            Err(WireError::InvalidData)
        }
    }

    /// Encodes the frame at the cursor position.
    #[verifier::rlimit(60)]
    pub fn write(&self, buf: &mut BytesMut) -> (r: Result<(), WireError>)
        ensures
            match r {
                Ok(()) => {
                    &&& spec_written(
                        old(buf).inner@,
                        old(buf).pos as int,
                        spec_frame_bytes(*self),
                        final(buf).inner@,
                    )
                    &&& final(buf).pos == old(buf).pos + spec_frame_bytes(*self).len()
                },
                Err(e) => {
                    &&& e == WireError::UnexpectedEnd
                    &&& old(buf).pos + spec_frame_bytes(*self).len() > old(buf).inner@.len()
                    &&& final(buf).inner@.len() == old(buf).inner@.len()
                },
            },
    {
        let ghost s0 = buf.inner@;
        let ghost pos0 = buf.pos as int;
        proof {
            match *self {
                Frame::Padding { len } => {},
                Frame::Ping => {},
                Frame::Ack { ack_sequence, ack_mask } => {
                    lemma_be_bytes_len(ack_sequence as nat, 8);
                    lemma_be_bytes_len(ack_mask as nat, 8);
                },
                Frame::Data { channel_id, channel_sequence, fragment_index, fragment_count, len } => {
                    lemma_be_bytes_len(channel_id as nat, 8);
                    lemma_be_bytes_len(channel_sequence as nat, 8);
                    lemma_be_bytes_len(len as nat, 2);
                },
            }
        }
        match *self {
            Frame::Padding { len } => {
                if let Err(e) = buf.write_bytes(0x00, len as usize) {
                    return Err(e);
                }
                Ok(())
            },
            Frame::Ping => {
                if let Err(e) = buf.write_u8(0x10) {
                    return Err(e);
                }
                Ok(())
            },
            Frame::Ack { ack_sequence, ack_mask } => {
                let ghost a = seq![0x20u8];
                let ghost b = spec_be_bytes(ack_sequence as nat, 8);
                let ghost c = spec_be_bytes(ack_mask as nat, 8);
                proof {
                    lemma_be_bytes_len(ack_sequence as nat, 8);
                    lemma_be_bytes_len(ack_mask as nat, 8);
                }
                if let Err(e) = buf.write_u8(0x20) {
                    return Err(e);
                }
                let ghost s1 = buf.inner@;
                if let Err(e) = buf.write_u64(ack_sequence) {
                    return Err(e);
                }
                let ghost s2 = buf.inner@;
                if let Err(e) = buf.write_u64(ack_mask) {
                    return Err(e);
                }
                proof {
                    lemma_written_concat(s0, pos0, a, s1, b, s2);
                    lemma_written_concat(s0, pos0, a + b, s2, c, buf.inner@);
                }
                Ok(())
            },
            Frame::Data { channel_id, channel_sequence, fragment_index, fragment_count, len } => {
                let ghost a = seq![0x31u8];
                let ghost b = spec_be_bytes(channel_id as nat, 8);
                let ghost c = spec_be_bytes(channel_sequence as nat, 8);
                let ghost d = seq![fragment_index];
                let ghost e2 = seq![fragment_count];
                let ghost f2 = spec_be_bytes(len as nat, 2);
                proof {
                    lemma_be_bytes_len(channel_id as nat, 8);
                    lemma_be_bytes_len(channel_sequence as nat, 8);
                    lemma_be_bytes_len(len as nat, 2);
                }
                if let Err(e) = buf.write_u8(0x31) {
                    return Err(e);
                }
                let ghost s1 = buf.inner@;
                if let Err(e) = buf.write_u64(channel_id) {
                    return Err(e);
                }
                let ghost s2 = buf.inner@;
                if let Err(e) = buf.write_u64(channel_sequence) {
                    return Err(e);
                }
                let ghost s3 = buf.inner@;
                if let Err(e) = buf.write_u8(fragment_index) {
                    return Err(e);
                }
                let ghost s4 = buf.inner@;
                if let Err(e) = buf.write_u8(fragment_count) {
                    return Err(e);
                }
                let ghost s5 = buf.inner@;
                if let Err(e) = buf.write_u16(len) {
                    return Err(e);
                }
                proof {
                    lemma_written_concat(s0, pos0, a, s1, b, s2);
                    lemma_written_concat(s0, pos0, a + b, s2, c, s3);
                    lemma_written_concat(s0, pos0, a + b + c, s3, d, s4);
                    lemma_written_concat(s0, pos0, a + b + c + d, s4, e2, s5);
                    lemma_written_concat(s0, pos0, a + b + c + d + e2, s5, f2, buf.inner@);
                }
                Ok(())
            },
        }
    }
}

} // verus!
