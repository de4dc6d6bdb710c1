use parrot::cursor::{Bytes, BytesMut, WireError};
use parrot::frames::{Frame, Header, PacketType};

fn encode_header(h: &Header) -> Vec<u8> {
    let mut cur = BytesMut::zeroed(64);
    h.write(&mut cur).unwrap();
    let end = cur.position();
    let mut v = cur.into_inner();
    v.truncate(end);
    v
}

fn encode_frame(f: &Frame) -> Vec<u8> {
    let mut cur = BytesMut::zeroed(70000);
    f.write(&mut cur).unwrap();
    let end = cur.position();
    let mut v = cur.into_inner();
    v.truncate(end);
    v
}

#[test]
fn header_long_round_trip() {
    let h = Header::Long {
        packet_number: 0xDEAD_BEEF_1234_5678,
        packet_type: PacketType::Handshake,
        src_id: 7,
        dst_id: u64::MAX,
    };
    let bytes = encode_header(&h);
    assert_eq!(bytes.len(), 25);
    let mut cur = Bytes::new(bytes);
    let back = Header::read(&mut cur).unwrap();
    assert_eq!(back, h);
    assert_eq!(cur.position(), 25);
}

#[test]
fn header_short_round_trip() {
    let h = Header::Short { packet_number: 0, packet_type: PacketType::Data, dst_id: 42 };
    let bytes = encode_header(&h);
    assert_eq!(bytes.len(), 17);
    let mut cur = Bytes::new(bytes);
    let back = Header::read(&mut cur).unwrap();
    assert_eq!(back, h);
}

#[test]
fn header_unknown_tag_is_error() {
    let mut bytes = vec![0u8; 17];
    bytes[8] = 0x7F;
    let mut cur = Bytes::new(bytes);
    assert_eq!(Header::read(&mut cur).unwrap_err(), WireError::InvalidData);
}

#[test]
fn frame_ping_round_trip() {
    let bytes = encode_frame(&Frame::Ping);
    assert_eq!(bytes, vec![0x10]);
    let mut cur = Bytes::new(bytes);
    assert_eq!(Frame::read(&mut cur).unwrap(), Frame::Ping);
}

#[test]
fn frame_ack_round_trip() {
    let f = Frame::Ack { ack_sequence: 15, ack_mask: 0b100 };
    let bytes = encode_frame(&f);
    assert_eq!(bytes.len(), 17);
    let mut cur = Bytes::new(bytes);
    assert_eq!(Frame::read(&mut cur).unwrap(), f);
}

#[test]
fn frame_data_round_trip_boundary_values() {
    let f = Frame::Data {
        channel_id: u64::MAX,
        channel_sequence: 0,
        fragment_index: 254,
        fragment_count: 255,
        len: 0,
    };
    let bytes = encode_frame(&f);
    assert_eq!(bytes.len(), 21);
    let mut cur = Bytes::new(bytes);
    assert_eq!(Frame::read(&mut cur).unwrap(), f);
}

#[test]
fn frame_padding_round_trip() {
    let f = Frame::Padding { len: 5 };
    let bytes = encode_frame(&f);
    assert_eq!(bytes, vec![0u8; 5]);
    let mut cur = Bytes::new(bytes);
    assert_eq!(Frame::read(&mut cur).unwrap(), f);
    assert_eq!(cur.position(), 5);
}

#[test]
fn frame_padding_single_byte() {
    let f = Frame::Padding { len: 1 };
    let bytes = encode_frame(&f);
    assert_eq!(bytes, vec![0u8]);
    let mut cur = Bytes::new(bytes);
    assert_eq!(Frame::read(&mut cur).unwrap(), f);
}

#[test]
fn frame_padding_run_stops_at_nonzero() {
    let bytes = vec![0, 0, 0, 0x10];
    let mut cur = Bytes::new(bytes);
    assert_eq!(Frame::read(&mut cur).unwrap(), Frame::Padding { len: 3 });
    assert_eq!(Frame::read(&mut cur).unwrap(), Frame::Ping);
}

#[test]
fn frame_unknown_tag_is_error() {
    let mut cur = Bytes::new(vec![0x99]);
    assert_eq!(Frame::read(&mut cur).unwrap_err(), WireError::InvalidData);
}

#[test]
fn frame_truncated_is_error() {
    let mut cur = Bytes::new(vec![0x20, 1, 2, 3]);
    assert_eq!(Frame::read(&mut cur).unwrap_err(), WireError::UnexpectedEnd);
}

#[test]
fn integers_big_endian_layout() {
    let mut cur = BytesMut::zeroed(10);
    cur.write_u16(0x1234).unwrap();
    cur.write_u64(0x0102_0304_0506_0708).unwrap();
    let v = cur.into_inner();
    assert_eq!(v, vec![0x12, 0x34, 1, 2, 3, 4, 5, 6, 7, 8]);
    let mut rd = Bytes::new(v);
    assert_eq!(rd.read_u16().unwrap(), 0x1234);
    assert_eq!(rd.read_u64().unwrap(), 0x0102_0304_0506_0708);
}

#[test]
fn varint_round_trip_small() {
    let mut cur = BytesMut::zeroed(16);
    cur.write_varint(200).unwrap();
    assert_eq!(cur.position(), 2);
    let v = cur.into_inner();
    assert_eq!(v[0], 1);
    assert_eq!(v[1], 200);
    let mut rd = Bytes::new(v);
    assert_eq!(rd.read_varint().unwrap(), 200);
    assert_eq!(rd.position(), 2);
}

#[test]
fn varint_round_trip_large() {
    let mut cur = BytesMut::zeroed(16);
    cur.write_varint(u64::MAX).unwrap();
    assert_eq!(cur.position(), 9);
    let v = cur.into_inner();
    assert_eq!(v[0], 0x80);
    let mut rd = Bytes::new(v);
    assert_eq!(rd.read_varint().unwrap(), u64::MAX);
}

#[test]
fn varint_zero_descriptor_is_error() {
    let rd = Bytes::new(vec![0u8, 1, 2]);
    assert_eq!(rd.peek_varint().unwrap_err(), WireError::InvalidData);
}

#[test]
fn varint_peek_does_not_advance() {
    let mut cur = BytesMut::zeroed(8);
    cur.write_varint(77).unwrap();
    let mut rd = Bytes::new(cur.into_inner());
    assert_eq!(rd.peek_varint().unwrap(), 77);
    assert_eq!(rd.position(), 0);
    assert_eq!(rd.read_varint().unwrap(), 77);
}

#[test]
fn bytes_split_and_to_vec() {
    let b = Bytes::new(vec![1, 2, 3, 4, 5]);
    let (left, right) = b.split_at(2).unwrap();
    assert_eq!(left.to_vec(), vec![1, 2]);
    assert_eq!(right.to_vec(), vec![3, 4, 5]);
    let (ml, mr) = BytesMut::new(vec![9, 8, 7]).split_at_mut(1).unwrap();
    assert_eq!(ml.to_vec(), vec![9]);
    assert_eq!(mr.to_vec(), vec![8, 7]);
}

#[test]
fn write_bytes_and_copy() {
    let mut cur = BytesMut::zeroed(6);
    cur.write_bytes(0xAB, 2).unwrap();
    cur.copy_from_slice(&[1, 2, 3]).unwrap();
    assert_eq!(cur.remaining(), 1);
    assert_eq!(cur.into_inner(), vec![0xAB, 0xAB, 1, 2, 3, 0]);
}

#[test]
fn varint_truncated_body_is_invalid() {
    // descriptor announces four bytes but only two follow
    let rd = Bytes::new(vec![0x08, 1, 2]);
    assert_eq!(rd.peek_varint().unwrap_err(), WireError::InvalidData);
    let mut rd2 = Bytes::new(vec![0x08, 1, 2]);
    assert_eq!(rd2.read_varint().unwrap_err(), WireError::InvalidData);
    assert_eq!(rd2.position(), 0);
    // no descriptor byte at all
    let empty = Bytes::new(vec![]);
    assert_eq!(empty.peek_varint().unwrap_err(), WireError::UnexpectedEnd);
}
