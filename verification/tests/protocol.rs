use parrot::acknowledgment::Acknowledgement as PacketAcks;
use parrot::channel::{
    AckOutcome, Channel, ErrorKind, NoteOutcome, Receive, Send, Acknowledgement,
};
use parrot::config::Config;
use parrot::connection::{Connection, Connections, PeerAddr, UpdateAction};
use parrot::constants::{MAX_FRAGMENT_BYTES, MAX_PAYLOAD_BYTES};
use parrot::cursor::Bytes;
use parrot::enums::{ConnectionState, DisconnectReason, Request, Role};
use parrot::frames::Frame;
use parrot::pool::BufferPool;
use parrot::sequence_buffer::SequenceBuffer;

fn addr() -> PeerAddr {
    PeerAddr { ip_hi: 0, ip_lo: 1, port: 4000 }
}

fn stage_fragment(
    ch: &mut Channel,
    pool: &mut BufferPool,
    sequence: u64,
    index: u8,
    count: u8,
    payload: &[u8],
    now: u64,
) -> Result<bool, ErrorKind> {
    let handle = pool.acquire().unwrap();
    let mut content = payload.to_vec();
    content.resize(pool.buffer_size, 0);
    pool.put(handle, content).unwrap();
    let r = ch.store_incoming_data(
        pool,
        sequence,
        index,
        count,
        handle,
        0,
        payload.len(),
        now,
    );
    if r.is_err() {
        let _ = pool.release(handle);
    }
    r
}

#[test]
fn ack_mask_slides_by_gap() {
    let mut acks = Acknowledgement::new();
    assert!(matches!(acks.note_recv(5, 100), NoteOutcome::Accepted));
    assert_eq!(acks.latest_recv(), Some(5));
    assert_eq!(acks.latest_recv_mask(), 1);
    // gap 2: the mask shifts left by the gap and the newest bit is set
    assert!(matches!(acks.note_recv(7, 100), NoteOutcome::Accepted));
    assert_eq!(acks.latest_recv_mask(), 0b101);
    // duplicates and stale sequences change nothing
    assert!(matches!(acks.note_recv(7, 100), NoteOutcome::Stale));
    assert!(matches!(acks.note_recv(3, 100), NoteOutcome::Stale));
    assert_eq!(acks.latest_recv_mask(), 0b101);
    // a gap of 64 or more resets the mask to just the newest bit
    assert!(matches!(acks.note_recv(100, 200), NoteOutcome::Accepted));
    assert_eq!(acks.latest_recv_mask(), 1);
}

#[test]
fn ack_gap_beyond_window_is_fault() {
    let mut acks = Acknowledgement::new();
    assert!(matches!(acks.note_recv(5, 10), NoteOutcome::Accepted));
    assert!(matches!(acks.note_recv(100, 10), NoteOutcome::WindowExceeded));
    assert_eq!(acks.latest_recv(), Some(5));
}

#[test]
fn loss_inference_classifies_window() {
    let mut pool = BufferPool::new(MAX_PAYLOAD_BYTES, 32);
    let mut ch = Channel::new(0, Send::Reliable, Receive::Unordered);
    ch.acks.next_send = 10;
    for _ in 10..20u64 {
        ch.store_outgoing_data(&mut pool, &[1, 2, 3], 0).unwrap();
    }
    assert_eq!(ch.acks.sequence(), 20);
    // ack (acked_seq = 15, mask bit 2 set): 13 delivered, 10 lost
    let outcome = ch.acknowledge(&mut pool, 1, 15, 0b100);
    let list = match outcome {
        AckOutcome::Processed(list) => list,
        _ => panic!("acknowledgment was not processed"),
    };
    for (seq, delivered) in &list {
        assert!((10..=15).contains(seq));
        assert_eq!(*delivered, *seq == 13);
    }
    assert_eq!(list.len(), 6);
    for seq in 10..=15u64 {
        assert!(ch.send_buffer.get(seq).is_none());
    }
    for seq in 16..20u64 {
        assert!(ch.send_buffer.get(seq).is_some());
    }
    assert_eq!(ch.acks.latest_send_acked(), Some(15));
    assert_eq!(ch.acks.oldest_send_unacked(), Some(16));
}

#[test]
fn fragmentation_round_trip_any_order() {
    let mut send_pool = BufferPool::new(MAX_PAYLOAD_BYTES, 16);
    let mut sender = Channel::new(3, Send::Reliable, Receive::Unordered);
    let message: Vec<u8> = (0..(MAX_FRAGMENT_BYTES * 7 / 2))
        .map(|i| (i % 251) as u8)
        .collect();
    sender.store_outgoing_data(&mut send_pool, &message, 0).unwrap();
    let regions = sender.collect_outgoing(&send_pool, false, 16);
    assert_eq!(regions.len(), 4);

    for order in [[0, 1, 2, 3], [3, 1, 0, 2], [2, 0, 3, 1]] {
        let mut recv_pool = BufferPool::new(MAX_PAYLOAD_BYTES, 16);
        let mut receiver = Channel::new(3, Send::Reliable, Receive::Unordered);
        for k in order {
            let mut cur = Bytes::new(regions[k].0.clone());
            let frame = Frame::read(&mut cur).unwrap();
            let (index, count, len) = match frame {
                Frame::Data { fragment_index, fragment_count, len, .. } => {
                    (fragment_index, fragment_count, len as usize)
                },
                _ => panic!("staged region did not hold a data frame"),
            };
            assert_eq!(count, 4);
            let payload_start = cur.position();
            let payload = &regions[k].0[payload_start..payload_start + len];
            stage_fragment(&mut receiver, &mut recv_pool, 0, index, count, payload, 0)
                .unwrap();
        }
        let got = receiver.recv(&mut recv_pool).unwrap();
        assert_eq!(got, message);
        assert_eq!(recv_pool.capacity_remaining(), 16);
    }
}

#[test]
fn ordered_delivery_holds_messages_back() {
    let mut pool = BufferPool::new(MAX_PAYLOAD_BYTES, 16);
    let mut ch = Channel::new(0, Send::Reliable, Receive::Ordered);
    // message 2 completes first and is held
    stage_fragment(&mut ch, &mut pool, 2, 0, 1, &[2], 0).unwrap();
    assert!(ch.recv(&mut pool).is_none());
    // message 0 completes: only 0 is deliverable
    stage_fragment(&mut ch, &mut pool, 0, 0, 1, &[0], 0).unwrap();
    // message 1 completes: 1 and the held 2 follow in order
    stage_fragment(&mut ch, &mut pool, 1, 0, 1, &[1], 0).unwrap();
    assert_eq!(ch.recv(&mut pool).unwrap(), vec![0]);
    assert_eq!(ch.recv(&mut pool).unwrap(), vec![1]);
    assert_eq!(ch.recv(&mut pool).unwrap(), vec![2]);
    assert!(ch.recv(&mut pool).is_none());
    assert_eq!(ch.acks.next_recv_ordered(), Some(3));
}

#[test]
fn sequenced_delivery_supersedes_older() {
    let mut pool = BufferPool::new(MAX_PAYLOAD_BYTES, 16);
    let mut ch = Channel::new(0, Send::Reliable, Receive::Sequenced);
    stage_fragment(&mut ch, &mut pool, 5, 0, 1, &[5], 0).unwrap();
    assert_eq!(ch.recv(&mut pool).unwrap(), vec![5]);
    // a fragment below the newest completed sequence is rejected outright,
    // so an older message can never complete after a newer one
    let err = stage_fragment(&mut ch, &mut pool, 4, 0, 1, &[4], 0).unwrap_err();
    assert_eq!(err, ErrorKind::MessageOlderThanThreshold);
    stage_fragment(&mut ch, &mut pool, 6, 0, 1, &[6], 0).unwrap();
    assert_eq!(ch.recv(&mut pool).unwrap(), vec![6]);
}

#[test]
fn stale_rejection_below_window() {
    let mut pool = BufferPool::new(MAX_PAYLOAD_BYTES, 16);
    let mut ch = Channel::new(0, Send::Reliable, Receive::Unordered);
    ch.recv_buffer = SequenceBuffer::with_capacity(32);
    ch.acks.latest_recv = Some(100);
    // 100 - 67 = 33 > 32: below the tracking window
    let err = stage_fragment(&mut ch, &mut pool, 67, 0, 1, &[0], 0).unwrap_err();
    assert_eq!(err, ErrorKind::MessageOlderThanThreshold);
    // 100 - 68 = 32: exactly at the edge, still acceptable
    stage_fragment(&mut ch, &mut pool, 68, 0, 1, &[0], 0).unwrap();
}

#[test]
fn fragment_shape_errors() {
    let mut pool = BufferPool::new(MAX_PAYLOAD_BYTES, 16);
    let mut ch = Channel::new(0, Send::Reliable, Receive::Unordered);
    assert_eq!(
        stage_fragment(&mut ch, &mut pool, 0, 0, 0, &[0], 0).unwrap_err(),
        ErrorKind::FragmentCountInvalid
    );
    assert_eq!(
        stage_fragment(&mut ch, &mut pool, 0, 3, 3, &[0], 0).unwrap_err(),
        ErrorKind::FragmentIndexInvalid
    );
    stage_fragment(&mut ch, &mut pool, 0, 0, 2, &[0], 0).unwrap();
    assert_eq!(
        stage_fragment(&mut ch, &mut pool, 0, 0, 2, &[0], 0).unwrap_err(),
        ErrorKind::FragmentIndexAlreadyReceived
    );
    assert_eq!(
        stage_fragment(&mut ch, &mut pool, 0, 1, 3, &[0], 0).unwrap_err(),
        ErrorKind::FragmentCountInvalid
    );
}

#[test]
fn outgoing_message_errors() {
    let mut pool = BufferPool::new(MAX_PAYLOAD_BYTES, 2);
    let mut ch = Channel::new(0, Send::Reliable, Receive::Unordered);
    assert_eq!(
        ch.store_outgoing_data(&mut pool, &[], 0).unwrap_err(),
        ErrorKind::SendMessageZeroLength
    );
    let too_big = vec![0u8; 255 * MAX_FRAGMENT_BYTES + 1];
    assert_eq!(
        ch.store_outgoing_data(&mut pool, &too_big, 0).unwrap_err(),
        ErrorKind::FragmentCountExceedsMax
    );
    let three_fragments = vec![0u8; MAX_FRAGMENT_BYTES * 2 + 1];
    assert_eq!(
        ch.store_outgoing_data(&mut pool, &three_fragments, 0).unwrap_err(),
        ErrorKind::NotEnoughBuffersAvailable
    );
    // nothing was acquired by the failed attempts
    assert_eq!(pool.capacity_remaining(), 2);
}

#[test]
fn idle_timeout_disconnects() {
    let t0: u64 = 1000;
    let mut conn = Connection::new(1, 2, Role::Client, addr(), t0, u64::MAX, 1232);
    conn.state = ConnectionState::Connected;
    conn.time_latest_recv = Some(t0);
    let config = Config::default();
    assert_eq!(config.idle_timeout, 5000);
    // one millisecond before the deadline nothing happens
    let action = conn.update(t0 + 4999, &config);
    assert_eq!(action, UpdateAction::Idle);
    assert_eq!(conn.state(), ConnectionState::Connected);
    // past the deadline the connection starts disconnecting
    let action = conn.update(t0 + 6000, &config);
    assert_eq!(action, UpdateAction::Idle);
    assert_eq!(
        conn.state(),
        ConnectionState::Disconnecting(DisconnectReason::ConnectionTimeout)
    );
}

#[test]
fn lifecycle_walk() {
    let config = Config::default();
    let mut conn = Connection::new(1, 2, Role::Client, addr(), 0, u64::MAX, 1232);
    conn.state = ConnectionState::Connecting(0, 0);
    // resend once the request timeout passed
    assert_eq!(conn.update(1000, &config), UpdateAction::SendRequest);
    assert_eq!(conn.state(), ConnectionState::Connecting(1, 1000));
    // exhausting the attempts gives up
    conn.state = ConnectionState::Connecting(10, 1000);
    assert_eq!(conn.update(5000, &config), UpdateAction::Idle);
    assert_eq!(
        conn.state(),
        ConnectionState::Disconnecting(DisconnectReason::ConnectionAttemptsExhausted)
    );
    // disconnecting emits the notification and lingers
    assert_eq!(
        conn.update(6000, &config),
        UpdateAction::SendDisconnect(DisconnectReason::ConnectionAttemptsExhausted)
    );
    assert_eq!(conn.state(), ConnectionState::Disconnected(7000));
    assert_eq!(conn.update(6500, &config), UpdateAction::Idle);
    assert_eq!(conn.update(7000, &config), UpdateAction::Remove);
}

#[test]
fn token_expiry_forces_disconnect() {
    let config = Config::default();
    let mut conn = Connection::new(1, 2, Role::Server, addr(), 0, 500, 1232);
    conn.state = ConnectionState::Connected;
    conn.time_latest_recv = Some(400);
    assert_eq!(conn.update(500, &config), UpdateAction::Idle);
    assert_eq!(
        conn.state(),
        ConnectionState::Disconnecting(DisconnectReason::ConnectionTokenExpired)
    );
}

#[test]
fn request_table_is_exhaustive() {
    let mut server = Connection::new(2, 1, Role::Server, addr(), 0, u64::MAX, 1232);
    assert_eq!(server.handle_request(Request::Connect), Ok(Some(Request::Accept)));
    assert_eq!(server.state(), ConnectionState::Connected);
    // a retransmitted request is answered again without a state change
    assert_eq!(server.handle_request(Request::Connect), Ok(Some(Request::Accept)));
    // a server never receives an acceptance
    assert!(server.handle_request(Request::Accept).is_err());

    let mut client = Connection::new(1, 2, Role::Client, addr(), 0, u64::MAX, 1232);
    client.state = ConnectionState::Connecting(1, 0);
    assert_eq!(client.handle_request(Request::Accept), Ok(None));
    assert_eq!(client.state(), ConnectionState::Connected);
    assert_eq!(
        client.handle_request(Request::Disconnect(DisconnectReason::PeerClosed)),
        Ok(None)
    );
    assert_eq!(
        client.state(),
        ConnectionState::Disconnecting(DisconnectReason::PeerClosed)
    );

    let mut denied = Connection::new(1, 2, Role::Client, addr(), 0, u64::MAX, 1232);
    denied.state = ConnectionState::Connecting(1, 0);
    assert_eq!(denied.handle_request(Request::Deny), Ok(None));
    assert_eq!(
        denied.state(),
        ConnectionState::Disconnecting(DisconnectReason::ConnectionDenied)
    );
}

#[test]
fn packet_distance_wraps_and_rejects_half_range() {
    assert_eq!(PacketAcks::packet_distance(5, 3), Ok(2));
    assert_eq!(PacketAcks::packet_distance(3, 5), Ok(-2));
    assert_eq!(PacketAcks::packet_distance(1, 65535), Ok(2));
    assert_eq!(PacketAcks::packet_distance(0, 1), Ok(-1));
    // two numbers exactly half the range apart have no defined order
    assert_eq!(PacketAcks::packet_distance(0x8000, 0), Err(()));
}

#[test]
fn packet_acks_accessors() {
    let acks = PacketAcks::new();
    assert_eq!(acks.packet_number(), 0);
    assert_eq!(acks.ack_packet_number(), None);
    assert_eq!(acks.ack_packet_mask(), 0);
    assert_eq!(acks.sent_packets_in_flight(), 0);
}

#[test]
fn connections_deliver_between_endpoints() {
    let config = Config::default();
    let mut client = Connections::new(config.clone(), 64);
    let mut server = Connections::new(config, 64);

    let mut c = Connection::new(1, 2, Role::Client, addr(), 0, u64::MAX, 1232);
    c.state = ConnectionState::Connected;
    client.add_connection(c);
    let mut s = Connection::new(2, 1, Role::Server, addr(), 0, u64::MAX, 1232);
    s.state = ConnectionState::Connected;
    server.add_connection(s);

    client.send_message(1, 0, b"hello over the wire", 10).unwrap();
    let packets = client.pack_all(10);
    assert!(!packets.is_empty());
    for (_, datagram) in packets {
        server.process_datagram(datagram, 20).unwrap();
    }
    assert_eq!(
        server.recv_message(2, 0).unwrap(),
        b"hello over the wire".to_vec()
    );
    assert!(server.recv_message(2, 0).is_none());
}

#[test]
fn connections_update_and_remove() {
    let config = Config::default();
    let mut table = Connections::new(config, 8);
    let mut c = Connection::new(7, 9, Role::Server, addr(), 0, u64::MAX, 1232);
    c.state = ConnectionState::Disconnected(100);
    table.add_connection(c);
    let actions = table.update_all(200);
    assert_eq!(actions.len(), 1);
    assert_eq!(actions[0], (7, UpdateAction::Remove));
    assert!(table.remove_connection(7));
    assert!(!table.remove_connection(7));
}

#[test]
fn heartbeat_when_idle_but_alive() {
    let mut config = Config::default();
    config.heartbeat_timeout = Some(100);
    let mut conn = Connection::new(1, 2, Role::Client, addr(), 0, u64::MAX, 1232);
    conn.state = ConnectionState::Connected;
    conn.time_latest_recv = Some(900);
    conn.time_latest_send = Some(800);
    assert_eq!(conn.update(950, &config), UpdateAction::SendHeartbeat);
    assert_eq!(conn.state(), ConnectionState::Connected);
    conn.time_latest_send = Some(940);
    assert_eq!(conn.update(1000, &config), UpdateAction::Idle);
}

#[test]
fn rtt_smooths_toward_samples() {
    let config = Config::default();
    let mut client = Connections::new(config.clone(), 64);
    let mut server = Connections::new(config, 64);
    let mut c = Connection::new(1, 2, Role::Client, addr(), 0, u64::MAX, 1232);
    c.state = ConnectionState::Connected;
    client.add_connection(c);
    let mut s = Connection::new(2, 1, Role::Server, addr(), 0, u64::MAX, 1232);
    s.state = ConnectionState::Connected;
    server.add_connection(s);

    client.send_message(1, 0, b"ping payload", 0).unwrap();
    let packets = client.pack_all(0);
    assert_eq!(packets.len(), 1);
    for (_, datagram) in packets {
        server.process_datagram(datagram, 5).unwrap();
    }
    // the server acknowledges the packet it received; the client measures
    // the round trip of its own packet number 0
    let mut ack = parrot::cursor::BytesMut::zeroed(64);
    let header = parrot::frames::Header::Short {
        packet_number: 0,
        packet_type: parrot::frames::PacketType::Data,
        dst_id: 1,
    };
    header.write(&mut ack).unwrap();
    let frame = Frame::Ack { ack_sequence: 0, ack_mask: 1 };
    frame.write(&mut ack).unwrap();
    let end = ack.position();
    let mut datagram = ack.into_inner();
    datagram.truncate(end);
    client.process_datagram(datagram, 40).unwrap();
    // ewma with factor 102/1024 over initial 100 ms and a 40 ms sample:
    // (922 * 100 + 102 * 40) / 1024 = 94 (integer division)
    assert_eq!(client.conn[0].rtt(), 94);
}

#[test]
fn count_mismatch_outranks_index_range() {
    let mut pool = BufferPool::new(MAX_PAYLOAD_BYTES, 16);
    let mut ch = Channel::new(0, Send::Reliable, Receive::Unordered);
    stage_fragment(&mut ch, &mut pool, 0, 0, 2, &[0], 0).unwrap();
    // against the stored two-fragment message, a fragment that is wrong both
    // ways — count 5 and index 7 — reports the count mismatch first
    assert_eq!(
        stage_fragment(&mut ch, &mut pool, 0, 7, 5, &[0], 0).unwrap_err(),
        ErrorKind::FragmentCountInvalid
    );
}

#[test]
fn packer_respects_in_flight_cap() {
    let mut pool = BufferPool::new(MAX_PAYLOAD_BYTES, 16);
    let mut conn = Connection::new(1, 2, Role::Client, addr(), 0, u64::MAX, 1232);
    conn.state = ConnectionState::Connected;
    let ci = conn.get_or_create_channel(0);
    for _ in 0..5 {
        conn.channels[ci]
            .store_outgoing_data(&mut pool, &[9, 9, 9], 0)
            .unwrap();
    }
    // a cap of three in-flight packets lets only three of five fragments out
    let first = conn.pack_outgoing(&pool, 0, 3);
    assert_eq!(first.len(), 3);
    assert_eq!(conn.acks.next_send, 3);
    // nothing was acknowledged, so the window stays full
    let second = conn.pack_outgoing(&pool, 0, 3);
    assert_eq!(second.len(), 0);
}

#[test]
fn control_datagrams_take_shape() {
    let mut conn = Connection::new(1, 2, Role::Client, addr(), 0, u64::MAX, 1232);
    let request = conn.build_control_datagram(UpdateAction::SendRequest).unwrap();
    assert_eq!(request.len(), 25);
    assert_eq!(request[8], 0x01);
    let heartbeat = conn.build_control_datagram(UpdateAction::SendHeartbeat).unwrap();
    assert_eq!(heartbeat.len(), 18);
    assert_eq!(heartbeat[8], 0x10);
    assert_eq!(heartbeat[17], 0x10);
    assert!(conn.build_control_datagram(UpdateAction::Idle).is_none());
    assert_eq!(conn.acks.next_send, 2);
}

#[test]
fn datagram_walk_rejects_bad_frames() {
    let config = Config::default();
    let mut table = Connections::new(config, 8);
    let mut c = Connection::new(2, 1, Role::Server, addr(), 0, u64::MAX, 1232);
    c.state = ConnectionState::Connected;
    table.add_connection(c);

    let header = parrot::frames::Header::Short {
        packet_number: 0,
        packet_type: parrot::frames::PacketType::Data,
        dst_id: 2,
    };
    // an unknown frame tag after a good ping discards the rest
    let mut bad = parrot::cursor::BytesMut::zeroed(19);
    header.write(&mut bad).unwrap();
    Frame::Ping.write(&mut bad).unwrap();
    let mut datagram = bad.into_inner();
    datagram[18] = 0x99;
    assert!(table.process_datagram(datagram, 5).is_err());

    // a data frame whose payload is cut short is rejected
    let mut cut = parrot::cursor::BytesMut::zeroed(17 + 21);
    header.write(&mut cut).unwrap();
    let frame = Frame::Data {
        channel_id: 0,
        channel_sequence: 0,
        fragment_index: 0,
        fragment_count: 1,
        len: 4,
    };
    frame.write(&mut cut).unwrap();
    assert!(table.process_datagram(cut.into_inner(), 5).is_err());

    // an unknown destination discards the datagram
    let mut stray = parrot::cursor::BytesMut::zeroed(17);
    parrot::frames::Header::Short {
        packet_number: 0,
        packet_type: parrot::frames::PacketType::Data,
        dst_id: 99,
    }
    .write(&mut stray)
    .unwrap();
    assert!(table.process_datagram(stray.into_inner(), 5).is_err());

    // a well-formed ping datagram is accepted and freshens the timers
    let mut good = parrot::cursor::BytesMut::zeroed(18);
    header.write(&mut good).unwrap();
    Frame::Ping.write(&mut good).unwrap();
    table.process_datagram(good.into_inner(), 7).unwrap();
    assert_eq!(table.conn[0].time_latest_recv(), Some(7));
}
