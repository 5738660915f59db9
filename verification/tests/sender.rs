use srt::congest_ctrl::DefaultCongestCtrl;
use srt::msg_number::MsgNumber;
use srt::packet::{DataPacket, PacketLocation};
use srt::sender::{segment_message, SendBuffer, SendChoice};
use srt::seq_number::SeqNumber;
use srt::SocketID;

#[test]
fn short_message_is_one_only_packet() {
    // Seven bytes fit one packet: loc Only, the proposed numbers, the bytes
    // untouched.
    let packets = segment_message(
        b"abcdefg",
        SeqNumber::new(1000),
        MsgNumber::new(1),
        1500,
        true,
        0,
        SocketID(5),
    );
    assert_eq!(packets.len(), 1);
    assert_eq!(packets[0].message_loc, PacketLocation::Only);
    assert_eq!(packets[0].seq_number, SeqNumber::new(1000));
    assert_eq!(packets[0].message_number, MsgNumber::new(1));
    assert_eq!(packets[0].payload, b"abcdefg".to_vec());
}

#[test]
fn sixty_bytes_at_packet_size_forty_make_three_packets() {
    // A 40-byte packet carries 24 payload bytes, so 60 bytes travel as
    // First, Middle, Last with consecutive sequence numbers.
    let payload: Vec<u8> = (0u8..60).collect();
    let packets = segment_message(
        &payload,
        SeqNumber::new(7),
        MsgNumber::new(3),
        40,
        true,
        0,
        SocketID(5),
    );
    assert_eq!(packets.len(), 3);
    assert_eq!(packets[0].message_loc, PacketLocation::First);
    assert_eq!(packets[1].message_loc, PacketLocation::Middle);
    assert_eq!(packets[2].message_loc, PacketLocation::Last);
    assert_eq!(packets[0].seq_number, SeqNumber::new(7));
    assert_eq!(packets[1].seq_number, SeqNumber::new(8));
    assert_eq!(packets[2].seq_number, SeqNumber::new(9));
    assert!(packets.iter().all(|p| p.message_number == MsgNumber::new(3)));
    assert_eq!(packets[0].payload.len(), 24);
    assert_eq!(packets[1].payload.len(), 24);
    assert_eq!(packets[2].payload.len(), 12);
    let rejoined: Vec<u8> = packets.iter().flat_map(|p| p.payload.clone()).collect();
    assert_eq!(rejoined, payload);
}

#[test]
fn segmentation_wraps_sequence_numbers() {
    let payload: Vec<u8> = vec![0; 48];
    let packets = segment_message(
        &payload,
        SeqNumber::new(0x7fff_ffff),
        MsgNumber::new(0),
        40,
        false,
        0,
        SocketID(5),
    );
    assert_eq!(packets.len(), 2);
    assert_eq!(packets[0].seq_number, SeqNumber::new(0x7fff_ffff));
    assert_eq!(packets[1].seq_number, SeqNumber::new(0));
}

#[test]
fn congestion_slow_start_then_avoidance() {
    let mut cc = DefaultCongestCtrl::new(16);
    assert_eq!(cc.congestion_window(), 2);
    cc.on_ack();
    assert_eq!(cc.congestion_window(), 4);
    cc.on_ack();
    assert_eq!(cc.congestion_window(), 8);
    cc.on_ack();
    // The bound is reached and slow start ends.
    assert_eq!(cc.congestion_window(), 16);
    cc.on_ack();
    assert_eq!(cc.congestion_window(), 16);
}

#[test]
fn congestion_nak_slows_pacing() {
    let mut cc = DefaultCongestCtrl::new(64);
    let before = cc.send_interval_us();
    cc.on_nak();
    assert_eq!(cc.send_interval_us(), before + before / 8);
    // After a loss, acknowledgments grow the window one packet at a time.
    let w = cc.congestion_window();
    cc.on_ack();
    assert_eq!(cc.congestion_window(), w + 1);
}

#[test]
fn congestion_timeout_restarts() {
    let mut cc = DefaultCongestCtrl::new(64);
    cc.on_ack();
    cc.on_nak();
    cc.on_timeout();
    assert_eq!(cc.congestion_window(), 2);
    cc.on_ack();
    assert_eq!(cc.congestion_window(), 4);
}

#[test]
fn send_buffer_paces_losses_first() {
    let mut sb = SendBuffer::new();
    let packets = segment_message(
        &vec![7u8; 48],
        SeqNumber::new(10),
        MsgNumber::new(0),
        40,
        true,
        0,
        SocketID(5),
    );
    for p in packets {
        sb.enqueue(p);
    }
    // Fresh packets go out while the window has room.
    let first = match sb.next_to_send(8) {
        SendChoice::Fresh(p) => p,
        other => panic!("expected a fresh packet, got {:?}", other),
    };
    assert_eq!(first.seq_number, SeqNumber::new(10));
    let second = match sb.next_to_send(8) {
        SendChoice::Fresh(p) => p,
        other => panic!("expected a fresh packet, got {:?}", other),
    };
    assert_eq!(second.seq_number, SeqNumber::new(11));
    assert!(matches!(sb.next_to_send(8), SendChoice::Wait));
    // A NAK for the first packet puts it ahead of everything.
    sb.on_nak(&vec![SeqNumber::new(10)]);
    let again = match sb.next_to_send(8) {
        SendChoice::Retransmit(p) => p,
        other => panic!("expected a retransmission, got {:?}", other),
    };
    assert_eq!(again.seq_number, SeqNumber::new(10));
    assert_eq!(again.payload, first.payload);
    assert!(matches!(sb.next_to_send(8), SendChoice::Wait));
}

#[test]
fn send_buffer_ack_clears_flight_and_losses() {
    let mut sb = SendBuffer::new();
    let packets = segment_message(
        &vec![1u8; 72],
        SeqNumber::new(0),
        MsgNumber::new(0),
        40,
        true,
        0,
        SocketID(5),
    );
    for p in packets {
        sb.enqueue(p);
    }
    for _ in 0..3 {
        assert!(matches!(sb.next_to_send(8), SendChoice::Fresh(_)));
    }
    sb.on_nak(&vec![SeqNumber::new(0), SeqNumber::new(2)]);
    // The cumulative ACK up to 1 overtakes the first loss report.
    sb.on_ack(SeqNumber::new(1));
    let choice = sb.next_to_send(8);
    let p = match choice {
        SendChoice::Retransmit(p) => p,
        other => panic!("expected a retransmission, got {:?}", other),
    };
    assert_eq!(p.seq_number, SeqNumber::new(2));
    assert!(matches!(sb.next_to_send(8), SendChoice::Wait));
}

#[test]
fn send_buffer_stale_loss_discarded() {
    let mut sb = SendBuffer::new();
    sb.enqueue(DataPacket {
        seq_number: SeqNumber::new(5),
        message_loc: PacketLocation::Only,
        in_order_delivery: true,
        message_number: MsgNumber::new(0),
        timestamp: 0,
        dest_sockid: SocketID(1),
        payload: vec![9],
    });
    assert!(matches!(sb.next_to_send(4), SendChoice::Fresh(_)));
    sb.on_nak(&vec![SeqNumber::new(5)]);
    // The loss entry outlives the packet: on_ack drops the packet but the
    // report survives only until it is next serviced.
    sb.on_ack(SeqNumber::new(6));
    assert!(matches!(sb.next_to_send(4), SendChoice::Wait));
}

#[test]
fn overdue_message_evicted_with_drop_request() {
    let mut sb = SendBuffer::new();
    let packets = segment_message(
        &vec![3u8; 48],
        SeqNumber::new(100),
        MsgNumber::new(9),
        40,
        true,
        0,
        SocketID(5),
    );
    for p in packets {
        sb.enqueue(p);
    }
    sb.enqueue(DataPacket {
        seq_number: SeqNumber::new(102),
        message_loc: PacketLocation::Only,
        in_order_delivery: true,
        message_number: MsgNumber::new(10),
        timestamp: 50,
        dest_sockid: SocketID(5),
        payload: vec![1],
    });
    for _ in 0..3 {
        assert!(matches!(sb.next_to_send(8), SendChoice::Fresh(_)));
    }
    // The first message is retransmitted twice more.
    for _ in 0..2 {
        sb.on_nak(&vec![SeqNumber::new(100)]);
        assert!(matches!(sb.next_to_send(8), SendChoice::Retransmit(_)));
    }
    // Not given up while its deadline has not passed, nor while the send
    // count is within the threshold.
    assert_eq!(sb.drop_overdue_message(50, 100_000, 2), None);
    assert_eq!(sb.drop_overdue_message(100_000, 100_000, 5), None);
    // Past the deadline and over the threshold: the whole two-packet
    // message goes, and the drop request names its range.
    let (msg, first, last) = sb.drop_overdue_message(100_000, 100_000, 2).unwrap();
    assert_eq!(msg, MsgNumber::new(9));
    assert_eq!(first, SeqNumber::new(100));
    assert_eq!(last, SeqNumber::new(101));
    // The next message survives.
    assert_eq!(sb.drop_overdue_message(100_000, 100_000, 2), None);
}

#[test]
fn congestion_avoidance_grows_by_spare_rate() {
    let mut cc = DefaultCongestCtrl::new(10_000);
    cc.on_nak(); // leave slow start
    let w = cc.congestion_window();
    // 2000 packets per second of headroom over a 100 ms round trip covers
    // 200 packets, plus the fixed 16.
    cc.on_ack_rates(100_000, 8_000, 10_000, );
    assert_eq!(cc.congestion_window(), w + 216);
    // No headroom: the fixed 16 alone.
    let w2 = cc.congestion_window();
    cc.on_ack_rates(100_000, 10_000, 9_000);
    assert_eq!(cc.congestion_window(), w2 + 16);
}
