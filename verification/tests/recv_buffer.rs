use srt::msg_number::MsgNumber;
use srt::packet::{DataPacket, PacketLocation};
use srt::recv_buffer::{InsertResult, ReceiveBuffer};
use srt::seq_number::SeqNumber;
use srt::SocketID;

fn pkt(seq: u32, loc: PacketLocation, in_order: bool, ts: i32, payload: &[u8]) -> DataPacket {
    DataPacket {
        seq_number: SeqNumber::new(seq),
        message_loc: loc,
        in_order_delivery: in_order,
        message_number: MsgNumber::new(1),
        timestamp: ts,
        dest_sockid: SocketID(1),
        payload: payload.to_vec(),
    }
}

#[test]
fn single_packet_message_delivered() {
    let mut buf = ReceiveBuffer::new(SeqNumber::new(100), 64);
    assert_eq!(
        buf.insert(pkt(100, PacketLocation::Only, true, 0, b"abcdefg")),
        InsertResult::Inserted
    );
    assert_eq!(buf.next_message(0, 120_000), Some(b"abcdefg".to_vec()));
    assert_eq!(buf.next_message(0, 120_000), None);
}

#[test]
fn duplicate_arrival_rejected() {
    // The same packet twice: the delivered stream holds it once.
    let mut buf = ReceiveBuffer::new(SeqNumber::new(0), 16);
    let p = pkt(0, PacketLocation::Only, true, 0, b"x");
    assert_eq!(buf.insert(p.clone()), InsertResult::Inserted);
    assert_eq!(buf.insert(p), InsertResult::Duplicate);
    assert_eq!(buf.next_message(0, 100_000), Some(b"x".to_vec()));
    assert_eq!(buf.next_message(0, 100_000), None);
}

#[test]
fn out_of_window_rejected() {
    let mut buf = ReceiveBuffer::new(SeqNumber::new(1000), 8);
    assert_eq!(
        buf.insert(pkt(999, PacketLocation::Only, true, 0, b"late")),
        InsertResult::LateOrOverflow
    );
    assert_eq!(
        buf.insert(pkt(1008, PacketLocation::Only, true, 0, b"far")),
        InsertResult::LateOrOverflow
    );
    assert_eq!(
        buf.insert(pkt(1007, PacketLocation::Only, true, 0, b"edge")),
        InsertResult::Inserted
    );
}

#[test]
fn segmented_message_reassembled_out_of_order() {
    // Three segments arriving last, first, middle still come out as one
    // message in order.
    let mut buf = ReceiveBuffer::new(SeqNumber::new(10), 32);
    assert_eq!(
        buf.insert(pkt(12, PacketLocation::Last, true, 0, b" three")),
        InsertResult::Inserted
    );
    // Not deliverable yet: the head of the message is missing.
    assert_eq!(buf.next_message(0, 120_000), None);
    assert_eq!(
        buf.insert(pkt(10, PacketLocation::First, true, 0, b"one")),
        InsertResult::Inserted
    );
    assert_eq!(buf.next_message(0, 120_000), None);
    assert_eq!(
        buf.insert(pkt(11, PacketLocation::Middle, true, 0, b" two")),
        InsertResult::Inserted
    );
    assert_eq!(buf.next_message(0, 120_000), Some(b"one two three".to_vec()));
}

#[test]
fn tsbpd_drops_hole_after_deadline() {
    // Sequence 20 never arrives; 21 does, sent at 1000 us. With a latency
    // of 100 ms the receiver must move on once 21 is overdue.
    let mut buf = ReceiveBuffer::new(SeqNumber::new(20), 32);
    assert_eq!(
        buf.insert(pkt(21, PacketLocation::Only, false, 1000, b"onward")),
        InsertResult::Inserted
    );
    // Before the deadline nothing moves.
    assert_eq!(buf.next_message(50_000, 100_000), None);
    assert_eq!(buf.next_message(100_999, 100_000), None);
    // At the deadline the hole is given up on, and the next call delivers.
    assert_eq!(buf.next_message(101_000, 100_000), None);
    assert_eq!(buf.next_message(101_000, 100_000), Some(b"onward".to_vec()));
}

#[test]
fn overdue_partial_message_delivered_when_unordered() {
    // First and middle are here, the tail never comes. Once overdue, an
    // unordered message goes out as far as it got.
    let mut buf = ReceiveBuffer::new(SeqNumber::new(0), 16);
    assert_eq!(
        buf.insert(pkt(0, PacketLocation::First, false, 0, b"par")),
        InsertResult::Inserted
    );
    assert_eq!(
        buf.insert(pkt(1, PacketLocation::Middle, false, 0, b"tial")),
        InsertResult::Inserted
    );
    assert_eq!(buf.next_message(10, 100_000), None);
    assert_eq!(buf.next_message(100_000, 100_000), Some(b"partial".to_vec()));
}

#[test]
fn overdue_partial_message_skipped_when_ordered() {
    // The same, but the message insisted on order: it is dropped whole,
    // and delivery continues with the next message.
    let mut buf = ReceiveBuffer::new(SeqNumber::new(0), 16);
    assert_eq!(
        buf.insert(pkt(0, PacketLocation::First, true, 0, b"gone")),
        InsertResult::Inserted
    );
    assert_eq!(
        buf.insert(pkt(2, PacketLocation::Only, true, 5, b"next")),
        InsertResult::Inserted
    );
    assert_eq!(buf.next_message(200_000, 100_000), None);
    // The hole where the dropped message's tail would have been.
    assert_eq!(buf.next_message(200_000, 100_000), None);
    assert_eq!(buf.next_message(200_000, 100_000), Some(b"next".to_vec()));
}

#[test]
fn missing_up_to_lists_holes() {
    let mut buf = ReceiveBuffer::new(SeqNumber::new(50), 16);
    assert_eq!(
        buf.insert(pkt(51, PacketLocation::Only, true, 0, b"a")),
        InsertResult::Inserted
    );
    assert_eq!(
        buf.insert(pkt(54, PacketLocation::Only, true, 0, b"b")),
        InsertResult::Inserted
    );
    let missing = buf.missing_up_to(SeqNumber::new(55));
    assert_eq!(
        missing,
        vec![SeqNumber::new(50), SeqNumber::new(52), SeqNumber::new(53)]
    );
}

#[test]
fn reordered_session_delivers_identical_stream() {
    // The same three messages inserted in two different arrival orders,
    // with a duplicate thrown in, come out as the same byte stream.
    let packets = vec![
        pkt(0, PacketLocation::Only, true, 0, b"alpha "),
        pkt(1, PacketLocation::First, true, 0, b"beta"),
        pkt(2, PacketLocation::Last, true, 0, b"! "),
        pkt(3, PacketLocation::Only, true, 0, b"gamma"),
    ];
    let orders: Vec<Vec<usize>> = vec![vec![0, 1, 2, 3], vec![3, 2, 0, 1, 2]];
    let mut streams: Vec<Vec<u8>> = Vec::new();
    for order in orders {
        let mut buf = ReceiveBuffer::new(SeqNumber::new(0), 16);
        for &k in &order {
            buf.insert(packets[k].clone());
        }
        let mut stream: Vec<u8> = Vec::new();
        while let Some(msg) = buf.next_message(0, 100_000) {
            stream.extend_from_slice(&msg);
        }
        streams.push(stream);
    }
    assert_eq!(streams[0], b"alpha beta! gamma".to_vec());
    assert_eq!(streams[0], streams[1]);
}
