use srt::loss_compression::{compress_loss_list, decompress_loss_list};
use srt::msg_number::MsgNumber;
use srt::packet::DataPacket;
use srt::recv_buffer::{InsertResult, ReceiveBuffer};
use srt::sender::segment_message;
use srt::seq_number::SeqNumber;
use srt::SocketID;

#[test]
fn dropped_packets_recovered_through_nak_loss_list() {
    // Twenty messages are segmented, sent through a lossy hop that drops
    // every third packet on its first try, and the receiver's missing list
    // — compressed as a NAK would carry it — drives retransmission. Every
    // message is delivered exactly once, intact.
    let mut next_seq = SeqNumber::new(100);
    let mut sent: Vec<DataPacket> = Vec::new();
    let mut expected: Vec<u8> = Vec::new();
    for m in 0..20u32 {
        let body: Vec<u8> = (0..50u8).map(|b| b.wrapping_add(m as u8)).collect();
        expected.extend_from_slice(&body);
        let packets = segment_message(
            &body,
            next_seq,
            MsgNumber::new(m),
            40,
            true,
            0,
            SocketID(1),
        );
        next_seq = next_seq.wrapping_add(packets.len() as u32);
        sent.extend(packets);
    }

    let mut buf = ReceiveBuffer::new(SeqNumber::new(100), 256);
    // First pass: every third packet is lost on the wire.
    for (i, p) in sent.iter().enumerate() {
        if i % 3 != 2 {
            assert_eq!(buf.insert(p.clone()), InsertResult::Inserted);
        }
    }
    // The receiver asks for what is missing below the highest it has seen.
    let missing = buf.missing_up_to(next_seq);
    assert!(!missing.is_empty());
    let nak_words = compress_loss_list(&missing);
    // The sender reads the NAK back and retransmits those packets.
    let asked = decompress_loss_list(&nak_words).unwrap();
    assert_eq!(asked, missing);
    for seq in asked {
        let p = sent
            .iter()
            .find(|p| p.seq_number == seq)
            .expect("the NAK names only packets that were sent")
            .clone();
        assert_eq!(buf.insert(p), InsertResult::Inserted);
    }
    // Everything arrives exactly once.
    let mut delivered: Vec<u8> = Vec::new();
    let mut messages = 0;
    while let Some(msg) = buf.next_message(0, 100_000) {
        delivered.extend_from_slice(&msg);
        messages += 1;
    }
    assert_eq!(messages, 20);
    assert_eq!(delivered, expected);
}
