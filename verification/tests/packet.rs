use srt::msg_number::MsgNumber;
use srt::packet::{
    AckControlInfo, ControlPacket, ControlTypes, DataPacket, DropRequestControlInfo,
    HandshakeControlInfo, NakControlInfo, Packet, PacketError, PacketLocation, SocketType,
    ConnectionType,
};
use srt::seq_number::SeqNumber;
use srt::SocketID;

#[test]
fn packet_location_test() {
    assert_eq!(PacketLocation::from_i32(0b10 << 30), PacketLocation::First);
    assert_eq!(PacketLocation::from_i32(!(0b01 << 30)), PacketLocation::First);
    assert_eq!(PacketLocation::from_i32(0b101010101110 << 20), PacketLocation::First);

    assert_eq!(PacketLocation::from_i32(0b00), PacketLocation::Middle);
    assert_eq!(PacketLocation::from_i32(!(0b11 << 30)), PacketLocation::Middle);
    assert_eq!(PacketLocation::from_i32(0b001010101110 << 20), PacketLocation::Middle);

    assert_eq!(PacketLocation::from_i32(0b01 << 30), PacketLocation::Last);
    assert_eq!(PacketLocation::from_i32(!(0b10 << 30)), PacketLocation::Last);
    assert_eq!(PacketLocation::from_i32(0b011100101110 << 20), PacketLocation::Last);

    assert_eq!(PacketLocation::from_i32(0b11 << 30), PacketLocation::Only);
    assert_eq!(PacketLocation::from_i32(!(0b00 << 30)), PacketLocation::Only);
    assert_eq!(PacketLocation::from_i32(0b110100101110 << 20), PacketLocation::Only);
}

#[test]
fn packet_location_to_from() {
    for loc in [
        PacketLocation::First,
        PacketLocation::Middle,
        PacketLocation::Last,
        PacketLocation::Only,
    ] {
        assert_eq!(PacketLocation::from_i32(loc.to_i32()), loc);
    }
}

#[test]
fn socket_type_wire_values() {
    assert_eq!(SocketType::from_i32(1).unwrap(), SocketType::Stream);
    assert_eq!(SocketType::from_i32(2).unwrap(), SocketType::Datagram);
    assert_eq!(SocketType::from_i32(0).unwrap_err(), PacketError::BadEnum);
    assert_eq!(SocketType::Stream.to_i32(), 1);
    assert_eq!(SocketType::Datagram.to_i32(), 2);
}

#[test]
fn connection_type_wire_values() {
    assert_eq!(ConnectionType::from_i32(1).unwrap(), ConnectionType::Regular);
    assert_eq!(ConnectionType::from_i32(0).unwrap(), ConnectionType::RendezvousFirst);
    assert_eq!(ConnectionType::from_i32(-1).unwrap(), ConnectionType::RendezvousSecond);
    assert_eq!(ConnectionType::from_i32(-2).unwrap(), ConnectionType::RendezvousFinal);
    assert_eq!(ConnectionType::from_i32(7).unwrap_err(), PacketError::BadEnum);
    assert_eq!(ConnectionType::Regular.to_i32(), 1);
    assert_eq!(ConnectionType::RendezvousFinal.to_i32(), -2);
}

fn roundtrip(p: Packet) {
    let mut bytes: Vec<u8> = Vec::new();
    p.serialize(&mut bytes);
    let q = Packet::parse(&bytes).unwrap();
    assert_eq!(p, q);
}

#[test]
fn data_packet_roundtrip() {
    roundtrip(Packet::Data(DataPacket {
        seq_number: SeqNumber::new(0x7fff_ffff),
        message_loc: PacketLocation::Only,
        in_order_delivery: true,
        message_number: MsgNumber::new(0x1fff_ffff),
        timestamp: -12345,
        dest_sockid: SocketID(0xdead_beef),
        payload: b"hello, world".to_vec(),
    }));
    roundtrip(Packet::Data(DataPacket {
        seq_number: SeqNumber::new(0),
        message_loc: PacketLocation::Middle,
        in_order_delivery: false,
        message_number: MsgNumber::new(0),
        timestamp: 0,
        dest_sockid: SocketID(0),
        payload: Vec::new(),
    }));
}

#[test]
fn data_packet_exact_bytes() {
    let p = Packet::Data(DataPacket {
        seq_number: SeqNumber::new(1),
        message_loc: PacketLocation::First,
        in_order_delivery: true,
        message_number: MsgNumber::new(2),
        timestamp: 3,
        dest_sockid: SocketID(4),
        payload: vec![0xaa, 0xbb],
    });
    let mut bytes: Vec<u8> = Vec::new();
    p.serialize(&mut bytes);
    // word 0: sequence number 1; word 1: FF = 10, O = 1, message 2;
    // word 2: timestamp 3; word 3: socket id 4; then the payload.
    assert_eq!(
        bytes,
        vec![
            0x00, 0x00, 0x00, 0x01, 0xa0, 0x00, 0x00, 0x02, 0x00, 0x00, 0x00, 0x03, 0x00, 0x00,
            0x00, 0x04, 0xaa, 0xbb
        ]
    );
}

#[test]
fn handshake_roundtrip() {
    let mut peer_addr = vec![127, 0, 0, 1];
    peer_addr.extend_from_slice(&[0u8; 12]);
    roundtrip(Packet::Control(ControlPacket {
        timestamp: 100,
        dest_sockid: SocketID(42),
        control_type: ControlTypes::Handshake(HandshakeControlInfo {
            udt_version: 4,
            sock_type: SocketType::Datagram,
            init_seq_num: 0x123456,
            max_packet_size: 1500,
            max_flow_size: 25600,
            connection_type: ConnectionType::Regular,
            socket_id: SocketID(9000),
            syn_cookie: -77,
            peer_addr,
        }),
    }));
}

#[test]
fn keepalive_shutdown_ack2_roundtrip() {
    roundtrip(Packet::Control(ControlPacket {
        timestamp: 1,
        dest_sockid: SocketID(2),
        control_type: ControlTypes::KeepAlive,
    }));
    roundtrip(Packet::Control(ControlPacket {
        timestamp: 3,
        dest_sockid: SocketID(4),
        control_type: ControlTypes::Shutdown,
    }));
    roundtrip(Packet::Control(ControlPacket {
        timestamp: 5,
        dest_sockid: SocketID(6),
        control_type: ControlTypes::Ack2(12345),
    }));
}

#[test]
fn ack_roundtrip_full_and_minimal() {
    roundtrip(Packet::Control(ControlPacket {
        timestamp: 7,
        dest_sockid: SocketID(8),
        control_type: ControlTypes::Ack(
            11,
            AckControlInfo {
                recvd_until: 5000,
                rtt: Some(10_000),
                rtt_variance: Some(1_000),
                buffer_available: Some(8192),
                packet_recv_rate: Some(1500),
                est_link_cap: Some(100_000),
            },
        ),
    }));
    roundtrip(Packet::Control(ControlPacket {
        timestamp: 7,
        dest_sockid: SocketID(8),
        control_type: ControlTypes::Ack(
            12,
            AckControlInfo {
                recvd_until: 5001,
                rtt: None,
                rtt_variance: None,
                buffer_available: None,
                packet_recv_rate: None,
                est_link_cap: None,
            },
        ),
    }));
    roundtrip(Packet::Control(ControlPacket {
        timestamp: 7,
        dest_sockid: SocketID(8),
        control_type: ControlTypes::Ack(
            13,
            AckControlInfo {
                recvd_until: 5002,
                rtt: Some(9_999),
                rtt_variance: Some(50),
                buffer_available: None,
                packet_recv_rate: None,
                est_link_cap: None,
            },
        ),
    }));
}

#[test]
fn nak_roundtrip() {
    roundtrip(Packet::Control(ControlPacket {
        timestamp: 9,
        dest_sockid: SocketID(10),
        control_type: ControlTypes::Nak(NakControlInfo {
            loss_info: vec![5, (0x8000_0007u32 as i32), 9, 100],
        }),
    }));
    roundtrip(Packet::Control(ControlPacket {
        timestamp: 9,
        dest_sockid: SocketID(10),
        control_type: ControlTypes::Nak(NakControlInfo { loss_info: Vec::new() }),
    }));
}

#[test]
fn drop_request_roundtrip() {
    roundtrip(Packet::Control(ControlPacket {
        timestamp: 11,
        dest_sockid: SocketID(12),
        control_type: ControlTypes::DropRequest(
            99,
            DropRequestControlInfo { first: 500, last: 510 },
        ),
    }));
}

#[test]
fn parse_short_buffer_fails() {
    assert_eq!(Packet::parse(&[]).unwrap_err(), PacketError::ShortHeader);
    assert_eq!(Packet::parse(&[0u8; 15]).unwrap_err(), PacketError::ShortHeader);
}

#[test]
fn parse_unknown_control_fails() {
    // A control packet (high bit set) with type code 0x4, which nothing uses.
    let mut bytes = vec![0x80, 0x04, 0x00, 0x00];
    bytes.extend_from_slice(&[0u8; 12]);
    assert_eq!(Packet::parse(&bytes).unwrap_err(), PacketError::UnknownControl);
}

#[test]
fn parse_truncated_handshake_fails() {
    // A handshake whose body stops short of the fixed 48-byte block.
    let mut bytes = vec![0x80, 0x00, 0x00, 0x00];
    bytes.extend_from_slice(&[0u8; 12]);
    bytes.extend_from_slice(&[0u8; 20]);
    assert_eq!(Packet::parse(&bytes).unwrap_err(), PacketError::ShortHeader);
}

#[test]
fn parse_bad_socket_type_fails() {
    // A handshake whose socket-type word holds 9.
    let mut bytes = vec![0x80, 0x00, 0x00, 0x00];
    bytes.extend_from_slice(&[0u8; 12]);
    bytes.extend_from_slice(&[0, 0, 0, 4]); // udt version
    bytes.extend_from_slice(&[0, 0, 0, 9]); // socket type: bad
    bytes.extend_from_slice(&[0u8; 40]);
    assert_eq!(Packet::parse(&bytes).unwrap_err(), PacketError::BadEnum);
}
