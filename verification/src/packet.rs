//! The wire packet codec.
//!
//! Every packet is one UDP payload. The first bit of the first 32-bit word
//! discriminates data (0) from control (1) packets; all integers are
//! big-endian. `spec_serialize` and `spec_parse` define the wire format at
//! the specification level; the executable `Packet::serialize` and
//! `Packet::parse` are proved to match them exactly, and
//! `lemma_parse_serialize_roundtrip` shows that parsing undoes serializing
//! for every well-formed packet.
//!
//! Layout (from the UDT draft): a data packet is
//! `seq (31 bits) | FF (2) O (1) msg (29) | timestamp | dest socket id`
//! followed by the payload; a control packet is
//! `1 type (15) reserved (16) | additional info | timestamp | dest socket id`
//! followed by a body that depends on the type.

use crate::msg_number::MsgNumber;
use crate::seq_number::SeqNumber;
use crate::SocketID;
use vstd::prelude::*;
use vstd::slice::{slice_subrange, slice_to_vec};

verus! {

/// Ways a datagram can fail to parse. Malformed packets are counted and
/// dropped by callers; none of these tears a connection down.
#[derive(Debug, Clone, Copy, PartialEq, Eq, Structural)]
pub enum PacketError {
    /// Too short for the 16-byte header or for a required body block.
    ShortHeader,
    /// Control packet with an unrecognized type code.
    UnknownControl,
    /// An enum field on the wire holds an unrecognized value.
    BadEnum,
}

/// A UDT/SRT packet: either application data or protocol control.
#[derive(Debug, Clone, PartialEq, Eq)]
pub enum Packet {
    Data(DataPacket),
    Control(ControlPacket),
}

/// A packet carrying application data.
#[derive(Debug, Clone, PartialEq, Eq)]
pub struct DataPacket {
    /// Packet-based sequence number; the next packet has the next number,
    /// wrapping at `2^31`.
    pub seq_number: SeqNumber,
    /// Where in its message this packet stands (the FF bits).
    pub message_loc: PacketLocation,
    /// Whether the message must be delivered in order (the O bit).
    pub in_order_delivery: bool,
    /// Number of the message this packet belongs to, wrapping at `2^29`.
    pub message_number: MsgNumber,
    /// Microseconds since the connection started.
    pub timestamp: i32,
    /// Destination socket, for UDP demultiplexing.
    pub dest_sockid: SocketID,
    /// The rest of the datagram: the carried bytes.
    pub payload: Vec<u8>,
}

/// Position of a data packet within its message, wired as the two FF bits
/// of the second header word: First = 10, Middle = 00, Last = 01, Only = 11.
#[derive(Debug, Clone, Copy, PartialEq, Eq, Structural)]
pub enum PacketLocation {
    First,
    Middle,
    Last,
    Only,
}

impl PacketLocation {
    /// The FF bits of this location, placed in the top two bits of a word.
    pub open spec fn spec_word(self) -> u32 {
        match self {
            PacketLocation::First => 0x8000_0000u32,
            PacketLocation::Middle => 0u32,
            PacketLocation::Last => 0x4000_0000u32,
            PacketLocation::Only => 0xC000_0000u32,
        }
    }

    /// The location named by the top two bits of `w`.
    pub open spec fn spec_from_word(w: u32) -> PacketLocation {
        if w >> 30 == 2 {
            PacketLocation::First
        } else if w >> 30 == 0 {
            PacketLocation::Middle
        } else if w >> 30 == 1 {
            PacketLocation::Last
        } else {
            PacketLocation::Only
        }
    }

    /// Reads the location out of a data packet's second header word.
    pub fn from_i32(from: i32) -> (r: PacketLocation)
        ensures
            r == PacketLocation::spec_from_word(from as u32),
    {
        let ff = (from as u32) >> 30;
        if ff == 2 {
            PacketLocation::First
        } else if ff == 0 {
            PacketLocation::Middle
        } else if ff == 1 {
            PacketLocation::Last
        } else {
            PacketLocation::Only
        }
    }

    /// The FF bits of this location as a word, reinterpreted signed.
    pub fn to_i32(&self) -> (r: i32)
        ensures
            r as u32 == self.spec_word(),
    {
        proof {
            assert(0x8000_0000u32 as i32 as u32 == 0x8000_0000u32) by (bit_vector);
            assert(0x4000_0000u32 as i32 as u32 == 0x4000_0000u32) by (bit_vector);
            assert(0xC000_0000u32 as i32 as u32 == 0xC000_0000u32) by (bit_vector);
        }
        (match self {
            PacketLocation::First => 0x8000_0000u32,
            PacketLocation::Middle => 0u32,
            PacketLocation::Last => 0x4000_0000u32,
            PacketLocation::Only => 0xC000_0000u32,
        }) as i32
    }
}

/// Encoding and decoding the FF bits is lossless: every location comes back
/// from its own word.
pub proof fn lemma_location_roundtrip(loc: PacketLocation)
    ensures
        PacketLocation::spec_from_word(loc.spec_word()) == loc,
{
    assert(0x8000_0000u32 >> 30 == 2) by (bit_vector);
    assert(0u32 >> 30 == 0) by (bit_vector);
    assert(0x4000_0000u32 >> 30 == 1) by (bit_vector);
    assert(0xC000_0000u32 >> 30 == 3) by (bit_vector);
}

/// A packet carrying control information.
#[derive(Debug, Clone, PartialEq, Eq)]
pub struct ControlPacket {
    /// Microseconds since the connection started.
    pub timestamp: i32,
    /// Destination socket, for UDP demultiplexing.
    pub dest_sockid: SocketID,
    /// Which control message this is, with its body.
    pub control_type: ControlTypes,
}

/// The kinds of control packets, with their type codes on the wire.
#[derive(Debug, Clone, PartialEq, Eq)]
pub enum ControlTypes {
    /// Connection setup, type 0x0.
    Handshake(HandshakeControlInfo),
    /// Keeps an idle connection alive, type 0x1; no body.
    KeepAlive,
    /// Positive acknowledgment, type 0x2; the additional-info word carries
    /// the ACK sequence number.
    Ack(i32, AckControlInfo),
    /// Negative acknowledgment, type 0x3; the body lists lost sequence
    /// numbers in compressed form.
    Nak(NakControlInfo),
    /// Orderly teardown, type 0x5; no body.
    Shutdown,
    /// Acknowledgment of an acknowledgment, type 0x6; the additional-info
    /// word carries the ACK sequence number being confirmed.
    Ack2(i32),
    /// Ask the receiver to give up on a message, type 0x7; the
    /// additional-info word carries the message number.
    DropRequest(i32, DropRequestControlInfo),
}

/// Body of a drop request: the inclusive range of sequence numbers to give
/// up on.
#[derive(Debug, Clone, Copy, PartialEq, Eq, Structural)]
pub struct DropRequestControlInfo {
    /// The first sequence number to drop.
    pub first: i32,
    /// The last sequence number to drop.
    pub last: i32,
}

/// Body of a NAK: the loss list in compressed wire form. A word with its
/// high bit clear is one lost sequence number; one with its high bit set
/// starts an inclusive range that the following word (high bit clear) ends.
#[derive(Debug, Clone, PartialEq, Eq)]
pub struct NakControlInfo {
    pub loss_info: Vec<i32>,
}

/// Body of an ACK. Everything past `recvd_until` is optional, and the
/// optional fields are only ever present as a prefix, in this order.
#[derive(Debug, Clone, Copy, PartialEq, Eq)]
pub struct AckControlInfo {
    /// All packets up to here (exclusive) have been received.
    pub recvd_until: i32,
    /// Round-trip time, microseconds.
    pub rtt: Option<i32>,
    /// Round-trip time variance, microseconds.
    pub rtt_variance: Option<i32>,
    /// Receive buffer space available, packets.
    pub buffer_available: Option<i32>,
    /// Receive rate, packets per second.
    pub packet_recv_rate: Option<i32>,
    /// Estimated link capacity, packets per second.
    pub est_link_cap: Option<i32>,
}

/// Body of a handshake: eight 32-bit words, then 16 bytes of peer address
/// (an IPv4 address in the low four bytes with the rest zero, or a full
/// IPv6 address).
#[derive(Debug, Clone, PartialEq, Eq)]
pub struct HandshakeControlInfo {
    /// The UDT version, currently 4.
    pub udt_version: i32,
    /// Stream or datagram.
    pub sock_type: SocketType,
    /// The initial sequence number, usually chosen at random.
    pub init_seq_num: i32,
    /// Largest packet, UDP/IP headers included; 1500 by default.
    pub max_packet_size: i32,
    /// Largest flow window, in packets; 25600 by default.
    pub max_flow_size: i32,
    /// Which leg of a regular or rendezvous handshake this is.
    pub connection_type: ConnectionType,
    /// The socket this request originates from.
    pub socket_id: SocketID,
    /// SYN cookie: a listener's stateless token that the caller must echo.
    pub syn_cookie: i32,
    /// The peer's address, 16 bytes as described above.
    pub peer_addr: Vec<u8>,
}

/// The socket type carried in a handshake.
#[derive(Debug, Clone, Copy, PartialEq, Eq, Structural)]
pub enum SocketType {
    /// A stream socket, 1 on the wire.
    Stream,
    /// A datagram socket, 2 on the wire.
    Datagram,
}

/// The socket type a wire value names, if any.
pub open spec fn spec_socket_type(num: i32) -> Option<SocketType> {
    if num == 1 {
        Some(SocketType::Stream)
    } else if num == 2 {
        Some(SocketType::Datagram)
    } else {
        None
    }
}

impl SocketType {
    /// This socket type's value on the wire.
    pub open spec fn spec_to_i32(self) -> i32 {
        match self {
            SocketType::Stream => 1,
            SocketType::Datagram => 2,
        }
    }

    pub fn from_i32(num: i32) -> (r: Result<SocketType, PacketError>)
        ensures
            match r {
                Ok(t) => spec_socket_type(num) == Some(t),
                Err(e) => e == PacketError::BadEnum && spec_socket_type(num) is None,
            },
    {
        match num {
            1 => Ok(SocketType::Stream),
            2 => Ok(SocketType::Datagram),
            _ => Err(PacketError::BadEnum),
        }
    }

    pub fn to_i32(&self) -> (r: i32)
        ensures
            r == self.spec_to_i32(),
            spec_socket_type(r) == Some(*self),
    {
        match self {
            SocketType::Stream => 1,
            SocketType::Datagram => 2,
        }
    }
}

/// Which leg of connection setup a handshake is.
#[derive(Debug, Clone, Copy, PartialEq, Eq, Structural)]
pub enum ConnectionType {
    /// A regular connection: one listener, one caller; 1 on the wire.
    Regular,
    /// A rendezvous connection's opening request; 0 on the wire.
    RendezvousFirst,
    /// The response to a rendezvous opening request; -1 on the wire.
    RendezvousSecond,
    /// The final rendezvous confirmation; -2 on the wire.
    RendezvousFinal,
}

/// The connection type a wire value names, if any.
pub open spec fn spec_connection_type(num: i32) -> Option<ConnectionType> {
    if num == 1 {
        Some(ConnectionType::Regular)
    } else if num == 0 {
        Some(ConnectionType::RendezvousFirst)
    } else if num == -1 {
        Some(ConnectionType::RendezvousSecond)
    } else if num == -2 {
        Some(ConnectionType::RendezvousFinal)
    } else {
        None
    }
}

impl ConnectionType {
    /// This connection type's value on the wire.
    pub open spec fn spec_to_i32(self) -> i32 {
        match self {
            ConnectionType::Regular => 1i32,
            ConnectionType::RendezvousFirst => 0i32,
            ConnectionType::RendezvousSecond => -1i32,
            ConnectionType::RendezvousFinal => -2i32,
        }
    }

    pub fn from_i32(num: i32) -> (r: Result<ConnectionType, PacketError>)
        ensures
            match r {
                Ok(t) => spec_connection_type(num) == Some(t),
                Err(e) => e == PacketError::BadEnum && spec_connection_type(num) is None,
            },
    {
        match num {
            1 => Ok(ConnectionType::Regular),
            0 => Ok(ConnectionType::RendezvousFirst),
            -1 => Ok(ConnectionType::RendezvousSecond),
            -2 => Ok(ConnectionType::RendezvousFinal),
            _ => Err(PacketError::BadEnum),
        }
    }

    pub fn to_i32(&self) -> (r: i32)
        ensures
            r == self.spec_to_i32(),
            spec_connection_type(r) == Some(*self),
    {
        match self {
            ConnectionType::Regular => 1i32,
            ConnectionType::RendezvousFirst => 0i32,
            ConnectionType::RendezvousSecond => -1i32,
            ConnectionType::RendezvousFinal => -2i32,
        }
    }
}

// ---------------------------------------------------------------------------
// Mathematical model: each packet type viewed with sequences in place of
// vectors, and the wire format as functions between models and byte strings.
// ---------------------------------------------------------------------------

/// `DataPacket` with its payload as a byte sequence.
#[verifier::ext_equal]
pub struct DataPacketModel {
    pub seq_number: SeqNumber,
    pub message_loc: PacketLocation,
    pub in_order_delivery: bool,
    pub message_number: MsgNumber,
    pub timestamp: i32,
    pub dest_sockid: SocketID,
    pub payload: Seq<u8>,
}

/// `HandshakeControlInfo` with its peer address as a byte sequence.
#[verifier::ext_equal]
pub struct HandshakeModel {
    pub udt_version: i32,
    pub sock_type: SocketType,
    pub init_seq_num: i32,
    pub max_packet_size: i32,
    pub max_flow_size: i32,
    pub connection_type: ConnectionType,
    pub socket_id: SocketID,
    pub syn_cookie: i32,
    pub peer_addr: Seq<u8>,
}

/// `ControlTypes` over the models above; the NAK loss list becomes a
/// sequence of words.
#[verifier::ext_equal]
pub enum ControlTypesModel {
    Handshake(HandshakeModel),
    KeepAlive,
    Ack(i32, AckControlInfo),
    Nak(Seq<i32>),
    Shutdown,
    Ack2(i32),
    DropRequest(i32, DropRequestControlInfo),
}

/// `ControlPacket` over `ControlTypesModel`.
#[verifier::ext_equal]
pub struct ControlPacketModel {
    pub timestamp: i32,
    pub dest_sockid: SocketID,
    pub control_type: ControlTypesModel,
}

/// `Packet` over the models above.
#[verifier::ext_equal]
pub enum PacketModel {
    Data(DataPacketModel),
    Control(ControlPacketModel),
}

impl View for DataPacket {
    type V = DataPacketModel;

    open spec fn view(&self) -> DataPacketModel {
        DataPacketModel {
            seq_number: self.seq_number,
            message_loc: self.message_loc,
            in_order_delivery: self.in_order_delivery,
            message_number: self.message_number,
            timestamp: self.timestamp,
            dest_sockid: self.dest_sockid,
            payload: self.payload@,
        }
    }
}

impl View for HandshakeControlInfo {
    type V = HandshakeModel;

    open spec fn view(&self) -> HandshakeModel {
        HandshakeModel {
            udt_version: self.udt_version,
            sock_type: self.sock_type,
            init_seq_num: self.init_seq_num,
            max_packet_size: self.max_packet_size,
            max_flow_size: self.max_flow_size,
            connection_type: self.connection_type,
            socket_id: self.socket_id,
            syn_cookie: self.syn_cookie,
            peer_addr: self.peer_addr@,
        }
    }
}

impl View for ControlTypes {
    type V = ControlTypesModel;

    open spec fn view(&self) -> ControlTypesModel {
        match self {
            ControlTypes::Handshake(h) => ControlTypesModel::Handshake(h@),
            ControlTypes::KeepAlive => ControlTypesModel::KeepAlive,
            ControlTypes::Ack(s, a) => ControlTypesModel::Ack(*s, *a),
            ControlTypes::Nak(n) => ControlTypesModel::Nak(n.loss_info@),
            ControlTypes::Shutdown => ControlTypesModel::Shutdown,
            ControlTypes::Ack2(s) => ControlTypesModel::Ack2(*s),
            ControlTypes::DropRequest(s, d) => ControlTypesModel::DropRequest(*s, *d),
        }
    }
}

impl View for ControlPacket {
    type V = ControlPacketModel;

    open spec fn view(&self) -> ControlPacketModel {
        ControlPacketModel {
            timestamp: self.timestamp,
            dest_sockid: self.dest_sockid,
            control_type: self.control_type@,
        }
    }
}

impl View for Packet {
    type V = PacketModel;

    open spec fn view(&self) -> PacketModel {
        match self {
            Packet::Data(d) => PacketModel::Data(d@),
            Packet::Control(c) => PacketModel::Control(c@),
        }
    }
}

// ---------------------------------------------------------------------------
// Big-endian 32-bit words in byte strings.
// ---------------------------------------------------------------------------

/// The word spelled by four bytes, big-endian.
pub open spec fn spec_u32_from_bytes(b0: u8, b1: u8, b2: u8, b3: u8) -> u32 {
    ((b0 as u32) << 24) | ((b1 as u32) << 16) | ((b2 as u32) << 8) | (b3 as u32)
}

/// The four big-endian bytes of a word.
pub open spec fn spec_u32_to_bytes(w: u32) -> Seq<u8> {
    seq![(w >> 24) as u8, ((w >> 16) & 0xff) as u8, ((w >> 8) & 0xff) as u8, (w & 0xff) as u8]
}

/// The big-endian word at byte offset `i` of `b`.
pub open spec fn word_at(b: Seq<u8>, i: int) -> u32
    recommends
        0 <= i,
        i + 4 <= b.len(),
{
    spec_u32_from_bytes(b[i], b[i + 1], b[i + 2], b[i + 3])
}

/// Splitting a word into bytes and rejoining them gives the word back.
pub proof fn lemma_u32_rejoin(w: u32)
    ensures
        spec_u32_from_bytes(
            (w >> 24) as u8,
            ((w >> 16) & 0xff) as u8,
            ((w >> 8) & 0xff) as u8,
            (w & 0xff) as u8,
        ) == w,
{
    assert((((w >> 24) as u8 as u32) << 24) | ((((w >> 16) & 0xff) as u8 as u32) << 16) | ((((w
        >> 8) & 0xff) as u8 as u32) << 8) | ((w & 0xff) as u8 as u32) == w) by (bit_vector);
}

/// A byte string that starts with the four bytes of `w` holds `w` as its
/// first word, and the rest follows from offset 4 on.
pub proof fn lemma_chunk4(w: u32, rest: Seq<u8>)
    ensures
        (spec_u32_to_bytes(w) + rest).len() == 4 + rest.len(),
        word_at(spec_u32_to_bytes(w) + rest, 0) == w,
        (spec_u32_to_bytes(w) + rest).skip(4) == rest,
        (spec_u32_to_bytes(w) + rest)[0] == (w >> 24) as u8,
{
    lemma_u32_rejoin(w);
    assert((spec_u32_to_bytes(w) + rest).skip(4) =~= rest);
}

/// A word read past the first `k` bytes is a word of the remainder.
pub proof fn lemma_word_at_skip(b: Seq<u8>, k: int, i: int)
    requires
        0 <= k <= i,
        i + 4 <= b.len(),
    ensures
        word_at(b, i) == word_at(b.skip(k), i - k),
{
}

/// Reinterpreting a signed word as unsigned and back changes nothing.
pub proof fn lemma_i32_u32_roundtrip(x: i32)
    ensures
        (x as u32) as i32 == x,
{
    assert((x as u32) as i32 == x) by (bit_vector);
}

/// Reads the big-endian word at byte offset `pos`.
pub fn read_u32_be(buf: &[u8], pos: usize) -> (r: u32)
    requires
        pos + 4 <= buf@.len(),
    ensures
        r == word_at(buf@, pos as int),
{
    ((buf[pos] as u32) << 24) | ((buf[pos + 1] as u32) << 16) | ((buf[pos + 2] as u32) << 8) | (
    buf[pos + 3] as u32)
}

/// Appends the four big-endian bytes of `w`.
pub fn write_u32_be(into: &mut Vec<u8>, w: u32)
    ensures
        final(into)@ == old(into)@ + spec_u32_to_bytes(w),
{
    into.push((w >> 24) as u8);
    into.push(((w >> 16) & 0xff) as u8);
    into.push(((w >> 8) & 0xff) as u8);
    into.push((w & 0xff) as u8);
    proof {
        assert(into@ =~= old(into)@ + spec_u32_to_bytes(w));
    }
}

/// Appends a byte string.
pub fn append_bytes(into: &mut Vec<u8>, from: &[u8])
    ensures
        final(into)@ == old(into)@ + from@,
{
    let mut i: usize = 0;
    while i < from.len()
        invariant
            i <= from@.len(),
            into@ == old(into)@ + from@.subrange(0, i as int),
        decreases from@.len() - i,
    {
        into.push(from[i]);
        i = i + 1;
        proof {
            assert(into@ =~= old(into)@ + from@.subrange(0, i as int));
        }
    }
    proof {
        assert(from@.subrange(0, from@.len() as int) =~= from@);
    }
}

// ---------------------------------------------------------------------------
// The wire format, stated as spec functions on models.
// ---------------------------------------------------------------------------

/// The O bit of a data packet's second header word.
pub const IN_ORDER_BIT: u32 = 0x2000_0000;

/// Mask of the 29 message-number bits of a data packet's second header word.
pub const MSG_NUMBER_MASK: u32 = 0x1fff_ffff;

/// The second header word of a data packet: FF bits, O bit, message number.
pub open spec fn spec_data_word1(d: DataPacketModel) -> u32 {
    d.message_loc.spec_word() | (if d.in_order_delivery {
        IN_ORDER_BIT
    } else {
        0u32
    }) | d.message_number.0
}

/// The bytes of a data packet: four header words, then the payload.
pub open spec fn spec_serialize_data(d: DataPacketModel) -> Seq<u8> {
    spec_u32_to_bytes(d.seq_number.0) + (spec_u32_to_bytes(spec_data_word1(d)) + (spec_u32_to_bytes(
        d.timestamp as u32,
    ) + (spec_u32_to_bytes(d.dest_sockid.0) + d.payload)))
}

/// The bytes of an optional trailing ACK field: four or none.
pub open spec fn spec_opt_bytes(v: Option<i32>) -> Seq<u8> {
    match v {
        Some(x) => spec_u32_to_bytes(x as u32),
        None => Seq::<u8>::empty(),
    }
}

/// The bytes of a sequence of words, each big-endian.
pub open spec fn spec_words_bytes(s: Seq<i32>) -> Seq<u8>
    decreases s.len(),
{
    if s.len() == 0 {
        Seq::<u8>::empty()
    } else {
        spec_u32_to_bytes(s[0] as u32) + spec_words_bytes(s.skip(1))
    }
}

/// The bytes of a handshake body: eight words, then the 16 address bytes.
pub open spec fn spec_serialize_handshake(h: HandshakeModel) -> Seq<u8> {
    spec_u32_to_bytes(h.udt_version as u32) + (spec_u32_to_bytes(h.sock_type.spec_to_i32() as u32)
        + (spec_u32_to_bytes(h.init_seq_num as u32) + (spec_u32_to_bytes(h.max_packet_size as u32)
        + (spec_u32_to_bytes(h.max_flow_size as u32) + (spec_u32_to_bytes(
        h.connection_type.spec_to_i32() as u32,
    ) + (spec_u32_to_bytes(h.socket_id.0) + (spec_u32_to_bytes(h.syn_cookie as u32)
        + h.peer_addr)))))))
}

/// The bytes of an ACK body: `recvd_until`, then whichever optional fields
/// are present, in order.
pub open spec fn spec_serialize_ack(a: AckControlInfo) -> Seq<u8> {
    spec_u32_to_bytes(a.recvd_until as u32) + (spec_opt_bytes(a.rtt) + (spec_opt_bytes(
        a.rtt_variance,
    ) + (spec_opt_bytes(a.buffer_available) + (spec_opt_bytes(a.packet_recv_rate) + spec_opt_bytes(
        a.est_link_cap,
    )))))
}

/// The type code of a control packet.
pub open spec fn spec_control_id(ct: ControlTypesModel) -> u8 {
    match ct {
        ControlTypesModel::Handshake(_) => 0u8,
        ControlTypesModel::KeepAlive => 1u8,
        ControlTypesModel::Ack(_, _) => 2u8,
        ControlTypesModel::Nak(_) => 3u8,
        ControlTypesModel::Shutdown => 5u8,
        ControlTypesModel::Ack2(_) => 6u8,
        ControlTypesModel::DropRequest(_, _) => 7u8,
    }
}

/// The additional-info word of a control packet; zero where the type does
/// not use it.
pub open spec fn spec_control_add_info(ct: ControlTypesModel) -> i32 {
    match ct {
        ControlTypesModel::Ack(s, _) => s,
        ControlTypesModel::Ack2(s) => s,
        ControlTypesModel::DropRequest(s, _) => s,
        _ => 0i32,
    }
}

/// The body bytes of a control packet.
pub open spec fn spec_serialize_control_body(ct: ControlTypesModel) -> Seq<u8> {
    match ct {
        ControlTypesModel::Handshake(h) => spec_serialize_handshake(h),
        ControlTypesModel::KeepAlive => Seq::<u8>::empty(),
        ControlTypesModel::Ack(_, a) => spec_serialize_ack(a),
        ControlTypesModel::Nak(words) => spec_words_bytes(words),
        ControlTypesModel::Shutdown => Seq::<u8>::empty(),
        ControlTypesModel::Ack2(_) => Seq::<u8>::empty(),
        ControlTypesModel::DropRequest(_, d) => spec_u32_to_bytes(d.first as u32)
            + spec_u32_to_bytes(d.last as u32),
    }
}

/// The bytes of a whole packet.
/// The bytes of a control packet: four header words, then the body.
pub open spec fn spec_serialize_control(c: ControlPacketModel) -> Seq<u8> {
    spec_u32_to_bytes(0x8000_0000u32 | ((spec_control_id(c.control_type) as u32) << 16)) + (
    spec_u32_to_bytes(spec_control_add_info(c.control_type) as u32) + (spec_u32_to_bytes(
        c.timestamp as u32,
    ) + (spec_u32_to_bytes(c.dest_sockid.0) + spec_serialize_control_body(c.control_type))))
}

pub open spec fn spec_serialize(p: PacketModel) -> Seq<u8> {
    match p {
        PacketModel::Data(d) => spec_serialize_data(d),
        PacketModel::Control(c) => spec_serialize_control(c),
    }
}

/// The optional ACK field read at byte offset `i`: present exactly when at
/// least four bytes remain there.
pub open spec fn spec_opt_word(b: Seq<u8>, i: int) -> Option<i32> {
    if b.len() >= i + 4 {
        Some(word_at(b, i) as i32)
    } else {
        None
    }
}

/// All the words of a byte string whose length is a multiple of four.
pub open spec fn spec_words_of(b: Seq<u8>) -> Seq<i32> {
    Seq::new((b.len() / 4) as nat, |i: int| word_at(b, 4 * i) as i32)
}

/// What a control body means, given the type code and additional-info word.
pub open spec fn spec_parse_control(type_byte: u8, add_info: i32, body: Seq<u8>) -> Result<
    ControlTypesModel,
    PacketError,
> {
    if type_byte == 0 {
        if body.len() < 48 {
            Err(PacketError::ShortHeader)
        } else {
            match (
                spec_socket_type(word_at(body, 4) as i32),
                spec_connection_type(word_at(body, 20) as i32),
            ) {
                (Some(st), Some(ct)) => Ok(
                    ControlTypesModel::Handshake(
                        HandshakeModel {
                            udt_version: word_at(body, 0) as i32,
                            sock_type: st,
                            init_seq_num: word_at(body, 8) as i32,
                            max_packet_size: word_at(body, 12) as i32,
                            max_flow_size: word_at(body, 16) as i32,
                            connection_type: ct,
                            socket_id: SocketID(word_at(body, 24)),
                            syn_cookie: word_at(body, 28) as i32,
                            peer_addr: body.subrange(32, 48),
                        },
                    ),
                ),
                _ => Err(PacketError::BadEnum),
            }
        }
    } else if type_byte == 1 {
        Ok(ControlTypesModel::KeepAlive)
    } else if type_byte == 2 {
        if body.len() < 4 {
            Err(PacketError::ShortHeader)
        } else {
            Ok(
                ControlTypesModel::Ack(
                    add_info,
                    AckControlInfo {
                        recvd_until: word_at(body, 0) as i32,
                        rtt: spec_opt_word(body, 4),
                        rtt_variance: spec_opt_word(body, 8),
                        buffer_available: spec_opt_word(body, 12),
                        packet_recv_rate: spec_opt_word(body, 16),
                        est_link_cap: spec_opt_word(body, 20),
                    },
                ),
            )
        }
    } else if type_byte == 3 {
        if body.len() % 4 != 0 {
            Err(PacketError::ShortHeader)
        } else {
            Ok(ControlTypesModel::Nak(spec_words_of(body)))
        }
    } else if type_byte == 5 {
        Ok(ControlTypesModel::Shutdown)
    } else if type_byte == 6 {
        Ok(ControlTypesModel::Ack2(add_info))
    } else if type_byte == 7 {
        if body.len() < 8 {
            Err(PacketError::ShortHeader)
        } else {
            Ok(
                ControlTypesModel::DropRequest(
                    add_info,
                    DropRequestControlInfo {
                        first: word_at(body, 0) as i32,
                        last: word_at(body, 4) as i32,
                    },
                ),
            )
        }
    } else {
        Err(PacketError::UnknownControl)
    }
}

/// What a datagram means: the packet it spells, or why it is malformed.
pub open spec fn spec_parse(b: Seq<u8>) -> Result<PacketModel, PacketError> {
    if b.len() < 16 {
        Err(PacketError::ShortHeader)
    } else if b[0] & 0x80 == 0 {
        Ok(
            PacketModel::Data(
                DataPacketModel {
                    seq_number: SeqNumber(word_at(b, 0)),
                    message_loc: PacketLocation::spec_from_word(word_at(b, 4)),
                    in_order_delivery: (word_at(b, 4) >> 29) & 1 == 1,
                    message_number: MsgNumber(word_at(b, 4) & MSG_NUMBER_MASK),
                    timestamp: word_at(b, 8) as i32,
                    dest_sockid: SocketID(word_at(b, 12)),
                    payload: b.skip(16),
                },
            ),
        )
    } else {
        match spec_parse_control(b[1], word_at(b, 4) as i32, b.skip(16)) {
            Ok(ct) => Ok(
                PacketModel::Control(
                    ControlPacketModel {
                        timestamp: word_at(b, 8) as i32,
                        dest_sockid: SocketID(word_at(b, 12)),
                        control_type: ct,
                    },
                ),
            ),
            Err(e) => Err(e),
        }
    }
}

/// The optional ACK fields are present only as a prefix: once one is
/// absent, so are all the later ones.
pub open spec fn spec_ack_options_prefix(a: AckControlInfo) -> bool {
    &&& (a.rtt is None ==> a.rtt_variance is None)
    &&& (a.rtt_variance is None ==> a.buffer_available is None)
    &&& (a.buffer_available is None ==> a.packet_recv_rate is None)
    &&& (a.packet_recv_rate is None ==> a.est_link_cap is None)
}

/// A packet that can go on the wire and come back unchanged: sequence and
/// message numbers fit their bit widths, a handshake carries exactly 16
/// address bytes, and ACK options form a prefix.
pub open spec fn spec_wf_packet(p: PacketModel) -> bool {
    match p {
        PacketModel::Data(d) => d.seq_number.wf() && d.message_number.wf(),
        PacketModel::Control(c) => match c.control_type {
            ControlTypesModel::Handshake(h) => h.peer_addr.len() == 16,
            ControlTypesModel::Ack(_, a) => spec_ack_options_prefix(a),
            _ => true,
        },
    }
}

// ---------------------------------------------------------------------------
// Executable codec, proved to match the spec functions above.
// ---------------------------------------------------------------------------

/// Reinterpreting an unsigned word as signed and back changes nothing.
pub proof fn lemma_u32_i32_roundtrip(x: u32)
    ensures
        (x as i32) as u32 == x,
{
    assert((x as i32) as u32 == x) by (bit_vector);
}

/// Concatenation of the four header words and a body is the same read left
/// to right or nested to the right.
proof fn lemma_assoc5(base: Seq<u8>, w0: Seq<u8>, w1: Seq<u8>, w2: Seq<u8>, w3: Seq<u8>, body: Seq<u8>)
    ensures
        ((((base + w0) + w1) + w2) + w3) + body == base + (w0 + (w1 + (w2 + (w3 + body)))),
{
    assert(((((base + w0) + w1) + w2) + w3) + body =~= base + (w0 + (w1 + (w2 + (w3 + body)))));
}

/// As `lemma_assoc5`, for a word and five more pieces.
proof fn lemma_assoc6(
    base: Seq<u8>,
    w0: Seq<u8>,
    w1: Seq<u8>,
    w2: Seq<u8>,
    w3: Seq<u8>,
    w4: Seq<u8>,
    w5: Seq<u8>,
)
    ensures
        (((((base + w0) + w1) + w2) + w3) + w4) + w5 == base + (w0 + (w1 + (w2 + (w3 + (w4
            + w5))))),
{
    assert((((((base + w0) + w1) + w2) + w3) + w4) + w5 =~= base + (w0 + (w1 + (w2 + (w3 + (w4
        + w5))))));
}

/// As `lemma_assoc5`, for eight words and a tail.
proof fn lemma_assoc9(
    base: Seq<u8>,
    w0: Seq<u8>,
    w1: Seq<u8>,
    w2: Seq<u8>,
    w3: Seq<u8>,
    w4: Seq<u8>,
    w5: Seq<u8>,
    w6: Seq<u8>,
    w7: Seq<u8>,
    tail: Seq<u8>,
)
    ensures
        ((((((((base + w0) + w1) + w2) + w3) + w4) + w5) + w6) + w7) + tail == base + (w0 + (w1 + (
        w2 + (w3 + (w4 + (w5 + (w6 + (w7 + tail)))))))),
{
    assert(((((((((base + w0) + w1) + w2) + w3) + w4) + w5) + w6) + w7) + tail =~= base + (w0 + (w1
        + (w2 + (w3 + (w4 + (w5 + (w6 + (w7 + tail)))))))));
}

/// One step of `spec_words_bytes` along a prefix.
proof fn lemma_words_bytes_snoc(s: Seq<i32>, i: int)
    requires
        0 <= i < s.len(),
    ensures
        spec_words_bytes(s.take(i + 1)) == spec_words_bytes(s.take(i)) + spec_u32_to_bytes(
            s[i] as u32,
        ),
    decreases i,
{
    if i == 0 {
        assert(s.take(1) =~= seq![s[0]]);
        assert(s.take(1).skip(1) =~= Seq::<i32>::empty());
        assert(spec_words_bytes(Seq::<i32>::empty()) =~= Seq::<u8>::empty());
        assert(spec_words_bytes(s.take(1)) =~= spec_u32_to_bytes(s[0] as u32));
        assert(spec_words_bytes(s.take(0)) + spec_u32_to_bytes(s[0] as u32) =~= spec_u32_to_bytes(
            s[0] as u32,
        ));
    } else {
        lemma_words_bytes_snoc(s.skip(1), i - 1);
        assert(s.take(i + 1).skip(1) =~= s.skip(1).take(i));
        assert(s.take(i).skip(1) =~= s.skip(1).take(i - 1));
        assert(spec_words_bytes(s.take(i + 1)) == spec_u32_to_bytes(s[0] as u32)
            + spec_words_bytes(s.skip(1).take(i)));
        assert(spec_words_bytes(s.take(i)) == spec_u32_to_bytes(s[0] as u32) + spec_words_bytes(
            s.skip(1).take(i - 1),
        ));
        assert(s.skip(1)[i - 1] == s[i]);
        assert(spec_words_bytes(s.take(i + 1)) =~= spec_words_bytes(s.take(i)) + spec_u32_to_bytes(
            s[i] as u32,
        ));
    }
}

impl ControlTypes {
    /// Reads a control body, given the type code from the header's second
    /// byte and the additional-info word.
    pub fn deserialize(packet_type: u8, extra_info: i32, buf: &[u8]) -> (r: Result<
        ControlTypes,
        PacketError,
    >)
        ensures
            match r {
                Ok(ct) => spec_parse_control(packet_type, extra_info, buf@) == Ok::<
                    ControlTypesModel,
                    PacketError,
                >(ct@),
                Err(e) => spec_parse_control(packet_type, extra_info, buf@) == Err::<
                    ControlTypesModel,
                    PacketError,
                >(e),
            },
    {
        if packet_type == 0 {
            // Handshake
            if buf.len() < 48 {
                return Err(PacketError::ShortHeader);
            }
            let udt_version = read_u32_be(buf, 0) as i32;
            let sock_type_raw = read_u32_be(buf, 4) as i32;
            let init_seq_num = read_u32_be(buf, 8) as i32;
            let max_packet_size = read_u32_be(buf, 12) as i32;
            let max_flow_size = read_u32_be(buf, 16) as i32;
            let connection_type_raw = read_u32_be(buf, 20) as i32;
            let socket_id = read_u32_be(buf, 24);
            let syn_cookie = read_u32_be(buf, 28) as i32;
            let sock_type = match SocketType::from_i32(sock_type_raw) {
                Ok(t) => t,
                Err(e) => {
                    return Err(e);
                },
            };
            let connection_type = match ConnectionType::from_i32(connection_type_raw) {
                Ok(t) => t,
                Err(e) => {
                    return Err(e);
                },
            };
            let peer_addr = slice_to_vec(slice_subrange(buf, 32, 48));
            let info = HandshakeControlInfo {
                udt_version,
                sock_type,
                init_seq_num,
                max_packet_size,
                max_flow_size,
                connection_type,
                socket_id: SocketID(socket_id),
                syn_cookie,
                peer_addr,
            };
            proof {
                assert(spec_parse_control(packet_type, extra_info, buf@) matches Ok(m) && m =~= ControlTypesModel::Handshake(info@));
            }
            Ok(ControlTypes::Handshake(info))
        } else if packet_type == 1 {
            Ok(ControlTypes::KeepAlive)
        } else if packet_type == 2 {
            // ACK; everything past recvd_until is optional.
            if buf.len() < 4 {
                return Err(PacketError::ShortHeader);
            }
            let recvd_until = read_u32_be(buf, 0) as i32;
            let rtt = if buf.len() >= 8 {
                Some(read_u32_be(buf, 4) as i32)
            } else {
                None
            };
            let rtt_variance = if buf.len() >= 12 {
                Some(read_u32_be(buf, 8) as i32)
            } else {
                None
            };
            let buffer_available = if buf.len() >= 16 {
                Some(read_u32_be(buf, 12) as i32)
            } else {
                None
            };
            let packet_recv_rate = if buf.len() >= 20 {
                Some(read_u32_be(buf, 16) as i32)
            } else {
                None
            };
            let est_link_cap = if buf.len() >= 24 {
                Some(read_u32_be(buf, 20) as i32)
            } else {
                None
            };
            Ok(
                ControlTypes::Ack(
                    extra_info,
                    AckControlInfo {
                        recvd_until,
                        rtt,
                        rtt_variance,
                        buffer_available,
                        packet_recv_rate,
                        est_link_cap,
                    },
                ),
            )
        } else if packet_type == 3 {
            // NAK: the body is a whole number of loss-list words.
            if buf.len() % 4 != 0 {
                return Err(PacketError::ShortHeader);
            }
            let n = buf.len() / 4;
            proof {
                vstd::arithmetic::div_mod::lemma_fundamental_div_mod(buf@.len() as int, 4);
            }
            let mut loss_info: Vec<i32> = Vec::new();
            let mut i: usize = 0;
            while i < n
                invariant
                    n == buf@.len() / 4,
                    4 * n == buf@.len(),
                    buf@.len() <= usize::MAX,
                    buf@.len() % 4 == 0,
                    i <= n,
                    loss_info@.len() == i,
                    forall|j: int| 0 <= j < i ==> loss_info@[j] == word_at(buf@, 4 * j) as i32,
                decreases n - i,
            {
                loss_info.push(read_u32_be(buf, 4 * i) as i32);
                i = i + 1;
            }
            proof {
                assert(loss_info@ =~= spec_words_of(buf@));
            }
            Ok(ControlTypes::Nak(NakControlInfo { loss_info }))
        } else if packet_type == 5 {
            Ok(ControlTypes::Shutdown)
        } else if packet_type == 6 {
            Ok(ControlTypes::Ack2(extra_info))
        } else if packet_type == 7 {
            // Drop request
            if buf.len() < 8 {
                return Err(PacketError::ShortHeader);
            }
            let first = read_u32_be(buf, 0) as i32;
            let last = read_u32_be(buf, 4) as i32;
            Ok(ControlTypes::DropRequest(extra_info, DropRequestControlInfo { first, last }))
        } else {
            Err(PacketError::UnknownControl)
        }
    }

    /// This control type's code on the wire.
    pub fn id_byte(&self) -> (r: u8)
        ensures
            r == spec_control_id(self@),
    {
        match self {
            ControlTypes::Handshake(_) => 0x0,
            ControlTypes::KeepAlive => 0x1,
            ControlTypes::Ack(_, _) => 0x2,
            ControlTypes::Nak(_) => 0x3,
            ControlTypes::Shutdown => 0x5,
            ControlTypes::Ack2(_) => 0x6,
            ControlTypes::DropRequest(_, _) => 0x7,
        }
    }

    /// The additional-info word this control type puts in the header.
    pub fn add_info(&self) -> (r: i32)
        ensures
            r == spec_control_add_info(self@),
    {
        match self {
            ControlTypes::Ack(i, _) => *i,
            ControlTypes::Ack2(i) => *i,
            ControlTypes::DropRequest(i, _) => *i,
            _ => 0i32,
        }
    }

    /// Appends this control type's body bytes.
    pub fn serialize(&self, into: &mut Vec<u8>)
        ensures
            final(into)@ == old(into)@ + spec_serialize_control_body(self@),
    {
        match self {
            ControlTypes::Handshake(c) => serialize_handshake_body(c, into),
            ControlTypes::KeepAlive => {
                proof {
                    assert(into@ =~= old(into)@ + Seq::<u8>::empty());
                }
            },
            ControlTypes::Ack(_, a) => serialize_ack_body(a, into),
            ControlTypes::Nak(n) => serialize_nak_body(n, into),
            ControlTypes::Shutdown => {
                proof {
                    assert(into@ =~= old(into)@ + Seq::<u8>::empty());
                }
            },
            ControlTypes::Ack2(_) => {
                proof {
                    assert(into@ =~= old(into)@ + Seq::<u8>::empty());
                }
            },
            ControlTypes::DropRequest(_, d) => {
                write_u32_be(into, d.first as u32);
                write_u32_be(into, d.last as u32);
                proof {
                    assert(into@ =~= old(into)@ + (spec_u32_to_bytes(d.first as u32)
                        + spec_u32_to_bytes(d.last as u32)));
                }
            },
        }
    }
}

/// Appends a handshake body: the eight words, then the 16 address bytes.
fn serialize_handshake_body(c: &HandshakeControlInfo, into: &mut Vec<u8>)
    ensures
        final(into)@ == old(into)@ + spec_serialize_handshake(c@),
{
    write_u32_be(into, c.udt_version as u32);
    write_u32_be(into, c.sock_type.to_i32() as u32);
    write_u32_be(into, c.init_seq_num as u32);
    write_u32_be(into, c.max_packet_size as u32);
    write_u32_be(into, c.max_flow_size as u32);
    write_u32_be(into, c.connection_type.to_i32() as u32);
    write_u32_be(into, c.socket_id.0);
    write_u32_be(into, c.syn_cookie as u32);
    append_bytes(into, c.peer_addr.as_slice());
    proof {
        let w0 = spec_u32_to_bytes(c.udt_version as u32);
        let w1 = spec_u32_to_bytes(c.sock_type.spec_to_i32() as u32);
        let w2 = spec_u32_to_bytes(c.init_seq_num as u32);
        let w3 = spec_u32_to_bytes(c.max_packet_size as u32);
        let w4 = spec_u32_to_bytes(c.max_flow_size as u32);
        let w5 = spec_u32_to_bytes(c.connection_type.spec_to_i32() as u32);
        let w6 = spec_u32_to_bytes(c.socket_id.0);
        let w7 = spec_u32_to_bytes(c.syn_cookie as u32);
        let addr = c.peer_addr@;
        assert(into@ == ((((((((old(into)@ + w0) + w1) + w2) + w3) + w4) + w5) + w6) + w7) + addr);
        lemma_assoc9(old(into)@, w0, w1, w2, w3, w4, w5, w6, w7, addr);
    }
}

/// Appends an ACK body: `recvd_until`, then the optional fields present.
fn serialize_ack_body(a: &AckControlInfo, into: &mut Vec<u8>)
    ensures
        final(into)@ == old(into)@ + spec_serialize_ack(*a),
{
    let ghost base = into@;
    write_u32_be(into, a.recvd_until as u32);
    let ghost s0 = into@;
    if let Some(x) = a.rtt {
        write_u32_be(into, x as u32);
    }
    proof {
        assert(into@ =~= s0 + spec_opt_bytes(a.rtt));
    }
    let ghost s1 = into@;
    if let Some(x) = a.rtt_variance {
        write_u32_be(into, x as u32);
    }
    proof {
        assert(into@ =~= s1 + spec_opt_bytes(a.rtt_variance));
    }
    let ghost s2 = into@;
    if let Some(x) = a.buffer_available {
        write_u32_be(into, x as u32);
    }
    proof {
        assert(into@ =~= s2 + spec_opt_bytes(a.buffer_available));
    }
    let ghost s3 = into@;
    if let Some(x) = a.packet_recv_rate {
        write_u32_be(into, x as u32);
    }
    proof {
        assert(into@ =~= s3 + spec_opt_bytes(a.packet_recv_rate));
    }
    let ghost s4 = into@;
    if let Some(x) = a.est_link_cap {
        write_u32_be(into, x as u32);
    }
    proof {
        assert(into@ =~= s4 + spec_opt_bytes(a.est_link_cap));
        let w0 = spec_u32_to_bytes(a.recvd_until as u32);
        let o1 = spec_opt_bytes(a.rtt);
        let o2 = spec_opt_bytes(a.rtt_variance);
        let o3 = spec_opt_bytes(a.buffer_available);
        let o4 = spec_opt_bytes(a.packet_recv_rate);
        let o5 = spec_opt_bytes(a.est_link_cap);
        assert(into@ == (((((base + w0) + o1) + o2) + o3) + o4) + o5);
        lemma_assoc6(base, w0, o1, o2, o3, o4, o5);
    }
}

/// Appends a NAK body: each loss-list word, big-endian.
fn serialize_nak_body(n: &NakControlInfo, into: &mut Vec<u8>)
    ensures
        final(into)@ == old(into)@ + spec_words_bytes(n.loss_info@),
{
    let len = n.loss_info.len();
    let mut i: usize = 0;
    while i < len
        invariant
            len == n.loss_info@.len(),
            i <= len,
            into@ == old(into)@ + spec_words_bytes(n.loss_info@.take(i as int)),
        decreases len - i,
    {
        write_u32_be(into, n.loss_info[i] as u32);
        proof {
            lemma_words_bytes_snoc(n.loss_info@, i as int);
            assert(into@ =~= old(into)@ + spec_words_bytes(n.loss_info@.take(i + 1 as int)));
        }
        i = i + 1;
    }
    proof {
        assert(n.loss_info@.take(len as int) =~= n.loss_info@);
    }
}

impl Packet {
    /// Reads one datagram as a packet, or says why it is malformed: exactly
    /// what `spec_parse` gives on these bytes.
    pub fn parse(buf: &[u8]) -> (r: Result<Packet, PacketError>)
        ensures
            match r {
                Ok(p) => spec_parse(buf@) == Ok::<PacketModel, PacketError>(p@),
                Err(e) => spec_parse(buf@) == Err::<PacketModel, PacketError>(e),
            },
    {
        // The fixed header is 16 bytes.
        if buf.len() < 16 {
            return Err(PacketError::ShortHeader);
        }
        if buf[0] & 0x80 == 0 {
            // Data packet: the first word is the sequence number itself.
            let w0 = read_u32_be(buf, 0);
            let w1 = read_u32_be(buf, 4);
            let w2 = read_u32_be(buf, 8);
            let w3 = read_u32_be(buf, 12);
            let payload = slice_to_vec(slice_subrange(buf, 16, buf.len()));
            let message_loc = PacketLocation::from_i32(w1 as i32);
            proof {
                lemma_u32_i32_roundtrip(w1);
            }
            let p = DataPacket {
                seq_number: SeqNumber(w0),
                message_loc,
                in_order_delivery: ((w1 >> 29) & 1) == 1,
                message_number: MsgNumber(w1 & MSG_NUMBER_MASK),
                timestamp: w2 as i32,
                dest_sockid: SocketID(w3),
                payload,
            };
            proof {
                assert(spec_parse(buf@) matches Ok(m) && m =~= PacketModel::Data(p@));
            }
            Ok(Packet::Data(p))
        } else {
            // Control packet: type in the second byte, then the body.
            let add_info = read_u32_be(buf, 4) as i32;
            let timestamp = read_u32_be(buf, 8) as i32;
            let dest_sockid = SocketID(read_u32_be(buf, 12));
            let body = slice_subrange(buf, 16, buf.len());
            proof {
                assert(body@ =~= buf@.skip(16));
            }
            match ControlTypes::deserialize(buf[1], add_info, body) {
                Ok(control_type) => {
                    let p = ControlPacket { timestamp, dest_sockid, control_type };
                    proof {
                        assert(spec_parse(buf@) matches Ok(m) && m =~= PacketModel::Control(p@));
                    }
                    Ok(Packet::Control(p))
                },
                Err(e) => Err(e),
            }
        }
    }

    /// Appends this packet's wire bytes: exactly `spec_serialize` of it.
    pub fn serialize(&self, into: &mut Vec<u8>)
        ensures
            final(into)@ == old(into)@ + spec_serialize(self@),
    {
        match self {
            Packet::Control(c) => serialize_control_packet(c, into),
            Packet::Data(d) => serialize_data_packet(d, into),
        }
    }
}

/// Appends a data packet's wire bytes.
fn serialize_data_packet(d: &DataPacket, into: &mut Vec<u8>)
    ensures
        final(into)@ == old(into)@ + spec_serialize_data(d@),
{
    let loc_word = d.message_loc.to_i32() as u32;
    write_u32_be(into, d.seq_number.0);
    write_u32_be(
        into,
        loc_word | (if d.in_order_delivery {
            IN_ORDER_BIT
        } else {
            0u32
        }) | d.message_number.0,
    );
    write_u32_be(into, d.timestamp as u32);
    write_u32_be(into, d.dest_sockid.0);
    append_bytes(into, d.payload.as_slice());
    proof {
        let w0 = spec_u32_to_bytes(d.seq_number.0);
        let w1 = spec_u32_to_bytes(spec_data_word1(d@));
        let w2 = spec_u32_to_bytes(d.timestamp as u32);
        let w3 = spec_u32_to_bytes(d.dest_sockid.0);
        let body = d.payload@;
        assert(into@ == ((((old(into)@ + w0) + w1) + w2) + w3) + body);
        lemma_assoc5(old(into)@, w0, w1, w2, w3, body);
    }
}

/// Appends a control packet's wire bytes. The first word carries the
/// control bit, then the type code in the high byte of the 15-bit type
/// field, then 16 reserved zero bits.
fn serialize_control_packet(c: &ControlPacket, into: &mut Vec<u8>)
    ensures
        final(into)@ == old(into)@ + spec_serialize_control(c@),
{
    write_u32_be(into, 0x8000_0000u32 | ((c.control_type.id_byte() as u32) << 16));
    write_u32_be(into, c.control_type.add_info() as u32);
    write_u32_be(into, c.timestamp as u32);
    write_u32_be(into, c.dest_sockid.0);
    c.control_type.serialize(into);
    proof {
        let w0 = spec_u32_to_bytes(
            0x8000_0000u32 | ((spec_control_id(c.control_type@) as u32) << 16),
        );
        let w1 = spec_u32_to_bytes(spec_control_add_info(c.control_type@) as u32);
        let w2 = spec_u32_to_bytes(c.timestamp as u32);
        let w3 = spec_u32_to_bytes(c.dest_sockid.0);
        let body = spec_serialize_control_body(c.control_type@);
        assert(into@ == ((((old(into)@ + w0) + w1) + w2) + w3) + body);
        lemma_assoc5(old(into)@, w0, w1, w2, w3, body);
    }
}

// ---------------------------------------------------------------------------
// Round trip: parsing undoes serializing, for every well-formed packet.
// ---------------------------------------------------------------------------

/// Peels four words off the front of a byte string built as four words and
/// a tail.
proof fn lemma_header4(b: Seq<u8>, w0: u32, w1: u32, w2: u32, w3: u32, rest: Seq<u8>)
    requires
        b == spec_u32_to_bytes(w0) + (spec_u32_to_bytes(w1) + (spec_u32_to_bytes(w2) + (
        spec_u32_to_bytes(w3) + rest))),
    ensures
        b.len() == 16 + rest.len(),
        word_at(b, 0) == w0,
        word_at(b, 4) == w1,
        word_at(b, 8) == w2,
        word_at(b, 12) == w3,
        b.skip(16) == rest,
        b[0] == (w0 >> 24) as u8,
        b[1] == ((w0 >> 16) & 0xff) as u8,
{
    let r1 = spec_u32_to_bytes(w1) + (spec_u32_to_bytes(w2) + (spec_u32_to_bytes(w3) + rest));
    let r2 = spec_u32_to_bytes(w2) + (spec_u32_to_bytes(w3) + rest);
    let r3 = spec_u32_to_bytes(w3) + rest;
    lemma_chunk4(w0, r1);
    lemma_chunk4(w1, r2);
    lemma_chunk4(w2, r3);
    lemma_chunk4(w3, rest);
    lemma_word_at_skip(b, 4, 4);
    lemma_word_at_skip(b, 4, 8);
    lemma_word_at_skip(b, 4, 12);
    lemma_word_at_skip(r1, 4, 4);
    lemma_word_at_skip(r1, 4, 8);
    lemma_word_at_skip(r2, 4, 4);
    assert(b.skip(16) =~= rest);
    assert(b[1] == ((w0 >> 16) & 0xff) as u8);
}

/// The words of a word-list body come back one by one.
proof fn lemma_words_roundtrip(s: Seq<i32>)
    ensures
        spec_words_bytes(s).len() == 4 * s.len(),
        forall|i: int|
            0 <= i < s.len() ==> word_at(spec_words_bytes(s), 4 * i) == #[trigger] (s[i] as u32),
    decreases s.len(),
{
    if s.len() > 0 {
        let tail = s.skip(1);
        lemma_words_roundtrip(tail);
        lemma_chunk4(s[0] as u32, spec_words_bytes(tail));
        assert forall|i: int| 0 <= i < s.len() implies word_at(spec_words_bytes(s), 4 * i)
            == #[trigger] (s[i] as u32) by {
            if i > 0 {
                lemma_word_at_skip(spec_words_bytes(s), 4, 4 * i);
                assert(word_at(spec_words_bytes(tail), 4 * (i - 1)) == tail[i - 1] as u32);
                assert(tail[i - 1] == s[i]);
            }
        }
    }
}

/// A serialized ACK body parses back to the same ACK, given that its
/// optional fields form a prefix.
proof fn lemma_ack_body_roundtrip(a: AckControlInfo)
    requires
        spec_ack_options_prefix(a),
    ensures
        spec_serialize_ack(a).len() >= 4,
        word_at(spec_serialize_ack(a), 0) == a.recvd_until as u32,
        spec_opt_word(spec_serialize_ack(a), 4) == a.rtt,
        spec_opt_word(spec_serialize_ack(a), 8) == a.rtt_variance,
        spec_opt_word(spec_serialize_ack(a), 12) == a.buffer_available,
        spec_opt_word(spec_serialize_ack(a), 16) == a.packet_recv_rate,
        spec_opt_word(spec_serialize_ack(a), 20) == a.est_link_cap,
{
    let b = spec_serialize_ack(a);
    let w = a.recvd_until as u32;
    if a.rtt is None {
        assert(b =~= spec_u32_to_bytes(w) + Seq::<u8>::empty());
        lemma_chunk4(w, Seq::<u8>::empty());
    } else {
        let v1 = a.rtt->0 as u32;
        if a.rtt_variance is None {
            let r1 = spec_u32_to_bytes(v1) + Seq::<u8>::empty();
            assert(b =~= spec_u32_to_bytes(w) + r1);
            lemma_chunk4(w, r1);
            lemma_chunk4(v1, Seq::<u8>::empty());
            lemma_word_at_skip(b, 4, 4);
            lemma_i32_u32_roundtrip(a.rtt->0);
        } else {
            let v2 = a.rtt_variance->0 as u32;
            if a.buffer_available is None {
                let r2 = spec_u32_to_bytes(v2) + Seq::<u8>::empty();
                let r1 = spec_u32_to_bytes(v1) + r2;
                assert(b =~= spec_u32_to_bytes(w) + r1);
                lemma_chunk4(w, r1);
                lemma_chunk4(v1, r2);
                lemma_chunk4(v2, Seq::<u8>::empty());
                lemma_word_at_skip(b, 4, 4);
                lemma_word_at_skip(b, 4, 8);
                lemma_word_at_skip(r1, 4, 4);
                lemma_i32_u32_roundtrip(a.rtt->0);
                lemma_i32_u32_roundtrip(a.rtt_variance->0);
            } else {
                let v3 = a.buffer_available->0 as u32;
                if a.packet_recv_rate is None {
                    let r3 = spec_u32_to_bytes(v3) + Seq::<u8>::empty();
                    let r2 = spec_u32_to_bytes(v2) + r3;
                    let r1 = spec_u32_to_bytes(v1) + r2;
                    assert(b =~= spec_u32_to_bytes(w) + r1);
                    lemma_chunk4(w, r1);
                    lemma_chunk4(v1, r2);
                    lemma_chunk4(v2, r3);
                    lemma_chunk4(v3, Seq::<u8>::empty());
                    lemma_word_at_skip(b, 4, 4);
                    lemma_word_at_skip(b, 4, 8);
                    lemma_word_at_skip(b, 4, 12);
                    lemma_word_at_skip(r1, 4, 4);
                    lemma_word_at_skip(r1, 4, 8);
                    lemma_word_at_skip(r2, 4, 4);
                    lemma_i32_u32_roundtrip(a.rtt->0);
                    lemma_i32_u32_roundtrip(a.rtt_variance->0);
                    lemma_i32_u32_roundtrip(a.buffer_available->0);
                } else {
                    let v4 = a.packet_recv_rate->0 as u32;
                    if a.est_link_cap is None {
                        let r4 = spec_u32_to_bytes(v4) + Seq::<u8>::empty();
                        let r3 = spec_u32_to_bytes(v3) + r4;
                        let r2 = spec_u32_to_bytes(v2) + r3;
                        let r1 = spec_u32_to_bytes(v1) + r2;
                        assert(b =~= spec_u32_to_bytes(w) + r1);
                        lemma_header4(b, w, v1, v2, v3, r4);
                        lemma_chunk4(v4, Seq::<u8>::empty());
                        lemma_word_at_skip(b, 16, 16);
                        lemma_i32_u32_roundtrip(a.rtt->0);
                        lemma_i32_u32_roundtrip(a.rtt_variance->0);
                        lemma_i32_u32_roundtrip(a.buffer_available->0);
                        lemma_i32_u32_roundtrip(a.packet_recv_rate->0);
                    } else {
                        let v5 = a.est_link_cap->0 as u32;
                        let r5 = spec_u32_to_bytes(v5);
                        let r4 = spec_u32_to_bytes(v4) + r5;
                        let r3 = spec_u32_to_bytes(v3) + r4;
                        let r2 = spec_u32_to_bytes(v2) + r3;
                        let r1 = spec_u32_to_bytes(v1) + r2;
                        assert(b =~= spec_u32_to_bytes(w) + r1);
                        lemma_header4(b, w, v1, v2, v3, r4);
                        lemma_chunk4(v4, r5);
                        assert(r5 =~= spec_u32_to_bytes(v5) + Seq::<u8>::empty());
                        lemma_chunk4(v5, Seq::<u8>::empty());
                        lemma_word_at_skip(b, 16, 16);
                        lemma_word_at_skip(b, 16, 20);
                        lemma_word_at_skip(r4, 4, 4);
                        lemma_i32_u32_roundtrip(a.rtt->0);
                        lemma_i32_u32_roundtrip(a.rtt_variance->0);
                        lemma_i32_u32_roundtrip(a.buffer_available->0);
                        lemma_i32_u32_roundtrip(a.packet_recv_rate->0);
                        lemma_i32_u32_roundtrip(a.est_link_cap->0);
                    }
                }
            }
        }
    }
}

/// A serialized handshake body parses back to the same handshake.
proof fn lemma_handshake_body_roundtrip(h: HandshakeModel)
    requires
        h.peer_addr.len() == 16,
    ensures
        spec_parse_control(0, 0, spec_serialize_handshake(h)) == Ok::<
            ControlTypesModel,
            PacketError,
        >(ControlTypesModel::Handshake(h)),
{
    let b = spec_serialize_handshake(h);
    let w0 = h.udt_version as u32;
    let w1 = h.sock_type.spec_to_i32() as u32;
    let w2 = h.init_seq_num as u32;
    let w3 = h.max_packet_size as u32;
    let w4 = h.max_flow_size as u32;
    let w5 = h.connection_type.spec_to_i32() as u32;
    let w6 = h.socket_id.0;
    let w7 = h.syn_cookie as u32;
    let r1 = spec_u32_to_bytes(w4) + (spec_u32_to_bytes(w5) + (spec_u32_to_bytes(w6) + (
    spec_u32_to_bytes(w7) + h.peer_addr)));
    lemma_header4(b, w0, w1, w2, w3, r1);
    lemma_header4(r1, w4, w5, w6, w7, h.peer_addr);
    lemma_word_at_skip(b, 16, 16);
    lemma_word_at_skip(b, 16, 20);
    lemma_word_at_skip(b, 16, 24);
    lemma_word_at_skip(b, 16, 28);
    lemma_i32_u32_roundtrip(h.udt_version);
    lemma_i32_u32_roundtrip(h.sock_type.spec_to_i32());
    lemma_i32_u32_roundtrip(h.init_seq_num);
    lemma_i32_u32_roundtrip(h.max_packet_size);
    lemma_i32_u32_roundtrip(h.max_flow_size);
    lemma_i32_u32_roundtrip(h.connection_type.spec_to_i32());
    lemma_i32_u32_roundtrip(h.syn_cookie);
    assert(b.subrange(32, 48) =~= h.peer_addr);
    assert(spec_parse_control(0, 0, b) matches Ok(m) && m =~= ControlTypesModel::Handshake(h));
}

/// A serialized control body parses back to the same control type, under
/// its own type code and additional-info word.
proof fn lemma_control_body_roundtrip(ct: ControlTypesModel)
    requires
        spec_wf_packet(
            PacketModel::Control(
                ControlPacketModel { timestamp: 0, dest_sockid: SocketID(0), control_type: ct },
            ),
        ),
    ensures
        spec_parse_control(
            spec_control_id(ct),
            spec_control_add_info(ct),
            spec_serialize_control_body(ct),
        ) == Ok::<ControlTypesModel, PacketError>(ct),
{
    match ct {
        ControlTypesModel::Handshake(h) => {
            lemma_handshake_body_roundtrip(h);
        },
        ControlTypesModel::KeepAlive => {},
        ControlTypesModel::Ack(s, a) => {
            lemma_ack_body_roundtrip(a);
            lemma_i32_u32_roundtrip(a.recvd_until);
            assert(spec_parse_control(2, s, spec_serialize_ack(a)) matches Ok(m) && m =~=
                ControlTypesModel::Ack(s, a));
        },
        ControlTypesModel::Nak(words) => {
            lemma_words_roundtrip(words);
            let b = spec_words_bytes(words);
            assert(b.len() % 4 == 0);
            assert forall|i: int| 0 <= i < words.len() implies #[trigger] spec_words_of(b)[i]
                == words[i] by {
                assert(word_at(b, 4 * i) == words[i] as u32);
                lemma_i32_u32_roundtrip(words[i]);
            }
            assert(spec_words_of(b) =~= words);
        },
        ControlTypesModel::Shutdown => {},
        ControlTypesModel::Ack2(_) => {},
        ControlTypesModel::DropRequest(s, d) => {
            let b = spec_u32_to_bytes(d.first as u32) + spec_u32_to_bytes(d.last as u32);
            lemma_chunk4(d.first as u32, spec_u32_to_bytes(d.last as u32));
            assert(b.skip(4) =~= spec_u32_to_bytes(d.last as u32) + Seq::<u8>::empty());
            lemma_chunk4(d.last as u32, Seq::<u8>::empty());
            lemma_word_at_skip(b, 4, 4);
            lemma_i32_u32_roundtrip(d.first);
            lemma_i32_u32_roundtrip(d.last);
            assert(spec_parse_control(7, s, b) matches Ok(m) && m =~=
                ControlTypesModel::DropRequest(s, d));
        },
    }
}

/// Parsing undoes serializing: every well-formed packet comes back from its
/// own wire bytes, field for field and byte for byte of payload.
pub proof fn lemma_parse_serialize_roundtrip(p: PacketModel)
    requires
        spec_wf_packet(p),
    ensures
        spec_parse(spec_serialize(p)) == Ok::<PacketModel, PacketError>(p),
{
    match p {
        PacketModel::Data(d) => {
            let b = spec_serialize_data(d);
            let s0 = d.seq_number.0;
            let w1 = spec_data_word1(d);
            lemma_header4(b, s0, w1, d.timestamp as u32, d.dest_sockid.0, d.payload);
            assert(((s0 >> 24) as u8) & 0x80u8 == 0) by (bit_vector)
                requires
                    s0 < 0x8000_0000u32,
            ;
            let locw = d.message_loc.spec_word();
            let obit: u32 = if d.in_order_delivery {
                IN_ORDER_BIT
            } else {
                0u32
            };
            let msg = d.message_number.0;
            assert((w1 >> 30 == locw >> 30) && ((w1 >> 29) & 1 == (if obit == 0x2000_0000u32 {
                1u32
            } else {
                0u32
            })) && (w1 & 0x1fff_ffffu32 == msg)) by (bit_vector)
                requires
                    w1 == locw | obit | msg,
                    msg < 0x2000_0000u32,
                    obit == 0x2000_0000u32 || obit == 0u32,
                    locw == 0u32 || locw == 0x4000_0000u32 || locw == 0x8000_0000u32 || locw
                        == 0xC000_0000u32,
            ;
            assert(0x8000_0000u32 >> 30 == 2 && 0u32 >> 30 == 0 && 0x4000_0000u32 >> 30 == 1
                && 0xC000_0000u32 >> 30 == 3) by (bit_vector);
            lemma_i32_u32_roundtrip(d.timestamp);
            assert(spec_parse(b) matches Ok(m) && m =~= p);
        },
        PacketModel::Control(c) => {
            let ct = c.control_type;
            let b = spec_serialize_control(c);
            let id = spec_control_id(ct);
            let w0 = 0x8000_0000u32 | ((id as u32) << 16);
            let body = spec_serialize_control_body(ct);
            lemma_header4(
                b,
                w0,
                spec_control_add_info(ct) as u32,
                c.timestamp as u32,
                c.dest_sockid.0,
                body,
            );
            assert((w0 >> 24) as u8 == 0x80u8 && ((w0 >> 16) & 0xff) as u8 == id && 0x80u8 & 0x80u8
                != 0) by (bit_vector)
                requires
                    w0 == 0x8000_0000u32 | ((id as u32) << 16),
            ;
            lemma_i32_u32_roundtrip(spec_control_add_info(ct));
            lemma_i32_u32_roundtrip(c.timestamp);
            lemma_control_body_roundtrip(ct);
            assert(spec_parse(b) matches Ok(m) && m =~= p);
        },
    }
}

} // verus!
