//! What a finished handshake settles on. Frozen once agreed; everything the
//! receiver and sender pipelines need to run a connection.

use crate::seq_number::SeqNumber;
use crate::SocketID;
use vstd::prelude::*;

verus! {

/// The outcome of a handshake, immutable afterward. The peer's network
/// address is held by whatever owns the socket; the core works with the
/// identifiers and limits alone.
#[derive(Debug, Clone, Copy, PartialEq, Eq)]
pub struct ConnectionSettings {
    /// The peer's socket identifier; goes into every packet sent to it.
    pub remote_sockid: SocketID,
    /// This endpoint's own socket identifier.
    pub local_sockid: SocketID,
    /// The first data packet's sequence number.
    pub init_seq_num: SeqNumber,
    /// Largest packet either side will send, UDP/IP headers included.
    pub max_packet_size: i32,
    /// Largest number of packets allowed in flight.
    pub max_flow_window: i32,
    /// When the connection started, microseconds of the owner's clock;
    /// packet timestamps count from here.
    pub socket_start_time_us: i64,
    /// The configured play-out delay, microseconds.
    pub tsbpd_latency_us: i64,
}

impl ConnectionSettings {
    pub open spec fn wf(self) -> bool {
        &&& self.init_seq_num.wf()
        &&& self.max_packet_size > 0
        &&& self.max_flow_window > 0
        &&& self.tsbpd_latency_us >= 0
    }
}

} // verus!
