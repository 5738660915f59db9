//! The core of an SRT/UDT transport engine, with its behavior stated in
//! contracts and proved: wrap-around sequence and message numbers, the
//! bit-exact wire packet codec, NAK loss-list compression, the receive
//! window with timestamp-based delivery, the sender's segmentation and
//! retransmission bookkeeping, ACK accounting, the handshake decisions, and
//! the default congestion controller. Sockets, clocks and timers stay with
//! the caller: everything here is a function from plain values to plain
//! values.

use vstd::prelude::*;

pub mod congest_ctrl;
pub mod connection_settings;
pub mod loss_compression;
pub mod modular_num;
pub mod msg_number;
pub mod packet;
pub mod pending_connection;
pub mod receiver;
pub mod recv_buffer;
pub mod sender;
pub mod seq_number;

pub use crate::congest_ctrl::DefaultCongestCtrl;
pub use crate::connection_settings::ConnectionSettings;
pub use crate::msg_number::MsgNumber;
pub use crate::packet::{ControlPacket, DataPacket, Packet};
pub use crate::pending_connection::Connecting;
pub use crate::recv_buffer::ReceiveBuffer;
pub use crate::seq_number::SeqNumber;

verus! {

/// A 32-bit socket identifier assigned per endpoint at handshake time,
/// carried in every packet for UDP demultiplexing.
#[derive(Copy, Clone, Debug, Eq, PartialEq, Structural, Hash)]
pub struct SocketID(pub u32);

} // verus!
