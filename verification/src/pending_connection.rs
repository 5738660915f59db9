//! The handshake: how a caller, a listener, and a rendezvous peer decide,
//! packet by packet, that a connection stands.
//!
//! Everything here is a decision: state and packet in, action and settings
//! out. Sending, timing and sockets stay with the owner of the UDP socket;
//! it performs each action and hands the answer back.
//!
//! A listener keeps no state for half-open connections: its first reply
//! carries a SYN cookie bound to the peer's address, a process-local secret
//! and the minute of the clock, and only a second handshake echoing a
//! cookie from the current or previous minute establishes anything.

use crate::connection_settings::ConnectionSettings;
use crate::packet::{
    append_bytes, spec_u32_to_bytes, write_u32_be, ConnectionType, HandshakeControlInfo,
    SocketType,
};
use crate::seq_number::SeqNumber;
use crate::SocketID;
use vstd::prelude::*;

verus! {

/// The UDT version this engine speaks.
pub const UDT_VERSION: i32 = 4;

/// FNV-1a offset basis, the cookie hash's starting value.
pub const FNV_OFFSET: u32 = 0x811c_9dc5;

/// FNV-1a prime, the cookie hash's multiplier.
pub const FNV_PRIME: u32 = 0x0100_0193;

/// One FNV-1a step: fold one byte into the running hash.
pub open spec fn spec_fnv_step(h: u32, b: u8) -> u32 {
    (((h ^ (b as u32)) * FNV_PRIME) % 0x1_0000_0000) as u32
}

/// FNV-1a over a byte string, starting from `h`.
pub open spec fn spec_fnv(bytes: Seq<u8>, h: u32) -> u32
    decreases bytes.len(),
{
    if bytes.len() == 0 {
        h
    } else {
        spec_fnv(bytes.skip(1), spec_fnv_step(h, bytes[0]))
    }
}

/// The bytes a SYN cookie is computed over: the peer's address and port,
/// the process secret, and the minute of the clock.
pub open spec fn spec_cookie_bytes(addr: Seq<u8>, port: u16, secret: u32, minute: u32) -> Seq<u8> {
    addr + seq![(port >> 8) as u8, (port & 0xff) as u8] + spec_u32_to_bytes(secret)
        + spec_u32_to_bytes(minute)
}

/// The SYN cookie for a peer at a given minute.
pub open spec fn spec_syn_cookie(addr: Seq<u8>, port: u16, secret: u32, minute: u32) -> i32 {
    spec_fnv(spec_cookie_bytes(addr, port, secret, minute), FNV_OFFSET) as i32
}

/// Computes the SYN cookie: FNV-1a over the peer's address and port, the
/// process secret, and the minute of the clock.
pub fn syn_cookie(addr: &Vec<u8>, port: u16, secret: u32, minute: u32) -> (r: i32)
    requires
        addr@.len() == 16,
    ensures
        r == spec_syn_cookie(addr@, port, secret, minute),
{
    let mut bytes: Vec<u8> = Vec::new();
    append_bytes(&mut bytes, addr.as_slice());
    bytes.push((port >> 8) as u8);
    bytes.push((port & 0xff) as u8);
    write_u32_be(&mut bytes, secret);
    write_u32_be(&mut bytes, minute);
    proof {
        assert(bytes@ =~= spec_cookie_bytes(addr@, port, secret, minute));
        assert(bytes@.skip(0) =~= bytes@);
    }
    let n = bytes.len();
    let mut h: u32 = FNV_OFFSET;
    let mut i: usize = 0;
    while i < n
        invariant
            n == bytes@.len(),
            i <= n,
            spec_fnv(bytes@, FNV_OFFSET) == spec_fnv(bytes@.skip(i as int), h),
        decreases n - i,
    {
        let x = h ^ (bytes[i] as u32);
        let next = ((x as u64 * FNV_PRIME as u64) % 0x1_0000_0000u64) as u32;
        proof {
            assert(bytes@.skip(i as int)[0] == bytes@[i as int]);
            assert(bytes@.skip(i as int).skip(1) =~= bytes@.skip(i + 1));
            assert(next == spec_fnv_step(h, bytes@[i as int]));
        }
        h = next;
        i = i + 1;
    }
    proof {
        assert(bytes@.skip(n as int) =~= Seq::<u8>::empty());
    }
    h as i32
}

/// The wait before handshake attempt number `attempt` is retried: a quarter
/// second, doubling up to three seconds; after twelve attempts, nothing —
/// the handshake has failed by timeout.
pub open spec fn spec_connect_timeout_ms(attempt: u32) -> Option<u32> {
    if attempt >= 12 {
        None
    } else if attempt < 4 {
        Some((250u32 << attempt) as u32)
    } else {
        Some(3000u32)
    }
}

pub fn connect_timeout_ms(attempt: u32) -> (r: Option<u32>)
    ensures
        r == spec_connect_timeout_ms(attempt),
{
    if attempt >= 12 {
        None
    } else if attempt < 4 {
        Some(250u32 << attempt)
    } else {
        Some(3000)
    }
}

/// A caller's side of a regular handshake: what it proposes, and what a
/// listener's reply settles.
#[derive(Debug, Clone, Copy, PartialEq, Eq)]
pub struct Connecting {
    /// This endpoint's socket identifier.
    pub local_sockid: SocketID,
    /// The first sequence number this side proposes.
    pub init_seq_num: SeqNumber,
    /// The largest packet this side can take.
    pub max_packet_size: i32,
    /// The largest flow window this side can offer.
    pub max_flow_window: i32,
    /// The configured play-out delay, microseconds.
    pub tsbpd_latency_us: i64,
}

impl Connecting {
    pub open spec fn wf(self) -> bool {
        &&& self.init_seq_num.wf()
        &&& self.max_packet_size > 0
        &&& self.max_flow_window > 0
        &&& self.tsbpd_latency_us >= 0
    }

    /// The handshake this caller sends, and resends on every timeout: its
    /// own proposal, with no cookie yet.
    pub fn handshake_request(&self, peer_addr: Vec<u8>) -> (r: HandshakeControlInfo)
        requires
            self.wf(),
            peer_addr@.len() == 16,
        ensures
            r.udt_version == UDT_VERSION,
            r.sock_type == SocketType::Datagram,
            r.init_seq_num == self.init_seq_num.0 as i32,
            r.max_packet_size == self.max_packet_size,
            r.max_flow_size == self.max_flow_window,
            r.connection_type == ConnectionType::Regular,
            r.socket_id == self.local_sockid,
            r.syn_cookie == 0,
            r.peer_addr@ == peer_addr@,
    {
        HandshakeControlInfo {
            udt_version: UDT_VERSION,
            sock_type: SocketType::Datagram,
            init_seq_num: self.init_seq_num.0 as i32,
            max_packet_size: self.max_packet_size,
            max_flow_size: self.max_flow_window,
            connection_type: ConnectionType::Regular,
            socket_id: self.local_sockid,
            syn_cookie: 0,
            peer_addr,
        }
    }

    /// What the caller does with a listener's cookie challenge: echo the
    /// cookie in a second handshake carrying its own proposal, unchanged.
    ///
    /// A challenge is the caller's own fields played back — its socket
    /// identifier included — with a nonzero cookie filled in; a reply
    /// carrying any other socket identifier is the listener's final word
    /// and belongs to `on_reply`.
    pub fn on_challenge(&self, reply: &HandshakeControlInfo) -> (r: Option<HandshakeControlInfo>)
        requires
            self.wf(),
        ensures
            ({
                let challenge = reply.socket_id == self.local_sockid && reply.syn_cookie != 0
                    && reply.peer_addr@.len() == 16;
                match r {
                    Some(req) => challenge && req.udt_version == UDT_VERSION && req.sock_type
                        == SocketType::Datagram && req.init_seq_num == self.init_seq_num.0 as i32
                        && req.max_packet_size == self.max_packet_size && req.max_flow_size
                        == self.max_flow_window && req.connection_type == ConnectionType::Regular
                        && req.socket_id == self.local_sockid && req.syn_cookie == reply.syn_cookie
                        && req.peer_addr@ == reply.peer_addr@,
                    None => !challenge,
                }
            }),
    {
        if reply.socket_id == self.local_sockid && reply.syn_cookie != 0 && reply.peer_addr.len()
            == 16 {
            Some(
                HandshakeControlInfo {
                    udt_version: UDT_VERSION,
                    sock_type: SocketType::Datagram,
                    init_seq_num: self.init_seq_num.0 as i32,
                    max_packet_size: self.max_packet_size,
                    max_flow_size: self.max_flow_window,
                    connection_type: ConnectionType::Regular,
                    socket_id: self.local_sockid,
                    syn_cookie: reply.syn_cookie,
                    peer_addr: vstd::slice::slice_to_vec(reply.peer_addr.as_slice()),
                },
            )
        } else {
            None
        }
    }

    /// What a listener's reply settles: the connection, when the reply is
    /// the listener's final word — it carries the listener's socket
    /// identifier, not this caller's own echoed back — and speaks this
    /// engine's version with a usable sequence number and limits; nothing
    /// otherwise. The caller adopts the server's initial sequence number
    /// and the smaller of each side's limits.
    pub fn on_reply(&self, reply: &HandshakeControlInfo, socket_start_time_us: i64) -> (r: Option<
        ConnectionSettings,
    >)
        requires
            self.wf(),
        ensures
            ({
                let acceptable = reply.socket_id != self.local_sockid && reply.udt_version
                    == UDT_VERSION && reply.init_seq_num >= 0 && reply.max_packet_size > 0
                    && reply.max_flow_size > 0;
                match r {
                    Some(s) => acceptable && s == (ConnectionSettings {
                        remote_sockid: reply.socket_id,
                        local_sockid: self.local_sockid,
                        init_seq_num: SeqNumber(reply.init_seq_num as u32),
                        max_packet_size: if reply.max_packet_size <= self.max_packet_size {
                            reply.max_packet_size
                        } else {
                            self.max_packet_size
                        },
                        max_flow_window: if reply.max_flow_size <= self.max_flow_window {
                            reply.max_flow_size
                        } else {
                            self.max_flow_window
                        },
                        socket_start_time_us,
                        tsbpd_latency_us: self.tsbpd_latency_us,
                    }) && s.wf(),
                    None => !acceptable,
                }
            }),
    {
        if reply.socket_id == self.local_sockid || reply.udt_version != UDT_VERSION
            || reply.init_seq_num < 0 || reply.max_packet_size <= 0 || reply.max_flow_size <= 0 {
            return None;
        }
        let proposed = reply.init_seq_num;
        proof {
            assert((proposed as u32) < 0x8000_0000u32) by (bit_vector)
                requires
                    proposed >= 0,
            ;
        }
        Some(
            ConnectionSettings {
                remote_sockid: reply.socket_id,
                local_sockid: self.local_sockid,
                init_seq_num: SeqNumber(reply.init_seq_num as u32),
                max_packet_size: if reply.max_packet_size <= self.max_packet_size {
                    reply.max_packet_size
                } else {
                    self.max_packet_size
                },
                max_flow_window: if reply.max_flow_size <= self.max_flow_window {
                    reply.max_flow_size
                } else {
                    self.max_flow_window
                },
                socket_start_time_us,
                tsbpd_latency_us: self.tsbpd_latency_us,
            },
        )
    }
}


/// A listener's fixed configuration.
#[derive(Debug, Clone, Copy, PartialEq, Eq)]
pub struct ListenConfig {
    /// This endpoint's socket identifier.
    pub local_sockid: SocketID,
    /// The process-local cookie secret, rotated every minute by the owner.
    pub secret: u32,
    /// The largest packet this side can take.
    pub max_packet_size: i32,
    /// The largest flow window this side can offer.
    pub max_flow_window: i32,
    /// The configured play-out delay, microseconds.
    pub tsbpd_latency_us: i64,
}

impl ListenConfig {
    pub open spec fn wf(self) -> bool {
        &&& self.max_packet_size > 0
        &&& self.max_flow_window > 0
        &&& self.tsbpd_latency_us >= 0
    }
}

/// What a listener does with one incoming handshake.
#[derive(Debug, Clone, PartialEq, Eq)]
pub enum ListenAction {
    /// First contact: answer with the peer's own fields and a cookie, and
    /// forget the exchange.
    SendCookie(HandshakeControlInfo),
    /// A cookie came back good: the connection stands; send the final
    /// handshake carrying this endpoint's socket identifier.
    Establish(ConnectionSettings, HandshakeControlInfo),
    /// A stale or foreign cookie, or an unusable proposal: drop it.
    Ignore,
}

/// The minute before `minute`, wrapping.
pub open spec fn spec_prev_minute(minute: u32) -> u32 {
    if minute == 0 {
        0xffff_ffffu32
    } else {
        (minute - 1) as u32
    }
}

/// Whether the echoed cookie was minted for this peer in the current or the
/// previous minute; the minute of grace tolerates clock skew.
pub open spec fn spec_cookie_acceptable(
    cookie: i32,
    addr: Seq<u8>,
    port: u16,
    secret: u32,
    minute: u32,
) -> bool {
    cookie == spec_syn_cookie(addr, port, secret, minute) || cookie == spec_syn_cookie(
        addr,
        port,
        secret,
        spec_prev_minute(minute),
    )
}

/// A listener's whole decision for one handshake packet from a peer at the
/// given port, at the given minute of the clock.
///
/// A first contact (no cookie yet) is answered statelessly with a cookie; a
/// good cookie establishes the connection on the peer's proposal, bounded
/// by this side's own limits; everything else is dropped.
pub fn listen_on_handshake(
    cfg: &ListenConfig,
    info: &HandshakeControlInfo,
    peer_port: u16,
    minute: u32,
    socket_start_time_us: i64,
) -> (r: ListenAction)
    requires
        cfg.wf(),
        info.peer_addr@.len() == 16,
    ensures
        ({
            let cookie_ok = spec_cookie_acceptable(
                info.syn_cookie,
                info.peer_addr@,
                peer_port,
                cfg.secret,
                minute,
            );
            let acceptable = info.udt_version == UDT_VERSION && info.init_seq_num >= 0
                && info.max_packet_size > 0 && info.max_flow_size > 0;
            match r {
                ListenAction::SendCookie(reply) => info.syn_cookie == 0 && reply@ == (
                crate::packet::HandshakeModel {
                    syn_cookie: spec_syn_cookie(
                        info.peer_addr@,
                        peer_port,
                        cfg.secret,
                        minute,
                    ),
                    ..info@
                }),
                ListenAction::Establish(s, reply) => info.syn_cookie != 0 && cookie_ok
                    && acceptable && s == (ConnectionSettings {
                    remote_sockid: info.socket_id,
                    local_sockid: cfg.local_sockid,
                    init_seq_num: SeqNumber(info.init_seq_num as u32),
                    max_packet_size: if info.max_packet_size <= cfg.max_packet_size {
                        info.max_packet_size
                    } else {
                        cfg.max_packet_size
                    },
                    max_flow_window: if info.max_flow_size <= cfg.max_flow_window {
                        info.max_flow_size
                    } else {
                        cfg.max_flow_window
                    },
                    socket_start_time_us,
                    tsbpd_latency_us: cfg.tsbpd_latency_us,
                }) && s.wf() && reply@ == (crate::packet::HandshakeModel {
                    socket_id: cfg.local_sockid,
                    max_packet_size: s.max_packet_size,
                    max_flow_size: s.max_flow_window,
                    ..info@
                }),
                ListenAction::Ignore => info.syn_cookie != 0 && !(cookie_ok && acceptable),
            }
        }),
{
    if info.syn_cookie == 0 {
        let cookie = syn_cookie(&info.peer_addr, peer_port, cfg.secret, minute);
        let reply = HandshakeControlInfo {
            udt_version: info.udt_version,
            sock_type: info.sock_type,
            init_seq_num: info.init_seq_num,
            max_packet_size: info.max_packet_size,
            max_flow_size: info.max_flow_size,
            connection_type: info.connection_type,
            socket_id: info.socket_id,
            syn_cookie: cookie,
            peer_addr: vstd::slice::slice_to_vec(info.peer_addr.as_slice()),
        };
        proof {
            assert(reply@ =~= (crate::packet::HandshakeModel {
                syn_cookie: spec_syn_cookie(info.peer_addr@, peer_port, cfg.secret, minute),
                ..info@
            }));
        }
        return ListenAction::SendCookie(reply);
    }
    let expected_now = syn_cookie(&info.peer_addr, peer_port, cfg.secret, minute);
    let prev_minute = if minute == 0 {
        0xffff_ffffu32
    } else {
        minute - 1
    };
    let expected_prev = syn_cookie(&info.peer_addr, peer_port, cfg.secret, prev_minute);
    if info.syn_cookie != expected_now && info.syn_cookie != expected_prev {
        return ListenAction::Ignore;
    }
    if info.udt_version != UDT_VERSION || info.init_seq_num < 0 || info.max_packet_size <= 0
        || info.max_flow_size <= 0 {
        return ListenAction::Ignore;
    }
    let proposed = info.init_seq_num;
    proof {
        assert((proposed as u32) < 0x8000_0000u32) by (bit_vector)
            requires
                proposed >= 0,
        ;
    }
    let settings = ConnectionSettings {
        remote_sockid: info.socket_id,
        local_sockid: cfg.local_sockid,
        init_seq_num: SeqNumber(proposed as u32),
        max_packet_size: if info.max_packet_size <= cfg.max_packet_size {
            info.max_packet_size
        } else {
            cfg.max_packet_size
        },
        max_flow_window: if info.max_flow_size <= cfg.max_flow_window {
            info.max_flow_size
        } else {
            cfg.max_flow_window
        },
        socket_start_time_us,
        tsbpd_latency_us: cfg.tsbpd_latency_us,
    };
    let reply = HandshakeControlInfo {
        udt_version: info.udt_version,
        sock_type: info.sock_type,
        init_seq_num: info.init_seq_num,
        max_packet_size: settings.max_packet_size,
        max_flow_size: settings.max_flow_window,
        connection_type: info.connection_type,
        socket_id: cfg.local_sockid,
        syn_cookie: info.syn_cookie,
        peer_addr: vstd::slice::slice_to_vec(info.peer_addr.as_slice()),
    };
    proof {
        assert(reply@ =~= (crate::packet::HandshakeModel {
            socket_id: cfg.local_sockid,
            max_packet_size: settings.max_packet_size,
            max_flow_size: settings.max_flow_window,
            ..info@
        }));
    }
    ListenAction::Establish(settings, reply)
}

/// What a rendezvous peer does with one incoming handshake.
#[derive(Debug, Clone, Copy, PartialEq, Eq, Structural)]
pub enum RendezvousAction {
    /// An opening request came: answer it with the second leg.
    ReplySecond,
    /// The second leg came and this side holds the larger socket
    /// identifier: the connection stands, and this side sends the final
    /// confirmation.
    EstablishAndSendFinal,
    /// The exchange is complete on this side: the connection stands.
    Establish,
    /// Not a rendezvous leg at all: drop it.
    Ignore,
}

/// One step of the rendezvous exchange, in which both peers start by
/// sending the opening leg.
///
/// An opening leg is answered with the second; the second leg establishes,
/// and — since both peers may have opened at once — only the side with the
/// larger socket identifier sends the final confirmation, so exactly one
/// final crosses the wire when the roles collide; a final establishes
/// outright.
pub fn rendezvous_step(
    our_sockid: SocketID,
    incoming: ConnectionType,
    their_sockid: SocketID,
) -> (r: RendezvousAction)
    ensures
        r == (match incoming {
            ConnectionType::RendezvousFirst => RendezvousAction::ReplySecond,
            ConnectionType::RendezvousSecond => if our_sockid.0 > their_sockid.0 {
                RendezvousAction::EstablishAndSendFinal
            } else {
                RendezvousAction::Establish
            },
            ConnectionType::RendezvousFinal => RendezvousAction::Establish,
            ConnectionType::Regular => RendezvousAction::Ignore,
        }),
{
    match incoming {
        ConnectionType::RendezvousFirst => RendezvousAction::ReplySecond,
        ConnectionType::RendezvousSecond => {
            if our_sockid.0 > their_sockid.0 {
                RendezvousAction::EstablishAndSendFinal
            } else {
                RendezvousAction::Establish
            }
        },
        ConnectionType::RendezvousFinal => RendezvousAction::Establish,
        ConnectionType::Regular => RendezvousAction::Ignore,
    }
}

} // verus!
