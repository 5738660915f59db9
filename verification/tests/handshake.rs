use srt::packet::{ConnectionType, HandshakeControlInfo, SocketType};
use srt::pending_connection::{
    connect_timeout_ms, listen_on_handshake, rendezvous_step, syn_cookie, Connecting,
    ListenAction, ListenConfig, RendezvousAction,
};
use srt::seq_number::SeqNumber;
use srt::SocketID;

fn local_addr() -> Vec<u8> {
    let mut a = vec![127, 0, 0, 1];
    a.extend_from_slice(&[0u8; 12]);
    a
}

fn caller() -> Connecting {
    Connecting {
        local_sockid: SocketID(111),
        init_seq_num: SeqNumber::new(5000),
        max_packet_size: 1500,
        max_flow_window: 25600,
        tsbpd_latency_us: 120_000,
    }
}

fn listener() -> ListenConfig {
    ListenConfig {
        local_sockid: SocketID(222),
        secret: 0x5eed_cafe,
        max_packet_size: 1400,
        max_flow_window: 8192,
        tsbpd_latency_us: 120_000,
    }
}

#[test]
fn regular_handshake_two_round_trips() {
    // Caller sends its proposal; the listener answers twice, the second
    // answer carrying the same nonzero cookie it minted first; both sides
    // settle on the same numbers.
    let c = caller();
    let cfg = listener();
    let request = c.handshake_request(local_addr());
    assert_eq!(request.syn_cookie, 0);
    assert_eq!(request.connection_type, ConnectionType::Regular);

    let challenge = match listen_on_handshake(&cfg, &request, 4321, 77, 0) {
        ListenAction::SendCookie(reply) => reply,
        other => panic!("expected a cookie challenge, got {:?}", other),
    };
    assert_ne!(challenge.syn_cookie, 0);
    assert_eq!(challenge.init_seq_num, 5000);

    // The caller recognizes the challenge and echoes the cookie.
    let second = c.on_challenge(&challenge).expect("a challenge must be answered");
    assert_eq!(second.syn_cookie, challenge.syn_cookie);
    assert_eq!(second.socket_id, SocketID(111));
    let (settings, final_reply) = match listen_on_handshake(&cfg, &second, 4321, 77, 0) {
        ListenAction::Establish(s, reply) => (s, reply),
        other => panic!("expected establishment, got {:?}", other),
    };
    assert_eq!(final_reply.syn_cookie, challenge.syn_cookie);
    assert_eq!(final_reply.socket_id, SocketID(222));
    assert_eq!(settings.remote_sockid, SocketID(111));
    assert_eq!(settings.local_sockid, SocketID(222));
    assert_eq!(settings.init_seq_num, SeqNumber::new(5000));
    assert_eq!(settings.max_packet_size, 1400);
    assert_eq!(settings.max_flow_window, 8192);

    // The caller accepts the final reply and lands on the same numbers.
    let mine = c.on_reply(&final_reply, 0).unwrap();
    assert_eq!(mine.init_seq_num, settings.init_seq_num);
    assert_eq!(mine.max_packet_size, settings.max_packet_size);
    assert_eq!(mine.max_flow_window, settings.max_flow_window);
    assert_eq!(mine.remote_sockid, SocketID(222));
}

#[test]
fn cookie_accepts_previous_minute_only() {
    let cfg = listener();
    let addr = local_addr();
    let old_cookie = syn_cookie(&addr, 4321, cfg.secret, 76);
    let mut second = caller().handshake_request(addr.clone());
    second.syn_cookie = old_cookie;
    // Minted the minute before: still good.
    assert!(matches!(
        listen_on_handshake(&cfg, &second, 4321, 77, 0),
        ListenAction::Establish(_, _)
    ));
    // Two minutes stale: refused.
    assert!(matches!(
        listen_on_handshake(&cfg, &second, 4321, 78, 0),
        ListenAction::Ignore
    ));
    // Minted for another port: refused.
    assert!(matches!(
        listen_on_handshake(&cfg, &second, 9999, 76, 0),
        ListenAction::Ignore
    ));
}

#[test]
fn listener_rejects_bad_proposal() {
    let cfg = listener();
    let addr = local_addr();
    let mut second = caller().handshake_request(addr.clone());
    second.syn_cookie = syn_cookie(&addr, 4321, cfg.secret, 10);
    second.udt_version = 5;
    assert!(matches!(
        listen_on_handshake(&cfg, &second, 4321, 10, 0),
        ListenAction::Ignore
    ));
}

#[test]
fn caller_does_not_establish_on_its_own_echo() {
    // The cookie challenge plays the caller's own fields back; it must not
    // be mistaken for the listener's final word, and the final word is not
    // a challenge.
    let c = caller();
    let cfg = listener();
    let request = c.handshake_request(local_addr());
    let challenge = match listen_on_handshake(&cfg, &request, 4321, 77, 0) {
        ListenAction::SendCookie(reply) => reply,
        other => panic!("expected a cookie challenge, got {:?}", other),
    };
    assert!(c.on_reply(&challenge, 0).is_none());
    let second = c.on_challenge(&challenge).unwrap();
    let final_reply = match listen_on_handshake(&cfg, &second, 4321, 77, 0) {
        ListenAction::Establish(_, reply) => reply,
        other => panic!("expected establishment, got {:?}", other),
    };
    assert!(c.on_challenge(&final_reply).is_none());
    assert!(c.on_reply(&final_reply, 0).is_some());
}

#[test]
fn caller_rejects_wrong_version() {
    let c = caller();
    let reply = HandshakeControlInfo {
        udt_version: 3,
        sock_type: SocketType::Datagram,
        init_seq_num: 1,
        max_packet_size: 1500,
        max_flow_size: 25600,
        connection_type: ConnectionType::Regular,
        socket_id: SocketID(9),
        syn_cookie: 0,
        peer_addr: local_addr(),
    };
    assert!(c.on_reply(&reply, 0).is_none());
}

#[test]
fn connect_timeout_schedule() {
    // A quarter second, doubling, capped at three seconds, twelve tries.
    assert_eq!(connect_timeout_ms(0), Some(250));
    assert_eq!(connect_timeout_ms(1), Some(500));
    assert_eq!(connect_timeout_ms(3), Some(2000));
    assert_eq!(connect_timeout_ms(4), Some(3000));
    assert_eq!(connect_timeout_ms(11), Some(3000));
    assert_eq!(connect_timeout_ms(12), None);
}

#[test]
fn rendezvous_tie_break_by_socket_id() {
    let a = SocketID(10);
    let b = SocketID(20);
    // Openings are answered with the second leg.
    assert_eq!(
        rendezvous_step(a, ConnectionType::RendezvousFirst, b),
        RendezvousAction::ReplySecond
    );
    // On the second leg, only the larger socket id sends the final word.
    assert_eq!(
        rendezvous_step(b, ConnectionType::RendezvousSecond, a),
        RendezvousAction::EstablishAndSendFinal
    );
    assert_eq!(
        rendezvous_step(a, ConnectionType::RendezvousSecond, b),
        RendezvousAction::Establish
    );
    assert_eq!(
        rendezvous_step(a, ConnectionType::RendezvousFinal, b),
        RendezvousAction::Establish
    );
    assert_eq!(
        rendezvous_step(a, ConnectionType::Regular, b),
        RendezvousAction::Ignore
    );
}
