use rs_voxie::network::clients::{client_on_message, ClientReaction, ServerMessage};
use rs_voxie::network::clients::{
    ClientAddress, ClientMessage, ClientRegistry, ServerReaction, INACTIVE_CLIENT_CHECK_INTERVAL_NANOS,
    INACTIVE_CLIENT_TIMEOUT_NANOS,
};

fn addr(port: u16) -> ClientAddress {
    ClientAddress { ip: 0x7f00_0001, v6: false, port, flowinfo: 0, scope_id: 0 }
}

const SEC: u128 = 1_000_000_000;

#[test]
fn registry_records_pings() {
    let mut r = ClientRegistry::new(0);
    assert!(r.record_ping(addr(1), 10));
    assert!(r.record_ping(addr(2), 20));
    assert!(!r.record_ping(addr(1), 30));
    assert_eq!(r.clients(), vec![addr(1), addr(2)]);
    assert!(r.is_connected(addr(2)));
    assert!(!r.is_connected(addr(3)));
    let v6 = ClientAddress { ip: 1, v6: true, port: 1, flowinfo: 0, scope_id: 7 };
    assert!(r.record_ping(v6, 40));
    assert!(!r.is_connected(ClientAddress { scope_id: 8, ..v6 }));
}

#[test]
fn registry_drops_quiet_clients() {
    let mut r = ClientRegistry::new(0);
    r.record_ping(addr(1), 0);
    r.record_ping(addr(2), 2 * SEC);
    r.record_ping(addr(3), SEC / 2);
    // exactly the timeout is not yet too long
    let gone = r.remove_inactive(INACTIVE_CLIENT_TIMEOUT_NANOS);
    assert!(gone.is_empty());
    let gone = r.remove_inactive(4 * SEC);
    assert_eq!(gone, vec![addr(1), addr(3)]);
    assert_eq!(r.clients(), vec![addr(2)]);
    // a clock that went backwards counts as no time passed
    assert!(r.remove_inactive(0).is_empty());
}

#[test]
fn registry_checks_once_per_interval() {
    let mut r = ClientRegistry::new(0);
    r.record_ping(addr(1), 0);
    assert!(!r.inactive_check_due(INACTIVE_CLIENT_CHECK_INTERVAL_NANOS));
    assert!(r.inactive_check_due(INACTIVE_CLIENT_CHECK_INTERVAL_NANOS + 1));
    assert!(r.check_inactive(SEC).is_empty());
    assert!(r.check_inactive(5 * SEC).len() == 1);
    r.record_ping(addr(2), 5 * SEC);
    // the last look was at 5 s: not due again before 6 s
    assert!(r.check_inactive(10 * SEC / 2 + SEC).is_empty());
    assert!(r.is_connected(addr(2)));
    assert_eq!(r.check_inactive(9 * SEC), vec![addr(2)]);
}

#[test]
fn registry_reacts_to_messages() {
    let mut r = ClientRegistry::new(0);
    assert_eq!(
        r.on_message(addr(9), ClientMessage::Ping { client_timestamp: 77 }, 500),
        ServerReaction::AnswerPing { connected: true, client_timestamp: 77, server_uptime: 500 }
    );
    assert_eq!(
        r.on_message(addr(9), ClientMessage::Ping { client_timestamp: 78 }, 600),
        ServerReaction::AnswerPing { connected: false, client_timestamp: 78, server_uptime: 600 }
    );
    assert_eq!(
        r.on_message(addr(9), ClientMessage::GamePacket, 700),
        ServerReaction::ForwardGamePacket
    );
    assert_eq!(
        r.on_message(addr(9), ClientMessage::Pong, 800),
        ServerReaction::Refuse { reason: "Server received pong. This should never happen".to_string() }
    );
    assert_eq!(r.clients(), vec![addr(9)]);
}

#[test]
fn client_reacts_to_server_messages() {
    assert_eq!(
        client_on_message(ServerMessage::Pong { client_id: addr(5), client_timestamp: 100 }, 350),
        ClientReaction::TakePong { client_id: addr(5), round_trip: 250 }
    );
    assert_eq!(
        client_on_message(ServerMessage::GamePacket, 1),
        ClientReaction::ForwardGamePacket
    );
    assert_eq!(
        client_on_message(ServerMessage::Ping, 1),
        ClientReaction::Complain { reason: "Client received ping, this should not happen".to_string() }
    );
}
