use minidialer::browser::Message;
use minidialer::curl::{
    transfer_code_ok, ClientRead, RelayDuty, RelayVerdict, SendableCurl, WsRelay, WsRelayDuty,
};

#[test]
fn transfer_codes() {
    assert!(transfer_code_ok(0));
    assert!(transfer_code_ok(81));
    assert!(!transfer_code_ok(1));
    assert!(!transfer_code_ok(7));
    assert!(!transfer_code_ok(56));
}

#[test]
fn byte_relay_pays_client_first() {
    let mut relay = SendableCurl::new();
    assert!(matches!(relay.next_duty(), RelayDuty::ReceiveUpstream));

    // Upstream data is owed to the client before anything else happens.
    assert!(matches!(relay.on_upstream_received(5, false), RelayVerdict::Proceed));
    assert!(matches!(relay.next_duty(), RelayDuty::WriteToClient));
    relay.on_client_written();
    assert!(matches!(relay.next_duty(), RelayDuty::ReceiveUpstream));

    // No data and "try again later": wait for readiness.
    assert!(matches!(relay.on_upstream_received(0, true), RelayVerdict::AwaitReadiness));

    // A client read stages bytes for the upstream; partial sends keep the
    // rest owed.
    assert!(matches!(relay.on_client_read(ClientRead::Data(3)), RelayVerdict::Proceed));
    assert!(matches!(relay.next_duty(), RelayDuty::SendUpstream));
    relay.on_upstream_sent(2);
    assert!(matches!(relay.next_duty(), RelayDuty::SendUpstream));
    relay.on_upstream_sent(1);
    assert!(matches!(relay.next_duty(), RelayDuty::ReceiveUpstream));
}

#[test]
fn byte_relay_finishes_on_end_of_stream() {
    let mut relay = SendableCurl::new();
    assert!(matches!(relay.on_upstream_received(0, false), RelayVerdict::Finished));
    let mut relay = SendableCurl::new();
    assert!(matches!(relay.on_client_read(ClientRead::Closed), RelayVerdict::Finished));
    let mut relay = SendableCurl::new();
    assert!(matches!(relay.on_client_read(ClientRead::WouldBlock), RelayVerdict::Proceed));
}

#[test]
fn gateway_relay_stages_messages() {
    let mut relay = WsRelay::new();
    assert!(matches!(relay.next_duty(), WsRelayDuty::ReceiveUpstream));

    assert!(matches!(
        relay.on_upstream_received(b"data".to_vec(), false),
        RelayVerdict::Proceed
    ));
    assert!(matches!(relay.next_duty(), WsRelayDuty::SendToClient));
    match relay.take_for_client() {
        Some(Message::Binary(d)) => assert_eq!(d, b"data".to_vec()),
        _ => panic!("upstream bytes become one binary message"),
    }
    assert!(matches!(relay.next_duty(), WsRelayDuty::ReceiveUpstream));

    // An empty nonblocking read waits; an empty read without "again" retries.
    assert!(matches!(
        relay.on_upstream_received(Vec::new(), true),
        RelayVerdict::AwaitReadiness
    ));
    assert!(matches!(
        relay.on_upstream_received(Vec::new(), false),
        RelayVerdict::Proceed
    ));
}

#[test]
fn gateway_relay_skips_pings_and_stops_on_close() {
    let mut relay = WsRelay::new();
    assert!(matches!(
        relay.on_socket_message(Some(Message::Ping(b"p".to_vec()))),
        RelayVerdict::Proceed
    ));
    assert!(matches!(relay.next_duty(), WsRelayDuty::ReceiveUpstream));
    assert!(matches!(
        relay.on_socket_message(Some(Message::Pong(Vec::new()))),
        RelayVerdict::Proceed
    ));
    assert!(matches!(
        relay.on_socket_message(Some(Message::Text(b"payload".to_vec()))),
        RelayVerdict::Proceed
    ));
    assert!(matches!(relay.next_duty(), WsRelayDuty::SendUpstream));
    match relay.take_for_upstream() {
        Some(Message::Text(d)) => assert_eq!(d, b"payload".to_vec()),
        _ => panic!("client payloads are owed upstream"),
    }

    assert!(matches!(
        relay.on_socket_message(Some(Message::Close)),
        RelayVerdict::Finished
    ));
    assert!(matches!(relay.on_socket_message(None), RelayVerdict::Finished));
}
