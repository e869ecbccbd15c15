use minidialer::splithttp::client::{decimal, download_url, new_download_request, split_header, upload_url};
use minidialer::splithttp::server::{
    down_response, sentinel_chunk, up_status, DownResponse, Packet, Registry, Session, TakeOutcome,
    UpOutcome,
};

fn packet(seq: u64, data: &[u8]) -> Packet {
    Packet { seq, data: data.to_vec() }
}

/// Uploads presented as `[1, 0, 3, 2, 4]`, each body one ASCII digit, reach
/// the upstream writer as exactly `01234`.
#[test]
fn reordered_uploads_deliver_in_order() {
    let mut session: Session<u8, u8> = Session::new(1, 2);
    let mut written: Vec<u8> = Vec::new();
    for seq in [1u64, 0, 3, 2, 4] {
        let body = [b'0' + seq as u8];
        for payload in session.enqueue(packet(seq, &body)) {
            written.extend_from_slice(&payload);
        }
    }
    assert_eq!(written, b"01234".to_vec());
}

#[test]
fn in_order_uploads_deliver_immediately() {
    let mut session: Session<u8, u8> = Session::new(1, 2);
    assert_eq!(session.enqueue(packet(0, b"first")), vec![b"first".to_vec()]);
    assert_eq!(session.enqueue(packet(1, b"second")), vec![b"second".to_vec()]);
}

#[test]
fn gap_holds_delivery_until_filled() {
    let mut session: Session<u8, u8> = Session::new(1, 2);
    assert_eq!(session.enqueue(packet(2, b"c")), Vec::<Vec<u8>>::new());
    assert_eq!(session.enqueue(packet(1, b"b")), Vec::<Vec<u8>>::new());
    assert_eq!(
        session.enqueue(packet(0, b"a")),
        vec![b"a".to_vec(), b"b".to_vec(), b"c".to_vec()]
    );
}

#[test]
fn duplicate_packet_is_discarded() {
    let mut session: Session<u8, u8> = Session::new(1, 2);
    assert_eq!(session.enqueue(packet(0, b"x")), vec![b"x".to_vec()]);
    assert_eq!(session.enqueue(packet(0, b"y")), Vec::<Vec<u8>>::new());
    assert_eq!(session.enqueue(packet(1, b"z")), vec![b"z".to_vec()]);
}

#[test]
fn largest_sequence_number_is_queued_not_delivered() {
    let mut session: Session<u8, u8> = Session::new(1, 2);
    assert_eq!(session.enqueue(packet(u64::MAX, b"last")), Vec::<Vec<u8>>::new());
    assert_eq!(session.enqueue(packet(0, b"first")), vec![b"first".to_vec()]);
}

#[test]
fn registry_reader_taken_exactly_once() {
    let mut registry: Registry<u8, u8> = Registry::new();
    let id = String::from("session-a");
    assert!(registry.install(id.clone(), 7, 8).is_none());
    assert!(registry.contains(&id));
    match registry.take_reader(&id) {
        TakeOutcome::Reader(r) => assert_eq!(r, 7),
        _ => panic!("first take must hand out the reader"),
    }
    match registry.take_reader(&id) {
        TakeOutcome::AlreadyTaken => {}
        _ => panic!("second take must be refused"),
    }
}

#[test]
fn registry_take_reader_without_session() {
    let mut registry: Registry<u8, u8> = Registry::new();
    let id = String::from("nobody");
    match registry.take_reader(&id) {
        TakeOutcome::NoSession => {}
        _ => panic!("unknown identifiers have no reader"),
    }
}

#[test]
fn registry_remove_leaves_no_entry() {
    let mut registry: Registry<u8, u8> = Registry::new();
    let id = String::from("session-b");
    registry.install(id.clone(), 1, 2);
    assert!(registry.contains(&id));
    registry.remove(&id);
    assert!(!registry.contains(&id));
    assert!(registry.enqueue(&id, packet(0, b"x")).is_none());
}

#[test]
fn registry_install_keeps_first_session() {
    let mut registry: Registry<u8, u8> = Registry::new();
    let id = String::from("session-c");
    assert!(registry.install(id.clone(), 1, 2).is_none());
    // A racing installer loses and gets its socket halves back.
    assert_eq!(registry.install(id.clone(), 3, 4), Some((3, 4)));
    match registry.take_reader(&id) {
        TakeOutcome::Reader(r) => assert_eq!(r, 1),
        _ => panic!("the first installed reader must survive the race"),
    }
}

#[test]
fn registry_enqueue_routes_to_its_session() {
    let mut registry: Registry<u8, u8> = Registry::new();
    let a = String::from("a");
    let b = String::from("b");
    registry.install(a.clone(), 1, 2);
    registry.install(b.clone(), 3, 4);
    assert_eq!(registry.enqueue(&a, packet(0, b"left")), Some(vec![b"left".to_vec()]));
    assert_eq!(registry.enqueue(&b, packet(1, b"hold")), Some(Vec::new()));
    assert_eq!(registry.enqueue(&b, packet(0, b"go")), Some(vec![b"go".to_vec(), b"hold".to_vec()]));
    assert_eq!(registry.writer_handle(&a), Some(2));
    assert_eq!(registry.writer_handle(&b), Some(4));
}

#[test]
fn down_response_maps_outcomes_to_statuses() {
    let (r, reader) = down_response(TakeOutcome::<u8>::NoSession, false);
    assert!(matches!(r, DownResponse::UpstreamUnavailable));
    assert_eq!(r.status(), 502);
    assert!(reader.is_none());

    let (r, reader) = down_response(TakeOutcome::<u8>::AlreadyTaken, false);
    assert!(matches!(r, DownResponse::DuplicateDownload));
    assert_eq!(r.status(), 502);
    assert!(reader.is_none());

    let (r, reader) = down_response(TakeOutcome::Reader(9u8), false);
    assert!(matches!(r, DownResponse::Stream { sentinel: true }));
    assert_eq!(r.status(), 200);
    assert_eq!(reader, Some(9));

    let (r, _) = down_response(TakeOutcome::Reader(9u8), true);
    assert!(matches!(r, DownResponse::Stream { sentinel: false }));
}

#[test]
fn up_statuses() {
    assert_eq!(up_status(&UpOutcome::Delivered), 200);
    assert_eq!(up_status(&UpOutcome::WriteFailed), 502);
    assert_eq!(up_status(&UpOutcome::NoUpstream), 502);
}

#[test]
fn sentinel_is_ok() {
    assert_eq!(sentinel_chunk(), b"ok".to_vec());
}

#[test]
fn decimal_renders_sequence_numbers() {
    assert_eq!(decimal(0), "0");
    assert_eq!(decimal(7), "7");
    assert_eq!(decimal(10), "10");
    assert_eq!(decimal(122880), "122880");
    assert_eq!(decimal(u64::MAX), "18446744073709551615");
}

#[test]
fn urls_are_composed_exactly() {
    assert_eq!(
        download_url("https://example.com/sub", "abc"),
        "https://example.com/sub/abc?x_padding=0"
    );
    assert_eq!(
        upload_url("https://example.com/sub", "abc", 17),
        "https://example.com/sub/abc/17"
    );
}

#[test]
fn new_download_request_makes_canonical_identifiers() {
    let (id, url) = new_download_request("https://example.com");
    assert_eq!(id.len(), 36);
    for (i, c) in id.chars().enumerate() {
        if i == 8 || i == 13 || i == 18 || i == 23 {
            assert_eq!(c, '-');
        } else {
            assert!(c.is_ascii_hexdigit() && !c.is_ascii_uppercase());
        }
    }
    assert_eq!(url, format!("https://example.com/{}?x_padding=0", id));
    // Identifiers are random: two requests must not collide.
    let (id2, _) = new_download_request("https://example.com");
    assert_ne!(id, id2);
}

#[test]
fn split_header_takes_first_colon() {
    assert_eq!(
        split_header(b"Host: example.com"),
        Some((b"Host".to_vec(), b" example.com".to_vec()))
    );
    assert_eq!(
        split_header(b"X-A:b:c"),
        Some((b"X-A".to_vec(), b"b:c".to_vec()))
    );
    assert_eq!(split_header(b"no colon here"), None);
    assert_eq!(split_header(b":v"), Some((b"".to_vec(), b"v".to_vec())));
    assert_eq!(split_header(b""), None);
}
