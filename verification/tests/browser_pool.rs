use minidialer::browser::{
    csrf_token_matches, dial_page, dial_reply_is_ready, dial_url, new_csrf_token, Duty, Message,
    Mirror, MirrorDirective, MirrorEvent,
};

#[test]
fn csrf_gate() {
    let token = String::from("31d1f4e4-9063-4b52-8c86-1b4d9d3712e5");
    assert!(csrf_token_matches(&token, &token.clone()));
    assert!(!csrf_token_matches(&token, &String::from("wrong")));
    assert!(!csrf_token_matches(&token, &String::new()));
}

#[test]
fn csrf_token_shape() {
    let token = new_csrf_token();
    assert_eq!(token.len(), 36);
    for (i, c) in token.chars().enumerate() {
        if i == 8 || i == 13 || i == 18 || i == 23 {
            assert_eq!(c, '-');
        } else {
            assert!(c.is_ascii_hexdigit() && !c.is_ascii_uppercase());
        }
    }
    assert_ne!(token, new_csrf_token());
}

#[test]
fn page_embeds_token() {
    assert_eq!(
        dial_page("tok"),
        "<!DOCTYPE html><script src=dialer.js></script><script>dialMain(\"tok\")</script>"
    );
}

#[test]
fn dial_url_concatenates() {
    assert_eq!(
        dial_url("wss://example.com", "/path?q=1"),
        "wss://example.com/path?q=1"
    );
}

#[test]
fn ready_acknowledgement() {
    assert!(dial_reply_is_ready(&Message::Binary(b"ready".to_vec())));
    assert!(dial_reply_is_ready(&Message::Text(b"ready".to_vec())));
    assert!(!dial_reply_is_ready(&Message::Binary(b"nope!".to_vec())));
    assert!(!dial_reply_is_ready(&Message::Binary(b"ready.".to_vec())));
    assert!(!dial_reply_is_ready(&Message::Binary(Vec::new())));
    assert!(!dial_reply_is_ready(&Message::Close));
}

/// A dequeued browser that does not answer `ready` is discarded for a second
/// one, and the client's buffered bytes survive the swap: only one attempt
/// consumes them.
#[test]
fn stale_browser_swapped_before_first_byte() {
    // First browser: replies something other than `ready`; the dial loop
    // discards it and takes the next one.
    assert!(!dial_reply_is_ready(&Message::Text(b"error".to_vec())));
    assert!(dial_reply_is_ready(&Message::Binary(b"ready".to_vec())));

    let mut mirror = Mirror::new();
    assert!(matches!(mirror.next_duty(), Duty::AwaitEvent));

    // One message arrives from the client socket.
    let d = mirror.on_event(MirrorEvent::NetworkArrived(Message::Binary(b"hello".to_vec())));
    assert!(matches!(d, MirrorDirective::Continue));
    assert!(matches!(mirror.next_duty(), Duty::ForwardToPipe));

    // Forwarding into the first pipe fails: swap the pipe, keep the message.
    let d = mirror.on_event(MirrorEvent::PipeSendFailed);
    assert!(matches!(d, MirrorDirective::SwapPipe));
    assert!(mirror.wants_fresh_pipe());
    match mirror.network_message() {
        Some(Message::Binary(data)) => assert_eq!(data, &b"hello".to_vec()),
        _ => panic!("the buffered message must survive the swap"),
    }

    // The second pipe accepts it.
    let d = mirror.on_event(MirrorEvent::PipeSendSucceeded);
    assert!(matches!(d, MirrorDirective::Continue));
    assert!(mirror.network_message().is_none());

    // After bytes have crossed, a broken pipe ends the mirror instead of
    // fetching a third browser.
    let d = mirror.on_event(MirrorEvent::ChannelClosed);
    assert!(matches!(d, MirrorDirective::SwapPipe));
    assert!(!mirror.wants_fresh_pipe());
}

#[test]
fn mirror_forwards_channel_messages() {
    let mut mirror = Mirror::new();
    let d = mirror.on_event(MirrorEvent::ChannelArrived(Message::Text(b"from browser".to_vec())));
    assert!(matches!(d, MirrorDirective::Continue));
    assert!(matches!(mirror.next_duty(), Duty::ForwardToSocket));
    match mirror.channel_message() {
        Some(Message::Text(data)) => assert_eq!(data, &b"from browser".to_vec()),
        _ => panic!("channel message must be buffered"),
    }
    let d = mirror.on_event(MirrorEvent::SocketSendSucceeded);
    assert!(matches!(d, MirrorDirective::Continue));
    assert!(matches!(mirror.next_duty(), Duty::AwaitEvent));
}

#[test]
fn mirror_terminates_on_socket_close() {
    let mut mirror = Mirror::new();
    assert!(matches!(
        mirror.on_event(MirrorEvent::NetworkClosed),
        MirrorDirective::Terminate
    ));
    let mut mirror = Mirror::new();
    let _ = mirror.on_event(MirrorEvent::ChannelArrived(Message::Binary(b"x".to_vec())));
    assert!(matches!(
        mirror.on_event(MirrorEvent::SocketSendFailed),
        MirrorDirective::Terminate
    ));
}
