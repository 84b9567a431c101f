use message_relay::envelope::{FrameOutcome, MessageKind, WebSocketMessage};
use message_relay::envelope::{classify_message, envelope_from_parts, make_welcome, u64_to_string};
use message_relay::server::{WebSocketServer, OUTBOUND_CAPACITY};

fn msg(t: &str, data: &str, ts: u64) -> WebSocketMessage {
    WebSocketMessage {
        message_type: t.to_string(),
        data: data.to_string(),
        timestamp: ts,
        source: None,
    }
}

#[test]
fn welcome_sent_first_and_only_once() {
    let mut s = WebSocketServer::new();
    let id = s.accept_connection(1000);
    assert_eq!(id, 0);
    // Messages enqueued after acceptance must not displace the welcome.
    s.send_to_extension(id, msg("PING", "1", 2000));
    s.send_to_extension(id, msg("PING", "2", 2001));
    let first = s.next_outbound(id).expect("welcome must be queued");
    assert_eq!(first.message_type, "WELCOME");
    assert_eq!(first.data, "{\"connection_id\":0,\"timestamp\":1000}");
    assert_eq!(first.timestamp, 1000);
    assert_eq!(first.source.as_deref(), Some("desktop"));
    // No second welcome follows.
    let second = s.next_outbound(id).unwrap();
    assert_eq!(second.message_type, "PING");
    let third = s.next_outbound(id).unwrap();
    assert_eq!(third.message_type, "PING");
    assert!(s.next_outbound(id).is_none());
}

#[test]
fn welcome_data_carries_assigned_id() {
    let mut s = WebSocketServer::new();
    assert_eq!(s.accept_connection(5), 0);
    assert_eq!(s.accept_connection(6), 1);
    let w = s.next_outbound(1).unwrap();
    assert_eq!(w.message_type, "WELCOME");
    assert_eq!(w.data, "{\"connection_id\":1,\"timestamp\":6}");
}

#[test]
fn ids_are_never_reused() {
    let mut s = WebSocketServer::new();
    let a = s.accept_connection(1);
    let b = s.accept_connection(2);
    assert_ne!(a, b);
    assert!(s.remove_connection(a));
    // A later session never gets the retired identity back.
    let c = s.accept_connection(3);
    assert_ne!(c, a);
    assert_ne!(c, b);
    assert_eq!(s.get_connected_extensions(), vec![b, c]);
}

#[test]
fn deregistration_is_exactly_once() {
    let mut s = WebSocketServer::new();
    let a = s.accept_connection(1);
    let b = s.accept_connection(2);
    // Reader and writer both signal teardown: the second removal is a no-op.
    assert!(s.remove_connection(a));
    assert!(!s.remove_connection(a));
    assert_eq!(s.get_connected_extensions(), vec![b]);
    assert!(s.remove_connection(b));
    assert!(!s.remove_connection(b));
    assert!(s.get_connected_extensions().is_empty());
}

#[test]
fn send_to_unknown_id_is_a_noop() {
    let mut s = WebSocketServer::new();
    let a = s.accept_connection(1);
    s.send_to_extension(a + 7, msg("PING", "1", 2));
    // Nothing was enqueued anywhere and nothing failed.
    assert_eq!(s.get_connected_extensions(), vec![a]);
    let w = s.next_outbound(a).unwrap();
    assert_eq!(w.message_type, "WELCOME");
    assert!(s.next_outbound(a).is_none());
}

#[test]
fn broadcast_with_zero_connections_is_a_noop() {
    let mut s = WebSocketServer::new();
    s.broadcast_message(msg("PING", "1", 2));
    assert!(s.get_connected_extensions().is_empty());
    assert!(s.next_outbound(0).is_none());
}

#[test]
fn outbound_delivery_is_fifo() {
    let mut s = WebSocketServer::new();
    let a = s.accept_connection(1);
    let w = s.next_outbound(a).unwrap();
    assert_eq!(w.message_type, "WELCOME");
    for i in 0..5u64 {
        s.send_to_extension(a, msg("TAGGED", &i.to_string(), i));
    }
    for i in 0..5u64 {
        let m = s.next_outbound(a).expect("queued message");
        assert_eq!(m.data, i.to_string());
        assert_eq!(m.timestamp, i);
    }
    assert!(s.next_outbound(a).is_none());
}

#[test]
fn full_channel_drops_the_newest() {
    let mut s = WebSocketServer::new();
    let a = s.accept_connection(1);
    // The welcome occupies one slot; fill the rest, then overflow by one.
    for i in 0..OUTBOUND_CAPACITY as u64 {
        s.send_to_extension(a, msg("TAGGED", &i.to_string(), i));
    }
    let w = s.next_outbound(a).unwrap();
    assert_eq!(w.message_type, "WELCOME");
    for i in 0..(OUTBOUND_CAPACITY as u64 - 1) {
        let m = s.next_outbound(a).expect("queued message");
        assert_eq!(m.data, i.to_string());
    }
    // The message that arrived at a full channel was discarded.
    assert!(s.next_outbound(a).is_none());
}

#[test]
fn malformed_frame_does_not_terminate_the_connection() {
    let mut s = WebSocketServer::new();
    let a = s.accept_connection(1);
    // Garbage bytes fail to decode: the reader hands in `None`.
    let out = s.handle_frame(None);
    assert_eq!(out, FrameOutcome::Discarded);
    assert_eq!(s.get_connected_extensions(), vec![a]);
    assert_eq!(s.bus.len(), 0);
    // A valid envelope afterwards is still processed and still relayed.
    let out = s.handle_frame(Some(msg("HANDSHAKE", "{}", 42)));
    assert_eq!(out, FrameOutcome::Relayed(MessageKind::Handshake));
    assert_eq!(s.bus.len(), 1);
    assert_eq!(s.bus[0].message_type, "HANDSHAKE");
}

#[test]
fn handshake_appears_on_the_bus_exactly_once() {
    let mut s = WebSocketServer::new();
    let a = s.accept_connection(100);
    let w = s.next_outbound(a).unwrap();
    assert_eq!(w.message_type, "WELCOME");
    assert_eq!(w.data, format!("{{\"connection_id\":{},\"timestamp\":100}}", a));
    let out = s.handle_frame(Some(msg("HANDSHAKE", "{}", 200)));
    assert_eq!(out, FrameOutcome::Relayed(MessageKind::Handshake));
    // The connection stays open and the envelope was republished once.
    assert_eq!(s.get_connected_extensions(), vec![a]);
    assert_eq!(s.bus.len(), 1);
    assert_eq!(s.bus[0].message_type, "HANDSHAKE");
    assert_eq!(s.bus[0].data, "{}");
    assert_eq!(s.bus[0].timestamp, 200);
}

#[test]
fn broadcast_reaches_each_subscribed_session_once() {
    let mut s = WebSocketServer::new();
    let a = s.accept_connection(1);
    let b = s.accept_connection(2);
    assert_eq!(s.next_outbound(a).unwrap().message_type, "WELCOME");
    assert_eq!(s.next_outbound(b).unwrap().message_type, "WELCOME");
    s.broadcast_message(msg("PING", "1", 777));
    // A third client connecting after the broadcast receives nothing from it.
    let c = s.accept_connection(3);
    for id in [a, b] {
        let m = s.next_outbound(id).expect("one PING per session");
        assert_eq!(m.message_type, "PING");
        assert_eq!(m.data, "1");
        assert_eq!(m.timestamp, 777);
        assert!(s.next_outbound(id).is_none());
    }
    assert_eq!(s.next_outbound(c).unwrap().message_type, "WELCOME");
    assert!(s.next_outbound(c).is_none());
}

#[test]
fn abrupt_disconnect_removes_the_id() {
    let mut s = WebSocketServer::new();
    let a = s.accept_connection(1);
    let b = s.accept_connection(2);
    // Transport reset: the handler tears the session down in one step.
    assert!(s.remove_connection(a));
    let ids = s.get_connected_extensions();
    assert!(!ids.contains(&a));
    assert_eq!(ids, vec![b]);
}

#[test]
fn dispatch_recognizes_the_operational_types() {
    assert_eq!(classify_message(&"HANDSHAKE".to_string()), MessageKind::Handshake);
    assert_eq!(
        classify_message(&"CODE_SNIPPET_CAPTURED".to_string()),
        MessageKind::CodeSnippetCaptured
    );
    assert_eq!(
        classify_message(&"ANALYZE_CODE_REQUEST".to_string()),
        MessageKind::AnalyzeCodeRequest
    );
    assert_eq!(classify_message(&"SEND_TO_DESKTOP".to_string()), MessageKind::SendToDesktop);
    assert_eq!(classify_message(&"PING".to_string()), MessageKind::Unknown);
    // Case-sensitive, exact match only.
    assert_eq!(classify_message(&"handshake".to_string()), MessageKind::Unknown);
}

#[test]
fn unknown_types_are_still_relayed() {
    let mut s = WebSocketServer::new();
    s.accept_connection(1);
    let out = s.handle_frame(Some(msg("SOMETHING_ELSE", "7", 9)));
    assert_eq!(out, FrameOutcome::Relayed(MessageKind::Unknown));
    assert_eq!(s.bus.len(), 1);
    assert_eq!(s.bus[0].message_type, "SOMETHING_ELSE");
}

#[test]
fn envelope_from_parts_applies_the_defaults() {
    let m = envelope_from_parts(Some("PING".to_string()), Some("1".to_string()), 10);
    assert_eq!(m.message_type, "PING");
    assert_eq!(m.data, "1");
    assert_eq!(m.timestamp, 10);
    assert_eq!(m.source.as_deref(), Some("desktop"));
    let m = envelope_from_parts(None, None, 11);
    assert_eq!(m.message_type, "UNKNOWN");
    assert_eq!(m.data, "null");
    assert_eq!(m.timestamp, 11);
    assert_eq!(m.source.as_deref(), Some("desktop"));
}

#[test]
fn welcome_envelope_shape() {
    let w = make_welcome(3, 1234);
    assert_eq!(w.message_type, "WELCOME");
    assert_eq!(w.data, "{\"connection_id\":3,\"timestamp\":1234}");
    assert_eq!(w.timestamp, 1234);
    assert_eq!(w.source.as_deref(), Some("desktop"));
}

#[test]
fn decimal_rendering() {
    assert_eq!(u64_to_string(0), "0");
    assert_eq!(u64_to_string(7), "7");
    assert_eq!(u64_to_string(10), "10");
    assert_eq!(u64_to_string(1234567890), "1234567890");
    assert_eq!(u64_to_string(u64::MAX), "18446744073709551615");
}
