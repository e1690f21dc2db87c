use load_balancer::handler::{Relay, RelayAction, RelayEvent, RelayPhase};

fn forward(relay: &mut Relay, chunks: &[&[u8]]) -> Vec<u8> {
    let mut out = Vec::new();
    for c in chunks {
        match relay.on_event(RelayEvent::Read(c.to_vec())) {
            RelayAction::Write(bytes) => out.extend_from_slice(&bytes),
            _ => panic!("data must be written"),
        }
    }
    out
}

#[test]
fn fragmented_payload_is_relayed_exactly() {
    let payload: Vec<u8> = (0..=255u8).cycle().take(10_000).collect();
    let chunks: Vec<&[u8]> = payload.chunks(7).collect();
    let mut relay = Relay::new();
    let out = forward(&mut relay, &chunks);
    assert_eq!(out, payload);
    assert_eq!(relay.phase(), RelayPhase::Streaming);
}

#[test]
fn single_byte_chunks_keep_order() {
    let mut relay = Relay::new();
    let out = forward(&mut relay, &[b"h", b"e", b"l", b"l", b"o"]);
    assert_eq!(out, b"hello".to_vec());
}

#[test]
fn clean_end_half_closes() {
    let mut upstream = Relay::new();
    let downstream = Relay::new();
    forward(&mut upstream, &[b"GET / HTTP/1.1\r\n\r\n"]);
    assert!(matches!(upstream.on_event(RelayEvent::Read(Vec::new())), RelayAction::CloseWrite));
    assert!(upstream.is_done());
    assert_eq!(upstream.phase(), RelayPhase::Finished);
    // the other direction keeps running
    assert!(!downstream.is_done());
}

#[test]
fn downstream_keeps_relaying_after_upstream_closes() {
    let mut upstream = Relay::new();
    let mut downstream = Relay::new();
    assert!(matches!(upstream.on_event(RelayEvent::Read(Vec::new())), RelayAction::CloseWrite));
    let out = forward(&mut downstream, &[b"HTTP/1.1 200 OK\r\n", b"\r\nbody"]);
    assert_eq!(out, b"HTTP/1.1 200 OK\r\n\r\nbody".to_vec());
}

#[test]
fn read_error_stops() {
    let mut relay = Relay::new();
    assert!(matches!(relay.on_event(RelayEvent::ReadFailed), RelayAction::Stop));
    assert_eq!(relay.phase(), RelayPhase::Failed);
}

#[test]
fn write_error_stops() {
    let mut relay = Relay::new();
    forward(&mut relay, &[b"abc"]);
    assert!(matches!(relay.on_event(RelayEvent::WriteFailed), RelayAction::Stop));
    assert_eq!(relay.phase(), RelayPhase::Failed);
}

#[test]
fn ended_relay_stays_ended() {
    let mut relay = Relay::new();
    relay.on_event(RelayEvent::Read(Vec::new()));
    assert!(matches!(relay.on_event(RelayEvent::Read(b"late".to_vec())), RelayAction::Stop));
    assert_eq!(relay.phase(), RelayPhase::Finished);
}
