use mconnect::identity::{DeviceIdentity, DeviceType};
use mconnect::registry::{
    Address, BeginError, CompleteError, ConnectionState, HandshakeOutcome, Registry, TrustState,
};

fn identity(id: &str, name: &str) -> DeviceIdentity {
    DeviceIdentity {
        device_id: id.to_string(),
        device_name: name.to_string(),
        device_type: DeviceType::Desktop,
        protocol_version: 7,
        incoming_capabilities: vec![],
        outgoing_capabilities: vec![],
    }
}

fn addr(ip: u32, port: u16) -> Address {
    Address { ip, port }
}

#[test]
fn observe_creates_unknown_disconnected() {
    let mut reg = Registry::new();
    reg.observe(identity("B", "bee"), addr(1, 1716), 10);
    assert_eq!(reg.records.len(), 1);
    assert_eq!(reg.records[0].identity.device_id, "B");
    assert_eq!(reg.records[0].trust_state, TrustState::Unknown);
    assert_eq!(reg.records[0].connection_state, ConnectionState::Disconnected);
    assert_eq!(reg.records[0].certificate_fingerprint, None);
}

#[test]
fn observe_is_idempotent() {
    let mut reg = Registry::new();
    reg.observe(identity("B", "bee"), addr(1, 1716), 10);
    reg.observe(identity("B", "bee"), addr(1, 1716), 11);
    reg.observe(identity("B", "bee renamed"), addr(2, 1716), 12);
    assert_eq!(reg.records.len(), 1);
    assert_eq!(reg.records[0].identity.device_name, "bee renamed");
    assert_eq!(reg.records[0].network_address, addr(2, 1716));
    assert_eq!(reg.records[0].last_seen, 12);
}

#[test]
fn begin_handshake_exclusive() {
    let mut reg = Registry::new();
    reg.observe(identity("B", "bee"), addr(1, 1716), 10);
    let first = reg.begin_handshake(&"B".to_string());
    let second = reg.begin_handshake(&"B".to_string());
    assert!(first.is_ok());
    assert_eq!(second, Err(BeginError::Busy));
}

#[test]
fn begin_handshake_unknown_device() {
    let mut reg = Registry::new();
    assert_eq!(
        reg.begin_handshake(&"nobody".to_string()),
        Err(BeginError::UnknownDevice)
    );
}

#[test]
fn trust_survives_observe_and_disconnect() {
    let mut reg = Registry::new();
    reg.observe(identity("B", "bee"), addr(1, 1716), 10);
    let token = reg.begin_handshake(&"B".to_string()).unwrap();
    reg.complete_handshake(
        token,
        HandshakeOutcome::Success {
            fingerprint: "FP".to_string(),
        },
    )
    .unwrap();
    assert_eq!(reg.records[0].trust_state, TrustState::Paired);
    assert_eq!(reg.records[0].connection_state, ConnectionState::Active);

    reg.on_disconnect(&"B".to_string());
    assert_eq!(reg.records[0].connection_state, ConnectionState::Disconnected);
    assert_eq!(reg.records[0].trust_state, TrustState::Paired);

    reg.observe(identity("B", "bee again"), addr(3, 1716), 20);
    assert_eq!(reg.records.len(), 1);
    assert_eq!(reg.records[0].trust_state, TrustState::Paired);
    assert_eq!(
        reg.records[0].certificate_fingerprint,
        Some("FP".to_string())
    );
}

#[test]
fn fingerprint_mismatch_is_refused() {
    let mut reg = Registry::new();
    reg.observe(identity("B", "bee"), addr(1, 1716), 10);
    let token = reg.begin_handshake(&"B".to_string()).unwrap();
    reg.complete_handshake(
        token,
        HandshakeOutcome::Success {
            fingerprint: "FP-ONE".to_string(),
        },
    )
    .unwrap();
    reg.on_disconnect(&"B".to_string());

    let token = reg.begin_handshake(&"B".to_string()).unwrap();
    let r = reg.complete_handshake(
        token,
        HandshakeOutcome::Success {
            fingerprint: "FP-OTHER".to_string(),
        },
    );
    assert_eq!(r, Err(CompleteError::FingerprintMismatch));
    assert_ne!(reg.records[0].connection_state, ConnectionState::Active);
    assert_eq!(reg.records[0].connection_state, ConnectionState::Disconnected);
    assert_eq!(
        reg.records[0].certificate_fingerprint,
        Some("FP-ONE".to_string())
    );
}

#[test]
fn failed_handshake_returns_to_disconnected() {
    let mut reg = Registry::new();
    reg.observe(identity("B", "bee"), addr(1, 1716), 10);
    let token = reg.begin_handshake(&"B".to_string()).unwrap();
    reg.complete_handshake(token, HandshakeOutcome::Failure).unwrap();
    assert_eq!(reg.records[0].connection_state, ConnectionState::Disconnected);
    assert_eq!(reg.records[0].trust_state, TrustState::Unknown);

    // the exclusivity token is released: a new attempt may begin
    assert!(reg.begin_handshake(&"B".to_string()).is_ok());
}

#[test]
fn evict_stale_keeps_active_and_recent() {
    let mut reg = Registry::new();
    reg.observe(identity("old", "o"), addr(1, 1), 0);
    reg.observe(identity("fresh", "f"), addr(2, 2), 95);
    reg.observe(identity("busy", "b"), addr(3, 3), 0);
    let token = reg.begin_handshake(&"busy".to_string()).unwrap();
    reg.complete_handshake(
        token,
        HandshakeOutcome::Success {
            fingerprint: "FP".to_string(),
        },
    )
    .unwrap();

    reg.evict_stale(100, 10);
    assert_eq!(reg.records.len(), 2);
    assert_eq!(reg.records[0].identity.device_id, "fresh");
    assert_eq!(reg.records[1].identity.device_id, "busy");
}
