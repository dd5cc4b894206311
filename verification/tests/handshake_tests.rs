use mconnect::dispatcher::{send, Dispatcher, SendError};
use mconnect::handshake::{
    handshake_step, AttemptContext, AttemptState, HandshakeAction, HandshakeError, HandshakeEvent,
};
use mconnect::identity::{DeviceIdentity, DeviceType};
use mconnect::json::JsonValue;
use mconnect::packet::Packet;
use mconnect::registry::{
    Address, ConnectionState, HandshakeOutcome, Registry, TrustState,
};

fn identity(id: &str, version: u32) -> DeviceIdentity {
    DeviceIdentity {
        device_id: id.to_string(),
        device_name: format!("{} device", id),
        device_type: DeviceType::Laptop,
        protocol_version: version,
        incoming_capabilities: vec![],
        outgoing_capabilities: vec![],
    }
}

/// Runs one side's attempt over the given events, returning the final state
/// and every action requested along the way.
fn drive(
    ctx: &AttemptContext,
    events: Vec<HandshakeEvent>,
) -> (AttemptState, Vec<HandshakeAction>) {
    let mut st = AttemptState::Connecting;
    let mut actions = Vec::new();
    for ev in events {
        let (next, action) = handshake_step(st, ev, ctx);
        st = next;
        if let Some(a) = action {
            actions.push(a);
        }
    }
    (st, actions)
}

#[test]
fn pairing_scenario_both_sides_end_active_with_one_save() {
    let fp_b = "FP-OF-B".to_string();
    let fp_a = "FP-OF-A".to_string();

    // side A initiates toward B
    let ctx_a = AttemptContext {
        local_version: 7,
        known_fingerprint: None,
        already_paired: false,
        initiated_locally: true,
    };
    let (st_a, actions_a) = drive(
        &ctx_a,
        vec![
            HandshakeEvent::Connected,
            HandshakeEvent::PeerIdentity(identity("B", 7)),
            HandshakeEvent::SecuringStarted,
            HandshakeEvent::ChannelSecured {
                fingerprint: fp_b.clone(),
            },
            HandshakeEvent::PeerPair(true),
        ],
    );
    assert_eq!(
        st_a,
        AttemptState::Accepted {
            fingerprint: fp_b.clone()
        }
    );
    assert_eq!(
        actions_a,
        vec![
            HandshakeAction::SendIdentity,
            HandshakeAction::SecureChannel,
            HandshakeAction::SendPairRequest,
            HandshakeAction::PersistFingerprint {
                fingerprint: fp_b.clone()
            },
        ]
    );
    // exactly one save of B's fingerprint
    let saves_a = actions_a
        .iter()
        .filter(|a| matches!(a, HandshakeAction::PersistFingerprint { .. }))
        .count();
    assert_eq!(saves_a, 1);

    // side B answers; its approval surface says yes
    let ctx_b = AttemptContext {
        local_version: 7,
        known_fingerprint: None,
        already_paired: false,
        initiated_locally: false,
    };
    let (st_b, actions_b) = drive(
        &ctx_b,
        vec![
            HandshakeEvent::Connected,
            HandshakeEvent::PeerIdentity(identity("A", 7)),
            HandshakeEvent::SecuringStarted,
            HandshakeEvent::ChannelSecured {
                fingerprint: fp_a.clone(),
            },
            HandshakeEvent::PeerPair(true),
            HandshakeEvent::LocalPairDecision(true),
        ],
    );
    assert_eq!(
        st_b,
        AttemptState::Accepted {
            fingerprint: fp_a.clone()
        }
    );
    assert!(actions_b.contains(&HandshakeAction::AskApproval));
    let saves_b = actions_b
        .iter()
        .filter(|a| matches!(a, HandshakeAction::PersistFingerprint { .. }))
        .count();
    assert_eq!(saves_b, 1);

    // both registries settle on Active and Paired
    let mut reg_a = Registry::new();
    reg_a.observe(identity("B", 7), Address { ip: 2, port: 1716 }, 1);
    let token = reg_a.begin_handshake(&"B".to_string()).unwrap();
    reg_a
        .complete_handshake(token, HandshakeOutcome::Success { fingerprint: fp_b })
        .unwrap();
    assert_eq!(reg_a.records[0].connection_state, ConnectionState::Active);
    assert_eq!(reg_a.records[0].trust_state, TrustState::Paired);

    let mut reg_b = Registry::new();
    reg_b.observe(identity("A", 7), Address { ip: 1, port: 1716 }, 1);
    let token = reg_b.begin_handshake(&"A".to_string()).unwrap();
    reg_b
        .complete_handshake(token, HandshakeOutcome::Success { fingerprint: fp_a })
        .unwrap();
    assert_eq!(reg_b.records[0].connection_state, ConnectionState::Active);
    assert_eq!(reg_b.records[0].trust_state, TrustState::Paired);
}

#[test]
fn incompatible_version_fails_handshake() {
    let ctx = AttemptContext {
        local_version: 7,
        known_fingerprint: None,
        already_paired: false,
        initiated_locally: true,
    };
    let (st, _) = handshake_step(
        AttemptState::Connecting,
        HandshakeEvent::PeerIdentity(identity("B", 8)),
        &ctx,
    );
    assert_eq!(st, AttemptState::Failed(HandshakeError::VersionIncompatible));
}

#[test]
fn fingerprint_mismatch_fails_securing() {
    let ctx = AttemptContext {
        local_version: 7,
        known_fingerprint: Some("RECORDED".to_string()),
        already_paired: true,
        initiated_locally: true,
    };
    let (st, action) = handshake_step(
        AttemptState::SecuringChannel,
        HandshakeEvent::ChannelSecured {
            fingerprint: "DIFFERENT".to_string(),
        },
        &ctx,
    );
    assert_eq!(st, AttemptState::Failed(HandshakeError::IdentityMismatch));
    assert_eq!(action, None);
}

#[test]
fn matching_fingerprint_of_paired_device_skips_pairing() {
    let ctx = AttemptContext {
        local_version: 7,
        known_fingerprint: Some("SAME".to_string()),
        already_paired: true,
        initiated_locally: true,
    };
    let (st, _) = handshake_step(
        AttemptState::SecuringChannel,
        HandshakeEvent::ChannelSecured {
            fingerprint: "SAME".to_string(),
        },
        &ctx,
    );
    assert_eq!(
        st,
        AttemptState::Accepted {
            fingerprint: "SAME".to_string()
        }
    );
}

#[test]
fn pair_rejection_and_timeout_end_rejected() {
    let ctx = AttemptContext {
        local_version: 7,
        known_fingerprint: None,
        already_paired: false,
        initiated_locally: false,
    };
    let pending = AttemptState::PairPending {
        fingerprint: "FP".to_string(),
    };
    let (st, action) = handshake_step(pending, HandshakeEvent::LocalPairDecision(false), &ctx);
    assert_eq!(st, AttemptState::Rejected);
    assert_eq!(action, Some(HandshakeAction::SendPairReject));

    let pending = AttemptState::PairPending {
        fingerprint: "FP".to_string(),
    };
    let (st, action) = handshake_step(pending, HandshakeEvent::PairDecisionTimeout, &ctx);
    assert_eq!(st, AttemptState::Rejected);
    assert_eq!(action, None);

    let pending = AttemptState::PairPending {
        fingerprint: "FP".to_string(),
    };
    let (st, _) = handshake_step(pending, HandshakeEvent::PeerPair(false), &ctx);
    assert_eq!(st, AttemptState::Rejected);
}

#[test]
fn identity_timeout_fails_attempt() {
    let ctx = AttemptContext {
        local_version: 7,
        known_fingerprint: None,
        already_paired: false,
        initiated_locally: true,
    };
    let (st, _) = handshake_step(
        AttemptState::Connecting,
        HandshakeEvent::IdentityTimeout,
        &ctx,
    );
    assert_eq!(st, AttemptState::Failed(HandshakeError::IdentityTimeout));
}

#[test]
fn dispatcher_routes_by_type() {
    let mut d = Dispatcher::new();
    d.register_consumer("kdeconnect.ping".to_string());
    d.register_consumer("kdeconnect.clipboard".to_string());
    d.register_consumer("kdeconnect.ping".to_string());
    assert_eq!(d.route(&"kdeconnect.ping".to_string()), Some(0));
    assert_eq!(d.route(&"kdeconnect.clipboard".to_string()), Some(1));
    // unknown types go to the default sink, not to an error
    assert_eq!(d.route(&"kdeconnect.unheard-of".to_string()), None);
}

#[test]
fn send_requires_active_connection() {
    let p = Packet {
        typ: "kdeconnect.ping".to_string(),
        id: "9".to_string(),
        body: JsonValue::Null,
    };
    let sent = send(ConnectionState::Active, &p).unwrap();
    assert_eq!(
        sent,
        "{\"type\":\"kdeconnect.ping\",\"id\":\"9\",\"body\":null}\n"
    );
    assert_eq!(
        send(ConnectionState::Disconnected, &p),
        Err(SendError::NotConnected)
    );
    assert_eq!(
        send(ConnectionState::Identifying, &p),
        Err(SendError::NotConnected)
    );
}

#[test]
fn pair_control_packet_round_trips() {
    let p = Packet {
        typ: mconnect::packet::pair_type().to_string(),
        id: "5".to_string(),
        body: JsonValue::Obj(vec![("pair".to_string(), JsonValue::Bool(true))]),
    };
    let s = send(ConnectionState::Active, &p).unwrap();
    assert_eq!(
        s,
        "{\"type\":\"protocol.pair\",\"id\":\"5\",\"body\":{\"pair\":true}}\n"
    );
    let ip = mconnect::packet::decode(&s).unwrap();
    assert_eq!(ip.typ, "protocol.pair");
    assert_eq!(ip.body, "{\"pair\":true}");
}

#[test]
fn malformed_identity_reply_fails_attempt() {
    let ctx = AttemptContext {
        local_version: 7,
        known_fingerprint: None,
        already_paired: false,
        initiated_locally: true,
    };
    let (st, action) = handshake_step(
        AttemptState::Connecting,
        HandshakeEvent::PeerIdentityInvalid,
        &ctx,
    );
    assert_eq!(st, AttemptState::Failed(HandshakeError::IdentityInvalid));
    assert_eq!(action, None);

    // the registry token is released and the device returns to Disconnected
    let mut reg = Registry::new();
    reg.observe(identity("B", 7), Address { ip: 1, port: 1716 }, 1);
    let token = reg.begin_handshake(&"B".to_string()).unwrap();
    reg.complete_handshake(token, HandshakeOutcome::Failure).unwrap();
    assert_eq!(reg.records[0].connection_state, ConnectionState::Disconnected);
    assert!(reg.begin_handshake(&"B".to_string()).is_ok());
}
