use mconnect::discovery::{
    announcement_text, handle_datagram, make_announcement, DatagramOutcome, Discovery,
    ListenerPhase,
};
use mconnect::engine::{run, Action, Core, Event};
use mconnect::identity::{identity_from_json, identity_to_json, DeviceIdentity, DeviceType};
use mconnect::packet::{body_value, decode};
use mconnect::registry::{Address, ConnectionState, HandshakeOutcome, Registry, TrustState};

fn identity(id: &str, version: u32) -> DeviceIdentity {
    DeviceIdentity {
        device_id: id.to_string(),
        device_name: format!("{} device", id),
        device_type: DeviceType::Phone,
        protocol_version: version,
        incoming_capabilities: vec!["kdeconnect.ping".to_string()],
        outgoing_capabilities: vec!["kdeconnect.ping".to_string()],
    }
}

#[test]
fn discovery_records_responding_peer() {
    // local identity A, protocol 7, broadcasts; B answers with its identity
    let a = identity("A", 7);
    let b = identity("B", 7);
    let datagram = announcement_text(&b, &"1".to_string());

    let mut reg = Registry::new();
    let outcome = handle_datagram(
        &mut reg,
        &a.device_id,
        &datagram,
        Address { ip: 42, port: 1716 },
        5,
    );
    assert_eq!(outcome, DatagramOutcome::Recorded);
    assert_eq!(reg.records.len(), 1);
    let rec = &reg.records[0];
    assert_eq!(rec.identity.device_id, "B");
    assert_eq!(rec.identity.protocol_version, 7);
    assert_eq!(rec.trust_state, TrustState::Unknown);
    assert_eq!(rec.connection_state, ConnectionState::Disconnected);
}

#[test]
fn malformed_datagram_is_dropped_listener_keeps_running() {
    let a = identity("A", 7);
    let mut listener = Discovery::new();
    listener.on_bind(true);
    listener.on_start();
    assert_eq!(listener.phase, ListenerPhase::Running);

    let mut reg = Registry::new();
    let outcome = handle_datagram(
        &mut reg,
        &a.device_id,
        "not json",
        Address { ip: 9, port: 9 },
        1,
    );
    assert_eq!(outcome, DatagramOutcome::DroppedMalformed);
    assert_eq!(reg.records.len(), 0);
    assert_eq!(listener.phase, ListenerPhase::Running);

    // the next valid datagram is still processed
    let b = identity("B", 7);
    let datagram = announcement_text(&b, &"2".to_string());
    let outcome = handle_datagram(
        &mut reg,
        &a.device_id,
        &datagram,
        Address { ip: 42, port: 1716 },
        2,
    );
    assert_eq!(outcome, DatagramOutcome::Recorded);
    assert_eq!(reg.records.len(), 1);
}

#[test]
fn own_announcement_is_filtered() {
    let a = identity("A", 7);
    let datagram = announcement_text(&a, &"1".to_string());
    let mut reg = Registry::new();
    let outcome = handle_datagram(
        &mut reg,
        &a.device_id,
        &datagram,
        Address { ip: 1, port: 1716 },
        1,
    );
    assert_eq!(outcome, DatagramOutcome::DroppedSelf);
    assert_eq!(reg.records.len(), 0);
}

#[test]
fn non_identity_packet_is_dropped() {
    let a = identity("A", 7);
    let mut reg = Registry::new();
    let outcome = handle_datagram(
        &mut reg,
        &a.device_id,
        "{\"type\":\"kdeconnect.ping\",\"id\":\"1\",\"body\":null}\n",
        Address { ip: 1, port: 1716 },
        1,
    );
    assert_eq!(outcome, DatagramOutcome::DroppedNonIdentity);
    assert_eq!(reg.records.len(), 0);
}

#[test]
fn announcement_decodes_to_the_same_identity() {
    let a = identity("A", 7);
    let p = make_announcement(&a, &"77".to_string());
    assert_eq!(p.typ, "protocol.identity");
    assert_eq!(p.id, "77");
    let text = announcement_text(&a, &"77".to_string());
    let ip = decode(&text).unwrap();
    assert_eq!(ip.typ, "protocol.identity");
    let body = body_value(&ip).unwrap();
    assert_eq!(identity_from_json(&body), Some(identity("A", 7)));
}

#[test]
fn identity_json_round_trip() {
    let d = identity("gadget", 7);
    let v = identity_to_json(&d);
    assert_eq!(identity_from_json(&v), Some(identity("gadget", 7)));
}

#[test]
fn engine_announces_and_records() {
    let mut core = Core::new(identity("A", 7));
    let actions = run(
        &mut core,
        Event::AnnounceDue {
            packet_id: "1".to_string(),
        },
    );
    assert_eq!(actions.len(), 1);
    let text = match &actions[0] {
        Action::Broadcast { text } => text,
        other => panic!("unexpected action: {:?}", other),
    };
    let ip = decode(text).unwrap();
    assert_eq!(ip.typ, "protocol.identity");

    // feed B's answer in
    let b = identity("B", 7);
    let datagram = announcement_text(&b, &"2".to_string());
    let actions = run(
        &mut core,
        Event::Datagram {
            text: datagram,
            source: Address { ip: 4, port: 1716 },
            now: 3,
        },
    );
    assert_eq!(actions.len(), 0);
    assert_eq!(core.registry.records.len(), 1);
    assert_eq!(core.registry.records[0].identity.device_id, "B");
}

#[test]
fn engine_runs_a_pairing_attempt() {
    let mut core = Core::new(identity("A", 7));
    let b = identity("B", 7);
    let datagram = announcement_text(&b, &"1".to_string());
    run(
        &mut core,
        Event::Datagram {
            text: datagram,
            source: Address { ip: 4, port: 1716 },
            now: 1,
        },
    );

    // first connect attempt wins the token, a racing second one gets nothing
    let actions = run(
        &mut core,
        Event::BeginConnect {
            device_id: "B".to_string(),
        },
    );
    assert_eq!(actions.len(), 1);
    let racing = run(
        &mut core,
        Event::BeginConnect {
            device_id: "B".to_string(),
        },
    );
    assert_eq!(racing.len(), 0);

    let token = match actions.into_iter().next().unwrap() {
        Action::OpenTransport { token } => token,
        other => panic!("unexpected action: {:?}", other),
    };
    run(
        &mut core,
        Event::HandshakeSettled {
            token,
            outcome: HandshakeOutcome::Success {
                fingerprint: "FP-B".to_string(),
            },
        },
    );
    assert_eq!(
        core.registry.records[0].connection_state,
        ConnectionState::Active
    );
    assert_eq!(core.registry.records[0].trust_state, TrustState::Paired);
}

#[test]
fn reordered_identity_record_is_recorded() {
    let a = identity("A", 7);
    let b = identity("B", 7);
    let t = announcement_text(&b, &"1".to_string());
    let body_raw = decode(&t).unwrap().body;
    let reordered = format!(
        "{{\"id\":\"1\",\"type\":\"protocol.identity\",\"body\":{}}}\n",
        body_raw
    );
    let mut reg = Registry::new();
    let outcome = handle_datagram(
        &mut reg,
        &a.device_id,
        &reordered,
        Address { ip: 7, port: 1716 },
        1,
    );
    assert_eq!(outcome, DatagramOutcome::Recorded);
    assert_eq!(reg.records.len(), 1);
    assert_eq!(reg.records[0].identity.device_id, "B");
}
