//! The protocol core's event loop body.  The surroundings own the sockets,
//! clocks and timers; they hand each occurrence in as an `Event`, and `run`
//! returns what must be performed.  Every decision between the two is taken
//! and verified here.
use vstd::prelude::*;

use crate::discovery::{
    announcement_text, datagram_effect, datagram_sound, datagram_sound_tolerant, handle_datagram,
    DatagramOutcome, Discovery,
};
use crate::dispatcher::Dispatcher;
use crate::identity::{identity_body_shape, DeviceIdentity};
use crate::json::JsonValue;
use crate::packet::{record_chars, spec_identity_type};
use crate::registry::{
    begin_spec, observe_spec, spec_find, Address, BeginError, ConnectionState, DeviceRecord,
    HandshakeOutcome, HandshakeToken, Registry, TrustState,
};

verus! {

/// The whole protocol core: local identity, peer table, discovery phase and
/// consumer table.
#[derive(Debug, PartialEq, Eq)]
pub struct Core {
    pub local: DeviceIdentity,
    pub registry: Registry,
    pub discovery: Discovery,
    pub dispatcher: Dispatcher,
}

/// One occurrence the surroundings report.
#[derive(Debug, PartialEq, Eq)]
pub enum Event {
    /// A datagram arrived on the discovery socket.
    Datagram { text: String, source: Address, now: u64 },
    /// The broadcast interval elapsed; `packet_id` correlates the packet.
    AnnounceDue { packet_id: String },
    /// The connection to a device closed.
    PeerDisconnected { device_id: String },
    /// This side wants to connect to a device.
    BeginConnect { device_id: String },
    /// A handshake attempt ended; the token returns with the outcome.
    HandshakeSettled { token: HandshakeToken, outcome: HandshakeOutcome },
}

/// One thing the surroundings must perform.
#[derive(Debug, PartialEq, Eq)]
pub enum Action {
    /// Broadcast this text on the discovery port.
    Broadcast { text: String },
    /// Open a transport to the device and run the handshake, holding this
    /// exclusive token.
    OpenTransport { token: HandshakeToken },
}

impl Core {
    pub fn new(local: DeviceIdentity) -> (r: Core)
        ensures
            r.registry.wf(),
            r.registry.records@.len() == 0,
            r.local == local,
    {
        Core {
            local,
            registry: Registry::new(),
            discovery: Discovery::new(),
            dispatcher: Dispatcher::new(),
        }
    }
}

/// One turn of the protocol core's loop: takes one event, returns the
/// actions to perform.  A due announcement broadcasts the local identity and
/// changes nothing; a datagram changes at most the registry, and only for a
/// well-formed peer identity; a disconnect returns that device to
/// `Disconnected` with its trust untouched.
pub fn run(core: &mut Core, event: Event) -> (actions: Vec<Action>)
    requires
        old(core).registry.wf(),
    ensures
        final(core).registry.wf(),
        final(core).local == old(core).local,
        final(core).discovery == old(core).discovery,
        final(core).dispatcher == old(core).dispatcher,
        (match event {
            Event::AnnounceDue { packet_id } => *final(core) == *old(core) && actions@.len() == 1
                && (match actions@[0] {
                    Action::Broadcast { text } => exists|b: JsonValue|
                        #![auto]
                        text@ == record_chars(spec_identity_type(), packet_id@, b)
                            && identity_body_shape(b, old(core).local),
                    _ => false,
                }),
            Event::Datagram { text, source, now } => actions@.len() == 0 && (final(core).registry
                == old(core).registry || datagram_sound(
                text@,
                old(core).local.device_id@,
                old(core).registry.records@,
                final(core).registry.records@,
                source,
                now,
            ) || datagram_sound_tolerant(
                text@,
                old(core).local.device_id@,
                old(core).registry.records@,
                final(core).registry.records@,
                source,
                now,
            )) && datagram_effect(
                text@,
                old(core).local.device_id@,
                old(core).registry.records@,
                final(core).registry.records@,
                source,
                now,
            ),
            Event::PeerDisconnected { device_id } => actions@.len() == 0 && ({
                let i = spec_find(old(core).registry.records@, device_id@);
                if i >= 0 && old(core).registry.records@[i].connection_state
                    is Active {
                    final(core).registry.records@ == old(core).registry.records@.update(
                        i,
                        DeviceRecord {
                            connection_state: ConnectionState::Disconnected,
                            ..old(core).registry.records@[i]
                        },
                    )
                } else {
                    final(core).registry == old(core).registry
                }
            }),
            Event::BeginConnect { device_id } => final(core).registry.records@ == begin_spec(
                old(core).registry.records@,
                device_id@,
            ).0 && (begin_spec(old(core).registry.records@, device_id@).1 <==> actions@.len()
                == 1) && (!begin_spec(old(core).registry.records@, device_id@).1
                ==> actions@.len() == 0) && (actions@.len() == 1 ==> (match actions@[0] {
                Action::OpenTransport { token } => token.device_id@ == device_id@,
                _ => false,
            })),
            Event::HandshakeSettled { token, outcome } => actions@.len() == 0 && ({
                let i = spec_find(old(core).registry.records@, token.device_id@);
                &&& (i < 0 ==> final(core).registry == old(core).registry)
                &&& (i >= 0 ==> {
                    let rec = old(core).registry.records@[i];
                    if !(rec.connection_state is Identifying || rec.connection_state
                        is AwaitingPairDecision) {
                        final(core).registry == old(core).registry
                    } else {
                        match outcome {
                            HandshakeOutcome::Failure => final(core).registry.records@ == old(
                                core,
                            ).registry.records@.update(
                                i,
                                DeviceRecord {
                                    connection_state: ConnectionState::Disconnected,
                                    ..rec
                                },
                            ),
                            HandshakeOutcome::Success { fingerprint } => {
                                if rec.certificate_fingerprint matches Some(fp) && fp@
                                    != fingerprint@ {
                                    // a mismatching fingerprint never activates
                                    final(core).registry.records@ == old(
                                        core,
                                    ).registry.records@.update(
                                        i,
                                        DeviceRecord {
                                            connection_state: ConnectionState::Disconnected,
                                            ..rec
                                        },
                                    ) && !(final(core).registry.records@[i].connection_state
                                        is Active)
                                } else {
                                    final(core).registry.records@ == old(
                                        core,
                                    ).registry.records@.update(
                                        i,
                                        DeviceRecord {
                                            trust_state: TrustState::Paired,
                                            connection_state: ConnectionState::Active,
                                            certificate_fingerprint: Some(fingerprint),
                                            ..rec
                                        },
                                    )
                                }
                            },
                        }
                    }
                })
            }),
        }),
{
    match event {
        Event::AnnounceDue { packet_id } => {
            let text = announcement_text(&core.local, &packet_id);
            let mut actions: Vec<Action> = Vec::new();
            actions.push(Action::Broadcast { text });
            actions
        },
        Event::Datagram { text, source, now } => {
            let ghost olds = core.registry.records@;
            let outcome = handle_datagram(
                &mut core.registry,
                &core.local.device_id,
                text.as_str(),
                source,
                now,
            );
            proof {
                assert forall|id: Seq<char>, b: JsonValue, d: DeviceIdentity|
                    text@ == record_chars(spec_identity_type(), id, b) && identity_body_shape(
                        b,
                        d,
                    ) implies (if d.device_id@ == core.local.device_id@ {
                    core.registry.records@ == olds
                } else {
                    crate::registry::has_device(core.registry.records@, d.device_id@) && (exists|
                        d2: DeviceIdentity,
                    |
                        #![auto]
                        identity_body_shape(b, d2) && core.registry.records@ == observe_spec(
                            olds,
                            d2,
                            source,
                            now,
                        ))
                }) by {
                    if d.device_id@ == core.local.device_id@ {
                        assert(outcome == DatagramOutcome::DroppedSelf);
                    } else {
                        assert(outcome == DatagramOutcome::Recorded);
                    }
                }
                assert(datagram_effect(
                    text@,
                    core.local.device_id@,
                    olds,
                    core.registry.records@,
                    source,
                    now,
                ));
            }
            Vec::new()
        },
        Event::PeerDisconnected { device_id } => {
            core.registry.on_disconnect(&device_id);
            Vec::new()
        },
        Event::BeginConnect { device_id } => {
            let mut actions: Vec<Action> = Vec::new();
            match core.registry.begin_handshake(&device_id) {
                Ok(token) => {
                    actions.push(Action::OpenTransport { token });
                },
                Err(_) => {},
            }
            actions
        },
        Event::HandshakeSettled { token, outcome } => {
            let _ = core.registry.complete_handshake(token, outcome);
            Vec::new()
        },
    }
}

} // verus!
