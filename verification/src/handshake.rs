//! The pairing and connection handshake, one attempt at a time.
//!
//! The attempt is a pure state machine: `handshake_step` maps the current
//! state and one event to the next state and at most one action.  The caller
//! performs the actions (open transport, send packets, secure the channel,
//! ask the user, persist trust) and feeds the resulting events back in; every
//! decision, including the security checks, is taken here and verified.
use vstd::prelude::*;

use crate::identity::DeviceIdentity;

verus! {

/// Why a handshake attempt failed.
#[derive(Debug, PartialEq, Eq)]
pub enum HandshakeError {
    /// The peer's identity packet did not arrive in time.
    IdentityTimeout,
    /// The peer's identity packet could not be understood.
    IdentityInvalid,
    /// The peer speaks an incompatible protocol version.
    VersionIncompatible,
    /// The peer's certificate fingerprint differs from the recorded one:
    /// identifier reuse with different key material is treated as an attack,
    /// never as a silent update.
    IdentityMismatch,
    /// Securing the channel failed.
    ChannelFailed,
    /// The transport closed mid-attempt.
    TransportFailed,
    /// A packet arrived that this state cannot accept.
    ProtocolViolation,
}

/// Where one handshake attempt stands.  `Accepted`, `Rejected` and `Failed`
/// are terminal; a new attempt starts over at `Connecting`.
#[derive(Debug, PartialEq, Eq)]
pub enum AttemptState {
    Connecting,
    IdentityExchanged,
    SecuringChannel,
    PairPending { fingerprint: String },
    Accepted { fingerprint: String },
    Rejected,
    Failed(HandshakeError),
}

/// What the surroundings report into the attempt.
#[derive(Debug, PartialEq, Eq)]
pub enum HandshakeEvent {
    /// The transport is open.
    Connected,
    /// The peer's identity packet arrived.
    PeerIdentity(DeviceIdentity),
    /// What arrived in the identity exchange could not be understood as an
    /// identity packet.
    PeerIdentityInvalid,
    /// No identity packet arrived within the bound.
    IdentityTimeout,
    /// Channel upgrade has started.
    SecuringStarted,
    /// The channel is secure; the peer presented this fingerprint.
    ChannelSecured { fingerprint: String },
    /// The channel upgrade failed.
    ChannelFailed,
    /// A pair control packet arrived: request or accept (true), reject
    /// (false).
    PeerPair(bool),
    /// The local approval surface decided.
    LocalPairDecision(bool),
    /// The approval surface did not answer in time: an implicit rejection.
    PairDecisionTimeout,
    /// The transport closed.
    TransportClosed,
}

/// What the caller must do next.
#[derive(Debug, PartialEq, Eq)]
pub enum HandshakeAction {
    /// Send the local identity packet over the new transport.
    SendIdentity,
    /// Upgrade the transport to a secure channel.
    SecureChannel,
    /// Send a pair request control packet.
    SendPairRequest,
    /// Send a pair reject control packet.
    SendPairReject,
    /// Present `(device_id, device_name)` to the approval surface.
    AskApproval,
    /// Persist the fingerprint before the connection may become active.
    PersistFingerprint { fingerprint: String },
}

/// What the attempt knows about its device before it starts.
#[derive(Debug, PartialEq, Eq)]
pub struct AttemptContext {
    /// The local protocol version; a differing peer version is rejected.
    pub local_version: u32,
    /// The fingerprint recorded at first pairing, if any.
    pub known_fingerprint: Option<String>,
    /// Whether the device is already trusted as paired.
    pub already_paired: bool,
    /// Whether this side initiated the attempt.
    pub initiated_locally: bool,
}

pub open spec fn terminal(st: AttemptState) -> bool {
    st is Accepted || st is Rejected || st is Failed
}

/// The whole handshake decision table.
pub open spec fn step_spec(st: AttemptState, ev: HandshakeEvent, ctx: AttemptContext) -> (
    AttemptState,
    Option<HandshakeAction>,
) {
    if terminal(st) {
        (st, None)
    } else if ev is TransportClosed {
        (AttemptState::Failed(HandshakeError::TransportFailed), None)
    } else {
        match st {
            AttemptState::Connecting => match ev {
                HandshakeEvent::Connected => (
                    AttemptState::Connecting,
                    Some(HandshakeAction::SendIdentity),
                ),
                HandshakeEvent::PeerIdentity(d) => {
                    if d.protocol_version != ctx.local_version {
                        (AttemptState::Failed(HandshakeError::VersionIncompatible), None)
                    } else {
                        (AttemptState::IdentityExchanged, Some(HandshakeAction::SecureChannel))
                    }
                },
                HandshakeEvent::PeerIdentityInvalid => (
                    AttemptState::Failed(HandshakeError::IdentityInvalid),
                    None,
                ),
                HandshakeEvent::IdentityTimeout => (
                    AttemptState::Failed(HandshakeError::IdentityTimeout),
                    None,
                ),
                _ => (AttemptState::Failed(HandshakeError::ProtocolViolation), None),
            },
            AttemptState::IdentityExchanged => match ev {
                HandshakeEvent::SecuringStarted => (AttemptState::SecuringChannel, None),
                HandshakeEvent::ChannelFailed => (
                    AttemptState::Failed(HandshakeError::ChannelFailed),
                    None,
                ),
                _ => (AttemptState::Failed(HandshakeError::ProtocolViolation), None),
            },
            AttemptState::SecuringChannel => match ev {
                HandshakeEvent::ChannelSecured { fingerprint } => {
                    if ctx.known_fingerprint matches Some(f) && f@ != fingerprint@ {
                        (AttemptState::Failed(HandshakeError::IdentityMismatch), None)
                    } else if ctx.already_paired {
                        (AttemptState::Accepted { fingerprint }, None)
                    } else if ctx.initiated_locally {
                        (
                            AttemptState::PairPending { fingerprint },
                            Some(HandshakeAction::SendPairRequest),
                        )
                    } else {
                        (AttemptState::PairPending { fingerprint }, None)
                    }
                },
                HandshakeEvent::ChannelFailed => (
                    AttemptState::Failed(HandshakeError::ChannelFailed),
                    None,
                ),
                _ => (AttemptState::Failed(HandshakeError::ProtocolViolation), None),
            },
            AttemptState::PairPending { fingerprint } => match ev {
                HandshakeEvent::PeerPair(true) => {
                    if ctx.initiated_locally {
                        // the peer accepted our request
                        (
                            AttemptState::Accepted { fingerprint },
                            Some(HandshakeAction::PersistFingerprint { fingerprint }),
                        )
                    } else {
                        // the peer asks to pair: consult the approval surface
                        (
                            AttemptState::PairPending { fingerprint },
                            Some(HandshakeAction::AskApproval),
                        )
                    }
                },
                HandshakeEvent::PeerPair(false) => (AttemptState::Rejected, None),
                HandshakeEvent::LocalPairDecision(true) => (
                    AttemptState::Accepted { fingerprint },
                    Some(HandshakeAction::PersistFingerprint { fingerprint }),
                ),
                HandshakeEvent::LocalPairDecision(false) => (
                    AttemptState::Rejected,
                    Some(HandshakeAction::SendPairReject),
                ),
                HandshakeEvent::PairDecisionTimeout => (AttemptState::Rejected, None),
                _ => (AttemptState::Failed(HandshakeError::ProtocolViolation), None),
            },
            _ => (st, None),
        }
    }
}


/// Advances one handshake attempt by one event.  The result is exactly
/// `step_spec`; the clauses below restate the security guarantees it gives.
pub fn handshake_step(st: AttemptState, ev: HandshakeEvent, ctx: &AttemptContext) -> (r: (
    AttemptState,
    Option<HandshakeAction>,
))
    ensures
        r == step_spec(st, ev, *ctx),
        // a fingerprint that contradicts recorded trust never proceeds
        (match (&st, &ev, &ctx.known_fingerprint) {
            (
                AttemptState::SecuringChannel,
                HandshakeEvent::ChannelSecured { fingerprint },
                Some(f),
            ) => f@ != fingerprint@ ==> r.0 == AttemptState::Failed(
                HandshakeError::IdentityMismatch,
            ),
            _ => true,
        }),
        // an incompatible protocol version never proceeds
        (match (&st, &ev) {
            (AttemptState::Connecting, HandshakeEvent::PeerIdentity(d)) => d.protocol_version
                != ctx.local_version ==> r.0 == AttemptState::Failed(
                HandshakeError::VersionIncompatible,
            ),
            _ => true,
        }),
{
    let terminal_now = match &st {
        AttemptState::Accepted { .. } => true,
        AttemptState::Rejected => true,
        AttemptState::Failed(_) => true,
        _ => false,
    };
    if terminal_now {
        return (st, None);
    }
    let closed = match &ev {
        HandshakeEvent::TransportClosed => true,
        _ => false,
    };
    if closed {
        return (AttemptState::Failed(HandshakeError::TransportFailed), None);
    }
    match st {
        AttemptState::Connecting => match ev {
            HandshakeEvent::Connected => (
                AttemptState::Connecting,
                Some(HandshakeAction::SendIdentity),
            ),
            HandshakeEvent::PeerIdentity(d) => {
                if d.protocol_version != ctx.local_version {
                    (AttemptState::Failed(HandshakeError::VersionIncompatible), None)
                } else {
                    (AttemptState::IdentityExchanged, Some(HandshakeAction::SecureChannel))
                }
            },
            HandshakeEvent::PeerIdentityInvalid => (
                AttemptState::Failed(HandshakeError::IdentityInvalid),
                None,
            ),
            HandshakeEvent::IdentityTimeout => (
                AttemptState::Failed(HandshakeError::IdentityTimeout),
                None,
            ),
            _ => (AttemptState::Failed(HandshakeError::ProtocolViolation), None),
        },
        AttemptState::IdentityExchanged => match ev {
            HandshakeEvent::SecuringStarted => (AttemptState::SecuringChannel, None),
            HandshakeEvent::ChannelFailed => (
                AttemptState::Failed(HandshakeError::ChannelFailed),
                None,
            ),
            _ => (AttemptState::Failed(HandshakeError::ProtocolViolation), None),
        },
        AttemptState::SecuringChannel => match ev {
            HandshakeEvent::ChannelSecured { fingerprint } => {
                let mismatch = match &ctx.known_fingerprint {
                    Some(f) => !(*f == fingerprint),
                    None => false,
                };
                if mismatch {
                    (AttemptState::Failed(HandshakeError::IdentityMismatch), None)
                } else if ctx.already_paired {
                    (AttemptState::Accepted { fingerprint }, None)
                } else if ctx.initiated_locally {
                    (
                        AttemptState::PairPending { fingerprint },
                        Some(HandshakeAction::SendPairRequest),
                    )
                } else {
                    (AttemptState::PairPending { fingerprint }, None)
                }
            },
            HandshakeEvent::ChannelFailed => (
                AttemptState::Failed(HandshakeError::ChannelFailed),
                None,
            ),
            _ => (AttemptState::Failed(HandshakeError::ProtocolViolation), None),
        },
        AttemptState::PairPending { fingerprint } => match ev {
            HandshakeEvent::PeerPair(true) => {
                if ctx.initiated_locally {
                    (
                        AttemptState::Accepted { fingerprint: fingerprint.clone() },
                        Some(HandshakeAction::PersistFingerprint { fingerprint }),
                    )
                } else {
                    (
                        AttemptState::PairPending { fingerprint },
                        Some(HandshakeAction::AskApproval),
                    )
                }
            },
            HandshakeEvent::PeerPair(false) => (AttemptState::Rejected, None),
            HandshakeEvent::LocalPairDecision(true) => (
                AttemptState::Accepted { fingerprint: fingerprint.clone() },
                Some(HandshakeAction::PersistFingerprint { fingerprint }),
            ),
            HandshakeEvent::LocalPairDecision(false) => (
                AttemptState::Rejected,
                Some(HandshakeAction::SendPairReject),
            ),
            HandshakeEvent::PairDecisionTimeout => (AttemptState::Rejected, None),
            _ => (AttemptState::Failed(HandshakeError::ProtocolViolation), None),
        },
        _ => (st, None),
    }
}

} // verus!
