//! The discovery listener and announcer, minus its socket.
//!
//! The socket work (bind, receive, broadcast) stays with the caller; this
//! module holds everything decided about discovery: the listener lifecycle,
//! the announcement packet, and what one received datagram does to the
//! registry.  Noise on the shared broadcast port — malformed records,
//! foreign packet types, bad identity bodies, our own announcements — is
//! dropped without any registry mutation.
use vstd::prelude::*;
use vstd::string::StringExecFns;

use crate::identity::{
    identity_body_shape, identity_from_json, identity_to_json, lemma_identity_shape_functional,
    lemma_identity_shape_transfer, DeviceIdentity,
};
use crate::json::{ser_val, JsonValue};
use crate::packet::{
    body_value, decode, encode, identity_type, record_chars, spec_identity_type, tolerant_form,
    Packet,
};
use crate::registry::{has_device, observe_spec, Address, DeviceRecord, Registry};

verus! {

/// Lifecycle of the discovery listener.
#[derive(Debug, PartialEq, Eq, Clone, Copy, Structural)]
pub enum ListenerPhase {
    Idle,
    Bound,
    Running,
    Stopped,
}

/// The discovery subsystem's own state.
#[derive(Debug, PartialEq, Eq)]
pub struct Discovery {
    pub phase: ListenerPhase,
}

/// What became of one received datagram.
#[derive(Debug, PartialEq, Eq, Clone, Copy)]
pub enum DatagramOutcome {
    /// A peer identity was recorded or refreshed.
    Recorded,
    /// Not a canonical packet record: dropped.
    DroppedMalformed,
    /// A packet of some other type: dropped.
    DroppedNonIdentity,
    /// An identity packet whose body is not an identity: dropped.
    DroppedBadIdentity,
    /// Our own announcement came back: dropped.
    DroppedSelf,
}

impl Discovery {
    pub fn new() -> (r: Discovery)
        ensures
            r.phase == ListenerPhase::Idle,
    {
        Discovery { phase: ListenerPhase::Idle }
    }

    /// Reports the outcome of binding the discovery socket.  A failed bind
    /// leaves discovery idle; it is fatal to this subsystem only, never to
    /// the process.
    pub fn on_bind(&mut self, bound: bool)
        ensures
            final(self).phase == if bound && old(self).phase == ListenerPhase::Idle {
                ListenerPhase::Bound
            } else {
                old(self).phase
            },
    {
        if bound {
            let idle = match self.phase {
                ListenerPhase::Idle => true,
                _ => false,
            };
            if idle {
                self.phase = ListenerPhase::Bound;
            }
        }
    }

    /// Starts the announce and receive loops once the socket is bound.
    pub fn on_start(&mut self)
        ensures
            final(self).phase == if old(self).phase == ListenerPhase::Bound {
                ListenerPhase::Running
            } else {
                old(self).phase
            },
    {
        let bound = match self.phase {
            ListenerPhase::Bound => true,
            _ => false,
        };
        if bound {
            self.phase = ListenerPhase::Running;
        }
    }

    /// Releases the socket; any outstanding receive returns within its
    /// timeout bound.
    pub fn on_stop(&mut self)
        ensures
            final(self).phase == ListenerPhase::Stopped,
    {
        self.phase = ListenerPhase::Stopped;
    }
}

/// Builds the identity announcement for this device: an identity packet
/// whose body is the canonical identity body.
pub fn make_announcement(local: &DeviceIdentity, packet_id: &String) -> (p: Packet)
    ensures
        p.typ@ == spec_identity_type(),
        p.id@ == packet_id@,
        identity_body_shape(p.body, *local),
{
    Packet {
        typ: String::from_str(identity_type()),
        id: packet_id.clone(),
        body: identity_to_json(local),
    }
}

/// Builds the announcement's wire text, ready to broadcast.
pub fn announcement_text(local: &DeviceIdentity, packet_id: &String) -> (r: String)
    ensures
        exists|b: crate::json::JsonValue|
            #![auto]
            r@ == crate::packet::record_chars(spec_identity_type(), packet_id@, b)
                && identity_body_shape(b, *local),
{
    let p = make_announcement(local, packet_id);
    let text = encode(&p);
    proof {
        assert(text@ == crate::packet::record_chars(spec_identity_type(), packet_id@, p.body)
            && identity_body_shape(p.body, *local));
    }
    text
}

/// The registry after recording the identity carried by `b`: some identity
/// with exactly that body was recorded.
spec fn recorded_for(
    b: JsonValue,
    dc: DeviceIdentity,
    local_id: Seq<char>,
    old_records: Seq<DeviceRecord>,
    new_records: Seq<DeviceRecord>,
    source: Address,
    now: u64,
) -> bool {
    &&& dc.device_id@ != local_id
    &&& has_device(new_records, dc.device_id@)
    &&& exists|d2: DeviceIdentity|
        #![auto]
        identity_body_shape(b, d2) && new_records == observe_spec(old_records, d2, source, now)
}

/// A recorded outcome means the datagram really was a canonical identity
/// record from some other device, now recorded as `observe` records it.
pub open spec fn datagram_sound(
    text: Seq<char>,
    local_id: Seq<char>,
    old_records: Seq<DeviceRecord>,
    new_records: Seq<DeviceRecord>,
    source: Address,
    now: u64,
) -> bool {
    exists|id: Seq<char>, b: JsonValue, d: DeviceIdentity|
        #![auto]
        text == record_chars(spec_identity_type(), id, b) && identity_body_shape(b, d)
            && d.device_id@ != local_id && new_records == observe_spec(old_records, d, source, now)
}

/// A recorded outcome may also come from a tolerant reading: a single JSON
/// object of identity type, in any member order, announcing another device.
pub open spec fn datagram_sound_tolerant(
    text: Seq<char>,
    local_id: Seq<char>,
    old_records: Seq<DeviceRecord>,
    new_records: Seq<DeviceRecord>,
    source: Address,
    now: u64,
) -> bool {
    exists|id: Seq<char>, body: Seq<char>, b: JsonValue, d: DeviceIdentity|
        #![auto]
        tolerant_form(text, spec_identity_type(), id, body) && body == ser_val(b)
            && identity_body_shape(b, d) && d.device_id@ != local_id && new_records
            == observe_spec(old_records, d, source, now)
}

/// Every canonical identity record is handled as the datagram's sender
/// deserves: a foreign peer's identity is recorded, the device's own
/// announcement is discarded.
pub open spec fn datagram_complete(
    text: Seq<char>,
    local_id: Seq<char>,
    old_records: Seq<DeviceRecord>,
    new_records: Seq<DeviceRecord>,
    source: Address,
    now: u64,
    r: DatagramOutcome,
) -> bool {
    forall|id: Seq<char>, b: JsonValue, d: DeviceIdentity|
        #![trigger record_chars(spec_identity_type(), id, b), identity_body_shape(b, d)]
        text == record_chars(spec_identity_type(), id, b) && identity_body_shape(b, d) ==> (if d.device_id@
            == local_id {
            r == DatagramOutcome::DroppedSelf
        } else {
            r == DatagramOutcome::Recorded && has_device(new_records, d.device_id@)
                && (exists|d2: DeviceIdentity|
                #![auto]
                identity_body_shape(b, d2) && new_records == observe_spec(
                    old_records,
                    d2,
                    source,
                    now,
                ))
        })
}

/// What one datagram does to the registry, outcome aside: a canonical
/// identity record from another device is recorded, the device's own comes
/// to nothing.
pub open spec fn datagram_effect(
    text: Seq<char>,
    local_id: Seq<char>,
    old_records: Seq<DeviceRecord>,
    new_records: Seq<DeviceRecord>,
    source: Address,
    now: u64,
) -> bool {
    forall|id: Seq<char>, b: JsonValue, d: DeviceIdentity|
        #![trigger record_chars(spec_identity_type(), id, b), identity_body_shape(b, d)]
        text == record_chars(spec_identity_type(), id, b) && identity_body_shape(b, d) ==> (if d.device_id@
            == local_id {
            new_records == old_records
        } else {
            has_device(new_records, d.device_id@) && (exists|d2: DeviceIdentity|
                #![auto]
                identity_body_shape(b, d2) && new_records == observe_spec(
                    old_records,
                    d2,
                    source,
                    now,
                ))
        })
}

/// Feeds one received datagram to the registry.  Noise never touches the
/// registry: whenever the outcome is not `Recorded`, the registry is
/// unchanged, and `Recorded` happens exactly for a canonical identity
/// record announcing some other device, which is then recorded as
/// `observe` records it.
pub fn handle_datagram(
    reg: &mut Registry,
    local_id: &String,
    text: &str,
    source: Address,
    now: u64,
) -> (r: DatagramOutcome)
    requires
        old(reg).wf(),
    ensures
        final(reg).wf(),
        r != DatagramOutcome::Recorded ==> *final(reg) == *old(reg),
        r == DatagramOutcome::Recorded ==> datagram_sound(
            text@,
            local_id@,
            old(reg).records@,
            final(reg).records@,
            source,
            now,
        ) || datagram_sound_tolerant(
            text@,
            local_id@,
            old(reg).records@,
            final(reg).records@,
            source,
            now,
        ),
        datagram_complete(
            text@,
            local_id@,
            old(reg).records@,
            final(reg).records@,
            source,
            now,
            r,
        ),
{
    let ghost gold = text@;
    let ghost olds = old(reg).records@;
    let dr = decode(text);
    let ip = match dr {
        Ok(ip) => ip,
        Err(_) => {
            proof {
                assert forall|id: Seq<char>, b: JsonValue, d: DeviceIdentity|
                    gold == record_chars(spec_identity_type(), id, b) && identity_body_shape(b, d)
                    implies false by {
                    assert(gold == record_chars(spec_identity_type(), id, b));
                }
            }
            return DatagramOutcome::DroppedMalformed;
        },
    };
    let is_identity = ip.typ == String::from_str(identity_type());
    if !is_identity {
        proof {
            assert forall|id: Seq<char>, b: JsonValue, d: DeviceIdentity|
                #![trigger record_chars(spec_identity_type(), id, b), identity_body_shape(b, d)]
                gold == record_chars(spec_identity_type(), id, b) && identity_body_shape(b, d)
                implies false by {
                assert(ip.typ@ == spec_identity_type());
            }
        }
        return DatagramOutcome::DroppedNonIdentity;
    }
    let br = body_value(&ip);
    let bv = match br {
        Ok(v) => v,
        Err(_) => {
            proof {
                assert forall|id: Seq<char>, b: JsonValue, d: DeviceIdentity|
                    gold == record_chars(spec_identity_type(), id, b) && identity_body_shape(b, d)
                    implies false by {
                    assert(ip.body@ == ser_val(b));
                }
            }
            return DatagramOutcome::DroppedBadIdentity;
        },
    };
    let fr = identity_from_json(&bv);
    let d = match fr {
        Some(d) => d,
        None => {
            proof {
                assert forall|id: Seq<char>, b: JsonValue, d: DeviceIdentity|
                    gold == record_chars(spec_identity_type(), id, b) && identity_body_shape(b, d)
                    implies false by {
                    assert(ip.body@ == ser_val(b));
                    assert(ip.body@ == ser_val(bv));
                    lemma_identity_shape_transfer(b, bv, d);
                }
            }
            return DatagramOutcome::DroppedBadIdentity;
        },
    };
    let ghost gd = d;
    let is_self = d.device_id == *local_id;
    if is_self {
        proof {
            assert forall|id: Seq<char>, b: JsonValue, dc: DeviceIdentity|
                gold == record_chars(spec_identity_type(), id, b) && identity_body_shape(b, dc)
                implies dc.device_id@ == local_id@ by {
                assert(ip.body@ == ser_val(b));
                assert(ip.body@ == ser_val(bv));
                lemma_identity_shape_transfer(b, bv, dc);
                lemma_identity_shape_functional(bv, dc, gd);
            }
        }
        return DatagramOutcome::DroppedSelf;
    }
    reg.observe(d, source, now);
    proof {
        assert(gd.device_id@ != local_id@);
        assert(reg.records@ == observe_spec(olds, gd, source, now));
        assert(has_device(reg.records@, gd.device_id@));
        if exists|b0: JsonValue|
            (gold == record_chars(ip.typ@, ip.id@, b0) && ip.body@ == ser_val(b0)) {
            let b0 = choose|b0: JsonValue|
                (gold == record_chars(ip.typ@, ip.id@, b0) && ip.body@ == ser_val(b0));
            assert(gold == record_chars(ip.typ@, ip.id@, b0) && ip.body@ == ser_val(b0));
            assert(ser_val(bv) == ser_val(b0));
            assert(record_chars(spec_identity_type(), ip.id@, bv) =~= record_chars(
                ip.typ@,
                ip.id@,
                b0,
            ));
            assert(gold == record_chars(spec_identity_type(), ip.id@, bv) && identity_body_shape(
                bv,
                gd,
            ) && gd.device_id@ != local_id@ && reg.records@ == observe_spec(
                olds,
                gd,
                source,
                now,
            ));
            assert(datagram_sound(gold, local_id@, olds, reg.records@, source, now));
        } else {
            assert(tolerant_form(gold, ip.typ@, ip.id@, ip.body@));
            assert(tolerant_form(gold, spec_identity_type(), ip.id@, ip.body@));
            assert(ip.body@ == ser_val(bv) && identity_body_shape(bv, gd) && gd.device_id@
                != local_id@ && reg.records@ == observe_spec(olds, gd, source, now));
            assert(datagram_sound_tolerant(gold, local_id@, olds, reg.records@, source, now));
        }
        assert forall|id: Seq<char>, b: JsonValue, dc: DeviceIdentity|
            gold == record_chars(spec_identity_type(), id, b) && identity_body_shape(b, dc)
            implies recorded_for(b, dc, local_id@, olds, reg.records@, source, now) by {
            assert(ip.body@ == ser_val(b));
            assert(ip.body@ == ser_val(bv));
            lemma_identity_shape_transfer(b, bv, dc);
            lemma_identity_shape_functional(bv, dc, gd);
            lemma_identity_shape_transfer(bv, b, gd);
            assert(identity_body_shape(b, gd) && reg.records@ == observe_spec(
                olds,
                gd,
                source,
                now,
            ));
        }
    }
    DatagramOutcome::Recorded
}

} // verus!
