//! The device registry: the authoritative table of known devices, keyed by
//! device identifier.  It enforces at most one connection attempt or active
//! connection per device, never downgrades trust on sighting updates, and
//! refuses to activate a connection whose certificate fingerprint differs
//! from the one recorded at first pairing.
use vstd::prelude::*;

use crate::identity::DeviceIdentity;

verus! {

/// IPv4 address and port a device was last seen at.
#[derive(Debug, PartialEq, Eq, Clone, Copy, Structural)]
pub struct Address {
    pub ip: u32,
    pub port: u16,
}

/// Who asked for the pairing.
#[derive(Debug, PartialEq, Eq, Clone, Copy, Structural)]
pub enum PairDirection {
    Outgoing,
    Incoming,
}

/// How far trust in a device has come.
#[derive(Debug, PartialEq, Eq, Clone, Copy, Structural)]
pub enum TrustState {
    Unknown,
    PairRequested(PairDirection),
    Paired,
    Rejected,
}

/// Where the connection to a device stands.
#[derive(Debug, PartialEq, Eq, Clone, Copy, Structural)]
pub enum ConnectionState {
    Disconnected,
    Identifying,
    AwaitingPairDecision,
    Paired,
    Active,
}

/// One registry entry: the identity a device last announced plus the trust
/// and connection state this side holds for it.
#[derive(Debug, PartialEq, Eq)]
pub struct DeviceRecord {
    pub identity: DeviceIdentity,
    pub network_address: Address,
    pub trust_state: TrustState,
    pub connection_state: ConnectionState,
    pub certificate_fingerprint: Option<String>,
    pub last_seen: u64,
}

/// Exclusive token for one handshake attempt; returned by `begin_handshake`
/// and surrendered to `complete_handshake`.
#[derive(Debug, PartialEq, Eq)]
pub struct HandshakeToken {
    pub device_id: String,
}

/// Why a handshake could not begin.
#[derive(Debug, PartialEq, Eq, Clone, Copy)]
pub enum BeginError {
    /// A handshake or active connection for this device already exists.
    Busy,
    /// The device has never been observed.
    UnknownDevice,
}

/// Why a handshake completion was refused.
#[derive(Debug, PartialEq, Eq, Clone, Copy)]
pub enum CompleteError {
    UnknownDevice,
    /// The device is not in a handshake right now.
    NotInHandshake,
    /// The peer's certificate fingerprint differs from the one recorded at
    /// first pairing: a security failure, never a silent update.
    FingerprintMismatch,
}

/// How a handshake attempt ended.
#[derive(Debug, PartialEq, Eq)]
pub enum HandshakeOutcome {
    /// Channel secured and pairing accepted; the peer presented this
    /// certificate fingerprint.
    Success { fingerprint: String },
    /// Any failure: timeout, protocol error, rejection.
    Failure,
}

/// Index of the record with the given device id, or -1.
pub open spec fn spec_find(s: Seq<DeviceRecord>, id: Seq<char>) -> int
    decreases s.len(),
{
    if s.len() == 0 {
        -1
    } else if s[0].identity.device_id@ == id {
        0
    } else {
        let r = spec_find(s.drop_first(), id);
        if r < 0 {
            -1
        } else {
            r + 1
        }
    }
}

pub open spec fn has_device(s: Seq<DeviceRecord>, id: Seq<char>) -> bool {
    spec_find(s, id) >= 0
}

/// No two records carry the same device id.
pub open spec fn distinct_ids(s: Seq<DeviceRecord>) -> bool {
    forall|i: int, j: int|
        0 <= i < j < s.len() ==> s[i].identity.device_id@ != s[j].identity.device_id@
}

pub proof fn lemma_spec_find(s: Seq<DeviceRecord>, id: Seq<char>)
    ensures
        spec_find(s, id) < s.len(),
        spec_find(s, id) >= -1,
        spec_find(s, id) >= 0 ==> s[spec_find(s, id)].identity.device_id@ == id,
        spec_find(s, id) < 0 ==> forall|j: int|
            0 <= j < s.len() ==> s[j].identity.device_id@ != id,
        forall|j: int| 0 <= j < spec_find(s, id) ==> s[j].identity.device_id@ != id,
    decreases s.len(),
{
    if s.len() > 0 && s[0].identity.device_id@ != id {
        lemma_spec_find(s.drop_first(), id);
        assert forall|j: int| 0 <= j < s.len() && spec_find(s, id) < 0 implies s[j].identity.device_id@
            != id by {
            if j > 0 {
                assert(s.drop_first()[j - 1] == s[j]);
            }
        }
        assert forall|j: int| 0 <= j < spec_find(s, id) implies s[j].identity.device_id@ != id by {
            if j > 0 {
                assert(s.drop_first()[j - 1] == s[j]);
            }
        }
    }
}

/// Two sequences whose records carry the same ids position by position are
/// searched alike.
pub proof fn lemma_spec_find_same_ids(a: Seq<DeviceRecord>, b: Seq<DeviceRecord>, id: Seq<char>)
    requires
        a.len() == b.len(),
        forall|i: int|
            0 <= i < a.len() ==> a[i].identity.device_id@ == b[i].identity.device_id@,
    ensures
        spec_find(a, id) == spec_find(b, id),
    decreases a.len(),
{
    if a.len() > 0 {
        assert forall|i: int|
            0 <= i < a.drop_first().len() implies a.drop_first()[i].identity.device_id@
            == b.drop_first()[i].identity.device_id@ by {
            assert(a.drop_first()[i] == a[i + 1]);
            assert(b.drop_first()[i] == b[i + 1]);
        }
        lemma_spec_find_same_ids(a.drop_first(), b.drop_first(), id);
    }
}

/// A fresh record: first sighting, trust unknown, disconnected.
pub open spec fn fresh_record(identity: DeviceIdentity, address: Address, now: u64) -> DeviceRecord {
    DeviceRecord {
        identity,
        network_address: address,
        trust_state: TrustState::Unknown,
        connection_state: ConnectionState::Disconnected,
        certificate_fingerprint: None,
        last_seen: now,
    }
}

/// A re-sighted record: only the name, the address and the sighting time
/// change; trust, connection state and fingerprint stay.
pub open spec fn refreshed_record(
    r: DeviceRecord,
    identity: DeviceIdentity,
    address: Address,
    now: u64,
) -> DeviceRecord {
    DeviceRecord {
        identity: DeviceIdentity {
            device_id: r.identity.device_id,
            device_name: identity.device_name,
            device_type: r.identity.device_type,
            protocol_version: r.identity.protocol_version,
            incoming_capabilities: r.identity.incoming_capabilities,
            outgoing_capabilities: r.identity.outgoing_capabilities,
        },
        network_address: address,
        trust_state: r.trust_state,
        connection_state: r.connection_state,
        certificate_fingerprint: r.certificate_fingerprint,
        last_seen: now,
    }
}

/// What `observe` does: update the record of a known device, or append a
/// fresh one.
pub open spec fn observe_spec(
    s: Seq<DeviceRecord>,
    identity: DeviceIdentity,
    address: Address,
    now: u64,
) -> Seq<DeviceRecord> {
    let i = spec_find(s, identity.device_id@);
    if i >= 0 {
        s.update(i, refreshed_record(s[i], identity, address, now))
    } else {
        s.push(fresh_record(identity, address, now))
    }
}

/// `observe` keeps ids distinct, records the device, and touches no other
/// record's trust, connection state or fingerprint.
pub proof fn lemma_observe_spec_props(
    s: Seq<DeviceRecord>,
    identity: DeviceIdentity,
    address: Address,
    now: u64,
)
    requires
        distinct_ids(s),
    ensures
        distinct_ids(observe_spec(s, identity, address, now)),
        has_device(observe_spec(s, identity, address, now), identity.device_id@),
        forall|j: int|
            0 <= j < s.len() ==> (#[trigger] observe_spec(s, identity, address, now)[j]).trust_state
                == s[j].trust_state,
        forall|j: int|
            0 <= j < s.len() ==> (#[trigger] observe_spec(s, identity, address, now)[j]).connection_state
                == s[j].connection_state,
        forall|j: int|
            0 <= j < s.len() ==> (#[trigger] observe_spec(s, identity, address, now)[j]).certificate_fingerprint
                == s[j].certificate_fingerprint,
        forall|j: int|
            0 <= j < s.len() ==> (#[trigger] observe_spec(s, identity, address, now)[j]).identity.device_id@
                == s[j].identity.device_id@,
        has_device(s, identity.device_id@) ==> observe_spec(s, identity, address, now).len()
            == s.len(),
        !has_device(s, identity.device_id@) ==> observe_spec(s, identity, address, now).len()
            == s.len() + 1,
{
    lemma_spec_find(s, identity.device_id@);
    let i = spec_find(s, identity.device_id@);
    let s2 = observe_spec(s, identity, address, now);
    if i >= 0 {
        assert forall|a: int|
            0 <= a < s2.len() implies s2[a].identity.device_id@ == s[a].identity.device_id@ by {}
        lemma_spec_find_same_ids(s2, s, identity.device_id@);
    } else {
        assert(s2[s.len() as int].identity.device_id@ == identity.device_id@);
        if spec_find(s2, identity.device_id@) < 0 {
            lemma_spec_find(s2, identity.device_id@);
        }
    }
}

/// How many records carry the given id.
pub open spec fn count_id(s: Seq<DeviceRecord>, id: Seq<char>) -> int
    decreases s.len(),
{
    if s.len() == 0 {
        0
    } else {
        count_id(s.drop_last(), id) + if s.last().identity.device_id@ == id {
            1int
        } else {
            0int
        }
    }
}

pub proof fn lemma_count_distinct(s: Seq<DeviceRecord>, id: Seq<char>)
    requires
        distinct_ids(s),
    ensures
        has_device(s, id) ==> count_id(s, id) == 1,
        !has_device(s, id) ==> count_id(s, id) == 0,
    decreases s.len(),
{
    lemma_spec_find(s, id);
    if s.len() > 0 {
        let p = s.drop_last();
        assert forall|i: int, j: int|
            0 <= i < j < p.len() implies p[i].identity.device_id@ != p[j].identity.device_id@ by {
            assert(p[i] == s[i] && p[j] == s[j]);
        }
        lemma_count_distinct(p, id);
        lemma_spec_find(p, id);
        if s.last().identity.device_id@ == id {
            assert(!has_device(p, id)) by {
                if spec_find(p, id) >= 0 {
                    let k = spec_find(p, id);
                    assert(p[k] == s[k]);
                    assert(s[k].identity.device_id@ == s[s.len() - 1].identity.device_id@);
                }
            }
        } else {
            if spec_find(p, id) >= 0 {
                let k = spec_find(p, id);
                assert(p[k] == s[k]);
                if spec_find(s, id) < 0 {
                    lemma_spec_find(s, id);
                }
            }
            if spec_find(s, id) >= 0 {
                let k = spec_find(s, id);
                assert(k < s.len() - 1);
                assert(p[k] == s[k]);
                if spec_find(p, id) < 0 {
                    lemma_spec_find(p, id);
                }
            }
        }
    }
}

/// Observing the same device twice leaves exactly one record for it, however
/// often it is repeated.
pub proof fn lemma_observe_idempotent(
    s: Seq<DeviceRecord>,
    identity: DeviceIdentity,
    a1: Address,
    a2: Address,
    n1: u64,
    n2: u64,
)
    requires
        distinct_ids(s),
    ensures
        count_id(observe_spec(s, identity, a1, n1), identity.device_id@) == 1,
        count_id(
            observe_spec(observe_spec(s, identity, a1, n1), identity, a2, n2),
            identity.device_id@,
        ) == 1,
{
    lemma_observe_spec_props(s, identity, a1, n1);
    let s1 = observe_spec(s, identity, a1, n1);
    lemma_count_distinct(s1, identity.device_id@);
    lemma_observe_spec_props(s1, identity, a2, n2);
    let s2 = observe_spec(s1, identity, a2, n2);
    lemma_count_distinct(s2, identity.device_id@);
}

/// A sighting never moves trust: every record keeps its trust state, and in
/// particular a paired device never falls back to unknown.
pub proof fn lemma_observe_trust_monotonic(
    s: Seq<DeviceRecord>,
    identity: DeviceIdentity,
    address: Address,
    now: u64,
    j: int,
)
    requires
        distinct_ids(s),
        0 <= j < s.len(),
    ensures
        observe_spec(s, identity, address, now)[j].trust_state == s[j].trust_state,
{
    lemma_observe_spec_props(s, identity, address, now);
}

/// What `begin_handshake` does: grant an exclusive attempt only to a known,
/// disconnected device.
pub open spec fn begin_spec(s: Seq<DeviceRecord>, id: Seq<char>) -> (Seq<DeviceRecord>, bool) {
    let i = spec_find(s, id);
    if i < 0 {
        (s, false)
    } else if s[i].connection_state is Disconnected {
        (
            s.update(
                i,
                DeviceRecord {
                    connection_state: ConnectionState::Identifying,
                    ..s[i]
                },
            ),
            true,
        )
    } else {
        (s, false)
    }
}

/// Exactly one of two attempts for the same device wins: after a granted
/// `begin_handshake`, a second one for the same device is refused.
pub proof fn lemma_handshake_exclusive(s: Seq<DeviceRecord>, id: Seq<char>)
    ensures
        begin_spec(s, id).1 ==> !begin_spec(begin_spec(s, id).0, id).1,
{
    lemma_spec_find(s, id);
    let i = spec_find(s, id);
    if begin_spec(s, id).1 {
        let s2 = begin_spec(s, id).0;
        assert forall|a: int|
            0 <= a < s2.len() implies s2[a].identity.device_id@ == s[a].identity.device_id@ by {}
        lemma_spec_find_same_ids(s2, s, id);
        assert(s2[i].connection_state is Identifying);
    }
}


/// Whether a record survives eviction at time `now`: devices mid-handshake
/// or active are never evicted, others only while recently seen.
pub open spec fn keep_record(r: DeviceRecord, now: u64, max_silence: u64) -> bool {
    ||| r.connection_state is Identifying
    ||| r.connection_state is AwaitingPairDecision
    ||| r.connection_state is Active
    ||| r.last_seen as int + max_silence as int >= now as int
}

/// What `evict_stale` leaves: the kept records, in order.
pub open spec fn evict_spec(s: Seq<DeviceRecord>, now: u64, max_silence: u64) -> Seq<DeviceRecord>
    decreases s.len(),
{
    if s.len() == 0 {
        s
    } else {
        let rest = evict_spec(s.drop_last(), now, max_silence);
        if keep_record(s.last(), now, max_silence) {
            rest.push(s.last())
        } else {
            rest
        }
    }
}

/// Eviction keeps a subset of the records and so preserves the registry
/// invariants.
pub proof fn lemma_evict_props(s: Seq<DeviceRecord>, now: u64, max_silence: u64)
    ensures
        evict_spec(s, now, max_silence).len() <= s.len(),
        forall|i: int|
            0 <= i < evict_spec(s, now, max_silence).len() ==> exists|j: int|
                0 <= j < s.len() && #[trigger] evict_spec(s, now, max_silence)[i] == #[trigger] s[j],
        distinct_ids(s) ==> distinct_ids(evict_spec(s, now, max_silence)),
    decreases s.len(),
{
    if s.len() > 0 {
        let p = s.drop_last();
        assert(forall|k: int| 0 <= k < p.len() ==> p[k] == s[k]);
        if distinct_ids(s) {
            assert(distinct_ids(p));
        }
        lemma_evict_props(p, now, max_silence);
        let e = evict_spec(p, now, max_silence);
        let ev = evict_spec(s, now, max_silence);
        if keep_record(s.last(), now, max_silence) {
            assert(ev == e.push(s.last()));
            assert forall|i: int| 0 <= i < ev.len() implies exists|j: int|
                0 <= j < s.len() && #[trigger] ev[i] == #[trigger] s[j] by {
                if i < e.len() {
                    let j = choose|j: int| 0 <= j < p.len() && e[i] == p[j];
                    assert(ev[i] == s[j]);
                } else {
                    assert(ev[i] == s[s.len() - 1]);
                }
            }
            if distinct_ids(s) {
                assert forall|i: int, j: int|
                    0 <= i < j < ev.len() implies ev[i].identity.device_id@
                    != ev[j].identity.device_id@ by {
                    if j < e.len() {
                        assert(distinct_ids(e));
                    } else {
                        let k = choose|k: int| 0 <= k < p.len() && e[i] == p[k];
                        assert(s[k].identity.device_id@ != s[s.len() - 1].identity.device_id@);
                    }
                }
            }
        } else {
            assert(ev == e);
        }
    }
}

/// The registry itself.  All mutation goes through its methods; `wf` is the
/// invariant they keep.
#[derive(Debug, PartialEq, Eq)]
pub struct Registry {
    pub records: Vec<DeviceRecord>,
}

impl Registry {
    /// Ids are unique, and a paired device always has a recorded fingerprint.
    pub open spec fn wf(self) -> bool {
        &&& distinct_ids(self.records@)
        &&& forall|i: int|
            0 <= i < self.records@.len() ==> ((#[trigger] self.records@[i]).trust_state is Paired
                ==> self.records@[i].certificate_fingerprint is Some)
    }

    pub fn new() -> (r: Registry)
        ensures
            r.wf(),
            r.records@.len() == 0,
    {
        Registry { records: Vec::new() }
    }

    /// Linear scan for a device id.
    fn find_index(&self, device_id: &String) -> (r: Option<usize>)
        ensures
            r matches Some(i) ==> i < self.records@.len() && spec_find(self.records@, device_id@)
                == i as int,
            r is None ==> spec_find(self.records@, device_id@) < 0,
    {
        let mut i: usize = 0;
        proof {
            lemma_spec_find(self.records@, device_id@);
        }
        while i < self.records.len()
            invariant
                0 <= i <= self.records@.len(),
                forall|j: int|
                    0 <= j < i ==> (#[trigger] self.records@[j]).identity.device_id@ != device_id@,
                spec_find(self.records@, device_id@) < self.records@.len(),
                spec_find(self.records@, device_id@) >= 0 ==> self.records@[spec_find(
                    self.records@,
                    device_id@,
                )].identity.device_id@ == device_id@,
                spec_find(self.records@, device_id@) < 0 ==> forall|j: int|
                    0 <= j < self.records@.len() ==> self.records@[j].identity.device_id@
                        != device_id@,
                forall|j: int|
                    0 <= j < spec_find(self.records@, device_id@)
                        ==> self.records@[j].identity.device_id@ != device_id@,
            decreases self.records@.len() - i,
        {
            if self.records[i].identity.device_id == *device_id {
                proof {
                    let f = spec_find(self.records@, device_id@);
                    if f < i as int {
                        assert(f >= 0);
                    }
                    if f > i as int {
                        assert(self.records@[i as int].identity.device_id@ != device_id@);
                    }
                }
                return Some(i);
            }
            i = i + 1;
        }
        None
    }

    /// Records a sighting: creates the record on first sight (trust unknown,
    /// disconnected), otherwise refreshes only name, address and time.
    pub fn observe(&mut self, identity: DeviceIdentity, address: Address, now: u64)
        requires
            old(self).wf(),
        ensures
            final(self).wf(),
            final(self).records@ == observe_spec(old(self).records@, identity, address, now),
            has_device(final(self).records@, identity.device_id@),
    {
        proof {
            lemma_observe_spec_props(self.records@, identity, address, now);
        }
        let found = self.find_index(&identity.device_id);
        match found {
            Some(i) => {
                let ghost olds = self.records@;
                self.records[i].identity.device_name = identity.device_name;
                self.records[i].network_address = address;
                self.records[i].last_seen = now;
                assert(self.records@ =~= observe_spec(olds, identity, address, now));
            },
            None => {
                let ghost olds = self.records@;
                self.records.push(
                    DeviceRecord {
                        identity,
                        network_address: address,
                        trust_state: TrustState::Unknown,
                        connection_state: ConnectionState::Disconnected,
                        certificate_fingerprint: None,
                        last_seen: now,
                    },
                );
                assert(self.records@ =~= observe_spec(olds, identity, address, now));
            },
        }
    }

    /// Claims the exclusive right to run one handshake with a device.  Fails
    /// with `Busy` exactly when a handshake or connection already exists, so
    /// that of two racing attempts exactly one proceeds.
    pub fn begin_handshake(&mut self, device_id: &String) -> (r: Result<HandshakeToken, BeginError>)
        requires
            old(self).wf(),
        ensures
            final(self).wf(),
            final(self).records@ == begin_spec(old(self).records@, device_id@).0,
            r is Ok <==> begin_spec(old(self).records@, device_id@).1,
            r matches Ok(t) ==> t.device_id@ == device_id@,
            r == Err::<HandshakeToken, BeginError>(BeginError::UnknownDevice) <==> !has_device(
                old(self).records@,
                device_id@,
            ),
    {
        proof {
            lemma_spec_find(self.records@, device_id@);
        }
        let found = self.find_index(device_id);
        match found {
            None => Err(BeginError::UnknownDevice),
            Some(i) => {
                let busy = match self.records[i].connection_state {
                    ConnectionState::Disconnected => false,
                    _ => true,
                };
                if busy {
                    Err(BeginError::Busy)
                } else {
                    let ghost olds = self.records@;
                    self.records[i].connection_state = ConnectionState::Identifying;
                    assert(self.records@ =~= begin_spec(olds, device_id@).0);
                    Ok(HandshakeToken { device_id: device_id.clone() })
                }
            },
        }
    }

    /// Settles a handshake attempt.  On success the device becomes paired
    /// and active and its fingerprint is recorded; a fingerprint that differs
    /// from the recorded one is refused and never reaches `Active`; any
    /// failure returns the device to `Disconnected` without touching trust.
    pub fn complete_handshake(&mut self, token: HandshakeToken, outcome: HandshakeOutcome) -> (r:
        Result<(), CompleteError>)
        requires
            old(self).wf(),
        ensures
            final(self).wf(),
            !has_device(old(self).records@, token.device_id@) ==> *final(self) == *old(self) && r
                == Err::<(), CompleteError>(CompleteError::UnknownDevice),
            ({
                let i = spec_find(old(self).records@, token.device_id@);
                i >= 0 ==> {
                    let rec = old(self).records@[i];
                    if !(rec.connection_state is Identifying || rec.connection_state
                        is AwaitingPairDecision) {
                        *final(self) == *old(self) && r == Err::<(), CompleteError>(
                            CompleteError::NotInHandshake,
                        )
                    } else {
                        match outcome {
                            HandshakeOutcome::Failure => r == Ok::<(), CompleteError>(())
                                && final(self).records@ == old(self).records@.update(
                                i,
                                DeviceRecord {
                                    connection_state: ConnectionState::Disconnected,
                                    ..rec
                                },
                            ),
                            HandshakeOutcome::Success { fingerprint } => {
                                if rec.certificate_fingerprint matches Some(fp) && fp@
                                    != fingerprint@ {
                                    // a mismatching fingerprint never activates
                                    r == Err::<(), CompleteError>(CompleteError::FingerprintMismatch)
                                        && final(self).records@ == old(self).records@.update(
                                        i,
                                        DeviceRecord {
                                            connection_state: ConnectionState::Disconnected,
                                            ..rec
                                        },
                                    ) && !(final(self).records@[i].connection_state is Active)
                                } else {
                                    r == Ok::<(), CompleteError>(())
                                        && final(self).records@ == old(self).records@.update(
                                        i,
                                        DeviceRecord {
                                            trust_state: TrustState::Paired,
                                            connection_state: ConnectionState::Active,
                                            certificate_fingerprint: Some(fingerprint),
                                            ..rec
                                        },
                                    )
                                }
                            },
                        }
                    }
                }
            }),
    {
        proof {
            lemma_spec_find(self.records@, token.device_id@);
        }
        let found = self.find_index(&token.device_id);
        let i = match found {
            None => {
                return Err(CompleteError::UnknownDevice);
            },
            Some(i) => i,
        };
        let in_handshake = match self.records[i].connection_state {
            ConnectionState::Identifying => true,
            ConnectionState::AwaitingPairDecision => true,
            _ => false,
        };
        if !in_handshake {
            return Err(CompleteError::NotInHandshake);
        }
        match outcome {
            HandshakeOutcome::Failure => {
                self.records[i].connection_state = ConnectionState::Disconnected;
                Ok(())
            },
            HandshakeOutcome::Success { fingerprint } => {
                let mismatch = match &self.records[i].certificate_fingerprint {
                    Some(fp) => !(*fp == fingerprint),
                    None => false,
                };
                if mismatch {
                    self.records[i].connection_state = ConnectionState::Disconnected;
                    Err(CompleteError::FingerprintMismatch)
                } else {
                    self.records[i].trust_state = TrustState::Paired;
                    self.records[i].connection_state = ConnectionState::Active;
                    self.records[i].certificate_fingerprint = Some(fingerprint);
                    Ok(())
                }
            },
        }
    }


    /// Removes records not seen within `max_silence` of `now`, except those
    /// mid-handshake or active, bounding growth from transient peers.
    pub fn evict_stale(&mut self, now: u64, max_silence: u64)
        requires
            old(self).wf(),
        ensures
            final(self).wf(),
            final(self).records@ == evict_spec(old(self).records@, now, max_silence),
    {
        let ghost orig = self.records@;
        let ghost mut k: int = 0;
        let mut idx: usize = 0;
        proof {
            assert(orig.take(0) =~= Seq::<DeviceRecord>::empty());
            assert(orig.skip(0) =~= orig);
            assert(self.records@ =~= evict_spec(orig.take(0), now, max_silence) + orig.skip(0));
        }
        while idx < self.records.len()
            invariant
                orig == old(self).records@,
                0 <= k <= orig.len(),
                idx == evict_spec(orig.take(k), now, max_silence).len(),
                self.records@ == evict_spec(orig.take(k), now, max_silence) + orig.skip(k),
            decreases orig.len() - k,
        {
            proof {
                assert(orig.skip(k).len() > 0);
                assert(self.records@[idx as int] == orig.skip(k)[0]);
                assert(orig.skip(k)[0] == orig[k]);
                assert(orig.take(k + 1).drop_last() =~= orig.take(k));
                assert(orig.take(k + 1).last() == orig[k]);
                assert(orig.skip(k).drop_first() =~= orig.skip(k + 1));
            }
            let in_use = match self.records[idx].connection_state {
                ConnectionState::Identifying => true,
                ConnectionState::AwaitingPairDecision => true,
                ConnectionState::Active => true,
                _ => false,
            };
            let fresh_enough = now <= max_silence || self.records[idx].last_seen >= now
                - max_silence;
            if in_use || fresh_enough {
                assert(keep_record(orig[k], now, max_silence));
                idx = idx + 1;
                proof {
                    assert(self.records@ =~= evict_spec(orig.take(k + 1), now, max_silence)
                        + orig.skip(k + 1));
                    k = k + 1;
                }
            } else {
                assert(!keep_record(orig[k], now, max_silence));
                self.records.remove(idx);
                proof {
                    assert(self.records@ =~= evict_spec(orig.take(k + 1), now, max_silence)
                        + orig.skip(k + 1));
                    k = k + 1;
                }
            }
        }
        proof {
            assert(k == orig.len());
            assert(orig.take(k) =~= orig);
            assert(orig.skip(k) =~= Seq::<DeviceRecord>::empty());
            assert(self.records@ =~= evict_spec(orig, now, max_silence));
            lemma_evict_props(orig, now, max_silence);
            assert forall|i: int|
                0 <= i < self.records@.len() implies ((#[trigger] self.records@[i]).trust_state
                is Paired ==> self.records@[i].certificate_fingerprint is Some) by {
                let j = choose|j: int| 0 <= j < orig.len() && self.records@[i] == orig[j];
            }
        }
    }

    /// A closed connection returns the device to `Disconnected`; its trust is
    /// untouched, so a paired device stays paired across reconnects.
    pub fn on_disconnect(&mut self, device_id: &String)
        requires
            old(self).wf(),
        ensures
            final(self).wf(),
            ({
                let i = spec_find(old(self).records@, device_id@);
                if i >= 0 && old(self).records@[i].connection_state is Active {
                    final(self).records@ == old(self).records@.update(
                        i,
                        DeviceRecord {
                            connection_state: ConnectionState::Disconnected,
                            ..old(self).records@[i]
                        },
                    )
                } else {
                    *final(self) == *old(self)
                }
            }),
    {
        proof {
            lemma_spec_find(self.records@, device_id@);
        }
        let found = self.find_index(device_id);
        match found {
            None => {},
            Some(i) => {
                let active = match self.records[i].connection_state {
                    ConnectionState::Active => true,
                    _ => false,
                };
                if active {
                    self.records[i].connection_state = ConnectionState::Disconnected;
                }
            },
        }
    }
}

} // verus!
