//! A device's identity: the stable identifier, user-visible name, advisory
//! category, protocol version, and declared capabilities, together with its
//! canonical JSON body used in identity packets.
use vstd::prelude::*;
use vstd::string::StringExecFns;

use crate::json::{flat_kind, flat_value_eq, lemma_obj_flat_det, lemma_ser_val_first, ser_obj, ser_val, JsonValue};

verus! {

/// Advisory category a device announces for itself.
#[derive(Debug, PartialEq, Eq, Clone, Copy)]
pub enum DeviceType {
    Desktop,
    Laptop,
    Phone,
    Tablet,
    Tv,
    Unspecified,
}

/// The textual tag a device category travels as.
pub open spec fn type_tag(t: DeviceType) -> Seq<char> {
    match t {
        DeviceType::Desktop => "desktop"@,
        DeviceType::Laptop => "laptop"@,
        DeviceType::Phone => "phone"@,
        DeviceType::Tablet => "tablet"@,
        DeviceType::Tv => "tv"@,
        DeviceType::Unspecified => "unknown"@,
    }
}

/// Identity of a device, local or remote.
#[derive(Debug, PartialEq, Eq)]
pub struct DeviceIdentity {
    /// Stable identifier, generated once per installation; never changes.
    pub device_id: String,
    /// User-visible name; the peer may change it between announcements.
    pub device_name: String,
    /// Advisory category.
    pub device_type: DeviceType,
    /// Protocol version; incompatible versions reject the handshake.
    pub protocol_version: u32,
    /// Packet types the device can receive.
    pub incoming_capabilities: Vec<String>,
    /// Packet types the device can produce.
    pub outgoing_capabilities: Vec<String>,
}

pub open spec fn strs_shape(items: Seq<JsonValue>, strs: Seq<String>) -> bool {
    &&& items.len() == strs.len()
    &&& forall|i: int|
        0 <= i < items.len() ==> (#[trigger] items[i]) is Str && items[i]->Str_0@ == strs[i]@
}

/// The canonical identity body: an object with exactly these six members in
/// this order.
pub open spec fn identity_body_shape(v: JsonValue, d: DeviceIdentity) -> bool {
    &&& v is Obj
    &&& v->Obj_0@.len() == 6
    &&& v->Obj_0@[0].0@ == "deviceId"@
    &&& v->Obj_0@[0].1 is Str
    &&& v->Obj_0@[0].1->Str_0@ == d.device_id@
    &&& v->Obj_0@[1].0@ == "deviceName"@
    &&& v->Obj_0@[1].1 is Str
    &&& v->Obj_0@[1].1->Str_0@ == d.device_name@
    &&& v->Obj_0@[2].0@ == "deviceType"@
    &&& v->Obj_0@[2].1 is Str
    &&& v->Obj_0@[2].1->Str_0@ == type_tag(d.device_type)
    &&& v->Obj_0@[3].0@ == "protocolVersion"@
    &&& v->Obj_0@[3].1 is Int
    &&& v->Obj_0@[3].1->Int_0 == d.protocol_version as i64
    &&& v->Obj_0@[4].0@ == "incomingCapabilities"@
    &&& v->Obj_0@[4].1 is Arr
    &&& strs_shape(v->Obj_0@[4].1->Arr_0@, d.incoming_capabilities@)
    &&& v->Obj_0@[5].0@ == "outgoingCapabilities"@
    &&& v->Obj_0@[5].1 is Arr
    &&& strs_shape(v->Obj_0@[5].1->Arr_0@, d.outgoing_capabilities@)
}

fn type_to_string(t: DeviceType) -> (r: String)
    ensures
        r@ == type_tag(t),
{
    match t {
        DeviceType::Desktop => String::from_str("desktop"),
        DeviceType::Laptop => String::from_str("laptop"),
        DeviceType::Phone => String::from_str("phone"),
        DeviceType::Tablet => String::from_str("tablet"),
        DeviceType::Tv => String::from_str("tv"),
        DeviceType::Unspecified => String::from_str("unknown"),
    }
}

fn type_from_string(s: &String) -> (r: Option<DeviceType>)
    ensures
        r matches Some(t) ==> s@ == type_tag(t),
        r is None ==> forall|t: DeviceType| s@ != type_tag(t),
{
    if *s == String::from_str("desktop") {
        Some(DeviceType::Desktop)
    } else if *s == String::from_str("laptop") {
        Some(DeviceType::Laptop)
    } else if *s == String::from_str("phone") {
        Some(DeviceType::Phone)
    } else if *s == String::from_str("tablet") {
        Some(DeviceType::Tablet)
    } else if *s == String::from_str("tv") {
        Some(DeviceType::Tv)
    } else if *s == String::from_str("unknown") {
        Some(DeviceType::Unspecified)
    } else {
        assert forall|t: DeviceType| s@ != type_tag(t) by {}
        None
    }
}

fn strs_to_json(strs: &Vec<String>) -> (r: Vec<JsonValue>)
    ensures
        strs_shape(r@, strs@),
{
    let mut r: Vec<JsonValue> = Vec::new();
    let mut i: usize = 0;
    while i < strs.len()
        invariant
            0 <= i <= strs@.len(),
            strs_shape(r@, strs@.take(i as int)),
        decreases strs@.len() - i,
    {
        r.push(JsonValue::Str(strs[i].clone()));
        i = i + 1;
    }
    assert(strs@.take(strs@.len() as int) =~= strs@);
    r
}

fn strs_from_json(items: &Vec<JsonValue>) -> (r: Option<Vec<String>>)
    ensures
        r matches Some(strs) ==> strs_shape(items@, strs@),
        r is None ==> forall|strs: Seq<String>| !strs_shape(items@, strs),
{
    let mut r: Vec<String> = Vec::new();
    let mut i: usize = 0;
    while i < items.len()
        invariant
            0 <= i <= items@.len(),
            r@.len() == i,
            strs_shape(items@.take(i as int), r@),
        decreases items@.len() - i,
    {
        match &items[i] {
            JsonValue::Str(s) => {
                r.push(s.clone());
            },
            _ => {
                assert(!(items@[i as int] is Str));
                assert(forall|strs: Seq<String>| !strs_shape(items@, strs));
                return None;
            },
        }
        assert(items@.take(i + 1).last() == items@[i as int]);
        assert(items@.take(i + 1).drop_last() =~= items@.take(i as int));
        i = i + 1;
    }
    assert(items@.take(items@.len() as int) =~= items@);
    Some(r)
}

/// Builds the canonical identity body for `d`.
pub fn identity_to_json(d: &DeviceIdentity) -> (r: JsonValue)
    ensures
        identity_body_shape(r, *d),
{
    let mut fields: Vec<(String, JsonValue)> = Vec::new();
    fields.push((String::from_str("deviceId"), JsonValue::Str(d.device_id.clone())));
    fields.push((String::from_str("deviceName"), JsonValue::Str(d.device_name.clone())));
    fields.push((String::from_str("deviceType"), JsonValue::Str(type_to_string(d.device_type))));
    fields.push((String::from_str("protocolVersion"), JsonValue::Int(d.protocol_version as i64)));
    fields.push(
        (String::from_str("incomingCapabilities"), JsonValue::Arr(
            strs_to_json(&d.incoming_capabilities),
        )),
    );
    fields.push(
        (String::from_str("outgoingCapabilities"), JsonValue::Arr(
            strs_to_json(&d.outgoing_capabilities),
        )),
    );
    JsonValue::Obj(fields)
}

/// Reads a canonical identity body back into a `DeviceIdentity`.  Returns
/// `None` exactly when no identity has `v` as its canonical body.
pub fn identity_from_json(v: &JsonValue) -> (r: Option<DeviceIdentity>)
    ensures
        r matches Some(d) ==> identity_body_shape(*v, d),
        r is None ==> forall|d: DeviceIdentity| !identity_body_shape(*v, d),
{
    let fields = match v {
        JsonValue::Obj(fields) => fields,
        _ => {
            return None;
        },
    };
    if fields.len() != 6 {
        return None;
    }
    if !(fields[0].0 == String::from_str("deviceId") && fields[1].0 == String::from_str(
        "deviceName",
    ) && fields[2].0 == String::from_str("deviceType") && fields[3].0 == String::from_str(
        "protocolVersion",
    ) && fields[4].0 == String::from_str("incomingCapabilities") && fields[5].0
        == String::from_str("outgoingCapabilities")) {
        return None;
    }
    let device_id = match &fields[0].1 {
        JsonValue::Str(s) => s.clone(),
        _ => {
            return None;
        },
    };
    let device_name = match &fields[1].1 {
        JsonValue::Str(s) => s.clone(),
        _ => {
            return None;
        },
    };
    let device_type = match &fields[2].1 {
        JsonValue::Str(s) => match type_from_string(s) {
            Some(t) => t,
            None => {
                return None;
            },
        },
        _ => {
            return None;
        },
    };
    let protocol_version = match &fields[3].1 {
        JsonValue::Int(n) => {
            if *n < 0 || *n > u32::MAX as i64 {
                return None;
            }
            *n as u32
        },
        _ => {
            return None;
        },
    };
    let incoming_capabilities = match &fields[4].1 {
        JsonValue::Arr(items) => match strs_from_json(items) {
            Some(strs) => strs,
            None => {
                return None;
            },
        },
        _ => {
            return None;
        },
    };
    let outgoing_capabilities = match &fields[5].1 {
        JsonValue::Arr(items) => match strs_from_json(items) {
            Some(strs) => strs,
            None => {
                return None;
            },
        },
        _ => {
            return None;
        },
    };
    Some(
        DeviceIdentity {
            device_id,
            device_name,
            device_type,
            protocol_version,
            incoming_capabilities,
            outgoing_capabilities,
        },
    )
}


/// A value that renders exactly like a canonical identity body is itself a
/// canonical identity body of the same identity.
pub proof fn lemma_identity_shape_transfer(b1: JsonValue, b2: JsonValue, d: DeviceIdentity)
    requires
        ser_val(b2) == ser_val(b1),
        identity_body_shape(b1, d),
    ensures
        identity_body_shape(b2, d),
{
    let t = ser_val(b1);
    lemma_ser_val_first(b1);
    lemma_ser_val_first(b2);
    assert(t[0] == '{');
    assert(ser_val(b2)[0] == t[0]);
    assert(b2 is Obj);
    let f1 = b1->Obj_0@;
    let f2 = b2->Obj_0@;
    assert(t == seq!['{'] + ser_obj(f1, 0) + seq!['}']);
    assert(ser_val(b2) == seq!['{'] + ser_obj(f2, 0) + seq!['}']);
    let r = t.skip(1);
    assert(r =~= ser_obj(f1, 0) + seq!['}'] + Seq::<char>::empty());
    assert(r =~= ser_obj(f2, 0) + seq!['}'] + Seq::<char>::empty());
    assert forall|k: int| 0 <= k < f1.len() implies flat_kind((#[trigger] f1[k]).1) by {
        if k == 4 || k == 5 {
            assert(f1[k].1 is Arr);
        }
    }
    lemma_obj_flat_det(r, f1, f2, 0, Seq::<char>::empty(), Seq::<char>::empty());
    assert(f2.len() == 6);
    assert(flat_value_eq(f1[4].1, f2[4].1));
    assert(flat_value_eq(f1[5].1, f2[5].1));
    assert forall|t: int| 0 <= t < f2[4].1->Arr_0@.len() implies (#[trigger] f2[4].1->Arr_0@[t])
        is Str && f2[4].1->Arr_0@[t]->Str_0@ == d.incoming_capabilities@[t]@ by {
        assert(f1[4].1->Arr_0@[t] is Str && f1[4].1->Arr_0@[t]->Str_0@
            == d.incoming_capabilities@[t]@);
    }
    assert(strs_shape(f2[4].1->Arr_0@, d.incoming_capabilities@));
    assert forall|t: int| 0 <= t < f2[5].1->Arr_0@.len() implies (#[trigger] f2[5].1->Arr_0@[t])
        is Str && f2[5].1->Arr_0@[t]->Str_0@ == d.outgoing_capabilities@[t]@ by {
        assert(f1[5].1->Arr_0@[t] is Str && f1[5].1->Arr_0@[t]->Str_0@
            == d.outgoing_capabilities@[t]@);
    }
    assert(strs_shape(f2[5].1->Arr_0@, d.outgoing_capabilities@));
}

/// Identities converted to their canonical body and back are reproduced
/// exactly.
pub proof fn lemma_identity_shape_functional(v: JsonValue, a: DeviceIdentity, b: DeviceIdentity)
    requires
        identity_body_shape(v, a),
        identity_body_shape(v, b),
    ensures
        a.device_id@ == b.device_id@,
        a.device_name@ == b.device_name@,
        a.device_type == b.device_type,
        a.protocol_version == b.protocol_version,
        a.incoming_capabilities@.len() == b.incoming_capabilities@.len(),
        forall|t: int|
            0 <= t < a.incoming_capabilities@.len() ==> (#[trigger] a.incoming_capabilities@[t])@
                == b.incoming_capabilities@[t]@,
        a.outgoing_capabilities@.len() == b.outgoing_capabilities@.len(),
        forall|t: int|
            0 <= t < a.outgoing_capabilities@.len() ==> (#[trigger] a.outgoing_capabilities@[t])@
                == b.outgoing_capabilities@[t]@,
{
    assert(type_tag(a.device_type) == type_tag(b.device_type));
    if a.device_type != b.device_type {
        reveal_strlit("desktop");
        reveal_strlit("laptop");
        reveal_strlit("phone");
        reveal_strlit("tablet");
        reveal_strlit("tv");
        reveal_strlit("unknown");
        assert("desktop"@[0] != "unknown"@[0]);
        assert("laptop"@[0] != "tablet"@[0]);
    }
    assert forall|t: int| 0 <= t < a.incoming_capabilities@.len() implies (
    #[trigger] a.incoming_capabilities@[t])@ == b.incoming_capabilities@[t]@ by {
        assert(v->Obj_0@[4].1->Arr_0@[t] is Str);
        assert(v->Obj_0@[4].1->Arr_0@[t]->Str_0@ == a.incoming_capabilities@[t]@);
        assert(v->Obj_0@[4].1->Arr_0@[t]->Str_0@ == b.incoming_capabilities@[t]@);
    }
    assert forall|t: int| 0 <= t < a.outgoing_capabilities@.len() implies (
    #[trigger] a.outgoing_capabilities@[t])@ == b.outgoing_capabilities@[t]@ by {
        assert(v->Obj_0@[5].1->Arr_0@[t] is Str);
        assert(v->Obj_0@[5].1->Arr_0@[t]->Str_0@ == a.outgoing_capabilities@[t]@);
        assert(v->Obj_0@[5].1->Arr_0@[t]->Str_0@ == b.outgoing_capabilities@[t]@);
    }
}

} // verus!
