//! The wire packet: one newline-terminated JSON record per packet, with the
//! fields `type`, `id` and `body` in that order.
//!
//! `encode` is proved to produce exactly the canonical record `record_chars`;
//! `decode` is proved sound: whenever it accepts, the input is exactly the
//! canonical record of what it returns, and the raw body it hands back is the
//! canonical rendering of the body value.
use vstd::prelude::*;

use crate::json::{
    chars_eq, chars_to_string, follows_ok, parse_string_at, parse_value, ser_str, ser_val,
    str_decomp, str_to_chars, val_decomp, write_json_string, write_val, JsonValue,
};

verus! {

/// Packet type tag for identity announcements.
pub open spec fn spec_identity_type() -> Seq<char> {
    "protocol.identity"@
}

/// Packet type tag for pair control packets.
pub open spec fn spec_pair_type() -> Seq<char> {
    "protocol.pair"@
}

pub fn identity_type() -> (r: &'static str)
    ensures
        r@ == spec_identity_type(),
{
    "protocol.identity"
}

pub fn pair_type() -> (r: &'static str)
    ensures
        r@ == spec_pair_type(),
{
    "protocol.pair"
}

/// An outgoing packet: a type tag, a correlation id, and a structured body.
#[derive(Debug, PartialEq, Eq)]
pub struct Packet {
    pub typ: String,
    pub id: String,
    pub body: JsonValue,
}

/// An incoming packet: type and id are extracted eagerly, the body is kept as
/// raw JSON text until a consumer for the type asks for it.
#[derive(Debug, PartialEq, Eq)]
pub struct IncomingPacket {
    pub typ: String,
    pub id: String,
    pub body: String,
}

/// Why a byte sequence was rejected by `decode`.
#[derive(Debug, PartialEq, Eq, Clone, Copy)]
pub enum ParseError {
    /// The text is not a canonical JSON record.
    NotJson,
    /// The record lacks the `type` field where it is required.
    MissingType,
    /// The record lacks the `id` field where it is required.
    MissingId,
    /// The `body` field is absent or not a well-formed JSON value.
    BadBody,
}

/// The one canonical wire rendering of a packet.
pub open spec fn record_chars(typ: Seq<char>, id: Seq<char>, body: JsonValue) -> Seq<char> {
    seq!['{', '"', 't', 'y', 'p', 'e', '"', ':'] + ser_str(typ) + seq![',', '"', 'i', 'd', '"', ':']
        + ser_str(id) + seq![',', '"', 'b', 'o', 'd', 'y', '"', ':'] + ser_val(body) + seq![
        '}',
        '\n',
    ]
}


/// Every canonical record is accepted, and its fields are recovered
/// exactly: the round trip through `encode` then `decode` is the identity
/// on the type, the id, and the body's rendering.
pub open spec fn decode_complete(text: Seq<char>, r: Result<IncomingPacket, ParseError>) -> bool {
    forall|typ: Seq<char>, id: Seq<char>, b: JsonValue|
        text == #[trigger] record_chars(typ, id, b) ==> (match r {
            Ok(ip) => ip.typ@ == typ && ip.id@ == id && ip.body@ == ser_val(b),
            Err(_) => false,
        })
}

spec fn rest_after_typ(id: Seq<char>, b: JsonValue) -> Seq<char> {
    seq![',', '"', 'i', 'd', '"', ':'] + ser_str(id) + seq![',', '"', 'b', 'o', 'd', 'y', '"', ':']
        + ser_val(b) + seq!['}', '\n']
}

spec fn rest_after_id(b: JsonValue) -> Seq<char> {
    seq![',', '"', 'b', 'o', 'd', 'y', '"', ':'] + ser_val(b) + seq!['}', '\n']
}

/// Cuts one canonical record into its pieces, positioned.
proof fn lemma_record_parts(text: Seq<char>, typ: Seq<char>, id: Seq<char>, b: JsonValue)
    requires
        text == record_chars(typ, id, b),
    ensures
        text.len() == 24 + ser_str(typ).len() + ser_str(id).len() + ser_val(b).len(),
        text[0] == '{' && text[1] == '"' && text[2] == 't' && text[3] == 'y' && text[4] == 'p'
            && text[5] == 'e' && text[6] == '"' && text[7] == ':',
        str_decomp(text, 8, typ, rest_after_typ(id, b)),
        ({
            let j = 8 + ser_str(typ).len() as int;
            &&& text[j] == ',' && text[j + 1] == '"' && text[j + 2] == 'i' && text[j + 3] == 'd'
                && text[j + 4] == '"' && text[j + 5] == ':'
            &&& str_decomp(text, j + 6, id, rest_after_id(b))
        }),
        ({
            let j2 = 14 + ser_str(typ).len() as int + ser_str(id).len() as int;
            &&& text[j2] == ',' && text[j2 + 1] == '"' && text[j2 + 2] == 'b' && text[j2 + 3]
                == 'o' && text[j2 + 4] == 'd' && text[j2 + 5] == 'y' && text[j2 + 6] == '"'
                && text[j2 + 7] == ':'
            &&& val_decomp(text, j2 + 8, b, seq!['}', '\n'])
            &&& follows_ok(seq!['}', '\n'])
            &&& text[j2 + 8 + ser_val(b).len() as int] == '}'
            &&& text[j2 + 9 + ser_val(b).len() as int] == '\n'
        }),
{
    let j = 8 + ser_str(typ).len() as int;
    let j2 = j + 6 + ser_str(id).len() as int;
    let j3 = j2 + 8 + ser_val(b).len() as int;
    assert(text.skip(8) =~= ser_str(typ) + rest_after_typ(id, b));
    assert(text.skip(j) =~= rest_after_typ(id, b));
    assert(text.skip(j + 6) =~= ser_str(id) + rest_after_id(b));
    assert(text.skip(j2) =~= rest_after_id(b));
    assert(text.skip(j2 + 8) =~= ser_val(b) + seq!['}', '\n']);
    assert(text.skip(j3) =~= seq!['}', '\n']);
    assert(ser_str(typ)[0] == '"');
    assert(forall|t: int| 0 <= t < text.len() - 8 ==> #[trigger] text.skip(8)[t] == text[8 + t]);
    assert(forall|t: int| 0 <= t < text.len() - j ==> #[trigger] text.skip(j)[t] == text[j + t]);
    assert(forall|t: int|
        0 <= t < text.len() - j2 ==> #[trigger] text.skip(j2)[t] == text[j2 + t]);
    assert(forall|t: int|
        0 <= t < text.len() - j3 ==> #[trigger] text.skip(j3)[t] == text[j3 + t]);
    assert(text[j] == rest_after_typ(id, b)[0]);
    assert(text[j + 1] == rest_after_typ(id, b)[1]);
    assert(text[j + 2] == rest_after_typ(id, b)[2]);
    assert(text[j + 3] == rest_after_typ(id, b)[3]);
    assert(text[j + 4] == rest_after_typ(id, b)[4]);
    assert(text[j + 5] == rest_after_typ(id, b)[5]);
    assert(text[j2] == rest_after_id(b)[0]);
    assert(text[j2 + 1] == rest_after_id(b)[1]);
    assert(text[j2 + 2] == rest_after_id(b)[2]);
    assert(text[j2 + 3] == rest_after_id(b)[3]);
    assert(text[j2 + 4] == rest_after_id(b)[4]);
    assert(text[j2 + 5] == rest_after_id(b)[5]);
    assert(text[j2 + 6] == rest_after_id(b)[6]);
    assert(text[j2 + 7] == rest_after_id(b)[7]);
    assert(text[j3] == '}');
    assert(text[j3 + 1] == '\n');
}

/// Writes the canonical record for the given fields.
fn write_record(out: &mut Vec<char>, typ: &Vec<char>, id: &Vec<char>, body: &JsonValue)
    ensures
        final(out)@ == old(out)@ + record_chars(typ@, id@, *body),
{
    out.push('{');
    out.push('"');
    out.push('t');
    out.push('y');
    out.push('p');
    out.push('e');
    out.push('"');
    out.push(':');
    write_json_string(out, typ);
    out.push(',');
    out.push('"');
    out.push('i');
    out.push('d');
    out.push('"');
    out.push(':');
    write_json_string(out, id);
    out.push(',');
    out.push('"');
    out.push('b');
    out.push('o');
    out.push('d');
    out.push('y');
    out.push('"');
    out.push(':');
    write_val(out, body);
    out.push('}');
    out.push('\n');
    assert(out@ =~= old(out)@ + record_chars(typ@, id@, *body));
}

/// Serializes a packet into its newline-terminated wire record.
pub fn encode(p: &Packet) -> (r: String)
    ensures
        r@ == record_chars(p.typ@, p.id@, p.body),
{
    let typc = str_to_chars(p.typ.as_str());
    let idc = str_to_chars(p.id.as_str());
    let mut out: Vec<char> = Vec::new();
    write_record(&mut out, &typc, &idc, &p.body);
    chars_to_string(&out)
}

/// Parses one newline-terminated wire record.  Accepts exactly the
/// canonical records: whenever it returns `Ok`, the input is the canonical
/// rendering of the returned fields, and the returned raw body is the
/// canonical rendering of the record's body value; and it accepts every
/// canonical record, recovering type, id and body exactly.  Never panics,
/// whatever the input.
#[verifier::rlimit(60)]
fn decode_canonical(text: &str) -> (r: Result<IncomingPacket, ParseError>)
    ensures
        r matches Ok(ip) ==> exists|b: JsonValue|
            text@ == record_chars(ip.typ@, ip.id@, b) && ip.body@ == ser_val(b),
        decode_complete(text@, r),
{
    let chars = str_to_chars(text);
    let ghost gold = text@;
    let n = chars.len();
    if n < 1 || chars[0] != '{' {
        proof {
            assert forall|typ: Seq<char>, id: Seq<char>, b: JsonValue|
                gold == #[trigger] record_chars(typ, id, b) implies false by {
                lemma_record_parts(gold, typ, id, b);
            }
        }
        return Err(ParseError::NotJson);
    }
    if n - 1 < 7 || chars[1] != '"' || chars[2] != 't' || chars[3] != 'y' || chars[4] != 'p'
        || chars[5] != 'e' || chars[6] != '"' || chars[7] != ':' {
        proof {
            assert forall|typ: Seq<char>, id: Seq<char>, b: JsonValue|
                gold == #[trigger] record_chars(typ, id, b) implies false by {
                lemma_record_parts(gold, typ, id, b);
            }
        }
        return Err(ParseError::MissingType);
    }
    let tr = parse_string_at(&chars, 8);
    proof {
        assert forall|typ: Seq<char>, id: Seq<char>, b: JsonValue|
            gold == #[trigger] record_chars(typ, id, b) implies (match tr {
            Ok(p) => p.0@ == typ && p.1 == 8 + ser_str(typ).len(),
            Err(()) => false,
        }) by {
            lemma_record_parts(gold, typ, id, b);
        }
    }
    let (typc, j) = match tr {
        Ok(p) => p,
        Err(()) => {
            return Err(ParseError::MissingType);
        },
    };
    if n - j < 6 || chars[j] != ',' || chars[j + 1] != '"' || chars[j + 2] != 'i' || chars[j + 3]
        != 'd' || chars[j + 4] != '"' || chars[j + 5] != ':' {
        proof {
            assert forall|typ: Seq<char>, id: Seq<char>, b: JsonValue|
                gold == #[trigger] record_chars(typ, id, b) implies false by {
                lemma_record_parts(gold, typ, id, b);
            }
        }
        return Err(ParseError::MissingId);
    }
    let ir = parse_string_at(&chars, j + 6);
    proof {
        assert forall|typ: Seq<char>, id: Seq<char>, b: JsonValue|
            gold == #[trigger] record_chars(typ, id, b) implies (match ir {
            Ok(p) => p.0@ == id && p.1 == j + 6 + ser_str(id).len(),
            Err(()) => false,
        }) by {
            lemma_record_parts(gold, typ, id, b);
        }
    }
    let (idc, j2) = match ir {
        Ok(p) => p,
        Err(()) => {
            return Err(ParseError::MissingId);
        },
    };
    if n - j2 < 8 || chars[j2] != ',' || chars[j2 + 1] != '"' || chars[j2 + 2] != 'b' || chars[j2
        + 3] != 'o' || chars[j2 + 4] != 'd' || chars[j2 + 5] != 'y' || chars[j2 + 6] != '"'
        || chars[j2 + 7] != ':' {
        proof {
            assert forall|typ: Seq<char>, id: Seq<char>, b: JsonValue|
                gold == #[trigger] record_chars(typ, id, b) implies false by {
                lemma_record_parts(gold, typ, id, b);
            }
        }
        return Err(ParseError::BadBody);
    }
    let vr = parse_value(&chars, j2 + 8);
    proof {
        assert forall|typ: Seq<char>, id: Seq<char>, b: JsonValue|
            gold == #[trigger] record_chars(typ, id, b) implies (match vr {
            Ok(p) => p.1 == j2 + 8 + ser_val(b).len() && ser_val(p.0) == ser_val(b),
            Err(()) => false,
        }) by {
            lemma_record_parts(gold, typ, id, b);
        }
    }
    let (bv, j3) = match vr {
        Ok(p) => p,
        Err(()) => {
            return Err(ParseError::BadBody);
        },
    };
    if n - j3 != 2 || chars[j3] != '}' || chars[j3 + 1] != '\n' {
        proof {
            assert forall|typ: Seq<char>, id: Seq<char>, b: JsonValue|
                gold == #[trigger] record_chars(typ, id, b) implies false by {
                lemma_record_parts(gold, typ, id, b);
            }
        }
        return Err(ParseError::BadBody);
    }
    let mut enc: Vec<char> = Vec::new();
    write_record(&mut enc, &typc, &idc, &bv);
    proof {
        assert(enc@ =~= record_chars(typc@, idc@, bv));
    }
    if !chars_eq(&enc, &chars) {
        proof {
            assert forall|typ: Seq<char>, id: Seq<char>, b: JsonValue|
                gold == #[trigger] record_chars(typ, id, b) implies false by {
                lemma_record_parts(gold, typ, id, b);
                assert(record_chars(typc@, idc@, bv) =~= record_chars(typ, id, b));
            }
        }
        return Err(ParseError::NotJson);
    }
    let mut body_chars: Vec<char> = Vec::new();
    write_val(&mut body_chars, &bv);
    let ip = IncomingPacket {
        typ: chars_to_string(&typc),
        id: chars_to_string(&idc),
        body: chars_to_string(&body_chars),
    };
    proof {
        assert(text@ == record_chars(ip.typ@, ip.id@, bv));
        assert(ip.body@ == ser_val(bv));
        assert forall|typ: Seq<char>, id: Seq<char>, b: JsonValue|
            gold == #[trigger] record_chars(typ, id, b) implies ip.typ@ == typ && ip.id@ == id
            && ip.body@ == ser_val(b) by {
            lemma_record_parts(gold, typ, id, b);
        }
    }
    Ok(ip)
}


/// Round trip: for every packet, decoding its encoding succeeds and
/// reproduces the type, the id, and a body rendered identically to the
/// original.  `encode` returns exactly `record_chars` of the packet, and
/// `decode` ensures `decode_complete` of its input, so this law applies
/// directly to `decode(encode(p))`.
pub proof fn lemma_round_trip(p: Packet, r: Result<IncomingPacket, ParseError>)
    requires
        decode_complete(record_chars(p.typ@, p.id@, p.body), r),
    ensures
        r is Ok,
        r matches Ok(ip) ==> ip.typ@ == p.typ@ && ip.id@ == p.id@ && ip.body@ == ser_val(p.body),
{
    let text = record_chars(p.typ@, p.id@, p.body);
    assert(text == record_chars(p.typ@, p.id@, p.body));
}


/// The first member of an object carrying the given key, if any.
pub open spec fn first_member(fields: Seq<(String, JsonValue)>, key: Seq<char>) -> Option<JsonValue>
    decreases fields.len(),
{
    if fields.len() == 0 {
        None
    } else if fields[0].0@ == key {
        Some(fields[0].1)
    } else {
        first_member(fields.drop_first(), key)
    }
}

proof fn lemma_first_member(fields: Seq<(String, JsonValue)>, key: Seq<char>, i: int)
    requires
        0 <= i <= fields.len(),
        forall|j: int| 0 <= j < i ==> (#[trigger] fields[j]).0@ != key,
    ensures
        i < fields.len() && fields[i].0@ == key ==> first_member(fields, key) == Some(
            fields[i].1,
        ),
        i == fields.len() ==> first_member(fields, key) is None,
    decreases i,
{
    if i > 0 {
        assert(fields[0].0@ != key);
        assert(forall|j: int|
            0 <= j < i - 1 ==> (#[trigger] fields.drop_first()[j]) == fields[j + 1]);
        lemma_first_member(fields.drop_first(), key, i - 1);
        if i < fields.len() {
            assert(fields.drop_first()[i - 1] == fields[i]);
        }
    }
}

/// Finds the first member carrying the given key.
fn find_member<'a>(fields: &'a Vec<(String, JsonValue)>, key: &str) -> (r: Option<&'a JsonValue>)
    ensures
        r matches Some(v) ==> first_member(fields@, key@) == Some(*v),
        r is None ==> first_member(fields@, key@) is None,
{
    let keys = String::from_str(key);
    let mut i: usize = 0;
    while i < fields.len()
        invariant
            0 <= i <= fields@.len(),
            keys@ == key@,
            forall|j: int| 0 <= j < i ==> (#[trigger] fields@[j]).0@ != key@,
        decreases fields@.len() - i,
    {
        if fields[i].0 == keys {
            proof {
                lemma_first_member(fields@, key@, i as int);
            }
            return Some(&fields[i].1);
        }
        i = i + 1;
    }
    proof {
        lemma_first_member(fields@, key@, fields@.len() as int);
    }
    None
}

/// A tolerant reading of a record: the text is the rendering of one JSON
/// object, newline-terminated, whose first `type`, `id` and `body` members
/// carry these fields, whatever their order and whatever else the object
/// holds.
pub open spec fn tolerant_form(text: Seq<char>, typ: Seq<char>, id: Seq<char>, body: Seq<char>) -> bool {
    exists|v: JsonValue|
        #![auto]
        {
            &&& text == ser_val(v) + seq!['\n']
            &&& v is Obj
            &&& (match first_member(v->Obj_0@, "type"@) {
                Some(tv) => tv is Str && tv->Str_0@ == typ,
                None => false,
            })
            &&& (match first_member(v->Obj_0@, "id"@) {
                Some(iv) => iv is Str && iv->Str_0@ == id,
                None => false,
            })
            &&& (match first_member(v->Obj_0@, "body"@) {
                Some(bv) => body == ser_val(bv),
                None => false,
            })
        }
}

/// Reads a record as one JSON object, in any member order.
fn decode_tolerant(text: &str) -> (r: Result<IncomingPacket, ParseError>)
    ensures
        r matches Ok(ip) ==> tolerant_form(text@, ip.typ@, ip.id@, ip.body@),
{
    let chars = str_to_chars(text);
    let n = chars.len();
    let (v, j) = match parse_value(&chars, 0) {
        Ok(p) => p,
        Err(()) => {
            return Err(ParseError::NotJson);
        },
    };
    if n - j != 1 {
        return Err(ParseError::NotJson);
    }
    if chars[j] != '\n' {
        return Err(ParseError::NotJson);
    }
    let mut enc: Vec<char> = Vec::new();
    write_val(&mut enc, &v);
    assert(enc@ =~= ser_val(v));
    enc.push('\n');
    if !chars_eq(&enc, &chars) {
        return Err(ParseError::NotJson);
    }
    proof {
        assert(text@ =~= ser_val(v) + seq!['\n']);
    }
    let fields = match &v {
        JsonValue::Obj(fields) => fields,
        _ => {
            return Err(ParseError::MissingType);
        },
    };
    let typ = match find_member(fields, "type") {
        Some(JsonValue::Str(t)) => t.clone(),
        _ => {
            return Err(ParseError::MissingType);
        },
    };
    let id = match find_member(fields, "id") {
        Some(JsonValue::Str(t)) => t.clone(),
        _ => {
            return Err(ParseError::MissingId);
        },
    };
    let body = match find_member(fields, "body") {
        Some(b) => b,
        None => {
            return Err(ParseError::BadBody);
        },
    };
    let mut body_chars: Vec<char> = Vec::new();
    write_val(&mut body_chars, body);
    let ip = IncomingPacket { typ, id, body: chars_to_string(&body_chars) };
    proof {
        assert(tolerant_form(text@, ip.typ@, ip.id@, ip.body@));
    }
    Ok(ip)
}

/// Parses one newline-terminated record.  The canonical form is always
/// accepted, with type, id and body recovered exactly; any other rendering
/// of a single JSON object is accepted too, whatever its member order and
/// extra members, with the fields read from its first `type`, `id` and
/// `body` members.  Never panics, whatever the input.
pub fn decode(text: &str) -> (r: Result<IncomingPacket, ParseError>)
    ensures
        r matches Ok(ip) ==> (exists|b: JsonValue|
            text@ == record_chars(ip.typ@, ip.id@, b) && ip.body@ == ser_val(b)) || tolerant_form(
            text@,
            ip.typ@,
            ip.id@,
            ip.body@,
        ),
        decode_complete(text@, r),
{
    let first = decode_canonical(text);
    match first {
        Ok(ip) => Ok(ip),
        Err(e) => {
            match decode_tolerant(text) {
                Ok(ip) => Ok(ip),
                Err(_) => Err(e),
            }
        },
    }
}

/// Materializes the raw body of an incoming packet as a JSON value.  Accepts
/// exactly the canonical renderings, which every body produced by `decode` is.
pub fn body_value(ip: &IncomingPacket) -> (r: Result<JsonValue, ParseError>)
    ensures
        r matches Ok(v) ==> ip.body@ == ser_val(v),
        forall|b: JsonValue|
            ip.body@ == #[trigger] ser_val(b) ==> (match r {
                Ok(v) => ser_val(v) == ser_val(b),
                Err(_) => false,
            }),
{
    let chars = str_to_chars(ip.body.as_str());
    let ghost gold = ip.body@;
    proof {
        assert forall|b: JsonValue| gold == #[trigger] ser_val(b) implies val_decomp(
            gold,
            0,
            b,
            Seq::<char>::empty(),
        ) && follows_ok(Seq::<char>::empty()) by {
            assert(gold.skip(0) =~= ser_val(b) + Seq::<char>::empty());
        }
    }
    let vr = parse_value(&chars, 0);
    proof {
        assert forall|b: JsonValue| gold == #[trigger] ser_val(b) implies (match vr {
            Ok(p) => p.1 == ser_val(b).len() && ser_val(p.0) == ser_val(b),
            Err(()) => false,
        }) by {}
    }
    let (v, j) = match vr {
        Ok(p) => p,
        Err(()) => {
            return Err(ParseError::BadBody);
        },
    };
    if j != chars.len() {
        return Err(ParseError::BadBody);
    }
    let mut enc: Vec<char> = Vec::new();
    write_val(&mut enc, &v);
    assert(enc@ =~= ser_val(v));
    if !chars_eq(&enc, &chars) {
        proof {
            assert forall|b: JsonValue| gold == #[trigger] ser_val(b) implies false by {
                assert(ser_val(v) == ser_val(b));
            }
        }
        return Err(ParseError::BadBody);
    }
    Ok(v)
}

} // verus!
