use mconnect::json::JsonValue;
use mconnect::packet::{body_value, decode, encode, Packet, ParseError};

#[test]
fn packet_serialize_deserialize_simple() {
    let s = encode(&Packet {
        typ: "kdeconnect.foo".to_string(),
        id: "123".to_string(),
        body: JsonValue::Str("foobar foobar".to_string()),
    });

    let back = decode(&s);
    assert_eq!(back.is_ok(), true);

    let v = back.unwrap();
    assert_eq!(v.typ, "kdeconnect.foo");
    assert_eq!(v.id, "123");
    assert_eq!(v.body, r#""foobar foobar""#)
}

#[test]
fn packet_serialize_deserialize_complex() {
    let s = encode(&Packet {
        typ: "kdeconnect.foo".to_string(),
        id: "123".to_string(),
        body: JsonValue::Obj(vec![
            ("foo".to_string(), JsonValue::Str("bar".to_string())),
            ("baz".to_string(), JsonValue::Int(2)),
            (
                "list".to_string(),
                JsonValue::Arr(vec![
                    JsonValue::Str("a".to_string()),
                    JsonValue::Str("b".to_string()),
                ]),
            ),
        ]),
    });

    let back = decode(&s);
    assert_eq!(back.is_ok(), true);

    let v = back.unwrap();
    assert_eq!(v.typ, "kdeconnect.foo");
    assert_eq!(v.id, "123");

    let bv = body_value(&v).unwrap();
    assert_eq!(
        bv,
        JsonValue::Obj(vec![
            ("foo".to_string(), JsonValue::Str("bar".to_string())),
            ("baz".to_string(), JsonValue::Int(2)),
            (
                "list".to_string(),
                JsonValue::Arr(vec![
                    JsonValue::Str("a".to_string()),
                    JsonValue::Str("b".to_string()),
                ]),
            ),
        ])
    );
}

#[test]
fn encode_exact_wire_text() {
    let s = encode(&Packet {
        typ: "kdeconnect.foo".to_string(),
        id: "123".to_string(),
        body: JsonValue::Str("foobar foobar".to_string()),
    });
    assert_eq!(
        s,
        "{\"type\":\"kdeconnect.foo\",\"id\":\"123\",\"body\":\"foobar foobar\"}\n"
    );
}

#[test]
fn decode_not_json() {
    assert_eq!(decode("not json"), Err(ParseError::NotJson));
    assert_eq!(decode(""), Err(ParseError::NotJson));
}

#[test]
fn decode_missing_type() {
    assert_eq!(
        decode("{\"id\":\"1\",\"body\":null}\n"),
        Err(ParseError::MissingType)
    );
}

#[test]
fn decode_missing_id() {
    assert_eq!(
        decode("{\"type\":\"t\",\"body\":null}\n"),
        Err(ParseError::MissingId)
    );
}

#[test]
fn decode_bad_body() {
    assert_eq!(
        decode("{\"type\":\"t\",\"id\":\"1\",\"body\":nope}\n"),
        Err(ParseError::BadBody)
    );
    assert_eq!(
        decode("{\"type\":\"t\",\"id\":\"1\"}\n"),
        Err(ParseError::BadBody)
    );
}

#[test]
fn decode_rejects_whitespace() {
    // whitespace is outside both accepted forms
    assert_eq!(
        decode("{\"type\": \"t\",\"id\":\"1\",\"body\":null}\n"),
        Err(ParseError::MissingType)
    );
}

#[test]
fn decode_accepts_reordered_and_extra_members() {
    let r = decode("{\"id\":\"9\",\"body\":null,\"type\":\"a.b\",\"extra\":true}\n").unwrap();
    assert_eq!(r.typ, "a.b");
    assert_eq!(r.id, "9");
    assert_eq!(r.body, "null");
}

#[test]
fn string_escapes_round_trip() {
    let tricky = "a\"b\\c\nd\re\tf\u{1}g";
    let s = encode(&Packet {
        typ: "kdeconnect.foo".to_string(),
        id: "1".to_string(),
        body: JsonValue::Str(tricky.to_string()),
    });
    let v = decode(&s).unwrap();
    let bv = body_value(&v).unwrap();
    assert_eq!(bv, JsonValue::Str(tricky.to_string()));
}

#[test]
fn integer_bodies_round_trip() {
    for n in [0i64, 1, -1, 42, i64::MAX, i64::MIN] {
        let s = encode(&Packet {
            typ: "kdeconnect.foo".to_string(),
            id: "1".to_string(),
            body: JsonValue::Int(n),
        });
        let v = decode(&s).unwrap();
        let bv = body_value(&v).unwrap();
        assert_eq!(bv, JsonValue::Int(n));
    }
}

#[test]
fn nested_bodies_round_trip() {
    let body = JsonValue::Arr(vec![
        JsonValue::Null,
        JsonValue::Bool(true),
        JsonValue::Bool(false),
        JsonValue::Obj(vec![]),
        JsonValue::Arr(vec![]),
        JsonValue::Obj(vec![("k".to_string(), JsonValue::Arr(vec![JsonValue::Int(7)]))]),
    ]);
    let s = encode(&Packet {
        typ: "t".to_string(),
        id: "2".to_string(),
        body,
    });
    let v = decode(&s).unwrap();
    let bv = body_value(&v).unwrap();
    assert_eq!(
        bv,
        JsonValue::Arr(vec![
            JsonValue::Null,
            JsonValue::Bool(true),
            JsonValue::Bool(false),
            JsonValue::Obj(vec![]),
            JsonValue::Arr(vec![]),
            JsonValue::Obj(vec![("k".to_string(), JsonValue::Arr(vec![JsonValue::Int(7)]))]),
        ])
    );
}
