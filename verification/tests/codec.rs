use rockstore::{DocValue, KeyValuePair, KvStoreError, MessagePackSerializer};

fn obj(fields: Vec<(&str, DocValue)>) -> DocValue {
    DocValue::Obj(fields.into_iter().map(|(k, v)| (k.to_string(), v)).collect())
}

fn s(text: &str) -> DocValue {
    DocValue::Str(text.to_string())
}

fn roundtrip(v: &DocValue) -> DocValue {
    let codec = MessagePackSerializer;
    let bytes = codec.serialize(v).expect("value should encode");
    codec.deserialize(&bytes).expect("encoded bytes should decode")
}

#[test]
fn test_serialization() {
    let user = obj(vec![("id", DocValue::Int(1)), ("name", s("Alice"))]);
    let back = roundtrip(&user);
    assert_eq!(back, user);
    let pair = KeyValuePair { key: "user:1".to_string(), value: user };
    assert_eq!(pair.key, "user:1");
}

#[test]
fn test_roundtrip_scalars() {
    for v in [
        DocValue::Null,
        DocValue::Bool(false),
        DocValue::Bool(true),
        DocValue::Int(0),
        DocValue::Int(-1),
        DocValue::Int(i64::MIN),
        DocValue::Int(i64::MAX),
        s(""),
        s("plain"),
    ] {
        let back = roundtrip(&v);
        assert_eq!(back, v);
    }
}

#[test]
fn test_roundtrip_unicode_string() {
    let v = s("caf\u{e9} \u{1f600} \u{4e2d}\u{6587}");
    assert_eq!(roundtrip(&v), v);
}

#[test]
fn test_roundtrip_nested() {
    let v = obj(vec![
        ("rooms", DocValue::Arr(vec![
            obj(vec![("id", DocValue::Int(1)), ("style", s("Team"))]),
            obj(vec![("id", DocValue::Int(2)), ("style", s("Solo"))]),
        ])),
        ("empty_arr", DocValue::Arr(vec![])),
        ("empty_obj", DocValue::Obj(vec![])),
        ("flag", DocValue::Bool(true)),
        ("nothing", DocValue::Null),
    ]);
    assert_eq!(roundtrip(&v), v);
}

#[test]
fn test_encode_is_canonical() {
    // Decoding an encoding and re-encoding the result gives the same
    // bytes back.
    let codec = MessagePackSerializer;
    let v = obj(vec![("k", DocValue::Arr(vec![DocValue::Int(7), s("x")]))]);
    let bytes = codec.serialize(&v).unwrap();
    let back = codec.deserialize(&bytes).unwrap();
    let bytes2 = codec.serialize(&back).unwrap();
    assert_eq!(bytes2, bytes);
}

#[test]
fn test_decode_garbage_fails() {
    let codec = MessagePackSerializer;
    assert!(matches!(
        codec.deserialize(&[]),
        Err(KvStoreError::DeserializationError(_))
    ));
    assert!(matches!(
        codec.deserialize(&[0x01]),
        Err(KvStoreError::DeserializationError(_))
    ));
    // A truncated integer payload.
    assert!(matches!(
        codec.deserialize(&[0xd3, 0x00, 0x01]),
        Err(KvStoreError::DeserializationError(_))
    ));
    // A valid encoding with trailing bytes.
    let mut bytes = codec.serialize(&DocValue::Null).unwrap();
    bytes.push(0x00);
    assert!(matches!(
        codec.deserialize(&bytes),
        Err(KvStoreError::DeserializationError(_))
    ));
}

#[test]
fn test_decode_rejects_invalid_utf8_payload() {
    // A string header whose payload is not valid UTF-8.
    let bytes = vec![0xdb, 0x00, 0x00, 0x00, 0x01, 0xff];
    let codec = MessagePackSerializer;
    assert!(matches!(
        codec.deserialize(&bytes),
        Err(KvStoreError::DeserializationError(_))
    ));
}

#[test]
fn test_known_encoding_bytes() {
    let codec = MessagePackSerializer;
    assert_eq!(codec.serialize(&DocValue::Null).unwrap(), vec![0xc0]);
    assert_eq!(codec.serialize(&DocValue::Bool(false)).unwrap(), vec![0xc2]);
    assert_eq!(codec.serialize(&DocValue::Bool(true)).unwrap(), vec![0xc3]);
    assert_eq!(
        codec.serialize(&DocValue::Int(1)).unwrap(),
        vec![0xd3, 0, 0, 0, 0, 0, 0, 0, 1]
    );
    assert_eq!(
        codec.serialize(&DocValue::Int(-1)).unwrap(),
        vec![0xd3, 0xff, 0xff, 0xff, 0xff, 0xff, 0xff, 0xff, 0xff]
    );
    assert_eq!(
        codec.serialize(&s("ab")).unwrap(),
        vec![0xdb, 0, 0, 0, 2, b'a', b'b']
    );
    assert_eq!(
        codec.serialize(&DocValue::Arr(vec![DocValue::Null])).unwrap(),
        vec![0xdd, 0, 0, 0, 1, 0xc0]
    );
}

#[test]
fn test_large_value() {
    let big = "x".repeat(1000000);
    let v = s(&big);
    let back = roundtrip(&v);
    assert_eq!(back, v);
    let pair = KeyValuePair { key: "large_key".to_string(), value: back };
    assert_eq!(pair.key, "large_key");
}
