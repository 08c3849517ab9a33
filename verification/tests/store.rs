use rockstore::{
    delete_check, encode_batch, open_plan, read_value, require_collection, size_from_properties,
    DocValue, KvStoreError, MessagePackSerializer,
};

#[test]
fn test_key_not_found() {
    let r = read_value(None, "non_existent_key");
    match r {
        Err(KvStoreError::KeyNotFound(k)) => assert_eq!(k, "non_existent_key"),
        other => panic!("Expected KeyNotFound error, got {:?}", other),
    }
}

#[test]
fn test_read_value_decodes_found_bytes() {
    let codec = MessagePackSerializer;
    let v = DocValue::Str("hello".to_string());
    let bytes = codec.serialize(&v).unwrap();
    let r = read_value(Some(bytes), "k");
    assert_eq!(r.unwrap(), v);
}

#[test]
fn test_read_value_rejects_bad_bytes() {
    let r = read_value(Some(vec![0x99]), "k");
    assert!(matches!(r, Err(KvStoreError::DeserializationError(_))));
}

#[test]
fn test_multiple_operations() {
    let codec = MessagePackSerializer;
    let mut items: Vec<(String, DocValue)> = Vec::new();
    for i in 0..1000 {
        items.push((format!("key_{}", i), DocValue::Str(format!("value_{}", i))));
    }
    let encoded = encode_batch(&items).unwrap();
    assert_eq!(encoded.len(), 1000);
    for i in 0..1000 {
        assert_eq!(encoded[i].0, format!("key_{}", i));
        let back = codec.deserialize(&encoded[i].1).unwrap();
        assert_eq!(back, DocValue::Str(format!("value_{}", i)));
    }
}

#[test]
fn test_require_collection() {
    assert!(require_collection(true, "rooms").is_ok());
    match require_collection(false, "missing") {
        Err(KvStoreError::InvalidColumnFamily(n)) => assert_eq!(n, "missing"),
        other => panic!("expected InvalidColumnFamily, got {:?}", other),
    }
}

#[test]
fn test_delete_check() {
    assert!(delete_check(true, "cf", true, "k").is_ok());
    assert!(matches!(
        delete_check(false, "cf", true, "k"),
        Err(KvStoreError::InvalidColumnFamily(_))
    ));
    match delete_check(true, "cf", false, "gone") {
        Err(KvStoreError::KeyNotFound(k)) => assert_eq!(k, "gone"),
        other => panic!("expected KeyNotFound, got {:?}", other),
    }
}

#[test]
fn test_open_plan() {
    let listed = vec!["default".to_string(), "rooms".to_string()];
    assert_eq!(open_plan(true, listed.clone()), listed);
    assert_eq!(open_plan(false, listed), vec!["default".to_string()]);
}

#[test]
fn test_size_from_properties() {
    let r = size_from_properties(Some(100), Some(20), None);
    assert_eq!(r.sst_bytes, 100);
    assert_eq!(r.mem_table_bytes, 20);
    assert_eq!(r.blob_bytes, 0);
    assert_eq!(r.total_bytes, 120);
    let sat = size_from_properties(Some(u64::MAX), Some(1), Some(1));
    assert_eq!(sat.total_bytes, u64::MAX);
}
