use rockstore::{get_range_slice, Direction, DocValue, KvStoreError, MessagePackSerializer};

fn room(id: i64) -> DocValue {
    DocValue::Obj(vec![("id".to_string(), DocValue::Int(id))])
}

fn entries(ids: &[i64]) -> Vec<(String, Vec<u8>)> {
    let codec = MessagePackSerializer;
    ids.iter()
        .map(|id| (format!("{}", id), codec.serialize(&room(*id)).unwrap()))
        .collect()
}

#[test]
fn test_range_forward() {
    let es = entries(&[1, 2, 3]);
    let r = get_range_slice(&es, "0", "999", 1000, Direction::Forward).unwrap();
    assert_eq!(r, vec![room(1), room(2), room(3)]);
}

#[test]
fn test_range_reverse() {
    let es = entries(&[1, 2, 3]);
    let r = get_range_slice(&es, "0", "999", 1000, Direction::Reverse).unwrap();
    assert_eq!(r, vec![room(3), room(2), room(1)]);
}

#[test]
fn test_range_limit_truncates() {
    let es = entries(&[1, 2, 3]);
    let r = get_range_slice(&es, "0", "999", 2, Direction::Forward).unwrap();
    assert_eq!(r, vec![room(1), room(2)]);
    let rr = get_range_slice(&es, "0", "999", 2, Direction::Reverse).unwrap();
    assert_eq!(rr, vec![room(3), room(2)]);
    let r0 = get_range_slice(&es, "0", "999", 0, Direction::Forward).unwrap();
    assert!(r0.is_empty());
}

#[test]
fn test_range_window_is_inclusive() {
    let es = entries(&[10, 20, 30, 40]);
    // positions 1 through 2, both ends included
    let r = get_range_slice(&es, "1", "2", 100, Direction::Forward).unwrap();
    assert_eq!(r, vec![room(20), room(30)]);
}

#[test]
fn test_range_unparseable_bounds_fall_back() {
    let es = entries(&[1, 2, 3]);
    // an unparseable `from` means the start, an unparseable `to` the end
    let r = get_range_slice(&es, "x", "", 100, Direction::Forward).unwrap();
    assert_eq!(r, vec![room(1), room(2), room(3)]);
    // a `to` too large for the machine's word does not parse either
    let r2 = get_range_slice(&es, "0", "99999999999999999999999999", 100, Direction::Forward)
        .unwrap();
    assert_eq!(r2, vec![room(1), room(2), room(3)]);
}

#[test]
fn test_range_empty_window() {
    let es = entries(&[1, 2, 3]);
    let r = get_range_slice(&es, "5", "2", 100, Direction::Forward).unwrap();
    assert!(r.is_empty());
    let empty: Vec<(String, Vec<u8>)> = Vec::new();
    let r2 = get_range_slice(&empty, "0", "999", 100, Direction::Forward).unwrap();
    assert!(r2.is_empty());
}

#[test]
fn test_range_decode_failure_is_fatal() {
    let mut es = entries(&[1, 2]);
    es.push(("3".to_string(), vec![0x42]));
    let r = get_range_slice(&es, "0", "999", 100, Direction::Forward);
    assert!(matches!(r, Err(KvStoreError::DeserializationError(_))));
    // outside the window the bad record is never touched
    let ok = get_range_slice(&es, "0", "1", 100, Direction::Forward).unwrap();
    assert_eq!(ok, vec![room(1), room(2)]);
}

#[test]
fn test_range_single_position() {
    let es = entries(&[1, 2, 3]);
    let r = get_range_slice(&es, "1", "1", 100, Direction::Forward).unwrap();
    assert_eq!(r, vec![room(2)]);
}

#[test]
fn test_range_leading_zero_bounds() {
    let es = entries(&[1, 2, 3]);
    let r = get_range_slice(&es, "00", "007", 100, Direction::Forward).unwrap();
    assert_eq!(r, vec![room(1), room(2), room(3)]);
}

#[test]
fn test_range_plus_signed_bounds() {
    // the standard parse accepts a leading plus sign
    let es = entries(&[1, 2, 3]);
    let r = get_range_slice(&es, "+1", "+2", 100, Direction::Forward).unwrap();
    assert_eq!(r, vec![room(2), room(3)]);
    let none = get_range_slice(&es, "++1", "", 100, Direction::Forward).unwrap();
    assert_eq!(none, vec![room(1), room(2), room(3)]);
}
