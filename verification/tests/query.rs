use rockstore::{
    get_range_slice, query_records, query_records_with_keys, Direction, DocValue, KvStoreError,
    MessagePackSerializer,
};

fn s(text: &str) -> DocValue {
    DocValue::Str(text.to_string())
}

fn room(id: i64, style: &str, players: i64, capacity: i64) -> DocValue {
    DocValue::Obj(vec![
        ("id".to_string(), DocValue::Int(id)),
        ("style".to_string(), s(style)),
        ("is_private".to_string(), DocValue::Bool(id % 2 == 0)),
        ("player_count".to_string(), DocValue::Int(players)),
        ("capacity".to_string(), DocValue::Int(capacity)),
    ])
}

fn rooms() -> Vec<DocValue> {
    vec![
        room(1, "Team", 3, 8),
        room(2, "Solo", 1, 1),
        room(3, "Team", 8, 8),
        room(4, "Team", 2, 4),
    ]
}

fn entries_of(docs: &[DocValue]) -> Vec<(String, Vec<u8>)> {
    let codec = MessagePackSerializer;
    docs.iter()
        .enumerate()
        .map(|(i, d)| (format!("{}", i + 1), codec.serialize(d).unwrap()))
        .collect()
}

#[test]
fn test_query_wildcard_equals_forward_scan() {
    let es = entries_of(&rooms());
    let via_query = query_records(&es, "$[*]").unwrap();
    let via_range = get_range_slice(&es, "", "", usize::MAX, Direction::Forward).unwrap();
    assert_eq!(via_query, via_range);
    assert_eq!(via_query, rooms());
}

#[test]
fn test_query_filter_team_with_space() {
    // records whose style is Team and whose player count is under capacity
    let es = entries_of(&rooms());
    let r = query_records(&es, "$[?@.style=='Team' && @.player_count < @.capacity]").unwrap();
    assert_eq!(r, vec![room(1, "Team", 3, 8), room(4, "Team", 2, 4)]);
}

#[test]
fn test_query_index_and_negative_index() {
    let es = entries_of(&rooms());
    assert_eq!(query_records(&es, "$[0]").unwrap(), vec![room(1, "Team", 3, 8)]);
    assert_eq!(query_records(&es, "$[-1]").unwrap(), vec![room(4, "Team", 2, 4)]);
    assert!(query_records(&es, "$[9]").unwrap().is_empty());
}

#[test]
fn test_query_index_list() {
    let es = entries_of(&rooms());
    let r = query_records(&es, "$[2,0]").unwrap();
    assert_eq!(r, vec![room(3, "Team", 8, 8), room(1, "Team", 3, 8)]);
}

#[test]
fn test_query_slices() {
    let es = entries_of(&rooms());
    assert_eq!(
        query_records(&es, "$[1:3]").unwrap(),
        vec![room(2, "Solo", 1, 1), room(3, "Team", 8, 8)]
    );
    assert_eq!(
        query_records(&es, "$[2:]").unwrap(),
        vec![room(3, "Team", 8, 8), room(4, "Team", 2, 4)]
    );
    assert_eq!(query_records(&es, "$[:1]").unwrap(), vec![room(1, "Team", 3, 8)]);
    assert_eq!(
        query_records(&es, "$[-2:]").unwrap(),
        vec![room(3, "Team", 8, 8), room(4, "Team", 2, 4)]
    );
}

#[test]
fn test_query_projection() {
    let es = entries_of(&rooms());
    let r = query_records(&es, "$[:2].style").unwrap();
    assert_eq!(r, vec![s("Team"), s("Solo")]);
}

#[test]
fn test_query_projection_drops_missing() {
    let docs = vec![
        DocValue::Obj(vec![("a".to_string(), DocValue::Int(1))]),
        DocValue::Obj(vec![("b".to_string(), DocValue::Int(2))]),
    ];
    let es = entries_of(&docs);
    let r = query_records(&es, "$[*].a").unwrap();
    assert_eq!(r, vec![DocValue::Int(1)]);
}

#[test]
fn test_query_logic_and_comparisons() {
    let es = entries_of(&rooms());
    let r = query_records(&es, "$[?@.id >= 3 || @.style != 'Team']").unwrap();
    assert_eq!(
        r,
        vec![room(2, "Solo", 1, 1), room(3, "Team", 8, 8), room(4, "Team", 2, 4)]
    );
    let n = query_records(&es, "$[?!(@.style == 'Team')]").unwrap();
    assert_eq!(n, vec![room(2, "Solo", 1, 1)]);
    let b = query_records(&es, "$[?@.is_private == true]").unwrap();
    assert_eq!(b, vec![room(2, "Solo", 1, 1), room(4, "Team", 2, 4)]);
}

#[test]
fn test_query_existence_atom() {
    let docs = vec![
        DocValue::Obj(vec![("a".to_string(), DocValue::Int(1))]),
        DocValue::Obj(vec![("a".to_string(), DocValue::Null)]),
        DocValue::Obj(vec![("b".to_string(), DocValue::Int(2))]),
    ];
    let es = entries_of(&docs);
    // present and not null
    let r = query_records(&es, "$[?@.a]").unwrap();
    assert_eq!(r, vec![DocValue::Obj(vec![("a".to_string(), DocValue::Int(1))])]);
}

#[test]
fn test_query_with_keys() {
    let es = entries_of(&rooms());
    let r = query_records_with_keys(&es, "$[?@.style=='Solo']").unwrap();
    assert_eq!(r.len(), 1);
    assert_eq!(r[0].key, "2");
    assert_eq!(r[0].value, room(2, "Solo", 1, 1));
}

#[test]
fn test_query_invalid_expression() {
    let es = entries_of(&rooms());
    for bad in ["", "$", "$[", "$[*", "$[?]", "$[1,]", "rooms", "$[*] extra", "$[?@style]"] {
        let r = query_records(&es, bad);
        assert!(
            matches!(r, Err(KvStoreError::InvalidQuery(_))),
            "expected InvalidQuery for {:?}",
            bad
        );
    }
}

#[test]
fn test_query_invalid_reported_before_scan() {
    // a malformed expression is reported even when a record would not decode
    let es = vec![("1".to_string(), vec![0xffu8])];
    let r = query_records(&es, "$[");
    assert!(matches!(r, Err(KvStoreError::InvalidQuery(_))));
}

#[test]
fn test_query_decode_failure() {
    let mut es = entries_of(&rooms());
    es.push(("9".to_string(), vec![0x00]));
    let r = query_records(&es, "$[*]");
    assert!(matches!(r, Err(KvStoreError::DeserializationError(_))));
}

#[test]
fn test_query_negative_slice_bounds() {
    let es = entries_of(&rooms());
    assert_eq!(
        query_records(&es, "$[-3:-1]").unwrap(),
        vec![room(2, "Solo", 1, 1), room(3, "Team", 8, 8)]
    );
}

#[test]
fn test_query_duplicate_positions() {
    // the listing is a union: a repeated position adds nothing, and the
    // first mention keeps its place
    let es = entries_of(&rooms());
    let r = query_records(&es, "$[0,0]").unwrap();
    assert_eq!(r, vec![room(1, "Team", 3, 8)]);
    let order = query_records(&es, "$[2,0,2,-2]").unwrap();
    assert_eq!(order, vec![room(3, "Team", 8, 8), room(1, "Team", 3, 8)]);
}

#[test]
fn test_query_blanks_inside_selector() {
    let es = entries_of(&rooms());
    assert_eq!(query_records(&es, "$[ 1 ]").unwrap(), vec![room(2, "Solo", 1, 1)]);
    assert_eq!(
        query_records(&es, "$[? @.style == 'Solo' ]").unwrap(),
        vec![room(2, "Solo", 1, 1)]
    );
}

#[test]
fn test_query_negative_literal() {
    let docs = vec![
        DocValue::Obj(vec![("t".to_string(), DocValue::Int(-5))]),
        DocValue::Obj(vec![("t".to_string(), DocValue::Int(3))]),
    ];
    let es = entries_of(&docs);
    let r = query_records(&es, "$[?@.t < -1]").unwrap();
    assert_eq!(r, vec![DocValue::Obj(vec![("t".to_string(), DocValue::Int(-5))])]);
}

#[test]
fn test_query_string_order() {
    let es = entries_of(&rooms());
    let r = query_records(&es, "$[?@.style < 'Team']").unwrap();
    assert_eq!(r, vec![room(2, "Solo", 1, 1)]);
}

#[test]
fn test_query_composite_equality() {
    let tags = |xs: &[&str]| DocValue::Arr(xs.iter().map(|x| s(x)).collect());
    let docs = vec![
        DocValue::Obj(vec![
            ("tags".to_string(), tags(&["a", "b"])),
            ("also".to_string(), tags(&["a", "b"])),
        ]),
        DocValue::Obj(vec![
            ("tags".to_string(), tags(&["a", "b"])),
            ("also".to_string(), tags(&["a", "c"])),
        ]),
        DocValue::Obj(vec![
            ("tags".to_string(), tags(&["a"])),
            ("also".to_string(), s("a")),
        ]),
    ];
    let es = entries_of(&docs);
    // arrays compare structurally: equal contents match, others do not
    let eq = query_records(&es, "$[?@.tags == @.also]").unwrap();
    assert_eq!(eq, vec![docs[0].clone()]);
    // an attribute always equals itself, composite or not
    let refl = query_records(&es, "$[?@.tags == @.tags]").unwrap();
    assert_eq!(refl.len(), 3);
    let irrefl = query_records(&es, "$[?@.tags != @.tags]").unwrap();
    assert!(irrefl.is_empty());
    // an array never equals a scalar
    let cross = query_records(&es, "$[?@.tags == 'a']").unwrap();
    assert!(cross.is_empty());
}
