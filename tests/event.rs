use std::cmp::Ordering;

use matrix_visualisations::model::event::{normalize_parent_refs, Event, Field, RawEvent, RawRef, RequiredField};

fn raw(id: &str) -> RawEvent {
    RawEvent {
        room_id: Some("!room:a.org".to_string()),
        sender: Some("@bob:b.org".to_string()),
        origin: Some("b.org".to_string()),
        origin_server_ts: Some(1560000000000),
        etype: Some("m.room.member".to_string()),
        state_key: Some("@bob:b.org".to_string()),
        content: None,
        prev_events: Some(vec![RawRef::Id("$pa".to_string()), RawRef::List(Some("$pb".to_string()))]),
        depth: Some(42),
        auth_events: None,
        redacts: None,
        unsigned: None,
        event_id: Some(id.to_string()),
        hashes: None,
        signatures: None,
    }
}

fn parsed(id: &str) -> Event {
    match Event::parse(raw(id)) {
        Ok(e) => e,
        Err(_) => panic!("event should parse"),
    }
}

#[test]
fn parse_fills_missing_optional_fields_with_empty_values() {
    let mut r = raw("$e");
    r.sender = None;
    r.origin_server_ts = None;
    r.state_key = None;
    let e = match Event::parse(r) {
        Ok(e) => e,
        Err(_) => panic!("event should parse"),
    };
    assert_eq!(e.sender, "");
    assert_eq!(e.origin_server_ts, 0);
    assert_eq!(e.state_key, None);
    assert!(e.auth_events.is_empty());
    assert_eq!(e.event_id, "$e");
    assert_eq!(e.depth, 42);
}

#[test]
fn parse_reports_the_first_missing_field() {
    let mut r = raw("$e");
    r.event_id = None;
    r.depth = None;
    assert!(matches!(Event::parse(r), Err(RequiredField::EventId)));
    let mut r = raw("$e");
    r.depth = None;
    assert!(matches!(Event::parse(r), Err(RequiredField::Depth)));
}

#[test]
fn normalize_accepts_both_wire_forms() {
    let refs = vec![RawRef::Id("a".to_string()), RawRef::List(Some("b".to_string()))];
    assert_eq!(normalize_parent_refs(&refs), Some(vec!["a".to_string(), "b".to_string()]));
    assert_eq!(normalize_parent_refs(&vec![]), Some(vec![]));
    assert_eq!(normalize_parent_refs(&vec![RawRef::Other]), None);
    assert_eq!(normalize_parent_refs(&vec![RawRef::List(None)]), None);
}

#[test]
fn label_lists_selected_fields_in_canonical_order() {
    let e = parsed("$e");
    let fields = vec![Field::EventID, Field::Depth, Field::Sender, Field::PrevEvents, Field::OriginServerTS];
    assert_eq!(
        e.label(&fields),
        "Sender: @bob:b.org\nOrigin server time stamp: 1560000000000\nPrevious events: $pa $pb\nDepth: 42\nEvent ID: $e"
    );
}

#[test]
fn label_of_every_field() {
    let mut r = raw("$e");
    r.redacts = Some("$old".to_string());
    r.depth = Some(-3);
    let e = match Event::parse(r) {
        Ok(e) => e,
        Err(_) => panic!("event should parse"),
    };
    let all = vec![
        Field::Sender,
        Field::Origin,
        Field::OriginServerTS,
        Field::Type,
        Field::StateKey,
        Field::PrevEvents,
        Field::Depth,
        Field::Redacts,
        Field::EventID,
    ];
    assert_eq!(
        e.label(&all),
        "Sender: @bob:b.org\nOrigin: b.org\nOrigin server time stamp: 1560000000000\nType: m.room.member\nState key: @bob:b.org\nPrevious events: $pa $pb\nDepth: -3\nRedacts: $old\nEvent ID: $e"
    );
}

#[test]
fn label_trims_trailing_white_space() {
    let mut r = raw("$e");
    r.sender = Some("bob \t".to_string());
    let e = match Event::parse(r) {
        Ok(e) => e,
        Err(_) => panic!("event should parse"),
    };
    assert_eq!(e.label(&vec![Field::Sender]), "Sender: bob");
    assert_eq!(e.label(&vec![]), "");
    assert_eq!(e.label(&vec![Field::Redacts]), "");
}

#[test]
fn node_colours_follow_the_origin() {
    let e = parsed("$e");
    let local = e.to_data_set_node(&"b.org".to_string(), &vec![Field::Depth]);
    assert_eq!(local.id, "$e");
    assert_eq!(local.level, 42);
    assert_eq!(local.label, "Depth: 42");
    assert_eq!(local.color.border, "#006633");
    assert_eq!(local.color.background, "#009900");
    let remote = e.to_data_set_node(&"a.org".to_string(), &vec![]);
    assert_eq!(remote.color.border, "#990000");
    assert_eq!(remote.color.background, "#ff6600");
}

#[test]
fn identity_and_order_are_separate() {
    let a = parsed("$a");
    let b = parsed("$b");
    assert!(!a.identity_eq(&b));
    assert!(a.identity_eq(&parsed("$a")));
    assert_eq!(a.causal_order(&b), Ordering::Equal);
    let mut r = raw("$c");
    r.depth = Some(43);
    r.origin_server_ts = Some(1);
    let c = match Event::parse(r) {
        Ok(e) => e,
        Err(_) => panic!("event should parse"),
    };
    assert_eq!(a.causal_order(&c), Ordering::Less);
    assert_eq!(c.causal_order(&a), Ordering::Greater);
    let mut r = raw("$d");
    r.origin_server_ts = Some(1560000000001);
    let d = match Event::parse(r) {
        Ok(e) => e,
        Err(_) => panic!("event should parse"),
    };
    assert_eq!(a.causal_order(&d), Ordering::Less);
}

#[test]
fn events_are_equal_by_id() {
    let a = parsed("$a");
    let mut r = raw("$a");
    r.depth = Some(7);
    r.sender = None;
    let other_copy = match Event::parse(r) {
        Ok(e) => e,
        Err(_) => panic!("event should parse"),
    };
    assert!(a == other_copy);
    assert!(a != parsed("$b"));
}
