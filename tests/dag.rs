use matrix_visualisations::model::dag::{DataSet, JoinedTimeline, RoomEvents, SyncResponse, UnknownRoom};
use matrix_visualisations::model::event::{Field, RawEvent, RawRef, RequiredField};

fn raw(id: &str, depth: i64, prevs: &[&str]) -> RawEvent {
    RawEvent {
        room_id: Some("!room:a.org".to_string()),
        sender: Some("@alice:a.org".to_string()),
        origin: Some("a.org".to_string()),
        origin_server_ts: Some(1000 + depth),
        etype: Some("m.room.message".to_string()),
        state_key: None,
        content: None,
        prev_events: Some(prevs.iter().map(|p| RawRef::Id(p.to_string())).collect()),
        depth: Some(depth),
        auth_events: None,
        redacts: None,
        unsigned: None,
        event_id: Some(id.to_string()),
        hashes: None,
        signatures: None,
    }
}

fn room() -> String {
    "!room:a.org".to_string()
}

fn graph() -> RoomEvents {
    RoomEvents::new("!room:a.org", "a.org", &vec![Field::EventID])
}

fn sorted(v: &[String]) -> Vec<String> {
    let mut v = v.to_vec();
    v.sort();
    v
}

fn ids(list: &[&str]) -> Vec<String> {
    let mut v: Vec<String> = list.iter().map(|s| s.to_string()).collect();
    v.sort();
    v
}

fn orphans(g: &RoomEvents) -> Vec<String> {
    let mut v: Vec<String> = g.orphan_events().iter().map(|o| o.id.clone()).collect();
    v.sort();
    v
}

fn node_ids(d: &DataSet) -> Vec<String> {
    let mut v: Vec<String> = d.nodes.iter().map(|n| n.id.clone()).collect();
    v.sort();
    v
}

fn edge_pairs(d: &DataSet) -> Vec<(String, String)> {
    let mut v: Vec<(String, String)> = d.edges.iter().map(|e| (e.from.clone(), e.to.clone())).collect();
    v.sort();
    v
}

fn pair(a: &str, b: &str) -> (String, String) {
    (a.to_string(), b.to_string())
}

/// The frontier sets and the rendered graph, each sorted.
fn shape(g: &RoomEvents) -> (Vec<String>, Vec<String>, Vec<String>, Vec<String>, Vec<(String, String)>) {
    let d = g.create_data_set();
    (sorted(g.latest_events()), sorted(g.earliest_events()), orphans(g), node_ids(&d), edge_pairs(&d))
}

fn chain() -> Vec<RawEvent> {
    vec![
        raw("A", 1, &[]),
        raw("B", 2, &["A"]),
        raw("C", 3, &["B"]),
        raw("D", 4, &["C"]),
        raw("E", 5, &["D"]),
    ]
}

#[test]
fn timeline_scenario_resolves_late_parent() {
    let mut g = graph();
    let r = g.ingest_timeline_batch(&room(), vec![raw("e3", 3, &["e2"]), raw("e2", 2, &["e1"])]);
    assert!(r.is_ok());
    assert_eq!(orphans(&g), ids(&["e2"]));
    assert_eq!(sorted(g.latest_events()), ids(&["e3"]));
    assert_eq!(sorted(g.earliest_events()), ids(&["e2"]));
    let r = g.ingest_timeline_batch(&room(), vec![raw("e1", 1, &[])]);
    assert_eq!(r.unwrap().added, 1);
    assert!(orphans(&g).is_empty());
    assert_eq!(sorted(g.earliest_events()), ids(&["e1"]));
    assert_eq!(sorted(g.latest_events()), ids(&["e3"]));
    assert_eq!(edge_pairs(&g.create_data_set()), vec![pair("e2", "e1"), pair("e3", "e2")]);
}

#[test]
fn one_malformed_event_does_not_stop_a_batch() {
    let mut g = graph();
    let mut bad = raw("x", 3, &["b"]);
    bad.event_id = None;
    let batch = vec![raw("a", 1, &[]), raw("b", 2, &["a"]), bad, raw("c", 3, &["b"]), raw("d", 4, &["c"])];
    let report = g.ingest_backfill_batch(batch);
    assert_eq!(report.added, 4);
    assert_eq!(report.errors.len(), 1);
    assert_eq!(report.errors[0].index, 2);
    assert_eq!(report.errors[0].field, RequiredField::EventId);
    assert_eq!(node_ids(&g.create_data_set()), ids(&["a", "b", "c", "d"]));
}

#[test]
fn missing_depth_and_bad_parents_are_reported() {
    let mut g = graph();
    let mut no_depth = raw("x", 1, &[]);
    no_depth.depth = None;
    let mut no_prevs = raw("y", 1, &[]);
    no_prevs.prev_events = None;
    let mut bad_prev = raw("z", 1, &[]);
    bad_prev.prev_events = Some(vec![RawRef::Id("a".to_string()), RawRef::Other]);
    let mut empty_list = raw("w", 1, &[]);
    empty_list.prev_events = Some(vec![RawRef::List(None)]);
    let report = g.ingest_backfill_batch(vec![no_depth, no_prevs, bad_prev, empty_list]);
    assert_eq!(report.added, 0);
    let fields: Vec<(usize, RequiredField)> = report.errors.iter().map(|e| (e.index, e.field)).collect();
    assert_eq!(
        fields,
        vec![
            (0, RequiredField::Depth),
            (1, RequiredField::PrevEvents),
            (2, RequiredField::PrevEvents),
            (3, RequiredField::PrevEvents),
        ]
    );
    assert!(g.latest_events().is_empty());
    assert_eq!(g.depth_range(), None);
}

#[test]
fn pair_form_parent_refs_are_normalised() {
    let mut g = graph();
    let mut child = raw("c", 2, &[]);
    child.prev_events = Some(vec![RawRef::List(Some("p".to_string()))]);
    g.ingest_backfill_batch(vec![child, raw("p", 1, &[])]);
    assert_eq!(g.get_event(&"c".to_string()).unwrap().get_prev_events(), &vec!["p".to_string()]);
    assert_eq!(edge_pairs(&g.create_data_set()), vec![pair("c", "p")]);
}

#[test]
fn ingesting_a_batch_twice_changes_nothing() {
    let mut once = graph();
    once.ingest_backfill_batch(chain());
    let mut twice = graph();
    twice.ingest_backfill_batch(chain());
    let report = twice.ingest_backfill_batch(chain());
    assert_eq!(report.added, 0);
    assert!(report.errors.is_empty());
    assert_eq!(shape(&once), shape(&twice));
}

#[test]
fn batch_order_does_not_matter() {
    let mut forward = graph();
    forward.ingest_backfill_batch(chain());
    let mut reverse = graph();
    let mut rev = chain();
    rev.reverse();
    reverse.ingest_backfill_batch(rev);
    let mut shuffled = graph();
    let mut c = chain();
    let order = [2usize, 4, 0, 3, 1];
    let mut mixed = Vec::new();
    let mut taken: Vec<Option<RawEvent>> = c.drain(..).map(Some).collect();
    for i in order {
        mixed.push(taken[i].take().unwrap());
    }
    shuffled.ingest_backfill_batch(mixed);
    assert_eq!(shape(&forward), shape(&reverse));
    assert_eq!(shape(&forward), shape(&shuffled));
    assert_eq!(sorted(forward.latest_events()), ids(&["E"]));
    assert_eq!(sorted(forward.earliest_events()), ids(&["A"]));
}

#[test]
fn late_parent_is_joined_to_its_child() {
    let mut g = graph();
    g.ingest_backfill_batch(vec![raw("C", 2, &["P"])]);
    assert_eq!(orphans(&g), ids(&["C"]));
    assert!(edge_pairs(&g.create_data_set()).is_empty());
    g.ingest_backfill_batch(vec![raw("P", 1, &[])]);
    assert_eq!(edge_pairs(&g.create_data_set()), vec![pair("C", "P")]);
    assert!(orphans(&g).is_empty());
    assert_eq!(sorted(g.latest_events()), ids(&["C"]));
    assert_eq!(sorted(g.earliest_events()), ids(&["P"]));
}

#[test]
fn chain_frontier_without_missing_parent() {
    let mut g = graph();
    g.ingest_backfill_batch(chain());
    assert_eq!(sorted(g.latest_events()), ids(&["E"]));
    assert_eq!(sorted(g.earliest_events()), ids(&["A"]));
    assert!(orphans(&g).is_empty());
}

#[test]
fn chain_frontier_with_missing_parent() {
    let mut g = graph();
    let mut c = chain();
    c[0] = raw("A", 1, &["Z"]);
    g.ingest_backfill_batch(c);
    assert_eq!(sorted(g.latest_events()), ids(&["E"]));
    assert_eq!(sorted(g.earliest_events()), ids(&["A"]));
    assert_eq!(orphans(&g), ids(&["A"]));
    assert_eq!(g.orphan_events()[0].depth, 1);
}

#[test]
fn single_event_is_head_and_tail() {
    let mut g = graph();
    g.ingest_backfill_batch(vec![raw("only", 7, &[])]);
    assert_eq!(sorted(g.latest_events()), ids(&["only"]));
    assert_eq!(sorted(g.earliest_events()), ids(&["only"]));
    assert_eq!(g.depth_range(), Some((7, 7)));
}

#[test]
fn diff_since_tail_returns_only_the_backfilled_chain() {
    let mut g = graph();
    g.ingest_timeline_batch(&room(), vec![raw("t", 4, &["anc_a"]), raw("h", 5, &["t"])]).unwrap();
    let old_tails = g.earliest_events().clone();
    assert_eq!(sorted(&old_tails), ids(&["t"]));
    g.ingest_backfill_batch(vec![raw("anc_a", 3, &["anc_b"]), raw("anc_b", 2, &["anc_c"]), raw("anc_c", 1, &[])]);
    let d = g.diff_since_tail(&old_tails);
    assert_eq!(node_ids(&d), ids(&["anc_a", "anc_b", "anc_c"]));
    assert_eq!(edge_pairs(&d), vec![pair("anc_a", "anc_b"), pair("anc_b", "anc_c"), pair("t", "anc_a")]);
    let mut view = DataSet::new();
    g.add_earlier_events_to_data_set(&mut view, old_tails);
    assert_eq!(node_ids(&view), ids(&["anc_a", "anc_b", "anc_c"]));
}

#[test]
fn diff_since_head_returns_the_new_events() {
    let mut g = graph();
    g.ingest_timeline_batch(&room(), vec![raw("a", 1, &[]), raw("b", 2, &["a"])]).unwrap();
    let old_heads = g.latest_events().clone();
    g.ingest_timeline_batch(&room(), vec![raw("c", 3, &["b"]), raw("d", 4, &["c"])]).unwrap();
    let d = g.diff_since_head(&old_heads);
    assert_eq!(node_ids(&d), ids(&["c", "d"]));
    assert_eq!(edge_pairs(&d), vec![pair("c", "b"), pair("d", "c")]);
    let mut view = g.create_data_set();
    let before = view.nodes.len();
    g.add_new_events_to_data_set(&mut view, old_heads);
    assert_eq!(view.nodes.len(), before + 2);
}

#[test]
fn diff_ignores_unknown_seeds() {
    let mut g = graph();
    g.ingest_backfill_batch(chain());
    let d = g.diff_since_tail(&vec!["nowhere".to_string()]);
    assert!(d.nodes.is_empty());
    assert!(d.edges.is_empty());
}

#[test]
fn first_event_with_an_id_wins() {
    let mut g = graph();
    g.ingest_backfill_batch(vec![raw("a", 1, &[]), raw("a", 9, &["zz"])]);
    let e = g.get_event(&"a".to_string()).unwrap();
    assert_eq!(e.depth, 1);
    assert!(e.get_prev_events().is_empty());
    assert!(orphans(&g).is_empty());
    assert!(g.get_event(&"b".to_string()).is_none());
}

#[test]
fn batch_of_another_room_is_a_no_op() {
    let mut g = graph();
    let r = g.ingest_timeline_batch(&"!other:b.org".to_string(), chain());
    assert!(matches!(r, Err(UnknownRoom)));
    assert!(g.create_data_set().nodes.is_empty());
    assert_eq!(g.room_id(), &room());
}

#[test]
fn empty_batch_changes_nothing() {
    let mut g = graph();
    let r = g.ingest_backfill_batch(Vec::new());
    assert_eq!(r.added, 0);
    assert!(g.latest_events().is_empty());
    assert!(g.earliest_events().is_empty());
}

#[test]
fn depth_range_tracks_extremes() {
    let mut g = graph();
    g.ingest_backfill_batch(vec![raw("b", 5, &[]), raw("a", -2, &[]), raw("c", 9, &[])]);
    assert_eq!(g.depth_range(), Some((-2, 9)));
}

#[test]
fn sync_response_builds_and_extends_the_graph() {
    let res = SyncResponse {
        next_batch: "s1".to_string(),
        joined: vec![
            JoinedTimeline { room_id: "!x:a.org".to_string(), events: vec![raw("x", 1, &[])] },
            JoinedTimeline { room_id: room(), events: vec![raw("b", 2, &["a"])] },
        ],
    };
    let mut g = RoomEvents::from_sync_response(&room(), &"a.org".to_string(), &vec![], res).unwrap();
    assert_eq!(node_ids(&g.create_data_set()), ids(&["b"]));
    let later = SyncResponse {
        next_batch: "s2".to_string(),
        joined: vec![JoinedTimeline { room_id: room(), events: vec![raw("c", 3, &["b"])] }],
    };
    g.add_new_events(later);
    g.add_prev_events(vec![raw("a", 1, &[])]);
    assert_eq!(node_ids(&g.create_data_set()), ids(&["a", "b", "c"]));
    assert_eq!(sorted(g.latest_events()), ids(&["c"]));
    let none = SyncResponse { next_batch: "s3".to_string(), joined: vec![] };
    assert!(RoomEvents::from_sync_response(&room(), &"a.org".to_string(), &vec![], none).is_none());
}

#[test]
fn changing_fields_relabels_every_node() {
    let mut g = graph();
    g.ingest_backfill_batch(vec![raw("a", 1, &[]), raw("b", 2, &["a"])]);
    let before = g.create_data_set();
    assert!(before.nodes.iter().all(|n| n.label.starts_with("Event ID: ")));
    g.set_fields(&vec![Field::Depth]);
    let mut labels: Vec<String> = g.create_data_set().nodes.iter().map(|n| n.label.clone()).collect();
    labels.sort();
    assert_eq!(labels, vec!["Depth: 1".to_string(), "Depth: 2".to_string()]);
}

#[test]
fn reingesting_a_known_id_keeps_the_stored_event() {
    let mut g = graph();
    g.ingest_backfill_batch(vec![raw("a", 1, &[])]);
    let mut other = raw("a", 1, &[]);
    other.sender = Some("@mallory:m.org".to_string());
    other.origin = Some("m.org".to_string());
    let report = g.ingest_backfill_batch(vec![other]);
    assert_eq!(report.added, 0);
    let e = g.get_event(&"a".to_string()).unwrap();
    assert_eq!(e.sender, "@alice:a.org");
    assert_eq!(e.origin, "a.org");
    assert_eq!(e.origin_server_ts, 1001);
}

#[test]
fn stored_events_do_not_depend_on_batch_order() {
    let mut forward = graph();
    forward.ingest_backfill_batch(chain());
    let mut reverse = graph();
    let mut rev = chain();
    rev.reverse();
    reverse.ingest_backfill_batch(rev);
    for id in ["A", "B", "C", "D", "E"] {
        let a = forward.get_event(&id.to_string()).unwrap();
        let b = reverse.get_event(&id.to_string()).unwrap();
        assert_eq!(a.sender, b.sender);
        assert_eq!(a.origin, b.origin);
        assert_eq!(a.etype, b.etype);
        assert_eq!(a.origin_server_ts, b.origin_server_ts);
        assert_eq!(a.depth, b.depth);
        assert_eq!(a.prev_events, b.prev_events);
        assert_eq!(a.room_id, b.room_id);
    }
}

#[test]
fn appended_diff_holds_each_node_and_edge_once() {
    let mut g = graph();
    g.ingest_backfill_batch(vec![raw("A", 4, &["B"])]);
    g.add_prev_events(vec![raw("B", 3, &["C"]), raw("C", 2, &["D"]), raw("D", 1, &[])]);
    let mut ds = DataSet::new();
    g.add_earlier_events_to_data_set(&mut ds, vec!["A".to_string()]);
    let names: Vec<String> = ds.nodes.iter().map(|n| n.id.clone()).collect();
    assert_eq!(names.len(), 3);
    assert_eq!(sorted(&names), ids(&["B", "C", "D"]));
    assert_eq!(ds.edges.len(), 3);
    assert_eq!(edge_pairs(&ds), vec![pair("A", "B"), pair("B", "C"), pair("C", "D")]);
    for node in &ds.nodes {
        assert_eq!(node.label, format!("Event ID: {}", node.id));
        assert_eq!(node.color.border, "#006633");
    }
}

#[test]
fn chain_oldest_with_several_missing_parents() {
    let mut g = graph();
    let mut c = chain();
    c[0] = raw("A", 1, &["Y", "Z"]);
    g.ingest_backfill_batch(c);
    assert_eq!(sorted(g.latest_events()), ids(&["E"]));
    assert_eq!(sorted(g.earliest_events()), ids(&["A"]));
    assert_eq!(orphans(&g), ids(&["A"]));
}
