//! The graph store of one observed room: events in insertion order, their
//! causal edges in a `petgraph` graph, and the frontier sets derived from them.
use petgraph::graph::Graph;
use petgraph::Directed;
use vstd::prelude::*;

use crate::model::causal::{
    absorb, cites, edge_set, first_with_id, stores_batch, StoredEvents, edges_touching, head_set, newer_than, older_than, orphan_set, spread,
    tail_set, EventMap,
};
use crate::model::event::{
    background_of, border_of, label_text, lemma_views_push, missing_field, views, Event, Field,
    NodeModel, RawEvent, RequiredField,
};
use crate::model::graph::{
    degree, flip, graph_add_node, graph_bfs, graph_bfs_reversed, graph_degree, graph_edge_count,
    graph_edge_endpoints, graph_edges, graph_new, graph_node_count, graph_nodes, graph_update_edge,
    is_walk, lemma_degree_zero, lemma_flip_reaches, reaches, step,
};

verus! {

/// The colours of a node: one palette for events of the observing authority,
/// another for the rest.
pub struct NodeColor {
    pub border: String,
    pub background: String,
}

/// A node ready for rendering.
pub struct DataSetNode {
    pub id: String,
    pub label: String,
    pub level: i64,
    pub color: NodeColor,
}

/// An edge ready for rendering, from a child to one of its parents.
pub struct DataSetEdge {
    pub from: String,
    pub to: String,
}

/// Nodes and edges ready for rendering.
pub struct DataSet {
    pub nodes: Vec<DataSetNode>,
    pub edges: Vec<DataSetEdge>,
}

impl DataSet {
    /// A data set with no nodes and no edges.
    pub fn new() -> (r: DataSet)
        ensures
            r.nodes@.len() == 0,
            r.edges@.len() == 0,
    {
        DataSet { nodes: Vec::new(), edges: Vec::new() }
    }
}

/// The timeline of one joined room in a sync response.
pub struct JoinedTimeline {
    pub room_id: String,
    pub events: Vec<RawEvent>,
}

/// What the engine reads of a sync response: the timelines of the joined rooms.
pub struct SyncResponse {
    pub next_batch: String,
    pub joined: Vec<JoinedTimeline>,
}

/// The position of the first timeline of `room` in a sync response.
pub open spec fn room_position(rooms: Seq<JoinedTimeline>, room: Seq<char>) -> Option<int>
    decreases rooms.len(),
{
    if rooms.len() == 0 {
        None
    } else {
        match room_position(rooms.drop_last(), room) {
            Some(j) => Some(j),
            None => if rooms.last().room_id@ == room {
                Some(rooms.len() - 1)
            } else {
                None
            },
        }
    }
}

/// Finds the timeline of `room` among the joined rooms.
fn find_room(rooms: &Vec<JoinedTimeline>, room: &String) -> (r: Option<usize>)
    ensures
        r matches Some(j) ==> room_position(rooms@, room@) == Some(j as int) && j < rooms@.len(),
        r is None ==> room_position(rooms@, room@) is None,
{
    let mut j: usize = 0;
    while j < rooms.len()
        invariant
            j <= rooms@.len(),
            room_position(rooms@.take(j as int), room@) is None,
        decreases rooms@.len() - j,
    {
        assert(rooms@.take(j as int + 1).drop_last() =~= rooms@.take(j as int));
        if rooms[j].room_id == *room {
            proof {
                lemma_room_position_prefix(rooms@, room@, j as int + 1);
            }
            return Some(j);
        }
        j = j + 1;
    }
    assert(rooms@.take(j as int) =~= rooms@);
    None
}

/// A room found in a prefix of the timelines is found at the same place in all of them.
proof fn lemma_room_position_prefix(rooms: Seq<JoinedTimeline>, room: Seq<char>, k: int)
    requires
        0 <= k <= rooms.len(),
        room_position(rooms.take(k), room) is Some,
    ensures
        room_position(rooms, room) == room_position(rooms.take(k), room),
    decreases rooms.len(),
{
    if k < rooms.len() {
        assert(rooms.drop_last().take(k) =~= rooms.take(k));
        lemma_room_position_prefix(rooms.drop_last(), room, k);
    } else {
        assert(rooms.take(k) =~= rooms);
    }
}

/// The ids of a list of nodes.
pub open spec fn node_ids(v: Seq<DataSetNode>) -> Seq<Seq<char>> {
    v.map_values(|x: DataSetNode| x.id@)
}

/// The (from, to) pairs of a list of edges.
pub open spec fn edge_pairs(v: Seq<DataSetEdge>) -> Seq<(Seq<char>, Seq<char>)> {
    v.map_values(|x: DataSetEdge| (x.from@, x.to@))
}

/// `node` renders event `e` as seen from `server`, with labels showing `fields`.
pub open spec fn projects(node: DataSetNode, e: Event, server: Seq<char>, fields: Seq<Field>) -> bool {
    &&& node.id@ == e.event_id@
    &&& node.label@ == label_text(e, fields)
    &&& node.level == e.depth
    &&& node.color.border@ == border_of(e.origin@ == server)
    &&& node.color.background@ == background_of(e.origin@ == server)
}

/// An event that names a parent the graph does not hold, with its depth.
pub struct Orphan {
    pub id: String,
    pub depth: i64,
}

/// A raw event that was left out of a batch: its position and the first
/// required field that it lacked.
pub struct ParseError {
    pub index: usize,
    pub field: RequiredField,
}

/// What one batch did: how many events it added, and the events it skipped.
pub struct BatchReport {
    pub added: usize,
    pub errors: Vec<ParseError>,
}

/// A timeline batch that belongs to another room; it changed nothing.
#[derive(Clone, Copy, Debug, PartialEq, Eq, Structural)]
pub struct UnknownRoom;

/// The events graph of the room being observed, with the sets of its newest,
/// oldest and incomplete events.
pub struct RoomEvents {
    room_id: String,
    server_name: String,
    fields: Vec<Field>,
    /// The events, in the order in which they were first seen; node `i` of
    /// `dag` carries the weight `i` and stands for `events[i]`.
    events: Vec<Event>,
    /// Edges go from an event to each of its known parents.
    dag: Graph<usize, (), Directed, usize>,
    latest_events: Vec<String>,
    earliest_events: Vec<String>,
    orphan_events: Vec<Orphan>,
    max_depth: Option<i64>,
    min_depth: Option<i64>,
    nodes: Ghost<EventMap>,
    stored: Ghost<StoredEvents>,
}

/// One step of collecting, in order, the ids that belong to a set: the list
/// gains `x0` exactly when the set holds it.
proof fn lemma_collect_step(
    before: Seq<Seq<char>>,
    after: Seq<Seq<char>>,
    x0: Seq<char>,
    done: spec_fn(Seq<char>) -> bool,
    next: spec_fn(Seq<char>) -> bool,
    s: Set<Seq<char>>,
)
    requires
        forall|x: Seq<char>| #[trigger] before.contains(x) <==> done(x) && s.contains(x),
        forall|x: Seq<char>| #[trigger] next(x) == (done(x) || x == x0),
        after == (if s.contains(x0) {
            before.push(x0)
        } else {
            before
        }),
        before.no_duplicates(),
        !done(x0),
    ensures
        forall|x: Seq<char>| #[trigger] after.contains(x) <==> next(x) && s.contains(x),
        after.no_duplicates(),
{
    assert forall|x: Seq<char>| #[trigger] after.contains(x) <==> next(x) && s.contains(x) by {
        if s.contains(x0) {
            if after.contains(x) && x != x0 {
                let k = choose|k: int| 0 <= k < after.len() && after[k] == x;
                assert(before[k] == x);
            }
            if before.contains(x) {
                let k = choose|k: int| 0 <= k < before.len() && before[k] == x;
                assert(after[k] == x);
            }
            assert(after[before.len() as int] == x0);
        }
    }
    if s.contains(x0) {
        assert(!before.contains(x0));
    }
}

/// A list without repeats keeps none when it gains a new element.
proof fn lemma_push_distinct<T>(s: Seq<T>, x: T)
    requires
        s.no_duplicates(),
        !s.contains(x),
    ensures
        s.push(x).no_duplicates(),
{
    assert forall|i: int, j: int| 0 <= i < j < s.len() + 1 implies s.push(x)[i] != s.push(x)[j] by {
        if j == s.len() {
            assert(s.contains(s[i]));
        }
    }
}

/// Orphan lists grow by one id when they grow by one entry.
proof fn lemma_orphan_ids_push(v: Seq<Orphan>, o: Orphan)
    ensures
        orphan_ids(v.push(o)) == orphan_ids(v).push(o.id@),
{
    assert(orphan_ids(v.push(o)) =~= orphan_ids(v).push(o.id@));
}

/// The raw events of a batch that cannot be parsed: their positions, with the
/// first required field that each lacks.
pub open spec fn batch_errors(raws: Seq<RawEvent>) -> Seq<(int, RequiredField)>
    decreases raws.len(),
{
    if raws.len() == 0 {
        Seq::empty()
    } else {
        let before = batch_errors(raws.drop_last());
        match missing_field(raws.last()) {
            Some(f) => before.push((raws.len() - 1, f)),
            None => before,
        }
    }
}

/// The positions and fields of a list of parse errors.
pub open spec fn error_entries(v: Seq<ParseError>) -> Seq<(int, RequiredField)> {
    v.map_values(|e: ParseError| (e.index as int, e.field))
}

/// The ids of a list of orphans.
pub open spec fn orphan_ids(v: Seq<Orphan>) -> Seq<Seq<char>> {
    v.map_values(|o: Orphan| o.id@)
}

impl RoomEvents {
    /// The known events, by id.
    pub closed spec fn model(&self) -> EventMap {
        self.nodes@
    }

    /// The stored events, by id.
    pub closed spec fn stored_events(&self) -> StoredEvents {
        self.stored@
    }

    /// The room that the graph observes.
    pub closed spec fn room(&self) -> Seq<char> {
        self.room_id@
    }

    /// The authority from which the room is observed.
    pub closed spec fn server(&self) -> Seq<char> {
        self.server_name@
    }

    /// The fields shown in the labels of the nodes.
    pub closed spec fn shown_fields(&self) -> Seq<Field> {
        self.fields@
    }

    /// The number of events held.
    #[verifier::inline]
    closed spec fn n(&self) -> int {
        self.events.len() as int
    }

    #[verifier::inline]
    closed spec fn id_at(&self, i: int) -> Seq<char> {
        self.events@[i].event_id@
    }

    #[verifier::inline]
    closed spec fn node_at(&self, i: int) -> NodeModel {
        self.events@[i].node()
    }

    /// The events, the graph's nodes and the map agree, and ids are unique.
    closed spec fn wf_nodes(&self) -> bool {
        &&& graph_nodes(self.dag) == Seq::new(self.events@.len(), |i: int| i as usize)
        &&& forall|i: int, j: int|
            0 <= i < j < self.n() ==> #[trigger] self.id_at(i) != #[trigger] self.id_at(j)
        &&& self.nodes@.dom().finite()
        &&& self.nodes@.dom().len() == self.n()
        &&& forall|i: int|
            0 <= i < self.n() ==> self.nodes@.contains_key(#[trigger] self.id_at(i))
                && self.nodes@[self.id_at(i)] == self.node_at(i)
        &&& forall|k: Seq<char>|
            #[trigger] self.nodes@.contains_key(k) ==> exists|i: int|
                0 <= i < self.n() && #[trigger] self.id_at(i) == k
        &&& forall|i: int|
            0 <= i < self.n() ==> self.stored@.contains_key(#[trigger] self.id_at(i))
                && self.stored@[self.id_at(i)] == self.events@[i]
        &&& forall|k: Seq<char>| #[trigger] self.stored@.contains_key(k) <==> self.nodes@.contains_key(k)
        &&& (self.min_depth is None <==> self.n() == 0)
        &&& (self.max_depth is None <==> self.n() == 0)
        &&& self.min_depth matches Some(d) ==> {
            &&& forall|i: int| 0 <= i < self.n() ==> d <= #[trigger] self.node_at(i).depth
            &&& exists|i: int| 0 <= i < self.n() && #[trigger] self.node_at(i).depth == d
        }
        &&& self.max_depth matches Some(d) ==> {
            &&& forall|i: int| 0 <= i < self.n() ==> #[trigger] self.node_at(i).depth <= d
            &&& exists|i: int| 0 <= i < self.n() && #[trigger] self.node_at(i).depth == d
        }
    }

    /// Every edge of the graph joins an event to one of its declared parents,
    /// and no edge is there twice.
    closed spec fn wf_edges(&self) -> bool {
        let e = graph_edges(self.dag);
        &&& e.no_duplicates()
        &&& forall|k: int|
            0 <= k < e.len() ==> {
                &&& (#[trigger] e[k]).0 < self.n()
                &&& e[k].1 < self.n()
                &&& self.node_at(e[k].0 as int).prevs.contains(self.id_at(e[k].1 as int))
            }
    }

    /// Every parent reference that names a held event has its edge.
    closed spec fn resolved(&self) -> bool {
        forall|c: int, p: int|
            0 <= c < self.n() && 0 <= p < self.n() && #[trigger] self.node_at(c).prevs.contains(
                #[trigger] self.id_at(p),
            ) ==> graph_edges(self.dag).contains((c as usize, p as usize))
    }

    /// The frontier lists hold the frontier sets of the map, each id once.
    closed spec fn wf_frontier(&self) -> bool {
        &&& views(self.latest_events@).no_duplicates()
        &&& views(self.latest_events@).to_set() == head_set(self.nodes@)
        &&& views(self.earliest_events@).no_duplicates()
        &&& views(self.earliest_events@).to_set() == tail_set(self.nodes@)
        &&& orphan_ids(self.orphan_events@).no_duplicates()
        &&& orphan_ids(self.orphan_events@).to_set() == orphan_set(self.nodes@)
        &&& forall|k: int|
            0 <= k < self.orphan_events@.len() ==> self.nodes@[(#[trigger] self.orphan_events@[k]).id@].depth
                == self.orphan_events@[k].depth
    }

    /// The store is consistent.
    pub closed spec fn wf(&self) -> bool {
        &&& self.wf_nodes()
        &&& self.wf_edges()
        &&& self.resolved()
        &&& self.wf_frontier()
    }

    /// An empty graph for the given room, observed from `server_name`, whose
    /// labels show `fields`.
    pub fn new(room_id: &str, server_name: &str, fields: &Vec<Field>) -> (r: RoomEvents)
        ensures
            r.wf(),
            r.model() == Map::<Seq<char>, NodeModel>::empty(),
            r.stored_events() == Map::<Seq<char>, Event>::empty(),
            r.room() == room_id@,
            r.server() == server_name@,
            r.shown_fields() == fields@,
    {
        let r = RoomEvents {
            room_id: room_id.to_owned(),
            server_name: server_name.to_owned(),
            fields: fields.clone(),
            events: Vec::new(),
            dag: graph_new(),
            latest_events: Vec::new(),
            earliest_events: Vec::new(),
            orphan_events: Vec::new(),
            max_depth: None,
            min_depth: None,
            nodes: Ghost(Map::empty()),
            stored: Ghost(Map::empty()),
        };
        proof {
            assert(graph_nodes(r.dag) =~= Seq::new(0, |i: int| i as usize));
            assert(views(r.latest_events@).to_set() =~= head_set(r.nodes@));
            assert(views(r.earliest_events@).to_set() =~= tail_set(r.nodes@));
            assert(orphan_ids(r.orphan_events@).to_set() =~= orphan_set(r.nodes@));
        }
        r
    }

    /// The position of the event with id `id`, if it is held.
    fn lookup(&self, id: &String) -> (r: Option<usize>)
        requires
            self.wf_nodes(),
        ensures
            r matches Some(i) ==> i < self.n() && self.id_at(i as int) == id@,
            r is None <==> !self.nodes@.contains_key(id@),
    {
        let mut i: usize = 0;
        while i < self.events.len()
            invariant
                self.wf_nodes(),
                i <= self.n(),
                forall|j: int| 0 <= j < i ==> self.id_at(j) != id@,
            decreases self.n() - i,
        {
            if self.events[i].event_id == *id {
                assert(self.nodes@.contains_key(self.id_at(i as int)));
                return Some(i);
            }
            i = i + 1;
        }
        None
    }

    /// Adds an event that the store does not hold yet, with no edges.
    fn add_node(&mut self, event: Event) -> (r: usize)
        requires
            old(self).wf_nodes(),
            old(self).wf_edges(),
            !old(self).nodes@.contains_key(event.event_id@),
        ensures
            final(self).wf_nodes(),
            final(self).wf_edges(),
            final(self).nodes@ == old(self).nodes@.insert(event.event_id@, event.node()),
            final(self).stored@ == old(self).stored@.insert(event.event_id@, event),
            final(self).events@ == old(self).events@.push(event),
            r == old(self).n(),
            graph_edges(final(self).dag) == graph_edges(old(self).dag),
            final(self).latest_events == old(self).latest_events,
            final(self).earliest_events == old(self).earliest_events,
            final(self).orphan_events == old(self).orphan_events,
            final(self).room_id == old(self).room_id,
            final(self).server_name == old(self).server_name,
            final(self).fields == old(self).fields,
    {
        let depth = event.depth;
        let ghost id = event.event_id@;
        let ghost node = event.node();
        let ghost ev = event;
        let index = graph_add_node(&mut self.dag, self.events.len());
        self.events.push(event);
        self.nodes = Ghost(self.nodes@.insert(id, node));
        self.stored = Ghost(self.stored@.insert(id, ev));
        match self.max_depth {
            Some(d) if d >= depth => {},
            _ => self.max_depth = Some(depth),
        }
        match self.min_depth {
            Some(d) if d <= depth => {},
            _ => self.min_depth = Some(depth),
        }
        proof {
            let n = self.n();
            assert(self.id_at(n - 1) == id);
            assert(graph_nodes(self.dag) =~= Seq::new(self.events@.len(), |i: int| i as usize));
            assert forall|i: int| 0 <= i < n - 1 implies #[trigger] self.id_at(i) == old(self).id_at(i)
                && self.node_at(i) == old(self).node_at(i) by {}
            assert forall|k: Seq<char>| #[trigger] self.nodes@.contains_key(k) implies exists|i: int|
                0 <= i < self.n() && #[trigger] self.id_at(i) == k by {
                if k != id {
                    let i = choose|i: int| 0 <= i < old(self).n() && #[trigger] old(self).id_at(i) == k;
                    assert(self.id_at(i) == k);
                }
            }
            assert(self.node_at(n - 1).depth == depth);
            assert(self.nodes@.dom() == old(self).nodes@.dom().insert(id));
            assert forall|i: int, j: int| 0 <= i < j < self.n() implies #[trigger] self.id_at(i)
                != #[trigger] self.id_at(j) by {
                if j == n - 1 {
                    assert(old(self).nodes@.contains_key(old(self).id_at(i)));
                }
            }
            assert forall|i: int| 0 <= i < self.n() implies self.nodes@.contains_key(
                #[trigger] self.id_at(i),
            ) && self.nodes@[self.id_at(i)] == self.node_at(i) by {
                if i < n - 1 {
                    assert(old(self).nodes@.contains_key(old(self).id_at(i)));
                }
            }
            if let Some(d) = self.min_depth {
                assert forall|i: int| 0 <= i < self.n() implies d <= #[trigger] self.node_at(i).depth by {
                    if i < n - 1 {
                        assert(old(self).node_at(i) == self.node_at(i));
                    }
                }
                if d != depth {
                    let i = choose|i: int| 0 <= i < old(self).n() && #[trigger] old(self).node_at(i).depth == d;
                    assert(self.node_at(i).depth == d);
                }
            }
            if let Some(d) = self.max_depth {
                assert forall|i: int| 0 <= i < self.n() implies #[trigger] self.node_at(i).depth <= d by {
                    if i < n - 1 {
                        assert(old(self).node_at(i) == self.node_at(i));
                    }
                }
                if d != depth {
                    let i = choose|i: int| 0 <= i < old(self).n() && #[trigger] old(self).node_at(i).depth == d;
                    assert(self.node_at(i).depth == d);
                }
            }
        }
        index
    }

    /// Adds every missing edge from a held event to a held parent, over the
    /// whole graph, so that parents which arrived after their children are
    /// joined to them too.
    fn resolve_edges(&mut self)
        requires
            old(self).wf_nodes(),
            old(self).wf_edges(),
        ensures
            final(self).wf_nodes(),
            final(self).wf_edges(),
            final(self).resolved(),
            final(self).events == old(self).events,
            final(self).nodes == old(self).nodes,
            final(self).stored == old(self).stored,
            final(self).min_depth == old(self).min_depth,
            final(self).max_depth == old(self).max_depth,
            final(self).room_id == old(self).room_id,
            final(self).server_name == old(self).server_name,
            final(self).fields == old(self).fields,
    {
        let n = graph_node_count(&self.dag);
        let mut c: usize = 0;
        while c < n
            invariant
                self.wf_nodes(),
                self.wf_edges(),
                n == self.n(),
                c <= n,
                self.events == old(self).events,
                self.nodes == old(self).nodes,
                self.stored == old(self).stored,
                self.min_depth == old(self).min_depth,
                self.max_depth == old(self).max_depth,
                self.room_id == old(self).room_id,
                self.server_name == old(self).server_name,
                self.fields == old(self).fields,
                forall|cc: int, p: int|
                    0 <= cc < c && 0 <= p < n && #[trigger] self.node_at(cc).prevs.contains(
                        #[trigger] self.id_at(p),
                    ) ==> graph_edges(self.dag).contains((cc as usize, p as usize)),
            decreases n - c,
        {
            let len = self.events[c].prev_events.len();
            let mut k: usize = 0;
            while k < len
                invariant
                    self.wf_nodes(),
                    self.wf_edges(),
                    n == self.n(),
                    c < n,
                    k <= len,
                    len == self.node_at(c as int).prevs.len(),
                    self.events == old(self).events,
                    self.nodes == old(self).nodes,
                    self.stored == old(self).stored,
                    self.min_depth == old(self).min_depth,
                    self.max_depth == old(self).max_depth,
                    self.room_id == old(self).room_id,
                    self.server_name == old(self).server_name,
                    self.fields == old(self).fields,
                    forall|cc: int, p: int|
                        0 <= cc < c && 0 <= p < n && #[trigger] self.node_at(cc).prevs.contains(
                            #[trigger] self.id_at(p),
                        ) ==> graph_edges(self.dag).contains((cc as usize, p as usize)),
                    forall|j: int, p: int|
                        0 <= j < k && 0 <= p < n && #[trigger] self.id_at(p) == #[trigger] self.node_at(
                            c as int,
                        ).prevs[j] ==> graph_edges(self.dag).contains((c, p as usize)),
                decreases len - k,
            {
                let found = self.lookup(&self.events[c].prev_events[k]);
                let ghost target = self.node_at(c as int).prevs[k as int];
                assert(self.events@[c as int].prev_events@[k as int]@ == target);
                if let Some(p) = found {
                    let ghost before = graph_edges(self.dag);
                    let ghost s0 = *self;
                    graph_update_edge(&mut self.dag, c, p);
                    proof {
                        let after = graph_edges(self.dag);
                        assert(self.node_at(c as int).prevs.contains(self.id_at(p as int)));
                        assert forall|x: (usize, usize)| before.contains(x) implies after.contains(x) by {
                            if !before.contains((c, p)) {
                                let w = choose|w: int| 0 <= w < before.len() && before[w] == x;
                                assert(after[w] == x);
                            }
                        }
                        assert(after.contains((c, p))) by {
                            if !before.contains((c, p)) {
                                assert(after[before.len() as int] == (c, p));
                            }
                        }
                        assert forall|j: int, q: int|
                            0 <= j < k + 1 && 0 <= q < n && #[trigger] self.id_at(q)
                                == #[trigger] self.node_at(c as int).prevs[j] implies after.contains(
                            (c, q as usize),
                        ) by {
                            assert(s0.id_at(q) == self.id_at(q));
                            assert(s0.node_at(c as int) == self.node_at(c as int));
                            if j == k {
                                if q != p {
                                    assert(s0.id_at(q) != s0.id_at(p as int));
                                }
                            } else {
                                assert(s0.id_at(q) == s0.node_at(c as int).prevs[j]);
                                assert(before.contains((c, q as usize)));
                            }
                        }
                    }
                } else {
                    proof {
                        assert forall|q: int| 0 <= q < n implies #[trigger] self.id_at(q) != target by {
                            assert(self.nodes@.contains_key(self.id_at(q)));
                        }
                    }
                }
                k = k + 1;
            }
            proof {
                assert forall|cc: int, p: int|
                    0 <= cc < c + 1 && 0 <= p < n && #[trigger] self.node_at(cc).prevs.contains(
                        #[trigger] self.id_at(p),
                    ) implies graph_edges(self.dag).contains((cc as usize, p as usize)) by {
                    if cc == c {
                        let j = choose|j: int|
                            0 <= j < self.node_at(cc).prevs.len() && self.node_at(cc).prevs[j]
                                == self.id_at(p);
                        assert(self.id_at(p) == self.node_at(c as int).prevs[j]);
                    }
                }
            }
            c = c + 1;
        }
    }

    /// Some event among the first `i` has the id `x`.
    closed spec fn held_before(&self, i: int, x: Seq<char>) -> bool {
        exists|j: int| 0 <= j < i && #[trigger] self.id_at(j) == x
    }

    proof fn lemma_frontier_at(&self, i: int)
        requires
            self.wf_nodes(),
            self.wf_edges(),
            self.resolved(),
            0 <= i < self.n(),
        ensures
            (degree(graph_edges(self.dag), i as usize, false) == 0) == head_set(self.nodes@).contains(
                self.id_at(i),
            ),
            (degree(graph_edges(self.dag), i as usize, true) == 0) == tail_set(self.nodes@).contains(
                self.id_at(i),
            ),
            (exists|p: Seq<char>| self.node_at(i).prevs.contains(p) && !self.nodes@.contains_key(p))
                == orphan_set(self.nodes@).contains(self.id_at(i)),
    {
        let e = graph_edges(self.dag);
        let m = self.nodes@;
        let x = self.id_at(i);
        lemma_degree_zero(e, i as usize, false);
        lemma_degree_zero(e, i as usize, true);
        assert(m.contains_key(x) && m[x] == self.node_at(i));
        if exists|c: Seq<char>| #[trigger] cites(m, c, x) {
            let c = choose|c: Seq<char>| #[trigger] cites(m, c, x);
            let ci = choose|ci: int| 0 <= ci < self.n() && #[trigger] self.id_at(ci) == c;
            assert(self.node_at(ci).prevs.contains(self.id_at(i)));
            assert(e.contains((ci as usize, i as usize)));
            let k = choose|k: int| 0 <= k < e.len() && e[k] == (ci as usize, i as usize);
            assert(e[k].1 == i as usize);
        }
        if exists|k: int| 0 <= k < e.len() && (#[trigger] e[k]).1 == i as usize {
            let k = choose|k: int| 0 <= k < e.len() && (#[trigger] e[k]).1 == i as usize;
            let c = e[k].0 as int;
            assert(cites(m, self.id_at(c), x));
        }
        if exists|p: Seq<char>| #[trigger] cites(m, x, p) && m.contains_key(p) {
            let p = choose|p: Seq<char>| #[trigger] cites(m, x, p) && m.contains_key(p);
            let pi = choose|pi: int| 0 <= pi < self.n() && #[trigger] self.id_at(pi) == p;
            assert(self.node_at(i).prevs.contains(self.id_at(pi)));
            assert(e.contains((i as usize, pi as usize)));
            let k = choose|k: int| 0 <= k < e.len() && e[k] == (i as usize, pi as usize);
            assert(e[k].0 == i as usize);
        }
        if exists|k: int| 0 <= k < e.len() && (#[trigger] e[k]).0 == i as usize {
            let k = choose|k: int| 0 <= k < e.len() && (#[trigger] e[k]).0 == i as usize;
            let p = e[k].1 as int;
            assert(cites(m, x, self.id_at(p)) && m.contains_key(self.id_at(p)));
        }
        if exists|p: Seq<char>| self.node_at(i).prevs.contains(p) && !self.nodes@.contains_key(p) {
            let p = choose|p: Seq<char>| self.node_at(i).prevs.contains(p) && !self.nodes@.contains_key(p);
            assert(cites(m, x, p));
        }
    }

    /// Whether event `i` names a parent that the store does not hold.
    fn has_dangling_parent(&self, i: usize) -> (r: bool)
        requires
            self.wf_nodes(),
            i < self.n(),
        ensures
            r == exists|p: Seq<char>|
                self.node_at(i as int).prevs.contains(p) && !self.nodes@.contains_key(p),
    {
        let len = self.events[i].prev_events.len();
        let mut k: usize = 0;
        while k < len
            invariant
                self.wf_nodes(),
                i < self.n(),
                k <= len,
                len == self.node_at(i as int).prevs.len(),
                forall|j: int| 0 <= j < k ==> self.nodes@.contains_key(#[trigger] self.node_at(i as int).prevs[j]),
            decreases len - k,
        {
            let found = self.lookup(&self.events[i].prev_events[k]);
            assert(self.events@[i as int].prev_events@[k as int]@ == self.node_at(i as int).prevs[k as int]);
            if found.is_none() {
                assert(self.node_at(i as int).prevs.contains(self.node_at(i as int).prevs[k as int]));
                return true;
            }
            k = k + 1;
        }
        false
    }

    /// Recomputes the newest, oldest and incomplete events from the edges.
    fn refresh_frontier(&mut self)
        requires
            old(self).wf_nodes(),
            old(self).wf_edges(),
            old(self).resolved(),
        ensures
            final(self).wf(),
            final(self).events == old(self).events,
            final(self).nodes == old(self).nodes,
            final(self).stored == old(self).stored,
            final(self).dag == old(self).dag,
            final(self).room_id == old(self).room_id,
            final(self).server_name == old(self).server_name,
            final(self).fields == old(self).fields,
    {
        let mut latest: Vec<String> = Vec::new();
        let mut earliest: Vec<String> = Vec::new();
        let mut orphans: Vec<Orphan> = Vec::new();
        let n = graph_node_count(&self.dag);
        let mut i: usize = 0;
        while i < n
            invariant
                self.wf_nodes(),
                self.wf_edges(),
                self.resolved(),
                n == self.n(),
                i <= n,
                views(latest@).no_duplicates(),
                views(earliest@).no_duplicates(),
                orphan_ids(orphans@).no_duplicates(),
                forall|x: Seq<char>|
                    #[trigger] views(latest@).contains(x) <==> self.held_before(i as int, x)
                        && head_set(self.nodes@).contains(x),
                forall|x: Seq<char>|
                    #[trigger] views(earliest@).contains(x) <==> self.held_before(i as int, x)
                        && tail_set(self.nodes@).contains(x),
                forall|x: Seq<char>|
                    #[trigger] orphan_ids(orphans@).contains(x) <==> self.held_before(i as int, x)
                        && orphan_set(self.nodes@).contains(x),
                forall|k: int|
                    0 <= k < orphans@.len() ==> self.nodes@[(#[trigger] orphans@[k]).id@].depth
                        == orphans@[k].depth,
            decreases n - i,
        {
            proof {
                self.lemma_frontier_at(i as int);
                assert forall|x: Seq<char>| #[trigger] self.held_before(i as int + 1, x) == (
                self.held_before(i as int, x) || x == self.id_at(i as int)) by {
                    if self.held_before(i as int + 1, x) && x != self.id_at(i as int) {
                        let j = choose|j: int| 0 <= j < i + 1 && #[trigger] self.id_at(j) == x;
                        assert(self.held_before(i as int, x));
                    }
                    if x == self.id_at(i as int) {
                        assert(self.held_before(i as int + 1, x));
                    }
                }
                assert(!self.held_before(i as int, self.id_at(i as int)));
                assert((degree(graph_edges(self.dag), i, false) == 0) == head_set(self.nodes@).contains(
                    self.id_at(i as int)));
                assert((degree(graph_edges(self.dag), i, true) == 0) == tail_set(self.nodes@).contains(
                    self.id_at(i as int)));
            }
            let ghost done = |x: Seq<char>| self.held_before(i as int, x);
            let ghost next = |x: Seq<char>| self.held_before(i as int + 1, x);
            let ghost x0 = self.id_at(i as int);
            let ghost latest0 = views(latest@);
            let ghost earliest0 = views(earliest@);
            let ghost orphans0 = orphan_ids(orphans@);
            let id = self.events[i].event_id.clone();
            if graph_degree(&self.dag, i, false) == 0 {
                proof {
                    lemma_views_push(latest@, id);
                }
                latest.push(id.clone());
            }
            if graph_degree(&self.dag, i, true) == 0 {
                proof {
                    lemma_views_push(earliest@, id);
                }
                earliest.push(id.clone());
            }
            if self.has_dangling_parent(i) {
                let o = Orphan { id: id.clone(), depth: self.events[i].depth };
                proof {
                    lemma_orphan_ids_push(orphans@, o);
                    assert(self.nodes@[self.id_at(i as int)] == self.node_at(i as int));
                }
                orphans.push(o);
            }
            proof {
                lemma_collect_step(latest0, views(latest@), x0, done, next, head_set(self.nodes@));
                lemma_collect_step(earliest0, views(earliest@), x0, done, next, tail_set(self.nodes@));
                lemma_collect_step(orphans0, orphan_ids(orphans@), x0, done, next, orphan_set(self.nodes@));
            }
            i = i + 1;
        }
        proof {
            assert forall|x: Seq<char>| self.held_before(n as int, x) <==> self.nodes@.contains_key(x) by {
                if self.held_before(n as int, x) {
                    let j = choose|j: int| 0 <= j < n && #[trigger] self.id_at(j) == x;
                }
            }
            assert(views(latest@).to_set() =~= head_set(self.nodes@));
            assert(views(earliest@).to_set() =~= tail_set(self.nodes@));
            assert(orphan_ids(orphans@).to_set() =~= orphan_set(self.nodes@));
        }
        self.latest_events = latest;
        self.earliest_events = earliest;
        self.orphan_events = orphans;
    }

    /// Parses each raw event of a batch on its own and adds those that parse
    /// and are new; the others are recorded and passed over.
    fn add_event_nodes(&mut self, raws: Vec<RawEvent>) -> (r: BatchReport)
        requires
            old(self).wf_nodes(),
            old(self).wf_edges(),
        ensures
            final(self).wf_nodes(),
            final(self).wf_edges(),
            final(self).nodes@ == absorb(old(self).nodes@, raws@),
            stores_batch(old(self).stored@, final(self).stored@, raws@),
            error_entries(r.errors@) == batch_errors(raws@),
            r.added == final(self).n() - old(self).n(),
            graph_edges(final(self).dag) == graph_edges(old(self).dag),
            final(self).latest_events == old(self).latest_events,
            final(self).earliest_events == old(self).earliest_events,
            final(self).orphan_events == old(self).orphan_events,
            final(self).room_id == old(self).room_id,
            final(self).server_name == old(self).server_name,
            final(self).fields == old(self).fields,
    {
        let ghost all = raws@;
        let total = raws.len();
        let mut rest = raws;
        let mut errors: Vec<ParseError> = Vec::new();
        let mut added: usize = 0;
        let mut i: usize = 0;
        while rest.len() > 0
            invariant
                self.wf_nodes(),
                self.wf_edges(),
                i <= all.len(),
                all.len() == total,
                rest@ == all.skip(i as int),
                self.nodes@ == absorb(old(self).nodes@, all.take(i as int)),
                stores_batch(old(self).stored@, self.stored@, all.take(i as int)),
                graph_edges(self.dag) == graph_edges(old(self).dag),
                self.latest_events == old(self).latest_events,
                self.earliest_events == old(self).earliest_events,
                self.orphan_events == old(self).orphan_events,
                error_entries(errors@) == batch_errors(all.take(i as int)),
                added == self.n() - old(self).n(),
                self.room_id == old(self).room_id,
                self.server_name == old(self).server_name,
                self.fields == old(self).fields,
            decreases rest.len(),
        {
            let raw = rest.remove(0);
            proof {
                assert(raw == all[i as int]);
                assert(all.take(i as int + 1).drop_last() =~= all.take(i as int));
                assert(all.take(i as int + 1).last() == all[i as int]);
                assert(rest@ =~= all.skip(i as int + 1));
            }
            let ghost raw_i = raw;
            let ghost stored0 = self.stored@;
            let ghost t0 = all.take(i as int);
            let ghost t1 = all.take(i as int + 1);
            proof {
                assert forall|k: Seq<char>| #[trigger] first_with_id(t1, k) == (if first_with_id(t0, k) is Some {
                    first_with_id(t0, k)
                } else if crate::model::causal::parses_to_id(raw_i, k) {
                    Some(i as int)
                } else {
                    None
                }) by {}
                assert forall|k: Seq<char>| first_with_id(t0, k) is Some implies #[trigger] t1[first_with_id(t0, k).unwrap()] == t0[first_with_id(t0, k).unwrap()] by {
                    crate::model::causal::lemma_first_with_id(t0, k);
                }
            }
            match Event::parse(raw) {
                Ok(event) => {
                    if self.lookup(&event.event_id).is_none() {
                        let ghost ev = event;
                        self.add_node(event);
                        added = added + 1;
                        proof {
                            assert(!stored0.contains_key(ev.event_id@));
                            assert(first_with_id(t0, ev.event_id@) is None);
                            assert(t1[i as int] == raw_i);
                        }
                    }
                    assert(error_entries(errors@) =~= batch_errors(all.take(i as int + 1)));
                },
                Err(field) => {
                    let ghost before = errors@;
                    errors.push(ParseError { index: i, field });
                    assert(error_entries(errors@) =~= batch_errors(all.take(i as int + 1))) by {
                        assert(errors@ == before.push(ParseError { index: i, field }));
                        assert(error_entries(before) == batch_errors(all.take(i as int)));
                    }
                },
            }
            i = i + 1;
        }
        assert(all.take(i as int) =~= all);
        BatchReport { added, errors }
    }

    /// Joins the events to their known parents and recomputes the frontier.
    fn update_event_edges(&mut self)
        requires
            old(self).wf_nodes(),
            old(self).wf_edges(),
        ensures
            final(self).wf(),
            final(self).events == old(self).events,
            final(self).nodes == old(self).nodes,
            final(self).stored == old(self).stored,
            final(self).room_id == old(self).room_id,
            final(self).server_name == old(self).server_name,
            final(self).fields == old(self).fields,
    {
        self.resolve_edges();
        self.refresh_frontier();
    }

    /// Applies a batch of earlier events, fetched as ancestors of known ones.
    /// Events that do not parse are skipped and listed in the report; the
    /// others are added unless their id is known already, every edge that can
    /// now be resolved is added, and the frontier is recomputed.
    pub fn ingest_backfill_batch(&mut self, raws: Vec<RawEvent>) -> (r: BatchReport)
        requires
            old(self).wf(),
        ensures
            final(self).wf(),
            final(self).model() == absorb(old(self).model(), raws@),
            stores_batch(old(self).stored_events(), final(self).stored_events(), raws@),
            error_entries(r.errors@) == batch_errors(raws@),
            r.added == final(self).model().len() - old(self).model().len(),
            final(self).room() == old(self).room(),
            final(self).server() == old(self).server(),
            final(self).shown_fields() == old(self).shown_fields(),
    {
        let report = self.add_event_nodes(raws);
        self.update_event_edges();
        report
    }

    /// Applies a batch of the room's timeline. A batch that names another
    /// room changes nothing and is answered with `UnknownRoom`; otherwise it
    /// is applied as `ingest_backfill_batch` does.
    pub fn ingest_timeline_batch(&mut self, room_id: &String, raws: Vec<RawEvent>) -> (r: Result<
        BatchReport,
        UnknownRoom,
    >)
        requires
            old(self).wf(),
        ensures
            final(self).wf(),
            r is Err <==> room_id@ != old(self).room(),
            r is Err ==> final(self).model() == old(self).model(),
            r is Err ==> final(self).stored_events() == old(self).stored_events(),
            r matches Ok(report) ==> {
                &&& final(self).model() == absorb(old(self).model(), raws@)
                &&& stores_batch(old(self).stored_events(), final(self).stored_events(), raws@)
                &&& error_entries(report.errors@) == batch_errors(raws@)
                &&& report.added == final(self).model().len() - old(self).model().len()
            },
            final(self).room() == old(self).room(),
            final(self).server() == old(self).server(),
            final(self).shown_fields() == old(self).shown_fields(),
    {
        if *room_id != self.room_id {
            return Err(UnknownRoom);
        }
        Ok(self.ingest_backfill_batch(raws))
    }

    /// The position of a held id.
    closed spec fn index_of(&self, x: Seq<char>) -> int {
        choose|i: int| 0 <= i < self.n() && #[trigger] self.id_at(i) == x
    }

    proof fn lemma_index_of(&self, x: Seq<char>)
        requires
            self.wf_nodes(),
            self.nodes@.contains_key(x),
        ensures
            0 <= self.index_of(x) < self.n(),
            self.id_at(self.index_of(x)) == x,
    {
    }

    /// The store's edges, read through the ids, are the edges of the map.
    proof fn lemma_edge_ids(&self, a: int, b: int)
        requires
            self.wf_nodes(),
            self.wf_edges(),
            self.resolved(),
            0 <= a < self.n(),
            0 <= b < self.n(),
        ensures
            graph_edges(self.dag).contains((a as usize, b as usize)) == edge_set(self.nodes@).contains(
                (self.id_at(a), self.id_at(b)),
            ),
    {
        let e = graph_edges(self.dag);
        assert(self.nodes@.contains_key(self.id_at(a)));
        assert(self.nodes@.contains_key(self.id_at(b)));
        if e.contains((a as usize, b as usize)) {
            let k = choose|k: int| 0 <= k < e.len() && e[k] == (a as usize, b as usize);
            assert(self.node_at(e[k].0 as int).prevs.contains(self.id_at(e[k].1 as int)));
        }
    }

    /// Walks along the store's edges and walks along the map's edges are the same.
    proof fn lemma_lift_reaches(&self, a: int, b: int)
        requires
            self.wf_nodes(),
            self.wf_edges(),
            self.resolved(),
            0 <= a < self.n(),
            0 <= b < self.n(),
        ensures
            reaches(graph_edges(self.dag).to_set(), a as usize, b as usize) == reaches(
                edge_set(self.nodes@),
                self.id_at(a),
                self.id_at(b),
            ),
    {
        let ei = graph_edges(self.dag).to_set();
        let em = edge_set(self.nodes@);
        let n = self.n();
        if reaches(ei, a as usize, b as usize) {
            let p = choose|p: Seq<usize>| #[trigger] is_walk(ei, p) && p[0] == a as usize && p.last() == b as usize;
            assert forall|k: int| 0 <= k < p.len() implies p[k] < n by {
                if k < p.len() - 1 {
                    assert(ei.contains(step(p, k)));
                    let w = choose|w: int| 0 <= w < graph_edges(self.dag).len() && graph_edges(self.dag)[w] == step(p, k);
                    assert(graph_edges(self.dag)[w].0 < n);
                } else if k > 0 {
                    assert(ei.contains(step(p, k - 1)));
                    let w = choose|w: int| 0 <= w < graph_edges(self.dag).len() && graph_edges(self.dag)[w] == step(p, k - 1);
                    assert(graph_edges(self.dag)[w].1 < n);
                }
            }
            let q = p.map_values(|i: usize| self.id_at(i as int));
            assert forall|k: int| 0 <= k < q.len() - 1 implies em.contains(#[trigger] step(q, k)) by {
                assert(ei.contains(step(p, k)));
                self.lemma_edge_ids(p[k] as int, p[k + 1] as int);
            }
            assert(is_walk(em, q));
        }
        if reaches(em, self.id_at(a), self.id_at(b)) {
            let q = choose|q: Seq<Seq<char>>| #[trigger] is_walk(em, q) && q[0] == self.id_at(a) && q.last() == self.id_at(b);
            assert forall|k: int| 0 <= k < q.len() implies self.nodes@.contains_key(#[trigger] q[k]) by {
                if k < q.len() - 1 {
                    assert(em.contains(step(q, k)));
                } else if k > 0 {
                    assert(em.contains(step(q, k - 1)));
                } else {
                    assert(self.nodes@.contains_key(self.id_at(a)));
                }
            }
            let p = q.map_values(|x: Seq<char>| self.index_of(x) as usize);
            assert forall|k: int| 0 <= k < p.len() - 1 implies ei.contains(#[trigger] step(p, k)) by {
                assert(self.nodes@.contains_key(q[k]));
                assert(self.nodes@.contains_key(q[k + 1]));
                self.lemma_index_of(q[k]);
                self.lemma_index_of(q[k + 1]);
                assert(em.contains(step(q, k)));
                self.lemma_edge_ids(self.index_of(q[k]), self.index_of(q[k + 1]));
            }
            assert(is_walk(ei, p));
            self.lemma_index_of(self.id_at(a));
            self.lemma_index_of(self.id_at(b));
            assert(self.nodes@.contains_key(self.id_at(a)));
            assert(self.nodes@.contains_key(self.id_at(b)));
            assert(p[0] == a as usize);
            assert(p.last() == b as usize);
        }
    }

    /// The held event with id `x`.
    pub closed spec fn event_of(&self, x: Seq<char>) -> Event {
        self.stored@[x]
    }

    /// Renders the marked events and every edge with a marked end.
    fn project_marked(&self, marks: &Vec<bool>, d: Ghost<Set<Seq<char>>>) -> (r: DataSet)
        requires
            self.wf(),
            marks@.len() == self.n(),
            forall|i: int| 0 <= i < self.n() ==> marks@[i] == d@.contains(#[trigger] self.id_at(i)),
            forall|x: Seq<char>| d@.contains(x) ==> self.nodes@.contains_key(x),
        ensures
            node_ids(r.nodes@).no_duplicates(),
            node_ids(r.nodes@).to_set() == d@,
            forall|j: int|
                0 <= j < r.nodes@.len() ==> projects(
                    #[trigger] r.nodes@[j],
                    self.event_of(r.nodes@[j].id@),
                    self.server_name@,
                    self.fields@,
                ),
            edge_pairs(r.edges@).no_duplicates(),
            edge_pairs(r.edges@).to_set() == edges_touching(self.nodes@, d@),
    {
        let mut nodes: Vec<DataSetNode> = Vec::new();
        let n = self.events.len();
        let mut i: usize = 0;
        while i < n
            invariant
                self.wf(),
                n == self.n(),
                i <= n,
                marks@.len() == n,
                forall|i: int| 0 <= i < self.n() ==> marks@[i] == d@.contains(#[trigger] self.id_at(i)),
                node_ids(nodes@).no_duplicates(),
                forall|x: Seq<char>| #[trigger] node_ids(nodes@).contains(x) <==> (d@.contains(x) && self.held_before(i as int, x)),
                forall|j: int|
                    0 <= j < nodes@.len() ==> projects(
                        #[trigger] nodes@[j],
                        self.event_of(nodes@[j].id@),
                        self.server_name@,
                        self.fields@,
                    ),
            decreases n - i,
        {
            proof {
                assert forall|x: Seq<char>| #[trigger] self.held_before(i as int + 1, x) == (
                self.held_before(i as int, x) || x == self.id_at(i as int)) by {
                    if self.held_before(i as int + 1, x) && x != self.id_at(i as int) {
                        let j = choose|j: int| 0 <= j < i + 1 && #[trigger] self.id_at(j) == x;
                        assert(self.held_before(i as int, x));
                    }
                    if x == self.id_at(i as int) {
                        assert(self.held_before(i as int + 1, x));
                    }
                }
                assert(!self.held_before(i as int, self.id_at(i as int)));
                assert(self.nodes@.contains_key(self.id_at(i as int)));
                self.lemma_index_of(self.id_at(i as int));
                assert(self.index_of(self.id_at(i as int)) == i);
            }
            let ghost before = node_ids(nodes@);
            let ghost done = |x: Seq<char>| self.held_before(i as int, x);
            let ghost next = |x: Seq<char>| self.held_before(i as int + 1, x);
            if marks[i] {
                let node = self.events[i].to_data_set_node(&self.server_name, &self.fields);
                nodes.push(node);
                assert(node_ids(nodes@) =~= before.push(self.id_at(i as int)));
            } else {
                assert(node_ids(nodes@) =~= before);
            }
            proof {
                lemma_collect_step(before, node_ids(nodes@), self.id_at(i as int), done, next, d@);
            }
            i = i + 1;
        }
        proof {
            assert forall|x: Seq<char>| d@.contains(x) implies self.held_before(n as int, x) by {
                assert(self.nodes@.contains_key(x));
                let j = choose|j: int| 0 <= j < n && #[trigger] self.id_at(j) == x;
            }
            assert(node_ids(nodes@).to_set() =~= d@);
        }
        let mut edges: Vec<DataSetEdge> = Vec::new();
        let m = graph_edge_count(&self.dag);
        let ghost ge = graph_edges(self.dag);
        let mut k: usize = 0;
        while k < m
            invariant
                self.wf(),
                n == self.n(),
                m == ge.len(),
                ge == graph_edges(self.dag),
                k <= m,
                marks@.len() == n,
                forall|i: int| 0 <= i < self.n() ==> marks@[i] == d@.contains(#[trigger] self.id_at(i)),
                edge_pairs(edges@).no_duplicates(),
                forall|x: (Seq<char>, Seq<char>)| #[trigger] edge_pairs(edges@).contains(x) <==> exists|w: int|
                    0 <= w < k && x == (self.id_at(ge[w].0 as int), self.id_at(ge[w].1 as int)) && (d@.contains(x.0) || d@.contains(x.1)),
            decreases m - k,
        {
            let (c, p) = graph_edge_endpoints(&self.dag, k).unwrap();
            let ghost before = edge_pairs(edges@);
            let ghost x0 = (self.id_at(c as int), self.id_at(p as int));
            assert(ge[k as int] == (c, p));
            proof {
                assert forall|x: (Seq<char>, Seq<char>)| before.contains(x) implies x != x0 by {
                    let w = choose|w: int|
                        0 <= w < k && x == (self.id_at(ge[w].0 as int), self.id_at(ge[w].1 as int)) && (d@.contains(x.0) || d@.contains(x.1));
                    if x == x0 {
                        assert(ge[w].0 == c && ge[w].1 == p);
                        assert(ge[w] == ge[k as int]);
                    }
                }
            }
            if marks[c] || marks[p] {
                let edge = DataSetEdge {
                    from: self.events[c].event_id.clone(),
                    to: self.events[p].event_id.clone(),
                };
                edges.push(edge);
                assert(edge_pairs(edges@) =~= before.push(x0));
                proof {
                    lemma_push_distinct(before, x0);
                }
            } else {
                assert(edge_pairs(edges@) =~= before);
            }
            proof {
                assert forall|x: (Seq<char>, Seq<char>)| #[trigger] edge_pairs(edges@).contains(x) <==> exists|w: int|
                    0 <= w < k + 1 && x == (self.id_at(ge[w].0 as int), self.id_at(ge[w].1 as int)) && (d@.contains(x.0) || d@.contains(x.1)) by {
                    if edge_pairs(edges@).contains(x) && x != x0 {
                        assert(before.contains(x));
                    }
                    if x == x0 && (d@.contains(x.0) || d@.contains(x.1)) {
                        assert(edge_pairs(edges@).contains(x0)) by {
                            assert(edge_pairs(edges@)[before.len() as int] == x0);
                        }
                    }
                    if exists|w: int|
                        0 <= w < k + 1 && x == (self.id_at(ge[w].0 as int), self.id_at(ge[w].1 as int)) && (d@.contains(x.0) || d@.contains(x.1)) {
                        let w = choose|w: int|
                            0 <= w < k + 1 && x == (self.id_at(ge[w].0 as int), self.id_at(ge[w].1 as int)) && (d@.contains(x.0) || d@.contains(x.1));
                        if w < k {
                            assert(before.contains(x));
                            let t = choose|t: int| 0 <= t < before.len() && before[t] == x;
                            assert(edge_pairs(edges@)[t] == x);
                        }
                    }
                }
            }
            k = k + 1;
        }
        proof {
            assert forall|x: (Seq<char>, Seq<char>)| edge_pairs(edges@).contains(x) <==> edges_touching(self.nodes@, d@).contains(x) by {
                if edge_pairs(edges@).contains(x) {
                    let w = choose|w: int|
                        0 <= w < m && x == (self.id_at(ge[w].0 as int), self.id_at(ge[w].1 as int)) && (d@.contains(x.0) || d@.contains(x.1));
                    self.lemma_edge_ids(ge[w].0 as int, ge[w].1 as int);
                    assert(ge.contains(ge[w]));
                }
                if edges_touching(self.nodes@, d@).contains(x) {
                    let a = self.index_of(x.0);
                    let b = self.index_of(x.1);
                    self.lemma_index_of(x.0);
                    self.lemma_index_of(x.1);
                    self.lemma_edge_ids(a, b);
                    let w = choose|w: int| 0 <= w < ge.len() && ge[w] == (a as usize, b as usize);
                }
            }
            assert(edge_pairs(edges@).to_set() =~= edges_touching(self.nodes@, d@));
        }
        DataSet { nodes, edges }
    }

    /// Event `j` is reached from event `s` along parent edges, or along child
    /// edges when `to_parents` is false.
    closed spec fn idx_reach(&self, to_parents: bool, s: int, j: int) -> bool {
        if to_parents {
            reaches(graph_edges(self.dag).to_set(), s as usize, j as usize)
        } else {
            reaches(flip(graph_edges(self.dag).to_set()), s as usize, j as usize)
        }
    }

    /// The edges of the map in the direction of a traversal.
    pub open spec fn walk_edges(m: EventMap, to_parents: bool) -> Set<(Seq<char>, Seq<char>)> {
        if to_parents {
            edge_set(m)
        } else {
            flip(edge_set(m))
        }
    }

    proof fn lemma_reach_in_range(&self, to_parents: bool, s: int, j: usize)
        requires
            self.wf_nodes(),
            self.wf_edges(),
            0 <= s < self.n(),
            self.idx_reach(to_parents, s, j as int),
        ensures
            j < self.n(),
    {
        let ei = graph_edges(self.dag).to_set();
        let e = if to_parents { ei } else { flip(ei) };
        let p = choose|p: Seq<usize>| #[trigger] is_walk(e, p) && p[0] == s as usize && p.last() == j;
        if p.len() > 1 {
            let k = p.len() - 2;
            assert(e.contains(step(p, k)));
            if to_parents {
                assert(ei.contains((p[k], p[k + 1])));
                let w = choose|w: int| 0 <= w < graph_edges(self.dag).len() && graph_edges(self.dag)[w] == (p[k], p[k + 1]);
                assert(graph_edges(self.dag)[w].1 < self.n());
            } else {
                assert(ei.contains((p[k + 1], p[k])));
                let w = choose|w: int| 0 <= w < graph_edges(self.dag).len() && graph_edges(self.dag)[w] == (p[k + 1], p[k]);
                assert(graph_edges(self.dag)[w].0 < self.n());
            }
        }
    }

    proof fn lemma_spread_at(&self, seeds: Seq<bool>, from: Set<Seq<char>>, to_parents: bool, i: int)
        requires
            self.wf(),
            seeds.len() == self.n(),
            forall|j: int| 0 <= j < self.n() ==> seeds[j] == from.contains(#[trigger] self.id_at(j)),
            0 <= i < self.n(),
        ensures
            ((exists|s: int| 0 <= s < self.n() && seeds[s] && #[trigger] self.idx_reach(to_parents, s, i))
                && !seeds[i]) == spread(self.nodes@, Self::walk_edges(self.nodes@, to_parents), from).contains(
                self.id_at(i),
            ),
    {
        let m = self.nodes@;
        let em = Self::walk_edges(m, to_parents);
        let ei = graph_edges(self.dag).to_set();
        let x = self.id_at(i);
        assert(m.contains_key(x));
        assert forall|s: int| 0 <= s < self.n() implies #[trigger] self.idx_reach(to_parents, s, i)
            == reaches(em, self.id_at(s), x) by {
            if to_parents {
                self.lemma_lift_reaches(s, i);
            } else {
                lemma_flip_reaches(ei, s as usize, i as usize);
                self.lemma_lift_reaches(i, s);
                lemma_flip_reaches(edge_set(m), self.id_at(s), x);
            }
        }
        if exists|s: int| 0 <= s < self.n() && seeds[s] && #[trigger] self.idx_reach(to_parents, s, i) {
            let s = choose|s: int| 0 <= s < self.n() && seeds[s] && #[trigger] self.idx_reach(to_parents, s, i);
            assert(m.contains_key(self.id_at(s)));
            assert(reaches(em, self.id_at(s), x));
        }
        if spread(m, em, from).contains(x) {
            let sx = choose|sx: Seq<char>| from.contains(sx) && m.contains_key(sx) && #[trigger] reaches(em, sx, x);
            self.lemma_index_of(sx);
            let s = self.index_of(sx);
            assert(self.idx_reach(to_parents, s, i));
        }
    }

    /// Marks the events reached from the held events of `from` by following
    /// parent edges (or child edges), those of `from` left out.
    fn mark_spread(&self, from: &Vec<String>, to_parents: bool) -> (r: Vec<bool>)
        requires
            self.wf(),
        ensures
            r@.len() == self.n(),
            forall|i: int|
                0 <= i < self.n() ==> r@[i] == spread(
                    self.nodes@,
                    Self::walk_edges(self.nodes@, to_parents),
                    views(from@).to_set(),
                ).contains(#[trigger] self.id_at(i)),
    {
        let n = self.events.len();
        let ghost fs = views(from@).to_set();
        let mut seeds: Vec<bool> = Vec::new();
        let mut reached: Vec<bool> = Vec::new();
        let mut i: usize = 0;
        while i < n
            invariant
                i <= n,
                seeds@.len() == i,
                reached@.len() == i,
                forall|j: int| 0 <= j < i ==> !seeds@[j] && !reached@[j],
            decreases n - i,
        {
            seeds.push(false);
            reached.push(false);
            i = i + 1;
        }
        let mut k: usize = 0;
        while k < from.len()
            invariant
                self.wf(),
                n == self.n(),
                k <= from@.len(),
                seeds@.len() == n,
                forall|j: int| 0 <= j < n ==> #[trigger] seeds@[j] == views(from@).take(k as int).contains(self.id_at(j)),
            decreases from@.len() - k,
        {
            let ghost take_next = views(from@).take(k as int + 1);
            assert(take_next =~= views(from@).take(k as int).push(from@[k as int]@));
            if let Some(j) = self.lookup(&from[k]) {
                seeds.set(j, true);
            }
            proof {
                assert forall|j: int| 0 <= j < n implies #[trigger] seeds@[j] == take_next.contains(self.id_at(j)) by {
                    if self.id_at(j) == from@[k as int]@ {
                        assert(take_next[k as int] == self.id_at(j));
                    }
                    if views(from@).take(k as int).contains(self.id_at(j)) {
                        let t = choose|t: int| 0 <= t < k && views(from@).take(k as int)[t] == self.id_at(j);
                        assert(take_next[t] == self.id_at(j));
                    }
                    if take_next.contains(self.id_at(j)) && self.id_at(j) != from@[k as int]@ {
                        let t = choose|t: int| 0 <= t < k + 1 && take_next[t] == self.id_at(j);
                        assert(views(from@).take(k as int)[t] == self.id_at(j));
                    }
                }
            }
            k = k + 1;
        }
        assert(views(from@).take(k as int) =~= views(from@));
        let mut s: usize = 0;
        while s < n
            invariant
                self.wf(),
                n == self.n(),
                s <= n,
                seeds@.len() == n,
                reached@.len() == n,
                forall|j: int| 0 <= j < n ==> #[trigger] reached@[j] == exists|t: int|
                    0 <= t < s && seeds@[t] && #[trigger] self.idx_reach(to_parents, t, j),
            decreases n - s,
        {
            let ghost prev = reached@;
            if seeds[s] {
                let list = if to_parents {
                    graph_bfs(&self.dag, s)
                } else {
                    graph_bfs_reversed(&self.dag, s)
                };
                let mut t: usize = 0;
                while t < list.len()
                    invariant
                        self.wf(),
                        n == self.n(),
                        s < n,
                        seeds@[s as int],
                        t <= list@.len(),
                        reached@.len() == n,
                        forall|j: usize| list@.contains(j) <==> self.idx_reach(to_parents, s as int, j as int),
                        forall|j: int| 0 <= j < n ==> #[trigger] reached@[j] == (prev[j] || list@.take(t as int).contains(j as usize)),
                    decreases list@.len() - t,
                {
                    let j = list[t];
                    assert(list@.contains(j));
                    proof {
                        self.lemma_reach_in_range(to_parents, s as int, j);
                    }
                    reached.set(j, true);
                    proof {
                        let tn = list@.take(t as int + 1);
                        assert(tn =~= list@.take(t as int).push(j));
                        assert forall|q: int| 0 <= q < n implies #[trigger] reached@[q] == (prev[q] || tn.contains(q as usize)) by {
                            if q == j as int {
                                assert(tn[t as int] == j);
                            }
                            if list@.take(t as int).contains(q as usize) {
                                let w = choose|w: int| 0 <= w < t && list@.take(t as int)[w] == q as usize;
                                assert(tn[w] == q as usize);
                            }
                            if tn.contains(q as usize) && q != j as int {
                                let w = choose|w: int| 0 <= w < t + 1 && tn[w] == q as usize;
                                assert(list@.take(t as int)[w] == q as usize);
                            }
                        }
                    }
                    t = t + 1;
                }
                proof {
                    assert(list@.take(t as int) =~= list@);
                    assert forall|j: int| 0 <= j < n implies #[trigger] reached@[j] == exists|t2: int|
                        0 <= t2 < s + 1 && seeds@[t2] && #[trigger] self.idx_reach(to_parents, t2, j) by {
                        if self.idx_reach(to_parents, s as int, j) {
                            assert(list@.contains(j as usize));
                        }
                        if list@.contains(j as usize) {
                            assert(self.idx_reach(to_parents, s as int, j));
                        }
                    }
                }
            }
            s = s + 1;
        }
        let mut marks: Vec<bool> = Vec::new();
        let mut i: usize = 0;
        while i < n
            invariant
                self.wf(),
                n == self.n(),
                i <= n,
                seeds@.len() == n,
                reached@.len() == n,
                marks@.len() == i,
                forall|j: int| 0 <= j < n ==> #[trigger] seeds@[j] == fs.contains(self.id_at(j)),
                forall|j: int| 0 <= j < n ==> #[trigger] reached@[j] == exists|t: int|
                    0 <= t < n && seeds@[t] && #[trigger] self.idx_reach(to_parents, t, j),
                forall|j: int| 0 <= j < i ==> #[trigger] marks@[j] == spread(
                    self.nodes@,
                    Self::walk_edges(self.nodes@, to_parents),
                    fs,
                ).contains(self.id_at(j)),
            decreases n - i,
        {
            proof {
                self.lemma_spread_at(seeds@, fs, to_parents, i as int);
            }
            marks.push(reached[i] && !seeds[i]);
            i = i + 1;
        }
        marks
    }

    /// Renders every event and every edge: the first view of a graph.
    pub fn create_data_set(&self) -> (r: DataSet)
        requires
            self.wf(),
        ensures
            node_ids(r.nodes@).no_duplicates(),
            node_ids(r.nodes@).to_set() == self.model().dom(),
            forall|j: int|
                0 <= j < r.nodes@.len() ==> projects(
                    #[trigger] r.nodes@[j],
                    self.event_of(r.nodes@[j].id@),
                    self.server(),
                    self.shown_fields(),
                ),
            edge_pairs(r.edges@).no_duplicates(),
            edge_pairs(r.edges@).to_set() == edge_set(self.model()),
    {
        let n = self.events.len();
        let mut marks: Vec<bool> = Vec::new();
        let mut i: usize = 0;
        while i < n
            invariant
                i <= n,
                marks@.len() == i,
                forall|j: int| 0 <= j < i ==> marks@[j],
            decreases n - i,
        {
            marks.push(true);
            i = i + 1;
        }
        proof {
            assert forall|j: int| 0 <= j < self.n() implies marks@[j] == self.nodes@.dom().contains(
                #[trigger] self.id_at(j),
            ) by {}
            assert(edges_touching(self.nodes@, self.nodes@.dom()) =~= edge_set(self.nodes@));
        }
        self.project_marked(&marks, Ghost(self.nodes@.dom()))
    }

    /// The events reached from `old_tails` by following parent edges, and the
    /// edges that touch them; the ids of `old_tails` themselves are left out.
    /// Used after a backfill to extend a view without sending known events again.
    pub fn diff_since_tail(&self, old_tails: &Vec<String>) -> (r: DataSet)
        requires
            self.wf(),
        ensures
            node_ids(r.nodes@).no_duplicates(),
            node_ids(r.nodes@).to_set() == older_than(self.model(), views(old_tails@).to_set()),
            forall|j: int|
                0 <= j < r.nodes@.len() ==> projects(
                    #[trigger] r.nodes@[j],
                    self.event_of(r.nodes@[j].id@),
                    self.server(),
                    self.shown_fields(),
                ),
            edge_pairs(r.edges@).no_duplicates(),
            edge_pairs(r.edges@).to_set() == edges_touching(
                self.model(),
                older_than(self.model(), views(old_tails@).to_set()),
            ),
    {
        let marks = self.mark_spread(old_tails, true);
        self.project_marked(&marks, Ghost(older_than(self.nodes@, views(old_tails@).to_set())))
    }

    /// The events reached from `old_heads` by following child edges, and the
    /// edges that touch them; the ids of `old_heads` themselves are left out.
    /// Used after a live batch to extend a view.
    pub fn diff_since_head(&self, old_heads: &Vec<String>) -> (r: DataSet)
        requires
            self.wf(),
        ensures
            node_ids(r.nodes@).no_duplicates(),
            node_ids(r.nodes@).to_set() == newer_than(self.model(), views(old_heads@).to_set()),
            forall|j: int|
                0 <= j < r.nodes@.len() ==> projects(
                    #[trigger] r.nodes@[j],
                    self.event_of(r.nodes@[j].id@),
                    self.server(),
                    self.shown_fields(),
                ),
            edge_pairs(r.edges@).no_duplicates(),
            edge_pairs(r.edges@).to_set() == edges_touching(
                self.model(),
                newer_than(self.model(), views(old_heads@).to_set()),
            ),
    {
        let marks = self.mark_spread(old_heads, false);
        self.project_marked(&marks, Ghost(newer_than(self.nodes@, views(old_heads@).to_set())))
    }

    /// Appends to `data_set` what `diff_since_tail` gives for `from`.
    pub fn add_earlier_events_to_data_set(&self, data_set: &mut DataSet, from: Vec<String>)
        requires
            self.wf(),
        ensures
            final(data_set).nodes@.take(old(data_set).nodes@.len() as int) == old(data_set).nodes@,
            final(data_set).edges@.take(old(data_set).edges@.len() as int) == old(data_set).edges@,
            node_ids(final(data_set).nodes@.skip(old(data_set).nodes@.len() as int)).to_set()
                == older_than(self.model(), views(from@).to_set()),
            edge_pairs(final(data_set).edges@.skip(old(data_set).edges@.len() as int)).to_set()
                == edges_touching(self.model(), older_than(self.model(), views(from@).to_set())),
            node_ids(final(data_set).nodes@.skip(old(data_set).nodes@.len() as int)).no_duplicates(),
            edge_pairs(final(data_set).edges@.skip(old(data_set).edges@.len() as int)).no_duplicates(),
            forall|j: int|
                old(data_set).nodes@.len() <= j < final(data_set).nodes@.len() ==> projects(
                    #[trigger] final(data_set).nodes@[j],
                    self.event_of(final(data_set).nodes@[j].id@),
                    self.server(),
                    self.shown_fields(),
                ),
    {
        let mut diff = self.diff_since_tail(&from);
        let ghost added_nodes = diff.nodes@;
        let ghost added_edges = diff.edges@;
        data_set.nodes.append(&mut diff.nodes);
        data_set.edges.append(&mut diff.edges);
        assert(data_set.nodes@.skip(old(data_set).nodes@.len() as int) =~= added_nodes);
        assert forall|j: int| old(data_set).nodes@.len() <= j < data_set.nodes@.len() implies
            #[trigger] data_set.nodes@[j] == added_nodes[j - old(data_set).nodes@.len()] by {}
        assert(data_set.edges@.skip(old(data_set).edges@.len() as int) =~= added_edges);
        assert(data_set.nodes@.take(old(data_set).nodes@.len() as int) =~= old(data_set).nodes@);
        assert(data_set.edges@.take(old(data_set).edges@.len() as int) =~= old(data_set).edges@);
    }

    /// Appends to `data_set` what `diff_since_head` gives for `from`.
    pub fn add_new_events_to_data_set(&self, data_set: &mut DataSet, from: Vec<String>)
        requires
            self.wf(),
        ensures
            final(data_set).nodes@.take(old(data_set).nodes@.len() as int) == old(data_set).nodes@,
            final(data_set).edges@.take(old(data_set).edges@.len() as int) == old(data_set).edges@,
            node_ids(final(data_set).nodes@.skip(old(data_set).nodes@.len() as int)).to_set()
                == newer_than(self.model(), views(from@).to_set()),
            edge_pairs(final(data_set).edges@.skip(old(data_set).edges@.len() as int)).to_set()
                == edges_touching(self.model(), newer_than(self.model(), views(from@).to_set())),
            node_ids(final(data_set).nodes@.skip(old(data_set).nodes@.len() as int)).no_duplicates(),
            edge_pairs(final(data_set).edges@.skip(old(data_set).edges@.len() as int)).no_duplicates(),
            forall|j: int|
                old(data_set).nodes@.len() <= j < final(data_set).nodes@.len() ==> projects(
                    #[trigger] final(data_set).nodes@[j],
                    self.event_of(final(data_set).nodes@[j].id@),
                    self.server(),
                    self.shown_fields(),
                ),
    {
        let mut diff = self.diff_since_head(&from);
        let ghost added_nodes = diff.nodes@;
        let ghost added_edges = diff.edges@;
        data_set.nodes.append(&mut diff.nodes);
        data_set.edges.append(&mut diff.edges);
        assert(data_set.nodes@.skip(old(data_set).nodes@.len() as int) =~= added_nodes);
        assert forall|j: int| old(data_set).nodes@.len() <= j < data_set.nodes@.len() implies
            #[trigger] data_set.nodes@[j] == added_nodes[j - old(data_set).nodes@.len()] by {}
        assert(data_set.edges@.skip(old(data_set).edges@.len() as int) =~= added_edges);
        assert(data_set.nodes@.take(old(data_set).nodes@.len() as int) =~= old(data_set).nodes@);
        assert(data_set.edges@.take(old(data_set).edges@.len() as int) =~= old(data_set).edges@);
    }

    /// The event with id `id`, if the graph holds it.
    pub fn get_event(&self, id: &String) -> (r: Option<&Event>)
        requires
            self.wf(),
        ensures
            r is Some == self.model().contains_key(id@),
            r matches Some(e) ==> {
                &&& e.event_id@ == id@
                &&& e.node() == self.model()[id@]
                &&& *e == self.stored_events()[id@]
                &&& *e == self.event_of(id@)
            },
    {
        match self.lookup(id) {
            Some(i) => {
                proof {
                    self.lemma_index_of(id@);
                    assert(self.nodes@.contains_key(self.id_at(i as int)));
                }
                Some(&self.events[i])
            },
            None => None,
        }
    }

    /// The newest known events: those that no known event names as a parent.
    pub fn latest_events(&self) -> (r: &Vec<String>)
        requires
            self.wf(),
        ensures
            views(r@).no_duplicates(),
            views(r@).to_set() == head_set(self.model()),
    {
        &self.latest_events
    }

    /// The oldest known events: those none of whose parents is known.
    pub fn earliest_events(&self) -> (r: &Vec<String>)
        requires
            self.wf(),
        ensures
            views(r@).no_duplicates(),
            views(r@).to_set() == tail_set(self.model()),
    {
        &self.earliest_events
    }

    /// The events that name a parent which is not known, with their depths.
    pub fn orphan_events(&self) -> (r: &Vec<Orphan>)
        requires
            self.wf(),
        ensures
            orphan_ids(r@).no_duplicates(),
            orphan_ids(r@).to_set() == orphan_set(self.model()),
            forall|k: int| 0 <= k < r@.len() ==> self.model()[(#[trigger] r@[k]).id@].depth == r@[k].depth,
    {
        &self.orphan_events
    }

    /// The smallest and largest depths of the held events; `None` while the
    /// graph is empty.
    pub fn depth_range(&self) -> (r: Option<(i64, i64)>)
        requires
            self.wf(),
        ensures
            r is None <==> self.model().len() == 0,
            r matches Some((lo, hi)) ==> {
                &&& forall|k: Seq<char>| #[trigger] self.model().contains_key(k) ==> lo <= self.model()[k].depth <= hi
                &&& exists|k: Seq<char>| #[trigger] self.model().contains_key(k) && self.model()[k].depth == lo
                &&& exists|k: Seq<char>| #[trigger] self.model().contains_key(k) && self.model()[k].depth == hi
            },
    {
        match (self.min_depth, self.max_depth) {
            (Some(lo), Some(hi)) => {
                proof {
                    assert forall|k: Seq<char>| #[trigger] self.model().contains_key(k) implies lo <= self.model()[k].depth <= hi by {
                        let i = choose|i: int| 0 <= i < self.n() && #[trigger] self.id_at(i) == k;
                    }
                    let i = choose|i: int| 0 <= i < self.n() && #[trigger] self.node_at(i).depth == lo;
                    assert(self.model().contains_key(self.id_at(i)));
                    let j = choose|j: int| 0 <= j < self.n() && #[trigger] self.node_at(j).depth == hi;
                    assert(self.model().contains_key(self.id_at(j)));
                }
                Some((lo, hi))
            },
            _ => None,
        }
    }

    /// Chooses the fields that labels show; a rendering made after this
    /// uses them for every node.
    pub fn set_fields(&mut self, fields: &Vec<Field>)
        requires
            old(self).wf(),
        ensures
            final(self).wf(),
            final(self).model() == old(self).model(),
            final(self).stored_events() == old(self).stored_events(),
            final(self).shown_fields() == fields@,
            final(self).room() == old(self).room(),
            final(self).server() == old(self).server(),
    {
        self.fields = fields.clone();
    }

    /// The room that the graph observes.
    pub fn room_id(&self) -> (r: &String)
        ensures
            r@ == self.room(),
    {
        &self.room_id
    }

    /// Builds the graph of `room_id` from the first sync response: `None` when
    /// the response holds no timeline for that room, else a graph made of the
    /// events of its (first) timeline.
    pub fn from_sync_response(
        room_id: &String,
        server_name: &String,
        fields: &Vec<Field>,
        res: SyncResponse,
    ) -> (r: Option<RoomEvents>)
        ensures
            r is Some <==> room_position(res.joined@, room_id@) is Some,
            r matches Some(g) ==> {
                &&& g.wf()
                &&& g.model() == absorb(
                    Map::empty(),
                    res.joined@[room_position(res.joined@, room_id@).unwrap()].events@,
                )
                &&& stores_batch(
                    Map::empty(),
                    g.stored_events(),
                    res.joined@[room_position(res.joined@, room_id@).unwrap()].events@,
                )
                &&& g.room() == room_id@
                &&& g.server() == server_name@
                &&& g.shown_fields() == fields@
            },
    {
        let mut rooms = res.joined;
        match find_room(&rooms, room_id) {
            Some(j) => {
                let timeline = rooms.remove(j);
                let mut dag = RoomEvents::new(room_id.as_str(), server_name.as_str(), fields);
                dag.ingest_backfill_batch(timeline.events);
                Some(dag)
            },
            None => None,
        }
    }

    /// Adds the new events that a later sync response holds for the observed
    /// room; a response without a timeline for it changes nothing.
    pub fn add_new_events(&mut self, res: SyncResponse)
        requires
            old(self).wf(),
        ensures
            final(self).wf(),
            final(self).model() == (match room_position(res.joined@, old(self).room()) {
                Some(j) => absorb(old(self).model(), res.joined@[j].events@),
                None => old(self).model(),
            }),
            match room_position(res.joined@, old(self).room()) {
                Some(j) => stores_batch(
                    old(self).stored_events(),
                    final(self).stored_events(),
                    res.joined@[j].events@,
                ),
                None => final(self).stored_events() == old(self).stored_events(),
            },
            final(self).room() == old(self).room(),
            final(self).server() == old(self).server(),
            final(self).shown_fields() == old(self).shown_fields(),
    {
        let mut rooms = res.joined;
        if let Some(j) = find_room(&rooms, &self.room_id) {
            let timeline = rooms.remove(j);
            let room = self.room_id.clone();
            let _ = self.ingest_timeline_batch(&room, timeline.events);
        }
    }

    /// Adds earlier events, fetched as ancestors of known ones.
    pub fn add_prev_events(&mut self, events: Vec<RawEvent>)
        requires
            old(self).wf(),
        ensures
            final(self).wf(),
            final(self).model() == absorb(old(self).model(), events@),
            stores_batch(old(self).stored_events(), final(self).stored_events(), events@),
            final(self).room() == old(self).room(),
            final(self).server() == old(self).server(),
            final(self).shown_fields() == old(self).shown_fields(),
    {
        self.ingest_backfill_batch(events);
    }
}

} // verus!
