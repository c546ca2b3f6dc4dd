//! The graph of a room as a mathematical object: a map from event ids to what
//! each event declares, and the edges and frontier sets that it determines.
use vstd::prelude::*;

use crate::model::event::{lemma_parse_unique, parses_to, raw_entry, same_fields, Event, NodeModel, RawEvent};
use crate::model::graph::{flip, is_walk, reaches, step};

verus! {

/// The known events of a room, by id.
pub type EventMap = Map<Seq<char>, NodeModel>;

/// Event `c` is known and names `p` among its parents.
pub open spec fn cites(m: EventMap, c: Seq<char>, p: Seq<char>) -> bool {
    m.contains_key(c) && m[c].prevs.contains(p)
}

/// The edges of the graph: (child, parent) for each known parent that a known
/// event names.
pub open spec fn edge_set(m: EventMap) -> Set<(Seq<char>, Seq<char>)> {
    Set::new(|e: (Seq<char>, Seq<char>)| cites(m, e.0, e.1) && m.contains_key(e.1))
}

/// The newest known events: those that no known event names as a parent.
pub open spec fn head_set(m: EventMap) -> Set<Seq<char>> {
    Set::new(|x: Seq<char>| m.contains_key(x) && !exists|c: Seq<char>| #[trigger] cites(m, c, x))
}

/// The oldest known events: those none of whose parents is known.
pub open spec fn tail_set(m: EventMap) -> Set<Seq<char>> {
    Set::new(
        |x: Seq<char>|
            m.contains_key(x) && !exists|p: Seq<char>| #[trigger] cites(m, x, p) && m.contains_key(p),
    )
}

/// The events that name at least one parent that is not known.
pub open spec fn orphan_set(m: EventMap) -> Set<Seq<char>> {
    Set::new(
        |x: Seq<char>|
            m.contains_key(x) && exists|p: Seq<char>| #[trigger] cites(m, x, p) && !m.contains_key(p),
    )
}

/// The held events reached from held seeds along the edges `e`, the seeds
/// themselves left out.
pub open spec fn spread(m: EventMap, e: Set<(Seq<char>, Seq<char>)>, seeds: Set<Seq<char>>) -> Set<
    Seq<char>,
> {
    Set::new(
        |x: Seq<char>|
            m.contains_key(x) && !seeds.contains(x) && exists|s: Seq<char>|
                seeds.contains(s) && m.contains_key(s) && #[trigger] reaches(e, s, x),
    )
}

/// The events reached from the seeds by following parent edges: what a
/// backfill added beyond the old tails.
pub open spec fn older_than(m: EventMap, seeds: Set<Seq<char>>) -> Set<Seq<char>> {
    spread(m, edge_set(m), seeds)
}

/// The events reached from the seeds by following child edges: what a live
/// batch added beyond the old heads.
pub open spec fn newer_than(m: EventMap, seeds: Set<Seq<char>>) -> Set<Seq<char>> {
    spread(m, flip(edge_set(m)), seeds)
}

/// The edges with at least one end in `d`.
pub open spec fn edges_touching(m: EventMap, d: Set<Seq<char>>) -> Set<(Seq<char>, Seq<char>)> {
    Set::new(
        |e: (Seq<char>, Seq<char>)| edge_set(m).contains(e) && (d.contains(e.0) || d.contains(e.1)),
    )
}

/// The map after a batch of raw events, taken in order: an event that parses
/// and whose id is not known yet is added; any other is passed over.
pub open spec fn absorb(m: EventMap, raws: Seq<RawEvent>) -> EventMap
    decreases raws.len(),
{
    if raws.len() == 0 {
        m
    } else {
        let before = absorb(m, raws.drop_last());
        match raw_entry(raws.last()) {
            Some(entry) => if before.contains_key(entry.0) {
                before
            } else {
                before.insert(entry.0, entry.1)
            },
            None => before,
        }
    }
}

/// The raw event parses and carries the id `k`.
pub open spec fn parses_to_id(r: RawEvent, k: Seq<char>) -> bool {
    raw_entry(r) is Some && raw_entry(r).unwrap().0 == k
}

/// Some raw event of the batch parses and carries the id `k`.
pub open spec fn batch_has(raws: Seq<RawEvent>, k: Seq<char>) -> bool {
    exists|i: int| 0 <= i < raws.len() && #[trigger] parses_to_id(raws[i], k)
}

/// What a batch does to the map, key by key: known events stay as they were,
/// and each new key comes from an event of the batch.
pub proof fn lemma_absorb_keys(m: EventMap, raws: Seq<RawEvent>)
    ensures
        forall|k: Seq<char>| #[trigger]
            absorb(m, raws).contains_key(k) <==> m.contains_key(k) || batch_has(raws, k),
        forall|k: Seq<char>| m.contains_key(k) ==> #[trigger] absorb(m, raws)[k] == m[k],
        forall|k: Seq<char>|
            !m.contains_key(k) && #[trigger] absorb(m, raws).contains_key(k) ==> exists|i: int|
                0 <= i < raws.len() && #[trigger] raw_entry(raws[i]) == Some((k, absorb(m, raws)[k])),
    decreases raws.len(),
{
    if raws.len() > 0 {
        let init = raws.drop_last();
        lemma_absorb_keys(m, init);
        let before = absorb(m, init);
        let last = raws.len() - 1;
        assert(raws[last] == raws.last());
        assert forall|k: Seq<char>| #[trigger] batch_has(raws, k) <==> batch_has(init, k) || (
        parses_to_id(raws.last(), k)) by {
            if batch_has(init, k) {
                let i = choose|i: int|
                    0 <= i < init.len() && #[trigger] parses_to_id(init[i], k);
                assert(raws[i] == init[i]);
            }
            if batch_has(raws, k) {
                let i = choose|i: int|
                    0 <= i < raws.len() && #[trigger] parses_to_id(raws[i], k);
                if i < last {
                    assert(raws[i] == init[i]);
                }
            }
            if parses_to_id(raws.last(), k) {
                assert(raw_entry(raws[last]) == raw_entry(raws.last()));
            }
        }
        assert forall|k: Seq<char>|
            !m.contains_key(k) && #[trigger] absorb(m, raws).contains_key(k) implies exists|i: int|
                0 <= i < raws.len() && #[trigger] raw_entry(raws[i]) == Some((k, absorb(m, raws)[k])) by {
            if before.contains_key(k) {
                let i = choose|i: int|
                    0 <= i < init.len() && #[trigger] raw_entry(init[i]) == Some((k, before[k]));
                assert(raws[i] == init[i]);
            } else {
                assert(raw_entry(raws[last]) == Some((k, absorb(m, raws)[k])));
            }
        }
    }
}

/// A batch whose parsed ids are all known changes nothing.
pub proof fn lemma_absorb_known(m: EventMap, raws: Seq<RawEvent>)
    requires
        forall|k: Seq<char>| batch_has(raws, k) ==> m.contains_key(k),
    ensures
        absorb(m, raws) == m,
    decreases raws.len(),
{
    if raws.len() > 0 {
        let init = raws.drop_last();
        assert forall|k: Seq<char>| batch_has(init, k) implies m.contains_key(k) by {
            let i = choose|i: int|
                0 <= i < init.len() && #[trigger] parses_to_id(init[i], k);
            assert(raws[i] == init[i]);
            assert(batch_has(raws, k));
        }
        lemma_absorb_known(m, init);
        if raw_entry(raws.last()) is Some {
            assert(raws[raws.len() - 1] == raws.last());
            assert(parses_to_id(raws[raws.len() - 1], raw_entry(raws.last()).unwrap().0));
            assert(batch_has(raws, raw_entry(raws.last()).unwrap().0));
        }
    }
}

/// Ingesting the same batch twice leaves the same events, edges and frontier
/// sets as ingesting it once.
pub proof fn lemma_batch_idempotent(m: EventMap, raws: Seq<RawEvent>)
    ensures
        absorb(absorb(m, raws), raws) == absorb(m, raws),
        edge_set(absorb(absorb(m, raws), raws)) == edge_set(absorb(m, raws)),
        head_set(absorb(absorb(m, raws), raws)) == head_set(absorb(m, raws)),
        tail_set(absorb(absorb(m, raws), raws)) == tail_set(absorb(m, raws)),
        orphan_set(absorb(absorb(m, raws), raws)) == orphan_set(absorb(m, raws)),
{
    lemma_absorb_keys(m, raws);
    lemma_absorb_known(absorb(m, raws), raws);
}

/// The order of the events of a batch does not matter: any reordering leaves
/// the same events, edges and frontier sets, provided that events of the
/// batch that share an id agree on their depth and parents.
pub proof fn lemma_batch_order_free(m: EventMap, a: Seq<RawEvent>, b: Seq<RawEvent>)
    requires
        a.to_multiset() == b.to_multiset(),
        forall|i: int, j: int|
            0 <= i < a.len() && 0 <= j < a.len() && (#[trigger] raw_entry(a[i])) is Some && (
            #[trigger] raw_entry(a[j])) is Some && raw_entry(a[i]).unwrap().0 == raw_entry(
                a[j],
            ).unwrap().0 ==> raw_entry(a[i]) == raw_entry(a[j]),
    ensures
        absorb(m, a) == absorb(m, b),
        edge_set(absorb(m, a)) == edge_set(absorb(m, b)),
        head_set(absorb(m, a)) == head_set(absorb(m, b)),
        tail_set(absorb(m, a)) == tail_set(absorb(m, b)),
        orphan_set(absorb(m, a)) == orphan_set(absorb(m, b)),
{
    broadcast use vstd::seq_lib::group_to_multiset_ensures;

    lemma_absorb_keys(m, a);
    lemma_absorb_keys(m, b);
    let ma = absorb(m, a);
    let mb = absorb(m, b);
    assert forall|x: RawEvent| a.contains(x) <==> b.contains(x) by {
        vstd::seq_lib::to_multiset_contains(a, x);
        vstd::seq_lib::to_multiset_contains(b, x);
        assert(a.to_multiset().count(x) == b.to_multiset().count(x));
    }
    assert forall|k: Seq<char>| batch_has(a, k) <==> batch_has(b, k) by {
        if batch_has(a, k) {
            let i = choose|i: int| 0 <= i < a.len() && #[trigger] parses_to_id(a[i], k);
            assert(a.contains(a[i]));
            let j = choose|j: int| 0 <= j < b.len() && b[j] == a[i];
            assert(raw_entry(b[j]) == raw_entry(a[i]));
        }
        if batch_has(b, k) {
            let j = choose|j: int| 0 <= j < b.len() && #[trigger] parses_to_id(b[j], k);
            assert(b.contains(b[j]));
            let i = choose|i: int| 0 <= i < a.len() && a[i] == b[j];
            assert(raw_entry(a[i]) == raw_entry(b[j]));
        }
    }
    assert forall|k: Seq<char>| ma.contains_key(k) implies mb.contains_key(k) && ma[k] == mb[k] by {
        if !m.contains_key(k) {
            let i = choose|i: int| 0 <= i < a.len() && #[trigger] raw_entry(a[i]) == Some((k, ma[k]));
            assert(parses_to_id(a[i], k));
            assert(batch_has(a, k));
            assert(batch_has(b, k));
            assert(mb.contains_key(k));
            let j = choose|j: int| 0 <= j < b.len() && #[trigger] raw_entry(b[j]) == Some((k, mb[k]));
            assert(b.contains(b[j]));
            let i2 = choose|i2: int| 0 <= i2 < a.len() && a[i2] == b[j];
            assert(raw_entry(a[i2]) == Some((k, mb[k])));
            assert(raw_entry(a[i]) == raw_entry(a[i2]));
        }
    }
    assert(ma =~= mb);
}

/// A parent that arrives after its child is joined to it: once a batch holds
/// the parent, the edge is there and the reference is no longer dangling; a
/// child whose parents are then all known is no longer an orphan.
pub proof fn lemma_late_parent_resolves(
    m: EventMap,
    raws: Seq<RawEvent>,
    child: Seq<char>,
    parent: Seq<char>,
)
    requires
        m.contains_key(child),
        m[child].prevs.contains(parent),
        batch_has(raws, parent),
    ensures
        absorb(m, raws).contains_key(parent),
        edge_set(absorb(m, raws)).contains((child, parent)),
        !tail_set(absorb(m, raws)).contains(child),
        (forall|q: Seq<char>| #[trigger] m[child].prevs.contains(q) ==> absorb(m, raws).contains_key(q))
            ==> !orphan_set(absorb(m, raws)).contains(child),
{
    lemma_absorb_keys(m, raws);
    let m2 = absorb(m, raws);
    assert(m2[child] == m[child]);
    assert(cites(m2, child, parent));
}

/// In a graph made of one chain, each event naming the one before it, the
/// newest event is the only head and the oldest the only tail; the oldest,
/// whose parents (any number of them) lie outside the chain, is an orphan
/// exactly when it names at least one.
pub proof fn lemma_chain_frontier(m: EventMap, ids: Seq<Seq<char>>, root: Seq<Seq<char>>)
    requires
        ids.len() > 0,
        ids.no_duplicates(),
        m.dom() == ids.to_set(),
        forall|i: int| 0 < i < ids.len() ==> #[trigger] m[ids[i]].prevs == seq![ids[i - 1]],
        m[ids[0]].prevs == root,
        forall|r: Seq<char>| root.contains(r) ==> !ids.contains(r),
    ensures
        head_set(m) == set![ids.last()],
        tail_set(m) == set![ids[0]],
        orphan_set(m) == (if root.len() == 0 {
            Set::<Seq<char>>::empty()
        } else {
            set![ids[0]]
        }),
{
    let n = ids.len();
    assert forall|x: Seq<char>| #[trigger] m.contains_key(x) implies exists|i: int|
        0 <= i < n && ids[i] == x by {
        assert(ids.to_set().contains(x));
    }
    assert forall|i: int| 0 <= i < n implies #[trigger] m.contains_key(ids[i]) by {
        assert(ids.to_set().contains(ids[i]));
    }
    // Who cites whom: only ids[i + 1] cites ids[i].
    assert forall|c: Seq<char>, x: Seq<char>| #[trigger] cites(m, c, x) && m.contains_key(x) implies
        exists|i: int| 1 <= i < n && #[trigger] ids[i] == c && ids[i - 1] == x by {
        let ci = choose|i: int| 0 <= i < n && ids[i] == c;
        if ci == 0 {
            assert(root.contains(x));
            let xi = choose|i: int| 0 <= i < n && ids[i] == x;
            assert(ids.contains(x));
        } else {
            assert(m[ids[ci]].prevs == seq![ids[ci - 1]]);
            assert(m[ids[ci]].prevs[0] == x);
        }
    }
    assert forall|i: int| 1 <= i < n implies #[trigger] cites(m, ids[i], ids[i - 1]) by {
        assert(m[ids[i]].prevs == seq![ids[i - 1]]);
        assert(m[ids[i]].prevs[0] == ids[i - 1]);
    }
    assert forall|x: Seq<char>| head_set(m).contains(x) <==> x == ids.last() by {
        if x == ids.last() {
            assert(m.contains_key(ids[n - 1]));
            if exists|c: Seq<char>| #[trigger] cites(m, c, x) {
                let c = choose|c: Seq<char>| #[trigger] cites(m, c, x);
                let i = choose|i: int| 1 <= i < n && #[trigger] ids[i] == c && ids[i - 1] == x;
                assert(ids[i - 1] == ids[n - 1]);
            }
        }
        if head_set(m).contains(x) && x != ids.last() {
            let i = choose|i: int| 0 <= i < n && ids[i] == x;
            assert(cites(m, ids[i + 1], ids[i]));
        }
    }
    assert forall|x: Seq<char>| tail_set(m).contains(x) <==> x == ids[0] by {
        if x == ids[0] {
            assert(m.contains_key(ids[0]));
            if exists|p: Seq<char>| #[trigger] cites(m, x, p) && m.contains_key(p) {
                let p = choose|p: Seq<char>| #[trigger] cites(m, x, p) && m.contains_key(p);
                let i = choose|i: int| 1 <= i < n && #[trigger] ids[i] == x && ids[i - 1] == p;
                assert(ids[i] == ids[0]);
            }
        }
        if tail_set(m).contains(x) && x != ids[0] {
            let i = choose|i: int| 0 <= i < n && ids[i] == x;
            assert(cites(m, ids[i], ids[i - 1]) && m.contains_key(ids[i - 1]));
        }
    }
    assert forall|x: Seq<char>| orphan_set(m).contains(x) <==> (root.len() > 0 && x == ids[0]) by {
        if root.len() > 0 && x == ids[0] {
            assert(root.contains(root[0]));
            assert(!ids.contains(root[0]));
            if m.contains_key(root[0]) {
                let i = choose|i: int| 0 <= i < n && ids[i] == root[0];
            }
            assert(cites(m, x, root[0]) && !m.contains_key(root[0]));
        }
        if orphan_set(m).contains(x) {
            let p = choose|p: Seq<char>| #[trigger] cites(m, x, p) && !m.contains_key(p);
            let i = choose|i: int| 0 <= i < n && ids[i] == x;
            if i > 0 {
                assert(m[ids[i]].prevs == seq![ids[i - 1]]);
                assert(m[ids[i]].prevs[0] == p);
            } else {
                assert(root.contains(p));
            }
        }
    }
    assert(head_set(m) =~= set![ids.last()]);
    assert(tail_set(m) =~= set![ids[0]]);
    assert(orphan_set(m) =~= (if root.len() == 0 {
        Set::<Seq<char>>::empty()
    } else {
        set![ids[0]]
    }));
}

/// Each event of the batch that is new names, among the events known before,
/// only old tails.
pub open spec fn cites_only_old_tails(m: EventMap, raws: Seq<RawEvent>) -> bool {
    forall|i: int, q: Seq<char>|
        #![trigger raw_entry(raws[i]), m.contains_key(q)]
        0 <= i < raws.len() && raw_entry(raws[i]) is Some && !m.contains_key(
            raw_entry(raws[i]).unwrap().0,
        ) && raw_entry(raws[i]).unwrap().1.prevs.contains(q) && m.contains_key(q) ==> tail_set(
            m,
        ).contains(q)
}

/// Along parent edges from an old tail, under the condition of
/// `lemma_backfill_diff_minimal`, every event is an old tail or a new event.
proof fn lemma_walk_from_tails(m: EventMap, raws: Seq<RawEvent>, p: Seq<Seq<char>>, k: int)
    requires
        cites_only_old_tails(m, raws),
        is_walk(edge_set(absorb(m, raws)), p),
        tail_set(m).contains(p[0]),
        0 <= k < p.len(),
    ensures
        tail_set(m).contains(p[k]) || (absorb(m, raws).contains_key(p[k]) && !m.contains_key(p[k])),
    decreases k,
{
    if k > 0 {
        lemma_walk_from_tails(m, raws, p, k - 1);
        lemma_absorb_keys(m, raws);
        let m1 = absorb(m, raws);
        let e = edge_set(m1);
        assert(e.contains(step(p, k - 1)));
        let a = p[k - 1];
        let b = p[k];
        assert(cites(m1, a, b) && m1.contains_key(b));
        if tail_set(m).contains(a) {
            assert(m1[a] == m[a]);
            if m.contains_key(b) {
                assert(cites(m, a, b));
            }
        } else {
            let i = choose|i: int| 0 <= i < raws.len() && #[trigger] raw_entry(raws[i]) == Some((a, m1[a]));
            if m.contains_key(b) {
                assert(tail_set(m).contains(b));
            }
        }
    }
}

/// A diff taken from the old tails after a backfill holds no event that was
/// known before the backfill, and holds every newly known event that the
/// parent edges lead to from those tails. This needs the backfilled events to
/// name, among the events known before, only old tails.
pub proof fn lemma_backfill_diff_minimal(m: EventMap, raws: Seq<RawEvent>, x: Seq<char>)
    requires
        cites_only_old_tails(m, raws),
    ensures
        older_than(absorb(m, raws), tail_set(m)).contains(x) ==> !m.contains_key(x),
        absorb(m, raws).contains_key(x) && !m.contains_key(x) && (exists|t: Seq<char>|
            tail_set(m).contains(t) && #[trigger] reaches(edge_set(absorb(m, raws)), t, x))
            ==> older_than(absorb(m, raws), tail_set(m)).contains(x),
{
    let m1 = absorb(m, raws);
    let e = edge_set(m1);
    let tails = tail_set(m);
    lemma_absorb_keys(m, raws);
    if older_than(m1, tails).contains(x) {
        let t = choose|t: Seq<char>| tails.contains(t) && m1.contains_key(t) && #[trigger] reaches(e, t, x);
        let p = choose|p: Seq<Seq<char>>| #[trigger] is_walk(e, p) && p[0] == t && p.last() == x;
        lemma_walk_from_tails(m, raws, p, p.len() - 1);
        assert(p[p.len() - 1] == x);
    }
}

/// The stored events of a room, by id.
pub type StoredEvents = Map<Seq<char>, Event>;

/// The position of the first raw event of the batch that parses and carries
/// the id `k`.
pub open spec fn first_with_id(raws: Seq<RawEvent>, k: Seq<char>) -> Option<int>
    decreases raws.len(),
{
    if raws.len() == 0 {
        None
    } else {
        match first_with_id(raws.drop_last(), k) {
            Some(i) => Some(i),
            None => if parses_to_id(raws.last(), k) {
                Some(raws.len() - 1)
            } else {
                None
            },
        }
    }
}

/// `after` is `before` once a batch is stored, first write winning: known
/// events stay as they were, each new id holds what the first raw event
/// with that id parses to, and no other id appears.
pub open spec fn stores_batch(before: StoredEvents, after: StoredEvents, raws: Seq<RawEvent>) -> bool {
    &&& forall|k: Seq<char>| #[trigger]
        after.contains_key(k) <==> before.contains_key(k) || first_with_id(raws, k) is Some
    &&& forall|k: Seq<char>| before.contains_key(k) ==> #[trigger] after[k] == before[k]
    &&& forall|k: Seq<char>|
        #[trigger] after.contains_key(k) && !before.contains_key(k) ==> parses_to(
            raws[first_with_id(raws, k).unwrap()],
            after[k],
        )
}

/// The first raw event with an id is one that carries it, and there is one
/// exactly when some raw event of the batch carries the id.
pub proof fn lemma_first_with_id(raws: Seq<RawEvent>, k: Seq<char>)
    ensures
        (first_with_id(raws, k) is Some) == (exists|j: int| 0 <= j < raws.len() && #[trigger] parses_to_id(raws[j], k)),
        first_with_id(raws, k) matches Some(i) ==> 0 <= i < raws.len() && parses_to_id(raws[i], k),
    decreases raws.len(),
{
    if raws.len() > 0 {
        let init = raws.drop_last();
        lemma_first_with_id(init, k);
        assert(raws[raws.len() - 1] == raws.last());
        if exists|j: int| 0 <= j < init.len() && #[trigger] parses_to_id(init[j], k) {
            let j = choose|j: int| 0 <= j < init.len() && #[trigger] parses_to_id(init[j], k);
            assert(raws[j] == init[j]);
        }
        if exists|j: int| 0 <= j < raws.len() && #[trigger] parses_to_id(raws[j], k) {
            let j = choose|j: int| 0 <= j < raws.len() && #[trigger] parses_to_id(raws[j], k);
            if j < raws.len() - 1 {
                assert(init[j] == raws[j]);
            }
        }
        if first_with_id(init, k) is Some {
            let i = first_with_id(init, k).unwrap();
            assert(init[i] == raws[i]);
        }
    }
}

/// Storing the same batch a second time leaves every stored event as the
/// first time left it.
pub proof fn lemma_stored_idempotent(
    s0: StoredEvents,
    s1: StoredEvents,
    s2: StoredEvents,
    raws: Seq<RawEvent>,
)
    requires
        stores_batch(s0, s1, raws),
        stores_batch(s1, s2, raws),
    ensures
        s2 == s1,
{
    assert(s2 =~= s1);
}

/// Stored events do not depend on the order of the batch, field by field,
/// provided that raw events of the batch that share an id are the same.
pub proof fn lemma_stored_order_free(
    s0: StoredEvents,
    s1: StoredEvents,
    s2: StoredEvents,
    a: Seq<RawEvent>,
    b: Seq<RawEvent>,
)
    requires
        stores_batch(s0, s1, a),
        stores_batch(s0, s2, b),
        a.to_multiset() == b.to_multiset(),
        forall|i: int, j: int, k: Seq<char>|
            0 <= i < a.len() && 0 <= j < a.len() && #[trigger] parses_to_id(a[i], k) && #[trigger]
                parses_to_id(a[j], k) ==> a[i] == a[j],
    ensures
        s1.dom() == s2.dom(),
        forall|k: Seq<char>| #[trigger] s1.contains_key(k) ==> same_fields(s1[k], s2[k]),
{
    broadcast use vstd::seq_lib::group_to_multiset_ensures;

    assert forall|x: RawEvent| a.contains(x) <==> b.contains(x) by {
        vstd::seq_lib::to_multiset_contains(a, x);
        vstd::seq_lib::to_multiset_contains(b, x);
        assert(a.to_multiset().count(x) == b.to_multiset().count(x));
    }
    assert forall|k: Seq<char>| (first_with_id(a, k) is Some) == (first_with_id(b, k) is Some) by {
        lemma_first_with_id(a, k);
        lemma_first_with_id(b, k);
        if first_with_id(a, k) is Some {
            let i = first_with_id(a, k).unwrap();
            assert(a.contains(a[i]));
            let j = choose|j: int| 0 <= j < b.len() && b[j] == a[i];
            assert(parses_to_id(b[j], k));
        }
        if first_with_id(b, k) is Some {
            let j = first_with_id(b, k).unwrap();
            assert(b.contains(b[j]));
            let i = choose|i: int| 0 <= i < a.len() && a[i] == b[j];
            assert(parses_to_id(a[i], k));
        }
    }
    assert(s1.dom() =~= s2.dom());
    assert forall|k: Seq<char>| #[trigger] s1.contains_key(k) implies same_fields(s1[k], s2[k]) by {
        if s0.contains_key(k) {
            assert(s1[k] == s0[k] && s2[k] == s0[k]);
        } else {
            lemma_first_with_id(a, k);
            lemma_first_with_id(b, k);
            let i = first_with_id(a, k).unwrap();
            let j = first_with_id(b, k).unwrap();
            assert(s2.contains_key(k));
            assert(b.contains(b[j]));
            let i2 = choose|i2: int| 0 <= i2 < a.len() && a[i2] == b[j];
            assert(parses_to_id(a[i2], k));
            assert(a[i] == a[i2]);
            lemma_parse_unique(a[i], s1[k], s2[k]);
        }
    }
}

/// A child ingested in one batch and its parent in a later one are joined:
/// after the second batch the edge is there, the child is no longer a tail,
/// and it is no longer an orphan when the parent was its only missing one.
/// The child must be new to the store when its batch comes, and every event of
/// that batch carrying the child's id must name the parent: the first event
/// stored under an id is the one kept.
pub proof fn lemma_child_then_parent(
    m: EventMap,
    first: Seq<RawEvent>,
    second: Seq<RawEvent>,
    child: Seq<char>,
    parent: Seq<char>,
)
    requires
        !m.contains_key(child),
        batch_has(first, child),
        forall|i: int|
            0 <= i < first.len() && #[trigger] parses_to_id(first[i], child) ==> raw_entry(
                first[i],
            ).unwrap().1.prevs.contains(parent),
        batch_has(second, parent),
    ensures
        absorb(absorb(m, first), second).contains_key(parent),
        edge_set(absorb(absorb(m, first), second)).contains((child, parent)),
        !tail_set(absorb(absorb(m, first), second)).contains(child),
        (forall|q: Seq<char>|
            #[trigger] absorb(m, first)[child].prevs.contains(q) ==> q == parent || absorb(m, first).contains_key(q))
            ==> !orphan_set(absorb(absorb(m, first), second)).contains(child),
{
    lemma_absorb_keys(m, first);
    let m1 = absorb(m, first);
    assert(m1.contains_key(child));
    let i = choose|i: int| 0 <= i < first.len() && #[trigger] raw_entry(first[i]) == Some((child, m1[child]));
    assert(parses_to_id(first[i], child));
    assert(m1[child].prevs.contains(parent));
    lemma_late_parent_resolves(m1, second, child, parent);
    lemma_absorb_keys(m1, second);
}

} // verus!
