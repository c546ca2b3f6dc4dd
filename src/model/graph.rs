//! The directed graph that holds the events, kept in a `petgraph` graph, and
//! what is known of the calls made on it.
use petgraph::graph::{EdgeIndex, Graph, NodeIndex};
use petgraph::visit::{Bfs, Reversed};
use petgraph::{Directed, Direction};
use vstd::prelude::*;

verus! {

#[verifier::external_type_specification]
#[verifier::external_body]
#[verifier::reject_recursive_types(N)]
#[verifier::reject_recursive_types(E)]
#[verifier::reject_recursive_types(Ty)]
#[verifier::reject_recursive_types(Ix)]
pub struct ExGraph<N, E, Ty, Ix>(Graph<N, E, Ty, Ix>);

#[verifier::external_type_specification]
#[verifier::external_body]
pub struct ExDirected(Directed);

/// The weights of the nodes of a graph, by node index.
pub uninterp spec fn graph_nodes(g: Graph<usize, (), Directed, usize>) -> Seq<usize>;

/// The edges of a graph as (source, target) pairs of node indices, by edge index.
pub uninterp spec fn graph_edges(g: Graph<usize, (), Directed, usize>) -> Seq<(usize, usize)>;

/// A walk along the edges of `e`: a non-empty sequence of nodes in which each
/// node is joined to the next by an edge.
pub open spec fn is_walk<T>(e: Set<(T, T)>, p: Seq<T>) -> bool {
    &&& p.len() > 0
    &&& forall|k: int| 0 <= k < p.len() - 1 ==> e.contains(#[trigger] step(p, k))
}

/// The pair of the `k`-th node of a walk and the one after it.
pub open spec fn step<T>(p: Seq<T>, k: int) -> (T, T) {
    (p[k], p[k + 1])
}

/// `b` can be reached from `a` along the edges of `e` (every node reaches itself).
pub open spec fn reaches<T>(e: Set<(T, T)>, a: T, b: T) -> bool {
    exists|p: Seq<T>| #[trigger] is_walk(e, p) && p[0] == a && p.last() == b
}

/// The edges of `e`, each turned around.
pub open spec fn flip<T>(e: Set<(T, T)>) -> Set<(T, T)> {
    Set::new(|x: (T, T)| e.contains((x.1, x.0)))
}

/// Turning every edge around turns every walk around.
pub proof fn lemma_flip_reaches<T>(e: Set<(T, T)>, a: T, b: T)
    ensures
        reaches(flip(e), a, b) == reaches(e, b, a),
{
    if reaches(flip(e), a, b) {
        let p = choose|p: Seq<T>| #[trigger] is_walk(flip(e), p) && p[0] == a && p.last() == b;
        let r = p.reverse();
        assert forall|k: int| 0 <= k < r.len() - 1 implies e.contains(#[trigger] step(r, k)) by {
            let j = p.len() - 2 - k;
            assert(flip(e).contains(step(p, j)));
        }
        assert(is_walk(e, r));
    }
    if reaches(e, b, a) {
        let p = choose|p: Seq<T>| #[trigger] is_walk(e, p) && p[0] == b && p.last() == a;
        let r = p.reverse();
        assert forall|k: int| 0 <= k < r.len() - 1 implies flip(e).contains(#[trigger] step(r, k)) by {
            let j = p.len() - 2 - k;
            assert(e.contains(step(p, j)));
        }
        assert(is_walk(flip(e), r));
    }
}

/// The number of edges of `e` whose source (or, with `outgoing` false, target) is `i`.
pub open spec fn degree(e: Seq<(usize, usize)>, i: usize, outgoing: bool) -> nat {
    e.filter(touches(i, outgoing)).len()
}

/// Whether an edge leaves `i` (or, with `outgoing` false, enters it).
pub open spec fn touches(i: usize, outgoing: bool) -> spec_fn((usize, usize)) -> bool {
    |x: (usize, usize)| if outgoing { x.0 == i } else { x.1 == i }
}

/// A node has no edge in a direction exactly when its degree there is zero.
pub proof fn lemma_degree_zero(e: Seq<(usize, usize)>, i: usize, outgoing: bool)
    ensures
        (degree(e, i, outgoing) == 0) == !exists|k: int|
            0 <= k < e.len() && (if outgoing {
                (#[trigger] e[k]).0 == i
            } else {
                e[k].1 == i
            }),
{
    broadcast use vstd::seq_lib::group_filter_ensures;

    let f = touches(i, outgoing);
    let sel = e.filter(f);
    if exists|k: int| 0 <= k < e.len() && (if outgoing { (#[trigger] e[k]).0 == i } else { e[k].1 == i }) {
        let k = choose|k: int| 0 <= k < e.len() && (if outgoing { (#[trigger] e[k]).0 == i } else { e[k].1 == i });
        assert(f(e[k]));
        assert(sel.contains(e[k]));
    }
    if sel.len() > 0 {
        assert(f(sel[0]));
        assert(sel.contains(sel[0]));
        e.lemma_filter_contains_rev(f, sel[0]);
        let k = choose|k: int| 0 <= k < e.len() && e[k] == sel[0];
        assert(if outgoing { e[k].0 == i } else { e[k].1 == i });
    }
}

/// Relies on petgraph's `Graph::with_capacity`: a graph with no nodes and no edges.
#[verifier::external_body]
pub(crate) fn graph_new() -> (g: Graph<usize, (), Directed, usize>)
    ensures
        graph_nodes(g) == Seq::<usize>::empty(),
        graph_edges(g) == Seq::<(usize, usize)>::empty(),
{
    Graph::with_capacity(0, 0)
}

/// Relies on petgraph's `Graph::add_node`: the node is appended, takes the next
/// index, and no edge changes. With `usize` indices it never panics.
#[verifier::external_body]
pub(crate) fn graph_add_node(g: &mut Graph<usize, (), Directed, usize>, w: usize) -> (r: usize)
    ensures
        graph_nodes(*final(g)) == graph_nodes(*old(g)).push(w),
        graph_edges(*final(g)) == graph_edges(*old(g)),
        r == graph_nodes(*old(g)).len(),
{
    g.add_node(w).index()
}

/// Relies on petgraph's `Graph::update_edge`: an edge from `a` to `b` is
/// appended unless one is already there. It panics when a node is missing.
#[verifier::external_body]
pub(crate) fn graph_update_edge(g: &mut Graph<usize, (), Directed, usize>, a: usize, b: usize)
    requires
        a < graph_nodes(*old(g)).len(),
        b < graph_nodes(*old(g)).len(),
    ensures
        graph_nodes(*final(g)) == graph_nodes(*old(g)),
        graph_edges(*final(g)) == (if graph_edges(*old(g)).contains((a, b)) {
            graph_edges(*old(g))
        } else {
            graph_edges(*old(g)).push((a, b))
        }),
{
    g.update_edge(NodeIndex::new(a), NodeIndex::new(b), ());
}

/// Relies on petgraph's `Graph::node_count`.
#[verifier::external_body]
pub(crate) fn graph_node_count(g: &Graph<usize, (), Directed, usize>) -> (r: usize)
    ensures
        r == graph_nodes(*g).len(),
{
    g.node_count()
}

/// Relies on petgraph's `Graph::edge_count`.
#[verifier::external_body]
pub(crate) fn graph_edge_count(g: &Graph<usize, (), Directed, usize>) -> (r: usize)
    ensures
        r == graph_edges(*g).len(),
{
    g.edge_count()
}

/// Relies on petgraph's `Graph::edge_endpoints`: the source and target of an edge.
#[verifier::external_body]
pub(crate) fn graph_edge_endpoints(g: &Graph<usize, (), Directed, usize>, k: usize) -> (r: Option<
    (usize, usize),
>)
    ensures
        r == (if k < graph_edges(*g).len() {
            Some(graph_edges(*g)[k as int])
        } else {
            None::<(usize, usize)>
        }),
{
    g.edge_endpoints(EdgeIndex::new(k)).map(|(a, b)| (a.index(), b.index()))
}

/// Relies on petgraph's `Graph::edges_directed`: in a directed graph it yields
/// the edges that leave `i` (`Outgoing`) or enter it (`Incoming`), each once.
#[verifier::external_body]
pub(crate) fn graph_degree(g: &Graph<usize, (), Directed, usize>, i: usize, outgoing: bool) -> (r:
    usize)
    ensures
        r == degree(graph_edges(*g), i, outgoing),
{
    let dir = if outgoing {
        Direction::Outgoing
    } else {
        Direction::Incoming
    };
    g.edges_directed(NodeIndex::new(i), dir).count()
}

/// Relies on petgraph's `Bfs`: from `start` it visits, once each, the nodes that
/// the edges lead to from it, `start` included. It panics when `start` is missing.
#[verifier::external_body]
pub(crate) fn graph_bfs(g: &Graph<usize, (), Directed, usize>, start: usize) -> (r: Vec<usize>)
    requires
        start < graph_nodes(*g).len(),
    ensures
        r@.no_duplicates(),
        forall|j: usize| r@.contains(j) <==> reaches(graph_edges(*g).to_set(), start, j),
{
    let mut bfs = Bfs::new(g, NodeIndex::new(start));
    let mut seen = Vec::new();
    while let Some(n) = bfs.next(g) {
        seen.push(n.index());
    }
    seen
}

/// Relies on petgraph's `Reversed` adaptor under `Bfs`: from `start` it visits,
/// once each, the nodes from which the edges lead to it, `start` included.
#[verifier::external_body]
pub(crate) fn graph_bfs_reversed(g: &Graph<usize, (), Directed, usize>, start: usize) -> (r: Vec<
    usize,
>)
    requires
        start < graph_nodes(*g).len(),
    ensures
        r@.no_duplicates(),
        forall|j: usize| r@.contains(j) <==> reaches(flip(graph_edges(*g).to_set()), start, j),
{
    let rev = Reversed(g);
    let mut bfs = Bfs::new(rev, NodeIndex::new(start));
    let mut seen = Vec::new();
    while let Some(n) = bfs.next(rev) {
        seen.push(n.index());
    }
    seen
}

} // verus!
