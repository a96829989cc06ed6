//! The precedence graph: a `daggy::Dag` whose nodes are operator names and
//! whose edges mean "binds tighter than", together with the theory of
//! reachability that the rest of the crate reasons with.
//!
//! Nothing in the `Dag` is visible to the verifier. Its contents are named by
//! [`graph_names`] and [`graph_edges`], and each call into it goes through one
//! function of this module whose contract is taken on trust from the source of
//! `daggy` and `petgraph`.
use daggy::petgraph::algo::dijkstra;
use daggy::petgraph::visit::IntoNodeIdentifiers;
use daggy::Dag;
use daggy::NodeIndex;
use daggy::WouldCycle;
use std::collections::HashMap;
use vstd::prelude::*;

verus! {

/// The largest number of nodes, and of edges, that a graph indexed by `u32`
/// can hold.
pub const INDEX_LIMIT: usize = 0xFFFF_FFFF;

// ---------------------------------------------------------------------------
// Walks and reachability
// ---------------------------------------------------------------------------
/// Whether `edges` holds an edge from `u` to `v`.
pub open spec fn has_edge(edges: Seq<(int, int)>, u: int, v: int) -> bool {
    edges.contains((u, v))
}

/// Whether the `k`-th step of `walk` follows an edge.
pub open spec fn step_follows(edges: Seq<(int, int)>, walk: Seq<int>, k: int) -> bool {
    has_edge(edges, walk[k], walk[k + 1])
}

/// A walk is a non-empty sequence of nodes in which each node is joined to
/// the next by an edge. A single node is a walk of no steps.
pub open spec fn is_walk(edges: Seq<(int, int)>, walk: Seq<int>) -> bool {
    &&& walk.len() >= 1
    &&& forall|k: int| 0 <= k < walk.len() - 1 ==> #[trigger] step_follows(edges, walk, k)
}

/// Whether a walk leads from `from` to `to`. Every node reaches itself.
pub open spec fn reaches(edges: Seq<(int, int)>, from: int, to: int) -> bool {
    exists|walk: Seq<int>| #[trigger]
        is_walk(edges, walk) && walk.first() == from && walk.last() == to
}

/// No walk of one step or more returns to where it began.
pub open spec fn acyclic(edges: Seq<(int, int)>) -> bool {
    forall|walk: Seq<int>| #[trigger]
        is_walk(edges, walk) && walk.len() >= 2 ==> walk.first() != walk.last()
}

/// Every edge joins two of the first `n` nodes.
pub open spec fn edges_within(edges: Seq<(int, int)>, n: int) -> bool {
    forall|k: int|
        0 <= k < edges.len() ==> 0 <= (#[trigger] edges[k]).0 < n && 0 <= edges[k].1 < n
}

/// A walk that ends where another begins can be continued by it.
pub proof fn lemma_walk_join(edges: Seq<(int, int)>, p: Seq<int>, q: Seq<int>)
    requires
        is_walk(edges, p),
        is_walk(edges, q),
        p.last() == q.first(),
    ensures
        is_walk(edges, p + q.drop_first()),
        (p + q.drop_first()).first() == p.first(),
        (p + q.drop_first()).last() == q.last(),
        (p + q.drop_first()).len() == p.len() + q.len() - 1,
{
    let w = p + q.drop_first();
    assert forall|k: int| 0 <= k < w.len() - 1 implies #[trigger] step_follows(edges, w, k) by {
        if k < p.len() - 1 {
            assert(step_follows(edges, p, k));
        } else if k == p.len() - 1 {
            assert(step_follows(edges, q, 0));
        } else {
            assert(step_follows(edges, q, k - p.len() + 1));
        }
    }
}

/// Reachability is transitive.
pub proof fn lemma_reaches_transitive(edges: Seq<(int, int)>, a: int, b: int, c: int)
    requires
        reaches(edges, a, b),
        reaches(edges, b, c),
    ensures
        reaches(edges, a, c),
{
    let p = choose|walk: Seq<int>| #[trigger]
        is_walk(edges, walk) && walk.first() == a && walk.last() == b;
    let q = choose|walk: Seq<int>| #[trigger]
        is_walk(edges, walk) && walk.first() == b && walk.last() == c;
    lemma_walk_join(edges, p, q);
    assert(is_walk(edges, p + q.drop_first()));
}

/// Every node reaches itself.
pub proof fn lemma_reaches_self(edges: Seq<(int, int)>, a: int)
    ensures
        reaches(edges, a, a),
{
    let w = seq![a];
    assert(is_walk(edges, w));
}

/// An edge is a walk of one step.
pub proof fn lemma_edge_reaches(edges: Seq<(int, int)>, u: int, v: int)
    requires
        has_edge(edges, u, v),
    ensures
        reaches(edges, u, v),
{
    let w = seq![u, v];
    assert forall|k: int| 0 <= k < w.len() - 1 implies #[trigger] step_follows(edges, w, k) by {
        assert(w[0] == u && w[1] == v);
    }
    assert(is_walk(edges, w));
}

/// A walk stays a walk when edges are added.
pub proof fn lemma_walk_in_larger(small: Seq<(int, int)>, large: Seq<(int, int)>, walk: Seq<int>)
    requires
        is_walk(small, walk),
        forall|u: int, v: int| has_edge(small, u, v) ==> has_edge(large, u, v),
    ensures
        is_walk(large, walk),
{
    assert forall|k: int| 0 <= k < walk.len() - 1 implies #[trigger] step_follows(
        large,
        walk,
        k,
    ) by {
        assert(step_follows(small, walk, k));
    }
}

/// A walk of one step or more leaves its first node by an edge and enters
/// its last node by an edge, so both lie on edges.
pub proof fn lemma_walk_ends_on_edges(edges: Seq<(int, int)>, n: int, walk: Seq<int>)
    requires
        is_walk(edges, walk),
        walk.len() >= 2,
        edges_within(edges, n),
    ensures
        0 <= walk.first() < n,
        0 <= walk.last() < n,
{
    assert(step_follows(edges, walk, 0));
    let i = choose|i: int| 0 <= i < edges.len() && edges[i] == (walk[0], walk[1]);
    assert(edges[i].0 == walk[0]);
    let m = walk.len() - 2;
    assert(step_follows(edges, walk, m));
    let j = choose|j: int| 0 <= j < edges.len() && edges[j] == (walk[m], walk[m + 1]);
    assert(edges[j].1 == walk.last());
}

/// Two different nodes of which one reaches the other both lie on edges.
pub proof fn lemma_reaches_within(edges: Seq<(int, int)>, n: int, a: int, b: int)
    requires
        reaches(edges, a, b),
        a != b,
        edges_within(edges, n),
    ensures
        0 <= a < n,
        0 <= b < n,
{
    let w = choose|walk: Seq<int>| #[trigger]
        is_walk(edges, walk) && walk.first() == a && walk.last() == b;
    lemma_walk_ends_on_edges(edges, n, w);
}

/// What a walk can reach once the edge `a -> b` is added: either what it
/// reached before, or it goes to `a` and on from `b`.
pub proof fn lemma_walk_over_new_edge(edges: Seq<(int, int)>, a: int, b: int, walk: Seq<int>)
    requires
        is_walk(edges.push((a, b)), walk),
    ensures
        reaches(edges, walk.first(), walk.last()) || (reaches(edges, walk.first(), a) && reaches(
            edges,
            b,
            walk.last(),
        )),
    decreases walk.len(),
{
    let more = edges.push((a, b));
    if walk.len() == 1 {
        lemma_reaches_self(edges, walk.first());
    } else {
        let m = walk.len() - 2;
        let front = walk.drop_last();
        assert forall|k: int| 0 <= k < front.len() - 1 implies #[trigger] step_follows(
            more,
            front,
            k,
        ) by {
            assert(step_follows(more, walk, k));
        }
        lemma_walk_over_new_edge(edges, a, b, front);
        assert(front.first() == walk.first());
        assert(front.last() == walk[m]);
        assert(step_follows(more, walk, m));
        let i = choose|i: int| 0 <= i < more.len() && more[i] == (walk[m], walk[m + 1]);
        if i < edges.len() {
            assert(edges[i] == more[i]);
            assert(has_edge(edges, walk[m], walk.last()));
            lemma_edge_reaches(edges, walk[m], walk.last());
            if reaches(edges, walk.first(), walk[m]) {
                lemma_reaches_transitive(edges, walk.first(), walk[m], walk.last());
            } else {
                lemma_reaches_transitive(edges, b, walk[m], walk.last());
            }
        } else {
            assert(walk[m] == a && walk.last() == b);
            lemma_reaches_self(edges, b);
            if !reaches(edges, walk.first(), a) {
                // The front went to `a` and on from `b` to `a`.
                assert(reaches(edges, walk.first(), a));
            }
        }
    }
}

/// Adding the edge `a -> b` adds to what a node reaches only what lies
/// beyond `b`, and only for the nodes that reach `a`.
pub proof fn lemma_reaches_over_new_edge(edges: Seq<(int, int)>, a: int, b: int, x: int, y: int)
    ensures
        reaches(edges.push((a, b)), x, y) <==> reaches(edges, x, y) || (reaches(edges, x, a)
            && reaches(edges, b, y)),
{
    let more = edges.push((a, b));
    assert forall|u: int, v: int| has_edge(edges, u, v) implies has_edge(more, u, v) by {
        let i = choose|i: int| 0 <= i < edges.len() && edges[i] == (u, v);
        assert(more[i] == (u, v));
    }
    if reaches(more, x, y) {
        let w = choose|walk: Seq<int>| #[trigger]
            is_walk(more, walk) && walk.first() == x && walk.last() == y;
        lemma_walk_over_new_edge(edges, a, b, w);
    }
    if reaches(edges, x, y) {
        let w = choose|walk: Seq<int>| #[trigger]
            is_walk(edges, walk) && walk.first() == x && walk.last() == y;
        lemma_walk_in_larger(edges, more, w);
    }
    if reaches(edges, x, a) && reaches(edges, b, y) {
        let p = choose|walk: Seq<int>| #[trigger]
            is_walk(edges, walk) && walk.first() == x && walk.last() == a;
        let q = choose|walk: Seq<int>| #[trigger]
            is_walk(edges, walk) && walk.first() == b && walk.last() == y;
        lemma_walk_in_larger(edges, more, p);
        lemma_walk_in_larger(edges, more, q);
        assert(more[edges.len() as int] == (a, b));
        assert(has_edge(more, a, b));
        lemma_edge_reaches(more, a, b);
        assert(reaches(more, x, a));
        assert(reaches(more, b, y));
        lemma_reaches_transitive(more, x, a, b);
        lemma_reaches_transitive(more, x, b, y);
    }
}

/// In an acyclic graph a walk there and a walk back are both of no steps.
pub proof fn lemma_no_way_back(edges: Seq<(int, int)>, p: Seq<int>, q: Seq<int>)
    requires
        acyclic(edges),
        is_walk(edges, p),
        is_walk(edges, q),
        p.last() == q.first(),
        q.last() == p.first(),
    ensures
        p.len() == 1,
        q.len() == 1,
{
    lemma_walk_join(edges, p, q);
    let w = p + q.drop_first();
    assert(is_walk(edges, w));
}

/// An acyclic graph stays acyclic when it gains an edge `a -> b` such that
/// `b` does not reach `a`.
pub proof fn lemma_new_edge_keeps_acyclic(edges: Seq<(int, int)>, a: int, b: int)
    requires
        acyclic(edges),
        !reaches(edges, b, a),
    ensures
        acyclic(edges.push((a, b))),
{
    let more = edges.push((a, b));
    assert forall|walk: Seq<int>| #[trigger] is_walk(more, walk) && walk.len() >= 2 implies walk.first()
        != walk.last() by {
        if walk.first() == walk.last() {
            let x = walk.first();
            let m = walk.len() - 2;
            let front = walk.drop_last();
            assert forall|k: int| 0 <= k < front.len() - 1 implies #[trigger] step_follows(
                more,
                front,
                k,
            ) by {
                assert(step_follows(more, walk, k));
            }
            assert(is_walk(more, front));
            assert(front.first() == x && front.last() == walk[m]);
            lemma_reaches_over_new_edge(edges, a, b, x, walk[m]);
            assert(step_follows(more, walk, m));
            let i = choose|i: int| 0 <= i < more.len() && more[i] == (walk[m], walk[m + 1]);
            if i < edges.len() {
                assert(edges[i] == more[i]);
                assert(has_edge(edges, walk[m], x));
                let last_step = seq![walk[m], x];
                assert forall|k: int| 0 <= k < last_step.len() - 1 implies #[trigger] step_follows(
                    edges,
                    last_step,
                    k,
                ) by {
                    assert(last_step[0] == walk[m] && last_step[1] == x);
                }
                assert(is_walk(edges, last_step));
                if reaches(edges, x, walk[m]) {
                    let p = choose|w: Seq<int>| #[trigger]
                        is_walk(edges, w) && w.first() == x && w.last() == walk[m];
                    lemma_no_way_back(edges, p, last_step);
                } else {
                    lemma_edge_reaches(edges, walk[m], x);
                    lemma_reaches_transitive(edges, b, walk[m], x);
                    lemma_reaches_transitive(edges, b, x, a);
                }
            } else {
                assert(walk[m] == a && x == b);
            }
        }
    }
}

/// In an acyclic graph, of two different nodes at most one reaches the other.
pub proof fn lemma_reaches_one_way(edges: Seq<(int, int)>, x: int, y: int)
    requires
        acyclic(edges),
        x != y,
    ensures
        !(reaches(edges, x, y) && reaches(edges, y, x)),
{
    if reaches(edges, x, y) && reaches(edges, y, x) {
        let p = choose|walk: Seq<int>| #[trigger]
            is_walk(edges, walk) && walk.first() == x && walk.last() == y;
        let q = choose|walk: Seq<int>| #[trigger]
            is_walk(edges, walk) && walk.first() == y && walk.last() == x;
        assert(p.len() >= 2);
        lemma_no_way_back(edges, p, q);
    }
}

/// A graph without edges is acyclic, and in it a node reaches only itself.
pub proof fn lemma_no_edges(from: int, to: int)
    ensures
        acyclic(Seq::<(int, int)>::empty()),
        reaches(Seq::<(int, int)>::empty(), from, to) <==> from == to,
{
    let none = Seq::<(int, int)>::empty();
    assert forall|walk: Seq<int>| #[trigger] is_walk(none, walk) implies walk.len() < 2 by {
        if walk.len() >= 2 {
            assert(step_follows(none, walk, 0));
        }
    }
    lemma_reaches_self(none, from);
    if reaches(none, from, to) {
        let w = choose|walk: Seq<int>| #[trigger]
            is_walk(none, walk) && walk.first() == from && walk.last() == to;
        assert(w.len() == 1);
    }
}

// ---------------------------------------------------------------------------
// The graph and the calls into it
// ---------------------------------------------------------------------------
/// A directed graph of operator names, kept acyclic by `daggy`.
///
/// The verifier does not look inside: what the graph holds is what
/// [`graph_names`] and [`graph_edges`] say of it.
#[verifier::external_body]
pub struct OrderGraph {
    dag: Dag<String, (), u32>,
}

/// The names on the nodes of `graph`, by node index.
pub uninterp spec fn graph_names(graph: OrderGraph) -> Seq<Seq<char>>;

/// The edges of `graph`, by edge index, each as the indices of the node it
/// leaves and of the node it enters.
pub uninterp spec fn graph_edges(graph: OrderGraph) -> Seq<(int, int)>;

/// The error with which `daggy` refuses an edge that would close a cycle.
#[verifier::external_type_specification]
#[verifier::external_body]
#[verifier::reject_recursive_types(E)]
pub struct ExWouldCycle<E>(WouldCycle<E>);

/// Calls `Dag::new`. Trusted: the new graph has no node and no edge.
#[verifier::external_body]
pub(crate) fn graph_new() -> (graph: OrderGraph)
    ensures
        graph_names(graph) == Seq::<Seq<char>>::empty(),
        graph_edges(graph) == Seq::<(int, int)>::empty(),
{
    OrderGraph { dag: Dag::new() }
}

/// Calls `Dag::node_count`. Trusted: it is the number of nodes.
#[verifier::external_body]
pub(crate) fn graph_node_count(graph: &OrderGraph) -> (count: usize)
    ensures
        count == graph_names(*graph).len(),
{
    graph.dag.node_count()
}

/// Calls `Dag::edge_count`. Trusted: it is the number of edges.
#[verifier::external_body]
pub(crate) fn graph_edge_count(graph: &OrderGraph) -> (count: usize)
    ensures
        count == graph_edges(*graph).len(),
{
    graph.dag.edge_count()
}

/// Calls `node_identifiers` on the `Dag`. Trusted: it yields the node
/// indices in rising order, from zero up to the number of nodes.
#[verifier::external_body]
pub(crate) fn graph_node_identifiers(graph: &OrderGraph) -> (ids: Vec<usize>)
    ensures
        ids@.len() == graph_names(*graph).len(),
        forall|k: int| 0 <= k < ids@.len() ==> #[trigger] ids@[k] == k,
{
    graph.dag.node_identifiers().map(|id| id.index()).collect()
}

/// Indexes the `Dag` by a node index. Trusted: the result is the name on
/// that node. The index must be that of a node, or the call panics.
#[verifier::external_body]
pub(crate) fn graph_node_name(graph: &OrderGraph, node: usize) -> (name: &String)
    requires
        node < graph_names(*graph).len(),
    ensures
        name@ == graph_names(*graph)[node as int],
{
    &graph.dag[NodeIndex::new(node)]
}

/// Calls `Dag::add_node`. Trusted: the node is added after all others, with
/// the given name and no edge, and its index is returned. The graph must be
/// below the limit of its index type, or the call panics.
#[verifier::external_body]
pub(crate) fn graph_add_node(graph: &mut OrderGraph, name: String) -> (node: usize)
    requires
        graph_names(*old(graph)).len() < INDEX_LIMIT,
    ensures
        graph_names(*final(graph)) == graph_names(*old(graph)).push(name@),
        graph_edges(*final(graph)) == graph_edges(*old(graph)),
        node == graph_names(*old(graph)).len(),
{
    graph.dag.add_node(name).index()
}

/// Calls `Dag::update_edge` with the unit weight. Trusted:
///
/// - where the graph holds an edge `a -> b`, nothing changes and the index
///   of such an edge is returned;
/// - else, where `b` reaches `a` (as it does when they are one node), the
///   edge would close a cycle: nothing changes and the error is returned;
/// - else the edge is added after all others and its index is returned.
///
/// The nodes are never touched. Both indices must be those of nodes and the
/// graph must be below the limit of its index type, or the call panics.
#[verifier::external_body]
pub(crate) fn graph_update_edge(graph: &mut OrderGraph, a: usize, b: usize) -> (added: Result<
    usize,
    WouldCycle<()>,
>)
    requires
        a < graph_names(*old(graph)).len(),
        b < graph_names(*old(graph)).len(),
        graph_edges(*old(graph)).len() < INDEX_LIMIT,
    ensures
        graph_names(*final(graph)) == graph_names(*old(graph)),
        has_edge(graph_edges(*old(graph)), a as int, b as int) ==> {
            &&& added is Ok
            &&& graph_edges(*final(graph)) == graph_edges(*old(graph))
            &&& added->Ok_0 < graph_edges(*old(graph)).len()
            &&& graph_edges(*old(graph))[added->Ok_0 as int] == (a as int, b as int)
        },
        !has_edge(graph_edges(*old(graph)), a as int, b as int) && reaches(
            graph_edges(*old(graph)),
            b as int,
            a as int,
        ) ==> {
            &&& added is Err
            &&& graph_edges(*final(graph)) == graph_edges(*old(graph))
        },
        !has_edge(graph_edges(*old(graph)), a as int, b as int) && !reaches(
            graph_edges(*old(graph)),
            b as int,
            a as int,
        ) ==> {
            &&& added == Ok::<usize, WouldCycle<()>>(graph_edges(*old(graph)).len() as usize)
            &&& graph_edges(*final(graph)) == graph_edges(*old(graph)).push((a as int, b as int))
        },
{
    graph.dag.update_edge(NodeIndex::new(a), NodeIndex::new(b), ()).map(|edge| edge.index())
}

/// The cost that the search puts on every edge.
pub(crate) fn unit_cost() -> (cost: u64)
    ensures
        cost == 1,
{
    1
}

/// Calls `petgraph::algo::dijkstra` from `from` with the goal `to` and a
/// cost of one on every edge, and hands back the costs it found, keyed by
/// node index. Trusted: `to` has a cost exactly where `from` reaches it (the
/// search stops once it has the goal's cost, so other nodes may be missing).
/// Both indices must be those of nodes.
#[verifier::external_body]
pub(crate) fn graph_path_costs(graph: &OrderGraph, from: usize, to: usize) -> (costs: HashMap<
    usize,
    u64,
>)
    requires
        from < graph_names(*graph).len(),
        to < graph_names(*graph).len(),
    ensures
        costs@.contains_key(to) <==> reaches(graph_edges(*graph), from as int, to as int),
{
    let found = dijkstra(&graph.dag, NodeIndex::new(from), Some(NodeIndex::new(to)), |_| unit_cost());
    found.into_iter().map(|(node, cost)| (node.index(), cost)).collect()
}

} // verus!
