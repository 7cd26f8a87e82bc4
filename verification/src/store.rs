//! The adjacency-list graph and its two traversal walkers, as the logic of
//! this crate sees them.
//!
//! Nothing in this file is proved. Each function states, over sequences that
//! stand for what a graph or a walker holds, what the source of the graph
//! crate shows of one of its functions; the proofs in the rest of the crate
//! rest on these statements.

use vstd::prelude::*;

use crate::model::successors;
use crate::walk::{all_within, bfs_yields, dfs_ends, dfs_yields};
use fixedbitset::FixedBitSet;
use petgraph::graph::{Graph, NodeIndex};
use petgraph::visit::{Bfs, Dfs};
use petgraph::Directed;

verus! {

/// `petgraph::graph::Graph`, the adjacency-list graph.
#[verifier::external_type_specification]
#[verifier::external_body]
#[verifier::reject_recursive_types(N)]
#[verifier::reject_recursive_types(E)]
#[verifier::reject_recursive_types(Ty)]
#[verifier::reject_recursive_types(Ix)]
pub struct ExGraph<N, E, Ty, Ix>(Graph<N, E, Ty, Ix>);

/// `petgraph::Directed`, the marker of a graph with directed edges.
#[verifier::external_type_specification]
#[verifier::external_body]
pub struct ExDirected(Directed);

/// `petgraph::graph::NodeIndex`, the index of a node.
#[verifier::external_type_specification]
#[verifier::external_body]
#[verifier::reject_recursive_types(Ix)]
pub struct ExNodeIndex<Ix>(NodeIndex<Ix>);

/// `fixedbitset::FixedBitSet`, in which a walker marks what it has
/// discovered.
#[verifier::external_type_specification]
#[verifier::external_body]
pub struct ExFixedBitSet(FixedBitSet);

/// `petgraph::visit::Dfs`, the depth-first walker.
#[verifier::external_type_specification]
#[verifier::external_body]
#[verifier::reject_recursive_types(N)]
#[verifier::reject_recursive_types(VM)]
pub struct ExDfs<N, VM>(Dfs<N, VM>);

/// `petgraph::visit::Bfs`, the breadth-first walker.
#[verifier::external_type_specification]
#[verifier::external_body]
#[verifier::reject_recursive_types(N)]
#[verifier::reject_recursive_types(VM)]
pub struct ExBfs<N, VM>(Bfs<N, VM>);

/// The node weights of a graph, in index order.
pub uninterp spec fn graph_ids(g: Graph<u64, (), Directed, u32>) -> Seq<u64>;

/// The edges of a graph as (source index, target index), in the order in
/// which they were added.
pub uninterp spec fn graph_links(g: Graph<u64, (), Directed, u32>) -> Seq<(int, int)>;

/// The node indices on a depth-first walker's stack, the top last.
pub uninterp spec fn dfs_stack(w: Dfs<NodeIndex<u32>, FixedBitSet>) -> Seq<int>;

/// The bit vector of a depth-first walker: one bit for each node index that
/// the walker was sized for, set once the node is discovered.
pub uninterp spec fn dfs_marks(w: Dfs<NodeIndex<u32>, FixedBitSet>) -> Seq<bool>;

/// The node indices in a breadth-first walker's queue, the front first.
pub uninterp spec fn bfs_queue(w: Bfs<NodeIndex<u32>, FixedBitSet>) -> Seq<int>;

/// The bit vector of a breadth-first walker: one bit for each node index
/// that the walker was sized for, set once the node is discovered.
pub uninterp spec fn bfs_marks(w: Bfs<NodeIndex<u32>, FixedBitSet>) -> Seq<bool>;

/// `Graph::new`: a graph without nodes or edges.
#[verifier::external_body]
pub(crate) fn graph_new() -> (g: Graph<u64, (), Directed, u32>)
    ensures
        graph_ids(g) == Seq::<u64>::empty(),
        graph_links(g) == Seq::<(int, int)>::empty(),
{
    Graph::new()
}

/// `Graph::node_count`: the number of nodes.
#[verifier::external_body]
pub(crate) fn graph_node_count(g: &Graph<u64, (), Directed, u32>) -> (n: usize)
    ensures
        n == graph_ids(*g).len(),
{
    g.node_count()
}

/// `Graph::edge_count`: the number of edges.
#[verifier::external_body]
pub(crate) fn graph_edge_count(g: &Graph<u64, (), Directed, u32>) -> (n: usize)
    ensures
        n == graph_links(*g).len(),
{
    g.edge_count()
}

/// `Graph::add_node`: appends a node with weight `id` and returns its index,
/// which is the number of nodes before the call. The edges stay as they are.
/// The graph crate panics once the 32-bit index space is used up, so the
/// caller shows that it is not.
#[verifier::external_body]
pub(crate) fn graph_add_node(g: &mut Graph<u64, (), Directed, u32>, id: u64) -> (i: usize)
    requires
        graph_ids(*old(g)).len() < u32::MAX,
    ensures
        graph_ids(*final(g)) == graph_ids(*old(g)).push(id),
        graph_links(*final(g)) == graph_links(*old(g)),
        i == graph_ids(*old(g)).len(),
{
    g.add_node(id).index()
}

/// `Graph::add_edge`: appends an edge from node `a` to node `b`. The nodes
/// stay as they are. The graph crate panics if either node is missing, or
/// once the 32-bit index space is used up, so the caller shows that neither
/// is the case.
#[verifier::external_body]
pub(crate) fn graph_add_edge(g: &mut Graph<u64, (), Directed, u32>, a: usize, b: usize)
    requires
        a < graph_ids(*old(g)).len(),
        b < graph_ids(*old(g)).len(),
        graph_links(*old(g)).len() < u32::MAX,
    ensures
        graph_ids(*final(g)) == graph_ids(*old(g)),
        graph_links(*final(g)) == graph_links(*old(g)).push((a as int, b as int)),
{
    g.add_edge(NodeIndex::new(a), NodeIndex::new(b), ());
}

/// Indexing a `Graph` by a node index: the weight of node `i`. The graph
/// crate panics if the node is missing.
#[verifier::external_body]
pub(crate) fn graph_node_id(g: &Graph<u64, (), Directed, u32>, i: usize) -> (id: u64)
    requires
        i < graph_ids(*g).len(),
    ensures
        id == graph_ids(*g)[i as int],
{
    g[NodeIndex::new(i)]
}

/// `Graph::neighbors`, counted: the iterator yields the target of each edge
/// that leaves node `i`, the most recently added edge first, so its count is
/// the number of the node's successors.
#[verifier::external_body]
pub(crate) fn graph_out_degree(g: &Graph<u64, (), Directed, u32>, i: usize) -> (d: usize)
    requires
        i < graph_ids(*g).len(),
    ensures
        d == successors(graph_links(*g), i as int).len(),
{
    g.neighbors(NodeIndex::new(i)).count()
}

/// `Dfs::new`: a walker with `start` alone on its stack and one clear bit
/// for each node of `g`.
#[verifier::external_body]
pub(crate) fn dfs_new(g: &Graph<u64, (), Directed, u32>, start: usize) -> (w: Dfs<
    NodeIndex<u32>,
    FixedBitSet,
>)
    requires
        start < graph_ids(*g).len(),
    ensures
        dfs_stack(w) == seq![start as int],
        dfs_marks(w) == Seq::new(graph_ids(*g).len(), |i: int| false),
{
    Dfs::new(g, NodeIndex::new(start))
}

/// `Dfs::next`: one step of the walk over `g`.
///
/// The walker pops entries off its stack until it finds one that is not
/// marked, and drops those that are. It marks the one it found, pushes each
/// of that node's successors that is not marked by then, in the order in
/// which `Graph::neighbors` yields them, and returns the node: this is
/// `dfs_yields`. When the stack runs out first it returns `None`: this is
/// `dfs_ends`.
///
/// The graph crate panics when it marks a node for which the bit vector has
/// no bit, so the caller shows that every stack entry has one.
#[verifier::external_body]
pub(crate) fn dfs_next(
    w: &mut Dfs<NodeIndex<u32>, FixedBitSet>,
    g: &Graph<u64, (), Directed, u32>,
) -> (r: Option<usize>)
    requires
        all_within(dfs_stack(*old(w)), dfs_marks(*old(w))),
    ensures
        match r {
            Some(n) => dfs_yields(
                dfs_stack(*old(w)),
                dfs_marks(*old(w)),
                graph_links(*g),
                n as int,
                dfs_stack(*final(w)),
                dfs_marks(*final(w)),
            ),
            None => dfs_ends(
                dfs_stack(*old(w)),
                dfs_marks(*old(w)),
                dfs_stack(*final(w)),
                dfs_marks(*final(w)),
            ),
        },
{
    w.next(g).map(|n| n.index())
}

/// `Bfs::new`: a walker with `start` alone in its queue and one bit for each
/// node of `g`, of which only that of `start` is set. The graph crate panics
/// if `start` is no node of `g`.
#[verifier::external_body]
pub(crate) fn bfs_new(g: &Graph<u64, (), Directed, u32>, start: usize) -> (w: Bfs<
    NodeIndex<u32>,
    FixedBitSet,
>)
    requires
        start < graph_ids(*g).len(),
    ensures
        bfs_queue(w) == seq![start as int],
        bfs_marks(w) == Seq::new(graph_ids(*g).len(), |i: int| i == start),
{
    Bfs::new(g, NodeIndex::new(start))
}

/// `Bfs::next`: one step of the walk over `g`.
///
/// The walker takes the node at the front of its queue, goes through that
/// node's successors in the order in which `Graph::neighbors` yields them,
/// marks each and appends it to the queue if it was not marked before, and
/// returns the node: this is `bfs_yields`. When the queue is empty it
/// returns `None` and changes nothing.
///
/// The graph crate panics when it marks a node for which the bit vector has
/// no bit, so the caller shows that every successor of the front node has
/// one.
#[verifier::external_body]
pub(crate) fn bfs_next(
    w: &mut Bfs<NodeIndex<u32>, FixedBitSet>,
    g: &Graph<u64, (), Directed, u32>,
) -> (r: Option<usize>)
    requires
        bfs_queue(*old(w)).len() > 0 ==> all_within(
            successors(graph_links(*g), bfs_queue(*old(w))[0]),
            bfs_marks(*old(w)),
        ),
    ensures
        match r {
            Some(n) => bfs_yields(
                bfs_queue(*old(w)),
                bfs_marks(*old(w)),
                graph_links(*g),
                n as int,
                bfs_queue(*final(w)),
                bfs_marks(*final(w)),
            ),
            None => {
                &&& bfs_queue(*old(w)).len() == 0
                &&& bfs_queue(*final(w)) == bfs_queue(*old(w))
                &&& bfs_marks(*final(w)) == bfs_marks(*old(w))
            },
        },
{
    w.next(g).map(|n| n.index())
}

} // verus!
