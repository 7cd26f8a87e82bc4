//! The graph type of this crate and its construction from an edge list.

use std::collections::HashMap;
use vstd::prelude::*;

use crate::model::well_formed;
use crate::store::{
    graph_add_edge, graph_add_node, graph_edge_count, graph_ids, graph_links, graph_new,
    graph_node_count,
};
use petgraph::graph::Graph;
use petgraph::Directed;

verus! {

broadcast use vstd::std_specs::hash::group_hash_axioms;

/// The endpoints of an edge list in reading order: of each edge its source,
/// then its target.
pub open spec fn endpoints(edges: Seq<(u64, u64)>) -> Seq<u64>
    decreases edges.len(),
{
    if edges.len() == 0 {
        Seq::empty()
    } else {
        endpoints(edges.drop_last()).push(edges.last().0).push(edges.last().1)
    }
}

/// The distinct values of `s`, each at the place where it occurs first.
pub open spec fn first_occurrences(s: Seq<u64>) -> Seq<u64>
    decreases s.len(),
{
    if s.len() == 0 {
        Seq::empty()
    } else {
        let before = first_occurrences(s.drop_last());
        if before.contains(s.last()) {
            before
        } else {
            before.push(s.last())
        }
    }
}

/// Whether `links` joins, edge by edge, the nodes that carry the identifiers
/// of `edges`.
pub open spec fn links_follow(links: Seq<(int, int)>, ids: Seq<u64>, edges: Seq<(u64, u64)>) -> bool {
    &&& links.len() == edges.len()
    &&& forall|i: int|
        0 <= i < links.len() ==> {
            &&& 0 <= (#[trigger] links[i]).0 < ids.len()
            &&& 0 <= links[i].1 < ids.len()
            &&& ids[links[i].0] == edges[i].0
            &&& ids[links[i].1] == edges[i].1
        }
}

/// Appending a value to a sequence appends it to the distinct values, unless
/// it is among them already.
pub proof fn lemma_first_occurrences_push(s: Seq<u64>, x: u64)
    ensures
        first_occurrences(s.push(x)) == if first_occurrences(s).contains(x) {
            first_occurrences(s)
        } else {
            first_occurrences(s).push(x)
        },
{
    assert(s.push(x).drop_last() =~= s);
}

/// The distinct values of a sequence are distinct, and they are the values
/// of the sequence.
pub proof fn lemma_first_occurrences_distinct(s: Seq<u64>)
    ensures
        first_occurrences(s).no_duplicates(),
        first_occurrences(s).len() <= s.len(),
        forall|x: u64| first_occurrences(s).contains(x) <==> s.contains(x),
    decreases s.len(),
{
    if s.len() > 0 {
        let t = s.drop_last();
        lemma_first_occurrences_distinct(t);
        let before = first_occurrences(t);
        assert forall|x: u64| first_occurrences(s).contains(x) <==> s.contains(x) by {
            if s.contains(x) {
                let i = choose|i: int| 0 <= i < s.len() && s[i] == x;
                if i < s.len() - 1 {
                    assert(t[i] == x);
                    assert(t.contains(x));
                    assert(before.contains(x));
                    let j = choose|j: int| 0 <= j < before.len() && before[j] == x;
                    assert(first_occurrences(s)[j] == x);
                } else if !before.contains(x) {
                    assert(first_occurrences(s)[before.len() as int] == x);
                }
            }
            if first_occurrences(s).contains(x) {
                let j = choose|j: int|
                    0 <= j < first_occurrences(s).len() && first_occurrences(s)[j] == x;
                if j < before.len() {
                    assert(before[j] == x);
                    assert(before.contains(x));
                    assert(t.contains(x));
                    let i = choose|i: int| 0 <= i < t.len() && t[i] == x;
                    assert(s[i] == x);
                } else {
                    assert(s[s.len() - 1] == x);
                }
            }
        }
    }
}

/// Reading one more edge appends its source and its target to the endpoints.
pub proof fn lemma_endpoints_take(edges: Seq<(u64, u64)>, i: int)
    requires
        0 <= i < edges.len(),
    ensures
        endpoints(edges.take(i + 1)) == endpoints(edges.take(i)).push(edges[i].0).push(edges[i].1),
        endpoints(edges.take(i + 1)).len() == 2 * (i + 1),
    decreases i,
{
    assert(edges.take(i + 1).drop_last() =~= edges.take(i));
    if i > 0 {
        lemma_endpoints_take(edges, i - 1);
    }
}

/// An edge list has no more distinct identifiers than twice its edges.
pub proof fn lemma_distinct_ids_bound(edges: Seq<(u64, u64)>)
    ensures
        first_occurrences(endpoints(edges)).len() <= 2 * edges.len(),
{
    if edges.len() > 0 {
        lemma_endpoints_take(edges, edges.len() - 1);
        assert(edges.take(edges.len() as int) =~= edges);
    }
    lemma_first_occurrences_distinct(endpoints(edges));
}

/// A directed graph over nodes that are known by a 64-bit identifier.
///
/// Each identifier stands for one node, and a node's index is its place in
/// the order in which the identifiers were first seen. Parallel links and
/// links from a node to itself are kept as they come. A graph is built once,
/// by `build_graph`, and only read afterwards.
pub struct CitationGraph {
    pub(crate) inner: Graph<u64, (), Directed, u32>,
}

impl CitationGraph {
    /// The identifiers of the nodes, in index order.
    pub open(crate) spec fn ids(&self) -> Seq<u64> {
        graph_ids(self.inner)
    }

    /// The links as (source index, target index), in the order in which they
    /// were added.
    pub open(crate) spec fn links(&self) -> Seq<(int, int)> {
        graph_links(self.inner)
    }

    /// The validity of a graph. It holds of every graph that a program holds.
    pub open spec fn wf(&self) -> bool {
        well_formed(self.ids(), self.links())
    }

    #[verifier::type_invariant]
    pub(crate) open(crate) spec fn inv(&self) -> bool {
        self.wf()
    }

    /// The number of nodes.
    pub fn node_count(&self) -> (n: usize)
        ensures
            n == self.ids().len(),
    {
        graph_node_count(&self.inner)
    }

    /// The number of links.
    pub fn edge_count(&self) -> (n: usize)
        ensures
            n == self.links().len(),
    {
        graph_edge_count(&self.inner)
    }
}

/// Whether `indices` maps each identifier in `ids`, and no other, to its
/// place in `ids`.
spec fn places(indices: Map<u64, usize>, ids: Seq<u64>) -> bool {
    &&& forall|id: u64| indices.contains_key(id) <==> ids.contains(id)
    &&& forall|id: u64| #[trigger]
        indices.contains_key(id) ==> indices[id] < ids.len() && ids[indices[id] as int] == id
}

/// The index of the node that carries `id`: the one on record in `indices`,
/// or that of a node added for it.
fn index_of_id(
    graph: &mut Graph<u64, (), Directed, u32>,
    indices: &mut HashMap<u64, usize>,
    id: u64,
) -> (i: usize)
    requires
        places(old(indices)@, graph_ids(*old(graph))),
        graph_ids(*old(graph)).contains(id) || graph_ids(*old(graph)).len() < u32::MAX,
    ensures
        places(final(indices)@, graph_ids(*final(graph))),
        graph_links(*final(graph)) == graph_links(*old(graph)),
        graph_ids(*final(graph)) == if graph_ids(*old(graph)).contains(id) {
            graph_ids(*old(graph))
        } else {
            graph_ids(*old(graph)).push(id)
        },
        i < graph_ids(*final(graph)).len(),
        graph_ids(*final(graph))[i as int] == id,
{
    let found = indices.get(&id);
    match found {
        Some(i) => *i,
        None => {
            let ghost before = graph_ids(*graph);
            let i = graph_add_node(graph, id);
            indices.insert(id, i);
            proof {
                let after = graph_ids(*graph);
                assert(after[i as int] == id);
                assert forall|x: u64| indices@.contains_key(x) <==> after.contains(x) by {
                    if before.contains(x) {
                        let j = choose|j: int| 0 <= j < before.len() && before[j] == x;
                        assert(after[j] == x);
                    }
                    if after.contains(x) && x != id {
                        let j = choose|j: int| 0 <= j < after.len() && after[j] == x;
                        assert(before[j] == x);
                    }
                }
            }
            i
        },
    }
}

/// Builds the graph of an edge list.
///
/// The nodes are the distinct identifiers of the list, indexed in the order
/// in which they are first seen, the source of an edge before its target.
/// Each edge of the list becomes one link, in order; parallel edges and
/// self-loops are kept.
///
/// Nodes and links are indexed in 32 bits, so neither the identifiers nor
/// the edges may be more than `u32::MAX`.
pub fn build_graph(edges: &[(u64, u64)]) -> (g: CitationGraph)
    requires
        edges@.len() <= u32::MAX,
        first_occurrences(endpoints(edges@)).len() <= u32::MAX,
    ensures
        g.wf(),
        g.ids() == first_occurrences(endpoints(edges@)),
        links_follow(g.links(), g.ids(), edges@),
{
    let mut graph = graph_new();
    let mut indices: HashMap<u64, usize> = HashMap::new();
    let mut n: usize = 0;
    assert(edges@.take(0) =~= Seq::<(u64, u64)>::empty());
    while n < edges.len()
        invariant
            n <= edges.len(),
            edges@.len() <= u32::MAX,
            first_occurrences(endpoints(edges@)).len() <= u32::MAX,
            graph_ids(graph) == first_occurrences(endpoints(edges@.take(n as int))),
            places(indices@, graph_ids(graph)),
            links_follow(graph_links(graph), graph_ids(graph), edges@.take(n as int)),
        decreases edges.len() - n,
    {
        let (from, to) = edges[n];
        proof {
            let seen = endpoints(edges@.take(n as int));
            lemma_endpoints_take(edges@, n as int);
            lemma_first_occurrences_push(seen, from);
            lemma_first_occurrences_push(seen.push(from), to);
            lemma_prefix_is_shorter(edges@, n as int + 1);
            lemma_first_occurrences_distinct(seen);
            lemma_first_occurrences_distinct(seen.push(from));
            lemma_first_occurrences_distinct(seen.push(from).push(to));
        }
        let ghost links_before = graph_links(graph);
        let ghost ids_before = graph_ids(graph);
        let a = index_of_id(&mut graph, &mut indices, from);
        let b = index_of_id(&mut graph, &mut indices, to);
        graph_add_edge(&mut graph, a, b);
        proof {
            let ids = graph_ids(graph);
            let links = graph_links(graph);
            let read = edges@.take(n as int + 1);
            assert(read[n as int] == edges@[n as int]);
            assert forall|i: int| 0 <= i < links.len() implies {
                &&& 0 <= (#[trigger] links[i]).0 < ids.len()
                &&& 0 <= links[i].1 < ids.len()
                &&& ids[links[i].0] == read[i].0
                &&& ids[links[i].1] == read[i].1
            } by {
                if i < n {
                    assert(links[i] == links_before[i]);
                    assert(read[i] == edges@.take(n as int)[i]);
                    assert(ids[links[i].0] == ids_before[links[i].0]);
                    assert(ids[links[i].1] == ids_before[links[i].1]);
                }
            }
        }
        n += 1;
    }
    proof {
        assert(edges@.take(n as int) =~= edges@);
        lemma_first_occurrences_distinct(endpoints(edges@));
    }
    CitationGraph { inner: graph }
}

/// The distinct endpoints of the first `n` edges are no more than those of
/// the whole list.
proof fn lemma_prefix_is_shorter(edges: Seq<(u64, u64)>, n: int)
    requires
        0 <= n <= edges.len(),
    ensures
        first_occurrences(endpoints(edges.take(n))).len() <= first_occurrences(
            endpoints(edges),
        ).len(),
    decreases edges.len() - n,
{
    if n < edges.len() {
        lemma_prefix_is_shorter(edges, n + 1);
        lemma_endpoints_take(edges, n);
        let seen = endpoints(edges.take(n));
        lemma_first_occurrences_push(seen, edges[n].0);
        lemma_first_occurrences_push(seen.push(edges[n].0), edges[n].1);
    } else {
        assert(edges.take(n) =~= edges);
    }
}

} // verus!
