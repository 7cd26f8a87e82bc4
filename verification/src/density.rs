//! The density of a graph, as an exact fraction.

use vstd::prelude::*;
use vstd::set_lib::{lemma_int_range, lemma_len_subset, set_int_range};

use crate::buildgraph::CitationGraph;
use crate::model::{
    degree_sum, lemma_degree_sum_is_link_count, lemma_successors_are_targets, out_degree,
    successors, well_formed,
};

verus! {

/// A density: `links` over `ordered_pairs`. The denominator is never 0.
#[derive(Debug, Clone, Copy, PartialEq, Eq, Structural)]
pub struct Density {
    /// The number of links counted.
    pub links: u64,
    /// The number of ordered pairs of distinct nodes.
    pub ordered_pairs: u64,
}

/// The number of ordered pairs of distinct nodes among `n` nodes: as many
/// links as a directed graph without parallel links and self-loops can have.
pub open spec fn ordered_pairs(n: nat) -> nat {
    (n * (n - 1)) as nat
}

/// The density of a graph with `n` nodes and `m` links: `m` over the number
/// of ordered pairs of distinct nodes, and zero where there is no such pair.
pub open spec fn density_of(n: nat, m: nat) -> Density {
    if n <= 1 {
        (Density { links: 0, ordered_pairs: 1 })
    } else {
        (Density { links: m as u64, ordered_pairs: ordered_pairs(n) as u64 })
    }
}

/// Whether no two links join the same nodes in the same direction, and no
/// link leaves and enters the same node.
pub open spec fn is_simple(links: Seq<(int, int)>) -> bool {
    &&& links.no_duplicates()
    &&& forall|i: int| 0 <= i < links.len() ==> (#[trigger] links[i]).0 != links[i].1
}

impl CitationGraph {
    /// The density of the graph. Parallel links count each, so the density
    /// of a graph that has them can be more than one.
    pub open spec fn density(&self) -> Density {
        density_of(self.ids().len(), self.links().len())
    }
}

/// The density of the graph: the number of its links over the number of
/// ordered pairs of distinct nodes. The density of a graph with no more than
/// one node is zero, whatever links it has.
pub fn calculate_graph_density(graph: &CitationGraph) -> (density: Density)
    ensures
        density == graph.density(),
        density.ordered_pairs > 0,
        graph.ids().len() <= 1 ==> density.links == 0,
        graph.ids().len() > 1 ==> density.links == graph.links().len() && density.ordered_pairs
            == graph.ids().len() * (graph.ids().len() - 1),
{
    proof {
        use_type_invariant(graph);
    }
    let node_count = graph.node_count();
    let edge_count = graph.edge_count();
    if node_count > 1 {
        let n = node_count as u64;
        assert(0 < n * (n - 1) <= 0xffff_ffff * 0xffff_fffe) by (nonlinear_arith)
            requires
                1 < n <= 0xffff_ffff,
        ;
        Density { links: edge_count as u64, ordered_pairs: n * (n - 1) }
    } else {
        Density { links: 0, ordered_pairs: 1 }
    }
}

/// The successors of a node of a simple graph are distinct nodes other than
/// the node itself.
proof fn lemma_simple_successors(links: Seq<(int, int)>, a: int)
    requires
        is_simple(links),
    ensures
        successors(links, a).no_duplicates(),
        !successors(links, a).contains(a),
    decreases links.len(),
{
    lemma_successors_are_targets(links, a);
    if links.len() > 0 {
        let earlier_links = links.drop_last();
        let earlier = successors(earlier_links, a);
        assert forall|i: int| 0 <= i < earlier_links.len() implies (#[trigger] earlier_links[i]).0
            != earlier_links[i].1 by {
            assert(earlier_links[i] == links[i]);
        }
        lemma_simple_successors(earlier_links, a);
        lemma_successors_are_targets(earlier_links, a);
        if links.last().0 == a {
            let b = links.last().1;
            if earlier.contains(b) {
                let j = choose|j: int| 0 <= j < earlier_links.len() && earlier_links[j] == (a, b);
                assert(links[j] == links[links.len() - 1]);
            }
            let now = successors(links, a);
            assert forall|i: int, j: int| 0 <= i < now.len() && 0 <= j < now.len() && i != j implies now[i]
                != now[j] by {
                if i > 0 && j > 0 {
                    assert(earlier[i - 1] != earlier[j - 1]);
                } else if i == 0 {
                    assert(earlier.contains(earlier[j - 1]));
                } else {
                    assert(earlier.contains(earlier[i - 1]));
                }
            }
        }
    }
    if successors(links, a).contains(a) {
        let j = choose|j: int| 0 <= j < links.len() && links[j] == (a, a);
        assert(links[j].0 == links[j].1);
    }
}

/// A node of a simple graph with `n` nodes has fewer than `n` successors.
proof fn lemma_simple_out_degree(ids: Seq<u64>, links: Seq<(int, int)>, a: int)
    requires
        well_formed(ids, links),
        is_simple(links),
        0 <= a < ids.len(),
    ensures
        out_degree(links, a) <= ids.len() - 1,
{
    let next = successors(links, a);
    lemma_simple_successors(links, a);
    lemma_successors_are_targets(links, a);
    let others = set_int_range(0, ids.len() as int).remove(a);
    lemma_int_range(0, ids.len() as int);
    assert forall|v: int| next.to_set().contains(v) implies others.contains(v) by {
        assert(links.contains((a, v)));
        let j = choose|j: int| 0 <= j < links.len() && links[j] == (a, v);
        assert(0 <= links[j].1 < ids.len());
    }
    next.unique_seq_to_set();
    lemma_len_subset(next.to_set(), others);
}

/// The out-degrees of the first `m` nodes of a simple graph with `n` nodes
/// add up to no more than `m` times `n - 1`.
proof fn lemma_simple_degree_sum(ids: Seq<u64>, links: Seq<(int, int)>, m: nat)
    requires
        well_formed(ids, links),
        is_simple(links),
        m <= ids.len(),
    ensures
        degree_sum(links, m) <= m * (ids.len() - 1),
    decreases m,
{
    if m > 0 {
        lemma_simple_degree_sum(ids, links, (m - 1) as nat);
        lemma_simple_out_degree(ids, links, m - 1);
        assert(m * (ids.len() - 1) == (m - 1) * (ids.len() - 1) + (ids.len() - 1))
            by (nonlinear_arith);
    } else {
        assert(0 * (ids.len() - 1) == 0) by (nonlinear_arith);
    }
}

/// The density of a simple graph with more than one node is no more than
/// one: it has no more links than ordered pairs of distinct nodes.
pub proof fn lemma_simple_density_at_most_one(graph: CitationGraph)
    requires
        graph.wf(),
        is_simple(graph.links()),
        graph.ids().len() > 1,
    ensures
        graph.links().len() <= ordered_pairs(graph.ids().len()),
        graph.density().links <= graph.density().ordered_pairs,
{
    let n = graph.ids().len();
    lemma_simple_degree_sum(graph.ids(), graph.links(), n);
    lemma_degree_sum_is_link_count(graph.links(), n);
    assert(0 < n * (n - 1) <= 0xffff_ffff * 0xffff_fffe) by (nonlinear_arith)
        requires
            1 < n <= 0xffff_ffff,
    ;
}

/// The density of a graph with no more than one node is zero.
pub proof fn lemma_small_graph_density_is_zero(graph: CitationGraph)
    requires
        graph.ids().len() <= 1,
    ensures
        graph.density().links == 0,
{
}

} // verus!
