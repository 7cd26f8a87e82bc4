//! Out-degree centrality, and the nodes that rank highest by it.

use std::collections::HashMap;
use vstd::prelude::*;
use vstd::set::fold::is_fun_commutative;

use crate::buildgraph::CitationGraph;
use crate::model::{
    degree_sum, lemma_degree_sum_is_link_count, lemma_index_of_distinct, lemma_out_degree_bound,
    out_degree, well_formed,
};
use crate::store::{graph_ids, graph_links, graph_node_id, graph_out_degree};

verus! {

broadcast use vstd::std_specs::hash::group_hash_axioms;

/// The out-degree of each node, by the node's identifier.
pub open spec fn degree_map(ids: Seq<u64>, links: Seq<(int, int)>) -> Map<u64, usize> {
    Map::new(
        |id: u64| ids.contains(id),
        |id: u64| out_degree(links, ids.index_of(id)) as usize,
    )
}

/// The step of a sum over the values of `degrees`.
pub open spec fn add_degree(degrees: Map<u64, usize>) -> spec_fn(int, u64) -> int {
    |sum: int, id: u64| sum + degrees[id]
}

/// The sum of the values of `degrees`.
pub open spec fn total_degree(degrees: Map<u64, usize>) -> int {
    degrees.dom().fold(0int, add_degree(degrees))
}

/// The values of the degree map over the first `n` identifiers add up to
/// the out-degrees of the first `n` nodes.
proof fn lemma_total_of_prefix(ids: Seq<u64>, links: Seq<(int, int)>, n: nat)
    requires
        well_formed(ids, links),
        n <= ids.len(),
    ensures
        ids.take(n as int).to_set().finite(),
        ids.take(n as int).to_set().fold(0int, add_degree(degree_map(ids, links))) == degree_sum(
            links,
            n,
        ),
    decreases n,
{
    broadcast use vstd::set::fold::lemma_fold_insert, vstd::set::fold::lemma_fold_empty;

    let step = add_degree(degree_map(ids, links));
    if n == 0 {
        assert(ids.take(0).to_set() =~= Set::<u64>::empty());
    } else {
        let shorter = ids.take(n - 1);
        let longer = ids.take(n as int);
        let fewer = shorter.to_set();
        let id = ids[n - 1];
        lemma_total_of_prefix(ids, links, (n - 1) as nat);
        assert(!fewer.contains(id)) by {
            if shorter.contains(id) {
                let j = choose|j: int| 0 <= j < shorter.len() && shorter[j] == id;
                assert(ids[j] == ids[n - 1]);
            }
        }
        assert(longer.to_set() =~= fewer.insert(id)) by {
            assert forall|x: u64| longer.to_set().contains(x) <==> fewer.insert(id).contains(
                x,
            ) by {
                if longer.contains(x) {
                    let j = choose|j: int| 0 <= j < longer.len() && longer[j] == x;
                    if j < n - 1 {
                        assert(shorter[j] == x);
                    }
                }
                if shorter.contains(x) {
                    let j = choose|j: int| 0 <= j < shorter.len() && shorter[j] == x;
                    assert(longer[j] == x);
                }
                if x == id {
                    assert(longer[n - 1] == x);
                }
            }
        }
        assert(is_fun_commutative(step));
        assert(fewer.insert(id).fold(0int, step) == step(fewer.fold(0int, step), id));
        lemma_index_of_distinct(ids, n - 1);
        lemma_out_degree_bound(links, n - 1);
        assert(ids.contains(id));
    }
}

/// The values of the degree map of a valid graph add up to the number of
/// its links.
pub proof fn lemma_total_degree(ids: Seq<u64>, links: Seq<(int, int)>)
    requires
        well_formed(ids, links),
    ensures
        total_degree(degree_map(ids, links)) == links.len(),
{
    lemma_total_of_prefix(ids, links, ids.len());
    assert(ids.take(ids.len() as int) =~= ids);
    assert(degree_map(ids, links).dom() =~= ids.to_set());
    lemma_degree_sum_is_link_count(links, ids.len());
}

impl CitationGraph {
    /// The out-degree of each node, by the node's identifier. A node without
    /// outgoing links has degree 0; links that come in are not counted.
    pub open spec fn degree_centrality(&self) -> Map<u64, usize> {
        degree_map(self.ids(), self.links())
    }
}

/// The out-degree of every node of the graph: the number of links that
/// leave it, parallel links counted each.
pub fn compute_degree_centrality(graph: &CitationGraph) -> (centrality: HashMap<u64, usize>)
    ensures
        centrality@ == graph.degree_centrality(),
{
    proof {
        use_type_invariant(graph);
    }
    let ghost ids = graph.ids();
    let ghost links = graph.links();
    let count = graph.node_count();
    let mut centrality: HashMap<u64, usize> = HashMap::new();
    let mut node: usize = 0;
    while node < count
        invariant
            node <= count,
            count == ids.len(),
            ids == graph_ids(graph.inner),
            links == graph_links(graph.inner),
            well_formed(ids, links),
            forall|id: u64|
                centrality@.contains_key(id) <==> exists|j: int| 0 <= j < node && ids[j] == id,
            forall|j: int|
                0 <= j < node ==> centrality@[#[trigger] ids[j]] == out_degree(links, j),
        decreases count - node,
    {
        let id = graph_node_id(&graph.inner, node);
        let degree = graph_out_degree(&graph.inner, node);
        let ghost before = centrality@;
        centrality.insert(id, degree);
        proof {
            assert forall|x: u64|
                centrality@.contains_key(x) <==> exists|j: int|
                    0 <= j < node + 1 && ids[j] == x by {
                if x == id {
                    assert(ids[node as int] == x);
                }
                if before.contains_key(x) {
                    let j = choose|j: int| 0 <= j < node && ids[j] == x;
                    assert(0 <= j < node + 1 && ids[j] == x);
                }
            }
            assert forall|j: int| 0 <= j < node + 1 implies centrality@[#[trigger] ids[j]]
                == out_degree(links, j) by {
                if j < node {
                    assert(ids[j] != ids[node as int]);
                }
            }
        }
        node += 1;
    }
    proof {
        let wanted = degree_map(ids, links);
        assert forall|id: u64| centrality@.contains_key(id) <==> wanted.contains_key(id) by {
            if ids.contains(id) {
                let j = choose|j: int| 0 <= j < ids.len() && ids[j] == id;
                assert(0 <= j < node && ids[j] == id);
            }
        }
        assert forall|id: u64| centrality@.contains_key(id) implies centrality@[id] == wanted[id] by {
            let j = choose|j: int| 0 <= j < node && ids[j] == id;
            lemma_index_of_distinct(ids, j);
            lemma_out_degree_bound(links, j);
            assert(centrality@[ids[j]] == out_degree(links, j));
        }
        assert(centrality@ =~= wanted);
    }
    centrality
}

/// The degree map has, for the identifier of each node, the number of that
/// node's successors.
pub proof fn lemma_degree_of_node(graph: CitationGraph, node: int)
    requires
        graph.wf(),
        0 <= node < graph.ids().len(),
    ensures
        graph.degree_centrality().contains_key(graph.ids()[node]),
        graph.degree_centrality()[graph.ids()[node]] == out_degree(graph.links(), node),
{
    lemma_index_of_distinct(graph.ids(), node);
    lemma_out_degree_bound(graph.links(), node);
    assert(graph.ids().contains(graph.ids()[node]));
}

/// The out-degrees of a graph add up to the number of its links.
pub proof fn lemma_degrees_sum_to_edge_count(graph: CitationGraph)
    requires
        graph.wf(),
    ensures
        total_degree(graph.degree_centrality()) == graph.links().len(),
{
    lemma_total_degree(graph.ids(), graph.links());
}

/// Whether entry `a` ranks before entry `b`, an entry being an identifier
/// with its degree: the greater degree ranks first, and of two equal degrees
/// the smaller identifier.
pub open spec fn outranks(a: (u64, usize), b: (u64, usize)) -> bool {
    a.1 > b.1 || (a.1 == b.1 && a.0 < b.0)
}

/// The entry of node `j`: its identifier with its out-degree.
pub open spec fn entry(ids: Seq<u64>, links: Seq<(int, int)>, j: int) -> (u64, usize) {
    (ids[j], out_degree(links, j) as usize)
}

/// Whether `top` holds the `k` entries that rank first among those of the
/// first `n` nodes, or all of them if they are fewer, the first in rank
/// first: its entries are entries of those nodes and stand in rank order,
/// and an entry that it leaves out ranks after each of its `k` entries.
pub open spec fn ranks_first(
    ids: Seq<u64>,
    links: Seq<(int, int)>,
    k: nat,
    n: int,
    top: Seq<(u64, usize)>,
) -> bool {
    &&& top.len() == if k <= n { k as int } else { n }
    &&& forall|a: int|
        0 <= a < top.len() ==> exists|j: int| 0 <= j < n && #[trigger] top[a] == entry(ids, links, j)
    &&& forall|a: int, b: int| 0 <= a < b < top.len() ==> outranks(top[a], top[b])
    &&& forall|j: int|
        0 <= j < n ==> top.contains(#[trigger] entry(ids, links, j)) || top.len() == k
    &&& forall|j: int, a: int|
        0 <= j < n && 0 <= a < top.len() ==> top.contains(#[trigger] entry(ids, links, j))
            || outranks(#[trigger] top[a], entry(ids, links, j))
}

impl CitationGraph {
    /// Whether `top` holds the `k` entries of the graph that rank first, or
    /// all of them if the graph has fewer nodes, the first in rank first.
    pub open spec fn is_top_k(&self, k: nat, top: Seq<(u64, usize)>) -> bool {
        ranks_first(self.ids(), self.links(), k, self.ids().len() as int, top)
    }
}

/// Whether entry `a` ranks before entry `b`.
fn ranks_before(a: (u64, usize), b: (u64, usize)) -> (r: bool)
    ensures
        r == outranks(a, b),
{
    a.1 > b.1 || (a.1 == b.1 && a.0 < b.0)
}

/// `top` with the entry `e` put in at place `p`, cut back to `k` entries; or
/// `top` as it is, if `p` is no place among the first `k`.
spec fn with_entry(top: Seq<(u64, usize)>, k: nat, p: int, e: (u64, usize)) -> Seq<(u64, usize)> {
    if p < k {
        let grown = top.insert(p, e);
        if grown.len() > k {
            grown.drop_last()
        } else {
            grown
        }
    } else {
        top
    }
}

/// Putting the entry of node `n` in at its place in rank gives the entries
/// that rank first among those of the first `n + 1` nodes.
proof fn lemma_with_entry_ranks_first(
    ids: Seq<u64>,
    links: Seq<(int, int)>,
    k: nat,
    n: int,
    top: Seq<(u64, usize)>,
    p: int,
)
    requires
        ids.no_duplicates(),
        0 <= n < ids.len(),
        ranks_first(ids, links, k, n, top),
        0 <= p <= top.len(),
        forall|a: int| p <= a < top.len() ==> outranks(entry(ids, links, n), #[trigger] top[a]),
        p > 0 ==> !outranks(entry(ids, links, n), top[p - 1]),
    ensures
        ranks_first(ids, links, k, n + 1, with_entry(top, k, p, entry(ids, links, n))),
{
    let e = entry(ids, links, n);
    let kept = with_entry(top, k, p, e);
    // Every entry before place `p` ranks before `e`.
    assert forall|a: int| 0 <= a < p implies outranks(#[trigger] top[a], e) by {
        let j = choose|j: int| 0 <= j < n && top[a] == entry(ids, links, j);
        assert(ids[j] != ids[n]);
        if a < p - 1 {
            assert(outranks(top[a], top[p - 1]));
        }
    }
    if p < k {
        let grown = top.insert(p, e);
        assert(grown.len() == top.len() + 1);
        assert(grown[p] == e);
        assert forall|a: int| 0 <= a < p implies #[trigger] grown[a] == top[a] by {}
        assert forall|a: int| p < a < grown.len() implies #[trigger] grown[a] == top[a - 1] by {}
        assert forall|a: int, b: int| 0 <= a < b < grown.len() implies outranks(
            grown[a],
            grown[b],
        ) by {
            if a < p && b > p {
                assert(outranks(top[a], top[b - 1]));
            } else if a > p {
                assert(outranks(top[a - 1], top[b - 1]));
            } else if a == p {
                assert(outranks(e, top[b - 1]));
            } else if b == p {
                assert(outranks(top[a], e));
            } else {
                assert(outranks(top[a], top[b]));
            }
        }
        assert forall|a: int| 0 <= a < grown.len() implies exists|j: int|
            0 <= j < n + 1 && #[trigger] grown[a] == entry(ids, links, j) by {
            if a == p {
                assert(0 <= n < n + 1 && grown[a] == entry(ids, links, n));
            } else {
                let b = if a < p {
                    a
                } else {
                    a - 1
                };
                let j = choose|j: int| 0 <= j < n && top[b] == entry(ids, links, j);
                assert(0 <= j < n + 1 && grown[a] == entry(ids, links, j));
            }
        }
        assert forall|x: (u64, usize)| top.contains(x) implies grown.contains(x) by {
            let a = choose|a: int| 0 <= a < top.len() && top[a] == x;
            if a < p {
                assert(grown[a] == x);
            } else {
                assert(grown[a + 1] == x);
            }
        }
        assert forall|j: int| 0 <= j < n + 1 implies grown.contains(
            #[trigger] entry(ids, links, j),
        ) || top.len() == k by {
            if j == n {
                assert(grown[p] == entry(ids, links, j));
            }
        }
        assert forall|j: int, a: int| 0 <= j < n + 1 && 0 <= a < grown.len() implies grown.contains(
            #[trigger] entry(ids, links, j),
        ) || outranks(#[trigger] grown[a], entry(ids, links, j)) by {
            let x = entry(ids, links, j);
            if j == n {
                assert(grown[p] == x);
            } else if !top.contains(x) {
                // The entries are `k` by now, so there is one at place `p`.
                assert(top.len() == k);
                assert(outranks(top[p], x));
                if a < p {
                    assert(outranks(top[a], x));
                } else if a > p {
                    assert(outranks(top[a - 1], x));
                }
            }
        }
        if grown.len() > k {
            assert forall|a: int| 0 <= a < kept.len() implies #[trigger] kept[a] == grown[a] by {}
            assert forall|j: int, a: int|
                0 <= j < n + 1 && 0 <= a < kept.len() implies kept.contains(
                #[trigger] entry(ids, links, j),
            ) || outranks(#[trigger] kept[a], entry(ids, links, j)) by {
                let x = entry(ids, links, j);
                if grown.contains(x) {
                    let b = choose|b: int| 0 <= b < grown.len() && grown[b] == x;
                    if b < kept.len() {
                        assert(kept[b] == x);
                    } else {
                        assert(outranks(grown[a], grown[b]));
                    }
                } else {
                    assert(outranks(grown[a], x));
                }
            }
            assert forall|a: int| 0 <= a < kept.len() implies exists|j: int|
                0 <= j < n + 1 && #[trigger] kept[a] == entry(ids, links, j) by {
                let j = choose|j: int| 0 <= j < n + 1 && grown[a] == entry(ids, links, j);
                assert(0 <= j < n + 1 && kept[a] == entry(ids, links, j));
            }
            assert forall|a: int, b: int| 0 <= a < b < kept.len() implies outranks(
                kept[a],
                kept[b],
            ) by {
                assert(outranks(grown[a], grown[b]));
            }
        }
    } else {
        assert forall|j: int, a: int| 0 <= j < n + 1 && 0 <= a < top.len() implies top.contains(
            #[trigger] entry(ids, links, j),
        ) || outranks(#[trigger] top[a], entry(ids, links, j)) by {
            if j == n {
                assert(outranks(top[a], e));
            }
        }
        assert forall|a: int| 0 <= a < top.len() implies exists|j: int|
            0 <= j < n + 1 && #[trigger] top[a] == entry(ids, links, j) by {
            let j = choose|j: int| 0 <= j < n && top[a] == entry(ids, links, j);
            assert(0 <= j < n + 1 && top[a] == entry(ids, links, j));
        }
    }
}

/// The `k` nodes with the most outgoing links, or all nodes if the graph has
/// fewer, each with its out-degree, the highest degree first. Of two nodes
/// with the same degree the one with the smaller identifier comes first.
///
/// The time taken grows with `k` times the number of nodes.
pub fn top_k_highly_connected_nodes(graph: &CitationGraph, k: usize) -> (top: Vec<(u64, usize)>)
    ensures
        graph.is_top_k(k as nat, top@),
{
    proof {
        use_type_invariant(graph);
    }
    let ghost ids = graph.ids();
    let ghost links = graph.links();
    let count = graph.node_count();
    let mut top: Vec<(u64, usize)> = Vec::new();
    let mut node: usize = 0;
    while node < count
        invariant
            node <= count,
            count == ids.len(),
            ids == graph_ids(graph.inner),
            links == graph_links(graph.inner),
            well_formed(ids, links),
            ranks_first(ids, links, k as nat, node as int, top@),
        decreases count - node,
    {
        let id = graph_node_id(&graph.inner, node);
        let degree = graph_out_degree(&graph.inner, node);
        let e = (id, degree);
        proof {
            lemma_out_degree_bound(links, node as int);
        }
        let mut p: usize = top.len();
        while p > 0 && ranks_before(e, top[p - 1])
            invariant
                p <= top.len(),
                forall|a: int| p <= a < top.len() ==> outranks(e, #[trigger] top@[a]),
            decreases p,
        {
            p -= 1;
        }
        let ghost before = top@;
        if p < k {
            top.insert(p, e);
            if top.len() > k {
                top.pop();
            }
        }
        proof {
            lemma_with_entry_ranks_first(ids, links, k as nat, node as int, before, p as int);
            assert(top@ =~= with_entry(before, k as nat, p as int, e));
        }
        node += 1;
    }
    top
}

/// The ten nodes with the most outgoing links, as
/// `top_k_highly_connected_nodes` gives them.
pub fn top_10_highly_connected_nodes(graph: &CitationGraph) -> (top: Vec<(u64, usize)>)
    ensures
        graph.is_top_k(10, top@),
{
    top_k_highly_connected_nodes(graph, 10)
}

/// The nodes that rank first are `k`, or all nodes if the graph has fewer,
/// and their degrees never rise from one to the next.
pub proof fn lemma_top_k_size_and_order(graph: CitationGraph, k: nat, top: Seq<(u64, usize)>)
    requires
        graph.is_top_k(k, top),
    ensures
        top.len() == if k <= graph.ids().len() { k } else { graph.ids().len() },
        forall|a: int, b: int| 0 <= a < b < top.len() ==> top[a].1 >= top[b].1,
{
    assert forall|a: int, b: int| 0 <= a < b < top.len() implies top[a].1 >= top[b].1 by {
        assert(outranks(top[a], top[b]));
    }
}

/// Each of the nodes that rank first stands with its degree: the value that
/// the degree map has for it.
pub proof fn lemma_top_k_degrees(graph: CitationGraph, k: nat, top: Seq<(u64, usize)>, a: int)
    requires
        graph.wf(),
        graph.is_top_k(k, top),
        0 <= a < top.len(),
    ensures
        graph.degree_centrality().contains_key(top[a].0),
        graph.degree_centrality()[top[a].0] == top[a].1,
{
    let ids = graph.ids();
    let j = choose|j: int| 0 <= j < ids.len() && top[a] == entry(ids, graph.links(), j);
    lemma_index_of_distinct(ids, j);
    assert(ids.contains(ids[j]));
}

/// Where two rankings of the same nodes agree up to a place and differ at
/// it, the entry of the second ranks before that of the first.
proof fn lemma_other_ranks_before(
    ids: Seq<u64>,
    links: Seq<(int, int)>,
    k: nat,
    n: int,
    one: Seq<(u64, usize)>,
    other: Seq<(u64, usize)>,
    a: int,
)
    requires
        ranks_first(ids, links, k, n, one),
        ranks_first(ids, links, k, n, other),
        0 <= a < one.len(),
        forall|b: int| 0 <= b < a ==> one[b] == other[b],
        one[a] != other[a],
    ensures
        outranks(other[a], one[a]),
{
    let j = choose|j: int| 0 <= j < n && one[a] == entry(ids, links, j);
    assert(other.contains(entry(ids, links, j)) || outranks(other[a], entry(ids, links, j)));
    if other.contains(one[a]) {
        let b = choose|b: int| 0 <= b < other.len() && other[b] == one[a];
        if b < a {
            assert(outranks(one[b], one[a]));
        } else {
            assert(outranks(other[a], other[b]));
        }
    }
}

/// Two rankings of the same nodes agree up to every place.
proof fn lemma_same_up_to(
    ids: Seq<u64>,
    links: Seq<(int, int)>,
    k: nat,
    n: int,
    one: Seq<(u64, usize)>,
    other: Seq<(u64, usize)>,
    m: int,
)
    requires
        ranks_first(ids, links, k, n, one),
        ranks_first(ids, links, k, n, other),
        0 <= m <= one.len(),
    ensures
        forall|b: int| 0 <= b < m ==> one[b] == other[b],
    decreases m,
{
    if m > 0 {
        lemma_same_up_to(ids, links, k, n, one, other, m - 1);
        if one[m - 1] != other[m - 1] {
            lemma_other_ranks_before(ids, links, k, n, one, other, m - 1);
            lemma_other_ranks_before(ids, links, k, n, other, one, m - 1);
        }
    }
}

/// The nodes that rank first are determined: no graph has two such lists
/// for one `k`.
pub proof fn lemma_top_k_is_unique(
    graph: CitationGraph,
    k: nat,
    one: Seq<(u64, usize)>,
    other: Seq<(u64, usize)>,
)
    requires
        graph.is_top_k(k, one),
        graph.is_top_k(k, other),
    ensures
        one == other,
{
    lemma_same_up_to(graph.ids(), graph.links(), k, graph.ids().len() as int, one, other, one.len() as int);
    assert(one =~= other);
}

} // verus!
