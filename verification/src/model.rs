//! The mathematical model of a graph: a sequence of node identifiers, in
//! which a node's place is its index, and a sequence of links between
//! indices, in the order in which they were added.

use vstd::prelude::*;

verus! {

/// The targets of the links that leave node `a`, the most recently added
/// link first.
pub open spec fn successors(links: Seq<(int, int)>, a: int) -> Seq<int>
    decreases links.len(),
{
    if links.len() == 0 {
        Seq::empty()
    } else {
        let earlier = successors(links.drop_last(), a);
        if links.last().0 == a {
            seq![links.last().1] + earlier
        } else {
            earlier
        }
    }
}

/// The number of links that leave node `a`, parallel links counted each.
pub open spec fn out_degree(links: Seq<(int, int)>, a: int) -> nat {
    successors(links, a).len()
}

/// What holds of every graph of this crate: no identifier stands for two
/// nodes, every link joins two nodes of the graph, and nodes and links can
/// each be counted in 32 bits.
pub open spec fn well_formed(ids: Seq<u64>, links: Seq<(int, int)>) -> bool {
    &&& ids.no_duplicates()
    &&& ids.len() <= u32::MAX
    &&& links.len() <= u32::MAX
    &&& forall|i: int|
        0 <= i < links.len() ==> 0 <= (#[trigger] links[i]).0 < ids.len() && 0 <= links[i].1
            < ids.len()
}

/// The sum of the out-degrees of the first `n` nodes.
pub open spec fn degree_sum(links: Seq<(int, int)>, n: nat) -> nat
    decreases n,
{
    if n == 0 {
        0
    } else {
        degree_sum(links, (n - 1) as nat) + out_degree(links, n - 1)
    }
}

/// The successors of a node are the targets of the links that leave it.
pub proof fn lemma_successors_are_targets(links: Seq<(int, int)>, a: int)
    ensures
        forall|b: int| successors(links, a).contains(b) <==> links.contains((a, b)),
    decreases links.len(),
{
    if links.len() > 0 {
        let earlier_links = links.drop_last();
        let earlier = successors(earlier_links, a);
        lemma_successors_are_targets(earlier_links, a);
        assert forall|b: int| successors(links, a).contains(b) <==> links.contains((a, b)) by {
            let now = successors(links, a);
            if now.contains(b) {
                let i = choose|i: int| 0 <= i < now.len() && now[i] == b;
                if links.last().0 == a {
                    if i == 0 {
                        assert(links[links.len() - 1] == (a, b));
                    } else {
                        assert(earlier[i - 1] == b);
                        assert(earlier.contains(b));
                    }
                } else {
                    assert(earlier.contains(b));
                }
                if earlier.contains(b) {
                    assert(earlier_links.contains((a, b)));
                    let j = choose|j: int|
                        0 <= j < earlier_links.len() && earlier_links[j] == (a, b);
                    assert(links[j] == (a, b));
                }
            }
            if links.contains((a, b)) {
                let j = choose|j: int| 0 <= j < links.len() && links[j] == (a, b);
                if j < links.len() - 1 {
                    assert(earlier_links[j] == (a, b));
                    assert(earlier_links.contains((a, b)));
                    assert(earlier.contains(b));
                    let i = choose|i: int| 0 <= i < earlier.len() && earlier[i] == b;
                    if links.last().0 == a {
                        assert(now[i + 1] == b);
                    } else {
                        assert(now[i] == b);
                    }
                } else {
                    assert(now[0] == b);
                }
            }
        }
    }
}

/// A node has no more successors than the graph has links.
pub proof fn lemma_out_degree_bound(links: Seq<(int, int)>, a: int)
    ensures
        out_degree(links, a) <= links.len(),
    decreases links.len(),
{
    if links.len() > 0 {
        lemma_out_degree_bound(links.drop_last(), a);
    }
}

/// In a sequence without duplicates, a value is found where it stands.
pub proof fn lemma_index_of_distinct(ids: Seq<u64>, i: int)
    requires
        ids.no_duplicates(),
        0 <= i < ids.len(),
    ensures
        ids.index_of(ids[i]) == i,
{
    let j = ids.index_of(ids[i]);
    assert(0 <= j < ids.len() && ids[j] == ids[i]);
}

/// One more link adds one to the sum of the out-degrees, if it leaves one of
/// the nodes counted.
proof fn lemma_degree_sum_push(links: Seq<(int, int)>, n: nat)
    requires
        links.len() > 0,
    ensures
        degree_sum(links, n) == degree_sum(links.drop_last(), n) + if 0 <= links.last().0 < n {
            1nat
        } else {
            0nat
        },
    decreases n,
{
    if n > 0 {
        lemma_degree_sum_push(links, (n - 1) as nat);
    }
}

proof fn lemma_degree_sum_of_none(links: Seq<(int, int)>, n: nat)
    requires
        links.len() == 0,
    ensures
        degree_sum(links, n) == 0,
    decreases n,
{
    if n > 0 {
        lemma_degree_sum_of_none(links, (n - 1) as nat);
    }
}

/// The out-degrees of the nodes of a graph add up to the number of its
/// links, where every link leaves one of the nodes.
pub proof fn lemma_degree_sum_is_link_count(links: Seq<(int, int)>, n: nat)
    requires
        forall|i: int| 0 <= i < links.len() ==> 0 <= (#[trigger] links[i]).0 < n,
    ensures
        degree_sum(links, n) == links.len(),
    decreases links.len(),
{
    if links.len() == 0 {
        lemma_degree_sum_of_none(links, n);
    } else {
        let earlier = links.drop_last();
        assert forall|i: int| 0 <= i < earlier.len() implies 0 <= (#[trigger] earlier[i]).0 < n by {
            assert(earlier[i] == links[i]);
        }
        lemma_degree_sum_is_link_count(earlier, n);
        lemma_degree_sum_push(links, n);
        assert(0 <= links[links.len() - 1].0 < n);
    }
}

} // verus!
