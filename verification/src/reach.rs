//! Reachability: which nodes a walk along links leads to.

use vstd::prelude::*;

verus! {

/// Whether `path` is a walk: a sequence of nodes, not empty, in which each
/// node has a link to the next.
pub open spec fn is_walk(links: Seq<(int, int)>, path: Seq<int>) -> bool {
    &&& path.len() > 0
    &&& forall|i: int| 0 <= i < path.len() - 1 ==> #[trigger] linked_at(links, path, i)
}

/// Whether the node at place `i` of `path` has a link to the node after it.
pub open spec fn linked_at(links: Seq<(int, int)>, path: Seq<int>, i: int) -> bool {
    links.contains((path[i], path[i + 1]))
}

/// Whether a walk leads from node `a` to node `b`. Every node reaches itself.
pub open spec fn reaches(links: Seq<(int, int)>, a: int, b: int) -> bool {
    exists|path: Seq<int>| #[trigger] is_walk(links, path) && path.first() == a && path.last() == b
}

/// The identifiers of the nodes in `nodes`.
pub open spec fn ids_of(ids: Seq<u64>, nodes: Set<int>) -> Set<u64> {
    Set::new(|id: u64| exists|v: int| 0 <= v < ids.len() && nodes.contains(v) && ids[v] == id)
}

/// The identifiers of the nodes that a walk from the node `start` leads to,
/// `start` among them. The set is empty if no node carries `start`.
pub open spec fn reachable_ids(ids: Seq<u64>, links: Seq<(int, int)>, start: u64) -> Set<u64> {
    Set::new(
        |id: u64|
            exists|a: int, b: int|
                0 <= a < ids.len() && 0 <= b < ids.len() && ids[a] == start && ids[b] == id
                    && reaches(links, a, b),
    )
}

/// Every node reaches itself.
pub proof fn lemma_reaches_itself(links: Seq<(int, int)>, a: int)
    ensures
        reaches(links, a, a),
{
    assert(is_walk(links, seq![a]));
}

/// A walk goes on along a link.
pub proof fn lemma_reaches_onward(links: Seq<(int, int)>, a: int, b: int, c: int)
    requires
        reaches(links, a, b),
        links.contains((b, c)),
    ensures
        reaches(links, a, c),
{
    let path = choose|path: Seq<int>| #[trigger]
        is_walk(links, path) && path.first() == a && path.last() == b;
    let longer = path.push(c);
    assert forall|i: int| 0 <= i < longer.len() - 1 implies #[trigger] linked_at(
        links,
        longer,
        i,
    ) by {
        if i < path.len() - 1 {
            assert(linked_at(links, path, i));
        }
    }
    assert(is_walk(links, longer));
}

proof fn lemma_walk_stays_inside(links: Seq<(int, int)>, done: Set<int>, path: Seq<int>, i: int)
    requires
        is_walk(links, path),
        done.contains(path.first()),
        forall|u: int, v: int| done.contains(u) && links.contains((u, v)) ==> done.contains(v),
        0 <= i < path.len(),
    ensures
        done.contains(path[i]),
    decreases i,
{
    if i > 0 {
        lemma_walk_stays_inside(links, done, path, i - 1);
        assert(linked_at(links, path, i - 1));
    }
}

/// A set of nodes that no link leaves holds every node that its members
/// reach.
pub proof fn lemma_closed_set_holds_reached(links: Seq<(int, int)>, done: Set<int>, a: int, b: int)
    requires
        done.contains(a),
        forall|u: int, v: int| done.contains(u) && links.contains((u, v)) ==> done.contains(v),
        reaches(links, a, b),
    ensures
        done.contains(b),
{
    let path = choose|path: Seq<int>| #[trigger]
        is_walk(links, path) && path.first() == a && path.last() == b;
    lemma_walk_stays_inside(links, done, path, path.len() - 1);
}

/// A set of nodes that holds the start node, only nodes that the start node
/// reaches, and the target of every link that leaves one of its members, is
/// the set of the nodes that the start node reaches.
pub proof fn lemma_closed_set_is_reachable(
    ids: Seq<u64>,
    links: Seq<(int, int)>,
    start: int,
    done: Set<int>,
)
    requires
        ids.no_duplicates(),
        0 <= start < ids.len(),
        done.contains(start),
        forall|v: int| done.contains(v) ==> 0 <= v < ids.len() && reaches(links, start, v),
        forall|u: int, v: int| done.contains(u) && links.contains((u, v)) ==> done.contains(v),
    ensures
        ids_of(ids, done) == reachable_ids(ids, links, ids[start]),
{
    let found = ids_of(ids, done);
    let wanted = reachable_ids(ids, links, ids[start]);
    assert forall|id: u64| found.contains(id) <==> wanted.contains(id) by {
        if found.contains(id) {
            let v = choose|v: int| 0 <= v < ids.len() && done.contains(v) && ids[v] == id;
            assert(0 <= start < ids.len() && 0 <= v < ids.len() && ids[start] == ids[start]
                && ids[v] == id && reaches(links, start, v));
        }
        if wanted.contains(id) {
            let (a, b) = choose|a: int, b: int|
                0 <= a < ids.len() && 0 <= b < ids.len() && ids[a] == ids[start] && ids[b] == id
                    && reaches(links, a, b);
            assert(a == start);
            lemma_closed_set_holds_reached(links, done, start, b);
        }
    }
    assert(found =~= wanted);
}

} // verus!
