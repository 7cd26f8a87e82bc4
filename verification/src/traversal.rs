//! Reachability from a start node, by a depth-first and by a breadth-first
//! walk.

use std::collections::HashSet;
use vstd::prelude::*;

use crate::buildgraph::CitationGraph;
use crate::model::{lemma_successors_are_targets, successors, well_formed};
use crate::reach::{
    ids_of, lemma_closed_set_is_reachable, lemma_reaches_itself, lemma_reaches_onward,
    reachable_ids, reaches,
};
use crate::store::{
    bfs_marks, bfs_new, bfs_next, bfs_queue, dfs_marks, dfs_new, dfs_next, dfs_stack, graph_ids,
    graph_links, graph_node_id,
};
use crate::walk::{
    all_within, bfs_yields, dfs_yields, first_unmarked, is_marked, lemma_first_unmarked_members,
    lemma_mark_all_count, lemma_mark_one, lemma_unmarked_of_members, marked_set, unmarked_count,
    unmarked_of,
};

verus! {

broadcast use vstd::std_specs::hash::group_hash_axioms;

/// Why a traversal could not start.
#[derive(Debug, Clone, Copy, PartialEq, Eq, Structural)]
pub enum TraversalError {
    /// No node of the graph carries the identifier.
    NodeNotFound(u64),
}

impl CitationGraph {
    /// The identifiers of the nodes that can be reached from the node
    /// `start` along links, `start` among them.
    pub open spec fn reachable_from(&self, start: u64) -> Set<u64> {
        reachable_ids(self.ids(), self.links(), start)
    }

    /// Whether `r` is what a traversal from `start` returns: the set of the
    /// identifiers that can be reached from `start`, which holds `start`; or,
    /// if no node carries `start`, the error that says so.
    pub open spec fn is_traversal(
        &self,
        start: u64,
        r: Result<HashSet<u64>, TraversalError>,
    ) -> bool {
        match r {
            Ok(visited) => {
                &&& self.ids().contains(start)
                &&& visited@ == self.reachable_from(start)
                &&& visited@.contains(start)
            },
            Err(e) => !self.ids().contains(start) && e == TraversalError::NodeNotFound(start),
        }
    }

    /// The index of the node that carries `id`, if there is one.
    pub fn index_of(&self, id: u64) -> (r: Option<usize>)
        ensures
            match r {
                Some(i) => i < self.ids().len() && self.ids()[i as int] == id,
                None => !self.ids().contains(id),
            },
    {
        let count = self.node_count();
        let mut i: usize = 0;
        while i < count
            invariant
                i <= count,
                count == self.ids().len(),
                forall|j: int| 0 <= j < i ==> self.ids()[j] != id,
            decreases count - i,
        {
            if graph_node_id(&self.inner, i) == id {
                return Some(i);
            }
            i += 1;
        }
        None
    }
}

/// What holds of a depth-first walk from `start` between two steps: what is
/// marked or stacked can be reached, the start node is marked or stacked,
/// and so is the target of every link that leaves a marked node.
spec fn dfs_on_course(
    ids: Seq<u64>,
    links: Seq<(int, int)>,
    start: int,
    stack: Seq<int>,
    marks: Seq<bool>,
) -> bool {
    &&& marks.len() == ids.len()
    &&& all_within(stack, marks)
    &&& forall|i: int| 0 <= i < stack.len() ==> reaches(links, start, #[trigger] stack[i])
    &&& forall|v: int| #[trigger] is_marked(marks, v) ==> reaches(links, start, v)
    &&& is_marked(marks, start) || stack.contains(start)
    &&& forall|u: int, v: int|
        is_marked(marks, u) && #[trigger] links.contains((u, v)) ==> is_marked(marks, v)
            || stack.contains(v)
}

/// A step that yields a node keeps the walk on course, marks that node and
/// no other, and leaves one node fewer to mark.
proof fn lemma_dfs_step(
    ids: Seq<u64>,
    links: Seq<(int, int)>,
    start: int,
    stack: Seq<int>,
    marks: Seq<bool>,
    n: int,
    stack_after: Seq<int>,
    marks_after: Seq<bool>,
)
    requires
        well_formed(ids, links),
        dfs_on_course(ids, links, start, stack, marks),
        dfs_yields(stack, marks, links, n, stack_after, marks_after),
    ensures
        dfs_on_course(ids, links, start, stack_after, marks_after),
        0 <= n < ids.len(),
        marks_after == marks.update(n, true),
        unmarked_count(marks_after) < unmarked_count(marks),
{
    let k = choose|k: int|
        {
            &&& 0 <= k < stack.len()
            &&& #[trigger] stack[k] == n
            &&& 0 <= n < marks.len()
            &&& !marks[n]
            &&& forall|j: int| k < j < stack.len() ==> is_marked(marks, #[trigger] stack[j])
            &&& marks_after == marks.update(n, true)
            &&& stack_after == stack.take(k) + unmarked_of(successors(links, n), marks_after)
        };
    let next = successors(links, n);
    let pushed = unmarked_of(next, marks_after);
    lemma_successors_are_targets(links, n);
    lemma_unmarked_of_members(next, marks_after);
    lemma_mark_one(marks, n);
    assert(reaches(links, start, stack[k]));
    assert forall|i: int| 0 <= i < pushed.len() implies {
        &&& 0 <= #[trigger] pushed[i] < marks_after.len()
        &&& reaches(links, start, pushed[i])
    } by {
        assert(pushed.contains(pushed[i]));
        assert(next.contains(pushed[i]));
        assert(links.contains((n, pushed[i])));
        let j = choose|j: int| 0 <= j < links.len() && links[j] == (n, pushed[i]);
        assert(0 <= links[j].1 < ids.len());
        lemma_reaches_onward(links, start, n, pushed[i]);
    }
    assert forall|i: int| 0 <= i < stack_after.len() implies {
        &&& 0 <= #[trigger] stack_after[i] < marks_after.len()
        &&& reaches(links, start, stack_after[i])
    } by {
        if i < k {
            assert(stack_after[i] == stack[i]);
        } else {
            assert(stack_after[i] == pushed[i - k]);
        }
    }
    assert forall|v: int| #[trigger] is_marked(marks_after, v) implies reaches(links, start, v) by {
        if v != n {
            assert(is_marked(marks, v));
        }
    }
    // A stack entry is kept, or yielded, or was marked before.
    assert forall|v: int| stack.contains(v) implies is_marked(marks_after, v)
        || stack_after.contains(v) by {
        let j = choose|j: int| 0 <= j < stack.len() && stack[j] == v;
        if j < k {
            assert(stack_after[j] == v);
        } else if j > k {
            assert(is_marked(marks, stack[j]));
        }
    }
    assert forall|u: int, v: int|
        is_marked(marks_after, u) && #[trigger] links.contains((u, v)) implies is_marked(
        marks_after,
        v,
    ) || stack_after.contains(v) by {
        if u == n {
            assert(next.contains(v));
            if !is_marked(marks_after, v) {
                assert(pushed.contains(v));
                let i = choose|i: int| 0 <= i < pushed.len() && pushed[i] == v;
                assert(stack_after[k + i] == v);
            }
        } else {
            assert(is_marked(marks, u));
            if !is_marked(marks, v) {
                assert(stack.contains(v));
            }
        }
    }
}

/// Marking one more node adds its identifier to those of the marked nodes.
proof fn lemma_ids_of_marked(ids: Seq<u64>, marks: Seq<bool>, n: int)
    requires
        marks.len() == ids.len(),
        0 <= n < ids.len(),
    ensures
        ids_of(ids, marked_set(marks.update(n, true))) == ids_of(ids, marked_set(marks)).insert(
            ids[n],
        ),
{
    assert(marked_set(marks.update(n, true)) =~= marked_set(marks).insert(n));
    lemma_ids_of_insert(ids, marked_set(marks), n);
}

/// When a walk on course has no stack entry left to mark, the marked nodes
/// are the nodes that the start node reaches.
proof fn lemma_dfs_done(
    ids: Seq<u64>,
    links: Seq<(int, int)>,
    start: int,
    stack: Seq<int>,
    marks: Seq<bool>,
)
    requires
        well_formed(ids, links),
        0 <= start < ids.len(),
        dfs_on_course(ids, links, start, stack, marks),
        forall|i: int| 0 <= i < stack.len() ==> is_marked(marks, #[trigger] stack[i]),
    ensures
        ids_of(ids, marked_set(marks)) == reachable_ids(ids, links, ids[start]),
        reachable_ids(ids, links, ids[start]).contains(ids[start]),
{
    let done = marked_set(marks);
    assert forall|v: int| stack.contains(v) implies is_marked(marks, v) by {
        let i = choose|i: int| 0 <= i < stack.len() && stack[i] == v;
        assert(is_marked(marks, stack[i]));
    }
    assert forall|u: int, v: int| done.contains(u) && links.contains((u, v)) implies done.contains(
        v,
    ) by {
        assert(is_marked(marks, v) || stack.contains(v));
    }
    lemma_closed_set_is_reachable(ids, links, start, done);
    assert(done.contains(start));
}

/// The set of the identifiers of the nodes that can be reached from
/// `start_node`, found by a depth-first walk.
///
/// The walk marks each node once, so cycles and parallel links do no harm.
/// It fails if no node carries `start_node`.
pub fn dfs_traversal(graph: &CitationGraph, start_node: u64) -> (r: Result<
    HashSet<u64>,
    TraversalError,
>)
    ensures
        graph.is_traversal(start_node, r),
{
    proof {
        use_type_invariant(graph);
    }
    let start = match graph.index_of(start_node) {
        Some(i) => i,
        None => {
            return Err(TraversalError::NodeNotFound(start_node));
        },
    };
    let ghost ids = graph.ids();
    let ghost links = graph.links();
    let mut walker = dfs_new(&graph.inner, start);
    let mut visited: HashSet<u64> = HashSet::new();
    proof {
        lemma_reaches_itself(links, start as int);
        assert(dfs_stack(walker)[0] == start);
        assert(ids_of(ids, marked_set(dfs_marks(walker))) =~= Set::<u64>::empty());
    }
    loop
        invariant
            well_formed(ids, links),
            ids == graph_ids(graph.inner),
            links == graph_links(graph.inner),
            start < ids.len(),
            dfs_on_course(ids, links, start as int, dfs_stack(walker), dfs_marks(walker)),
            visited@ == ids_of(ids, marked_set(dfs_marks(walker))),
        ensures
            forall|i: int|
                0 <= i < dfs_stack(walker).len() ==> is_marked(
                    dfs_marks(walker),
                    #[trigger] dfs_stack(walker)[i],
                ),
        decreases unmarked_count(dfs_marks(walker)),
    {
        let ghost stack = dfs_stack(walker);
        let ghost marks = dfs_marks(walker);
        match dfs_next(&mut walker, &graph.inner) {
            Some(node) => {
                proof {
                    lemma_dfs_step(
                        ids,
                        links,
                        start as int,
                        stack,
                        marks,
                        node as int,
                        dfs_stack(walker),
                        dfs_marks(walker),
                    );
                    lemma_ids_of_marked(ids, marks, node as int);
                }
                let id = graph_node_id(&graph.inner, node);
                visited.insert(id);
            },
            None => {
                break ;
            },
        }
    }
    proof {
        lemma_dfs_done(ids, links, start as int, dfs_stack(walker), dfs_marks(walker));
    }
    Ok(visited)
}

/// The successors of a node of a valid graph are nodes of the graph.
proof fn lemma_successors_within(ids: Seq<u64>, links: Seq<(int, int)>, a: int, marks: Seq<bool>)
    requires
        well_formed(ids, links),
        marks.len() == ids.len(),
    ensures
        all_within(successors(links, a), marks),
{
    let next = successors(links, a);
    lemma_successors_are_targets(links, a);
    assert forall|i: int| 0 <= i < next.len() implies 0 <= #[trigger] next[i] < marks.len() by {
        assert(next.contains(next[i]));
        assert(links.contains((a, next[i])));
        let j = choose|j: int| 0 <= j < links.len() && links[j] == (a, next[i]);
        assert(0 <= links[j].1 < ids.len());
    }
}

/// What holds of a breadth-first walk from `start` between two steps, where
/// `yielded` are the nodes that it has handed out: what is marked can be
/// reached, and is either queued or yielded; the start node is marked, and
/// so is the target of every link that leaves a yielded node.
spec fn bfs_on_course(
    ids: Seq<u64>,
    links: Seq<(int, int)>,
    start: int,
    queue: Seq<int>,
    marks: Seq<bool>,
    yielded: Set<int>,
) -> bool {
    &&& marks.len() == ids.len()
    &&& forall|v: int| #[trigger] is_marked(marks, v) ==> reaches(links, start, v)
    &&& is_marked(marks, start)
    &&& forall|v: int| #[trigger] is_marked(marks, v) <==> yielded.contains(v) || queue.contains(v)
    &&& forall|u: int, v: int|
        yielded.contains(u) && #[trigger] links.contains((u, v)) ==> is_marked(marks, v)
}

/// A step that yields a node keeps the walk on course, and brings it nearer
/// to its end: what it appends to the queue it takes from the unmarked
/// nodes.
proof fn lemma_bfs_step(
    ids: Seq<u64>,
    links: Seq<(int, int)>,
    start: int,
    queue: Seq<int>,
    marks: Seq<bool>,
    yielded: Set<int>,
    n: int,
    queue_after: Seq<int>,
    marks_after: Seq<bool>,
)
    requires
        well_formed(ids, links),
        bfs_on_course(ids, links, start, queue, marks, yielded),
        bfs_yields(queue, marks, links, n, queue_after, marks_after),
    ensures
        bfs_on_course(ids, links, start, queue_after, marks_after, yielded.insert(n)),
        0 <= n < ids.len(),
        unmarked_count(marks_after) + queue_after.len() < unmarked_count(marks) + queue.len(),
{
    let next = successors(links, n);
    let added = first_unmarked(next, marks);
    let rest = queue.drop_first();
    lemma_successors_are_targets(links, n);
    lemma_successors_within(ids, links, n, marks);
    lemma_first_unmarked_members(next, marks);
    lemma_mark_all_count(next, marks);
    assert(queue.contains(queue[0]));
    assert(is_marked(marks, n));
    assert forall|v: int| is_marked(marks_after, v) <==> is_marked(marks, v) || next.contains(
        v,
    ) by {
        if next.contains(v) {
            let i = choose|i: int| 0 <= i < next.len() && next[i] == v;
            assert(0 <= next[i] < marks.len());
        }
    }
    assert forall|v: int| queue_after.contains(v) <==> rest.contains(v) || added.contains(v) by {
        if queue_after.contains(v) {
            let i = choose|i: int| 0 <= i < queue_after.len() && queue_after[i] == v;
            if i < rest.len() {
                assert(rest[i] == v);
            } else {
                assert(added[i - rest.len()] == v);
            }
        }
        if rest.contains(v) {
            let i = choose|i: int| 0 <= i < rest.len() && rest[i] == v;
            assert(queue_after[i] == v);
        }
        if added.contains(v) {
            let i = choose|i: int| 0 <= i < added.len() && added[i] == v;
            assert(queue_after[rest.len() + i] == v);
        }
    }
    assert forall|v: int| queue.contains(v) <==> rest.contains(v) || v == n by {
        if queue.contains(v) {
            let i = choose|i: int| 0 <= i < queue.len() && queue[i] == v;
            if i > 0 {
                assert(rest[i - 1] == v);
            }
        }
        if rest.contains(v) {
            let i = choose|i: int| 0 <= i < rest.len() && rest[i] == v;
            assert(queue[i + 1] == v);
        }
    }
    assert forall|v: int| #[trigger] is_marked(marks_after, v) implies reaches(links, start, v) by {
        if !is_marked(marks, v) {
            assert(links.contains((n, v)));
            lemma_reaches_onward(links, start, n, v);
        }
    }
    assert forall|v: int| #[trigger]
        is_marked(marks_after, v) <==> yielded.insert(n).contains(v) || queue_after.contains(v) by {
        if is_marked(marks, v) {
            assert(yielded.contains(v) || queue.contains(v));
        }
        if yielded.contains(v) || queue.contains(v) {
            assert(is_marked(marks, v));
        }
    }
    assert forall|u: int, v: int|
        yielded.insert(n).contains(u) && #[trigger] links.contains((u, v)) implies is_marked(
        marks_after,
        v,
    ) by {
        if u == n {
            assert(next.contains(v));
        } else {
            assert(is_marked(marks, v));
        }
    }
}

/// Once a node is yielded, its identifier is among those of the yielded
/// nodes.
proof fn lemma_ids_of_insert(ids: Seq<u64>, nodes: Set<int>, n: int)
    requires
        0 <= n < ids.len(),
    ensures
        ids_of(ids, nodes.insert(n)) == ids_of(ids, nodes).insert(ids[n]),
{
    let before = ids_of(ids, nodes);
    let after = ids_of(ids, nodes.insert(n));
    assert forall|x: u64| after.contains(x) <==> before.insert(ids[n]).contains(x) by {
        if x == ids[n] {
            assert(nodes.insert(n).contains(n));
        }
        if before.contains(x) {
            let v = choose|v: int| 0 <= v < ids.len() && nodes.contains(v) && ids[v] == x;
            assert(nodes.insert(n).contains(v));
        }
        if after.contains(x) && x != ids[n] {
            let v = choose|v: int| 0 <= v < ids.len() && nodes.insert(n).contains(v) && ids[v] == x;
            assert(nodes.contains(v));
        }
    }
    assert(after =~= before.insert(ids[n]));
}

/// When the queue of a walk on course is empty, the yielded nodes are the
/// nodes that the start node reaches.
proof fn lemma_bfs_done(
    ids: Seq<u64>,
    links: Seq<(int, int)>,
    start: int,
    marks: Seq<bool>,
    yielded: Set<int>,
)
    requires
        well_formed(ids, links),
        0 <= start < ids.len(),
        bfs_on_course(ids, links, start, Seq::<int>::empty(), marks, yielded),
    ensures
        ids_of(ids, yielded) == reachable_ids(ids, links, ids[start]),
        reachable_ids(ids, links, ids[start]).contains(ids[start]),
{
    assert forall|v: int| yielded.contains(v) <==> is_marked(marks, v) by {
        if is_marked(marks, v) {
            assert(!Seq::<int>::empty().contains(v));
        }
    }
    lemma_closed_set_is_reachable(ids, links, start, yielded);
}

/// The set of the identifiers of the nodes that can be reached from
/// `start_node`, found by a breadth-first walk.
///
/// The walk queues each node once, so cycles and parallel links do no harm.
/// It fails if no node carries `start_node`.
pub fn bfs_traversal(graph: &CitationGraph, start_node: u64) -> (r: Result<
    HashSet<u64>,
    TraversalError,
>)
    ensures
        graph.is_traversal(start_node, r),
{
    proof {
        use_type_invariant(graph);
    }
    let start = match graph.index_of(start_node) {
        Some(i) => i,
        None => {
            return Err(TraversalError::NodeNotFound(start_node));
        },
    };
    let ghost ids = graph.ids();
    let ghost links = graph.links();
    let mut walker = bfs_new(&graph.inner, start);
    let mut visited: HashSet<u64> = HashSet::new();
    let ghost mut yielded: Set<int> = Set::empty();
    proof {
        lemma_reaches_itself(links, start as int);
        assert(bfs_queue(walker)[0] == start);
        assert(ids_of(ids, yielded) =~= Set::<u64>::empty());
    }
    loop
        invariant
            well_formed(ids, links),
            ids == graph_ids(graph.inner),
            links == graph_links(graph.inner),
            start < ids.len(),
            bfs_on_course(
                ids,
                links,
                start as int,
                bfs_queue(walker),
                bfs_marks(walker),
                yielded,
            ),
            visited@ == ids_of(ids, yielded),
        ensures
            bfs_queue(walker) == Seq::<int>::empty(),
        decreases unmarked_count(bfs_marks(walker)) + bfs_queue(walker).len(),
    {
        let ghost queue = bfs_queue(walker);
        let ghost marks = bfs_marks(walker);
        proof {
            if queue.len() > 0 {
                lemma_successors_within(ids, links, queue[0], marks);
            }
        }
        match bfs_next(&mut walker, &graph.inner) {
            Some(node) => {
                proof {
                    lemma_bfs_step(
                        ids,
                        links,
                        start as int,
                        queue,
                        marks,
                        yielded,
                        node as int,
                        bfs_queue(walker),
                        bfs_marks(walker),
                    );
                    lemma_ids_of_insert(ids, yielded, node as int);
                    yielded = yielded.insert(node as int);
                }
                let id = graph_node_id(&graph.inner, node);
                visited.insert(id);
            },
            None => {
                assert(bfs_queue(walker) =~= Seq::<int>::empty());
                break ;
            },
        }
    }
    proof {
        lemma_bfs_done(ids, links, start as int, bfs_marks(walker), yielded);
    }
    Ok(visited)
}

/// A node is among those that can be reached from it.
pub proof fn lemma_start_is_reachable(graph: CitationGraph, start: u64)
    requires
        graph.ids().contains(start),
    ensures
        graph.reachable_from(start).contains(start),
{
    let ids = graph.ids();
    let a = choose|a: int| 0 <= a < ids.len() && ids[a] == start;
    lemma_reaches_itself(graph.links(), a);
    assert(0 <= a < ids.len() && 0 <= a < ids.len() && ids[a] == start && ids[a] == start
        && reaches(graph.links(), a, a));
}

/// A depth-first and a breadth-first traversal of one graph from one start
/// node give the same set, or fail alike.
pub proof fn lemma_traversals_agree(
    graph: CitationGraph,
    start: u64,
    depth_first: Result<HashSet<u64>, TraversalError>,
    breadth_first: Result<HashSet<u64>, TraversalError>,
)
    requires
        graph.is_traversal(start, depth_first),
        graph.is_traversal(start, breadth_first),
    ensures
        match (depth_first, breadth_first) {
            (Ok(d), Ok(b)) => d@ == b@ && d@.contains(start) && b@.contains(start),
            (Err(d), Err(b)) => d == b,
            _ => false,
        },
{
}

} // verus!
