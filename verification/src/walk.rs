//! The model of a traversal walker: the nodes that wait on its stack or in
//! its queue, a bit vector that marks the nodes it has discovered, and what
//! one step does to both.

use vstd::prelude::*;

use crate::model::successors;

verus! {

/// Whether node `v` is marked in the bit vector `marks`. A position outside
/// the vector counts as unmarked.
pub open spec fn is_marked(marks: Seq<bool>, v: int) -> bool {
    0 <= v < marks.len() && marks[v]
}

/// Whether every entry of `s` is a position of `marks`.
pub open spec fn all_within(s: Seq<int>, marks: Seq<bool>) -> bool {
    forall|i: int| 0 <= i < s.len() ==> 0 <= #[trigger] s[i] < marks.len()
}

/// The entries of `s` that are unmarked in `marks`, in their order in `s`.
pub open spec fn unmarked_of(s: Seq<int>, marks: Seq<bool>) -> Seq<int>
    decreases s.len(),
{
    if s.len() == 0 {
        Seq::empty()
    } else {
        let before = unmarked_of(s.drop_last(), marks);
        if is_marked(marks, s.last()) {
            before
        } else {
            before.push(s.last())
        }
    }
}

/// `marks` with every position that occurs in `s` marked as well.
pub open spec fn mark_all(marks: Seq<bool>, s: Seq<int>) -> Seq<bool> {
    Seq::new(marks.len(), |i: int| marks[i] || s.contains(i))
}

/// The entries of `s` that are unmarked in `marks`, in their order in `s`,
/// each one kept where it occurs first and dropped where it occurs again.
pub open spec fn first_unmarked(s: Seq<int>, marks: Seq<bool>) -> Seq<int>
    decreases s.len(),
{
    if s.len() == 0 {
        Seq::empty()
    } else {
        let before = first_unmarked(s.drop_last(), marks);
        if is_marked(marks, s.last()) || s.drop_last().contains(s.last()) {
            before
        } else {
            before.push(s.last())
        }
    }
}

/// One step of a depth-first walker that yields node `n`.
///
/// The walker pops its stack down to the topmost unmarked entry, which is
/// `n` at position `k`; it marks `n`, and pushes the successors of `n` that
/// are still unmarked, in successor order.
pub open spec fn dfs_yields(
    stack: Seq<int>,
    marks: Seq<bool>,
    links: Seq<(int, int)>,
    n: int,
    stack_after: Seq<int>,
    marks_after: Seq<bool>,
) -> bool {
    exists|k: int|
        {
            &&& 0 <= k < stack.len()
            &&& #[trigger] stack[k] == n
            &&& 0 <= n < marks.len()
            &&& !marks[n]
            &&& forall|j: int| k < j < stack.len() ==> is_marked(marks, #[trigger] stack[j])
            &&& marks_after == marks.update(n, true)
            &&& stack_after == stack.take(k) + unmarked_of(successors(links, n), marks_after)
        }
}

/// The last step of a depth-first walker: every entry left on the stack was
/// marked, and the stack is now empty.
pub open spec fn dfs_ends(
    stack: Seq<int>,
    marks: Seq<bool>,
    stack_after: Seq<int>,
    marks_after: Seq<bool>,
) -> bool {
    &&& forall|j: int| 0 <= j < stack.len() ==> is_marked(marks, #[trigger] stack[j])
    &&& stack_after == Seq::<int>::empty()
    &&& marks_after == marks
}

/// One step of a breadth-first walker that yields node `n`.
///
/// The walker takes `n` from the front of its queue, marks every successor
/// of `n`, and appends those that were unmarked, each once, in successor
/// order.
pub open spec fn bfs_yields(
    queue: Seq<int>,
    marks: Seq<bool>,
    links: Seq<(int, int)>,
    n: int,
    queue_after: Seq<int>,
    marks_after: Seq<bool>,
) -> bool {
    &&& queue.len() > 0
    &&& queue[0] == n
    &&& marks_after == mark_all(marks, successors(links, n))
    &&& queue_after == queue.drop_first() + first_unmarked(successors(links, n), marks)
}

/// The nodes that are marked in `marks`.
pub open spec fn marked_set(marks: Seq<bool>) -> Set<int> {
    Set::new(|v: int| is_marked(marks, v))
}

/// The number of positions of `marks` that are not marked.
pub open spec fn unmarked_count(marks: Seq<bool>) -> nat
    decreases marks.len(),
{
    if marks.len() == 0 {
        0
    } else {
        unmarked_count(marks.drop_last()) + if marks.last() {
            0nat
        } else {
            1nat
        }
    }
}

/// Marking an unmarked position leaves one fewer unmarked.
pub proof fn lemma_mark_one(marks: Seq<bool>, n: int)
    requires
        0 <= n < marks.len(),
        !marks[n],
    ensures
        unmarked_count(marks.update(n, true)) + 1 == unmarked_count(marks),
    decreases marks.len(),
{
    let after = marks.update(n, true);
    if n == marks.len() - 1 {
        assert(after.drop_last() =~= marks.drop_last());
    } else {
        lemma_mark_one(marks.drop_last(), n);
        assert(after.drop_last() =~= marks.drop_last().update(n, true));
    }
}

/// The entries that a depth-first step pushes are the successors that are
/// unmarked.
pub proof fn lemma_unmarked_of_members(s: Seq<int>, marks: Seq<bool>)
    ensures
        forall|x: int| unmarked_of(s, marks).contains(x) <==> s.contains(x) && !is_marked(marks, x),
    decreases s.len(),
{
    if s.len() > 0 {
        let t = s.drop_last();
        lemma_unmarked_of_members(t, marks);
        let before = unmarked_of(t, marks);
        let now = unmarked_of(s, marks);
        assert forall|x: int| now.contains(x) <==> s.contains(x) && !is_marked(marks, x) by {
            if now.contains(x) {
                let i = choose|i: int| 0 <= i < now.len() && now[i] == x;
                if i < before.len() {
                    assert(before[i] == x);
                    assert(before.contains(x));
                    assert(t.contains(x));
                    let j = choose|j: int| 0 <= j < t.len() && t[j] == x;
                    assert(s[j] == x);
                } else {
                    assert(s[s.len() - 1] == x);
                }
            }
            if s.contains(x) && !is_marked(marks, x) {
                let j = choose|j: int| 0 <= j < s.len() && s[j] == x;
                if j < s.len() - 1 {
                    assert(t[j] == x);
                    assert(t.contains(x));
                    assert(before.contains(x));
                    let i = choose|i: int| 0 <= i < before.len() && before[i] == x;
                    assert(now[i] == x);
                } else {
                    assert(now[before.len() as int] == x);
                }
            }
        }
    }
}

/// The entries that a breadth-first step appends are the successors that
/// were unmarked.
pub proof fn lemma_first_unmarked_members(s: Seq<int>, marks: Seq<bool>)
    ensures
        forall|x: int|
            first_unmarked(s, marks).contains(x) <==> s.contains(x) && !is_marked(marks, x),
    decreases s.len(),
{
    if s.len() > 0 {
        let t = s.drop_last();
        let x0 = s.last();
        lemma_first_unmarked_members(t, marks);
        let before = first_unmarked(t, marks);
        let now = first_unmarked(s, marks);
        assert forall|x: int| now.contains(x) <==> s.contains(x) && !is_marked(marks, x) by {
            if now.contains(x) {
                let i = choose|i: int| 0 <= i < now.len() && now[i] == x;
                if i < before.len() {
                    assert(before[i] == x);
                    assert(before.contains(x));
                    assert(t.contains(x));
                    let j = choose|j: int| 0 <= j < t.len() && t[j] == x;
                    assert(s[j] == x);
                } else {
                    assert(s[s.len() - 1] == x);
                }
            }
            if s.contains(x) && !is_marked(marks, x) {
                let j = choose|j: int| 0 <= j < s.len() && s[j] == x;
                if j < s.len() - 1 {
                    assert(t[j] == x);
                    assert(t.contains(x));
                }
                if t.contains(x) {
                    assert(before.contains(x));
                    let i = choose|i: int| 0 <= i < before.len() && before[i] == x;
                    assert(now[i] == x);
                } else {
                    assert(now[before.len() as int] == x);
                }
            }
        }
    }
}

/// A breadth-first step appends as many entries as it marks positions.
pub proof fn lemma_mark_all_count(s: Seq<int>, marks: Seq<bool>)
    requires
        all_within(s, marks),
    ensures
        unmarked_count(mark_all(marks, s)) + first_unmarked(s, marks).len() == unmarked_count(
            marks,
        ),
    decreases s.len(),
{
    if s.len() == 0 {
        assert(mark_all(marks, s) =~= marks);
    } else {
        let t = s.drop_last();
        let x = s.last();
        assert(0 <= s[s.len() - 1] < marks.len());
        assert forall|i: int| 0 <= i < t.len() implies 0 <= #[trigger] t[i] < marks.len() by {
            assert(t[i] == s[i]);
        }
        lemma_mark_all_count(t, marks);
        let partly = mark_all(marks, t);
        assert forall|i: int| s.contains(i) <==> t.contains(i) || i == x by {
            if s.contains(i) {
                let j = choose|j: int| 0 <= j < s.len() && s[j] == i;
                if j < t.len() {
                    assert(t[j] == i);
                }
            }
            if t.contains(i) {
                let j = choose|j: int| 0 <= j < t.len() && t[j] == i;
                assert(s[j] == i);
            }
            if i == x {
                assert(s[s.len() - 1] == i);
            }
        }
        if is_marked(marks, x) || t.contains(x) {
            assert(mark_all(marks, s) =~= partly);
        } else {
            assert(mark_all(marks, s) =~= partly.update(x, true));
            lemma_mark_one(partly, x);
        }
    }
}

} // verus!
