//! Termination sequences: for every state of a trellis a shortest input
//! sequence that drives the encoder back to state zero, found by a
//! breadth-first traversal of the reversed transition graph.

use vstd::prelude::*;
use crate::fifo::{queue_add, queue_items, queue_new, queue_remove, queue_size};
use crate::trellis::{lemma_follow_in_range, Trellis};
use crate::vec2d::Fill;

verus! {

/// The position of the first entry of `row` that equals `value`.
fn row_position(row: &[u16], value: u16) -> (found: Option<usize>)
    ensures
        match found {
            Some(i) => i < row@.len() && row@[i as int] == value && forall|j: int|
                0 <= j < i ==> row@[j] != value,
            None => forall|j: int| 0 <= j < row@.len() ==> row@[j] != value,
        },
{
    let mut i: usize = 0;
    while i < row.len()
        invariant
            i <= row@.len(),
            forall|j: int| 0 <= j < i ==> row@[j] != value,
        decreases row@.len() - i,
    {
        if row[i] == value {
            return Some(i);
        }
        i += 1;
    }
    None
}

/// The number of entries of `marks` that are zero.
pub open spec fn count_unmarked(marks: Seq<u16>) -> nat
    decreases marks.len(),
{
    if marks.len() == 0 {
        0
    } else {
        count_unmarked(marks.drop_last()) + if marks.last() == 0 { 1nat } else { 0nat }
    }
}

proof fn lemma_mark_one(marks: Seq<u16>, i: int)
    requires
        0 <= i < marks.len(),
        marks[i] == 0,
    ensures
        count_unmarked(marks.update(i, 1)) + 1 == count_unmarked(marks),
    decreases marks.len(),
{
    let after = marks.update(i, 1);
    if i == marks.len() - 1 {
        assert(after.drop_last() =~= marks.drop_last());
    } else {
        assert(after.drop_last() =~= marks.drop_last().update(i, 1));
        lemma_mark_one(marks.drop_last(), i);
    }
}

/// What the breadth-first traversal knows of the states it has marked: each
/// but state zero has a parent one step closer to state zero, and the states
/// already expanded have all their predecessors marked.
spec fn bfs_marked(t: &Trellis, visited: Seq<u16>, tree: Seq<u16>, depth: Seq<int>) -> bool {
    &&& visited.len() == t.num_states
    &&& tree.len() == t.num_states
    &&& depth.len() == t.num_states
    &&& visited[0] != 0
    &&& depth[0] == 0
    &&& forall|s: int|
        0 <= s < t.num_states && visited[s] != 0 && s != 0 ==> {
            &&& 0 <= #[trigger] tree[s] < t.num_states
            &&& visited[tree[s] as int] != 0
            &&& depth[s] == depth[tree[s] as int] + 1
            &&& exists|m: int| 0 <= m < t.num_input_symbols && #[trigger] t.next(s, m) == tree[s]
        }
    &&& forall|s: int| 0 <= s < t.num_states ==> #[trigger] depth[s] >= 0
}

/// All predecessors of state `target` are marked, none of them deeper than
/// one step below it.
/// The states that wait in the queue are marked and stand in order of
/// depth.
spec fn bfs_queue(t: &Trellis, visited: Seq<u16>, depth: Seq<int>, waiting: Seq<u16>) -> bool {
    &&& forall|i: int|
        0 <= i < waiting.len() ==> (#[trigger] waiting[i] as int) < t.num_states
            && visited[waiting[i] as int] != 0
    &&& forall|i: int, j: int|
        0 <= i <= j < waiting.len() ==> depth[#[trigger] waiting[i] as int] <= depth[#[trigger] waiting[j] as int]
}

spec fn bfs_expanded(t: &Trellis, visited: Seq<u16>, depth: Seq<int>, target: int) -> bool {
    forall|p: int, m: int|
        0 <= p < t.num_states && 0 <= m < t.num_input_symbols && #[trigger] t.next(p, m) == target
            ==> visited[p] != 0 && depth[p] <= depth[target] + 1
}

/// What holds of the traversal between two expansions: every marked state is
/// expanded or waits in the queue, and none is deeper than one step below
/// the state that waits first.
spec fn bfs_outer(
    t: &Trellis,
    visited: Seq<u16>,
    tree: Seq<u16>,
    depth: Seq<int>,
    waiting: Seq<u16>,
) -> bool {
    &&& bfs_marked(t, visited, tree, depth)
    &&& bfs_queue(t, visited, depth, waiting)
    &&& forall|s: int|
        0 <= s < t.num_states && #[trigger] visited[s] != 0 && waiting.len() > 0 ==> depth[s]
            <= depth[waiting[0] as int] + 1
    &&& forall|s: int|
        0 <= s < t.num_states && #[trigger] visited[s] != 0 ==> bfs_expanded(t, visited, depth, s)
            || waiting.contains(s as u16)
}

/// What holds of the traversal while the state `target`, of depth `level`,
/// is being expanded.
spec fn bfs_inner(
    t: &Trellis,
    visited: Seq<u16>,
    tree: Seq<u16>,
    depth: Seq<int>,
    waiting: Seq<u16>,
    target: int,
    level: int,
) -> bool {
    &&& bfs_marked(t, visited, tree, depth)
    &&& bfs_queue(t, visited, depth, waiting)
    &&& 0 <= target < t.num_states
    &&& visited[target] != 0
    &&& depth[target] == level
    &&& forall|i: int| 0 <= i < waiting.len() ==> depth[#[trigger] waiting[i] as int] >= level
    &&& forall|s: int| 0 <= s < t.num_states && #[trigger] visited[s] != 0 ==> depth[s] <= level + 1
    &&& forall|s: int|
        0 <= s < t.num_states && #[trigger] visited[s] != 0 ==> s == target || bfs_expanded(
            t,
            visited,
            depth,
            s,
        ) || waiting.contains(s as u16)
}

proof fn lemma_bfs_start(t: &Trellis, visited: Seq<u16>, tree: Seq<u16>, depth: Seq<int>)
    requires
        t.wf(),
        visited == Seq::new(t.num_states as nat, |i: int| 0u16).update(0, 1u16),
        tree == Seq::new(t.num_states as nat, |i: int| 0u16),
        depth == Seq::new(t.num_states as nat, |i: int| 0int),
    ensures
        bfs_outer(t, visited, tree, depth, seq![0u16]),
{
    let waiting = seq![0u16];
    assert(waiting[0] == 0u16);
    assert forall|s: int| 0 <= s < t.num_states && #[trigger] visited[s] != 0 implies bfs_expanded(
        t,
        visited,
        depth,
        s,
    ) || waiting.contains(s as u16) by {
        assert(s == 0);
    }
}

proof fn lemma_bfs_dequeue(
    t: &Trellis,
    visited: Seq<u16>,
    tree: Seq<u16>,
    depth: Seq<int>,
    waiting: Seq<u16>,
)
    requires
        t.wf(),
        bfs_outer(t, visited, tree, depth, waiting),
        waiting.len() > 0,
    ensures
        bfs_inner(
            t,
            visited,
            tree,
            depth,
            waiting.drop_first(),
            waiting[0] as int,
            depth[waiting[0] as int],
        ),
{
    let rest = waiting.drop_first();
    let target = waiting[0] as int;
    assert forall|i: int| 0 <= i < rest.len() implies (#[trigger] rest[i] as int) < t.num_states
        && visited[rest[i] as int] != 0 && depth[rest[i] as int] >= depth[target] by {
        assert(rest[i] == waiting[i + 1]);
    }
    assert forall|i: int, j: int| 0 <= i <= j < rest.len() implies depth[#[trigger] rest[i] as int]
        <= depth[#[trigger] rest[j] as int] by {
        assert(rest[i] == waiting[i + 1]);
        assert(rest[j] == waiting[j + 1]);
    }
    assert forall|s: int| 0 <= s < t.num_states && #[trigger] visited[s] != 0 implies s == target
        || bfs_expanded(t, visited, depth, s) || rest.contains(s as u16) by {
        if s != target && !bfs_expanded(t, visited, depth, s) {
            let i = choose|i: int| 0 <= i < waiting.len() && waiting[i] == s as u16;
            assert(rest[i - 1] == s as u16);
        }
    }
}

proof fn lemma_bfs_mark(
    t: &Trellis,
    visited: Seq<u16>,
    tree: Seq<u16>,
    depth: Seq<int>,
    waiting: Seq<u16>,
    target: int,
    level: int,
    pre: int,
    m: int,
)
    requires
        t.wf(),
        bfs_inner(t, visited, tree, depth, waiting, target, level),
        0 <= pre < t.num_states,
        visited[pre] == 0,
        0 <= m < t.num_input_symbols,
        t.next(pre, m) == target,
    ensures
        bfs_inner(
            t,
            visited.update(pre, 1u16),
            tree.update(pre, target as u16),
            depth.update(pre, level + 1),
            waiting.push(pre as u16),
            target,
            level,
        ),
{
    let visited2 = visited.update(pre, 1u16);
    let tree2 = tree.update(pre, target as u16);
    let depth2 = depth.update(pre, level + 1);
    let waiting2 = waiting.push(pre as u16);
    assert forall|s: int| 0 <= s < t.num_states && visited2[s] != 0 && s != 0 implies {
        &&& 0 <= #[trigger] tree2[s] < t.num_states
        &&& visited2[tree2[s] as int] != 0
        &&& depth2[s] == depth2[tree2[s] as int] + 1
        &&& exists|m: int| 0 <= m < t.num_input_symbols && #[trigger] t.next(s, m) == tree2[s]
    } by {
        if s == pre {
            assert(t.next(s, m) == tree2[s]);
        } else {
            assert(visited[s] != 0);
            assert(visited[tree[s] as int] != 0);
        }
    }
    assert forall|i: int| 0 <= i < waiting2.len() implies (#[trigger] waiting2[i] as int)
        < t.num_states && visited2[waiting2[i] as int] != 0 && depth2[waiting2[i] as int]
        >= level by {
        if i < waiting.len() {
            assert(waiting2[i] == waiting[i]);
        }
    }
    assert forall|i: int, j: int| 0 <= i <= j < waiting2.len() implies depth2[#[trigger] waiting2[i] as int]
        <= depth2[#[trigger] waiting2[j] as int] by {
        if i < waiting.len() {
            assert(waiting2[i] == waiting[i]);
            assert(visited[waiting[i] as int] != 0);
        }
        if j < waiting.len() {
            assert(waiting2[j] == waiting[j]);
        }
    }
    assert forall|s: int| 0 <= s < t.num_states && #[trigger] visited2[s] != 0 implies s == target
        || bfs_expanded(t, visited2, depth2, s) || waiting2.contains(s as u16) by {
        if s == pre {
            assert(waiting2[waiting.len() as int] == s as u16);
        } else if s != target {
            assert(visited[s] != 0);
            if bfs_expanded(t, visited, depth, s) {
                assert(bfs_expanded(t, visited2, depth2, s));
            } else {
                let i = choose|i: int| 0 <= i < waiting.len() && waiting[i] == s as u16;
                assert(waiting2[i] == s as u16);
            }
        }
    }
}

proof fn lemma_bfs_expanded(
    t: &Trellis,
    visited: Seq<u16>,
    tree: Seq<u16>,
    depth: Seq<int>,
    waiting: Seq<u16>,
    target: int,
    level: int,
)
    requires
        t.wf(),
        bfs_inner(t, visited, tree, depth, waiting, target, level),
        forall|p: int, m: int|
            0 <= p < t.num_states && 0 <= m < t.num_input_symbols && #[trigger] t.next(p, m)
                == target ==> visited[p] != 0,
    ensures
        bfs_outer(t, visited, tree, depth, waiting),
{
    assert(bfs_expanded(t, visited, depth, target));
    if waiting.len() > 0 {
        assert(depth[waiting[0] as int] >= level);
    }
}

/// Once every marked state is expanded, the state that a path to state zero
/// passes after `j` steps is marked, at a depth of at most the steps that
/// remain.
proof fn lemma_bfs_complete(
    t: &Trellis,
    visited: Seq<u16>,
    tree: Seq<u16>,
    depth: Seq<int>,
    s: int,
    inputs: Seq<u16>,
    j: int,
)
    requires
        t.wf(),
        bfs_marked(t, visited, tree, depth),
        forall|x: int|
            0 <= x < t.num_states && visited[x] != 0 ==> bfs_expanded(t, visited, depth, x),
        0 <= s < t.num_states,
        t.valid_inputs(inputs),
        t.follow(s, inputs) == 0,
        0 <= j <= inputs.len(),
    ensures
        visited[t.follow(s, inputs.take(j))] != 0,
        depth[t.follow(s, inputs.take(j))] <= inputs.len() - j,
    decreases inputs.len() - j,
{
    if j == inputs.len() {
        assert(inputs.take(j) =~= inputs);
    } else {
        lemma_bfs_complete(t, visited, tree, depth, s, inputs, j + 1);
        let here = t.follow(s, inputs.take(j));
        let there = t.follow(s, inputs.take(j + 1));
        assert(inputs.take(j + 1).drop_last() =~= inputs.take(j));
        assert(there == t.next(here, inputs[j] as int));
        lemma_follow_in_range(t, s, inputs.take(j));
        lemma_follow_in_range(t, s, inputs.take(j + 1));
        assert(bfs_expanded(t, visited, depth, there));
    }
}

/// Taking one more edge after a path.
proof fn lemma_follow_push(t: &Trellis, s: int, inputs: Seq<u16>, m: u16)
    ensures
        t.follow(s, inputs.push(m)) == t.next(t.follow(s, inputs), m as int),
{
    assert(inputs.push(m).drop_last() =~= inputs);
}

/// For every state a termination sequence of at least `num_transitions`
/// symbols, or nothing when some state has no path to state zero.
pub fn shortest_terminations(t: &Trellis, num_transitions: usize) -> (result: Option<
    Vec<Vec<u16>>,
>)
    requires
        t.wf(),
        t.next(0, 0) == 0,
    ensures
        match result {
            Some(terminations) => {
                &&& terminations@.len() == t.num_states
                &&& forall|s: int|
                    0 <= s < t.num_states ==> {
                        &&& t.is_termination(s, #[trigger] terminations@[s]@, num_transitions as int)
                        &&& t.follow(s, terminations@[s]@) == 0
                    }
            },
            None => exists|s: int| 0 <= s < t.num_states && !t.reaches_zero(s),
        },
{
    let num_states = t.num_states;
    let mut queue = queue_new();
    queue_add(&mut queue, 0);
    let mut visited: Vec<u16> = Fill(0, num_states);
    let mut tree: Vec<u16> = Fill(0, num_states);
    visited.set(0, 1);
    let ghost mut depth: Seq<int> = Seq::new(num_states as nat, |i: int| 0int);
    proof {
        assert(queue_items(queue) =~= seq![0u16]);
        lemma_bfs_start(t, visited@, tree@, depth);
    }

    while queue_size(&queue) != 0
        invariant
            t.wf(),
            num_states == t.num_states,
            bfs_outer(t, visited@, tree@, depth, queue_items(queue)),
        ensures
            bfs_outer(t, visited@, tree@, depth, queue_items(queue)),
            queue_items(queue).len() == 0,
        decreases 2 * count_unmarked(visited@) + queue_items(queue).len(),
    {
        let ghost waiting = queue_items(queue);
        let ghost measure = 2 * count_unmarked(visited@) + queue_items(queue).len();
        match queue_remove(&mut queue) {
            Some(target_state) => {
                let ghost level = depth[target_state as int];
                proof {
                    lemma_bfs_dequeue(t, visited@, tree@, depth, waiting);
                }
                let mut pre_state: usize = 0;
                while pre_state < num_states
                    invariant
                        t.wf(),
                        num_states == t.num_states,
                        pre_state <= num_states,
                        bfs_inner(
                            t,
                            visited@,
                            tree@,
                            depth,
                            queue_items(queue),
                            target_state as int,
                            level,
                        ),
                        forall|p: int, m: int|
                            0 <= p < pre_state && 0 <= m < t.num_input_symbols && #[trigger] t.next(
                                p,
                                m,
                            ) == target_state ==> visited@[p] != 0,
                        2 * count_unmarked(visited@) + queue_items(queue).len() < measure,
                    decreases num_states - pre_state,
                {
                    let row = t.next_states.row(pre_state);
                    let found = row_position(row, target_state);
                    if found.is_some() && visited[pre_state] == 0 {
                        proof {
                            lemma_mark_one(visited@, pre_state as int);
                            lemma_bfs_mark(
                                t,
                                visited@,
                                tree@,
                                depth,
                                queue_items(queue),
                                target_state as int,
                                level,
                                pre_state as int,
                                found.unwrap() as int,
                            );
                            depth = depth.update(pre_state as int, level + 1);
                        }
                        visited.set(pre_state, 1);
                        queue_add(&mut queue, pre_state as u16);
                        tree.set(pre_state, target_state);
                    }
                    pre_state += 1;
                }
                proof {
                    lemma_bfs_expanded(
                        t,
                        visited@,
                        tree@,
                        depth,
                        queue_items(queue),
                        target_state as int,
                        level,
                    );
                }
            },
            None => {
                break ;
            },
        }
    }
    assert forall|s: int| 0 <= s < num_states && #[trigger] visited@[s] != 0 implies bfs_expanded(
        t,
        visited@,
        depth,
        s,
    ) by {
        assert(!queue_items(queue).contains(s as u16));
    }

    let mut state: usize = 0;
    while state < num_states
        invariant
            t.wf(),
            state <= num_states,
            num_states == t.num_states,
            bfs_marked(t, visited@, tree@, depth),
            forall|s: int|
                0 <= s < num_states && #[trigger] visited@[s] != 0 ==> bfs_expanded(
                    t,
                    visited@,
                    depth,
                    s,
                ),
            forall|s: int| 0 <= s < state ==> visited@[s] != 0,
        decreases num_states - state,
    {
        if visited[state] == 0 {
            proof {
                if t.reaches_zero(state as int) {
                    let inputs = choose|inputs: Seq<u16>|
                        t.valid_inputs(inputs) && #[trigger] t.follow(state as int, inputs) == 0;
                    lemma_bfs_complete(t, visited@, tree@, depth, state as int, inputs, 0);
                    assert(inputs.take(0) =~= Seq::<u16>::empty());
                }
            }
            return None;
        }
        state += 1;
    }

    let mut terminations: Vec<Vec<u16>> = Vec::new();
    let mut current_state: usize = 0;
    while current_state < num_states
        invariant
            t.wf(),
            t.next(0, 0) == 0,
            num_states == t.num_states,
            current_state <= num_states,
            bfs_marked(t, visited@, tree@, depth),
            forall|s: int|
                0 <= s < num_states && #[trigger] visited@[s] != 0 ==> bfs_expanded(
                    t,
                    visited@,
                    depth,
                    s,
                ),
            forall|s: int| 0 <= s < num_states ==> visited@[s] != 0,
            terminations@.len() == current_state,
            forall|s: int|
                0 <= s < current_state ==> {
                    &&& t.is_termination(s, #[trigger] terminations@[s]@, num_transitions as int)
                    &&& t.follow(s, terminations@[s]@) == 0
                },
        decreases num_states - current_state,
    {
        let mut path: Vec<u16> = Vec::new();
        let mut current_tmp: usize = current_state;
        while current_tmp != 0
            invariant
                t.wf(),
                num_states == t.num_states,
                current_state < num_states,
                current_tmp < num_states,
                bfs_marked(t, visited@, tree@, depth),
                forall|s: int| 0 <= s < num_states ==> visited@[s] != 0,
                t.valid_inputs(path@),
                t.follow(current_state as int, path@) == current_tmp,
                path@.len() + depth[current_tmp as int] == depth[current_state as int],
            decreases depth[current_tmp as int],
        {
            assert(visited@[current_tmp as int] != 0);
            let father_state: u16 = tree[current_tmp];
            let index_option = row_position(t.next_states.row(current_tmp), father_state);
            match index_option {
                Some(index) => {
                    proof {
                        lemma_follow_push(t, current_state as int, path@, index as u16);
                    }
                    path.push(index as u16);
                },
                None => {
                    assert(false);
                },
            }
            current_tmp = father_state as usize;
        }
        let ghost hops: int = path@.len() as int;
        let ghost shortest = path@;
        proof {
            if t.reaches_zero_within(current_state as int, hops - 1) {
                let inputs = choose|inputs: Seq<u16>|
                    t.valid_inputs(inputs) && inputs.len() <= hops - 1 && #[trigger] t.follow(
                        current_state as int,
                        inputs,
                    ) == 0;
                lemma_bfs_complete(t, visited@, tree@, depth, current_state as int, inputs, 0);
                assert(inputs.take(0) =~= Seq::<u16>::empty());
            }
        }
        while path.len() < num_transitions
            invariant
                t.wf(),
                t.next(0, 0) == 0,
                t.valid_inputs(path@),
                t.follow(current_state as int, path@) == 0,
                0 <= hops <= path@.len(),
                path@.take(hops) == shortest,
                forall|i: int| hops <= i < path@.len() ==> path@[i] == 0,
                path@.len() == hops || path@.len() <= num_transitions,
            decreases num_transitions - path@.len(),
        {
            proof {
                lemma_follow_push(t, current_state as int, path@, 0);
            }
            path.push(0);
            assert(path@.take(hops) =~= shortest);
        }
        proof {
            assert(path@.take(hops) =~= shortest);
            assert(t.follow(current_state as int, path@.take(hops)) == 0);
        }
        terminations.push(path);
        current_state += 1;
    }
    Some(terminations)
}

} // verus!
