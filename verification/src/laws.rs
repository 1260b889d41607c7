//! What the library promises as a whole.

use crate::heap::HeapView;
use crate::steps::{lemma_word, DropStep, ReadStep, WriteStep, READER_MASK};
use crate::tally::{
    lemma_tally_member, lemma_tally_members, lemma_tally_none, lemma_tally_push,
    lemma_tally_update, tally, unit,
};
use crate::world::{
    cell_holds, is_alone, is_inside, is_marking, task_enqueues, task_holds, Act, Task, World,
};
use vstd::prelude::*;

verus! {

/// Whether the acts can happen one after the other.
pub open spec fn possible<T>(w: World<T>, acts: Seq<Act<T>>) -> bool
    decreases acts.len(),
{
    acts.len() == 0 || {
        &&& possible(w, acts.drop_last())
        &&& run(w, acts.drop_last()).enabled(acts.last())
    }
}

/// The world that the acts lead to.
pub open spec fn run<T>(w: World<T>, acts: Seq<Act<T>>) -> World<T>
    decreases acts.len(),
{
    if acts.len() == 0 {
        w
    } else {
        run(w, acts.drop_last()).apply(acts.last())
    }
}

/// Whether the act is the step in which a writer swaps the contents of cell `c`.
pub open spec fn swaps<T>(w: World<T>, act: Act<T>, c: int) -> bool {
    act matches Act::Step { task, spurious } && w.tasks[task] matches Task::Replace {
        cell,
        writer: step,
    } && cell == c && step is Swap
}

/// Whether none of the acts swaps the contents of cell `c`.
pub open spec fn no_swap<T>(w: World<T>, acts: Seq<Act<T>>, c: int) -> bool
    decreases acts.len(),
{
    acts.len() == 0 || {
        &&& no_swap(w, acts.drop_last(), c)
        &&& !swaps(run(w, acts.drop_last()), acts.last(), c)
    }
}

/// Whatever happens, in whatever order the threads take their steps, the
/// invariant holds of the world that comes of it.
pub proof fn law_every_world<T>(tag: int, acts: Seq<Act<T>>)
    requires
        possible(World::empty(tag), acts),
    ensures
        run(World::empty(tag), acts).inv(),
{
    World::<T>::empty(tag).lemma_inv(Act::NewCollector);
    lemma_run(World::empty(tag), acts);
}

/// Acts keep the invariant.
pub(crate) proof fn lemma_run<T>(w: World<T>, acts: Seq<Act<T>>)
    requires
        w.inv(),
        possible(w, acts),
    ensures
        run(w, acts).inv(),
    decreases acts.len(),
{
    if acts.len() > 0 {
        lemma_run(w, acts.drop_last());
        run(w, acts.drop_last()).lemma_inv(acts.last());
    }
}

/// A pointer never dangles: wherever there is one, in somebody's hands, in a
/// cell or with a thread, its node is allocated and does not wait to be
/// destroyed, and the node's count is the number of such pointers.
pub proof fn law_no_dangling_pointer<T>(w: World<T>, n: usize)
    requires
        w.inv(),
        w.pointers(n) > 0,
    ensures
        w.heap.shared(n),
        w.heap.count(n) == w.pointers(n),
{
    assert(w.heap.shared(n));
}

/// A reader that is about to count itself in finds its node allocated, and so
/// does a pointer that is given up, at each of its steps; so the steps can always
/// be taken.
pub proof fn law_step_is_safe<T>(w: World<T>, t: int)
    requires
        w.inv(),
        w.has_task(t),
    ensures
        match w.tasks[t] {
            Task::Get { cell, reader: ReadStep::Copy { node } } => w.heap.shared(node),
            Task::Drop { dropper: DropStep::Decrement { node } } => w.heap.shared(node),
            Task::Drop { dropper: DropStep::Enqueue { node } } => w.heap.live(node),
            _ => true,
        },
{
    assert(w.task_ok(w.tasks[t]));
    match w.tasks[t] {
        Task::Get { cell, reader: ReadStep::Copy { node } } => {
            lemma_tally_member(w.cells, cell, cell_holds(node));
            law_no_dangling_pointer(w, node);
        },
        Task::Drop { dropper: DropStep::Decrement { node } } => {
            lemma_tally_member(w.tasks, t, task_holds(node));
            law_no_dangling_pointer(w, node);
        },
        Task::Drop { dropper: DropStep::Enqueue { node } } => {
            lemma_tally_member(w.tasks, t, task_enqueues(node));
            assert(w.heap.shared(node));
        },
        _ => {},
    }
}

/// `Shared::get_mut` gives access, which it does at a count of one, exactly to
/// the only pointer there is.
pub proof fn law_get_mut_is_exclusive<T>(w: World<T>, n: usize)
    requires
        w.inv(),
        w.held.contains(n),
    ensures
        w.heap.count(n) == 1 <==> {
            &&& w.held.count(n) == 1
            &&& forall|c: int| #[trigger] w.has_cell(c) ==> w.cells[c]->0.node != n
            &&& forall|t: int| 0 <= t < w.tasks.len() ==> !(#[trigger] w.tasks[t]).holds(n)
        },
{
    law_no_dangling_pointer(w, n);
    if w.heap.count(n) == 1 {
        assert forall|c: int| #[trigger] w.has_cell(c) implies w.cells[c]->0.node != n by {
            lemma_tally_member(w.cells, c, cell_holds(n));
        }
        assert forall|t: int| 0 <= t < w.tasks.len() implies !(#[trigger] w.tasks[t]).holds(n) by {
            lemma_tally_member(w.tasks, t, task_holds(n));
        }
    }
    if (forall|c: int| #[trigger] w.has_cell(c) ==> w.cells[c]->0.node != n) && (forall|t: int|
        0 <= t < w.tasks.len() ==> !(#[trigger] w.tasks[t]).holds(n)) {
        assert forall|c: int| 0 <= c < w.cells.len() implies !cell_holds(n)(
            #[trigger] w.cells[c],
        ) by {
            assert(w.has_cell(c) ==> w.cells[c]->0.node != n);
        }
        lemma_tally_none(w.cells, cell_holds(n));
        lemma_tally_none(w.tasks, task_holds(n));
    }
}

/// `SharedCell::replace` returns a pointer that does not look like the only one
/// as long as somebody holds a copy that `SharedCell::get` made of it.
pub proof fn law_replace_sees_copies<T>(w: World<T>, t: int)
    requires
        w.inv(),
        w.has_task(t),
        w.tasks[t] matches Task::Replace { cell, writer: step } && step is Done && w.held.contains(
            step->Done_old,
        ),
    ensures
        w.heap.count(w.result(t)->0) > 1,
        w.apply(Act::Finish { task: t }).heap.count(w.result(t)->0) > 1,
{
    let n = w.result(t)->0;
    lemma_tally_member(w.tasks, t, task_holds(n));
    law_no_dangling_pointer(w, n);
}

/// At most one writer has a cell marked.
pub proof fn law_one_writer<T>(w: World<T>, c: int, s: int, t: int)
    requires
        w.inv(),
        w.has_task(s),
        w.has_task(t),
        w.tasks[s].marking(c),
        w.tasks[t].marking(c),
    ensures
        s == t,
{
    assert(w.task_ok(w.tasks[s]));
    assert(w.has_cell(c) && w.cell_ok(c));
    if s < t {
        lemma_tally_members(w.tasks, s, t, is_marking(c));
    } else if t < s {
        lemma_tally_members(w.tasks, t, s, is_marking(c));
    }
}

/// While a writer exchanges the contents of a cell, no reader is inside.
pub proof fn law_writer_is_alone<T>(w: World<T>, c: int, s: int, t: int)
    requires
        w.inv(),
        w.has_task(s),
        w.has_task(t),
        w.tasks[s].alone(c),
    ensures
        !w.tasks[t].inside(c),
{
    assert(w.task_ok(w.tasks[s]));
    assert(w.has_cell(c) && w.cell_ok(c));
    lemma_tally_member(w.tasks, s, is_alone(c));
    lemma_tally_member(w.tasks, t, is_inside(c));
}

/// Once a writer has marked a cell, no other reader gets in, whatever happens:
/// the writer waits only for those that are inside already.
pub proof fn law_marked_cell_admits_nobody<T>(w: World<T>, act: Act<T>, c: int, t: int)
    requires
        w.inv(),
        w.enabled(act),
        exists|s: int| w.has_task(s) && (#[trigger] w.tasks[s]).marking(c),
        w.apply(act).has_task(t),
        w.apply(act).tasks[t].inside(c),
    ensures
        w.has_task(t),
        w.tasks[t].inside(c),
{
    let s = choose|s: int| w.has_task(s) && (#[trigger] w.tasks[s]).marking(c);
    assert(w.task_ok(w.tasks[s]));
    assert(w.has_cell(c) && w.cell_ok(c));
    lemma_tally_member(w.tasks, s, is_marking(c));
    if let Act::Step { task, spurious } = act {
        assert(w.task_ok(w.tasks[task]));
        lemma_word(w.cells[c]->0.word);
    }
}

/// A writer that waits goes on as soon as no reader is inside.
pub proof fn law_writer_proceeds<T>(w: World<T>, c: int, t: int, value: usize, spurious: bool)
    requires
        w.inv(),
        w.has_task(t),
        w.tasks[t] == (Task::Replace { cell: c, writer: WriteStep::Drain { value } }),
        forall|i: int| 0 <= i < w.tasks.len() ==> !(#[trigger] w.tasks[i]).inside(c),
    ensures
        w.step(t, spurious).tasks[t] == (Task::Replace {
            cell: c,
            writer: WriteStep::Swap { value },
        }),
{
    assert(w.task_ok(w.tasks[t]));
    assert(w.has_cell(c) && w.cell_ok(c));
    lemma_tally_none(w.tasks, is_inside(c));
    lemma_tally_member(w.tasks, t, is_marking(c));
}

/// A reader is turned away only from a cell with as many readers inside as can
/// be counted; it leaves everything as it was, and its call ends without a
/// pointer.
pub proof fn law_turned_away_when_full<T>(w: World<T>, c: int, t: int, spurious: bool)
    requires
        w.inv(),
        w.has_task(t),
        w.tasks[t] == (Task::Get { cell: c, reader: ReadStep::Enter }),
        w.step(t, spurious).tasks[t] == (Task::Get { cell: c, reader: ReadStep::Overflow }),
    ensures
        tally(w.tasks, is_inside(c)) == READER_MASK,
        w.step(t, spurious).heap == w.heap,
        w.step(t, spurious).cells == w.cells,
        w.step(t, spurious).enabled(Act::Finish { task: t }),
        w.step(t, spurious).apply(Act::Finish { task: t }).held == w.held,
{
    assert(w.task_ok(w.tasks[t]));
    assert(w.has_cell(c) && w.cell_ok(c));
}

/// A cell that nobody works on is at rest: its word is zero, so `get`, `replace`
/// and `set` can run from start to end.
pub proof fn law_cell_at_rest<T>(w: World<T>, c: int)
    requires
        w.inv(),
        w.has_cell(c),
        w.unused(c),
    ensures
        w.cells[c]->0.word == 0,
{
    assert(w.cell_ok(c));
    lemma_tally_none(w.tasks, is_inside(c));
    lemma_tally_none(w.tasks, is_marking(c));
}

/// The contents of a cell change only when a writer that is alone swaps them:
/// it puts its own pointer in and takes the one out that was there.
pub proof fn law_contents_change_by_swap<T>(w: World<T>, act: Act<T>, c: int)
    requires
        w.inv(),
        w.enabled(act),
        w.has_cell(c),
        w.apply(act).has_cell(c),
    ensures
        !swaps(w, act, c) ==> w.apply(act).cells[c]->0.node == w.cells[c]->0.node,
        swaps(w, act, c) ==> {
            &&& w.tasks[act->Step_task].alone(c)
            &&& w.apply(act).cells[c]->0.node == w.tasks[act->Step_task]->writer->Swap_value
            &&& w.apply(act).tasks[act->Step_task] == (Task::Replace {
                cell: c,
                writer: WriteStep::Reopen { old: w.cells[c]->0.node },
            })
        },
{
    if let Act::Step { task, spurious } = act {
        assert(w.task_ok(w.tasks[task]));
    }
}

/// Whether task `t`, if it is there, is a `get` on cell `c` that has yet to look
/// at the cell.
pub open spec fn fresh_get<T>(w: World<T>, t: int, c: int) -> bool {
    w.has_task(t) ==> w.tasks[t] == (Task::Get { cell: c, reader: ReadStep::Enter })
}

/// Whether task `t` is a `get` on cell `c` that is through, with a copy of the
/// pointer to `node`.
pub open spec fn got<T>(w: World<T>, t: int, c: int, node: usize) -> bool {
    w.has_task(t) && w.tasks[t] == (Task::Get { cell: c, reader: ReadStep::Done { node } })
}

/// A `get` returns what was in the cell at some moment of the call: whatever
/// happens from before it looks at the cell until it is through, at some point
/// in between the cell held the pointer that it copied.
pub proof fn law_get_returns_what_was_inside<T>(
    w: World<T>,
    acts: Seq<Act<T>>,
    c: int,
    t: int,
    node: usize,
)
    requires
        w.inv(),
        possible(w, acts),
        fresh_get(w, t, c),
        got(run(w, acts), t, c, node),
    ensures
        exists|k: int|
            0 <= k <= acts.len() && (#[trigger] run(w, acts.take(k))).has_cell(c) && run(
                w,
                acts.take(k),
            ).cells[c]->0.node == node,
{
    lemma_loaded_was_inside(w, acts, c, t);
}

/// A `get` returns what was put into the cell last: if nothing was swapped since
/// the cell came to hold a pointer, the copy that a whole call returns is a copy
/// of that pointer, and the cell still holds it.
pub proof fn law_get_returns_what_was_put<T>(
    w: World<T>,
    acts: Seq<Act<T>>,
    c: int,
    t: int,
    node: usize,
)
    requires
        w.inv(),
        w.has_cell(c),
        possible(w, acts),
        no_swap(w, acts, c),
        fresh_get(w, t, c),
        got(run(w, acts), t, c, node),
    ensures
        node == w.cells[c]->0.node,
        run(w, acts).cells[c]->0.node == w.cells[c]->0.node,
{
    lemma_run(w, acts);
    assert(run(w, acts).task_ok(run(w, acts).tasks[t]));
    lemma_contents_stay(w, acts, c);
    lemma_loaded_was_inside(w, acts, c, t);
    let k = choose|k: int|
        0 <= k <= acts.len() && (#[trigger] run(w, acts.take(k))).has_cell(c) && run(
            w,
            acts.take(k),
        ).cells[c]->0.node == node;
    lemma_prefix(w, acts, k, c);
    lemma_contents_stay(w, acts.take(k), c);
}

/// The node that a `get` on cell `c` has loaded, if it is past its load.
spec fn loaded(task: Task, c: int) -> Option<usize> {
    match task {
        Task::Get { cell, reader: ReadStep::Copy { node } } if cell == c => Some(node),
        Task::Get { cell, reader: ReadStep::Leave { node } } if cell == c => Some(node),
        Task::Get { cell, reader: ReadStep::Done { node } } if cell == c => Some(node),
        _ => None,
    }
}

/// What a `get` has loaded, the cell held after some of the acts.
proof fn lemma_loaded_was_inside<T>(w: World<T>, acts: Seq<Act<T>>, c: int, t: int)
    requires
        w.inv(),
        possible(w, acts),
        fresh_get(w, t, c),
    ensures
        run(w, acts).has_task(t) && loaded(run(w, acts).tasks[t], c) is Some ==> exists|k: int|
            0 <= k <= acts.len() && (#[trigger] run(w, acts.take(k))).has_cell(c) && run(
                w,
                acts.take(k),
            ).cells[c]->0.node == loaded(run(w, acts).tasks[t], c)->0,
    decreases acts.len(),
{
    let now = run(w, acts);
    if acts.len() > 0 && now.has_task(t) && loaded(now.tasks[t], c) is Some {
        let m = acts.len() - 1;
        let fewer = acts.drop_last();
        let before = run(w, fewer);
        lemma_loaded_was_inside(w, fewer, c, t);
        lemma_run(w, fewer);
        assert(before.task_ok(before.tasks[t]));
        let node = loaded(now.tasks[t], c)->0;
        if loaded(before.tasks[t], c) == Some(node) {
            let k = choose|k: int|
                0 <= k <= fewer.len() && (#[trigger] run(w, fewer.take(k))).has_cell(c) && run(
                    w,
                    fewer.take(k),
                ).cells[c]->0.node == node;
            assert(fewer.take(k) == acts.take(k));
        } else {
            assert(acts.take(m) == fewer);
            assert(before.has_cell(c) && before.cells[c]->0.node == node);
        }
    }
}

/// What holds of all the acts holds of the first `k` of them.
proof fn lemma_prefix<T>(w: World<T>, acts: Seq<Act<T>>, k: int, c: int)
    requires
        possible(w, acts),
        no_swap(w, acts, c),
        0 <= k <= acts.len(),
    ensures
        possible(w, acts.take(k)),
        no_swap(w, acts.take(k), c),
    decreases acts.len(),
{
    if k == acts.len() {
        assert(acts.take(k) == acts);
    } else {
        lemma_prefix(w, acts.drop_last(), k, c);
        assert(acts.drop_last().take(k) == acts.take(k));
    }
}

/// Each swap takes out what the swap before it put in.
pub proof fn law_swaps_chain<T>(
    w: World<T>,
    first: Act<T>,
    acts: Seq<Act<T>>,
    second: Act<T>,
    c: int,
)
    requires
        w.inv(),
        w.enabled(first),
        swaps(w, first, c),
        possible(w.apply(first), acts),
        no_swap(w.apply(first), acts, c),
        run(w.apply(first), acts).enabled(second),
        swaps(run(w.apply(first), acts), second, c),
    ensures
        run(w.apply(first), acts).apply(second).tasks[second->Step_task] == (Task::Replace {
            cell: c,
            writer: WriteStep::Reopen { old: w.tasks[first->Step_task]->writer->Swap_value },
        }),
{
    let between = w.apply(first);
    let later = run(between, acts);
    assert(w.task_ok(w.tasks[first->Step_task]));
    assert(between.has_cell(c));
    law_contents_change_by_swap(w, first, c);
    w.lemma_inv(first);
    lemma_run(between, acts);
    assert(later.task_ok(later.tasks[second->Step_task]));
    lemma_contents_stay(between, acts, c);
    assert(later.apply(second).has_cell(c));
    law_contents_change_by_swap(later, second, c);
}

/// Whether nobody is at work.
pub open spec fn all_idle<T>(w: World<T>) -> bool {
    forall|t: int| 0 <= t < w.tasks.len() ==> #[trigger] w.tasks[t] == Task::Idle
}

/// Whether the act begins a `replace` on cell `c`, or takes some task further.
pub open spec fn replaces<T>(act: Act<T>, c: int) -> bool {
    match act {
        Act::BeginReplace { cell, id } => cell == c,
        Act::Step { .. } => true,
        Act::Finish { .. } => true,
        _ => false,
    }
}

/// However many calls of `replace` overlap on a cell, no pointer is lost and
/// none is returned twice: when they are all through, the pointers in
/// somebody's hands and the one in the cell are the same, each as often, as
/// before.
pub proof fn law_overlapping_replaces<T>(w: World<T>, acts: Seq<Act<T>>, c: int)
    requires
        w.inv(),
        w.has_cell(c),
        all_idle(w),
        possible(w, acts),
        forall|i: int| 0 <= i < acts.len() ==> replaces(#[trigger] acts[i], c),
        all_idle(run(w, acts)),
    ensures
        run(w, acts).has_cell(c),
        run(w, acts).heap == w.heap,
        forall|n: usize|
            #![trigger run(w, acts).held.count(n)]
            #![trigger w.held.count(n)]
            run(w, acts).held.count(n) + unit(run(w, acts).cells[c]->0.node == n) == w.held.count(n)
                + unit(w.cells[c]->0.node == n),
{
    let after = run(w, acts);
    lemma_run(w, acts);
    lemma_only_replaces(w, acts, c);
    assert forall|n: usize|
        #![trigger after.held.count(n)]
        #![trigger w.held.count(n)]
        after.held.count(n) + unit(after.cells[c]->0.node == n) == w.held.count(n) + unit(
            w.cells[c]->0.node == n,
        ) by {
        lemma_tally_none(w.tasks, task_enqueues(n));
        lemma_tally_none(after.tasks, task_enqueues(n));
        assert(w.heap.shared(n) <==> w.pointers(n) > 0);
        assert(after.heap.shared(n) <==> after.pointers(n) > 0);
        lemma_tally_none(w.tasks, task_holds(n));
        lemma_tally_none(after.tasks, task_holds(n));
        lemma_tally_update(w.cells, c, after.cells[c], cell_holds(n));
        assert(w.cells.update(c, after.cells[c]) == after.cells);
    }
}

/// Calls of `replace` on cell `c` touch neither the heap nor any other cell.
proof fn lemma_only_replaces<T>(w: World<T>, acts: Seq<Act<T>>, c: int)
    requires
        w.inv(),
        w.has_cell(c),
        all_idle(w),
        possible(w, acts),
        forall|i: int| 0 <= i < acts.len() ==> replaces(#[trigger] acts[i], c),
    ensures
        run(w, acts).heap == w.heap,
        run(w, acts).has_cell(c),
        run(w, acts).cells == w.cells.update(c, run(w, acts).cells[c]),
        forall|t: int|
            0 <= t < run(w, acts).tasks.len() ==> (#[trigger] run(w, acts).tasks[t] == Task::Idle
                || (run(w, acts).tasks[t] matches Task::Replace { cell, writer } && cell == c)),
    decreases acts.len(),
{
    if acts.len() > 0 {
        let fewer = acts.drop_last();
        let act = acts.last();
        assert(replaces(acts[acts.len() - 1], c));
        assert forall|i: int| 0 <= i < fewer.len() implies replaces(#[trigger] fewer[i], c) by {
            assert(fewer[i] == acts[i]);
        }
        lemma_only_replaces(w, fewer, c);
    }
}

/// Without a swap a cell that stays keeps its contents.
proof fn lemma_contents_stay<T>(w: World<T>, acts: Seq<Act<T>>, c: int)
    requires
        w.inv(),
        w.has_cell(c),
        possible(w, acts),
        no_swap(w, acts, c),
    ensures
        run(w, acts).cells.len() >= w.cells.len(),
        run(w, acts).has_cell(c) ==> run(w, acts).cells[c]->0.node == w.cells[c]->0.node,
    decreases acts.len(),
{
    if acts.len() > 0 {
        let before = run(w, acts.drop_last());
        let act = acts.last();
        lemma_contents_stay(w, acts.drop_last(), c);
        lemma_run(w, acts.drop_last());
        if let Act::Step { task, spurious } = act {
            assert(before.task_ok(before.tasks[task]));
        }
        if before.apply(act).has_cell(c) {
            assert(before.has_cell(c));
            law_contents_change_by_swap(before, act, c);
        }
    }
}

/// Destruction is deferred: a node stays allocated until its own collector
/// collects it, and by then it was given up; and its contents stay as they are
/// but for writes through an `Owned` pointer or the only `Shared` pointer.
pub proof fn law_deferred<T>(w: World<T>, act: Act<T>, n: usize)
    requires
        w.inv(),
        w.enabled(act),
        w.heap.nodes.contains_key(n),
    ensures
        w.apply(act).heap.nodes.contains_key(n) || (w.heap.queued(n) && match act {
            Act::Collect { queue } => queue == w.heap.nodes[n].collector,
            Act::CollectOne { queue } => queue == w.heap.nodes[n].collector
                && w.heap.queues[queue][0] == n,
            _ => false,
        }),
        w.apply(act).heap.nodes.contains_key(n) ==> {
            &&& w.apply(act).heap.nodes[n].collector == w.heap.nodes[n].collector
            &&& w.apply(act).heap.data(n) == w.heap.data(n) || (match act {
                Act::WriteOwned { id, data } => id == n,
                Act::WriteShared { id, data } => id == n && w.pointers(n) == 1,
                _ => false,
            })
        },
{
    match act {
        Act::Collect { queue } => {
            w.heap.lemma_collect(queue);
        },
        Act::CollectOne { queue } => {
            assert(w.heap.nodes.contains_key(w.heap.queues[queue][0]));
            assert(w.heap.queues[queue].contains(w.heap.queues[queue][0]));
        },
        Act::WriteShared { id, data } => {
            assert(w.pointers(id) > 0);
            law_no_dangling_pointer(w, id);
        },
        _ => {},
    }
}

/// A node that waits to be destroyed has no pointers left, and goes on waiting,
/// once in the queue of its own collector, until that collector frees it.
pub proof fn law_queued_once<T>(w: World<T>, act: Act<T>, n: usize)
    requires
        w.inv(),
        w.enabled(act),
        w.heap.queued(n),
    ensures
        w.pointers(n) == 0,
        w.enqueuers(n) == 0,
        !w.owned.contains(n),
        w.heap.queues[w.heap.nodes[n].collector as int].no_duplicates(),
        forall|c: int| #![trigger w.heap.queues[c]]
            0 <= c < w.heap.queues.len() && w.heap.queues[c].contains(n) ==> c
                == w.heap.nodes[n].collector,
        w.apply(act).heap.nodes.contains_key(n) ==> w.apply(act).heap.queued(n),
{
    assert(!w.heap.shared(n));
    assert(!w.heap.owned(n));
    assert forall|c: int| #![trigger w.heap.queues[c]]
        0 <= c < w.heap.queues.len() && w.heap.queues[c].contains(n) implies c
        == w.heap.nodes[n].collector by {
        let i = choose|i: int| 0 <= i < w.heap.queues[c].len() && w.heap.queues[c][i] == n;
        assert(w.heap.nodes[w.heap.queues[c][i]].collector == c);
    }
    match act {
        Act::NewCollector => {
            w.heap.lemma_add_queue();
        },
        Act::Collect { queue } => {
            w.heap.lemma_collect(queue);
        },
        Act::CollectOne { queue } => {
            w.heap.lemma_collect_one(queue);
        },
        Act::DropOwned { id } => {
            assert(w.heap.owned(id));
            w.heap.lemma_enqueue(id);
        },
        Act::Step { task, spurious } => {
            law_step_is_safe(w, task);
            if let Task::Drop { dropper: DropStep::Enqueue { node } } = w.tasks[task] {
                w.heap.lemma_enqueue(node);
            }
        },
        _ => {},
    }
}

/// Nothing is lost: an allocated node has a pointer to it, or waits to be
/// destroyed, or the task that gave the last pointer up is about to queue it.
pub proof fn law_nothing_is_lost<T>(w: World<T>, n: usize)
    requires
        w.inv(),
        w.heap.nodes.contains_key(n),
    ensures
        w.heap.queued(n) || w.pointers(n) > 0 || w.enqueuers(n) == 1 || w.owned.contains(n),
{
    if w.heap.shared(n) {
        assert(w.enqueuers(n) == unit(w.pointers(n) == 0));
    }
    assert(w.heap.owned(n) ==> w.owned.contains(n));
}

/// A pointer that is given up queues its node exactly if it was the last one:
/// only then does taking it off the count lead on to the queue.
pub proof fn law_last_pointer_queues<T>(w: World<T>, t: int, n: usize, spurious: bool)
    requires
        w.inv(),
        w.has_task(t),
        w.tasks[t] == (Task::Drop { dropper: DropStep::Decrement { node: n } }),
    ensures
        w.step(t, spurious).tasks[t] == (Task::Drop {
            dropper: if w.pointers(n) == 1 {
                DropStep::Enqueue { node: n }
            } else {
                DropStep::Done
            },
        }),
        w.step(t, spurious).heap.queues == w.heap.queues,
{
    lemma_tally_member(w.tasks, t, task_holds(n));
    law_no_dangling_pointer(w, n);
}

/// Between the last decrement of a count and the queueing, whatever others do,
/// the node stays live and nobody gets a pointer to it; the task that was last
/// then puts it at the end of the queue of its own collector.
pub proof fn law_last_pointer_keeps_the_node<T>(w: World<T>, act: Act<T>, t: int, n: usize)
    requires
        w.inv(),
        w.enabled(act),
        w.has_task(t),
        w.tasks[t].enqueues(n),
    ensures
        w.heap.live(n),
        w.heap.count(n) == 0,
        w.pointers(n) == 0,
        w.apply(act).pointers(n) == 0,
        forall|i: int| w.has_task(i) && (#[trigger] w.tasks[i]).enqueues(n) ==> i == t,
        match act {
            Act::Step { task, spurious } if task == t => w.apply(act).heap.queues
                == w.heap.queues.update(
                w.heap.nodes[n].collector as int,
                w.heap.queues[w.heap.nodes[n].collector as int].push(n),
            ),
            _ => w.apply(act).tasks[t].enqueues(n) && w.apply(act).heap.live(n),
        },
{
    lemma_tally_member(w.tasks, t, task_enqueues(n));
    assert(w.heap.shared(n));
    assert forall|i: int| w.has_task(i) && (#[trigger] w.tasks[i]).enqueues(n) implies i == t by {
        if i < t {
            lemma_tally_members(w.tasks, i, t, task_enqueues(n));
        } else if t < i {
            lemma_tally_members(w.tasks, t, i, task_enqueues(n));
        }
    }
    let after = w.apply(act);
    w.lemma_inv(act);
    assert(after.heap.shared(n) <==> after.pointers(n) + after.enqueuers(n) > 0);
    if act matches Act::Step { task, spurious } && task == t {
        law_step_is_safe(w, t);
        w.heap.lemma_enqueue(n);
    } else {
        assert(after.tasks[t].enqueues(n));
        lemma_tally_member(after.tasks, t, task_enqueues(n));
    }
}

/// The steps of giving a pointer up, taken without a break, do what
/// `Shared::drop` does as a whole.
pub proof fn law_drop_in_steps<T>(w: World<T>, n: usize)
    requires
        w.inv(),
        w.held.contains(n),
    ensures
        ({
            let t = w.tasks.len() as int;
            let first = w.apply(Act::DropShared { id: n }).step(t, false);
            let second = first.step(t, false);
            &&& second.heap == w.heap.release(n)
            &&& second.tasks[t] == (Task::Drop { dropper: DropStep::Done })
            &&& second.held == w.held.remove(n)
            &&& second.pointers(n) == w.pointers(n) - 1
            &&& second.heap.queued(n) <==> w.pointers(n) == 1
        }),
{
    let t = w.tasks.len() as int;
    let begun = w.apply(Act::DropShared { id: n });
    let first = begun.step(t, false);
    let second = first.step(t, false);
    law_no_dangling_pointer(w, n);
    w.heap.lemma_release(n);
    w.lemma_inv(Act::DropShared { id: n });
    begun.lemma_inv(Act::Step { task: t, spurious: false });
    first.lemma_inv(Act::Step { task: t, spurious: false });
    lemma_tally_push(
        w.tasks,
        Task::Drop { dropper: DropStep::Decrement { node: n } },
        task_holds(n),
    );
    lemma_tally_update(begun.tasks, t, first.tasks[t], task_holds(n));
    lemma_tally_update(first.tasks, t, second.tasks[t], task_holds(n));
    assert(first.tasks.update(t, second.tasks[t]) == second.tasks);
}

/// Cloning a pointer and giving the clone up changes nothing, even where the
/// count wraps around in between.
pub proof fn law_clone_then_drop<T>(heap: HeapView<T>, n: usize)
    requires
        heap.wf(),
        heap.shared(n),
        1 <= heap.count(n),
    ensures
        heap.retain(n).release(n) == heap,
{
    assert(heap.retain(n).release(n).nodes == heap.nodes);
}

/// What is written through one pointer is read through no pointer to another
/// node; so an `Owned` and its clone are independent.
pub proof fn law_writes_are_independent<T>(heap: HeapView<T>, a: usize, b: usize, data: T)
    requires
        a != b,
    ensures
        heap.with_data(a, data).data(b) == heap.data(b),
        heap.with_data(a, data).data(a) == data,
{
}

} // verus!
