//! What readers and writers of a cell decide, said of who is inside it, and what
//! a whole call comes to.

use crate::laws::{law_contents_change_by_swap, lemma_run, possible, run, swaps};
use crate::steps::{lemma_word, DropStep, ReadStep, Reply, WriteStep, READER_MASK, WRITER};
use crate::tally::{lemma_tally_member, lemma_tally_none, lemma_tally_witness, tally};
use crate::world::{is_inside, is_marking, Act, Task, World};
use vstd::prelude::*;

verus! {

/// Whether a writer has cell `c` marked.
pub open spec fn write_marked<T>(w: World<T>, c: int) -> bool {
    exists|s: int| w.has_task(s) && (#[trigger] w.tasks[s]).marking(c)
}

/// Whether nothing but what task `t` is about differs between two worlds.
pub open spec fn only_task_differs<T>(w: World<T>, after: World<T>, t: int) -> bool {
    &&& after.heap == w.heap
    &&& after.cells == w.cells
    &&& after.held == w.held
    &&& after.owned == w.owned
    &&& after.tasks.len() == w.tasks.len()
    &&& forall|i: int| 0 <= i < w.tasks.len() && i != t ==> #[trigger] after.tasks[i] == w.tasks[i]
}

proof fn lemma_write_marked<T>(w: World<T>, c: int)
    ensures
        write_marked(w, c) <==> tally(w.tasks, is_marking(c)) > 0,
{
    if write_marked(w, c) {
        let s = choose|s: int| w.has_task(s) && (#[trigger] w.tasks[s]).marking(c);
        lemma_tally_member(w.tasks, s, is_marking(c));
    }
    if tally(w.tasks, is_marking(c)) > 0 {
        let s = lemma_tally_witness(w.tasks, is_marking(c));
        assert(w.has_task(s) && w.tasks[s].marking(c));
    }
}

/// A reader that looks at a cell looks again exactly if a writer has it marked; is
/// turned away exactly if otherwise as many readers are inside as can be counted;
/// and else wants to be one more of those inside. Looking changes nothing.
pub proof fn law_reader_at_the_door<T>(w: World<T>, c: int, t: int, spurious: bool)
    requires
        w.inv(),
        w.has_task(t),
        w.tasks[t] == (Task::Get { cell: c, reader: ReadStep::Enter }),
    ensures
        only_task_differs(w, w.step(t, spurious), t),
        w.step(t, spurious).tasks[t] matches Task::Get { cell, reader } && cell == c && {
            &&& reader is Enter <==> write_marked(w, c)
            &&& reader is Overflow <==> !write_marked(w, c) && tally(w.tasks, is_inside(c))
                == READER_MASK
            &&& reader is Claim || reader is Enter || reader is Overflow
            &&& reader matches ReadStep::Claim { seen, next } ==> seen == tally(
                w.tasks,
                is_inside(c),
            ) && seen == w.cells[c]->0.word && next == seen + 1
        },
{
    assert(w.task_ok(w.tasks[t]));
    assert(w.has_cell(c) && w.cell_ok(c));
    lemma_write_marked(w, c);
    assert(w.step(t, spurious).cells == w.cells);
}

/// A reader that wants in is counted exactly if the word is still the one it saw
/// and the exchange does not fail; a reader whose exchange fails changes nothing
/// and looks again.
pub proof fn law_reader_wants_in<T>(
    w: World<T>,
    c: int,
    t: int,
    seen: usize,
    next: usize,
    spurious: bool,
)
    requires
        w.inv(),
        w.has_task(t),
        w.tasks[t] == (Task::Get { cell: c, reader: ReadStep::Claim { seen, next } }),
    ensures
        w.cells[c]->0.word == seen && !spurious ==> {
            &&& w.step(t, spurious).tasks[t].inside(c)
            &&& w.step(t, spurious).cells[c]->0.word == w.cells[c]->0.word + 1
            &&& w.step(t, spurious).cells[c]->0.node == w.cells[c]->0.node
        },
        w.cells[c]->0.word != seen || spurious ==> {
            &&& only_task_differs(w, w.step(t, spurious), t)
            &&& w.step(t, spurious).tasks[t] == (Task::Get { cell: c, reader: ReadStep::Enter })
        },
        w.step(t, spurious).heap == w.heap,
{
    assert(w.task_ok(w.tasks[t]));
    assert(w.has_cell(c) && w.cell_ok(c));
    if w.cells[c]->0.word != seen || spurious {
        assert(w.step(t, spurious).cells == w.cells);
    }
}

/// How many steps a reader inside has left.
pub open spec fn steps_left(task: Task) -> nat {
    match task {
        Task::Get { cell, reader: ReadStep::Load } => 3,
        Task::Get { cell, reader: ReadStep::Copy { node } } => 2,
        Task::Get { cell, reader: ReadStep::Leave { node } } => 1,
        _ => 0,
    }
}

/// A reader inside never waits: whatever others do, each of its steps brings it
/// nearer to the end, and in the last one it is through, with a pointer, and
/// counted no longer.
pub proof fn law_reader_inside_never_waits<T>(w: World<T>, c: int, t: int, spurious: bool)
    requires
        w.inv(),
        w.has_task(t),
        w.tasks[t].inside(c),
    ensures
        steps_left(w.tasks[t]) > 1 ==> w.step(t, spurious).tasks[t].inside(c),
        steps_left(w.step(t, spurious).tasks[t]) == steps_left(w.tasks[t]) - 1,
        steps_left(w.tasks[t]) == 1 ==> {
            &&& w.step(t, spurious).tasks[t] matches Task::Get { cell, reader } && reader is Done
            &&& w.step(t, spurious).cells[c]->0.word == w.cells[c]->0.word - 1
        },
        w.step(t, spurious).cells[c]->0.node == w.cells[c]->0.node,
{
    assert(w.task_ok(w.tasks[t]));
    assert(w.has_cell(c) && w.cell_ok(c));
    lemma_tally_member(w.tasks, t, is_inside(c));
}

/// A reader is turned away only from a cell with as many readers inside as can be
/// counted, whatever step it comes from.
pub proof fn law_turned_away_only_when_full<T>(w: World<T>, c: int, t: int, spurious: bool)
    requires
        w.inv(),
        w.has_task(t),
        w.tasks[t] matches Task::Get { cell, reader } && cell == c && !(reader is Overflow),
        w.step(t, spurious).tasks[t] == (Task::Get { cell: c, reader: ReadStep::Overflow }),
    ensures
        tally(w.tasks, is_inside(c)) == READER_MASK,
        !write_marked(w, c),
{
    assert(w.task_ok(w.tasks[t]));
    assert(w.has_cell(c) && w.cell_ok(c));
    lemma_write_marked(w, c);
}

/// A writer that looks at a cell looks again exactly if another has it marked, and
/// else, however many readers are inside, wants to mark it. It keeps the pointer
/// it brought, and looking changes nothing.
pub proof fn law_writer_at_the_door<T>(
    w: World<T>,
    c: int,
    t: int,
    value: usize,
    spurious: bool,
)
    requires
        w.inv(),
        w.has_task(t),
        w.tasks[t] == (Task::Replace { cell: c, writer: WriteStep::Enter { value } }),
    ensures
        only_task_differs(w, w.step(t, spurious), t),
        write_marked(w, c) ==> w.step(t, spurious).tasks[t] == w.tasks[t],
        !write_marked(w, c) ==> w.step(t, spurious).tasks[t] == (Task::Replace {
            cell: c,
            writer: WriteStep::Claim {
                value,
                seen: w.cells[c]->0.word,
                next: (w.cells[c]->0.word + WRITER) as usize,
            },
        }),
        !write_marked(w, c) ==> w.cells[c]->0.word == tally(w.tasks, is_inside(c)),
{
    assert(w.task_ok(w.tasks[t]));
    assert(w.has_cell(c) && w.cell_ok(c));
    lemma_write_marked(w, c);
    assert(w.step(t, spurious).cells == w.cells);
}

/// A writer that wants to mark a cell marks it exactly if the word is still the
/// one it saw and the exchange does not fail; a writer whose exchange fails
/// changes nothing and looks again. Either way it keeps the pointer it brought.
pub proof fn law_writer_wants_in<T>(
    w: World<T>,
    c: int,
    t: int,
    value: usize,
    seen: usize,
    next: usize,
    spurious: bool,
)
    requires
        w.inv(),
        w.has_task(t),
        w.tasks[t] == (Task::Replace { cell: c, writer: WriteStep::Claim { value, seen, next } }),
    ensures
        w.cells[c]->0.word == seen && !spurious ==> {
            &&& w.step(t, spurious).tasks[t] == (Task::Replace {
                cell: c,
                writer: WriteStep::Drain { value },
            })
            &&& w.step(t, spurious).tasks[t].marking(c)
            &&& w.step(t, spurious).cells[c]->0.word == w.cells[c]->0.word + WRITER
            &&& w.step(t, spurious).cells[c]->0.node == w.cells[c]->0.node
        },
        w.cells[c]->0.word != seen || spurious ==> {
            &&& only_task_differs(w, w.step(t, spurious), t)
            &&& w.step(t, spurious).tasks[t] == (Task::Replace {
                cell: c,
                writer: WriteStep::Enter { value },
            })
        },
{
    assert(w.task_ok(w.tasks[t]));
    assert(w.has_cell(c) && w.cell_ok(c));
    if w.cells[c]->0.word != seen || spurious {
        assert(w.step(t, spurious).cells == w.cells);
    }
}

/// A writer that has marked a cell goes on exactly if no reader is inside.
pub proof fn law_writer_waits_for_readers<T>(
    w: World<T>,
    c: int,
    t: int,
    value: usize,
    spurious: bool,
)
    requires
        w.inv(),
        w.has_task(t),
        w.tasks[t] == (Task::Replace { cell: c, writer: WriteStep::Drain { value } }),
    ensures
        only_task_differs(w, w.step(t, spurious), t),
        w.step(t, spurious).tasks[t] == (Task::Replace {
            cell: c,
            writer: if tally(w.tasks, is_inside(c)) == 0 {
                WriteStep::Swap { value }
            } else {
                WriteStep::Drain { value }
            },
        }),
{
    assert(w.task_ok(w.tasks[t]));
    assert(w.has_cell(c) && w.cell_ok(c));
    lemma_tally_member(w.tasks, t, is_marking(c));
    assert(w.step(t, spurious).cells == w.cells);
}

/// A writer that is alone in a cell never waits: it exchanges its pointer for the
/// one inside, then leaves the cell at rest, and is through.
pub proof fn law_writer_alone_never_waits<T>(w: World<T>, c: int, t: int, spurious: bool)
    requires
        w.inv(),
        w.has_task(t),
        w.tasks[t].alone(c),
    ensures
        ({
            let after = w.step(t, spurious);
            match w.tasks[t] {
                Task::Replace { cell, writer: WriteStep::Swap { value } } => {
                    &&& after.cells[c]->0.node == value
                    &&& after.tasks[t] == (Task::Replace {
                        cell: c,
                        writer: WriteStep::Reopen { old: w.cells[c]->0.node },
                    })
                },
                Task::Replace { cell, writer: WriteStep::Reopen { old } } => {
                    &&& after.cells[c]->0.node == w.cells[c]->0.node
                    &&& after.cells[c]->0.word == 0
                    &&& after.tasks[t] == (Task::Replace {
                        cell: c,
                        writer: WriteStep::Done { old },
                    })
                },
                _ => false,
            }
        }),
        w.step(t, spurious).heap == w.heap,
{
    assert(w.task_ok(w.tasks[t]));
    assert(w.has_cell(c));
}

/// Whether act number `k` is a step of task `t` in which it swaps the contents of
/// cell `c`.
pub open spec fn swaps_at<T>(w: World<T>, acts: Seq<Act<T>>, k: int, t: int, c: int) -> bool {
    &&& swaps(run(w, acts.take(k)), acts[k], c)
    &&& acts[k] matches Act::Step { task, spurious } && task == t
}

/// Whether act number `k` is the only one in which task `t` swaps the contents of
/// cell `c`; it finds `previous` inside, and leaves `value` there.
pub open spec fn swaps_once_at<T>(
    w: World<T>,
    acts: Seq<Act<T>>,
    k: int,
    t: int,
    c: int,
    value: usize,
    previous: usize,
) -> bool {
    &&& 0 <= k < acts.len()
    &&& swaps_at(w, acts, k, t, c)
    &&& forall|j: int| 0 <= j < acts.len() && #[trigger] swaps_at(w, acts, j, t, c) ==> j == k
    &&& run(w, acts.take(k)).cells[c]->0.node == previous
    &&& run(w, acts.take(k + 1)).cells[c]->0.node == value
}

/// A `replace` that is through has put its pointer in: whatever happens from when
/// it begins until it is through, exactly once in between did it exchange the
/// contents of the cell, which from then on held what it was called with, for what
/// it returns, which the cell held right before.
pub proof fn law_replace_swaps_exactly_once<T>(
    w: World<T>,
    acts: Seq<Act<T>>,
    c: int,
    t: int,
    value: usize,
    previous: usize,
)
    requires
        w.inv(),
        w.has_task(t),
        w.tasks[t] == (Task::Replace { cell: c, writer: WriteStep::Enter { value } }),
        possible(w, acts),
        run(w, acts).tasks[t] == (Task::Replace {
            cell: c,
            writer: WriteStep::Done { old: previous },
        }),
    ensures
        exists|k: int| #[trigger] swaps_once_at(w, acts, k, t, c, value, previous),
{
    lemma_replace_so_far(w, acts, c, t, value);
}

/// The same of a call from its very beginning.
pub proof fn law_whole_replace<T>(
    w: World<T>,
    acts: Seq<Act<T>>,
    c: int,
    value: usize,
    previous: usize,
)
    requires
        w.inv(),
        w.enabled(Act::BeginReplace { cell: c, id: value }),
        possible(w.apply(Act::BeginReplace { cell: c, id: value }), acts),
        run(w.apply(Act::BeginReplace { cell: c, id: value }), acts).tasks[w.tasks.len() as int]
            == (Task::Replace { cell: c, writer: WriteStep::Done { old: previous } }),
    ensures
        exists|k: int| #[trigger]
            swaps_once_at(
                w.apply(Act::BeginReplace { cell: c, id: value }),
                acts,
                k,
                w.tasks.len() as int,
                c,
                value,
                previous,
            ),
{
    let begun = w.apply(Act::BeginReplace { cell: c, id: value });
    w.lemma_inv(Act::BeginReplace { cell: c, id: value });
    law_replace_swaps_exactly_once(begun, acts, c, w.tasks.len() as int, value, previous);
}

/// Whether task `t` has not swapped the contents of cell `c` yet.
spec fn no_swap_yet<T>(w: World<T>, acts: Seq<Act<T>>, t: int, c: int) -> bool {
    forall|j: int| 0 <= j < acts.len() ==> !#[trigger] swaps_at(w, acts, j, t, c)
}

/// Whether task `t` has swapped the contents of cell `c` once, `previous` for
/// `value`.
spec fn swapped_once<T>(
    w: World<T>,
    acts: Seq<Act<T>>,
    t: int,
    c: int,
    value: usize,
    previous: usize,
) -> bool {
    exists|k: int| #[trigger] swaps_once_at(w, acts, k, t, c, value, previous)
}

/// What a `replace` has done after some acts.
spec fn replace_so_far<T>(
    w: World<T>,
    acts: Seq<Act<T>>,
    c: int,
    t: int,
    value: usize,
) -> bool {
    match run(w, acts).tasks[t] {
        Task::Idle => true,
        Task::Replace { cell, writer } => cell == c && match writer {
            WriteStep::Enter { value: v } => v == value && no_swap_yet(w, acts, t, c),
            WriteStep::Claim { value: v, seen, next } => v == value && no_swap_yet(w, acts, t, c),
            WriteStep::Drain { value: v } => v == value && no_swap_yet(w, acts, t, c),
            WriteStep::Swap { value: v } => v == value && no_swap_yet(w, acts, t, c),
            WriteStep::Reopen { old: previous } => swapped_once(w, acts, t, c, value, previous),
            WriteStep::Done { old: previous } => swapped_once(w, acts, t, c, value, previous),
        },
        _ => false,
    }
}

/// A `replace` swaps on its way from the wait to the reopening, and nowhere else.
proof fn lemma_replace_so_far<T>(w: World<T>, acts: Seq<Act<T>>, c: int, t: int, value: usize)
    requires
        w.inv(),
        w.has_task(t),
        w.tasks[t] == (Task::Replace { cell: c, writer: WriteStep::Enter { value } }),
        possible(w, acts),
    ensures
        run(w, acts).has_task(t),
        replace_so_far(w, acts, c, t, value),
    decreases acts.len(),
{
    if acts.len() > 0 {
        let m = acts.len() - 1;
        let fewer = acts.drop_last();
        let before = run(w, fewer);
        let act = acts.last();
        let now = run(w, acts);
        lemma_replace_so_far(w, fewer, c, t, value);
        lemma_run(w, fewer);
        assert(acts.take(m) == fewer);
        assert(acts.take(m + 1) == acts);
        assert(before.task_ok(before.tasks[t]));
        assert forall|j: int| 0 <= j < m implies #[trigger] swaps_at(w, acts, j, t, c) == swaps_at(
            w,
            fewer,
            j,
            t,
            c,
        ) by {
            assert(fewer.take(j) == acts.take(j));
            assert(fewer[j] == acts[j]);
        }
        if swaps_at(w, acts, m, t, c) {
            let previous = before.cells[c]->0.node;
            assert(now.has_cell(c));
            law_contents_change_by_swap(before, act, c);
            assert(swaps_once_at(w, acts, m, t, c, value, previous));
            assert(now.tasks[t] == (Task::Replace {
                cell: c,
                writer: WriteStep::Reopen { old: previous },
            }));
            assert(replace_so_far(w, acts, c, t, value));
        } else if let Task::Replace { cell, writer } = before.tasks[t] {
            if writer is Reopen || writer is Done {
                let previous = if writer is Reopen {
                    writer->Reopen_old
                } else {
                    writer->Done_old
                };
                let k = choose|k: int| #[trigger] swaps_once_at(w, fewer, k, t, c, value, previous);
                assert(fewer.take(k) == acts.take(k));
                assert(fewer.take(k + 1) == acts.take(k + 1));
                assert(swaps_at(w, acts, k, t, c));
                assert(swaps_once_at(w, acts, k, t, c, value, previous));
                assert(swapped_once(w, acts, t, c, value, previous));
                assert(replace_so_far(w, acts, c, t, value));
            } else {
                assert(no_swap_yet(w, acts, t, c));
                assert(replace_so_far(w, acts, c, t, value));
            }
        }
    }
}

/// Who is through makes no more accesses, and who is not makes one.
pub proof fn law_accesses_until_through<A>(reader: ReadStep<A>, writer: WriteStep<A>)
    ensures
        reader.access_of() is None <==> reader is Done || reader is Overflow,
        writer.access_of() is None <==> writer is Done,
{
}

/// A reply to an access that a reader did not make leaves it where it is.
pub proof fn law_reader_ignores_other_replies<A>(step: ReadStep<A>, reply: Reply<A>)
    requires
        !(step is Enter && reply is Word),
        !(step is Claim && reply is Exchanged),
        !(step is Load && reply is Node),
        !((step is Copy || step is Leave) && reply is Done),
    ensures
        step.after(reply) == step,
{
}

/// A reply to an access that a writer did not make leaves it where it is.
pub proof fn law_writer_ignores_other_replies<A>(step: WriteStep<A>, reply: Reply<A>)
    requires
        !((step is Enter || step is Drain) && reply is Word),
        !(step is Claim && reply is Exchanged),
        !(step is Swap && reply is Node),
        !(step is Reopen && reply is Done),
    ensures
        step.after(reply) == step,
{
}

/// A pointer that is given up goes on to the queue exactly if it found a count of
/// one, and in no case takes itself off the count twice.
pub proof fn law_drop_decides<A>(step: DropStep<A>, node: A, previous: usize)
    requires
        step == (DropStep::Decrement { node }),
    ensures
        step.after_decrement(previous) == (DropStep::Enqueue { node }) <==> previous == 1,
        step.after_decrement(previous) is Done <==> previous != 1,
        (DropStep::Enqueue { node }).after_enqueue() is Done,
        step.after_enqueue() == step,
        (DropStep::Enqueue { node }).after_decrement(previous) == (DropStep::Enqueue { node }),
{
}

} // verus!
