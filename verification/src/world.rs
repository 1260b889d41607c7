//! What holds of every interleaving.
//!
//! A [`World`] is everything that pointers, cells and threads have made of a
//! heap so far; an [`Act`] is one thing that can happen next. The effect of
//! each act is the one that the contract of the function behind it states.
//! [`World::inv`] holds in every world that acts can lead to, however they are
//! interleaved.

use crate::heap::{HeapView, Node};
use crate::shared_cell::CellView;
use crate::steps::{lemma_word, marked, DropStep, ReadStep, WriteStep, READER_MASK, WRITER};
use crate::tally::{
    lemma_tally_implies, lemma_tally_member, lemma_tally_none,
    lemma_tally_push, lemma_tally_update, tally, unit,
};
use vstd::multiset::Multiset;
use vstd::prelude::*;

verus! {

/// What a thread is about.
pub enum Task {
    /// Nothing.
    Idle,
    /// A `get` on a cell.
    Get { cell: int, reader: ReadStep<usize> },
    /// A `replace` on a cell.
    Replace { cell: int, writer: WriteStep<usize> },
    /// The giving up of a `Shared`.
    Drop { dropper: DropStep<usize> },
}

impl Task {
    /// Whether the task is at work on cell `c`.
    pub open spec fn on(self, c: int) -> bool {
        match self {
            Task::Idle => false,
            Task::Get { cell, reader: step } => cell == c,
            Task::Replace { cell, writer: step } => cell == c,
            Task::Drop { dropper } => false,
        }
    }

    /// Whether the task is a reader that cell `c` counts.
    pub open spec fn inside(self, c: int) -> bool {
        self matches Task::Get { cell, reader: step } && cell == c && (step is Load || step is Copy
            || step is Leave)
    }

    /// Whether the task is a writer that has marked cell `c`.
    pub open spec fn marking(self, c: int) -> bool {
        self matches Task::Replace { cell, writer: step } && cell == c && (step is Drain || step is Swap
            || step is Reopen)
    }

    /// Whether the task is a writer that has seen the last reader leave.
    pub open spec fn alone(self, c: int) -> bool {
        self matches Task::Replace { cell, writer: step } && cell == c && (step is Swap || step is Reopen)
    }

    /// Whether the task holds a pointer to `n`.
    pub open spec fn holds(self, n: usize) -> bool {
        match self {
            Task::Idle => false,
            Task::Get { cell, reader: step } => match step {
                ReadStep::Leave { node } => node == n,
                ReadStep::Done { node } => node == n,
                _ => false,
            },
            Task::Replace { cell, writer: step } => match step {
                WriteStep::Enter { value } => value == n,
                WriteStep::Claim { value, seen, next } => value == n,
                WriteStep::Drain { value } => value == n,
                WriteStep::Swap { value } => value == n,
                WriteStep::Reopen { old } => old == n,
                WriteStep::Done { old } => old == n,
            },
            Task::Drop { dropper } => dropper == (DropStep::Decrement { node: n }),
        }
    }

    /// Whether the task gave the last pointer to `n` up and is about to queue it.
    pub open spec fn enqueues(self, n: usize) -> bool {
        self == (Task::Drop { dropper: DropStep::Enqueue { node: n } })
    }
}

pub open spec fn is_inside(c: int) -> spec_fn(Task) -> bool {
    |t: Task| t.inside(c)
}

pub open spec fn is_marking(c: int) -> spec_fn(Task) -> bool {
    |t: Task| t.marking(c)
}

pub open spec fn is_alone(c: int) -> spec_fn(Task) -> bool {
    |t: Task| t.alone(c)
}

pub open spec fn task_holds(n: usize) -> spec_fn(Task) -> bool {
    |t: Task| t.holds(n)
}

pub open spec fn task_enqueues(n: usize) -> spec_fn(Task) -> bool {
    |t: Task| t.enqueues(n)
}

pub open spec fn cell_holds(n: usize) -> spec_fn(Option<CellView>) -> bool {
    |cell: Option<CellView>| cell matches Some(v) && v.node == n
}

/// A heap with everything that refers to it.
pub struct World<T> {
    pub heap: HeapView<T>,
    /// The cells; `None` stands for one that is gone.
    pub cells: Seq<Option<CellView>>,
    pub tasks: Seq<Task>,
    /// The nodes of the `Shared` pointers that are in somebody's hands.
    pub held: Multiset<usize>,
    /// The nodes of the `Owned` pointers.
    pub owned: Set<usize>,
}

/// One thing that can happen.
pub enum Act<T> {
    /// `Collector::new`.
    NewCollector,
    /// `Collector::collect`.
    Collect { queue: int },
    /// `Collector::collect_one` of a queue that is not empty.
    CollectOne { queue: int },
    /// `Owned::new`, or `Owned::clone` of a pointer with that collector.
    NewOwned { id: usize, collector: usize, data: T },
    /// A write through `Owned::deref_mut`.
    WriteOwned { id: usize, data: T },
    /// `Owned::drop`.
    DropOwned { id: usize },
    /// `Shared::new`.
    NewShared { id: usize, collector: usize, data: T },
    /// `Shared::clone`.
    CloneShared { id: usize },
    /// A write through what `Shared::get_mut` returned.
    WriteShared { id: usize, data: T },
    /// `Shared::begin_drop`.
    DropShared { id: usize },
    /// `SharedCell::new`.
    NewCell { id: usize },
    /// `SharedCell::into_inner`.
    IntoInner { cell: int },
    /// `SharedCell::drop`, up to where it gives the contained pointer up.
    DropCell { cell: int },
    /// `SharedCell::begin_get`.
    BeginGet { cell: int },
    /// `SharedCell::begin_replace`.
    BeginReplace { cell: int, id: usize },
    /// `SharedCell::step_get`, `SharedCell::step_replace` or `Dropping::step`.
    Step { task: int, spurious: bool },
    /// `Getting::finish` or `Replacing::finish` of one that is through, or the
    /// end of a `get` that was turned away or of a pointer that is given up.
    Finish { task: int },
}

impl<T> World<T> {
    /// A world where nothing has happened yet.
    pub open spec fn empty(tag: int) -> Self {
        World {
            heap: HeapView { tag, nodes: Map::empty(), queues: Seq::empty() },
            cells: Seq::empty(),
            tasks: Seq::empty(),
            held: Multiset::empty(),
            owned: Set::empty(),
        }
    }

    /// How many `Shared` pointers to `n` there are: in somebody's hands, in
    /// cells, and with tasks.
    pub open spec fn pointers(self, n: usize) -> nat {
        self.held.count(n) + tally(self.cells, cell_holds(n)) + tally(self.tasks, task_holds(n))
    }

    /// How many tasks are about to queue `n`.
    pub open spec fn enqueuers(self, n: usize) -> nat {
        tally(self.tasks, task_enqueues(n))
    }

    pub open spec fn has_cell(self, c: int) -> bool {
        0 <= c < self.cells.len() && self.cells[c] is Some
    }

    pub open spec fn has_task(self, t: int) -> bool {
        0 <= t < self.tasks.len()
    }

    /// Whether nobody is at work on cell `c`, so that it can be given up.
    pub open spec fn unused(self, c: int) -> bool {
        forall|t: int| 0 <= t < self.tasks.len() ==> !(#[trigger] self.tasks[t]).on(c)
    }

    /// Whether one more pointer to `n` can be counted.
    pub open spec fn countable(self, n: usize) -> bool {
        self.heap.count(n) < usize::MAX
    }

    /// Whether an act can happen: pointers and cells are used only while
    /// somebody has them, and no count of pointers outgrows a machine word.
    pub open spec fn enabled(self, act: Act<T>) -> bool {
        match act {
            Act::NewCollector => true,
            Act::Collect { queue } => 0 <= queue < self.heap.queues.len(),
            Act::CollectOne { queue } => 0 <= queue < self.heap.queues.len()
                && self.heap.queues[queue].len() > 0,
            Act::NewOwned { id, collector, data } => collector < self.heap.queues.len()
                && !self.heap.nodes.contains_key(id),
            Act::WriteOwned { id, data } => self.owned.contains(id),
            Act::DropOwned { id } => self.owned.contains(id),
            Act::NewShared { id, collector, data } => collector < self.heap.queues.len()
                && !self.heap.nodes.contains_key(id),
            Act::CloneShared { id } => self.held.contains(id) && self.countable(id),
            Act::WriteShared { id, data } => self.held.contains(id) && self.heap.count(id) == 1,
            Act::DropShared { id } => self.held.contains(id),
            Act::NewCell { id } => self.held.contains(id),
            Act::IntoInner { cell } => self.has_cell(cell) && self.unused(cell),
            Act::DropCell { cell } => self.has_cell(cell) && self.unused(cell),
            Act::BeginGet { cell } => self.has_cell(cell),
            Act::BeginReplace { cell, id } => self.has_cell(cell) && self.held.contains(id),
            Act::Step { task, spurious } => self.has_task(task) && (self.tasks[task] matches
                Task::Get { cell, reader: step } ==> (step matches ReadStep::Copy { node }
                ==> self.countable(node))),
            Act::Finish { task } => self.has_task(task) && match self.tasks[task] {
                Task::Idle => false,
                Task::Get { cell, reader: step } => step is Done || step is Overflow,
                Task::Replace { cell, writer: step } => step is Done,
                Task::Drop { dropper } => dropper is Done,
            },
        }
    }

    pub open spec fn with_heap(self, heap: HeapView<T>) -> Self {
        World { heap, ..self }
    }

    /// The world after task `t` took a step.
    pub open spec fn step(self, t: int, spurious: bool) -> Self {
        match self.tasks[t] {
            Task::Idle => self,
            Task::Get { cell, reader: step } => match step.access_of() {
                Some(access) => World {
                    heap: self.heap.after(access),
                    cells: self.cells.update(
                        cell,
                        Some(self.cells[cell]->0.after(access, spurious)),
                    ),
                    tasks: self.tasks.update(
                        t,
                        Task::Get {
                            cell,
                            reader: step.after(self.cells[cell]->0.reply(access, spurious)),
                        },
                    ),
                    ..self
                },
                None => self,
            },
            Task::Replace { cell, writer: step } => match step.access_of() {
                Some(access) => World {
                    cells: self.cells.update(
                        cell,
                        Some(self.cells[cell]->0.after(access, spurious)),
                    ),
                    tasks: self.tasks.update(
                        t,
                        Task::Replace {
                            cell,
                            writer: step.after(self.cells[cell]->0.reply(access, spurious)),
                        },
                    ),
                    ..self
                },
                None => self,
            },
            Task::Drop { dropper } => match dropper {
                DropStep::Decrement { node } => World {
                    heap: self.heap.decrement(node),
                    tasks: self.tasks.update(
                        t,
                        Task::Drop { dropper: dropper.after_decrement(self.heap.count(node)) },
                    ),
                    ..self
                },
                DropStep::Enqueue { node } => World {
                    heap: self.heap.enqueue(node),
                    tasks: self.tasks.update(t, Task::Drop { dropper: dropper.after_enqueue() }),
                    ..self
                },
                DropStep::Done => self,
            },
        }
    }

    /// The pointer that task `t` hands over when it is through: none if it is a
    /// `get` that was turned away, or gave a pointer up.
    pub open spec fn result(self, t: int) -> Option<usize> {
        match self.tasks[t] {
            Task::Get { cell, reader: ReadStep::Done { node } } => Some(node),
            Task::Replace { cell, writer: WriteStep::Done { old } } => Some(old),
            _ => None,
        }
    }

    /// The world after an act.
    pub open spec fn apply(self, act: Act<T>) -> Self {
        match act {
            Act::NewCollector => self.with_heap(self.heap.add_queue()),
            Act::Collect { queue } => self.with_heap(self.heap.collect(queue)),
            Act::CollectOne { queue } => self.with_heap(self.heap.collect_one(queue)),
            Act::NewOwned { id, collector, data } => World {
                heap: self.heap.put(id, Node { collector, count: None, data }),
                owned: self.owned.insert(id),
                ..self
            },
            Act::WriteOwned { id, data } => self.with_heap(self.heap.with_data(id, data)),
            Act::DropOwned { id } => World {
                heap: self.heap.enqueue(id),
                owned: self.owned.remove(id),
                ..self
            },
            Act::NewShared { id, collector, data } => World {
                heap: self.heap.put(id, Node { collector, count: Some(1usize), data }),
                held: self.held.insert(id),
                ..self
            },
            Act::CloneShared { id } => World {
                heap: self.heap.retain(id),
                held: self.held.insert(id),
                ..self
            },
            Act::WriteShared { id, data } => self.with_heap(self.heap.with_data(id, data)),
            Act::DropShared { id } => World {
                held: self.held.remove(id),
                tasks: self.tasks.push(
                    Task::Drop { dropper: DropStep::Decrement { node: id } },
                ),
                ..self
            },
            Act::NewCell { id } => World {
                held: self.held.remove(id),
                cells: self.cells.push(Some(CellView { word: 0, node: id })),
                ..self
            },
            Act::IntoInner { cell } => World {
                held: self.held.insert(self.cells[cell]->0.node),
                cells: self.cells.update(cell, None),
                ..self
            },
            Act::DropCell { cell } => World {
                cells: self.cells.update(cell, None),
                tasks: self.tasks.push(
                    Task::Drop { dropper: DropStep::Decrement { node: self.cells[cell]->0.node } },
                ),
                ..self
            },
            Act::BeginGet { cell } => World {
                tasks: self.tasks.push(Task::Get { cell, reader: ReadStep::Enter }),
                ..self
            },
            Act::BeginReplace { cell, id } => World {
                held: self.held.remove(id),
                tasks: self.tasks.push(
                    Task::Replace { cell, writer: WriteStep::Enter { value: id } },
                ),
                ..self
            },
            Act::Step { task, spurious } => self.step(task, spurious),
            Act::Finish { task } => World {
                held: match self.result(task) {
                    Some(node) => self.held.insert(node),
                    None => self.held,
                },
                tasks: self.tasks.update(task, Task::Idle),
                ..self
            },
        }
    }

    /// A counted node is live as long as there are pointers to it, or the task
    /// that gave the last one up has yet to queue it. Its count is how many
    /// pointers there are, and at a count of zero there is exactly one such task.
    pub open spec fn counts_exact(self) -> bool {
        &&& forall|n: usize| #[trigger]
            self.heap.shared(n) <==> self.pointers(n) + self.enqueuers(n) > 0
        &&& forall|n: usize| #[trigger]
            self.heap.shared(n) ==> self.heap.count(n) == self.pointers(n) && self.enqueuers(n)
                == unit(self.pointers(n) == 0)
    }

    /// Exactly the nodes with an `Owned` pointer are live and uncounted.
    pub open spec fn owned_exact(self) -> bool {
        forall|n: usize| #[trigger] self.heap.owned(n) <==> self.owned.contains(n)
    }

    /// The word of a cell says who is inside: the readers that entered and have
    /// not left, and at most one writer; and with a writer that has seen the
    /// readers leave there is no reader.
    pub open spec fn cell_ok(self, c: int) -> bool {
        let readers = tally(self.tasks, is_inside(c));
        let writers = tally(self.tasks, is_marking(c));
        &&& readers <= READER_MASK
        &&& writers <= 1
        &&& self.cells[c]->0.word == readers + (if writers == 1 {
            WRITER as int
        } else {
            0
        })
        &&& tally(self.tasks, is_alone(c)) > 0 ==> readers == 0
    }

    /// A task works on a cell that exists, what it saw is what it may act on,
    /// and the node that a reader is about to count is the one in the cell.
    pub open spec fn task_ok(self, task: Task) -> bool {
        match task {
            Task::Idle => true,
            Task::Get { cell, reader: step } => self.has_cell(cell) && match step {
                ReadStep::Claim { seen, next } => seen < READER_MASK && next == seen + 1,
                ReadStep::Copy { node } => node == self.cells[cell]->0.node,
                _ => true,
            },
            Task::Replace { cell, writer: step } => self.has_cell(cell) && match step {
                WriteStep::Claim { value, seen, next } => !marked(seen) && next == seen + WRITER,
                _ => true,
            },
            Task::Drop { dropper } => true,
        }
    }

    /// What holds of every world.
    pub open spec fn inv(self) -> bool {
        &&& self.heap.wf()
        &&& self.counts_exact()
        &&& self.owned_exact()
        &&& forall|c: int| #[trigger] self.has_cell(c) ==> self.cell_ok(c)
        &&& forall|t: int| 0 <= t < self.tasks.len() ==> self.task_ok(#[trigger] self.tasks[t])
    }
}


/// How the counts over tasks change when task `t` becomes `task`.
proof fn lemma_tasks_update(tasks: Seq<Task>, t: int, task: Task)
    requires
        0 <= t < tasks.len(),
    ensures
        forall|c: int| #[trigger]
            tally(tasks.update(t, task), is_inside(c)) == tally(tasks, is_inside(c)) + unit(
                task.inside(c),
            ) - unit(tasks[t].inside(c)),
        forall|c: int| #[trigger]
            tally(tasks.update(t, task), is_marking(c)) == tally(tasks, is_marking(c)) + unit(
                task.marking(c),
            ) - unit(tasks[t].marking(c)),
        forall|c: int| #[trigger]
            tally(tasks.update(t, task), is_alone(c)) == tally(tasks, is_alone(c)) + unit(
                task.alone(c),
            ) - unit(tasks[t].alone(c)),
        forall|n: usize| #[trigger]
            tally(tasks.update(t, task), task_holds(n)) == tally(tasks, task_holds(n)) + unit(
                task.holds(n),
            ) - unit(tasks[t].holds(n)),
        forall|n: usize| #[trigger]
            tally(tasks.update(t, task), task_enqueues(n)) == tally(tasks, task_enqueues(n)) + unit(
                task.enqueues(n),
            ) - unit(tasks[t].enqueues(n)),
{
    assert forall|c: int| #[trigger]
        tally(tasks.update(t, task), is_inside(c)) == tally(tasks, is_inside(c)) + unit(
            task.inside(c),
        ) - unit(tasks[t].inside(c)) by {
        lemma_tally_update(tasks, t, task, is_inside(c));
    }
    assert forall|c: int| #[trigger]
        tally(tasks.update(t, task), is_marking(c)) == tally(tasks, is_marking(c)) + unit(
            task.marking(c),
        ) - unit(tasks[t].marking(c)) by {
        lemma_tally_update(tasks, t, task, is_marking(c));
    }
    assert forall|c: int| #[trigger]
        tally(tasks.update(t, task), is_alone(c)) == tally(tasks, is_alone(c)) + unit(
            task.alone(c),
        ) - unit(tasks[t].alone(c)) by {
        lemma_tally_update(tasks, t, task, is_alone(c));
    }
    assert forall|n: usize| #[trigger]
        tally(tasks.update(t, task), task_holds(n)) == tally(tasks, task_holds(n)) + unit(
            task.holds(n),
        ) - unit(tasks[t].holds(n)) by {
        lemma_tally_update(tasks, t, task, task_holds(n));
    }
    assert forall|n: usize| #[trigger]
        tally(tasks.update(t, task), task_enqueues(n)) == tally(tasks, task_enqueues(n)) + unit(
            task.enqueues(n),
        ) - unit(tasks[t].enqueues(n)) by {
        lemma_tally_update(tasks, t, task, task_enqueues(n));
    }
}

/// How the counts over tasks change when another task begins.
proof fn lemma_tasks_push(tasks: Seq<Task>, task: Task)
    ensures
        forall|c: int| #[trigger]
            tally(tasks.push(task), is_inside(c)) == tally(tasks, is_inside(c)) + unit(
                task.inside(c),
            ),
        forall|c: int| #[trigger]
            tally(tasks.push(task), is_marking(c)) == tally(tasks, is_marking(c)) + unit(
                task.marking(c),
            ),
        forall|c: int| #[trigger]
            tally(tasks.push(task), is_alone(c)) == tally(tasks, is_alone(c)) + unit(
                task.alone(c),
            ),
        forall|n: usize| #[trigger]
            tally(tasks.push(task), task_holds(n)) == tally(tasks, task_holds(n)) + unit(
                task.holds(n),
            ),
        forall|n: usize| #[trigger]
            tally(tasks.push(task), task_enqueues(n)) == tally(tasks, task_enqueues(n)) + unit(
                task.enqueues(n),
            ),
{
    assert forall|c: int| #[trigger]
        tally(tasks.push(task), is_inside(c)) == tally(tasks, is_inside(c)) + unit(
            task.inside(c),
        ) by {
        lemma_tally_push(tasks, task, is_inside(c));
    }
    assert forall|c: int| #[trigger]
        tally(tasks.push(task), is_marking(c)) == tally(tasks, is_marking(c)) + unit(
            task.marking(c),
        ) by {
        lemma_tally_push(tasks, task, is_marking(c));
    }
    assert forall|c: int| #[trigger]
        tally(tasks.push(task), is_alone(c)) == tally(tasks, is_alone(c)) + unit(
            task.alone(c),
        ) by {
        lemma_tally_push(tasks, task, is_alone(c));
    }
    assert forall|n: usize| #[trigger]
        tally(tasks.push(task), task_holds(n)) == tally(tasks, task_holds(n)) + unit(
            task.holds(n),
        ) by {
        lemma_tally_push(tasks, task, task_holds(n));
    }
    assert forall|n: usize| #[trigger]
        tally(tasks.push(task), task_enqueues(n)) == tally(tasks, task_enqueues(n)) + unit(
            task.enqueues(n),
        ) by {
        lemma_tally_push(tasks, task, task_enqueues(n));
    }
}

/// How many cells hold a pointer to a node once cell `c` becomes `cell`.
proof fn lemma_cells_update(cells: Seq<Option<CellView>>, c: int, cell: Option<CellView>)
    requires
        0 <= c < cells.len(),
    ensures
        forall|n: usize| #[trigger]
            tally(cells.update(c, cell), cell_holds(n)) == tally(cells, cell_holds(n)) + unit(
                cell_holds(n)(cell),
            ) - unit(cell_holds(n)(cells[c])),
{
    assert forall|n: usize| #[trigger]
        tally(cells.update(c, cell), cell_holds(n)) == tally(cells, cell_holds(n)) + unit(
            cell_holds(n)(cell),
        ) - unit(cell_holds(n)(cells[c])) by {
        lemma_tally_update(cells, c, cell, cell_holds(n));
    }
}

/// How many cells hold a pointer to a node once there is another cell.
proof fn lemma_cells_push(cells: Seq<Option<CellView>>, cell: Option<CellView>)
    ensures
        forall|n: usize| #[trigger]
            tally(cells.push(cell), cell_holds(n)) == tally(cells, cell_holds(n)) + unit(
                cell_holds(n)(cell),
            ),
{
    assert forall|n: usize| #[trigger]
        tally(cells.push(cell), cell_holds(n)) == tally(cells, cell_holds(n)) + unit(
            cell_holds(n)(cell),
        ) by {
        lemma_tally_push(cells, cell, cell_holds(n));
    }
}

impl<T> World<T> {
    /// What the invariant says of node `n`.
    spec fn node_fine(self, n: usize) -> bool {
        &&& self.heap.shared(n) <==> self.pointers(n) + self.enqueuers(n) > 0
        &&& self.heap.shared(n) ==> self.heap.count(n) == self.pointers(n) && self.enqueuers(n)
            == unit(self.pointers(n) == 0)
        &&& self.heap.owned(n) <==> self.owned.contains(n)
    }

    /// What the invariant says of cell `c`.
    spec fn cell_fine(self, c: int) -> bool {
        self.has_cell(c) ==> self.cell_ok(c)
    }

    /// What the invariant says of task `t`.
    spec fn task_fine(self, t: int) -> bool {
        self.has_task(t) ==> self.task_ok(self.tasks[t])
    }

    /// The invariant survives a change after which it holds of each node, cell
    /// and task of which it held before.
    proof fn lemma_carry(self, after: Self)
        requires
            self.inv(),
            after.heap.wf(),
            forall|n: usize| self.node_fine(n) ==> #[trigger] after.node_fine(n),
            forall|c: int| self.cell_fine(c) ==> #[trigger] after.cell_fine(c),
            forall|t: int| self.task_fine(t) ==> #[trigger] after.task_fine(t),
        ensures
            after.inv(),
    {
        assert forall|n: usize| #[trigger] after.node_fine(n) by {
            assert(self.heap.shared(n) <==> self.pointers(n) + self.enqueuers(n) > 0);
            assert(self.heap.owned(n) <==> self.owned.contains(n));
        }
        assert forall|c: int| #[trigger] after.has_cell(c) implies after.cell_ok(c) by {
            assert(self.cell_fine(c) ==> after.cell_fine(c));
        }
        assert forall|t: int| 0 <= t < after.tasks.len() implies after.task_ok(
            #[trigger] after.tasks[t],
        ) by {
            assert(self.task_fine(t) ==> after.task_fine(t));
        }
        assert forall|n: usize| (#[trigger] after.heap.shared(n) <==> after.pointers(n)
            + after.enqueuers(n) > 0) && (after.heap.shared(n) ==> after.heap.count(n)
            == after.pointers(n) && after.enqueuers(n) == unit(after.pointers(n) == 0)) by {
            assert(after.node_fine(n));
        }
        assert forall|n: usize| #[trigger] after.heap.owned(n) <==> after.owned.contains(n) by {
            assert(after.node_fine(n));
        }
    }

    /// The invariant survives what happens to the heap alone.
    proof fn lemma_heap_act(self, act: Act<T>)
        requires
            self.inv(),
            self.enabled(act),
            act is NewCollector || act is Collect || act is CollectOne || act is NewOwned
                || act is WriteOwned || act is DropOwned || act is WriteShared,
        ensures
            self.apply(act).inv(),
    {
        let after = self.apply(act);
        assert forall|n: usize| after.pointers(n) == self.pointers(n) by {}
        match act {
            Act::NewCollector => {
                self.heap.lemma_add_queue();
            },
            Act::Collect { queue } => {
                self.heap.lemma_collect(queue);
            },
            Act::CollectOne { queue } => {
                self.heap.lemma_collect_one(queue);
            },
            Act::NewOwned { id, collector, data } => {
                self.heap.lemma_put(id, Node { collector, count: None, data });
                assert(!self.heap.shared(id));
            },
            Act::WriteOwned { id, data } => {
                assert(self.heap.owned(id));
                self.heap.lemma_with_data(id, data);
            },
            Act::DropOwned { id } => {
                assert(self.heap.owned(id));
                self.heap.lemma_enqueue(id);
            },
            Act::WriteShared { id, data } => {
                assert(self.heap.shared(id));
                self.heap.lemma_with_data(id, data);
            },
            _ => {},
        }
        self.lemma_carry(after);
    }

    /// The invariant survives what happens to a pointer in somebody's hands.
    proof fn lemma_pointer_act(self, act: Act<T>)
        requires
            self.inv(),
            self.enabled(act),
            act is NewShared || act is CloneShared,
        ensures
            self.apply(act).inv(),
    {
        let after = self.apply(act);
        match act {
            Act::NewShared { id, collector, data } => {
                self.heap.lemma_put(id, Node { collector, count: Some(1usize), data });
                assert(!self.heap.shared(id));
                assert(!self.heap.owned(id));
                assert forall|n: usize| after.pointers(n) == self.pointers(n) + unit(n == id) by {}
            },
            Act::CloneShared { id } => {
                assert(self.heap.shared(id));
                self.heap.lemma_with_count(id, self.heap.count(id).wrapping_add(1));
                assert forall|n: usize| after.pointers(n) == self.pointers(n) + unit(n == id) by {}
            },
            _ => {},
        }
        self.lemma_carry(after);
    }

    /// The invariant survives the making and giving up of cells.
    proof fn lemma_cell_act(self, act: Act<T>)
        requires
            self.inv(),
            self.enabled(act),
            act is NewCell || act is IntoInner || act is DropCell,
        ensures
            self.apply(act).inv(),
    {
        let after = self.apply(act);
        match act {
            Act::NewCell { id } => {
                lemma_cells_push(self.cells, Some(CellView { word: 0, node: id }));
                assert forall|n: usize| after.pointers(n) == self.pointers(n) by {}
                let c = self.cells.len() as int;
                assert forall|t: int| 0 <= t < self.tasks.len() implies !(
                #[trigger] self.tasks[t]).on(c) by {
                    assert(self.task_ok(self.tasks[t]));
                }
                lemma_tally_none(self.tasks, is_inside(c));
                lemma_tally_none(self.tasks, is_marking(c));
                lemma_tally_none(self.tasks, is_alone(c));
            },
            Act::IntoInner { cell } => {
                lemma_cells_update(self.cells, cell, None);
                assert forall|n: usize| after.pointers(n) == self.pointers(n) by {}
            },
            Act::DropCell { cell } => {
                let node = self.cells[cell]->0.node;
                lemma_cells_update(self.cells, cell, None);
                lemma_tasks_push(
                    self.tasks,
                    Task::Drop { dropper: DropStep::Decrement { node } },
                );
                assert forall|n: usize| after.pointers(n) == self.pointers(n) by {}
            },
            _ => {},
        }
        self.lemma_carry(after);
    }

    /// The invariant survives the beginning and the end of a task.
    proof fn lemma_task_act(self, act: Act<T>)
        requires
            self.inv(),
            self.enabled(act),
            act is BeginGet || act is BeginReplace || act is DropShared || act is Finish,
        ensures
            self.apply(act).inv(),
    {
        let after = self.apply(act);
        match act {
            Act::BeginGet { cell } => {
                lemma_tasks_push(self.tasks, Task::Get { cell, reader: ReadStep::Enter });
            },
            Act::BeginReplace { cell, id } => {
                lemma_tasks_push(
                    self.tasks,
                    Task::Replace { cell, writer: WriteStep::Enter { value: id } },
                );
            },
            Act::DropShared { id } => {
                lemma_tasks_push(
                    self.tasks,
                    Task::Drop { dropper: DropStep::Decrement { node: id } },
                );
            },
            Act::Finish { task } => {
                lemma_tasks_update(self.tasks, task, Task::Idle);
            },
            _ => {},
        }
        assert forall|n: usize| after.pointers(n) == self.pointers(n) by {}
        self.lemma_carry(after);
    }

    /// The invariant survives a step of a reader.
    proof fn lemma_step_get(self, t: int, spurious: bool)
        requires
            self.inv(),
            self.enabled(Act::Step { task: t, spurious }),
            self.tasks[t] is Get,
        ensures
            self.step(t, spurious).inv(),
    {
        let after = self.step(t, spurious);
        let cell = self.tasks[t]->Get_cell;
        let step = self.tasks[t]->Get_reader;
        let v = self.cells[cell]->0;
        assert(self.task_ok(self.tasks[t]));
        assert(self.has_cell(cell) && self.cell_ok(cell));
        if let Some(access) = step.access_of() {
            lemma_word(v.word);
            let task = Task::Get { cell, reader: step.after(v.reply(access, spurious)) };
            lemma_tasks_update(self.tasks, t, task);
            lemma_cells_update(self.cells, cell, Some(v.after(access, spurious)));
            lemma_tally_member(self.tasks, t, is_inside(cell));
            lemma_tally_member(self.cells, cell, cell_holds(v.node));
            lemma_tally_implies(self.tasks, is_alone(cell), is_marking(cell));
            assert(self.pointers(v.node) > 0);
            assert(self.heap.shared(v.node));
            self.heap.lemma_with_count(v.node, self.heap.count(v.node).wrapping_add(1));
            assert forall|n: usize|
                after.pointers(n) == self.pointers(n) + unit(step == (ReadStep::Copy { node: n })) by {}
            self.lemma_carry(after);
        }
    }

    /// The invariant survives a step of a writer.
    proof fn lemma_step_replace(self, t: int, spurious: bool)
        requires
            self.inv(),
            self.enabled(Act::Step { task: t, spurious }),
            self.tasks[t] is Replace,
        ensures
            self.step(t, spurious).inv(),
    {
        let after = self.step(t, spurious);
        let cell = self.tasks[t]->Replace_cell;
        let step = self.tasks[t]->Replace_writer;
        let v = self.cells[cell]->0;
        assert(self.task_ok(self.tasks[t]));
        assert(self.has_cell(cell) && self.cell_ok(cell));
        if let Some(access) = step.access_of() {
            lemma_word(v.word);
            let task = Task::Replace { cell, writer: step.after(v.reply(access, spurious)) };
            lemma_tasks_update(self.tasks, t, task);
            lemma_cells_update(self.cells, cell, Some(v.after(access, spurious)));
            lemma_tally_member(self.tasks, t, is_marking(cell));
            lemma_tally_member(self.tasks, t, is_alone(cell));
            lemma_tally_implies(self.tasks, is_alone(cell), is_marking(cell));
            assert forall|n: usize| after.pointers(n) == self.pointers(n) by {}
            assert forall|i: int| 0 <= i < self.tasks.len() implies tally(self.tasks, is_inside(cell))
                >= unit((#[trigger] self.tasks[i]).inside(cell)) by {
                lemma_tally_member(self.tasks, i, is_inside(cell));
            }
            self.lemma_carry(after);
        }
    }

    /// The invariant survives a step of a pointer's giving up.
    proof fn lemma_step_drop(self, t: int, spurious: bool)
        requires
            self.inv(),
            self.enabled(Act::Step { task: t, spurious }),
            self.tasks[t] is Drop,
        ensures
            self.step(t, spurious).inv(),
    {
        let after = self.step(t, spurious);
        let dropper = self.tasks[t]->dropper;
        match dropper {
            DropStep::Decrement { node } => {
                lemma_tally_member(self.tasks, t, task_holds(node));
                assert(self.heap.shared(node));
                self.heap.lemma_with_count(node, self.heap.count(node).wrapping_sub(1));
                lemma_tasks_update(
                    self.tasks,
                    t,
                    Task::Drop { dropper: dropper.after_decrement(self.heap.count(node)) },
                );
                assert forall|n: usize| after.pointers(n) == self.pointers(n) - unit(n == node) by {}
                assert forall|n: usize|
                    after.enqueuers(n) == self.enqueuers(n) + unit(
                        n == node && self.heap.count(node) == 1,
                    ) by {}
                self.lemma_carry(after);
            },
            DropStep::Enqueue { node } => {
                lemma_tally_member(self.tasks, t, task_enqueues(node));
                assert(self.heap.shared(node));
                self.heap.lemma_enqueue(node);
                lemma_tasks_update(
                    self.tasks,
                    t,
                    Task::Drop { dropper: dropper.after_enqueue() },
                );
                assert forall|n: usize| after.pointers(n) == self.pointers(n) by {}
                assert forall|n: usize|
                    after.enqueuers(n) == self.enqueuers(n) - unit(n == node) by {}
                self.lemma_carry(after);
            },
            DropStep::Done => {},
        }
    }

    /// The invariant holds where nothing has happened, and every act keeps it.
    pub proof fn lemma_inv(self, act: Act<T>)
        ensures
            World::<T>::empty(self.heap.tag).inv(),
            self.inv() && self.enabled(act) ==> self.apply(act).inv(),
    {
        if self.inv() && self.enabled(act) {
            match act {
                Act::NewShared { .. } | Act::CloneShared { .. } => {
                    self.lemma_pointer_act(act);
                },
                Act::NewCell { .. } | Act::IntoInner { .. } | Act::DropCell { .. } => {
                    self.lemma_cell_act(act);
                },
                Act::BeginGet { .. } | Act::BeginReplace { .. } | Act::DropShared { .. }
                | Act::Finish { .. } => {
                    self.lemma_task_act(act);
                },
                Act::Step { task, spurious } => {
                    match self.tasks[task] {
                        Task::Idle => {},
                        Task::Get { .. } => {
                            self.lemma_step_get(task, spurious);
                        },
                        Task::Replace { .. } => {
                            self.lemma_step_replace(task, spurious);
                        },
                        Task::Drop { .. } => {
                            self.lemma_step_drop(task, spurious);
                        },
                    }
                },
                _ => {
                    self.lemma_heap_act(act);
                },
            }
        }
    }
}

} // verus!
