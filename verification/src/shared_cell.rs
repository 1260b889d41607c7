//! A shared memory location that holds a `Shared`.

use crate::heap::{Heap, HeapView, Node};
use crate::shared::Shared;
use crate::steps::{lemma_word, Access, ReadStep, Reply, WriteStep, READER_MASK, WRITER};
use core::marker::PhantomData;
use vstd::prelude::*;

verus! {

/// A shared mutable memory location that holds a [`Shared<T>`].
///
/// `SharedCell` is designed to be low-overhead for readers at the expense of
/// somewhat higher overhead for writers. [`SharedCell::get`] and
/// [`SharedCell::replace`] run from start to end; where several readers and
/// writers take turns, [`SharedCell::step_get`] and [`SharedCell::step_replace`]
/// make one access to shared memory at a time.
///
/// A cell that goes out of scope in any other way than [`SharedCell::drop`] or
/// [`SharedCell::into_inner`] leaves its node allocated.
#[must_use]
pub struct SharedCell<T> {
    readers: usize,
    node: usize,
    heap: Ghost<int>,
    tag: Ghost<int>,
    phantom: PhantomData<T>,
}

/// The state of a [`SharedCell`]: its word and the address it holds.
pub struct CellView {
    pub word: usize,
    pub node: usize,
}

impl CellView {
    /// What an access gives back. `spurious` says that an exchange fails
    /// although the word is as expected.
    pub open spec fn reply(self, access: Access<usize>, spurious: bool) -> Reply<usize> {
        match access {
            Access::LoadWord => Reply::Word(self.word),
            Access::ExchangeWord { expected, new } => Reply::Exchanged(
                self.word == expected && !spurious,
            ),
            Access::LoadNode => Reply::Node(self.node),
            Access::SwapNode { node } => Reply::Node(self.node),
            _ => Reply::Done,
        }
    }

    /// The cell after an access.
    pub open spec fn after(self, access: Access<usize>, spurious: bool) -> Self {
        match access {
            Access::ExchangeWord { expected, new } => if self.word == expected && !spurious {
                CellView { word: new, node: self.node }
            } else {
                self
            },
            Access::DecrementWord => CellView {
                word: self.word.wrapping_sub(1),
                node: self.node,
            },
            Access::ClearWord => CellView { word: 0, node: self.node },
            Access::SwapNode { node } => CellView { word: self.word, node },
            _ => self,
        }
    }
}

impl<T> HeapView<T> {
    /// The heap after an access.
    pub open spec fn after(self, access: Access<usize>) -> Self {
        match access {
            Access::Retain { node } => self.retain(node),
            _ => self,
        }
    }
}

/// A `get` in progress. One that is abandoned half-way stays counted in the cell.
pub struct Getting<T> {
    step: ReadStep<usize>,
    heap: Ghost<int>,
    cell: Ghost<int>,
    phantom: PhantomData<T>,
}

/// A `replace` in progress, which holds the pointer that it puts in and later
/// the one that it took out. One that is abandoned half-way leaves the cell
/// marked.
pub struct Replacing<T> {
    step: WriteStep<usize>,
    heap: Ghost<int>,
    cell: Ghost<int>,
    phantom: PhantomData<T>,
}

impl<T> View for SharedCell<T> {
    type V = CellView;

    closed spec fn view(&self) -> CellView {
        CellView { word: self.readers, node: self.node }
    }
}

impl<T> View for Getting<T> {
    type V = ReadStep<usize>;

    closed spec fn view(&self) -> ReadStep<usize> {
        self.step
    }
}

impl<T> View for Replacing<T> {
    type V = WriteStep<usize>;

    closed spec fn view(&self) -> WriteStep<usize> {
        self.step
    }
}

impl<T: Send + 'static> SharedCell<T> {
    /// Makes a cell that contains `value`, with nobody inside.
    pub fn new(value: Shared<T>) -> (r: SharedCell<T>)
        ensures
            r@ == (CellView { word: 0, node: value.id() }),
            r.heap() == value.tag(),
    {
        let ghost heap = value.tag();
        SharedCell {
            readers: 0,
            node: value.into_address(),
            heap: Ghost(heap),
            tag: Ghost(arbitrary()),
            phantom: PhantomData,
        }
    }
}

impl<T> SharedCell<T> {
    /// The heap that the cell's pointers belong to.
    pub closed spec fn heap(self) -> int {
        self.heap@
    }

    /// Which cell this is. Nothing is said of the tags of two cells, so only what
    /// began on a cell can be shown to belong to it.
    pub closed spec fn tag(self) -> int {
        self.tag@
    }

    /// Whether this is the same cell as `other`, in whatever state.
    pub open spec fn same_cell(self, other: Self) -> bool {
        self.tag() == other.tag() && self.heap() == other.heap()
    }

    /// Whether the cell holds a pointer to a live node of this heap.
    pub open spec fn valid(self, heap: HeapView<T>) -> bool {
        self.heap() == heap.tag && heap.shared(self@.node)
    }

    /// Makes one access to the cell.
    fn perform(&mut self, access: Access<usize>, spurious: bool) -> (r: Reply<usize>)
        ensures
            r == old(self)@.reply(access, spurious),
            final(self)@ == old(self)@.after(access, spurious),
            final(self).same_cell(*old(self)),
    {
        match access {
            Access::LoadWord => Reply::Word(self.readers),
            Access::ExchangeWord { expected, new } => if self.readers == expected && !spurious {
                self.readers = new;
                Reply::Exchanged(true)
            } else {
                Reply::Exchanged(false)
            },
            Access::DecrementWord => {
                self.readers = self.readers.wrapping_sub(1);
                Reply::Done
            },
            Access::ClearWord => {
                self.readers = 0;
                Reply::Done
            },
            Access::LoadNode => Reply::Node(self.node),
            Access::SwapNode { node } => {
                let old_node: usize = self.node;
                self.node = node;
                Reply::Node(old_node)
            },
            Access::Retain { node } => Reply::Done,
        }
    }

    /// Begins to get a copy of the contained pointer.
    pub fn begin_get(&self) -> (r: Getting<T>)
        ensures
            r@ == ReadStep::<usize>::Enter,
            r.on(*self),
    {
        Getting { step: ReadStep::Enter, heap: self.heap, cell: self.tag, phantom: PhantomData }
    }

    /// Takes the next step of a `get`. A `get` that is through stays as it is.
    pub fn step_get(&mut self, heap: &mut Heap<T>, get: &mut Getting<T>, spurious: bool)
        requires
            old(heap).wf(),
            old(get).on(*old(self)),
            old(self).heap() == old(heap)@.tag,
            old(get)@ is Copy ==> old(heap)@.shared(old(get)@->Copy_node),
        ensures
            final(heap).wf(),
            final(self).same_cell(*old(self)),
            final(get).on(*final(self)),
            match old(get)@.access_of() {
                Some(access) => {
                    &&& final(self)@ == old(self)@.after(access, spurious)
                    &&& final(heap)@ == old(heap)@.after(access)
                    &&& final(get)@ == old(get)@.after(old(self)@.reply(access, spurious))
                },
                None => {
                    &&& final(self)@ == old(self)@
                    &&& final(heap)@ == old(heap)@
                    &&& final(get)@ == old(get)@
                },
            },
            match old(get)@ {
                ReadStep::Enter => {
                    &&& final(self)@ == old(self)@
                    &&& final(heap)@ == old(heap)@
                    &&& final(get)@ == (if old(self)@.word & WRITER != 0 {
                        ReadStep::<usize>::Enter
                    } else if old(self)@.word == READER_MASK {
                        ReadStep::Overflow
                    } else {
                        ReadStep::Claim {
                            seen: old(self)@.word,
                            next: (old(self)@.word + 1) as usize,
                        }
                    })
                },
                ReadStep::Claim { seen, next } => {
                    &&& final(self)@.node == old(self)@.node
                    &&& final(heap)@ == old(heap)@
                    &&& if old(self)@.word == seen && !spurious {
                        final(self)@.word == next && final(get)@ is Load
                    } else {
                        final(self)@.word == old(self)@.word && final(get)@ is Enter
                    }
                },
                ReadStep::Load => {
                    &&& final(self)@ == old(self)@
                    &&& final(heap)@ == old(heap)@
                    &&& final(get)@ == (ReadStep::Copy { node: old(self)@.node })
                },
                ReadStep::Copy { node } => {
                    &&& final(self)@ == old(self)@
                    &&& final(heap)@.tag == old(heap)@.tag
                    &&& final(heap)@.queues == old(heap)@.queues
                    &&& final(heap)@.nodes == old(heap)@.nodes.insert(
                        node,
                        Node {
                            collector: old(heap)@.nodes[node].collector,
                            count: Some(old(heap)@.nodes[node].count->0.wrapping_add(1)),
                            data: old(heap)@.nodes[node].data,
                        },
                    )
                    &&& final(get)@ == (ReadStep::Leave { node })
                },
                ReadStep::Leave { node } => {
                    &&& final(self)@.node == old(self)@.node
                    &&& final(self)@.word == old(self)@.word.wrapping_sub(1)
                    &&& final(heap)@ == old(heap)@
                    &&& final(get)@ == (ReadStep::Done { node })
                },
                _ => {
                    &&& final(self)@ == old(self)@
                    &&& final(heap)@ == old(heap)@
                    &&& final(get)@ == old(get)@
                },
            },
    {
        proof {
            lemma_word(self@.word);
        }
        match get.step.access() {
            Some(access) => {
                match access {
                    Access::Retain { node } => heap.retain(node),
                    _ => {},
                }
                let reply: Reply<usize> = self.perform(access, spurious);
                get.step = get.step.advance(reply);
            },
            None => {},
        }
    }

    /// Gets a copy of the contained pointer, incrementing its reference count
    /// in the process. Readers inside do not matter; a writer inside, or a full
    /// count of readers, would keep the copy from being made.
    pub fn get(&mut self, heap: &mut Heap<T>) -> (r: Shared<T>)
        requires
            old(heap).wf(),
            old(self).valid(old(heap)@),
            old(self)@.word < READER_MASK,
        ensures
            final(heap).wf(),
            r.id() == old(self)@.node,
            r.valid(final(heap)@),
            final(self)@ == old(self)@,
            final(self).same_cell(*old(self)),
            final(heap)@ == old(heap)@.retain(old(self)@.node),
            final(heap)@.tag == old(heap)@.tag,
            final(heap)@.queues == old(heap)@.queues,
            ({
                let node = old(heap)@.nodes[old(self)@.node];
                final(heap)@.nodes == old(heap)@.nodes.insert(
                    old(self)@.node,
                    Node {
                        collector: node.collector,
                        count: Some(node.count->0.wrapping_add(1)),
                        data: node.data,
                    },
                )
            }),
    {
        let ghost cell = self@;
        let ghost memory = heap@;
        proof {
            lemma_word(cell.word);
        }
        let mut get: Getting<T> = self.begin_get();
        loop
            invariant
                heap.wf(),
                cell == old(self)@,
                memory == old(heap)@,
                memory.shared(cell.node),
                self.same_cell(*old(self)),
                self.heap() == heap@.tag,
                get.on(*self),
                cell.word < READER_MASK,
                READER_MASK < WRITER,
                reading(get@, cell, memory, self@, heap@),
            decreases steps_to_read(get@),
        {
            match get.finish() {
                Ok(copy) => {
                    return copy;
                },
                Err(pending) => {
                    get = pending;
                },
            }
            self.step_get(heap, &mut get, false);
        }
    }

    /// Begins to put `value` in the place of the contained pointer.
    pub fn begin_replace(&self, value: Shared<T>) -> (r: Replacing<T>)
        requires
            value.tag() == self.heap(),
        ensures
            r@ == (WriteStep::Enter { value: value.id() }),
            r.on(*self),
    {
        Replacing {
            step: WriteStep::Enter { value: value.into_address() },
            heap: self.heap,
            cell: self.tag,
            phantom: PhantomData,
        }
    }

    /// Takes the next step of a `replace`. A `replace` that is through stays as
    /// it is.
    pub fn step_replace(&mut self, replace: &mut Replacing<T>, spurious: bool)
        requires
            old(replace).on(*old(self)),
        ensures
            final(self).same_cell(*old(self)),
            final(replace).on(*final(self)),
            match old(replace)@.access_of() {
                Some(access) => {
                    &&& final(self)@ == old(self)@.after(access, spurious)
                    &&& final(replace)@ == old(replace)@.after(old(self)@.reply(access, spurious))
                },
                None => {
                    &&& final(self)@ == old(self)@
                    &&& final(replace)@ == old(replace)@
                },
            },
            match old(replace)@ {
                WriteStep::Enter { value } => {
                    &&& final(self)@ == old(self)@
                    &&& final(replace)@ == (if old(self)@.word & WRITER != 0 {
                        WriteStep::Enter { value }
                    } else {
                        WriteStep::Claim {
                            value,
                            seen: old(self)@.word,
                            next: old(self)@.word | WRITER,
                        }
                    })
                },
                WriteStep::Claim { value, seen, next } => {
                    &&& final(self)@.node == old(self)@.node
                    &&& if old(self)@.word == seen && !spurious {
                        final(self)@.word == next && final(replace)@ == (WriteStep::Drain { value })
                    } else {
                        final(self)@.word == old(self)@.word && final(replace)@
                            == (WriteStep::Enter { value })
                    }
                },
                WriteStep::Drain { value } => {
                    &&& final(self)@ == old(self)@
                    &&& final(replace)@ == (if old(self)@.word == WRITER {
                        WriteStep::Swap { value }
                    } else {
                        WriteStep::Drain { value }
                    })
                },
                WriteStep::Swap { value } => {
                    &&& final(self)@.word == old(self)@.word
                    &&& final(self)@.node == value
                    &&& final(replace)@ == (WriteStep::Reopen { old: old(self)@.node })
                },
                WriteStep::Reopen { old: previous } => {
                    &&& final(self)@.word == 0
                    &&& final(self)@.node == old(self)@.node
                    &&& final(replace)@ == (WriteStep::Done { old: previous })
                },
                WriteStep::Done { old: previous } => {
                    &&& final(self)@ == old(self)@
                    &&& final(replace)@ == old(replace)@
                },
            },
    {
        proof {
            lemma_word(self@.word);
        }
        match replace.step.access() {
            Some(access) => {
                let reply: Reply<usize> = self.perform(access, spurious);
                replace.step = replace.step.advance(reply);
            },
            None => {},
        }
    }

    /// Replaces the contained pointer and returns it. Somebody inside would keep
    /// the replacement from being made.
    pub fn replace(&mut self, value: Shared<T>) -> (r: Shared<T>)
        requires
            value.tag() == old(self).heap(),
            old(self)@.word == 0,
        ensures
            r.id() == old(self)@.node,
            r.tag() == old(self).heap(),
            final(self).same_cell(*old(self)),
            final(self)@ == (CellView { word: 0, node: value.id() }),
    {
        let ghost cell = self@;
        let ghost new = value.id();
        proof {
            lemma_word(0);
        }
        let mut replace: Replacing<T> = self.begin_replace(value);
        loop
            invariant
                cell == old(self)@,
                cell.word == 0,
                new == value.id(),
                self.same_cell(*old(self)),
                replace.on(*self),
                WRITER > 1,
                writing(replace@, cell, new, self@),
            decreases steps_to_write(replace@),
        {
            match replace.finish() {
                Ok(previous) => {
                    return previous;
                },
                Err(pending) => {
                    replace = pending;
                },
            }
            self.step_replace(&mut replace, false);
        }
    }

    /// Replaces the contained pointer, decrementing its reference count in the
    /// process.
    pub fn set(&mut self, heap: &mut Heap<T>, value: Shared<T>)
        requires
            old(heap).wf(),
            old(self).valid(old(heap)@),
            value.tag() == old(heap)@.tag,
            old(self)@.word == 0,
        ensures
            final(heap).wf(),
            final(self).same_cell(*old(self)),
            final(self)@ == (CellView { word: 0, node: value.id() }),
            final(heap)@ == old(heap)@.release(old(self)@.node),
            final(heap)@.tag == old(heap)@.tag,
            ({
                let node = old(heap)@.nodes[old(self)@.node];
                let c = node.collector as int;
                &&& final(heap)@.nodes == old(heap)@.nodes.insert(
                    old(self)@.node,
                    Node {
                        collector: node.collector,
                        count: Some(node.count->0.wrapping_sub(1)),
                        data: node.data,
                    },
                )
                &&& final(heap)@.queues == (if node.count == Some(1usize) {
                    old(heap)@.queues.update(c, old(heap)@.queues[c].push(old(self)@.node))
                } else {
                    old(heap)@.queues
                })
            }),
    {
        let previous: Shared<T> = self.replace(value);
        previous.drop(heap);
    }

    /// Consumes the cell and returns the contained pointer. As nobody else can
    /// hold the cell, nobody has to be waited for.
    pub fn into_inner(self) -> (r: Shared<T>)
        ensures
            r.id() == self@.node,
            r.tag() == self.heap(),
    {
        Shared::from_address(self.node, self.heap)
    }

    /// Gives the cell up, and with it the contained pointer.
    pub fn drop(self, heap: &mut Heap<T>)
        requires
            old(heap).wf(),
            self.valid(old(heap)@),
        ensures
            final(heap).wf(),
            final(heap)@ == old(heap)@.release(self@.node),
            final(heap)@.tag == old(heap)@.tag,
            ({
                let node = old(heap)@.nodes[self@.node];
                let c = node.collector as int;
                &&& final(heap)@.nodes == old(heap)@.nodes.insert(
                    self@.node,
                    Node {
                        collector: node.collector,
                        count: Some(node.count->0.wrapping_sub(1)),
                        data: node.data,
                    },
                )
                &&& final(heap)@.queues == (if node.count == Some(1usize) {
                    old(heap)@.queues.update(c, old(heap)@.queues[c].push(self@.node))
                } else {
                    old(heap)@.queues
                })
            }),
    {
        self.into_inner().drop(heap);
    }
}

impl<T> Getting<T> {
    /// The heap that the pointers of its cell belong to.
    pub closed spec fn heap(self) -> int {
        self.heap@
    }

    /// The cell it began on.
    pub closed spec fn cell(self) -> int {
        self.cell@
    }

    /// Whether it began on this cell.
    pub open spec fn on(self, cell: SharedCell<T>) -> bool {
        self.cell() == cell.tag() && self.heap() == cell.heap()
    }

    /// Returns the copy if the `get` is through, and the `get` otherwise.
    pub fn finish(self) -> (r: Result<Shared<T>, Getting<T>>)
        ensures
            match self@ {
                ReadStep::Done { node } => r matches Ok(copy) && copy.id() == node && copy.tag()
                    == self.heap(),
                _ => r == Err::<Shared<T>, Getting<T>>(self),
            },
    {
        match self.step {
            ReadStep::Done { node } => Ok(Shared::from_address(node, self.heap)),
            _ => Err(self),
        }
    }

    /// Returns whether the `get` found that no more readers can be counted.
    pub fn overflowed(&self) -> (r: bool)
        ensures
            r == (self@ is Overflow),
    {
        matches!(self.step, ReadStep::Overflow)
    }
}

impl<T> Replacing<T> {
    /// The heap that the pointers of its cell belong to.
    pub closed spec fn heap(self) -> int {
        self.heap@
    }

    /// The cell it began on.
    pub closed spec fn cell(self) -> int {
        self.cell@
    }

    /// Whether it began on this cell.
    pub open spec fn on(self, cell: SharedCell<T>) -> bool {
        self.cell() == cell.tag() && self.heap() == cell.heap()
    }

    /// Returns the pointer that was inside if the `replace` is through, and the
    /// `replace` otherwise.
    pub fn finish(self) -> (r: Result<Shared<T>, Replacing<T>>)
        ensures
            match self@ {
                WriteStep::Done { old } => r matches Ok(previous) && previous.id() == old && previous.tag()
                    == self.heap(),
                _ => r == Err::<Shared<T>, Replacing<T>>(self),
            },
    {
        match self.step {
            WriteStep::Done { old } => Ok(Shared::from_address(old, self.heap)),
            _ => Err(self),
        }
    }
}

/// What a lone reader has done to `cell` and `memory` when it stands at `step`.
spec fn reading<T>(
    step: ReadStep<usize>,
    cell: CellView,
    memory: HeapView<T>,
    now: CellView,
    memory_now: HeapView<T>,
) -> bool {
    let inside = CellView { word: (cell.word + 1) as usize, node: cell.node };
    match step {
        ReadStep::Enter => now == cell && memory_now == memory,
        ReadStep::Claim { seen, next } => now == cell && memory_now == memory && seen == cell.word
            && next == inside.word,
        ReadStep::Load => now == inside && memory_now == memory,
        ReadStep::Copy { node } => now == inside && memory_now == memory && node == cell.node,
        ReadStep::Leave { node } => now == inside && memory_now == memory.retain(node) && node
            == cell.node,
        ReadStep::Done { node } => now == cell && memory_now == memory.retain(node) && node
            == cell.node,
        ReadStep::Overflow => false,
    }
}

/// How many steps a lone reader has left.
spec fn steps_to_read(step: ReadStep<usize>) -> nat {
    match step {
        ReadStep::Enter => 5,
        ReadStep::Claim { seen, next } => 4,
        ReadStep::Load => 3,
        ReadStep::Copy { node } => 2,
        ReadStep::Leave { node } => 1,
        _ => 0,
    }
}

/// What a lone writer has done to `cell` when it stands at `step`.
spec fn writing(step: WriteStep<usize>, cell: CellView, new: usize, now: CellView) -> bool {
    match step {
        WriteStep::Enter { value } => now == cell && value == new,
        WriteStep::Claim { value, seen, next } => now == cell && value == new && seen == cell.word
            && next == WRITER,
        WriteStep::Drain { value } => now == (CellView { word: WRITER, node: cell.node }) && value
            == new,
        WriteStep::Swap { value } => now == (CellView { word: WRITER, node: cell.node }) && value
            == new,
        WriteStep::Reopen { old } => now == (CellView { word: WRITER, node: new }) && old
            == cell.node,
        WriteStep::Done { old } => now == (CellView { word: 0, node: new }) && old == cell.node,
    }
}

/// How many steps a lone writer has left.
spec fn steps_to_write(step: WriteStep<usize>) -> nat {
    match step {
        WriteStep::Enter { value } => 5,
        WriteStep::Claim { value, seen, next } => 4,
        WriteStep::Drain { value } => 3,
        WriteStep::Swap { value } => 2,
        WriteStep::Reopen { old } => 1,
        WriteStep::Done { old } => 0,
    }
}

} // verus!
