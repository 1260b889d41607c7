//! The reference-counted smart pointer.

use crate::collector::Handle;
use crate::heap::{is_unique, Heap, HeapView, Node};
use crate::steps::DropStep;
use core::marker::PhantomData;
use vstd::prelude::*;

verus! {

/// A reference-counted smart pointer with deferred collection, analogous to
/// `Arc`.
///
/// When a `Shared<T>`'s reference count goes to zero, its contents are added to
/// the drop queue of the collector whose handle it was allocated with. As the
/// collector may be on another thread, contents are required to be
/// `Send + 'static`.
///
/// A `Shared` that goes out of scope in any other way than [`Shared::drop`]
/// leaves its node allocated.
#[must_use]
pub struct Shared<T> {
    node: usize,
    tag: Ghost<int>,
    phantom: PhantomData<T>,
}

impl<T> Shared<T> {
    /// The address of the node.
    pub closed spec fn id(self) -> usize {
        self.node
    }

    /// The heap that the node belongs to.
    pub closed spec fn tag(self) -> int {
        self.tag@
    }

    /// Whether the pointer refers to a live node of this heap, of its own kind.
    pub open spec fn valid(self, heap: HeapView<T>) -> bool {
        self.tag() == heap.tag && heap.shared(self.id())
    }

    /// Makes a pointer out of an address in the heap with this tag.
    pub(crate) fn from_address(node: usize, tag: Ghost<int>) -> (r: Self)
        ensures
            r.id() == node,
            r.tag() == tag@,
    {
        Shared { node, tag, phantom: PhantomData }
    }

    /// Gives the address and forgets the pointer: the reference count stays.
    pub(crate) fn into_address(self) -> (r: usize)
        ensures
            r == self.id(),
    {
        self.node
    }
}

impl<T: Send + 'static> Shared<T> {
    /// Allocates a node with the contents `data` and a reference count of one,
    /// for the handle's collector.
    pub fn new(heap: &mut Heap<T>, handle: &Handle, data: T) -> (r: Shared<T>)
        requires
            old(heap).wf(),
            handle.valid(old(heap)@),
        ensures
            final(heap).wf(),
            !old(heap)@.nodes.contains_key(r.id()),
            final(heap)@ == old(heap)@.put(
                r.id(),
                (Node { collector: handle.queue(), count: Some(1usize), data }),
            ),
            final(heap).size() == old(heap).size() || (final(heap).size() == old(heap).size() + 1
                && forall|n: usize|
                n < old(heap).size() ==> #[trigger] old(heap)@.nodes.contains_key(n)),
            final(heap)@.tag == old(heap)@.tag,
            final(heap)@.queues == old(heap)@.queues,
            final(heap)@.nodes == old(heap)@.nodes.insert(
                r.id(),
                (Node { collector: handle.queue(), count: Some(1usize), data }),
            ),
            r.valid(final(heap)@),
    {
        let node: usize = heap.allocate(Node { collector: handle.number(), count: Some(1), data });
        Shared { node, tag: Ghost(heap@.tag), phantom: PhantomData }
    }
}

impl<T> Shared<T> {
    /// Returns a mutable reference to the contents if no other pointer to the
    /// same node exists; otherwise returns `None`.
    pub fn get_mut<'a>(this: &'a mut Self, heap: &'a mut Heap<T>) -> (r: Option<&'a mut T>)
        requires
            old(heap).wf(),
            old(this).valid(old(heap)@),
        ensures
            final(heap).wf(),
            *final(this) == *old(this),
            match r {
                Some(data) => {
                    &&& old(heap)@.count(old(this).id()) == 1
                    &&& *data == old(heap)@.data(old(this).id())
                    &&& final(heap)@ == old(heap)@.with_data(old(this).id(), *final(data))
                    &&& old(heap)@.nodes[old(this).id()].count == Some(1usize)
                    &&& *data == old(heap)@.nodes[old(this).id()].data
                    &&& final(heap)@.tag == old(heap)@.tag
                    &&& final(heap)@.queues == old(heap)@.queues
                    &&& final(heap)@.nodes == old(heap)@.nodes.insert(
                        old(this).id(),
                        Node {
                            collector: old(heap)@.nodes[old(this).id()].collector,
                            count: Some(1usize),
                            data: *final(data),
                        },
                    )
                },
                None => {
                    &&& old(heap)@.count(old(this).id()) != 1
                    &&& old(heap)@.nodes[old(this).id()].count != Some(1usize)
                    &&& final(heap)@ == old(heap)@
                },
            },
    {
        match heap.node(this.node).count {
            Some(count) => if is_unique(count) {
                Some(heap.data_mut(this.node))
            } else {
                None
            },
            None => None,
        }
    }

    /// Makes another pointer to the same node, adding one to its reference
    /// count.
    pub fn clone(&self, heap: &mut Heap<T>) -> (r: Shared<T>)
        requires
            old(heap).wf(),
            self.valid(old(heap)@),
        ensures
            final(heap).wf(),
            r.id() == self.id(),
            final(heap)@ == old(heap)@.retain(self.id()),
            final(heap)@.tag == old(heap)@.tag,
            final(heap)@.queues == old(heap)@.queues,
            ({
                let node = old(heap)@.nodes[self.id()];
                final(heap)@.nodes == old(heap)@.nodes.insert(
                    self.id(),
                    Node {
                        collector: node.collector,
                        count: Some(node.count->0.wrapping_add(1)),
                        data: node.data,
                    },
                )
            }),
            r.tag() == self.tag(),
            r.valid(final(heap)@),
    {
        heap.retain(self.node);
        Shared { node: self.node, tag: self.tag, phantom: PhantomData }
    }

    /// Borrows the contents.
    pub fn deref<'a>(&'a self, heap: &'a Heap<T>) -> (r: &'a T)
        requires
            heap.wf(),
            self.valid(heap@),
        ensures
            *r == heap@.data(self.id()),
            *r == heap@.nodes[self.id()].data,
    {
        &heap.node(self.node).data
    }

    /// Begins to give the pointer up.
    pub fn begin_drop(self) -> (r: Dropping<T>)
        ensures
            r@ == (DropStep::Decrement { node: self.id() }),
            r.tag() == self.tag(),
    {
        Dropping {
            step: DropStep::Decrement { node: self.node },
            tag: self.tag,
            phantom: PhantomData,
        }
    }

    /// Gives the pointer up, taking one off the reference count. The last
    /// pointer puts the node in the drop queue.
    pub fn drop(self, heap: &mut Heap<T>)
        requires
            old(heap).wf(),
            self.valid(old(heap)@),
        ensures
            final(heap).wf(),
            final(heap)@ == old(heap)@.release(self.id()),
            final(heap)@.tag == old(heap)@.tag,
            ({
                let node = old(heap)@.nodes[self.id()];
                let c = node.collector as int;
                &&& final(heap)@.nodes == old(heap)@.nodes.insert(
                    self.id(),
                    Node {
                        collector: node.collector,
                        count: Some(node.count->0.wrapping_sub(1)),
                        data: node.data,
                    },
                )
                &&& final(heap)@.queues == (if node.count == Some(1usize) {
                    old(heap)@.queues.update(c, old(heap)@.queues[c].push(self.id()))
                } else {
                    old(heap)@.queues
                })
            }),
    {
        let ghost memory = heap@;
        let ghost id = self.id();
        let mut dropping: Dropping<T> = self.begin_drop();
        while !dropping.through()
            invariant
                heap.wf(),
                memory == old(heap)@,
                memory.wf(),
                memory.shared(id),
                id == self.id(),
                dropping.tag() == memory.tag,
                match dropping@ {
                    DropStep::Decrement { node } => node == id && heap@ == memory,
                    DropStep::Enqueue { node } => node == id && memory.count(id) == 1 && heap@
                        == memory.decrement(id),
                    DropStep::Done => heap@ == memory.release(id),
                },
            decreases
                    match dropping@ {
                        DropStep::Decrement { node } => 2nat,
                        DropStep::Enqueue { node } => 1,
                        DropStep::Done => 0,
                    },
        {
            proof {
                memory.lemma_with_count(id, memory.count(id).wrapping_sub(1));
            }
            dropping.step(heap);
        }
    }
}

/// The giving up of a pointer, in progress. One that is abandoned half-way
/// leaves the node allocated.
#[must_use]
pub struct Dropping<T> {
    step: DropStep<usize>,
    tag: Ghost<int>,
    phantom: PhantomData<T>,
}

impl<T> View for Dropping<T> {
    type V = DropStep<usize>;

    closed spec fn view(&self) -> DropStep<usize> {
        self.step
    }
}

impl<T> Dropping<T> {
    /// The heap that the node belongs to.
    pub closed spec fn tag(self) -> int {
        self.tag@
    }

    /// Whether the next step can be taken on this heap: the node is there.
    pub open spec fn valid(self, heap: HeapView<T>) -> bool {
        self.tag() == heap.tag && match self@ {
            DropStep::Decrement { node } => heap.shared(node),
            DropStep::Enqueue { node } => heap.live(node),
            DropStep::Done => true,
        }
    }

    /// Takes the next step, one access to shared memory. What is through stays
    /// as it is.
    pub fn step(&mut self, heap: &mut Heap<T>)
        requires
            old(heap).wf(),
            old(self).valid(old(heap)@),
        ensures
            final(heap).wf(),
            final(self).tag() == old(self).tag(),
            match old(self)@ {
                DropStep::Decrement { node } => {
                    &&& final(heap)@ == old(heap)@.decrement(node)
                    &&& final(self)@ == old(self)@.after_decrement(old(heap)@.count(node))
                    &&& final(heap)@.tag == old(heap)@.tag
                    &&& final(heap)@.queues == old(heap)@.queues
                    &&& final(heap)@.nodes == old(heap)@.nodes.insert(
                        node,
                        Node {
                            collector: old(heap)@.nodes[node].collector,
                            count: Some(old(heap)@.nodes[node].count->0.wrapping_sub(1)),
                            data: old(heap)@.nodes[node].data,
                        },
                    )
                    &&& final(self)@ == (if old(heap)@.nodes[node].count == Some(1usize) {
                        DropStep::Enqueue { node }
                    } else {
                        DropStep::Done
                    })
                },
                DropStep::Enqueue { node } => {
                    &&& final(heap)@ == old(heap)@.enqueue(node)
                    &&& final(self)@ == old(self)@.after_enqueue()
                    &&& final(self)@ is Done
                    &&& final(heap)@.tag == old(heap)@.tag
                    &&& final(heap)@.nodes == old(heap)@.nodes
                    &&& final(heap)@.queues == old(heap)@.queues.update(
                        old(heap)@.nodes[node].collector as int,
                        old(heap)@.queues[old(heap)@.nodes[node].collector as int].push(node),
                    )
                },
                DropStep::Done => {
                    &&& final(heap)@ == old(heap)@
                    &&& final(self)@ == old(self)@
                },
            },
    {
        match self.step {
            DropStep::Decrement { node } => {
                let previous: usize = heap.decrement(node);
                self.step = self.step.decremented(previous);
            },
            DropStep::Enqueue { node } => {
                heap.queue_drop(node);
                self.step = self.step.enqueued();
            },
            DropStep::Done => {},
        }
    }

    /// Returns whether the pointer is given up.
    pub fn through(&self) -> (r: bool)
        ensures
            r == (self@ is Done),
    {
        matches!(self.step, DropStep::Done)
    }
}

} // verus!
