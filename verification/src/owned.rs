//! The owned smart pointer.

use crate::collector::Handle;
use crate::heap::{Heap, HeapView, Node};
use core::marker::PhantomData;
use vstd::prelude::*;

verus! {

/// An owned smart pointer with deferred collection, analogous to `Box`.
///
/// When an `Owned<T>` is given up with [`Owned::drop`], its contents are added
/// to the drop queue of the collector whose handle it was allocated with. As the
/// collector may be on another thread, contents are required to be
/// `Send + 'static`.
///
/// An `Owned` that goes out of scope in any other way than [`Owned::drop`]
/// leaves its node allocated.
#[must_use]
pub struct Owned<T> {
    node: usize,
    tag: Ghost<int>,
    phantom: PhantomData<T>,
}

impl<T> Owned<T> {
    /// The address of the node.
    pub closed spec fn id(self) -> usize {
        self.node
    }

    /// The heap that the node belongs to.
    pub closed spec fn tag(self) -> int {
        self.tag@
    }

    /// Whether the pointer refers to a live node of this heap, of its own kind.
    pub open spec fn valid(self, heap: HeapView<T>) -> bool {
        self.tag() == heap.tag && heap.owned(self.id())
    }
}

impl<T: Send + 'static> Owned<T> {
    /// Allocates a node with the contents `data` for the handle's collector.
    pub fn new(heap: &mut Heap<T>, handle: &Handle, data: T) -> (r: Owned<T>)
        requires
            old(heap).wf(),
            handle.valid(old(heap)@),
        ensures
            final(heap).wf(),
            !old(heap)@.nodes.contains_key(r.id()),
            final(heap)@ == old(heap)@.put(
                r.id(),
                (Node { collector: handle.queue(), count: None, data }),
            ),
            final(heap).size() == old(heap).size() || (final(heap).size() == old(heap).size() + 1
                && forall|n: usize|
                n < old(heap).size() ==> #[trigger] old(heap)@.nodes.contains_key(n)),
            final(heap)@.tag == old(heap)@.tag,
            final(heap)@.queues == old(heap)@.queues,
            final(heap)@.nodes == old(heap)@.nodes.insert(
                r.id(),
                (Node { collector: handle.queue(), count: None, data }),
            ),
            r.valid(final(heap)@),
    {
        let node: usize = heap.allocate(Node { collector: handle.number(), count: None, data });
        Owned { node, tag: Ghost(heap@.tag), phantom: PhantomData }
    }
}

impl<T: Clone + Send + 'static> Owned<T> {
    /// Allocates another node, for the same collector, with what
    /// `T::clone` makes of the contents.
    pub fn clone(&self, heap: &mut Heap<T>) -> (r: Owned<T>)
        requires
            old(heap).wf(),
            self.valid(old(heap)@),
        ensures
            final(heap).wf(),
            !old(heap)@.nodes.contains_key(r.id()),
            vstd::pervasive::strictly_cloned(
                old(heap)@.data(self.id()),
                final(heap)@.data(r.id()),
            ),
            final(heap)@ == old(heap)@.put(
                r.id(),
                (Node {
                    collector: old(heap)@.nodes[self.id()].collector,
                    count: None,
                    data: final(heap)@.data(r.id()),
                }),
            ),
            final(heap)@.tag == old(heap)@.tag,
            final(heap).size() == old(heap).size() || (final(heap).size() == old(heap).size() + 1
                && forall|n: usize|
                n < old(heap).size() ==> #[trigger] old(heap)@.nodes.contains_key(n)),
            final(heap)@.queues == old(heap)@.queues,
            vstd::pervasive::strictly_cloned(
                old(heap)@.nodes[self.id()].data,
                final(heap)@.nodes[r.id()].data,
            ),
            final(heap)@.nodes == old(heap)@.nodes.insert(
                r.id(),
                (Node {
                    collector: old(heap)@.nodes[self.id()].collector,
                    count: None,
                    data: final(heap)@.nodes[r.id()].data,
                }),
            ),
            r.valid(final(heap)@),
    {
        let handle: Handle = Handle::to_queue(heap, heap.node(self.node).collector);
        let data: T = self.deref(heap).clone();
        Owned::new(heap, &handle, data)
    }
}

impl<T> Owned<T> {
    /// Borrows the contents.
    pub fn deref<'a>(&'a self, heap: &'a Heap<T>) -> (r: &'a T)
        requires
            heap.wf(),
            self.valid(heap@),
        ensures
            *r == heap@.data(self.id()),
            *r == heap@.nodes[self.id()].data,
    {
        &heap.node(self.node).data
    }

    /// Borrows the contents for change.
    pub fn deref_mut<'a>(&'a mut self, heap: &'a mut Heap<T>) -> (r: &'a mut T)
        requires
            old(heap).wf(),
            old(self).valid(old(heap)@),
        ensures
            *r == old(heap)@.data(old(self).id()),
            final(heap).wf(),
            *final(self) == *old(self),
            final(heap)@ == old(heap)@.with_data(old(self).id(), *final(r)),
            *r == old(heap)@.nodes[old(self).id()].data,
            final(heap)@.tag == old(heap)@.tag,
            final(heap)@.queues == old(heap)@.queues,
            final(heap)@.nodes == old(heap)@.nodes.insert(
                old(self).id(),
                (Node {
                    collector: old(heap)@.nodes[old(self).id()].collector,
                    count: old(heap)@.nodes[old(self).id()].count,
                    data: *final(r),
                }),
            ),
    {
        heap.data_mut(self.node)
    }

    /// Gives the contents up: they go to the drop queue and stay as they are
    /// until the collector destroys them.
    pub fn drop(self, heap: &mut Heap<T>)
        requires
            old(heap).wf(),
            self.valid(old(heap)@),
        ensures
            final(heap).wf(),
            final(heap)@ == old(heap)@.enqueue(self.id()),
            final(heap)@.tag == old(heap)@.tag,
            final(heap)@.nodes == old(heap)@.nodes,
            ({
                let c = old(heap)@.nodes[self.id()].collector as int;
                final(heap)@.queues == old(heap)@.queues.update(
                    c,
                    old(heap)@.queues[c].push(self.id()),
                )
            }),
    {
        heap.queue_drop(self.node);
    }
}

} // verus!
