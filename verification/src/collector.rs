//! Collectors, which destroy what was given up, and the handles to them.

use crate::heap::{Heap, HeapView};
use vstd::prelude::*;

verus! {

/// Destroys the contents that wait in its drop queue, when it is asked to.
pub struct Collector {
    queue: usize,
    tag: Ghost<int>,
}

/// Names the collector that contents are allocated for.
#[derive(Clone, Copy)]
pub struct Handle {
    queue: usize,
    tag: Ghost<int>,
}

impl Handle {
    /// The number of the collector's drop queue.
    pub closed spec fn queue(self) -> usize {
        self.queue
    }

    /// The heap that the collector belongs to.
    pub closed spec fn tag(self) -> int {
        self.tag@
    }

    /// Whether the collector belongs to this heap, which has its queue.
    pub open spec fn valid<T>(self, heap: HeapView<T>) -> bool {
        self.tag() == heap.tag && self.queue() < heap.queues.len()
    }

    /// Makes a handle to the collector of this heap with this drop queue.
    pub(crate) fn to_queue<T>(heap: &Heap<T>, queue: usize) -> (r: Self)
        ensures
            r.queue() == queue,
            r.tag() == heap@.tag,
    {
        Handle { queue, tag: Ghost(heap@.tag) }
    }

    /// Returns the number of the collector's drop queue.
    pub(crate) fn number(&self) -> (r: usize)
        ensures
            r == self.queue(),
    {
        self.queue
    }
}

impl Collector {
    /// The number of the collector's drop queue.
    pub closed spec fn queue(self) -> usize {
        self.queue
    }

    /// The heap that the collector belongs to.
    pub closed spec fn tag(self) -> int {
        self.tag@
    }

    /// Whether the collector belongs to this heap, which has its queue.
    pub open spec fn valid<T>(self, heap: HeapView<T>) -> bool {
        self.tag() == heap.tag && self.queue() < heap.queues.len()
    }

    /// Makes a collector with an empty drop queue.
    pub fn new<T>(heap: &mut Heap<T>) -> (r: Self)
        requires
            old(heap).wf(),
        ensures
            final(heap).wf(),
            r.queue() == old(heap)@.queues.len(),
            r.tag() == old(heap)@.tag,
            final(heap)@ == old(heap)@.add_queue(),
            r.valid(final(heap)@),
            final(heap)@.tag == old(heap)@.tag,
            final(heap)@.nodes == old(heap)@.nodes,
            final(heap)@.queues == old(heap)@.queues.push(Seq::<usize>::empty()),
    {
        Collector { queue: heap.add_queue(), tag: Ghost(heap@.tag) }
    }

    /// Returns a handle to this collector.
    pub fn handle(&self) -> (r: Handle)
        ensures
            r.queue() == self.queue(),
            r.tag() == self.tag(),
    {
        Handle { queue: self.queue, tag: self.tag }
    }

    /// Frees everything in the drop queue and hands the contents out, oldest
    /// first. They are destroyed as the result is: at once, where it is not kept.
    /// What waits for another collector stays.
    ///
    /// Pointers inside the contents are not released by their destruction:
    /// contents that hold pointers have to be taken apart.
    pub fn collect<T>(&mut self, heap: &mut Heap<T>) -> (r: Vec<T>)
        requires
            old(heap).wf(),
            old(self).valid(old(heap)@),
        ensures
            final(heap).wf(),
            *final(self) == *old(self),
            final(heap).size() == old(heap).size(),
            final(heap)@ == old(heap)@.collect(old(self).queue() as int),
            ({
                let queue = old(heap)@.queues[old(self).queue() as int];
                &&& r@ == old(heap)@.waiting(old(self).queue() as int)
                &&& r@.len() == queue.len()
                &&& forall|i: int|
                    0 <= i < queue.len() ==> #[trigger] r@[i] == old(heap)@.nodes[queue[i]].data
                &&& forall|n: usize| #[trigger]
                    final(heap)@.nodes.contains_key(n) <==> old(heap)@.nodes.contains_key(n)
                        && !queue.contains(n)
                &&& forall|n: usize| #[trigger]
                    final(heap)@.nodes.contains_key(n) ==> final(heap)@.nodes[n] == old(
                        heap,
                    )@.nodes[n]
                &&& final(heap)@.queues == old(heap)@.queues.update(
                    old(self).queue() as int,
                    Seq::<usize>::empty(),
                )
                &&& final(heap)@.tag == old(heap)@.tag
            }),
    {
        heap.collect(self.queue)
    }

    /// Frees the oldest node in the drop queue and hands its contents out, for
    /// contents that have to be taken apart before they are destroyed. Returns
    /// `None` if nothing waits.
    pub fn collect_one<T>(&mut self, heap: &mut Heap<T>) -> (r: Option<T>)
        requires
            old(heap).wf(),
            old(self).valid(old(heap)@),
        ensures
            final(heap).wf(),
            *final(self) == *old(self),
            final(heap).size() == old(heap).size(),
            match r {
                Some(data) => {
                    let queue = old(heap)@.queues[old(self).queue() as int];
                    &&& queue.len() > 0
                    &&& data == old(heap)@.data(queue[0])
                    &&& final(heap)@ == old(heap)@.collect_one(old(self).queue() as int)
                    &&& data == old(heap)@.nodes[queue[0]].data
                    &&& final(heap)@.nodes == old(heap)@.nodes.remove(queue[0])
                    &&& final(heap)@.queues == old(heap)@.queues.update(
                        old(self).queue() as int,
                        queue.skip(1),
                    )
                    &&& final(heap)@.tag == old(heap)@.tag
                },
                None => {
                    &&& old(heap)@.queues[old(self).queue() as int].len() == 0
                    &&& final(heap)@ == old(heap)@
                },
            },
    {
        heap.collect_one(self.queue)
    }
}

} // verus!
