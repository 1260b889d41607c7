//! The memory that smart pointers share: allocated nodes and the drop queues.

use std::collections::VecDeque;
use vstd::prelude::*;

verus! {

/// An allocated node.
pub struct Node<T> {
    /// The collector whose drop queue the node goes to.
    pub collector: usize,
    /// How many `Shared` pointers refer to the node; `None` for the node of an
    /// `Owned`, which nobody counts.
    pub count: Option<usize>,
    /// The contents.
    pub data: T,
}

/// The state of a [`Heap`]: which heap it is, its nodes by address, and the drop
/// queue of each collector, oldest entry first.
///
/// Nothing is said of the tags of two heaps, so only what came from a heap can
/// be shown to belong to it.
#[verifier::ext_equal]
pub struct HeapView<T> {
    pub tag: int,
    pub nodes: Map<usize, Node<T>>,
    pub queues: Seq<Seq<usize>>,
}

impl<T> HeapView<T> {
    /// Whether `id` waits in a drop queue.
    pub open spec fn queued(self, id: usize) -> bool {
        self.nodes.contains_key(id) && self.queues[self.nodes[id].collector as int].contains(id)
    }

    /// Whether `id` is allocated and not given up yet.
    pub open spec fn live(self, id: usize) -> bool {
        self.nodes.contains_key(id) && !self.queued(id)
    }

    /// Whether `id` is the live node of an `Owned`.
    pub open spec fn owned(self, id: usize) -> bool {
        self.live(id) && self.nodes[id].count is None
    }

    /// Whether `id` is a live node that `Shared` pointers count.
    pub open spec fn shared(self, id: usize) -> bool {
        self.live(id) && self.nodes[id].count is Some
    }

    /// The reference count of a node that has one.
    pub open spec fn count(self, id: usize) -> usize {
        self.nodes[id].count->0
    }

    /// The contents of a node.
    pub open spec fn data(self, id: usize) -> T {
        self.nodes[id].data
    }

    /// The contents that wait in the queue of collector `c`, oldest first.
    pub open spec fn waiting(self, c: int) -> Seq<T> {
        Seq::new(self.queues[c].len(), |i: int| self.nodes[self.queues[c][i]].data)
    }

    /// Every node belongs to a collector, and each queue holds nodes of its own
    /// collector, none of them twice.
    pub open spec fn wf(self) -> bool {
        &&& forall|id: usize| #[trigger]
            self.nodes.contains_key(id) ==> self.nodes[id].collector < self.queues.len()
        &&& forall|c: int, i: int|
            0 <= c < self.queues.len() && 0 <= i < self.queues[c].len()
                ==> self.nodes.contains_key(#[trigger] self.queues[c][i])
                && self.nodes[self.queues[c][i]].collector == c
        &&& forall|c: int| 0 <= c < self.queues.len() ==> (#[trigger] self.queues[c]).no_duplicates()
    }

    /// The heap with one more, empty, drop queue.
    pub open spec fn add_queue(self) -> Self {
        HeapView { queues: self.queues.push(Seq::empty()), ..self }
    }

    /// The heap with `node` at the address `id`.
    pub open spec fn put(self, id: usize, node: Node<T>) -> Self {
        HeapView { nodes: self.nodes.insert(id, node), ..self }
    }

    /// The heap with another reference count at `id`.
    pub open spec fn with_count(self, id: usize, count: usize) -> Self {
        let node = self.nodes[id];
        self.put(id, Node { collector: node.collector, count: Some(count), data: node.data })
    }

    /// The heap with other contents at `id`.
    pub open spec fn with_data(self, id: usize, data: T) -> Self {
        let node = self.nodes[id];
        self.put(id, Node { collector: node.collector, count: node.count, data })
    }

    /// The heap with `id` at the end of its collector's drop queue.
    pub open spec fn enqueue(self, id: usize) -> Self {
        let c = self.nodes[id].collector as int;
        HeapView { queues: self.queues.update(c, self.queues[c].push(id)), ..self }
    }

    /// The heap after one more pointer to `id` came into being.
    pub open spec fn retain(self, id: usize) -> Self {
        self.with_count(id, self.count(id).wrapping_add(1))
    }

    /// The heap after one was taken off the count of `id`.
    pub open spec fn decrement(self, id: usize) -> Self {
        self.with_count(id, self.count(id).wrapping_sub(1))
    }

    /// The heap after one pointer to `id` was given up: the last one puts the
    /// node in the drop queue.
    pub open spec fn release(self, id: usize) -> Self {
        if self.count(id) == 1 {
            self.decrement(id).enqueue(id)
        } else {
            self.decrement(id)
        }
    }

    /// The heap after collector `c` freed the oldest entry of its queue.
    pub open spec fn collect_one(self, c: int) -> Self {
        HeapView {
            nodes: self.nodes.remove(self.queues[c][0]),
            queues: self.queues.update(c, self.queues[c].skip(1)),
            ..self
        }
    }

    /// The heap after collector `c` destroyed what waited in its queue.
    pub open spec fn collect(self, c: int) -> Self {
        HeapView {
            nodes: self.nodes.remove_keys(self.queues[c].to_set()),
            queues: self.queues.update(c, Seq::empty()),
            ..self
        }
    }
}

/// What a sequence holds once `a` is pushed onto it.
pub proof fn lemma_push_contains<A>(s: Seq<A>, a: A, x: A)
    ensures
        s.push(a).contains(x) == (s.contains(x) || x == a),
{
    if s.contains(x) {
        let i = choose|i: int| 0 <= i < s.len() && s[i] == x;
        assert(s.push(a)[i] == x);
    }
    assert(s.push(a)[s.len() as int] == a);
    if s.push(a).contains(x) && x != a {
        let i = choose|i: int| 0 <= i < s.push(a).len() && s.push(a)[i] == x;
        assert(s[i] == x);
    }
}

impl<T> HeapView<T> {
    /// A new collector changes no node and starts with nothing to destroy.
    pub proof fn lemma_add_queue(self)
        requires
            self.wf(),
        ensures
            self.add_queue().wf(),
            forall|n: usize| self.add_queue().queued(n) == self.queued(n),
    {
        assert forall|n: usize| self.add_queue().queued(n) == self.queued(n) by {
            if self.nodes.contains_key(n) {
                assert(self.add_queue().queues[self.nodes[n].collector as int]
                    == self.queues[self.nodes[n].collector as int]);
            }
        }
    }

    /// A node at a fresh address is live, and nothing else changes.
    pub proof fn lemma_put(self, id: usize, node: Node<T>)
        requires
            self.wf(),
            !self.nodes.contains_key(id),
            node.collector < self.queues.len(),
        ensures
            self.put(id, node).wf(),
            self.put(id, node).live(id),
            forall|n: usize| self.put(id, node).queued(n) == self.queued(n),
    {
    }

    /// Other contents leave every node's standing as it was.
    pub proof fn lemma_with_data(self, id: usize, data: T)
        requires
            self.wf(),
            self.nodes.contains_key(id),
        ensures
            self.with_data(id, data).wf(),
            forall|n: usize| self.with_data(id, data).queued(n) == self.queued(n),
    {
    }

    /// Another reference count leaves every node's standing as it was.
    pub proof fn lemma_with_count(self, id: usize, count: usize)
        requires
            self.wf(),
            self.nodes.contains_key(id),
        ensures
            self.with_count(id, count).wf(),
            forall|n: usize| self.with_count(id, count).queued(n) == self.queued(n),
    {
    }

    /// A node that is given up waits in a queue, and no other node's standing
    /// changes.
    pub proof fn lemma_enqueue(self, id: usize)
        requires
            self.wf(),
            self.live(id),
        ensures
            self.enqueue(id).wf(),
            forall|n: usize| self.enqueue(id).queued(n) == (self.queued(n) || n == id),
    {
        let c = self.nodes[id].collector as int;
        assert forall|n: usize| self.enqueue(id).queued(n) == (self.queued(n) || n == id) by {
            lemma_push_contains(self.queues[c], id, n);
        }
    }

    /// The last pointer that is released puts the node in its queue; any other
    /// leaves it live. No other node changes.
    pub proof fn lemma_release(self, id: usize)
        requires
            self.wf(),
            self.shared(id),
        ensures
            self.release(id).wf(),
            forall|n: usize|
                self.release(id).queued(n) == (self.queued(n) || (n == id && self.count(id) == 1)),
            forall|n: usize| n != id ==> self.release(id).nodes[n] == self.nodes[n],
            self.release(id).nodes[id].count == Some(self.count(id).wrapping_sub(1)),
            self.release(id).nodes.dom() == self.nodes.dom(),
    {
        self.lemma_with_count(id, self.count(id).wrapping_sub(1));
        if self.count(id) == 1 {
            self.decrement(id).lemma_enqueue(id);
        }
    }

    /// The oldest entry is freed, and no other node's standing changes.
    pub proof fn lemma_collect_one(self, c: int)
        requires
            self.wf(),
            0 <= c < self.queues.len(),
            self.queues[c].len() > 0,
        ensures
            self.collect_one(c).wf(),
            forall|n: usize|
                self.collect_one(c).queued(n) == (self.queued(n) && n != self.queues[c][0]),
            forall|n: usize|
                self.collect_one(c).live(n) == self.live(n),
    {
        let after = self.collect_one(c);
        let q = self.queues[c];
        let id = q[0];
        assert(self.nodes.contains_key(q[0]));
        assert forall|d: int, i: int|
            0 <= d < after.queues.len() && 0 <= i < after.queues[d].len() implies
            after.nodes.contains_key(#[trigger] after.queues[d][i])
            && after.nodes[after.queues[d][i]].collector == d by {
            if d == c {
                assert(after.queues[d][i] == q[i + 1]);
            } else {
                assert(after.queues[d][i] == self.queues[d][i]);
            }
        }
        assert forall|n: usize| after.queued(n) == (self.queued(n) && n != id) by {
            if self.nodes.contains_key(n) && n != id && self.nodes[n].collector == c {
                if q.contains(n) {
                    let i = choose|i: int| 0 <= i < q.len() && q[i] == n;
                    assert(q.skip(1)[i - 1] == n);
                }
            }
        }
        assert(self.queued(id)) by {
            assert(q.contains(id));
        }
    }

    /// A collector frees exactly what waits for it.
    pub proof fn lemma_collect(self, c: int)
        requires
            self.wf(),
            0 <= c < self.queues.len(),
        ensures
            self.collect(c).wf(),
            forall|n: usize|
                self.collect(c).nodes.contains_key(n) == (self.nodes.contains_key(n) && !(
                self.queued(n) && self.nodes[n].collector == c)),
            forall|n: usize|
                self.collect(c).queued(n) == (self.queued(n) && self.nodes[n].collector != c),
            forall|n: usize|
                self.collect(c).nodes.contains_key(n) ==> self.collect(c).nodes[n] == self.nodes[n],
    {
        let after = self.collect(c);
        assert forall|n: usize| self.queues[c].contains(n) implies self.queued(n)
            && self.nodes[n].collector == c by {
            let i = choose|i: int| 0 <= i < self.queues[c].len() && self.queues[c][i] == n;
            assert(self.nodes.contains_key(self.queues[c][i]));
        }
        assert forall|d: int, i: int|
            0 <= d < after.queues.len() && 0 <= i < after.queues[d].len() implies
            after.nodes.contains_key(#[trigger] after.queues[d][i])
            && after.nodes[after.queues[d][i]].collector == d by {
            assert(after.queues[d][i] == self.queues[d][i]);
        }
    }
}

/// Decides whether a pointer that finds this reference count is the only one.
pub fn is_unique(count: usize) -> (r: bool)
    ensures
        r == (count == 1),
{
    count == 1
}

/// Decides whether the pointer that found this reference count, and took one
/// off it, was the last: then the node goes to the drop queue.
pub fn is_last(previous: usize) -> (r: bool)
    ensures
        r == (previous == 1),
{
    previous == 1
}

/// Shared memory: nodes with contents of type `T`, and drop queues.
pub struct Heap<T> {
    slots: Vec<Option<Node<T>>>,
    free: Vec<usize>,
    queues: Vec<VecDeque<usize>>,
    tag: Ghost<int>,
}

impl<T> View for Heap<T> {
    type V = HeapView<T>;

    closed spec fn view(&self) -> HeapView<T> {
        HeapView {
            tag: self.tag@,
            nodes: Map::new(
                |id: usize| id < self.slots@.len() && self.slots@[id as int] is Some,
                |id: usize| self.slots@[id as int]->0,
            ),
            queues: Seq::new(self.queues@.len(), |c: int| self.queues@[c]@),
        }
    }
}

impl<T> Heap<T> {
    /// The free list names the vacant slots, each of them once.
    pub closed spec fn free_wf(self) -> bool {
        &&& forall|i: int|
            0 <= i < self.free@.len() ==> (#[trigger] self.free@[i]) < self.slots@.len()
                && self.slots@[self.free@[i] as int] is None
        &&& self.free@.no_duplicates()
        &&& forall|id: usize|
            #![trigger self.free@.contains(id)]
            #![trigger self.slots@[id as int]]
            id < self.slots@.len() && self.slots@[id as int] is None ==> self.free@.contains(id)
    }

    /// How many addresses the heap has memory for: all below this number.
    pub closed spec fn size(self) -> nat {
        self.slots@.len()
    }

    /// The heap's invariant.
    pub open spec fn wf(self) -> bool {
        self.free_wf() && self@.wf()
    }

    /// Makes an empty heap, without nodes or collectors.
    pub fn new() -> (r: Self)
        ensures
            r.wf(),
            r@.nodes == Map::<usize, Node<T>>::empty(),
            r@.queues == Seq::<Seq<usize>>::empty(),
    {
        Heap {
            slots: Vec::new(),
            free: Vec::new(),
            queues: Vec::new(),
            tag: Ghost(arbitrary()),
        }
    }

    /// Adds a drop queue and returns its number.
    pub(crate) fn add_queue(&mut self) -> (c: usize)
        requires
            old(self).wf(),
        ensures
            final(self).wf(),
            c == old(self)@.queues.len(),
            final(self)@ == old(self)@.add_queue(),
    {
        let c: usize = self.queues.len();
        self.queues.push(VecDeque::new());
        assert(self@ == old(self)@.add_queue());
        c
    }

    /// Allocates a node at an address that no other node has.
    pub(crate) fn allocate(&mut self, node: Node<T>) -> (id: usize)
        requires
            old(self).wf(),
            node.collector < old(self)@.queues.len(),
        ensures
            final(self).wf(),
            !old(self)@.nodes.contains_key(id),
            final(self)@ == old(self)@.put(id, node),
            final(self).size() == old(self).size() || (final(self).size() == old(self).size() + 1
                && forall|n: usize|
                n < old(self).size() ==> #[trigger] old(self)@.nodes.contains_key(n)),
    {
        match self.free.pop() {
            Some(id) => {
                self.slots[id] = Some(node);
                assert forall|n: usize| n != id && old(self).free@.contains(n) implies self.free@.contains(
                    n,
                ) by {
                    let i = choose|i: int| 0 <= i < old(self).free@.len() && old(self).free@[i] == n;
                    assert(self.free@[i] == n);
                }
                assert(self@ == old(self)@.put(id, node));
                id
            },
            None => {
                assert forall|n: usize| n < old(self).size() implies #[trigger] old(
                    self,
                )@.nodes.contains_key(n) by {
                    assert(!old(self).free@.contains(n));
                }
                let id: usize = self.slots.len();
                self.slots.push(Some(node));
                assert(self@ == old(self)@.put(id, node));
                id
            },
        }
    }

    /// Reads a node.
    pub(crate) fn node(&self, id: usize) -> (r: &Node<T>)
        requires
            self.wf(),
            self@.nodes.contains_key(id),
        ensures
            *r == self@.nodes[id],
    {
        match &self.slots[id] {
            Some(node) => node,
            None => vstd::pervasive::unreached(),
        }
    }

    /// Gives access to the contents of a node.
    pub(crate) fn data_mut(&mut self, id: usize) -> (r: &mut T)
        requires
            old(self).wf(),
            old(self)@.nodes.contains_key(id),
        ensures
            *r == old(self)@.data(id),
            final(self)@ == old(self)@.with_data(id, *final(r)),
            final(self).wf(),
    {
        let ghost node = self@.nodes[id];
        assert forall|heap: Self, data: T|
            heap.free == self.free && heap.queues == self.queues && heap.tag == self.tag
                && heap.slots@
                == self.slots@.update(
                id as int,
                Some(Node { collector: node.collector, count: node.count, data }),
            ) implies (#[trigger] heap.wf()) && heap@ == (#[trigger] self@.with_data(id, data)) by {
            assert(heap@ == self@.with_data(id, data));
            self@.lemma_with_data(id, data);
        }
        match &mut self.slots[id] {
            Some(node) => &mut node.data,
            None => vstd::pervasive::unreached(),
        }
    }

    /// Sets the reference count of a node.
    pub(crate) fn set_count(&mut self, id: usize, count: usize)
        requires
            old(self).wf(),
            old(self)@.nodes.contains_key(id),
        ensures
            final(self).wf(),
            final(self)@ == old(self)@.with_count(id, count),
    {
        match &mut self.slots[id] {
            Some(node) => {
                node.count = Some(count);
            },
            None => {},
        }
        assert(self@ == old(self)@.with_count(id, count));
    }

    /// Adds one to the reference count of a node that has one.
    pub(crate) fn retain(&mut self, id: usize)
        requires
            old(self).wf(),
            old(self)@.shared(id),
        ensures
            final(self).wf(),
            final(self)@ == old(self)@.retain(id),
    {
        match self.node(id).count {
            Some(count) => self.set_count(id, count.wrapping_add(1)),
            None => {},
        }
    }

    /// Takes one off the reference count of a node that has one, and returns what
    /// the count was.
    pub(crate) fn decrement(&mut self, id: usize) -> (r: usize)
        requires
            old(self).wf(),
            old(self)@.shared(id),
        ensures
            final(self).wf(),
            r == old(self)@.count(id),
            final(self)@ == old(self)@.decrement(id),
    {
        match self.node(id).count {
            Some(count) => {
                self.set_count(id, count.wrapping_sub(1));
                count
            },
            None => vstd::pervasive::unreached(),
        }
    }

    /// Puts a live node at the end of its collector's drop queue.
    pub(crate) fn queue_drop(&mut self, id: usize)
        requires
            old(self).wf(),
            old(self)@.live(id),
        ensures
            final(self).wf(),
            final(self)@ == old(self)@.enqueue(id),
    {
        let c: usize = self.node(id).collector;
        self.queues[c].push_back(id);
        assert(self@ == old(self)@.enqueue(id));
    }

    /// Frees the oldest entry of a drop queue and returns its contents.
    pub(crate) fn collect_one(&mut self, c: usize) -> (r: Option<T>)
        requires
            old(self).wf(),
            c < old(self)@.queues.len(),
        ensures
            final(self).wf(),
            final(self).size() == old(self).size(),
            match r {
                Some(data) => {
                    &&& old(self)@.queues[c as int].len() > 0
                    &&& data == old(self)@.data(old(self)@.queues[c as int][0])
                    &&& final(self)@ == old(self)@.collect_one(c as int)
                },
                None => {
                    &&& old(self)@.queues[c as int].len() == 0
                    &&& final(self)@ == old(self)@
                },
            },
    {
        match self.queues[c].pop_front() {
            Some(id) => {
                assert(old(self)@.nodes.contains_key(old(self)@.queues[c as int][0]));
                let node: Option<Node<T>> = self.slots[id].take();
                self.free.push(id);
                assert forall|n: usize| self.free@.contains(n) == (old(self).free@.contains(n) || n
                    == id) by {
                    lemma_push_contains(old(self).free@, id, n);
                }
                assert(self@ == old(self)@.collect_one(c as int));
                proof {
                    old(self)@.lemma_collect_one(c as int);
                }
                match node {
                    Some(node) => Some(node.data),
                    None => None,
                }
            },
            None => {
                assert(self@ == old(self)@);
                None
            },
        }
    }

    /// Frees what waits in a drop queue and returns the contents, oldest entry
    /// first.
    pub(crate) fn collect(&mut self, c: usize) -> (r: Vec<T>)
        requires
            old(self).wf(),
            c < old(self)@.queues.len(),
        ensures
            final(self).wf(),
            final(self).size() == old(self).size(),
            r@.len() == old(self)@.queues[c as int].len(),
            forall|i: int|
                0 <= i < r@.len() ==> #[trigger] r@[i] == old(self)@.nodes[old(
                    self,
                )@.queues[c as int][i]].data,
            final(self)@ == old(self)@.collect(c as int),
    {
        let ghost ids = self@.queues[c as int];
        let mut contents: Vec<T> = Vec::new();
        assert(ids.skip(0) == ids);
        loop
            invariant
                c < old(self)@.queues.len(),
                ids == old(self)@.queues[c as int],
                old(self)@.wf(),
                contents@.len() <= ids.len(),
                forall|i: int|
                    0 <= i < contents@.len() ==> #[trigger] contents@[i] == old(
                        self,
                    )@.nodes[ids[i]].data,
                self.wf(),
                self@.tag == old(self)@.tag,
                self.size() == old(self).size(),
                self@.queues == old(self)@.queues.update(
                    c as int,
                    ids.skip(contents@.len() as int),
                ),
                self@.nodes == old(self)@.nodes.remove_keys(
                    ids.take(contents@.len() as int).to_set(),
                ),
            decreases ids.len() - contents@.len(),
        {
            let ghost before = self@;
            let ghost done = contents@.len() as int;
            match self.collect_one(c) {
                Some(data) => {
                    proof {
                        let id = ids[done];
                        assert(before.queues[c as int] == ids.skip(done));
                        assert(before.nodes.contains_key(before.queues[c as int][0]));
                        assert(ids.skip(done).skip(1) == ids.skip(done + 1));
                        assert(ids.take(done + 1) == ids.take(done).push(id));
                        assert forall|n: usize|
                            ids.take(done + 1).contains(n) == (ids.take(done).contains(n) || n
                                == id) by {
                            lemma_push_contains(ids.take(done), id, n);
                        }
                        assert(self@.nodes == old(self)@.nodes.remove_keys(
                            ids.take(done + 1).to_set(),
                        ));
                    }
                    contents.push(data);
                },
                None => {
                    assert(done == ids.len());
                    assert(ids.take(done) == ids);
                    assert(ids.skip(done) == Seq::<usize>::empty());
                    assert(self@ == old(self)@.collect(c as int));
                    return contents;
                },
            }
        }
    }
}

} // verus!
