//! What operations on a heap promise, said of its nodes and queues themselves.

use crate::collector::{Collector, Handle};
use crate::heap::{HeapView, Node};
use crate::owned::Owned;
use crate::shared::{Dropping, Shared};
use crate::shared_cell::SharedCell;
use crate::steps::DropStep;
use vstd::prelude::*;

verus! {

/// A node is live exactly as long as it is allocated and no queue names it; it is
/// then either counted or owned.
pub proof fn law_standing<T>(heap: HeapView<T>, n: usize)
    requires
        heap.wf(),
    ensures
        heap.live(n) <==> heap.nodes.contains_key(n) && forall|c: int, i: int|
            0 <= c < heap.queues.len() && 0 <= i < heap.queues[c].len() ==> #[trigger]
                heap.queues[c][i] != n,
        heap.shared(n) <==> heap.live(n) && heap.nodes[n].count is Some,
        heap.owned(n) <==> heap.live(n) && heap.nodes[n].count is None,
        heap.queued(n) <==> heap.nodes.contains_key(n) && !heap.live(n),
{
    if heap.queued(n) {
        let c = heap.nodes[n].collector as int;
        let i = choose|i: int| 0 <= i < heap.queues[c].len() && heap.queues[c][i] == n;
        assert(heap.queues[c][i] == n);
    }
    assert forall|c: int, i: int|
        0 <= c < heap.queues.len() && 0 <= i < heap.queues[c].len() && #[trigger] heap.queues[c][i]
            == n implies heap.queued(n) by {
        assert(heap.nodes[heap.queues[c][i]].collector == c);
        assert(heap.queues[c].contains(n));
    }
}

/// What belongs to a heap can be used on it, and nothing more is asked: of a
/// collector and of a handle that the heap has the queue, of a pointer that its
/// node is allocated, of its kind and not given up.
pub proof fn law_validity<T>(
    heap: HeapView<T>,
    collector: Collector,
    handle: Handle,
    owned: Owned<T>,
    shared: Shared<T>,
    cell: SharedCell<T>,
)
    requires
        heap.wf(),
    ensures
        collector.valid(heap) <==> collector.tag() == heap.tag && collector.queue()
            < heap.queues.len(),
        handle.valid(heap) <==> handle.tag() == heap.tag && handle.queue() < heap.queues.len(),
        owned.valid(heap) <==> owned.tag() == heap.tag && heap.nodes.contains_key(owned.id())
            && heap.nodes[owned.id()].count is None && !heap.queued(owned.id()),
        shared.valid(heap) <==> shared.tag() == heap.tag && heap.nodes.contains_key(shared.id())
            && heap.nodes[shared.id()].count is Some && !heap.queued(shared.id()),
        cell.valid(heap) <==> cell.heap() == heap.tag && heap.nodes.contains_key(cell@.node)
            && heap.nodes[cell@.node].count is Some && !heap.queued(cell@.node),
{
}

/// A pointer that is given up can take its next step whenever its node is
/// allocated and not queued.
pub proof fn law_drop_validity<T>(heap: HeapView<T>, dropping: Dropping<T>)
    requires
        heap.wf(),
        dropping.tag() == heap.tag,
    ensures
        dropping@ matches DropStep::Decrement { node } ==> (dropping.valid(heap) <==> heap.shared(
            node,
        )),
        dropping@ matches DropStep::Enqueue { node } ==> (dropping.valid(heap) <==> heap.live(node)),
        dropping@ is Done ==> dropping.valid(heap),
{
}

/// An allocation stores the node as it was given, under its address, and changes
/// nothing else: no other node, no queue.
pub proof fn law_allocation_stores_the_node<T>(
    heap: HeapView<T>,
    id: usize,
    node: Node<T>,
    n: usize,
)
    ensures
        heap.put(id, node).nodes.contains_key(id),
        heap.put(id, node).nodes[id].collector == node.collector,
        heap.put(id, node).nodes[id].count == node.count,
        heap.put(id, node).nodes[id].data == node.data,
        n != id ==> heap.put(id, node).nodes.contains_key(n) == heap.nodes.contains_key(n),
        n != id ==> heap.put(id, node).nodes[n] == heap.nodes[n],
        heap.put(id, node).queues == heap.queues,
        heap.put(id, node).tag == heap.tag,
{
}

/// The heap after the only pointer to `id` is given up.
pub open spec fn given_up<T>(heap: HeapView<T>, id: usize) -> HeapView<T> {
    if heap.nodes[id].count is Some {
        heap.release(id)
    } else {
        heap.enqueue(id)
    }
}

/// Contents that are allocated for a collector and then given up wait, unchanged,
/// at the end of the queue of that collector; collecting with it frees them, and
/// collecting with any other leaves them where they are.
pub proof fn law_contents_reach_their_own_collector<T>(
    heap: HeapView<T>,
    id: usize,
    node: Node<T>,
    d: int,
)
    requires
        heap.wf(),
        !heap.nodes.contains_key(id),
        node.collector < heap.queues.len(),
        node.count is None || node.count == Some(1usize),
        0 <= d < heap.queues.len(),
    ensures
        ({
            let waiting = given_up(heap.put(id, node), id);
            let queue = waiting.queues[node.collector as int];
            &&& queue.len() == heap.queues[node.collector as int].len() + 1
            &&& queue.last() == id
            &&& d != node.collector ==> waiting.queues[d] == heap.queues[d]
            &&& waiting.nodes.contains_key(id)
            &&& waiting.nodes[id].data == node.data
            &&& waiting.nodes[id].collector == node.collector
            &&& waiting.collect(d).nodes.contains_key(id) <==> d != node.collector
            &&& d != node.collector ==> waiting.collect(d).queues[node.collector as int] == queue
        }),
{
    let fresh = heap.put(id, node);
    let waiting = given_up(fresh, id);
    heap.lemma_put(id, node);
    if node.count is Some {
        fresh.lemma_release(id);
    } else {
        fresh.lemma_enqueue(id);
    }
    waiting.lemma_collect(d);
}

/// What is given up first is collected first: of two nodes of one collector, the
/// one that was queued before the other comes before it in the queue.
pub proof fn law_first_in_first_out<T>(heap: HeapView<T>, a: usize, b: usize)
    requires
        heap.wf(),
        heap.live(a),
        heap.live(b),
        a != b,
        heap.nodes[a].collector == heap.nodes[b].collector,
    ensures
        ({
            let c = heap.nodes[a].collector as int;
            let before = heap.queues[c];
            let after = heap.enqueue(a).enqueue(b).queues[c];
            &&& after.len() == before.len() + 2
            &&& forall|i: int| 0 <= i < before.len() ==> #[trigger] after[i] == before[i]
            &&& after[before.len() as int] == a
            &&& after[before.len() as int + 1] == b
        }),
{
}

/// Giving up and collecting leave every node that stays as it was, contents and
/// count alike, and the queues of other collectors too.
pub proof fn law_queueing_changes_no_node<T>(heap: HeapView<T>, id: usize, d: int)
    requires
        heap.wf(),
        heap.live(id),
        0 <= d < heap.queues.len(),
    ensures
        heap.enqueue(id).nodes == heap.nodes,
        heap.enqueue(id).queues.len() == heap.queues.len(),
        d != heap.nodes[id].collector ==> heap.enqueue(id).queues[d] == heap.queues[d],
        heap.enqueue(id).tag == heap.tag,
{
}

/// A collection is the collection of the oldest entry, followed by a collection
/// of what is left; where nothing waits it changes nothing.
pub proof fn law_collect_takes_one_after_the_other<T>(heap: HeapView<T>, c: int)
    requires
        heap.wf(),
        0 <= c < heap.queues.len(),
    ensures
        heap.queues[c].len() == 0 ==> heap.collect(c) == heap,
        heap.queues[c].len() > 0 ==> heap.collect(c) == heap.collect_one(c).collect(c),
        heap.queues[c].len() > 0 ==> heap.collect_one(c).queues[c].len() == heap.queues[c].len() - 1,
        heap.collect(c).queues[c].len() == 0,
{
    let q = heap.queues[c];
    if q.len() == 0 {
        assert(q == Seq::<usize>::empty());
        assert(heap.collect(c).nodes == heap.nodes);
        assert(heap.collect(c).queues == heap.queues);
    } else {
        let rest = heap.collect_one(c);
        assert(rest.queues[c] == q.skip(1));
        assert forall|n: usize| q.contains(n) == (n == q[0] || q.skip(1).contains(n)) by {
            if q.contains(n) && n != q[0] {
                let i = choose|i: int| 0 <= i < q.len() && q[i] == n;
                assert(q.skip(1)[i - 1] == n);
            }
            if q.skip(1).contains(n) {
                let i = choose|i: int| 0 <= i < q.skip(1).len() && q.skip(1)[i] == n;
                assert(q[i + 1] == n);
            }
        }
        assert(heap.collect(c).nodes == rest.collect(c).nodes);
        assert(heap.collect(c).queues == rest.collect(c).queues);
    }
}

/// Contents come out of a heap once each, in the order in which they were given
/// up: what waits is the contents of the oldest entry, followed by what waits once
/// that entry is freed; nothing waits after a collection; and giving a node up adds
/// its contents at the end of what waits for its collector, and to nothing else.
pub proof fn law_contents_come_out_once<T>(heap: HeapView<T>, c: int, id: usize)
    requires
        heap.wf(),
        0 <= c < heap.queues.len(),
    ensures
        heap.waiting(c).len() == heap.queues[c].len(),
        heap.queues[c].len() > 0 ==> heap.waiting(c) == seq![heap.nodes[heap.queues[c][0]].data]
            + heap.collect_one(c).waiting(c),
        heap.collect(c).waiting(c).len() == 0,
        forall|d: int|
            0 <= d < heap.queues.len() && d != c ==> #[trigger] heap.collect(c).waiting(d)
                == heap.waiting(d),
        heap.live(id) ==> heap.enqueue(id).waiting(c) == (if heap.nodes[id].collector == c {
            heap.waiting(c).push(heap.nodes[id].data)
        } else {
            heap.waiting(c)
        }),
{
    if heap.queues[c].len() > 0 {
        let rest = heap.collect_one(c);
        assert forall|i: int| 0 <= i < rest.queues[c].len() implies #[trigger] rest.waiting(c)[i]
            == heap.waiting(c)[i + 1] by {
            assert(heap.queues[c][i + 1] != heap.queues[c][0]);
        }
        assert(heap.waiting(c) == seq![heap.nodes[heap.queues[c][0]].data] + rest.waiting(c));
    }
    heap.lemma_collect(c);
    assert forall|d: int| 0 <= d < heap.queues.len() && d != c implies #[trigger] heap.collect(
        c,
    ).waiting(d) == heap.waiting(d) by {
        assert forall|i: int| 0 <= i < heap.queues[d].len() implies #[trigger] heap.collect(
            c,
        ).waiting(d)[i] == heap.waiting(d)[i] by {
            let n = heap.queues[d][i];
            assert(heap.nodes.contains_key(heap.queues[d][i]));
            assert(heap.queues[d].contains(n));
        }
        assert(heap.collect(c).waiting(d) == heap.waiting(d));
    }
    if heap.live(id) && heap.nodes[id].collector == c {
        assert(heap.enqueue(id).waiting(c) == heap.waiting(c).push(heap.nodes[id].data));
    } else if heap.live(id) {
        assert(heap.enqueue(id).waiting(c) == heap.waiting(c));
    }
}

/// The oldest entry is what a single collection frees, and nothing else.
pub proof fn law_collect_one_frees_the_oldest<T>(heap: HeapView<T>, c: int, n: usize)
    requires
        heap.wf(),
        0 <= c < heap.queues.len(),
        heap.queues[c].len() > 0,
    ensures
        heap.nodes.contains_key(heap.queues[c][0]),
        heap.collect_one(c).nodes.contains_key(n) <==> heap.nodes.contains_key(n) && n
            != heap.queues[c][0],
        n != heap.queues[c][0] ==> heap.collect_one(c).nodes[n] == heap.nodes[n],
        forall|i: int|
            0 <= i < heap.collect_one(c).queues[c].len() ==> #[trigger] heap.collect_one(
                c,
            ).queues[c][i] == heap.queues[c][i + 1],
        forall|d: int|
            0 <= d < heap.queues.len() && d != c ==> #[trigger] heap.collect_one(c).queues[d]
                == heap.queues[d],
        heap.collect_one(c).queues.len() == heap.queues.len(),
{
    assert(heap.nodes.contains_key(heap.queues[c][0]));
}

/// One more pointer makes a count larger by one, one pointer less makes it
/// smaller by one, round the end of a machine word; contents, collector and all
/// other nodes stay.
pub proof fn law_counting_by_one<T>(heap: HeapView<T>, id: usize, n: usize)
    requires
        heap.wf(),
        heap.shared(id),
    ensures
        ({
            let more = heap.retain(id).nodes[id];
            let less = heap.release(id).nodes[id];
            let count = heap.nodes[id].count->0;
            &&& more.count is Some
            &&& more.count->0 == (if count == usize::MAX {
                0
            } else {
                count + 1
            })
            &&& less.count is Some
            &&& less.count->0 == (if count == 0 {
                usize::MAX as int
            } else {
                count - 1
            })
            &&& more.data == heap.nodes[id].data && less.data == heap.nodes[id].data
            &&& more.collector == heap.nodes[id].collector && less.collector
                == heap.nodes[id].collector
            &&& n != id ==> heap.retain(id).nodes[n] == heap.nodes[n] && heap.release(id).nodes[n]
                == heap.nodes[n]
            &&& heap.retain(id).nodes.contains_key(n) == heap.nodes.contains_key(n)
            &&& heap.release(id).nodes.contains_key(n) == heap.nodes.contains_key(n)
            &&& heap.retain(id).queues == heap.queues
            &&& count != 1 ==> heap.release(id).queues == heap.queues
            &&& count == 1 ==> heap.release(id).queues == heap.queues.update(
                heap.nodes[id].collector as int,
                heap.queues[heap.nodes[id].collector as int].push(id),
            )
        }),
{
    heap.lemma_release(id);
}

/// What is written into a node is what is read from it, and the node's count and
/// collector, and every other node, are as before.
pub proof fn law_write_then_read<T>(heap: HeapView<T>, id: usize, data: T, n: usize)
    requires
        heap.nodes.contains_key(id),
    ensures
        heap.with_data(id, data).nodes[id].data == data,
        heap.with_data(id, data).data(id) == data,
        heap.with_data(id, data).nodes[id].count == heap.nodes[id].count,
        heap.with_data(id, data).nodes[id].collector == heap.nodes[id].collector,
        n != id ==> heap.with_data(id, data).nodes[n] == heap.nodes[n],
        heap.with_data(id, data).nodes.contains_key(n) == heap.nodes.contains_key(n),
        heap.with_data(id, data).queues == heap.queues,
{
}

/// A new collector has the next number and an empty queue; the others keep
/// theirs.
pub proof fn law_new_collector<T>(heap: HeapView<T>, c: int)
    requires
        0 <= c < heap.queues.len(),
    ensures
        heap.add_queue().queues.len() == heap.queues.len() + 1,
        heap.add_queue().queues.last().len() == 0,
        heap.add_queue().queues[c] == heap.queues[c],
        heap.add_queue().nodes == heap.nodes,
{
}

} // verus!
