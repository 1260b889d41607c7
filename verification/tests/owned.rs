use basedrop::{Collector, Heap, Owned};
use std::sync::atomic::{AtomicUsize, Ordering};
use std::sync::Arc;

struct Test(Arc<AtomicUsize>);

impl Drop for Test {
    fn drop(&mut self) {
        self.0.fetch_add(1, Ordering::Relaxed);
    }
}

#[test]
fn owned_drop_is_deferred() {
    let counter = Arc::new(AtomicUsize::new(0));
    let mut heap = Heap::new();
    let mut collector = Collector::new(&mut heap);
    let owned = Owned::new(&mut heap, &collector.handle(), Test(counter.clone()));

    owned.drop(&mut heap);
    assert_eq!(counter.load(Ordering::Relaxed), 0);

    collector.collect(&mut heap);
    assert_eq!(counter.load(Ordering::Relaxed), 1);
}

#[test]
fn owned_clone_allocates_independent_value() {
    let mut heap = Heap::new();
    let mut collector = Collector::new(&mut heap);
    let mut owned = Owned::new(&mut heap, &collector.handle(), 1);
    let mut cloned = owned.clone(&mut heap);

    *owned.deref_mut(&mut heap) = 2;
    *cloned.deref_mut(&mut heap) = 3;

    assert_eq!(*owned.deref(&heap), 2);
    assert_eq!(*cloned.deref(&heap), 3);

    owned.drop(&mut heap);
    cloned.drop(&mut heap);
    collector.collect(&mut heap);
}

#[test]
fn owned_can_move_between_threads() {
    loom::model(|| {
        let mut heap = Heap::new();
        let mut collector = Collector::new(&mut heap);
        let handle = collector.handle();
        let owned = Owned::new(&mut heap, &handle, 1);
        let heap = loom::sync::Arc::new(loom::sync::Mutex::new(heap));

        let thread_heap = heap.clone();
        let thread = loom::thread::spawn(move || {
            let mut owned = owned;
            *owned.deref_mut(&mut thread_heap.lock().unwrap()) = 2;
            assert_eq!(*owned.deref(&thread_heap.lock().unwrap()), 2);
            owned.drop(&mut thread_heap.lock().unwrap());
        });

        thread.join().unwrap();
        collector.collect(&mut heap.lock().unwrap());
    });
}

#[test]
fn owned_clone_copies_the_contents_and_the_collector() {
    let mut heap = Heap::new();
    let mut first = Collector::new(&mut heap);
    let mut second = Collector::new(&mut heap);
    let owned = Owned::new(&mut heap, &second.handle(), 7);
    let cloned = owned.clone(&mut heap);
    assert_eq!(*cloned.deref(&heap), 7);

    cloned.drop(&mut heap);
    assert_eq!(first.collect_one(&mut heap), None);
    assert_eq!(second.collect_one(&mut heap), Some(7));
    assert_eq!(second.collect_one(&mut heap), None);
    assert_eq!(*owned.deref(&heap), 7);
}

#[test]
fn owned_contents_can_still_change_hands_after_a_collection() {
    let mut heap = Heap::new();
    let mut collector = Collector::new(&mut heap);
    let handle = collector.handle();
    let kept = Owned::new(&mut heap, &handle, 1);
    let dropped = Owned::new(&mut heap, &handle, 2);
    dropped.drop(&mut heap);
    collector.collect(&mut heap);
    let next = Owned::new(&mut heap, &handle, 3);
    assert_eq!(*kept.deref(&heap), 1);
    assert_eq!(*next.deref(&heap), 3);
}

#[test]
fn owned_clone_stores_what_clone_returns() {
    #[derive(Debug, PartialEq)]
    struct Generation(u32);

    impl Clone for Generation {
        fn clone(&self) -> Self {
            Generation(self.0 + 1)
        }
    }

    let mut heap = Heap::new();
    let collector = Collector::new(&mut heap);
    let owned = Owned::new(&mut heap, &collector.handle(), Generation(1));
    let cloned = owned.clone(&mut heap);
    assert_eq!(*owned.deref(&heap), Generation(1));
    assert_eq!(*cloned.deref(&heap), Generation(2));
}
