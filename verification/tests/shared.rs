use basedrop::heap::{is_last, is_unique};
use basedrop::{Collector, Heap, Owned, Shared};
use std::sync::atomic::{AtomicUsize, Ordering};
use std::sync::Arc;

struct Test(Arc<AtomicUsize>);

impl Drop for Test {
    fn drop(&mut self) {
        self.0.fetch_add(1, Ordering::Relaxed);
    }
}

struct LoomTest(loom::sync::Arc<loom::sync::atomic::AtomicUsize>);

impl Drop for LoomTest {
    fn drop(&mut self) {
        self.0.fetch_add(1, Ordering::Relaxed);
    }
}

#[test]
fn shared() {
    let counter = Arc::new(AtomicUsize::new(0));

    let mut heap = Heap::new();
    let mut collector = Collector::new(&mut heap);
    let handle = collector.handle();

    let shared = Shared::new(&mut heap, &handle, Test(counter.clone()));
    let mut copies = Vec::new();
    for _ in 0..10 {
        copies.push(shared.clone(&mut heap));
    }

    assert_eq!(counter.load(Ordering::Relaxed), 0);

    shared.drop(&mut heap);
    for copy in copies {
        copy.drop(&mut heap);
    }
    collector.collect(&mut heap);

    assert_eq!(counter.load(Ordering::Relaxed), 1);
}

#[test]
fn get_mut() {
    let mut heap = Heap::new();
    let collector = Collector::new(&mut heap);
    let mut x = Shared::new(&mut heap, &collector.handle(), 3);

    *Shared::get_mut(&mut x, &mut heap).unwrap() = 4;
    assert_eq!(*x.deref(&heap), 4);

    let _y = Shared::clone(&x, &mut heap);
    assert!(Shared::get_mut(&mut x, &mut heap).is_none());
}

#[test]
fn shared_concurrent_clone_and_drop() {
    loom::model(|| {
        let mut heap = Heap::new();
        let mut collector = Collector::new(&mut heap);
        let counter = loom::sync::Arc::new(loom::sync::atomic::AtomicUsize::new(0));
        let shared = Shared::new(&mut heap, &collector.handle(), LoomTest(counter.clone()));
        let shared = loom::sync::Arc::new(shared);
        let heap = loom::sync::Arc::new(loom::sync::Mutex::new(heap));

        let cloned = shared.clone();
        let thread_heap = heap.clone();
        let thread_counter = counter.clone();
        let thread = loom::thread::spawn(move || {
            let copy = Shared::clone(&cloned, &mut thread_heap.lock().unwrap());
            assert_eq!(thread_counter.load(Ordering::Relaxed), 0);
            copy.drop(&mut thread_heap.lock().unwrap());
        });

        loom::thread::yield_now();
        assert_eq!(counter.load(Ordering::Relaxed), 0);
        thread.join().unwrap();

        match loom::sync::Arc::try_unwrap(shared) {
            Ok(shared) => shared.drop(&mut heap.lock().unwrap()),
            Err(_) => panic!("the other thread has let go of the pointer"),
        }
        collector.collect(&mut heap.lock().unwrap());
        assert_eq!(counter.load(Ordering::Relaxed), 1);
    });
}

#[test]
fn shared_get_mut_observes_clones() {
    loom::model(|| {
        let mut heap = Heap::new();
        let collector = Collector::new(&mut heap);
        let mut shared = Shared::new(&mut heap, &collector.handle(), 1);

        *Shared::get_mut(&mut shared, &mut heap).unwrap() = 2;
        assert_eq!(*shared.deref(&heap), 2);

        let copy = Shared::clone(&shared, &mut heap);
        assert!(Shared::get_mut(&mut shared, &mut heap).is_none());
        copy.drop(&mut heap);
        assert_eq!(Shared::get_mut(&mut shared, &mut heap), Some(&mut 2));
    });
}

#[test]
fn shared_is_queued_by_the_last_pointer_only() {
    let mut heap = Heap::new();
    let mut collector = Collector::new(&mut heap);
    let x = Shared::new(&mut heap, &collector.handle(), 'x');
    let y = x.clone(&mut heap);
    x.drop(&mut heap);
    assert_eq!(collector.collect_one(&mut heap), None);
    assert_eq!(*y.deref(&heap), 'x');
    y.drop(&mut heap);
    assert_eq!(collector.collect_one(&mut heap), Some('x'));
    assert_eq!(collector.collect_one(&mut heap), None);
}

#[test]
fn shared_goes_to_the_collector_it_was_allocated_for() {
    let mut heap = Heap::new();
    let mut first = Collector::new(&mut heap);
    let mut second = Collector::new(&mut heap);
    let x = Shared::new(&mut heap, &second.handle(), 1);
    x.drop(&mut heap);
    assert_eq!(first.collect_one(&mut heap), None);
    assert_eq!(second.collect_one(&mut heap), Some(1));
}

#[test]
fn clone_then_drop_changes_nothing() {
    let mut heap = Heap::new();
    let collector = Collector::new(&mut heap);
    let mut x = Shared::new(&mut heap, &collector.handle(), 5);
    let copy = x.clone(&mut heap);
    copy.drop(&mut heap);
    assert_eq!(Shared::get_mut(&mut x, &mut heap), Some(&mut 5));
}

#[test]
fn clones_see_one_value() {
    let mut heap = Heap::new();
    let collector = Collector::new(&mut heap);
    let mut x = Shared::new(&mut heap, &collector.handle(), 5);
    *Shared::get_mut(&mut x, &mut heap).unwrap() = 6;
    let copy = x.clone(&mut heap);
    assert_eq!(*copy.deref(&heap), 6);
    assert!(std::ptr::eq(copy.deref(&heap), x.deref(&heap)));
}

#[test]
fn collection_goes_oldest_first_and_frees_for_reuse() {
    let mut heap = Heap::new();
    let mut collector = Collector::new(&mut heap);
    let handle = collector.handle();
    let a = Shared::new(&mut heap, &handle, 1);
    let b = Owned::new(&mut heap, &handle, 2);
    let c = Shared::new(&mut heap, &handle, 3);
    c.drop(&mut heap);
    a.drop(&mut heap);
    b.drop(&mut heap);
    assert_eq!(collector.collect_one(&mut heap), Some(3));
    let d = Shared::new(&mut heap, &handle, 4);
    assert_eq!(collector.collect_one(&mut heap), Some(1));
    assert_eq!(collector.collect_one(&mut heap), Some(2));
    assert_eq!(collector.collect_one(&mut heap), None);
    assert_eq!(*d.deref(&heap), 4);
}

#[test]
fn contents_that_hold_pointers_can_be_taken_apart() {
    struct Link {
        value: u32,
        next: Option<Shared<Link>>,
    }
    let mut heap = Heap::new();
    let mut collector = Collector::new(&mut heap);
    let handle = collector.handle();
    let last = Shared::new(&mut heap, &handle, Link { value: 2, next: None });
    let first = Shared::new(&mut heap, &handle, Link { value: 1, next: Some(last) });
    first.drop(&mut heap);
    let mut seen = Vec::new();
    while let Some(link) = collector.collect_one(&mut heap) {
        seen.push(link.value);
        if let Some(next) = link.next {
            next.drop(&mut heap);
        }
    }
    assert_eq!(seen, vec![1, 2]);
}

#[test]
fn decisions_on_counts() {
    assert!(is_unique(1));
    assert!(!is_unique(0));
    assert!(!is_unique(2));
    assert!(is_last(1));
    assert!(!is_last(0));
    assert!(!is_last(2));
}

#[test]
fn a_node_is_queued_one_step_after_its_last_pointer_is_gone() {
    let mut heap = Heap::new();
    let mut collector = Collector::new(&mut heap);
    let handle = collector.handle();
    let x = Shared::new(&mut heap, &handle, 'x');
    let y = x.clone(&mut heap);
    let z = Shared::new(&mut heap, &handle, 'z');

    let mut first = x.begin_drop();
    let mut second = y.begin_drop();
    first.step(&mut heap);
    assert!(first.through());
    second.step(&mut heap);
    assert!(!second.through());
    // Others go on in between: what is given up now is queued before it.
    assert_eq!(collector.collect_one(&mut heap), None);
    z.drop(&mut heap);
    second.step(&mut heap);
    assert!(second.through());
    assert_eq!(collector.collect_one(&mut heap), Some('z'));
    assert_eq!(collector.collect_one(&mut heap), Some('x'));
    assert_eq!(collector.collect_one(&mut heap), None);
}

#[test]
fn loom_finds_one_last_pointer_among_two() {
    loom::model(|| {
        let mut heap = Heap::new();
        let mut collector = Collector::new(&mut heap);
        let x = Shared::new(&mut heap, &collector.handle(), 7);
        let y = x.clone(&mut heap);
        let heap = loom::sync::Arc::new(loom::sync::Mutex::new(heap));

        let thread_heap = heap.clone();
        let thread = loom::thread::spawn(move || {
            let mut dropping = y.begin_drop();
            while !dropping.through() {
                dropping.step(&mut thread_heap.lock().unwrap());
            }
        });
        let mut dropping = x.begin_drop();
        while !dropping.through() {
            dropping.step(&mut heap.lock().unwrap());
        }
        thread.join().unwrap();

        let mut heap = heap.lock().unwrap();
        assert_eq!(collector.collect_one(&mut heap), Some(7));
        assert_eq!(collector.collect_one(&mut heap), None);
    });
}
