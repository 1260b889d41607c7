use basedrop::{Collector, Getting, Heap, Replacing, Shared, SharedCell};
use std::sync::atomic::{AtomicUsize, Ordering};
use std::sync::Arc;

struct Test(Arc<AtomicUsize>);

impl Drop for Test {
    fn drop(&mut self) {
        self.0.fetch_add(1, Ordering::Relaxed);
    }
}

#[test]
fn shared_cell() {
    let counter = Arc::new(AtomicUsize::new(0));

    let mut heap = Heap::new();
    let mut collector = Collector::new(&mut heap);
    let shared = Shared::new(&mut heap, &collector.handle(), Test(counter.clone()));
    let mut cell = SharedCell::new(shared);
    collector.collect(&mut heap);

    assert_eq!(counter.load(Ordering::Relaxed), 0);

    let copy = cell.get(&mut heap);
    let copy2 = cell.replace(copy);
    collector.collect(&mut heap);

    assert_eq!(counter.load(Ordering::Relaxed), 0);

    cell.drop(&mut heap);
    collector.collect(&mut heap);

    assert_eq!(counter.load(Ordering::Relaxed), 0);

    copy2.drop(&mut heap);
    collector.collect(&mut heap);

    assert_eq!(counter.load(Ordering::Relaxed), 1);
}

#[test]
fn shared_cell_replace_sees_reader_clone() {
    let mut heap = Heap::new();
    let collector = Collector::new(&mut heap);
    let handle = collector.handle();

    let old = Shared::new(&mut heap, &handle, 1);
    let mut cell = SharedCell::new(old);

    let reader = cell.get(&mut heap);
    let new = Shared::new(&mut heap, &handle, 2);
    let mut old = cell.replace(new);

    assert!(Shared::get_mut(&mut old, &mut heap).is_none());
    reader.drop(&mut heap);
}

/// A heap and a cell that several threads take turns with.
struct Memory<T> {
    heap: Heap<T>,
    cell: SharedCell<T>,
}

/// Gets a copy, one access to shared memory at a time.
fn get_in_steps<T>(memory: &loom::sync::Mutex<Memory<T>>) -> Shared<T> {
    let mut get = memory.lock().unwrap().cell.begin_get();
    loop {
        match get.finish() {
            Ok(copy) => return copy,
            Err(pending) => get = pending,
        }
        assert!(!get.overflowed());
        {
            let mut guard = memory.lock().unwrap();
            let memory: &mut Memory<T> = &mut guard;
            memory.cell.step_get(&mut memory.heap, &mut get, false);
        }
        loom::thread::yield_now();
    }
}

/// Replaces the contents, one access to shared memory at a time.
fn replace_in_steps<T>(memory: &loom::sync::Mutex<Memory<T>>, value: Shared<T>) -> Shared<T> {
    let mut replace = memory.lock().unwrap().cell.begin_replace(value);
    loop {
        match replace.finish() {
            Ok(old) => return old,
            Err(pending) => replace = pending,
        }
        memory.lock().unwrap().cell.step_replace(&mut replace, false);
        loom::thread::yield_now();
    }
}

struct Payload {
    is_old: bool,
}

#[test]
fn shared_cell_replace_sees_concurrent_get_clone() {
    let mut builder = loom::model::Builder::new();
    builder.max_branches = 100_000;
    builder.preemption_bound = Some(3);

    builder.check(|| {
        let mut heap = Heap::new();
        let mut collector = Collector::new(&mut heap);
        let handle = collector.handle();
        let state = loom::sync::Arc::new((
            loom::sync::Mutex::new((false, false)),
            loom::sync::Condvar::new(),
        ));

        let old = Shared::new(&mut heap, &handle, Payload { is_old: true });
        let cell = SharedCell::new(old);
        let memory = loom::sync::Arc::new(loom::sync::Mutex::new(Memory { heap, cell }));

        let reader_memory = memory.clone();
        let reader_state = state.clone();
        let reader = loom::thread::spawn(move || {
            let value = get_in_steps(&reader_memory);
            assert!(value.deref(&reader_memory.lock().unwrap().heap).is_old);

            let (lock, cvar) = &*reader_state;
            let mut state = lock.lock().unwrap();
            state.0 = true;
            cvar.notify_one();

            while !state.1 {
                state = cvar.wait(state).unwrap();
            }
            value.drop(&mut reader_memory.lock().unwrap().heap);
        });

        let (lock, cvar) = &*state;
        let mut test_state = lock.lock().unwrap();
        while !test_state.0 {
            test_state = cvar.wait(test_state).unwrap();
        }
        drop(test_state);

        let new = Shared::new(
            &mut memory.lock().unwrap().heap,
            &handle,
            Payload { is_old: false },
        );
        let mut old = replace_in_steps(&memory, new);

        assert!(
            Shared::get_mut(&mut old, &mut memory.lock().unwrap().heap).is_none(),
            "replace returned an old Shared that appeared unique while a reader still held a clone"
        );

        let mut test_state = lock.lock().unwrap();
        test_state.1 = true;
        cvar.notify_one();
        drop(test_state);
        old.drop(&mut memory.lock().unwrap().heap);

        reader.join().unwrap();

        match loom::sync::Arc::try_unwrap(memory) {
            Ok(memory) => {
                let Memory { mut heap, cell } = memory.into_inner().unwrap();
                cell.drop(&mut heap);
                collector.collect(&mut heap);
            }
            Err(_) => panic!("the reader has let go of the memory"),
        }
    });
}

#[test]
fn shared_cell_set_gives_the_old_pointer_up() {
    let mut heap = Heap::new();
    let mut collector = Collector::new(&mut heap);
    let handle = collector.handle();
    let x = Shared::new(&mut heap, &handle, 3);
    let mut cell = SharedCell::new(x);
    let y = Shared::new(&mut heap, &handle, 4);
    cell.set(&mut heap, y);
    assert_eq!(collector.collect_one(&mut heap), Some(3));
    assert_eq!(collector.collect_one(&mut heap), None);
    let copy = cell.get(&mut heap);
    assert_eq!(*copy.deref(&heap), 4);
}

#[test]
fn shared_cell_into_inner_keeps_the_count() {
    let mut heap = Heap::new();
    let collector = Collector::new(&mut heap);
    let x = Shared::new(&mut heap, &collector.handle(), 3);
    let cell = SharedCell::new(x);
    let mut x = cell.into_inner();
    assert_eq!(Shared::get_mut(&mut x, &mut heap), Some(&mut 3));
}

#[test]
fn shared_cell_drop_gives_the_last_pointer_up() {
    let mut heap = Heap::new();
    let mut collector = Collector::new(&mut heap);
    let x = Shared::new(&mut heap, &collector.handle(), 3);
    let cell = SharedCell::new(x);
    cell.drop(&mut heap);
    assert_eq!(collector.collect_one(&mut heap), Some(3));
}

#[test]
fn a_get_runs_while_another_reader_is_inside() {
    let mut heap = Heap::new();
    let collector = Collector::new(&mut heap);
    let x = Shared::new(&mut heap, &collector.handle(), 3);
    let mut cell = SharedCell::new(x);
    let mut slow = cell.begin_get();
    cell.step_get(&mut heap, &mut slow, false);
    cell.step_get(&mut heap, &mut slow, false);
    let quick = cell.get(&mut heap);
    assert_eq!(*quick.deref(&heap), 3);
    for _ in 0..3 {
        cell.step_get(&mut heap, &mut slow, false);
    }
    let copy = match slow.finish() {
        Ok(copy) => copy,
        Err(_) => panic!("five steps make a get"),
    };
    quick.drop(&mut heap);
    copy.drop(&mut heap);
    let mut x = cell.into_inner();
    assert!(Shared::get_mut(&mut x, &mut heap).is_some());
}

#[test]
fn a_spurious_failure_starts_a_get_over() {
    let mut heap = Heap::new();
    let collector = Collector::new(&mut heap);
    let x = Shared::new(&mut heap, &collector.handle(), 3);
    let mut cell = SharedCell::new(x);
    let mut get = cell.begin_get();
    cell.step_get(&mut heap, &mut get, false);
    cell.step_get(&mut heap, &mut get, true);
    for _ in 0..4 {
        cell.step_get(&mut heap, &mut get, false);
        get = match get.finish() {
            Ok(_) => panic!("a get takes five steps from its start"),
            Err(pending) => pending,
        };
    }
    cell.step_get(&mut heap, &mut get, false);
    assert!(get.finish().is_ok());
}

#[test]
fn a_writer_waits_for_the_readers_inside_and_lets_no_other_in() {
    let mut heap = Heap::new();
    let collector = Collector::new(&mut heap);
    let handle = collector.handle();
    let x = Shared::new(&mut heap, &handle, 3);
    let y = Shared::new(&mut heap, &handle, 4);
    let mut cell = SharedCell::new(x);

    let mut inside = cell.begin_get();
    cell.step_get(&mut heap, &mut inside, false);
    cell.step_get(&mut heap, &mut inside, false);
    let mut write = cell.begin_replace(y);
    for _ in 0..20 {
        cell.step_replace(&mut write, false);
    }
    let mut outside = cell.begin_get();
    for _ in 0..20 {
        cell.step_get(&mut heap, &mut outside, false);
    }
    let mut write = match write.finish() {
        Ok(_) => panic!("a reader is inside"),
        Err(pending) => pending,
    };
    let mut outside = match outside.finish() {
        Ok(_) => panic!("a writer has the cell marked"),
        Err(pending) => pending,
    };
    for _ in 0..3 {
        cell.step_get(&mut heap, &mut inside, false);
    }
    for _ in 0..3 {
        cell.step_replace(&mut write, false);
    }
    for _ in 0..5 {
        cell.step_get(&mut heap, &mut outside, false);
    }
    let copy = inside.finish().ok().unwrap();
    let old = write.finish().ok().unwrap();
    let late = outside.finish().ok().unwrap();
    assert_eq!(*copy.deref(&heap), 3);
    assert_eq!(*old.deref(&heap), 3);
    assert_eq!(*late.deref(&heap), 4);
}

#[test]
fn a_second_writer_waits_for_the_first() {
    let mut heap = Heap::new();
    let collector = Collector::new(&mut heap);
    let handle = collector.handle();
    let x = Shared::new(&mut heap, &handle, 3);
    let y = Shared::new(&mut heap, &handle, 4);
    let z = Shared::new(&mut heap, &handle, 5);
    let mut cell = SharedCell::new(x);
    let mut first = cell.begin_replace(y);
    let mut second = cell.begin_replace(z);
    // Both see the cell unmarked; only one of them gets to mark it.
    cell.step_replace(&mut first, false);
    cell.step_replace(&mut second, false);
    cell.step_replace(&mut second, false);
    for _ in 0..20 {
        cell.step_replace(&mut first, false);
    }
    let mut first = match first.finish() {
        Ok(_) => panic!("the second writer has the cell marked"),
        Err(pending) => pending,
    };
    for _ in 0..3 {
        cell.step_replace(&mut second, false);
    }
    for _ in 0..5 {
        cell.step_replace(&mut first, false);
    }
    let from_second = second.finish().ok().unwrap();
    let from_first = first.finish().ok().unwrap();
    assert_eq!(*from_second.deref(&heap), 3);
    assert_eq!(*from_first.deref(&heap), 5);
    assert_eq!(*cell.into_inner().deref(&heap), 4);
}

/// Lets two readers and two writers take turns as `schedule` says, and on in
/// turn until all are through; then checks what has come of it.
fn check_schedule(mut schedule: u64) {
    let mut heap = Heap::new();
    let mut collector = Collector::new(&mut heap);
    let handle = collector.handle();
    let first = Shared::new(&mut heap, &handle, 0);
    let mut cell = SharedCell::new(first);

    let mut gets: Vec<Getting<u32>> = vec![cell.begin_get(), cell.begin_get()];
    let mut writes: Vec<Replacing<u32>> = Vec::new();
    for value in 1..3 {
        let new = Shared::new(&mut heap, &handle, value);
        writes.push(cell.begin_replace(new));
    }
    for round in 0..100 {
        let turn = if round < 12 {
            let turn = (schedule % 4) as usize;
            schedule /= 4;
            turn
        } else {
            round % 4
        };
        if turn < 2 {
            cell.step_get(&mut heap, &mut gets[turn], false);
        } else {
            cell.step_replace(&mut writes[turn - 2], false);
        }
    }

    let mut old = Vec::new();
    for write in writes {
        old.push(write.finish().ok().unwrap());
    }
    let inside = cell.into_inner();
    // The pointers taken out and the one left behind are the ones put in.
    let mut values = vec![*old[0].deref(&heap), *old[1].deref(&heap), *inside.deref(&heap)];
    values.sort();
    assert_eq!(values, vec![0, 1, 2]);

    let copies: Vec<Shared<u32>> = gets.into_iter().map(|get| get.finish().ok().unwrap()).collect();
    let copied: Vec<u32> = copies.iter().map(|copy| *copy.deref(&heap)).collect();
    old.push(inside);
    for pointer in old.iter_mut() {
        let value = *pointer.deref(&heap);
        let unique = Shared::get_mut(pointer, &mut heap).is_some();
        assert_eq!(unique, !copied.contains(&value));
    }
    for copy in copies {
        copy.drop(&mut heap);
    }
    assert_eq!(collector.collect_one(&mut heap), None);
    for pointer in old {
        pointer.drop(&mut heap);
    }
    let mut left = Vec::new();
    while let Some(value) = collector.collect_one(&mut heap) {
        left.push(value);
    }
    left.sort();
    assert_eq!(left, vec![0, 1, 2]);
}

#[test]
fn many_schedules_keep_the_promises() {
    // The low digits vary fastest; the high ones are drawn from them.
    for schedule in 0..1u64 << 16 {
        check_schedule(schedule | (schedule.wrapping_mul(0x9e37_79b9_7f4a_7c15) >> 40 << 16));
    }
}

#[test]
fn loom_finds_no_race_between_get_and_replace() {
    let mut builder = loom::model::Builder::new();
    builder.max_branches = 100_000;
    builder.preemption_bound = Some(2);

    builder.check(|| {
        let mut heap = Heap::new();
        let collector = Collector::new(&mut heap);
        let handle = collector.handle();
        let old = Shared::new(&mut heap, &handle, 1);
        let new = Shared::new(&mut heap, &handle, 2);
        let cell = SharedCell::new(old);
        let memory = loom::sync::Arc::new(loom::sync::Mutex::new(Memory { heap, cell }));

        let reader_memory = memory.clone();
        let reader = loom::thread::spawn(move || get_in_steps(&reader_memory));

        let mut old = replace_in_steps(&memory, new);
        let copy = reader.join().unwrap();
        let mut guard = memory.lock().unwrap();
        let value = *copy.deref(&guard.heap);
        assert!(value == 1 || value == 2);
        assert_eq!(*old.deref(&guard.heap), 1);
        assert_eq!(Shared::get_mut(&mut old, &mut guard.heap).is_none(), value == 1);
    });
}
