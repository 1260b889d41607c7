use basedrop::steps::{Access, DropStep, ReadStep, Reply, WriteStep, READER_MASK, WRITER};

#[test]
fn the_word_is_one_mark_and_a_count() {
    assert_eq!(WRITER, 1 << (usize::BITS as usize - 1));
    assert_eq!(READER_MASK, WRITER - 1);
    assert_eq!(WRITER | READER_MASK, usize::MAX);
}

#[test]
fn a_reader_goes_through_its_steps() {
    let step: ReadStep<char> = ReadStep::Enter;
    assert_eq!(step.access(), Some(Access::LoadWord));
    let step = step.advance(Reply::Word(4));
    assert_eq!(step, ReadStep::Claim { seen: 4, next: 5 });
    assert_eq!(step.access(), Some(Access::ExchangeWord { expected: 4, new: 5 }));
    assert_eq!(step.advance(Reply::Exchanged(false)), ReadStep::Enter);
    let step = step.advance(Reply::Exchanged(true));
    assert_eq!(step, ReadStep::Load);
    assert_eq!(step.access(), Some(Access::LoadNode));
    let step = step.advance(Reply::Node('n'));
    assert_eq!(step, ReadStep::Copy { node: 'n' });
    assert_eq!(step.access(), Some(Access::Retain { node: 'n' }));
    let step = step.advance(Reply::Done);
    assert_eq!(step, ReadStep::Leave { node: 'n' });
    assert_eq!(step.access(), Some(Access::DecrementWord));
    let step = step.advance(Reply::Done);
    assert_eq!(step, ReadStep::Done { node: 'n' });
    assert_eq!(step.access(), None);
}

#[test]
fn a_reader_looks_again_at_a_marked_word() {
    let step: ReadStep<char> = ReadStep::Enter;
    assert_eq!(step.advance(Reply::Word(WRITER)), ReadStep::Enter);
    assert_eq!(step.advance(Reply::Word(WRITER | 3)), ReadStep::Enter);
    assert_eq!(step.advance(Reply::Word(usize::MAX)), ReadStep::Enter);
}

#[test]
fn a_reader_stops_at_a_full_count() {
    let step: ReadStep<char> = ReadStep::Enter;
    let last = READER_MASK - 1;
    assert_eq!(step.advance(Reply::Word(last)), ReadStep::Claim { seen: last, next: READER_MASK });
    let full = step.advance(Reply::Word(READER_MASK));
    assert_eq!(full, ReadStep::Overflow);
    assert_eq!(full.access(), None);
}

#[test]
fn a_writer_goes_through_its_steps() {
    let step: WriteStep<char> = WriteStep::Enter { value: 'v' };
    assert_eq!(step.access(), Some(Access::LoadWord));
    assert_eq!(step.advance(Reply::Word(WRITER)), step);
    let step = step.advance(Reply::Word(2));
    assert_eq!(step, WriteStep::Claim { value: 'v', seen: 2, next: WRITER + 2 });
    assert_eq!(step.access(), Some(Access::ExchangeWord { expected: 2, new: WRITER + 2 }));
    assert_eq!(step.advance(Reply::Exchanged(false)), WriteStep::Enter { value: 'v' });
    let step = step.advance(Reply::Exchanged(true));
    assert_eq!(step, WriteStep::Drain { value: 'v' });
    assert_eq!(step.access(), Some(Access::LoadWord));
    assert_eq!(step.advance(Reply::Word(WRITER + 1)), step);
    let step = step.advance(Reply::Word(WRITER));
    assert_eq!(step, WriteStep::Swap { value: 'v' });
    assert_eq!(step.access(), Some(Access::SwapNode { node: 'v' }));
    let step = step.advance(Reply::Node('o'));
    assert_eq!(step, WriteStep::Reopen { old: 'o' });
    assert_eq!(step.access(), Some(Access::ClearWord));
    let step = step.advance(Reply::Done);
    assert_eq!(step, WriteStep::Done { old: 'o' });
    assert_eq!(step.access(), None);
}

#[test]
fn a_writer_marks_even_a_full_count() {
    let step: WriteStep<char> = WriteStep::Enter { value: 'v' };
    assert_eq!(
        step.advance(Reply::Word(READER_MASK)),
        WriteStep::Claim { value: 'v', seen: READER_MASK, next: usize::MAX }
    );
}

#[test]
fn a_reply_to_something_else_changes_nothing() {
    let step: ReadStep<char> = ReadStep::Load;
    assert_eq!(step.advance(Reply::Word(0)), step);
    let step: WriteStep<char> = WriteStep::Swap { value: 'v' };
    assert_eq!(step.advance(Reply::Done), step);
}

#[test]
fn only_the_last_pointer_goes_on_to_the_queue() {
    let step: DropStep<char> = DropStep::Decrement { node: 'n' };
    assert_eq!(step.decremented(0), DropStep::Done);
    assert_eq!(step.decremented(2), DropStep::Done);
    assert_eq!(step.enqueued(), step);
    let step = step.decremented(1);
    assert_eq!(step, DropStep::Enqueue { node: 'n' });
    assert_eq!(step.decremented(1), step);
    assert_eq!(step.enqueued(), DropStep::Done);
}
