//! The decisions of a `SharedCell`'s readers and writers, and of a pointer that is
//! given up.
//!
//! A cell keeps a word that counts the readers inside and marks a writer, and
//! the address of the node it holds. A reader or a writer takes one step at a
//! time: `access` names the one access to shared memory that the step makes,
//! and `advance` takes what that access gave back and says where to go on. The
//! steps are generic in the address `A`, so that memory of any kind can run
//! them.

use crate::heap::is_last;
use vstd::prelude::*;

verus! {

/// The bits of a cell's word that count readers: all but the topmost.
pub const READER_MASK: usize = usize::MAX / 2;

/// The bit of a cell's word that marks a writer: the topmost.
pub const WRITER: usize = READER_MASK + 1;

/// Whether a writer has marked the word.
pub open spec fn marked(word: usize) -> bool {
    word >= WRITER
}

/// How the bits of the word read as a number: the mark is worth more than any
/// count of readers, and setting it on an unmarked word adds it.
pub proof fn lemma_word(word: usize)
    ensures
        WRITER == 1usize << ((usize::BITS - 1) as usize),
        (word & WRITER != 0) == marked(word),
        !marked(word) ==> (word | WRITER) == word + WRITER,
{
    let max = usize::MAX;
    let writer = WRITER;
    assert(max <= !0usize) by (bit_vector);
    assert(writer == (!0usize) / 2 + 1);
    assert(writer == 1usize << ((usize::BITS - 1) as usize) && (word & writer != 0) == (word >= writer) && (
    word < writer ==> (word | writer) == word + writer)) by (bit_vector)
        requires
            writer == (!0usize) / 2 + 1,
    ;
}

/// One access to shared memory.
#[derive(Clone, Copy, PartialEq, Eq, Debug)]
pub enum Access<A> {
    /// Load the word.
    LoadWord,
    /// Replace the word by `new` if it is `expected`. The exchange may fail
    /// although the word is as expected.
    ExchangeWord { expected: usize, new: usize },
    /// Take one off the word.
    DecrementWord,
    /// Store zero in the word.
    ClearWord,
    /// Load the address of the node.
    LoadNode,
    /// Put the address `node` in the place of the one that is there.
    SwapNode { node: A },
    /// Add one to the reference count of `node`.
    Retain { node: A },
}

/// What an access gives back.
#[derive(Clone, Copy, PartialEq, Eq, Debug)]
pub enum Reply<A> {
    /// The word that was loaded.
    Word(usize),
    /// Whether the exchange took place.
    Exchanged(bool),
    /// The address that was loaded or swapped out.
    Node(A),
    /// Nothing.
    Done,
}

/// Where a reader stands.
#[derive(Clone, Copy, PartialEq, Eq, Debug)]
pub enum ReadStep<A> {
    /// About to look at the word.
    Enter,
    /// About to count itself in: saw the word `seen`, wants `next`.
    Claim { seen: usize, next: usize },
    /// Inside, about to load the address of the node.
    Load,
    /// Inside, about to add itself to the reference count of `node`.
    Copy { node: A },
    /// Inside with a pointer to `node`, about to leave.
    Leave { node: A },
    /// Outside again, with a pointer to `node`.
    Done { node: A },
    /// Outside: no more readers can be counted.
    Overflow,
}

/// Where a writer stands.
#[derive(Clone, Copy, PartialEq, Eq, Debug)]
pub enum WriteStep<A> {
    /// About to look at the word, with a pointer to `value` to put in.
    Enter { value: A },
    /// About to mark the word: saw `seen`, wants `next`.
    Claim { value: A, seen: usize, next: usize },
    /// Has marked the word and waits for the readers to leave.
    Drain { value: A },
    /// Alone, about to swap the address.
    Swap { value: A },
    /// Alone, with the pointer to `old` that was inside, about to take the mark
    /// off.
    Reopen { old: A },
    /// Outside again, with the pointer to `old`.
    Done { old: A },
}

impl<A> ReadStep<A> {
    /// The access that a reader makes at this step, if it is not through.
    pub open spec fn access_of(self) -> Option<Access<A>> {
        match self {
            ReadStep::Enter => Some(Access::LoadWord),
            ReadStep::Claim { seen, next } => Some(
                Access::ExchangeWord { expected: seen, new: next },
            ),
            ReadStep::Load => Some(Access::LoadNode),
            ReadStep::Copy { node } => Some(Access::Retain { node }),
            ReadStep::Leave { node } => Some(Access::DecrementWord),
            ReadStep::Done { node } => None,
            ReadStep::Overflow => None,
        }
    }

    /// Where a reader goes on that got `reply`. A marked word makes it look
    /// again; a full count stops it.
    pub open spec fn after(self, reply: Reply<A>) -> Self {
        match (self, reply) {
            (ReadStep::Enter, Reply::Word(word)) => if marked(word) {
                ReadStep::Enter
            } else if word < READER_MASK {
                ReadStep::Claim { seen: word, next: (word + 1) as usize }
            } else {
                ReadStep::Overflow
            },
            (ReadStep::Claim { seen, next }, Reply::Exchanged(true)) => ReadStep::Load,
            (ReadStep::Claim { seen, next }, Reply::Exchanged(false)) => ReadStep::Enter,
            (ReadStep::Load, Reply::Node(node)) => ReadStep::Copy { node },
            (ReadStep::Copy { node }, Reply::Done) => ReadStep::Leave { node },
            (ReadStep::Leave { node }, Reply::Done) => ReadStep::Done { node },
            _ => self,
        }
    }
}

impl<A: Copy> ReadStep<A> {
    /// Returns the access to make at this step, or `None` if the reader is
    /// through.
    pub fn access(&self) -> (r: Option<Access<A>>)
        ensures
            r == self.access_of(),
    {
        match *self {
            ReadStep::Enter => Some(Access::LoadWord),
            ReadStep::Claim { seen, next } => Some(
                Access::ExchangeWord { expected: seen, new: next },
            ),
            ReadStep::Load => Some(Access::LoadNode),
            ReadStep::Copy { node } => Some(Access::Retain { node }),
            ReadStep::Leave { node } => Some(Access::DecrementWord),
            ReadStep::Done { node } => None,
            ReadStep::Overflow => None,
        }
    }

    /// Goes on with what the access gave back. A reply to some other access
    /// leaves the step as it is.
    pub fn advance(self, reply: Reply<A>) -> (r: Self)
        ensures
            r == self.after(reply),
    {
        match (self, reply) {
            (ReadStep::Enter, Reply::Word(word)) => {
                proof {
                    lemma_word(word);
                }
                if word & WRITER != 0 {
                    ReadStep::Enter
                } else if word < READER_MASK {
                    ReadStep::Claim { seen: word, next: word + 1 }
                } else {
                    ReadStep::Overflow
                }
            },
            (ReadStep::Claim { seen, next }, Reply::Exchanged(done)) => if done {
                ReadStep::Load
            } else {
                ReadStep::Enter
            },
            (ReadStep::Load, Reply::Node(node)) => ReadStep::Copy { node },
            (ReadStep::Copy { node }, Reply::Done) => ReadStep::Leave { node },
            (ReadStep::Leave { node }, Reply::Done) => ReadStep::Done { node },
            (step, _) => step,
        }
    }
}

impl<A> WriteStep<A> {
    /// The access that a writer makes at this step, if it is not through.
    pub open spec fn access_of(self) -> Option<Access<A>> {
        match self {
            WriteStep::Enter { value } => Some(Access::LoadWord),
            WriteStep::Claim { value, seen, next } => Some(
                Access::ExchangeWord { expected: seen, new: next },
            ),
            WriteStep::Drain { value } => Some(Access::LoadWord),
            WriteStep::Swap { value } => Some(Access::SwapNode { node: value }),
            WriteStep::Reopen { old } => Some(Access::ClearWord),
            WriteStep::Done { old } => None,
        }
    }

    /// Where a writer goes on that got `reply`. It marks an unmarked word
    /// whatever the count of readers, and waits until nothing but the mark is
    /// left.
    pub open spec fn after(self, reply: Reply<A>) -> Self {
        match (self, reply) {
            (WriteStep::Enter { value }, Reply::Word(word)) => if marked(word) {
                self
            } else {
                WriteStep::Claim { value, seen: word, next: (word + WRITER) as usize }
            },
            (WriteStep::Claim { value, seen, next }, Reply::Exchanged(true)) => WriteStep::Drain {
                value,
            },
            (WriteStep::Claim { value, seen, next }, Reply::Exchanged(false)) => WriteStep::Enter {
                value,
            },
            (WriteStep::Drain { value }, Reply::Word(word)) => if word == WRITER {
                WriteStep::Swap { value }
            } else {
                self
            },
            (WriteStep::Swap { value }, Reply::Node(old)) => WriteStep::Reopen { old },
            (WriteStep::Reopen { old }, Reply::Done) => WriteStep::Done { old },
            _ => self,
        }
    }
}

impl<A: Copy> WriteStep<A> {
    /// Returns the access to make at this step, or `None` if the writer is
    /// through.
    pub fn access(&self) -> (r: Option<Access<A>>)
        ensures
            r == self.access_of(),
    {
        match *self {
            WriteStep::Enter { value } => Some(Access::LoadWord),
            WriteStep::Claim { value, seen, next } => Some(
                Access::ExchangeWord { expected: seen, new: next },
            ),
            WriteStep::Drain { value } => Some(Access::LoadWord),
            WriteStep::Swap { value } => Some(Access::SwapNode { node: value }),
            WriteStep::Reopen { old } => Some(Access::ClearWord),
            WriteStep::Done { old } => None,
        }
    }

    /// Goes on with what the access gave back. A reply to some other access
    /// leaves the step as it is.
    pub fn advance(self, reply: Reply<A>) -> (r: Self)
        ensures
            r == self.after(reply),
    {
        match (self, reply) {
            (WriteStep::Enter { value }, Reply::Word(word)) => {
                proof {
                    lemma_word(word);
                }
                if word & WRITER != 0 {
                    self
                } else {
                    WriteStep::Claim { value, seen: word, next: word | WRITER }
                }
            },
            (WriteStep::Claim { value, seen, next }, Reply::Exchanged(done)) => if done {
                WriteStep::Drain { value }
            } else {
                WriteStep::Enter { value }
            },
            (WriteStep::Drain { value }, Reply::Word(word)) => if word == WRITER {
                WriteStep::Swap { value }
            } else {
                self
            },
            (WriteStep::Swap { value }, Reply::Node(old)) => WriteStep::Reopen { old },
            (WriteStep::Reopen { old }, Reply::Done) => WriteStep::Done { old },
            (step, _) => step,
        }
    }
}

/// Where the giving up of a `Shared` stands. Each step but the last is one access
/// to shared memory.
#[derive(Clone, Copy, PartialEq, Eq, Debug)]
pub enum DropStep<A> {
    /// About to take one off the reference count of `node`.
    Decrement { node: A },
    /// Was the last pointer to `node`, and is about to put it in the drop queue.
    Enqueue { node: A },
    /// Through.
    Done,
}

impl<A> DropStep<A> {
    /// Where to go on after the decrement found the count `previous`: only the
    /// last pointer has more to do.
    pub open spec fn after_decrement(self, previous: usize) -> Self {
        match self {
            DropStep::Decrement { node } => if previous == 1 {
                DropStep::Enqueue { node }
            } else {
                DropStep::Done
            },
            _ => self,
        }
    }

    /// Where to go on once the node is in the queue.
    pub open spec fn after_enqueue(self) -> Self {
        match self {
            DropStep::Enqueue { node } => DropStep::Done,
            _ => self,
        }
    }
}

impl<A: Copy> DropStep<A> {
    /// Goes on with the count that the decrement found. A step that makes no
    /// decrement stays as it is.
    pub fn decremented(self, previous: usize) -> (r: Self)
        ensures
            r == self.after_decrement(previous),
    {
        match self {
            DropStep::Decrement { node } => if is_last(previous) {
                DropStep::Enqueue { node }
            } else {
                DropStep::Done
            },
            step => step,
        }
    }

    /// Goes on after the node was put in the queue. A step that puts nothing
    /// there stays as it is.
    pub fn enqueued(self) -> (r: Self)
        ensures
            r == self.after_enqueue(),
    {
        match self {
            DropStep::Enqueue { node } => DropStep::Done,
            step => step,
        }
    }
}

} // verus!
