//! The reassembling source: the decisions of a reader that concatenates the
//! chunk files whose paths arrive one by one.
use vstd::prelude::*;

verus! {

/// What a read of the concatenation has to do next.
#[derive(Clone, Copy, Debug, PartialEq, Eq, Structural)]
pub enum CatStep {
    /// The stream has ended: every read returns 0 bytes.
    Done,
    /// Read from the open chunk file.
    ReadOpen,
    /// Wait for the next path, or for the end of the stream.
    Receive,
}

/// What a read of the open file gave.
#[derive(Clone, Copy, Debug, PartialEq, Eq, Structural)]
pub enum ReadOutcome {
    /// `n > 0` bytes were read and are handed to the caller.
    Data,
    /// The file is used up and closed; the caller is told to try again.
    Retry,
}

/// State of the reassembling reader: whether a chunk file is open, whether
/// the stream has ended, and counters.
#[derive(Clone, Copy, Debug)]
pub struct Cat {
    pos: usize,
    tot: usize,
    num: u64,
    open: bool,
    completed: bool,
}

impl Cat {
    pub closed spec fn is_open(&self) -> bool {
        self.open
    }

    pub closed spec fn is_completed(&self) -> bool {
        self.completed
    }

    /// Bytes read from the open file.
    pub closed spec fn position(&self) -> nat {
        self.pos as nat
    }

    /// Bytes read in all.
    pub closed spec fn total(&self) -> nat {
        self.tot as nat
    }

    /// Files opened so far.
    pub closed spec fn files(&self) -> nat {
        self.num as nat
    }

    /// A reader with no file open, waiting for the first path.
    pub fn new() -> (r: Self)
        ensures
            !r.is_open(),
            !r.is_completed(),
            r.position() == 0,
            r.total() == 0,
            r.files() == 0,
    {
        Cat { pos: 0, tot: 0, num: 0, open: false, completed: false }
    }

    /// Starts over, as new.
    pub fn clear(&mut self)
        ensures
            !final(self).is_open(),
            !final(self).is_completed(),
            final(self).position() == 0,
            final(self).total() == 0,
            final(self).files() == 0,
    {
        *self = Cat::new();
    }

    /// What the next read has to do.
    pub fn next_step(&self) -> (r: CatStep)
        ensures
            self.is_completed() ==> r == CatStep::Done,
            !self.is_completed() && self.is_open() ==> r == CatStep::ReadOpen,
            !self.is_completed() && !self.is_open() ==> r == CatStep::Receive,
    {
        if self.completed {
            CatStep::Done
        } else if self.open {
            CatStep::ReadOpen
        } else {
            CatStep::Receive
        }
    }

    /// Records a read of `n` bytes from the open file; 0 bytes means the file
    /// is used up, and it is closed.
    pub fn after_read(&mut self, n: usize) -> (r: ReadOutcome)
        requires
            old(self).is_open(),
            old(self).total() + n <= usize::MAX,
            old(self).position() + n <= usize::MAX,
        ensures
            final(self).is_completed() == old(self).is_completed(),
            final(self).files() == old(self).files(),
            n == 0 ==> r == ReadOutcome::Retry && !final(self).is_open() && final(self).position()
                == 0 && final(self).total() == old(self).total(),
            n > 0 ==> r == ReadOutcome::Data && final(self).is_open() && final(self).position()
                == old(self).position() + n && final(self).total() == old(self).total() + n,
    {
        if n == 0 {
            self.open = false;
            self.pos = 0;
            ReadOutcome::Retry
        } else {
            self.pos = self.pos + n;
            self.tot = self.tot + n;
            ReadOutcome::Data
        }
    }

    /// Records that the next file was opened.
    pub fn opened(&mut self)
        requires
            !old(self).is_open(),
            old(self).files() < u64::MAX,
        ensures
            final(self).is_open(),
            final(self).is_completed() == old(self).is_completed(),
            final(self).files() == old(self).files() + 1,
            final(self).position() == 0,
            final(self).total() == old(self).total(),
    {
        self.open = true;
        self.pos = 0;
        self.num = self.num + 1;
    }

    /// Records the end of the stream: from now on every read gives 0 bytes.
    pub fn finished(&mut self)
        ensures
            final(self).is_completed(),
            final(self).is_open() == old(self).is_open(),
            final(self).files() == old(self).files(),
            final(self).total() == old(self).total(),
    {
        self.completed = true;
    }

    /// Bytes read in all.
    pub fn written(&self) -> (r: usize)
        ensures
            r == self.total(),
    {
        self.tot
    }

    /// Files opened so far.
    pub fn chunks(&self) -> (r: u64)
        ensures
            r == self.files(),
    {
        self.num
    }
}

} // verus!
