//! How raw reads, writes and pending signals are carried on: the decisions between
//! the system calls.

use vstd::prelude::*;

verus! {

/// What to do after a read that returned `n` (negative: it failed).
#[derive(Debug, Clone, Copy, PartialEq, Eq, Structural)]
pub enum ReadStep {
    /// So many bytes were read; none means the end.
    Got(usize),
    /// A signal came in between: read again.
    Retry,
    /// It failed for good.
    Fail,
}

pub fn read_step(n: isize, interrupted: bool) -> (step: ReadStep)
    ensures
        step == if n >= 0 {
            ReadStep::Got(n as usize)
        } else if interrupted {
            ReadStep::Retry
        } else {
            ReadStep::Fail
        },
{
    if n < 0 {
        if interrupted {
            return ReadStep::Retry;
        }
        return ReadStep::Fail;
    }
    ReadStep::Got(n as usize)
}

/// Bytes on their way out: those before `pos` have been written.
#[derive(Debug)]
pub struct Outgoing {
    data: Vec<u8>,
    pos: usize,
}

/// What to do after a write of the rest that returned `n` (negative: it failed).
#[derive(Debug, Clone, Copy, PartialEq, Eq, Structural)]
pub enum WriteStep {
    /// All is written.
    Done,
    /// Write the rest.
    Again,
    /// It failed for good.
    Fail,
    /// It failed because nothing is taken any more.
    TookNothing,
}

impl View for Outgoing {
    type V = Seq<u8>;

    /// What is still to be written.
    closed spec fn view(&self) -> Seq<u8> {
        self.data@.skip(self.pos as int)
    }
}

impl Outgoing {
    #[verifier::type_invariant]
    closed spec fn inv(self) -> bool {
        self.pos <= self.data@.len()
    }

    pub fn new(data: Vec<u8>) -> (o: Outgoing)
        ensures
            o@ == data@,
    {
        let o = Outgoing { data, pos: 0 };
        assert(o@ == data@);
        o
    }

    /// What is still to be written.
    pub fn rest(&self) -> (bytes: &[u8])
        ensures
            bytes@ == self@,
    {
        proof {
            use_type_invariant(self);
        }
        let bytes = vstd::slice::slice_subrange(self.data.as_slice(), self.pos, self.data.len());
        assert(bytes@ == self@);
        bytes
    }

    /// Takes note of a write of the rest: goes on after a short write or a signal,
    /// until all is written.
    pub fn on_write(&mut self, n: isize, interrupted: bool) -> (step: WriteStep)
        requires
            n <= old(self)@.len(),
        ensures
            final(self)@ == if n > 0 {
                old(self)@.skip(n as int)
            } else {
                old(self)@
            },
            step == if n < 0 {
                if interrupted {
                    WriteStep::Again
                } else {
                    WriteStep::Fail
                }
            } else if n == 0 {
                WriteStep::TookNothing
            } else if n == old(self)@.len() {
                WriteStep::Done
            } else {
                WriteStep::Again
            },
    {
        proof {
            use_type_invariant(&*self);
        }
        if n < 0 {
            if interrupted {
                return WriteStep::Again;
            }
            return WriteStep::Fail;
        }
        if n == 0 {
            return WriteStep::TookNothing;
        }
        let len: usize = self.data.len();
        let end: usize = self.pos + n as usize;
        self.pos = end;
        assert(self@ == old(self)@.skip(n as int));
        if end == len {
            WriteStep::Done
        } else {
            WriteStep::Again
        }
    }
}

/// How many pending signals are read at once.
pub const SIGNAL_BATCH: usize = 64;

/// Signals arrive as the bytes of a pipe, one each.
pub open spec fn signals_of(bytes: Seq<u8>) -> Seq<i32> {
    Seq::new(bytes.len(), |i: int| bytes[i] as i32)
}

/// Appends the signals of one read of the pipe; tells whether there may be more: the
/// read filled its buffer.
pub fn collect_signals(sigs: &mut Vec<i32>, read: &[u8]) -> (more: bool)
    ensures
        final(sigs)@ == old(sigs)@ + signals_of(read@),
        more == (read@.len() >= SIGNAL_BATCH),
{
    let ghost before = sigs@;
    let ghost all = signals_of(read@);
    let mut i: usize = 0;
    assert(before + all.take(0) == before);
    while i < read.len()
        invariant
            i <= read@.len(),
            all == signals_of(read@),
            sigs@ == before + all.take(i as int),
        decreases read@.len() - i,
    {
        sigs.push(read[i] as i32);
        assert(all.take(i + 1) == all.take(i as int).push(read@[i as int] as i32));
        assert((before + all.take(i as int)).push(all[i as int]) == before + all.take(i + 1));
        i += 1;
    }
    assert(all.take(all.len() as int) == all);
    read.len() >= SIGNAL_BATCH
}

/// Each byte of the pipe is one signal, in the order in which they came.
pub proof fn law_each_byte_is_a_signal(first: Seq<u8>, b: u8)
    ensures
        signals_of(Seq::empty()).len() == 0,
        signals_of(first.push(b)) == signals_of(first).push(b as i32),
{
    assert(signals_of(first.push(b)) =~= signals_of(first).push(b as i32));
}

} // verus!
