use crate::port::{over_behind, SeekPattern, ZeroStream};
use crate::zero::Zero;
use vstd::prelude::*;

verus! {

/// A consumer that counts the zeros it is sent, and is closed once it has
/// been sent 5000.
pub struct ZeroSink {
    amt: usize,
    log: Ghost<Seq<(u64, Zero)>>,
}

impl ZeroSink {
    /// How many zeros were sent to the sink.
    pub closed spec fn amount(self) -> nat {
        self.amt as nat
    }

    /// A sink that has been sent nothing.
    pub fn new() -> (sink: Self)
        ensures
            sink.amount() == 0,
    {
        ZeroSink { amt: 0, log: Ghost(Seq::empty()) }
    }

    /// How many zeros were sent to the sink.
    pub fn amt(&self) -> (amt: usize)
        ensures
            amt == self.amount(),
    {
        self.amt
    }

    /// Counts one more zero; at the largest count the sink stays where it is.
    pub fn track_amt(&mut self)
        ensures
            final(self).received() == old(self).received(),
            final(self).amount() == if old(self).amount() < usize::MAX {
                old(self).amount() + 1
            } else {
                old(self).amount()
            },
    {
        if self.amt < usize::MAX {
            self.amt = self.amt + 1;
        }
    }
}

impl Default for ZeroSink {
    fn default() -> (sink: Self)
        ensures
            sink.amount() == 0,
    {
        ZeroSink::new()
    }
}

impl ZeroStream for ZeroSink {
    closed spec fn received(&self) -> Seq<(u64, Zero)> {
        self.log@
    }

    fn is_closed(&self) -> (closed: bool)
        ensures
            closed == (self.amount() >= 5000),
    {
        self.amt >= 5000
    }

    fn send(&mut self, zero_number: u64, zero: Zero)
        ensures
            final(self).amount() == if old(self).amount() < usize::MAX {
                old(self).amount() + 1
            } else {
                old(self).amount()
            },
    {
        self.track_amt();
        proof {
            self.log@ = self.log@.push((zero_number, zero));
        }
    }
}

/// A consumer that keeps every zero it is sent, and is never closed.
pub struct ZeroLog {
    pub zeros: Vec<(u64, Zero)>,
}

impl ZeroLog {
    /// A log without zeros.
    pub fn new() -> (log: Self)
        ensures
            log.zeros@ == Seq::<(u64, Zero)>::empty(),
    {
        ZeroLog { zeros: Vec::new() }
    }
}

impl ZeroStream for ZeroLog {
    open spec fn received(&self) -> Seq<(u64, Zero)> {
        self.zeros@
    }

    fn is_closed(&self) -> (closed: bool)
        ensures
            !closed,
    {
        false
    }

    fn send(&mut self, zero_number: u64, zero: Zero)
        ensures
            final(self).zeros@ == old(self).zeros@.push((zero_number, zero)),
    {
        self.zeros.push((zero_number, zero));
    }
}

/// A stream to a log is over only where the amount is reached: a log never
/// answers that it is closed.
pub proof fn lemma_log_stays_open(
    pattern: SeekPattern,
    had: Seq<(u64, Zero)>,
    offered: Seq<(u64, Zero)>,
)
    ensures
        over_behind::<ZeroLog>(pattern, had, offered) == pattern.reached(
            pattern.forwarded(offered).len(),
        ),
{
}

} // verus!
