use crate::binary64::Binary64;
use crate::zero::Zero;
use vstd::prelude::*;

verus! {

/// Which zeros a caller asks for.
#[derive(Clone, Copy, Debug, PartialEq, Eq, Structural)]
pub enum SeekPattern {
    /// All zeros from the beginning, until the consumer closes.
    All,
    /// All zeros whose imaginary part is at least the given number.
    StartWithImaginaryPart(Binary64),
    /// All zeros from the given zero number on (the first zero has number 0).
    StartWithZeroNumber(u64),
    /// The given amount of zeros whose imaginary part is at least the given
    /// number.
    StartWithImaginaryAmount(Binary64, u64),
    /// The given amount of zeros from the given zero number on.
    StartWithZeroNumberAmount(u64, u64),
}

impl SeekPattern {
    /// The pattern lets the zero through.
    pub open spec fn accepts(self, zero_number: u64, zero: Zero) -> bool {
        match self {
            SeekPattern::All => true,
            SeekPattern::StartWithImaginaryPart(start) => zero.reaches(start),
            SeekPattern::StartWithZeroNumber(start) => zero_number >= start,
            SeekPattern::StartWithImaginaryAmount(start, _) => zero.reaches(start),
            SeekPattern::StartWithZeroNumberAmount(start, _) => zero_number >= start,
        }
    }

    /// The amount of zeros that the pattern asks for, where it names one.
    pub open spec fn amount(self) -> Option<u64> {
        match self {
            SeekPattern::All => None,
            SeekPattern::StartWithImaginaryPart(_) => None,
            SeekPattern::StartWithZeroNumber(_) => None,
            SeekPattern::StartWithImaginaryAmount(_, amount) => Some(amount),
            SeekPattern::StartWithZeroNumberAmount(_, amount) => Some(amount),
        }
    }

    /// With `sent` zeros delivered the pattern is served.
    pub open spec fn reached(self, sent: nat) -> bool {
        match self.amount() {
            Some(amount) => sent >= amount,
            None => false,
        }
    }

    /// What a port with this pattern forwards of the zeros offered to it, in
    /// the order of the offers: each accepted zero, as long as the amount is
    /// not reached.
    pub open spec fn forwarded(self, offered: Seq<(u64, Zero)>) -> Seq<(u64, Zero)>
        decreases offered.len(),
    {
        if offered.len() == 0 {
            Seq::empty()
        } else {
            let before = self.forwarded(offered.drop_last());
            let (zero_number, zero) = offered.last();
            if self.accepts(zero_number, zero) && !self.reached(before.len()) {
                before.push((zero_number, zero))
            } else {
                before
            }
        }
    }
}

/// The consumer of a stream of zeros.
pub trait ZeroStream {
    /// The zeros that the consumer was sent, in their order: what the
    /// contracts of a stream say of the consumer, they say of this record. A
    /// consumer that is verified gives its own; one that is not is trusted to
    /// take every zero it is sent, and need not give any.
    open spec fn received(&self) -> Seq<(u64, Zero)> {
        Seq::empty()
    }

    /// Whether the consumer wants no more zeros. It is asked after every zero
    /// that is sent, and between blocks and files.
    fn is_closed(&self) -> bool;

    /// Takes the next zero: its number and its imaginary part.
    fn send(&mut self, zero_number: u64, zero: Zero)
        ensures
            final(self).received() == old(self).received().push((zero_number, zero)),
    ;
}

/// Behind the offers `offered` to a port for `pattern`, whose consumer `had`
/// received something before, the stream is not over: the amount is not
/// reached, and a consumer that has received as much can answer that it is
/// open.
pub open spec fn open_behind<S: ZeroStream>(
    pattern: SeekPattern,
    had: Seq<(u64, Zero)>,
    offered: Seq<(u64, Zero)>,
) -> bool {
    &&& !pattern.reached(pattern.forwarded(offered).len())
    &&& exists|consumer: S|
        consumer.received() == had + pattern.forwarded(offered) && call_ensures(
            S::is_closed,
            (&consumer,),
            false,
        )
}

/// Behind the offers `offered` to a port for `pattern`, whose consumer `had`
/// received something before, the stream is over: the amount is reached, or
/// a consumer that has received as much can answer that it is closed.
pub open spec fn over_behind<S: ZeroStream>(
    pattern: SeekPattern,
    had: Seq<(u64, Zero)>,
    offered: Seq<(u64, Zero)>,
) -> bool {
    ||| pattern.reached(pattern.forwarded(offered).len())
    ||| exists|consumer: S|
        consumer.received() == had + pattern.forwarded(offered) && call_ensures(
            S::is_closed,
            (&consumer,),
            true,
        )
}

/// What a port keeps of its past: the pattern, and how much went through.
struct Tally {
    pattern: SeekPattern,
    amount_sent: u64,
    offered: Ghost<Seq<(u64, Zero)>>,
}

impl Tally {
    /// The count follows what was forwarded, up to the largest `u64`.
    #[verifier::type_invariant]
    spec fn counted(self) -> bool {
        let sent = self.pattern.forwarded(self.offered@).len();
        self.amount_sent == if sent <= u64::MAX {
            sent
        } else {
            u64::MAX as nat
        }
    }

    spec fn delivered(self) -> Seq<(u64, Zero)> {
        self.pattern.forwarded(self.offered@)
    }

    fn is_amount_reached(&self) -> (reached: bool)
        ensures
            reached == self.pattern.reached(self.delivered().len()),
    {
        proof {
            use_type_invariant(self);
        }
        match self.pattern {
            SeekPattern::All => false,
            SeekPattern::StartWithImaginaryPart(_) => false,
            SeekPattern::StartWithZeroNumber(_) => false,
            SeekPattern::StartWithImaginaryAmount(_, amount) => self.amount_sent >= amount,
            SeekPattern::StartWithZeroNumberAmount(_, amount) => self.amount_sent >= amount,
        }
    }

    fn zero_ok(&self, zero_number: u64, zero: &Zero) -> (ok: bool)
        requires
            zero.wf(),
        ensures
            ok == self.pattern.accepts(zero_number, *zero),
    {
        match self.pattern {
            SeekPattern::All => true,
            SeekPattern::StartWithImaginaryPart(start) => zero.at_least(start),
            SeekPattern::StartWithZeroNumber(start) => zero_number >= start,
            SeekPattern::StartWithImaginaryAmount(start, _) => zero.at_least(start),
            SeekPattern::StartWithZeroNumberAmount(start, _) => zero_number >= start,
        }
    }

    /// Notes the offer of a zero and says whether it goes on to the consumer.
    fn note(&mut self, zero_number: u64, zero: &Zero) -> (forward: bool)
        requires
            zero.wf(),
        ensures
            final(self).pattern == old(self).pattern,
            final(self).offered@ == old(self).offered@.push((zero_number, *zero)),
            forward == (old(self).pattern.accepts(zero_number, *zero) && !old(self).pattern.reached(
                old(self).delivered().len(),
            )),
            final(self).delivered() == if forward {
                old(self).delivered().push((zero_number, *zero))
            } else {
                old(self).delivered()
            },
    {
        proof {
            use_type_invariant(&*self);
            assert(self.offered@.push((zero_number, *zero)).drop_last() =~= self.offered@);
        }
        let forward = self.zero_ok(zero_number, zero) && !self.is_amount_reached();
        let amount_sent = if forward && self.amount_sent < u64::MAX {
            self.amount_sent + 1
        } else {
            self.amount_sent
        };
        *self = Tally {
            pattern: self.pattern,
            amount_sent,
            offered: Ghost(self.offered@.push((zero_number, *zero))),
        };
        forward
    }
}

/// Stands between a decoder and a consumer: lets through what the pattern
/// asks for, counts it, and says when the stream is over.
pub struct ZeroPort<'a, S: ZeroStream> {
    /// The consumer behind the port.
    pub out_stream: &'a mut S,
    /// What the port keeps of its past.
    pub state: PortState,
}

/// What a port keeps of its past: what went through, and whether a poll has
/// found it closed.
pub struct PortState {
    tally: Tally,
    stopped: bool,
    stopped_at: Ghost<nat>,
    initially: Ghost<Seq<(u64, Zero)>>,
}

impl<'a, S: ZeroStream> ZeroPort<'a, S> {
    /// The pattern that the port was made with.
    pub closed spec fn pattern(self) -> SeekPattern {
        self.state.tally.pattern
    }

    /// Every zero that was handed to [`ZeroPort::send`], in order.
    pub closed spec fn offered(self) -> Seq<(u64, Zero)> {
        self.state.tally.offered@
    }

    /// Every zero that went on to the consumer, in order.
    pub open spec fn delivered(self) -> Seq<(u64, Zero)> {
        self.pattern().forwarded(self.offered())
    }

    /// The pattern names an amount, and as many zeros went on to the consumer.
    pub open spec fn amount_reached(self) -> bool {
        self.pattern().reached(self.delivered().len())
    }

    /// The consumer behind the port, as it stands.
    pub open spec fn consumer(self) -> S {
        *self.out_stream
    }

    /// What the consumer had received when the port was made.
    pub closed spec fn initially(self) -> Seq<(u64, Zero)> {
        self.state.initially@
    }

    /// Behind the first `count` offers the stream was not over: the amount
    /// was not reached, and a consumer that has received as much can answer
    /// that it is open.
    pub open spec fn open_after(self, count: int) -> bool {
        open_behind::<S>(self.pattern(), self.initially(), self.offered().take(count))
    }

    /// Behind the first `count` offers the stream was over: the amount was
    /// reached, or a consumer that has received as much can answer that it is
    /// closed.
    pub open spec fn over_after(self, count: int) -> bool {
        over_behind::<S>(self.pattern(), self.initially(), self.offered().take(count))
    }

    /// The port and its consumer agree. The consumer has received, since the
    /// port was made, just what the port has let through; and where a poll
    /// found the port closed, the stream was over then.
    pub open spec fn wf(self) -> bool {
        &&& self.consumer().received() == self.initially() + self.delivered()
        &&& self.stopped() ==> self.stopped_at() <= self.offered().len() && self.over_after(
            self.stopped_at() as int,
        )
    }

    /// The port is the port `before` at a later time. What agreed still does;
    /// and if `before` was not found closed, it has been offered more since,
    /// and behind each of these offers but the last the stream was not over.
    pub open spec fn follows(self, before: Self) -> bool {
        &&& self.initially() == before.initially()
        &&& self.pattern() == before.pattern()
        &&& before.wf() ==> self.wf()
        &&& before.wf() && !before.stopped() ==> {
            &&& before.offered().len() <= self.offered().len()
            &&& self.offered().take(before.offered().len() as int) == before.offered()
            &&& forall|count: int|
                before.offered().len() < count < self.offered().len()
                    ==> #[trigger] self.open_after(count)
        }
    }

    /// Behind the last offer since `before` the stream is not over, if the
    /// port is not found closed.
    pub open spec fn kept_open(self, before: Self) -> bool {
        before.wf() && !before.stopped() && self.offered().len() > before.offered().len()
            && !self.stopped() ==> self.open_after(self.offered().len() as int)
    }

    /// The consumer was found closed by [`ZeroPort::poll`]. A port that has
    /// stopped stays so.
    pub closed spec fn stopped(self) -> bool {
        self.state.stopped
    }

    /// How many zeros had been offered when the port was found closed.
    pub closed spec fn stopped_at(self) -> nat {
        self.state.stopped_at@
    }

    /// Nothing was offered to the port since it was found closed.
    pub open spec fn settled(self) -> bool {
        self.stopped() ==> self.stopped_at() == self.offered().len()
    }

    /// The stream through this port is over.
    pub open spec fn closed(self) -> bool {
        self.stopped() || self.amount_reached()
    }

    /// A port for `pattern` in front of `zero_stream`, with nothing sent yet.
    pub fn new(zero_stream: &'a mut S, pattern: SeekPattern) -> (port: Self)
        ensures
            port.pattern() == pattern,
            port.offered() == Seq::<(u64, Zero)>::empty(),
            port.consumer() == *old(zero_stream),
            port.initially() == old(zero_stream).received(),
            port.wf(),
            *final(port.out_stream) == *final(zero_stream),
            !port.stopped(),
    {
        let ghost initially = zero_stream.received();
        proof {
            assert(initially + Seq::<(u64, Zero)>::empty() =~= initially);
        }
        ZeroPort {
            out_stream: zero_stream,
            state: PortState {
                tally: Tally { pattern, amount_sent: 0, offered: Ghost(Seq::empty()) },
                stopped: false,
                stopped_at: Ghost(0),
                initially: Ghost(initially),
            },
        }
    }

    /// The pattern that the port was made with.
    pub fn seek_pattern(&self) -> (pattern: SeekPattern)
        ensures
            pattern == self.pattern(),
    {
        self.state.tally.pattern
    }

    /// How many zeros went on to the consumer; the largest `u64` where they
    /// were more than that.
    pub fn amount_sent(&self) -> (amount: u64)
        ensures
            amount == if self.delivered().len() <= u64::MAX {
                self.delivered().len()
            } else {
                u64::MAX as nat
            },
    {
        proof {
            use_type_invariant(&self.state.tally);
        }
        self.state.tally.amount_sent
    }

    /// Whether the stream is over: the amount is reached, or the consumer says
    /// that it is closed. The consumer is asked only where the amount is not
    /// reached, and its answer is then the result.
    pub fn is_closed(&self) -> (closed: bool)
        ensures
            self.amount_reached() ==> closed,
            !self.amount_reached() ==> call_ensures(S::is_closed, (&self.consumer(),), closed),
    {
        if self.is_amount_reached() {
            true
        } else {
            self.out_stream.is_closed()
        }
    }

    /// Asks whether the stream is over, and keeps the answer once it is yes: a
    /// decoder asks this after every zero and every block. The consumer is
    /// asked only where the port itself is not closed, and its answer is then
    /// the result.
    pub fn poll(&mut self) -> (closed: bool)
        ensures
            final(self).pattern() == old(self).pattern(),
            final(self).offered() == old(self).offered(),
            final(self).consumer() == old(self).consumer(),
            *final(final(self).out_stream) == *final(old(self).out_stream),
            final(self).follows(*old(self)),
            closed == final(self).closed(),
            closed == final(self).stopped(),
            old(self).closed() ==> closed,
            !old(self).closed() ==> call_ensures(S::is_closed, (&old(self).consumer(),), closed),
            old(self).wf() && !closed ==> final(self).open_after(
                final(self).offered().len() as int,
            ),
            final(self).stopped_at() == if closed && !old(self).stopped() {
                old(self).offered().len()
            } else {
                old(self).stopped_at()
            },
    {
        proof {
            assert(self.offered().take(self.offered().len() as int) =~= self.offered());
        }
        if !self.state.stopped && self.is_closed() {
            self.state.stopped = true;
            proof {
                self.state.stopped_at@ = self.state.tally.offered@.len();
            }
        }
        self.state.stopped
    }

    /// Offers a zero: it goes on to the consumer, and is counted, if the
    /// pattern accepts it and the amount is not reached. Any other zero is
    /// dropped, so that an offer past the amount changes nothing.
    pub fn send(&mut self, zero_number: u64, zero: Zero)
        requires
            zero.wf(),
        ensures
            final(self).pattern() == old(self).pattern(),
            final(self).stopped() == old(self).stopped(),
            final(self).stopped_at() == old(self).stopped_at(),
            *final(final(self).out_stream) == *final(old(self).out_stream),
            final(self).follows(*old(self)),
            final(self).consumer().received() == if old(self).pattern().accepts(zero_number, zero)
                && !old(self).amount_reached() {
                old(self).consumer().received().push((zero_number, zero))
            } else {
                old(self).consumer().received()
            },
            final(self).offered() == old(self).offered().push((zero_number, zero)),
            final(self).delivered() == if old(self).pattern().accepts(zero_number, zero)
                && !old(self).amount_reached() {
                old(self).delivered().push((zero_number, zero))
            } else {
                old(self).delivered()
            },
            !old(self).pattern().accepts(zero_number, zero) || old(self).amount_reached()
                ==> final(self).consumer() == old(self).consumer(),
    {
        proof {
            let let_through = self.delivered();
            let offered = self.offered();
            let more = offered.push((zero_number, zero));
            assert(self.initially() + let_through.push((zero_number, zero)) =~= (self.initially()
                + let_through).push((zero_number, zero)));
            assert(more.take(offered.len() as int) =~= offered);
            if self.stopped() && self.stopped_at() <= offered.len() {
                assert(more.take(self.stopped_at() as int) =~= offered.take(
                    self.stopped_at() as int,
                ));
            }
        }
        if self.state.tally.note(zero_number, &zero) {
            self.out_stream.send(zero_number, zero);
        }
    }

    /// Whether the pattern names an amount that is reached.
    pub fn is_amount_reached(&self) -> (reached: bool)
        ensures
            reached == self.amount_reached(),
    {
        self.state.tally.is_amount_reached()
    }

    /// Whether the pattern accepts the zero.
    pub fn zero_ok(&self, zero_number: u64, zero: &Zero) -> (ok: bool)
        requires
            zero.wf(),
        ensures
            ok == self.pattern().accepts(zero_number, *zero),
    {
        self.state.tally.zero_ok(zero_number, zero)
    }
}

/// A port follows itself.
pub proof fn lemma_follows_self<'a, S: ZeroStream>(port: ZeroPort<'a, S>)
    ensures
        port.follows(port),
        port.kept_open(port),
{
    assert(port.offered().take(port.offered().len() as int) =~= port.offered());
}

/// Following is carried on from port to port: where the port `then` has
/// followed the port `first` and the port `last` has followed `then`, and
/// nothing was offered to a port that was found closed on the way, `last`
/// has followed `first`.
pub proof fn lemma_follows_on<'a, S: ZeroStream>(
    first: ZeroPort<'a, S>,
    then: ZeroPort<'a, S>,
    last: ZeroPort<'a, S>,
)
    requires
        then.follows(first),
        then.kept_open(first),
        last.follows(then),
        last.kept_open(then),
        !first.stopped() && then.stopped() ==> last.stopped() && last.offered() == then.offered(),
    ensures
        last.follows(first),
        last.kept_open(first),
{
    if first.wf() && !first.stopped() {
        let start = first.offered().len() as int;
        let middle = then.offered().len() as int;
        if then.stopped() {
            assert forall|count: int|
                start < count < last.offered().len() implies #[trigger] last.open_after(count) by {
                assert(then.open_after(count));
            }
        } else {
            assert(last.offered().take(start) =~= first.offered()) by {
                assert(last.offered().take(middle).take(start) =~= last.offered().take(start));
            }
            assert forall|count: int|
                start < count < last.offered().len() implies #[trigger] last.open_after(count) by {
                if count <= middle {
                    assert(last.offered().take(middle).take(count) =~= last.offered().take(count));
                    assert(then.open_after(count));
                }
            }
            if last.offered().len() == middle {
                assert(last.offered() =~= then.offered());
                assert(last.offered().take(middle) =~= last.offered());
            }
        }
    }
}

} // verus!
