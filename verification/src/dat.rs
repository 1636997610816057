use crate::binary64::Binary64;
use crate::database::Block;
use crate::error::Error;
use crate::laws::lemma_forwarded_all;
use crate::port::{lemma_follows_on, lemma_follows_self, SeekPattern, ZeroPort, ZeroStream};
use crate::repository::DatFile;
use crate::seeker::{le, lemma_le_subrange, SimpleSeeker};
use crate::sink::{lemma_log_stays_open, ZeroLog};
use crate::zero::Zero;
use vstd::arithmetic::logarithm::log;
use vstd::prelude::*;

verus! {

/// The four fields that a block starts with: the bounds between which its
/// zeros lie, and the numbers of its first zero and of the first zero after it.
#[derive(Clone, Copy, Debug, PartialEq, Eq, Structural)]
pub struct BlockHeader {
    pub t0: Binary64,
    pub t1: Binary64,
    pub n_t0: u64,
    pub n_t1: u64,
}

/// An entry of a block: the three parts of a 104-bit step, the lowest first.
pub type BlockEntry = (u64, u32, u8);

/// The step that an entry holds, in units of `2^-101`.
pub open spec fn delta(entry: BlockEntry) -> nat {
    (entry.0 + entry.1 * 0x1_0000_0000_0000_0000 + entry.2
        * 0x1_0000_0000_0000_0000_0000_0000) as nat
}

/// The header that starts at index `at`.
pub open spec fn header_at(bytes: Seq<u8>, at: int) -> BlockHeader {
    BlockHeader {
        t0: Binary64 { bits: le(bytes, at, 8) as u64 },
        t1: Binary64 { bits: le(bytes, at + 8, 8) as u64 },
        n_t0: le(bytes, at + 16, 8) as u64,
        n_t1: le(bytes, at + 24, 8) as u64,
    }
}

/// The entry that starts at index `at`.
pub open spec fn entry_at(bytes: Seq<u8>, at: int) -> BlockEntry {
    (le(bytes, at, 8) as u64, le(bytes, at + 8, 4) as u32, le(bytes, at + 12, 1) as u8)
}

/// Where a decoder stands inside a block.
#[derive(Clone, Copy, Debug, PartialEq, Eq, Structural)]
pub struct Cursor {
    /// The lower bound of the block.
    pub base: Binary64,
    /// The binary digits that the block asks for.
    pub precision: i32,
    /// The number of the next zero.
    pub number: u64,
    /// How many entries of the block are still to come.
    pub left: u64,
    /// The sum of the steps so far.
    pub sum: u128,
}

impl Cursor {
    pub open spec fn wf(self) -> bool {
        self.base.finite() && self.number + self.left <= u64::MAX
    }

    /// The sum of the steps no longer fits 128 bits with this entry.
    pub open spec fn overflows(self, entry: BlockEntry) -> bool {
        self.sum + delta(entry) > u128::MAX
    }

    /// The zero that the entry stands for.
    pub open spec fn zero(self, entry: BlockEntry) -> (u64, Zero) {
        (
            self.number,
            Zero {
                base: self.base,
                offset: (self.sum + delta(entry)) as u128,
                precision: self.precision,
            },
        )
    }

    /// The cursor behind the entry.
    pub open spec fn after(self, entry: BlockEntry) -> Cursor {
        Cursor {
            base: self.base,
            precision: self.precision,
            number: (self.number + 1) as u64,
            left: (self.left - 1) as u64,
            sum: (self.sum + delta(entry)) as u128,
        }
    }

    /// Adds the step of the next entry and gives the zero that it stands
    /// for, with the cursor behind it.
    pub fn take(&self, entry: BlockEntry) -> (result: Result<(Cursor, u64, Zero), Error>)
        requires
            self.wf(),
            self.left > 0,
        ensures
            match result {
                Ok((next, number, zero)) => {
                    &&& !self.overflows(entry)
                    &&& next == self.after(entry)
                    &&& (number, zero) == self.zero(entry)
                    &&& next.wf()
                    &&& zero.wf()
                },
                Err(error) => self.overflows(entry) && error == Error::DecodeError,
            },
    {
        let step: u128 = entry.0 as u128 + entry.1 as u128 * 0x1_0000_0000_0000_0000
            + entry.2 as u128 * 0x1_0000_0000_0000_0000_0000_0000;
        match self.sum.checked_add(step) {
            Some(sum) => {
                let zero = Zero { base: self.base, offset: sum, precision: self.precision };
                let next = Cursor {
                    base: self.base,
                    precision: self.precision,
                    number: self.number + 1,
                    left: self.left - 1,
                    sum,
                };
                Ok((next, self.number, zero))
            },
            None => Err(Error::DecodeError),
        }
    }
}

impl BlockHeader {
    /// Both bounds are numbers, the upper one is the greater, and the count of
    /// zeros is not negative.
    pub open spec fn valid(self) -> bool {
        &&& self.t0.finite()
        &&& self.t1.finite()
        &&& self.t0.scaled() < self.t1.scaled()
        &&& self.n_t0 <= self.n_t1
    }

    /// How many zeros the block holds.
    pub open spec fn zeros(self) -> nat {
        (self.n_t1 - self.n_t0) as nat
    }

    /// The binary digits at which the zeros of the block are to be held:
    /// `floor(log2(t1)) + 111`, and 111 where the upper bound is not positive.
    pub open spec fn precision(self) -> int {
        if self.t1.scaled() > 0 {
            log(2, self.t1.scaled()) - 1074 + 111
        } else {
            111
        }
    }

    /// The cursor at the first entry of the block.
    pub open spec fn cursor(self) -> Cursor {
        Cursor {
            base: self.t0,
            precision: self.precision() as i32,
            number: self.n_t0,
            left: (self.n_t1 - self.n_t0) as u64,
            sum: 0,
        }
    }

    /// The index behind the block, for a header at index `at`.
    pub open spec fn end(self, at: int) -> int {
        at + 32 + 13 * self.zeros()
    }

    /// Checks the header and gives the cursor at the first entry of its block.
    pub fn begin(&self) -> (result: Result<Cursor, Error>)
        ensures
            match result {
                Ok(cursor) => self.valid() && cursor == self.cursor() && cursor.wf(),
                Err(error) => !self.valid() && error == Error::DecodeError,
            },
    {
        if !self.t0.is_finite() || !self.t1.is_finite() || self.n_t0 > self.n_t1 {
            return Err(Error::DecodeError);
        }
        if !self.t0.less_than(&self.t1) {
            return Err(Error::DecodeError);
        }
        let precision: i32 = match self.t1.floor_log2() {
            Some(log) => log + 111,
            None => 111,
        };
        Ok(
            Cursor {
                base: self.t0,
                precision,
                number: self.n_t0,
                left: self.n_t1 - self.n_t0,
                sum: 0,
            },
        )
    }
}

/// The digits that a block with finite bounds asks for fit 32 bits.
pub proof fn lemma_precision_fits(header: BlockHeader)
    requires
        header.t1.finite(),
    ensures
        header.cursor().precision == header.precision(),
        -963 <= header.precision() <= 1134,
{
    if header.t1.scaled() > 0 {
        crate::binary64::lemma_log2_of_finite(header.t1);
    }
}

/// Reads the header of a block.
pub fn read_block_header(reader: &mut SimpleSeeker) -> (result: Result<BlockHeader, Error>)
    ensures
        match result {
            Ok(header) => final(reader).passed(*old(reader), 32) && header == header_at(
                old(reader).bytes(),
                old(reader).position() as int,
            ),
            Err(error) => final(reader).short_of(*old(reader), 32, error),
        },
{
    if reader.remaining() < 32 {
        return Err(Error::TruncatedStream);
    }
    let t0 = reader.read_f64()?;
    let t1 = reader.read_f64()?;
    let n_t0 = reader.read_u64()?;
    let n_t1 = reader.read_u64()?;
    Ok(BlockHeader { t0, t1, n_t0, n_t1 })
}

/// Reads an entry of a block.
pub fn read_block_entry(reader: &mut SimpleSeeker) -> (result: Result<BlockEntry, Error>)
    ensures
        match result {
            Ok(entry) => final(reader).passed(*old(reader), 13) && entry == entry_at(
                old(reader).bytes(),
                old(reader).position() as int,
            ),
            Err(error) => final(reader).short_of(*old(reader), 13, error),
        },
{
    if reader.remaining() < 13 {
        return Err(Error::TruncatedStream);
    }
    let z1 = reader.read_u64()?;
    let z2 = reader.read_u32()?;
    let z3 = reader.read_u8()?;
    Ok((z1, z2, z3))
}

/// What decoding yields: the zeros in their order, and the error that ended
/// it, if one did.
pub struct Trace {
    pub zeros: Seq<(u64, Zero)>,
    pub error: Option<Error>,
    /// The port is polled before the first zero: a block or a file without
    /// zeros comes first. Behind every zero the port is polled anyway.
    pub early: bool,
}

impl Trace {
    /// Nothing, and no error.
    pub open spec fn done() -> Trace {
        Trace { zeros: Seq::empty(), error: None, early: false }
    }

    /// Nothing but an error.
    pub open spec fn failed(error: Error) -> Trace {
        Trace { zeros: Seq::empty(), error: Some(error), early: false }
    }

    /// This trace behind one zero.
    pub open spec fn after(self, zero: (u64, Zero)) -> Trace {
        Trace { zeros: seq![zero] + self.zeros, error: self.error, early: false }
    }

    /// This trace, and `rest` behind it unless this one ends in an error.
    pub open spec fn followed_by(self, rest: Trace) -> Trace {
        if self.error is Some {
            self
        } else {
            Trace {
                zeros: self.zeros + rest.zeros,
                error: rest.error,
                early: self.early || (self.zeros.len() == 0 && rest.early),
            }
        }
    }

    /// This trace behind a poll of the port.
    pub open spec fn paused(self) -> Trace {
        Trace { early: true, ..self }
    }
}

/// The zeros of the entries that start at index `at`, for a cursor that
/// stands there.
pub open spec fn entries(bytes: Seq<u8>, at: int, cursor: Cursor) -> Trace
    decreases cursor.left,
{
    if cursor.left == 0 {
        Trace::done()
    } else if at + 13 > bytes.len() {
        Trace::failed(Error::TruncatedStream)
    } else if cursor.overflows(entry_at(bytes, at)) {
        Trace::failed(Error::DecodeError)
    } else {
        entries(bytes, at + 13, cursor.after(entry_at(bytes, at))).after(
            cursor.zero(entry_at(bytes, at)),
        )
    }
}

/// The zeros of `left` blocks, the first of which starts at index `at`.
pub open spec fn blocks(bytes: Seq<u8>, at: int, left: nat) -> Trace
    decreases left,
{
    if left == 0 {
        Trace::done()
    } else if at + 32 > bytes.len() {
        Trace::failed(Error::TruncatedStream)
    } else if !header_at(bytes, at).valid() {
        Trace::failed(Error::DecodeError)
    } else {
        entries(bytes, at + 32, header_at(bytes, at).cursor()).followed_by(
            blocks(bytes, header_at(bytes, at).end(at), (left - 1) as nat).paused(),
        )
    }
}

/// The zeros of a data file: the count of its blocks, and then the blocks.
pub open spec fn file(bytes: Seq<u8>) -> Trace {
    if bytes.len() < 8 {
        Trace::failed(Error::TruncatedStream)
    } else {
        blocks(bytes, 8, le(bytes, 0, 8))
    }
}

/// The zeros of a data file from the block with the number `block_number` on,
/// which starts at index `offset`.
pub open spec fn file_from(bytes: Seq<u8>, offset: nat, block_number: nat) -> Trace {
    if bytes.len() < 8 {
        Trace::failed(Error::TruncatedStream)
    } else if offset < 8 {
        Trace::failed(Error::SeekBackward)
    } else if offset > bytes.len() {
        Trace::failed(Error::TruncatedStream)
    } else if le(bytes, 0, 8) <= block_number {
        Trace::done()
    } else {
        blocks(bytes, offset as int, (le(bytes, 0, 8) - block_number) as nat)
    }
}

/// What a file processor waits for.
#[derive(Clone, Copy, Debug, PartialEq, Eq, Structural)]
pub enum Phase {
    /// The count of blocks at the start of the file.
    Start,
    /// The bytes before the block at which it is to start.
    Seek,
    /// The header of the next block.
    Header,
    /// The next entry of the block.
    Entry,
    /// Nothing more.
    Done,
}

/// What a file processor asks of the one who reads the file for it.
#[derive(Clone, Copy, Debug, PartialEq, Eq, Structural)]
pub enum Request {
    /// The next bytes of the file, as many as given, for
    /// [`FileProcessor::advance`].
    Read(usize),
    /// To pass over as many bytes as given, and then to call
    /// [`FileProcessor::skipped`].
    Skip(usize),
    /// Nothing: the file is done.
    Finished,
}

/// The state of a file processor.
#[derive(Clone, Copy, Debug)]
pub struct State {
    pub phase: Phase,
    /// The block to start at: the index of its header and its number.
    pub target: Option<(usize, u64)>,
    /// In the phase `Seek`, how many bytes are to be passed over.
    pub skip: usize,
    /// How many blocks are still to be begun.
    pub blocks: u64,
    /// In the phase `Entry`, the place in the block.
    pub cursor: Cursor,
}

/// One step of a file processor: the state behind it, the zero that it
/// yields, and whether the port is polled after it.
pub struct Step {
    pub next: State,
    pub zero: Option<(u64, Zero)>,
    pub polls: bool,
}

impl State {
    pub open spec fn wf(self) -> bool {
        match self.phase {
            Phase::Start => true,
            Phase::Seek => self.skip > 0,
            Phase::Header => self.blocks > 0,
            Phase::Entry => self.cursor.wf() && self.cursor.left > 0,
            Phase::Done => true,
        }
    }

    /// The state at the start of a file, with the block to start at.
    pub open spec fn fresh(target: Option<(usize, u64)>) -> State {
        State {
            phase: Phase::Start,
            target,
            skip: 0,
            blocks: 0,
            cursor: Cursor { base: Binary64 { bits: 0 }, precision: 0, number: 0, left: 0, sum: 0 },
        }
    }

    /// This state, set to start at the block with the given number, whose
    /// header is at the index `offset`. Once the file is begun the state is
    /// left as it is.
    pub open spec fn aimed(self, offset: usize, number: u64) -> State {
        if self.phase == Phase::Start {
            State { target: Some((offset, number)), ..self }
        } else {
            self
        }
    }

    /// This state, but with nothing more to do.
    pub open spec fn halted(self) -> State {
        State { phase: Phase::Done, ..self }
    }

    /// This state before the next block, with `blocks` blocks to come.
    pub open spec fn between(self, blocks: u64) -> State {
        State { phase: if blocks == 0 { Phase::Done } else { Phase::Header }, blocks, ..self }
    }

    /// What the state asks for.
    pub open spec fn request(self) -> Request {
        match self.phase {
            Phase::Start => Request::Read(8),
            Phase::Seek => Request::Skip(self.skip),
            Phase::Header => Request::Read(32),
            Phase::Entry => Request::Read(13),
            Phase::Done => Request::Finished,
        }
    }

    /// How many bytes the next step takes.
    pub open spec fn need(self) -> nat {
        match self.phase {
            Phase::Start => 8,
            Phase::Seek => self.skip as nat,
            Phase::Header => 32,
            Phase::Entry => 13,
            Phase::Done => 0,
        }
    }

    /// The step that the bytes `chunk` lead to, which are those asked for, or
    /// the error that they lead to. In the phase `Seek` the bytes are not
    /// looked at.
    #[verifier::opaque]
    pub open spec fn step(self, chunk: Seq<u8>) -> Result<Step, Error> {
        match self.phase {
            Phase::Start => {
                let count = le(chunk, 0, 8) as u64;
                if chunk.len() < 8 {
                    Err(Error::TruncatedStream)
                } else {
                    match self.target {
                        None => Ok(Step { next: self.between(count), zero: None, polls: false }),
                        Some((offset, number)) => {
                            let blocks = if count <= number {
                                0
                            } else {
                                (count - number) as u64
                            };
                            if offset < 8 {
                                Err(Error::SeekBackward)
                            } else if offset == 8 {
                                Ok(Step { next: self.between(blocks), zero: None, polls: false })
                            } else {
                                Ok(
                                    Step {
                                        next: State {
                                            phase: Phase::Seek,
                                            skip: (offset - 8) as usize,
                                            blocks,
                                            ..self
                                        },
                                        zero: None,
                                        polls: false,
                                    },
                                )
                            }
                        },
                    }
                }
            },
            Phase::Seek => Ok(Step { next: self.between(self.blocks), zero: None, polls: false }),
            Phase::Header => {
                let header = header_at(chunk, 0);
                let blocks = (self.blocks - 1) as u64;
                if chunk.len() < 32 {
                    Err(Error::TruncatedStream)
                } else if !header.valid() {
                    Err(Error::DecodeError)
                } else if header.zeros() == 0 {
                    Ok(Step { next: self.between(blocks), zero: None, polls: true })
                } else {
                    Ok(
                        Step {
                            next: State {
                                phase: Phase::Entry,
                                blocks,
                                cursor: header.cursor(),
                                ..self
                            },
                            zero: None,
                            polls: false,
                        },
                    )
                }
            },
            Phase::Entry => {
                let entry = entry_at(chunk, 0);
                let cursor = self.cursor.after(entry);
                if chunk.len() < 13 {
                    Err(Error::TruncatedStream)
                } else if self.cursor.overflows(entry) {
                    Err(Error::DecodeError)
                } else {
                    Ok(
                        Step {
                            next: if cursor.left == 0 {
                                State { cursor, ..self }.between(self.blocks)
                            } else {
                                State { cursor, ..self }
                            },
                            zero: Some(self.cursor.zero(entry)),
                            polls: true,
                        },
                    )
                }
            },
            Phase::Done => Ok(Step { next: self, zero: None, polls: false }),
        }
    }

    /// What is still to come of the file `bytes`, for a processor in this
    /// state that has read the first `at` bytes.
    #[verifier::opaque]
    pub open spec fn rest(self, bytes: Seq<u8>, at: int) -> Trace {
        match self.phase {
            Phase::Start => match self.target {
                None => file(bytes),
                Some((offset, number)) => file_from(bytes, offset as nat, number as nat),
            },
            Phase::Seek => if at + self.skip > bytes.len() {
                Trace::failed(Error::TruncatedStream)
            } else {
                blocks(bytes, at + self.skip, self.blocks as nat)
            },
            Phase::Header => blocks(bytes, at, self.blocks as nat),
            Phase::Entry => entries(bytes, at, self.cursor).followed_by(
                blocks(bytes, at + 13 * self.cursor.left, self.blocks as nat).paused(),
            ),
            Phase::Done => Trace::done(),
        }
    }
}

/// How a run through the zeros of `trace` shows at a port: the offers went
/// from `before` to `after`, the port was left `closed` or not, and the run
/// gave `result`.
///
/// The zeros went to the port in their order and none was left out. A run
/// fails only behind the last zero, with the error of the trace. It ends
/// without an error before the trace does only where it leaves the port
/// closed, and only behind a poll: behind a zero, or behind a block or a
/// file without zeros.
#[verifier::opaque]
pub open spec fn served(
    trace: Trace,
    before: Seq<(u64, Zero)>,
    after: Seq<(u64, Zero)>,
    closed: bool,
    result: Result<(), Error>,
) -> bool {
    let count = after.len() - before.len();
    &&& 0 <= count <= trace.zeros.len()
    &&& after == before + trace.zeros.take(count)
    &&& match result {
        Err(error) => count == trace.zeros.len() && trace.error == Some(error),
        Ok(_) => (closed && (count >= 1 || trace.early)) || (count == trace.zeros.len()
            && trace.error is None),
    }
}

/// A zero in front of a trace stays in front when more follows.
proof fn lemma_after_followed_by(first: Trace, zero: (u64, Zero), rest: Trace)
    ensures
        first.after(zero).followed_by(rest) == first.followed_by(rest).after(zero),
{
    assert((seq![zero] + first.zeros) + rest.zeros =~= seq![zero] + (first.zeros + rest.zeros));
}

/// The 32 bytes of a header, cut out of a file, hold that header.
pub proof fn lemma_header_in_chunk(bytes: Seq<u8>, at: int)
    requires
        0 <= at,
        at + 32 <= bytes.len(),
    ensures
        header_at(bytes.subrange(at, at + 32), 0) == header_at(bytes, at),
{
    lemma_le_subrange(bytes, at, at + 32, 0, 8);
    lemma_le_subrange(bytes, at, at + 32, 8, 8);
    lemma_le_subrange(bytes, at, at + 32, 16, 8);
    lemma_le_subrange(bytes, at, at + 32, 24, 8);
}

/// The 13 bytes of an entry, cut out of a file, hold that entry.
pub proof fn lemma_entry_in_chunk(bytes: Seq<u8>, at: int)
    requires
        0 <= at,
        at + 13 <= bytes.len(),
    ensures
        entry_at(bytes.subrange(at, at + 13), 0) == entry_at(bytes, at),
{
    lemma_le_subrange(bytes, at, at + 13, 0, 8);
    lemma_le_subrange(bytes, at, at + 13, 8, 4);
    lemma_le_subrange(bytes, at, at + 13, 12, 1);
}

/// Eight bytes hold a number that fits 64 bits.
pub proof fn lemma_le_fits(bytes: Seq<u8>, at: int)
    ensures
        le(bytes, at, 8) <= u64::MAX,
{
    reveal_with_fuel(le, 9);
}

/// What is still to come of a file is what the next step yields, and then
/// what is still to come behind that step.
pub proof fn lemma_rest_by_step(state: State, bytes: Seq<u8>, at: int)
    requires
        state.wf(),
        0 <= at <= bytes.len(),
        state.phase == Phase::Start ==> at == 0,
        state.phase != Phase::Done,
    ensures
        at + state.need() > bytes.len() ==> state.rest(bytes, at) == Trace::failed(
            Error::TruncatedStream,
        ),
        at + state.need() <= bytes.len() ==> match state.step(
            bytes.subrange(at, at + state.need()),
        ) {
            Err(error) => state.rest(bytes, at) == Trace::failed(error),
            Ok(step) => step.next.wf() && state.rest(bytes, at) == match step.zero {
                Some(zero) => step.next.rest(bytes, at + state.need()).after(zero),
                None => if step.polls {
                    step.next.rest(bytes, at + state.need()).paused()
                } else {
                    step.next.rest(bytes, at + state.need())
                },
            },
        },
{
    reveal(State::step);
    reveal(State::rest);
    let need = state.need();
    if at + need <= bytes.len() {
        let chunk = bytes.subrange(at, at + need);
        match state.phase {
            Phase::Start => {
                lemma_le_subrange(bytes, 0, 8, 0, 8);
                lemma_le_fits(bytes, 0);
            },
            Phase::Seek => {},
            Phase::Header => {
                lemma_header_in_chunk(bytes, at);
            },
            Phase::Entry => {
                lemma_entry_in_chunk(bytes, at);
                let entry = entry_at(bytes, at);
                if !state.cursor.overflows(entry) {
                    let cursor = state.cursor.after(entry);
                    lemma_after_followed_by(
                        entries(bytes, at + 13, cursor),
                        state.cursor.zero(entry),
                        blocks(bytes, at + 13 * state.cursor.left, state.blocks as nat),
                    );
                }
            },
            Phase::Done => {},
        }
    }
}

/// What a run has reached: of the zeros of `total` it has offered `sent`, and
/// the processor, in `state` behind the first `at` bytes, has the rest of
/// them before it.
#[verifier::opaque]
pub open spec fn tracks(
    total: Trace,
    sent: Seq<(u64, Zero)>,
    state: State,
    bytes: Seq<u8>,
    at: int,
    closed: bool,
) -> bool {
    if state.phase != Phase::Done {
        &&& total.zeros == sent + state.rest(bytes, at).zeros
        &&& total.error == state.rest(bytes, at).error
        &&& sent.len() == 0 && state.rest(bytes, at).early ==> total.early
    } else {
        &&& sent.len() <= total.zeros.len()
        &&& total.zeros.take(sent.len() as int) == sent
        &&& (closed && (sent.len() >= 1 || total.early)) || (total.zeros == sent
            && total.error is None)
    }
}

/// No step leads back to the start of a file, and the step that follows
/// bytes passed over yields nothing.
pub proof fn lemma_step_leaves_start(state: State, chunk: Seq<u8>)
    requires
        state.phase != Phase::Done,
    ensures
        state.step(chunk) matches Ok(step) ==> step.next.phase != Phase::Start,
        state.phase == Phase::Seek ==> state.step(chunk) == Ok::<Step, Error>(
            Step { next: state.between(state.blocks), zero: None, polls: false },
        ),
{
    reveal(State::step);
}

/// At the start of a file, all of it is still to come.
pub proof fn lemma_rest_at_start(target: Option<(usize, u64)>, bytes: Seq<u8>, at: int)
    ensures
        State::fresh(target).rest(bytes, at) == match target {
            None => file(bytes),
            Some((offset, number)) => file_from(bytes, offset as nat, number as nat),
        },
{
    reveal(State::rest);
}

/// The zeros offered, with those of one more step.
pub open spec fn moved(sent: Seq<(u64, Zero)>, step: Result<Step, Error>) -> Seq<(u64, Zero)> {
    match step {
        Ok(Step { zero: Some(zero), .. }) => sent.push(zero),
        _ => sent,
    }
}

proof fn lemma_tracks_start(state: State, bytes: Seq<u8>, before: Seq<(u64, Zero)>, closed: bool)
    ensures
        tracks(state.rest(bytes, 0), Seq::empty(), state, bytes, 0, closed),
        before + Seq::<(u64, Zero)>::empty() == before,
{
    reveal(tracks);
    reveal(served);
    reveal(State::rest);
    let total = state.rest(bytes, 0);
    let sent = Seq::<(u64, Zero)>::empty();
    assert(sent + total.zeros =~= total.zeros);
    assert(total.zeros.take(0) =~= sent);
    assert(before + sent =~= before);
}

proof fn lemma_tracks_done(
    total: Trace,
    before: Seq<(u64, Zero)>,
    sent: Seq<(u64, Zero)>,
    state: State,
    bytes: Seq<u8>,
    at: int,
    closed: bool,
)
    requires
        state.phase == Phase::Done,
        tracks(total, sent, state, bytes, at, closed),
    ensures
        served(total, before, before + sent, closed, Ok(())),
{
    reveal(tracks);
    reveal(served);
    assert((before + sent).len() == before.len() + sent.len());
    assert(before + sent =~= before + total.zeros.take(sent.len() as int));
}

proof fn lemma_tracks_short(
    total: Trace,
    before: Seq<(u64, Zero)>,
    sent: Seq<(u64, Zero)>,
    state: State,
    bytes: Seq<u8>,
    at: int,
    closed: bool,
)
    requires
        state.wf(),
        state.phase != Phase::Done,
        0 <= at <= bytes.len(),
        state.phase == Phase::Start ==> at == 0,
        at + state.need() > bytes.len(),
        tracks(total, sent, state, bytes, at, closed),
    ensures
        served(total, before, before + sent, closed, Err(Error::TruncatedStream)),
{
    reveal(tracks);
    reveal(served);
    lemma_rest_by_step(state, bytes, at);
    assert(sent + Seq::<(u64, Zero)>::empty() =~= sent);
    assert(total.zeros.take(total.zeros.len() as int) =~= total.zeros);
    assert((before + sent).len() == before.len() + sent.len());
}

/// A step keeps a run on its track: see [`FileProcessor::advance`] for how
/// `outcome` and the state behind the step follow from the step.
proof fn lemma_tracks_step(
    total: Trace,
    before: Seq<(u64, Zero)>,
    sent: Seq<(u64, Zero)>,
    state: State,
    bytes: Seq<u8>,
    at: int,
    closed: bool,
    closed_after: bool,
    outcome: Result<(), Error>,
)
    requires
        state.wf(),
        state.phase != Phase::Done,
        0 <= at <= bytes.len(),
        state.phase == Phase::Start ==> at == 0,
        at + state.need() <= bytes.len(),
        tracks(total, sent, state, bytes, at, closed),
        match outcome {
            Err(error) => state.step(bytes.subrange(at, at + state.need())) matches Err(e) && e
                == error,
            Ok(_) => state.step(bytes.subrange(at, at + state.need())) is Ok,
        },
    ensures
        ({
            let step = state.step(bytes.subrange(at, at + state.need()));
            let moved = moved(sent, step);
            match outcome {
                Err(error) => moved == sent && served(
                    total,
                    before,
                    before + sent,
                    closed,
                    Err(error),
                ),
                Ok(_) => {
                    &&& before + moved == match step->Ok_0.zero {
                        Some(zero) => (before + sent).push(zero),
                        None => before + sent,
                    }
                    &&& tracks(
                        total,
                        moved,
                        if step->Ok_0.polls && closed_after {
                            step->Ok_0.next.halted()
                        } else {
                            step->Ok_0.next
                        },
                        bytes,
                        at + state.need(),
                        closed_after,
                    )
                    &&& step->Ok_0.next.wf()
                    &&& step->Ok_0.next.phase != Phase::Start
                },
            }
        }),
{
    reveal(tracks);
    reveal(served);
    reveal(State::rest);
    lemma_rest_by_step(state, bytes, at);
    lemma_step_leaves_start(state, bytes.subrange(at, at + state.need()));
    let result = state.step(bytes.subrange(at, at + state.need()));
    assert(sent + Seq::<(u64, Zero)>::empty() =~= sent);
    assert(total.zeros.take(total.zeros.len() as int) =~= total.zeros);
    assert((before + sent).len() == before.len() + sent.len());
    match result {
        Err(error) => {},
        Ok(step) => {
            let next = step.next.rest(bytes, at + state.need()).zeros;
            let moved = moved(sent, result);
            match step.zero {
                Some(zero) => {
                    assert(sent + (seq![zero] + next) =~= sent.push(zero) + next);
                    assert(before + sent.push(zero) =~= (before + sent).push(zero));
                },
                None => {},
            }
            assert(total.zeros == moved + next);
            assert(total.zeros.take(moved.len() as int) =~= moved);
            if step.next.phase == Phase::Done {
                assert(next =~= Seq::<(u64, Zero)>::empty());
                assert(moved + next =~= moved);
            }
        },
    }
}

/// Decodes one data file, step by step.
///
/// The processor does not read the file itself. It says what it needs next
/// ([`FileProcessor::request`]), is handed those bytes
/// ([`FileProcessor::advance`]), and offers every zero that they complete to a
/// port. For a file that is in memory as a whole,
/// [`FileProcessor::process`] does all of that.
pub struct FileProcessor {
    file_name: String,
    state: State,
}

impl FileProcessor {
    #[verifier::type_invariant]
    spec fn sound(self) -> bool {
        self.state.wf()
    }

    /// The state of the processor.
    pub closed spec fn state(self) -> State {
        self.state
    }

    /// The name of the file that the processor decodes.
    pub closed spec fn file_name(self) -> Seq<char> {
        self.file_name@
    }

    /// A processor at the start of the file `file`.
    pub fn new(file: DatFile) -> (processor: Self)
        ensures
            processor.state() == State::fresh(None),
            processor.file_name() == file.file_name@,
    {
        FileProcessor {
            file_name: file.file_name,
            state: State {
                phase: Phase::Start,
                target: None,
                skip: 0,
                blocks: 0,
                cursor: Cursor {
                    base: Binary64 { bits: 0 },
                    precision: 0,
                    number: 0,
                    left: 0,
                    sum: 0,
                },
            },
        }
    }

    /// The name of the file that the processor decodes.
    pub fn name(&self) -> (name: &String)
        ensures
            name@ == self.file_name(),
    {
        &self.file_name
    }

    /// Makes the processor start at the block `first`, which is to be a block
    /// of its file. A processor that has begun its file is left as it is.
    pub fn start_at(&mut self, first: &Block)
        requires
            first.filename@ == old(self).file_name(),
        ensures
            final(self).file_name() == old(self).file_name(),
            final(self).state() == old(self).state().aimed(first.offset, first.block_number),
    {
        proof {
            use_type_invariant(&*self);
        }
        let state = self.state;
        match state.phase {
            Phase::Start => {
                self.state = State {
                    phase: state.phase,
                    target: Some((first.offset, first.block_number)),
                    skip: state.skip,
                    blocks: state.blocks,
                    cursor: state.cursor,
                };
            },
            _ => {},
        }
    }

    /// What the processor needs next.
    pub fn request(&self) -> (request: Request)
        ensures
            request == self.state().request(),
            self.state().wf(),
    {
        proof {
            use_type_invariant(self);
        }
        match self.state.phase {
            Phase::Start => Request::Read(8),
            Phase::Seek => Request::Skip(self.state.skip),
            Phase::Header => Request::Read(32),
            Phase::Entry => Request::Read(13),
            Phase::Done => Request::Finished,
        }
    }

    /// Tells the processor that the bytes it asked to be passed over are
    /// passed. In any phase but `Seek` this changes nothing.
    pub fn skipped(&mut self)
        ensures
            final(self).file_name() == old(self).file_name(),
            final(self).state() == if old(self).state().phase == Phase::Seek {
                old(self).state().between(old(self).state().blocks)
            } else {
                old(self).state()
            },
    {
        proof {
            use_type_invariant(&*self);
        }
        let state = self.state;
        match state.phase {
            Phase::Seek => {
                self.state = between(state, state.blocks);
            },
            _ => {},
        }
    }

    /// Ends the file where the port was found closed.
    fn settle(&mut self, closed: bool)
        ensures
            final(self).file_name() == old(self).file_name(),
            final(self).state() == if closed {
                old(self).state().halted()
            } else {
                old(self).state()
            },
    {
        proof {
            use_type_invariant(&*self);
        }
        if closed {
            let state = self.state;
            self.state = State {
                phase: Phase::Done,
                target: state.target,
                skip: state.skip,
                blocks: state.blocks,
                cursor: state.cursor,
            };
        }
    }

    /// Takes the bytes that the processor asked for and makes the step that
    /// they lead to: see [`State::step`]. A zero that the bytes complete is
    /// offered to `sink`. After a zero, and at the end of a block, the port is
    /// polled, and the file is over once it is closed.
    ///
    /// With fewer bytes than asked for the step fails as for a file that ends
    /// there; bytes beyond those asked for are not looked at.
    pub fn advance<S: ZeroStream>(&mut self, chunk: &[u8], sink: &mut ZeroPort<'_, S>) -> (result:
        Result<(), Error>)
        ensures
            final(self).file_name() == old(self).file_name(),
            final(sink).pattern() == old(sink).pattern(),
            final(sink).follows(*old(sink)),
            final(sink).kept_open(*old(sink)),
            *final(final(sink).out_stream) == *final(old(sink).out_stream),
            match result {
                Err(error) => {
                    &&& old(self).state().step(chunk@) matches Err(e) && e == error
                    &&& final(self).state() == old(self).state()
                    &&& final(sink).offered() == old(sink).offered()
                    &&& final(sink).closed() == old(sink).closed()
                    &&& final(sink).stopped() == old(sink).stopped()
                    &&& final(sink).stopped_at() == old(sink).stopped_at()
                    &&& final(sink).consumer() == old(sink).consumer()
                },
                Ok(_) => old(self).state().step(chunk@) matches Ok(step) && {
                    &&& final(sink).offered() == match step.zero {
                        Some(zero) => old(sink).offered().push(zero),
                        None => old(sink).offered(),
                    }
                    &&& final(self).state() == if step.polls && final(sink).closed() {
                        step.next.halted()
                    } else {
                        step.next
                    }
                    &&& !step.polls ==> {
                        &&& final(sink).closed() == old(sink).closed()
                        &&& final(sink).stopped() == old(sink).stopped()
                        &&& final(sink).stopped_at() == old(sink).stopped_at()
                    }
                    &&& step.polls ==> final(sink).stopped() == final(sink).closed()
                    &&& step.polls && !old(sink).stopped() ==> final(sink).settled()
                    &&& step.polls && !old(sink).stopped() && !final(sink).amount_reached()
                        ==> call_ensures(
                        S::is_closed,
                        (&final(sink).consumer(),),
                        final(sink).stopped(),
                    )
                    &&& step.zero is None ==> final(sink).consumer() == old(sink).consumer()
                },
            },
    {
        proof {
            use_type_invariant(&*self);
            reveal(State::step);
            lemma_follows_self(*sink);
        }
        let mut reader = SimpleSeeker::new(chunk);
        let state = self.state;
        match state.phase {
            Phase::Start => {
                let count = reader.read_u64()?;
                match state.target {
                    None => {
                        self.state = between(state, count);
                    },
                    Some((offset, number)) => {
                        if offset < 8 {
                            return Err(Error::SeekBackward);
                        }
                        let blocks: u64 = if count <= number {
                            0
                        } else {
                            count - number
                        };
                        if offset == 8 {
                            self.state = between(state, blocks);
                        } else {
                            self.state = State {
                                phase: Phase::Seek,
                                target: state.target,
                                skip: offset - 8,
                                blocks,
                                cursor: state.cursor,
                            };
                        }
                    },
                }
                Ok(())
            },
            Phase::Seek => {
                self.state = between(state, state.blocks);
                Ok(())
            },
            Phase::Header => {
                let header = read_block_header(&mut reader)?;
                let cursor = header.begin()?;
                let blocks: u64 = state.blocks - 1;
                if cursor.left == 0 {
                    self.state = between(state, blocks);
                    let closed = sink.poll();
                    self.settle(closed);
                } else {
                    self.state = State {
                        phase: Phase::Entry,
                        target: state.target,
                        skip: state.skip,
                        blocks,
                        cursor,
                    };
                }
                Ok(())
            },
            Phase::Entry => {
                let entry = read_block_entry(&mut reader)?;
                let (cursor, number, zero) = state.cursor.take(entry)?;
                let ghost before = *sink;
                sink.send(number, zero);
                let ghost sent = *sink;
                let moved = State {
                    phase: state.phase,
                    target: state.target,
                    skip: state.skip,
                    blocks: state.blocks,
                    cursor,
                };
                if cursor.left == 0 {
                    self.state = between(moved, state.blocks);
                } else {
                    self.state = moved;
                }
                let closed = sink.poll();
                self.settle(closed);
                proof {
                    assert(sink.offered().take(before.offered().len() as int)
                        =~= before.offered());
                }
                Ok(())
            },
            Phase::Done => Ok(()),
        }
    }

    /// Runs the processor over `data`, the bytes of the file that it has not
    /// been handed yet.
    pub fn run<S: ZeroStream>(&mut self, data: &[u8], sink: &mut ZeroPort<'_, S>) -> (result:
        Result<(), Error>)
        ensures
            final(self).file_name() == old(self).file_name(),
            final(sink).pattern() == old(sink).pattern(),
            served(
                old(self).state().rest(data@, 0),
                old(sink).offered(),
                final(sink).offered(),
                final(sink).closed(),
                result,
            ),
            !old(sink).stopped() ==> final(sink).settled(),
            final(sink).follows(*old(sink)),
            final(sink).kept_open(*old(sink)),
            *final(final(sink).out_stream) == *final(old(sink).out_stream),
    {
        let mut reader = SimpleSeeker::new(data);
        let size = data.len();
        let ghost total = self.state().rest(data@, 0);
        let ghost before = sink.offered();
        let ghost mut sent = Seq::<(u64, Zero)>::empty();
        proof {
            use_type_invariant(&*self);
            lemma_tracks_start(self.state(), data@, before, sink.closed());
            lemma_follows_self(*sink);
        }
        loop
            invariant
                size == data@.len(),
                total == old(self).state().rest(data@, 0),
                before == old(sink).offered(),
                reader.bytes() == data@,
                reader.available() >= 0,
                self.file_name() == old(self).file_name(),
                self.state().phase == Phase::Start ==> reader.position() == 0,
                sink.pattern() == old(sink).pattern(),
                sink.offered() == before + sent,
                !old(sink).stopped() ==> sink.settled(),
                !old(sink).stopped() && self.state().phase != Phase::Done ==> !sink.stopped(),
                sink.follows(*old(sink)),
                sink.kept_open(*old(sink)),
                *final(sink.out_stream) == *final(old(sink).out_stream),
                tracks(
                    total,
                    sent,
                    self.state(),
                    data@,
                    reader.position() as int,
                    sink.closed(),
                ),
            decreases reader.available(),
        {
            let request = self.request();
            let ghost state = self.state();
            let ghost at = reader.position() as int;
            let ghost closed = sink.closed();
            let ghost head = *sink;
            match request {
                Request::Finished => {
                    proof {
                        lemma_tracks_done(total, before, sent, state, data@, at, closed);
                    }
                    return Ok(());
                },
                Request::Skip(count) => {
                    if reader.remaining() < count {
                        proof {
                            lemma_tracks_short(total, before, sent, state, data@, at, closed);
                        }
                        return Err(Error::TruncatedStream);
                    }
                    let target = reader.consumed() + count;
                    match reader.consume_until(target) {
                        Ok(_) => {},
                        Err(error) => {
                            proof {
                                assert(false);
                            }
                            return Err(error);
                        },
                    }
                    self.skipped();
                    proof {
                        lemma_step_leaves_start(state, data@.subrange(at, at + count));
                        lemma_tracks_step(
                            total,
                            before,
                            sent,
                            state,
                            data@,
                            at,
                            closed,
                            closed,
                            Ok(()),
                        );
                    }
                },
                Request::Read(count) => {
                    let chunk = match reader.read_exact(count) {
                        Ok(chunk) => chunk,
                        Err(error) => {
                            proof {
                                lemma_tracks_short(total, before, sent, state, data@, at, closed);
                            }
                            return Err(error);
                        },
                    };
                    let outcome = self.advance(chunk, sink);
                    proof {
                        lemma_follows_on(*old(sink), head, *sink);
                        lemma_tracks_step(
                            total,
                            before,
                            sent,
                            state,
                            data@,
                            at,
                            closed,
                            sink.closed(),
                            outcome,
                        );
                        sent = moved(sent, state.step(chunk@));
                    }
                    match outcome {
                        Ok(_) => {},
                        Err(error) => {
                            return Err(error);
                        },
                    }
                },
            }
        }
    }

    /// Decodes the file `data` from its first block on: every zero is offered
    /// to `sink`, until the file ends or the port is closed.
    pub fn process<S: ZeroStream>(self, data: &[u8], sink: &mut ZeroPort<'_, S>) -> (result:
        Result<(), Error>)
        ensures
            final(sink).pattern() == old(sink).pattern(),
            served(
                self.state().rest(data@, 0),
                old(sink).offered(),
                final(sink).offered(),
                final(sink).closed(),
                result,
            ),
            !old(sink).stopped() ==> final(sink).settled(),
            final(sink).follows(*old(sink)),
            final(sink).kept_open(*old(sink)),
            *final(final(sink).out_stream) == *final(old(sink).out_stream),
    {
        let mut processor = self;
        processor.run(data, sink)
    }

    /// Decodes the file `data` from its first block on into a vector of its
    /// zeros: all of them, and the error that ended the file, if one did.
    pub fn collect(self, data: &[u8]) -> (collected: (Vec<(u64, Zero)>, Result<(), Error>))
        ensures
            collected.0@ == self.state().rest(data@, 0).zeros,
            match collected.1 {
                Ok(_) => self.state().rest(data@, 0).error is None,
                Err(error) => self.state().rest(data@, 0).error == Some(error),
            },
    {
        let mut log = ZeroLog::new();
        let mut port = ZeroPort::new(&mut log, SeekPattern::All);
        let result = self.process(data, &mut port);
        proof {
            reveal(served);
            lemma_log_stays_open(
                SeekPattern::All,
                port.initially(),
                port.offered().take(port.stopped_at() as int),
            );
            lemma_forwarded_all(port.offered());
            assert(port.offered() =~= self.state().rest(data@, 0).zeros);
        }
        (log.zeros, result)
    }

    /// Decodes the file `data` from the block `first` on, which is to be a
    /// block of this file: passes over the bytes before it, and then offers
    /// every zero to `sink`, until the file ends or the port is closed.
    pub fn process_with_first<S: ZeroStream>(
        self,
        data: &[u8],
        sink: &mut ZeroPort<'_, S>,
        first: &Block,
    ) -> (result: Result<(), Error>)
        requires
            first.filename@ == self.file_name(),
        ensures
            final(sink).pattern() == old(sink).pattern(),
            served(
                self.state().aimed(first.offset, first.block_number).rest(data@, 0),
                old(sink).offered(),
                final(sink).offered(),
                final(sink).closed(),
                result,
            ),
            !old(sink).stopped() ==> final(sink).settled(),
            final(sink).follows(*old(sink)),
            final(sink).kept_open(*old(sink)),
            *final(final(sink).out_stream) == *final(old(sink).out_stream),
    {
        let mut processor = self;
        processor.start_at(first);
        processor.run(data, sink)
    }
}

/// The state before the next block, with `blocks` blocks to come.
fn between(state: State, blocks: u64) -> (next: State)
    ensures
        next == state.between(blocks),
{
    State {
        phase: if blocks == 0 {
            Phase::Done
        } else {
            Phase::Header
        },
        target: state.target,
        skip: state.skip,
        blocks,
        cursor: state.cursor,
    }
}

} // verus!
