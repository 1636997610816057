use crate::dat::{file, file_from, lemma_rest_at_start, served, FileProcessor, State, Trace};
use crate::database::{first_block, first_block_found, Block};
use crate::error::Error;
use crate::port::{
    lemma_follows_on, lemma_follows_self, open_behind, over_behind, SeekPattern, ZeroPort,
    ZeroStream,
};
use crate::repository::{
    by_order, lines, listings, listings_of, manifest_ok, read_repository, DatFile,
};
use crate::zero::Zero;
use vstd::prelude::*;

verus! {

/// The bytes that an archive holds under the name `name`: those of the first
/// entry with that name.
pub open spec fn stored(archive: Seq<(String, Vec<u8>)>, name: Seq<char>) -> Option<Seq<u8>>
    decreases archive.len(),
{
    if archive.len() == 0 {
        None
    } else if archive[0].0@ == name {
        Some(archive[0].1@)
    } else {
        stored(archive.skip(1), name)
    }
}

/// The zeros of the file `name` of an archive, from the block `target` on
/// where one is given. A file that the archive does not hold cannot be
/// fetched.
pub open spec fn fetched(
    archive: Seq<(String, Vec<u8>)>,
    name: Seq<char>,
    target: Option<(usize, u64)>,
) -> Trace {
    match stored(archive, name) {
        None => Trace::failed(Error::TransportError),
        Some(bytes) => match target {
            None => file(bytes),
            Some((offset, number)) => file_from(bytes, offset as nat, number as nat),
        },
    }
}

/// The zeros of the files from the index `from` on, one file after the other,
/// with a poll of the port behind each file.
pub open spec fn files_from(
    files: Seq<DatFile>,
    archive: Seq<(String, Vec<u8>)>,
    from: int,
) -> Trace
    decreases files.len() - from,
{
    if from < 0 || from >= files.len() {
        Trace::done()
    } else {
        fetched(archive, files[from].file_name@, None).followed_by(
            files_from(files, archive, from + 1).paused(),
        )
    }
}

/// The index of the first file named `name` at or behind the index `from`,
/// and the count of the files where there is none.
pub open spec fn first_named(files: Seq<DatFile>, name: Seq<char>, from: int) -> int
    decreases files.len() - from,
{
    if from < 0 || from >= files.len() || files[from].file_name@ == name {
        from
    } else {
        first_named(files, name, from + 1)
    }
}

/// The zeros of an archive: those of all its files in their order, or, with a
/// first block, those of its file from that block on and of the files behind
/// it. A first block in a file that is not listed is an `IndexMiss`.
pub open spec fn repository(
    files: Seq<DatFile>,
    archive: Seq<(String, Vec<u8>)>,
    first: Option<Block>,
) -> Trace {
    match first {
        None => files_from(files, archive, 0),
        Some(block) => {
            let at = first_named(files, block.filename@, 0);
            if at >= files.len() {
                Trace::failed(Error::IndexMiss)
            } else {
                fetched(
                    archive,
                    files[at].file_name@,
                    Some((block.offset, block.block_number)),
                ).followed_by(files_from(files, archive, at + 1).paused())
            }
        },
    }
}

/// Looks a file up in an archive.
fn find<'a>(archive: &'a Vec<(String, Vec<u8>)>, name: &String) -> (data: Option<&'a Vec<u8>>)
    ensures
        match data {
            Some(bytes) => stored(archive@, name@) == Some(bytes@),
            None => stored(archive@, name@).is_none(),
        },
{
    let mut at: usize = 0;
    proof {
        assert(archive@.skip(0) =~= archive@);
    }
    while at < archive.len()
        invariant
            at <= archive.len(),
            stored(archive@, name@) == stored(archive@.skip(at as int), name@),
        decreases archive.len() - at,
    {
        if archive[at].0 == *name {
            return Some(&archive[at].1);
        }
        proof {
            assert(archive@.skip(at as int).skip(1) =~= archive@.skip(at + 1));
        }
        at = at + 1;
    }
    None
}

/// A run through the first of two traces, behind `sent`, is a run through
/// both: it has failed in the first, or it has left the port closed, or it
/// stands at the start of the second.
proof fn lemma_served_chain(
    total: Trace,
    first: Trace,
    rest: Trace,
    before: Seq<(u64, Zero)>,
    sent: Seq<(u64, Zero)>,
    after: Seq<(u64, Zero)>,
    closed: bool,
    closed_now: bool,
    result: Result<(), Error>,
)
    requires
        total.zeros == sent + first.followed_by(rest.paused()).zeros,
        total.error == first.followed_by(rest.paused()).error,
        sent.len() == 0 && first.followed_by(rest.paused()).early ==> total.early,
        served(first, before + sent, after, closed, result),
        closed ==> closed_now,
    ensures
        result is Err ==> served(total, before, after, closed_now, result),
        result is Ok && closed_now ==> served(total, before, after, closed_now, result),
        result is Ok && !closed_now ==> {
            &&& after == before + (sent + first.zeros)
            &&& total.zeros == (sent + first.zeros) + rest.zeros
            &&& total.error == rest.error
            &&& (sent + first.zeros).len() == 0 ==> total.early
        },
{
    reveal(served);
    let count = after.len() - (before + sent).len();
    let mine = first.zeros.take(count);
    assert((before + sent).len() == before.len() + sent.len());
    assert(after =~= before + (sent + mine));
    assert((sent + mine).len() == sent.len() + count);
    assert(total.zeros.take(sent.len() + count) =~= sent + mine);
    if count == first.zeros.len() {
        assert(mine =~= first.zeros);
        if first.error is None {
            assert(total.zeros =~= (sent + first.zeros) + rest.zeros);
        } else {
            assert(total.zeros.take(total.zeros.len() as int) =~= total.zeros);
        }
    }
}

/// Nothing is left to run through.
proof fn lemma_served_end(
    total: Trace,
    before: Seq<(u64, Zero)>,
    sent: Seq<(u64, Zero)>,
    closed: bool,
    result: Result<(), Error>,
)
    requires
        total.zeros == sent,
        match result {
            Ok(_) => total.error is None,
            Err(error) => total.error == Some(error),
        },
    ensures
        served(total, before, before + sent, closed, result),
{
    reveal(served);
    assert((before + sent).len() == before.len() + sent.len());
    assert(total.zeros.take(sent.len() as int) =~= sent);
}

/// The first file with a name is the first behind those with other names.
proof fn lemma_first_named(files: Seq<DatFile>, name: Seq<char>, from: int)
    requires
        0 <= from <= files.len(),
        from < files.len() ==> files[from].file_name@ == name,
    ensures
        first_named(files, name, from) == from,
{
}

/// A run that ended early with the port closed stays one when the port is
/// seen closed later.
proof fn lemma_served_weaken(
    trace: Trace,
    before: Seq<(u64, Zero)>,
    after: Seq<(u64, Zero)>,
    closed: bool,
    closed_now: bool,
    result: Result<(), Error>,
    same: Result<(), Error>,
)
    requires
        served(trace, before, after, closed, result),
        result is Ok && closed ==> closed_now,
        match result {
            Ok(_) => same is Ok,
            Err(error) => same == Err::<(), Error>(error),
        },
    ensures
        served(trace, before, after, closed_now, same),
{
    reveal(served);
}

/// The files of a stream that starts at the block `first`: the file of that
/// block and those behind it. Without a first block these are all files; with
/// a first block in a file that is not listed the index has missed.
pub fn from_first_file(files: Vec<DatFile>, first: Option<&Block>) -> (result: Result<
    Vec<DatFile>,
    Error,
>)
    ensures
        match first {
            None => result == Ok::<Vec<DatFile>, Error>(files),
            Some(block) => match result {
                Ok(waiting) => {
                    &&& 0 <= first_named(files@, block.filename@, 0) < files.len()
                    &&& waiting@ == files@.skip(first_named(files@, block.filename@, 0))
                    &&& waiting@.len() == files.len() - first_named(files@, block.filename@, 0)
                    &&& waiting@[0].file_name@ == block.filename@
                },
                Err(error) => {
                    &&& first_named(files@, block.filename@, 0) >= files.len()
                    &&& error == Error::IndexMiss
                },
            },
        },
{
    let block = match first {
        None => {
            return Ok(files);
        },
        Some(block) => block,
    };
    let ghost all = files@;
    let ghost mut passed: int = 0;
    let mut waiting = files;
    proof {
        assert(all.skip(0) =~= all);
    }
    while waiting.len() > 0 && waiting[0].file_name != block.filename
        invariant
            0 <= passed <= all.len(),
            waiting@ == all.skip(passed),
            first_named(all, block.filename@, 0) == first_named(all, block.filename@, passed),
        decreases waiting.len(),
    {
        waiting.remove(0);
        proof {
            assert(all.skip(passed).remove(0) =~= all.skip(passed + 1));
            passed = passed + 1;
        }
    }
    proof {
        lemma_first_named(all, block.filename@, passed);
    }
    if waiting.len() == 0 {
        return Err(Error::IndexMiss);
    }
    Ok(waiting)
}

/// The files behind the first `at` files have the same zeros ahead, counted
/// from their own start.
proof fn lemma_files_from_skip(
    files: Seq<DatFile>,
    archive: Seq<(String, Vec<u8>)>,
    at: int,
    from: int,
)
    requires
        0 <= at <= files.len(),
        0 <= from,
    ensures
        files_from(files.skip(at), archive, from) == files_from(files, archive, at + from),
    decreases files.len() - at - from,
{
    if at + from < files.len() {
        lemma_files_from_skip(files, archive, at, from + 1);
    }
}

/// The place of a block in its file.
pub open spec fn start_of(first: Option<Block>) -> Option<(usize, u64)> {
    match first {
        Some(block) => Some((block.offset, block.block_number)),
        None => None,
    }
}

/// The files of a stream that are still to be decoded, for one who fetches
/// them one by one: see [`FileQueue::next`].
pub struct FileQueue {
    waiting: Vec<DatFile>,
    first: Option<Block>,
    begun: bool,
}

impl FileQueue {
    /// A first block is a block of the first file, and waits for it.
    pub closed spec fn wf(self) -> bool {
        self.first matches Some(block) ==> !self.begun && self.waiting.len() > 0
            && self.waiting@[0].file_name@ == block.filename@
    }

    /// The files that are still to be decoded.
    pub closed spec fn waiting(self) -> Seq<DatFile> {
        self.waiting@
    }

    /// The block at which the next file is to start, if it is not to start at
    /// its first.
    pub closed spec fn first(self) -> Option<Block> {
        self.first
    }

    /// A file was handed out.
    pub closed spec fn begun(self) -> bool {
        self.begun
    }

    /// The queue of a stream through `files` that starts at `first_block`:
    /// see [`from_first_file`].
    pub fn new(files: Vec<DatFile>, first_block: Option<Block>) -> (result: Result<Self, Error>)
        ensures
            match result {
                Ok(queue) => {
                    &&& queue.wf()
                    &&& !queue.begun()
                    &&& queue.first() == first_block
                    &&& match first_block {
                        None => queue.waiting() == files@,
                        Some(block) => {
                            &&& 0 <= first_named(files@, block.filename@, 0) < files.len()
                            &&& queue.waiting() == files@.skip(
                                first_named(files@, block.filename@, 0),
                            )
                        },
                    }
                },
                Err(error) => {
                    &&& first_block matches Some(block) && first_named(files@, block.filename@, 0)
                        >= files.len()
                    &&& error == Error::IndexMiss
                },
            },
    {
        let waiting = match from_first_file(files, first_block.as_ref()) {
            Ok(waiting) => waiting,
            Err(error) => {
                return Err(error);
            },
        };
        Ok(FileQueue { waiting, first: first_block, begun: false })
    }

    /// The processor for the next file, and `None` where the stream is over:
    /// no file is left, or the port is closed. The port is polled before every
    /// file but the first. The first file starts at the first block, if there
    /// is one, and every other file at its own first block.
    pub fn next<S: ZeroStream>(&mut self, sink: &mut ZeroPort<'_, S>) -> (processor: Option<
        FileProcessor,
    >)
        requires
            old(self).wf(),
        ensures
            final(self).wf(),
            final(sink).pattern() == old(sink).pattern(),
            final(sink).offered() == old(sink).offered(),
            final(sink).consumer() == old(sink).consumer(),
            final(sink).follows(*old(sink)),
            final(sink).kept_open(*old(sink)),
        final(sink).kept_open(*old(sink)),
            *final(final(sink).out_stream) == *final(old(sink).out_stream),
            !old(self).begun() ==> final(sink).stopped() == old(sink).stopped(),
            old(sink).stopped() ==> final(sink).stopped() && final(sink).stopped_at() == old(
                sink,
            ).stopped_at(),
            old(self).begun() ==> final(sink).stopped() == final(sink).closed(),
            !old(sink).stopped() ==> final(sink).settled(),
            old(self).begun() && !old(sink).closed() ==> call_ensures(
                S::is_closed,
                (&old(sink).consumer(),),
                final(sink).stopped(),
            ),
            match processor {
                Some(next) => {
                    &&& old(self).waiting().len() > 0
                    &&& old(self).begun() ==> !final(sink).closed()
                    &&& next.file_name() == old(self).waiting()[0].file_name@
                    &&& next.state() == State::fresh(start_of(old(self).first()))
                    &&& final(self).waiting() == old(self).waiting().skip(1)
                    &&& final(self).first().is_none()
                    &&& final(self).begun()
                },
                None => {
                    &&& (old(self).begun() && final(sink).closed()) || old(self).waiting().len()
                        == 0
                    &&& final(self).waiting() == old(self).waiting()
                    &&& final(self).first() == old(self).first()
                    &&& final(self).begun() == old(self).begun()
                },
            },
    {
        proof {
            lemma_follows_self(*sink);
        }
        if self.begun && sink.poll() {
            return None;
        }
        if self.waiting.len() == 0 {
            return None;
        }
        let ghost queue = self.waiting@;
        let file = self.waiting.remove(0);
        proof {
            assert(self.waiting@ =~= queue.skip(1));
        }
        let mut processor = FileProcessor::new(file);
        let first = self.first.take();
        match &first {
            Some(block) => {
                processor.start_at(block);
            },
            None => {},
        }
        self.begun = true;
        Some(processor)
    }
}

/// What is ahead of the files `waiting`, the first of which is decoded from
/// the block `first` on where one is given.
pub open spec fn waiting_ahead(
    waiting: Seq<DatFile>,
    archive: Seq<(String, Vec<u8>)>,
    first: Option<Block>,
) -> Trace {
    if waiting.len() == 0 {
        Trace::done()
    } else {
        fetched(archive, waiting[0].file_name@, start_of(first)).followed_by(
            files_from(waiting, archive, 1).paused(),
        )
    }
}

/// The zeros of an archive are those ahead of its queue.
proof fn lemma_waiting_ahead(
    files: Seq<DatFile>,
    archive: Seq<(String, Vec<u8>)>,
    first_block: Option<Block>,
    waiting: Seq<DatFile>,
)
    requires
        match first_block {
            None => waiting == files,
            Some(block) => {
                &&& 0 <= first_named(files, block.filename@, 0) < files.len()
                &&& waiting == files.skip(first_named(files, block.filename@, 0))
            },
        },
    ensures
        repository(files, archive, first_block) == waiting_ahead(waiting, archive, first_block),
{
    match first_block {
        Some(block) => {
            lemma_files_from_skip(files, archive, first_named(files, block.filename@, 0), 1);
        },
        None => {},
    }
}

/// Behind the first file of a queue, what is ahead is what is ahead of the
/// other files.
proof fn lemma_waiting_next(waiting: Seq<DatFile>, archive: Seq<(String, Vec<u8>)>)
    requires
        waiting.len() > 0,
    ensures
        files_from(waiting, archive, 1) == waiting_ahead(waiting.skip(1), archive, None),
{
    lemma_files_from_skip(waiting, archive, 1, 0);
    lemma_files_from_skip(waiting, archive, 1, 1);
}

/// A run may end behind a poll that found the port closed.
proof fn lemma_served_pause(
    total: Trace,
    before: Seq<(u64, Zero)>,
    sent: Seq<(u64, Zero)>,
    rest: Trace,
)
    requires
        total.zeros == sent + rest.zeros,
        sent.len() >= 1 || total.early,
    ensures
        served(total, before, before + sent, true, Ok(())),
{
    reveal(served);
    assert((before + sent).len() == before.len() + sent.len());
    assert(total.zeros.take(sent.len() as int) =~= sent);
}

/// Fetches the file of a processor from the archive and streams its zeros to
/// `sink`.
fn decode_file<S: ZeroStream>(
    processor: FileProcessor,
    archive: &Vec<(String, Vec<u8>)>,
    sink: &mut ZeroPort<'_, S>,
    Ghost(target): Ghost<Option<(usize, u64)>>,
) -> (result: Result<(), Error>)
    requires
        processor.state() == State::fresh(target),
    ensures
        final(sink).pattern() == old(sink).pattern(),
        served(
            fetched(archive@, processor.file_name(), target),
            old(sink).offered(),
            final(sink).offered(),
            final(sink).closed(),
            result,
        ),
        !old(sink).stopped() ==> final(sink).settled(),
        final(sink).follows(*old(sink)),
        final(sink).kept_open(*old(sink)),
        *final(final(sink).out_stream) == *final(old(sink).out_stream),
{
    proof {
        lemma_follows_self(*sink);
        lemma_rest_at_start(target, Seq::empty(), 0);
    }
    match find(archive, processor.name()) {
        Some(data) => {
            proof {
                lemma_rest_at_start(target, data@, 0);
            }
            processor.process(data.as_slice(), sink)
        },
        None => {
            proof {
                lemma_served_end(
                    Trace::failed(Error::TransportError),
                    sink.offered(),
                    Seq::empty(),
                    sink.closed(),
                    Err(Error::TransportError),
                );
                assert(sink.offered() + Seq::<(u64, Zero)>::empty() =~= sink.offered());
            }
            Err(Error::TransportError)
        },
    }
}

/// Streams the zeros of the files `files`, in their order, to `sink`, and
/// takes the bytes of each file from `archive`.
///
/// With a first block, the files before its file are left out, and its file is
/// decoded from that block on. The files come from a [`FileQueue`]: before
/// every file but the first the port is polled, and no further file is
/// fetched once it is closed. The trace of the archive has these polls in
/// it, see [`files_from`].
pub fn process_files<S: ZeroStream>(
    files: Vec<DatFile>,
    archive: &Vec<(String, Vec<u8>)>,
    sink: &mut ZeroPort<'_, S>,
    first_block: Option<Block>,
) -> (result: Result<(), Error>)
    ensures
        final(sink).pattern() == old(sink).pattern(),
        served(
            repository(files@, archive@, first_block),
            old(sink).offered(),
            final(sink).offered(),
            final(sink).closed(),
            result,
        ),
        !old(sink).stopped() ==> final(sink).settled(),
        final(sink).follows(*old(sink)),
        final(sink).kept_open(*old(sink)),
        *final(final(sink).out_stream) == *final(old(sink).out_stream),
{
    let ghost total = repository(files@, archive@, first_block);
    let ghost before = sink.offered();
    let ghost mut sent = Seq::<(u64, Zero)>::empty();
    proof {
        lemma_follows_self(*sink);
        assert(before + sent =~= before);
        assert(sent + total.zeros =~= total.zeros);
    }
    let mut queue = match FileQueue::new(files, first_block) {
        Ok(queue) => queue,
        Err(error) => {
            proof {
                lemma_served_end(total, before, sent, sink.closed(), Err(error));
            }
            return Err(error);
        },
    };
    proof {
        lemma_waiting_ahead(files@, archive@, first_block, queue.waiting());
    }
    loop
        invariant
            queue.wf(),
            before == old(sink).offered(),
            total == repository(files@, archive@, first_block),
            sink.pattern() == old(sink).pattern(),
            sink.follows(*old(sink)),
            sink.kept_open(*old(sink)),
            *final(sink.out_stream) == *final(old(sink).out_stream),
            !old(sink).stopped() ==> sink.settled(),
            !old(sink).stopped() && !queue.begun() ==> !sink.stopped(),
            (queue.begun() && sink.closed() && served(
                total,
                before,
                sink.offered(),
                true,
                Ok(()),
            )) || {
                &&& sink.offered() == before + sent
                &&& total.zeros == sent + waiting_ahead(
                    queue.waiting(),
                    archive@,
                    queue.first(),
                ).zeros
                &&& total.error == waiting_ahead(queue.waiting(), archive@, queue.first()).error
                &&& sent.len() == 0 && (queue.begun() || waiting_ahead(
                    queue.waiting(),
                    archive@,
                    queue.first(),
                ).early) ==> total.early
            },
        decreases queue.waiting().len(),
    {
        let ghost head = *sink;
        let ghost waiting = queue.waiting();
        let ghost first = queue.first();
        let ghost begun = queue.begun();
        let ghost ahead = waiting_ahead(waiting, archive@, first);
        let ghost halted = begun && head.closed() && served(
            total,
            before,
            head.offered(),
            true,
            Ok(()),
        );
        match queue.next(sink) {
            None => {
                proof {
                    lemma_follows_on(*old(sink), head, *sink);
                    if !halted {
                        if waiting.len() == 0 {
                            assert(sent + Seq::<(u64, Zero)>::empty() =~= sent);
                            lemma_served_end(total, before, sent, sink.closed(), Ok(()));
                        } else {
                            lemma_served_pause(total, before, sent, ahead);
                        }
                    }
                }
                return Ok(());
            },
            Some(processor) => {
                let ghost mid = *sink;
                let ghost name = processor.file_name();
                let ghost mine = fetched(archive@, name, start_of(first));
                let ghost rest = waiting_ahead(waiting.skip(1), archive@, None);
                proof {
                    lemma_follows_on(*old(sink), head, *sink);
                    lemma_waiting_next(waiting, archive@);
                }
                let outcome = decode_file(processor, archive, sink, Ghost(start_of(first)));
                proof {
                    lemma_follows_on(*old(sink), mid, *sink);
                    lemma_served_chain(
                        total,
                        mine,
                        rest,
                        before,
                        sent,
                        sink.offered(),
                        sink.closed(),
                        sink.closed(),
                        outcome,
                    );
                    if outcome is Ok && sink.closed() {
                        lemma_served_weaken(
                            total,
                            before,
                            sink.offered(),
                            sink.closed(),
                            true,
                            outcome,
                            Ok(()),
                        );
                    }
                    sent = sent + mine.zeros;
                }
                match outcome {
                    Err(error) => {
                        return Err(error);
                    },
                    Ok(_) => {},
                }
            },
        }
    }
}

/// The first block of a stream: the answer of the index, where the pattern
/// puts a question to it.
pub open spec fn first_of(pattern: SeekPattern, answer: Option<Block>) -> Option<Block> {
    if pattern.query().is_some() {
        answer
    } else {
        None
    }
}

/// What the streaming of an archive through a port has done, for the text
/// `manifest` of its manifest and the answer `answer` of its index.
///
/// A malformed manifest and a question without an answer are the first two
/// errors, in this order, and nothing is offered with either. Else the files
/// are those that the manifest lists, in the order of their numbers, and the
/// port was served the zeros of the archive that they make up.
pub open spec fn streamed(
    pattern: SeekPattern,
    manifest: Seq<char>,
    answer: Option<Block>,
    archive: Seq<(String, Vec<u8>)>,
    before: Seq<(u64, Zero)>,
    after: Seq<(u64, Zero)>,
    closed: bool,
    result: Result<(), Error>,
) -> bool {
    if !manifest_ok(manifest) {
        result == Err::<(), Error>(Error::ManifestMalformed) && after == before
    } else if pattern.query().is_some() && answer.is_none() {
        result == Err::<(), Error>(Error::IndexMiss) && after == before
    } else {
        exists|files: Seq<DatFile>|
            {
                &&& listings(files) == by_order(listings_of(lines(manifest, 0)))
                &&& served(
                    #[trigger] repository(files, archive, first_of(pattern, answer)),
                    before,
                    after,
                    closed,
                    result,
                )
            }
    }
}

/// Streams the zeros of an archive through the port `port`: reads the
/// manifest `manifest`, takes the answer `answer` of the index to the
/// question of the pattern for the first block, and decodes the files.
pub fn stream_files<S: ZeroStream>(
    port: &mut ZeroPort<'_, S>,
    manifest: &str,
    answer: Option<Block>,
    archive: &Vec<(String, Vec<u8>)>,
) -> (result: Result<(), Error>)
    ensures
        final(port).pattern() == old(port).pattern(),
        streamed(
            old(port).pattern(),
            manifest@,
            answer,
            archive@,
            old(port).offered(),
            final(port).offered(),
            final(port).closed(),
            result,
        ),
        !old(port).stopped() ==> final(port).settled(),
        final(port).follows(*old(port)),
        final(port).kept_open(*old(port)),
        *final(final(port).out_stream) == *final(old(port).out_stream),
{
    proof {
        lemma_follows_self(*port);
    }
    let pattern = port.seek_pattern();
    let files = match read_repository(manifest) {
        Ok(files) => files,
        Err(error) => {
            return Err(error);
        },
    };
    let first = match first_block_found(first_block(&pattern), answer) {
        Ok(first) => first,
        Err(error) => {
            return Err(error);
        },
    };
    let ghost listed = files@;
    let result = process_files(files, archive, port, first);
    proof {
        assert(served(
            repository(listed, archive@, first),
            old(port).offered(),
            port.offered(),
            port.closed(),
            result,
        ));
    }
    result
}

/// Streams the zeros that `pattern` asks for to `sink`, from an archive that
/// is at hand as a whole: the text of its manifest, the answer of its index to
/// the question of the pattern (see [`first_block`]), and its files.
///
/// The zeros go through a port of their own, see [`streamed`]: `offered` is
/// what the decoder offers to it, and the consumer receives, behind what it
/// had, what the pattern lets through of that. Behind each zero but the last
/// the stream was not over, and it ends before the archive does only where
/// it is over: where the amount is reached, or the consumer answers that it
/// is closed.
pub fn zero_stream<S: ZeroStream>(
    sink: &mut S,
    pattern: SeekPattern,
    manifest: &str,
    answer: Option<Block>,
    archive: &Vec<(String, Vec<u8>)>,
) -> (result: Result<(), Error>)
    ensures
        exists|offered: Seq<(u64, Zero)>, closed: bool|
            {
                &&& #[trigger] streamed(
                    pattern,
                    manifest@,
                    answer,
                    archive@,
                    Seq::empty(),
                    offered,
                    closed,
                    result,
                )
                &&& final(sink).received() == old(sink).received() + pattern.forwarded(offered)
                &&& forall|count: int|
                    0 < count < offered.len() ==> open_behind::<S>(
                        pattern,
                        old(sink).received(),
                        #[trigger] offered.take(count),
                    )
                &&& closed ==> over_behind::<S>(pattern, old(sink).received(), offered)
            },
{
    let mut port = ZeroPort::new(sink, pattern);
    let ghost fresh = port;
    let result = stream_files(&mut port, manifest, answer, archive);
    proof {
        let offered = port.offered();
        assert(offered.take(offered.len() as int) =~= offered);
        assert forall|count: int| 0 < count < offered.len() implies open_behind::<S>(
            pattern,
            old(sink).received(),
            #[trigger] offered.take(count),
        ) by {
            assert(port.open_after(count));
        }
        assert(streamed(
            pattern,
            manifest@,
            answer,
            archive@,
            Seq::empty(),
            offered,
            port.closed(),
            result,
        ));
    }
    result
}

} // verus!
