use crate::dat::{
    blocks, delta, entries, entry_at, file, file_from, header_at, lemma_rest_at_start, Cursor,
    State,
};
use crate::port::SeekPattern;
use crate::repository::DatFile;
use crate::seeker::le;
use crate::stream::{fetched, files_from};
use crate::zero::Zero;
use vstd::arithmetic::power2::{lemma_pow2_pos, pow2};
use vstd::prelude::*;

verus! {

/// The sum of the steps of the first `count` entries from the index `at` on.
pub open spec fn delta_sum(bytes: Seq<u8>, at: int, count: nat) -> nat
    decreases count,
{
    if count == 0 {
        0
    } else {
        delta_sum(bytes, at, (count - 1) as nat) + delta(entry_at(bytes, at + 13 * (count - 1)))
    }
}

/// The numbers of the zeros grow from each zero to the next.
pub open spec fn increasing(zeros: Seq<(u64, Zero)>) -> bool {
    forall|i: int, j: int| 0 <= i < j < zeros.len() ==> zeros[i].0 < zeros[j].0
}

/// The index behind `count` blocks, the first of which starts at the index
/// `at`.
pub open spec fn block_start(bytes: Seq<u8>, at: int, count: nat) -> int
    decreases count,
{
    if count == 0 {
        at
    } else {
        block_start(bytes, header_at(bytes, at).end(at), (count - 1) as nat)
    }
}

/// How many zeros the headers of `left` blocks announce, the first of which
/// starts at the index `at`.
pub open spec fn announced(bytes: Seq<u8>, at: int, left: nat) -> nat
    decreases left,
{
    if left == 0 {
        0
    } else {
        header_at(bytes, at).zeros() + announced(
            bytes,
            header_at(bytes, at).end(at),
            (left - 1) as nat,
        )
    }
}

/// Of `left` blocks, the first of which starts at the index `at`, none starts
/// with a zero number below that at which the block before it ends.
pub open spec fn chained(bytes: Seq<u8>, at: int, left: nat) -> bool
    decreases left,
{
    left <= 1 || {
        &&& header_at(bytes, at).n_t1 <= header_at(bytes, header_at(bytes, at).end(at)).n_t0
        &&& chained(bytes, header_at(bytes, at).end(at), (left - 1) as nat)
    }
}

/// The steps of one entry and of those behind it add up as those of all.
proof fn lemma_delta_sum_front(bytes: Seq<u8>, at: int, count: nat)
    ensures
        delta(entry_at(bytes, at)) + delta_sum(bytes, at + 13, count) == delta_sum(
            bytes,
            at,
            count + 1,
        ),
    decreases count,
{
    if count > 0 {
        lemma_delta_sum_front(bytes, at, (count - 1) as nat);
        assert(at + 13 + 13 * (count - 1) == at + 13 * count);
        assert(delta_sum(bytes, at + 13, count) == delta_sum(bytes, at + 13, (count - 1) as nat)
            + delta(entry_at(bytes, at + 13 + 13 * (count - 1))));
        assert(delta_sum(bytes, at, count + 1) == delta_sum(bytes, at, count) + delta(
            entry_at(bytes, at + 13 * count),
        ));
    } else {
        assert(delta_sum(bytes, at, 1) == delta_sum(bytes, at, 0) + delta(
            entry_at(bytes, at + 13 * 0),
        ));
    }
}

/// The zeros of a block in closed form: the zero of the entry `i` has the
/// number of the first zero plus `i`, and lies above the base by the sum of
/// the steps up to its own. Entries that a trace has zeros for are all there,
/// and their steps add up within 128 bits.
pub proof fn lemma_entries_closed_form(bytes: Seq<u8>, at: int, cursor: Cursor, i: int)
    requires
        cursor.wf(),
        0 <= i < entries(bytes, at, cursor).zeros.len(),
    ensures
        i < cursor.left,
        at + 13 * (i + 1) <= bytes.len(),
        cursor.sum + delta_sum(bytes, at, (i + 1) as nat) <= u128::MAX,
        entries(bytes, at, cursor).zeros[i] == (
            (cursor.number + i) as u64,
            Zero {
                base: cursor.base,
                offset: (cursor.sum + delta_sum(bytes, at, (i + 1) as nat)) as u128,
                precision: cursor.precision,
            },
        ),
    decreases i,
{
    let entry = entry_at(bytes, at);
    let behind = entries(bytes, at + 13, cursor.after(entry));
    assert(entries(bytes, at, cursor).zeros =~= seq![cursor.zero(entry)] + behind.zeros);
    if i == 0 {
        assert(delta_sum(bytes, at, 1) == delta_sum(bytes, at, 0) + delta(entry));
    } else {
        lemma_entries_closed_form(bytes, at + 13, cursor.after(entry), i - 1);
        lemma_delta_sum_front(bytes, at, i as nat);
    }
}

/// A block that decodes to its end yields as many zeros as its header
/// announces.
pub proof fn lemma_entries_count(bytes: Seq<u8>, at: int, cursor: Cursor)
    ensures
        entries(bytes, at, cursor).zeros.len() <= cursor.left,
        entries(bytes, at, cursor).error is None ==> entries(bytes, at, cursor).zeros.len()
            == cursor.left,
    decreases cursor.left,
{
    if cursor.left > 0 && at + 13 <= bytes.len() && !cursor.overflows(entry_at(bytes, at)) {
        lemma_entries_count(bytes, at + 13, cursor.after(entry_at(bytes, at)));
    }
}

/// A file that decodes without an error yields exactly the zeros that the
/// headers of its blocks announce: the sum of `n_t1 - n_t0` over the blocks.
pub proof fn lemma_blocks_count(bytes: Seq<u8>, at: int, left: nat)
    requires
        blocks(bytes, at, left).error is None,
    ensures
        blocks(bytes, at, left).zeros.len() == announced(bytes, at, left),
    decreases left,
{
    if left > 0 {
        let header = header_at(bytes, at);
        lemma_entries_count(bytes, at + 32, header.cursor());
        lemma_blocks_count(bytes, header.end(at), (left - 1) as nat);
    }
}

/// [`lemma_blocks_count`] for a whole file.
pub proof fn lemma_file_count(bytes: Seq<u8>)
    requires
        file(bytes).error is None,
    ensures
        file(bytes).zeros.len() == announced(bytes, 8, le(bytes, 0, 8)),
{
    lemma_blocks_count(bytes, 8, le(bytes, 0, 8));
}

/// A block without zeros yields nothing: decoding goes on with the block
/// behind it, once the port is polled.
pub proof fn lemma_empty_block(bytes: Seq<u8>, at: int, left: nat)
    requires
        left > 0,
        at + 32 <= bytes.len(),
        header_at(bytes, at).valid(),
        header_at(bytes, at).n_t0 == header_at(bytes, at).n_t1,
    ensures
        blocks(bytes, at, left) == blocks(bytes, at + 32, (left - 1) as nat).paused(),
{
    let behind = blocks(bytes, at + 32, (left - 1) as nat);
    assert(Seq::<(u64, Zero)>::empty() + behind.zeros =~= behind.zeros);
}

/// To start at the first block, which is at the index 8, is to decode the
/// whole file.
pub proof fn lemma_from_first_block(bytes: Seq<u8>)
    ensures
        file_from(bytes, 8, 0) == file(bytes),
{
}

/// The blocks of a file are its first `count` blocks and then the others.
pub proof fn lemma_blocks_split(bytes: Seq<u8>, at: int, count: nat, left: nat)
    requires
        count <= left,
        blocks(bytes, at, count).error is None,
    ensures
        blocks(bytes, at, left) == blocks(bytes, at, count).followed_by(
            blocks(bytes, block_start(bytes, at, count), (left - count) as nat),
        ),
        count > 0 ==> block_start(bytes, at, count) <= bytes.len(),
        at <= block_start(bytes, at, count),
    decreases count,
{
    let others = blocks(bytes, block_start(bytes, at, count), (left - count) as nat);
    if count == 0 {
        assert(Seq::<(u64, Zero)>::empty() + others.zeros =~= others.zeros);
    } else {
        let header = header_at(bytes, at);
        let body = entries(bytes, at + 32, header.cursor());
        let next = header.end(at);
        lemma_blocks_split(bytes, next, (count - 1) as nat, (left - 1) as nat);
        let inner = blocks(bytes, next, (count - 1) as nat);
        assert((body.zeros + inner.zeros) + others.zeros =~= body.zeros + (inner.zeros
            + others.zeros));
        lemma_entries_count(bytes, at + 32, header.cursor());
        if header.zeros() > 0 {
            lemma_entries_closed_form(bytes, at + 32, header.cursor(), header.zeros() - 1);
        }
    }
}

/// Decoding a file from the block with the number `count` on yields what
/// decoding the whole file yields behind the zeros of the first `count`
/// blocks, where those decode without an error and `offset` is the index at
/// which that block starts.
pub proof fn lemma_seek_is_suffix(bytes: Seq<u8>, offset: nat, count: nat)
    requires
        bytes.len() >= 8,
        count <= le(bytes, 0, 8),
        blocks(bytes, 8, count).error is None,
        offset == block_start(bytes, 8, count),
    ensures
        file(bytes).zeros == blocks(bytes, 8, count).zeros + file_from(bytes, offset, count).zeros,
        file(bytes).error == file_from(bytes, offset, count).error,
{
    lemma_blocks_split(bytes, 8, count, le(bytes, 0, 8));
}

/// Within a block the numbers of the zeros grow by one from each zero to the
/// next, from the number of the first zero on.
pub proof fn lemma_entries_increasing(bytes: Seq<u8>, at: int, cursor: Cursor)
    requires
        cursor.wf(),
    ensures
        increasing(entries(bytes, at, cursor).zeros),
        forall|i: int|
            0 <= i < entries(bytes, at, cursor).zeros.len() ==> (#[trigger] entries(
                bytes,
                at,
                cursor,
            ).zeros[i]).0 == cursor.number + i,
{
    let zeros = entries(bytes, at, cursor).zeros;
    assert forall|i: int| 0 <= i < zeros.len() implies (#[trigger] zeros[i]).0 == cursor.number
        + i by {
        lemma_entries_closed_form(bytes, at, cursor, i);
    }
}

/// Where no block starts below the end of the block before it, the numbers of
/// the zeros of a file grow from each zero to the next, and none is below the
/// number at which the first block starts.
pub proof fn lemma_blocks_increasing(bytes: Seq<u8>, at: int, left: nat)
    requires
        chained(bytes, at, left),
    ensures
        increasing(blocks(bytes, at, left).zeros),
        forall|i: int|
            0 <= i < blocks(bytes, at, left).zeros.len() ==> (#[trigger] blocks(
                bytes,
                at,
                left,
            ).zeros[i]).0 >= header_at(bytes, at).n_t0,
    decreases left,
{
    if left > 0 && at + 32 <= bytes.len() && header_at(bytes, at).valid() {
        let header = header_at(bytes, at);
        let body = entries(bytes, at + 32, header.cursor());
        let behind = blocks(bytes, header.end(at), (left - 1) as nat);
        lemma_entries_increasing(bytes, at + 32, header.cursor());
        lemma_entries_count(bytes, at + 32, header.cursor());
        if body.error is None {
            lemma_blocks_increasing(bytes, header.end(at), (left - 1) as nat);
            let zeros = blocks(bytes, at, left).zeros;
            assert(zeros =~= body.zeros + behind.zeros);
            assert forall|i: int| 0 <= i < zeros.len() implies (#[trigger] zeros[i]).0
                >= header.n_t0 by {
                if i >= body.zeros.len() {
                    assert(zeros[i] == behind.zeros[i - body.zeros.len()]);
                }
            }
            assert forall|i: int, j: int| 0 <= i < j < zeros.len() implies zeros[i].0
                < zeros[j].0 by {
                if j < body.zeros.len() {
                } else if i < body.zeros.len() {
                    assert(zeros[j] == behind.zeros[j - body.zeros.len()]);
                } else {
                    assert(zeros[i] == behind.zeros[i - body.zeros.len()]);
                    assert(zeros[j] == behind.zeros[j - body.zeros.len()]);
                }
            }
        }
    }
}

/// No zero lies below the base of its block, and a zero lies below the upper
/// bound `t1` raised by one step of `2^-101` exactly if its steps add up to
/// less than the width of the block and one step.
pub proof fn lemma_zero_in_block(bytes: Seq<u8>, at: int, i: int)
    requires
        header_at(bytes, at).valid(),
        0 <= i < entries(bytes, at + 32, header_at(bytes, at).cursor()).zeros.len(),
    ensures
        ({
            let header = header_at(bytes, at);
            let zero = entries(bytes, at + 32, header.cursor()).zeros[i].1;
            let steps = delta_sum(bytes, at + 32, (i + 1) as nat);
            &&& zero.base == header.t0
            &&& zero.precision == header.precision()
            &&& zero.scaled() == header.t0.scaled() + steps * pow2(973)
            &&& header.t0.scaled() <= zero.scaled()
            &&& zero.scaled() < header.t1.scaled() + pow2(973) <==> steps * pow2(973)
                < header.t1.scaled() - header.t0.scaled() + pow2(973)
        }),
{
    let header = header_at(bytes, at);
    lemma_entries_closed_form(bytes, at + 32, header.cursor(), i);
    lemma_pow2_pos(973);
    let steps = delta_sum(bytes, at + 32, (i + 1) as nat);
    assert(steps * pow2(973) >= 0) by (nonlinear_arith)
        requires
            steps >= 0,
            pow2(973) > 0,
    ;
    crate::dat::lemma_precision_fits(header);
}

/// More entries never add up to less.
pub proof fn lemma_delta_sum_grows(bytes: Seq<u8>, at: int, fewer: nat, more: nat)
    requires
        fewer <= more,
    ensures
        delta_sum(bytes, at, fewer) <= delta_sum(bytes, at, more),
    decreases more,
{
    if fewer < more {
        lemma_delta_sum_grows(bytes, at, fewer, (more - 1) as nat);
    }
}

/// Within a block the values of the zeros do not decrease from one zero to
/// the next.
pub proof fn lemma_values_do_not_decrease(bytes: Seq<u8>, at: int, cursor: Cursor, i: int, j: int)
    requires
        cursor.wf(),
        0 <= i <= j < entries(bytes, at, cursor).zeros.len(),
    ensures
        entries(bytes, at, cursor).zeros[i].1.scaled() <= entries(
            bytes,
            at,
            cursor,
        ).zeros[j].1.scaled(),
{
    lemma_entries_closed_form(bytes, at, cursor, i);
    lemma_entries_closed_form(bytes, at, cursor, j);
    lemma_delta_sum_grows(bytes, at, (i + 1) as nat, (j + 1) as nat);
    lemma_pow2_pos(973);
    let lower = cursor.sum + delta_sum(bytes, at, (i + 1) as nat);
    let upper = cursor.sum + delta_sum(bytes, at, (j + 1) as nat);
    assert(lower * pow2(973) <= upper * pow2(973)) by (nonlinear_arith)
        requires
            lower <= upper,
            pow2(973) > 0,
    ;
}

/// Zeros with growing numbers, and more of them behind, all with greater
/// numbers, have growing numbers together.
pub proof fn lemma_increasing_joined(first: Seq<(u64, Zero)>, second: Seq<(u64, Zero)>)
    requires
        increasing(first),
        increasing(second),
        first.len() > 0 && second.len() > 0 ==> first.last().0 < second[0].0,
    ensures
        increasing(first + second),
{
    let all = first + second;
    assert forall|i: int, j: int| 0 <= i < j < all.len() implies all[i].0 < all[j].0 by {
        if j < first.len() {
        } else if i >= first.len() {
            assert(second[i - first.len()].0 < second[j - first.len()].0);
        } else {
            assert(first[i].0 <= first.last().0);
            assert(second[0].0 <= second[j - first.len()].0);
        }
    }
}

/// The first of zeros with growing numbers have growing numbers.
pub proof fn lemma_increasing_prefix(zeros: Seq<(u64, Zero)>, count: int)
    requires
        increasing(zeros),
        0 <= count <= zeros.len(),
    ensures
        increasing(zeros.take(count)),
{
}

/// Of the files from the index `from` on, each has zeros with growing
/// numbers, and ends below the number at which the zeros behind it start.
pub open spec fn files_rise(files: Seq<DatFile>, archive: Seq<(String, Vec<u8>)>, from: int) -> bool
    decreases files.len() - from,
{
    from < 0 || from >= files.len() || {
        let mine = fetched(archive, files[from].file_name@, None).zeros;
        let behind = files_from(files, archive, from + 1).zeros;
        &&& increasing(mine)
        &&& mine.len() > 0 && behind.len() > 0 ==> mine.last().0 < behind[0].0
        &&& files_rise(files, archive, from + 1)
    }
}

/// Where the files rise, the numbers of the zeros of the archive grow from
/// each zero to the next.
pub proof fn lemma_files_increasing(
    files: Seq<DatFile>,
    archive: Seq<(String, Vec<u8>)>,
    from: int,
)
    requires
        files_rise(files, archive, from),
    ensures
        increasing(files_from(files, archive, from).zeros),
    decreases files.len() - from,
{
    if 0 <= from < files.len() {
        lemma_files_increasing(files, archive, from + 1);
        let mine = fetched(archive, files[from].file_name@, None);
        let behind = files_from(files, archive, from + 1);
        if mine.error is None {
            lemma_increasing_joined(mine.zeros, behind.zeros);
        }
    }
}

/// To decode a file from the block with the number `number` on, which starts
/// at the index `offset`, yields the zeros that decoding the whole file yields
/// behind those of the blocks before it, where those blocks decode without an
/// error: what [`FileProcessor::process_with_first`] runs through is the end
/// of what [`FileProcessor::process`] runs through.
pub proof fn lemma_process_with_first_is_suffix(bytes: Seq<u8>, offset: usize, number: u64)
    requires
        bytes.len() >= 8,
        number <= le(bytes, 0, 8),
        blocks(bytes, 8, number as nat).error is None,
        offset == block_start(bytes, 8, number as nat),
    ensures
        State::fresh(None).rest(bytes, 0).zeros == blocks(bytes, 8, number as nat).zeros
            + State::fresh(None).aimed(offset, number).rest(bytes, 0).zeros,
        State::fresh(None).rest(bytes, 0).error == State::fresh(None).aimed(offset, number).rest(
            bytes,
            0,
        ).error,
{
    lemma_seek_is_suffix(bytes, offset as nat, number as nat);
    lemma_rest_at_start(None, bytes, 0);
    lemma_rest_at_start(Some((offset, number)), bytes, 0);
    assert(State::fresh(None).aimed(offset, number) == State::fresh(Some((offset, number))));
}

/// Whatever a port forwards was offered to it.
pub proof fn lemma_forwarded_was_offered(pattern: SeekPattern, offered: Seq<(u64, Zero)>, i: int)
    requires
        0 <= i < pattern.forwarded(offered).len(),
    ensures
        offered.contains(pattern.forwarded(offered)[i]),
        pattern.accepts(pattern.forwarded(offered)[i].0, pattern.forwarded(offered)[i].1),
    decreases offered.len(),
{
    let before = pattern.forwarded(offered.drop_last());
    if i < before.len() {
        lemma_forwarded_was_offered(pattern, offered.drop_last(), i);
        let found = choose|k: int|
            0 <= k < offered.drop_last().len() && offered.drop_last()[k] == before[i];
        assert(offered[found] == before[i]);
    } else {
        assert(offered[offered.len() - 1] == pattern.forwarded(offered)[i]);
    }
}

/// A port forwards no more zeros than its pattern asks for, and only zeros
/// that its pattern accepts: with a start, no zero before the start.
pub proof fn lemma_forwarded_bounded(pattern: SeekPattern, offered: Seq<(u64, Zero)>)
    ensures
        pattern.forwarded(offered).len() <= offered.len(),
        pattern.amount() matches Some(amount) ==> pattern.forwarded(offered).len() <= amount,
        forall|i: int|
            0 <= i < pattern.forwarded(offered).len() ==> pattern.accepts(
                (#[trigger] pattern.forwarded(offered)[i]).0,
                pattern.forwarded(offered)[i].1,
            ),
    decreases offered.len(),
{
    if offered.len() > 0 {
        lemma_forwarded_bounded(pattern, offered.drop_last());
    }
    assert forall|i: int| 0 <= i < pattern.forwarded(offered).len() implies pattern.accepts(
        (#[trigger] pattern.forwarded(offered)[i]).0,
        pattern.forwarded(offered)[i].1,
    ) by {
        lemma_forwarded_was_offered(pattern, offered, i);
    }
}

/// Once the amount is reached, a further offer changes nothing.
pub proof fn lemma_forwarded_past_amount(
    pattern: SeekPattern,
    offered: Seq<(u64, Zero)>,
    zero: (u64, Zero),
)
    requires
        pattern.reached(pattern.forwarded(offered).len()),
    ensures
        pattern.forwarded(offered.push(zero)) == pattern.forwarded(offered),
{
    assert(offered.push(zero).drop_last() =~= offered);
}

/// What a port forwards of zeros with growing numbers has growing numbers.
pub proof fn lemma_forwarded_increasing(pattern: SeekPattern, offered: Seq<(u64, Zero)>)
    requires
        increasing(offered),
    ensures
        increasing(pattern.forwarded(offered)),
    decreases offered.len(),
{
    if offered.len() > 0 {
        let shorter = offered.drop_last();
        lemma_forwarded_increasing(pattern, shorter);
        let before = pattern.forwarded(shorter);
        let all = pattern.forwarded(offered);
        assert forall|i: int, j: int| 0 <= i < j < all.len() implies all[i].0 < all[j].0 by {
            if j == before.len() {
                lemma_forwarded_was_offered(pattern, shorter, i);
                let found = choose|k: int| 0 <= k < shorter.len() && shorter[k] == before[i];
                assert(offered[found].0 < offered[offered.len() - 1].0);
            }
        }
    }
}

/// A port for all zeros forwards whatever it is offered.
pub proof fn lemma_forwarded_all(offered: Seq<(u64, Zero)>)
    ensures
        SeekPattern::All.forwarded(offered) == offered,
    decreases offered.len(),
{
    if offered.len() > 0 {
        lemma_forwarded_all(offered.drop_last());
        assert(offered.drop_last().push(offered.last()) =~= offered);
    }
}

} // verus!
