use crate::binary64::Binary64;
use crate::error::Error;
use crate::port::SeekPattern;
use vstd::prelude::*;

verus! {

/// Where a block of zeros starts, as the index of the archive tells it.
#[derive(Debug)]
pub struct Block {
    /// The position of the first byte of the block's header in its data file.
    pub offset: usize,
    /// The name of the data file that holds the block.
    pub filename: String,
    /// How many blocks the data file holds before this one.
    pub block_number: u64,
}

/// A question to the index: for the last block that starts at or before a
/// given place.
#[derive(Clone, Copy, Debug, PartialEq, Eq, Structural)]
pub enum IndexQuery {
    /// The block with the greatest lower bound that is at most the given
    /// imaginary part.
    ImaginaryPart(Binary64),
    /// The block with the greatest count of zeros before it that is at most
    /// the given zero number.
    ZeroNumber(u64),
}

impl SeekPattern {
    /// The question that the pattern puts to the index.
    pub open spec fn query(self) -> Option<IndexQuery> {
        match self {
            SeekPattern::All => None,
            SeekPattern::StartWithImaginaryPart(start) => Some(IndexQuery::ImaginaryPart(start)),
            SeekPattern::StartWithZeroNumber(start) => Some(IndexQuery::ZeroNumber(start)),
            SeekPattern::StartWithImaginaryAmount(start, _) => Some(
                IndexQuery::ImaginaryPart(start),
            ),
            SeekPattern::StartWithZeroNumberAmount(start, _) => Some(IndexQuery::ZeroNumber(start)),
        }
    }
}

/// The question to put to the index for the block at which a stream for
/// `pattern` starts, and `None` for a stream from the first zero on.
pub fn first_block(pattern: &SeekPattern) -> (query: Option<IndexQuery>)
    ensures
        query == pattern.query(),
{
    match pattern {
        SeekPattern::All => None,
        SeekPattern::StartWithImaginaryPart(start) => Some(IndexQuery::ImaginaryPart(*start)),
        SeekPattern::StartWithZeroNumber(start) => Some(IndexQuery::ZeroNumber(*start)),
        SeekPattern::StartWithImaginaryAmount(start, _) => Some(IndexQuery::ImaginaryPart(*start)),
        SeekPattern::StartWithZeroNumberAmount(start, _) => Some(IndexQuery::ZeroNumber(*start)),
    }
}

/// The block for a stream: none where no question was put, the answer of the
/// index where it gave one, and `IndexMiss` where it gave none.
pub fn first_block_found(query: Option<IndexQuery>, answer: Option<Block>) -> (result: Result<
    Option<Block>,
    Error,
>)
    ensures
        match result {
            Ok(block) => match query {
                Some(_) => answer.is_some() && block == answer,
                None => block.is_none(),
            },
            Err(error) => query.is_some() && answer.is_none() && error == Error::IndexMiss,
        },
{
    match query {
        None => Ok(None),
        Some(_) => match answer {
            Some(block) => Ok(Some(block)),
            None => Err(Error::IndexMiss),
        },
    }
}

impl IndexQuery {
    /// The statement that puts the question to the table `zero_index`, with
    /// the place as its one parameter. Of the rows at or before the place
    /// the last one is asked for; among rows at the same place, the one first
    /// by file name and block number.
    pub fn statement(&self) -> (sql: &'static str)
        ensures
            sql@ == match *self {
                IndexQuery::ImaginaryPart(_) =>
                    "SELECT offset, filename, block_number FROM zero_index WHERE t <= ?1 ORDER BY t DESC, filename ASC, block_number ASC LIMIT 1"@,
                IndexQuery::ZeroNumber(_) =>
                    "SELECT offset, filename, block_number FROM zero_index WHERE N <= ?1 ORDER BY N DESC, filename ASC, block_number ASC LIMIT 1"@,
            },
    {
        match self {
            IndexQuery::ImaginaryPart(_) =>
                "SELECT offset, filename, block_number FROM zero_index WHERE t <= ?1 ORDER BY t DESC, filename ASC, block_number ASC LIMIT 1",
            IndexQuery::ZeroNumber(_) =>
                "SELECT offset, filename, block_number FROM zero_index WHERE N <= ?1 ORDER BY N DESC, filename ASC, block_number ASC LIMIT 1",
        }
    }
}

impl Block {
    /// The block that a row of the index describes. A row with a negative
    /// offset or block number, or with an offset beyond `usize`, describes
    /// none: the index is then not to be used.
    pub fn from_row(offset: i64, filename: String, block_number: i64) -> (result: Result<
        Block,
        Error,
    >)
        ensures
            match result {
                Ok(block) => {
                    &&& 0 <= offset <= usize::MAX
                    &&& 0 <= block_number
                    &&& block.offset == offset
                    &&& block.filename@ == filename@
                    &&& block.block_number == block_number
                },
                Err(error) => {
                    &&& offset < 0 || offset > usize::MAX || block_number < 0
                    &&& error == Error::IndexUnavailable
                },
            },
    {
        if offset < 0 || block_number < 0 || offset as u64 > usize::MAX as u64 {
            return Err(Error::IndexUnavailable);
        }
        Ok(Block { offset: offset as usize, filename, block_number: block_number as u64 })
    }
}

} // verus!
