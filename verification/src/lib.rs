//! Zeros of the Riemann zeta function, streamed from an archive of data files.
//!
//! A data file holds blocks of zeros. Each block gives a lower bound `t0` and
//! an upper bound `t1` as binary64 numbers, and for each of its zeros a step
//! of up to 104 bits; the imaginary part of a zero is `t0` plus the sum of
//! the steps up to its own, in units of `2^-101`. [`FileProcessor`] decodes
//! such a file, [`ZeroPort`] lets through what a [`SeekPattern`] asks for, and
//! a [`ZeroStream`] takes the zeros. Nothing here reads a file or a network:
//! whoever does hands the bytes in.
//!
//! All numbers are kept exact. A [`Zero`] is the pair of its base and its
//! steps, with the precision that its block asks for, and is compared with a
//! threshold without rounding.

pub mod binary64;
pub mod dat;
pub mod database;
pub mod error;
pub mod laws;
pub mod lmfdb;
pub mod port;
pub mod repository;
pub mod seeker;
pub mod sink;
pub mod stream;
mod wide;
pub mod zero;

pub use crate::binary64::Binary64;
pub use crate::dat::FileProcessor;
pub use crate::database::{first_block, Block, IndexQuery};
pub use crate::error::Error;
pub use crate::lmfdb::lmfdb_data_resolve;
pub use crate::port::{SeekPattern, ZeroPort, ZeroStream};
pub use crate::repository::{read_repository, DatFile};
pub use crate::seeker::SimpleSeeker;
pub use crate::sink::{ZeroLog, ZeroSink};
pub use crate::stream::{
    from_first_file, process_files, stream_files, zero_stream, FileQueue,
};
pub use crate::zero::Zero;
