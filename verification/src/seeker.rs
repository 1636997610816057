use crate::binary64::Binary64;
use crate::error::Error;
use vstd::prelude::*;
use vstd::slice::slice_subrange;

verus! {

/// The number that `width` bytes hold from index `at` on, the least
/// significant byte first.
pub open spec fn le(bytes: Seq<u8>, at: int, width: nat) -> nat
    decreases width,
{
    if width == 0 {
        0
    } else {
        bytes[at] as nat + 256 * le(bytes, at + 1, (width - 1) as nat)
    }
}

/// A part of a sequence of bytes holds the numbers that the whole holds there.
pub proof fn lemma_le_subrange(bytes: Seq<u8>, from: int, to: int, at: int, width: nat)
    requires
        0 <= from,
        0 <= at,
        from + at + width <= to <= bytes.len(),
    ensures
        le(bytes.subrange(from, to), at, width) == le(bytes, from + at, width),
    decreases width,
{
    if width > 0 {
        lemma_le_subrange(bytes, from, to, at + 1, (width - 1) as nat);
    }
}

/// A reader that goes forward only through the bytes it was made with, and
/// keeps count of how many it has passed.
pub struct SimpleSeeker<'a> {
    data: &'a [u8],
    position: usize,
}

impl<'a> SimpleSeeker<'a> {
    #[verifier::type_invariant]
    spec fn inside(self) -> bool {
        self.position <= self.data@.len()
    }

    /// All bytes of the source, those already passed too.
    pub closed spec fn bytes(self) -> Seq<u8> {
        self.data@
    }

    /// How many bytes have been passed.
    pub closed spec fn position(self) -> nat {
        self.position as nat
    }

    /// How many bytes are left to read.
    pub open spec fn available(self) -> int {
        self.bytes().len() - self.position()
    }

    /// The reader has passed `width` bytes since `before`.
    pub open spec fn passed(self, before: Self, width: nat) -> bool {
        &&& self.bytes() == before.bytes()
        &&& before.available() >= width
        &&& self.position() == before.position() + width
    }

    /// The reader stands where it stood `before`, for want of `width` bytes.
    pub open spec fn short_of(self, before: Self, width: nat, error: Error) -> bool {
        &&& self.bytes() == before.bytes()
        &&& before.available() < width
        &&& self.position() == before.position()
        &&& error == Error::TruncatedStream
    }

    /// A reader at the start of `data`.
    pub fn new(data: &'a [u8]) -> (reader: Self)
        ensures
            reader.bytes() == data@,
            reader.position() == 0,
    {
        SimpleSeeker { data, position: 0 }
    }

    /// How many bytes are left to read.
    pub fn remaining(&self) -> (left: usize)
        ensures
            left == self.available(),
            self.available() >= 0,
    {
        proof {
            use_type_invariant(self);
        }
        self.data.len() - self.position
    }

    /// How many bytes have been passed.
    pub fn consumed(&self) -> (count: usize)
        ensures
            count == self.position(),
            self.available() >= 0,
    {
        proof {
            use_type_invariant(self);
        }
        self.position
    }

    pub fn read_u64(&mut self) -> (result: Result<u64, Error>)
        ensures
            match result {
                Ok(value) => final(self).passed(*old(self), 8) && value == le(
                    old(self).bytes(),
                    old(self).position() as int,
                    8,
                ),
                Err(error) => final(self).short_of(*old(self), 8, error),
            },
    {
        if self.remaining() < 8 {
            return Err(Error::TruncatedStream);
        }
        let data = self.data;
        let at = self.position;
        proof {
            reveal_with_fuel(le, 9);
        }
        let value: u64 = data[at] as u64 + 256 * (data[at + 1] as u64 + 256 * (data[at + 2] as u64
            + 256 * (data[at + 3] as u64 + 256 * (data[at + 4] as u64 + 256 * (data[at + 5] as u64
            + 256 * (data[at + 6] as u64 + 256 * (data[at + 7] as u64)))))));
        self.position = at + 8;
        Ok(value)
    }

    /// Reads a binary64 number: its 64 bits, the least significant byte first.
    pub fn read_f64(&mut self) -> (result: Result<Binary64, Error>)
        ensures
            match result {
                Ok(value) => final(self).passed(*old(self), 8) && value.bits == le(
                    old(self).bytes(),
                    old(self).position() as int,
                    8,
                ),
                Err(error) => final(self).short_of(*old(self), 8, error),
            },
    {
        match self.read_u64() {
            Ok(bits) => Ok(Binary64::from_bits(bits)),
            Err(error) => Err(error),
        }
    }

    pub fn read_u32(&mut self) -> (result: Result<u32, Error>)
        ensures
            match result {
                Ok(value) => final(self).passed(*old(self), 4) && value == le(
                    old(self).bytes(),
                    old(self).position() as int,
                    4,
                ),
                Err(error) => final(self).short_of(*old(self), 4, error),
            },
    {
        if self.remaining() < 4 {
            return Err(Error::TruncatedStream);
        }
        let data = self.data;
        let at = self.position;
        proof {
            reveal_with_fuel(le, 5);
        }
        let value: u32 = data[at] as u32 + 256 * (data[at + 1] as u32 + 256 * (data[at + 2] as u32
            + 256 * (data[at + 3] as u32)));
        self.position = at + 4;
        Ok(value)
    }

    pub fn read_u8(&mut self) -> (result: Result<u8, Error>)
        ensures
            match result {
                Ok(value) => final(self).passed(*old(self), 1) && value == le(
                    old(self).bytes(),
                    old(self).position() as int,
                    1,
                ),
                Err(error) => final(self).short_of(*old(self), 1, error),
            },
    {
        if self.remaining() < 1 {
            return Err(Error::TruncatedStream);
        }
        let data = self.data;
        let at = self.position;
        proof {
            reveal_with_fuel(le, 2);
        }
        let value: u8 = data[at];
        self.position = at + 1;
        Ok(value)
    }

    /// Hands out the next `count` bytes and passes them.
    pub fn read_exact(&mut self, count: usize) -> (result: Result<&'a [u8], Error>)
        ensures
            match result {
                Ok(part) => final(self).passed(*old(self), count as nat) && part@ == old(
                    self
                ).bytes().subrange(
                    old(self).position() as int,
                    old(self).position() + count,
                ),
                Err(error) => final(self).short_of(*old(self), count as nat, error),
            },
    {
        proof {
            use_type_invariant(&*self);
        }
        let data = self.data;
        let at = self.position;
        if data.len() - at < count {
            return Err(Error::TruncatedStream);
        }
        let part = slice_subrange(data, at, at + count);
        self.position = at + count;
        Ok(part)
    }

    /// Passes all bytes before the position `pos`, counted from the start of
    /// the source. To stay at the current position is accepted and does
    /// nothing; to go back is refused, and so is to go past the end.
    pub fn consume_until(&mut self, pos: usize) -> (result: Result<(), Error>)
        ensures
            final(self).bytes() == old(self).bytes(),
            match result {
                Ok(_) => old(self).position() <= pos <= old(self).bytes().len()
                    && final(self).position() == pos,
                Err(error) => final(self).position() == old(self).position() && if old(
                    self
                ).position() > pos {
                    error == Error::SeekBackward
                } else {
                    pos > old(self).bytes().len() && error == Error::TruncatedStream
                },
            },
    {
        if pos < self.position {
            return Err(Error::SeekBackward);
        }
        if pos > self.data.len() {
            return Err(Error::TruncatedStream);
        }
        self.position = pos;
        Ok(())
    }
}

} // verus!
