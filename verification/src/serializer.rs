//! Reading and writing the wire form of values.

use vstd::prelude::*;

verus! {

/// Why a value cannot be read.
#[derive(Clone, Copy, Debug, PartialEq, Eq, Structural)]
pub enum ReaderError {
    /// The bytes end before the value does.
    InvalidSize,
}

/// A reader of bytes, front to back.
pub struct Reader {
    pub bytes: Vec<u8>,
    pub position: usize,
}

/// A writer of bytes.
pub struct Writer {
    pub bytes: Vec<u8>,
}

impl Reader {
    /// The bytes that are left to read.
    pub open spec fn left(&self) -> Seq<u8> {
        if self.position <= self.bytes@.len() {
            self.bytes@.skip(self.position as int)
        } else {
            Seq::empty()
        }
    }

    /// A reader at the front of `bytes`.
    pub fn new(bytes: Vec<u8>) -> (reader: Reader)
        ensures
            reader.left() == bytes@,
            reader.bytes == bytes,
            reader.position == 0,
    {
        let reader = Reader { bytes, position: 0 };
        proof {
            assert(reader.bytes@.skip(0) =~= reader.bytes@);
        }
        reader
    }

    /// Number of bytes left to read.
    pub fn size(&self) -> (n: usize)
        ensures
            n == self.left().len(),
    {
        if self.position <= self.bytes.len() {
            self.bytes.len() - self.position
        } else {
            0
        }
    }

    /// Reads one byte.
    pub fn read_u8(&mut self) -> (r: Result<u8, ReaderError>)
        ensures
            match r {
                Ok(byte) => old(self).left().len() >= 1 && byte == old(self).left()[0]
                    && final(self).left() == old(self).left().skip(1),
                Err(e) => old(self).left().len() < 1 && e == ReaderError::InvalidSize
                    && final(self).left() == old(self).left(),
            },
    {
        if self.position >= self.bytes.len() {
            return Err(ReaderError::InvalidSize);
        }
        let byte = self.bytes[self.position];
        self.position = self.position + 1;
        proof {
            assert(self.left() =~= old(self).left().skip(1));
        }
        Ok(byte)
    }

    /// Reads a flag: one byte, which is a one where the flag is set.
    pub fn read_bool(&mut self) -> (r: Result<bool, ReaderError>)
        ensures
            match r {
                Ok(flag) => old(self).left().len() >= 1 && flag == (old(self).left()[0] == 1)
                    && final(self).left() == old(self).left().skip(1),
                Err(e) => old(self).left().len() < 1 && e == ReaderError::InvalidSize
                    && final(self).left() == old(self).left(),
            },
    {
        match self.read_u8() {
            Ok(byte) => Ok(byte == 1),
            Err(e) => Err(e),
        }
    }

    /// Reads a number of two bytes, the greater first.
    pub fn read_u16(&mut self) -> (r: Result<u16, ReaderError>)
        ensures
            match r {
                Ok(n) => old(self).left().len() >= 2 && n as int == old(self).left()[0] as int * 256
                    + old(self).left()[1] as int && final(self).left() == old(self).left().skip(2),
                Err(e) => old(self).left().len() < 2 && e == ReaderError::InvalidSize
                    && final(self).left() == old(self).left(),
            },
    {
        if self.position >= self.bytes.len() || self.bytes.len() - self.position < 2 {
            return Err(ReaderError::InvalidSize);
        }
        let high = self.bytes[self.position] as u16;
        let low = self.bytes[self.position + 1] as u16;
        self.position = self.position + 2;
        proof {
            assert(self.left() =~= old(self).left().skip(2));
        }
        Ok(high * 256 + low)
    }
}

impl Writer {
    /// A writer that has written nothing.
    pub fn new() -> (writer: Writer)
        ensures
            writer.bytes@.len() == 0,
    {
        Writer { bytes: Vec::new() }
    }

    /// Writes the bytes.
    pub fn write_bytes(&mut self, bytes: &Vec<u8>)
        ensures
            final(self).bytes@ == old(self).bytes@ + bytes@,
    {
        let n = bytes.len();
        let mut i: usize = 0;
        while i < n
            invariant
                i <= n,
                n == bytes.len(),
                self.bytes@ == old(self).bytes@ + bytes@.take(i as int),
            decreases n - i,
        {
            self.bytes.push(bytes[i]);
            proof {
                assert(self.bytes@ =~= old(self).bytes@ + bytes@.take(i + 1));
            }
            i = i + 1;
        }
        proof {
            assert(bytes@.take(n as int) =~= bytes@);
        }
    }

    /// Number of bytes written.
    pub fn total_write(&self) -> (n: usize)
        ensures
            n == self.bytes@.len(),
    {
        self.bytes.len()
    }
}

} // verus!
