//! The forward byte cursor of the log, with its own error type.
use vstd::prelude::*;
use crate::encoding::{be_u32_from, be_u64_from, be_value};
use crate::text::{string_from_utf8, utf8_text};

verus! {

/// Why a read failed.
#[derive(Debug, PartialEq, Eq, Structural)]
pub enum ByteReaderError {
    /// Too few bytes remain for the read.
    InvalidData,
    /// The bytes read are not valid UTF-8.
    InvalidUtf8,
}

/// A cursor that reads forward from the start of a byte slice.
pub struct ByteReader<'a> {
    bytes: &'a [u8],
    position: usize,
}

impl<'a> ByteReader<'a> {
    #[verifier::type_invariant]
    spec fn inv(&self) -> bool {
        self.position <= self.bytes@.len()
    }

    /// The bytes being read.
    pub closed spec fn data(&self) -> Seq<u8> {
        self.bytes@
    }

    /// The position of the next byte to read.
    pub closed spec fn pos(&self) -> int {
        self.position as int
    }

    /// Starts reading at the first byte of `bytes`.
    pub fn new(bytes: &'a [u8]) -> (r: Self)
        ensures
            r.data() == bytes@,
            r.pos() == 0,
    {
        Self { bytes, position: 0 }
    }

    /// Takes the next `n` bytes, where they are there.
    fn take(&mut self, n: usize) -> (r: Option<&'a [u8]>)
        ensures
            final(self).data() == old(self).data(),
            0 <= old(self).pos() <= old(self).data().len(),
            0 <= final(self).pos() <= final(self).data().len(),
            match r {
                Some(b) => old(self).pos() + n <= old(self).data().len() && b@ == old(self).data().subrange(old(self).pos(), old(self).pos() + n) && final(self).pos()
                    == old(self).pos() + n,
                None => old(self).pos() + n > old(self).data().len() && final(self).pos() == old(self).pos(),
            },
    {
        proof {
            use_type_invariant(&*self);
        }
        let len = self.bytes.len();
        let end = match self.position.checked_add(n) {
            Some(end) => end,
            None => return None,
        };
        if end > len {
            return None;
        }
        let bytes = &self.bytes[self.position..end];
        self.position = end;
        Some(bytes)
    }

    /// Reads a big-endian `u32` from the next four bytes.
    pub fn read_u32(&mut self) -> (r: Result<u32, ByteReaderError>)
        ensures
            final(self).data() == old(self).data(),
            match r {
                Ok(v) => old(self).pos() + 4 <= old(self).data().len() && v == be_value(
                    old(self).data().subrange(old(self).pos(), old(self).pos() + 4),
                ) && final(self).pos() == old(self).pos() + 4,
                Err(e) => old(self).pos() + 4 > old(self).data().len() && e
                    == ByteReaderError::InvalidData && final(self).pos() == old(self).pos(),
            },
    {
        match self.take(4) {
            Some(bytes) => Ok(be_u32_from(bytes)),
            None => Err(ByteReaderError::InvalidData),
        }
    }

    /// Reads the next byte.
    pub fn read_u8(&mut self) -> (r: Result<u8, ByteReaderError>)
        ensures
            final(self).data() == old(self).data(),
            match r {
                Ok(v) => old(self).pos() + 1 <= old(self).data().len() && v == old(self).data()[old(self).pos()] && final(self).pos() == old(self).pos() + 1,
                Err(e) => old(self).pos() + 1 > old(self).data().len() && e
                    == ByteReaderError::InvalidData && final(self).pos() == old(self).pos(),
            },
    {
        match self.take(1) {
            Some(bytes) => Ok(bytes[0]),
            None => Err(ByteReaderError::InvalidData),
        }
    }

    /// Reads a big-endian `usize` from the next eight bytes.
    pub fn read_usize(&mut self) -> (r: Result<usize, ByteReaderError>)
        ensures
            final(self).data() == old(self).data(),
            match r {
                Ok(v) => old(self).pos() + 8 <= old(self).data().len() && v == be_value(
                    old(self).data().subrange(old(self).pos(), old(self).pos() + 8),
                ) as usize && final(self).pos() == old(self).pos() + 8,
                Err(e) => old(self).pos() + 8 > old(self).data().len() && e
                    == ByteReaderError::InvalidData && final(self).pos() == old(self).pos(),
            },
    {
        match self.take(8) {
            Some(bytes) => Ok(#[verifier::truncate] (be_u64_from(bytes) as usize)),
            None => Err(ByteReaderError::InvalidData),
        }
    }

    /// Reads the next `len` bytes as UTF-8 text.
    pub fn read_str(&mut self, len: usize) -> (r: Result<String, ByteReaderError>)
        ensures
            final(self).data() == old(self).data(),
            ({
                let p = old(self).pos();
                let fits = p + len <= old(self).data().len();
                match r {
                    Ok(s) => fits && utf8_text(old(self).data().subrange(p, p + len)) == Some(s@)
                        && final(self).pos() == p + len,
                    Err(ByteReaderError::InvalidData) => !fits && final(self).pos() == p,
                    Err(ByteReaderError::InvalidUtf8) => fits && utf8_text(
                        old(self).data().subrange(p, p + len),
                    ) is None && final(self).pos() == p + len,
                }
            }),
    {
        match self.take(len) {
            Some(bytes) => match string_from_utf8(vstd::slice::slice_to_vec(bytes)) {
                Some(s) => Ok(s),
                None => Err(ByteReaderError::InvalidUtf8),
            },
            None => Err(ByteReaderError::InvalidData),
        }
    }
}

} // verus!
