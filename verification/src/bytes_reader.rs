//! Cursors over byte slices: `ByteReader` reads forward from the start,
//! `FooterByteReader` reads backward from the end.
use vstd::prelude::*;
use crate::encoding::{be_u32_from, be_u64_from, be_value};
use crate::entries::Entry;
use crate::text::{string_from_utf8, utf8_text};
use crate::types::KeyValue;

verus! {

/// Why a read failed.
#[derive(Debug, PartialEq, Eq, Structural)]
pub enum ByteReaderError {
    /// Too few bytes remain for the read.
    InvalidData,
    /// The bytes read are not valid UTF-8.
    InvalidUtf8,
}

/// The entry that the key/value encoding at `pos` of `data` holds, or
/// `None` where it is cut short, with the position where reading stops.
/// The encoding is the key's length in eight big-endian bytes, the key, the
/// value's length in eight big-endian bytes, and the value; a length of zero
/// stands for no value.
pub open spec fn decode_key_val(data: Seq<u8>, pos: int) -> (Option<Entry>, int) {
    if pos + 8 > data.len() {
        (None, pos)
    } else {
        let key_len = be_value(data.subrange(pos, pos + 8)) as usize as int;
        let p1 = pos + 8;
        if p1 + key_len > data.len() {
            (None, p1)
        } else {
            let key = data.subrange(p1, p1 + key_len);
            let p2 = p1 + key_len;
            if p2 + 8 > data.len() {
                (None, p2)
            } else {
                let val_len = be_value(data.subrange(p2, p2 + 8)) as usize as int;
                let p3 = p2 + 8;
                if val_len == 0 {
                    (Some((key, None)), p3)
                } else if p3 + val_len > data.len() {
                    (None, p3)
                } else {
                    (Some((key, Some(data.subrange(p3, p3 + val_len)))), p3 + val_len)
                }
            }
        }
    }
}

/// A cursor that reads big-endian numbers, strings and byte runs forward
/// from the start of a byte slice.
pub struct ByteReader<'a> {
    bytes: &'a [u8],
    position: usize,
}

impl<'a> ByteReader<'a> {
    #[verifier::type_invariant]
    spec fn inv(&self) -> bool {
        self.position <= self.bytes@.len()
    }

    /// The bytes being read.
    pub closed spec fn data(&self) -> Seq<u8> {
        self.bytes@
    }

    /// The position of the next byte to read.
    pub closed spec fn pos(&self) -> int {
        self.position as int
    }

    /// Starts reading at the first byte of `bytes`.
    pub fn new(bytes: &'a [u8]) -> (r: Self)
        ensures
            r.data() == bytes@,
            r.pos() == 0,
    {
        Self { bytes, position: 0 }
    }

    /// Whether every byte has been read.
    pub fn is_finished(&self) -> (r: bool)
        ensures
            r == (self.pos() == self.data().len()),
    {
        self.position == self.bytes.len()
    }

    /// Takes the next `n` bytes, where they are there.
    fn take(&mut self, n: usize) -> (r: Option<&'a [u8]>)
        ensures
            final(self).data() == old(self).data(),
            0 <= old(self).pos() <= old(self).data().len(),
            0 <= final(self).pos() <= final(self).data().len(),
            match r {
                Some(b) => old(self).pos() + n <= old(self).data().len() && b@ == old(self).data().subrange(old(self).pos(), old(self).pos() + n) && final(self).pos()
                    == old(self).pos() + n,
                None => old(self).pos() + n > old(self).data().len() && final(self).pos() == old(self).pos(),
            },
    {
        proof {
            use_type_invariant(&*self);
        }
        let len = self.bytes.len();
        let end = match self.position.checked_add(n) {
            Some(end) => end,
            None => return None,
        };
        if end > len {
            return None;
        }
        let bytes = &self.bytes[self.position..end];
        self.position = end;
        Some(bytes)
    }

    /// Reads a big-endian `u32` from the next four bytes.
    pub fn read_u32(&mut self) -> (r: Result<u32, ByteReaderError>)
        ensures
            final(self).data() == old(self).data(),
            match r {
                Ok(v) => old(self).pos() + 4 <= old(self).data().len() && v == be_value(
                    old(self).data().subrange(old(self).pos(), old(self).pos() + 4),
                ) && final(self).pos() == old(self).pos() + 4,
                Err(e) => old(self).pos() + 4 > old(self).data().len() && e
                    == ByteReaderError::InvalidData && final(self).pos() == old(self).pos(),
            },
    {
        match self.take(4) {
            Some(bytes) => Ok(be_u32_from(bytes)),
            None => Err(ByteReaderError::InvalidData),
        }
    }

    /// Reads a big-endian `u64` from the next eight bytes.
    pub fn read_u64(&mut self) -> (r: Result<u64, ByteReaderError>)
        ensures
            final(self).data() == old(self).data(),
            match r {
                Ok(v) => old(self).pos() + 8 <= old(self).data().len() && v == be_value(
                    old(self).data().subrange(old(self).pos(), old(self).pos() + 8),
                ) && final(self).pos() == old(self).pos() + 8,
                Err(e) => old(self).pos() + 8 > old(self).data().len() && e
                    == ByteReaderError::InvalidData && final(self).pos() == old(self).pos(),
            },
    {
        match self.take(8) {
            Some(bytes) => Ok(be_u64_from(bytes)),
            None => Err(ByteReaderError::InvalidData),
        }
    }

    /// Reads the next byte.
    pub fn read_u8(&mut self) -> (r: Result<u8, ByteReaderError>)
        ensures
            final(self).data() == old(self).data(),
            match r {
                Ok(v) => old(self).pos() + 1 <= old(self).data().len() && v == old(self).data()[old(self).pos()] && final(self).pos() == old(self).pos() + 1,
                Err(e) => old(self).pos() + 1 > old(self).data().len() && e
                    == ByteReaderError::InvalidData && final(self).pos() == old(self).pos(),
            },
    {
        match self.take(1) {
            Some(bytes) => Ok(bytes[0]),
            None => Err(ByteReaderError::InvalidData),
        }
    }

    /// Reads a big-endian `usize` from the next eight bytes.
    pub fn read_usize(&mut self) -> (r: Result<usize, ByteReaderError>)
        ensures
            final(self).data() == old(self).data(),
            match r {
                Ok(v) => old(self).pos() + 8 <= old(self).data().len() && v == be_value(
                    old(self).data().subrange(old(self).pos(), old(self).pos() + 8),
                ) as usize && final(self).pos() == old(self).pos() + 8,
                Err(e) => old(self).pos() + 8 > old(self).data().len() && e
                    == ByteReaderError::InvalidData && final(self).pos() == old(self).pos(),
            },
    {
        match self.take(8) {
            Some(bytes) => Ok(#[verifier::truncate] (be_u64_from(bytes) as usize)),
            None => Err(ByteReaderError::InvalidData),
        }
    }

    /// Reads the next `len` bytes as UTF-8 text.
    pub fn read_str(&mut self, len: usize) -> (r: Result<String, ByteReaderError>)
        ensures
            final(self).data() == old(self).data(),
            ({
                let p = old(self).pos();
                let fits = p + len <= old(self).data().len();
                match r {
                    Ok(s) => fits && utf8_text(old(self).data().subrange(p, p + len)) == Some(s@)
                        && final(self).pos() == p + len,
                    Err(ByteReaderError::InvalidData) => !fits && final(self).pos() == p,
                    Err(ByteReaderError::InvalidUtf8) => fits && utf8_text(
                        old(self).data().subrange(p, p + len),
                    ) is None && final(self).pos() == p + len,
                }
            }),
    {
        match self.take(len) {
            Some(bytes) => match string_from_utf8(vstd::slice::slice_to_vec(bytes)) {
                Some(s) => Ok(s),
                None => Err(ByteReaderError::InvalidUtf8),
            },
            None => Err(ByteReaderError::InvalidData),
        }
    }

    /// Reads the next `len` bytes.
    pub fn read_bytes_vec(&mut self, len: usize) -> (r: Result<Vec<u8>, ByteReaderError>)
        ensures
            final(self).data() == old(self).data(),
            match r {
                Ok(v) => old(self).pos() + len <= old(self).data().len() && v@ == old(self).data().subrange(old(self).pos(), old(self).pos() + len) && final(self).pos() == old(self).pos() + len,
                Err(e) => old(self).pos() + len > old(self).data().len() && e
                    == ByteReaderError::InvalidData && final(self).pos() == old(self).pos(),
            },
    {
        match self.take(len) {
            Some(bytes) => Ok(vstd::slice::slice_to_vec(bytes)),
            None => Err(ByteReaderError::InvalidData),
        }
    }

    /// Reads one key/value encoding: the key's length and the key, then the
    /// value's length and the value, no value where that length is zero.
    pub fn read_key_val(&mut self) -> (r: Result<KeyValue, ByteReaderError>)
        ensures
            final(self).data() == old(self).data(),
            final(self).pos() == decode_key_val(old(self).data(), old(self).pos()).1,
            match r {
                Ok(kv) => decode_key_val(old(self).data(), old(self).pos()).0 == Some(kv@),
                Err(e) => decode_key_val(old(self).data(), old(self).pos()).0 is None && e
                    == ByteReaderError::InvalidData,
            },
    {
        proof {
            use_type_invariant(&*self);
        }
        let key_len = self.read_usize()?;
        proof {
            use_type_invariant(&*self);
        }
        let key = self.read_bytes_vec(key_len)?;
        proof {
            use_type_invariant(&*self);
        }
        let val_len = self.read_usize()?;
        let mut value: Option<Vec<u8>> = None;
        if val_len > 0 {
            value = Some(self.read_bytes_vec(val_len)?);
        }
        Ok(KeyValue { key, value })
    }
}

/// A cursor that reads backward from the end of a byte slice.
pub struct FooterByteReader<'a> {
    bytes: &'a [u8],
    position: usize,
}

impl<'a> FooterByteReader<'a> {
    #[verifier::type_invariant]
    spec fn inv(&self) -> bool {
        self.position <= self.bytes@.len()
    }

    /// The bytes being read.
    pub closed spec fn data(&self) -> Seq<u8> {
        self.bytes@
    }

    /// The position just past the next byte to read.
    pub closed spec fn pos(&self) -> int {
        self.position as int
    }

    /// Starts reading at the end of `bytes`.
    pub fn new(bytes: &'a [u8]) -> (r: Self)
        ensures
            r.data() == bytes@,
            r.pos() == bytes@.len(),
    {
        Self { bytes, position: bytes.len() }
    }

    /// Takes the `n` bytes before the cursor, where they are there.
    fn take_back(&mut self, n: usize) -> (r: Option<&'a [u8]>)
        ensures
            final(self).data() == old(self).data(),
            0 <= old(self).pos() <= old(self).data().len(),
            0 <= final(self).pos() <= final(self).data().len(),
            match r {
                Some(b) => n <= old(self).pos() && b@ == old(self).data().subrange(
                    old(self).pos() - n,
                    old(self).pos(),
                ) && final(self).pos() == old(self).pos() - n,
                None => n > old(self).pos() && final(self).pos() == old(self).pos(),
            },
    {
        proof {
            use_type_invariant(&*self);
        }
        let start = match self.position.checked_sub(n) {
            Some(start) => start,
            None => return None,
        };
        let bytes = &self.bytes[start..self.position];
        self.position = start;
        Some(bytes)
    }

    /// Reads a big-endian `u32` from the four bytes before the cursor.
    pub fn read_u32(&mut self) -> (r: Result<u32, ByteReaderError>)
        ensures
            final(self).data() == old(self).data(),
            match r {
                Ok(v) => 4 <= old(self).pos() && v == be_value(
                    old(self).data().subrange(old(self).pos() - 4, old(self).pos()),
                ) && final(self).pos() == old(self).pos() - 4,
                Err(e) => 4 > old(self).pos() && e == ByteReaderError::InvalidData && final(self).pos() == old(self).pos(),
            },
    {
        match self.take_back(4) {
            Some(bytes) => Ok(be_u32_from(bytes)),
            None => Err(ByteReaderError::InvalidData),
        }
    }

    /// Reads the `len` bytes before the cursor.
    pub fn read_bytes_vec(&mut self, len: usize) -> (r: Result<Vec<u8>, ByteReaderError>)
        ensures
            final(self).data() == old(self).data(),
            match r {
                Ok(v) => len <= old(self).pos() && v@ == old(self).data().subrange(
                    old(self).pos() - len,
                    old(self).pos(),
                ) && final(self).pos() == old(self).pos() - len,
                Err(e) => len > old(self).pos() && e == ByteReaderError::InvalidData && final(self).pos() == old(self).pos(),
            },
    {
        match self.take_back(len) {
            Some(bytes) => Ok(vstd::slice::slice_to_vec(bytes)),
            None => Err(ByteReaderError::InvalidData),
        }
    }

    /// Reads a big-endian `usize` from the eight bytes before the cursor.
    pub fn read_usize(&mut self) -> (r: Result<usize, ByteReaderError>)
        ensures
            final(self).data() == old(self).data(),
            match r {
                Ok(v) => 8 <= old(self).pos() && v == be_value(
                    old(self).data().subrange(old(self).pos() - 8, old(self).pos()),
                ) as usize && final(self).pos() == old(self).pos() - 8,
                Err(e) => 8 > old(self).pos() && e == ByteReaderError::InvalidData && final(self).pos() == old(self).pos(),
            },
    {
        match self.take_back(8) {
            Some(bytes) => Ok(#[verifier::truncate] (be_u64_from(bytes) as usize)),
            None => Err(ByteReaderError::InvalidData),
        }
    }
}

} // verus!
