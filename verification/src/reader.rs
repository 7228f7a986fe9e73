//! A forward-only cursor over a byte buffer, with the fixed-width and
//! length-prefixed reads that the chunk format is made of.

use vstd::prelude::*;
use vstd::slice::slice_subrange;
use vstd::utf8::{decode_utf8, valid_utf8};
use crate::error::FormatError;

verus! {

/// Whether `n` bytes can be read from `bytes` at `pos`.
pub open spec fn can_read(bytes: Seq<u8>, pos: int, n: int) -> bool {
    0 <= pos && 0 <= n && pos + n <= bytes.len()
}

/// The little-endian value of the two bytes at `pos`.
pub open spec fn le_u16_at(bytes: Seq<u8>, pos: int) -> int {
    bytes[pos] as int + 0x100 * (bytes[pos + 1] as int)
}

/// The little-endian value of the four bytes at `pos`.
pub open spec fn le_u32_at(bytes: Seq<u8>, pos: int) -> int {
    le_u16_at(bytes, pos) + 0x1_0000 * le_u16_at(bytes, pos + 2)
}

/// The little-endian value of the eight bytes at `pos`.
pub open spec fn le_u64_at(bytes: Seq<u8>, pos: int) -> int {
    le_u32_at(bytes, pos) + 0x1_0000_0000 * le_u32_at(bytes, pos + 4)
}

/// The eight bytes at `pos`, read as a little-endian two's complement
/// integer.
pub open spec fn le_i64_at(bytes: Seq<u8>, pos: int) -> int {
    let u = le_u64_at(bytes, pos);
    if u < 0x8000_0000_0000_0000 {
        u
    } else {
        u - 0x1_0000_0000_0000_0000
    }
}

/// The `n` bytes of a string body at `pos`, decoded.
pub open spec fn string_body_at(bytes: Seq<u8>, pos: int, n: int) -> Result<
    (Seq<char>, int),
    FormatError,
> {
    if !can_read(bytes, pos, n) {
        Err(FormatError::Truncated)
    } else if !valid_utf8(bytes.subrange(pos, pos + n)) {
        Err(FormatError::InvalidUtf8)
    } else {
        Ok((decode_utf8(bytes.subrange(pos, pos + n)), pos + n))
    }
}

/// The length-prefixed string at `pos`, with the position behind it.
///
/// A size byte of 0 is the empty string. A size byte of 0xFF is followed by
/// the size as eight bytes. The body has one byte less than the size says. A
/// long size of 0 leaves no body to read and counts as a truncated buffer.
pub open spec fn string_at(bytes: Seq<u8>, pos: int) -> Result<(Seq<char>, int), FormatError> {
    if !can_read(bytes, pos, 1) {
        Err(FormatError::Truncated)
    } else if bytes[pos] == 0 {
        Ok((Seq::empty(), pos + 1))
    } else if bytes[pos] == 0xFF {
        if !can_read(bytes, pos + 1, 8) {
            Err(FormatError::Truncated)
        } else {
            string_body_at(bytes, pos + 9, le_u64_at(bytes, pos + 1) - 1)
        }
    } else {
        string_body_at(bytes, pos + 1, bytes[pos] as int - 1)
    }
}

/// A cursor over a byte buffer.
#[derive(Clone, Copy)]
pub struct Reader<'a> {
    data: &'a [u8],
    pos: usize,
}

impl<'a> Reader<'a> {
    /// The whole buffer.
    pub closed spec fn bytes(&self) -> Seq<u8> {
        self.data@
    }

    /// How many bytes of the buffer have been read.
    pub closed spec fn position(&self) -> int {
        self.pos as int
    }

    /// The cursor stands inside the buffer or at its end.
    pub open spec fn wf(&self) -> bool {
        0 <= self.position() <= self.bytes().len()
    }

    /// The bytes that have not been read yet.
    pub open spec fn remaining(&self) -> Seq<u8> {
        self.bytes().skip(self.position())
    }

    /// Whether `n` more bytes can be read.
    pub open spec fn has(&self, n: int) -> bool {
        can_read(self.bytes(), self.position(), n)
    }

    /// The next `n` bytes.
    pub open spec fn next(&self, n: int) -> Seq<u8> {
        self.bytes().subrange(self.position(), self.position() + n)
    }

    /// Whether a read of `n` bytes at `before` has left `self` behind them,
    /// over the same buffer.
    pub open spec fn advanced(&self, before: &Self, n: int) -> bool {
        &&& self.bytes() == before.bytes()
        &&& self.position() == before.position() + n
    }

    /// What a read of `n` bytes owes: where that many bytes are left, it
    /// succeeds and the cursor stands behind them; where they are not, the
    /// buffer counts as truncated and the cursor stays where it was.
    pub open spec fn took<T>(&self, before: &Self, n: int, got: Result<T, FormatError>) -> bool {
        &&& self.wf()
        &&& match got {
            Ok(_) => before.has(n) && self.advanced(before, n),
            Err(e) => !before.has(n) && e == FormatError::Truncated && *self == *before,
        }
    }

    pub fn new(data: &'a [u8]) -> (r: Self)
        ensures
            r.wf(),
            r.bytes() == data@,
            r.position() == 0,
    {
        Self { data, pos: 0 }
    }

    /// Forgets the bytes already read: what remains becomes the whole buffer.
    pub fn truncate(&mut self)
        requires
            old(self).wf(),
        ensures
            final(self).wf(),
            final(self).bytes() == old(self).remaining(),
            final(self).position() == 0,
    {
        self.data = slice_subrange(self.data, self.pos, self.data.len());
        self.pos = 0;
    }

    /// How many bytes are left to read.
    pub fn available(&self) -> (n: usize)
        requires
            self.wf(),
        ensures
            n == self.bytes().len() - self.position(),
    {
        self.data.len() - self.pos
    }

    pub fn read_byte(&mut self) -> (r: Result<u8, FormatError>)
        requires
            old(self).wf(),
        ensures
            final(self).took(old(self), 1, r),
            r matches Ok(v) ==> v == old(self).bytes()[old(self).position()],
    {
        if self.data.len() - self.pos < 1 {
            return Err(FormatError::Truncated);
        }
        let u: u8 = self.data[self.pos];
        self.pos += 1;
        Ok(u)
    }

    pub fn read_2(&mut self) -> (r: Result<[u8; 2], FormatError>)
        requires
            old(self).wf(),
        ensures
            final(self).took(old(self), 2, r),
            r matches Ok(v) ==> v@ == old(self).next(2),
    {
        if self.data.len() - self.pos < 2 {
            return Err(FormatError::Truncated);
        }
        let arr: [u8; 2] = [
            self.data[self.pos],
            self.data[self.pos + 1],
        ];
        assert(arr@ =~= self.next(2));
        self.pos += 2;
        Ok(arr)
    }

    pub fn read_4(&mut self) -> (r: Result<[u8; 4], FormatError>)
        requires
            old(self).wf(),
        ensures
            final(self).took(old(self), 4, r),
            r matches Ok(v) ==> v@ == old(self).next(4),
    {
        if self.data.len() - self.pos < 4 {
            return Err(FormatError::Truncated);
        }
        let arr: [u8; 4] = [
            self.data[self.pos],
            self.data[self.pos + 1],
            self.data[self.pos + 2],
            self.data[self.pos + 3],
        ];
        assert(arr@ =~= self.next(4));
        self.pos += 4;
        Ok(arr)
    }

    pub fn read_6(&mut self) -> (r: Result<[u8; 6], FormatError>)
        requires
            old(self).wf(),
        ensures
            final(self).took(old(self), 6, r),
            r matches Ok(v) ==> v@ == old(self).next(6),
    {
        if self.data.len() - self.pos < 6 {
            return Err(FormatError::Truncated);
        }
        let arr: [u8; 6] = [
            self.data[self.pos],
            self.data[self.pos + 1],
            self.data[self.pos + 2],
            self.data[self.pos + 3],
            self.data[self.pos + 4],
            self.data[self.pos + 5],
        ];
        assert(arr@ =~= self.next(6));
        self.pos += 6;
        Ok(arr)
    }

    pub fn read_8(&mut self) -> (r: Result<[u8; 8], FormatError>)
        requires
            old(self).wf(),
        ensures
            final(self).took(old(self), 8, r),
            r matches Ok(v) ==> v@ == old(self).next(8),
    {
        if self.data.len() - self.pos < 8 {
            return Err(FormatError::Truncated);
        }
        let arr: [u8; 8] = [
            self.data[self.pos],
            self.data[self.pos + 1],
            self.data[self.pos + 2],
            self.data[self.pos + 3],
            self.data[self.pos + 4],
            self.data[self.pos + 5],
            self.data[self.pos + 6],
            self.data[self.pos + 7],
        ];
        assert(arr@ =~= self.next(8));
        self.pos += 8;
        Ok(arr)
    }

    pub fn read_bytes(&mut self, n: usize) -> (r: Result<Vec<u8>, FormatError>)
        requires
            old(self).wf(),
        ensures
            final(self).took(old(self), n as int, r),
            r matches Ok(v) ==> v@ == old(self).next(n as int),
    {
        if self.data.len() - self.pos < n {
            return Err(FormatError::Truncated);
        }
        let mut out: Vec<u8> = Vec::new();
        let mut i: usize = 0;
        while i < n
            invariant
                self.wf(),
                *self == *old(self),
                self.pos + n <= self.data.len(),
                i <= n,
                out@ == self.next(i as int),
            decreases n - i,
        {
            out.push(self.data[self.pos + i]);
            i += 1;
            assert(out@ =~= self.next(i as int));
        }
        self.pos += n;
        Ok(out)
    }

    /// Reads a byte as the character with that code point.
    pub fn read_char(&mut self) -> (r: Result<char, FormatError>)
        requires
            old(self).wf(),
        ensures
            final(self).took(old(self), 1, r),
            r matches Ok(v) ==> v == old(self).bytes()[old(self).position()] as char,
    {
        let u: u8 = self.read_byte()?;
        Ok(u as char)
    }

    pub fn read_u16(&mut self) -> (r: Result<u16, FormatError>)
        requires
            old(self).wf(),
        ensures
            final(self).took(old(self), 2, r),
            r matches Ok(v) ==> v == le_u16_at(old(self).bytes(), old(self).position()),
    {
        let a: [u8; 2] = self.read_2()?;
        Ok(a[0] as u16 + 0x100 * (a[1] as u16))
    }

    pub fn read_u32(&mut self) -> (r: Result<u32, FormatError>)
        requires
            old(self).wf(),
        ensures
            final(self).took(old(self), 4, r),
            r matches Ok(v) ==> v == le_u32_at(old(self).bytes(), old(self).position()),
    {
        let a: [u8; 4] = self.read_4()?;
        let lo: u32 = a[0] as u32 + 0x100 * (a[1] as u32);
        let hi: u32 = a[2] as u32 + 0x100 * (a[3] as u32);
        Ok(lo + 0x1_0000 * hi)
    }

    pub fn read_u64(&mut self) -> (r: Result<u64, FormatError>)
        requires
            old(self).wf(),
        ensures
            final(self).took(old(self), 8, r),
            r matches Ok(v) ==> v == le_u64_at(old(self).bytes(), old(self).position()),
    {
        let a: [u8; 8] = self.read_8()?;
        let w0: u64 = a[0] as u64 + 0x100 * (a[1] as u64);
        let w1: u64 = a[2] as u64 + 0x100 * (a[3] as u64);
        let w2: u64 = a[4] as u64 + 0x100 * (a[5] as u64);
        let w3: u64 = a[6] as u64 + 0x100 * (a[7] as u64);
        let lo: u64 = w0 + 0x1_0000 * w1;
        let hi: u64 = w2 + 0x1_0000 * w3;
        Ok(lo + 0x1_0000_0000 * hi)
    }

    pub fn read_i64(&mut self) -> (r: Result<i64, FormatError>)
        requires
            old(self).wf(),
        ensures
            final(self).took(old(self), 8, r),
            r matches Ok(v) ==> v == le_i64_at(old(self).bytes(), old(self).position()),
    {
        let u: u64 = self.read_u64()?;
        if u < 0x8000_0000_0000_0000 {
            Ok(u as i64)
        } else {
            Ok((u - 0x8000_0000_0000_0000) as i64 + i64::MIN)
        }
    }

    /// Reads a double as its IEEE 754 bit pattern.
    pub fn read_f64(&mut self) -> (r: Result<u64, FormatError>)
        requires
            old(self).wf(),
        ensures
            final(self).took(old(self), 8, r),
            r matches Ok(v) ==> v == le_u64_at(old(self).bytes(), old(self).position()),
    {
        self.read_u64()
    }

    /// Reads a length-prefixed string. Where there is none to read, the cursor
    /// stays where it was.
    pub fn read_string(&mut self) -> (r: Result<String, FormatError>)
        requires
            old(self).wf(),
        ensures
            final(self).wf(),
            match r {
                Ok(s) => string_at(old(self).bytes(), old(self).position()) == Ok::<
                    (Seq<char>, int),
                    FormatError,
                >((s@, final(self).position())) && final(self).bytes() == old(self).bytes()
                    && old(self).position() < final(self).position(),
                Err(e) => string_at(old(self).bytes(), old(self).position()) == Err::<
                    (Seq<char>, int),
                    FormatError,
                >(e) && *final(self) == *old(self),
            },
    {
        let mut cur: Reader<'a> = *self;
        let first: u8 = cur.read_byte()?;
        if first == 0 {
            *self = cur;
            return Ok(String::new());
        }
        let mut size: u64 = first as u64;
        if first == 0xFF {
            size = cur.read_u64()?;
            if size == 0 {
                return Err(FormatError::Truncated);
            }
        }
        if size - 1 > cur.available() as u64 {
            return Err(FormatError::Truncated);
        }
        let body: Vec<u8> = cur.read_bytes((size - 1) as usize)?;
        match utf8_to_string(body) {
            Some(s) => {
                *self = cur;
                Ok(s)
            },
            None => Err(FormatError::InvalidUtf8),
        }
    }
}

/// `String::from_utf8`: the bytes as a string where they are UTF-8, and
/// nothing where they are not.
#[verifier::external_body]
fn utf8_to_string(bytes: Vec<u8>) -> (r: Option<String>)
    ensures
        match r {
            Some(s) => valid_utf8(bytes@) && s@ == decode_utf8(bytes@),
            None => !valid_utf8(bytes@),
        },
{
    match String::from_utf8(bytes) {
        Ok(s) => Some(s),
        Err(_) => None,
    }
}

} // verus!
