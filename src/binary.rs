use vstd::bytes::*;
use vstd::prelude::*;
use vstd::utf8::{encode_utf8, valid_utf8};

verus! {

/// Writes values as bytes: fixed-width little-endian integers (`usize` and
/// `isize` as eight bytes), `bool` as one byte, `char` as its scalar value
/// in four bytes, strings as a length and their UTF-8 bytes.
pub struct BinaryEncoder {
    data: Vec<u8>,
}

/// Reads values back from bytes laid out as `BinaryEncoder` writes them.
pub struct BinaryDecoder<'a> {
    data: &'a [u8],
    position: usize,
}

/// Why a read failed.
#[derive(Debug, Clone, Copy, PartialEq, Eq, Structural)]
pub enum DecodeError {
    /// Fewer bytes are left than the value needs.
    UnexpectedEnd,
    /// Four bytes that are not the scalar value of a `char`.
    InvalidChar,
    /// String bytes that are not UTF-8.
    InvalidUtf8,
}

impl View for BinaryEncoder {
    type V = Seq<u8>;

    closed spec fn view(&self) -> Seq<u8> {
        self.data@
    }
}

/// A `u32` that is the scalar value of some `char`.
pub open spec fn is_scalar_value(v: u32) -> bool {
    v < 0xd800 || (0xe000 <= v && v <= 0x10ffff)
}

pub open spec fn bool_byte(v: bool) -> u8 {
    if v {
        1
    } else {
        0
    }
}

/// Relies on `char::from_u32`: `Some` exactly for scalar values, holding the
/// `char` with that value.
#[verifier::external_body]
fn char_from_u32(v: u32) -> (r: Option<char>)
    ensures
        r is Some <==> is_scalar_value(v),
        r matches Some(c) ==> c as u32 == v,
{
    char::from_u32(v)
}

/// Relies on `std::str::from_utf8`: it accepts exactly the UTF-8 byte
/// strings, and the string it gives has those bytes.
#[verifier::external_body]
fn string_from_utf8(b: &[u8]) -> (r: Option<String>)
    ensures
        r is Some <==> valid_utf8(b@),
        r matches Some(s) ==> encode_utf8(s@) == b@,
{
    match std::str::from_utf8(b) {
        Ok(s) => Some(s.to_string()),
        Err(_) => None,
    }
}

impl BinaryEncoder {
    pub fn new() -> (r: BinaryEncoder)
        ensures
            r@ == Seq::<u8>::empty(),
    {
        BinaryEncoder { data: Vec::new() }
    }

    /// The bytes written so far.
    pub fn data(&self) -> (r: &[u8])
        ensures
            r@ == self@,
    {
        self.data.as_slice()
    }

    pub fn emit_bytes(&mut self, v: &[u8])
        ensures
            final(self)@ == old(self)@ + v@,
    {
        let mut i: usize = 0;
        while i < v.len()
            invariant
                i <= v@.len(),
                self@ == old(self)@ + v@.take(i as int),
            decreases v@.len() - i,
        {
            self.data.push(v[i]);
            i = i + 1;
            assert(self@ =~= old(self)@ + v@.take(i as int));
        }
        assert(v@.take(i as int) =~= v@);
    }

    fn emit_vec(&mut self, v: Vec<u8>)
        ensures
            final(self)@ == old(self)@ + v@,
    {
        self.emit_bytes(v.as_slice());
    }

    pub fn emit_unit(&mut self)
        ensures
            final(self)@ == old(self)@,
    {
    }

    pub fn emit_bool(&mut self, v: bool)
        ensures
            final(self)@ == old(self)@.push(bool_byte(v)),
    {
        self.data.push(if v {
            1
        } else {
            0
        });
    }

    pub fn emit_u8(&mut self, v: u8)
        ensures
            final(self)@ == old(self)@.push(v),
    {
        self.data.push(v);
    }

    pub fn emit_u16(&mut self, v: u16)
        ensures
            final(self)@ == old(self)@ + spec_u16_to_le_bytes(v),
    {
        self.emit_vec(u16_to_le_bytes(v));
    }

    pub fn emit_u32(&mut self, v: u32)
        ensures
            final(self)@ == old(self)@ + spec_u32_to_le_bytes(v),
    {
        self.emit_vec(u32_to_le_bytes(v));
    }

    pub fn emit_u64(&mut self, v: u64)
        ensures
            final(self)@ == old(self)@ + spec_u64_to_le_bytes(v),
    {
        self.emit_vec(u64_to_le_bytes(v));
    }

    pub fn emit_u128(&mut self, v: u128)
        ensures
            final(self)@ == old(self)@ + spec_u128_to_le_bytes(v),
    {
        self.emit_vec(u128_to_le_bytes(v));
    }

    pub fn emit_usize(&mut self, v: usize)
        ensures
            final(self)@ == old(self)@ + spec_u64_to_le_bytes(v as u64),
    {
        self.emit_u64(v as u64);
    }

    pub fn emit_i8(&mut self, v: i8)
        ensures
            final(self)@ == old(self)@.push(v as u8),
    {
        self.data.push(v as u8);
    }

    pub fn emit_i16(&mut self, v: i16)
        ensures
            final(self)@ == old(self)@ + spec_u16_to_le_bytes(v as u16),
    {
        self.emit_u16(v as u16);
    }

    pub fn emit_i32(&mut self, v: i32)
        ensures
            final(self)@ == old(self)@ + spec_u32_to_le_bytes(v as u32),
    {
        self.emit_u32(v as u32);
    }

    pub fn emit_i64(&mut self, v: i64)
        ensures
            final(self)@ == old(self)@ + spec_u64_to_le_bytes(v as u64),
    {
        self.emit_u64(v as u64);
    }

    pub fn emit_i128(&mut self, v: i128)
        ensures
            final(self)@ == old(self)@ + spec_u128_to_le_bytes(v as u128),
    {
        self.emit_u128(v as u128);
    }

    pub fn emit_isize(&mut self, v: isize)
        ensures
            final(self)@ == old(self)@ + spec_u64_to_le_bytes(v as i64 as u64),
    {
        self.emit_i64(v as i64);
    }

    pub fn emit_char(&mut self, v: char)
        ensures
            final(self)@ == old(self)@ + spec_u32_to_le_bytes(v as u32),
    {
        self.emit_u32(v as u32);
    }

    /// The byte length, then the UTF-8 bytes.
    pub fn emit_str(&mut self, v: &str)
        ensures
            final(self)@ == old(self)@ + spec_u64_to_le_bytes(encode_utf8(v@).len() as u64)
                + encode_utf8(v@),
    {
        let b = v.as_bytes();
        self.emit_usize(b.len());
        self.emit_bytes(b);
    }
}

impl<'a> BinaryDecoder<'a> {
    pub closed spec fn bytes(&self) -> Seq<u8> {
        self.data@
    }

    pub closed spec fn pos(&self) -> nat {
        self.position as nat
    }

    /// The `n` bytes at the read position, when that many are left.
    pub open spec fn ahead(&self, n: nat) -> Seq<u8> {
        self.bytes().subrange(self.pos() as int, (self.pos() + n) as int)
    }

    pub open spec fn has(&self, n: nat) -> bool {
        self.pos() + n <= self.bytes().len()
    }

    /// The read position stays within the bytes.
    pub closed spec fn wf(&self) -> bool {
        self.position <= self.data@.len()
    }

    /// How many bytes are left to read.
    pub fn remaining(&self) -> (r: usize)
        requires
            self.wf(),
        ensures
            r == self.bytes().len() - self.pos(),
    {
        self.data.len() - self.position
    }

    pub fn new(data: &'a [u8]) -> (r: BinaryDecoder<'a>)
        ensures
            r.wf(),
            r.bytes() == data@,
            r.pos() == 0,
    {
        BinaryDecoder { data, position: 0 }
    }

    /// Takes the next `n` bytes, or fails without moving.
    fn take(&mut self, n: usize) -> (r: Option<Vec<u8>>)
        requires
            old(self).wf(),
        ensures
            final(self).wf(),
            final(self).bytes() == old(self).bytes(),
            old(self).has(n as nat) ==> (r matches Some(v) && v@ == old(self).ahead(n as nat)),
            old(self).has(n as nat) ==> final(self).pos() == old(self).pos() + n,
            !old(self).has(n as nat) ==> r is None && final(self).pos() == old(self).pos(),
    {
        if n > self.data.len() - self.position {
            return None;
        }
        let mut v: Vec<u8> = Vec::new();
        let mut i: usize = 0;
        while i < n
            invariant
                i <= n,
                self.position + n <= self.data@.len(),
                self.data@.len() <= usize::MAX,
                v@ == self.data@.subrange(self.position as int, self.position + i),
            decreases n - i,
        {
            v.push(self.data[self.position + i]);
            i = i + 1;
            assert(v@ =~= self.data@.subrange(self.position as int, self.position + i));
        }
        self.position = self.position + n;
        Some(v)
    }

    /// One byte.
    pub fn read_u8(&mut self) -> (r: Result<u8, DecodeError>)
        requires
            old(self).wf(),
        ensures
            final(self).wf(),
            final(self).bytes() == old(self).bytes(),
            old(self).has(1) ==> r == Ok::<u8, DecodeError>(old(self).ahead(1)[0]) && final(self).pos() == old(self).pos() + 1,
            !old(self).has(1) ==> r == Err::<u8, DecodeError>(DecodeError::UnexpectedEnd) && final(self).pos() == old(self).pos(),
    {
        match self.take(1) {
            Some(b) => Ok(b[0]),
            None => Err(DecodeError::UnexpectedEnd),
        }
    }

    /// One byte; any byte but 0 is `true`.
    pub fn read_bool(&mut self) -> (r: Result<bool, DecodeError>)
        requires
            old(self).wf(),
        ensures
            final(self).wf(),
            final(self).bytes() == old(self).bytes(),
            old(self).has(1) ==> r == Ok::<bool, DecodeError>(old(self).ahead(1)[0] != 0) && final(self).pos() == old(self).pos() + 1,
            !old(self).has(1) ==> r == Err::<bool, DecodeError>(DecodeError::UnexpectedEnd) && final(self).pos() == old(self).pos(),
    {
        match self.take(1) {
            Some(b) => Ok(b[0] != 0),
            None => Err(DecodeError::UnexpectedEnd),
        }
    }

    /// Two bytes, little-endian.
    pub fn read_u16(&mut self) -> (r: Result<u16, DecodeError>)
        requires
            old(self).wf(),
        ensures
            final(self).wf(),
            final(self).bytes() == old(self).bytes(),
            old(self).has(2) ==> r == Ok::<u16, DecodeError>(spec_u16_from_le_bytes(old(self).ahead(2))) && final(self).pos() == old(self).pos() + 2,
            !old(self).has(2) ==> r == Err::<u16, DecodeError>(DecodeError::UnexpectedEnd) && final(self).pos() == old(self).pos(),
    {
        match self.take(2) {
            Some(b) => Ok(u16_from_le_bytes(b.as_slice())),
            None => Err(DecodeError::UnexpectedEnd),
        }
    }

    /// Four bytes, little-endian.
    pub fn read_u32(&mut self) -> (r: Result<u32, DecodeError>)
        requires
            old(self).wf(),
        ensures
            final(self).wf(),
            final(self).bytes() == old(self).bytes(),
            old(self).has(4) ==> r == Ok::<u32, DecodeError>(spec_u32_from_le_bytes(old(self).ahead(4))) && final(self).pos() == old(self).pos() + 4,
            !old(self).has(4) ==> r == Err::<u32, DecodeError>(DecodeError::UnexpectedEnd) && final(self).pos() == old(self).pos(),
    {
        match self.take(4) {
            Some(b) => Ok(u32_from_le_bytes(b.as_slice())),
            None => Err(DecodeError::UnexpectedEnd),
        }
    }

    /// Eight bytes, little-endian.
    pub fn read_u64(&mut self) -> (r: Result<u64, DecodeError>)
        requires
            old(self).wf(),
        ensures
            final(self).wf(),
            final(self).bytes() == old(self).bytes(),
            old(self).has(8) ==> r == Ok::<u64, DecodeError>(spec_u64_from_le_bytes(old(self).ahead(8))) && final(self).pos() == old(self).pos() + 8,
            !old(self).has(8) ==> r == Err::<u64, DecodeError>(DecodeError::UnexpectedEnd) && final(self).pos() == old(self).pos(),
    {
        match self.take(8) {
            Some(b) => Ok(u64_from_le_bytes(b.as_slice())),
            None => Err(DecodeError::UnexpectedEnd),
        }
    }

    /// Sixteen bytes, little-endian.
    pub fn read_u128(&mut self) -> (r: Result<u128, DecodeError>)
        requires
            old(self).wf(),
        ensures
            final(self).wf(),
            final(self).bytes() == old(self).bytes(),
            old(self).has(16) ==> r == Ok::<u128, DecodeError>(spec_u128_from_le_bytes(old(self).ahead(16))) && final(self).pos() == old(self).pos() + 16,
            !old(self).has(16) ==> r == Err::<u128, DecodeError>(DecodeError::UnexpectedEnd) && final(self).pos() == old(self).pos(),
    {
        match self.take(16) {
            Some(b) => Ok(u128_from_le_bytes(b.as_slice())),
            None => Err(DecodeError::UnexpectedEnd),
        }
    }

    /// Eight bytes, little-endian.
    pub fn read_usize(&mut self) -> (r: Result<usize, DecodeError>)
        requires
            old(self).wf(),
        ensures
            final(self).wf(),
            final(self).bytes() == old(self).bytes(),
            old(self).has(8) ==> r == Ok::<usize, DecodeError>(spec_u64_from_le_bytes(old(self).ahead(8)) as usize) && final(self).pos() == old(self).pos() + 8,
            !old(self).has(8) ==> r == Err::<usize, DecodeError>(DecodeError::UnexpectedEnd) && final(self).pos() == old(self).pos(),
    {
        match self.take(8) {
            Some(b) => Ok(u64_from_le_bytes(b.as_slice()) as usize),
            None => Err(DecodeError::UnexpectedEnd),
        }
    }

    /// One byte, two's complement.
    pub fn read_i8(&mut self) -> (r: Result<i8, DecodeError>)
        requires
            old(self).wf(),
        ensures
            final(self).wf(),
            final(self).bytes() == old(self).bytes(),
            old(self).has(1) ==> r == Ok::<i8, DecodeError>(old(self).ahead(1)[0] as i8) && final(self).pos() == old(self).pos() + 1,
            !old(self).has(1) ==> r == Err::<i8, DecodeError>(DecodeError::UnexpectedEnd) && final(self).pos() == old(self).pos(),
    {
        match self.take(1) {
            Some(b) => Ok(b[0] as i8),
            None => Err(DecodeError::UnexpectedEnd),
        }
    }

    /// Two bytes, little-endian two's complement.
    pub fn read_i16(&mut self) -> (r: Result<i16, DecodeError>)
        requires
            old(self).wf(),
        ensures
            final(self).wf(),
            final(self).bytes() == old(self).bytes(),
            old(self).has(2) ==> r == Ok::<i16, DecodeError>(spec_u16_from_le_bytes(old(self).ahead(2)) as i16) && final(self).pos() == old(self).pos() + 2,
            !old(self).has(2) ==> r == Err::<i16, DecodeError>(DecodeError::UnexpectedEnd) && final(self).pos() == old(self).pos(),
    {
        match self.take(2) {
            Some(b) => Ok(u16_from_le_bytes(b.as_slice()) as i16),
            None => Err(DecodeError::UnexpectedEnd),
        }
    }

    /// Four bytes, little-endian two's complement.
    pub fn read_i32(&mut self) -> (r: Result<i32, DecodeError>)
        requires
            old(self).wf(),
        ensures
            final(self).wf(),
            final(self).bytes() == old(self).bytes(),
            old(self).has(4) ==> r == Ok::<i32, DecodeError>(spec_u32_from_le_bytes(old(self).ahead(4)) as i32) && final(self).pos() == old(self).pos() + 4,
            !old(self).has(4) ==> r == Err::<i32, DecodeError>(DecodeError::UnexpectedEnd) && final(self).pos() == old(self).pos(),
    {
        match self.take(4) {
            Some(b) => Ok(u32_from_le_bytes(b.as_slice()) as i32),
            None => Err(DecodeError::UnexpectedEnd),
        }
    }

    /// Eight bytes, little-endian two's complement.
    pub fn read_i64(&mut self) -> (r: Result<i64, DecodeError>)
        requires
            old(self).wf(),
        ensures
            final(self).wf(),
            final(self).bytes() == old(self).bytes(),
            old(self).has(8) ==> r == Ok::<i64, DecodeError>(spec_u64_from_le_bytes(old(self).ahead(8)) as i64) && final(self).pos() == old(self).pos() + 8,
            !old(self).has(8) ==> r == Err::<i64, DecodeError>(DecodeError::UnexpectedEnd) && final(self).pos() == old(self).pos(),
    {
        match self.take(8) {
            Some(b) => Ok(u64_from_le_bytes(b.as_slice()) as i64),
            None => Err(DecodeError::UnexpectedEnd),
        }
    }

    /// Sixteen bytes, little-endian two's complement.
    pub fn read_i128(&mut self) -> (r: Result<i128, DecodeError>)
        requires
            old(self).wf(),
        ensures
            final(self).wf(),
            final(self).bytes() == old(self).bytes(),
            old(self).has(16) ==> r == Ok::<i128, DecodeError>(spec_u128_from_le_bytes(old(self).ahead(16)) as i128) && final(self).pos() == old(self).pos() + 16,
            !old(self).has(16) ==> r == Err::<i128, DecodeError>(DecodeError::UnexpectedEnd) && final(self).pos() == old(self).pos(),
    {
        match self.take(16) {
            Some(b) => Ok(u128_from_le_bytes(b.as_slice()) as i128),
            None => Err(DecodeError::UnexpectedEnd),
        }
    }

    /// Eight bytes, little-endian two's complement.
    pub fn read_isize(&mut self) -> (r: Result<isize, DecodeError>)
        requires
            old(self).wf(),
        ensures
            final(self).wf(),
            final(self).bytes() == old(self).bytes(),
            old(self).has(8) ==> r == Ok::<isize, DecodeError>(spec_u64_from_le_bytes(old(self).ahead(8)) as i64 as isize) && final(self).pos() == old(self).pos() + 8,
            !old(self).has(8) ==> r == Err::<isize, DecodeError>(DecodeError::UnexpectedEnd) && final(self).pos() == old(self).pos(),
    {
        match self.take(8) {
            Some(b) => Ok(u64_from_le_bytes(b.as_slice()) as i64 as isize),
            None => Err(DecodeError::UnexpectedEnd),
        }
    }

    pub fn read_unit(&mut self) -> (r: Result<(), DecodeError>)
        ensures
            *final(self) == *old(self),
            r is Ok,
    {
        Ok(())
    }

    /// A scalar value in four bytes; fails on a value that is no `char`.
    pub fn read_char(&mut self) -> (r: Result<char, DecodeError>)
        requires
            old(self).wf(),
        ensures
            final(self).wf(),
            final(self).bytes() == old(self).bytes(),
            old(self).has(4) ==> final(self).pos() == old(self).pos() + 4 && ({
                let v = spec_u32_from_le_bytes(old(self).ahead(4));
                if is_scalar_value(v) {
                    r matches Ok(c) && c as u32 == v
                } else {
                    r == Err::<char, DecodeError>(DecodeError::InvalidChar)
                }
            }),
            !old(self).has(4) ==> r == Err::<char, DecodeError>(DecodeError::UnexpectedEnd)
                && final(self).pos() == old(self).pos(),
    {
        let v = self.read_u32()?;
        match char_from_u32(v) {
            Some(c) => Ok(c),
            None => Err(DecodeError::InvalidChar),
        }
    }

    /// A byte length in eight bytes, then that many bytes of UTF-8. A string
    /// that is cut short or not UTF-8 fails after its length has been read.
    pub fn read_str(&mut self) -> (r: Result<String, DecodeError>)
        requires
            old(self).wf(),
        ensures
            final(self).wf(),
            final(self).bytes() == old(self).bytes(),
            !old(self).has(8) ==> r == Err::<String, DecodeError>(DecodeError::UnexpectedEnd)
                && final(self).pos() == old(self).pos(),
            old(self).has(8) ==> ({
                let n = spec_u64_from_le_bytes(old(self).ahead(8)) as usize as nat;
                let body = old(self).bytes().subrange(
                    (old(self).pos() + 8) as int,
                    (old(self).pos() + 8 + n) as int,
                );
                if old(self).pos() + 8 + n > old(self).bytes().len() {
                    r == Err::<String, DecodeError>(DecodeError::UnexpectedEnd)
                        && final(self).pos() == old(self).pos() + 8
                } else if valid_utf8(body) {
                    r matches Ok(s) && encode_utf8(s@) == body && final(self).pos() == old(self).pos() + 8 + n
                } else {
                    r == Err::<String, DecodeError>(DecodeError::InvalidUtf8)
                        && final(self).pos() == old(self).pos() + 8
                }
            }),
    {
        let n = self.read_usize()?;
        if n > self.data.len() - self.position {
            return Err(DecodeError::UnexpectedEnd);
        }
        let mut b: Vec<u8> = Vec::new();
        let mut i: usize = 0;
        while i < n
            invariant
                i <= n,
                self.position + n <= self.data@.len(),
                self.data@.len() <= usize::MAX,
                b@ == self.data@.subrange(self.position as int, self.position + i),
            decreases n - i,
        {
            b.push(self.data[self.position + i]);
            i = i + 1;
            assert(b@ =~= self.data@.subrange(self.position as int, self.position + i));
        }
        match string_from_utf8(b.as_slice()) {
            Some(s) => {
                self.position = self.position + n;
                Ok(s)
            },
            None => Err(DecodeError::InvalidUtf8),
        }
    }
}

} // verus!
