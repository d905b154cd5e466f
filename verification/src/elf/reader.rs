//! Bounds-checked byte decoding with explicit endianness.
//!
//! Every read in this module is checked against the buffer length, so a
//! truncated or hostile file produces an error instead of a panic.

use vstd::prelude::*;
use vstd::slice::slice_subrange;
use crate::text;

verus! {

/// Byte order of the file being parsed.
#[derive(Debug, Clone, Copy, PartialEq, Eq, Structural)]
pub enum Endian {
    Little,
    Big,
}

/// The number that bytes write with the least significant byte first.
pub open spec fn le_value(s: Seq<u8>) -> nat
    decreases s.len(),
{
    if s.len() == 0 {
        0
    } else {
        s[0] as nat + 256 * le_value(s.drop_first())
    }
}

/// The number that bytes write with the most significant byte first.
pub open spec fn be_value(s: Seq<u8>) -> nat
    decreases s.len(),
{
    if s.len() == 0 {
        0
    } else {
        256 * be_value(s.drop_last()) + s.last() as nat
    }
}

/// The number that bytes write in the given order.
pub open spec fn value_of(endian: Endian, s: Seq<u8>) -> nat {
    match endian {
        Endian::Little => le_value(s),
        Endian::Big => be_value(s),
    }
}

proof fn lemma_value_parts(s: Seq<u8>, k: int)
    requires
        0 < k <= s.len(),
    ensures
        le_value(s.subrange(k - 1, s.len() as int)) == s[k - 1] as nat + 256 * le_value(
            s.subrange(k, s.len() as int),
        ),
        be_value(s.take(k)) == 256 * be_value(s.take(k - 1)) + s[k - 1] as nat,
        le_value(s.subrange(s.len() as int, s.len() as int)) == 0,
        be_value(s.take(0)) == 0,
{
    assert(s.subrange(k - 1, s.len() as int).drop_first() =~= s.subrange(k, s.len() as int));
    assert(s.take(k).drop_last() =~= s.take(k - 1));
}

impl Endian {
    /// Decodes two bytes.
    fn u16(self, bytes: [u8; 2]) -> (r: u16)
        ensures
            r == value_of(self, bytes@),
    {
        proof {
            assert(bytes@.subrange(0, 2) =~= bytes@);
            assert(bytes@.take(2) =~= bytes@);
            lemma_value_parts(bytes@, 1);
            lemma_value_parts(bytes@, 2);
        }
        match self {
            Endian::Little => bytes[0] as u16 + 256 * (bytes[1] as u16),
            Endian::Big => 256 * (bytes[0] as u16) + bytes[1] as u16,
        }
    }

    /// Decodes four bytes.
    fn u32(self, bytes: [u8; 4]) -> (r: u32)
        ensures
            r == value_of(self, bytes@),
    {
        proof {
            assert(bytes@.subrange(0, 4) =~= bytes@);
            assert(bytes@.take(4) =~= bytes@);
            lemma_value_parts(bytes@, 1);
            lemma_value_parts(bytes@, 2);
            lemma_value_parts(bytes@, 3);
            lemma_value_parts(bytes@, 4);
        }
        match self {
            Endian::Little => bytes[0] as u32 + 256 * (bytes[1] as u32 + 256 * (bytes[2] as u32
                + 256 * (bytes[3] as u32))),
            Endian::Big => 256 * (256 * (256 * (bytes[0] as u32) + bytes[1] as u32)
                + bytes[2] as u32) + bytes[3] as u32,
        }
    }

    /// Decodes eight bytes.
    fn u64(self, bytes: [u8; 8]) -> (r: u64)
        ensures
            r == value_of(self, bytes@),
    {
        proof {
            assert(bytes@.subrange(0, 8) =~= bytes@);
            assert(bytes@.take(8) =~= bytes@);
            lemma_value_parts(bytes@, 1);
            lemma_value_parts(bytes@, 2);
            lemma_value_parts(bytes@, 3);
            lemma_value_parts(bytes@, 4);
            lemma_value_parts(bytes@, 5);
            lemma_value_parts(bytes@, 6);
            lemma_value_parts(bytes@, 7);
            lemma_value_parts(bytes@, 8);
        }
        match self {
            Endian::Little => bytes[0] as u64 + 256 * (bytes[1] as u64 + 256 * (bytes[2] as u64
                + 256 * (bytes[3] as u64 + 256 * (bytes[4] as u64 + 256 * (bytes[5] as u64 + 256 * (
            bytes[6] as u64 + 256 * (bytes[7] as u64))))))),
            Endian::Big => 256 * (256 * (256 * (256 * (256 * (256 * (256 * (bytes[0] as u64)
                + bytes[1] as u64) + bytes[2] as u64) + bytes[3] as u64) + bytes[4] as u64)
                + bytes[5] as u64) + bytes[6] as u64) + bytes[7] as u64,
        }
    }
}

/// A read that fell outside the file.
#[derive(Debug, Clone, Copy, PartialEq, Eq, Structural)]
pub struct OutOfBounds {
    pub offset: usize,
    pub size: usize,
    pub len: usize,
}

impl OutOfBounds {
    /// The text of the error.
    pub open spec fn text(self) -> Seq<char> {
        "read of "@ + text::decimal(self.size as nat) + " byte(s) at offset "@ + text::decimal(
            self.offset as nat,
        ) + " exceeds the "@ + text::decimal(self.len as nat) + " byte buffer"@
    }

    /// The text of the error.
    pub fn message(&self) -> (r: String)
        ensures
            r@ == self.text(),
    {
        let mut out: String = String::new();
        out.append("read of ");
        text::push_decimal(&mut out, self.size as u64);
        out.append(" byte(s) at offset ");
        text::push_decimal(&mut out, self.offset as u64);
        out.append(" exceeds the ");
        text::push_decimal(&mut out, self.len as u64);
        out.append(" byte buffer");
        assert(out@ =~= self.text());
        out
    }
}

/// The `size` bytes at `offset`, or the error where they do not all lie in `d`.
pub open spec fn span(d: Seq<u8>, offset: usize, size: usize) -> Result<Seq<u8>, OutOfBounds> {
    if offset + size <= d.len() {
        Ok(d.subrange(offset as int, offset + size))
    } else {
        Err(OutOfBounds { offset, size, len: d.len() as usize })
    }
}

/// The byte at `offset`.
pub open spec fn read_u8(d: Seq<u8>, offset: usize) -> Result<u8, OutOfBounds> {
    match span(d, offset, 1) {
        Ok(s) => Ok(s[0]),
        Err(e) => Err(e),
    }
}

/// The two-byte number at `offset`.
pub open spec fn read_u16(d: Seq<u8>, endian: Endian, offset: usize) -> Result<u16, OutOfBounds> {
    match span(d, offset, 2) {
        Ok(s) => Ok(value_of(endian, s) as u16),
        Err(e) => Err(e),
    }
}

/// The four-byte number at `offset`.
pub open spec fn read_u32(d: Seq<u8>, endian: Endian, offset: usize) -> Result<u32, OutOfBounds> {
    match span(d, offset, 4) {
        Ok(s) => Ok(value_of(endian, s) as u32),
        Err(e) => Err(e),
    }
}

/// The eight-byte number at `offset`.
pub open spec fn read_u64(d: Seq<u8>, endian: Endian, offset: usize) -> Result<u64, OutOfBounds> {
    match span(d, offset, 8) {
        Ok(s) => Ok(value_of(endian, s) as u64),
        Err(e) => Err(e),
    }
}

/// The index of the first zero byte, or the length where there is none.
pub open spec fn first_zero(d: Seq<u8>) -> int
    decreases d.len(),
{
    if d.len() == 0 {
        0
    } else if d[0] == 0 {
        0
    } else {
        1 + first_zero(d.drop_first())
    }
}

/// What `first_zero` says of the bytes before and at its index.
pub proof fn lemma_first_zero(d: Seq<u8>)
    ensures
        0 <= first_zero(d) <= d.len(),
        first_zero(d) < d.len() ==> d[first_zero(d)] == 0,
        forall|k: int| 0 <= k < first_zero(d) ==> d[k] != 0,
    decreases d.len(),
{
    if d.len() > 0 && d[0] != 0 {
        lemma_first_zero(d.drop_first());
        let n = first_zero(d.drop_first());
        assert forall|k: int| 0 <= k < n + 1 implies d[k] != 0 by {
            if k > 0 {
                assert(d.drop_first()[k - 1] == d[k]);
            }
        }
    }
}

/// The index of the first zero byte, or the length where there is none.
pub fn find_zero(d: &[u8]) -> (r: usize)
    ensures
        r == first_zero(d@),
        r <= d@.len(),
{
    proof {
        lemma_first_zero(d@);
    }
    let mut i: usize = 0;
    while i < d.len()
        invariant
            i <= d@.len(),
            forall|k: int| 0 <= k < i ==> d@[k] != 0,
            0 <= first_zero(d@) <= d@.len(),
            first_zero(d@) < d@.len() ==> d@[first_zero(d@)] == 0,
            forall|k: int| 0 <= k < first_zero(d@) ==> d@[k] != 0,
        decreases d@.len() - i,
    {
        if d[i] == 0 {
            return i;
        }
        i += 1;
    }
    i
}

/// The NUL-terminated text at `offset`: none where no NUL follows.
pub open spec fn text_at_offset(d: Seq<u8>, offset: usize) -> Option<Seq<char>> {
    if offset > d.len() {
        None
    } else {
        let rest = d.skip(offset as int);
        if first_zero(rest) < rest.len() {
            Some(text::utf8_lossy(rest.take(first_zero(rest))))
        } else {
            None
        }
    }
}

/// A cursor over a byte slice that decodes integers with a fixed endianness.
#[derive(Debug, Clone, Copy)]
pub struct Bytes<'a> {
    data: &'a [u8],
    endian: Endian,
}

impl<'a> View for Bytes<'a> {
    type V = Seq<u8>;

    closed spec fn view(&self) -> Seq<u8> {
        self.data@
    }
}

impl<'a> Bytes<'a> {
    /// The byte order in which numbers are read.
    pub closed spec fn order(&self) -> Endian {
        self.endian
    }

    pub fn new(data: &'a [u8], endian: Endian) -> (r: Self)
        ensures
            r@ == data@,
            r.order() == endian,
    {
        Bytes { data, endian }
    }

    pub fn raw(&self) -> (r: &'a [u8])
        ensures
            r@ == self@,
    {
        self.data
    }

    pub fn endian(&self) -> (r: Endian)
        ensures
            r == self.order(),
    {
        self.endian
    }

    pub fn len(&self) -> (r: usize)
        ensures
            r == self@.len(),
    {
        self.data.len()
    }

    pub fn is_empty(&self) -> (r: bool)
        ensures
            r == (self@.len() == 0),
    {
        self.data.len() == 0
    }

    /// Returns a sub-slice, or an error if it does not fit in the buffer.
    pub fn slice(&self, offset: usize, size: usize) -> (r: Result<&'a [u8], OutOfBounds>)
        ensures
            r is Ok <==> span(self@, offset, size) is Ok,
            r matches Ok(s) ==> span(self@, offset, size) == Ok::<Seq<u8>, OutOfBounds>(s@),
            r matches Err(e) ==> span(self@, offset, size) == Err::<Seq<u8>, OutOfBounds>(e),
    {
        let len: usize = self.data.len();
        if offset > len || size > len - offset {
            return Err(OutOfBounds { offset, size, len });
        }
        Ok(slice_subrange(self.data, offset, offset + size))
    }

    /// Reads one byte.
    pub fn u8(&self, offset: usize) -> (r: Result<u8, OutOfBounds>)
        ensures
            r == read_u8(self@, offset),
    {
        match self.slice(offset, 1) {
            Ok(s) => Ok(s[0]),
            Err(e) => Err(e),
        }
    }

    /// Reads a two-byte number.
    pub fn u16(&self, offset: usize) -> (r: Result<u16, OutOfBounds>)
        ensures
            r == read_u16(self@, self.order(), offset),
    {
        match self.slice(offset, 2) {
            Ok(s) => {
                let bytes: [u8; 2] = [s[0], s[1]];
                assert(bytes@ =~= s@);
                Ok(self.endian.u16(bytes))
            },
            Err(e) => Err(e),
        }
    }

    /// Reads a four-byte number.
    pub fn u32(&self, offset: usize) -> (r: Result<u32, OutOfBounds>)
        ensures
            r == read_u32(self@, self.order(), offset),
    {
        match self.slice(offset, 4) {
            Ok(s) => {
                let bytes: [u8; 4] = [s[0], s[1], s[2], s[3]];
                assert(bytes@ =~= s@);
                Ok(self.endian.u32(bytes))
            },
            Err(e) => Err(e),
        }
    }

    /// Reads an eight-byte number.
    pub fn u64(&self, offset: usize) -> (r: Result<u64, OutOfBounds>)
        ensures
            r == read_u64(self@, self.order(), offset),
    {
        match self.slice(offset, 8) {
            Ok(s) => {
                let bytes: [u8; 8] = [s[0], s[1], s[2], s[3], s[4], s[5], s[6], s[7]];
                assert(bytes@ =~= s@);
                Ok(self.endian.u64(bytes))
            },
            Err(e) => Err(e),
        }
    }

    /// Reads a NUL-terminated string starting at `offset`.
    ///
    /// Invalid UTF-8 is replaced rather than rejected: symbol names from the
    /// wild are occasionally not valid UTF-8, and a mangled name is still
    /// useful for a diagnostic report.
    pub fn cstr(&self, offset: usize) -> (r: Option<String>)
        ensures
            r.deep_view() == text_at_offset(self@, offset),
            r matches Some(s) ==> !s@.contains('\0'),
    {
        let len: usize = self.data.len();
        if offset > len {
            return None;
        }
        let rest: &[u8] = slice_subrange(self.data, offset, len);
        assert(rest@ =~= self@.skip(offset as int));
        let end: usize = find_zero(rest);
        if end == rest.len() {
            return None;
        }
        let name: &[u8] = slice_subrange(rest, 0, end);
        assert(name@ =~= rest@.take(end as int));
        proof {
            lemma_first_zero(rest@);
        }
        Some(text::decode_lossy(name))
    }
}

} // verus!
