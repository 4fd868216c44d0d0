//! Little-endian numbers in byte buffers.

use byteorder::{LittleEndian, ReadBytesExt};
use vstd::prelude::*;
use vstd::slice::slice_subrange;

verus! {

/// The `u16` at offset `at` of a buffer.
pub open spec fn u16_at(data: Seq<u8>, at: int) -> u16 {
    (data[at] + 0x100 * data[at + 1]) as u16
}

/// The `u32` at offset `at` of a buffer.
pub open spec fn u32_at(data: Seq<u8>, at: int) -> u32 {
    (u16_at(data, at) + 0x1_0000 * u16_at(data, at + 2)) as u32
}

/// The `i32` at offset `at` of a buffer, in two's complement.
pub open spec fn i32_at(data: Seq<u8>, at: int) -> i32 {
    if u32_at(data, at) < 0x8000_0000 {
        u32_at(data, at) as i32
    } else {
        (u32_at(data, at) - 0x1_0000_0000) as i32
    }
}

/// The `u64` at offset `at` of a buffer.
pub open spec fn u64_at(data: Seq<u8>, at: int) -> u64 {
    (u32_at(data, at) + 0x1_0000_0000 * u32_at(data, at + 4)) as u64
}

/// The bytes of a `u16`.
pub open spec fn u16_bytes(v: u16) -> Seq<u8> {
    seq![(v % 0x100) as u8, (v / 0x100) as u8]
}

/// The bytes of a `u32`.
#[verifier::opaque]
pub open spec fn u32_bytes(v: u32) -> Seq<u8> {
    u16_bytes((v % 0x1_0000) as u16) + u16_bytes((v / 0x1_0000) as u16)
}

/// The bytes of an `i32`, in two's complement.
#[verifier::opaque]
pub open spec fn i32_bytes(v: i32) -> Seq<u8> {
    if v >= 0 {
        u32_bytes(v as u32)
    } else {
        u32_bytes((v + 0x1_0000_0000) as u32)
    }
}

/// The bytes of a `u64`.
#[verifier::opaque]
pub open spec fn u64_bytes(v: u64) -> Seq<u8> {
    u32_bytes((v % 0x1_0000_0000) as u32) + u32_bytes((v / 0x1_0000_0000) as u32)
}

/// Whether the bytes `part` stand in `data` from offset `at` on.
pub open spec fn stands_at(data: Seq<u8>, at: int, part: Seq<u8>) -> bool {
    0 <= at && at + part.len() <= data.len() && data.subrange(at, at + part.len()) == part
}

/// Numbers take as many bytes as their types say.
pub proof fn lemma_number_sizes()
    ensures
        forall|v: u32| #[trigger] u32_bytes(v).len() == 4,
        forall|v: i32| #[trigger] i32_bytes(v).len() == 4,
        forall|v: u64| #[trigger] u64_bytes(v).len() == 8,
{
    reveal(u32_bytes);
    reveal(i32_bytes);
    reveal(u64_bytes);
}

/// Where two runs of bytes stand one after the other, each of them stands.
pub proof fn lemma_stands_split(data: Seq<u8>, at: int, a: Seq<u8>, b: Seq<u8>)
    requires
        stands_at(data, at, a + b),
    ensures
        stands_at(data, at, a),
        stands_at(data, at + a.len(), b),
{
    assert(data.subrange(at, at + a.len()) =~= (a + b).subrange(0, a.len() as int));
    assert((a + b).subrange(0, a.len() as int) =~= a);
    assert(data.subrange(at + a.len(), at + a.len() + b.len()) =~= (a + b).subrange(
        a.len() as int,
        (a + b).len() as int,
    ));
    assert((a + b).subrange(a.len() as int, (a + b).len() as int) =~= b);
}

/// A `u16` is read back from where its bytes stand.
pub proof fn law_u16_reads_back(data: Seq<u8>, at: int, v: u16)
    requires
        stands_at(data, at, u16_bytes(v)),
    ensures
        u16_at(data, at) == v,
{
    let part = data.subrange(at, at + 2);
    assert(part[0] == data[at] && part[1] == data[at + 1]);
}

/// A `u32` is read back from where its bytes stand.
pub proof fn law_u32_reads_back(data: Seq<u8>, at: int, v: u32)
    requires
        stands_at(data, at, u32_bytes(v)),
    ensures
        u32_at(data, at) == v,
{
    reveal(u32_bytes);
    let (low, high) = ((v % 0x1_0000) as u16, (v / 0x1_0000) as u16);
    assert(data.subrange(at, at + 2) =~= u32_bytes(v).subrange(0, 2));
    assert(u32_bytes(v).subrange(0, 2) =~= u16_bytes(low));
    assert(data.subrange(at + 2, at + 4) =~= u32_bytes(v).subrange(2, 4));
    assert(u32_bytes(v).subrange(2, 4) =~= u16_bytes(high));
    law_u16_reads_back(data, at, low);
    law_u16_reads_back(data, at + 2, high);
}

/// An `i32` is read back from where its bytes stand.
pub proof fn law_i32_reads_back(data: Seq<u8>, at: int, v: i32)
    requires
        stands_at(data, at, i32_bytes(v)),
    ensures
        i32_at(data, at) == v,
{
    reveal(i32_bytes);
    if v >= 0 {
        law_u32_reads_back(data, at, v as u32);
    } else {
        law_u32_reads_back(data, at, (v + 0x1_0000_0000) as u32);
    }
}

/// A `u64` is read back from where its bytes stand.
pub proof fn law_u64_reads_back(data: Seq<u8>, at: int, v: u64)
    requires
        stands_at(data, at, u64_bytes(v)),
    ensures
        u64_at(data, at) == v,
{
    reveal(u32_bytes);
    reveal(u64_bytes);
    let (low, high) = ((v % 0x1_0000_0000) as u32, (v / 0x1_0000_0000) as u32);
    assert(data.subrange(at, at + 4) =~= u64_bytes(v).subrange(0, 4));
    assert(u64_bytes(v).subrange(0, 4) =~= u32_bytes(low));
    assert(data.subrange(at + 4, at + 8) =~= u64_bytes(v).subrange(4, 8));
    assert(u64_bytes(v).subrange(4, 8) =~= u32_bytes(high));
    law_u32_reads_back(data, at, low);
    law_u32_reads_back(data, at + 4, high);
}

/// I/O errors, as the standard library reports them.
#[verifier::external_type_specification]
#[verifier::external_body]
pub struct ExIoError(std::io::Error);

/// `byteorder::ReadBytesExt::read_u16::<LittleEndian>` on a byte slice: the number that its first
/// two bytes hold; an error where there are fewer.
#[verifier::external_body]
fn le_u16(bytes: &[u8]) -> (r: Result<u16, std::io::Error>)
    ensures
        r is Ok <==> bytes@.len() >= 2,
        r matches Ok(v) ==> v == u16_at(bytes@, 0),
{
    let mut source = bytes;
    source.read_u16::<LittleEndian>()
}

/// `byteorder::ReadBytesExt::read_u32::<LittleEndian>` on a byte slice: the number that its first
/// four bytes hold; an error where there are fewer.
#[verifier::external_body]
fn le_u32(bytes: &[u8]) -> (r: Result<u32, std::io::Error>)
    ensures
        r is Ok <==> bytes@.len() >= 4,
        r matches Ok(v) ==> v == u32_at(bytes@, 0),
{
    let mut source = bytes;
    source.read_u32::<LittleEndian>()
}

/// `byteorder::ReadBytesExt::read_i32::<LittleEndian>` on a byte slice: the number that its first
/// four bytes hold; an error where there are fewer.
#[verifier::external_body]
fn le_i32(bytes: &[u8]) -> (r: Result<i32, std::io::Error>)
    ensures
        r is Ok <==> bytes@.len() >= 4,
        r matches Ok(v) ==> v == i32_at(bytes@, 0),
{
    let mut source = bytes;
    source.read_i32::<LittleEndian>()
}

/// `byteorder::ReadBytesExt::read_u64::<LittleEndian>` on a byte slice: the number that its first
/// eight bytes hold; an error where there are fewer.
#[verifier::external_body]
fn le_u64(bytes: &[u8]) -> (r: Result<u64, std::io::Error>)
    ensures
        r is Ok <==> bytes@.len() >= 8,
        r matches Ok(v) ==> v == u64_at(bytes@, 0),
{
    let mut source = bytes;
    source.read_u64::<LittleEndian>()
}

/// A position in a byte buffer, from which numbers are read one after the other.
pub struct ByteCursor<'a> {
    data: &'a [u8],
    pos: usize,
}

impl<'a> ByteCursor<'a> {
    /// The buffer.
    pub closed spec fn data(self) -> Seq<u8> {
        self.data@
    }

    /// The offset of the next byte to read.
    pub closed spec fn pos(self) -> int {
        self.pos as int
    }

    /// The position is within the buffer or at its end.
    pub open spec fn wf(self) -> bool {
        0 <= self.pos() <= self.data().len()
    }

    /// Whether `self` is `before` with `n` bytes read.
    pub open spec fn advanced(self, before: ByteCursor<'a>, n: int) -> bool {
        &&& self.wf()
        &&& self.data() == before.data()
        &&& self.pos() == before.pos() + n
    }

    /// A cursor at the beginning of a buffer.
    pub fn new(data: &'a [u8]) -> (r: ByteCursor<'a>)
        ensures
            r.wf(),
            r.data() == data@,
            r.pos() == 0,
    {
        ByteCursor { data, pos: 0 }
    }

    /// The number of bytes that are left.
    pub fn remaining(&self) -> (r: usize)
        requires
            self.wf(),
        ensures
            r == self.data().len() - self.pos(),
    {
        self.data.len() - self.pos
    }

    /// Pass over `n` bytes.
    pub fn skip(&mut self, n: usize)
        requires
            old(self).wf(),
            n <= old(self).data().len() - old(self).pos(),
        ensures
            final(self).advanced(*old(self), n as int),
    {
        assert(self.data.len() <= usize::MAX);
        self.pos = self.pos + n;
    }

    /// Read a `u16`; where fewer than two bytes are left, an error, and the cursor stays.
    pub fn read_u16(&mut self) -> (r: Result<u16, std::io::Error>)
        requires
            old(self).wf(),
        ensures
            r is Ok <==> old(self).pos() + 2 <= old(self).data().len(),
            r matches Ok(v) ==> v == u16_at(old(self).data(), old(self).pos())
                && final(self).advanced(*old(self), 2),
            r is Err ==> *final(self) == *old(self),
    {
        let rest = slice_subrange(self.data, self.pos, self.data.len());
        let r = le_u16(rest);
        if r.is_ok() {
            self.pos = self.pos + 2;
        }
        r
    }

    /// Read a `u32`; where fewer than four bytes are left, an error, and the cursor stays.
    pub fn read_u32(&mut self) -> (r: Result<u32, std::io::Error>)
        requires
            old(self).wf(),
        ensures
            r is Ok <==> old(self).pos() + 4 <= old(self).data().len(),
            r matches Ok(v) ==> v == u32_at(old(self).data(), old(self).pos())
                && final(self).advanced(*old(self), 4),
            r is Err ==> *final(self) == *old(self),
    {
        let rest = slice_subrange(self.data, self.pos, self.data.len());
        let r = le_u32(rest);
        if r.is_ok() {
            self.pos = self.pos + 4;
        }
        r
    }

    /// Read an `i32`; where fewer than four bytes are left, an error, and the cursor stays.
    pub fn read_i32(&mut self) -> (r: Result<i32, std::io::Error>)
        requires
            old(self).wf(),
        ensures
            r is Ok <==> old(self).pos() + 4 <= old(self).data().len(),
            r matches Ok(v) ==> v == i32_at(old(self).data(), old(self).pos())
                && final(self).advanced(*old(self), 4),
            r is Err ==> *final(self) == *old(self),
    {
        let rest = slice_subrange(self.data, self.pos, self.data.len());
        let r = le_i32(rest);
        if r.is_ok() {
            self.pos = self.pos + 4;
        }
        r
    }

    /// Read a `u64`; where fewer than eight bytes are left, an error, and the cursor stays.
    pub fn read_u64(&mut self) -> (r: Result<u64, std::io::Error>)
        requires
            old(self).wf(),
        ensures
            r is Ok <==> old(self).pos() + 8 <= old(self).data().len(),
            r matches Ok(v) ==> v == u64_at(old(self).data(), old(self).pos())
                && final(self).advanced(*old(self), 8),
            r is Err ==> *final(self) == *old(self),
    {
        let rest = slice_subrange(self.data, self.pos, self.data.len());
        let r = le_u64(rest);
        if r.is_ok() {
            self.pos = self.pos + 8;
        }
        r
    }
}

} // verus!
