//! A cursor over the bytes of a table file.
use vstd::prelude::*;
use vstd::slice::slice_subrange;

verus! {

/// The value of two bytes read as a little-endian number.
pub open spec fn le16(b: Seq<u8>) -> int
    recommends
        b.len() >= 2,
{
    b[0] as int + 256 * (b[1] as int)
}

/// The value of three bytes read as a little-endian number.
pub open spec fn le24(b: Seq<u8>) -> int
    recommends
        b.len() >= 3,
{
    b[0] as int + 256 * (b[1] as int) + 65536 * (b[2] as int)
}

/// The value of four bytes read as a little-endian number.
pub open spec fn le32(b: Seq<u8>) -> int
    recommends
        b.len() >= 4,
{
    b[0] as int + 256 * (b[1] as int) + 65536 * (b[2] as int) + 16777216 * (b[3] as int)
}

/// The value of four bytes read as a big-endian number.
pub open spec fn be32(b: Seq<u8>) -> int
    recommends
        b.len() >= 4,
{
    16777216 * (b[0] as int) + 65536 * (b[1] as int) + 256 * (b[2] as int) + b[3] as int
}

/// The value of eight bytes read as a big-endian number.
pub open spec fn be64(b: Seq<u8>) -> int
    recommends
        b.len() >= 8,
{
    4294967296 * be32(b.subrange(0, 4)) + be32(b.subrange(4, 8))
}

/// The number of bytes to skip after `consumed` bytes so that the count is a multiple of `k`.
pub open spec fn padding(consumed: nat, k: nat) -> nat
    recommends
        k > 0,
{
    if consumed % k == 0 {
        0
    } else {
        (k - consumed % k) as nat
    }
}

/// The two bytes at `at`, read as a little-endian number.
pub fn read_le16(bytes: &[u8], at: usize) -> (r: u16)
    requires
        at + 2 <= bytes@.len(),
    ensures
        r == le16(bytes@.subrange(at as int, at + 2)),
{
    let lo: u16 = bytes[at] as u16;
    let hi: u16 = bytes[at + 1] as u16;
    lo + 256 * hi
}

/// The four bytes at `at`, read as a little-endian number.
pub fn read_le32(bytes: &[u8], at: usize) -> (r: u32)
    requires
        at + 4 <= bytes@.len(),
    ensures
        r == le32(bytes@.subrange(at as int, at + 4)),
{
    let b0: u32 = bytes[at] as u32;
    let b1: u32 = bytes[at + 1] as u32;
    let b2: u32 = bytes[at + 2] as u32;
    let b3: u32 = bytes[at + 3] as u32;
    b0 + 256 * b1 + 65536 * b2 + 16777216 * b3
}

/// The four bytes at `at`, read as a big-endian number.
pub fn read_be32(bytes: &[u8], at: usize) -> (r: u32)
    requires
        at + 4 <= bytes@.len(),
    ensures
        r == be32(bytes@.subrange(at as int, at + 4)),
{
    let b0: u32 = bytes[at] as u32;
    let b1: u32 = bytes[at + 1] as u32;
    let b2: u32 = bytes[at + 2] as u32;
    let b3: u32 = bytes[at + 3] as u32;
    16777216 * b0 + 65536 * b1 + 256 * b2 + b3
}

/// The eight bytes at `at`, read as a big-endian number.
pub fn read_be64(bytes: &[u8], at: usize) -> (r: u64)
    requires
        at + 8 <= bytes@.len(),
    ensures
        r == be64(bytes@.subrange(at as int, at + 8)),
{
    let len: usize = bytes.len();
    assert(at + 8 <= len);
    let hi: u64 = read_be32(bytes, at) as u64;
    let lo: u64 = read_be32(bytes, at + 4) as u64;
    proof {
        let whole = bytes@.subrange(at as int, at + 8);
        assert(whole.subrange(0, 4) =~= bytes@.subrange(at as int, at + 4));
        assert(whole.subrange(4, 8) =~= bytes@.subrange(at + 4, at + 8));
    }
    4294967296 * hi + lo
}

/// A place in a file: the bytes from there on, and the number of bytes before it.
pub struct Cursor {
    pub rest: Seq<u8>,
    pub at: nat,
}

impl Cursor {
    /// The place `n` bytes further on.
    pub open spec fn skip(self, n: int) -> Cursor {
        Cursor { rest: self.rest.skip(n), at: (self.at + n) as nat }
    }

    /// The next place that is a multiple of `k` bytes into the file.
    pub open spec fn aligned(self, k: nat) -> Cursor {
        self.skip(padding(self.at, k) as int)
    }

    /// Whether `n` more bytes can be read.
    pub open spec fn has(self, n: int) -> bool {
        0 <= n <= self.rest.len()
    }
}

/// A reader that hands out the bytes of a slice from front to back and counts
/// what it has handed out.
pub struct DataStream<'a> {
    read_so_far: usize,
    data: &'a [u8],
}

impl<'a> View for DataStream<'a> {
    type V = Cursor;

    closed spec fn view(&self) -> Cursor {
        Cursor { rest: self.data@, at: self.read_so_far as nat }
    }
}

impl<'a> DataStream<'a> {
    #[verifier::type_invariant]
    spec fn well_formed(self) -> bool {
        self.read_so_far + self.data@.len() <= usize::MAX
    }

    /// The bytes that have not been read yet.
    pub open spec fn remaining(self) -> Seq<u8> {
        self@.rest
    }

    /// The number of bytes read so far.
    pub open spec fn consumed(self) -> nat {
        self@.at
    }

    /// A reader at the start of `data`.
    pub fn new(data: &'a [u8]) -> (r: Self)
        ensures
            r.remaining() == data@,
            r.consumed() == 0,
    {
        let total: usize = data.len();
        assert(total == data@.len());
        DataStream { read_so_far: 0, data }
    }

    /// The number of bytes that have not been read yet.
    pub fn len(&self) -> (r: usize)
        ensures
            r == self.remaining().len(),
            r + self.consumed() <= usize::MAX,
    {
        proof {
            use_type_invariant(self);
        }
        self.data.len()
    }

    /// The bytes that have not been read yet.
    pub fn rest(&self) -> (r: &'a [u8])
        ensures
            r@ == self.remaining(),
    {
        self.data
    }

    /// The number of bytes read so far.
    pub fn position(&self) -> (r: usize)
        ensures
            r == self.consumed(),
    {
        self.read_so_far
    }

    /// The number of bytes that `align_to` would skip.
    pub fn padding_to(&self, bytes: usize) -> (r: usize)
        requires
            bytes > 0,
        ensures
            r == padding(self.consumed(), bytes as nat),
            r < bytes,
    {
        let over: usize = self.read_so_far % bytes;
        if over > 0 {
            bytes - over
        } else {
            0
        }
    }

    /// Skips to the next position that is a multiple of `bytes`.
    pub fn align_to(&mut self, bytes: usize)
        requires
            bytes > 0,
            padding(old(self).consumed(), bytes as nat) <= old(self).remaining().len(),
        ensures
            final(self).consumed() == old(self).consumed() + padding(
                old(self).consumed(),
                bytes as nat,
            ),
            final(self).remaining() == old(self).remaining().skip(
                padding(old(self).consumed(), bytes as nat) as int,
            ),
            final(self).consumed() % (bytes as nat) == 0,
    {
        let before: usize = self.read_so_far;
        let over: usize = before % bytes;
        if over > 0 {
            let _ = self.read_array(bytes - over);
            let after: usize = self.read_so_far;
            assert((after as int) % (bytes as int) == 0) by (nonlinear_arith)
                requires
                    after == before + (bytes - over),
                    over == before % bytes,
                    bytes > 0,
            ;
        } else {
            assert(self.remaining().skip(0) =~= self.remaining());
        }
    }

    /// Reads one byte.
    pub fn read_u8(&mut self) -> (r: u8)
        requires
            old(self).remaining().len() >= 1,
        ensures
            r == old(self).remaining()[0],
            final(self).remaining() == old(self).remaining().skip(1),
            final(self).consumed() == old(self).consumed() + 1,
    {
        let a = self.read_array(1);
        a[0]
    }

    /// Reads two bytes as a little-endian number.
    pub fn read_u16(&mut self) -> (r: u16)
        requires
            old(self).remaining().len() >= 2,
        ensures
            r == le16(old(self).remaining()),
            final(self).remaining() == old(self).remaining().skip(2),
            final(self).consumed() == old(self).consumed() + 2,
    {
        let a = self.read_array(2);
        read_le16(a, 0)
    }

    /// Reads four bytes as a little-endian number.
    pub fn read_u32(&mut self) -> (r: u32)
        requires
            old(self).remaining().len() >= 4,
        ensures
            r == le32(old(self).remaining()),
            final(self).remaining() == old(self).remaining().skip(4),
            final(self).consumed() == old(self).consumed() + 4,
    {
        let a = self.read_array(4);
        read_le32(a, 0)
    }

    /// Hands out the next `size` bytes.
    pub fn read_array(&mut self, size: usize) -> (r: &'a [u8])
        requires
            size <= old(self).remaining().len(),
        ensures
            r@ == old(self).remaining().take(size as int),
            final(self).remaining() == old(self).remaining().skip(size as int),
            final(self).consumed() == old(self).consumed() + size,
    {
        proof {
            use_type_invariant(&*self);
        }
        let whole = self.data;
        let a = slice_subrange(whole, 0, size);
        self.data = slice_subrange(whole, size, whole.len());
        self.read_so_far = self.read_so_far + size;
        a
    }
}

} // verus!
