//! A cursor over bytes, and the big-endian integers read from it.

use vstd::prelude::*;
use crate::error::PngError;

verus! {

/// The bytes of a file or of a chunk that have not been read yet.
pub struct ByteReader<'a> {
    data: &'a [u8],
    pos: usize,
}

impl<'a> View for ByteReader<'a> {
    type V = Seq<u8>;

    closed spec fn view(&self) -> Seq<u8> {
        self.data@.skip(self.pos as int)
    }
}

/// The big-endian value of the first four bytes of `s`.
pub open spec fn be_u32(s: Seq<u8>) -> u32 {
    (s[0] * 0x1000000 + s[1] * 0x10000 + s[2] * 0x100 + s[3]) as u32
}

/// The four bytes of `v`, most significant first.
pub open spec fn be_bytes(v: u32) -> Seq<u8> {
    seq![
        (v / 0x1000000) as u8,
        (v / 0x10000 % 0x100) as u8,
        (v / 0x100 % 0x100) as u8,
        (v % 0x100) as u8,
    ]
}

impl<'a> ByteReader<'a> {
    #[verifier::type_invariant]
    spec fn in_bounds(self) -> bool {
        self.pos <= self.data@.len()
    }

    /// A reader of all of `data`.
    pub fn new(data: &'a [u8]) -> (read: Self)
        ensures
            read@ == data@,
    {
        ByteReader { data, pos: 0 }
    }

    /// Whether every byte has been read.
    pub fn is_empty(&self) -> (empty: bool)
        ensures
            empty == (self@.len() == 0),
    {
        proof {
            use_type_invariant(&*self);
        }
        self.pos == self.data.len()
    }

    /// Reads exactly `n` bytes. Where fewer are left, they are used up.
    pub fn read_exact(&mut self, n: usize) -> (bytes: Result<&'a [u8], PngError>)
        ensures
            n <= old(self)@.len() ==> {
                &&& bytes matches Ok(b)
                &&& b@ == old(self)@.take(n as int)
                &&& final(self)@ == old(self)@.skip(n as int)
            },
            n > old(self)@.len() ==> bytes == Err::<&[u8], PngError>(PngError::UnexpectedEof)
                && final(self)@ == Seq::<u8>::empty(),
    {
        proof {
            use_type_invariant(&*self);
        }
        let start: usize = self.pos;
        if n > self.data.len() - start {
            self.pos = self.data.len();
            assert(self@ =~= Seq::<u8>::empty());
            return Err(PngError::UnexpectedEof);
        }
        self.pos = start + n;
        assert(self@ =~= old(self)@.skip(n as int));
        assert(self.data@.subrange(start as int, start + n) =~= old(self)@.take(n as int));
        Ok(vstd::slice::slice_subrange(self.data, start, start + n))
    }
}

/// Reads one byte.
pub fn read_u8(read: &mut ByteReader) -> (value: Result<u8, PngError>)
    ensures
        old(read)@.len() >= 1 ==> value == Ok::<u8, PngError>(old(read)@[0]) && final(read)@
            == old(read)@.skip(1),
        old(read)@.len() < 1 ==> value == Err::<u8, PngError>(PngError::UnexpectedEof)
            && final(read)@ == Seq::<u8>::empty(),
{
    match read.read_exact(1) {
        Ok(out) => Ok(out[0]),
        Err(e) => Err(e),
    }
}

/// Reads four bytes as a big-endian integer.
pub fn read_u32(read: &mut ByteReader) -> (value: Result<u32, PngError>)
    ensures
        old(read)@.len() >= 4 ==> value == Ok::<u32, PngError>(be_u32(old(read)@)) && final(read)@
            == old(read)@.skip(4),
        old(read)@.len() < 4 ==> value == Err::<u32, PngError>(PngError::UnexpectedEof)
            && final(read)@ == Seq::<u8>::empty(),
{
    match read.read_exact(4) {
        Ok(out) => Ok(
            out[0] as u32 * 0x1000000 + out[1] as u32 * 0x10000 + out[2] as u32 * 0x100
                + out[3] as u32,
        ),
        Err(e) => Err(e),
    }
}

/// Reading the four bytes of an integer gives the integer back.
pub proof fn law_be_u32_round_trip(v: u32, rest: Seq<u8>)
    ensures
        be_u32(be_bytes(v) + rest) == v,
        (be_bytes(v) + rest).skip(4) == rest,
{
    assert((be_bytes(v) + rest).skip(4) =~= rest);
}

/// The four bytes that were read are those of the integer.
pub proof fn law_be_bytes_of_be_u32(s: Seq<u8>)
    requires
        s.len() >= 4,
    ensures
        be_bytes(be_u32(s)) == s.take(4),
{
    let v = s[0] * 0x1000000 + s[1] * 0x10000 + s[2] * 0x100 + s[3];
    assert(v / 0x100 == s[0] * 0x10000 + s[1] * 0x100 + s[2] && v % 0x100 == s[3]);
    assert(v / 0x10000 == s[0] * 0x100 + s[1]);
    assert(v / 0x1000000 == s[0]);
    assert((v / 0x100) % 0x100 == s[2]);
    assert((v / 0x10000) % 0x100 == s[1]);
    assert(be_u32(s) == v);
    assert(be_bytes(be_u32(s)) =~= s.take(4));
}

} // verus!
