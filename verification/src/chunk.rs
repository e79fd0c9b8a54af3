//! The chunks that a PNG file is made of.

use vstd::prelude::*;
use crate::crc::{compute_crc, crc32, law_crc_sees_every_byte};
use crate::error::PngError;
use crate::reader::{
    be_bytes, be_u32, law_be_bytes_of_be_u32, law_be_u32_round_trip, read_u32, ByteReader,
};

verus! {

/// Whether `b` is an ASCII letter: `a` to `z` or `A` to `Z`.
pub open spec fn is_letter(b: u8) -> bool {
    0x61 <= b <= 0x7a || 0x41 <= b <= 0x5a
}

/// Whether `t` consists of letters only.
pub open spec fn all_letters(t: Seq<u8>) -> bool {
    forall|i: int| 0 <= i < t.len() ==> is_letter(#[trigger] t[i])
}

/// The first four bytes of `s`.
pub open spec fn first_four(s: Seq<u8>) -> [u8; 4] {
    [s[0], s[1], s[2], s[3]]
}

/// What reading a chunk type from `s` gives, and the bytes that are left.
pub open spec fn parse_chunk_type(s: Seq<u8>) -> (Result<[u8; 4], PngError>, Seq<u8>) {
    if s.len() < 4 {
        (Err(PngError::UnexpectedEof), Seq::empty())
    } else if !all_letters(s.take(4)) {
        (Err(PngError::InvalidChunkType), s.skip(4))
    } else {
        (Ok(first_four(s)), s.skip(4))
    }
}

/// What reading a chunk from `s` gives, and the bytes that are left.
///
/// The four bytes of the length stand first, then the type, as many bytes of
/// data as the length says, and the CRC of the type and the data.
pub open spec fn parse_chunk(s: Seq<u8>) -> (Result<([u8; 4], Seq<u8>), PngError>, Seq<u8>) {
    let length = be_u32(s) as int;
    let chunk_type = first_four(s.skip(4));
    if s.len() < 8 {
        (Err(PngError::UnexpectedEof), Seq::empty())
    } else if !all_letters(s.subrange(4, 8)) {
        (Err(PngError::InvalidChunkType), s.skip(8))
    } else if s.len() < 12 + length {
        (Err(PngError::UnexpectedEof), Seq::empty())
    } else if crc32(s.subrange(4, 8 + length)) != be_u32(s.skip(8 + length)) {
        (Err(PngError::CrcMismatch(chunk_type)), s.skip(12 + length))
    } else {
        (Ok((chunk_type, s.subrange(8, 8 + length))), s.skip(12 + length))
    }
}

/// The bytes of a chunk.
pub open spec fn encode_chunk(chunk_type: Seq<u8>, data: Seq<u8>) -> Seq<u8> {
    be_bytes(data.len() as u32) + chunk_type + data + be_bytes(crc32(chunk_type + data))
}

/// Reads the four letters of a chunk type.
pub fn read_chunk_type(read: &mut ByteReader) -> (chunk_type: Result<[u8; 4], PngError>)
    ensures
        chunk_type == parse_chunk_type(old(read)@).0,
        final(read)@ == parse_chunk_type(old(read)@).1,
{
    let ghost s = read@;
    let bytes = read.read_exact(4)?;
    let chunk_type: [u8; 4] = [bytes[0], bytes[1], bytes[2], bytes[3]];
    assert(chunk_type =~= first_four(s));
    assert(chunk_type@ =~= s.take(4));
    for i in 0..4usize
        invariant
            s.len() >= 4,
            chunk_type@ == s.take(4),
            forall|k: int| 0 <= k < i ==> is_letter(#[trigger] s.take(4)[k]),
            read@ == s.skip(4),
            s == old(read)@,
    {
        let b: u8 = chunk_type[i];
        assert(b == s.take(4)[i as int]);
        if !(0x61 <= b && b <= 0x7a || 0x41 <= b && b <= 0x5a) {
            return Err(PngError::InvalidChunkType);
        }
    }
    Ok(chunk_type)
}

/// Reads one PNG chunk: a 4-byte length, its 4-byte type, that many bytes of
/// chunk data, and the trailing CRC-32, which is verified against the type
/// and data before the chunk is handed back.
pub fn read_chunk(read: &mut ByteReader) -> (chunk: Result<([u8; 4], Vec<u8>), PngError>)
    ensures
        final(read)@ == parse_chunk(old(read)@).1,
        match parse_chunk(old(read)@).0 {
            Ok((chunk_type, data)) => chunk matches Ok((t, d)) && t == chunk_type && d@ == data,
            Err(e) => chunk == Err::<([u8; 4], Vec<u8>), PngError>(e),
        },
{
    let ghost s = read@;
    let length: u32 = read_u32(read)?;
    assert(s.skip(4).take(4) =~= s.subrange(4, 8) || s.len() < 8);
    assert(s.skip(4).skip(4) =~= s.skip(8) || s.len() < 8);
    let chunk_type = read_chunk_type(read)?;
    let chunk_data = read.read_exact(length as usize)?;
    assert(s.skip(8).skip(length as int) =~= s.skip(8 + length));
    let crc: u32 = read_u32(read)?;
    assert(s.skip(8 + length).skip(4) =~= s.skip(12 + length));

    let mut crc_input: Vec<u8> = Vec::new();
    crc_input.extend_from_slice(&chunk_type);
    crc_input.extend_from_slice(chunk_data);
    assert(crc_input@ =~= s.subrange(4, 8 + length));
    if compute_crc(crc_input.as_slice()) != crc {
        return Err(PngError::CrcMismatch(chunk_type));
    }
    assert(chunk_data@ =~= s.subrange(8, 8 + length));
    Ok((chunk_type, vstd::slice::slice_to_vec(chunk_data)))
}

/// A chunk that was written is read back, up to its last byte and no further.
pub proof fn law_chunk_round_trip(chunk_type: [u8; 4], data: Seq<u8>, rest: Seq<u8>)
    requires
        all_letters(chunk_type@),
        data.len() <= u32::MAX,
    ensures
        parse_chunk(encode_chunk(chunk_type@, data) + rest) == (
            Ok::<([u8; 4], Seq<u8>), PngError>((chunk_type, data)),
            rest,
        ),
{
    let t = chunk_type@;
    let n = data.len() as u32;
    let crc = crc32(t + data);
    let s = encode_chunk(t, data) + rest;
    assert(s =~= be_bytes(n) + (t + data + be_bytes(crc) + rest));
    law_be_u32_round_trip(n, t + data + be_bytes(crc) + rest);
    assert(s.skip(8 + n) =~= be_bytes(crc) + rest);
    law_be_u32_round_trip(crc, rest);
    assert(s.skip(12 + n) =~= rest);
    assert(s.subrange(4, 8) =~= t);
    assert(s.subrange(4, 8 + n) =~= t + data);
    assert(s.subrange(8, 8 + n) =~= data);
    assert(first_four(s.skip(4)) =~= chunk_type);
}

/// What is read as a chunk are the bytes of that chunk.
pub proof fn law_chunk_is_encoded(s: Seq<u8>)
    ensures
        parse_chunk(s).0 matches Ok((t, data)) ==> {
            &&& all_letters(t@)
            &&& data.len() <= u32::MAX
            &&& s == encode_chunk(t@, data) + parse_chunk(s).1
        },
{
    if let Ok((t, data)) = parse_chunk(s).0 {
        let n = be_u32(s) as int;
        law_be_bytes_of_be_u32(s);
        law_be_bytes_of_be_u32(s.skip(8 + n));
        assert(t@ =~= s.subrange(4, 8));
        assert(t@ + data =~= s.subrange(4, 8 + n));
        assert(data.len() as u32 == be_u32(s));
        assert(s.skip(8 + n).take(4) =~= s.subrange(8 + n, 12 + n));
        assert(s =~= encode_chunk(t@, data) + s.skip(12 + n));
    }
}

/// A chunk in which one byte behind the length has changed is turned down.
pub proof fn law_chunk_damage_is_seen(
    chunk_type: [u8; 4],
    data: Seq<u8>,
    rest: Seq<u8>,
    i: int,
    b: u8,
)
    requires
        all_letters(chunk_type@),
        data.len() <= u32::MAX,
        4 <= i < encode_chunk(chunk_type@, data).len(),
        encode_chunk(chunk_type@, data)[i] != b,
    ensures
        parse_chunk(encode_chunk(chunk_type@, data).update(i, b) + rest).0 is Err,
{
    let t = chunk_type@;
    let n = data.len() as u32;
    let crc = crc32(t + data);
    let e = encode_chunk(t, data);
    let s = e.update(i, b) + rest;
    law_be_u32_round_trip(n, Seq::empty());
    assert(be_u32(s) == be_u32(be_bytes(n) + Seq::<u8>::empty()));
    assert(e.subrange(4, 8 + n) =~= t + data);
    if i < 8 + n {
        assert(s.subrange(4, 8 + n) =~= (t + data).update(i - 4, b));
        law_crc_sees_every_byte(t + data, i - 4, b);
        law_be_u32_round_trip(crc, Seq::empty());
        assert(be_u32(s.skip(8 + n)) == be_u32(be_bytes(crc) + Seq::<u8>::empty()));
    } else {
        assert(s.subrange(4, 8 + n) =~= t + data);
        let stored = s.skip(8 + n);
        law_be_bytes_of_be_u32(stored);
        assert(stored.take(4)[i - 8 - n] == b);
        assert(be_bytes(crc)[i - 8 - n] != b);
    }
}

} // verus!
