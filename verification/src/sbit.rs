//! The sBIT chunk: how many bits of each sample are significant.

use vstd::prelude::*;
use crate::error::PngError;
use crate::header::ColorType;
use crate::reader::{read_u8, ByteReader};

verus! {

/// The significant bits of each channel.
#[derive(Debug, Clone, Copy, PartialEq, Eq)]
pub enum SBITChunk {
    GrayScale(u8),
    TrueColor([u8; 3]),
    IndexedColor([u8; 3]),
    GrayScaleAlpha([u8; 2]),
    TrueColorAlpha([u8; 4]),
}

/// The length of the chunk: one byte for each channel, where an indexed image
/// counts the three channels of its palette.
pub open spec fn sbit_length(color_type: ColorType) -> nat {
    match color_type {
        ColorType::IndexedColor => 3,
        _ => color_type.channels(),
    }
}

/// The chunk that the bytes at the start of `s` make up.
pub open spec fn sbit_value(s: Seq<u8>, color_type: ColorType) -> SBITChunk {
    match color_type {
        ColorType::Grayscale => SBITChunk::GrayScale(s[0]),
        ColorType::TrueColor => SBITChunk::TrueColor([s[0], s[1], s[2]]),
        ColorType::IndexedColor => SBITChunk::IndexedColor([s[0], s[1], s[2]]),
        ColorType::GrayScaleAlpha => SBITChunk::GrayScaleAlpha([s[0], s[1]]),
        ColorType::TrueColorAlpha => SBITChunk::TrueColorAlpha([s[0], s[1], s[2], s[3]]),
    }
}

/// What reading the chunk's `length` bytes from `s` gives, and the bytes that
/// are left.
pub open spec fn parse_sbit(s: Seq<u8>, length: nat, color_type: ColorType) -> (
    Result<SBITChunk, PngError>,
    Seq<u8>,
) {
    if length != sbit_length(color_type) {
        (Err(PngError::SbitLength(color_type)), s)
    } else if s.len() < length {
        (Err(PngError::UnexpectedEof), Seq::empty())
    } else {
        (Ok(sbit_value(s, color_type)), s.skip(length as int))
    }
}

impl SBITChunk {
    /// Reads the contents of an sBIT chunk of `length` bytes.
    pub fn read_bytes(read: &mut ByteReader, length: usize, color_type: ColorType) -> (sbit: Result<
        SBITChunk,
        PngError,
    >)
        ensures
            sbit == parse_sbit(old(read)@, length as nat, color_type).0,
            final(read)@ == parse_sbit(old(read)@, length as nat, color_type).1,
    {
        let ghost s = read@;
        proof {
            assert(s.len() > 1 ==> s.skip(1).skip(1) =~= s.skip(2));
            assert(s.len() > 2 ==> s.skip(2).skip(1) =~= s.skip(3));
            assert(s.len() > 3 ==> s.skip(3).skip(1) =~= s.skip(4));
        }
        match color_type {
            ColorType::Grayscale => {
                if length != 1 {
                    return Err(PngError::SbitLength(color_type));
                }
                Ok(SBITChunk::GrayScale(read_u8(read)?))
            },
            ColorType::TrueColor => {
                if length != 3 {
                    return Err(PngError::SbitLength(color_type));
                }
                let bits: [u8; 3] = [read_u8(read)?, read_u8(read)?, read_u8(read)?];
                assert(bits =~= [s[0], s[1], s[2]]);
                Ok(SBITChunk::TrueColor(bits))
            },
            ColorType::IndexedColor => {
                if length != 3 {
                    return Err(PngError::SbitLength(color_type));
                }
                let bits: [u8; 3] = [read_u8(read)?, read_u8(read)?, read_u8(read)?];
                assert(bits =~= [s[0], s[1], s[2]]);
                Ok(SBITChunk::IndexedColor(bits))
            },
            ColorType::GrayScaleAlpha => {
                if length != 2 {
                    return Err(PngError::SbitLength(color_type));
                }
                let bits: [u8; 2] = [read_u8(read)?, read_u8(read)?];
                assert(bits =~= [s[0], s[1]]);
                Ok(SBITChunk::GrayScaleAlpha(bits))
            },
            ColorType::TrueColorAlpha => {
                if length != 4 {
                    return Err(PngError::SbitLength(color_type));
                }
                let bits: [u8; 4] = [
                    read_u8(read)?,
                    read_u8(read)?,
                    read_u8(read)?,
                    read_u8(read)?,
                ];
                assert(bits =~= [s[0], s[1], s[2], s[3]]);
                Ok(SBITChunk::TrueColorAlpha(bits))
            },
        }
    }
}

/// The contents of an sBIT chunk.
pub open spec fn sbit_bytes(sbit: SBITChunk) -> Seq<u8> {
    match sbit {
        SBITChunk::GrayScale(b) => seq![b],
        SBITChunk::TrueColor(b) => b@,
        SBITChunk::IndexedColor(b) => b@,
        SBITChunk::GrayScaleAlpha(b) => b@,
        SBITChunk::TrueColorAlpha(b) => b@,
    }
}

/// The color type whose images a chunk belongs to.
pub open spec fn sbit_color_type(sbit: SBITChunk) -> ColorType {
    match sbit {
        SBITChunk::GrayScale(_) => ColorType::Grayscale,
        SBITChunk::TrueColor(_) => ColorType::TrueColor,
        SBITChunk::IndexedColor(_) => ColorType::IndexedColor,
        SBITChunk::GrayScaleAlpha(_) => ColorType::GrayScaleAlpha,
        SBITChunk::TrueColorAlpha(_) => ColorType::TrueColorAlpha,
    }
}

/// A chunk that was written is read back in an image of its color type, and turned
/// down in every image whose chunk has another length.
pub proof fn law_sbit_round_trip(sbit: SBITChunk, color_type: ColorType)
    ensures
        color_type == sbit_color_type(sbit) ==> parse_sbit(
            sbit_bytes(sbit),
            sbit_bytes(sbit).len(),
            color_type,
        ) == (Ok::<SBITChunk, PngError>(sbit), Seq::<u8>::empty()),
        sbit_length(color_type) != sbit_length(sbit_color_type(sbit)) ==> parse_sbit(
            sbit_bytes(sbit),
            sbit_bytes(sbit).len(),
            color_type,
        ).0 == Err::<SBITChunk, PngError>(PngError::SbitLength(color_type)),
{
    let s = sbit_bytes(sbit);
    assert(s.skip(s.len() as int) =~= Seq::<u8>::empty());
    match sbit {
        SBITChunk::GrayScale(_) => {},
        SBITChunk::TrueColor(b) => assert(b =~= [s[0], s[1], s[2]]),
        SBITChunk::IndexedColor(b) => assert(b =~= [s[0], s[1], s[2]]),
        SBITChunk::GrayScaleAlpha(b) => assert(b =~= [s[0], s[1]]),
        SBITChunk::TrueColorAlpha(b) => assert(b =~= [s[0], s[1], s[2], s[3]]),
    }
}

} // verus!
