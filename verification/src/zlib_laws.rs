//! What a zlib stream stands for.

use vstd::prelude::*;
use crate::bit_laws::{has_bits, law_aligned};
use crate::bits::aligned;
use crate::checksum_laws::{
    law_adler_in_closed_form, law_big_endian_digits, number_at, total, weighted,
};
use crate::error::ZlibError;
use crate::inflate::{lemma_blocks_advance, parse_blocks};
use crate::inflate_laws::{blocks_bits, blocks_fit, law_blocks_are_read, with_blocks, Block};
use crate::zlib::parse_zlib;

verus! {

/// The checksum of `s`.
pub open spec fn checksum_of(s: Seq<u8>) -> int {
    ((s.len() + weighted(s, s.len())) % 65521) * 65536 + (1 + total(s, s.len())) % 65521
}

/// Whether two bytes can start a stream: the method is 8, the window is no larger than
/// 2 to the power 15, no dictionary is asked for, and together they are a multiple of 31.
pub open spec fn can_start(cmf: u8, flg: u8) -> bool {
    &&& cmf & 0x0f == 8
    &&& cmf >> 4 <= 7
    &&& flg & 0x20 == 0
    &&& (256 * cmf + flg) % 31 == 0
}

/// Whether `data` starts with a stream of these blocks.
pub open spec fn is_stream(data: Seq<u8>, blocks: Seq<Block>) -> bool {
    let end = (16 + blocks_bits(blocks).len() + 7) / 8;
    &&& data.len() >= 2
    &&& can_start(data[0], data[1])
    &&& blocks.len() > 0
    &&& blocks_fit(blocks, 16, Seq::empty())
    &&& has_bits(data, 16, blocks_bits(blocks))
    &&& end + 4 <= data.len()
    &&& number_at(data, end as int) == checksum_of(with_blocks(Seq::empty(), blocks))
}

proof fn lemma_start(cmf: u8, flg: u8)
    ensures
        can_start(cmf, flg) == crate::zlib::valid_zlib_header(cmf, flg),
{
    assert(cmf & 0x0f == cmf % 16 && cmf >> 4 == cmf / 16 && (flg & 0x20 == 0) == ((flg / 32) % 2
        == 0)) by (bit_vector);
}

/// Compressed data is read back: a stream of blocks of literals, matches and bytes
/// decompresses to the data that they stand for, whatever stands behind the stream.
pub proof fn law_stream_is_read(data: Seq<u8>, blocks: Seq<Block>)
    requires
        is_stream(data, blocks),
    ensures
        parse_zlib(data) matches Ok((out, checksum)) && out == with_blocks(Seq::empty(), blocks)
            && checksum == checksum_of(out),
{
    let out = with_blocks(Seq::empty(), blocks);
    lemma_start(data[0], data[1]);
    law_blocks_are_read(data, 16, blocks, Seq::empty());
    let p = 16 + blocks_bits(blocks).len() as int;
    law_aligned(p);
    let i = aligned(p) / 8;
    law_adler_in_closed_form(out);
    law_big_endian_digits(data.skip(i), 0);
}

/// A stream with another checksum behind its blocks is turned down.
pub proof fn law_wrong_checksum(data: Seq<u8>, blocks: Seq<Block>)
    requires
        data.len() >= 2,
        can_start(data[0], data[1]),
        blocks.len() > 0,
        blocks_fit(blocks, 16, Seq::empty()),
        has_bits(data, 16, blocks_bits(blocks)),
        (16 + blocks_bits(blocks).len() + 7) / 8 + 4 <= data.len(),
        number_at(data, ((16 + blocks_bits(blocks).len() + 7) / 8) as int) != checksum_of(
            with_blocks(Seq::empty(), blocks),
        ),
    ensures
        parse_zlib(data) == Err::<(Seq<u8>, u32), ZlibError>(ZlibError::ChecksumMismatch),
{
    let out = with_blocks(Seq::empty(), blocks);
    lemma_start(data[0], data[1]);
    law_blocks_are_read(data, 16, blocks, Seq::empty());
    let p = 16 + blocks_bits(blocks).len() as int;
    law_aligned(p);
    let i = aligned(p) / 8;
    law_adler_in_closed_form(out);
    law_big_endian_digits(data.skip(i), 0);
}

/// What is accepted has the first two bytes of a stream, and holds the checksum of the
/// data that comes out.
pub proof fn law_accepted_stream(data: Seq<u8>)
    ensures
        parse_zlib(data) matches Ok((out, checksum)) ==> {
            &&& data.len() >= 6
            &&& can_start(data[0], data[1])
            &&& checksum == checksum_of(out)
            &&& exists|i: int|
                2 <= i <= data.len() - 4 && checksum == #[trigger] number_at(data, i)
        },
        data.len() >= 2 && !can_start(data[0], data[1]) ==> parse_zlib(data) == Err::<
            (Seq<u8>, u32),
            ZlibError,
        >(ZlibError::InvalidHeader),
{
    if data.len() >= 2 {
        lemma_start(data[0], data[1]);
    }
    if let Ok((out, checksum)) = parse_zlib(data) {
        let p = parse_blocks(data, 16, Seq::empty())->Ok_0.0;
        lemma_blocks_advance(data, 16, Seq::empty());
        law_aligned(p);
        let i = aligned(p) / 8;
        law_adler_in_closed_form(out);
        law_big_endian_digits(data.skip(i), 0);
        assert(checksum == number_at(data, i));
    }
}

} // verus!
