//! Decompression of zlib streams.

use vstd::arithmetic::power2::{lemma2_to64, pow2};
use vstd::prelude::*;
use crate::bits::{aligned, bit_at, bits_at, BitReader};
use crate::error::ZlibError;
use crate::inflate::{parse_block, parse_blocks, read_blocks};
use crate::reader::{be_bytes, be_u32, law_be_u32_round_trip};

verus! {

/// The modulus of the checksum.
pub const ADLER_MODULUS: u32 = 65521;

/// The two sums of the Adler-32 checksum: one more than the sum of the bytes, and
/// the sum of its values after each byte, both modulo 65521.
pub open spec fn adler_sums(s: Seq<u8>) -> (nat, nat)
    decreases s.len(),
{
    if s.len() == 0 {
        (1, 0)
    } else {
        let (a, b) = adler_sums(s.drop_last());
        let a1 = (a + s.last() as nat) % 65521;
        (a1, (b + a1) % 65521)
    }
}

/// The Adler-32 checksum of `s`.
pub open spec fn adler32(s: Seq<u8>) -> u32 {
    (adler_sums(s).1 * 0x10000 + adler_sums(s).0) as u32
}

/// Whether the bytes start a zlib stream: DEFLATE with a window of at most 32 KiB, no
/// preset dictionary, and a multiple of 31 as the check demands.
pub open spec fn valid_zlib_header(cmf: u8, flg: u8) -> bool {
    &&& cmf % 16 == 8
    &&& cmf / 16 <= 7
    &&& (flg / 32) % 2 == 0
    &&& (cmf * 256 + flg) % 31 == 0
}

/// The data that a zlib stream stands for, and its checksum.
pub open spec fn parse_zlib(data: Seq<u8>) -> Result<(Seq<u8>, u32), ZlibError> {
    if data.len() < 2 {
        Err(ZlibError::UnexpectedEnd)
    } else if !valid_zlib_header(data[0], data[1]) {
        Err(ZlibError::InvalidHeader)
    } else {
        match parse_blocks(data, 16, Seq::empty()) {
            Err(e) => Err(e),
            Ok((p, out)) => {
                let i = aligned(p) / 8;
                if i + 4 > data.len() {
                    Err(ZlibError::UnexpectedEnd)
                } else if be_u32(data.skip(i)) != adler32(out) {
                    Err(ZlibError::ChecksumMismatch)
                } else {
                    Ok((out, adler32(out)))
                }
            },
        }
    }
}

/// Computes the Adler-32 checksum of `data`.
pub fn compute_adler32(data: &[u8]) -> (checksum: u32)
    ensures
        checksum == adler32(data@),
{
    let mut a: u32 = 1;
    let mut b: u32 = 0;
    for i in 0..data.len()
        invariant
            a < 65521,
            b < 65521,
            (a as nat, b as nat) == adler_sums(data@.take(i as int)),
    {
        assert(data@.take(i + 1).drop_last() =~= data@.take(i as int));
        a = (a + data[i] as u32) % ADLER_MODULUS;
        b = (b + a) % ADLER_MODULUS;
    }
    assert(data@.take(data@.len() as int) =~= data@);
    b * 0x10000 + a
}

/// Decompresses a zlib stream: its data and its checksum.
pub fn decompress(data: &[u8]) -> (decompressed: Result<(Vec<u8>, u32), ZlibError>)
    ensures
        match parse_zlib(data@) {
            Ok((out, checksum)) => decompressed matches Ok((o, c)) && o@ == out && c == checksum,
            Err(e) => decompressed == Err::<(Vec<u8>, u32), ZlibError>(e),
        },
{
    if data.len() < 2 {
        return Err(ZlibError::UnexpectedEnd);
    }
    let cmf: u8 = data[0];
    let flg: u8 = data[1];
    if cmf % 16 != 8 || cmf / 16 > 7 || (flg / 32) % 2 != 0 || (cmf as u32 * 256 + flg as u32) % 31
        != 0 {
        return Err(ZlibError::InvalidHeader);
    }
    let mut bits = BitReader::at_byte(data, 2);
    let out = read_blocks(&mut bits)?;
    bits.align();
    let i: usize = bits.byte;
    if data.len() - i < 4 {
        return Err(ZlibError::UnexpectedEnd);
    }
    let stored: u32 = data[i] as u32 * 0x1000000 + data[i + 1] as u32 * 0x10000 + data[i + 2] as u32
        * 0x100 + data[i + 3] as u32;
    let checksum: u32 = compute_adler32(out.as_slice());
    if stored != checksum {
        return Err(ZlibError::ChecksumMismatch);
    }
    Ok((out, checksum))
}

/// The two bytes of `n`, the less significant first.
pub open spec fn le_bytes(n: nat) -> Seq<u8> {
    seq![(n % 256) as u8, (n / 256) as u8]
}

/// The bytes of a block without compression.
pub open spec fn stored_block(last: bool, data: Seq<u8>) -> Seq<u8> {
    seq![
        if last {
            1u8
        } else {
            0u8
        },
    ] + le_bytes(data.len()) + le_bytes((0xffff - data.len()) as nat) + data
}

/// Blocks without compression that hold `data`, as few as possible.
pub open spec fn stored_blocks(data: Seq<u8>) -> Seq<u8>
    decreases data.len(),
{
    if data.len() <= 0xffff {
        stored_block(true, data)
    } else {
        stored_block(false, data.take(0xffff)) + stored_blocks(data.skip(0xffff))
    }
}

/// A zlib stream that holds `data` without compression.
pub open spec fn stored_zlib(data: Seq<u8>) -> Seq<u8> {
    seq![0x78u8, 0x01u8] + stored_blocks(data) + be_bytes(adler32(data))
}

/// The head of a block that starts with a byte of 0 or 1.
proof fn lemma_block_head(data: Seq<u8>, k: int)
    requires
        0 <= k < data.len(),
        data[k] <= 1,
    ensures
        bits_at(data, 8 * k, 1) == data[k],
        bits_at(data, 8 * k + 1, 2) == 0,
        aligned(8 * k + 3) == 8 * (k + 1),
{
    lemma2_to64();
    reveal_with_fuel(bits_at, 3);
    assert((8 * k) / 8 == k && (8 * k) % 8 == 0);
    assert((8 * k + 1) / 8 == k && (8 * k + 1) % 8 == 1);
    assert((8 * k + 2) / 8 == k && (8 * k + 2) % 8 == 2);
    let v = data[k] as int;
    assert(bit_at(data, 8 * k) == (v / pow2(0) as int) % 2);
    assert(bit_at(data, 8 * k + 1) == (v / pow2(1) as int) % 2);
    assert(bit_at(data, 8 * k + 2) == (v / pow2(2) as int) % 2);
    assert(v / 1 == v && v / 2 == 0 && v / 4 == 0);
    let b = bit_at(data, 8 * k);
    assert(pow2(0) * b == b) by (nonlinear_arith)
        requires
            pow2(0) == 1,
    ;
    assert(pow2(0) * 0 == 0 && pow2(1) * 0 == 0);
    assert(bits_at(data, 8 * k, 1) == bits_at(data, 8 * k, 0) + pow2(0) * bit_at(
        data,
        8 * k + 1 - 1,
    ));
    assert(bits_at(data, 8 * k + 1, 1) == bits_at(data, 8 * k + 1, 0) + pow2(0) * bit_at(
        data,
        8 * k + 1 + 1 - 1,
    ));
    assert(bits_at(data, 8 * k + 1, 2) == bits_at(data, 8 * k + 1, 1) + pow2(1) * bit_at(
        data,
        8 * k + 1 + 2 - 1,
    ));
}

/// A stored block is read back.
proof fn lemma_stored_block(s: Seq<u8>, k: int, last: bool, data: Seq<u8>, out: Seq<u8>)
    requires
        data.len() <= 0xffff,
        0 <= k,
        k + stored_block(last, data).len() <= s.len(),
        s.subrange(k, k + stored_block(last, data).len()) == stored_block(last, data),
    ensures
        stored_block(last, data).len() == 5 + data.len(),
        bits_at(s, 8 * k, 1) == (if last {
            1nat
        } else {
            0nat
        }),
        parse_block(s, 8 * k + 3, bits_at(s, 8 * k + 1, 2), out) == Ok::<
            (int, Seq<u8>),
            ZlibError,
        >((8 * (k + 5 + data.len()), out + data)),
{
    let b = stored_block(last, data);
    let sub = s.subrange(k, k + b.len());
    assert(s[k] == sub[0] && s[k + 1] == sub[1] && s[k + 2] == sub[2] && s[k + 3] == sub[3] && s[k
        + 4] == sub[4]);
    lemma_block_head(s, k);
    assert(s.subrange(k + 5, k + 5 + data.len()) =~= sub.subrange(5, 5 + data.len() as int));
    assert(sub.subrange(5, 5 + data.len() as int) =~= data);
}

/// Two sequences that stand one behind the other.
proof fn lemma_two_parts(s: Seq<u8>, k: int, first: Seq<u8>, rest: Seq<u8>)
    requires
        0 <= k,
        k + first.len() + rest.len() <= s.len(),
        s.subrange(k, k + first.len() + rest.len()) == first + rest,
    ensures
        s.subrange(k, k + first.len()) == first,
        s.subrange(k + first.len(), k + first.len() + rest.len()) == rest,
{
    let both = s.subrange(k, k + first.len() + rest.len());
    assert(s.subrange(k, k + first.len()) =~= both.take(first.len() as int));
    assert(both.take(first.len() as int) =~= first);
    assert(s.subrange(k + first.len(), k + first.len() + rest.len()) =~= both.skip(
        first.len() as int,
    ));
    assert(both.skip(first.len() as int) =~= rest);
}

/// Reading goes on behind a block, unless it is the last one.
proof fn lemma_stored_step(s: Seq<u8>, k: int, last: bool, data: Seq<u8>, out: Seq<u8>)
    requires
        data.len() <= 0xffff,
        0 <= k,
        k + stored_block(last, data).len() <= s.len(),
        s.subrange(k, k + stored_block(last, data).len()) == stored_block(last, data),
    ensures
        stored_block(last, data).len() == 5 + data.len(),
        parse_blocks(s, 8 * k, out) == (if last {
            Ok::<(int, Seq<u8>), ZlibError>((8 * (k + 5 + data.len()), out + data))
        } else {
            parse_blocks(s, 8 * (k + 5 + data.len()), out + data)
        }),
{
    lemma_stored_block(s, k, last, data, out);
    let p = 8 * k;
    assert(p + 3 <= 8 * s.len());
}

#[verifier::spinoff_prover]
proof fn lemma_stored_blocks(s: Seq<u8>, k: int, data: Seq<u8>, out: Seq<u8>)
    requires
        0 <= k,
        k + stored_blocks(data).len() <= s.len(),
        s.subrange(k, k + stored_blocks(data).len()) == stored_blocks(data),
    ensures
        parse_blocks(s, 8 * k, out) == Ok::<(int, Seq<u8>), ZlibError>(
            (8 * (k + stored_blocks(data).len()), out + data),
        ),
    decreases data.len(),
{
    if data.len() <= 0xffff {
        lemma_stored_step(s, k, true, data, out);
    } else {
        let head = data.take(0xffff);
        let tail = data.skip(0xffff);
        let first = stored_block(false, head);
        lemma_two_parts(s, k, first, stored_blocks(tail));
        lemma_stored_step(s, k, false, head, out);
        lemma_stored_blocks(s, k + first.len(), tail, out + head);
        assert(out + head + tail =~= out + data);
    }
}

/// The checksum behind the blocks.
proof fn lemma_trailer(blocks: Seq<u8>, checksum: u32)
    ensures
        ({
            let s = seq![0x78u8, 0x01u8] + blocks + be_bytes(checksum);
            let i = 2 + blocks.len() as int;
            &&& s.len() == i + 4
            &&& s[0] == 0x78
            &&& s[1] == 0x01
            &&& s.subrange(2, i) == blocks
            &&& be_u32(s.skip(i)) == checksum
        }),
{
    let s = seq![0x78u8, 0x01u8] + blocks + be_bytes(checksum);
    let i = 2 + blocks.len() as int;
    assert(s.subrange(2, i) =~= blocks);
    assert(s.skip(i) =~= be_bytes(checksum) + Seq::<u8>::empty());
    law_be_u32_round_trip(checksum, Seq::empty());
}

/// Data that was stored without compression is read back.
pub proof fn law_stored_round_trip(data: Seq<u8>)
    ensures
        parse_zlib(stored_zlib(data)) == Ok::<(Seq<u8>, u32), ZlibError>((data, adler32(data))),
{
    let s = stored_zlib(data);
    lemma_trailer(stored_blocks(data), adler32(data));
    lemma_stored_blocks(s, 2, data, Seq::empty());
    assert(Seq::<u8>::empty() + data =~= data);
    let i = 2 + stored_blocks(data).len() as int;
    assert(aligned(8 * i) / 8 == i);
    assert(valid_zlib_header(0x78, 0x01));
}

} // verus!
