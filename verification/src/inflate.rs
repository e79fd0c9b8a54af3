//! Decompression of DEFLATE data.

use vstd::arithmetic::power2::{lemma2_to64, pow2};
use vstd::bits::lemma_u32_shl_is_mul;
use vstd::prelude::*;
use crate::bits::{aligned, bits_at, BitReader};
use crate::error::ZlibError;
use crate::huffman::{complete, decode, lemma_decode_advances, usable, Huffman};

verus! {

/// The symbol that ends a block.
pub const END_OF_BLOCK: u16 = 256;

/// The order in which the lengths of the code for code lengths are stored.
pub const CODE_LENGTH_ORDER: [u8; 19] = [
    16, 17, 18, 0, 8, 7, 9, 6, 10, 5, 11, 4, 12, 3, 13, 2, 14, 1, 15,
];

/// How many bits follow the `s`-th length symbol.
pub open spec fn length_extra(s: nat) -> nat {
    if s < 8 || s == 28 {
        0
    } else {
        (s / 4 - 1) as nat
    }
}

/// The smallest length that the `s`-th length symbol stands for.
pub open spec fn length_base(s: nat) -> nat {
    if s < 8 {
        3 + s
    } else if s == 28 {
        258
    } else {
        3 + (4 + s % 4) * pow2((s / 4 - 1) as nat)
    }
}

/// How many bits follow distance symbol `s`.
pub open spec fn distance_extra(s: nat) -> nat {
    if s < 4 {
        0
    } else {
        (s / 2 - 1) as nat
    }
}

/// The smallest distance that distance symbol `s` stands for.
pub open spec fn distance_base(s: nat) -> nat {
    if s < 4 {
        1 + s
    } else {
        1 + (2 + s % 2) * pow2((s / 2 - 1) as nat)
    }
}

/// `out` with `len` more bytes, each a copy of the byte `distance` bytes before it.
pub open spec fn copied(out: Seq<u8>, distance: int, len: nat) -> Seq<u8>
    decreases len,
{
    if len == 0 {
        out
    } else {
        let before = copied(out, distance, (len - 1) as nat);
        before.push(before[before.len() - distance])
    }
}

/// The match that follows the `s`-th length symbol at position `p`: its length, its
/// distance, and the position behind it.
pub open spec fn parse_match(dist: Seq<u8>, data: Seq<u8>, p: int, s: nat) -> Result<
    (nat, nat, int),
    ZlibError,
> {
    let end = 8 * data.len();
    let p1 = p + length_extra(s);
    if s >= 29 {
        Err(ZlibError::InvalidCode)
    } else if p1 > end {
        Err(ZlibError::UnexpectedEnd)
    } else {
        match decode(dist, data, p1) {
            Err(e) => Err(e),
            Ok((d, p2)) => {
                let p3 = p2 + distance_extra(d as nat);
                if d >= 30 {
                    Err(ZlibError::InvalidCode)
                } else if p3 > end {
                    Err(ZlibError::UnexpectedEnd)
                } else {
                    Ok(
                        (
                            length_base(s) + bits_at(data, p, length_extra(s)),
                            distance_base(d as nat) + bits_at(data, p2, distance_extra(d as nat)),
                            p3,
                        ),
                    )
                }
            },
        }
    }
}

/// What the symbols from position `p` on add to `out`, up to the end of the block,
/// and the position behind it.
pub open spec fn parse_symbols(
    lit: Seq<u8>,
    dist: Seq<u8>,
    data: Seq<u8>,
    p: int,
    out: Seq<u8>,
) -> Result<(int, Seq<u8>), ZlibError>
    decreases 8 * data.len() - p,
    via parse_symbols_ends
{
    match decode(lit, data, p) {
        Err(e) => Err(e),
        Ok((symbol, p1)) => if symbol < END_OF_BLOCK {
            parse_symbols(lit, dist, data, p1, out.push(symbol as u8))
        } else if symbol == END_OF_BLOCK {
            Ok((p1, out))
        } else {
            match parse_match(dist, data, p1, (symbol - 257) as nat) {
                Err(e) => Err(e),
                Ok((len, distance, p2)) => if distance > out.len() {
                    Err(ZlibError::InvalidDistance)
                } else {
                    parse_symbols(lit, dist, data, p2, copied(out, distance as int, len))
                },
            }
        },
    }
}

#[via_fn]
proof fn parse_symbols_ends(lit: Seq<u8>, dist: Seq<u8>, data: Seq<u8>, p: int, out: Seq<u8>) {
    lemma_decode_advances(lit, data, p);
    if let Ok((symbol, p1)) = decode(lit, data, p) {
        lemma_match_advances(dist, data, p1, (symbol - 257) as nat);
    }
}

proof fn lemma_match_advances(dist: Seq<u8>, data: Seq<u8>, p: int, s: nat)
    ensures
        parse_match(dist, data, p, s) matches Ok((_, _, q)) ==> p < q <= 8 * data.len(),
{
    lemma_decode_advances(dist, data, p + length_extra(s));
}

/// The code lengths of the literals in a block with the fixed codes.
pub open spec fn fixed_literal_lengths() -> Seq<u8> {
    Seq::new(
        288,
        |i: int|
            if i < 144 {
                8u8
            } else if i < 256 {
                9u8
            } else if i < 280 {
                7u8
            } else {
                8u8
            },
    )
}

/// The code lengths of the distances in a block with the fixed codes.
pub open spec fn fixed_distance_lengths() -> Seq<u8> {
    Seq::new(32, |i: int| 5u8)
}

/// The lengths of the code for code lengths, of which `n` are stored from position
/// `p` on.
pub open spec fn stored_lengths(data: Seq<u8>, p: int, n: nat) -> Seq<u8>
    decreases n,
{
    if n == 0 {
        Seq::new(19, |i: int| 0u8)
    } else {
        stored_lengths(data, p, (n - 1) as nat).update(
            CODE_LENGTH_ORDER@[n - 1] as int,
            bits_at(data, p + 3 * (n - 1), 3) as u8,
        )
    }
}

/// `lengths` with `n` more entries `value`.
pub open spec fn repeated(lengths: Seq<u8>, value: u8, n: nat) -> Seq<u8> {
    lengths + Seq::new(n, |i: int| value)
}

/// What a symbol of the code for code lengths repeats, how many bits say how often,
/// and how often at least.
pub open spec fn repetition(symbol: u16, lengths: Seq<u8>) -> (u8, nat, nat) {
    if symbol < 16 {
        (symbol as u8, 0, 1)
    } else if symbol == 16 {
        (lengths.last(), 2, 3)
    } else if symbol == 17 {
        (0, 3, 3)
    } else {
        (0, 7, 11)
    }
}

/// The code lengths from position `p` on, up to `total` of them, and the position
/// behind them.
pub open spec fn parse_lengths(
    code: Seq<u8>,
    data: Seq<u8>,
    p: int,
    total: nat,
    lengths: Seq<u8>,
) -> Result<(int, Seq<u8>), ZlibError>
    decreases 8 * data.len() - p,
    via parse_lengths_ends
{
    if lengths.len() >= total {
        Ok((p, lengths))
    } else {
        match decode(code, data, p) {
            Err(e) => Err(e),
            Ok((symbol, p1)) => {
                let (value, extra, least) = repetition(symbol, lengths);
                let n = least + bits_at(data, p1, extra);
                if symbol == 16 && lengths.len() == 0 {
                    Err(ZlibError::InvalidCodeLengths)
                } else if p1 + extra > 8 * data.len() {
                    Err(ZlibError::UnexpectedEnd)
                } else if lengths.len() + n > total {
                    Err(ZlibError::InvalidCodeLengths)
                } else {
                    parse_lengths(code, data, p1 + extra, total, repeated(lengths, value, n))
                }
            },
        }
    }
}

#[via_fn]
proof fn parse_lengths_ends(
    code: Seq<u8>,
    data: Seq<u8>,
    p: int,
    total: nat,
    lengths: Seq<u8>,
) {
    lemma_decode_advances(code, data, p);
}

/// The code lengths of the literals and of the distances that stand at position `p`,
/// and the position behind them.
pub open spec fn parse_codes(data: Seq<u8>, p: int) -> Result<
    (Seq<u8>, Seq<u8>, int),
    ZlibError,
> {
    let end = 8 * data.len();
    let literals = 257 + bits_at(data, p, 5);
    let distances = 1 + bits_at(data, p + 5, 5);
    let n = 4 + bits_at(data, p + 10, 4);
    let code = stored_lengths(data, p + 14, n);
    if p + 14 > end {
        Err(ZlibError::UnexpectedEnd)
    } else if literals > 286 || distances > 30 {
        Err(ZlibError::InvalidCodeLengths)
    } else if p + 14 + 3 * n > end {
        Err(ZlibError::UnexpectedEnd)
    } else if !complete(code) {
        Err(ZlibError::InvalidCodeLengths)
    } else {
        match parse_lengths(code, data, p + 14 + 3 * n, literals + distances, Seq::empty()) {
            Err(e) => Err(e),
            Ok((p1, lengths)) => {
                let lit = lengths.take(literals as int);
                let dist = lengths.skip(literals as int);
                if lit[END_OF_BLOCK as int] == 0 || !usable(lit) || !usable(dist) {
                    Err(ZlibError::InvalidCodeLengths)
                } else {
                    Ok((lit, dist, p1))
                }
            },
        }
    }
}

/// The little-endian value of the two bytes at `i`.
pub open spec fn le_u16(data: Seq<u8>, i: int) -> int {
    data[i] + 256 * data[i + 1]
}

/// What a block without compression adds to `out`. It starts with the byte behind
/// position `p`: its length twice, once complemented, then its bytes.
pub open spec fn parse_stored(data: Seq<u8>, p: int, out: Seq<u8>) -> Result<
    (int, Seq<u8>),
    ZlibError,
> {
    let i = aligned(p) / 8;
    let len = le_u16(data, i);
    if i + 4 > data.len() {
        Err(ZlibError::UnexpectedEnd)
    } else if len + le_u16(data, i + 2) != 0xffff {
        Err(ZlibError::InvalidStoredLength)
    } else if i + 4 + len > data.len() {
        Err(ZlibError::UnexpectedEnd)
    } else {
        Ok((8 * (i + 4 + len), out + data.subrange(i + 4, i + 4 + len)))
    }
}

/// What a block of type `kind` at position `p` adds to `out`, and the position behind
/// it.
pub open spec fn parse_block(data: Seq<u8>, p: int, kind: nat, out: Seq<u8>) -> Result<
    (int, Seq<u8>),
    ZlibError,
> {
    if kind == 0 {
        parse_stored(data, p, out)
    } else if kind == 1 {
        parse_symbols(fixed_literal_lengths(), fixed_distance_lengths(), data, p, out)
    } else if kind == 2 {
        match parse_codes(data, p) {
            Err(e) => Err(e),
            Ok((lit, dist, p1)) => parse_symbols(lit, dist, data, p1, out),
        }
    } else {
        Err(ZlibError::InvalidBlockType)
    }
}

/// What the blocks from position `p` on add to `out`, up to the one marked as the
/// last, and the position behind it.
pub open spec fn parse_blocks(data: Seq<u8>, p: int, out: Seq<u8>) -> Result<
    (int, Seq<u8>),
    ZlibError,
>
    decreases 8 * data.len() - p,
    via parse_blocks_ends
{
    if p + 3 > 8 * data.len() {
        Err(ZlibError::UnexpectedEnd)
    } else {
        match parse_block(data, p + 3, bits_at(data, p + 1, 2), out) {
            Err(e) => Err(e),
            Ok((p1, more)) => if bits_at(data, p, 1) == 1 {
                Ok((p1, more))
            } else {
                parse_blocks(data, p1, more)
            },
        }
    }
}

#[via_fn]
proof fn parse_blocks_ends(data: Seq<u8>, p: int, out: Seq<u8>) {
    lemma_block_advances(data, p + 3, bits_at(data, p + 1, 2), out);
}

proof fn lemma_symbols_advance(lit: Seq<u8>, dist: Seq<u8>, data: Seq<u8>, p: int, out: Seq<u8>)
    ensures
        parse_symbols(lit, dist, data, p, out) matches Ok((q, _)) ==> p < q <= 8 * data.len(),
    decreases 8 * data.len() - p,
{
    lemma_decode_advances(lit, data, p);
    if let Ok((symbol, p1)) = decode(lit, data, p) {
        if symbol < END_OF_BLOCK {
            lemma_symbols_advance(lit, dist, data, p1, out.push(symbol as u8));
        } else if symbol > END_OF_BLOCK {
            lemma_match_advances(dist, data, p1, (symbol - 257) as nat);
            if let Ok((len, distance, p2)) = parse_match(dist, data, p1, (symbol - 257) as nat) {
                lemma_symbols_advance(lit, dist, data, p2, copied(out, distance as int, len));
            }
        }
    }
}

proof fn lemma_lengths_advance(
    code: Seq<u8>,
    data: Seq<u8>,
    p: int,
    total: nat,
    lengths: Seq<u8>,
)
    requires
        p <= 8 * data.len(),
        lengths.len() <= total,
    ensures
        parse_lengths(code, data, p, total, lengths) matches Ok((q, all)) ==> {
            &&& p <= q <= 8 * data.len()
            &&& all.len() == total
        },
    decreases 8 * data.len() - p,
{
    lemma_decode_advances(code, data, p);
    if lengths.len() < total {
        if let Ok((symbol, p1)) = decode(code, data, p) {
            let (value, extra, least) = repetition(symbol, lengths);
            let n = least + bits_at(data, p1, extra);
            if p1 + extra <= 8 * data.len() && lengths.len() + n <= total {
                lemma_lengths_advance(code, data, p1 + extra, total, repeated(lengths, value, n));
            }
        }
    }
}

proof fn lemma_codes_advance(data: Seq<u8>, p: int)
    ensures
        parse_codes(data, p) matches Ok((lit, dist, q)) ==> {
            &&& p < q <= 8 * data.len()
            &&& 257 <= lit.len() <= 286
            &&& 1 <= dist.len() <= 30
        },
{
    let literals = 257 + bits_at(data, p, 5);
    let distances = 1 + bits_at(data, p + 5, 5);
    let n = 4 + bits_at(data, p + 10, 4);
    if p + 14 + 3 * n <= 8 * data.len() {
        lemma_lengths_advance(
            stored_lengths(data, p + 14, n),
            data,
            p + 14 + 3 * n,
            literals + distances,
            Seq::empty(),
        );
    }
}

/// A block ends behind its start and in the data.
pub proof fn lemma_block_advances(data: Seq<u8>, p: int, kind: nat, out: Seq<u8>)
    ensures
        parse_block(data, p, kind, out) matches Ok((q, _)) ==> p <= q <= 8 * data.len(),
{
    lemma_symbols_advance(fixed_literal_lengths(), fixed_distance_lengths(), data, p, out);
    lemma_codes_advance(data, p);
    if let Ok((lit, dist, p1)) = parse_codes(data, p) {
        lemma_symbols_advance(lit, dist, data, p1, out);
    }
}

/// The blocks end behind their start and in the data.
pub proof fn lemma_blocks_advance(data: Seq<u8>, p: int, out: Seq<u8>)
    ensures
        parse_blocks(data, p, out) matches Ok((q, _)) ==> p < q <= 8 * data.len(),
    decreases 8 * data.len() - p,
{
    if p + 3 <= 8 * data.len() {
        let kind = bits_at(data, p + 1, 2);
        lemma_block_advances(data, p + 3, kind, out);
        if let Ok((p1, more)) = parse_block(data, p + 3, kind, out) {
            lemma_blocks_advance(data, p1, more);
        }
    }
}

/// Appends `len` bytes, each a copy of the byte `distance` bytes before it.
fn copy_match(out: &mut Vec<u8>, distance: usize, len: usize)
    requires
        1 <= distance <= old(out)@.len(),
    ensures
        final(out)@ == copied(old(out)@, distance as int, len as nat),
{
    let ghost start = out@;
    for i in 0..len
        invariant
            1 <= distance <= start.len(),
            out@.len() == start.len() + i,
            out@ == copied(start, distance as int, i as nat),
    {
        let byte: u8 = out[out.len() - distance];
        out.push(byte);
    }
}

/// The smallest length of the `s`-th length symbol and the number of bits behind it.
fn length_symbol(s: u32) -> (pair: (u32, u32))
    requires
        s < 29,
    ensures
        pair.0 == length_base(s as nat),
        pair.0 <= 258,
        pair.1 == length_extra(s as nat),
        pair.1 <= 5,
{
    if s < 8 {
        (3 + s, 0)
    } else if s == 28 {
        (258, 0)
    } else {
        let extra: u32 = s / 4 - 1;
        let x: u32 = 4 + s % 4;
        proof {
            lemma2_to64();
            assert(x * pow2(extra as nat) <= 7 * 32) by (nonlinear_arith)
                requires
                    x <= 7,
                    pow2(extra as nat) <= 32,
            ;
            lemma_u32_shl_is_mul(x, extra);
        }
        (3 + (x << extra), extra)
    }
}

/// The smallest distance of distance symbol `s` and the number of bits behind it.
fn distance_symbol(s: u32) -> (pair: (u32, u32))
    requires
        s < 30,
    ensures
        pair.0 == distance_base(s as nat),
        1 <= pair.0 <= 24577,
        pair.1 == distance_extra(s as nat),
        pair.1 <= 13,
{
    if s < 4 {
        (1 + s, 0)
    } else {
        let extra: u32 = s / 2 - 1;
        let x: u32 = 2 + s % 2;
        proof {
            lemma2_to64();
            assert(x * pow2(extra as nat) <= 3 * 8192) by (nonlinear_arith)
                requires
                    x <= 3,
                    pow2(extra as nat) <= 8192,
            ;
            lemma_u32_shl_is_mul(x, extra);
        }
        (1 + (x << extra), extra)
    }
}

/// Reads the match that follows the `s`-th length symbol.
fn read_match(dist: &Huffman, bits: &mut BitReader, s: u32) -> (found: Result<
    (usize, usize),
    ZlibError,
>)
    requires
        dist.wf(),
        old(bits).wf(),
    ensures
        final(bits).wf(),
        final(bits).data@ == old(bits).data@,
        match parse_match(dist.lengths@, old(bits).data@, old(bits).pos(), s as nat) {
            Ok((len, distance, p)) => {
                &&& found == Ok::<(usize, usize), ZlibError>((len as usize, distance as usize))
                &&& len <= usize::MAX
                &&& 1 <= distance <= usize::MAX
                &&& final(bits).pos() == p
            },
            Err(e) => found == Err::<(usize, usize), ZlibError>(e),
        },
{
    if s >= 29 {
        return Err(ZlibError::InvalidCode);
    }
    let (length_low, extra): (u32, u32) = length_symbol(s);
    proof {
        lemma2_to64();
    }
    let length_high: u32 = bits.read_bits(extra)?;
    let d: u16 = dist.decode(bits)?;
    if d >= 30 {
        return Err(ZlibError::InvalidCode);
    }
    let (distance_low, extra): (u32, u32) = distance_symbol(d as u32);
    let distance_high: u32 = bits.read_bits(extra)?;
    Ok(((length_low + length_high) as usize, (distance_low + distance_high) as usize))
}

/// Reads the symbols of a block up to its end.
fn read_symbols(lit: &Huffman, dist: &Huffman, bits: &mut BitReader, out: &mut Vec<u8>) -> (done:
    Result<(), ZlibError>)
    requires
        lit.wf(),
        dist.wf(),
        old(bits).wf(),
    ensures
        final(bits).wf(),
        final(bits).data@ == old(bits).data@,
        match parse_symbols(
            lit.lengths@,
            dist.lengths@,
            old(bits).data@,
            old(bits).pos(),
            old(out)@,
        ) {
            Ok((p, more)) => done is Ok && final(bits).pos() == p && final(out)@ == more,
            Err(e) => done == Err::<(), ZlibError>(e),
        },
{
    let ghost data = bits.data@;
    let ghost parsed = parse_symbols(lit.lengths@, dist.lengths@, data, bits.pos(), out@);
    loop
        invariant
            lit.wf(),
            dist.wf(),
            bits.wf(),
            bits.data@ == data,
            data == old(bits).data@,
            parsed == parse_symbols(lit.lengths@, dist.lengths@, data, bits.pos(), out@),
            parsed == parse_symbols(
                lit.lengths@,
                dist.lengths@,
                old(bits).data@,
                old(bits).pos(),
                old(out)@,
            ),
        decreases 8 * data.len() - bits.pos(),
    {
        proof {
            lemma_decode_advances(lit.lengths@, data, bits.pos());
        }
        let symbol: u16 = lit.decode(bits)?;
        if symbol < END_OF_BLOCK {
            out.push(symbol as u8);
        } else if symbol == END_OF_BLOCK {
            return Ok(());
        } else {
            proof {
                lemma_match_advances(dist.lengths@, data, bits.pos(), (symbol - 257) as nat);
            }
            let (len, distance): (usize, usize) = read_match(dist, bits, symbol as u32 - 257)?;
            if distance > out.len() {
                return Err(ZlibError::InvalidDistance);
            }
            copy_match(out, distance, len);
        }
    }
}

/// The fixed code of the literals.
fn fixed_literals() -> (code: Huffman)
    ensures
        code.wf(),
        code.lengths@ == fixed_literal_lengths(),
{
    let mut lengths: Vec<u8> = Vec::new();
    for i in 0..288usize
        invariant
            lengths@.len() == i,
            forall|k: int| 0 <= k < i ==> #[trigger] lengths@[k] == fixed_literal_lengths()[k],
    {
        lengths.push(
            if i < 144 {
                8
            } else if i < 256 {
                9
            } else if i < 280 {
                7
            } else {
                8
            },
        );
    }
    assert(lengths@ =~= fixed_literal_lengths());
    Huffman::new(lengths)
}

/// The fixed code of the distances.
fn fixed_distances() -> (code: Huffman)
    ensures
        code.wf(),
        code.lengths@ == fixed_distance_lengths(),
{
    let mut lengths: Vec<u8> = Vec::new();
    for i in 0..32usize
        invariant
            lengths@.len() == i,
            forall|k: int| 0 <= k < i ==> #[trigger] lengths@[k] == 5,
    {
        lengths.push(5);
    }
    assert(lengths@ =~= fixed_distance_lengths());
    Huffman::new(lengths)
}

/// Reads `n` lengths of the code for code lengths.
fn read_stored_lengths(bits: &mut BitReader, n: usize) -> (lengths: Result<Vec<u8>, ZlibError>)
    requires
        old(bits).wf(),
        n <= 19,
    ensures
        final(bits).wf(),
        final(bits).data@ == old(bits).data@,
        old(bits).pos() + 3 * n <= 8 * old(bits).data@.len() ==> {
            &&& lengths matches Ok(l)
            &&& l@ == stored_lengths(old(bits).data@, old(bits).pos(), n as nat)
            &&& l@.len() == 19
            &&& final(bits).pos() == old(bits).pos() + 3 * n
        },
        old(bits).pos() + 3 * n > 8 * old(bits).data@.len() ==> lengths == Err::<
            Vec<u8>,
            ZlibError,
        >(ZlibError::UnexpectedEnd),
{
    let ghost data = bits.data@;
    let ghost start = bits.pos();
    let mut lengths: Vec<u8> = Vec::new();
    for i in 0..19usize
        invariant
            lengths@ =~= Seq::new(i as nat, |k: int| 0u8),
    {
        lengths.push(0);
    }
    for i in 0..n
        invariant
            n <= 19,
            bits.wf(),
            bits.data@ == data,
            data == old(bits).data@,
            start == old(bits).pos(),
            bits.pos() == start + 3 * i,
            start + 3 * i <= 8 * data.len(),
            lengths@.len() == 19,
            lengths@ == stored_lengths(data, start, i as nat),
    {
        proof {
            lemma2_to64();
        }
        let length: u32 = bits.read_bits(3)?;
        let place: usize = CODE_LENGTH_ORDER[i] as usize;
        lengths[place] = length as u8;
    }
    Ok(lengths)
}

/// Reads `total` code lengths.
fn read_lengths(code: &Huffman, bits: &mut BitReader, total: usize) -> (lengths: Result<
    Vec<u8>,
    ZlibError,
>)
    requires
        code.wf(),
        old(bits).wf(),
    ensures
        final(bits).wf(),
        final(bits).data@ == old(bits).data@,
        match parse_lengths(
            code.lengths@,
            old(bits).data@,
            old(bits).pos(),
            total as nat,
            Seq::empty(),
        ) {
            Ok((p, all)) => {
                &&& lengths matches Ok(l)
                &&& l@ == all
                &&& final(bits).pos() == p
            },
            Err(e) => lengths == Err::<Vec<u8>, ZlibError>(e),
        },
{
    let ghost data = bits.data@;
    let ghost parsed = parse_lengths(
        code.lengths@,
        data,
        bits.pos(),
        total as nat,
        Seq::empty(),
    );
    let mut lengths: Vec<u8> = Vec::new();
    assert(lengths@ =~= Seq::<u8>::empty());
    while lengths.len() < total
        invariant
            code.wf(),
            bits.wf(),
            bits.data@ == data,
            data == old(bits).data@,
            parsed == parse_lengths(
                code.lengths@,
                old(bits).data@,
                old(bits).pos(),
                total as nat,
                Seq::empty(),
            ),
            parsed == parse_lengths(code.lengths@, data, bits.pos(), total as nat, lengths@),
        decreases 8 * data.len() - bits.pos(),
    {
        proof {
            lemma_decode_advances(code.lengths@, data, bits.pos());
            lemma2_to64();
        }
        let symbol: u16 = code.decode(bits)?;
        let ghost before = lengths@;
        let (value, extra, least): (u8, u32, u32) = if symbol < 16 {
            (symbol as u8, 0, 1)
        } else if symbol == 16 {
            if lengths.len() == 0 {
                return Err(ZlibError::InvalidCodeLengths);
            }
            (lengths[lengths.len() - 1], 2, 3)
        } else if symbol == 17 {
            (0, 3, 3)
        } else {
            (0, 7, 11)
        };
        let n: u32 = least + bits.read_bits(extra)?;
        if n as usize > total - lengths.len() {
            return Err(ZlibError::InvalidCodeLengths);
        }
        for i in 0..n
            invariant
                lengths@ =~= repeated(before, value, i as nat),
        {
            lengths.push(value);
        }
    }
    Ok(lengths)
}

/// Reads the codes of a block.
fn read_codes(bits: &mut BitReader) -> (codes: Result<(Huffman, Huffman), ZlibError>)
    requires
        old(bits).wf(),
    ensures
        final(bits).wf(),
        final(bits).data@ == old(bits).data@,
        match parse_codes(old(bits).data@, old(bits).pos()) {
            Ok((lit, dist, p)) => {
                &&& codes matches Ok((l, d))
                &&& l.wf()
                &&& d.wf()
                &&& l.lengths@ == lit
                &&& d.lengths@ == dist
                &&& final(bits).pos() == p
            },
            Err(e) => codes == Err::<(Huffman, Huffman), ZlibError>(e),
        },
{
    let ghost data = bits.data@;
    let ghost p = bits.pos();
    proof {
        lemma2_to64();
        lemma_codes_advance(data, p);
    }
    let literals: usize = 257 + bits.read_bits(5)? as usize;
    let distances: usize = 1 + bits.read_bits(5)? as usize;
    let n: usize = 4 + bits.read_bits(4)? as usize;
    if literals > 286 || distances > 30 {
        return Err(ZlibError::InvalidCodeLengths);
    }
    let code = Huffman::new(read_stored_lengths(bits, n)?);
    if !code.is_complete() {
        return Err(ZlibError::InvalidCodeLengths);
    }
    proof {
        lemma_lengths_advance(
            code.lengths@,
            data,
            bits.pos(),
            (literals + distances) as nat,
            Seq::empty(),
        );
    }
    let lengths = read_lengths(&code, bits, literals + distances)?;
    let all = lengths.as_slice();
    let lit_lengths = vstd::slice::slice_to_vec(vstd::slice::slice_subrange(all, 0, literals));
    let dist_lengths = vstd::slice::slice_to_vec(
        vstd::slice::slice_subrange(all, literals, literals + distances),
    );
    assert(lit_lengths@ =~= lengths@.take(literals as int));
    assert(dist_lengths@ =~= lengths@.skip(literals as int));
    let ended: bool = lit_lengths[END_OF_BLOCK as usize] != 0;
    let lit = Huffman::new(lit_lengths);
    let dist = Huffman::new(dist_lengths);
    if !ended || !lit.is_usable() || !dist.is_usable() {
        return Err(ZlibError::InvalidCodeLengths);
    }
    Ok((lit, dist))
}

/// Reads a block without compression.
fn read_stored(bits: &mut BitReader, out: &mut Vec<u8>) -> (done: Result<(), ZlibError>)
    requires
        old(bits).wf(),
    ensures
        final(bits).wf(),
        final(bits).data@ == old(bits).data@,
        match parse_stored(old(bits).data@, old(bits).pos(), old(out)@) {
            Ok((p, more)) => done is Ok && final(bits).pos() == p && final(out)@ == more,
            Err(e) => done == Err::<(), ZlibError>(e),
        },
{
    bits.align();
    let data = bits.data;
    let i: usize = bits.byte;
    if data.len() - i < 4 {
        return Err(ZlibError::UnexpectedEnd);
    }
    let len: usize = data[i] as usize + 256 * data[i + 1] as usize;
    let complement: usize = data[i + 2] as usize + 256 * data[i + 3] as usize;
    if len + complement != 0xffff {
        return Err(ZlibError::InvalidStoredLength);
    }
    if data.len() - (i + 4) < len {
        return Err(ZlibError::UnexpectedEnd);
    }
    let block = vstd::slice::slice_subrange(data, i + 4, i + 4 + len);
    out.extend_from_slice(block);
    bits.byte = i + 4 + len;
    assert(out@ =~= old(out)@ + data@.subrange(i + 4, i + 4 + len));
    Ok(())
}

/// Decompresses the DEFLATE blocks at the reader's position.
pub fn read_blocks(bits: &mut BitReader) -> (out: Result<Vec<u8>, ZlibError>)
    requires
        old(bits).wf(),
    ensures
        final(bits).wf(),
        final(bits).data@ == old(bits).data@,
        match parse_blocks(old(bits).data@, old(bits).pos(), Seq::empty()) {
            Ok((p, more)) => {
                &&& out matches Ok(o)
                &&& o@ == more
                &&& final(bits).pos() == p
            },
            Err(e) => out == Err::<Vec<u8>, ZlibError>(e),
        },
{
    let ghost data = bits.data@;
    let ghost parsed = parse_blocks(data, bits.pos(), Seq::empty());
    let mut out: Vec<u8> = Vec::new();
    assert(out@ =~= Seq::<u8>::empty());
    loop
        invariant
            bits.wf(),
            bits.data@ == data,
            data == old(bits).data@,
            parsed == parse_blocks(old(bits).data@, old(bits).pos(), Seq::empty()),
            parsed == parse_blocks(data, bits.pos(), out@),
        decreases 8 * data.len() - bits.pos(),
    {
        let ghost p = bits.pos();
        proof {
            lemma2_to64();
            lemma_block_advances(data, p + 3, bits_at(data, p + 1, 2), out@);
        }
        let last: u32 = bits.read_bits(1)?;
        let kind: u32 = bits.read_bits(2)?;
        if kind == 0 {
            read_stored(bits, &mut out)?;
        } else if kind == 1 {
            read_symbols(&fixed_literals(), &fixed_distances(), bits, &mut out)?;
        } else if kind == 2 {
            let (lit, dist) = read_codes(bits)?;
            read_symbols(&lit, &dist, bits, &mut out)?;
        } else {
            return Err(ZlibError::InvalidBlockType);
        }
        if last == 1 {
            return Ok(out);
        }
    }
}

} // verus!
