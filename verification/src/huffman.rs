//! Canonical Huffman codes, given by the length of each symbol's code word.

use vstd::arithmetic::power2::{lemma2_to64, pow2};
use vstd::prelude::*;
use crate::bits::{bit_at, BitReader};
use crate::error::ZlibError;

verus! {

/// The length of the longest code words.
pub const MAX_LENGTH: usize = 15;

/// Those of the first `n` symbols whose code words have length `l`, in their order.
pub open spec fn of_length(lengths: Seq<u8>, l: int, n: nat) -> Seq<u16>
    decreases n,
{
    if n == 0 {
        Seq::empty()
    } else if lengths[n - 1] == l {
        of_length(lengths, l, (n - 1) as nat).push((n - 1) as u16)
    } else {
        of_length(lengths, l, (n - 1) as nat)
    }
}

/// All symbols whose code words have length `l`.
pub open spec fn symbols_of(lengths: Seq<u8>, l: int) -> Seq<u16> {
    of_length(lengths, l, lengths.len())
}

/// The number of code words of length `l`.
pub open spec fn count(lengths: Seq<u8>, l: int) -> nat {
    symbols_of(lengths, l).len()
}

/// The first code word of length `l`: it follows the last one of length `l - 1`,
/// with a 0 behind.
pub open spec fn first_code(lengths: Seq<u8>, l: nat) -> nat
    decreases l,
{
    if l <= 1 {
        0
    } else {
        2 * (first_code(lengths, (l - 1) as nat) + count(lengths, l - 1))
    }
}

/// The symbols with code words of lengths 1 to `l`, shorter code words first.
pub open spec fn symbols_up_to(lengths: Seq<u8>, l: nat) -> Seq<u16>
    decreases l,
{
    if l == 0 {
        Seq::empty()
    } else {
        symbols_up_to(lengths, (l - 1) as nat) + symbols_of(lengths, l as int)
    }
}

/// How many code words of length `l` are still free once all code words of lengths
/// 1 to `l` are given out; negative where there are too many of them.
pub open spec fn free_codes(lengths: Seq<u8>, l: nat) -> int
    decreases l,
{
    if l == 0 {
        1
    } else {
        2 * free_codes(lengths, (l - 1) as nat) - count(lengths, l as int)
    }
}

/// Every sequence of bits starts with a code word, or there are no code words.
pub open spec fn complete(lengths: Seq<u8>) -> bool {
    free_codes(lengths, 15) == 0 || symbols_up_to(lengths, 15).len() == 0
}

/// The code is complete, or has no code words but of length one.
pub open spec fn usable(lengths: Seq<u8>) -> bool {
    ||| free_codes(lengths, 15) == 0
    ||| free_codes(lengths, 15) > 0 && symbols_up_to(lengths, 15).len() == count(lengths, 1)
}

/// The symbol whose code word stands at position `p`, and the position behind it,
/// where the first `l` bits have the value `code` and are no code word.
pub open spec fn decode_from(lengths: Seq<u8>, data: Seq<u8>, p: int, code: nat, l: nat) -> Result<
    (u16, int),
    ZlibError,
>
    decreases 15 - l,
{
    if l >= 15 {
        Err(ZlibError::InvalidCode)
    } else if p + l >= 8 * data.len() {
        Err(ZlibError::UnexpectedEnd)
    } else {
        let longer = 2 * code + bit_at(data, p + l);
        let m = l + 1;
        let index = longer - first_code(lengths, m);
        if 0 <= index < count(lengths, m as int) {
            Ok((symbols_of(lengths, m as int)[index], p + m))
        } else {
            decode_from(lengths, data, p, longer, m)
        }
    }
}

/// The symbol whose code word stands at position `p`, most significant bit first,
/// and the position behind it.
pub open spec fn decode(lengths: Seq<u8>, data: Seq<u8>, p: int) -> Result<(u16, int), ZlibError> {
    decode_from(lengths, data, p, 0, 0)
}

proof fn lemma_decode_from_advances(lengths: Seq<u8>, data: Seq<u8>, p: int, code: nat, l: nat)
    ensures
        decode_from(lengths, data, p, code, l) matches Ok((_, q)) ==> p < q <= 8 * data.len(),
    decreases 15 - l,
{
    if l < 15 && p + l < 8 * data.len() {
        lemma_decode_from_advances(
            lengths,
            data,
            p,
            2 * code + bit_at(data, p + l),
            l + 1,
        );
    }
}

/// A code word has at least one bit and lies in the data.
pub proof fn lemma_decode_advances(lengths: Seq<u8>, data: Seq<u8>, p: int)
    ensures
        decode(lengths, data, p) matches Ok((_, q)) ==> p < q <= 8 * data.len(),
{
    lemma_decode_from_advances(lengths, data, p, 0, 0);
}

proof fn lemma_of_length_len(lengths: Seq<u8>, l: int, n: nat)
    ensures
        of_length(lengths, l, n).len() <= n,
    decreases n,
{
    if n > 0 {
        lemma_of_length_len(lengths, l, (n - 1) as nat);
    }
}

/// A Huffman code, in the form in which it is decoded.
pub struct Huffman {
    pub lengths: Vec<u8>,
    pub counts: Vec<u32>,
    pub symbols: Vec<u16>,
}

/// The largest number of symbols of a code.
pub const MAX_SYMBOLS: usize = 320;

impl Huffman {
    /// Counts and symbols are those of the code lengths.
    pub open spec fn wf(self) -> bool {
        &&& self.lengths@.len() <= MAX_SYMBOLS
        &&& self.counts@.len() == 16
        &&& forall|l: int|
            1 <= l <= 15 ==> #[trigger] self.counts@[l] == count(self.lengths@, l)
        &&& self.symbols@ == symbols_up_to(self.lengths@, 15)
    }

    /// The code with these code lengths.
    pub fn new(lengths: Vec<u8>) -> (huffman: Huffman)
        requires
            lengths@.len() <= MAX_SYMBOLS,
        ensures
            huffman.wf(),
            huffman.lengths@ == lengths@,
    {
        let mut counts: Vec<u32> = Vec::new();
        counts.push(0);
        let mut symbols: Vec<u16> = Vec::new();
        let mut l: usize = 1;
        while l <= MAX_LENGTH
            invariant
                1 <= l <= 16,
                lengths@.len() <= MAX_SYMBOLS,
                counts@.len() == l,
                forall|k: int| 1 <= k < l ==> #[trigger] counts@[k] == count(lengths@, k),
                symbols@ == symbols_up_to(lengths@, (l - 1) as nat),
            decreases 16 - l,
        {
            let ghost before = symbols@;
            let mut c: u32 = 0;
            for s in 0..lengths.len()
                invariant
                    1 <= l <= 15,
                    lengths@.len() <= MAX_SYMBOLS,
                    c == of_length(lengths@, l as int, s as nat).len(),
                    c <= s,
                    symbols@ =~= before + of_length(lengths@, l as int, s as nat),
            {
                if lengths[s] as usize == l {
                    symbols.push(s as u16);
                    c = c + 1;
                }
            }
            counts.push(c);
            l = l + 1;
        }
        Huffman { lengths, counts, symbols }
    }

    /// How many code words of the greatest length are free.
    pub fn free(&self) -> (free: i64)
        requires
            self.wf(),
        ensures
            free == free_codes(self.lengths@, 15),
    {
        let mut free: i64 = 1;
        let mut bound: i64 = 1;
        let mut l: usize = 0;
        proof {
            lemma2_to64();
        }
        while l < MAX_LENGTH
            invariant
                self.wf(),
                l <= 15,
                free == free_codes(self.lengths@, l as nat),
                1 <= bound <= 0x8000,
                l < 15 ==> bound <= 0x4000,
                -400 * bound + 400 <= free <= bound,
                bound == pow2(l as nat),
            decreases 15 - l,
        {
            l = l + 1;
            proof {
                lemma_of_length_len(self.lengths@, l as int, self.lengths@.len());
                lemma2_to64();
            }
            free = 2 * free - self.counts[l] as i64;
            bound = 2 * bound;
        }
        free
    }

    /// Whether the code is complete, or there are no code words.
    pub fn is_complete(&self) -> (yes: bool)
        requires
            self.wf(),
        ensures
            yes == complete(self.lengths@),
    {
        self.free() == 0 || self.symbols.len() == 0
    }

    /// Whether the code is complete, or has no code words but of length one.
    pub fn is_usable(&self) -> (yes: bool)
        requires
            self.wf(),
        ensures
            yes == usable(self.lengths@),
    {
        let free: i64 = self.free();
        free == 0 || free > 0 && self.symbols.len() == self.counts[1] as usize
    }

    /// Reads one code word.
    pub fn decode(&self, bits: &mut BitReader) -> (symbol: Result<u16, ZlibError>)
        requires
            self.wf(),
            old(bits).wf(),
        ensures
            final(bits).wf(),
            final(bits).data@ == old(bits).data@,
            match decode(self.lengths@, old(bits).data@, old(bits).pos()) {
                Ok((s, p)) => symbol == Ok::<u16, ZlibError>(s) && final(bits).pos() == p,
                Err(e) => symbol == Err::<u16, ZlibError>(e),
            },
    {
        let ghost lengths = self.lengths@;
        let ghost data = bits.data@;
        let ghost p = bits.pos();
        let mut code: u32 = 0;
        let mut first: u32 = 0;
        let mut index: usize = 0;
        let mut l: usize = 0;
        proof {
            lemma2_to64();
        }
        while l < MAX_LENGTH
            invariant
                self.wf(),
                l <= 15,
                lengths == self.lengths@,
                bits.wf(),
                bits.data@ == data,
                bits.pos() == p + l,
                data == old(bits).data@,
                p == old(bits).pos(),
                decode(lengths, data, p) == decode_from(lengths, data, p, code as nat, l as nat),
                first == first_code(lengths, (l + 1) as nat),
                index == symbols_up_to(lengths, l as nat).len(),
                index <= 320 * l,
                2 * code >= first,
                code < pow2(l as nat),
                first <= 640 * (pow2(l as nat) - 1),
            decreases 15 - l,
        {
            proof {
                lemma2_to64();
                lemma_of_length_len(lengths, l + 1, lengths.len());
                lemma_symbol_place(lengths, (l + 1) as nat, 15);
            }
            let bit: u32 = bits.read_bit()?;
            code = 2 * code + bit;
            l = l + 1;
            let c: u32 = self.counts[l];
            assert(c == count(lengths, l as int));
            if code < first + c {
                let symbol: u16 = self.symbols[index + (code - first) as usize];
                return Ok(symbol);
            }
            index = index + c as usize;
            first = 2 * (first + c);
        }
        Err(ZlibError::InvalidCode)
    }
}

/// Where the symbols of length `l` stand among all of lengths up to `most`.
proof fn lemma_symbol_place(lengths: Seq<u8>, l: nat, most: nat)
    requires
        1 <= l <= most,
    ensures
        symbols_up_to(lengths, (l - 1) as nat).len() + count(lengths, l as int) <= symbols_up_to(
            lengths,
            most,
        ).len(),
        forall|i: int|
            0 <= i < count(lengths, l as int) ==> #[trigger] symbols_of(lengths, l as int)[i]
                == symbols_up_to(lengths, most)[symbols_up_to(lengths, (l - 1) as nat).len() + i],
    decreases most,
{
    if l < most {
        lemma_symbol_place(lengths, l, (most - 1) as nat);
    }
}

/// The `l` bits from position `p` on as a number, the first being the highest.
pub open spec fn word_at(data: Seq<u8>, p: int, l: nat) -> nat
    decreases l,
{
    if l == 0 {
        0
    } else {
        2 * word_at(data, p, (l - 1) as nat) + bit_at(data, p + l - 1)
    }
}

/// The code word of `symbol`: those of one length are given out in the order of the
/// symbols.
pub open spec fn code_word(lengths: Seq<u8>, symbol: int) -> nat {
    first_code(lengths, lengths[symbol] as nat) + of_length(
        lengths,
        lengths[symbol] as int,
        symbol as nat,
    ).len()
}

/// Bits that come after all words of length `l` are not before those of any shorter
/// length.
proof fn lemma_not_shorter(lengths: Seq<u8>, data: Seq<u8>, p: int, l: nat, m: nat)
    requires
        1 <= m < l,
        word_at(data, p, l) >= first_code(lengths, l),
    ensures
        word_at(data, p, m) >= first_code(lengths, m) + count(lengths, m as int),
    decreases l,
{
    let k = (l - 1) as nat;
    assert(word_at(data, p, k) >= first_code(lengths, k) + count(lengths, k as int));
    if m < k {
        lemma_not_shorter(lengths, data, p, k, m);
    }
}

/// Decoding passes over prefixes that are no code words.
proof fn lemma_passes(lengths: Seq<u8>, data: Seq<u8>, p: int, l: nat, m: nat)
    requires
        m < l <= 15,
        p + l <= 8 * data.len(),
        word_at(data, p, l) >= first_code(lengths, l),
    ensures
        decode(lengths, data, p) == decode_from(lengths, data, p, word_at(data, p, m), m),
    decreases m,
{
    if m > 0 {
        lemma_passes(lengths, data, p, l, (m - 1) as nat);
        lemma_not_shorter(lengths, data, p, l, m);
    }
}

/// The place of a symbol among those with code words of its length.
proof fn lemma_rank(lengths: Seq<u8>, symbol: int, n: nat)
    requires
        0 <= symbol < n,
        n <= 0x10000,
    ensures
        ({
            let l = lengths[symbol] as int;
            let rank = of_length(lengths, l, symbol as nat).len() as int;
            &&& rank < of_length(lengths, l, n).len()
            &&& of_length(lengths, l, n)[rank] == symbol
        }),
    decreases n,
{
    if symbol < n - 1 {
        lemma_rank(lengths, symbol, (n - 1) as nat);
    }
}

/// Where the bits spell the code word of a symbol, that symbol is decoded and the
/// code word is used up.
pub proof fn law_code_word_is_decoded(lengths: Seq<u8>, data: Seq<u8>, p: int, symbol: int)
    requires
        lengths.len() <= 0x10000,
        0 <= symbol < lengths.len(),
        1 <= lengths[symbol] <= 15,
        p + lengths[symbol] <= 8 * data.len(),
        word_at(data, p, lengths[symbol] as nat) == code_word(lengths, symbol),
    ensures
        decode(lengths, data, p) == Ok::<(u16, int), ZlibError>(
            (symbol as u16, p + lengths[symbol]),
        ),
{
    let l = lengths[symbol] as nat;
    lemma_passes(lengths, data, p, l, (l - 1) as nat);
    lemma_rank(lengths, symbol, lengths.len());
}

} // verus!
