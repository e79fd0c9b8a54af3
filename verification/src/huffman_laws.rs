//! Which code words a Huffman code has.

use vstd::arithmetic::power2::{lemma2_to64, lemma_pow2_pos, lemma_pow2_unfold, pow2};
use vstd::prelude::*;
use crate::bit_laws::{has_bits, law_word_is_read, word_bits};
use crate::error::ZlibError;
use crate::huffman::{
    code_word, complete, count, decode, decode_from, first_code, free_codes,
    law_code_word_is_decoded, of_length, symbols_of, symbols_up_to, usable, word_at,
};

verus! {

/// How many of the 32768 words of fifteen bits start with a code word of length `l`.
pub open spec fn share(l: int) -> nat {
    if 1 <= l <= 15 {
        pow2((15 - l) as nat)
    } else {
        0
    }
}

/// How many words of fifteen bits start with the code words of the first `n` symbols.
pub open spec fn taken(lengths: Seq<u8>, n: nat) -> nat
    decreases n,
{
    if n == 0 {
        0
    } else {
        taken(lengths, (n - 1) as nat) + share(lengths[n - 1] as int)
    }
}

/// How many words of fifteen bits start with the code words, among those of the first
/// `n` symbols, that come before the code word of `symbol`: shorter ones, and those of
/// the same length that belong to smaller symbols.
pub open spec fn taken_before(lengths: Seq<u8>, symbol: int, n: nat) -> nat
    decreases n,
{
    if n == 0 {
        0
    } else {
        let t = n - 1;
        let before = lengths[t] < lengths[symbol] || lengths[t] == lengths[symbol] && t < symbol;
        taken_before(lengths, symbol, t as nat) + (if before {
            share(lengths[t] as int)
        } else {
            0
        })
    }
}

/// The canonical code word of `symbol`: the first word of its length that no code word
/// before it is the start of.
pub open spec fn canonical(lengths: Seq<u8>, symbol: int) -> nat {
    taken_before(lengths, symbol, lengths.len()) / share(lengths[symbol] as int)
}

/// The bits of the code word of `symbol`.
pub open spec fn symbol_bits(lengths: Seq<u8>, symbol: int) -> Seq<bool> {
    word_bits(canonical(lengths, symbol), lengths[symbol] as nat)
}

/// Whether the code lengths leave room for all code words.
pub open spec fn has_room(lengths: Seq<u8>) -> bool {
    taken(lengths, lengths.len()) <= 32768
}

/// How many words of fifteen bits start with code words shorter than `l`, among those of
/// the first `n` symbols.
spec fn shorter(lengths: Seq<u8>, l: int, n: nat) -> nat
    decreases n,
{
    if n == 0 {
        0
    } else {
        shorter(lengths, l, (n - 1) as nat) + (if lengths[n - 1] < l {
            share(lengths[n - 1] as int)
        } else {
            0
        })
    }
}

proof fn lemma_shorter_step(lengths: Seq<u8>, l: int, n: nat)
    requires
        1 <= l <= 15,
    ensures
        shorter(lengths, l + 1, n) == shorter(lengths, l, n) + of_length(lengths, l, n).len()
            * share(l),
    decreases n,
{
    let c = of_length(lengths, l, n).len() as int;
    if n > 0 {
        let m = (n - 1) as nat;
        let d = of_length(lengths, l, m).len() as int;
        lemma_shorter_step(lengths, l, m);
        if lengths[n - 1] == l {
            assert(c == d + 1);
            assert((d + 1) * share(l) == d * share(l) + share(l)) by (nonlinear_arith);
        }
    } else {
        assert(c == 0);
        assert(0 * share(l) == 0) by (nonlinear_arith);
    }
}

proof fn lemma_none_shorter(lengths: Seq<u8>, n: nat)
    ensures
        shorter(lengths, 1, n) == 0,
    decreases n,
{
    if n > 0 {
        lemma_none_shorter(lengths, (n - 1) as nat);
    }
}

proof fn lemma_share_halves(l: int)
    requires
        1 <= l < 15,
    ensures
        share(l) == 2 * share(l + 1),
        share(l + 1) > 0,
{
    lemma_pow2_unfold((15 - l) as nat);
    lemma_pow2_pos((15 - l - 1) as nat);
}

/// The first code word of a length starts behind all shorter ones.
proof fn lemma_first_code(lengths: Seq<u8>, l: nat)
    requires
        1 <= l <= 15,
    ensures
        shorter(lengths, l as int, lengths.len()) == first_code(lengths, l) * share(l as int),
    decreases l,
{
    if l == 1 {
        lemma_none_shorter(lengths, lengths.len());
        assert(0 * share(1) == 0) by (nonlinear_arith);
    } else {
        let k = (l - 1) as nat;
        lemma_first_code(lengths, k);
        lemma_shorter_step(lengths, k as int, lengths.len());
        lemma_share_halves(k as int);
        let f = first_code(lengths, k);
        let c = count(lengths, k as int);
        let s = share(l as int);
        assert(f * (2 * s) + c * (2 * s) == (2 * (f + c)) * s) by (nonlinear_arith);
    }
}

proof fn lemma_taken_before(lengths: Seq<u8>, symbol: int, n: nat)
    requires
        0 <= symbol,
        1 <= lengths[symbol] <= 15,
    ensures
        ({
            let l = lengths[symbol] as int;
            let m = if n <= symbol {
                n
            } else {
                symbol as nat
            };
            taken_before(lengths, symbol, n) == shorter(lengths, l, n) + of_length(
                lengths,
                l,
                m,
            ).len() * share(l)
        }),
    decreases n,
{
    let l = lengths[symbol] as int;
    if n > 0 {
        let t = (n - 1) as nat;
        lemma_taken_before(lengths, symbol, t);
        if t < symbol && lengths[t as int] == l {
            let d = of_length(lengths, l, t).len() as int;
            assert((d + 1) * share(l) == d * share(l) + share(l)) by (nonlinear_arith);
        }
    } else {
        assert(0 * share(l) == 0) by (nonlinear_arith);
    }
}

/// The code words that are decoded are the canonical ones.
pub proof fn law_code_words_are_canonical(lengths: Seq<u8>, symbol: int)
    requires
        0 <= symbol < lengths.len(),
        1 <= lengths[symbol] <= 15,
    ensures
        code_word(lengths, symbol) == canonical(lengths, symbol),
        taken_before(lengths, symbol, lengths.len()) == canonical(lengths, symbol) * share(
            lengths[symbol] as int,
        ),
{
    let l = lengths[symbol] as nat;
    let rank = of_length(lengths, l as int, symbol as nat).len();
    let f = first_code(lengths, l);
    let s = share(l as int);
    lemma_first_code(lengths, l);
    lemma_taken_before(lengths, symbol, lengths.len());
    lemma_pow2_pos((15 - l) as nat);
    assert(f * s + rank * s == (f + rank) * s) by (nonlinear_arith);
    assert(((f + rank) * s) as int / s as int == f + rank) by (nonlinear_arith)
        requires
            s > 0,
    ;
}

proof fn lemma_before_and_own(lengths: Seq<u8>, symbol: int, n: nat)
    requires
        0 <= symbol,
    ensures
        taken_before(lengths, symbol, n) + (if symbol < n {
            share(lengths[symbol] as int)
        } else {
            0
        }) <= taken(lengths, n),
    decreases n,
{
    if n > 0 {
        lemma_before_and_own(lengths, symbol, (n - 1) as nat);
    }
}

/// Where there is room, a code word fits in its length.
pub proof fn lemma_canonical_fits(lengths: Seq<u8>, symbol: int)
    requires
        has_room(lengths),
        0 <= symbol < lengths.len(),
        1 <= lengths[symbol] <= 15,
    ensures
        canonical(lengths, symbol) < pow2(lengths[symbol] as nat),
{
    let l = lengths[symbol] as nat;
    let s = share(l as int);
    law_code_words_are_canonical(lengths, symbol);
    lemma_before_and_own(lengths, symbol, lengths.len());
    lemma2_to64();
    vstd::arithmetic::power2::lemma_pow2_adds(l, (15 - l) as nat);
    let c = canonical(lengths, symbol);
    lemma_pow2_pos((15 - l) as nat);
    assert(c < pow2(l)) by (nonlinear_arith)
        requires
            c * s + s <= pow2(l) * s,
            s > 0,
    ;
}

/// Where the bits of a canonical code word stand, its symbol is decoded and the bits
/// are used up.
pub proof fn law_symbol_is_decoded(lengths: Seq<u8>, data: Seq<u8>, p: int, symbol: int)
    requires
        lengths.len() <= 0x10000,
        has_room(lengths),
        0 <= symbol < lengths.len(),
        1 <= lengths[symbol] <= 15,
        has_bits(data, p, symbol_bits(lengths, symbol)),
    ensures
        decode(lengths, data, p) == Ok::<(u16, int), ZlibError>(
            (symbol as u16, p + lengths[symbol]),
        ),
{
    lemma_canonical_fits(lengths, symbol);
    law_word_is_read(data, p, canonical(lengths, symbol), lengths[symbol] as nat);
    law_code_words_are_canonical(lengths, symbol);
    law_code_word_is_decoded(lengths, data, p, symbol);
}

proof fn lemma_all_shorter(lengths: Seq<u8>, n: nat)
    requires
        forall|i: int| 0 <= i < n ==> #[trigger] lengths[i] <= 15,
    ensures
        shorter(lengths, 16, n) == taken(lengths, n),
    decreases n,
{
    if n > 0 {
        lemma_all_shorter(lengths, (n - 1) as nat);
    }
}

proof fn lemma_free_codes(lengths: Seq<u8>, l: nat)
    requires
        l <= 15,
    ensures
        free_codes(lengths, l) * pow2((15 - l) as nat) == 32768 - shorter(
            lengths,
            l as int + 1,
            lengths.len(),
        ),
    decreases l,
{
    lemma2_to64();
    if l == 0 {
        lemma_none_shorter(lengths, lengths.len());
        assert(pow2(15) == 32768);
    } else {
        let k = (l - 1) as nat;
        lemma_free_codes(lengths, k);
        lemma_shorter_step(lengths, l as int, lengths.len());
        lemma_pow2_unfold((15 - k) as nat);
        let f = free_codes(lengths, k);
        let c = count(lengths, l as int) as int;
        let s = pow2((15 - l) as nat) as int;
        assert((2 * f - c) * s == f * (2 * s) - c * s) by (nonlinear_arith);
    }
}

/// The free code words are those that the code words leave over.
pub proof fn law_free_codes(lengths: Seq<u8>)
    requires
        forall|i: int| 0 <= i < lengths.len() ==> #[trigger] lengths[i] <= 15,
    ensures
        free_codes(lengths, 15) == 32768 - taken(lengths, lengths.len()),
{
    lemma_free_codes(lengths, 15);
    lemma_all_shorter(lengths, lengths.len());
    lemma2_to64();
    let f = free_codes(lengths, 15);
    assert(f * pow2(0) == f) by (nonlinear_arith)
        requires
            pow2(0) == 1,
    ;
}

/// Whether every word of fifteen bits starts with a code word.
pub open spec fn is_full(lengths: Seq<u8>) -> bool {
    taken(lengths, lengths.len()) == 32768
}

/// Whether there is at most one code word, and that of one bit.
pub open spec fn is_single(lengths: Seq<u8>) -> bool {
    &&& forall|i: int| 0 <= i < lengths.len() ==> #[trigger] lengths[i] <= 1
    &&& forall|i: int, j: int|
        0 <= i < j < lengths.len() ==> #[trigger] lengths[i] == 0 || #[trigger] lengths[j] == 0
}

proof fn lemma_single_share(lengths: Seq<u8>, n: nat)
    requires
        is_single(lengths),
        n <= lengths.len(),
    ensures
        taken(lengths, n) <= 16384,
        (forall|i: int| 0 <= i < n ==> #[trigger] lengths[i] == 0) ==> taken(lengths, n) == 0,
    decreases n,
{
    lemma2_to64();
    if n > 0 {
        let m = (n - 1) as nat;
        lemma_single_share(lengths, m);
        if lengths[n - 1] != 0 {
            assert forall|i: int| 0 <= i < m implies #[trigger] lengths[i] == 0 by {
                assert(lengths[i] == 0 || lengths[n - 1] == 0);
            }
        }
    }
}

proof fn lemma_no_long(lengths: Seq<u8>, l: int, n: nat)
    requires
        forall|i: int| 0 <= i < n ==> #[trigger] lengths[i] <= 1,
        l > 1,
    ensures
        of_length(lengths, l, n).len() == 0,
    decreases n,
{
    if n > 0 {
        lemma_no_long(lengths, l, (n - 1) as nat);
    }
}

proof fn lemma_no_ones(lengths: Seq<u8>, n: nat)
    requires
        forall|i: int| 0 <= i < n ==> #[trigger] lengths[i] == 0,
    ensures
        of_length(lengths, 1, n).len() == 0,
    decreases n,
{
    if n > 0 {
        lemma_no_ones(lengths, (n - 1) as nat);
    }
}

proof fn lemma_only_ones(lengths: Seq<u8>, l: nat)
    requires
        forall|i: int| 0 <= i < lengths.len() ==> #[trigger] lengths[i] <= 1,
        l >= 1,
    ensures
        symbols_up_to(lengths, l).len() == count(lengths, 1),
    decreases l,
{
    if l > 1 {
        lemma_only_ones(lengths, (l - 1) as nat);
        lemma_no_long(lengths, l as int, lengths.len());
    } else {
        assert(symbols_up_to(lengths, 0).len() == 0);
    }
}

/// The codes that can be used are those that are full or have at most one code word, of
/// one bit. The complete ones are the full ones and the one without code words.
pub proof fn law_usable_codes(lengths: Seq<u8>)
    requires
        forall|i: int| 0 <= i < lengths.len() ==> #[trigger] lengths[i] <= 15,
    ensures
        complete(lengths) <==> is_full(lengths) || forall|i: int|
            0 <= i < lengths.len() ==> #[trigger] lengths[i] == 0,
        is_full(lengths) || is_single(lengths) <==> usable(lengths),
        is_full(lengths) || is_single(lengths) ==> has_room(lengths),
{
    law_free_codes(lengths);
    if is_single(lengths) {
        lemma_single_share(lengths, lengths.len());
        lemma_only_ones(lengths, 15);
    }
    if symbols_up_to(lengths, 15).len() == 0 {
        lemma_no_symbols(lengths, 15);
    }
    if forall|i: int| 0 <= i < lengths.len() ==> #[trigger] lengths[i] == 0 {
        lemma_only_ones(lengths, 15);
        lemma_no_ones(lengths, lengths.len());
    }
    if usable(lengths) && !is_full(lengths) {
        lemma_few_symbols(lengths);
    }
}

proof fn lemma_no_symbols(lengths: Seq<u8>, most: nat)
    requires
        symbols_up_to(lengths, most).len() == 0,
    ensures
        forall|i: int|
            0 <= i < lengths.len() && #[trigger] lengths[i] <= most ==> lengths[i] == 0,
    decreases most,
{
    if most > 0 {
        lemma_no_symbols(lengths, (most - 1) as nat);
        lemma_none_of_length(lengths, most as int, lengths.len());
    }
}

proof fn lemma_none_of_length(lengths: Seq<u8>, l: int, n: nat)
    ensures
        of_length(lengths, l, n).len() == 0 ==> forall|i: int|
            0 <= i < n ==> #[trigger] lengths[i] != l,
    decreases n,
{
    if n > 0 {
        lemma_none_of_length(lengths, l, (n - 1) as nat);
    }
}

proof fn lemma_up_to_grows(lengths: Seq<u8>, l: nat, most: nat)
    requires
        1 <= l <= most,
    ensures
        symbols_up_to(lengths, most).len() >= symbols_up_to(lengths, 1).len() + (if l > 1 {
            count(lengths, l as int)
        } else {
            0
        }),
    decreases most,
{
    if most > 1 {
        if l < most {
            lemma_up_to_grows(lengths, l, (most - 1) as nat);
        } else {
            lemma_up_to_grows(lengths, 1, (most - 1) as nat);
        }
    }
}

proof fn lemma_ones_taken(lengths: Seq<u8>, n: nat)
    requires
        forall|i: int| 0 <= i < n ==> #[trigger] lengths[i] <= 1,
    ensures
        forall|i: int, j: int|
            0 <= i < j < n && #[trigger] lengths[i] == 1 && #[trigger] lengths[j] == 1 ==> taken(
                lengths,
                n,
            ) >= 32768,
        forall|i: int| 0 <= i < n && #[trigger] lengths[i] == 1 ==> taken(lengths, n) >= 16384,
    decreases n,
{
    lemma2_to64();
    if n > 0 {
        lemma_ones_taken(lengths, (n - 1) as nat);
    }
}

/// A code that is usable but not full has at most one code word, of one bit.
proof fn lemma_few_symbols(lengths: Seq<u8>)
    requires
        forall|i: int| 0 <= i < lengths.len() ==> #[trigger] lengths[i] <= 15,
        usable(lengths),
        !is_full(lengths),
    ensures
        is_single(lengths),
{
    law_free_codes(lengths);
    assert(symbols_up_to(lengths, 0).len() == 0);
    assert(symbols_up_to(lengths, 1).len() == count(lengths, 1));
    assert forall|i: int| 0 <= i < lengths.len() implies #[trigger] lengths[i] <= 1 by {
        let l = lengths[i] as nat;
        if l > 1 {
            lemma_up_to_grows(lengths, l, 15);
            lemma_none_of_length(lengths, l as int, lengths.len());
        }
    }
    lemma_ones_taken(lengths, lengths.len());
}

proof fn lemma_of_length_members(lengths: Seq<u8>, l: int, n: nat, k: int)
    requires
        n <= lengths.len() <= 0x10000,
        0 <= k < of_length(lengths, l, n).len(),
    ensures
        ({
            let s = of_length(lengths, l, n)[k] as int;
            &&& 0 <= s < n
            &&& lengths[s] == l
            &&& of_length(lengths, l, s as nat).len() == k
        }),
    decreases n,
{
    if n > 0 {
        let m = (n - 1) as nat;
        if k < of_length(lengths, l, m).len() {
            lemma_of_length_members(lengths, l, m, k);
        }
    }
}

proof fn lemma_decode_from_found(lengths: Seq<u8>, data: Seq<u8>, p: int, l: nat)
    requires
        lengths.len() <= 0x10000,
        l <= 15,
    ensures
        decode_from(lengths, data, p, word_at(data, p, l), l) matches Ok((s, q)) ==> {
            &&& s < lengths.len()
            &&& 1 <= lengths[s as int] <= 15
            &&& q == p + lengths[s as int]
            &&& word_at(data, p, lengths[s as int] as nat) == code_word(lengths, s as int)
            &&& q <= 8 * data.len()
        },
    decreases 15 - l,
{
    if l < 15 && p + l < 8 * data.len() {
        let m = l + 1;
        let longer = word_at(data, p, m);
        let index = longer - first_code(lengths, m);
        if 0 <= index < count(lengths, m as int) {
            lemma_of_length_members(lengths, m as int, lengths.len(), index);
            assert(symbols_of(lengths, m as int)[index] == of_length(
                lengths,
                m as int,
                lengths.len(),
            )[index]);
        } else {
            lemma_decode_from_found(lengths, data, p, m);
        }
    }
}

/// Only a symbol whose canonical code word the bits spell is decoded, and no more bits
/// than those of the code word are used up.
pub proof fn law_decoded_symbol_is_spelled(lengths: Seq<u8>, data: Seq<u8>, p: int)
    requires
        lengths.len() <= 0x10000,
    ensures
        decode(lengths, data, p) matches Ok((s, q)) ==> {
            &&& s < lengths.len()
            &&& 1 <= lengths[s as int] <= 15
            &&& q == p + lengths[s as int]
            &&& q <= 8 * data.len()
            &&& word_at(data, p, lengths[s as int] as nat) == canonical(lengths, s as int)
        },
{
    lemma_decode_from_found(lengths, data, p, 0);
    assert(word_at(data, p, 0) == 0);
    if let Ok((s, q)) = decode(lengths, data, p) {
        law_code_words_are_canonical(lengths, s as int);
    }
}

} // verus!
