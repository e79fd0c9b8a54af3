//! What the bits of a sequence of bytes spell.

use vstd::arithmetic::div_mod::{lemma_div_denominator, lemma_mod_breakdown, lemma_small_mod};
use vstd::arithmetic::power2::{lemma2_to64, lemma_pow2_pos, lemma_pow2_unfold, pow2};
use vstd::bits::lemma_u8_shr_is_div;
use vstd::prelude::*;
use crate::bits::{aligned, bit_at, bits_at};
use crate::huffman::word_at;

verus! {

/// Whether `bits` stand in `data` from bit `p` on, where each byte gives its lowest bit
/// first.
pub open spec fn has_bits(data: Seq<u8>, p: int, bits: Seq<bool>) -> bool {
    &&& 0 <= p
    &&& p + bits.len() <= 8 * data.len()
    &&& forall|i: int|
        0 <= i < bits.len() ==> #[trigger] bits[i] == ((data[(p + i) / 8] >> (((p + i) % 8) as u8))
            & 1 == 1)
}

/// The bits of bytes, each byte giving its lowest bit first.
pub open spec fn bytes_bits(bytes: Seq<u8>) -> Seq<bool> {
    Seq::new(8 * bytes.len(), |i: int| (bytes[i / 8] >> ((i % 8) as u8)) & 1 == 1)
}

/// The `n` bits of the number `v`, the lowest first.
pub open spec fn number_bits(v: nat, n: nat) -> Seq<bool> {
    Seq::new(n, |i: int| (v / pow2(i as nat)) % 2 == 1)
}

/// The `n` bits of the word `v`, the highest first.
pub open spec fn word_bits(v: nat, n: nat) -> Seq<bool> {
    Seq::new(n, |i: int| (v / pow2((n - 1 - i) as nat)) % 2 == 1)
}

/// Of two sequences one behind the other, each stands where it should.
pub proof fn lemma_has_parts(data: Seq<u8>, p: int, a: Seq<bool>, b: Seq<bool>)
    requires
        has_bits(data, p, a + b),
    ensures
        has_bits(data, p, a),
        has_bits(data, p + a.len(), b),
{
    assert forall|i: int| 0 <= i < a.len() implies #[trigger] a[i] == ((data[(p + i) / 8] >> (((p
        + i) % 8) as u8)) & 1 == 1) by {
        assert((a + b)[i] == a[i]);
    }
    assert forall|i: int| 0 <= i < b.len() implies #[trigger] b[i] == ((data[(p + a.len() + i) / 8]
        >> (((p + a.len() + i) % 8) as u8)) & 1 == 1) by {
        assert((a + b)[a.len() + i] == b[i]);
    }
}

/// Bit `p` is the bit of byte `p / 8` that `p % 8` lower ones stand below.
pub proof fn law_bit(data: Seq<u8>, p: int)
    requires
        0 <= p < 8 * data.len(),
    ensures
        bit_at(data, p) == (data[p / 8] >> ((p % 8) as u8)) & 1,
        bit_at(data, p) <= 1,
{
    let b = data[p / 8];
    let j = (p % 8) as u8;
    lemma_u8_shr_is_div(b, j);
    let x = b >> j;
    assert(x & 1 == x % 2) by (bit_vector);
}

/// The start of a byte lies less than eight bits further.
pub proof fn law_aligned(p: int)
    ensures
        aligned(p) % 8 == 0,
        p <= aligned(p) < p + 8,
{
}

proof fn lemma_number_so_far(data: Seq<u8>, p: int, v: nat, n: nat, m: nat)
    requires
        has_bits(data, p, number_bits(v, n)),
        m <= n,
    ensures
        bits_at(data, p, m) == v as int % pow2(m) as int,
    decreases m,
{
    lemma2_to64();
    if m > 0 {
        let k = (m - 1) as nat;
        lemma_number_so_far(data, p, v, n, k);
        lemma_pow2_unfold(m);
        lemma_pow2_pos(k);
        lemma_mod_breakdown(v as int, pow2(k) as int, 2);
        assert(pow2(k) * 2 == pow2(m));
        law_bit(data, p + k);
        let bit = number_bits(v, n)[k as int];
        assert(bit == ((v / pow2(k)) % 2 == 1));
        assert(bit_at(data, p + m - 1) == (v / pow2(k)) % 2);
    } else {
        assert(pow2(0) == 1);
    }
}

/// Where the bits of a number stand, the lowest first, that number is read.
pub proof fn law_number_is_read(data: Seq<u8>, p: int, v: nat, n: nat)
    requires
        has_bits(data, p, number_bits(v, n)),
        v < pow2(n),
    ensures
        bits_at(data, p, n) == v,
{
    lemma_number_so_far(data, p, v, n, n);
    lemma_small_mod(v, pow2(n));
}

proof fn lemma_word_so_far(data: Seq<u8>, p: int, v: nat, n: nat, m: nat)
    requires
        has_bits(data, p, word_bits(v, n)),
        v < pow2(n),
        m <= n,
    ensures
        word_at(data, p, m) == v as int / pow2((n - m) as nat) as int,
    decreases m,
{
    if m > 0 {
        let k = (m - 1) as nat;
        let low = (n - m) as nat;
        lemma_word_so_far(data, p, v, n, k);
        lemma_pow2_unfold((n - k) as nat);
        lemma_pow2_pos(low);
        lemma_div_denominator(v as int, pow2(low) as int, 2);
        assert(pow2(low) * 2 == pow2((n - k) as nat));
        law_bit(data, p + k);
        let bit = word_bits(v, n)[k as int];
        assert(bit == ((v / pow2(low)) % 2 == 1));
        assert(bit_at(data, p + m - 1) == (v / pow2(low)) % 2);
    } else {
        assert(v as int / pow2(n) as int == 0) by (nonlinear_arith)
            requires
                0 <= v < pow2(n),
        ;
    }
}

/// Where the bits of a word stand, the highest first, that word is read.
pub proof fn law_word_is_read(data: Seq<u8>, p: int, v: nat, n: nat)
    requires
        has_bits(data, p, word_bits(v, n)),
        v < pow2(n),
    ensures
        word_at(data, p, n) == v,
{
    lemma2_to64();
    lemma_word_so_far(data, p, v, n, n);
    assert((n - n) as nat == 0 && pow2(0) == 1);
    assert(v as int / 1 == v);
}

/// Two sequences that stand one behind the other stand as one.
pub proof fn lemma_has_both(data: Seq<u8>, p: int, a: Seq<bool>, b: Seq<bool>)
    requires
        has_bits(data, p, a),
        has_bits(data, p + a.len(), b),
    ensures
        has_bits(data, p, a + b),
{
    let c = a + b;
    assert forall|i: int| 0 <= i < c.len() implies #[trigger] c[i] == ((data[(p + i) / 8] >> (((p
        + i) % 8) as u8)) & 1 == 1) by {
        if i < a.len() {
            assert(c[i] == a[i]);
        } else {
            let k = i - a.len();
            assert(c[i] == b[k]);
            assert(p + a.len() + k == p + i);
        }
    }
}

/// The first bit of a number is its lowest.
proof fn lemma_lowest_bit(data: Seq<u8>, p: int, n: nat)
    requires
        n > 0,
    ensures
        bits_at(data, p, n) == bit_at(data, p) + 2 * bits_at(data, p + 1, (n - 1) as nat),
    decreases n,
{
    lemma2_to64();
    let m = (n - 1) as nat;
    let b = bit_at(data, p + n - 1) as int;
    if n == 1 {
        assert(bits_at(data, p, 0) == 0 && bits_at(data, p + 1, 0) == 0);
        assert(pow2(0) * b == b) by (nonlinear_arith)
            requires
                pow2(0) == 1,
        ;
    } else {
        let k = (n - 2) as nat;
        lemma_lowest_bit(data, p, m);
        lemma_pow2_unfold(m);
        assert(p + 1 + m - 1 == p + n - 1);
        assert((2 * pow2(k)) * b == 2 * (pow2(k) * b)) by (nonlinear_arith);
    }
}

proof fn lemma_bit_of_number(data: Seq<u8>, p: int, n: nat, i: int)
    requires
        0 <= i < n,
        0 <= p,
        p + n <= 8 * data.len(),
    ensures
        (bits_at(data, p, n) / pow2(i as nat)) % 2 == bit_at(data, p + i),
    decreases i,
{
    lemma2_to64();
    lemma_lowest_bit(data, p, n);
    law_bit(data, p);
    let x = bits_at(data, p, n) as int;
    if i == 0 {
        assert(x / 1 == x);
    } else {
        let y = bits_at(data, p + 1, (n - 1) as nat);
        lemma_bit_of_number(data, p + 1, (n - 1) as nat, i - 1);
        lemma_pow2_unfold(i as nat);
        lemma_pow2_pos((i - 1) as nat);
        lemma_div_denominator(x, 2, pow2((i - 1) as nat) as int);
        assert(x / 2 == y);
    }
}

/// The bits of a number that is read stand where it is read.
pub proof fn lemma_number_stands(data: Seq<u8>, p: int, n: nat)
    requires
        0 <= p,
        p + n <= 8 * data.len(),
    ensures
        has_bits(data, p, number_bits(bits_at(data, p, n), n)),
{
    let bits = number_bits(bits_at(data, p, n), n);
    assert forall|i: int| 0 <= i < bits.len() implies #[trigger] bits[i] == ((data[(p + i) / 8] >> (
    ((p + i) % 8) as u8)) & 1 == 1) by {
        lemma_bit_of_number(data, p, n, i);
        law_bit(data, p + i);
    }
}

proof fn lemma_bit_of_word(data: Seq<u8>, p: int, n: nat, i: int)
    requires
        0 <= i < n,
        0 <= p,
        p + n <= 8 * data.len(),
    ensures
        (word_at(data, p, n) / pow2((n - 1 - i) as nat)) % 2 == bit_at(data, p + i),
    decreases n,
{
    lemma2_to64();
    let m = (n - 1) as nat;
    let x = word_at(data, p, n) as int;
    law_bit(data, p + m);
    if i == m {
        assert(x / 1 == x);
    } else {
        let low = (n - 2 - i) as nat;
        lemma_bit_of_word(data, p, m, i);
        lemma_pow2_unfold((n - 1 - i) as nat);
        lemma_pow2_pos(low);
        lemma_div_denominator(x, 2, pow2(low) as int);
        assert(x / 2 == word_at(data, p, m));
    }
}

/// The bits of a word that is read stand where it is read.
pub proof fn lemma_word_stands(data: Seq<u8>, p: int, n: nat)
    requires
        0 <= p,
        p + n <= 8 * data.len(),
    ensures
        has_bits(data, p, word_bits(word_at(data, p, n), n)),
{
    let bits = word_bits(word_at(data, p, n), n);
    assert forall|i: int| 0 <= i < bits.len() implies #[trigger] bits[i] == ((data[(p + i) / 8] >> (
    ((p + i) % 8) as u8)) & 1 == 1) by {
        lemma_bit_of_word(data, p, n, i);
        law_bit(data, p + i);
    }
}

/// The bits of bytes stand where the bytes do.
pub proof fn lemma_bytes_stand(data: Seq<u8>, i: int, j: int)
    requires
        0 <= i <= j <= data.len(),
    ensures
        has_bits(data, 8 * i, bytes_bits(data.subrange(i, j))),
{
    let bytes = data.subrange(i, j);
    let bits = bytes_bits(bytes);
    assert forall|k: int| 0 <= k < bits.len() implies #[trigger] bits[k] == ((data[(8 * i + k) / 8]
        >> (((8 * i + k) % 8) as u8)) & 1 == 1) by {
        assert((8 * i + k) / 8 == i + k / 8 && (8 * i + k) % 8 == k % 8);
        assert(bytes[k / 8] == data[i + k / 8]);
    }
}

} // verus!
