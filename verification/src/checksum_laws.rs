//! What the checksums are.

use vstd::prelude::*;
use crate::bit_laws::bytes_bits;
use crate::crc::{crc32, crc_bit, crc_bits, crc_byte, crc_update, is_crc_table};
use crate::reader::{be_bytes, be_u32};
use crate::zlib::{adler32, adler_sums};

verus! {

/// The remainder of a division by the polynomial, with one more bit of the message. Bit
/// 31 - k of a remainder is the coefficient of the k-th power.
pub open spec fn with_bit(c: u32, bit: bool) -> u32 {
    if (c & 1 == 1) != bit {
        (c >> 1) ^ 0xedb88320
    } else {
        c >> 1
    }
}

/// The remainder of a message, bit by bit, starting from `c`.
pub open spec fn remainder(c: u32, bits: Seq<bool>) -> u32
    decreases bits.len(),
{
    if bits.len() == 0 {
        c
    } else {
        with_bit(remainder(c, bits.drop_last()), bits.last())
    }
}

/// A whole byte that is added before the steps does what its bits do one by one.
proof fn lemma_byte_by_bits(c: u32, b: u8, bits: Seq<bool>, k: nat)
    requires
        k <= 8,
        bits.len() == 8,
        forall|i: int| 0 <= i < 8 ==> #[trigger] bits[i] == ((b >> (i as u8)) & 1 == 1),
    ensures
        crc_bits(c ^ (b as u32), k) == remainder(c, bits.take(k as int)) ^ ((b as u32) >> (
        k as u32)),
    decreases k,
{
    if k == 0 {
        assert(c ^ (b as u32) == c ^ ((b as u32) >> 0u32)) by (bit_vector);
        assert(bits.take(0).len() == 0);
    } else {
        let m = (k - 1) as nat;
        let j = m as u32;
        let i = m as u8;
        lemma_byte_by_bits(c, b, bits, m);
        assert(bits.take(k as int).drop_last() =~= bits.take(m as int));
        let x = remainder(c, bits.take(m as int));
        let y = (b as u32) >> j;
        let next = (b as u32) >> ((j + 1) as u32);
        assert(next == y >> 1 && (y & 1 == 1) == ((b >> i) & 1 == 1)) by (bit_vector)
            requires
                j < 8,
                i == j,
                y == (b as u32) >> j,
                next == (b as u32) >> ((j + 1) as u32),
        ;
        assert(bits.take(k as int).last() == bits[m as int]);
        let bit = bits[m as int];
        assert((if (x ^ y) & 1 != 0 {
            0xedb88320u32 ^ ((x ^ y) >> 1)
        } else {
            (x ^ y) >> 1
        }) == (if (x & 1 == 1) != bit {
            (x >> 1) ^ 0xedb88320u32
        } else {
            x >> 1
        }) ^ (y >> 1)) by (bit_vector)
            requires
                bit == (y & 1 == 1),
        ;
        assert(crc_bit(x ^ y) == with_bit(x, bit) ^ (y >> 1));
    }
}

proof fn lemma_remainder_concat(c: u32, a: Seq<bool>, b: Seq<bool>)
    ensures
        remainder(c, a + b) == remainder(remainder(c, a), b),
    decreases b.len(),
{
    if b.len() == 0 {
        assert(a + b =~= a);
    } else {
        assert((a + b).drop_last() =~= a + b.drop_last());
        lemma_remainder_concat(c, a, b.drop_last());
    }
}

/// The register runs over bytes as the remainder runs over their bits.
pub proof fn law_register_is_a_remainder(c: u32, s: Seq<u8>)
    ensures
        crc_update(c, s) == remainder(c, bytes_bits(s)),
    decreases s.len(),
{
    if s.len() > 0 {
        let rest = s.drop_last();
        let b = s.last();
        let bits = bytes_bits(seq![b]);
        law_register_is_a_remainder(c, rest);
        let r = crc_update(c, rest);
        assert forall|i: int| 0 <= i < 8 implies #[trigger] bits[i] == ((b >> (i as u8)) & 1
            == 1) by {
            assert(i / 8 == 0 && i % 8 == i);
        }
        lemma_byte_by_bits(r, b, bits, 8);
        assert(bits.take(8) =~= bits);
        let x = remainder(r, bits);
        assert(x ^ ((b as u32) >> 8u32) == x) by (bit_vector);
        assert(crc_byte(r, b) == x);
        assert(bytes_bits(s) =~= bytes_bits(rest) + bits) by {
            assert forall|i: int| 0 <= i < 8 * s.len() implies #[trigger] bytes_bits(s)[i] == (
            bytes_bits(rest) + bits)[i] by {
                if i < 8 * rest.len() {
                    assert(0 <= i / 8 < rest.len());
                    assert(s[i / 8] == rest[i / 8]);
                } else {
                    assert(i / 8 == rest.len());
                    assert((i - 8 * rest.len()) / 8 == 0);
                    assert((i - 8 * rest.len()) % 8 == i % 8);
                }
            }
        }
        lemma_remainder_concat(c, bytes_bits(rest), bits);
    } else {
        assert(bytes_bits(s).len() == 0);
    }
}

/// The CRC-32 is the complement of the remainder of the message, taken bit by bit from
/// the lowest of each byte, from a remainder of all ones.
pub proof fn law_crc_is_a_remainder(s: Seq<u8>)
    ensures
        crc32(s) == !remainder(0xffffffff, bytes_bits(s)),
{
    law_register_is_a_remainder(0xffffffff, s);
    let r = remainder(0xffffffff, bytes_bits(s));
    assert(r ^ 0xffffffff == !r) by (bit_vector);
}

/// The table holds the remainder of every single byte.
pub proof fn law_table_of_remainders(table: Seq<u32>)
    ensures
        is_crc_table(table) <==> table.len() == 256 && forall|n: int|
            0 <= n < 256 ==> #[trigger] table[n] == remainder(0, bytes_bits(seq![n as u8])),
{
    assert forall|n: int| 0 <= n < 256 implies #[trigger] crc_bits(n as u32, 8) == remainder(
        0,
        bytes_bits(seq![n as u8]),
    ) by {
        let b = n as u8;
        law_register_is_a_remainder(0, seq![b]);
        assert(seq![b].drop_last() =~= Seq::<u8>::empty());
        assert(0u32 ^ (b as u32) == b as u32) by (bit_vector);
        assert(crc_update(0, Seq::empty()) == 0);
    }
    if is_crc_table(table) {
        assert forall|n: int| 0 <= n < 256 implies #[trigger] table[n] == remainder(
            0,
            bytes_bits(seq![n as u8]),
        ) by {
            assert(crc_bits(n as u32, 8) == remainder(0, bytes_bits(seq![n as u8])));
        }
    }
}

/// The sum of the first `n` bytes.
pub open spec fn total(s: Seq<u8>, n: nat) -> nat
    decreases n,
{
    if n == 0 {
        0
    } else {
        total(s, (n - 1) as nat) + s[n - 1] as nat
    }
}

/// The sum of the first `n` bytes, each as often as bytes stand from it on to the end.
pub open spec fn weighted(s: Seq<u8>, n: nat) -> int
    decreases n,
{
    if n == 0 {
        0
    } else {
        weighted(s, (n - 1) as nat) + (s.len() - (n - 1)) * s[n - 1]
    }
}

proof fn lemma_one_byte_more(s: Seq<u8>, n: nat)
    requires
        n < s.len(),
    ensures
        total(s, n) == total(s.drop_last(), n),
        weighted(s, n) == weighted(s.drop_last(), n) + total(s.drop_last(), n),
    decreases n,
{
    if n > 0 {
        lemma_one_byte_more(s, (n - 1) as nat);
        let k = s.len() - (n - 1);
        let b = s[n - 1] as int;
        assert(k * b == (k - 1) * b + b) by (nonlinear_arith);
    }
}

proof fn lemma_adler_sums(s: Seq<u8>)
    ensures
        adler_sums(s).0 == (1 + total(s, s.len())) % 65521,
        adler_sums(s).1 == (s.len() + weighted(s, s.len())) % 65521,
    decreases s.len(),
{
    if s.len() > 0 {
        let rest = s.drop_last();
        let n = rest.len();
        lemma_adler_sums(rest);
        lemma_one_byte_more(s, n);
        let b = s.last() as int;
        assert(1 * b == b);
        assert(weighted(s, s.len()) == weighted(rest, n) + total(s, s.len()));
    }
}

/// The Adler-32 checksum in closed form: the low half is one more than the sum of the
/// bytes, the high half the number of bytes and the sum of the bytes, each as often as
/// bytes stand from it on to the end; both modulo 65521.
pub proof fn law_adler_in_closed_form(s: Seq<u8>)
    ensures
        adler32(s) == ((s.len() + weighted(s, s.len())) % 65521) * 65536 + (1 + total(s, s.len()))
            % 65521,
{
    lemma_adler_sums(s);
}

/// The big-endian number of the four bytes at `i`.
pub open spec fn number_at(data: Seq<u8>, i: int) -> int {
    16777216 * data[i] + 65536 * data[i + 1] + 256 * data[i + 2] + data[i + 3]
}

/// The bytes of a big-endian integer are its digits to the base 256, the most
/// significant first.
pub proof fn law_big_endian_digits(s: Seq<u8>, v: u32)
    ensures
        s.len() >= 4 ==> be_u32(s) == number_at(s, 0),
        be_bytes(v).len() == 4,
        v == number_at(be_bytes(v), 0),
{
}

} // verus!
