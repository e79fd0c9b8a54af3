//! Bits, read from the low end of each byte upwards.

use vstd::arithmetic::power2::{lemma2_to64, lemma_pow2_unfold, pow2};
use vstd::bits::lemma_u8_shr_is_div;
use vstd::prelude::*;
use crate::error::ZlibError;

verus! {

/// The bit at position `p` of `data`.
pub open spec fn bit_at(data: Seq<u8>, p: int) -> nat {
    ((data[p / 8] as int / pow2((p % 8) as nat) as int) % 2) as nat
}

/// The value of the `n` bits from position `p` on, the first being the lowest.
pub open spec fn bits_at(data: Seq<u8>, p: int, n: nat) -> nat
    decreases n,
{
    if n == 0 {
        0
    } else {
        bits_at(data, p, (n - 1) as nat) + pow2((n - 1) as nat) * bit_at(data, p + n - 1)
    }
}

/// The start of the first whole byte at or behind position `p`.
pub open spec fn aligned(p: int) -> int {
    (p + 7) / 8 * 8
}

/// `n` bits have less than 2^n values.
pub proof fn lemma_bits_bound(data: Seq<u8>, p: int, n: nat)
    ensures
        bits_at(data, p, n) < pow2(n),
    decreases n,
{
    lemma2_to64();
    if n > 0 {
        let m = (n - 1) as nat;
        lemma_bits_bound(data, p, m);
        lemma_pow2_unfold(n);
        let b = bit_at(data, p + n - 1);
        assert(pow2(m) * b <= pow2(m)) by (nonlinear_arith)
            requires
                0 <= b <= 1,
        ;
    }
}

/// A position in a sequence of bits.
pub struct BitReader<'a> {
    pub data: &'a [u8],
    pub byte: usize,
    pub bit: u8,
}

impl<'a> BitReader<'a> {
    /// The position lies in the data or directly behind it.
    pub open spec fn wf(self) -> bool {
        &&& self.bit < 8
        &&& self.byte <= self.data@.len()
        &&& self.byte == self.data@.len() ==> self.bit == 0
    }

    /// The position as a number of bits.
    pub open spec fn pos(self) -> int {
        self.byte * 8 + self.bit
    }

    /// A reader that stands at the start of byte `byte`.
    pub fn at_byte(data: &'a [u8], byte: usize) -> (reader: Self)
        requires
            byte <= data@.len(),
        ensures
            reader.wf(),
            reader.data@ == data@,
            reader.pos() == byte * 8,
    {
        BitReader { data, byte, bit: 0 }
    }

    /// Reads one bit.
    pub fn read_bit(&mut self) -> (bit: Result<u32, ZlibError>)
        requires
            old(self).wf(),
        ensures
            final(self).wf(),
            final(self).data@ == old(self).data@,
            old(self).pos() < 8 * old(self).data@.len() ==> {
                &&& bit == Ok::<u32, ZlibError>(bit_at(old(self).data@, old(self).pos()) as u32)
                &&& final(self).pos() == old(self).pos() + 1
            },
            old(self).pos() >= 8 * old(self).data@.len() ==> bit == Err::<u32, ZlibError>(
                ZlibError::UnexpectedEnd,
            ) && final(self).pos() == old(self).pos(),
    {
        if self.byte >= self.data.len() {
            return Err(ZlibError::UnexpectedEnd);
        }
        let shifted: u8 = self.data[self.byte] >> self.bit;
        proof {
            lemma_u8_shr_is_div(self.data@[self.byte as int], self.bit);
            assert(shifted & 1 == shifted % 2) by (bit_vector);
        }
        if self.bit == 7 {
            self.bit = 0;
            self.byte = self.byte + 1;
        } else {
            self.bit = self.bit + 1;
        }
        Ok((shifted & 1) as u32)
    }

    /// Reads `n` bits as a number.
    pub fn read_bits(&mut self, n: u32) -> (value: Result<u32, ZlibError>)
        requires
            old(self).wf(),
            n <= 16,
        ensures
            final(self).wf(),
            final(self).data@ == old(self).data@,
            old(self).pos() + n <= 8 * old(self).data@.len() ==> {
                &&& value == Ok::<u32, ZlibError>(
                    bits_at(old(self).data@, old(self).pos(), n as nat) as u32,
                )
                &&& final(self).pos() == old(self).pos() + n
                &&& bits_at(old(self).data@, old(self).pos(), n as nat) < pow2(n as nat)
            },
            old(self).pos() + n > 8 * old(self).data@.len() ==> value == Err::<u32, ZlibError>(
                ZlibError::UnexpectedEnd,
            ),
    {
        let ghost data = self.data@;
        let ghost start = self.pos();
        let mut value: u32 = 0;
        let mut weight: u32 = 1;
        proof {
            lemma2_to64();
        }
        for i in 0..n
            invariant
                n <= 16,
                self.wf(),
                self.data@ == data,
                self.pos() == start + i,
                start + i <= 8 * data.len(),
                value == bits_at(data, start, i as nat),
                weight == pow2(i as nat),
                data == old(self).data@,
                start == old(self).pos(),
        {
            proof {
                lemma2_to64();
                lemma_bits_bound(data, start, i as nat);
                lemma_bits_bound(data, start, (i + 1) as nat);
                lemma_pow2_unfold((i + 1) as nat);
            }
            let bit: u32 = self.read_bit()?;
            assert(bit == 0 ==> weight * bit == 0);
            assert(bit == 1 ==> weight * bit == weight);
            value = value + weight * bit;
            weight = weight * 2;
        }
        proof {
            lemma_bits_bound(data, start, n as nat);
        }
        Ok(value)
    }

    /// Moves to the start of the next whole byte, unless it stands at one.
    pub fn align(&mut self)
        requires
            old(self).wf(),
        ensures
            final(self).wf(),
            final(self).data@ == old(self).data@,
            final(self).bit == 0,
            final(self).pos() == aligned(old(self).pos()),
    {
        assert(self.data@.len() == self.data.len());
        if self.bit > 0 {
            self.bit = 0;
            self.byte = self.byte + 1;
        }
    }
}

} // verus!
