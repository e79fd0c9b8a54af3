//! The CRC-32 that closes every PNG chunk.

use vstd::prelude::*;

verus! {

/// The generator polynomial, lowest power in the highest bit.
pub const POLYNOMIAL: u32 = 0xedb88320;

/// One step of the shift register: a single bit leaves at the low end.
pub open spec fn crc_bit(c: u32) -> u32 {
    if c & 1 != 0 {
        POLYNOMIAL ^ (c >> 1)
    } else {
        c >> 1
    }
}

/// `n` steps of the shift register.
pub open spec fn crc_bits(c: u32, n: nat) -> u32
    decreases n,
{
    if n == 0 {
        c
    } else {
        crc_bit(crc_bits(c, (n - 1) as nat))
    }
}

/// The register after one more byte.
pub open spec fn crc_byte(c: u32, b: u8) -> u32 {
    crc_bits(c ^ (b as u32), 8)
}

/// The register after all of `s`, starting from `c`.
pub open spec fn crc_update(c: u32, s: Seq<u8>) -> u32
    decreases s.len(),
{
    if s.len() == 0 {
        c
    } else {
        crc_byte(crc_update(c, s.drop_last()), s.last())
    }
}

/// The CRC-32 of `s`: the register starts with all ones and is complemented at
/// the end.
pub open spec fn crc32(s: Seq<u8>) -> u32 {
    crc_update(0xffffffff, s) ^ 0xffffffff
}

/// The table of the register's answers to every low byte.
pub open spec fn is_crc_table(table: Seq<u32>) -> bool {
    &&& table.len() == 256
    &&& forall|n: int| 0 <= n < 256 ==> #[trigger] table[n] == crc_bits(n as u32, 8)
}

proof fn lemma_crc_bit_splits(p: u32, q: u32)
    requires
        q & 1 == 0,
    ensures
        crc_bit(p ^ q) == crc_bit(p) ^ (q >> 1),
{
    assert(q & 1 == 0 ==> (p ^ q) & 1 == p & 1 && (p ^ q) >> 1 == (p >> 1) ^ (q >> 1) && (0xedb88320u32
        ^ ((p >> 1) ^ (q >> 1))) == (0xedb88320u32 ^ (p >> 1)) ^ (q >> 1)) by (bit_vector);
}

/// The low byte and the other three bytes pass through the register apart:
/// these are only shifted.
proof fn lemma_crc_bits_split(x: u32, n: nat)
    requires
        n <= 8,
    ensures
        crc_bits(x, n) == crc_bits(x & 0xff, n) ^ ((x & 0xffffff00) >> (n as u32)),
    decreases n,
{
    if n == 0 {
        assert(x == (x & 0xff) ^ ((x & 0xffffff00) >> 0u32)) by (bit_vector);
    } else {
        let m = (n - 1) as nat;
        let k = m as u32;
        lemma_crc_bits_split(x, m);
        assert(k < 8 ==> ((x & 0xffffff00) >> k) & 1 == 0 && ((x & 0xffffff00) >> k) >> 1 == (x
            & 0xffffff00) >> ((k + 1) as u32)) by (bit_vector);
        lemma_crc_bit_splits(crc_bits(x & 0xff, m), (x & 0xffffff00) >> k);
    }
}

/// A table lookup advances the register by one byte.
proof fn lemma_table_step(c: u32, b: u8)
    ensures
        crc_byte(c, b) == crc_bits((c ^ (b as u32)) & 0xff, 8) ^ (c >> 8),
        (c ^ (b as u32)) & 0xff < 256,
{
    let x = c ^ (b as u32);
    lemma_crc_bits_split(x, 8);
    assert(((c ^ (b as u32)) & 0xffffff00) >> 8 == c >> 8 && (c ^ (b as u32)) & 0xff < 256)
        by (bit_vector);
}

/// The register can be stepped back: the bit that left tells whether the
/// polynomial was added.
proof fn lemma_crc_bits_injective(x: u32, y: u32, n: nat)
    requires
        crc_bits(x, n) == crc_bits(y, n),
    ensures
        x == y,
    decreases n,
{
    if n > 0 {
        let m = (n - 1) as nat;
        let p = crc_bits(x, m);
        let q = crc_bits(y, m);
        assert((if p & 1 != 0 {
            0xedb88320u32 ^ (p >> 1)
        } else {
            p >> 1
        }) == (if q & 1 != 0 {
            0xedb88320u32 ^ (q >> 1)
        } else {
            q >> 1
        }) ==> p == q) by (bit_vector);
        lemma_crc_bits_injective(x, y, m);
    }
}

/// Different registers stay different over the same bytes.
proof fn lemma_crc_update_injective(c: u32, d: u32, s: Seq<u8>)
    requires
        crc_update(c, s) == crc_update(d, s),
    ensures
        c == d,
    decreases s.len(),
{
    if s.len() > 0 {
        let p = crc_update(c, s.drop_last());
        let q = crc_update(d, s.drop_last());
        let b = s.last();
        lemma_crc_bits_injective(p ^ (b as u32), q ^ (b as u32), 8);
        assert(p ^ (b as u32) == q ^ (b as u32) ==> p == q) by (bit_vector);
        lemma_crc_update_injective(c, d, s.drop_last());
    }
}

/// The register runs over `s` and then over `t`.
proof fn lemma_crc_update_concat(c: u32, s: Seq<u8>, t: Seq<u8>)
    ensures
        crc_update(c, s + t) == crc_update(crc_update(c, s), t),
    decreases t.len(),
{
    if t.len() == 0 {
        assert(s + t =~= s);
    } else {
        assert((s + t).drop_last() =~= s + t.drop_last());
        lemma_crc_update_concat(c, s, t.drop_last());
    }
}

/// No change of a single byte leaves the CRC as it was.
pub proof fn law_crc_sees_every_byte(s: Seq<u8>, i: int, b: u8)
    requires
        0 <= i < s.len(),
        s[i] != b,
    ensures
        crc32(s.update(i, b)) != crc32(s),
{
    let head = s.take(i);
    let tail = s.skip(i + 1);
    let c = crc_update(0xffffffff, head);
    assert(s =~= head.push(s[i]) + tail);
    assert(s.update(i, b) =~= head.push(b) + tail);
    lemma_crc_update_concat(0xffffffff, head.push(s[i]), tail);
    lemma_crc_update_concat(0xffffffff, head.push(b), tail);
    assert(head.push(b).drop_last() =~= head);
    assert(head.push(s[i]).drop_last() =~= head);
    let p = crc_update(0xffffffff, s);
    let q = crc_update(0xffffffff, s.update(i, b));
    assert(p ^ 0xffffffff == q ^ 0xffffffff ==> p == q) by (bit_vector);
    if p == q {
        let x = s[i];
        lemma_crc_update_injective(crc_byte(c, x), crc_byte(c, b), tail);
        lemma_crc_bits_injective(c ^ (x as u32), c ^ (b as u32), 8);
        assert(c ^ (x as u32) == c ^ (b as u32) ==> x == b) by (bit_vector);
    }
}

/// Computes the 256 table entries.
pub fn crc_table() -> (table: [u32; 256])
    ensures
        is_crc_table(table@),
{
    let mut table: [u32; 256] = [0; 256];
    for n in 0..256usize
        invariant
            forall|k: int| 0 <= k < n ==> #[trigger] table@[k] == crc_bits(k as u32, 8),
    {
        let mut c: u32 = n as u32;
        for i in 0..8u32
            invariant
                n < 256,
                c == crc_bits(n as u32, i as nat),
        {
            if c & 1 != 0 {
                c = POLYNOMIAL ^ (c >> 1);
            } else {
                c = c >> 1;
            }
        }
        table[n] = c;
    }
    table
}

/// Advances the register `crc` over `buf`.
pub fn update_crc(crc: u32, buf: &[u8]) -> (c: u32)
    ensures
        c == crc_update(crc, buf@),
{
    let table = crc_table();
    let mut c: u32 = crc;
    for n in 0..buf.len()
        invariant
            is_crc_table(table@),
            c == crc_update(crc, buf@.take(n as int)),
    {
        proof {
            lemma_table_step(c, buf@[n as int]);
            assert(buf@.take(n + 1).drop_last() =~= buf@.take(n as int));
        }
        let index: usize = ((c ^ (buf[n] as u32)) & 0xff) as usize;
        c = table[index] ^ (c >> 8);
    }
    assert(buf@.take(buf@.len() as int) =~= buf@);
    c
}

/// The CRC-32 of `buf`.
pub fn compute_crc(buf: &[u8]) -> (crc: u32)
    ensures
        crc == crc32(buf@),
{
    update_crc(0xffffffff, buf) ^ 0xffffffff
}

} // verus!
