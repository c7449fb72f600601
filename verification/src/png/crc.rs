//! CRC-32 as PNG uses it: the IEEE polynomial in its reflected form, the
//! register set to all ones at the start and inverted at the end.
use vstd::prelude::*;

verus! {

/// The reflected IEEE polynomial.
pub const POLYNOMIAL: u32 = 0xEDB88320;

/// The register after one bit: shifted right, and reduced by the
/// polynomial where a one drops out.
pub open spec fn crc_shift(c: u32) -> u32 {
    if c & 1 != 0 {
        POLYNOMIAL ^ (c >> 1)
    } else {
        c >> 1
    }
}

/// The register after eight bits.
pub open spec fn crc_shift8(c: u32) -> u32 {
    crc_shift(crc_shift(crc_shift(crc_shift(crc_shift(crc_shift(crc_shift(crc_shift(c))))))))
}

/// The register after `bits` bits.
pub open spec fn crc_shifts(c: u32, bits: nat) -> u32
    decreases bits,
{
    if bits == 0 {
        c
    } else {
        crc_shift(crc_shifts(c, (bits - 1) as nat))
    }
}

proof fn lemma_eight_shifts(c: u32)
    ensures
        crc_shifts(c, 8) == crc_shift8(c),
{
    reveal_with_fuel(crc_shifts, 9);
}

/// The register after the byte `b`.
pub open spec fn crc_feed(c: u32, b: u8) -> u32 {
    crc_shift8(c ^ (b as u32))
}

/// The register after the bytes of `data`, started at all ones.
pub open spec fn crc_register(data: Seq<u8>) -> u32
    decreases data.len(),
{
    if data.len() == 0 {
        0xFFFF_FFFF
    } else {
        crc_feed(crc_register(data.drop_last()), data.last())
    }
}

/// The CRC-32 checksum of `data`.
pub open spec fn crc32(data: Seq<u8>) -> u32 {
    crc_register(data) ^ 0xFFFF_FFFF
}

/// What the table holds: for each byte the register that it alone leaves.
pub open spec fn is_crc_table(table: Seq<u32>) -> bool {
    &&& table.len() == 256
    &&& forall|n: int| 0 <= n < 256 ==> #[trigger] table[n] == crc_shift8(n as u32)
}

/// One look into the table does the work of eight shifts.
pub proof fn lemma_table_step(c: u32, b: u8)
    ensures
        ((c ^ (b as u32)) & 0xff) < 256,
        crc_feed(c, b) == crc_shift8((c ^ (b as u32)) & 0xff) ^ (c >> 8),
{
    let x = c ^ (b as u32);
    assert((x & 0xff) < 256) by (bit_vector);
    assert(crc_shift8(x) == crc_shift8(x & 0xff) ^ (x >> 8)) by (bit_vector);
    assert((c ^ (b as u32)) >> 8 == c >> 8) by (bit_vector);
}

/// The table of 256 entries, built from the polynomial.
pub fn crc_table() -> (table: Vec<u32>)
    ensures
        is_crc_table(table@),
{
    let mut table: Vec<u32> = Vec::new();
    let mut n: u32 = 0;
    while n < 256
        invariant
            n <= 256,
            table@.len() == n,
            forall|k: int| 0 <= k < n ==> #[trigger] table@[k] == crc_shift8(k as u32),
        decreases 256 - n,
    {
        let mut c: u32 = n;
        let mut bit: u32 = 0;
        while bit < 8
            invariant
                bit <= 8,
                c == crc_shifts(n, bit as nat),
            decreases 8 - bit,
        {
            if (c & 1) != 0 {
                c = POLYNOMIAL ^ (c >> 1);
            } else {
                c = c >> 1;
            }
            bit += 1;
        }
        proof {
            lemma_eight_shifts(n);
        }
        table.push(c);
        n += 1;
    }
    table
}

/// The CRC-32 checksum of `buf`, computed with the table.
pub fn crc(buf: &[u8]) -> (sum: u32)
    ensures
        sum == crc32(buf@),
{
    let table = crc_table();
    let mut c: u32 = 0xffff_ffff;
    let mut i: usize = 0;
    proof {
        assert(buf@.take(0) =~= Seq::<u8>::empty());
    }
    while i < buf.len()
        invariant
            i <= buf.len(),
            is_crc_table(table@),
            c == crc_register(buf@.take(i as int)),
        decreases buf.len() - i,
    {
        let b = buf[i];
        proof {
            lemma_table_step(c, b);
            assert(buf@.take(i + 1).drop_last() =~= buf@.take(i as int));
            assert(buf@.take(i + 1).last() == b);
        }
        let index = ((c ^ (b as u32)) & 0xff) as usize;
        c = table[index] ^ (c >> 8);
        i += 1;
    }
    proof {
        assert(buf@.take(buf@.len() as int) =~= buf@);
    }
    c ^ 0xffff_ffff
}

} // verus!
