//! The CRC-32 checksum that bzip2 stores for every block and for a whole stream.
//!
//! bzip2 uses the non-reflected CRC-32 with polynomial `0x04c11db7`, processing bytes
//! most significant bit first.
use vstd::prelude::*;

verus! {

/// One step of polynomial division: shift left by one bit, reducing by the polynomial.
pub open spec fn crc_shift(c: u32) -> u32 {
    if c & 0x8000_0000u32 != 0 {
        ((c << 1u32) ^ 0x04c1_1db7u32) as u32
    } else {
        (c << 1u32) as u32
    }
}

/// Eight division steps, one whole byte.
pub open spec fn crc_shift8(c: u32) -> u32 {
    crc_shift(crc_shift(crc_shift(crc_shift(crc_shift(crc_shift(crc_shift(crc_shift(c))))))))
}

/// The CRC register after feeding one more byte.
pub open spec fn crc_byte(crc: u32, b: u8) -> u32 {
    crc_shift8(crc ^ ((b as u32) << 24u32))
}

/// The CRC register after feeding a sequence of bytes, starting from `init`.
pub open spec fn crc_bytes(init: u32, s: Seq<u8>) -> u32
    decreases s.len(),
{
    if s.len() == 0 {
        init
    } else {
        crc_byte(crc_bytes(init, s.drop_last()), s.last())
    }
}

/// The checksum bzip2 stores for a block holding `s`.
pub open spec fn block_crc(s: Seq<u8>) -> u32 {
    !crc_bytes(0xffff_ffffu32, s)
}

/// The entry of the lookup table for index `i`.
pub open spec fn crc_table_entry(i: u32) -> u32 {
    crc_shift8(i << 24u32)
}

/// A byte step equals the table-driven update.
proof fn lemma_crc_byte_table(crc: u32, b: u8)
    ensures
        crc_byte(crc, b) == ((crc << 8u32) ^ crc_table_entry(((crc >> 24u32) ^ (b as u32)) as u32)),
{
    let bb = b as u32;
    assert(crc_shift8(crc ^ (bb << 24u32)) == ((crc << 8u32) ^ crc_shift8(((crc >> 24u32) ^ bb) << 24u32)))
        by (bit_vector)
        requires bb < 256u32;
}

/// The 256-entry lookup table that speeds up the checksum.
pub struct CrcTable {
    table: Vec<u32>,
}

impl CrcTable {
    pub closed spec fn wf(&self) -> bool {
        &&& self.table@.len() == 256
        &&& forall|i: int| 0 <= i < 256 ==> #[trigger] self.table@[i] == crc_table_entry(i as u32)
    }

    /// Builds the lookup table.
    pub fn new() -> (t: CrcTable)
        ensures
            t.wf(),
    {
        let mut table: Vec<u32> = Vec::new();
        let mut i: u32 = 0;
        while i < 256
            invariant
                i <= 256,
                table@.len() == i,
                forall|k: int| 0 <= k < i ==> #[trigger] table@[k] == crc_table_entry(k as u32),
            decreases 256 - i,
        {
            let mut c: u32 = i << 24u32;
            let mut n: u32 = 0;
            while n < 8
                invariant
                    n <= 8,
                    i < 256,
                    n == 0 ==> c == i << 24u32,
                    n == 1 ==> c == crc_shift(i << 24u32),
                    n == 2 ==> c == crc_shift(crc_shift(i << 24u32)),
                    n == 3 ==> c == crc_shift(crc_shift(crc_shift(i << 24u32))),
                    n == 4 ==> c == crc_shift(crc_shift(crc_shift(crc_shift(i << 24u32)))),
                    n == 5 ==> c == crc_shift(crc_shift(crc_shift(crc_shift(crc_shift(i << 24u32))))),
                    n == 6 ==> c == crc_shift(crc_shift(crc_shift(crc_shift(crc_shift(crc_shift(i << 24u32)))))),
                    n == 7 ==> c == crc_shift(crc_shift(crc_shift(crc_shift(crc_shift(crc_shift(crc_shift(i << 24u32))))))),
                    n == 8 ==> c == crc_table_entry(i),
                decreases 8 - n,
            {
                if c & 0x8000_0000u32 != 0 {
                    c = (c << 1u32) ^ 0x04c1_1db7u32;
                } else {
                    c = c << 1u32;
                }
                n = n + 1;
            }
            table.push(c);
            i = i + 1;
        }
        CrcTable { table }
    }

    /// Feeds one byte into the CRC register `crc`.
    pub fn update(&self, crc: u32, b: u8) -> (r: u32)
        requires
            self.wf(),
        ensures
            r == crc_byte(crc, b),
    {
        proof {
            lemma_crc_byte_table(crc, b);
        }
        let idx: u32 = (crc >> 24u32) ^ (b as u32);
        assert(idx < 256) by (bit_vector)
            requires idx == (crc >> 24u32) ^ (b as u32), b < 256;
        (crc << 8u32) ^ self.table[idx as usize]
    }
}

} // verus!
