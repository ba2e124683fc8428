//! Decompression of one stream, resumable at any point where input runs out: the stream
//! and block headers, the byte map, the selectors, the code tables, the Huffman and
//! move-to-front decoding of the symbols, and the set-up of the inverse transform.
use vstd::prelude::*;
use crate::bzlib::{bz_stream, count_inc, next_byte, BZ_DATA_ERROR, BZ_DATA_ERROR_MAGIC, BZ_OK, BZ_RUN_OK, BZ_STREAM_END};
use crate::blocksort::{cnt, cum, lemma_cnt_mono, lemma_cum_bounds, lemma_cum_mono, lemma_cum_step};
use crate::compress::{combine_crc, row_copy_i32, row_copy_u8};
use crate::crc::{CrcTable, block_crc, crc_bytes};
use crate::huffman::{BZ2_hbCreateDecodeTables, BZ_MAX_ALPHA_SIZE, lens_in_range};

verus! {

/// Where the decoder stands: the field it is reading next, or `BZ_X_OUTPUT` while a decoded
/// block is being handed out, or `BZ_X_IDLE` after the end of the stream.
#[allow(non_camel_case_types)]
#[derive(Clone, Copy, PartialEq, Eq, Structural)]
pub enum State {
    BZ_X_IDLE,
    BZ_X_OUTPUT,
    BZ_X_MAGIC_1,
    BZ_X_MAGIC_2,
    BZ_X_MAGIC_3,
    BZ_X_MAGIC_4,
    BZ_X_BLKHDR_1,
    BZ_X_BLKHDR_2,
    BZ_X_BLKHDR_3,
    BZ_X_BLKHDR_4,
    BZ_X_BLKHDR_5,
    BZ_X_BLKHDR_6,
    BZ_X_BCRC_1,
    BZ_X_BCRC_2,
    BZ_X_BCRC_3,
    BZ_X_BCRC_4,
    BZ_X_RANDBIT,
    BZ_X_ORIGPTR_1,
    BZ_X_ORIGPTR_2,
    BZ_X_ORIGPTR_3,
    BZ_X_MAPPING_1,
    BZ_X_MAPPING_2,
    BZ_X_SELECTOR_1,
    BZ_X_SELECTOR_2,
    BZ_X_SELECTOR_3,
    BZ_X_CODING_1,
    BZ_X_CODING_2,
    BZ_X_CODING_3,
    BZ_X_MTF_1,
    BZ_X_MTF_2,
    BZ_X_MTF_3,
    BZ_X_MTF_4,
    BZ_X_MTF_5,
    BZ_X_MTF_6,
    BZ_X_ENDHDR_2,
    BZ_X_ENDHDR_3,
    BZ_X_ENDHDR_4,
    BZ_X_ENDHDR_5,
    BZ_X_ENDHDR_6,
    BZ_X_CCRC_1,
    BZ_X_CCRC_2,
    BZ_X_CCRC_3,
    BZ_X_CCRC_4,
}

/// Symbols of a group coded with one table.
pub const BZ_G_SIZE: i32 = 50;
/// Tables at most.
pub const BZ_N_GROUPS: usize = 6;
/// Selectors kept at most.
pub const BZ_MAX_SELECTORS: usize = 18002;

/// The state of a decompression stream.
pub struct DState {
    pub state: State,
    /// The byte being repeated to the output, and how many copies are left.
    pub state_out_ch: u8,
    pub state_out_len: i32,
    pub blockRandomised: bool,
    pub rNToGo: i32,
    pub rTPos: i32,
    /// Bits read from the input and not used yet: the low `bsLive` bits of `bsBuff`.
    pub bsBuff: u32,
    pub bsLive: i32,
    pub blockSize100k: i32,
    pub smallDecompress: bool,
    pub currBlockNo: i32,
    pub verbosity: i32,
    pub origPtr: i32,
    pub tPos: u32,
    pub k0: i32,
    pub unzftab: Vec<i32>,
    pub nblock_used: i32,
    pub cftab: Vec<i32>,
    pub cftabCopy: Vec<i32>,
    /// The decoded block with its inverse transform links (fast mode).
    pub tt: Vec<u32>,
    /// The same in 20 bits per entry, split in 16 and 4 (small mode).
    pub ll16: Vec<u16>,
    pub ll4: Vec<u8>,
    pub storedBlockCRC: u32,
    pub storedCombinedCRC: u32,
    pub calculatedBlockCRC: u32,
    pub calculatedCombinedCRC: u32,
    pub nInUse: i32,
    pub inUse: Vec<bool>,
    pub inUse16: Vec<bool>,
    pub seqToUnseq: Vec<u8>,
    /// The move-to-front list of the block's byte values.
    pub mtf: Vec<u8>,
    pub selector: Vec<u8>,
    pub selectorMtf: Vec<u8>,
    pub len: Vec<Vec<u8>>,
    pub limit: Vec<Vec<i32>>,
    pub base: Vec<Vec<i32>>,
    pub perm: Vec<Vec<i32>>,
    pub minLens: Vec<i32>,
    pub save_i: i32,
    pub save_j: i32,
    pub save_t: i32,
    pub save_alphaSize: i32,
    pub save_nGroups: i32,
    pub save_nSelectors: i32,
    pub save_EOB: i32,
    pub save_groupNo: i32,
    pub save_groupPos: i32,
    pub save_nextSym: i32,
    pub save_nblockMAX: i32,
    pub save_nblock: i32,
    pub save_es: i32,
    pub save_N: i32,
    pub save_curr: i32,
    pub save_zn: i32,
    pub save_zvec: i32,
    pub save_gSel: i32,
    pub save_gMinlen: i32,
    /// Whether the next symbol still has to find its group's table.
    pub save_needGroup: bool,
    pub crc: CrcTable,
    /// Every byte handed out since the decompressor was set up.
    pub handed_out: Ghost<Seq<u8>>,
    /// The blocks that passed their checksum, each with the checksum stored for it.
    pub accepted: Ghost<Seq<(Seq<u8>, u32)>>,
    /// The bytes handed out of the block in progress.
    pub block_out: Ghost<Seq<u8>>,
}

/// The bytes of a sequence of blocks, one after the other.
pub open spec fn joined(blocks: Seq<(Seq<u8>, u32)>) -> Seq<u8>
    decreases blocks.len(),
{
    if blocks.len() == 0 { Seq::empty() } else { joined(blocks.drop_last()) + blocks.last().0 }
}

/// The checksum of a stream made of blocks with the given checksums: each step rotates
/// the sum left by one bit and adds the next block's checksum in.
pub open spec fn combined_crc(blocks: Seq<(Seq<u8>, u32)>) -> u32
    decreases blocks.len(),
{
    if blocks.len() == 0 {
        0
    } else {
        combine_crc(combined_crc(blocks.drop_last()), blocks.last().1)
    }
}

/// The record of what was handed out: the accepted blocks, each matching its checksum,
/// then the block in progress.
pub open spec fn output_record_ok(s: &DState) -> bool {
    &&& s.handed_out@ == joined(s.accepted@) + s.block_out@
    &&& forall|i: int| 0 <= i < s.accepted@.len() ==> block_crc((#[trigger] s.accepted@[i]).0) == s.accepted@[i].1
    &&& s.calculatedCombinedCRC == combined_crc(s.accepted@)
    &&& s.state == State::BZ_X_OUTPUT ==> s.calculatedBlockCRC == crc_bytes(0xffff_ffffu32, s.block_out@)
    &&& s.state != State::BZ_X_OUTPUT ==> s.block_out@.len() == 0
}

/// Whether the decoder is inside a block's symbol data.
pub open spec fn in_mtf(st: State) -> bool {
    st == State::BZ_X_MTF_1 || st == State::BZ_X_MTF_2 || st == State::BZ_X_MTF_3
        || st == State::BZ_X_MTF_4 || st == State::BZ_X_MTF_5 || st == State::BZ_X_MTF_6
}

/// Whether the decoder is reading the code lengths.
pub open spec fn in_coding(st: State) -> bool {
    st == State::BZ_X_CODING_1 || st == State::BZ_X_CODING_2 || st == State::BZ_X_CODING_3
}

/// Whether the stream header (and so the block size) has been read.
pub open spec fn past_stream_header(st: State) -> bool {
    !(st == State::BZ_X_MAGIC_1 || st == State::BZ_X_MAGIC_2 || st == State::BZ_X_MAGIC_3 || st == State::BZ_X_MAGIC_4)
}

/// Whether the byte map of the block has been read.
pub open spec fn past_mapping(st: State) -> bool {
    st == State::BZ_X_SELECTOR_1 || st == State::BZ_X_SELECTOR_2 || st == State::BZ_X_SELECTOR_3
        || in_coding(st) || in_mtf(st)
}

/// Whether the number of tables has been read.
pub open spec fn past_groups(st: State) -> bool {
    st == State::BZ_X_SELECTOR_2 || st == State::BZ_X_SELECTOR_3 || in_coding(st) || in_mtf(st)
}

/// Block size in bytes for a block size digit.
pub open spec fn block_cap(bs: int) -> int {
    100000 * bs
}

impl DState {
    /// Sizes of the working arrays, and the ranges of the values the decoder relies on in
    /// its current state.
    pub open spec fn wf(&self) -> bool {
        &&& self.unzftab@.len() == 256
        &&& self.cftab@.len() == 257
        &&& self.cftabCopy@.len() == 257
        &&& self.inUse@.len() == 256
        &&& self.inUse16@.len() == 16
        &&& self.seqToUnseq@.len() == 256
        &&& self.mtf@.len() == 256
        &&& self.selector@.len() == BZ_MAX_SELECTORS
        &&& self.selectorMtf@.len() == BZ_MAX_SELECTORS
        &&& self.len@.len() == BZ_N_GROUPS
        &&& self.limit@.len() == BZ_N_GROUPS
        &&& self.base@.len() == BZ_N_GROUPS
        &&& self.perm@.len() == BZ_N_GROUPS
        &&& self.minLens@.len() == BZ_N_GROUPS
        &&& forall|t: int| 0 <= t < BZ_N_GROUPS ==> (#[trigger] self.len@[t])@.len() == BZ_MAX_ALPHA_SIZE
        &&& forall|t: int| 0 <= t < BZ_N_GROUPS ==> (#[trigger] self.limit@[t])@.len() == BZ_MAX_ALPHA_SIZE
        &&& forall|t: int| 0 <= t < BZ_N_GROUPS ==> (#[trigger] self.base@[t])@.len() == BZ_MAX_ALPHA_SIZE
        &&& forall|t: int| 0 <= t < BZ_N_GROUPS ==> (#[trigger] self.perm@[t])@.len() == BZ_MAX_ALPHA_SIZE
        &&& 0 <= self.bsLive <= 31
        &&& self.crc.wf()
        &&& output_record_ok(self)
        &&& past_stream_header(self.state) ==> {
            &&& 1 <= self.blockSize100k <= 9
            &&& if self.smallDecompress {
                &&& self.ll16@.len() == block_cap(self.blockSize100k as int)
                &&& self.ll4@.len() == (block_cap(self.blockSize100k as int) + 1) / 2
            } else {
                self.tt@.len() == block_cap(self.blockSize100k as int)
            }
        }
        &&& self.state == State::BZ_X_MAPPING_1 ==> 0 <= self.save_i <= 16
        &&& self.state == State::BZ_X_MAPPING_2 ==> 0 <= self.save_i <= 16 && 0 <= self.save_j < 16
        &&& self.state == State::BZ_X_OUTPUT ==> {
            &&& 0 <= self.save_nblock <= block_cap(self.blockSize100k as int)
            &&& 0 <= self.nblock_used <= self.save_nblock + 5
            &&& 0 <= self.state_out_len <= 259
            &&& self.blockRandomised ==> 0 <= self.rTPos < 512
            &&& 0 <= self.k0 < 256
        }
        &&& past_mapping(self.state) ==> 1 <= self.nInUse <= 256 && self.save_alphaSize == self.nInUse + 2
        &&& past_groups(self.state) ==> 2 <= self.save_nGroups <= BZ_N_GROUPS
        &&& self.state == State::BZ_X_SELECTOR_3 ==> {
            &&& 1 <= self.save_nSelectors <= 32767
            &&& 0 <= self.save_i < self.save_nSelectors
            &&& 0 <= self.save_j < self.save_nGroups
            &&& forall|k: int| 0 <= k < self.save_i && k < BZ_MAX_SELECTORS ==>
                (#[trigger] self.selectorMtf@[k] as int) < self.save_nGroups
        }
        &&& (in_coding(self.state) || in_mtf(self.state)) ==> {
            &&& 1 <= self.save_nSelectors <= BZ_MAX_SELECTORS
            &&& forall|k: int| 0 <= k < self.save_nSelectors ==> (#[trigger] self.selector@[k] as int) < self.save_nGroups
        }
        &&& in_coding(self.state) ==> {
            &&& 0 <= self.save_t < self.save_nGroups
            &&& 0 <= self.save_i < self.save_alphaSize
            &&& 0 <= self.save_curr <= 31
            &&& self.state == State::BZ_X_CODING_3 ==> 1 <= self.save_curr <= 20
            &&& forall|t: int, v: int| 0 <= t < self.save_t && 0 <= v < self.save_alphaSize ==>
                1 <= #[trigger] self.len@[t]@[v] <= 20
            &&& forall|v: int| 0 <= v < self.save_i ==> 1 <= #[trigger] self.len@[self.save_t as int]@[v] <= 20
        }
        &&& in_mtf(self.state) ==> {
            &&& forall|t: int| 0 <= t < self.save_nGroups ==> 1 <= #[trigger] self.minLens@[t] <= 20
            &&& self.save_EOB == self.nInUse + 1
            &&& self.save_nblockMAX == block_cap(self.blockSize100k as int)
            &&& 0 <= self.save_nblock <= self.save_nblockMAX
            &&& -1 <= self.save_groupNo < self.save_nSelectors
            &&& 0 <= self.save_groupPos <= BZ_G_SIZE
            &&& (self.save_groupPos > 0 || !self.save_needGroup) ==> group_ok(self)
            &&& self.save_needGroup ==> (self.state == State::BZ_X_MTF_1 || self.state == State::BZ_X_MTF_3 || self.state == State::BZ_X_MTF_5)
            &&& !self.save_needGroup ==> self.save_groupPos < BZ_G_SIZE
            &&& (self.state == State::BZ_X_MTF_1 || self.state == State::BZ_X_MTF_3 || self.state == State::BZ_X_MTF_5)
                && !self.save_needGroup ==> self.save_zn == self.save_gMinlen
            &&& (self.state == State::BZ_X_MTF_2 || self.state == State::BZ_X_MTF_4 || self.state == State::BZ_X_MTF_6)
                ==> self.save_gMinlen < self.save_zn <= 21 && 0 <= self.save_zvec < pow2_i(self.save_zn - 1)
            &&& (self.state == State::BZ_X_MTF_3 || self.state == State::BZ_X_MTF_4)
                ==> 1 <= self.save_N <= 0x40_0000 && -1 <= self.save_es <= 2 * self.save_N - 2
            &&& self.smallDecompress ==> forall|k: int| 0 <= k < self.save_nblock ==> (#[trigger] self.ll16@[k]) < 256
            &&& !self.smallDecompress ==> forall|k: int| 0 <= k < self.save_nblock ==> (#[trigger] self.tt@[k]) < 256
            &&& forall|b: int| 0 <= b < 256 ==> #[trigger] self.unzftab@[b] == cnt(block_bytes(self), b, self.save_nblock as int)
        }
    }
}

/// The low bytes of a block array.
pub open spec fn low_bytes16(v: Seq<u16>) -> Seq<u8> {
    Seq::new(v.len(), |k: int| v[k] as u8)
}

/// The low bytes of a block array.
pub open spec fn low_bytes32(v: Seq<u32>) -> Seq<u8> {
    Seq::new(v.len(), |k: int| v[k] as u8)
}

/// The bytes of the block as decoded so far, from the array of the decoder's layout:
/// `ll16` for the small decompressor, `tt` otherwise.
pub open spec fn block_bytes(s: &DState) -> Seq<u8> {
    if s.smallDecompress { low_bytes16(s.ll16@) } else { low_bytes32(s.tt@) }
}

proof fn lemma_pow2_i_le(a: int, b: int)
    requires
        a <= b,
    ensures
        1 <= pow2_i(a) <= pow2_i(b),
    decreases b - a,
{
    if a < b {
        lemma_pow2_i_le(a, b - 1);
        if b - 1 <= 0 {
            assert(pow2_i(b - 1) == 1);
        }
    } else {
        lemma_pow2_i_pos(a);
    }
}

proof fn lemma_pow2_i_pos(a: int)
    ensures
        1 <= pow2_i(a),
    decreases a,
{
    if a > 0 {
        lemma_pow2_i_pos(a - 1);
    }
}

/// The table of the current group of symbols is known.
pub open spec fn group_ok(s: &DState) -> bool {
    &&& 0 <= s.save_groupNo < s.save_nSelectors
    &&& s.save_gSel == s.selector@[s.save_groupNo as int]
    &&& s.save_gMinlen == s.minLens@[s.save_gSel as int]
}

/// `2` to the `n`, for small `n`.
pub open spec fn pow2_i(n: int) -> int
    decreases n,
{
    if n <= 0 { 1 } else { 2 * pow2_i(n - 1) }
}

} // verus!

verus! {

/// Input bits the decoder can still read: those in its bit buffer and eight for each
/// input byte left.
pub open spec fn bits_left(strm: &bz_stream, s: &DState) -> int {
    8 * strm.avail_in + s.bsLive
}

/// `b` is `a` after input bytes were taken from `a.next_in` on, and nothing else changed.
pub open spec fn in_frame(a: &bz_stream, b: &bz_stream) -> bool {
    &&& crate::bzlib::in_counted(a, b)
    &&& b.input == a.input
    &&& b.output == a.output
    &&& b.next_out == a.next_out
    &&& b.avail_out == a.avail_out
    &&& b.total_out_lo32 == a.total_out_lo32
    &&& b.total_out_hi32 == a.total_out_hi32
    &&& b.avail_in <= a.avail_in
    &&& b.next_in == a.next_in + (a.avail_in - b.avail_in)
}

/// Reads the next `n` bits of the input, most significant first, taking input bytes into
/// the bit buffer as needed (`GET_BITS`). Returns `None` once the input is used up before
/// `n` bits are there; the bytes taken stay in the buffer.
fn get_bits(strm: &mut bz_stream, buff: &mut u32, live: &mut i32, n: i32) -> (r: Option<u32>)
    requires
        old(strm).io_ok(),
        0 <= *old(live) <= 31,
        1 <= n <= 24,
    ensures
        final(strm).io_ok(),
        in_frame(old(strm), final(strm)),
        0 <= *final(live) <= 31,
        r matches Some(v) ==> v < pow2_i(n as int)
            && 8 * final(strm).avail_in + *final(live) == 8 * old(strm).avail_in + *old(live) - n,
        r is None ==> final(strm).avail_in == 0
            && 8 * final(strm).avail_in + *final(live) == 8 * old(strm).avail_in + *old(live),
        *old(live) == 0 && n == 8 && old(strm).avail_in > 0 ==>
            r == Some(old(strm).input@[old(strm).next_in as int] as u32) && *final(live) == 0,
        *old(live) < n && old(strm).avail_in == 0 ==> r is None,
{
    loop
        invariant
            strm.io_ok(),
            in_frame(old(strm), strm),
            0 <= *live <= 31,
            1 <= n <= 24,
            8 * strm.avail_in + *live == 8 * old(strm).avail_in + *old(live),
            *old(live) == 0 && n == 8 ==> (*live == 0 && strm.next_in == old(strm).next_in)
                || (*live == 8 && strm.next_in == old(strm).next_in + 1
                    && (*buff & 0xffu32) == old(strm).input@[old(strm).next_in as int] as u32),
        decreases strm.avail_in,
    {
        if *live >= n {
            let sh = (*live - n) as u32;
            proof {
                lemma_pow2_mask(n as u32);
            }
            let mask: u32 = (1u32 << (n as u32)) - 1;
            let v: u32 = (*buff >> sh) & mask;
            assert(v <= mask) by (bit_vector)
                requires v == (*buff >> sh) & mask;
            assert(sh == 0 && n == 8 ==> v == *buff & 0xffu32) by (bit_vector)
                requires v == (*buff >> sh) & mask, mask == (1u32 << (n as u32)) - 1, 1 <= n <= 24;
            *live = *live - n;
            return Some(v);
        }
        if strm.avail_in == 0 {
            return None;
        }
        let ilen = strm.input.len();
        let b = strm.input[strm.next_in];
        let ghost buff0 = *buff;
        *buff = (*buff << 8u32) | (b as u32);
        assert((*buff & 0xffu32) == b as u32) by (bit_vector)
            requires *buff == (buff0 << 8u32) | (b as u32);
        *live = *live + 8;
        strm.next_in = strm.next_in + 1;
        strm.avail_in = strm.avail_in - 1;
        let mut lo = strm.total_in_lo32;
        let mut hi = strm.total_in_hi32;
        crate::bzlib::bump(&mut lo, &mut hi);
        strm.total_in_lo32 = lo;
        strm.total_in_hi32 = hi;
    }
}

proof fn lemma_shl_pow2(k: u32)
    requires
        k <= 24,
    ensures
        (1u32 << k) as int == pow2_i(k as int),
    decreases k,
{
    if k == 0 {
        assert(1u32 << 0u32 == 1u32) by (bit_vector);
    } else {
        lemma_shl_pow2((k - 1) as u32);
        let k1 = (k - 1) as u32;
        assert((1u32 << k) == 2 * (1u32 << k1)) by (bit_vector)
            requires 1 <= k <= 24, k1 == k - 1;
    }
}

proof fn lemma_pow2_mask(n: u32)
    requires
        1 <= n <= 24,
    ensures
        (1u32 << n) >= 1,
        ((1u32 << n) - 1) as int == pow2_i(n as int) - 1,
{
    lemma_shl_pow2(n);
    assert((1u32 << n) >= 1) by (bit_vector) requires 1 <= n <= 24;
}

} // verus!

verus! {

/// What reading a header byte in state `st` expects, the error for anything else, and the
/// state after it.
pub open spec fn expected_byte(st: State) -> (u8, i32, State) {
    match st {
        State::BZ_X_MAGIC_1 => (0x42u8, BZ_DATA_ERROR_MAGIC, State::BZ_X_MAGIC_2),
        State::BZ_X_MAGIC_2 => (0x5au8, BZ_DATA_ERROR_MAGIC, State::BZ_X_MAGIC_3),
        State::BZ_X_MAGIC_3 => (0x68u8, BZ_DATA_ERROR_MAGIC, State::BZ_X_MAGIC_4),
        State::BZ_X_BLKHDR_2 => (0x41u8, BZ_DATA_ERROR, State::BZ_X_BLKHDR_3),
        State::BZ_X_BLKHDR_3 => (0x59u8, BZ_DATA_ERROR, State::BZ_X_BLKHDR_4),
        State::BZ_X_BLKHDR_4 => (0x26u8, BZ_DATA_ERROR, State::BZ_X_BLKHDR_5),
        State::BZ_X_BLKHDR_5 => (0x53u8, BZ_DATA_ERROR, State::BZ_X_BLKHDR_6),
        State::BZ_X_BLKHDR_6 => (0x59u8, BZ_DATA_ERROR, State::BZ_X_BCRC_1),
        State::BZ_X_ENDHDR_2 => (0x72u8, BZ_DATA_ERROR, State::BZ_X_ENDHDR_3),
        State::BZ_X_ENDHDR_3 => (0x45u8, BZ_DATA_ERROR, State::BZ_X_ENDHDR_4),
        State::BZ_X_ENDHDR_4 => (0x38u8, BZ_DATA_ERROR, State::BZ_X_ENDHDR_5),
        State::BZ_X_ENDHDR_5 => (0x50u8, BZ_DATA_ERROR, State::BZ_X_ENDHDR_6),
        _ => (0x90u8, BZ_DATA_ERROR, State::BZ_X_CCRC_1),
    }
}

/// Whether the decoder is reading the stream header.
pub open spec fn in_stream_header(st: State) -> bool {
    st == State::BZ_X_MAGIC_1 || st == State::BZ_X_MAGIC_2 || st == State::BZ_X_MAGIC_3 || st == State::BZ_X_MAGIC_4
}

/// How many bytes of the stream header are behind a state that reads it.
pub open spec fn header_pos(st: State) -> int {
    if st == State::BZ_X_MAGIC_1 { 0 }
    else if st == State::BZ_X_MAGIC_2 { 1 }
    else if st == State::BZ_X_MAGIC_3 { 2 }
    else { 3 }
}

/// Byte `j` of a stream header is acceptable: `B`, `Z`, `h`, then a block size digit
/// `1` to `9`.
pub open spec fn header_byte_ok(j: int, b: u8) -> bool {
    if j == 0 { b == 0x42u8 }
    else if j == 1 { b == 0x5au8 }
    else if j == 2 { b == 0x68u8 }
    else { 0x31u8 <= b <= 0x39u8 }
}

/// The first `k` bytes from `p` on are acceptable as the start of a stream header.
pub open spec fn header_prefix_ok(input: Seq<u8>, p: int, k: int) -> bool {
    forall|j: int| 0 <= j < k ==> #[trigger] header_byte_ok(j, input[p + j])
}

/// The four bytes from `p` on are a stream header.
pub open spec fn header_ok(input: Seq<u8>, p: int) -> bool {
    header_prefix_ok(input, p, 4)
}

/// A state in which one fixed header byte is read.
pub open spec fn is_expect_state(st: State) -> bool {
    st == State::BZ_X_MAGIC_1 || st == State::BZ_X_MAGIC_2 || st == State::BZ_X_MAGIC_3
        || st == State::BZ_X_BLKHDR_2 || st == State::BZ_X_BLKHDR_3 || st == State::BZ_X_BLKHDR_4
        || st == State::BZ_X_BLKHDR_5 || st == State::BZ_X_BLKHDR_6 || st == State::BZ_X_ENDHDR_2
        || st == State::BZ_X_ENDHDR_3 || st == State::BZ_X_ENDHDR_4 || st == State::BZ_X_ENDHDR_5
        || st == State::BZ_X_ENDHDR_6
}

/// The result of one step of the decoder: `None` to go on (the state has moved on and
/// input was read), or the value to return with.
pub open spec fn step_ok(old_strm: &bz_stream, strm: &bz_stream, old_s: &DState, s: &DState, r: Option<i32>) -> bool {
    &&& strm.io_ok()
    &&& s.wf()
    &&& in_frame(old_strm, strm)
    &&& s.blockSize100k == old_s.blockSize100k || !past_stream_header(old_s.state)
    &&& s.smallDecompress == old_s.smallDecompress
    &&& r is None ==> bits_left(strm, s) < bits_left(old_strm, old_s)
    &&& r is None ==> s.state != State::BZ_X_IDLE && s.state != State::BZ_X_OUTPUT
    &&& s.state == State::BZ_X_OUTPUT ==> bits_left(strm, s) < bits_left(old_strm, old_s)
    &&& bits_left(strm, s) <= bits_left(old_strm, old_s)
    &&& keeps_record(old_s, s)
    &&& !in_stream_header(old_s.state) && r is Some ==> r != Some(BZ_DATA_ERROR_MAGIC)
    &&& r == Some(BZ_DATA_ERROR_MAGIC) ==> s.state == old_s.state
}

/// Everything a decompressor has handed out is the blocks it accepted, one after the
/// other, followed by what it has handed out of the block in progress; each accepted
/// block's bytes have the checksum that the stream stored for that block; and between
/// blocks nothing of a block is pending.
pub proof fn lemma_handed_out_is_checked(s: &DState)
    requires
        s.wf(),
    ensures
        s.handed_out@ == joined(s.accepted@) + s.block_out@,
        forall|i: int| 0 <= i < s.accepted@.len() ==> block_crc((#[trigger] s.accepted@[i]).0) == s.accepted@[i].1,
        s.state != State::BZ_X_OUTPUT ==> s.handed_out@ == joined(s.accepted@),
{
    if s.state != State::BZ_X_OUTPUT {
        assert(joined(s.accepted@) + s.block_out@ =~= joined(s.accepted@));
    }
}

/// The record of what was handed out is left as it was.
pub open spec fn keeps_record(a: &DState, b: &DState) -> bool {
    &&& b.handed_out == a.handed_out
    &&& b.accepted == a.accepted
    &&& b.block_out == a.block_out
    &&& b.calculatedCombinedCRC == a.calculatedCombinedCRC
    &&& !in_stream_header(a.state) ==> !in_stream_header(b.state)
}

/// Reads one fixed header byte.
fn step_expect(strm: &mut bz_stream, s: &mut DState) -> (r: Option<i32>)
    requires
        old(strm).io_ok(),
        old(s).wf(),
        is_expect_state(old(s).state),
    ensures
        step_ok(old(strm), final(strm), old(s), final(s), r),
        r matches Some(c) ==> (c == BZ_OK && final(strm).avail_in == 0) || c == expected_byte(old(s).state).1,
        r is None ==> final(s).state == expected_byte(old(s).state).2,
        in_stream_header(old(s).state) && old(s).bsLive == 0 && old(strm).avail_in > 0 ==> {
            &&& final(s).bsLive == 0
            &&& final(strm).next_in == old(strm).next_in + 1
            &&& (r is None <==> header_byte_ok(header_pos(old(s).state), old(strm).input@[old(strm).next_in as int]))
            &&& r is Some ==> r == Some(BZ_DATA_ERROR_MAGIC)
        },
        old(s).bsLive == 0 && old(strm).avail_in > 0 ==> {
            &&& final(s).bsLive == 0
            &&& final(strm).next_in == old(strm).next_in + 1
            &&& (r is None <==> old(strm).input@[old(strm).next_in as int] == expected_byte(old(s).state).0)
        },
        r is None && expected_byte(old(s).state).2 == State::BZ_X_CCRC_1 ==> final(s).storedCombinedCRC == 0,
        old(s).bsLive < 8 && old(strm).avail_in == 0 ==> r == Some(BZ_OK),
{
    let (exp, err, next) = match s.state {
        State::BZ_X_MAGIC_1 => (0x42u8, BZ_DATA_ERROR_MAGIC, State::BZ_X_MAGIC_2),
        State::BZ_X_MAGIC_2 => (0x5au8, BZ_DATA_ERROR_MAGIC, State::BZ_X_MAGIC_3),
        State::BZ_X_MAGIC_3 => (0x68u8, BZ_DATA_ERROR_MAGIC, State::BZ_X_MAGIC_4),
        State::BZ_X_BLKHDR_2 => (0x41u8, BZ_DATA_ERROR, State::BZ_X_BLKHDR_3),
        State::BZ_X_BLKHDR_3 => (0x59u8, BZ_DATA_ERROR, State::BZ_X_BLKHDR_4),
        State::BZ_X_BLKHDR_4 => (0x26u8, BZ_DATA_ERROR, State::BZ_X_BLKHDR_5),
        State::BZ_X_BLKHDR_5 => (0x53u8, BZ_DATA_ERROR, State::BZ_X_BLKHDR_6),
        State::BZ_X_BLKHDR_6 => (0x59u8, BZ_DATA_ERROR, State::BZ_X_BCRC_1),
        State::BZ_X_ENDHDR_2 => (0x72u8, BZ_DATA_ERROR, State::BZ_X_ENDHDR_3),
        State::BZ_X_ENDHDR_3 => (0x45u8, BZ_DATA_ERROR, State::BZ_X_ENDHDR_4),
        State::BZ_X_ENDHDR_4 => (0x38u8, BZ_DATA_ERROR, State::BZ_X_ENDHDR_5),
        State::BZ_X_ENDHDR_5 => (0x50u8, BZ_DATA_ERROR, State::BZ_X_ENDHDR_6),
        _ => (0x90u8, BZ_DATA_ERROR, State::BZ_X_CCRC_1),
    };
    assert((exp, err, next) == expected_byte(s.state));
    match get_bits(strm, &mut s.bsBuff, &mut s.bsLive, 8) {
        None => Some(BZ_OK),
        Some(v) => {
            if v != exp as u32 {
                return Some(err);
            }
            if next == State::BZ_X_BCRC_1 {
                s.currBlockNo = s.currBlockNo.wrapping_add(1);
                s.storedBlockCRC = 0;
            }
            if next == State::BZ_X_CCRC_1 {
                s.storedCombinedCRC = 0;
            }
            s.state = next;
            None
        },
    }
}

/// A state in which one byte of a CRC is read.
pub open spec fn is_crc_state(st: State) -> bool {
    st == State::BZ_X_BCRC_1 || st == State::BZ_X_BCRC_2 || st == State::BZ_X_BCRC_3 || st == State::BZ_X_BCRC_4
        || st == State::BZ_X_CCRC_1 || st == State::BZ_X_CCRC_2 || st == State::BZ_X_CCRC_3 || st == State::BZ_X_CCRC_4
}

/// Reads one byte of the block CRC or of the combined CRC; after the last byte of the
/// combined CRC the stream is over.
fn step_crc(strm: &mut bz_stream, s: &mut DState) -> (r: Option<i32>)
    requires
        old(strm).io_ok(),
        old(s).wf(),
        is_crc_state(old(s).state),
    ensures
        step_ok(old(strm), final(strm), old(s), final(s), r),
        r matches Some(c) ==> (c == BZ_OK && final(strm).avail_in == 0) || (c == BZ_STREAM_END && final(s).state == State::BZ_X_IDLE),
        old(s).bsLive == 0 && old(strm).avail_in > 0 ==> {
            let byte = old(strm).input@[old(strm).next_in as int] as u32;
            &&& final(s).bsLive == 0
            &&& final(strm).next_in == old(strm).next_in + 1
            &&& old(s).state == State::BZ_X_CCRC_1 ==> r is None && final(s).state == State::BZ_X_CCRC_2
                && final(s).storedCombinedCRC == (old(s).storedCombinedCRC << 8u32) | byte
            &&& old(s).state == State::BZ_X_CCRC_2 ==> r is None && final(s).state == State::BZ_X_CCRC_3
                && final(s).storedCombinedCRC == (old(s).storedCombinedCRC << 8u32) | byte
            &&& old(s).state == State::BZ_X_CCRC_3 ==> r is None && final(s).state == State::BZ_X_CCRC_4
                && final(s).storedCombinedCRC == (old(s).storedCombinedCRC << 8u32) | byte
            &&& old(s).state == State::BZ_X_CCRC_4 ==> r == Some(BZ_STREAM_END)
                && final(s).storedCombinedCRC == (old(s).storedCombinedCRC << 8u32) | byte
        },
{
    match get_bits(strm, &mut s.bsBuff, &mut s.bsLive, 8) {
        None => Some(BZ_OK),
        Some(v) => {
            match s.state {
                State::BZ_X_BCRC_1 => {
                    s.storedBlockCRC = (s.storedBlockCRC << 8u32) | v;
                    s.state = State::BZ_X_BCRC_2;
                    None
                },
                State::BZ_X_BCRC_2 => {
                    s.storedBlockCRC = (s.storedBlockCRC << 8u32) | v;
                    s.state = State::BZ_X_BCRC_3;
                    None
                },
                State::BZ_X_BCRC_3 => {
                    s.storedBlockCRC = (s.storedBlockCRC << 8u32) | v;
                    s.state = State::BZ_X_BCRC_4;
                    None
                },
                State::BZ_X_BCRC_4 => {
                    s.storedBlockCRC = (s.storedBlockCRC << 8u32) | v;
                    s.state = State::BZ_X_RANDBIT;
                    None
                },
                State::BZ_X_CCRC_1 => {
                    s.storedCombinedCRC = (s.storedCombinedCRC << 8u32) | v;
                    s.state = State::BZ_X_CCRC_2;
                    None
                },
                State::BZ_X_CCRC_2 => {
                    s.storedCombinedCRC = (s.storedCombinedCRC << 8u32) | v;
                    s.state = State::BZ_X_CCRC_3;
                    None
                },
                State::BZ_X_CCRC_3 => {
                    s.storedCombinedCRC = (s.storedCombinedCRC << 8u32) | v;
                    s.state = State::BZ_X_CCRC_4;
                    None
                },
                _ => {
                    s.storedCombinedCRC = (s.storedCombinedCRC << 8u32) | v;
                    s.state = State::BZ_X_IDLE;
                    Some(BZ_STREAM_END)
                },
            }
        },
    }
}

} // verus!

verus! {

/// Reads the block size digit of the stream header and sets up the block arrays.
fn step_magic4(strm: &mut bz_stream, s: &mut DState) -> (r: Option<i32>)
    requires
        old(strm).io_ok(),
        old(s).wf(),
        old(s).state == State::BZ_X_MAGIC_4,
    ensures
        step_ok(old(strm), final(strm), old(s), final(s), r),
        r matches Some(c) ==> (c == BZ_OK && final(strm).avail_in == 0) || c == BZ_DATA_ERROR_MAGIC,
        r is None ==> final(s).state == State::BZ_X_BLKHDR_1,
        old(s).bsLive == 0 && old(strm).avail_in > 0 ==> {
            &&& final(strm).next_in == old(strm).next_in + 1
            &&& final(s).bsLive == 0
            &&& (r is None <==> header_byte_ok(3, old(strm).input@[old(strm).next_in as int]))
            &&& r is Some ==> r == Some(BZ_DATA_ERROR_MAGIC)
        },
{
    match get_bits(strm, &mut s.bsBuff, &mut s.bsLive, 8) {
        None => Some(BZ_OK),
        Some(v) => {
            s.blockSize100k = v as i32;
            if s.blockSize100k < 0x31 || s.blockSize100k > 0x39 {
                return Some(BZ_DATA_ERROR_MAGIC);
            }
            s.blockSize100k = s.blockSize100k - 0x30;
            let n: usize = 100000 * (s.blockSize100k as usize);
            if s.smallDecompress {
                s.ll16 = vec![0u16; n];
                s.ll4 = vec![0u8; (n + 1) / 2];
            } else {
                s.tt = vec![0u32; n];
            }
            s.state = State::BZ_X_BLKHDR_1;
            None
        },
    }
}

/// Reads the first byte of a block header, or of the stream trailer.
fn step_blkhdr1(strm: &mut bz_stream, s: &mut DState) -> (r: Option<i32>)
    requires
        old(strm).io_ok(),
        old(s).wf(),
        old(s).state == State::BZ_X_BLKHDR_1,
    ensures
        step_ok(old(strm), final(strm), old(s), final(s), r),
        r matches Some(c) ==> (c == BZ_OK && final(strm).avail_in == 0) || c == BZ_DATA_ERROR,
        old(s).bsLive == 0 && old(strm).avail_in > 0 ==> {
            &&& final(s).bsLive == 0
            &&& final(strm).next_in == old(strm).next_in + 1
            &&& old(strm).input@[old(strm).next_in as int] == 0x17 ==> r is None && final(s).state == State::BZ_X_ENDHDR_2
        },
{
    match get_bits(strm, &mut s.bsBuff, &mut s.bsLive, 8) {
        None => Some(BZ_OK),
        Some(v) => {
            if v == 0x17 {
                s.state = State::BZ_X_ENDHDR_2;
                None
            } else if v != 0x31 {
                Some(BZ_DATA_ERROR)
            } else {
                s.state = State::BZ_X_BLKHDR_2;
                None
            }
        },
    }
}

/// Reads whether the block was randomised.
fn step_randbit(strm: &mut bz_stream, s: &mut DState) -> (r: Option<i32>)
    requires
        old(strm).io_ok(),
        old(s).wf(),
        old(s).state == State::BZ_X_RANDBIT,
    ensures
        step_ok(old(strm), final(strm), old(s), final(s), r),
        r matches Some(c) ==> c == BZ_OK && final(strm).avail_in == 0,
{
    match get_bits(strm, &mut s.bsBuff, &mut s.bsLive, 1) {
        None => Some(BZ_OK),
        Some(v) => {
            s.blockRandomised = v != 0;
            s.origPtr = 0;
            s.state = State::BZ_X_ORIGPTR_1;
            None
        },
    }
}

/// Reads one byte of where the unrotated block lies among the sorted rotations.
fn step_origptr(strm: &mut bz_stream, s: &mut DState) -> (r: Option<i32>)
    requires
        old(strm).io_ok(),
        old(s).wf(),
        old(s).state == State::BZ_X_ORIGPTR_1 || old(s).state == State::BZ_X_ORIGPTR_2
            || old(s).state == State::BZ_X_ORIGPTR_3,
    ensures
        step_ok(old(strm), final(strm), old(s), final(s), r),
        r matches Some(c) ==> (c == BZ_OK && final(strm).avail_in == 0) || c == BZ_DATA_ERROR,
{
    match get_bits(strm, &mut s.bsBuff, &mut s.bsLive, 8) {
        None => Some(BZ_OK),
        Some(v) => {
            proof {
                lemma_shl_pow2(8);
                assert((1u32 << 8u32) == 256u32) by (bit_vector);
            }
            s.origPtr = (s.origPtr << 8u32) | (v as i32);
            match s.state {
                State::BZ_X_ORIGPTR_1 => {
                    s.state = State::BZ_X_ORIGPTR_2;
                    None
                },
                State::BZ_X_ORIGPTR_2 => {
                    s.state = State::BZ_X_ORIGPTR_3;
                    None
                },
                _ => {
                    if s.origPtr < 0 {
                        return Some(BZ_DATA_ERROR);
                    } else if s.origPtr > 10 + 100000 * s.blockSize100k {
                        return Some(BZ_DATA_ERROR);
                    }
                    s.save_i = 0;
                    s.state = State::BZ_X_MAPPING_1;
                    None
                },
            }
        },
    }
}

} // verus!

verus! {

/// How many of `in_use[0 .. n]` hold.
pub open spec fn count_true(in_use: Seq<bool>, n: int) -> int
    decreases n,
{
    if n <= 0 { 0 } else { count_true(in_use, n - 1) + (if in_use[n - 1] { 1int } else { 0int }) }
}

proof fn lemma_count_true_le(in_use: Seq<bool>, n: int)
    requires
        0 <= n,
    ensures
        0 <= count_true(in_use, n) <= n,
    decreases n,
{
    if n > 0 {
        lemma_count_true_le(in_use, n - 1);
    }
}

/// Numbers the byte values in use, in order: `seqToUnseq[k]` is the `k`-th of them
/// (`makeMaps_d`).
fn makeMaps_d(s: &mut DState)
    requires
        old(s).wf(),
    ensures
        final(s).nInUse == count_true(old(s).inUse@, 256),
        final(s).seqToUnseq@.len() == 256,
        forall|k: int| 0 <= k < final(s).nInUse ==> old(s).inUse@[#[trigger] final(s).seqToUnseq@[k] as int],
        forall|k: int| 0 <= k < final(s).nInUse ==>
            count_true(old(s).inUse@, final(s).seqToUnseq@[k] as int) == k,
        *final(s) == (DState { nInUse: final(s).nInUse, seqToUnseq: final(s).seqToUnseq, ..*old(s) }),
{
    s.nInUse = 0;
    let mut i: usize = 0;
    while i < 256
        invariant
            i <= 256,
            s.inUse@ == old(s).inUse@,
            s.inUse@.len() == 256,
            s.seqToUnseq@.len() == 256,
            s.nInUse == count_true(s.inUse@, i as int),
            0 <= s.nInUse <= i,
            forall|k: int| 0 <= k < s.nInUse ==> (#[trigger] s.seqToUnseq@[k] as int) < i
                && s.inUse@[s.seqToUnseq@[k] as int] && count_true(s.inUse@, s.seqToUnseq@[k] as int) == k,
            *s == (DState { nInUse: s.nInUse, seqToUnseq: s.seqToUnseq, ..*old(s) }),
        decreases 256 - i,
    {
        proof {
            lemma_count_true_le(s.inUse@, i as int);
        }
        if s.inUse[i] {
            s.seqToUnseq.set(s.nInUse as usize, i as u8);
            s.nInUse = s.nInUse + 1;
        }
        i = i + 1;
    }
}

/// Ends the byte map: numbers the values in use; a block without any is an error.
fn finish_mapping(s: &mut DState) -> (r: Option<i32>)
    requires
        old(s).wf(),
        old(s).state == State::BZ_X_MAPPING_1 || old(s).state == State::BZ_X_MAPPING_2,
        old(s).save_i == 16,
    ensures
        keeps_record(old(s), final(s)),
        final(s).wf(),
        final(s).blockSize100k == old(s).blockSize100k,
        final(s).smallDecompress == old(s).smallDecompress,
        final(s).bsLive == old(s).bsLive,
        r matches Some(c) ==> c == BZ_DATA_ERROR,
        r is None ==> final(s).state == State::BZ_X_SELECTOR_1,
{
    makeMaps_d(s);
    if s.nInUse == 0 {
        return Some(BZ_DATA_ERROR);
    }
    proof {
        lemma_count_true_le(old(s).inUse@, 256);
    }
    s.save_alphaSize = s.nInUse + 2;
    s.state = State::BZ_X_SELECTOR_1;
    None
}

/// Moves `i` on to the next range of 16 byte values that is in use.
fn next_range(s: &DState, i: i32) -> (r: i32)
    requires
        s.inUse16@.len() == 16,
        0 <= i <= 16,
    ensures
        i <= r <= 16,
        r < 16 ==> s.inUse16@[r as int],
        forall|k: int| i <= k < r ==> !s.inUse16@[k],
{
    let mut k = i;
    while k < 16
        invariant
            0 <= i <= k <= 16,
            s.inUse16@.len() == 16,
            forall|q: int| i <= q < k ==> !s.inUse16@[q],
        decreases 16 - k,
    {
        if s.inUse16[k as usize] {
            return k;
        }
        k = k + 1;
    }
    k
}

/// Reads whether a range of 16 byte values is in use.
fn step_mapping1(strm: &mut bz_stream, s: &mut DState) -> (r: Option<i32>)
    requires
        old(strm).io_ok(),
        old(s).wf(),
        old(s).state == State::BZ_X_MAPPING_1,
    ensures
        step_ok(old(strm), final(strm), old(s), final(s), r),
        r matches Some(c) ==> (c == BZ_OK && final(strm).avail_in == 0) || c == BZ_DATA_ERROR,
{
    if s.save_i >= 16 {
        return Some(BZ_DATA_ERROR);
    }
    match get_bits(strm, &mut s.bsBuff, &mut s.bsLive, 1) {
        None => Some(BZ_OK),
        Some(v) => {
            s.inUse16.set(s.save_i as usize, v == 1);
            s.save_i = s.save_i + 1;
            if s.save_i == 16 {
                let mut b: usize = 0;
                while b < 256
                    invariant
                        b <= 256,
                        s.wf(),
                        s.state == State::BZ_X_MAPPING_1,
                        s.save_i == 16,
                        keeps_record(old(s), s),
                        s.blockSize100k == old(s).blockSize100k,
                        s.smallDecompress == old(s).smallDecompress,
                        s.bsLive < old(s).bsLive + 8 * (old(strm).avail_in - strm.avail_in),
                    decreases 256 - b,
                {
                    s.inUse.set(b, false);
                    b = b + 1;
                }
                let i = next_range(s, 0);
                if i < 16 {
                    s.save_i = i;
                    s.save_j = 0;
                    s.state = State::BZ_X_MAPPING_2;
                    None
                } else {
                    finish_mapping(s)
                }
            } else {
                None
            }
        },
    }
}

/// Reads whether one byte value of a range in use is in use.
fn step_mapping2(strm: &mut bz_stream, s: &mut DState) -> (r: Option<i32>)
    requires
        old(strm).io_ok(),
        old(s).wf(),
        old(s).state == State::BZ_X_MAPPING_2,
    ensures
        step_ok(old(strm), final(strm), old(s), final(s), r),
        r matches Some(c) ==> (c == BZ_OK && final(strm).avail_in == 0) || c == BZ_DATA_ERROR,
{
    if s.save_i >= 16 {
        return Some(BZ_DATA_ERROR);
    }
    match get_bits(strm, &mut s.bsBuff, &mut s.bsLive, 1) {
        None => Some(BZ_OK),
        Some(v) => {
            if v == 1 {
                s.inUse.set((s.save_i * 16 + s.save_j) as usize, true);
            }
            s.save_j = s.save_j + 1;
            if s.save_j == 16 {
                let i = next_range(s, s.save_i + 1);
                s.save_i = i;
                s.save_j = 0;
                if i < 16 {
                    None
                } else {
                    finish_mapping(s)
                }
            } else {
                None
            }
        },
    }
}

} // verus!

verus! {

/// Reads the number of tables.
fn step_selector1(strm: &mut bz_stream, s: &mut DState) -> (r: Option<i32>)
    requires
        old(strm).io_ok(),
        old(s).wf(),
        old(s).state == State::BZ_X_SELECTOR_1,
    ensures
        step_ok(old(strm), final(strm), old(s), final(s), r),
        r matches Some(c) ==> (c == BZ_OK && final(strm).avail_in == 0) || c == BZ_DATA_ERROR,
{
    match get_bits(strm, &mut s.bsBuff, &mut s.bsLive, 3) {
        None => Some(BZ_OK),
        Some(v) => {
            s.save_nGroups = v as i32;
            if s.save_nGroups < 2 || s.save_nGroups > 6 {
                return Some(BZ_DATA_ERROR);
            }
            s.state = State::BZ_X_SELECTOR_2;
            None
        },
    }
}

/// Reads the number of selectors.
fn step_selector2(strm: &mut bz_stream, s: &mut DState) -> (r: Option<i32>)
    requires
        old(strm).io_ok(),
        old(s).wf(),
        old(s).state == State::BZ_X_SELECTOR_2,
    ensures
        step_ok(old(strm), final(strm), old(s), final(s), r),
        r matches Some(c) ==> (c == BZ_OK && final(strm).avail_in == 0) || c == BZ_DATA_ERROR,
{
    match get_bits(strm, &mut s.bsBuff, &mut s.bsLive, 15) {
        None => Some(BZ_OK),
        Some(v) => {
            proof {
                lemma_shl_pow2(15);
                assert((1u32 << 15u32) == 0x8000u32) by (bit_vector);
            }
            s.save_nSelectors = v as i32;
            if s.save_nSelectors < 1 {
                return Some(BZ_DATA_ERROR);
            }
            s.save_i = 0;
            s.save_j = 0;
            s.state = State::BZ_X_SELECTOR_3;
            None
        },
    }
}

/// Undoes the move-to-front coding of the selectors: each coded selector names a position
/// in the table list, whose table moves to the front.
fn undo_selector_mtf(s: &mut DState)
    requires
        old(s).selector@.len() == BZ_MAX_SELECTORS,
        old(s).selectorMtf@.len() == BZ_MAX_SELECTORS,
        2 <= old(s).save_nGroups <= BZ_N_GROUPS,
        1 <= old(s).save_nSelectors <= BZ_MAX_SELECTORS,
        forall|k: int| 0 <= k < old(s).save_nSelectors ==> (#[trigger] old(s).selectorMtf@[k] as int) < old(s).save_nGroups,
    ensures
        *final(s) == (DState { selector: final(s).selector, ..*old(s) }),
        final(s).selector@.len() == BZ_MAX_SELECTORS,
        forall|k: int| 0 <= k < old(s).save_nSelectors ==> (#[trigger] final(s).selector@[k] as int) < old(s).save_nGroups,
        forall|k: int| 0 <= k < old(s).save_nSelectors ==>
            #[trigger] final(s).selector@[k] == crate::compress::mtf_list(old(s).selectorMtf@, k, old(s).save_nGroups as int)[old(s).selectorMtf@[k] as int],
{
    let ng = s.save_nGroups as usize;
    let mut pos: Vec<u8> = Vec::new();
    let mut v: usize = 0;
    while v < ng
        invariant
            v <= ng <= BZ_N_GROUPS,
            pos@ == Seq::new(v as nat, |x: int| x as u8),
        decreases ng - v,
    {
        pos.push(v as u8);
        v = v + 1;
        assert(pos@ =~= Seq::new(v as nat, |x: int| x as u8));
    }
    let n = s.save_nSelectors as usize;
    let mut i: usize = 0;
    while i < n
        invariant
            i <= n <= BZ_MAX_SELECTORS,
            ng == s.save_nGroups,
            2 <= ng <= BZ_N_GROUPS,
            n == s.save_nSelectors,
            *s == (DState { selector: s.selector, ..*old(s) }),
            s.selector@.len() == BZ_MAX_SELECTORS,
            s.selectorMtf@.len() == BZ_MAX_SELECTORS,
            pos@ == crate::compress::mtf_list(s.selectorMtf@, i as int, ng as int),
            pos@.len() == ng,
            forall|q: int| 0 <= q < pos@.len() ==> (#[trigger] pos@[q] as int) < ng,
            forall|k: int| 0 <= k < n ==> (#[trigger] s.selectorMtf@[k] as int) < ng,
            forall|k: int| 0 <= k < i ==> (#[trigger] s.selector@[k] as int) < ng,
            forall|k: int| 0 <= k < i ==>
                #[trigger] s.selector@[k] == crate::compress::mtf_list(s.selectorMtf@, k, ng as int)[s.selectorMtf@[k] as int],
        decreases n - i,
    {
        let mut vv = s.selectorMtf[i] as usize;
        assert((s.selectorMtf@[i as int] as int) < ng);
        let ghost p0 = pos@;
        let tmp = pos[vv];
        while vv > 0
            invariant
                vv <= s.selectorMtf@[i as int],
                (s.selectorMtf@[i as int] as int) < ng,
                pos@.len() == ng,
                p0.len() == ng,
                forall|q: int| 0 <= q < vv ==> pos@[q] == p0[q],
                forall|q: int| vv < q <= s.selectorMtf@[i as int] ==> pos@[q] == p0[q - 1],
                forall|q: int| s.selectorMtf@[i as int] < q < ng ==> pos@[q] == p0[q],
            decreases vv,
        {
            let prev = pos[vv - 1];
            pos.set(vv, prev);
            vv = vv - 1;
        }
        pos.set(0, tmp);
        s.selector.set(i, tmp);
        proof {
            let c = s.selectorMtf@[i as int] as int;
            assert(pos@ =~= crate::compress::move_front(p0, c));
        }
        i = i + 1;
    }
}

/// Reads one bit of a selector's unary code; at a zero the selector is complete.
fn step_selector3(strm: &mut bz_stream, s: &mut DState) -> (r: Option<i32>)
    requires
        old(strm).io_ok(),
        old(s).wf(),
        old(s).state == State::BZ_X_SELECTOR_3,
    ensures
        step_ok(old(strm), final(strm), old(s), final(s), r),
        r matches Some(c) ==> (c == BZ_OK && final(strm).avail_in == 0) || c == BZ_DATA_ERROR,
{
    match get_bits(strm, &mut s.bsBuff, &mut s.bsLive, 1) {
        None => Some(BZ_OK),
        Some(v) => {
            if v == 0 {
                if (s.save_i as usize) < BZ_MAX_SELECTORS {
                    s.selectorMtf.set(s.save_i as usize, s.save_j as u8);
                }
                s.save_i = s.save_i + 1;
                s.save_j = 0;
                if s.save_i == s.save_nSelectors {
                    if s.save_nSelectors > 18002 {
                        s.save_nSelectors = 18002;
                    }
                    undo_selector_mtf(s);
                    s.save_t = 0;
                    s.save_i = 0;
                    s.save_curr = 0;
                    s.state = State::BZ_X_CODING_1;
                }
                None
            } else {
                if s.save_j + 1 >= s.save_nGroups {
                    return Some(BZ_DATA_ERROR);
                }
                s.save_j = s.save_j + 1;
                None
            }
        },
    }
}

} // verus!

verus! {

/// Reads the first code length of a table.
fn step_coding1(strm: &mut bz_stream, s: &mut DState) -> (r: Option<i32>)
    requires
        old(strm).io_ok(),
        old(s).wf(),
        old(s).state == State::BZ_X_CODING_1,
    ensures
        step_ok(old(strm), final(strm), old(s), final(s), r),
        r matches Some(c) ==> c == BZ_OK && final(strm).avail_in == 0,
{
    match get_bits(strm, &mut s.bsBuff, &mut s.bsLive, 5) {
        None => Some(BZ_OK),
        Some(v) => {
            proof {
                lemma_shl_pow2(5);
                assert((1u32 << 5u32) == 32u32) by (bit_vector);
            }
            s.save_curr = v as i32;
            s.save_i = 0;
            s.state = State::BZ_X_CODING_2;
            None
        },
    }
}

/// Reads whether the code length of the current symbol changes; a zero completes it.
/// After the last length of the last table the tables are built.
fn step_coding2(strm: &mut bz_stream, s: &mut DState) -> (r: Option<i32>)
    requires
        old(strm).io_ok(),
        old(s).wf(),
        old(s).state == State::BZ_X_CODING_2,
    ensures
        step_ok(old(strm), final(strm), old(s), final(s), r),
        r matches Some(c) ==> (c == BZ_OK && final(strm).avail_in == 0) || c == BZ_DATA_ERROR,
        r == Some(BZ_DATA_ERROR) <==> !(1 <= old(s).save_curr <= 20),
        1 <= old(s).save_curr <= 20 && r is None && final(s).state != State::BZ_X_CODING_3 ==>
            final(s).len@[old(s).save_t as int]@[old(s).save_i as int] == old(s).save_curr,
{
    if s.save_curr < 1 || s.save_curr > 20 {
        return Some(BZ_DATA_ERROR);
    }
    match get_bits(strm, &mut s.bsBuff, &mut s.bsLive, 1) {
        None => Some(BZ_OK),
        Some(v) => {
            if v == 0 {
                let t = s.save_t as usize;
                let mut row = row_copy_u8(&s.len[t]);
                row.set(s.save_i as usize, s.save_curr as u8);
                s.len.set(t, row);
                if s.save_i + 1 == s.save_alphaSize && s.save_t + 1 == s.save_nGroups {
                    build_tables(s);
                    return None;
                }
                s.save_i = s.save_i + 1;
                if s.save_i == s.save_alphaSize {
                    s.save_i = 0;
                    s.save_t = s.save_t + 1;
                    s.state = State::BZ_X_CODING_1;
                }
                None
            } else {
                s.state = State::BZ_X_CODING_3;
                None
            }
        },
    }
}

/// Reads whether the code length goes up or down by one.
fn step_coding3(strm: &mut bz_stream, s: &mut DState) -> (r: Option<i32>)
    requires
        old(strm).io_ok(),
        old(s).wf(),
        old(s).state == State::BZ_X_CODING_3,
    ensures
        step_ok(old(strm), final(strm), old(s), final(s), r),
        r matches Some(c) ==> c == BZ_OK && final(strm).avail_in == 0,
{
    match get_bits(strm, &mut s.bsBuff, &mut s.bsLive, 1) {
        None => Some(BZ_OK),
        Some(v) => {
            if v == 0 {
                s.save_curr = s.save_curr + 1;
            } else {
                s.save_curr = s.save_curr - 1;
            }
            s.state = State::BZ_X_CODING_2;
            None
        },
    }
}

/// Builds the decoding tables of every table, and starts on the block's symbols.
fn build_tables(s: &mut DState)
    requires
        old(s).wf(),
        old(s).state == State::BZ_X_CODING_2,
        old(s).save_t == old(s).save_nGroups - 1,
        old(s).save_i == old(s).save_alphaSize - 1,
        forall|t: int, v: int| 0 <= t < old(s).save_nGroups && 0 <= v < old(s).save_alphaSize ==>
            1 <= #[trigger] old(s).len@[t]@[v] <= 20,
    ensures
        keeps_record(old(s), final(s)),
        final(s).wf(),
        final(s).state == State::BZ_X_MTF_1,
        final(s).blockSize100k == old(s).blockSize100k,
        final(s).smallDecompress == old(s).smallDecompress,
        final(s).bsLive == old(s).bsLive,
        final(s).len == old(s).len,
{
    let ng = s.save_nGroups as usize;
    let alpha = s.save_alphaSize as usize;
    let mut t: usize = 0;
    while t < ng
        invariant
            t <= ng <= BZ_N_GROUPS,
            ng == s.save_nGroups,
            alpha == s.save_alphaSize,
            3 <= alpha <= BZ_MAX_ALPHA_SIZE,
            *s == (DState { limit: s.limit, base: s.base, perm: s.perm, minLens: s.minLens, ..*old(s) }),
            s.limit@.len() == BZ_N_GROUPS,
            s.base@.len() == BZ_N_GROUPS,
            s.perm@.len() == BZ_N_GROUPS,
            s.minLens@.len() == BZ_N_GROUPS,
            s.len@.len() == BZ_N_GROUPS,
            forall|u: int| 0 <= u < BZ_N_GROUPS ==> (#[trigger] s.limit@[u])@.len() == BZ_MAX_ALPHA_SIZE,
            forall|u: int| 0 <= u < BZ_N_GROUPS ==> (#[trigger] s.base@[u])@.len() == BZ_MAX_ALPHA_SIZE,
            forall|u: int| 0 <= u < BZ_N_GROUPS ==> (#[trigger] s.perm@[u])@.len() == BZ_MAX_ALPHA_SIZE,
            forall|u: int| 0 <= u < BZ_N_GROUPS ==> (#[trigger] s.len@[u])@.len() == BZ_MAX_ALPHA_SIZE,
            forall|u: int, v: int| 0 <= u < ng && 0 <= v < alpha ==> 1 <= #[trigger] s.len@[u]@[v] <= 20,
            forall|u: int| 0 <= u < t ==> 1 <= #[trigger] s.minLens@[u] <= 20,
        decreases ng - t,
    {
        let mut min_l: i32 = 32;
        let mut max_l: i32 = 0;
        let mut i: usize = 0;
        while i < alpha
            invariant
                i <= alpha <= BZ_MAX_ALPHA_SIZE,
                t < ng <= BZ_N_GROUPS,
                s.len@.len() == BZ_N_GROUPS,
                forall|u: int| 0 <= u < BZ_N_GROUPS ==> (#[trigger] s.len@[u])@.len() == BZ_MAX_ALPHA_SIZE,
                forall|u: int, v: int| 0 <= u < ng && 0 <= v < alpha ==> 1 <= #[trigger] s.len@[u]@[v] <= 20,
                i == 0 ==> min_l == 32 && max_l == 0,
                i > 0 ==> 1 <= min_l <= max_l <= 20,
                forall|v: int| 0 <= v < i ==> min_l <= #[trigger] s.len@[t as int]@[v] <= max_l,
            decreases alpha - i,
        {
            let l = s.len[t][i] as i32;
            if l > max_l {
                max_l = l;
            }
            if l < min_l {
                min_l = l;
            }
            i = i + 1;
        }
        let mut lim = row_copy_i32(&s.limit[t]);
        let mut bas = row_copy_i32(&s.base[t]);
        let mut per = row_copy_i32(&s.perm[t]);
        proof {
            let lens = s.len@[t as int]@.subrange(0, alpha as int);
            assert forall|q: int| 0 <= q < lens.len() implies min_l <= #[trigger] lens[q] as int <= max_l by {
                assert(lens[q] == s.len@[t as int]@[q]);
            }
        }
        BZ2_hbCreateDecodeTables(&mut lim, &mut bas, &mut per, &s.len[t], min_l, max_l, alpha as i32);
        s.limit.set(t, lim);
        s.base.set(t, bas);
        s.perm.set(t, per);
        s.minLens.set(t, min_l);
        t = t + 1;
    }
    s.save_EOB = s.nInUse + 1;
    s.save_nblockMAX = 100000 * s.blockSize100k;
    s.save_groupNo = -1;
    s.save_groupPos = 0;
    s.unzftab = vec![0i32; 256];
    let mut list: Vec<u8> = Vec::new();
    let mut b: usize = 0;
    while b < 256
        invariant
            b <= 256,
            list@.len() == b,
        decreases 256 - b,
    {
        list.push(b as u8);
        b = b + 1;
    }
    s.mtf = list;
    s.save_nblock = 0;
    s.save_needGroup = true;
    s.state = State::BZ_X_MTF_1;
    proof {
        assert forall|c: int| 0 <= c < 256 implies #[trigger] s.unzftab@[c] == cnt(block_bytes(s), c, 0) by {}
    }
}

} // verus!

verus! {

proof fn lemma_cnt_prefix(s1: Seq<u8>, s2: Seq<u8>, b: int, n: int)
    requires
        0 <= n <= s1.len(),
        n <= s2.len(),
        forall|k: int| 0 <= k < n ==> s1[k] == s2[k],
    ensures
        cnt(s1, b, n) == cnt(s2, b, n),
    decreases n,
{
    if n > 0 {
        lemma_cnt_prefix(s1, s2, b, n - 1);
    }
}

/// The decoder is in the symbol data, with the block and its byte counts in step.
pub open spec fn mtf_state_ok(s: &DState) -> bool {
    &&& s.wf()
    &&& in_mtf(s.state)
}

/// Appends byte `b` to the block, counting it.
fn put_block_byte(s: &mut DState, b: u8)
    requires
        mtf_state_ok(old(s)),
        old(s).save_nblock < old(s).save_nblockMAX,
    ensures
        mtf_state_ok(final(s)),
        *final(s) == (DState { tt: final(s).tt, ll16: final(s).ll16, unzftab: final(s).unzftab, save_nblock: final(s).save_nblock, ..*old(s) }),
        final(s).save_nblock == old(s).save_nblock + 1,
        appended(old(s), final(s), seq![b]),
{
    let n = s.save_nblock as usize;
    let ghost bytes0 = block_bytes(s);
    let ghost old_unz = s.unzftab@;
    if s.smallDecompress {
        s.ll16.set(n, b as u16);
    } else {
        s.tt.set(n, b as u32);
    }
    let cur = s.unzftab[b as usize];
    proof {
        lemma_cnt_mono(bytes0, b as int, n as int, n as int);
        let m = s.save_nblock as int;
        assert(cnt(bytes0, b as int, n as int) <= n) by {
            lemma_cum_step(bytes0, n as int, b as int);
            lemma_cum_bounds(bytes0, n as int, b as int);
        }
    }
    s.unzftab.set(b as usize, cur + 1);
    s.save_nblock = s.save_nblock + 1;
    proof {
        let bytes1 = block_bytes(s);
        assert forall|c: int| 0 <= c < 256 implies #[trigger] s.unzftab@[c] == cnt(bytes1, c, s.save_nblock as int) by {
            lemma_cnt_prefix(bytes0, bytes1, c, n as int);
            assert(bytes1[n as int] == b);
        }
        assert(bytes1.subrange(n as int, n as int + 1) =~= seq![b]);
    }
}

/// `b` has the block of `a` with `extra` after it: the bytes before stay, the new ones
/// follow.
pub open spec fn appended(a: &DState, b: &DState, extra: Seq<u8>) -> bool {
    &&& b.save_nblock == a.save_nblock + extra.len()
    &&& forall|k: int| 0 <= k < a.save_nblock ==> #[trigger] block_bytes(b)[k] == block_bytes(a)[k]
    &&& block_bytes(b).subrange(a.save_nblock as int, b.save_nblock as int) == extra
}

/// `b` is `a` after a RUNA (`nextSym` 0) or RUNB (1) symbol: the run length grows by one or
/// two times the weight, and the weight doubles.
pub open spec fn run_advanced(a: &DState, b: &DState) -> bool {
    *b == (DState {
        save_es: (if a.save_nextSym == 0 { a.save_es + a.save_N } else { a.save_es + 2 * a.save_N }) as i32,
        save_N: (2 * a.save_N) as i32,
        save_needGroup: true,
        state: State::BZ_X_MTF_3,
        ..*a
    })
}

/// `b` is `a` after a byte symbol: entry `nextSym - 1` of the move-to-front list moves to
/// the front and its byte joins the block.
pub open spec fn literal_taken(a: &DState, b: &DState) -> bool {
    &&& appended(a, b, seq![a.seqToUnseq@[a.mtf@[a.save_nextSym - 1] as int]])
    &&& b.mtf@ == crate::compress::move_front(a.mtf@, a.save_nextSym - 1)
    &&& b.state == State::BZ_X_MTF_5
    &&& b.save_needGroup
    &&& b.save_nextSym == a.save_nextSym
}

/// `b` is `a` after a run of zeros ended by a byte symbol: `save_es + 1` copies of the byte
/// at the front of the list join the block, then the byte symbol is taken.
pub open spec fn run_then_literal(a: &DState, b: &DState) -> bool {
    let zero = a.seqToUnseq@[a.mtf@[0] as int];
    let lit = a.seqToUnseq@[a.mtf@[a.save_nextSym - 1] as int];
    &&& appended(a, b, Seq::new((a.save_es + 1) as nat, |k: int| zero).push(lit))
    &&& b.mtf@ == crate::compress::move_front(a.mtf@, a.save_nextSym - 1)
    &&& b.state == State::BZ_X_MTF_5
    &&& b.save_needGroup
    &&& b.save_nextSym == a.save_nextSym
}

/// The state that reads one more bit of the code of the current symbol.
pub open spec fn next_bit_state(st: State) -> State {
    if st == State::BZ_X_MTF_1 || st == State::BZ_X_MTF_2 {
        State::BZ_X_MTF_2
    } else if st == State::BZ_X_MTF_3 || st == State::BZ_X_MTF_4 {
        State::BZ_X_MTF_4
    } else {
        State::BZ_X_MTF_6
    }
}

proof fn lemma_appended_trans(a: &DState, m: &DState, b: &DState, x: Seq<u8>, y: Seq<u8>)
    requires
        appended(a, m, x),
        appended(m, b, y),
        block_bytes(m).len() >= m.save_nblock,
        block_bytes(b).len() >= b.save_nblock,
        a.save_nblock >= 0,
    ensures
        appended(a, b, x + y),
{
    assert forall|k: int| 0 <= k < a.save_nblock implies #[trigger] block_bytes(b)[k] == block_bytes(a)[k] by {
        assert(block_bytes(b)[k] == block_bytes(m)[k]);
    }
    assert forall|k: int| 0 <= k < x.len() implies block_bytes(b)[a.save_nblock + k] == x[k] by {
        assert(block_bytes(m).subrange(a.save_nblock as int, m.save_nblock as int)[k] == x[k]);
        assert(block_bytes(b)[a.save_nblock + k] == block_bytes(m)[a.save_nblock + k]);
    }
    assert forall|k: int| 0 <= k < y.len() implies block_bytes(b)[m.save_nblock + k] == y[k] by {
        assert(block_bytes(b).subrange(m.save_nblock as int, b.save_nblock as int)[k] == y[k]);
    }
    assert(block_bytes(b).subrange(a.save_nblock as int, b.save_nblock as int) =~= x + y);
}

/// Whether the state reads a symbol's code in the middle of a run of zeros.
pub open spec fn in_run(st: State) -> bool {
    st == State::BZ_X_MTF_3 || st == State::BZ_X_MTF_4
}

/// Continues a run of zeros with RUNA (one times the weight) or RUNB (two times), and
/// goes on to the next symbol.
fn run_step(s: &mut DState) -> (r: Option<i32>)
    requires
        mtf_state_ok(old(s)),
        old(s).save_nextSym == 0 || old(s).save_nextSym == 1,
        1 <= old(s).save_N <= 0x40_0000,
        -1 <= old(s).save_es <= 2 * old(s).save_N - 2,
        old(s).save_groupPos < BZ_G_SIZE,
        group_ok(old(s)),
    ensures
        keeps_record(old(s), final(s)),
        r is None ==> in_mtf(final(s).state),
        mtf_state_ok(final(s)),
        final(s).blockSize100k == old(s).blockSize100k,
        final(s).smallDecompress == old(s).smallDecompress,
        final(s).bsLive == old(s).bsLive,
        r matches Some(c) ==> c == BZ_DATA_ERROR,
        r is None <==> old(s).save_N < 2 * 1024 * 1024,
        r is None ==> run_advanced(old(s), final(s)),
        r is Some ==> *final(s) == *old(s),
{
    if s.save_N >= 2 * 1024 * 1024 {
        return Some(BZ_DATA_ERROR);
    }
    if s.save_nextSym == 0 {
        s.save_es = s.save_es + s.save_N;
    } else {
        s.save_es = s.save_es + 2 * s.save_N;
    }
    s.save_N = s.save_N * 2;
    s.save_needGroup = true;
    s.state = State::BZ_X_MTF_3;
    None
}

/// Moves entry `nn` of the move-to-front list to the front and returns it.
fn mtf_take(list: &mut Vec<u8>, nn: usize) -> (uc: u8)
    requires
        nn < old(list)@.len(),
    ensures
        uc == old(list)@[nn as int],
        final(list)@ == crate::compress::move_front(old(list)@, nn as int),
{
    let ghost l0 = list@;
    let uc = list[nn];
    let mut k = nn;
    while k > 0
        invariant
            k <= nn < l0.len(),
            list@.len() == l0.len(),
            forall|q: int| 0 <= q < k ==> list@[q] == l0[q],
            forall|q: int| k < q <= nn ==> list@[q] == l0[q - 1],
            forall|q: int| nn < q < l0.len() ==> list@[q] == l0[q],
        decreases k,
    {
        let prev = list[k - 1];
        list.set(k, prev);
        k = k - 1;
    }
    list.set(0, uc);
    assert(list@ =~= crate::compress::move_front(l0, nn as int));
    uc
}

/// A byte symbol: the byte at position `nextSym - 1` of the move-to-front list moves to the
/// front and joins the block.
fn literal(s: &mut DState) -> (r: Option<i32>)
    requires
        mtf_state_ok(old(s)),
        old(s).save_groupPos < BZ_G_SIZE,
        group_ok(old(s)),
    ensures
        keeps_record(old(s), final(s)),
        r is None ==> in_mtf(final(s).state),
        mtf_state_ok(final(s)),
        final(s).blockSize100k == old(s).blockSize100k,
        final(s).smallDecompress == old(s).smallDecompress,
        final(s).bsLive == old(s).bsLive,
        r matches Some(c) ==> c == BZ_DATA_ERROR,
        r is None <==> old(s).save_nblock < old(s).save_nblockMAX && 1 <= old(s).save_nextSym <= 256,
        r is None ==> literal_taken(old(s), final(s)),
        r is Some ==> *final(s) == *old(s),
{
    if s.save_nblock >= s.save_nblockMAX {
        return Some(BZ_DATA_ERROR);
    }
    if s.save_nextSym < 1 || s.save_nextSym > 256 {
        return Some(BZ_DATA_ERROR);
    }
    let nn = (s.save_nextSym - 1) as usize;
    let uc = mtf_take(&mut s.mtf, nn);
    let b = s.seqToUnseq[uc as usize];
    put_block_byte(s, b);
    s.save_needGroup = true;
    s.state = State::BZ_X_MTF_5;
    None
}

} // verus!

verus! {

/// Links each position of the block to the next one of the block's own text: the entries
/// are counted out by byte value, `cftab[c]` being where the bytes `c` start in sorted
/// order, and position `i` is recorded, above the byte, at the next free place of its
/// value.
fn invert_transform(tt: &mut Vec<u32>, cftab: &mut Vec<i32>, nblock: usize, Ghost(bytes): Ghost<Seq<u8>>)
    requires
        nblock <= old(tt)@.len() <= 900000,
        nblock <= bytes.len(),
        old(cftab)@.len() == 257,
        forall|k: int| 0 <= k < nblock ==> #[trigger] old(tt)@[k] == bytes[k] as u32,
        forall|c: int| 0 <= c < 256 ==> #[trigger] old(cftab)@[c] == cum(bytes, nblock as int, c - 1),
    ensures
        final(tt)@.len() == old(tt)@.len(),
        final(cftab)@.len() == 257,
        forall|k: int| 0 <= k < nblock ==> (#[trigger] final(tt)@[k]) & 0xff == bytes[k] as u32,
        forall|i: int| 0 <= i < nblock ==> final(tt)@[#[trigger] link_pos(bytes, nblock as int, i)] >> 8 == i,
        forall|k: int| nblock <= k < final(tt)@.len() ==> #[trigger] final(tt)@[k] == old(tt)@[k],
        forall|c: int| 0 <= c < 256 ==> #[trigger] final(cftab)@[c] == cum(bytes, nblock as int, c),
{
    let ghost n = nblock as int;
    assert forall|k: int| 0 <= k < nblock implies (#[trigger] tt@[k]) & 0xff == bytes[k] as u32 && tt@[k] >> 8 == 0 by {
        let b = bytes[k];
        assert((b as u32) & 0xff == b as u32 && (b as u32) >> 8 == 0) by (bit_vector);
    }
    let ghost mut wfrom: Seq<int> = Seq::new(n as nat, |k: int| -1int);
    let mut i: usize = 0;
    while i < nblock
        invariant
            i <= nblock <= tt@.len() <= 900000,
            tt@.len() == old(tt)@.len(),
            nblock <= bytes.len(),
            n == nblock,
            cftab@.len() == 257,
            wfrom.len() == n,
            forall|k: int| 0 <= k < nblock ==> (#[trigger] tt@[k]) & 0xff == bytes[k] as u32,
            forall|c: int| 0 <= c < 256 ==> #[trigger] cftab@[c] == cum(bytes, n, c - 1) + cnt(bytes, c, i as int),
            forall|j: int| 0 <= j < i ==> 0 <= #[trigger] link_pos(bytes, n, j) < n && wfrom[link_pos(bytes, n, j)] == j,
            forall|k: int| 0 <= k < n && (#[trigger] wfrom[k]) >= 0 ==> wfrom[k] < i && link_pos(bytes, n, wfrom[k]) == k
                && tt@[k] >> 8 == wfrom[k],
            forall|k: int| 0 <= k < n && (#[trigger] wfrom[k]) < 0 ==> tt@[k] >> 8 == 0,
            forall|k: int| nblock <= k < tt@.len() ==> #[trigger] tt@[k] == old(tt)@[k],
        decreases nblock - i,
    {
        let x = tt[i];
        let uc = (x & 0xff) as usize;
        assert(uc == bytes[i as int]);
        proof {
            lemma_cnt_mono(bytes, uc as int, i as int + 1, n);
            lemma_cum_step(bytes, n, uc as int);
            lemma_cum_bounds(bytes, n, uc as int);
            lemma_cum_bounds(bytes, n, uc as int - 1);
        }
        let k = cftab[uc] as usize;
        assert(k as int == link_pos(bytes, n, i as int));
        proof {
            if wfrom[k as int] >= 0 {
                lemma_link_pos_distinct(bytes, n, wfrom[k as int], i as int);
            }
        }
        let y = tt[k];
        let iu = i as u32;
        let z = y | (iu << 8u32);
        assert(z & 0xff == y & 0xff && (y >> 8 == 0 ==> z >> 8 == iu)) by (bit_vector)
            requires z == y | (iu << 8u32), iu < 0x100_0000;
        tt.set(k, z);
        cftab.set(uc, cftab[uc] + 1);
        proof {
            wfrom = wfrom.update(k as int, i as int);
        }
        i = i + 1;
    }
    proof {
        assert forall|c: int| 0 <= c < 256 implies #[trigger] cftab@[c] == cum(bytes, n, c) by {
            lemma_cum_step(bytes, n, c);
        }
    }
}

/// Where position `i` of the block is recorded: the next free place among the bytes equal
/// to `bytes[i]` in sorted order.
pub open spec fn link_pos(bytes: Seq<u8>, n: int, i: int) -> int {
    (cum(bytes, n, bytes[i] as int - 1) + cnt(bytes, bytes[i] as int, i)) as int
}

/// Different positions are recorded at different places.
proof fn lemma_link_pos_distinct(bytes: Seq<u8>, n: int, i1: int, i2: int)
    requires
        0 <= i1 < i2 < n <= bytes.len(),
    ensures
        link_pos(bytes, n, i1) != link_pos(bytes, n, i2),
{
    let b1 = bytes[i1] as int;
    let b2 = bytes[i2] as int;
    lemma_cnt_mono(bytes, b1, i1 + 1, n);
    lemma_cnt_mono(bytes, b2, i2 + 1, n);
    lemma_cnt_mono(bytes, b1, i1 + 1, i2);
    lemma_cum_step(bytes, n, b1);
    lemma_cum_step(bytes, n, b2);
    if b1 < b2 {
        lemma_cum_mono(bytes, n, b1, b2 - 1);
    } else if b2 < b1 {
        lemma_cum_mono(bytes, n, b2, b1 - 1);
    }
}

/// The low (`h == 0`) or high (`h == 1`) four bits of `x`.
pub open spec fn nibble(x: u8, h: int) -> int {
    if h == 0 { x as int % 16 } else { x as int / 16 }
}

/// Entry `k` of the small decompressor's block array: 16 bits in `ll16`, and 4 more above
/// them in a half of `ll4`, two entries to a byte.
pub open spec fn ll_entry(ll16: Seq<u16>, ll4: Seq<u8>, k: int) -> int {
    ll16[k] as int + 65536 * nibble(ll4[k / 2], k % 2)
}

/// Reads entry `k` of the small layout (`GET_LL`).
pub fn get_ll(ll16: &Vec<u16>, ll4: &Vec<u8>, k: u32) -> (r: u32)
    requires
        k < ll16@.len(),
        (k as int) / 2 < ll4@.len(),
    ensures
        r == ll_entry(ll16@, ll4@, k as int),
        r < 0x10_0000,
{
    let lo = ll16[k as usize] as u32;
    let j = k >> 1u32;
    assert(j == k / 2) by (bit_vector)
        requires j == k >> 1u32;
    let b = ll4[j as usize];
    let bw = b as u32;
    let sh = (k << 2u32) & 4u32;
    assert(sh <= 4 && (k % 2 == 0 ==> (bw >> sh) & 0xfu32 == bw % 16) && (k % 2 == 1 ==> (bw >> sh) & 0xfu32 == bw / 16))
        by (bit_vector)
        requires sh == (k << 2u32) & 4u32, bw < 256;
    let hi = (bw >> sh) & 0xfu32;
    let r = lo | (hi << 16u32);
    assert(r == lo + hi * 65536 && r < 0x10_0000) by (bit_vector)
        requires r == lo | (hi << 16u32), lo < 65536, hi < 16;
    r
}

/// Writes `v` to entry `k` of the small layout, leaving the other entries as they were.
pub fn set_ll(ll16: &mut Vec<u16>, ll4: &mut Vec<u8>, k: u32, v: u32)
    requires
        k < old(ll16)@.len(),
        (k as int) / 2 < old(ll4)@.len(),
        v < 0x10_0000,
    ensures
        final(ll16)@.len() == old(ll16)@.len(),
        final(ll4)@.len() == old(ll4)@.len(),
        ll_entry(final(ll16)@, final(ll4)@, k as int) == v,
        forall|m: int| 0 <= m < old(ll16)@.len() && m != k ==> #[trigger] final(ll16)@[m] == old(ll16)@[m],
        forall|m: int| 0 <= m < old(ll16)@.len() && m / 2 < old(ll4)@.len() && m != k
            ==> #[trigger] ll_entry(final(ll16)@, final(ll4)@, m) == ll_entry(old(ll16)@, old(ll4)@, m),
{
    let lo = (v & 0xffffu32) as u16;
    let hi = (v >> 16u32) as u8;
    assert(lo as int + 65536 * (hi as int) == v && hi < 16) by (bit_vector)
        requires lo == (v & 0xffffu32) as u16, hi == (v >> 16u32) as u8, v < 0x10_0000u32;
    ll16.set(k as usize, lo);
    let j = k >> 1u32;
    assert(j == k / 2) by (bit_vector)
        requires j == k >> 1u32;
    let b = ll4[j as usize];
    let nb: u8;
    if k & 1u32 == 0 {
        assert(k % 2 == 0) by (bit_vector)
            requires k & 1u32 == 0;
        nb = (b & 0xf0u8) | hi;
        assert(nb % 16 == hi && nb / 16 == b / 16) by (bit_vector)
            requires nb == (b & 0xf0u8) | hi, hi < 16;
    } else {
        assert(k % 2 == 1) by (bit_vector)
            requires k & 1u32 != 0;
        nb = (b & 0x0fu8) | (hi << 4u8);
        assert(nb / 16 == hi && nb % 16 == b % 16) by (bit_vector)
            requires nb == (b & 0x0fu8) | (hi << 4u8), hi < 16;
    }
    let ghost old16 = old(ll16)@;
    let ghost old4 = old(ll4)@;
    ll4.set(j as usize, nb);
    proof {
        assert forall|m: int| 0 <= m < old16.len() && m / 2 < old4.len() && m != k
            implies #[trigger] ll_entry(ll16@, ll4@, m) == ll_entry(old16, old4, m) by {
            if m / 2 == k / 2 {
                assert(m % 2 != k % 2);
            }
        }
    }
}

/// Links the block for the small decompressor: entry `i` becomes the place in sorted order
/// of the byte at `i` (`cftab_copy[c]` counting on from where the bytes `c` start).
fn make_small_links(
    ll16: &mut Vec<u16>,
    ll4: &mut Vec<u8>,
    cftab_copy: &mut Vec<i32>,
    cftab: &Vec<i32>,
    nblock: usize,
    Ghost(bytes): Ghost<Seq<u8>>,
)
    requires
        nblock <= old(ll16)@.len() <= 900000,
        old(ll4)@.len() == (old(ll16)@.len() + 1) / 2,
        nblock <= bytes.len(),
        old(cftab_copy)@.len() == 257,
        cftab@.len() == 257,
        forall|k: int| 0 <= k < nblock ==> #[trigger] old(ll16)@[k] == bytes[k] as u16,
        forall|c: int| 0 <= c < 257 ==> #[trigger] cftab@[c] == cum(bytes, nblock as int, c - 1),
    ensures
        final(ll16)@.len() == old(ll16)@.len(),
        final(ll4)@.len() == old(ll4)@.len(),
        final(cftab_copy)@.len() == 257,
        forall|k: int| 0 <= k < nblock ==> #[trigger] ll_entry(final(ll16)@, final(ll4)@, k) < nblock,
{
    let ghost n = nblock as int;
    let mut c: usize = 0;
    while c <= 256
        invariant
            c <= 257,
            cftab_copy@.len() == 257,
            cftab@.len() == 257,
            forall|d: int| 0 <= d < c ==> #[trigger] cftab_copy@[d] == cftab@[d],
        decreases 257 - c,
    {
        cftab_copy.set(c, cftab[c]);
        c = c + 1;
    }
    let mut i: usize = 0;
    while i < nblock
        invariant
            i <= nblock <= ll16@.len() <= 900000,
            ll16@.len() == old(ll16)@.len(),
            ll4@.len() == old(ll4)@.len(),
            ll4@.len() == (ll16@.len() + 1) / 2,
            nblock <= bytes.len(),
            n == nblock,
            cftab_copy@.len() == 257,
            forall|k: int| i <= k < nblock ==> #[trigger] ll16@[k] == bytes[k] as u16,
            forall|k: int| 0 <= k < i ==> #[trigger] ll_entry(ll16@, ll4@, k) < nblock,
            forall|d: int| 0 <= d < 256 ==> #[trigger] cftab_copy@[d] == cum(bytes, n, d - 1) + cnt(bytes, d, i as int),
        decreases nblock - i,
    {
        let x = ll16[i];
        let uc = x as u8;
        assert(uc == bytes[i as int]);
        proof {
            lemma_cnt_mono(bytes, uc as int, i as int + 1, n);
            lemma_cum_step(bytes, n, uc as int);
            lemma_cum_bounds(bytes, n, uc as int);
            lemma_cum_bounds(bytes, n, uc as int - 1);
        }
        let v = cftab_copy[uc as usize];
        let ghost before16 = ll16@;
        let ghost before4 = ll4@;
        set_ll(ll16, ll4, i as u32, v as u32);
        proof {
            assert forall|k: int| 0 <= k < i + 1 implies #[trigger] ll_entry(ll16@, ll4@, k) < nblock by {
                if k < i {
                    assert(ll_entry(ll16@, ll4@, k) == ll_entry(before16, before4, k));
                }
            }
            assert forall|k: int| i + 1 <= k < nblock implies #[trigger] ll16@[k] == bytes[k] as u16 by {
                assert(ll16@[k] == before16[k]);
            }
        }
        cftab_copy.set(uc as usize, v + 1);
        i = i + 1;
    }
}

/// Turns the links of the small layout around along their cycle through `orig`, so that
/// each entry leads to the position that follows it in the block's own text. The links
/// are a permutation of the block, so the cycle closes within `nblock` steps; `false` if
/// it did not.
fn reverse_cycle(ll16: &mut Vec<u16>, ll4: &mut Vec<u8>, nblock: usize, orig: u32) -> (closed: bool)
    requires
        orig < nblock <= old(ll16)@.len() <= 900000,
        old(ll4)@.len() == (old(ll16)@.len() + 1) / 2,
        forall|k: int| 0 <= k < nblock ==> #[trigger] ll_entry(old(ll16)@, old(ll4)@, k) < nblock,
    ensures
        final(ll16)@.len() == old(ll16)@.len(),
        final(ll4)@.len() == old(ll4)@.len(),
{
    let mut i: u32 = orig;
    let mut j: u32 = get_ll(ll16, ll4, orig);
    let mut steps: usize = 0;
    loop
        invariant
            i < nblock,
            j < nblock,
            steps <= nblock,
            nblock <= ll16@.len() <= 900000,
            ll16@.len() == old(ll16)@.len(),
            ll4@.len() == old(ll4)@.len(),
            ll4@.len() == (ll16@.len() + 1) / 2,
            forall|k: int| 0 <= k < nblock ==> #[trigger] ll_entry(ll16@, ll4@, k) < nblock,
        decreases nblock - steps,
    {
        if steps >= nblock {
            return false;
        }
        let tmp = get_ll(ll16, ll4, j);
        let ghost before16 = ll16@;
        let ghost before4 = ll4@;
        set_ll(ll16, ll4, j, i);
        proof {
            assert forall|k: int| 0 <= k < nblock implies #[trigger] ll_entry(ll16@, ll4@, k) < nblock by {
                if k != j {
                    assert(ll_entry(ll16@, ll4@, k) == ll_entry(before16, before4, k));
                }
            }
        }
        i = j;
        j = tmp;
        steps = steps + 1;
        if i == orig {
            return true;
        }
    }
}

/// Ends a block at its end-of-block symbol: checks where the unrotated block lies, counts
/// the bytes out (`cftab`), sets up the inverse transform and the first output byte.
fn end_of_block(s: &mut DState) -> (r: Option<i32>)
    requires
        mtf_state_ok(old(s)),
    ensures
        final(s).save_nextSym == old(s).save_nextSym,
        keeps_record(old(s), final(s)),
        final(s).wf(),
        final(s).blockSize100k == old(s).blockSize100k,
        final(s).smallDecompress == old(s).smallDecompress,
        final(s).bsLive == old(s).bsLive,
        r matches Some(c) ==> c == BZ_DATA_ERROR || ((c == BZ_OK || c == BZ_RUN_OK) && final(s).state == State::BZ_X_OUTPUT),
        r is Some,
{
    let nblock = s.save_nblock;
    if s.origPtr < 0 || s.origPtr >= nblock {
        return Some(BZ_DATA_ERROR);
    }
    let ghost bytes = block_bytes(s);
    let ghost n = nblock as int;
    let mut i: usize = 0;
    while i < 256
        invariant
            i <= 256,
            mtf_state_ok(s),
            nblock == s.save_nblock,
            *s == *old(s),
        decreases 256 - i,
    {
        if s.unzftab[i] < 0 || s.unzftab[i] > nblock {
            return Some(BZ_DATA_ERROR);
        }
        i = i + 1;
    }
    let mut cf: Vec<i32> = vec![0i32; 257];
    let mut i: usize = 1;
    proof {
        lemma_cum_bounds(bytes, n, -1);
    }
    while i <= 256
        invariant
            1 <= i <= 257,
            mtf_state_ok(s),
            *s == *old(s),
            bytes == block_bytes(s),
            n == s.save_nblock,
            cf@.len() == 257,
            forall|c: int| 0 <= c < i ==> #[trigger] cf@[c] == cum(bytes, n, c - 1),
        decreases 257 - i,
    {
        proof {
            lemma_cum_step(bytes, n, i as int - 1);
            lemma_cum_bounds(bytes, n, i as int - 1);
            assert(s.unzftab@[i as int - 1] == cnt(bytes, i as int - 1, n));
        }
        cf.set(i, cf[i - 1] + s.unzftab[i - 1]);
        i = i + 1;
    }
    let mut i: usize = 0;
    while i <= 256
        invariant
            i <= 257,
            cf@.len() == 257,
            mtf_state_ok(s),
            *s == *old(s),
            forall|c: int| 0 <= c < 257 ==> #[trigger] cf@[c] == cum(bytes, n, c - 1),
            bytes == block_bytes(s),
            n == s.save_nblock,
        decreases 257 - i,
    {
        if cf[i] < 0 || cf[i] > nblock {
            return Some(BZ_DATA_ERROR);
        }
        i = i + 1;
    }
    let mut i: usize = 1;
    while i <= 256
        invariant
            1 <= i <= 257,
            cf@.len() == 257,
            mtf_state_ok(s),
            *s == *old(s),
            forall|c: int| 0 <= c < 257 ==> #[trigger] cf@[c] == cum(bytes, n, c - 1),
            bytes == block_bytes(s),
            n == s.save_nblock,
        decreases 257 - i,
    {
        if cf[i - 1] > cf[i] {
            return Some(BZ_DATA_ERROR);
        }
        i = i + 1;
    }
    proof {
        if s.smallDecompress {
            assert forall|k: int| 0 <= k < n implies #[trigger] s.ll16@[k] == bytes[k] as u16 by {
                assert(s.ll16@[k] < 256);
            }
        } else {
            assert forall|k: int| 0 <= k < n implies #[trigger] s.tt@[k] == bytes[k] as u32 by {
                assert(s.tt@[k] < 256);
            }
        }
    }
    s.cftab = cf;
    s.state_out_len = 0;
    s.state_out_ch = 0;
    s.calculatedBlockCRC = 0xffff_ffff;
    s.state = State::BZ_X_OUTPUT;
    s.nblock_used = 0;
    s.k0 = 0;
    if s.blockRandomised {
        s.rNToGo = 0;
        s.rTPos = 0;
    }
    if s.smallDecompress {
        make_small_links(&mut s.ll16, &mut s.ll4, &mut s.cftabCopy, &s.cftab, nblock as usize, Ghost(bytes));
        if !reverse_cycle(&mut s.ll16, &mut s.ll4, nblock as usize, s.origPtr as u32) {
            return Some(BZ_DATA_ERROR);
        }
        s.tPos = s.origPtr as u32;
    } else {
        invert_transform(&mut s.tt, &mut s.cftab, nblock as usize, Ghost(bytes));
        s.tPos = s.tt[s.origPtr as usize] >> 8u32;
    }
    match next_byte(s) {
        None => {
            return Some(BZ_RUN_OK);
        },
        Some(k) => {
            s.k0 = k as i32;
            s.nblock_used = 1;
        },
    }
    Some(BZ_OK)
}

} // verus!

verus! {

/// Handles a decoded symbol outside a run: the end of the block, the start of a run of
/// zeros, or a byte.
fn process_top(s: &mut DState) -> (r: Option<i32>)
    requires
        mtf_state_ok(old(s)),
        old(s).save_groupPos < BZ_G_SIZE,
        group_ok(old(s)),
    ensures
        keeps_record(old(s), final(s)),
        r is None ==> in_mtf(final(s).state),
        final(s).wf(),
        final(s).blockSize100k == old(s).blockSize100k,
        final(s).smallDecompress == old(s).smallDecompress,
        final(s).bsLive == old(s).bsLive,
        r matches Some(c) ==> c == BZ_DATA_ERROR || ((c == BZ_OK || c == BZ_RUN_OK) && final(s).state == State::BZ_X_OUTPUT),
        final(s).save_nextSym == old(s).save_nextSym,
        old(s).save_nextSym == old(s).save_EOB ==> r is Some,
        old(s).save_nextSym != old(s).save_EOB && (old(s).save_nextSym == 0 || old(s).save_nextSym == 1) ==>
            r is None && run_advanced(&(DState { save_es: -1i32, save_N: 1i32, ..*old(s) }), final(s)),
        old(s).save_nextSym != old(s).save_EOB && old(s).save_nextSym != 0 && old(s).save_nextSym != 1 ==> {
            &&& r is None <==> old(s).save_nblock < old(s).save_nblockMAX && 1 <= old(s).save_nextSym <= 256
            &&& r is None ==> literal_taken(old(s), final(s))
            &&& r is Some ==> r == Some(BZ_DATA_ERROR)
        },
{
    if s.save_nextSym == s.save_EOB {
        return end_of_block(s);
    }
    if s.save_nextSym == 0 || s.save_nextSym == 1 {
        s.save_es = -1;
        s.save_N = 1;
        return run_step(s);
    }
    literal(s)
}

/// Handles a decoded symbol inside a run of zeros: the run goes on, or it ends and its
/// zeros (copies of the byte at the front of the list) join the block before the symbol
/// is handled.
fn run_continue(s: &mut DState) -> (r: Option<i32>)
    requires
        mtf_state_ok(old(s)),
        in_run(old(s).state),
        old(s).save_groupPos < BZ_G_SIZE,
        group_ok(old(s)),
    ensures
        keeps_record(old(s), final(s)),
        r is None ==> in_mtf(final(s).state),
        final(s).wf(),
        final(s).blockSize100k == old(s).blockSize100k,
        final(s).smallDecompress == old(s).smallDecompress,
        final(s).bsLive == old(s).bsLive,
        r matches Some(c) ==> c == BZ_DATA_ERROR || ((c == BZ_OK || c == BZ_RUN_OK) && final(s).state == State::BZ_X_OUTPUT),
        final(s).save_nextSym == old(s).save_nextSym,
        old(s).save_nextSym == 0 || old(s).save_nextSym == 1 ==>
            (r is None <==> old(s).save_N < 2 * 1024 * 1024) && (r is None ==> run_advanced(old(s), final(s))),
        old(s).save_nextSym != 0 && old(s).save_nextSym != 1 && old(s).save_nblock + old(s).save_es + 1 > old(s).save_nblockMAX
            ==> r == Some(BZ_DATA_ERROR),
        old(s).save_nextSym != 0 && old(s).save_nextSym != 1 && r is None ==> run_then_literal(old(s), final(s)),
{
    if s.save_nextSym == 0 || s.save_nextSym == 1 {
        return run_step(s);
    }
    let mut es = s.save_es + 1;
    let uc = s.seqToUnseq[s.mtf[0] as usize];
    let ghost zero = uc;
    assert(block_bytes(s).subrange(s.save_nblock as int, s.save_nblock as int) =~= Seq::<u8>::empty());
    assert(Seq::new(0nat, |k: int| zero) =~= Seq::<u8>::empty());
    while es > 0
        invariant
            0 <= es <= old(s).save_es + 1,
            0 <= old(s).save_nblock,
            old(s).save_nextSym != 0 && old(s).save_nextSym != 1,
            s.save_nblock == old(s).save_nblock + (old(s).save_es + 1 - es),
            appended(old(s), s, Seq::new((old(s).save_es + 1 - es) as nat, |k: int| zero)),
            s.mtf == old(s).mtf,
            s.seqToUnseq == old(s).seqToUnseq,
            s.save_EOB == old(s).save_EOB,
            zero == old(s).seqToUnseq@[old(s).mtf@[0] as int],
            uc == zero,
            s.save_nblockMAX == old(s).save_nblockMAX,
            mtf_state_ok(s),
            in_run(s.state),
            s.save_groupPos < BZ_G_SIZE,
            group_ok(s),
            s.blockSize100k == old(s).blockSize100k,
            s.smallDecompress == old(s).smallDecompress,
            s.bsLive == old(s).bsLive,
            s.save_nextSym == old(s).save_nextSym,
            keeps_record(old(s), s),
            0 <= es,
        decreases es,
    {
        if s.save_nblock >= s.save_nblockMAX {
            return Some(BZ_DATA_ERROR);
        }
        let ghost before = *s;
        let ghost cnt0 = (old(s).save_es + 1 - es) as nat;
        put_block_byte(s, uc);
        proof {
            lemma_appended_trans(old(s), &before, &*s, Seq::new(cnt0, |k: int| zero), seq![uc]);
            assert(Seq::new(cnt0, |k: int| zero) + seq![uc] =~= Seq::new(cnt0 + 1, |k: int| zero));
        }
        es = es - 1;
    }
    let ghost mid = *s;
    let r = process_top(s);
    proof {
        if r is None {
            let lit = old(s).seqToUnseq@[old(s).mtf@[old(s).save_nextSym - 1] as int];
            lemma_appended_trans(old(s), &mid, &*s, Seq::new((old(s).save_es + 1) as nat, |k: int| zero), seq![lit]);
            assert(Seq::new((old(s).save_es + 1) as nat, |k: int| zero) + seq![lit]
                =~= Seq::new((old(s).save_es + 1) as nat, |k: int| zero).push(lit));
        }
    }
    r
}

/// Checks a code read so far: once it is at most the largest code of its length, the
/// symbol is known; otherwise one more bit is needed.
fn decode_check(s: &mut DState, zvec: i32) -> (r: Option<i32>)
    requires
        old(s).wf(),
        in_mtf(old(s).state),
        !old(s).save_needGroup,
        group_ok(old(s)),
        old(s).save_groupPos < BZ_G_SIZE,
        old(s).save_gMinlen <= old(s).save_zn <= 21,
        0 <= zvec < pow2_i(old(s).save_zn as int),
    ensures
        keeps_record(old(s), final(s)),
        final(s).wf(),
        r is None ==> in_mtf(final(s).state),
        final(s).blockSize100k == old(s).blockSize100k,
        final(s).smallDecompress == old(s).smallDecompress,
        final(s).bsLive == old(s).bsLive,
        r matches Some(c) ==> c == BZ_DATA_ERROR || ((c == BZ_OK || c == BZ_RUN_OK) && final(s).state == State::BZ_X_OUTPUT),
        old(s).save_zn > 20 ==> r == Some(BZ_DATA_ERROR) && *final(s) == *old(s),
        old(s).save_zn <= 20 && zvec > old(s).limit@[old(s).save_gSel as int]@[old(s).save_zn as int] ==>
            r is None && *final(s) == (DState {
                save_zvec: zvec,
                save_zn: (old(s).save_zn + 1) as i32,
                state: next_bit_state(old(s).state),
                ..*old(s)
            }),
        ({
            let sym = zvec - old(s).base@[old(s).save_gSel as int]@[old(s).save_zn as int];
            old(s).save_zn <= 20 && zvec <= old(s).limit@[old(s).save_gSel as int]@[old(s).save_zn as int] ==> {
                &&& !(0 <= sym < 258) ==> r == Some(BZ_DATA_ERROR)
                &&& 0 <= sym < 258 ==> final(s).save_nextSym == old(s).perm@[old(s).save_gSel as int]@[sym]
            }
        }),
{
    if s.save_zn > 20 {
        return Some(BZ_DATA_ERROR);
    }
    let g = s.save_gSel as usize;
    let zn = s.save_zn as usize;
    if zvec <= s.limit[g][zn] {
        let idx: i64 = (zvec as i64) - (s.base[g][zn] as i64);
        if idx < 0 || idx >= 258 {
            return Some(BZ_DATA_ERROR);
        }
        s.save_nextSym = s.perm[g][idx as usize];
        if in_run_exec(s.state) {
            run_continue(s)
        } else {
            process_top(s)
        }
    } else {
        s.save_zvec = zvec;
        s.save_zn = s.save_zn + 1;
        s.state = match s.state {
            State::BZ_X_MTF_1 | State::BZ_X_MTF_2 => State::BZ_X_MTF_2,
            State::BZ_X_MTF_3 | State::BZ_X_MTF_4 => State::BZ_X_MTF_4,
            _ => State::BZ_X_MTF_6,
        };
        None
    }
}

/// Whether the state reads a symbol's code in the middle of a run of zeros.
fn in_run_exec(st: State) -> (r: bool)
    ensures
        r == in_run(st),
{
    match st {
        State::BZ_X_MTF_3 | State::BZ_X_MTF_4 => true,
        _ => false,
    }
}

/// Starts a symbol (moving on to the next group's table every 50 symbols) and reads the
/// shortest code length's worth of bits.
fn step_mtf_read(strm: &mut bz_stream, s: &mut DState) -> (r: Option<i32>)
    requires
        old(strm).io_ok(),
        old(s).wf(),
        old(s).state == State::BZ_X_MTF_1 || old(s).state == State::BZ_X_MTF_3 || old(s).state == State::BZ_X_MTF_5,
    ensures
        step_ok(old(strm), final(strm), old(s), final(s), r),
        r matches Some(c) ==> (c == BZ_OK && final(strm).avail_in == 0) || c == BZ_DATA_ERROR
            || ((c == BZ_OK || c == BZ_RUN_OK) && final(s).state == State::BZ_X_OUTPUT),
{
    if s.save_needGroup {
        if s.save_groupPos == 0 {
            if s.save_groupNo + 1 >= s.save_nSelectors {
                return Some(BZ_DATA_ERROR);
            }
            s.save_groupNo = s.save_groupNo + 1;
            s.save_groupPos = 50;
            s.save_gSel = s.selector[s.save_groupNo as usize] as i32;
            s.save_gMinlen = s.minLens[s.save_gSel as usize];
        }
        s.save_groupPos = s.save_groupPos - 1;
        s.save_zn = s.save_gMinlen;
        s.save_needGroup = false;
    }
    let zn = s.save_zn;
    match get_bits(strm, &mut s.bsBuff, &mut s.bsLive, zn) {
        None => Some(BZ_OK),
        Some(v) => {
            proof {
                lemma_pow2_i_le(zn as int, 20);
                lemma_shl_pow2(20);
                assert((1u32 << 20u32) == 0x10_0000u32) by (bit_vector);
            }
            decode_check(s, v as i32)
        },
    }
}

/// Reads one more bit of a symbol's code.
fn step_mtf_bit(strm: &mut bz_stream, s: &mut DState) -> (r: Option<i32>)
    requires
        old(strm).io_ok(),
        old(s).wf(),
        old(s).state == State::BZ_X_MTF_2 || old(s).state == State::BZ_X_MTF_4 || old(s).state == State::BZ_X_MTF_6,
    ensures
        step_ok(old(strm), final(strm), old(s), final(s), r),
        r matches Some(c) ==> (c == BZ_OK && final(strm).avail_in == 0) || c == BZ_DATA_ERROR
            || ((c == BZ_OK || c == BZ_RUN_OK) && final(s).state == State::BZ_X_OUTPUT),
{
    match get_bits(strm, &mut s.bsBuff, &mut s.bsLive, 1) {
        None => Some(BZ_OK),
        Some(v) => {
            proof {
                lemma_pow2_i_le(s.save_zn - 1, 20);
                lemma_shl_pow2(20);
                assert((1u32 << 20u32) == 0x10_0000u32) by (bit_vector);
                assert(pow2_i(s.save_zn as int) == 2 * pow2_i(s.save_zn - 1));
                lemma_shl_pow2(1);
                assert((1u32 << 1u32) == 2u32) by (bit_vector);
            }
            let zvec = s.save_zvec * 2 + (v as i32);
            decode_check(s, zvec)
        },
    }
}

} // verus!

verus! {

/// The end-of-stream marker stands at byte `t` of the input, and the four bytes of the
/// combined CRC follow it.
pub open spec fn eos_marker_at(input: Seq<u8>, t: int) -> bool {
    &&& 0 <= t
    &&& t + 10 <= input.len()
    &&& input[t] == 0x17u8 && input[t + 1] == 0x72u8 && input[t + 2] == 0x45u8
    &&& input[t + 3] == 0x38u8 && input[t + 4] == 0x50u8 && input[t + 5] == 0x90u8
}

/// The first `k` of the bytes from `t` on, read as a number, most significant first.
pub open spec fn crc_acc(input: Seq<u8>, t: int, k: int) -> u32
    decreases k,
{
    if k <= 0 {
        0u32
    } else {
        (crc_acc(input, t, k - 1) << 8u32) | (input[t + k - 1] as u32)
    }
}

/// How many bytes of the end-of-stream marker and combined CRC are behind a state that
/// reads them; -1 for other states.
pub open spec fn trailer_pos(st: State) -> int {
    if st == State::BZ_X_BLKHDR_1 { 0 }
    else if st == State::BZ_X_ENDHDR_2 { 1 }
    else if st == State::BZ_X_ENDHDR_3 { 2 }
    else if st == State::BZ_X_ENDHDR_4 { 3 }
    else if st == State::BZ_X_ENDHDR_5 { 4 }
    else if st == State::BZ_X_ENDHDR_6 { 5 }
    else if st == State::BZ_X_CCRC_1 { 6 }
    else if st == State::BZ_X_CCRC_2 { 7 }
    else if st == State::BZ_X_CCRC_3 { 8 }
    else if st == State::BZ_X_CCRC_4 { 9 }
    else { -1 }
}

/// Decodes as much of the stream as the input allows (`BZ2_decompress`), up to the end of
/// the next block or of the stream. Returns `BZ_OK` when the input ran out (the decoder
/// resumes where it stopped on the next call) or a block is ready to be handed out
/// (`BZ_X_OUTPUT`); `BZ_STREAM_END` after the stream trailer; `BZ_DATA_ERROR_MAGIC` for a
/// bad stream header and `BZ_DATA_ERROR` for any other inconsistency.
#[verifier::rlimit(40)]
pub fn BZ2_decompress(strm: &mut bz_stream, s: &mut DState) -> (r: i32)
    requires
        old(strm).io_ok(),
        old(s).wf(),
        old(s).state != State::BZ_X_IDLE,
        old(s).state != State::BZ_X_OUTPUT,
    ensures
        keeps_record(old(s), final(s)),
        final(strm).io_ok(),
        final(s).wf(),
        in_frame(old(strm), final(strm)),
        final(s).smallDecompress == old(s).smallDecompress,
        r == BZ_OK || r == BZ_RUN_OK || r == BZ_STREAM_END || r == BZ_DATA_ERROR || r == BZ_DATA_ERROR_MAGIC,
        r == BZ_STREAM_END ==> final(s).state == State::BZ_X_IDLE,
        r == BZ_RUN_OK ==> final(s).state == State::BZ_X_OUTPUT,
        r == BZ_OK && final(s).state != State::BZ_X_OUTPUT ==> final(strm).avail_in == 0,
        final(s).state == State::BZ_X_OUTPUT ==> bits_left(final(strm), final(s)) < bits_left(old(strm), old(s)),
        !in_stream_header(old(s).state) ==> !in_stream_header(final(s).state) && r != BZ_DATA_ERROR_MAGIC,
        r == BZ_DATA_ERROR_MAGIC ==> in_stream_header(final(s).state),
        old(s).state == State::BZ_X_MAGIC_1 && old(s).bsLive == 0 && old(strm).avail_in >= 4 ==>
            (r == BZ_DATA_ERROR_MAGIC <==> !header_ok(old(strm).input@, old(strm).next_in as int)),
        old(s).state == State::BZ_X_MAGIC_1 && old(s).bsLive == 0 && old(strm).avail_in >= 4 && r == BZ_DATA_ERROR_MAGIC ==> {
            let k = header_pos(final(s).state);
            &&& in_stream_header(final(s).state)
            &&& final(strm).next_in == old(strm).next_in + k + 1
            &&& header_prefix_ok(old(strm).input@, old(strm).next_in as int, k)
            &&& !header_byte_ok(k, old(strm).input@[old(strm).next_in + k])
        },
        old(s).state == State::BZ_X_BLKHDR_1 && old(s).bsLive == 0 && old(strm).avail_in >= 10
            && eos_marker_at(old(strm).input@, old(strm).next_in as int) ==> {
            &&& r == BZ_STREAM_END
            &&& final(s).state == State::BZ_X_IDLE
            &&& final(strm).next_in == old(strm).next_in + 10
            &&& final(s).storedCombinedCRC == crc_acc(old(strm).input@, old(strm).next_in + 6, 4)
        },
        old(s).state == State::BZ_X_MAGIC_1 && old(s).bsLive == 0 && old(strm).avail_in >= 14
            && header_ok(old(strm).input@, old(strm).next_in as int)
            && eos_marker_at(old(strm).input@, old(strm).next_in + 4) ==> {
            &&& r == BZ_STREAM_END
            &&& final(s).state == State::BZ_X_IDLE
            &&& final(strm).next_in == old(strm).next_in + 14
            &&& final(s).storedCombinedCRC == crc_acc(old(strm).input@, old(strm).next_in + 10, 4)
        },
{
    let ghost fresh = old(s).state == State::BZ_X_MAGIC_1 && old(s).bsLive == 0 && old(strm).avail_in >= 4;
    let ghost p = old(strm).next_in as int;
    let ghost t: int = if old(s).state == State::BZ_X_BLKHDR_1 { p } else { p + 4 };
    let ghost eos = (old(s).state == State::BZ_X_BLKHDR_1 && old(s).bsLive == 0 && old(strm).avail_in >= 10
            && eos_marker_at(old(strm).input@, p))
        || (fresh && old(strm).avail_in >= 14 && header_ok(old(strm).input@, p) && eos_marker_at(old(strm).input@, p + 4));
    loop
        invariant
            !in_stream_header(old(s).state) ==> !in_stream_header(s.state),
            fresh ==> (in_stream_header(s.state) ==> {
                &&& s.bsLive == 0
                &&& strm.next_in == p + header_pos(s.state)
                &&& header_prefix_ok(old(strm).input@, p, header_pos(s.state))
            }),
            fresh ==> (!in_stream_header(s.state) ==> header_ok(old(strm).input@, p)),
            eos == ((old(s).state == State::BZ_X_BLKHDR_1 && old(s).bsLive == 0 && old(strm).avail_in >= 10
                    && eos_marker_at(old(strm).input@, p))
                || (fresh && old(strm).avail_in >= 14 && header_ok(old(strm).input@, p) && eos_marker_at(old(strm).input@, p + 4))),
            t == (if old(s).state == State::BZ_X_BLKHDR_1 { p } else { p + 4 }),
            eos ==> in_stream_header(s.state) || trailer_pos(s.state) >= 0,
            eos && in_stream_header(s.state) ==> fresh,
            eos && trailer_pos(s.state) >= 0 ==> s.bsLive == 0 && strm.next_in == t + trailer_pos(s.state),
            eos && trailer_pos(s.state) >= 6 ==> s.storedCombinedCRC == crc_acc(old(strm).input@, t + 6, trailer_pos(s.state) - 6),
            fresh == (old(s).state == State::BZ_X_MAGIC_1 && old(s).bsLive == 0 && old(strm).avail_in >= 4),
            p == old(strm).next_in,
            bits_left(strm, s) <= bits_left(old(strm), old(s)),
            strm.io_ok(),
            s.wf(),
            in_frame(old(strm), strm),
            s.smallDecompress == old(s).smallDecompress,
            s.state != State::BZ_X_IDLE,
            s.state != State::BZ_X_OUTPUT,
            keeps_record(old(s), s),
        decreases bits_left(strm, s),
    {
        let ghost st_before = s.state;
        let r = match s.state {
            State::BZ_X_MAGIC_4 => step_magic4(strm, s),
            State::BZ_X_BLKHDR_1 => step_blkhdr1(strm, s),
            State::BZ_X_BCRC_1 | State::BZ_X_BCRC_2 | State::BZ_X_BCRC_3 | State::BZ_X_BCRC_4
            | State::BZ_X_CCRC_1 | State::BZ_X_CCRC_2 | State::BZ_X_CCRC_3 | State::BZ_X_CCRC_4 => step_crc(strm, s),
            State::BZ_X_RANDBIT => step_randbit(strm, s),
            State::BZ_X_ORIGPTR_1 | State::BZ_X_ORIGPTR_2 | State::BZ_X_ORIGPTR_3 => step_origptr(strm, s),
            State::BZ_X_MAPPING_1 => step_mapping1(strm, s),
            State::BZ_X_MAPPING_2 => step_mapping2(strm, s),
            State::BZ_X_SELECTOR_1 => step_selector1(strm, s),
            State::BZ_X_SELECTOR_2 => step_selector2(strm, s),
            State::BZ_X_SELECTOR_3 => step_selector3(strm, s),
            State::BZ_X_CODING_1 => step_coding1(strm, s),
            State::BZ_X_CODING_2 => step_coding2(strm, s),
            State::BZ_X_CODING_3 => step_coding3(strm, s),
            State::BZ_X_MTF_1 | State::BZ_X_MTF_3 | State::BZ_X_MTF_5 => step_mtf_read(strm, s),
            State::BZ_X_MTF_2 | State::BZ_X_MTF_4 | State::BZ_X_MTF_6 => step_mtf_bit(strm, s),
            State::BZ_X_IDLE | State::BZ_X_OUTPUT => Some(BZ_OK),
            _ => step_expect(strm, s),
        };
        proof {
            if fresh && in_stream_header(st_before) && r is None {
                let k = header_pos(st_before);
                assert(header_byte_ok(k, old(strm).input@[p + k]));
                assert forall|j: int| 0 <= j < k + 1 implies #[trigger] header_byte_ok(j, old(strm).input@[p + j]) by {
                    if j < k {
                        assert(header_prefix_ok(old(strm).input@, p, k));
                    }
                }
            }
        }
        proof {
            if eos {
                if in_stream_header(st_before) {
                    assert(header_ok(old(strm).input@, p));
                    let k = header_pos(st_before);
                    assert(header_byte_ok(k, old(strm).input@[p + k]));
                    if st_before == State::BZ_X_MAGIC_4 {
                        assert(s.state == State::BZ_X_BLKHDR_1);
                    }
                } else {
                    let k = trailer_pos(st_before);
                    assert(old(strm).input@[t + k] == strm.input@[t + k]);
                }
            }
        }
        match r {
            Some(c) => {
                proof {
                    if fresh && c == BZ_DATA_ERROR_MAGIC {
                        assert(in_stream_header(st_before));
                        assert(s.state == st_before);
                    }
                }
                return c;
            },
            None => {},
        }
    }
}

} // verus!
