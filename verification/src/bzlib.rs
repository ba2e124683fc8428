//! The streaming interface: compression and decompression streams fed with input and
//! drained of output in pieces of any size, and one-shot buffer-to-buffer calls.
use vstd::prelude::*;
use crate::bitstream::BitWriter;
use crate::blocksort::FTAB_LEN;
use crate::compress::{
    BZ2_compressBlock, BZ_MAX_SELECTORS, BZ_N_GROUPS, BZ_N_OVERSHOOT, CompressState, EState, Mode,
};
use crate::crc::{CrcTable, block_crc, crc_byte, crc_bytes};
use crate::decompress::{
    BZ2_decompress, DState, State, bits_left, block_cap, combined_crc, get_ll, header_ok, in_frame, in_stream_header,
    joined, ll_entry,
};
use crate::huffman::BZ_MAX_ALPHA_SIZE;

verus! {

pub const BZ_RUN: i32 = 0;
pub const BZ_FLUSH: i32 = 1;
pub const BZ_FINISH: i32 = 2;

pub const BZ_OK: i32 = 0;
pub const BZ_RUN_OK: i32 = 1;
pub const BZ_FLUSH_OK: i32 = 2;
pub const BZ_FINISH_OK: i32 = 3;
pub const BZ_STREAM_END: i32 = 4;
pub const BZ_SEQUENCE_ERROR: i32 = -1;
pub const BZ_PARAM_ERROR: i32 = -2;
pub const BZ_MEM_ERROR: i32 = -3;
pub const BZ_DATA_ERROR: i32 = -4;
pub const BZ_DATA_ERROR_MAGIC: i32 = -5;
pub const BZ_IO_ERROR: i32 = -6;
pub const BZ_UNEXPECTED_EOF: i32 = -7;
pub const BZ_OUTBUFF_FULL: i32 = -8;
pub const BZ_CONFIG_ERROR: i32 = -9;

#[allow(non_camel_case_types)]
/// A stream: the caller's input and output buffers with their positions and running
/// totals, and the state of the compressor or decompressor working on it.
pub struct bz_stream {
    /// The input buffer; `avail_in` bytes from `next_in` on are yet to be read.
    pub input: Vec<u8>,
    pub next_in: usize,
    pub avail_in: u32,
    pub total_in_lo32: u32,
    pub total_in_hi32: u32,
    /// The output buffer; `avail_out` bytes from `next_out` on may be written.
    pub output: Vec<u8>,
    pub next_out: usize,
    pub avail_out: u32,
    pub total_out_lo32: u32,
    pub total_out_hi32: u32,
    /// The compressor, between `BZ2_bzCompressInit` and `BZ2_bzCompressEnd`.
    pub cstate: Option<Box<EState>>,
    /// The decompressor, between `BZ2_bzDecompressInit` and `BZ2_bzDecompressEnd`.
    pub dstate: Option<Box<DState>>,
}

impl bz_stream {
    /// The positions lie inside the buffers.
    pub open spec fn io_ok(&self) -> bool {
        &&& self.next_in + self.avail_in <= self.input@.len()
        &&& self.next_out + self.avail_out <= self.output@.len()
    }

    /// A stream with no buffers, counts at zero and no state.
    pub fn zeroed() -> (strm: bz_stream)
        ensures
            strm.io_ok(),
            strm.input@.len() == 0,
            strm.output@.len() == 0,
            strm.next_in == 0 && strm.avail_in == 0 && strm.next_out == 0 && strm.avail_out == 0,
            strm.total_in_lo32 == 0 && strm.total_in_hi32 == 0,
            strm.total_out_lo32 == 0 && strm.total_out_hi32 == 0,
            strm.cstate is None,
            strm.dstate is None,
    {
        bz_stream {
            input: Vec::new(),
            next_in: 0,
            avail_in: 0,
            total_in_lo32: 0,
            total_in_hi32: 0,
            output: Vec::new(),
            next_out: 0,
            avail_out: 0,
            total_out_lo32: 0,
            total_out_hi32: 0,
            cstate: None,
            dstate: None,
        }
    }
}

/// A 64-bit count kept as two 32-bit halves, plus one.
pub open spec fn count_inc(lo: u32, hi: u32) -> (u32, u32) {
    if lo == 0xffff_ffff { (0u32, (if hi == 0xffff_ffff { 0 } else { hi + 1 }) as u32) } else { ((lo + 1) as u32, hi) }
}

/// The value of a 64-bit count kept as two 32-bit halves.
pub open spec fn total64(lo: u32, hi: u32) -> int {
    hi * 0x1_0000_0000 + lo
}

/// `t + k` in 64-bit arithmetic, for `t` and `k` below 2^64.
pub open spec fn add64(t: int, k: int) -> int {
    if t + k < 0x1_0000_0000_0000_0000 { t + k } else { t + k - 0x1_0000_0000_0000_0000 }
}

/// `b`'s count of input bytes is `a`'s plus the bytes taken between them, in 64 bits.
pub open spec fn in_counted(a: &bz_stream, b: &bz_stream) -> bool {
    total64(b.total_in_lo32, b.total_in_hi32) == add64(total64(a.total_in_lo32, a.total_in_hi32), b.next_in - a.next_in)
}

/// `b`'s count of output bytes is `a`'s plus the bytes written between them, in 64 bits.
pub open spec fn out_counted(a: &bz_stream, b: &bz_stream) -> bool {
    total64(b.total_out_lo32, b.total_out_hi32) == add64(total64(a.total_out_lo32, a.total_out_hi32), b.next_out - a.next_out)
}

/// Adds one to a count kept as two 32-bit halves.
pub(crate) fn bump(lo: &mut u32, hi: &mut u32)
    ensures
        (*final(lo), *final(hi)) == count_inc(*old(lo), *old(hi)),
        total64(*final(lo), *final(hi)) == add64(total64(*old(lo), *old(hi)), 1),
{
    *lo = lo.wrapping_add(1);
    if *lo == 0 {
        *hi = hi.wrapping_add(1);
    }
}

/// Starts a new block: empty, with a fresh CRC, no byte in use and nothing left to hand out.
fn prepare_new_block(s: &mut EState)
    requires
        old(s).wf(),
    ensures
        final(s).produced == old(s).produced,
        emitted_ok(final(s)),
        final(s).wf(),
        final(s).nblock == 0,
        final(s).writer.out@.len() == 0,
        final(s).writer.buff == old(s).writer.buff,
        final(s).writer.live == old(s).writer.live,
        final(s).state_out_pos == 0,
        final(s).blockCRC == 0xffff_ffff,
        forall|b: int| 0 <= b < 256 ==> !#[trigger] final(s).inUse@[b],
        final(s).blockNo == old(s).blockNo.wrapping_add(1),
        final(s).mode == old(s).mode,
        final(s).state == old(s).state,
        final(s).avail_in_expect == old(s).avail_in_expect,
        final(s).state_in_ch == old(s).state_in_ch,
        final(s).state_in_len == old(s).state_in_len,
        final(s).combinedCRC == old(s).combinedCRC,
        final(s).blockSize100k == old(s).blockSize100k,
        final(s).nblockMAX == old(s).nblockMAX,
        final(s).workFactor == old(s).workFactor,
        rle_ok(final(s)),
        final(s).block_input@ == (if old(s).state_in_ch < 256 { run_of(old(s).state_in_ch as u8, old(s).state_in_len as int) } else { seq![] }),
{
    s.block_input = Ghost(if s.state_in_ch < 256 { run_of(s.state_in_ch as u8, s.state_in_len as int) } else { seq![] });
    s.nblock = 0;
    s.writer.out = Vec::new();
    s.state_out_pos = 0;
    s.blockCRC = 0xffff_ffff;
    let mut i: usize = 0;
    while i < 256
        invariant
            s.produced == old(s).produced,
            i <= 256,
            s.wf(),
            s.nblock == 0,
            s.writer.out@.len() == 0,
            s.writer.buff == old(s).writer.buff,
            s.writer.live == old(s).writer.live,
            s.state_out_pos == 0,
            s.blockCRC == 0xffff_ffff,
            s.blockNo == old(s).blockNo,
            s.mode == old(s).mode,
            s.state == old(s).state,
            s.avail_in_expect == old(s).avail_in_expect,
            s.state_in_ch == old(s).state_in_ch,
            s.state_in_len == old(s).state_in_len,
            s.combinedCRC == old(s).combinedCRC,
            s.blockSize100k == old(s).blockSize100k,
            s.nblockMAX == old(s).nblockMAX,
            s.workFactor == old(s).workFactor,
            s.block_input@ == (if s.state_in_ch < 256 { run_of(s.state_in_ch as u8, s.state_in_len as int) } else { seq![] }),
            forall|b: int| 0 <= b < i ==> !#[trigger] s.inUse@[b],
        decreases 256 - i,
    {
        s.inUse.set(i, false);
        i = i + 1;
    }
    s.blockNo = s.blockNo.wrapping_add(1);
    assert(s.produced@.subrange(s.produced@.len() - 0, s.produced@.len() as int) =~= s.writer.out@);
    assert(crc_bytes(0xffff_ffff, seq![]) == 0xffff_ffffu32);
    assert(seq![] + s.block_input@ =~= s.block_input@);
}

/// No run is being collected.
fn init_rl(s: &mut EState)
    requires
        old(s).wf(),
    ensures
        final(s).produced == old(s).produced,
        final(s).wf(),
        final(s).state_in_ch == 256,
        final(s).state_in_len == 0,
        final(s).block_input == old(s).block_input,
        final(s).nblock == old(s).nblock,
        final(s).block@ == old(s).block@,
        final(s).inUse@ == old(s).inUse@,
        final(s).blockCRC == old(s).blockCRC,
        final(s).writer == old(s).writer,
        final(s).state_out_pos == old(s).state_out_pos,
        final(s).blockNo == old(s).blockNo,
        final(s).mode == old(s).mode,
        final(s).state == old(s).state,
        final(s).avail_in_expect == old(s).avail_in_expect,
        final(s).combinedCRC == old(s).combinedCRC,
        final(s).nblockMAX == old(s).nblockMAX,
        final(s).blockSize100k == old(s).blockSize100k,
        final(s).workFactor == old(s).workFactor,
{
    s.state_in_ch = 256;
    s.state_in_len = 0;
}

/// Whether no run is being collected.
fn isempty_rl(s: &EState) -> (r: bool)
    ensures
        r == !(s.state_in_ch < 256 && s.state_in_len > 0),
{
    !(s.state_in_ch < 256 && s.state_in_len > 0)
}

} // verus!

verus! {

/// Reading `b[0 .. n]` as run-length coded bytes: four equal bytes in a row are followed
/// by a count of further copies. The result is what was read so far, the last byte and
/// how many times in a row it has been seen (`-1` and `0` right after a count).
pub open spec fn rle1_fold(b: Seq<u8>, n: int) -> (Seq<u8>, int, int)
    decreases n,
{
    if n <= 0 {
        (seq![], -1, 0)
    } else {
        let (o, p, r) = rle1_fold(b, n - 1);
        let x = b[n - 1];
        if r == 4 {
            (o + Seq::new(x as nat, |k: int| p as u8), -1, 0)
        } else if x as int == p {
            (o.push(x), p, r + 1)
        } else {
            (o.push(x), x as int, 1)
        }
    }
}

/// The bytes a run-length coded block stands for.
pub open spec fn rle1_decode(b: Seq<u8>) -> Seq<u8> {
    rle1_fold(b, b.len() as int).0
}

/// `n` copies of `c`.
pub open spec fn run_of(c: u8, n: int) -> Seq<u8> {
    Seq::new(n as nat, |k: int| c)
}

/// The pending run fits in the block.
pub open spec fn run_fits(s: &EState) -> bool {
    s.state_in_ch < 256 ==> s.nblock + (if s.state_in_len >= 4 { 5int } else { s.state_in_len as int }) <= s.nblockMAX + 5
}

/// The block, read back, and the pending run make up the block's input; the pending run
/// never continues a run the block ends with; the block's CRC covers what it holds.
pub open spec fn rle_ok(s: &EState) -> bool {
    let (o, p, r) = rle1_fold(s.block@, s.nblock as int);
    &&& 0 <= r <= 3
    &&& s.block_input@ == o + (if s.state_in_ch < 256 { run_of(s.state_in_ch as u8, s.state_in_len as int) } else { seq![] })
    &&& (s.state_in_ch < 256 ==> s.state_in_ch != p)
    &&& s.blockCRC == crc_bytes(0xffff_ffff, o)
    &&& run_fits(s)
}

/// Everything but the block, its CRC, the byte map, the pending run and the
/// block's input stays.
pub open spec fn same_but_input(a: &EState, b: &EState) -> bool {
    &&& a.writer == b.writer
    &&& a.state_out_pos == b.state_out_pos
    &&& a.blockNo == b.blockNo
    &&& a.mode == b.mode
    &&& a.state == b.state
    &&& a.avail_in_expect == b.avail_in_expect
    &&& a.combinedCRC == b.combinedCRC
    &&& a.blockSize100k == b.blockSize100k
    &&& a.nblockMAX == b.nblockMAX
}

proof fn lemma_fold_prefix(b1: Seq<u8>, b2: Seq<u8>, n: int)
    requires
        0 <= n <= b1.len(),
        n <= b2.len(),
        forall|k: int| 0 <= k < n ==> b1[k] == b2[k],
    ensures
        rle1_fold(b1, n) == rle1_fold(b2, n),
    decreases n,
{
    if n > 0 {
        lemma_fold_prefix(b1, b2, n - 1);
    }
}

proof fn lemma_crc_run(init: u32, o: Seq<u8>, c: u8, k: int)
    requires
        0 <= k,
    ensures
        crc_bytes(init, o + run_of(c, k + 1)) == crc_byte(crc_bytes(init, o + run_of(c, k)), c),
{
    assert((o + run_of(c, k + 1)).drop_last() =~= o + run_of(c, k));
}

/// Writes the pending run into the block: up to three copies as they are, longer runs as
/// four copies and a count of further copies (`add_pair_to_block`).
fn add_pair_to_block(s: &mut EState)
    requires
        old(s).wf(),
        rle_ok(old(s)),
        old(s).state_in_ch < 256,
    ensures
        final(s).produced == old(s).produced,
        final(s).wf(),
        same_but_input(old(s), &*final(s)),
        final(s).state_in_ch == old(s).state_in_ch,
        final(s).state_in_len == old(s).state_in_len,
        final(s).block_input == old(s).block_input,
        ({
            let (o, p, r) = rle1_fold(final(s).block@, final(s).nblock as int);
            &&& final(s).block_input@ == o
            &&& 0 <= r <= 3
            &&& (if old(s).state_in_len >= 4 { r == 0 && p == -1 } else { p == old(s).state_in_ch && r == old(s).state_in_len })
            &&& final(s).blockCRC == crc_bytes(0xffff_ffff, o)
        }),
        final(s).nblock == old(s).nblock + (if old(s).state_in_len >= 4 { 5int } else { old(s).state_in_len as int }),
        final(s).nblock <= final(s).nblockMAX + 5,
        final(s).inUse@ == (if old(s).state_in_len >= 4 {
            old(s).inUse@.update(old(s).state_in_ch as int, true).update(old(s).state_in_len - 4, true)
        } else {
            old(s).inUse@.update(old(s).state_in_ch as int, true)
        }),
{
    let ch: u8 = s.state_in_ch as u8;
    let len = s.state_in_len;
    let ghost o0 = rle1_fold(s.block@, s.nblock as int).0;
    let mut k: i32 = 0;
    while k < len
        invariant
            s.produced == old(s).produced,
            0 <= k <= len,
            len == s.state_in_len,
            s.wf(),
            s.crc.wf(),
            s.blockCRC == crc_bytes(0xffff_ffff, o0 + run_of(ch, k as int)),
            s.nblock == old(s).nblock,
            s.block@ == old(s).block@,
            same_but_input(old(s), &*s),
            s.state_in_ch == old(s).state_in_ch,
            s.state_in_len == old(s).state_in_len,
            s.block_input == old(s).block_input,
            s.inUse@ == old(s).inUse@,
        decreases len - k,
    {
        proof {
            lemma_crc_run(0xffff_ffff, o0, ch, k as int);
        }
        s.blockCRC = s.crc.update(s.blockCRC, ch);
        k = k + 1;
    }
    assert(o0 + run_of(ch, 0) =~= o0);
    s.inUse.set(ch as usize, true);
    let n0 = s.nblock as usize;
    let ghost b0 = s.block@;
    let ghost f0 = rle1_fold(b0, n0 as int);
    if len == 1 {
        s.block.set(n0, ch);
        s.nblock = s.nblock + 1;
    } else if len == 2 {
        s.block.set(n0, ch);
        s.block.set(n0 + 1, ch);
        s.nblock = s.nblock + 2;
    } else if len == 3 {
        s.block.set(n0, ch);
        s.block.set(n0 + 1, ch);
        s.block.set(n0 + 2, ch);
        s.nblock = s.nblock + 3;
    } else {
        s.inUse.set((len - 4) as usize, true);
        s.block.set(n0, ch);
        s.block.set(n0 + 1, ch);
        s.block.set(n0 + 2, ch);
        s.block.set(n0 + 3, ch);
        s.block.set(n0 + 4, (len - 4) as u8);
        s.nblock = s.nblock + 5;
    }
    proof {
        let nb = s.block@;
        lemma_fold_prefix(b0, nb, n0 as int);
        let m = s.nblock as int;
        assert(nb[n0 as int] == ch);
        if len >= 2 { assert(nb[n0 + 1] == ch); }
        if len >= 3 { assert(nb[n0 + 2] == ch); }
        if len >= 4 { assert(nb[n0 + 3] == ch); assert(nb[n0 + 4] == (len - 4) as u8); }
        let f1 = rle1_fold(nb, n0 + 1);
        assert(f1 == (f0.0.push(ch), ch as int, 1int));
        if len >= 2 {
            let f2 = rle1_fold(nb, n0 + 2);
            assert(f2 == (f0.0.push(ch).push(ch), ch as int, 2int));
            if len >= 3 {
                let f3 = rle1_fold(nb, n0 + 3);
                assert(f3 == (f0.0.push(ch).push(ch).push(ch), ch as int, 3int));
                if len >= 4 {
                    let f4 = rle1_fold(nb, n0 + 4);
                    assert(f4 == (f0.0.push(ch).push(ch).push(ch).push(ch), ch as int, 4int));
                    let f5 = rle1_fold(nb, n0 + 5);
                    assert(f5.0 =~= o0 + run_of(ch, len as int));
                    assert(f5.1 == -1 && f5.2 == 0);
                } else {
                    assert(f3.0 =~= o0 + run_of(ch, len as int));
                }
            } else {
                assert(f2.0 =~= o0 + run_of(ch, len as int));
            }
        } else {
            assert(f1.0 =~= o0 + run_of(ch, len as int));
        }
        assert forall|k: int| 0 <= k < m implies s.inUse@[#[trigger] s.block@[k] as int] by {
            if k < n0 {
                assert(nb[k] == b0[k]);
            }
        }
    }
}

} // verus!

verus! {

/// Writes the pending run, if any, into the block and clears it (`flush_rl`).
fn flush_rl(s: &mut EState)
    requires
        old(s).wf(),
        rle_ok(old(s)),
    ensures
        final(s).produced == old(s).produced,
        final(s).wf(),
        same_but_input(old(s), &*final(s)),
        final(s).state_in_ch == 256,
        final(s).state_in_len == 0,
        final(s).block_input == old(s).block_input,
        rle1_decode(final(s).block@.subrange(0, final(s).nblock as int)) == final(s).block_input@,
        final(s).blockCRC == crc_bytes(0xffff_ffff, final(s).block_input@),
        rle_ok(final(s)),
{
    if s.state_in_ch < 256 {
        add_pair_to_block(s);
    } else {
        assert(s.block_input@ =~= rle1_fold(s.block@, s.nblock as int).0 + seq![]);
    }
    init_rl(s);
    proof {
        let sub = s.block@.subrange(0, s.nblock as int);
        lemma_fold_prefix(sub, s.block@, s.nblock as int);
    }
}

/// Takes one more input byte into the pending run, or starts a new run after writing the
/// pending one (`ADD_CHAR_TO_BLOCK`).
fn add_char_to_block(s: &mut EState, zchh: u8)
    requires
        old(s).wf(),
        rle_ok(old(s)),
        old(s).nblock < old(s).nblockMAX,
        old(s).state_in_ch == 256 ==> old(s).nblock == 0,
    ensures
        final(s).produced == old(s).produced,
        final(s).wf(),
        rle_ok(final(s)),
        same_but_input(old(s), &*final(s)),
        final(s).block_input@ == old(s).block_input@.push(zchh),
        final(s).state_in_ch < 256,
        final(s).nblock >= old(s).nblock,
{
    let ghost bi = s.block_input@;
    if (zchh as u32) != s.state_in_ch || s.state_in_len == 255 {
        if s.state_in_ch < 256 {
            add_pair_to_block(s);
        } else {
            assert(s.block_input@ =~= rle1_fold(s.block@, s.nblock as int).0 + seq![]);
        }
        s.state_in_ch = zchh as u32;
        s.state_in_len = 1;
        proof {
            s.block_input = Ghost(bi.push(zchh));
            assert(run_of(zchh, 1) =~= seq![zchh]);
            let (o, p, r) = rle1_fold(s.block@, s.nblock as int);
            assert(0 <= r <= 3);
            assert(o + run_of(zchh, 1) =~= o.push(zchh));
        }
    } else {
        s.state_in_len = s.state_in_len + 1;
        proof {
            s.block_input = Ghost(bi.push(zchh));
            let (o, p, r) = rle1_fold(s.block@, s.nblock as int);
            assert(o + run_of(zchh, s.state_in_len as int) =~= (o + run_of(zchh, s.state_in_len - 1)).push(zchh));
        }
    }
}

/// The state a compression stream keeps between calls.
pub open spec fn estate_ok(s: &EState) -> bool {
    &&& s.wf()
    &&& emitted_ok(s)
    &&& (s.state == CompressState::Input ==> rle_ok(s))
    &&& (s.state == CompressState::Input && s.state_in_ch == 256 ==> s.nblock == 0)
    &&& (s.state == CompressState::Input ==> s.writer.out@.len() == 0 && s.state_out_pos == 0)
    &&& s.state_out_pos <= s.writer.out@.len()
}

/// Takes input bytes into the block until the block is full, the input is used up or, when
/// flushing or finishing, the bytes announced for it are taken (`copy_input_until_stop`).
/// Returns whether any byte was taken.
fn copy_input_until_stop(strm: &mut bz_stream, s: &mut EState) -> (progress: bool)
    requires
        old(strm).io_ok(),
        estate_ok(old(s)),
        old(s).state == CompressState::Input,
    ensures
        final(s).produced == old(s).produced,
        final(strm).io_ok(),
        estate_ok(final(s)),
        same_but_input(old(s), &*final(s)) || final(s).avail_in_expect < old(s).avail_in_expect,
        final(s).writer == old(s).writer,
        final(s).state == old(s).state,
        final(s).mode == old(s).mode,
        final(s).blockNo == old(s).blockNo,
        final(s).combinedCRC == old(s).combinedCRC,
        final(s).blockSize100k == old(s).blockSize100k,
        final(s).nblockMAX == old(s).nblockMAX,
        final(s).state_out_pos == old(s).state_out_pos,
        final(strm).output == old(strm).output,
        final(strm).next_out == old(strm).next_out,
        final(strm).avail_out == old(strm).avail_out,
        final(strm).total_out_lo32 == old(strm).total_out_lo32,
        final(strm).total_out_hi32 == old(strm).total_out_hi32,
        final(strm).input == old(strm).input,
        final(strm).avail_in <= old(strm).avail_in,
        in_counted(old(strm), final(strm)),
        ({
            let taken = old(strm).avail_in - final(strm).avail_in;
            &&& final(strm).next_in == old(strm).next_in + taken
            &&& final(s).block_input@ == old(s).block_input@ + old(strm).input@.subrange(old(strm).next_in as int, final(strm).next_in as int)
            &&& old(s).mode != Mode::Running ==> final(s).avail_in_expect == old(s).avail_in_expect - taken
            &&& old(s).mode == Mode::Running ==> final(s).avail_in_expect == old(s).avail_in_expect
            &&& progress == (taken > 0)
        }),
        final(s).nblock >= final(s).nblockMAX || final(strm).avail_in == 0
            || (final(s).mode != Mode::Running && final(s).avail_in_expect == 0),
        old(s).nblock < old(s).nblockMAX && old(strm).avail_in > 0
            && (old(s).mode == Mode::Running || old(s).avail_in_expect > 0) ==> progress,
        final(s).nblock >= old(s).nblock,
        !progress ==> final(s).nblock == old(s).nblock && final(s).state_in_ch == old(s).state_in_ch
            && final(s).state_in_len == old(s).state_in_len,
{
    let mut progress_in = false;
    let running = s.mode == Mode::Running;
    let ghost start = strm.next_in;
    let ghost bi0 = s.block_input@;
    loop
        invariant
            s.produced == old(s).produced,
            strm.io_ok(),
            estate_ok(s),
            running == (s.mode == Mode::Running),
            s.writer == old(s).writer,
            s.state == old(s).state,
            s.state == CompressState::Input,
            s.mode == old(s).mode,
            s.blockNo == old(s).blockNo,
            s.combinedCRC == old(s).combinedCRC,
            s.blockSize100k == old(s).blockSize100k,
            s.nblockMAX == old(s).nblockMAX,
            s.state_out_pos == old(s).state_out_pos,
            strm.output == old(strm).output,
            strm.next_out == old(strm).next_out,
            strm.avail_out == old(strm).avail_out,
            strm.total_out_lo32 == old(strm).total_out_lo32,
            strm.total_out_hi32 == old(strm).total_out_hi32,
            in_counted(old(strm), strm),
            strm.input == old(strm).input,
            start == old(strm).next_in,
            strm.avail_in <= old(strm).avail_in,
            strm.next_in == start + (old(strm).avail_in - strm.avail_in),
            s.block_input@ == bi0 + strm.input@.subrange(start as int, strm.next_in as int),
            running ==> s.avail_in_expect == old(s).avail_in_expect,
            !running ==> s.avail_in_expect == old(s).avail_in_expect - (old(strm).avail_in - strm.avail_in),
            progress_in == (strm.avail_in < old(strm).avail_in),
            !progress_in ==> s.nblock == old(s).nblock && s.state_in_ch == old(s).state_in_ch
                && s.state_in_len == old(s).state_in_len,
            s.nblock >= old(s).nblock,
        ensures
            strm.io_ok(),
            estate_ok(s),
            s.writer == old(s).writer,
            s.state == old(s).state,
            s.mode == old(s).mode,
            s.blockNo == old(s).blockNo,
            s.combinedCRC == old(s).combinedCRC,
            s.blockSize100k == old(s).blockSize100k,
            s.nblockMAX == old(s).nblockMAX,
            s.state_out_pos == old(s).state_out_pos,
            strm.output == old(strm).output,
            strm.next_out == old(strm).next_out,
            strm.avail_out == old(strm).avail_out,
            strm.total_out_lo32 == old(strm).total_out_lo32,
            strm.total_out_hi32 == old(strm).total_out_hi32,
            in_counted(old(strm), strm),
            strm.input == old(strm).input,
            strm.avail_in <= old(strm).avail_in,
            strm.next_in == start + (old(strm).avail_in - strm.avail_in),
            s.block_input@ == bi0 + strm.input@.subrange(start as int, strm.next_in as int),
            running ==> s.avail_in_expect == old(s).avail_in_expect,
            !running ==> s.avail_in_expect == old(s).avail_in_expect - (old(strm).avail_in - strm.avail_in),
            progress_in == (strm.avail_in < old(strm).avail_in),
            !progress_in ==> s.nblock == old(s).nblock && s.state_in_ch == old(s).state_in_ch
                && s.state_in_len == old(s).state_in_len,
            s.nblock >= s.nblockMAX || strm.avail_in == 0 || (!running && s.avail_in_expect == 0),
            s.nblock >= old(s).nblock,
        decreases strm.avail_in,
    {
        if s.nblock >= s.nblockMAX {
            break;
        }
        if strm.avail_in == 0 {
            break;
        }
        if !running && s.avail_in_expect == 0 {
            break;
        }
        progress_in = true;
        let ilen = strm.input.len();
        let b = strm.input[strm.next_in];
        let ghost before = strm.input@.subrange(start as int, strm.next_in as int);
        add_char_to_block(s, b);
        strm.next_in = strm.next_in + 1;
        strm.avail_in = strm.avail_in - 1;
        bump(&mut strm.total_in_lo32, &mut strm.total_in_hi32);
        if !running {
            s.avail_in_expect = s.avail_in_expect - 1;
        }
        assert(strm.input@.subrange(start as int, strm.next_in as int) =~= before.push(b));
    }
    progress_in
}

/// Hands out bytes of the finished block until the output space is used up or all of
/// them are out (`copy_output_until_stop`). Returns whether any byte was handed out.
fn copy_output_until_stop(strm: &mut bz_stream, s: &mut EState) -> (progress: bool)
    requires
        old(strm).io_ok(),
        estate_ok(old(s)),
    ensures
        final(s).produced == old(s).produced,
        final(strm).io_ok(),
        estate_ok(final(s)),
        final(strm).input == old(strm).input,
        final(strm).next_in == old(strm).next_in,
        final(strm).avail_in == old(strm).avail_in,
        final(strm).total_in_lo32 == old(strm).total_in_lo32,
        final(strm).total_in_hi32 == old(strm).total_in_hi32,
        out_counted(old(strm), final(strm)),
        ({
            let n = final(s).state_out_pos - old(s).state_out_pos;
            &&& 0 <= n
            &&& n == old(strm).avail_out - final(strm).avail_out
            &&& final(strm).next_out == old(strm).next_out + n
            &&& final(strm).output@ == old(strm).output@.subrange(0, old(strm).next_out as int)
                + old(s).writer.out@.subrange(old(s).state_out_pos as int, final(s).state_out_pos as int)
                + old(strm).output@.subrange(final(strm).next_out as int, old(strm).output@.len() as int)
            &&& progress == (n > 0)
            &&& final(strm).avail_out == 0 || final(s).state_out_pos == final(s).writer.out@.len()
        }),
        final(s).writer == old(s).writer,
        final(s).nblock == old(s).nblock,
        final(s).block@ == old(s).block@,
        final(s).block_input == old(s).block_input,
        same_but_input(old(s), &*final(s)) || final(s).state_out_pos != old(s).state_out_pos,
        final(s).mode == old(s).mode,
        final(s).state == old(s).state,
        final(s).avail_in_expect == old(s).avail_in_expect,
        final(s).state_in_ch == old(s).state_in_ch,
        final(s).state_in_len == old(s).state_in_len,
        final(s).blockNo == old(s).blockNo,
        final(s).combinedCRC == old(s).combinedCRC,
{
    let mut progress_out = false;
    let ghost out0 = strm.output@;
    let ghost pos0 = s.state_out_pos;
    let ghost nout0 = strm.next_out;
    loop
        invariant
            s.produced == old(s).produced,
            strm.io_ok(),
            estate_ok(s),
            strm.input == old(strm).input,
            strm.next_in == old(strm).next_in,
            strm.avail_in == old(strm).avail_in,
            strm.total_in_lo32 == old(strm).total_in_lo32,
            strm.total_in_hi32 == old(strm).total_in_hi32,
            out_counted(old(strm), strm),
            s.writer == old(s).writer,
            s.nblock == old(s).nblock,
            s.block@ == old(s).block@,
            s.block_input == old(s).block_input,
            s.mode == old(s).mode,
            s.state == old(s).state,
            s.avail_in_expect == old(s).avail_in_expect,
            s.state_in_ch == old(s).state_in_ch,
            s.state_in_len == old(s).state_in_len,
            s.blockNo == old(s).blockNo,
            s.combinedCRC == old(s).combinedCRC,
            s.blockCRC == old(s).blockCRC,
            s.inUse@ == old(s).inUse@,
            s.blockSize100k == old(s).blockSize100k,
            s.nblockMAX == old(s).nblockMAX,
            pos0 <= s.state_out_pos,
            s.state_out_pos - pos0 == old(strm).avail_out - strm.avail_out,
            strm.next_out == nout0 + (s.state_out_pos - pos0),
            strm.output@.len() == out0.len(),
            strm.output@ == out0.subrange(0, nout0 as int)
                + old(s).writer.out@.subrange(pos0 as int, s.state_out_pos as int)
                + out0.subrange(strm.next_out as int, out0.len() as int),
            progress_out == (s.state_out_pos > pos0),
        ensures
            strm.io_ok(),
            estate_ok(s),
            strm.input == old(strm).input,
            strm.next_in == old(strm).next_in,
            strm.avail_in == old(strm).avail_in,
            strm.total_in_lo32 == old(strm).total_in_lo32,
            strm.total_in_hi32 == old(strm).total_in_hi32,
            out_counted(old(strm), strm),
            s.writer == old(s).writer,
            s.nblock == old(s).nblock,
            s.block@ == old(s).block@,
            s.block_input == old(s).block_input,
            s.mode == old(s).mode,
            s.state == old(s).state,
            s.avail_in_expect == old(s).avail_in_expect,
            s.state_in_ch == old(s).state_in_ch,
            s.state_in_len == old(s).state_in_len,
            s.blockNo == old(s).blockNo,
            s.combinedCRC == old(s).combinedCRC,
            pos0 <= s.state_out_pos,
            s.state_out_pos - pos0 == old(strm).avail_out - strm.avail_out,
            strm.next_out == nout0 + (s.state_out_pos - pos0),
            strm.output@ == out0.subrange(0, nout0 as int)
                + old(s).writer.out@.subrange(pos0 as int, s.state_out_pos as int)
                + out0.subrange(strm.next_out as int, out0.len() as int),
            progress_out == (s.state_out_pos > pos0),
            strm.avail_out == 0 || s.state_out_pos == s.writer.out@.len(),
        decreases strm.avail_out,
    {
        if strm.avail_out == 0 {
            break;
        }
        if s.state_out_pos >= s.writer.out.len() {
            break;
        }
        progress_out = true;
        let olen = strm.output.len();
        let b = s.writer.out[s.state_out_pos];
        strm.output.set(strm.next_out, b);
        s.state_out_pos = s.state_out_pos + 1;
        strm.avail_out = strm.avail_out - 1;
        strm.next_out = strm.next_out + 1;
        bump(&mut strm.total_out_lo32, &mut strm.total_out_hi32);
        assert(strm.output@ =~= out0.subrange(0, nout0 as int)
            + old(s).writer.out@.subrange(pos0 as int, s.state_out_pos as int)
            + out0.subrange(strm.next_out as int, out0.len() as int));
    }
    progress_out
}

} // verus!

verus! {

/// The stream's positions and the compressor's state, kept between calls.
pub open spec fn cstream_ok(strm: &bz_stream, s: &EState) -> bool {
    strm.io_ok() && estate_ok(s)
}

/// `b` is `a` after bytes were written at `a.next_out` on, and only there: the output
/// position moved forward by as much as the output space shrank, and the count of output
/// bytes by as much.
pub open spec fn out_frame(a: &bz_stream, b: &bz_stream) -> bool {
    &&& out_counted(a, b)
    &&& b.output@.len() == a.output@.len()
    &&& a.next_out <= b.next_out
    &&& b.next_out + b.avail_out == a.next_out + a.avail_out
    &&& b.output@.subrange(0, a.next_out as int) == a.output@.subrange(0, a.next_out as int)
    &&& b.output@.subrange(b.next_out as int, b.output@.len() as int)
        == a.output@.subrange(b.next_out as int, a.output@.len() as int)
}

proof fn lemma_out_frame_trans(a: &bz_stream, b: &bz_stream, c: &bz_stream)
    requires
        a.io_ok(),
        b.io_ok(),
        out_frame(a, b),
        out_frame(b, c),
    ensures
        out_frame(a, c),
{
    assert forall|k: int| 0 <= k < a.next_out implies c.output@[k] == a.output@[k] by {
        assert(c.output@.subrange(0, b.next_out as int)[k] == b.output@.subrange(0, b.next_out as int)[k]);
        assert(b.output@.subrange(0, a.next_out as int)[k] == a.output@.subrange(0, a.next_out as int)[k]);
    }
    assert forall|k: int| c.next_out <= k < c.output@.len() implies c.output@[k] == a.output@[k] by {
        assert(c.output@.subrange(c.next_out as int, c.output@.len() as int)[k - c.next_out]
            == b.output@.subrange(c.next_out as int, b.output@.len() as int)[k - c.next_out]);
        assert(b.output@.subrange(b.next_out as int, b.output@.len() as int)[k - b.next_out]
            == a.output@.subrange(b.next_out as int, a.output@.len() as int)[k - b.next_out]);
    }
    assert(c.output@.subrange(0, a.next_out as int) =~= a.output@.subrange(0, a.next_out as int));
    assert(c.output@.subrange(c.next_out as int, c.output@.len() as int)
        =~= a.output@.subrange(c.next_out as int, a.output@.len() as int));
}

/// What two stretches of output writing put down, one after the other.
proof fn lemma_written_concat(a: &bz_stream, b: &bz_stream, c: &bz_stream)
    requires
        a.io_ok(),
        b.io_ok(),
        out_frame(a, b),
        out_frame(b, c),
    ensures
        c.output@.subrange(a.next_out as int, c.next_out as int)
            == b.output@.subrange(a.next_out as int, b.next_out as int) + c.output@.subrange(b.next_out as int, c.next_out as int),
{
    assert forall|k: int| a.next_out <= k < b.next_out implies c.output@[k] == b.output@[k] by {
        assert(c.output@.subrange(0, b.next_out as int)[k] == b.output@.subrange(0, b.next_out as int)[k]);
    }
    assert(c.output@.subrange(a.next_out as int, c.next_out as int)
        =~= b.output@.subrange(a.next_out as int, b.next_out as int) + c.output@.subrange(b.next_out as int, c.next_out as int));
}

/// Alternates between taking input into the block, compressing full or final blocks and
/// handing out their bytes, until no more progress can be made (`handle_compress`).
/// Returns whether any input was taken or output handed out.
#[verifier::rlimit(80)]
fn handle_compress(strm: &mut bz_stream, s: &mut EState) -> (progress: bool)
    requires
        cstream_ok(old(strm), old(s)),
        old(s).mode != Mode::Idle,
    ensures
        cstream_ok(final(strm), final(s)),
        final(s).mode == old(s).mode,
        final(strm).input == old(strm).input,
        final(strm).output@.len() == old(strm).output@.len(),
        final(strm).avail_in <= old(strm).avail_in,
        final(s).mode != Mode::Running ==> final(s).avail_in_expect <= old(s).avail_in_expect,
        final(s).mode != Mode::Running ==> final(s).avail_in_expect - final(strm).avail_in == old(s).avail_in_expect - old(strm).avail_in,
        out_frame(old(strm), final(strm)),
        in_taken(old(strm), final(strm)),
        old(s).mode == Mode::Running ==> final(strm).avail_in == 0 || final(strm).avail_out == 0,
        progress == (final(strm).avail_in < old(strm).avail_in || final(strm).next_out > old(strm).next_out),
        sent(final(s)) == sent(old(s)) + final(strm).output@.subrange(old(strm).next_out as int, final(strm).next_out as int),
{
    let mut progress_in = false;
    let mut progress_out = false;
    loop
        invariant
            cstream_ok(strm, s),
            s.mode == old(s).mode,
            s.mode != Mode::Idle,
            strm.input == old(strm).input,
            strm.output@.len() == old(strm).output@.len(),
            strm.avail_in <= old(strm).avail_in,
            s.mode != Mode::Running ==> s.avail_in_expect <= old(s).avail_in_expect,
            s.mode != Mode::Running ==> s.avail_in_expect - strm.avail_in == old(s).avail_in_expect - old(strm).avail_in,
            out_frame(old(strm), strm),
            in_taken(old(strm), strm),
            old(strm).io_ok(),
            progress_in == (strm.avail_in < old(strm).avail_in),
            progress_out == (strm.next_out > old(strm).next_out),
            sent(s) == sent(old(s)) + strm.output@.subrange(old(strm).next_out as int, strm.next_out as int),
        ensures
            cstream_ok(strm, s),
            s.mode == old(s).mode,
            s.mode != Mode::Idle,
            strm.input == old(strm).input,
            strm.output@.len() == old(strm).output@.len(),
            strm.avail_in <= old(strm).avail_in,
            s.mode != Mode::Running ==> s.avail_in_expect <= old(s).avail_in_expect,
            s.mode != Mode::Running ==> s.avail_in_expect - strm.avail_in == old(s).avail_in_expect - old(strm).avail_in,
            out_frame(old(strm), strm),
            in_taken(old(strm), strm),
            old(strm).io_ok(),
            s.mode == Mode::Running ==> strm.avail_in == 0 || strm.avail_out == 0,
            progress_in == (strm.avail_in < old(strm).avail_in),
            progress_out == (strm.next_out > old(strm).next_out),
            sent(s) == sent(old(s)) + strm.output@.subrange(old(strm).next_out as int, strm.next_out as int),
        decreases
            2 * strm.avail_in + (if s.state == CompressState::Output { 0int } else { 1int }),
            (if s.mode != Mode::Running && s.avail_in_expect == 0 && !(s.state_in_ch < 256 && s.state_in_len > 0) { 0int } else { 1int }),
    {
        let ghost head_in = strm.avail_in;
        let ghost head_state = s.state;
        let ghost head_e2 = s.mode != Mode::Running && s.avail_in_expect == 0 && !(s.state_in_ch < 256 && s.state_in_len > 0);
        if s.state == CompressState::Output {
            let ghost st0 = *strm;
            let ghost s0 = *s;
            let po = copy_output_until_stop(strm, s);
            proof {
                let st1 = *strm;
                lemma_sent_step(&s0, s);
                assert(st1.output@.subrange(st0.next_out as int, st1.next_out as int)
                    =~= s0.writer.out@.subrange(s0.state_out_pos as int, s.state_out_pos as int));
                assert(st1.output@.subrange(0, st0.next_out as int) =~= st0.output@.subrange(0, st0.next_out as int));
                assert(st1.output@.subrange(st1.next_out as int, st1.output@.len() as int)
                    =~= st0.output@.subrange(st1.next_out as int, st0.output@.len() as int));
                lemma_out_frame_trans(old(strm), &st0, &st1);
                lemma_sent_extend(sent(old(s)), sent(&s0), sent(s), st0.output@, st1.output@,
                    old(strm).next_out as int, st0.next_out as int, st1.next_out as int);
            }
            progress_out = progress_out || po;
            if s.state_out_pos < s.writer.out.len() {
                break;
            }
            if s.mode == Mode::Finishing && s.avail_in_expect == 0 && isempty_rl(s) {
                break;
            }
            prepare_new_block(s);
            s.state = CompressState::Input;
            if s.mode == Mode::Flushing && s.avail_in_expect == 0 && isempty_rl(s) {
                break;
            }
        }
        let ghost mid_nblock = s.nblock;
        let ghost s_mid = *s;
        assert(sent(&s_mid) == s_mid.produced@) by {
            assert(s_mid.produced@.subrange(0, s_mid.produced@.len() as int) =~= s_mid.produced@);
        }
        let pi = copy_input_until_stop(strm, s);
        progress_in = progress_in || pi;
        if s.mode != Mode::Running && s.avail_in_expect == 0 {
            flush_rl(s);
            let is_last = s.mode == Mode::Finishing;
            let ghost p0 = s.produced@;
            BZ2_compressBlock(s, is_last);
            s.produced = Ghost(p0 + s.writer.out@);
            proof { lemma_block_produced(p0, s.writer.out@); }
            s.state = CompressState::Output;
            assert(sent(s) == sent(&s_mid));
        } else if s.nblock >= s.nblockMAX {
            let ghost p0 = s.produced@;
            BZ2_compressBlock(s, false);
            s.produced = Ghost(p0 + s.writer.out@);
            proof { lemma_block_produced(p0, s.writer.out@); }
            s.state = CompressState::Output;
            assert(sent(s) == sent(&s_mid));
        } else if strm.avail_in == 0 {
            assert(sent(s) == sent(&s_mid)) by {
                assert(s.produced@.subrange(0, s.produced@.len() as int) =~= s.produced@);
            }
            break;
        }
        proof {
            if head_state == CompressState::Output && strm.avail_in == head_in {
                assert(!pi);
                assert(mid_nblock == 0);
                assert(!head_e2);
                assert(s.mode != Mode::Running && s.avail_in_expect == 0 && !(s.state_in_ch < 256 && s.state_in_len > 0));
            }
        }
    }
    progress_in || progress_out
}

} // verus!

verus! {

/// A call that the compressor refuses at once: it is idle, the action is unknown, or a
/// flush or finish under way is not continued as it began.
pub open spec fn refused_call(s: &EState, strm: &bz_stream, action: i32) -> bool {
    ||| s.mode == Mode::Idle
    ||| s.mode == Mode::Running && action != BZ_RUN && action != BZ_FLUSH && action != BZ_FINISH
    ||| s.mode == Mode::Flushing && (action != BZ_FLUSH || s.avail_in_expect != strm.avail_in)
    ||| s.mode == Mode::Finishing && (action != BZ_FINISH || s.avail_in_expect != strm.avail_in)
}

/// The current block's bytes are the last ones produced.
pub open spec fn emitted_ok(s: &EState) -> bool {
    &&& s.writer.out@.len() <= s.produced@.len()
    &&& s.produced@.subrange(s.produced@.len() - s.writer.out@.len(), s.produced@.len() as int) == s.writer.out@
}

/// The bytes handed out so far: all that was produced but what of the current block is
/// still to be handed out.
pub open spec fn sent(s: &EState) -> Seq<u8> {
    s.produced@.subrange(0, s.produced@.len() - (s.writer.out@.len() - s.state_out_pos))
}

proof fn lemma_block_produced(p0: Seq<u8>, w: Seq<u8>)
    ensures
        (p0 + w).subrange(p0.len() as int, (p0 + w).len() as int) == w,
        (p0 + w).subrange(0, (p0 + w).len() - w.len()) == p0,
{
    assert((p0 + w).subrange(p0.len() as int, (p0 + w).len() as int) =~= w);
    assert((p0 + w).subrange(0, (p0 + w).len() - w.len()) =~= p0);
}

/// Two stretches of handed-out bytes, one after the other, are one stretch.
proof fn lemma_sent_extend(s0: Seq<u8>, s1: Seq<u8>, s2: Seq<u8>, o1: Seq<u8>, o2: Seq<u8>, a: int, b: int, c: int)
    requires
        0 <= a <= b <= c <= o2.len(),
        b <= o1.len(),
        s1 == s0 + o1.subrange(a, b),
        s2 == s1 + o2.subrange(b, c),
        o2.subrange(0, b) == o1.subrange(0, b),
    ensures
        s2 == s0 + o2.subrange(a, c),
{
    assert forall|k: int| a <= k < b implies o2[k] == o1[k] by {
        assert(o2.subrange(0, b)[k] == o2[k]);
        assert(o1.subrange(0, b)[k] == o1[k]);
    }
    assert(s2 =~= s0 + o2.subrange(a, c));
}

/// Handing out `writer.out[p0 .. p1]` of the current block adds exactly those bytes to
/// what was sent.
proof fn lemma_sent_step(a: &EState, b: &EState)
    requires
        emitted_ok(a),
        b.produced == a.produced,
        b.writer.out@ == a.writer.out@,
        a.state_out_pos <= b.state_out_pos <= a.writer.out@.len(),
    ensures
        sent(b) == sent(a) + a.writer.out@.subrange(a.state_out_pos as int, b.state_out_pos as int),
{
    let p = a.produced@;
    let w = a.writer.out@;
    let base = p.len() - w.len();
    assert forall|k: int| a.state_out_pos <= k < b.state_out_pos implies
        #[trigger] p[base + k] == w[k] by {
        assert(p.subrange(base, p.len() as int)[k] == w[k]);
    }
    assert(sent(b) =~= sent(a) + w.subrange(a.state_out_pos as int, b.state_out_pos as int));
}

/// A fresh decompressor whose input is a stream holding no block: the stream header, the
/// end-of-stream marker and the combined CRC.
pub open spec fn empty_stream_at(s: &DState, strm: &bz_stream) -> bool {
    &&& s.state == State::BZ_X_MAGIC_1
    &&& s.bsLive == 0
    &&& strm.avail_in >= 14
    &&& header_ok(strm.input@, strm.next_in as int)
    &&& crate::decompress::eos_marker_at(strm.input@, strm.next_in + 4)
}

/// Carries out one call of `BZ2_bzCompress` on a stream's compressor.
fn compress_loop(strm: &mut bz_stream, s: &mut EState, action: i32) -> (r: i32)
    requires
        cstream_ok(old(strm), old(s)),
    ensures
        cstream_ok(final(strm), final(s)),
        final(strm).input == old(strm).input,
        final(strm).output@.len() == old(strm).output@.len(),
        old(s).mode == Mode::Idle ==> r == BZ_SEQUENCE_ERROR,
        old(s).mode == Mode::Running && action != BZ_RUN && action != BZ_FLUSH && action != BZ_FINISH ==> r == BZ_PARAM_ERROR,
        old(s).mode == Mode::Flushing && (action != BZ_FLUSH || old(s).avail_in_expect != old(strm).avail_in) ==> r == BZ_SEQUENCE_ERROR,
        old(s).mode == Mode::Finishing && (action != BZ_FINISH || old(s).avail_in_expect != old(strm).avail_in) ==> r == BZ_SEQUENCE_ERROR,
        refused_call(old(s), old(strm), action) ==> *final(s) == *old(s) && *final(strm) == *old(strm),
        r == BZ_RUN_OK || r == BZ_FLUSH_OK || r == BZ_FINISH_OK || r == BZ_STREAM_END || r == BZ_SEQUENCE_ERROR || r == BZ_PARAM_ERROR,
        r == BZ_STREAM_END ==> final(s).mode == Mode::Idle,
        r == BZ_FLUSH_OK ==> final(s).mode == Mode::Flushing,
        r == BZ_FINISH_OK ==> final(s).mode == Mode::Finishing,
        out_frame(old(strm), final(strm)),
        in_taken(old(strm), final(strm)),
        old(s).mode == Mode::Running && action == BZ_RUN ==> final(strm).avail_in == 0 || final(strm).avail_out == 0,
        old(s).mode == Mode::Running && action == BZ_RUN ==> r == BZ_RUN_OK || r == BZ_PARAM_ERROR,
        old(s).mode == Mode::Running && action == BZ_RUN ==>
            (r == BZ_RUN_OK <==> (final(strm).avail_in < old(strm).avail_in || final(strm).next_out > old(strm).next_out)),
        old(s).mode == Mode::Running && action == BZ_RUN ==> final(s).mode == Mode::Running,
        old(s).mode == Mode::Running && action == BZ_FLUSH ==> r == BZ_RUN_OK || r == BZ_FLUSH_OK || r == BZ_SEQUENCE_ERROR,
        old(s).mode == Mode::Running && action == BZ_FLUSH ==> r == BZ_RUN_OK || r == BZ_FLUSH_OK,
        (old(s).mode == Mode::Running || old(s).mode == Mode::Finishing && old(s).avail_in_expect == old(strm).avail_in)
            && action == BZ_FINISH ==> {
            &&& r == BZ_FINISH_OK || r == BZ_STREAM_END || r == BZ_SEQUENCE_ERROR
            &&& r == BZ_SEQUENCE_ERROR <==> !(final(strm).avail_in < old(strm).avail_in || final(strm).next_out > old(strm).next_out)
        },
        old(s).mode == Mode::Flushing && action == BZ_FLUSH && old(s).avail_in_expect == old(strm).avail_in
            ==> r == BZ_RUN_OK || r == BZ_FLUSH_OK,
        r == BZ_FINISH_OK || r == BZ_FLUSH_OK ==> final(s).avail_in_expect == final(strm).avail_in,
        sent(final(s)) == sent(old(s)) + final(strm).output@.subrange(old(strm).next_out as int, final(strm).next_out as int),
{
    let mut first = true;
    loop
        invariant
            cstream_ok(strm, s),
            strm.input == old(strm).input,
            strm.output@.len() == old(strm).output@.len(),
            first ==> *s == *old(s),
            *strm == *old(strm),
            !first ==> old(s).mode == Mode::Running && (action == BZ_FLUSH || action == BZ_FINISH),
            !first ==> s.avail_in_expect == strm.avail_in,
            !first && action == BZ_FLUSH ==> s.mode == Mode::Flushing,
            !first && action == BZ_FINISH ==> s.mode == Mode::Finishing,
            out_frame(old(strm), strm),
            old(strm).io_ok(),
            sent(s) == sent(old(s)),
        decreases (if first { 1int } else { 0int }),
    {
        match s.mode {
            Mode::Idle => {
                return BZ_SEQUENCE_ERROR;
            },
            Mode::Running => {
                if action == BZ_RUN {
                    let ghost st0 = *strm;
                    let progress = handle_compress(strm, s);
                    proof { lemma_out_frame_trans(old(strm), &st0, &*strm); }
                    return if progress { BZ_RUN_OK } else { BZ_PARAM_ERROR };
                } else if action == BZ_FLUSH {
                    s.avail_in_expect = strm.avail_in;
                    s.mode = Mode::Flushing;
                } else if action == BZ_FINISH {
                    s.avail_in_expect = strm.avail_in;
                    s.mode = Mode::Finishing;
                } else {
                    return BZ_PARAM_ERROR;
                }
            },
            Mode::Flushing => {
                if action != BZ_FLUSH {
                    return BZ_SEQUENCE_ERROR;
                }
                if s.avail_in_expect != strm.avail_in {
                    return BZ_SEQUENCE_ERROR;
                }
                let ghost st0 = *strm;
                handle_compress(strm, s);
                proof { lemma_out_frame_trans(old(strm), &st0, &*strm); }
                if s.avail_in_expect > 0 || !isempty_rl(s) || s.state_out_pos < s.writer.out.len() {
                    return BZ_FLUSH_OK;
                }
                s.mode = Mode::Running;
                return BZ_RUN_OK;
            },
            Mode::Finishing => {
                if action != BZ_FINISH {
                    return BZ_SEQUENCE_ERROR;
                }
                if s.avail_in_expect != strm.avail_in {
                    return BZ_SEQUENCE_ERROR;
                }
                let ghost st0 = *strm;
                let progress = handle_compress(strm, s);
                proof { lemma_out_frame_trans(old(strm), &st0, &*strm); }
                if !progress {
                    return BZ_SEQUENCE_ERROR;
                }
                if s.avail_in_expect > 0 || !isempty_rl(s) || s.state_out_pos < s.writer.out.len() {
                    return BZ_FINISH_OK;
                }
                s.mode = Mode::Idle;
                return BZ_STREAM_END;
            },
        }
        first = false;
    }
}

/// Compresses as much as the input and output space allow (`BZ2_bzCompress`). With
/// `BZ_RUN` it takes input and hands out finished blocks; with `BZ_FLUSH` it also ends the
/// current block; with `BZ_FINISH` it ends the stream. Returns `BZ_PARAM_ERROR` when the
/// stream has no compressor, the action is unknown, or a run step made no progress;
/// `BZ_SEQUENCE_ERROR` when the action does not fit the compressor's state.
pub fn BZ2_bzCompress(strm: &mut bz_stream, action: i32) -> (r: i32)
    requires
        old(strm).io_ok(),
        old(strm).cstate matches Some(s) ==> estate_ok(&*s),
    ensures
        final(strm).io_ok(),
        final(strm).cstate matches Some(s) ==> estate_ok(&*s),
        final(strm).input == old(strm).input,
        final(strm).output@.len() == old(strm).output@.len(),
        old(strm).cstate is None ==> r == BZ_PARAM_ERROR && *final(strm) == *old(strm),
        old(strm).cstate is Some <==> final(strm).cstate is Some,
        out_frame(old(strm), final(strm)),
        in_taken(old(strm), final(strm)),
        final(strm).dstate == old(strm).dstate,
        r == BZ_RUN_OK || r == BZ_FLUSH_OK || r == BZ_FINISH_OK || r == BZ_STREAM_END || r == BZ_SEQUENCE_ERROR || r == BZ_PARAM_ERROR,
        old(strm).cstate matches Some(s) ==> {
            &&& s.mode == Mode::Idle ==> r == BZ_SEQUENCE_ERROR
            &&& s.mode == Mode::Running && action != BZ_RUN && action != BZ_FLUSH && action != BZ_FINISH ==> r == BZ_PARAM_ERROR
            &&& s.mode == Mode::Flushing && (action != BZ_FLUSH || s.avail_in_expect != old(strm).avail_in) ==> r == BZ_SEQUENCE_ERROR
            &&& s.mode == Mode::Finishing && (action != BZ_FINISH || s.avail_in_expect != old(strm).avail_in) ==> r == BZ_SEQUENCE_ERROR
            &&& s.mode == Mode::Running && action == BZ_RUN ==> r == BZ_RUN_OK || r == BZ_PARAM_ERROR
            &&& s.mode == Mode::Running && action == BZ_RUN ==>
                (r == BZ_RUN_OK <==> (final(strm).avail_in < old(strm).avail_in || final(strm).next_out > old(strm).next_out))
            &&& s.mode == Mode::Running && action == BZ_RUN && old(strm).avail_in > 0 && old(strm).avail_out > 0 ==> r == BZ_RUN_OK
            &&& s.mode == Mode::Running && action == BZ_RUN ==> (final(strm).cstate matches Some(s1) && s1.mode == Mode::Running)
            &&& s.mode == Mode::Running && action == BZ_RUN ==> final(strm).avail_in == 0 || final(strm).avail_out == 0
            &&& s.mode == Mode::Running && action == BZ_FLUSH ==> r == BZ_RUN_OK || r == BZ_FLUSH_OK || r == BZ_SEQUENCE_ERROR
            &&& s.mode == Mode::Running && action == BZ_FINISH ==> r == BZ_FINISH_OK || r == BZ_STREAM_END || r == BZ_SEQUENCE_ERROR
            &&& refused_call(&*s, old(strm), action) ==> *final(strm) == *old(strm)
            &&& s.mode == Mode::Running && action == BZ_FLUSH ==> r == BZ_RUN_OK || r == BZ_FLUSH_OK
            &&& s.mode == Mode::Flushing && action == BZ_FLUSH && s.avail_in_expect == old(strm).avail_in
                ==> r == BZ_RUN_OK || r == BZ_FLUSH_OK
            &&& (s.mode == Mode::Running || s.mode == Mode::Finishing && s.avail_in_expect == old(strm).avail_in)
                && action == BZ_FINISH ==> {
                &&& r == BZ_FINISH_OK || r == BZ_STREAM_END || r == BZ_SEQUENCE_ERROR
                &&& r == BZ_SEQUENCE_ERROR <==> !(final(strm).avail_in < old(strm).avail_in || final(strm).next_out > old(strm).next_out)
            }
            &&& final(strm).cstate matches Some(s1)
                && sent(&*s1) == sent(&*s) + final(strm).output@.subrange(old(strm).next_out as int, final(strm).next_out as int)
        },
        r == BZ_STREAM_END ==> (final(strm).cstate matches Some(s1) && s1.mode == Mode::Idle),
        r == BZ_FINISH_OK ==> (final(strm).cstate matches Some(s1) && s1.mode == Mode::Finishing
            && s1.avail_in_expect == final(strm).avail_in),
        r == BZ_FLUSH_OK ==> (final(strm).cstate matches Some(s1) && s1.mode == Mode::Flushing
            && s1.avail_in_expect == final(strm).avail_in),
{
    let taken = strm.cstate.take();
    match taken {
        None => BZ_PARAM_ERROR,
        Some(b) => {
            let other = strm.dstate.take();
            let mut s: EState = *b;
            let r = compress_loop(strm, &mut s, action);
            strm.cstate = Some(Box::new(s));
            strm.dstate = other;
            r
        },
    }
}

/// Sets up a compressor on the stream (`BZ2_bzCompressInit`): blocks of
/// `blockSize100k` × 100000 bytes, with `workFactor` 0 standing for the default 30.
/// Returns `BZ_PARAM_ERROR`, leaving the stream as it was, unless `blockSize100k` is in
/// `1 ..= 9` and `workFactor` in `0 ..= 250`; `verbosity` is not checked.
pub fn BZ2_bzCompressInit(strm: &mut bz_stream, blockSize100k: i32, verbosity: i32, workFactor: i32) -> (r: i32)
    ensures
        r == BZ_OK || r == BZ_PARAM_ERROR,
        r == BZ_PARAM_ERROR <==> !(1 <= blockSize100k <= 9 && 0 <= workFactor <= 250),
        r == BZ_PARAM_ERROR ==> *final(strm) == *old(strm),
        final(strm).dstate == old(strm).dstate,
        r == BZ_OK ==> {
            &&& final(strm).cstate matches Some(s) && {
                &&& estate_ok(&*s)
                &&& sent(&*s) == Seq::<u8>::empty()
                &&& s.mode == Mode::Running
                &&& s.state == CompressState::Input
                &&& s.blockNo == 1
                &&& s.nblock == 0
                &&& s.blockSize100k == blockSize100k
                &&& s.combinedCRC == 0
                &&& s.workFactor == (if workFactor == 0 { 30 } else { workFactor })
                &&& s.block_input@ == Seq::<u8>::empty()
            }
            &&& final(strm).total_in_lo32 == 0 && final(strm).total_in_hi32 == 0
            &&& final(strm).total_out_lo32 == 0 && final(strm).total_out_hi32 == 0
            &&& final(strm).input == old(strm).input
            &&& final(strm).output == old(strm).output
            &&& final(strm).next_in == old(strm).next_in && final(strm).avail_in == old(strm).avail_in
            &&& final(strm).next_out == old(strm).next_out && final(strm).avail_out == old(strm).avail_out
        },
{
    if !(1 <= blockSize100k && blockSize100k <= 9) || !(0 <= workFactor && workFactor <= 250) {
        return BZ_PARAM_ERROR;
    }
    let wfac = if workFactor == 0 { 30 } else { workFactor };
    let n: usize = 100000 * (blockSize100k as usize);
    let mut len_rows: Vec<Vec<u8>> = Vec::new();
    let mut code_rows: Vec<Vec<i32>> = Vec::new();
    let mut rfreq_rows: Vec<Vec<i32>> = Vec::new();
    let mut t: usize = 0;
    while t < BZ_N_GROUPS
        invariant
            t <= BZ_N_GROUPS,
            len_rows@.len() == t,
            code_rows@.len() == t,
            rfreq_rows@.len() == t,
            forall|u: int| 0 <= u < t ==> (#[trigger] len_rows@[u])@.len() == BZ_MAX_ALPHA_SIZE,
            forall|u: int| 0 <= u < t ==> (#[trigger] code_rows@[u])@.len() == BZ_MAX_ALPHA_SIZE,
            forall|u: int| 0 <= u < t ==> (#[trigger] rfreq_rows@[u])@.len() == BZ_MAX_ALPHA_SIZE,
        decreases BZ_N_GROUPS - t,
    {
        len_rows.push(vec![0u8; BZ_MAX_ALPHA_SIZE]);
        code_rows.push(vec![0i32; BZ_MAX_ALPHA_SIZE]);
        rfreq_rows.push(vec![0i32; BZ_MAX_ALPHA_SIZE]);
        t = t + 1;
    }
    let mut s = EState {
        mode: Mode::Running,
        state: CompressState::Input,
        avail_in_expect: 0,
        ptr: vec![0u32; n],
        block: vec![0u8; n + BZ_N_OVERSHOOT],
        mtfv: vec![0u16; n + 2],
        eclass: vec![0u32; n],
        ftab: vec![0u32; FTAB_LEN],
        origPtr: 0,
        writer: BitWriter::new(),
        workFactor: wfac,
        state_in_ch: 256,
        state_in_len: 0,
        nblock: 0,
        nblockMAX: 100000 * blockSize100k - 19,
        state_out_pos: 0,
        nInUse: 0,
        inUse: vec![false; 256],
        unseqToSeq: vec![0u8; 256],
        blockCRC: 0,
        combinedCRC: 0,
        verbosity,
        blockNo: 0,
        blockSize100k,
        nMTF: 0,
        mtfFreq: vec![0i32; BZ_MAX_ALPHA_SIZE],
        selector: vec![0u8; BZ_MAX_SELECTORS],
        selectorMtf: vec![0u8; BZ_MAX_SELECTORS],
        len: len_rows,
        code: code_rows,
        rfreq: rfreq_rows,
        crc: CrcTable::new(),
        block_input: Ghost(Seq::empty()),
        produced: Ghost(Seq::empty()),
    };
    init_rl(&mut s);
    prepare_new_block(&mut s);
    strm.cstate = Some(Box::new(s));
    strm.total_in_lo32 = 0;
    strm.total_in_hi32 = 0;
    strm.total_out_lo32 = 0;
    strm.total_out_hi32 = 0;
    BZ_OK
}

/// Drops the stream's compressor (`BZ2_bzCompressEnd`). Returns `BZ_PARAM_ERROR` when
/// there is none.
pub fn BZ2_bzCompressEnd(strm: &mut bz_stream) -> (r: i32)
    ensures
        r == (if old(strm).cstate is Some { BZ_OK } else { BZ_PARAM_ERROR }),
        final(strm).cstate is None,
        final(strm).dstate == old(strm).dstate,
        final(strm).total_in_lo32 == old(strm).total_in_lo32 && final(strm).total_in_hi32 == old(strm).total_in_hi32,
        final(strm).total_out_lo32 == old(strm).total_out_lo32 && final(strm).total_out_hi32 == old(strm).total_out_hi32,
        final(strm).input == old(strm).input,
        final(strm).output == old(strm).output,
        final(strm).next_in == old(strm).next_in && final(strm).avail_in == old(strm).avail_in,
        final(strm).next_out == old(strm).next_out && final(strm).avail_out == old(strm).avail_out,
{
    if strm.cstate.is_none() {
        return BZ_PARAM_ERROR;
    }
    strm.cstate = None;
    BZ_OK
}

} // verus!

verus! {

/// A copy of `v[0 .. n]`.
pub(crate) fn copy_prefix(v: &Vec<u8>, n: usize) -> (r: Vec<u8>)
    requires
        n <= v@.len(),
    ensures
        r@ == v@.subrange(0, n as int),
{
    let mut r: Vec<u8> = Vec::new();
    let mut i: usize = 0;
    while i < n
        invariant
            i <= n <= v@.len(),
            r@ == v@.subrange(0, i as int),
        decreases n - i,
    {
        r.push(v[i]);
        i = i + 1;
        assert(r@ =~= v@.subrange(0, i as int));
    }
    r
}

/// Compresses `source[0 .. sourceLen]` into `dest[0 .. *destLen]` in one call
/// (`BZ2_bzBuffToBuffCompress`). On `BZ_OK`, `*destLen` becomes the size of the compressed
/// data; when it does not fit, `BZ_OUTBUFF_FULL` comes back and `*destLen` stays;
/// `BZ_PARAM_ERROR` comes back, with nothing written, for a block size, verbosity or work
/// factor out of range.
pub fn BZ2_bzBuffToBuffCompress(
    dest: &mut Vec<u8>,
    destLen: &mut u32,
    source: &Vec<u8>,
    sourceLen: u32,
    blockSize100k: i32,
    verbosity: i32,
    workFactor: i32,
) -> (r: i32)
    requires
        *old(destLen) <= old(dest)@.len(),
        sourceLen <= source@.len(),
    ensures
        final(dest)@.len() == old(dest)@.len(),
        r == BZ_OK || r == BZ_OUTBUFF_FULL || r == BZ_PARAM_ERROR || r == BZ_SEQUENCE_ERROR,
        r == BZ_PARAM_ERROR <==> !(1 <= blockSize100k <= 9 && 0 <= verbosity <= 4 && 0 <= workFactor <= 250),
        r == BZ_PARAM_ERROR ==> *final(dest) == *old(dest),
        r == BZ_OK ==> *final(destLen) <= *old(destLen),
        r == BZ_OK ==> final(dest)@.subrange(*final(destLen) as int, final(dest)@.len() as int)
            == old(dest)@.subrange(*final(destLen) as int, old(dest)@.len() as int),
        r != BZ_OK ==> *final(destLen) == *old(destLen),
{
    if !(0 <= verbosity && verbosity <= 4) {
        return BZ_PARAM_ERROR;
    }
    let mut strm = bz_stream::zeroed();
    let ri = BZ2_bzCompressInit(&mut strm, blockSize100k, verbosity, workFactor);
    if ri != BZ_OK {
        return ri;
    }
    strm.input = copy_prefix(source, sourceLen as usize);
    strm.next_in = 0;
    strm.avail_in = sourceLen;
    std::mem::swap(&mut strm.output, dest);
    strm.next_out = 0;
    strm.avail_out = *destLen;
    let r = BZ2_bzCompress(&mut strm, BZ_FINISH);
    std::mem::swap(&mut strm.output, dest);
    if r == BZ_FINISH_OK {
        BZ2_bzCompressEnd(&mut strm);
        BZ_OUTBUFF_FULL
    } else if r == BZ_STREAM_END {
        *destLen = (*destLen).wrapping_sub(strm.avail_out);
        BZ2_bzCompressEnd(&mut strm);
        BZ_OK
    } else {
        BZ2_bzCompressEnd(&mut strm);
        r
    }
}

} // verus!

verus! {

/// `b` is `a` after input bytes were taken from `a.next_in` on: the buffer is the same,
/// and the position moved forward by as much as the input left shrank.
pub open spec fn in_taken(a: &bz_stream, b: &bz_stream) -> bool {
    &&& in_counted(a, b)
    &&& b.input == a.input
    &&& b.avail_in <= a.avail_in
    &&& b.next_in == a.next_in + (a.avail_in - b.avail_in)
}

/// `b` is the byte value whose share of the sorted block, starting at `cftab[b]`, holds
/// position `indx` (the last one with `cftab[b] <= indx`).
pub open spec fn f_index_ok(cftab: Seq<i32>, indx: int, b: int) -> bool {
    &&& 0 <= b < 256
    &&& b == 0 || cftab[b] <= indx
    &&& b == 255 || indx < cftab[b + 1]
}

/// Taking a byte at position `s.tPos` gives `b` and leads on to position `pos`: in the small
/// layout the byte comes from where the position lies in the sorted block and the position
/// from `ll16`/`ll4`; otherwise both come from `tt`.
pub open spec fn fetch_ok(s: &DState, b: u8, pos: u32) -> bool {
    if s.smallDecompress {
        f_index_ok(s.cftab@, s.tPos as int, b as int) && pos == ll_entry(s.ll16@, s.ll4@, s.tPos as int)
    } else {
        b == (s.tt@[s.tPos as int] & 0xff) as u8 && pos == s.tt@[s.tPos as int] >> 8
    }
}

/// The randomisation counters after one more byte: a new count from the table when the old
/// one has run out, then one less.
pub open spec fn rand_next(n: i32, t: i32) -> (i32, i32) {
    let n1: int = if n == 0 { crate::randtable::rnums()[t as int] as int } else { n as int };
    let t1: int = if n == 0 { if t + 1 == 512 { 0 } else { t + 1 } } else { t as int };
    ((if n1 - 1 < i32::MIN { n1 - 1 + 0x1_0000_0000 } else { n1 - 1 }) as i32, t1 as i32)
}

/// Takes the next byte of the block in text order, following the inverse transform
/// links (`BZ_GET_FAST`). Returns `None` for a link out of range, which only a corrupt
/// stream produces.
fn get_fast(s: &mut DState) -> (r: Option<u8>)
    requires
        old(s).wf(),
        old(s).state == State::BZ_X_OUTPUT,
        !old(s).smallDecompress,
    ensures
        final(s).wf(),
        *final(s) == (DState { tPos: final(s).tPos, ..*old(s) }),
        r is None <==> old(s).tPos >= block_cap(old(s).blockSize100k as int),
        r is None ==> *final(s) == *old(s),
        r matches Some(b) ==> fetch_ok(old(s), b, final(s).tPos),
{
    let cap: u32 = 100000u32 * (s.blockSize100k as u32);
    if s.tPos >= cap {
        return None;
    }
    let tp = s.tt[s.tPos as usize];
    s.tPos = tp >> 8u32;
    Some((tp & 0xff) as u8)
}

/// The byte value whose share of the sorted block holds position `indx`, `cftab[c]` being
/// where the bytes `c` start: a binary search for the last `c` with `cftab[c] <= indx`.
pub(crate) fn index_into_f(indx: i32, cftab: &Vec<i32>) -> (r: i32)
    requires
        cftab@.len() == 257,
    ensures
        0 <= r < 256,
        r == 0 || cftab@[r as int] <= indx,
        r == 255 || indx < cftab@[r + 1],
        cftab@[0] <= indx < cftab@[256] ==> cftab@[r as int] <= indx < cftab@[r + 1],
{
    let mut nb: i32 = 0;
    let mut na: i32 = 256;
    loop
        invariant_except_break
            nb + 2 <= na,
        invariant
            0 <= nb < na <= 256,
            cftab@.len() == 257,
            nb == 0 || cftab@[nb as int] <= indx,
            na == 256 || indx < cftab@[na as int],
        ensures
            na == nb + 1,
        decreases na - nb,
    {
        let mid = (nb + na) / 2;
        if indx >= cftab[mid as usize] {
            nb = mid;
        } else {
            na = mid;
        }
        if na - nb == 1 {
            break;
        }
    }
    nb
}

/// Takes the next byte of the block in text order from the small layout: the byte is the
/// one whose share of the sorted block holds the current position, and the entry there
/// leads on (`BZ_GET_SMALL`). Returns `None` for a position out of range, which only a
/// corrupt stream produces.
fn get_small(s: &mut DState) -> (r: Option<u8>)
    requires
        old(s).wf(),
        old(s).state == State::BZ_X_OUTPUT,
        old(s).smallDecompress,
    ensures
        final(s).wf(),
        *final(s) == (DState { tPos: final(s).tPos, ..*old(s) }),
        r is None <==> old(s).tPos >= block_cap(old(s).blockSize100k as int),
        r is None ==> *final(s) == *old(s),
        r matches Some(b) ==> fetch_ok(old(s), b, final(s).tPos),
{
    let cap: u32 = 100000u32 * (s.blockSize100k as u32);
    if s.tPos >= cap {
        return None;
    }
    let c = index_into_f(s.tPos as i32, &s.cftab);
    s.tPos = get_ll(&s.ll16, &s.ll4, s.tPos);
    Some(c as u8)
}

proof fn lemma_xor_twice(k: u8, f: u8)
    ensures
        (k ^ f) ^ f == k,
        k ^ 0u8 == k,
{
    assert((k ^ f) ^ f == k && k ^ 0u8 == k) by (bit_vector);
}

/// Moves the randomisation on by one byte; returns whether that byte was flipped
/// (`BZ_RAND_UPD_MASK`, `BZ_RAND_MASK`).
fn rand_step(s: &mut DState) -> (flip: u8)
    requires
        old(s).wf(),
        old(s).state == State::BZ_X_OUTPUT,
        old(s).blockRandomised,
    ensures
        final(s).wf(),
        *final(s) == (DState { rNToGo: final(s).rNToGo, rTPos: final(s).rTPos, ..*old(s) }),
        (final(s).rNToGo, final(s).rTPos) == rand_next(old(s).rNToGo, old(s).rTPos),
        flip == (if final(s).rNToGo == 1 { 1u8 } else { 0u8 }),
{
    if s.rNToGo == 0 {
        s.rNToGo = crate::randtable::rand_num(s.rTPos as usize);
        s.rTPos = s.rTPos + 1;
        if s.rTPos == 512 {
            s.rTPos = 0;
        }
    }
    s.rNToGo = s.rNToGo.wrapping_sub(1);
    if s.rNToGo == 1 { 1 } else { 0 }
}

/// Takes the next byte of the block, undoing the randomisation if the block was
/// randomised; `None` for a corrupt stream.
pub(crate) fn next_byte(s: &mut DState) -> (r: Option<u8>)
    requires
        old(s).wf(),
        old(s).state == State::BZ_X_OUTPUT,
    ensures
        final(s).wf(),
        *final(s) == (DState { tPos: final(s).tPos, rNToGo: final(s).rNToGo, rTPos: final(s).rTPos, ..*old(s) }),
        r is None <==> old(s).tPos >= block_cap(old(s).blockSize100k as int),
        r is None ==> *final(s) == *old(s),
        r is Some && old(s).blockRandomised ==> (final(s).rNToGo, final(s).rTPos) == rand_next(old(s).rNToGo, old(s).rTPos),
        r is Some && !old(s).blockRandomised ==> final(s).rNToGo == old(s).rNToGo && final(s).rTPos == old(s).rTPos,
        r matches Some(v) ==> fetch_ok(old(s),
            v ^ (if old(s).blockRandomised && final(s).rNToGo == 1 { 1u8 } else { 0u8 }), final(s).tPos),
{
    let got = if s.smallDecompress { get_small(s) } else { get_fast(s) };
    match got {
        None => None,
        Some(k) => {
            if s.blockRandomised {
                let f = rand_step(s);
                let v = k ^ f;
                proof { lemma_xor_twice(k, f); }
                Some(v)
            } else {
                proof { lemma_xor_twice(k, 0u8); }
                Some(k)
            }
        },
    }
}

/// Hands out the decoded block, expanding its runs: four equal bytes are followed by a
/// count of further copies. Serves both layouts of the block (`next_byte`). Stops when the
/// output space is used up or the block is out; returns `true` for a corrupt stream.
fn un_rle_obuf_to_output(strm: &mut bz_stream, s: &mut DState) -> (corrupt: bool)
    requires
        old(strm).io_ok(),
        old(s).wf(),
        old(s).state == State::BZ_X_OUTPUT,
    ensures
        final(strm).io_ok(),
        final(s).wf(),
        final(s).state == State::BZ_X_OUTPUT,
        final(s).save_nblock == old(s).save_nblock,
        final(s).storedBlockCRC == old(s).storedBlockCRC,
        final(s).storedCombinedCRC == old(s).storedCombinedCRC,
        final(s).calculatedCombinedCRC == old(s).calculatedCombinedCRC,
        final(s).smallDecompress == old(s).smallDecompress,
        final(s).bsLive == old(s).bsLive,
        final(s).accepted == old(s).accepted,
        final(s).handed_out@ == old(s).handed_out@ + final(strm).output@.subrange(old(strm).next_out as int, final(strm).next_out as int),
        out_frame(old(strm), final(strm)),
        in_taken(old(strm), final(strm)) && final(strm).avail_in == old(strm).avail_in,
        !corrupt ==> final(strm).avail_out == 0
            || (final(s).nblock_used == final(s).save_nblock + 1 && final(s).state_out_len == 0),
        corrupt ==> final(s).nblock_used > final(s).save_nblock + 1
            || final(s).tPos >= block_cap(final(s).blockSize100k as int),
{
    loop
        invariant
            strm.io_ok(),
            s.wf(),
            s.state == State::BZ_X_OUTPUT,
            s.save_nblock == old(s).save_nblock,
            s.storedBlockCRC == old(s).storedBlockCRC,
            s.storedCombinedCRC == old(s).storedCombinedCRC,
            s.calculatedCombinedCRC == old(s).calculatedCombinedCRC,
            s.smallDecompress == old(s).smallDecompress,
            s.bsLive == old(s).bsLive,
            s.accepted == old(s).accepted,
            s.handed_out@ == old(s).handed_out@ + strm.output@.subrange(old(strm).next_out as int, strm.next_out as int),
            out_frame(old(strm), strm),
            old(strm).io_ok(),
            strm.input == old(strm).input,
            strm.next_in == old(strm).next_in,
            strm.avail_in == old(strm).avail_in,
            strm.total_in_lo32 == old(strm).total_in_lo32,
            strm.total_in_hi32 == old(strm).total_in_hi32,
        decreases s.save_nblock + 6 - s.nblock_used,
    {
        let ghost nu0 = s.nblock_used;
        loop
            invariant
                s.nblock_used == nu0,
                strm.io_ok(),
                s.wf(),
                s.state == State::BZ_X_OUTPUT,
                s.save_nblock == old(s).save_nblock,
                s.storedBlockCRC == old(s).storedBlockCRC,
                s.storedCombinedCRC == old(s).storedCombinedCRC,
                s.calculatedCombinedCRC == old(s).calculatedCombinedCRC,
                s.smallDecompress == old(s).smallDecompress,
                s.bsLive == old(s).bsLive,
                s.accepted == old(s).accepted,
                s.handed_out@ == old(s).handed_out@ + strm.output@.subrange(old(strm).next_out as int, strm.next_out as int),
                out_frame(old(strm), strm),
                old(strm).io_ok(),
                strm.input == old(strm).input,
                strm.next_in == old(strm).next_in,
                strm.avail_in == old(strm).avail_in,
                strm.total_in_lo32 == old(strm).total_in_lo32,
                strm.total_in_hi32 == old(strm).total_in_hi32,
            ensures
                strm.io_ok(),
                s.wf(),
                s.state == State::BZ_X_OUTPUT,
                s.save_nblock == old(s).save_nblock,
                s.storedBlockCRC == old(s).storedBlockCRC,
                s.storedCombinedCRC == old(s).storedCombinedCRC,
                s.calculatedCombinedCRC == old(s).calculatedCombinedCRC,
                s.smallDecompress == old(s).smallDecompress,
                s.bsLive == old(s).bsLive,
                s.accepted == old(s).accepted,
                s.handed_out@ == old(s).handed_out@ + strm.output@.subrange(old(strm).next_out as int, strm.next_out as int),
                out_frame(old(strm), strm),
                strm.input == old(strm).input,
                strm.next_in == old(strm).next_in,
                strm.avail_in == old(strm).avail_in,
                strm.total_in_lo32 == old(strm).total_in_lo32,
                strm.total_in_hi32 == old(strm).total_in_hi32,
                strm.avail_out == 0 || s.state_out_len == 0,
                s.nblock_used == nu0,
            decreases s.state_out_len,
        {
            if strm.avail_out == 0 {
                break;
            }
            if s.state_out_len == 0 {
                break;
            }
            let ghost st0 = *strm;
            let ghost bo0 = s.block_out@;
            let ghost h0 = s.handed_out@;
            let olen = strm.output.len();
            strm.output.set(strm.next_out, s.state_out_ch);
            s.calculatedBlockCRC = s.crc.update(s.calculatedBlockCRC, s.state_out_ch);
            s.block_out = Ghost(s.block_out@.push(s.state_out_ch));
            s.handed_out = Ghost(s.handed_out@.push(s.state_out_ch));
            s.state_out_len = s.state_out_len - 1;
            strm.next_out = strm.next_out + 1;
            strm.avail_out = strm.avail_out - 1;
            bump(&mut strm.total_out_lo32, &mut strm.total_out_hi32);
            proof {
                assert(s.block_out@.drop_last() =~= bo0);
                assert(joined(s.accepted@) + s.block_out@ =~= (joined(s.accepted@) + bo0).push(s.state_out_ch));
                assert(strm.output@.subrange(old(strm).next_out as int, strm.next_out as int)
                    =~= st0.output@.subrange(old(strm).next_out as int, st0.next_out as int).push(s.state_out_ch));
                let st1 = *strm;
                assert(st1.output@.subrange(0, st0.next_out as int) =~= st0.output@.subrange(0, st0.next_out as int));
                assert(st1.output@.subrange(st1.next_out as int, st1.output@.len() as int)
                    =~= st0.output@.subrange(st1.next_out as int, st0.output@.len() as int));
                lemma_out_frame_trans(old(strm), &st0, &st1);
            }
        }
        if strm.avail_out == 0 {
            return false;
        }
        if s.nblock_used == s.save_nblock + 1 {
            return false;
        }
        if s.nblock_used > s.save_nblock + 1 {
            return true;
        }
        s.state_out_ch = s.k0 as u8;
        s.state_out_len = 1;
        let k1 = match next_byte(s) {
            None => {
                return true;
            },
            Some(k) => k,
        };
        s.nblock_used = s.nblock_used + 1;
        if s.nblock_used == s.save_nblock + 1 {
            continue;
        }
        if k1 as i32 != s.k0 {
            s.k0 = k1 as i32;
            continue;
        }
        s.state_out_len = 2;
        let k1 = match next_byte(s) {
            None => {
                return true;
            },
            Some(k) => k,
        };
        s.nblock_used = s.nblock_used + 1;
        if s.nblock_used == s.save_nblock + 1 {
            continue;
        }
        if k1 as i32 != s.k0 {
            s.k0 = k1 as i32;
            continue;
        }
        s.state_out_len = 3;
        let k1 = match next_byte(s) {
            None => {
                return true;
            },
            Some(k) => k,
        };
        s.nblock_used = s.nblock_used + 1;
        if s.nblock_used == s.save_nblock + 1 {
            continue;
        }
        if k1 as i32 != s.k0 {
            s.k0 = k1 as i32;
            continue;
        }
        let k1 = match next_byte(s) {
            None => {
                return true;
            },
            Some(k) => k,
        };
        s.nblock_used = s.nblock_used + 1;
        s.state_out_len = k1 as i32 + 4;
        let k2 = match next_byte(s) {
            None => {
                return true;
            },
            Some(k) => k,
        };
        s.k0 = k2 as i32;
        s.nblock_used = s.nblock_used + 1;
    }
}

} // verus!

verus! {

/// Carries out one call of `BZ2_bzDecompress` on a stream's decompressor.
#[verifier::rlimit(40)]
fn decompress_loop(strm: &mut bz_stream, s: &mut DState) -> (r: i32)
    requires
        old(strm).io_ok(),
        old(s).wf(),
    ensures
        final(strm).io_ok(),
        final(s).wf(),
        out_frame(old(strm), final(strm)),
        in_taken(old(strm), final(strm)),
        final(s).smallDecompress == old(s).smallDecompress,
        old(s).state == State::BZ_X_IDLE ==> r == BZ_SEQUENCE_ERROR && *final(s) == *old(s) && *final(strm) == *old(strm),
        old(s).state != State::BZ_X_IDLE ==> r != BZ_SEQUENCE_ERROR,
        r == BZ_OK || r == BZ_STREAM_END || r == BZ_SEQUENCE_ERROR || r == BZ_DATA_ERROR
            || r == BZ_DATA_ERROR_MAGIC,
        r == BZ_STREAM_END ==> final(s).state == State::BZ_X_IDLE,
        r == BZ_OK ==> final(strm).avail_out == 0 || final(strm).avail_in == 0,
        final(s).handed_out@ == old(s).handed_out@ + final(strm).output@.subrange(old(strm).next_out as int, final(strm).next_out as int),
        old(s).accepted@.len() <= final(s).accepted@.len(),
        final(s).accepted@.subrange(0, old(s).accepted@.len() as int) == old(s).accepted@,
        r == BZ_STREAM_END ==> final(s).storedCombinedCRC == combined_crc(final(s).accepted@),
        !in_stream_header(old(s).state) ==> r != BZ_DATA_ERROR_MAGIC,
        old(s).state == State::BZ_X_MAGIC_1 && old(s).bsLive == 0 && old(strm).avail_in >= 4 ==>
            (r == BZ_DATA_ERROR_MAGIC <==> !header_ok(old(strm).input@, old(strm).next_in as int)),
        empty_stream_at(old(s), old(strm)) ==> {
            &&& r == (if crate::decompress::crc_acc(old(strm).input@, old(strm).next_in + 10, 4) == old(s).calculatedCombinedCRC {
                    BZ_STREAM_END } else { BZ_DATA_ERROR })
            &&& final(strm).next_in == old(strm).next_in + 14
            &&& final(strm).next_out == old(strm).next_out
        },
{
    assert(s.accepted@.subrange(0, s.accepted@.len() as int) =~= s.accepted@);
    let ghost fresh = old(s).state == State::BZ_X_MAGIC_1 && old(s).bsLive == 0 && old(strm).avail_in >= 4;
    let ghost es = empty_stream_at(old(s), old(strm));
    loop
        invariant
            es == empty_stream_at(old(s), old(strm)),
            es ==> *s == *old(s) && *strm == *old(strm),
            fresh == (old(s).state == State::BZ_X_MAGIC_1 && old(s).bsLive == 0 && old(strm).avail_in >= 4),
            !in_stream_header(old(s).state) ==> !in_stream_header(s.state),
            in_stream_header(s.state) ==> s.state == old(s).state && s.bsLive == old(s).bsLive
                && strm.next_in == old(strm).next_in && strm.avail_in == old(strm).avail_in,
            fresh && !in_stream_header(s.state) ==> header_ok(old(strm).input@, old(strm).next_in as int),
            strm.io_ok(),
            s.wf(),
            out_frame(old(strm), strm),
            in_taken(old(strm), strm),
            old(strm).io_ok(),
            s.smallDecompress == old(s).smallDecompress,
            old(s).state == State::BZ_X_IDLE ==> s.state == State::BZ_X_IDLE && *s == *old(s) && *strm == *old(strm),
            old(s).state != State::BZ_X_IDLE ==> s.state != State::BZ_X_IDLE,
            s.handed_out@ == old(s).handed_out@ + strm.output@.subrange(old(strm).next_out as int, strm.next_out as int),
            old(s).accepted@.len() <= s.accepted@.len(),
            s.accepted@.subrange(0, old(s).accepted@.len() as int) == old(s).accepted@,
        decreases bits_left(strm, s),
    {
        if s.state == State::BZ_X_IDLE {
            return BZ_SEQUENCE_ERROR;
        }
        let ghost b0 = bits_left(strm, s);
        if s.state == State::BZ_X_OUTPUT {
            let ghost sb = *strm;
            let ghost hb = s.handed_out@;
            let corrupt = un_rle_obuf_to_output(strm, s);
            proof {
                lemma_written_concat(old(strm), &sb, &*strm);
                lemma_out_frame_trans(old(strm), &sb, &*strm);
                assert(s.handed_out@ =~= old(s).handed_out@ + strm.output@.subrange(old(strm).next_out as int, strm.next_out as int));
            }
            if corrupt {
                return BZ_DATA_ERROR;
            }
            if s.nblock_used == s.save_nblock + 1 && s.state_out_len == 0 {
                // The block is out: its checksum decides whether decoding goes on.
                let block_sum = !s.calculatedBlockCRC;
                if block_sum != s.storedBlockCRC {
                    return BZ_DATA_ERROR;
                }
                let ghost acc0 = s.accepted@;
                let ghost entry = (s.block_out@, s.storedBlockCRC);
                s.calculatedBlockCRC = block_sum;
                s.calculatedCombinedCRC = (s.calculatedCombinedCRC << 1u32) | (s.calculatedCombinedCRC >> 31u32);
                s.calculatedCombinedCRC = s.calculatedCombinedCRC ^ s.calculatedBlockCRC;
                s.accepted = Ghost(s.accepted@.push(entry));
                s.block_out = Ghost(Seq::empty());
                s.state = State::BZ_X_BLKHDR_1;
                proof {
                    assert(s.accepted@.drop_last() =~= acc0);
                    assert(joined(s.accepted@) + s.block_out@ =~= joined(acc0) + entry.0);
                    assert(s.accepted@.subrange(0, old(s).accepted@.len() as int)
                        =~= acc0.subrange(0, old(s).accepted@.len() as int));
                }
            } else {
                return BZ_OK;
            }
        }
        assert(bits_left(strm, s) == b0);
        let ghost st0 = *strm;
        let ghost s0 = *s;
        let r = BZ2_decompress(strm, s);
        proof {
            if fresh && in_stream_header(s0.state) {
                assert(st0.input == old(strm).input);
                assert(s0.state == State::BZ_X_MAGIC_1 && s0.bsLive == 0 && st0.avail_in >= 4);
                assert(r == BZ_DATA_ERROR_MAGIC <==> !header_ok(old(strm).input@, old(strm).next_in as int));
            }
            assert(strm.output == st0.output);
            assert(out_frame(&st0, &*strm));
            lemma_out_frame_trans(old(strm), &st0, &*strm);
        }
        if r == BZ_STREAM_END {
            if s.calculatedCombinedCRC != s.storedCombinedCRC {
                return BZ_DATA_ERROR;
            }
            return BZ_STREAM_END;
        } else if s.state != State::BZ_X_OUTPUT {
            return r;
        }
    }
}

/// Decompresses as much as the input and output space allow (`BZ2_bzDecompress`).
/// Returns `BZ_STREAM_END` once the stream's end has been reached and all of its bytes
/// handed out; `BZ_OK` when input or output space ran out first; `BZ_PARAM_ERROR` when the
/// stream has no decompressor; `BZ_SEQUENCE_ERROR` after the end of the stream;
/// `BZ_DATA_ERROR_MAGIC` for a stream without the bzip2 header and `BZ_DATA_ERROR` for a
/// corrupt one.
pub fn BZ2_bzDecompress(strm: &mut bz_stream) -> (r: i32)
    requires
        old(strm).io_ok(),
        old(strm).dstate matches Some(s) ==> s.wf(),
    ensures
        final(strm).io_ok(),
        final(strm).dstate matches Some(s) ==> s.wf(),
        old(strm).dstate is Some <==> final(strm).dstate is Some,
        out_frame(old(strm), final(strm)),
        in_taken(old(strm), final(strm)),
        old(strm).dstate is None ==> r == BZ_PARAM_ERROR && *final(strm) == *old(strm),
        old(strm).dstate is Some ==> r != BZ_PARAM_ERROR,
        old(strm).dstate matches Some(s) && s.state == State::BZ_X_IDLE ==> r == BZ_SEQUENCE_ERROR && *final(strm) == *old(strm),
        old(strm).dstate matches Some(s) && s.state != State::BZ_X_IDLE ==> r != BZ_SEQUENCE_ERROR,
        r == BZ_OK || r == BZ_STREAM_END || r == BZ_PARAM_ERROR || r == BZ_SEQUENCE_ERROR
            || r == BZ_DATA_ERROR || r == BZ_DATA_ERROR_MAGIC,
        r == BZ_OK ==> final(strm).avail_out == 0 || final(strm).avail_in == 0,
        final(strm).cstate == old(strm).cstate,
        old(strm).dstate matches Some(s0) ==> final(strm).dstate matches Some(s1) && {
            &&& s1.handed_out@ == s0.handed_out@ + final(strm).output@.subrange(old(strm).next_out as int, final(strm).next_out as int)
            &&& s0.accepted@.len() <= s1.accepted@.len()
            &&& s1.accepted@.subrange(0, s0.accepted@.len() as int) == s0.accepted@
            &&& r == BZ_STREAM_END ==> s1.storedCombinedCRC == combined_crc(s1.accepted@)
            &&& r == BZ_STREAM_END ==> s1.state == State::BZ_X_IDLE
            &&& !in_stream_header(s0.state) ==> r != BZ_DATA_ERROR_MAGIC
            &&& s0.state == State::BZ_X_MAGIC_1 && s0.bsLive == 0 && old(strm).avail_in >= 4 ==>
                (r == BZ_DATA_ERROR_MAGIC <==> !header_ok(old(strm).input@, old(strm).next_in as int))
            &&& empty_stream_at(&*s0, old(strm)) ==> {
                &&& r == (if crate::decompress::crc_acc(old(strm).input@, old(strm).next_in + 10, 4) == s0.calculatedCombinedCRC {
                        BZ_STREAM_END } else { BZ_DATA_ERROR })
                &&& final(strm).next_in == old(strm).next_in + 14
                &&& final(strm).next_out == old(strm).next_out
            }
        },
{
    let taken = strm.dstate.take();
    match taken {
        None => BZ_PARAM_ERROR,
        Some(b) => {
            let other = strm.cstate.take();
            let mut s: DState = *b;
            let r = decompress_loop(strm, &mut s);
            strm.dstate = Some(Box::new(s));
            strm.cstate = other;
            r
        },
    }
}

/// Sets up a decompressor on the stream (`BZ2_bzDecompressInit`). Returns
/// `BZ_PARAM_ERROR`, leaving the stream as it was, unless `small` is 0 or 1 and
/// `verbosity` is in `0 ..= 4`.
pub fn BZ2_bzDecompressInit(strm: &mut bz_stream, verbosity: i32, small: i32) -> (r: i32)
    ensures
        r == BZ_OK || r == BZ_PARAM_ERROR,
        r == BZ_PARAM_ERROR <==> !((small == 0 || small == 1) && 0 <= verbosity <= 4),
        r == BZ_PARAM_ERROR ==> *final(strm) == *old(strm),
        final(strm).cstate == old(strm).cstate,
        r == BZ_OK ==> {
            &&& final(strm).dstate matches Some(s) && {
                &&& s.wf()
                &&& s.state == State::BZ_X_MAGIC_1
                &&& s.smallDecompress == (small == 1)
                &&& s.calculatedCombinedCRC == 0
                &&& s.handed_out@.len() == 0
                &&& s.accepted@.len() == 0
                &&& s.bsLive == 0
            }
            &&& final(strm).total_in_lo32 == 0 && final(strm).total_in_hi32 == 0
            &&& final(strm).total_out_lo32 == 0 && final(strm).total_out_hi32 == 0
            &&& final(strm).input == old(strm).input
            &&& final(strm).output == old(strm).output
            &&& final(strm).next_in == old(strm).next_in && final(strm).avail_in == old(strm).avail_in
            &&& final(strm).next_out == old(strm).next_out && final(strm).avail_out == old(strm).avail_out
        },
{
    if !(small == 0 || small == 1) {
        return BZ_PARAM_ERROR;
    }
    if !(0 <= verbosity && verbosity <= 4) {
        return BZ_PARAM_ERROR;
    }
    let mut len_rows: Vec<Vec<u8>> = Vec::new();
    let mut limit_rows: Vec<Vec<i32>> = Vec::new();
    let mut base_rows: Vec<Vec<i32>> = Vec::new();
    let mut perm_rows: Vec<Vec<i32>> = Vec::new();
    let mut t: usize = 0;
    while t < 6
        invariant
            t <= 6,
            len_rows@.len() == t,
            limit_rows@.len() == t,
            base_rows@.len() == t,
            perm_rows@.len() == t,
            forall|u: int| 0 <= u < t ==> (#[trigger] len_rows@[u])@.len() == BZ_MAX_ALPHA_SIZE,
            forall|u: int| 0 <= u < t ==> (#[trigger] limit_rows@[u])@.len() == BZ_MAX_ALPHA_SIZE,
            forall|u: int| 0 <= u < t ==> (#[trigger] base_rows@[u])@.len() == BZ_MAX_ALPHA_SIZE,
            forall|u: int| 0 <= u < t ==> (#[trigger] perm_rows@[u])@.len() == BZ_MAX_ALPHA_SIZE,
        decreases 6 - t,
    {
        len_rows.push(vec![0u8; BZ_MAX_ALPHA_SIZE]);
        limit_rows.push(vec![0i32; BZ_MAX_ALPHA_SIZE]);
        base_rows.push(vec![0i32; BZ_MAX_ALPHA_SIZE]);
        perm_rows.push(vec![0i32; BZ_MAX_ALPHA_SIZE]);
        t = t + 1;
    }
    let s = DState {
        state: State::BZ_X_MAGIC_1,
        state_out_ch: 0,
        state_out_len: 0,
        blockRandomised: false,
        rNToGo: 0,
        rTPos: 0,
        bsBuff: 0,
        bsLive: 0,
        blockSize100k: 0,
        smallDecompress: small == 1,
        currBlockNo: 0,
        verbosity,
        origPtr: 0,
        tPos: 0,
        k0: 0,
        unzftab: vec![0i32; 256],
        nblock_used: 0,
        cftab: vec![0i32; 257],
        cftabCopy: vec![0i32; 257],
        tt: Vec::new(),
        ll16: Vec::new(),
        ll4: Vec::new(),
        storedBlockCRC: 0,
        storedCombinedCRC: 0,
        calculatedBlockCRC: 0,
        calculatedCombinedCRC: 0,
        nInUse: 0,
        inUse: vec![false; 256],
        inUse16: vec![false; 16],
        seqToUnseq: vec![0u8; 256],
        mtf: vec![0u8; 256],
        selector: vec![0u8; crate::decompress::BZ_MAX_SELECTORS],
        selectorMtf: vec![0u8; crate::decompress::BZ_MAX_SELECTORS],
        len: len_rows,
        limit: limit_rows,
        base: base_rows,
        perm: perm_rows,
        minLens: vec![0i32; 6],
        save_i: 0,
        save_j: 0,
        save_t: 0,
        save_alphaSize: 0,
        save_nGroups: 0,
        save_nSelectors: 0,
        save_EOB: 0,
        save_groupNo: 0,
        save_groupPos: 0,
        save_nextSym: 0,
        save_nblockMAX: 0,
        save_nblock: 0,
        save_es: 0,
        save_N: 0,
        save_curr: 0,
        save_zn: 0,
        save_zvec: 0,
        save_gSel: 0,
        save_gMinlen: 0,
        save_needGroup: false,
        crc: CrcTable::new(),
        handed_out: Ghost(Seq::empty()),
        accepted: Ghost(Seq::empty()),
        block_out: Ghost(Seq::empty()),
    };
    proof {
        assert(joined(s.accepted@) + s.block_out@ =~= Seq::<u8>::empty());
    }
    strm.dstate = Some(Box::new(s));
    strm.total_in_lo32 = 0;
    strm.total_in_hi32 = 0;
    strm.total_out_lo32 = 0;
    strm.total_out_hi32 = 0;
    BZ_OK
}

/// Drops the stream's decompressor (`BZ2_bzDecompressEnd`). Returns `BZ_PARAM_ERROR` when
/// there is none.
pub fn BZ2_bzDecompressEnd(strm: &mut bz_stream) -> (r: i32)
    ensures
        r == (if old(strm).dstate is Some { BZ_OK } else { BZ_PARAM_ERROR }),
        final(strm).dstate is None,
        final(strm).cstate == old(strm).cstate,
        final(strm).input == old(strm).input,
        final(strm).output == old(strm).output,
        final(strm).next_in == old(strm).next_in && final(strm).avail_in == old(strm).avail_in,
        final(strm).next_out == old(strm).next_out && final(strm).avail_out == old(strm).avail_out,
{
    if strm.dstate.is_none() {
        return BZ_PARAM_ERROR;
    }
    strm.dstate = None;
    BZ_OK
}

/// Decompresses `source[0 .. sourceLen]` into `dest[0 .. *destLen]` in one call
/// (`BZ2_bzBuffToBuffDecompress`). On `BZ_OK`, `*destLen` becomes the size of the
/// decompressed data. When the output does not fit, `BZ_OUTBUFF_FULL` comes back; when the
/// input ends before the stream does, `BZ_UNEXPECTED_EOF`; in both cases, and for
/// the data errors, `*destLen` stays.
pub fn BZ2_bzBuffToBuffDecompress(
    dest: &mut Vec<u8>,
    destLen: &mut u32,
    source: &Vec<u8>,
    sourceLen: u32,
    small: i32,
    verbosity: i32,
) -> (r: i32)
    requires
        *old(destLen) <= old(dest)@.len(),
        sourceLen <= source@.len(),
    ensures
        final(dest)@.len() == old(dest)@.len(),
        r == BZ_OK || r == BZ_OUTBUFF_FULL || r == BZ_UNEXPECTED_EOF || r == BZ_PARAM_ERROR
            || r == BZ_DATA_ERROR || r == BZ_DATA_ERROR_MAGIC,
        r == BZ_PARAM_ERROR <==> !((small == 0 || small == 1) && 0 <= verbosity <= 4),
        r == BZ_PARAM_ERROR ==> *final(dest) == *old(dest),
        r == BZ_OK ==> *final(destLen) <= *old(destLen),
        r == BZ_OK ==> final(dest)@.subrange(*final(destLen) as int, final(dest)@.len() as int)
            == old(dest)@.subrange(*final(destLen) as int, old(dest)@.len() as int),
        r != BZ_OK ==> *final(destLen) == *old(destLen),
        (small == 0 || small == 1) && 0 <= verbosity <= 4 && sourceLen >= 4 ==>
            (r == BZ_DATA_ERROR_MAGIC <==> !header_ok(source@, 0)),
        (small == 0 || small == 1) && 0 <= verbosity <= 4 && sourceLen >= 14 && header_ok(source@, 0)
            && crate::decompress::eos_marker_at(source@, 4) ==> {
            &&& r == (if crate::decompress::crc_acc(source@, 10, 4) == 0 { BZ_OK } else { BZ_DATA_ERROR })
            &&& r == BZ_OK ==> *final(destLen) == 0
        },
        r == BZ_OK ==> exists|blocks: Seq<(Seq<u8>, u32)>| #![trigger joined(blocks)]
            final(dest)@.subrange(0, *final(destLen) as int) == joined(blocks)
            && forall|i: int| 0 <= i < blocks.len() ==> block_crc((#[trigger] blocks[i]).0) == blocks[i].1,
{
    let mut strm = bz_stream::zeroed();
    let ri = BZ2_bzDecompressInit(&mut strm, verbosity, small);
    if ri != BZ_OK {
        return ri;
    }
    strm.input = copy_prefix(source, sourceLen as usize);
    strm.next_in = 0;
    strm.avail_in = sourceLen;
    std::mem::swap(&mut strm.output, dest);
    strm.next_out = 0;
    strm.avail_out = *destLen;
    proof {
        if sourceLen >= 4 {
            assert(strm.input@[0] == source@[0] && strm.input@[1] == source@[1]
                && strm.input@[2] == source@[2] && strm.input@[3] == source@[3]);
            assert(header_ok(strm.input@, 0) == header_ok(source@, 0)) by {
                assert forall|j: int| 0 <= j < 4 implies
                    #[trigger] crate::decompress::header_byte_ok(j, strm.input@[0 + j])
                    == crate::decompress::header_byte_ok(j, source@[0 + j]) by {
                    assert(strm.input@[j] == source@[j]);
                }
            }
        }
    }
    proof {
        if sourceLen >= 14 {
            assert forall|k: int| 0 <= k < 14 implies strm.input@[k] == source@[k] by {}
            assert(header_ok(strm.input@, 0) == header_ok(source@, 0)) by {
                assert forall|j: int| 0 <= j < 4 implies
                    #[trigger] crate::decompress::header_byte_ok(j, strm.input@[0 + j])
                    == crate::decompress::header_byte_ok(j, source@[0 + j]) by {
                    assert(strm.input@[j] == source@[j]);
                }
            }
            assert(crate::decompress::eos_marker_at(strm.input@, 4) == crate::decompress::eos_marker_at(source@, 4));
            reveal_with_fuel(crate::decompress::crc_acc, 5);
            assert(crate::decompress::crc_acc(strm.input@, 10, 4) == crate::decompress::crc_acc(source@, 10, 4));
        }
    }
    let ghost before = strm;
    let r = BZ2_bzDecompress(&mut strm);
    let ghost after = strm;
    std::mem::swap(&mut strm.output, dest);
    if r == BZ_OK {
        BZ2_bzDecompressEnd(&mut strm);
        if strm.avail_out == 0 {
            BZ_OUTBUFF_FULL
        } else {
            BZ_UNEXPECTED_EOF
        }
    } else if r == BZ_STREAM_END {
        *destLen = (*destLen).wrapping_sub(strm.avail_out);
        proof {
            let s0 = before.dstate->0;
            let s1 = after.dstate->0;
            assert(s0.handed_out@.len() == 0);
            crate::decompress::lemma_handed_out_is_checked(&*s1);
            assert(s1.state == State::BZ_X_IDLE);
            assert(dest@ == after.output@);
            assert(before.output@.subrange(0, 0) =~= Seq::<u8>::empty());
            assert(s1.handed_out@ =~= after.output@.subrange(0, after.next_out as int));
            assert(*destLen == after.next_out);
            assert(dest@.subrange(0, *destLen as int) == joined(s1.accepted@));
        }
        BZ2_bzDecompressEnd(&mut strm);
        BZ_OK
    } else {
        BZ2_bzDecompressEnd(&mut strm);
        r
    }
}

} // verus!
