//! Compressing one block: move-to-front and run-length coding of the sorted block,
//! Huffman table selection, and writing the block to the bit stream.
use vstd::prelude::*;
use crate::bitstream::{BitWriter, bits_of};
use crate::blocksort::{BZ2_blockSort, FTAB_LEN, is_perm};
use crate::crc::CrcTable;
use crate::decompress::count_true;
use crate::huffman::{BZ2_hbAssignCodes, BZ2_hbMakeCodeLengths, BZ_MAX_ALPHA_SIZE, canonical_code};

verus! {

/// Number of Huffman tables at most.
pub const BZ_N_GROUPS: usize = 6;
/// Symbols coded with one table before the next selector.
pub const BZ_G_SIZE: usize = 50;
/// Rounds of table refinement.
pub const BZ_N_ITERS: usize = 4;
/// Most selectors a block can need.
pub const BZ_MAX_SELECTORS: usize = 18002;
/// Bytes past the block end that the sorter may read.
pub const BZ_N_OVERSHOOT: usize = 34;
/// Run symbols of the zero-run coding.
pub const BZ_RUNA: u16 = 0;
pub const BZ_RUNB: u16 = 1;

/// What the compressor is doing with respect to the caller's actions.
#[derive(Clone, Copy, PartialEq, Eq, Structural)]
pub enum Mode {
    Idle,
    Running,
    Flushing,
    Finishing,
}

/// Whether the compressor is handing out a finished block or taking input.
#[derive(Clone, Copy, PartialEq, Eq, Structural)]
pub enum CompressState {
    /// Handing out the bytes of a finished block.
    Output,
    /// Taking input into the current block.
    Input,
}

/// The state of a compression stream.
pub struct EState {
    pub mode: Mode,
    pub state: CompressState,
    pub avail_in_expect: u32,
    /// Sorted order of the block's rotations.
    pub ptr: Vec<u32>,
    /// The block, plus room for the sorter's overshoot.
    pub block: Vec<u8>,
    /// Move-to-front output.
    pub mtfv: Vec<u16>,
    /// Working space for the sorter.
    pub eclass: Vec<u32>,
    pub ftab: Vec<u32>,
    pub origPtr: i32,
    /// The bit stream; its bytes are the current block's output.
    pub writer: BitWriter,
    pub workFactor: i32,
    /// The run being collected: its byte (256 for none) and length.
    pub state_in_ch: u32,
    pub state_in_len: i32,
    pub nblock: i32,
    pub nblockMAX: i32,
    pub state_out_pos: usize,
    pub nInUse: i32,
    pub inUse: Vec<bool>,
    pub unseqToSeq: Vec<u8>,
    pub blockCRC: u32,
    pub combinedCRC: u32,
    pub verbosity: i32,
    pub blockNo: i32,
    pub blockSize100k: i32,
    pub nMTF: i32,
    pub mtfFreq: Vec<i32>,
    pub selector: Vec<u8>,
    pub selectorMtf: Vec<u8>,
    pub len: Vec<Vec<u8>>,
    pub code: Vec<Vec<i32>>,
    pub rfreq: Vec<Vec<i32>>,
    pub crc: CrcTable,
    /// The input taken into the current block so far, the pending run included.
    pub block_input: Ghost<Seq<u8>>,
    /// The bytes of every block compressed so far, the current block's included.
    pub produced: Ghost<Seq<u8>>,
}

impl EState {
    /// Capacity of a block: 100000 times the block size.
    pub open spec fn capacity(&self) -> int {
        100000 * self.blockSize100k
    }

    /// The sizes of all working arrays match the block size, and the counters are in range.
    pub open spec fn wf(&self) -> bool {
        &&& 1 <= self.blockSize100k <= 9
        &&& self.nblockMAX == self.capacity() - 19
        &&& self.ptr@.len() == self.capacity()
        &&& self.block@.len() == self.capacity() + BZ_N_OVERSHOOT
        &&& self.mtfv@.len() == self.capacity() + 2
        &&& self.eclass@.len() == self.capacity()
        &&& self.ftab@.len() == FTAB_LEN
        &&& self.writer.wf()
        &&& 0 <= self.nblock <= self.nblockMAX + 5
        &&& self.state_in_ch <= 256
        &&& 0 <= self.state_in_len <= 255
        &&& self.state_in_ch < 256 ==> self.state_in_len >= 1
        &&& self.inUse@.len() == 256
        &&& self.unseqToSeq@.len() == 256
        &&& self.mtfFreq@.len() == BZ_MAX_ALPHA_SIZE
        &&& self.selector@.len() == BZ_MAX_SELECTORS
        &&& self.selectorMtf@.len() == BZ_MAX_SELECTORS
        &&& self.len@.len() == BZ_N_GROUPS
        &&& self.code@.len() == BZ_N_GROUPS
        &&& self.rfreq@.len() == BZ_N_GROUPS
        &&& forall|t: int| 0 <= t < BZ_N_GROUPS ==> (#[trigger] self.len@[t])@.len() == BZ_MAX_ALPHA_SIZE
        &&& forall|t: int| 0 <= t < BZ_N_GROUPS ==> (#[trigger] self.code@[t])@.len() == BZ_MAX_ALPHA_SIZE
        &&& forall|t: int| 0 <= t < BZ_N_GROUPS ==> (#[trigger] self.rfreq@[t])@.len() == BZ_MAX_ALPHA_SIZE
        &&& forall|k: int| 0 <= k < self.nblock ==> self.inUse@[#[trigger] self.block@[k] as int]
        &&& self.crc.wf()
    }

    /// `other` is `self` with possibly different sorting results and working space.
    pub open spec fn same_but_sort(&self, other: &EState) -> bool {
        &&& self.mode == other.mode
        &&& self.state == other.state
        &&& self.avail_in_expect == other.avail_in_expect
        &&& self.block@ == other.block@
        &&& self.mtfv@ == other.mtfv@
        &&& self.writer == other.writer
        &&& self.workFactor == other.workFactor
        &&& self.state_in_ch == other.state_in_ch
        &&& self.state_in_len == other.state_in_len
        &&& self.nblock == other.nblock
        &&& self.nblockMAX == other.nblockMAX
        &&& self.state_out_pos == other.state_out_pos
        &&& self.nInUse == other.nInUse
        &&& self.inUse@ == other.inUse@
        &&& self.unseqToSeq@ == other.unseqToSeq@
        &&& self.blockCRC == other.blockCRC
        &&& self.combinedCRC == other.combinedCRC
        &&& self.verbosity == other.verbosity
        &&& self.blockNo == other.blockNo
        &&& self.blockSize100k == other.blockSize100k
        &&& self.nMTF == other.nMTF
        &&& self.mtfFreq@ == other.mtfFreq@
        &&& self.selector@ == other.selector@
        &&& self.selectorMtf@ == other.selectorMtf@
        &&& self.len@ == other.len@
        &&& self.code@ == other.code@
        &&& self.rfreq@ == other.rfreq@
        &&& self.crc == other.crc
    }
}

} // verus!

verus! {

/// `list[0 .. n]` is a permutation of `0 .. n`, and `inv` says where each value sits.
pub open spec fn perm_u8(list: Seq<u8>, n: int, inv: Seq<int>) -> bool {
    &&& n <= list.len()
    &&& inv.len() == n
    &&& forall|i: int| 0 <= i < n ==> (#[trigger] list[i] as int) < n
    &&& forall|v: int| 0 <= v < n ==> 0 <= #[trigger] inv[v] < n && list[inv[v]] as int == v
    &&& forall|i: int| 0 <= i < n ==> inv[#[trigger] list[i] as int] == i
}

/// The list after moving the entry at `p` to the front.
pub open spec fn move_front(list: Seq<u8>, p: int) -> Seq<u8> {
    seq![list[p]] + list.subrange(0, p) + list.subrange(p + 1, list.len() as int)
}

/// Finds `v` in the move-to-front list `list[0 .. n]`, moves it to the front, and returns
/// where it was.
pub fn move_to_front(list: &mut Vec<u8>, n: usize, v: u8, Ghost(inv): Ghost<Seq<int>>) -> (res: (usize, Ghost<Seq<int>>))
    requires
        perm_u8(old(list)@, n as int, inv),
        (v as int) < n,
    ensures
        res.0 == inv[v as int],
        final(list)@ == move_front(old(list)@, res.0 as int),
        perm_u8(final(list)@, n as int, res.1@),
{
    let ghost old_list = list@;
    let mut j: usize = 0;
    let mut tmp: u8 = list[0];
    while v != tmp
        invariant
            perm_u8(old_list, n as int, inv),
            (v as int) < n,
            j < n,
            j <= inv[v as int],
            tmp == old_list[j as int],
            list@.len() == old_list.len(),
            list@[0] == old_list[0],
            forall|p: int| 1 <= p <= j ==> list@[p] == old_list[p - 1],
            forall|p: int| j < p < list@.len() ==> list@[p] == old_list[p],
        decreases n - j,
    {
        j = j + 1;
        let tmp2 = tmp;
        tmp = list[j];
        list.set(j, tmp2);
    }
    list.set(0, tmp);
    let ghost inv2 = Seq::new(n as nat, |x: int| if x == v as int { 0 } else if inv[x] < j { inv[x] + 1 } else { inv[x] });
    proof {
        assert(list@ =~= move_front(old_list, j as int));
        assert forall|x: int| 0 <= x < n implies 0 <= #[trigger] inv2[x] < n && list@[inv2[x]] as int == x by {
            if x != v as int {
                assert(inv[x] != j);
            }
        }
        assert forall|i: int| 0 <= i < n implies (#[trigger] list@[i] as int) < n && inv2[list@[i] as int] == i by {
            if i == 0 {
            } else if i <= j {
                assert(list@[i] == old_list[i - 1]);
                assert(inv[old_list[i - 1] as int] == i - 1);
            } else {
                assert(list@[i] == old_list[i]);
                assert(inv[old_list[i] as int] == i);
            }
        }
    }
    (j, Ghost(inv2))
}

/// Numbers the byte values in use, in order (`makeMaps_e`).
fn makeMaps_e(s: &mut EState)
    requires
        old(s).wf(),
    ensures
        final(s).wf(),
        0 <= final(s).nInUse <= 256,
        final(s).nInUse == count_true(final(s).inUse@, 256),
        forall|b: int| 0 <= b < 256 && final(s).inUse@[b] ==> (#[trigger] final(s).unseqToSeq@[b] as int) == count_true(final(s).inUse@, b),
        forall|b: int| 0 <= b < 256 && final(s).inUse@[b] ==> (#[trigger] final(s).unseqToSeq@[b] as int) < final(s).nInUse,
        same_but_mtf(old(s), &*final(s)),
{
    s.nInUse = 0;
    let mut i: usize = 0;
    while i < 256
        invariant
            i <= 256,
            s.wf(),
            0 <= s.nInUse <= i,
            s.nInUse == count_true(s.inUse@, i as int),
            forall|b: int| 0 <= b < i && s.inUse@[b] ==> (#[trigger] s.unseqToSeq@[b] as int) == count_true(s.inUse@, b),
            forall|b: int| 0 <= b < i && s.inUse@[b] ==> (#[trigger] s.unseqToSeq@[b] as int) < s.nInUse,
            same_but_mtf(old(s), &*s),
        decreases 256 - i,
    {
        if s.inUse[i] {
            s.unseqToSeq.set(i, s.nInUse as u8);
            s.nInUse = s.nInUse + 1;
        }
        i = i + 1;
    }
}

} // verus!

verus! {

/// Frame for the move-to-front stage: everything but its outputs stays.
pub open spec fn same_but_mtf(a: &EState, b: &EState) -> bool {
    &&& same_but_mtf_core(a, b)
    &&& a.writer == b.writer
}

/// Everything but the coding stage's outputs and the bit stream stays.
pub open spec fn same_but_mtf_core(a: &EState, b: &EState) -> bool {
    &&& a.block@ == b.block@
    &&& a.ptr@ == b.ptr@
    &&& a.nblock == b.nblock
    &&& a.inUse@ == b.inUse@
    &&& a.origPtr == b.origPtr
    &&& a.blockCRC == b.blockCRC
    &&& a.combinedCRC == b.combinedCRC
    &&& a.blockNo == b.blockNo
    &&& a.blockSize100k == b.blockSize100k
    &&& a.state_out_pos == b.state_out_pos
    &&& a.mode == b.mode
    &&& a.state == b.state
    &&& a.state_in_ch == b.state_in_ch
    &&& a.state_in_len == b.state_in_len
    &&& a.avail_in_expect == b.avail_in_expect
    &&& a.verbosity == b.verbosity
    &&& a.workFactor == b.workFactor
    &&& a.nblockMAX == b.nblockMAX
}

/// The run-length code of a run of `z` zeros: `z` in bijective base 2, least significant
/// digit first, with RUNA for the digit 1 and RUNB for the digit 2.
pub open spec fn zero_run_code(z: int) -> Seq<u16>
    decreases z,
{
    if z <= 0 {
        seq![]
    } else {
        seq![if (z - 1) % 2 == 0 { BZ_RUNA } else { BZ_RUNB }] + (if z >= 3 { zero_run_code((z - 1) / 2) } else { seq![] })
    }
}

proof fn lemma_sym_count_same(a: Seq<u16>, b: Seq<u16>, lo: int, hi: int, v: int)
    requires
        forall|k: int| lo <= k < hi ==> a[k] == b[k],
    ensures
        sym_count(a, lo, hi, v) == sym_count(b, lo, hi, v),
    decreases hi - lo,
{
    if hi > lo {
        lemma_sym_count_same(a, b, lo, hi - 1, v);
    }
}

/// Appends `sym` to the symbols `mtfv[0 .. w]`, counting it in `mtfFreq`.
fn put_symbol(s: &mut EState, w: usize, sym: u16)
    requires
        old(s).wf(),
        w < old(s).mtfv@.len(),
        (sym as int) < BZ_MAX_ALPHA_SIZE,
        forall|k: int| 0 <= k < BZ_MAX_ALPHA_SIZE ==> #[trigger] old(s).mtfFreq@[k] == sym_count(old(s).mtfv@, 0, w as int, k),
        w < 0x7fff_ffff,
    ensures
        final(s).wf(),
        same_but_mtf(old(s), &*final(s)),
        final(s).nInUse == old(s).nInUse,
        final(s).unseqToSeq@ == old(s).unseqToSeq@,
        final(s).mtfv@ == old(s).mtfv@.update(w as int, sym),
        forall|k: int| 0 <= k < BZ_MAX_ALPHA_SIZE ==> #[trigger] final(s).mtfFreq@[k] == sym_count(final(s).mtfv@, 0, w + 1, k),
{
    let ghost m0 = s.mtfv@;
    proof {
        lemma_sym_count_le(m0, 0, w as int, sym as int);
    }
    s.mtfv.set(w, sym);
    let f = s.mtfFreq[sym as usize];
    s.mtfFreq.set(sym as usize, f + 1);
    proof {
        assert forall|k: int| 0 <= k < BZ_MAX_ALPHA_SIZE implies #[trigger] s.mtfFreq@[k] == sym_count(s.mtfv@, 0, w + 1, k) by {
            lemma_sym_count_same(s.mtfv@, m0, 0, w as int, k);
        }
    }
}

/// Writes the run-length code of a run of `zPend` zeros (`zero_run_code`) after
/// `mtfv[0 .. wr]`, counting its symbols in `mtfFreq`.
fn emit_zero_run(s: &mut EState, wr: usize, zPend: u32) -> (wr2: usize)
    requires
        old(s).wf(),
        1 <= zPend,
        wr + zPend <= old(s).mtfv@.len(),
        zPend <= 0x1000_0000,
        wr <= 0x1000_0000,
        forall|k: int| 0 <= k < BZ_MAX_ALPHA_SIZE ==> #[trigger] old(s).mtfFreq@[k] == sym_count(old(s).mtfv@, 0, wr as int, k),
        forall|k: int| 0 <= k < wr ==> (#[trigger] old(s).mtfv@[k] as int) <= old(s).nInUse + 1,
        old(s).nInUse >= 1,
    ensures
        forall|k: int| 0 <= k < wr2 ==> (#[trigger] final(s).mtfv@[k] as int) <= final(s).nInUse + 1,
        final(s).wf(),
        same_but_mtf(old(s), &*final(s)),
        final(s).nInUse == old(s).nInUse,
        final(s).unseqToSeq@ == old(s).unseqToSeq@,
        wr < wr2 <= wr + zPend,
        final(s).mtfv@.subrange(0, wr2 as int) == old(s).mtfv@.subrange(0, wr as int) + zero_run_code(zPend as int),
        forall|k: int| 0 <= k < BZ_MAX_ALPHA_SIZE ==> #[trigger] final(s).mtfFreq@[k] == sym_count(final(s).mtfv@, 0, wr2 as int, k),
{
    let ghost base = s.mtfv@.subrange(0, wr as int);
    let mut z: u32 = zPend - 1;
    let mut w = wr;
    loop
        invariant_except_break
            w + z + 1 <= wr + zPend,
            s.mtfv@.subrange(0, w as int) + zero_run_code(z + 1) == base + zero_run_code(zPend as int),
        invariant
            s.wf(),
            same_but_mtf(old(s), &*s),
            s.nInUse == old(s).nInUse,
            s.unseqToSeq@ == old(s).unseqToSeq@,
            wr <= w,
            w <= wr + zPend,
            wr + zPend <= s.mtfv@.len(),
            zPend <= 0x1000_0000,
            wr <= 0x1000_0000,
            forall|k: int| 0 <= k < BZ_MAX_ALPHA_SIZE ==> #[trigger] s.mtfFreq@[k] == sym_count(s.mtfv@, 0, w as int, k),
            forall|k: int| 0 <= k < w ==> (#[trigger] s.mtfv@[k] as int) <= s.nInUse + 1,
            s.nInUse >= 1,
        ensures
            forall|k: int| 0 <= k < w ==> (#[trigger] s.mtfv@[k] as int) <= s.nInUse + 1,
            s.wf(),
            same_but_mtf(old(s), &*s),
            s.nInUse == old(s).nInUse,
            s.unseqToSeq@ == old(s).unseqToSeq@,
            wr < w <= wr + zPend,
            s.mtfv@.subrange(0, w as int) == base + zero_run_code(zPend as int),
            forall|k: int| 0 <= k < BZ_MAX_ALPHA_SIZE ==> #[trigger] s.mtfFreq@[k] == sym_count(s.mtfv@, 0, w as int, k),
        decreases z,
    {
        let ghost before = s.mtfv@.subrange(0, w as int);
        let ghost zz = z as int;
        let sym: u16 = if z & 1 != 0 { BZ_RUNB } else { BZ_RUNA };
        assert((z & 1 != 0) == (z % 2 == 1)) by (bit_vector);
        put_symbol(s, w, sym);
        w = w + 1;
        proof {
            assert(s.mtfv@.subrange(0, w as int) =~= before.push(sym));
            assert(zero_run_code(zz + 1) == seq![sym] + (if zz + 1 >= 3 { zero_run_code(zz / 2) } else { seq![] }));
        }
        if z < 2 {
            proof {
                assert(zero_run_code(zz + 1) =~= seq![sym]);
                assert(before + seq![sym] =~= before.push(sym));
            }
            break;
        }
        z = (z - 2) / 2;
        proof {
            assert(z + 1 == zz / 2);
            assert(before + (seq![sym] + zero_run_code(zz / 2)) =~= before.push(sym) + zero_run_code(zz / 2));
        }
    }
    w
}

/// The position in the block of the byte before the one at `p`, going round.
pub open spec fn pred_pos(p: int, n: int) -> int {
    if p == 0 { n - 1 } else { p - 1 }
}

/// The values move-to-front coding takes, one per rotation in sorted order: the number,
/// among the byte values in use, of the rotation's last byte (the byte before its start).
pub open spec fn bwt_values(s: &EState) -> Seq<u8> {
    Seq::new(s.nblock as nat, |i: int| s.unseqToSeq@[s.block@[pred_pos(s.ptr@[i] as int, s.nblock as int)] as int])
}

/// Where `v` stands in `list[0 .. n]`.
pub open spec fn list_pos(list: Seq<u8>, n: int, v: u8) -> int {
    choose|p: int| 0 <= p < n && list[p] == v
}

/// The move-to-front list to start from: `0 .. n`, in a list of 256 entries.
pub open spec fn mtf_start(n: int) -> Seq<u8> {
    Seq::new(256, |i: int| if i < n { i as u8 } else { 0u8 })
}

/// The move-to-front coder after the first `k` values of `vals`, over `n` values: its
/// list, the length of the pending run of zeros (values found at the front), and the
/// symbols written: a value found at position `p > 0` is written as `p + 1`, after the
/// code of the run of zeros before it.
pub open spec fn mtf_run(vals: Seq<u8>, k: int, n: int) -> (Seq<u8>, int, Seq<u16>)
    decreases k,
{
    if k <= 0 {
        (mtf_start(n), 0, seq![])
    } else {
        let prev = mtf_run(vals, k - 1, n);
        let v = vals[k - 1];
        if prev.0[0] == v {
            (prev.0, prev.1 + 1, prev.2)
        } else {
            let p = list_pos(prev.0, n, v);
            (move_front(prev.0, p), 0, prev.2 + zero_run_code(prev.1) + seq![(p + 1) as u16])
        }
    }
}

/// The symbols move-to-front coding writes for `vals` over `n` values: those of `mtf_run`,
/// the code of the last run of zeros, and the end-of-block symbol `n + 1`.
pub open spec fn mtf_code(vals: Seq<u8>, n: int) -> Seq<u16> {
    let r = mtf_run(vals, vals.len() as int, n);
    r.2 + zero_run_code(r.1) + seq![(n + 1) as u16]
}

proof fn lemma_list_pos(list: Seq<u8>, n: int, inv: Seq<int>, v: u8)
    requires
        perm_u8(list, n, inv),
        (v as int) < n,
    ensures
        list_pos(list, n, v) == inv[v as int],
{
    assert(list[inv[v as int]] == v);
    let p = list_pos(list, n, v);
    assert(inv[list[p] as int] == p);
}

/// Applies move-to-front coding to the sorted block, with runs of zeros run-length coded,
/// and counts how often each symbol occurs (`generateMTFValues`): `mtfv[0 .. nMTF]`
/// becomes `mtf_code` of the rotations' last bytes, numbered among the byte values in use.
pub fn generateMTFValues(s: &mut EState)
    requires
        old(s).wf(),
        old(s).nblock >= 1,
        is_perm(old(s).ptr@, old(s).nblock as int),
    ensures
        final(s).wf(),
        same_but_mtf(old(s), &*final(s)),
        final(s).nInUse == count_true(final(s).inUse@, 256),
        forall|b: int| 0 <= b < 256 && final(s).inUse@[b] ==> (#[trigger] final(s).unseqToSeq@[b] as int) == count_true(final(s).inUse@, b),
        1 <= final(s).nInUse <= 256,
        1 <= final(s).nMTF <= final(s).nblock + 1,
        final(s).mtfv@.subrange(0, final(s).nMTF as int) == mtf_code(bwt_values(final(s)), final(s).nInUse as int),
        forall|k: int| 0 <= k < BZ_MAX_ALPHA_SIZE ==> #[trigger] final(s).mtfFreq@[k] == sym_count(final(s).mtfv@, 0, final(s).nMTF as int, k),
        forall|k: int| 0 <= k < final(s).nMTF ==> (#[trigger] final(s).mtfv@[k] as int) <= final(s).nInUse + 1,
        final(s).mtfv@[final(s).nMTF - 1] as int == final(s).nInUse + 1,
        forall|k: int| 0 <= k < BZ_MAX_ALPHA_SIZE ==> 0 <= #[trigger] final(s).mtfFreq@[k] <= final(s).nMTF,
{
    makeMaps_e(s);
    let nblock = s.nblock as usize;
    let n_in_use = s.nInUse as usize;
    proof {
        // the first byte of the block is in use, so at least one value is
        assert(s.inUse@[s.block@[0] as int]);
        assert((s.unseqToSeq@[s.block@[0] as int] as int) < s.nInUse);
    }
    let EOB = s.nInUse + 1;
    let mut i: usize = 0;
    while i < BZ_MAX_ALPHA_SIZE
        invariant
            i <= BZ_MAX_ALPHA_SIZE,
            s.wf(),
            same_but_mtf(old(s), &*s),
            s.nInUse == n_in_use,
            1 <= n_in_use <= 256,
            s.nInUse == count_true(s.inUse@, 256),
            forall|b: int| 0 <= b < 256 && s.inUse@[b] ==> (#[trigger] s.unseqToSeq@[b] as int) == count_true(s.inUse@, b),
            forall|b: int| 0 <= b < 256 && s.inUse@[b] ==> (#[trigger] s.unseqToSeq@[b] as int) < s.nInUse,
            forall|k: int| 0 <= k < i ==> #[trigger] s.mtfFreq@[k] == 0,
        decreases BZ_MAX_ALPHA_SIZE - i,
    {
        s.mtfFreq.set(i, 0);
        i = i + 1;
    }

    let mut yy: Vec<u8> = vec![0u8; 256];
    let mut q: usize = 0;
    while q < n_in_use
        invariant
            q <= n_in_use <= 256,
            yy@.len() == 256,
            forall|p: int| 0 <= p < q ==> #[trigger] yy@[p] as int == p,
            forall|p: int| q <= p < 256 ==> #[trigger] yy@[p] == 0,
        decreases n_in_use - q,
    {
        yy.set(q, q as u8);
        q = q + 1;
    }
    assert(yy@ =~= mtf_start(n_in_use as int));
    let ghost mut yinv: Seq<int> = Seq::new(n_in_use as nat, |v: int| v);
    assert(perm_u8(yy@, n_in_use as int, yinv));
    let ghost vals = bwt_values(s);
    let ghost ptr0 = s.ptr@;
    let ghost block0 = s.block@;
    let ghost u0 = s.unseqToSeq@;

    let mut wr: usize = 0;
    let mut zPend: u32 = 0;
    let mut i: usize = 0;
    proof {
        assert(s.mtfv@.subrange(0, 0) =~= Seq::<u16>::empty());
        assert forall|k: int| 0 <= k < BZ_MAX_ALPHA_SIZE implies #[trigger] s.mtfFreq@[k] == sym_count(s.mtfv@, 0, 0, k) by {}
    }
    while i < nblock
        invariant
            i <= nblock,
            nblock == s.nblock,
            1 <= nblock,
            s.wf(),
            same_but_mtf(old(s), &*s),
            is_perm(s.ptr@, nblock as int),
            s.nInUse == n_in_use,
            1 <= n_in_use <= 256,
            EOB == n_in_use + 1,
            s.nInUse == count_true(s.inUse@, 256),
            forall|b: int| 0 <= b < 256 && s.inUse@[b] ==> (#[trigger] s.unseqToSeq@[b] as int) == count_true(s.inUse@, b),
            forall|b: int| 0 <= b < 256 && s.inUse@[b] ==> (#[trigger] s.unseqToSeq@[b] as int) < s.nInUse,
            perm_u8(yy@, n_in_use as int, yinv),
            yy@.len() == 256,
            wr + zPend <= i,
            s.ptr@ == ptr0,
            s.block@ == block0,
            s.unseqToSeq@ == u0,
            vals == bwt_values(s),
            yy@ == mtf_run(vals, i as int, n_in_use as int).0,
            zPend == mtf_run(vals, i as int, n_in_use as int).1,
            s.mtfv@.subrange(0, wr as int) == mtf_run(vals, i as int, n_in_use as int).2,
            forall|k: int| 0 <= k < BZ_MAX_ALPHA_SIZE ==> #[trigger] s.mtfFreq@[k] == sym_count(s.mtfv@, 0, wr as int, k),
            forall|k: int| 0 <= k < wr ==> (#[trigger] s.mtfv@[k] as int) <= s.nInUse + 1,
        decreases nblock - i,
    {
        let p = s.ptr[i];
        let j: usize = if p == 0 { nblock - 1 } else { (p - 1) as usize };
        let b = s.block[j];
        proof {
            assert(s.inUse@[s.block@[j as int] as int]);
        }
        let ll_i = s.unseqToSeq[b as usize];
        assert(ll_i == vals[i as int]);
        let ghost prev = mtf_run(vals, i as int, n_in_use as int);
        if yy[0] == ll_i {
            zPend = zPend + 1;
        } else {
            let ghost m_before = s.mtfv@.subrange(0, wr as int);
            if zPend > 0 {
                wr = emit_zero_run(s, wr, zPend);
                zPend = 0;
            } else {
                assert(m_before + zero_run_code(0) =~= m_before);
            }
            let ghost m_mid = s.mtfv@.subrange(0, wr as int);
            assert(m_mid == prev.2 + zero_run_code(prev.1));
            proof {
                lemma_list_pos(yy@, n_in_use as int, yinv, ll_i);
            }
            let (pos, g) = move_to_front(&mut yy, n_in_use, ll_i, Ghost(yinv));
            proof { yinv = g@; }
            let sym = (pos + 1) as u16;
            put_symbol(s, wr, sym);
            wr = wr + 1;
            assert(s.mtfv@.subrange(0, wr as int) =~= m_mid + seq![sym]);
        }
        i = i + 1;
    }
    let ghost fin = mtf_run(vals, nblock as int, n_in_use as int);
    let ghost m_before = s.mtfv@.subrange(0, wr as int);
    if zPend > 0 {
        wr = emit_zero_run(s, wr, zPend);
    } else {
        assert(m_before + zero_run_code(0) =~= m_before);
    }
    let ghost m_mid = s.mtfv@.subrange(0, wr as int);
    put_symbol(s, wr, EOB as u16);
    wr = wr + 1;
    assert(s.mtfv@.subrange(0, wr as int) =~= m_mid + seq![EOB as u16]);
    s.nMTF = wr as i32;
    proof {
        assert(vals.len() == nblock);
        assert forall|k: int| 0 <= k < BZ_MAX_ALPHA_SIZE implies 0 <= #[trigger] s.mtfFreq@[k] <= s.nMTF by {
            lemma_sym_count_le(s.mtfv@, 0, wr as int, k);
        }
    }
}

} // verus!

verus! {

/// Everything but the coding tables, the selectors and the bit stream stays.
pub open spec fn same_but_tables(a: &EState, b: &EState) -> bool {
    &&& a.block@ == b.block@
    &&& a.ptr@ == b.ptr@
    &&& a.nblock == b.nblock
    &&& a.inUse@ == b.inUse@
    &&& a.origPtr == b.origPtr
    &&& a.blockCRC == b.blockCRC
    &&& a.combinedCRC == b.combinedCRC
    &&& a.blockNo == b.blockNo
    &&& a.blockSize100k == b.blockSize100k
    &&& a.state_out_pos == b.state_out_pos
    &&& a.mode == b.mode
    &&& a.state == b.state
    &&& a.state_in_ch == b.state_in_ch
    &&& a.state_in_len == b.state_in_len
    &&& a.avail_in_expect == b.avail_in_expect
    &&& a.verbosity == b.verbosity
    &&& a.workFactor == b.workFactor
    &&& a.nblockMAX == b.nblockMAX
    &&& a.nInUse == b.nInUse
    &&& a.unseqToSeq@ == b.unseqToSeq@
    &&& a.nMTF == b.nMTF
    &&& a.mtfv@ == b.mtfv@
    &&& a.mtfFreq@ == b.mtfFreq@
}

/// The move-to-front output is complete and ready to be coded.
pub open spec fn mtf_ready(s: &EState) -> bool {
    &&& s.wf()
    &&& 1 <= s.nInUse <= 256
    &&& 1 <= s.nMTF <= s.nblock + 1
    &&& forall|k: int| 0 <= k < s.nMTF ==> (#[trigger] s.mtfv@[k] as int) <= s.nInUse + 1
    &&& forall|k: int| 0 <= k < BZ_MAX_ALPHA_SIZE ==> 0 <= #[trigger] s.mtfFreq@[k] <= s.nMTF
}

/// Every table below `n_groups` has lengths in `lo ..= hi` for the first `alpha` symbols.
pub open spec fn lens_ok(s: &EState, n_groups: int, alpha: int, lo: int, hi: int) -> bool {
    forall|t: int, v: int| 0 <= t < n_groups && 0 <= v < alpha ==> lo <= #[trigger] s.len@[t]@[v] <= hi
}

/// Number of tables used for a block with `n_mtf` symbols.
pub open spec fn groups_for(n_mtf: int) -> int {
    if n_mtf < 200 { 2 } else if n_mtf < 600 { 3 } else if n_mtf < 1200 { 4 } else if n_mtf < 2400 { 5 } else { 6 }
}

/// Sum of `f[lo .. hi]`.
pub open spec fn freq_sum(f: Seq<i32>, lo: int, hi: int) -> int
    decreases hi - lo,
{
    if hi <= lo { 0 } else { freq_sum(f, lo, hi - 1) + f[hi - 1] }
}

proof fn lemma_freq_sum_bound(f: Seq<i32>, lo: int, hi: int, m: int)
    requires
        0 <= lo <= hi <= f.len(),
        forall|k: int| lo <= k < hi ==> 0 <= #[trigger] f[k] <= m,
    ensures
        0 <= freq_sum(f, lo, hi) <= (hi - lo) * m,
    decreases hi - lo,
{
    if hi > lo {
        lemma_freq_sum_bound(f, lo, hi - 1, m);
        assert((hi - 1 - lo) * m + m == (hi - lo) * m) by (nonlinear_arith);
    } else {
        assert((hi - lo) * m == 0) by (nonlinear_arith) requires hi == lo;
    }
}

/// A copy of a byte row.
pub(crate) fn row_copy_u8(v: &Vec<u8>) -> (r: Vec<u8>)
    ensures
        r@ == v@,
{
    let mut r: Vec<u8> = Vec::new();
    let mut i: usize = 0;
    while i < v.len()
        invariant
            i <= v@.len(),
            r@ == v@.subrange(0, i as int),
        decreases v@.len() - i,
    {
        r.push(v[i]);
        i = i + 1;
        assert(r@ =~= v@.subrange(0, i as int));
    }
    assert(r@ =~= v@);
    r
}

/// A copy of an integer row.
pub(crate) fn row_copy_i32(v: &Vec<i32>) -> (r: Vec<i32>)
    ensures
        r@ == v@,
{
    let mut r: Vec<i32> = Vec::new();
    let mut i: usize = 0;
    while i < v.len()
        invariant
            i <= v@.len(),
            r@ == v@.subrange(0, i as int),
        decreases v@.len() - i,
    {
        r.push(v[i]);
        i = i + 1;
        assert(r@ =~= v@.subrange(0, i as int));
    }
    assert(r@ =~= v@);
    r
}

/// Gives each table an initial range of symbols with about the same total frequency:
/// short codes (length 0 for costing) inside its range, long ones (15) outside.
fn initial_lens(s: &mut EState, n_groups: usize, alpha: usize)
    requires
        mtf_ready(old(s)),
        alpha == old(s).nInUse + 2,
        n_groups == groups_for(old(s).nMTF as int),
    ensures
        mtf_ready(final(s)),
        same_but_tables(old(s), &*final(s)),
        final(s).writer == old(s).writer,
        lens_ok(final(s), BZ_N_GROUPS as int, alpha as int, 0, 15),
{
    let n_mtf = s.nMTF;
    assert(n_mtf <= 900000);
    let mut t: usize = 0;
    while t < BZ_N_GROUPS
        invariant
            t <= BZ_N_GROUPS,
            mtf_ready(s),
            same_but_tables(old(s), &*s),
            s.writer == old(s).writer,
            alpha == s.nInUse + 2,
            lens_ok(s, t as int, alpha as int, 0, 15),
        decreases BZ_N_GROUPS - t,
    {
        let row: Vec<u8> = vec![15u8; BZ_MAX_ALPHA_SIZE];
        s.len.set(t, row);
        t = t + 1;
    }
    let mut n_part: usize = n_groups;
    let mut rem_f: i32 = n_mtf;
    let mut gs: i32 = 0;
    while n_part > 0
        invariant
            n_part <= n_groups,
            2 <= n_groups <= BZ_N_GROUPS,
            mtf_ready(s),
            same_but_tables(old(s), &*s),
            s.writer == old(s).writer,
            alpha == s.nInUse + 2,
            3 <= alpha <= BZ_MAX_ALPHA_SIZE,
            n_mtf == s.nMTF,
            0 <= gs <= alpha,
            0 <= n_mtf <= 900000,
            n_mtf - gs * n_mtf <= rem_f <= n_mtf,
            lens_ok(s, BZ_N_GROUPS as int, alpha as int, 0, 15),
        decreases n_part,
    {
        let t_freq: i32 = if rem_f > 0 { rem_f / (n_part as i32) } else { 0 };
        let mut ge: i32 = gs - 1;
        let mut a_freq: i32 = 0;
        while a_freq < t_freq && ge < (alpha as i32) - 1
            invariant
                mtf_ready(s),
                alpha == s.nInUse + 2,
                3 <= alpha <= BZ_MAX_ALPHA_SIZE,
                0 <= n_mtf <= 900000,
                n_mtf == s.nMTF,
                0 <= gs <= alpha,
                gs - 1 <= ge <= alpha - 1,
                a_freq == freq_sum(s.mtfFreq@, gs as int, ge + 1),
            decreases alpha - ge,
        {
            ge = ge + 1;
            proof {
                lemma_freq_sum_bound(s.mtfFreq@, gs as int, ge + 1, n_mtf as int);
                assert((ge + 1 - gs) * n_mtf <= 258 * 900000) by (nonlinear_arith)
                    requires 0 <= ge + 1 - gs <= 258, 0 <= n_mtf <= 900000;
            }
            a_freq = a_freq + s.mtfFreq[ge as usize];
        }
        proof {
            lemma_freq_sum_bound(s.mtfFreq@, gs as int, ge + 1, n_mtf as int);
        }
        if ge > gs && n_part != n_groups && n_part != 1 && (n_groups - n_part) % 2 == 1 {
            a_freq = a_freq - s.mtfFreq[ge as usize];
            ge = ge - 1;
            proof {
                lemma_freq_sum_bound(s.mtfFreq@, gs as int, ge + 1, n_mtf as int);
            }
        }
        let mut row: Vec<u8> = row_copy_u8(&s.len[n_part - 1]);
        let mut v: usize = 0;
        while v < alpha
            invariant
                v <= alpha <= BZ_MAX_ALPHA_SIZE,
                row@.len() == BZ_MAX_ALPHA_SIZE,
                forall|w: int| 0 <= w < alpha ==> (#[trigger] row@[w]) <= 15,
            decreases alpha - v,
        {
            if (v as i32) >= gs && (v as i32) <= ge {
                row.set(v, 0);
            } else {
                row.set(v, 15);
            }
            v = v + 1;
        }
        s.len.set(n_part - 1, row);
        proof {
            assert((ge + 1) * n_mtf <= 258 * 900000) by (nonlinear_arith)
                requires 0 <= ge + 1 <= 258, 0 <= n_mtf <= 900000;
            assert((gs + 1) * n_mtf == gs * n_mtf + n_mtf) by (nonlinear_arith);
            assert(0 <= (ge - gs + 1) * n_mtf <= (alpha - gs) * n_mtf) by (nonlinear_arith)
                requires 0 <= ge - gs + 1 <= alpha - gs, n_mtf >= 0;
            assert((ge + 1) * n_mtf == gs * n_mtf + (ge - gs + 1) * n_mtf) by (nonlinear_arith);
        }
        n_part = n_part - 1;
        gs = ge + 1;
        rem_f = rem_f - a_freq;
    }
}

} // verus!

verus! {

/// Start of group `g` of symbols (groups of `BZ_G_SIZE` symbols share one table).
pub open spec fn group_start(g: int) -> int {
    BZ_G_SIZE * g
}

/// End (exclusive) of group `g` when there are `n_mtf` symbols.
pub open spec fn group_end(g: int, n_mtf: int) -> int {
    if BZ_G_SIZE * g + BZ_G_SIZE < n_mtf { BZ_G_SIZE * g + BZ_G_SIZE } else { n_mtf }
}

/// Number of groups needed for `n_mtf` symbols.
pub open spec fn groups_count(n_mtf: int) -> int {
    (n_mtf + BZ_G_SIZE - 1) / (BZ_G_SIZE as int)
}

/// The cost, in bits, of coding symbols `lo .. hi` with table `row`.
pub open spec fn group_cost(row: Seq<u8>, mtfv: Seq<u16>, lo: int, hi: int) -> int
    decreases hi - lo,
{
    if hi <= lo { 0 } else { group_cost(row, mtfv, lo, hi - 1) + row[mtfv[hi - 1] as int] }
}

proof fn lemma_group_cost_bound(row: Seq<u8>, mtfv: Seq<u16>, lo: int, hi: int, alpha: int)
    requires
        0 <= lo <= hi <= mtfv.len(),
        alpha <= row.len(),
        forall|k: int| lo <= k < hi ==> (#[trigger] mtfv[k] as int) < alpha,
        forall|v: int| 0 <= v < alpha ==> #[trigger] row[v] <= 17,
    ensures
        0 <= group_cost(row, mtfv, lo, hi) <= 17 * (hi - lo),
    decreases hi - lo,
{
    if hi > lo {
        lemma_group_cost_bound(row, mtfv, lo, hi - 1, alpha);
    }
}

/// For each group, the table with the lowest cost (the first such) is chosen.
fn choose_selectors(s: &mut EState, n_groups: usize, alpha: usize) -> (n_sel: usize)
    requires
        mtf_ready(old(s)),
        alpha == old(s).nInUse + 2,
        2 <= n_groups <= BZ_N_GROUPS,
        lens_ok(old(s), n_groups as int, alpha as int, 0, 17),
    ensures
        mtf_ready(final(s)),
        same_but_tables(old(s), &*final(s)),
        final(s).writer == old(s).writer,
        final(s).len@ == old(s).len@,
        final(s).code@ == old(s).code@,
        final(s).rfreq@ == old(s).rfreq@,
        final(s).selectorMtf@ == old(s).selectorMtf@,
        n_sel == groups_count(final(s).nMTF as int),
        1 <= n_sel <= 18001,
        forall|k: int| 0 <= k < n_sel ==> (#[trigger] final(s).selector@[k] as int) < n_groups,
        forall|g: int, t: int| 0 <= g < n_sel && 0 <= t < n_groups ==>
            group_cost(final(s).len@[final(s).selector@[g] as int]@, final(s).mtfv@, group_start(g), group_end(g, final(s).nMTF as int))
                <= #[trigger] group_cost(final(s).len@[t]@, final(s).mtfv@, group_start(g), group_end(g, final(s).nMTF as int)),
        forall|g: int, t: int| 0 <= g < n_sel && 0 <= t < final(s).selector@[g] ==>
            group_cost(final(s).len@[final(s).selector@[g] as int]@, final(s).mtfv@, group_start(g), group_end(g, final(s).nMTF as int))
                < #[trigger] group_cost(final(s).len@[t]@, final(s).mtfv@, group_start(g), group_end(g, final(s).nMTF as int)),
{
    let n_mtf = s.nMTF as usize;
    assert(n_mtf <= 900000);
    let mut n_sel: usize = 0;
    let mut gs: usize = 0;
    while gs < n_mtf
        invariant
            mtf_ready(s),
            same_but_tables(old(s), &*s),
            s.writer == old(s).writer,
            s.len@ == old(s).len@,
            s.code@ == old(s).code@,
            s.rfreq@ == old(s).rfreq@,
            s.selectorMtf@ == old(s).selectorMtf@,
            alpha == s.nInUse + 2,
            2 <= n_groups <= BZ_N_GROUPS,
            lens_ok(s, n_groups as int, alpha as int, 0, 17),
            n_mtf == s.nMTF,
            1 <= n_mtf <= 900000,
            gs <= n_mtf,
            gs < n_mtf ==> gs == 50 * n_sel,
            gs == group_start(n_sel as int) || gs == n_mtf,
            gs <= 50 * n_sel,
            50 * n_sel < n_mtf + 50,
            forall|k: int| 0 <= k < n_sel ==> (#[trigger] s.selector@[k] as int) < n_groups,
            forall|g: int, t: int| 0 <= g < n_sel && 0 <= t < n_groups ==>
                group_cost(s.len@[s.selector@[g] as int]@, s.mtfv@, group_start(g), group_end(g, n_mtf as int))
                    <= #[trigger] group_cost(s.len@[t]@, s.mtfv@, group_start(g), group_end(g, n_mtf as int)),
            forall|g: int, t: int| 0 <= g < n_sel && 0 <= t < s.selector@[g] ==>
                group_cost(s.len@[s.selector@[g] as int]@, s.mtfv@, group_start(g), group_end(g, n_mtf as int))
                    < #[trigger] group_cost(s.len@[t]@, s.mtfv@, group_start(g), group_end(g, n_mtf as int)),
        decreases n_mtf - gs,
    {
        let ge: usize = if gs + 50 < n_mtf { gs + 50 } else { n_mtf };
        assert(ge == group_end(n_sel as int, n_mtf as int));
        let mut bc: u32 = 999999999;
        let mut bt: usize = 0;
        let mut t: usize = 0;
        while t < n_groups
            invariant
                mtf_ready(s),
                alpha == s.nInUse + 2,
                2 <= n_groups <= BZ_N_GROUPS,
                lens_ok(s, n_groups as int, alpha as int, 0, 17),
                n_mtf == s.nMTF,
                gs < ge <= n_mtf,
                ge <= gs + 50,
                t <= n_groups,
                bt < n_groups,
                t == 0 ==> bc == 999999999,
                t > 0 ==> bt < t && bc == group_cost(s.len@[bt as int]@, s.mtfv@, gs as int, ge as int),
                forall|u: int| 0 <= u < t ==> bc <= #[trigger] group_cost(s.len@[u]@, s.mtfv@, gs as int, ge as int),
                forall|u: int| 0 <= u < bt ==> bc < #[trigger] group_cost(s.len@[u]@, s.mtfv@, gs as int, ge as int),
            decreases n_groups - t,
        {
            let mut cost: u32 = 0;
            let mut i: usize = gs;
            while i < ge
                invariant
                    mtf_ready(s),
                    alpha == s.nInUse + 2,
                    lens_ok(s, n_groups as int, alpha as int, 0, 17),
                    n_mtf == s.nMTF,
                    t < n_groups <= BZ_N_GROUPS,
                    gs <= i <= ge <= n_mtf,
                    ge <= gs + 50,
                    cost == group_cost(s.len@[t as int]@, s.mtfv@, gs as int, i as int),
                    cost <= 17 * (i - gs),
                decreases ge - i,
            {
                let sym = s.mtfv[i] as usize;
                assert(sym < alpha);
                assert(s.len@[t as int]@[sym as int] <= 17);
                cost = cost + s.len[t][sym] as u32;
                i = i + 1;
            }
            proof {
                lemma_group_cost_bound(s.len@[t as int]@, s.mtfv@, gs as int, ge as int, alpha as int);
            }
            if cost < bc {
                bc = cost;
                bt = t;
            }
            t = t + 1;
        }
        s.selector.set(n_sel, bt as u8);
        n_sel = n_sel + 1;
        gs = ge;
    }
    proof {
        assert(n_sel == groups_count(n_mtf as int));
    }
    n_sel
}

} // verus!

verus! {

/// How often symbol `v` occurs in `mtfv[lo .. hi]`.
pub open spec fn sym_count(mtfv: Seq<u16>, lo: int, hi: int, v: int) -> nat
    decreases hi - lo,
{
    if hi <= lo { 0 } else { sym_count(mtfv, lo, hi - 1, v) + (if mtfv[hi - 1] as int == v { 1nat } else { 0nat }) }
}

/// How often symbol `v` occurs in the first `g` groups that chose table `t`.
pub open spec fn table_freq(sel: Seq<u8>, mtfv: Seq<u16>, n_mtf: int, t: int, v: int, g: int) -> nat
    decreases g,
{
    if g <= 0 {
        0
    } else {
        table_freq(sel, mtfv, n_mtf, t, v, g - 1) + (if sel[g - 1] as int == t {
            sym_count(mtfv, group_start(g - 1), group_end(g - 1, n_mtf), v)
        } else {
            0nat
        })
    }
}

proof fn lemma_sym_count_le(mtfv: Seq<u16>, lo: int, hi: int, v: int)
    requires
        lo <= hi,
    ensures
        sym_count(mtfv, lo, hi, v) <= hi - lo,
    decreases hi - lo,
{
    if hi > lo {
        lemma_sym_count_le(mtfv, lo, hi - 1, v);
    }
}

proof fn lemma_table_freq_le(sel: Seq<u8>, mtfv: Seq<u16>, n_mtf: int, t: int, v: int, g: int)
    requires
        0 <= g,
        0 <= n_mtf,
    ensures
        table_freq(sel, mtfv, n_mtf, t, v, g) <= 50 * g,
    decreases g,
{
    if g > 0 {
        lemma_table_freq_le(sel, mtfv, n_mtf, t, v, g - 1);
        let lo = group_start(g - 1);
        let hi = group_end(g - 1, n_mtf);
        if lo <= hi {
            lemma_sym_count_le(mtfv, lo, hi, v);
        }
    }
}

/// Counts, for each table, how often each symbol is coded with it.
fn count_table_freqs(s: &mut EState, n_groups: usize, alpha: usize, n_sel: usize)
    requires
        mtf_ready(old(s)),
        alpha == old(s).nInUse + 2,
        2 <= n_groups <= BZ_N_GROUPS,
        n_sel == groups_count(old(s).nMTF as int),
        1 <= n_sel <= 18001,
        forall|k: int| 0 <= k < n_sel ==> (#[trigger] old(s).selector@[k] as int) < n_groups,
    ensures
        mtf_ready(final(s)),
        same_but_tables(old(s), &*final(s)),
        final(s).writer == old(s).writer,
        final(s).len@ == old(s).len@,
        final(s).code@ == old(s).code@,
        final(s).selector@ == old(s).selector@,
        final(s).selectorMtf@ == old(s).selectorMtf@,
        forall|t: int, v: int| 0 <= t < n_groups && 0 <= v < alpha ==>
            #[trigger] final(s).rfreq@[t]@[v] == table_freq(final(s).selector@, final(s).mtfv@, final(s).nMTF as int, t, v, n_sel as int),
        forall|t: int, v: int| 0 <= t < n_groups && 0 <= v < alpha ==>
            0 <= #[trigger] final(s).rfreq@[t]@[v] < 0x80_0000,
{
    let n_mtf = s.nMTF as usize;
    assert(n_mtf <= 900000);
    let mut t: usize = 0;
    while t < n_groups
        invariant
            mtf_ready(s),
            same_but_tables(old(s), &*s),
            s.writer == old(s).writer,
            s.len@ == old(s).len@,
            s.code@ == old(s).code@,
            s.selector@ == old(s).selector@,
            s.selectorMtf@ == old(s).selectorMtf@,
            alpha == s.nInUse + 2,
            3 <= alpha <= BZ_MAX_ALPHA_SIZE,
            n_mtf == s.nMTF,
            1 <= n_mtf <= 900000,
            n_sel == groups_count(n_mtf as int),
            1 <= n_sel <= 18001,
            t <= n_groups <= BZ_N_GROUPS,
            forall|u: int, v: int| 0 <= u < t && 0 <= v < alpha ==>
                #[trigger] s.rfreq@[u]@[v] == table_freq(s.selector@, s.mtfv@, n_mtf as int, u, v, n_sel as int),
            forall|u: int, v: int| 0 <= u < t && 0 <= v < alpha ==>
                0 <= #[trigger] s.rfreq@[u]@[v] < 0x80_0000,
        decreases n_groups - t,
    {
        let mut row: Vec<i32> = row_copy_i32(&s.rfreq[t]);
        let mut v: usize = 0;
        while v < alpha
            invariant
                v <= alpha <= BZ_MAX_ALPHA_SIZE,
                row@.len() == BZ_MAX_ALPHA_SIZE,
                forall|w: int| 0 <= w < v ==> #[trigger] row@[w] == 0,
            decreases alpha - v,
        {
            row.set(v, 0);
            v = v + 1;
        }
        let mut g: usize = 0;
        while g < n_sel
            invariant
                mtf_ready(s),
                alpha == s.nInUse + 2,
                3 <= alpha <= BZ_MAX_ALPHA_SIZE,
                n_mtf == s.nMTF,
                1 <= n_mtf <= 900000,
                n_sel == groups_count(n_mtf as int),
                1 <= n_sel <= 18001,
                t < n_groups <= BZ_N_GROUPS,
                g <= n_sel,
                row@.len() == BZ_MAX_ALPHA_SIZE,
                forall|w: int| 0 <= w < alpha ==>
                    #[trigger] row@[w] == table_freq(s.selector@, s.mtfv@, n_mtf as int, t as int, w, g as int),
            decreases n_sel - g,
        {
            proof {
                assert forall|w: int| 0 <= w < alpha implies #[trigger] row@[w] <= 50 * g by {
                    lemma_table_freq_le(s.selector@, s.mtfv@, n_mtf as int, t as int, w, g as int);
                }
            }
            if s.selector[g] as usize == t {
                let gs: usize = 50 * g;
                let ge: usize = if gs + 50 < n_mtf { gs + 50 } else { n_mtf };
                assert(gs == group_start(g as int) && ge == group_end(g as int, n_mtf as int));
                let ghost base = row@;
                let mut i: usize = gs;
                while i < ge
                    invariant
                        mtf_ready(s),
                        alpha == s.nInUse + 2,
                        3 <= alpha <= BZ_MAX_ALPHA_SIZE,
                        n_mtf == s.nMTF,
                        gs <= i <= ge <= n_mtf,
                        ge <= gs + 50,
                        gs == 50 * g,
                        g < n_sel <= 18001,
                        row@.len() == BZ_MAX_ALPHA_SIZE,
                        base.len() == BZ_MAX_ALPHA_SIZE,
                        forall|w: int| 0 <= w < alpha ==> #[trigger] base[w] <= 50 * g,
                        forall|w: int| 0 <= w < alpha ==>
                            #[trigger] row@[w] == base[w] + sym_count(s.mtfv@, gs as int, i as int, w),
                    decreases ge - i,
                {
                    let sym = s.mtfv[i] as usize;
                    assert(sym < alpha);
                    proof {
                        lemma_sym_count_le(s.mtfv@, gs as int, i as int, sym as int);
                    }
                    row.set(sym, row[sym] + 1);
                    i = i + 1;
                    assert forall|w: int| 0 <= w < alpha implies
                        #[trigger] row@[w] == base[w] + sym_count(s.mtfv@, gs as int, i as int, w) by {
                    }
                }
            }
            g = g + 1;
        }
        proof {
            assert forall|w: int| 0 <= w < alpha implies 0 <= #[trigger] row@[w] < 0x80_0000 by {
                lemma_table_freq_le(s.selector@, s.mtfv@, n_mtf as int, t as int, w, n_sel as int);
            }
        }
        s.rfreq.set(t, row);
        t = t + 1;
    }
}

/// Rebuilds each table's code lengths from the frequencies it was used for, limited to 17.
fn make_table_lens(s: &mut EState, n_groups: usize, alpha: usize)
    requires
        mtf_ready(old(s)),
        alpha == old(s).nInUse + 2,
        2 <= n_groups <= BZ_N_GROUPS,
        forall|t: int, v: int| 0 <= t < n_groups && 0 <= v < alpha ==>
            0 <= #[trigger] old(s).rfreq@[t]@[v] < 0x80_0000,
    ensures
        mtf_ready(final(s)),
        same_but_tables(old(s), &*final(s)),
        final(s).writer == old(s).writer,
        final(s).rfreq@ == old(s).rfreq@,
        final(s).code@ == old(s).code@,
        final(s).selector@ == old(s).selector@,
        final(s).selectorMtf@ == old(s).selectorMtf@,
        lens_ok(final(s), n_groups as int, alpha as int, 1, 17),
{
    let mut t: usize = 0;
    while t < n_groups
        invariant
            mtf_ready(s),
            same_but_tables(old(s), &*s),
            s.writer == old(s).writer,
            s.rfreq@ == old(s).rfreq@,
            s.code@ == old(s).code@,
            s.selector@ == old(s).selector@,
            s.selectorMtf@ == old(s).selectorMtf@,
            alpha == s.nInUse + 2,
            3 <= alpha <= BZ_MAX_ALPHA_SIZE,
            t <= n_groups <= BZ_N_GROUPS,
            lens_ok(s, t as int, alpha as int, 1, 17),
            forall|u: int, v: int| 0 <= u < n_groups && 0 <= v < alpha ==>
                0 <= #[trigger] s.rfreq@[u]@[v] < 0x80_0000,
        decreases n_groups - t,
    {
        assert(forall|v: int| 0 <= v < alpha ==> 0 <= #[trigger] s.rfreq@[t as int]@[v] < 0x80_0000);
        let mut row: Vec<u8> = row_copy_u8(&s.len[t]);
        BZ2_hbMakeCodeLengths(&mut row, &s.rfreq[t], alpha as i32, 17);
        s.len.set(t, row);
        t = t + 1;
    }
}

} // verus!

verus! {

/// Whether any of `in_use[lo .. hi]` holds.
pub open spec fn any_in(in_use: Seq<bool>, lo: int, hi: int) -> bool
    decreases hi - lo,
{
    if hi <= lo { false } else { any_in(in_use, lo, hi - 1) || in_use[hi - 1] }
}

/// One bit for each of the first `n` ranges of 16 byte values: whether any is in use.
pub open spec fn map_summary_bits(in_use: Seq<bool>, n: int) -> Seq<bool>
    decreases n,
{
    if n <= 0 { seq![] } else { map_summary_bits(in_use, n - 1).push(any_in(in_use, 16 * (n - 1), 16 * n)) }
}

/// The 16 flags of each of the first `n` ranges that has any byte in use.
pub open spec fn map_detail_bits(in_use: Seq<bool>, n: int) -> Seq<bool>
    decreases n,
{
    if n <= 0 {
        seq![]
    } else {
        map_detail_bits(in_use, n - 1) + (if any_in(in_use, 16 * (n - 1), 16 * n) {
            in_use.subrange(16 * (n - 1), 16 * n)
        } else {
            seq![]
        })
    }
}

/// The coded map of byte values in use.
pub open spec fn map_bits(in_use: Seq<bool>) -> Seq<bool> {
    map_summary_bits(in_use, 16) + map_detail_bits(in_use, 16)
}

/// `k` in unary: `k` ones and a zero.
pub open spec fn unary_bits(k: int) -> Seq<bool> {
    Seq::new((k + 1) as nat, |j: int| j < k)
}

/// The first `n` selectors, each in unary.
pub open spec fn selector_bits(sm: Seq<u8>, n: int) -> Seq<bool>
    decreases n,
{
    if n <= 0 { seq![] } else { selector_bits(sm, n - 1) + unary_bits(sm[n - 1] as int) }
}

/// `n` copies of `p`.
pub open spec fn repeat_bits(p: Seq<bool>, n: int) -> Seq<bool>
    decreases n,
{
    if n <= 0 { seq![] } else { repeat_bits(p, n - 1) + p }
}

/// Steps from one code length to the next: `10` up, `11` down, then `0`.
pub open spec fn delta_bits(from: int, to: int) -> Seq<bool> {
    (if to > from { repeat_bits(seq![true, false], to - from) } else { repeat_bits(seq![true, true], from - to) }).push(false)
}

/// The length steps for the first `n` symbols of a table, starting from its first length.
pub open spec fn row_delta_bits(row: Seq<u8>, n: int) -> Seq<bool>
    decreases n,
{
    if n <= 0 {
        seq![]
    } else {
        row_delta_bits(row, n - 1) + delta_bits(if n == 1 { row[0] as int } else { row[n - 2] as int }, row[n - 1] as int)
    }
}

/// The code lengths of the first `nt` tables, each as its first length in 5 bits and steps.
pub open spec fn all_len_bits(lens: Seq<Vec<u8>>, nt: int, alpha: int) -> Seq<bool>
    decreases nt,
{
    if nt <= 0 {
        seq![]
    } else {
        all_len_bits(lens, nt - 1, alpha) + bits_of(lens[nt - 1]@[0] as u32, 5) + row_delta_bits(lens[nt - 1]@, alpha)
    }
}

/// The codes of the first `n` symbols, each with the table chosen for its group.
pub open spec fn sym_bits(mtfv: Seq<u16>, sel: Seq<u8>, lens: Seq<Vec<u8>>, codes: Seq<Vec<i32>>, n: int) -> Seq<bool>
    decreases n,
{
    if n <= 0 {
        seq![]
    } else {
        let t = sel[(n - 1) / 50] as int;
        let v = mtfv[n - 1] as int;
        sym_bits(mtfv, sel, lens, codes, n - 1) + bits_of(codes[t]@[v] as u32, lens[t]@[v] as nat)
    }
}

/// Writes the map of byte values in use.
fn send_map(s: &mut EState)
    requires
        old(s).wf(),
    ensures
        final(s).wf(),
        final(s).writer.bits() == old(s).writer.bits() + map_bits(old(s).inUse@),
        same_but_tables(old(s), &*final(s)),
        final(s).len@ == old(s).len@,
        final(s).code@ == old(s).code@,
        final(s).selector@ == old(s).selector@,
        final(s).selectorMtf@ == old(s).selectorMtf@,
{
    let ghost b0 = s.writer.bits();
    let mut in_use16: Vec<bool> = Vec::new();
    let mut i: usize = 0;
    while i < 16
        invariant
            i <= 16,
            s.inUse@.len() == 256,
            in_use16@.len() == i,
            forall|k: int| 0 <= k < i ==> #[trigger] in_use16@[k] == any_in(s.inUse@, 16 * k, 16 * k + 16),
        decreases 16 - i,
    {
        let mut found = false;
        let mut j: usize = 0;
        while j < 16
            invariant
                i < 16,
                j <= 16,
                s.inUse@.len() == 256,
                found == any_in(s.inUse@, 16 * i, 16 * i + j),
            decreases 16 - j,
        {
            if s.inUse[i * 16 + j] {
                found = true;
            }
            j = j + 1;
        }
        in_use16.push(found);
        i = i + 1;
    }
    let mut i: usize = 0;
    while i < 16
        invariant
            i <= 16,
            s.wf(),
            same_but_tables(old(s), &*s),
            s.len@ == old(s).len@,
            s.code@ == old(s).code@,
            s.selector@ == old(s).selector@,
            s.selectorMtf@ == old(s).selectorMtf@,
            in_use16@.len() == 16,
            forall|k: int| 0 <= k < 16 ==> #[trigger] in_use16@[k] == any_in(s.inUse@, 16 * k, 16 * k + 16),
            s.writer.bits() == b0 + map_summary_bits(s.inUse@, i as int),
        decreases 16 - i,
    {
        s.writer.put_bit(in_use16[i]);
        i = i + 1;
        assert(s.writer.bits() =~= b0 + map_summary_bits(s.inUse@, i as int));
    }
    let ghost b1 = s.writer.bits();
    let mut i: usize = 0;
    while i < 16
        invariant
            i <= 16,
            s.wf(),
            same_but_tables(old(s), &*s),
            s.len@ == old(s).len@,
            s.code@ == old(s).code@,
            s.selector@ == old(s).selector@,
            s.selectorMtf@ == old(s).selectorMtf@,
            in_use16@.len() == 16,
            forall|k: int| 0 <= k < 16 ==> #[trigger] in_use16@[k] == any_in(s.inUse@, 16 * k, 16 * k + 16),
            s.writer.bits() == b1 + map_detail_bits(s.inUse@, i as int),
        decreases 16 - i,
    {
        if in_use16[i] {
            let ghost b2 = s.writer.bits();
            let mut j: usize = 0;
            while j < 16
                invariant
                    i < 16,
                    j <= 16,
                    s.wf(),
                    same_but_tables(old(s), &*s),
                    s.len@ == old(s).len@,
                    s.code@ == old(s).code@,
                    s.selector@ == old(s).selector@,
                    s.selectorMtf@ == old(s).selectorMtf@,
                    s.writer.bits() == b2 + s.inUse@.subrange(16 * i, 16 * i + j),
                decreases 16 - j,
            {
                s.writer.put_bit(s.inUse[i * 16 + j]);
                j = j + 1;
                assert(s.writer.bits() =~= b2 + s.inUse@.subrange(16 * i, 16 * i + j));
            }
        }
        i = i + 1;
        assert(s.writer.bits() =~= b1 + map_detail_bits(s.inUse@, i as int));
    }
    assert(s.writer.bits() =~= b0 + map_bits(old(s).inUse@));
}

} // verus!

verus! {

/// Writes the first `n_sel` coded selectors, each in unary.
fn send_selectors(s: &mut EState, n_sel: usize)
    requires
        old(s).wf(),
        n_sel <= BZ_MAX_SELECTORS,
    ensures
        final(s).wf(),
        final(s).writer.bits() == old(s).writer.bits() + selector_bits(old(s).selectorMtf@, n_sel as int),
        same_but_tables(old(s), &*final(s)),
        final(s).len@ == old(s).len@,
        final(s).code@ == old(s).code@,
        final(s).selector@ == old(s).selector@,
        final(s).selectorMtf@ == old(s).selectorMtf@,
{
    let ghost b0 = s.writer.bits();
    let mut i: usize = 0;
    while i < n_sel
        invariant
            i <= n_sel <= BZ_MAX_SELECTORS,
            s.wf(),
            same_but_tables(old(s), &*s),
            s.len@ == old(s).len@,
            s.code@ == old(s).code@,
            s.selector@ == old(s).selector@,
            s.selectorMtf@ == old(s).selectorMtf@,
            s.writer.bits() == b0 + selector_bits(s.selectorMtf@, i as int),
        decreases n_sel - i,
    {
        let ghost b1 = s.writer.bits();
        let k = s.selectorMtf[i];
        let mut j: u8 = 0;
        while j < k
            invariant
                s.wf(),
                same_but_tables(old(s), &*s),
                s.len@ == old(s).len@,
                s.code@ == old(s).code@,
                s.selector@ == old(s).selector@,
                s.selectorMtf@ == old(s).selectorMtf@,
                j <= k,
                s.writer.bits() == b1 + Seq::new(j as nat, |x: int| true),
            decreases k - j,
        {
            s.writer.put_bit(true);
            j = j + 1;
            assert(s.writer.bits() =~= b1 + Seq::new(j as nat, |x: int| true));
        }
        s.writer.put_bit(false);
        assert(s.writer.bits() =~= b1 + unary_bits(k as int));
        i = i + 1;
        assert(s.writer.bits() =~= b0 + selector_bits(s.selectorMtf@, i as int));
    }
}

/// Writes the code lengths of the first `n_groups` tables.
fn send_lens(s: &mut EState, n_groups: usize, alpha: usize)
    requires
        old(s).wf(),
        1 <= alpha <= BZ_MAX_ALPHA_SIZE,
        n_groups <= BZ_N_GROUPS,
        lens_ok(old(s), n_groups as int, alpha as int, 1, 17),
    ensures
        final(s).wf(),
        final(s).writer.bits() == old(s).writer.bits() + all_len_bits(old(s).len@, n_groups as int, alpha as int),
        same_but_tables(old(s), &*final(s)),
        final(s).len@ == old(s).len@,
        final(s).code@ == old(s).code@,
        final(s).selector@ == old(s).selector@,
        final(s).selectorMtf@ == old(s).selectorMtf@,
{
    let ghost b0 = s.writer.bits();
    let mut t: usize = 0;
    while t < n_groups
        invariant
            t <= n_groups <= BZ_N_GROUPS,
            1 <= alpha <= BZ_MAX_ALPHA_SIZE,
            s.wf(),
            same_but_tables(old(s), &*s),
            s.len@ == old(s).len@,
            s.code@ == old(s).code@,
            s.selector@ == old(s).selector@,
            s.selectorMtf@ == old(s).selectorMtf@,
            lens_ok(s, n_groups as int, alpha as int, 1, 17),
            s.writer.bits() == b0 + all_len_bits(s.len@, t as int, alpha as int),
        decreases n_groups - t,
    {
        let ghost row = s.len@[t as int]@;
        let mut curr: u8 = s.len[t][0];
        s.writer.write(5, curr as u32);
        let ghost b1 = s.writer.bits();
        let mut i: usize = 0;
        while i < alpha
            invariant
                t < n_groups <= BZ_N_GROUPS,
                i <= alpha <= BZ_MAX_ALPHA_SIZE,
                s.wf(),
                same_but_tables(old(s), &*s),
                s.len@ == old(s).len@,
                s.code@ == old(s).code@,
                s.selector@ == old(s).selector@,
                s.selectorMtf@ == old(s).selectorMtf@,
                lens_ok(s, n_groups as int, alpha as int, 1, 17),
                row == s.len@[t as int]@,
                curr == (if i == 0 { row[0] } else { row[i - 1] }),
                1 <= curr <= 17,
                s.writer.bits() == b1 + row_delta_bits(row, i as int),
            decreases alpha - i,
        {
            let target = s.len[t][i];
            let ghost from = curr as int;
            let ghost b2 = s.writer.bits();
            while curr < target
                invariant
                    s.wf(),
                    same_but_tables(old(s), &*s),
                    s.len@ == old(s).len@,
                    s.code@ == old(s).code@,
                    s.selector@ == old(s).selector@,
                    s.selectorMtf@ == old(s).selectorMtf@,
                    from <= curr <= 17,
                    target <= 17,
                    curr <= target || curr == from,
                    s.writer.bits() == b2 + repeat_bits(seq![true, false], curr - from),
                decreases target - curr,
            {
                s.writer.put_pair(true, false);
                curr = curr + 1;
                assert(s.writer.bits() =~= b2 + repeat_bits(seq![true, false], curr - from));
            }
            let ghost b3 = s.writer.bits();
            let ghost mid = curr as int;
            while curr > target
                invariant
                    s.wf(),
                    same_but_tables(old(s), &*s),
                    s.len@ == old(s).len@,
                    s.code@ == old(s).code@,
                    s.selector@ == old(s).selector@,
                    s.selectorMtf@ == old(s).selectorMtf@,
                    target <= curr <= mid,
                    s.writer.bits() == b3 + repeat_bits(seq![true, true], mid - curr),
                decreases curr - target,
            {
                s.writer.put_pair(true, true);
                curr = curr - 1;
                assert(s.writer.bits() =~= b3 + repeat_bits(seq![true, true], mid - curr));
            }
            s.writer.put_bit(false);
            proof {
                if target > from {
                    assert(mid == target);
                    assert(b3 == b2 + repeat_bits(seq![true, false], target - from));
                    assert(repeat_bits(seq![true, true], 0) =~= seq![]);
                } else {
                    assert(mid == from);
                    assert(repeat_bits(seq![true, false], 0) =~= seq![]);
                    assert(b3 =~= b2);
                }
                assert(s.writer.bits() =~= b2 + delta_bits(from, target as int));
            }
            i = i + 1;
            assert(s.writer.bits() =~= b1 + row_delta_bits(row, i as int));
        }
        t = t + 1;
        assert(s.writer.bits() =~= b0 + all_len_bits(s.len@, t as int, alpha as int));
    }
}

} // verus!

verus! {

/// Writes the code of every symbol, with the table selected for its group.
fn send_syms(s: &mut EState, n_groups: usize, alpha: usize, n_sel: usize)
    requires
        mtf_ready(old(s)),
        alpha == old(s).nInUse + 2,
        2 <= n_groups <= BZ_N_GROUPS,
        n_sel == groups_count(old(s).nMTF as int),
        forall|k: int| 0 <= k < n_sel ==> (#[trigger] old(s).selector@[k] as int) < n_groups,
        lens_ok(old(s), n_groups as int, alpha as int, 1, 17),
    ensures
        final(s).wf(),
        mtf_ready(final(s)),
        final(s).writer.bits() == old(s).writer.bits()
            + sym_bits(old(s).mtfv@, old(s).selector@, old(s).len@, old(s).code@, old(s).nMTF as int),
        same_but_tables(old(s), &*final(s)),
        final(s).len@ == old(s).len@,
        final(s).code@ == old(s).code@,
        final(s).selector@ == old(s).selector@,
        final(s).selectorMtf@ == old(s).selectorMtf@,
{
    let ghost b0 = s.writer.bits();
    let n_mtf = s.nMTF as usize;
    assert(n_mtf <= 900000);
    let mut g: usize = 0;
    let mut gs: usize = 0;
    while gs < n_mtf
        invariant
            mtf_ready(s),
            same_but_tables(old(s), &*s),
            s.len@ == old(s).len@,
            s.code@ == old(s).code@,
            s.selector@ == old(s).selector@,
            s.selectorMtf@ == old(s).selectorMtf@,
            alpha == s.nInUse + 2,
            2 <= n_groups <= BZ_N_GROUPS,
            n_mtf == s.nMTF,
            1 <= n_mtf <= 900000,
            n_sel == groups_count(n_mtf as int),
            forall|k: int| 0 <= k < n_sel ==> (#[trigger] s.selector@[k] as int) < n_groups,
            lens_ok(s, n_groups as int, alpha as int, 1, 17),
            gs <= n_mtf,
            gs < n_mtf ==> gs == 50 * g,
            gs <= 50 * g,
            50 * g < n_mtf + 50,
            s.writer.bits() == b0 + sym_bits(s.mtfv@, s.selector@, s.len@, s.code@, gs as int),
        decreases n_mtf - gs,
    {
        let ge: usize = if gs + 50 < n_mtf { gs + 50 } else { n_mtf };
        assert(g < n_sel);
        let t = s.selector[g] as usize;
        let mut i: usize = gs;
        while i < ge
            invariant
                mtf_ready(s),
                same_but_tables(old(s), &*s),
                s.len@ == old(s).len@,
                s.code@ == old(s).code@,
                s.selector@ == old(s).selector@,
                s.selectorMtf@ == old(s).selectorMtf@,
                alpha == s.nInUse + 2,
                n_mtf == s.nMTF,
                t < n_groups <= BZ_N_GROUPS,
                t == s.selector@[g as int],
                lens_ok(s, n_groups as int, alpha as int, 1, 17),
                gs == 50 * g,
                gs <= i <= ge <= n_mtf,
                ge <= gs + 50,
                s.writer.bits() == b0 + sym_bits(s.mtfv@, s.selector@, s.len@, s.code@, i as int),
            decreases ge - i,
        {
            let v = s.mtfv[i] as usize;
            assert(v < alpha);
            assert(i as int / 50 == g);
            let n = s.len[t][v];
            assert(1 <= n <= 17);
            s.writer.write(n as u32, s.code[t][v] as u32);
            i = i + 1;
            assert(s.writer.bits() =~= b0 + sym_bits(s.mtfv@, s.selector@, s.len@, s.code@, i as int));
        }
        g = g + 1;
        gs = ge;
    }
}

/// The code-length table is complete for the first `alpha` symbols of each of the first
/// `n_groups` tables: lengths in `1 ..= 17`, codes canonical for them.
pub open spec fn codes_ok(s: &EState, n_groups: int, alpha: int) -> bool {
    &&& lens_ok(s, n_groups, alpha, 1, 17)
    &&& forall|t: int, v: int| 0 <= t < n_groups && 0 <= v < alpha ==>
        #[trigger] s.code@[t]@[v] == canonical_code(s.len@[t]@.subrange(0, alpha), min_len(s.len@[t]@, alpha), v)
}

/// The shortest of the first `n` lengths of `row` (32 when `n` is 0).
pub open spec fn min_len(row: Seq<u8>, n: int) -> int
    decreases n,
{
    if n <= 0 { 32 } else if (row[n - 1] as int) < min_len(row, n - 1) { row[n - 1] as int } else { min_len(row, n - 1) }
}

/// The longest of the first `n` lengths of `row` (0 when `n` is 0).
pub open spec fn max_len(row: Seq<u8>, n: int) -> int
    decreases n,
{
    if n <= 0 { 0 } else if (row[n - 1] as int) > max_len(row, n - 1) { row[n - 1] as int } else { max_len(row, n - 1) }
}

proof fn lemma_min_max_len(row: Seq<u8>, n: int)
    requires
        1 <= n <= row.len(),
        forall|v: int| 0 <= v < n ==> 1 <= #[trigger] row[v] <= 17,
    ensures
        1 <= min_len(row, n) <= max_len(row, n) <= 17,
        forall|v: int| 0 <= v < n ==> min_len(row, n) <= #[trigger] row[v] <= max_len(row, n),
    decreases n,
{
    assert(min_len(row, 0) == 32 && max_len(row, 0) == 0);
    if n > 1 {
        lemma_min_max_len(row, n - 1);
    }
}

/// Gives each table the canonical codes of its lengths.
fn assign_table_codes(s: &mut EState, n_groups: usize, alpha: usize)
    requires
        old(s).wf(),
        3 <= alpha <= BZ_MAX_ALPHA_SIZE,
        2 <= n_groups <= BZ_N_GROUPS,
        lens_ok(old(s), n_groups as int, alpha as int, 1, 17),
    ensures
        final(s).wf(),
        codes_ok(final(s), n_groups as int, alpha as int),
        same_but_tables(old(s), &*final(s)),
        final(s).writer == old(s).writer,
        final(s).len@ == old(s).len@,
        final(s).selector@ == old(s).selector@,
        final(s).selectorMtf@ == old(s).selectorMtf@,
{
    let mut t: usize = 0;
    while t < n_groups
        invariant
            t <= n_groups <= BZ_N_GROUPS,
            3 <= alpha <= BZ_MAX_ALPHA_SIZE,
            s.wf(),
            same_but_tables(old(s), &*s),
            s.writer == old(s).writer,
            s.len@ == old(s).len@,
            s.selector@ == old(s).selector@,
            s.selectorMtf@ == old(s).selectorMtf@,
            lens_ok(s, n_groups as int, alpha as int, 1, 17),
            forall|u: int, v: int| 0 <= u < t && 0 <= v < alpha ==>
                #[trigger] s.code@[u]@[v] == canonical_code(s.len@[u]@.subrange(0, alpha as int), min_len(s.len@[u]@, alpha as int), v),
        decreases n_groups - t,
    {
        let ghost row = s.len@[t as int]@;
        let mut min_l: i32 = 32;
        let mut max_l: i32 = 0;
        let mut i: usize = 0;
        while i < alpha
            invariant
                t < n_groups <= BZ_N_GROUPS,
                i <= alpha <= BZ_MAX_ALPHA_SIZE,
                s.wf(),
                row == s.len@[t as int]@,
                min_l == min_len(row, i as int),
                max_l == max_len(row, i as int),
            decreases alpha - i,
        {
            let l = s.len[t][i] as i32;
            if l > max_l {
                max_l = l;
            }
            if l < min_l {
                min_l = l;
            }
            i = i + 1;
        }
        proof {
            assert forall|v: int| 0 <= v < alpha implies 1 <= #[trigger] row[v] <= 17 by {
                assert(s.len@[t as int]@[v] == row[v]);
            }
            lemma_min_max_len(row, alpha as int);
            assert forall|v: int| 0 <= v < alpha implies min_l <= #[trigger] row[v] <= max_l by {}
        }
        let mut crow: Vec<i32> = row_copy_i32(&s.code[t]);
        BZ2_hbAssignCodes(&mut crow, &s.len[t], min_l, max_l, alpha);
        s.code.set(t, crow);
        t = t + 1;
    }
}

} // verus!

verus! {

/// The table list after decoding the first `i` coded selectors: it starts as `0 .. ng`,
/// and each coded selector names a position whose table moves to the front.
pub open spec fn mtf_list(codes: Seq<u8>, i: int, ng: int) -> Seq<u8>
    decreases i,
{
    if i <= 0 {
        Seq::new(ng as nat, |k: int| k as u8)
    } else {
        move_front(mtf_list(codes, i - 1, ng), codes[i - 1] as int)
    }
}

proof fn lemma_mtf_list_prefix(a: Seq<u8>, b: Seq<u8>, i: int, ng: int)
    requires
        0 <= i <= a.len(),
        i <= b.len(),
        forall|k: int| 0 <= k < i ==> a[k] == b[k],
    ensures
        mtf_list(a, i, ng) == mtf_list(b, i, ng),
    decreases i,
{
    if i > 0 {
        lemma_mtf_list_prefix(a, b, i - 1, ng);
    }
}

/// Move-to-front codes the selectors: `selectorMtf[i]` is where `selector[i]` stands in
/// the table list after the earlier selectors.
pub open spec fn selectors_coded(s: &EState, n_sel: int, ng: int) -> bool {
    forall|i: int| 0 <= i < n_sel ==> {
        &&& (#[trigger] s.selectorMtf@[i] as int) < ng
        &&& (s.selector@[i] as int) < ng
        &&& mtf_list(s.selectorMtf@, i, ng)[s.selectorMtf@[i] as int] == s.selector@[i]
    }
}

/// Codes the selectors by move-to-front.
fn code_selectors(s: &mut EState, n_groups: usize, n_sel: usize)
    requires
        old(s).wf(),
        2 <= n_groups <= BZ_N_GROUPS,
        n_sel <= BZ_MAX_SELECTORS,
        forall|k: int| 0 <= k < n_sel ==> (#[trigger] old(s).selector@[k] as int) < n_groups,
    ensures
        final(s).wf(),
        same_but_tables(old(s), &*final(s)),
        final(s).writer == old(s).writer,
        final(s).len@ == old(s).len@,
        final(s).code@ == old(s).code@,
        final(s).selector@ == old(s).selector@,
        selectors_coded(final(s), n_sel as int, n_groups as int),
{
    let mut pos: Vec<u8> = Vec::new();
    let mut k: usize = 0;
    while k < n_groups
        invariant
            k <= n_groups <= BZ_N_GROUPS,
            pos@ == Seq::new(k as nat, |x: int| x as u8),
        decreases n_groups - k,
    {
        pos.push(k as u8);
        k = k + 1;
        assert(pos@ =~= Seq::new(k as nat, |x: int| x as u8));
    }
    let ghost mut inv: Seq<int> = Seq::new(n_groups as nat, |v: int| v);
    assert(perm_u8(pos@, n_groups as int, inv));
    assert(pos@ == mtf_list(s.selectorMtf@, 0, n_groups as int));
    let mut i: usize = 0;
    while i < n_sel
        invariant
            i <= n_sel <= BZ_MAX_SELECTORS,
            2 <= n_groups <= BZ_N_GROUPS,
            s.wf(),
            same_but_tables(old(s), &*s),
            s.writer == old(s).writer,
            s.len@ == old(s).len@,
            s.code@ == old(s).code@,
            s.selector@ == old(s).selector@,
            forall|k: int| 0 <= k < n_sel ==> (#[trigger] s.selector@[k] as int) < n_groups,
            perm_u8(pos@, n_groups as int, inv),
            pos@.len() == n_groups,
            pos@ == mtf_list(s.selectorMtf@, i as int, n_groups as int),
            selectors_coded(s, i as int, n_groups as int),
        decreases n_sel - i,
    {
        let v = s.selector[i];
        let ghost before = s.selectorMtf@;
        let (j, g) = move_to_front(&mut pos, n_groups, v, Ghost(inv));
        proof {
            inv = g@;
        }
        s.selectorMtf.set(i, j as u8);
        proof {
            lemma_mtf_list_prefix(before, s.selectorMtf@, i as int, n_groups as int);
            lemma_mtf_list_prefix(before, s.selectorMtf@, i as int, n_groups as int);
            assert(pos@ == mtf_list(s.selectorMtf@, i + 1, n_groups as int));
            assert forall|q: int| 0 <= q < i + 1 implies {
                &&& (#[trigger] s.selectorMtf@[q] as int) < n_groups
                &&& (s.selector@[q] as int) < n_groups
                &&& mtf_list(s.selectorMtf@, q, n_groups as int)[s.selectorMtf@[q] as int] == s.selector@[q]
            } by {
                if q < i {
                    lemma_mtf_list_prefix(before, s.selectorMtf@, q, n_groups as int);
                }
            }
        }
        i = i + 1;
    }
}

/// Everything after the block's header fields: the byte map, the table count, the
/// selectors, the code lengths and the coded symbols.
pub open spec fn coded_block_bits(s: &EState) -> Seq<bool> {
    let ng = groups_for(s.nMTF as int);
    let nsel = groups_count(s.nMTF as int);
    let alpha = s.nInUse + 2;
    map_bits(s.inUse@) + bits_of(ng as u32, 3) + bits_of(nsel as u32, 15) + selector_bits(s.selectorMtf@, nsel)
        + all_len_bits(s.len@, ng, alpha as int) + sym_bits(s.mtfv@, s.selector@, s.len@, s.code@, s.nMTF as int)
}

/// Chooses the Huffman tables for the block and the table of each group of 50 symbols,
/// refining the tables over `BZ_N_ITERS` rounds, then gives them canonical codes.
fn build_tables(s: &mut EState) -> (res: (usize, usize))
    requires
        mtf_ready(old(s)),
    ensures
        mtf_ready(final(s)),
        same_but_tables(old(s), &*final(s)),
        final(s).writer == old(s).writer,
        res.0 == groups_for(final(s).nMTF as int),
        res.1 == groups_count(final(s).nMTF as int),
        1 <= res.1 <= 18001,
        codes_ok(final(s), res.0 as int, final(s).nInUse + 2),
        selectors_coded(final(s), res.1 as int, res.0 as int),
{
    let alpha: usize = (s.nInUse + 2) as usize;
    let n_mtf = s.nMTF;
    assert(n_mtf <= 900000);
    let n_groups: usize = if n_mtf < 200 {
        2
    } else if n_mtf < 600 {
        3
    } else if n_mtf < 1200 {
        4
    } else if n_mtf < 2400 {
        5
    } else {
        6
    };
    initial_lens(s, n_groups, alpha);
    let mut n_sel: usize = 0;
    let mut iter: usize = 0;
    while iter < BZ_N_ITERS
        invariant
            iter <= BZ_N_ITERS,
            mtf_ready(s),
            same_but_tables(old(s), &*s),
            s.writer == old(s).writer,
            alpha == s.nInUse + 2,
            n_mtf == s.nMTF,
            n_groups == groups_for(n_mtf as int),
            lens_ok(s, n_groups as int, alpha as int, 0, 17),
            iter > 0 ==> lens_ok(s, n_groups as int, alpha as int, 1, 17),
            iter > 0 ==> n_sel == groups_count(n_mtf as int) && 1 <= n_sel <= 18001,
            iter > 0 ==> forall|k: int| 0 <= k < n_sel ==> (#[trigger] s.selector@[k] as int) < n_groups,
        decreases BZ_N_ITERS - iter,
    {
        proof {
            assert forall|t: int, v: int| 0 <= t < BZ_N_GROUPS && 0 <= v < alpha implies
                #[trigger] s.len@[t]@[v] <= 17 || t >= n_groups by {}
        }
        n_sel = choose_selectors(s, n_groups, alpha);
        count_table_freqs(s, n_groups, alpha, n_sel);
        make_table_lens(s, n_groups, alpha);
        iter = iter + 1;
    }
    code_selectors(s, n_groups, n_sel);
    assign_table_codes(s, n_groups, alpha);
    (n_groups, n_sel)
}

/// Chooses the Huffman tables and writes them with the coded symbols (`sendMTFValues`).
#[verifier::rlimit(50)]
#[verifier::spinoff_prover]
fn sendMTFValues(s: &mut EState)
    requires
        mtf_ready(old(s)),
    ensures
        mtf_ready(final(s)),
        same_but_tables(old(s), &*final(s)),
        codes_ok(final(s), groups_for(final(s).nMTF as int), final(s).nInUse + 2),
        selectors_coded(final(s), groups_count(final(s).nMTF as int), groups_for(final(s).nMTF as int)),
        final(s).writer.bits() == old(s).writer.bits() + coded_block_bits(final(s)),
{
    let (n_groups, n_sel) = build_tables(s);
    let alpha: usize = (s.nInUse + 2) as usize;
    let ghost b0 = s.writer.bits();
    send_map(s);
    s.writer.write(3, n_groups as u32);
    s.writer.write(15, n_sel as u32);
    send_selectors(s, n_sel);
    send_lens(s, n_groups, alpha);
    assert forall|k: int| 0 <= k < n_sel implies (#[trigger] s.selector@[k] as int) < n_groups by {
        assert((s.selectorMtf@[k] as int) < n_groups);
    }
    send_syms(s, n_groups, alpha, n_sel);
    assert(s.writer.bits() =~= b0 + coded_block_bits(s));
}

} // verus!

verus! {

/// The stream header: `BZh` and the block size digit.
pub open spec fn stream_header_bits(block_size_100k: int) -> Seq<bool> {
    bits_of(0x42u32, 8) + bits_of(0x5au32, 8) + bits_of(0x68u32, 8) + bits_of((0x30 + block_size_100k) as u32, 8)
}

/// A block's header: the block magic (the BCD digits of pi), its CRC, a zero
/// (not randomised) bit and where the unrotated block lies among the sorted rotations.
pub open spec fn block_header_bits(crc: u32, orig_ptr: i32) -> Seq<bool> {
    bits_of(0x31u32, 8) + bits_of(0x41u32, 8) + bits_of(0x59u32, 8) + bits_of(0x26u32, 8) + bits_of(0x53u32, 8)
        + bits_of(0x59u32, 8) + bits_of(crc, 32) + bits_of(0u32, 1) + bits_of(orig_ptr as u32, 24)
}

/// The stream trailer: the end magic (the BCD digits of the square root of pi) and the
/// combined CRC.
pub open spec fn stream_trailer_bits(crc: u32) -> Seq<bool> {
    bits_of(0x17u32, 8) + bits_of(0x72u32, 8) + bits_of(0x45u32, 8) + bits_of(0x38u32, 8) + bits_of(0x50u32, 8)
        + bits_of(0x90u32, 8) + bits_of(crc, 32)
}

/// The combined CRC after a block with CRC `block_crc`.
pub open spec fn combine_crc(combined: u32, block_crc: u32) -> u32 {
    (((combined << 1u32) | (combined >> 31u32)) ^ block_crc) as u32
}

/// Everything a call of `BZ2_compressBlock` writes: the stream header for the first block,
/// the block itself if it is not empty, and the trailer for the last one.
pub open spec fn compressed_block_bits(old_s: &EState, s: &EState, is_last_block: bool) -> Seq<bool> {
    (if old_s.blockNo == 1 { stream_header_bits(s.blockSize100k as int) } else { seq![] })
        + (if old_s.nblock > 0 { block_header_bits(s.blockCRC, s.origPtr) + coded_block_bits(s) } else { seq![] })
        + (if is_last_block { stream_trailer_bits(s.combinedCRC) } else { seq![] })
}

/// Writes the stream header to a fresh bit stream.
fn put_stream_header(w: &mut BitWriter, block_size_100k: i32)
    requires
        1 <= block_size_100k <= 9,
    ensures
        final(w).wf(),
        final(w).bits() == stream_header_bits(block_size_100k as int),
{
    *w = BitWriter::new();
    w.put_u8(0x42);
    w.put_u8(0x5a);
    w.put_u8(0x68);
    w.put_u8((0x30 + block_size_100k) as u8);
    assert(w.bits() =~= stream_header_bits(block_size_100k as int));
}

/// Writes the stream trailer and pads the last byte with zeros.
fn put_stream_trailer(w: &mut BitWriter, crc: u32)
    requires
        old(w).wf(),
    ensures
        final(w).wf(),
        ({
            let written = old(w).bits() + stream_trailer_bits(crc);
            &&& final(w).live == 0
            &&& final(w).bits().subrange(0, written.len() as int) == written
            &&& final(w).bits().len() == written.len() + (if written.len() % 8 == 0 { 0int } else { 8 - written.len() % 8 })
            &&& forall|k: int| written.len() <= k < final(w).bits().len() ==> !#[trigger] final(w).bits()[k]
        }),
{
    put_trailer_bits(w, crc);
    w.finish();
}

/// Writes the end magic and the combined CRC.
fn put_trailer_bits(w: &mut BitWriter, crc: u32)
    requires
        old(w).wf(),
    ensures
        final(w).wf(),
        final(w).bits() == old(w).bits() + stream_trailer_bits(crc),
{
    let ghost b0 = w.bits();
    w.put_u8(0x17);
    w.put_u8(0x72);
    w.put_u8(0x45);
    w.put_u8(0x38);
    w.put_u8(0x50);
    w.put_u8(0x90);
    w.put_u32(crc);
    assert(w.bits() =~= b0 + stream_trailer_bits(crc));
}

/// Writes a block's header.
fn put_block_header(w: &mut BitWriter, crc: u32, orig_ptr: i32)
    requires
        old(w).wf(),
    ensures
        final(w).wf(),
        final(w).bits() == old(w).bits() + block_header_bits(crc, orig_ptr),
{
    let ghost b0 = w.bits();
    w.put_u8(0x31);
    w.put_u8(0x41);
    w.put_u8(0x59);
    w.put_u8(0x26);
    w.put_u8(0x53);
    w.put_u8(0x59);
    w.put_u32(crc);
    w.write(1, 0);
    w.write(24, orig_ptr as u32);
    assert(w.bits() =~= b0 + block_header_bits(crc, orig_ptr));
}

/// Writes a sorted block: its header, then its move-to-front and Huffman coded contents.
fn write_block(s: &mut EState)
    requires
        old(s).wf(),
        old(s).nblock >= 1,
        is_perm(old(s).ptr@, old(s).nblock as int),
        0 <= old(s).origPtr < old(s).nblock,
    ensures
        mtf_ready(final(s)),
        same_but_mtf_core(old(s), &*final(s)),
        codes_ok(final(s), groups_for(final(s).nMTF as int), final(s).nInUse + 2),
        selectors_coded(final(s), groups_count(final(s).nMTF as int), groups_for(final(s).nMTF as int)),
        final(s).writer.bits() == old(s).writer.bits() + block_header_bits(final(s).blockCRC, final(s).origPtr)
            + coded_block_bits(final(s)),
{
    let crc = s.blockCRC;
    let orig = s.origPtr;
    put_block_header(&mut s.writer, crc, orig);
    let ghost b1 = s.writer.bits();
    generateMTFValues(s);
    sendMTFValues(s);
    assert(s.writer.bits() =~= b1 + coded_block_bits(s));
}

/// Compresses the collected block (sort, move-to-front, Huffman coding) and writes it,
/// after the stream header for the first block and before the trailer for the last one
/// (`BZ2_compressBlock`).
#[verifier::rlimit(50)]
#[verifier::spinoff_prover]
pub fn BZ2_compressBlock(s: &mut EState, is_last_block: bool)
    requires
        old(s).wf(),
    ensures
        final(s).wf(),
        final(s).block@ == old(s).block@,
        final(s).nblock == old(s).nblock,
        final(s).inUse@ == old(s).inUse@,
        final(s).blockNo == old(s).blockNo,
        final(s).blockSize100k == old(s).blockSize100k,
        final(s).mode == old(s).mode,
        final(s).state == old(s).state,
        final(s).avail_in_expect == old(s).avail_in_expect,
        final(s).state_in_ch == old(s).state_in_ch,
        final(s).state_in_len == old(s).state_in_len,
        final(s).state_out_pos == old(s).state_out_pos,
        final(s).nblockMAX == old(s).nblockMAX,
        final(s).workFactor == old(s).workFactor,
        final(s).verbosity == old(s).verbosity,
        final(s).blockCRC == (if old(s).nblock > 0 { !old(s).blockCRC } else { old(s).blockCRC }),
        final(s).combinedCRC == (if old(s).nblock > 0 { combine_crc(old(s).combinedCRC, final(s).blockCRC) } else { old(s).combinedCRC }),
        old(s).nblock > 0 ==> {
            &&& is_perm(final(s).ptr@, final(s).nblock as int)
            &&& 0 <= final(s).origPtr < final(s).nblock
            &&& final(s).ptr@[final(s).origPtr as int] == 0
            &&& mtf_ready(final(s))
            &&& codes_ok(final(s), groups_for(final(s).nMTF as int), final(s).nInUse + 2)
            &&& selectors_coded(final(s), groups_count(final(s).nMTF as int), groups_for(final(s).nMTF as int))
        },
        ({
            let before = if old(s).blockNo == 1 { Seq::<bool>::empty() } else { old(s).writer.bits() };
            let written = before + compressed_block_bits(old(s), final(s), is_last_block);
            &&& !is_last_block ==> final(s).writer.bits() == written
            &&& is_last_block ==> {
                &&& final(s).writer.live == 0
                &&& final(s).writer.bits().subrange(0, written.len() as int) == written
                &&& final(s).writer.bits().len() == written.len() + (if written.len() % 8 == 0 { 0int } else { 8 - written.len() % 8 })
                &&& forall|k: int| written.len() <= k < final(s).writer.bits().len() ==> !#[trigger] final(s).writer.bits()[k]
            }
        }),
{
    let ghost s0 = *s;
    if s.nblock > 0 {
        s.blockCRC = !s.blockCRC;
        s.combinedCRC = (s.combinedCRC << 1u32) | (s.combinedCRC >> 31u32);
        s.combinedCRC = s.combinedCRC ^ s.blockCRC;
        BZ2_blockSort(s);
    }
    let ghost before = if s0.blockNo == 1 { Seq::<bool>::empty() } else { s0.writer.bits() };
    if s.blockNo == 1 {
        let bs = s.blockSize100k;
        put_stream_header(&mut s.writer, bs);
    }
    assert(s.writer.bits() =~= before + (if s0.blockNo == 1 { stream_header_bits(s.blockSize100k as int) } else { seq![] }));
    let ghost b2 = s.writer.bits();
    if s.nblock > 0 {
        write_block(s);
    }
    assert(s.writer.bits() =~= b2
        + (if s0.nblock > 0 { block_header_bits(s.blockCRC, s.origPtr) + coded_block_bits(s) } else { seq![] }));
    assert(s.writer.bits() =~= before + compressed_block_bits(&s0, &*s, false));
    if is_last_block {
        let crc = s.combinedCRC;
        put_stream_trailer(&mut s.writer, crc);
    }
}

} // verus!

verus! {

/// Move-to-front decoding undoes move-to-front coding: where `move_to_front` found `v` in
/// a list (the position it hands out as the code), the decoder's entry is `v` again, and
/// both leave the list with that entry moved to the front.
pub proof fn lemma_mtf_code_decodes(list: Seq<u8>, n: int, inv: Seq<int>, v: u8)
    requires
        perm_u8(list, n, inv),
        (v as int) < n,
    ensures
        0 <= inv[v as int] < n,
        list[inv[v as int]] == v,
        move_front(list, inv[v as int])[0] == v,
        move_front(list, inv[v as int]).len() == list.len(),
{
}

/// Decoding the coded selectors gives back the selectors: when `selectorMtf` codes
/// `selector` by move-to-front over the table list (as `code_selectors` leaves it), the
/// decoder's rule, the entry at `selectorMtf[k]` of the table list after the first `k`
/// codes, is `selector[k]` for every selector.
pub proof fn lemma_selectors_decode(s: &EState, n_sel: int, ng: int)
    requires
        selectors_coded(s, n_sel, ng),
    ensures
        forall|k: int| 0 <= k < n_sel ==>
            #[trigger] mtf_list(s.selectorMtf@, k, ng)[s.selectorMtf@[k] as int] == s.selector@[k],
{
    assert forall|k: int| 0 <= k < n_sel implies
        #[trigger] mtf_list(s.selectorMtf@, k, ng)[s.selectorMtf@[k] as int] == s.selector@[k] by {
        assert((s.selectorMtf@[k] as int) < ng);
    }
}

} // verus!
