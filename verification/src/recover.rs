//! Recovery of the blocks of a damaged stream: finding block boundaries by their 48-bit
//! markers, and cutting each block out as a stream of its own.
use vstd::prelude::*;
use vstd::string::StringExecFns;
use crate::bitstream::{BitWriter, bits_of, bytes_bits, live_bits};

verus! {

/// Blocks beyond this many are not handled.
pub const BZ_MAX_HANDLED_BLOCKS: usize = 50000;

pub const BLOCK_HEADER_HI: u32 = 0x3141;
pub const BLOCK_HEADER_LO: u32 = 0x59265359;
pub const BLOCK_ENDMARK_HI: u32 = 0x1772;
pub const BLOCK_ENDMARK_LO: u32 = 0x45385090;

/// Why recovery stopped.
pub enum Error {
    /// Reading the input failed; the system's message.
    Reading(String),
    /// Writing an output failed; the system's message.
    Writing(String),
    /// The input holds more blocks than can be handled.
    TooManyBlocks(usize),
    /// A failure already reported.
    Fatal,
}

/// An error with the names it is reported under.
pub struct EmitError {
    pub program_name: String,
    pub in_filename: String,
    pub error: Error,
}

/// Decimal digits of `n`.
pub open spec fn decimal(n: nat) -> Seq<char>
    decreases n,
{
    if n < 10 {
        seq![digit_char(n)]
    } else {
        decimal(n / 10).push(digit_char(n % 10))
    }
}

/// The digit for `d` below ten.
pub open spec fn digit_char(d: nat) -> char {
    if d == 0 { '0' } else if d == 1 { '1' } else if d == 2 { '2' } else if d == 3 { '3' } else if d == 4 { '4' }
    else if d == 5 { '5' } else if d == 6 { '6' } else if d == 7 { '7' } else if d == 8 { '8' } else { '9' }
}

/// The one-digit string for `d` below ten.
fn digit_str(d: usize) -> (r: &'static str)
    requires
        d < 10,
    ensures
        r@ == seq![digit_char(d as nat)],
{
    proof {
        reveal_strlit("0");
        reveal_strlit("1");
        reveal_strlit("2");
        reveal_strlit("3");
        reveal_strlit("4");
        reveal_strlit("5");
        reveal_strlit("6");
        reveal_strlit("7");
        reveal_strlit("8");
        reveal_strlit("9");
    }
    if d == 0 { "0" } else if d == 1 { "1" } else if d == 2 { "2" } else if d == 3 { "3" } else if d == 4 { "4" }
    else if d == 5 { "5" } else if d == 6 { "6" } else if d == 7 { "7" } else if d == 8 { "8" } else { "9" }
}

/// Appends the decimal digits of `n`.
fn append_decimal(s: &mut String, n: usize)
    ensures
        final(s)@ == old(s)@ + decimal(n as nat),
    decreases n,
{
    if n >= 10 {
        append_decimal(s, n / 10);
    }
    s.append(digit_str(n % 10));
}

impl EmitError {
    /// The report of the error, as the program prints it.
    pub fn message(&self) -> (m: String)
        ensures
            self.error matches Error::TooManyBlocks(n) ==> m@ == self.program_name@ + ": `"@ + self.in_filename@
                + "' appears to contain more than "@ + decimal(n as nat) + " blocks\n"@
                + self.program_name@ + ": and cannot be handled.  To fix, increase\n"@
                + self.program_name@ + ": BZ_MAX_HANDLED_BLOCKS in bzip2recover.rs, and recompile.\n"@,
            self.error matches Error::Reading(e) ==> m@ == self.program_name@ + ": I/O error reading `"@
                + self.in_filename@ + "', possible reason follows.\n"@ + e@ + "\n"@
                + self.program_name@ + ": warning: output file(s) may be incomplete.\n"@,
            self.error matches Error::Writing(e) ==> m@ == self.program_name@ + ": I/O error writing `"@
                + self.in_filename@ + "', possible reason follows.\n"@ + e@ + "\n"@
                + self.program_name@ + ": warning: output file(s) may be incomplete.\n"@,
            self.error is Fatal ==> m@ == Seq::<char>::empty(),
    {
        let p = self.program_name.as_str();
        let f = self.in_filename.as_str();
        match &self.error {
            Error::Reading(e) => {
                let mut m = String::from_str(p);
                m.append(": I/O error reading `");
                m.append(f);
                m.append("', possible reason follows.\n");
                m.append(e.as_str());
                m.append("\n");
                m.append(p);
                m.append(": warning: output file(s) may be incomplete.\n");
                m
            },
            Error::Writing(e) => {
                let mut m = String::from_str(p);
                m.append(": I/O error writing `");
                m.append(f);
                m.append("', possible reason follows.\n");
                m.append(e.as_str());
                m.append("\n");
                m.append(p);
                m.append(": warning: output file(s) may be incomplete.\n");
                m
            },
            Error::TooManyBlocks(n) => {
                let mut m = String::from_str(p);
                m.append(": `");
                m.append(f);
                m.append("' appears to contain more than ");
                append_decimal(&mut m, *n);
                m.append(" blocks\n");
                m.append(p);
                m.append(": and cannot be handled.  To fix, increase\n");
                m.append(p);
                m.append(": BZ_MAX_HANDLED_BLOCKS in bzip2recover.rs, and recompile.\n");
                m
            },
            Error::Fatal => String::new(),
        }
    }
}

} // verus!

verus! {

/// Bit `k` of `data`, each byte most significant bit first.
pub open spec fn bit_at(data: Seq<u8>, k: int) -> bool {
    ((data[k / 8] as u32) >> ((7 - k % 8) as u32)) & 1u32 == 1u32
}

/// The two 32-bit shift registers after reading the first `n` bits of `data`.
pub open spec fn regs(data: Seq<u8>, n: int) -> (u32, u32)
    decreases n,
{
    if n <= 0 {
        (0u32, 0u32)
    } else {
        let (hi, lo) = regs(data, n - 1);
        (((hi << 1u32) | (lo >> 31u32)) as u32, ((lo << 1u32) | (if bit_at(data, n - 1) { 1u32 } else { 0u32 })) as u32)
    }
}

/// Whether the bits read so far end in a block marker or an end-of-stream marker.
pub open spec fn marker_at(data: Seq<u8>, n: int) -> bool {
    let (hi, lo) = regs(data, n);
    ((hi & 0xffff) == BLOCK_HEADER_HI && lo == BLOCK_HEADER_LO) || ((hi & 0xffff) == BLOCK_ENDMARK_HI && lo == BLOCK_ENDMARK_LO)
}

/// How many of the first `n` bit positions of `data` end a marker.
pub open spec fn marker_count(data: Seq<u8>, n: int) -> nat
    decreases n,
{
    if n <= 0 { 0 } else { marker_count(data, n - 1) + if marker_at(data, n) { 1nat } else { 0nat } }
}

/// No marker ends strictly between positions `a` and `b`.
pub open spec fn no_marker_between(data: Seq<u8>, a: int, b: int) -> bool {
    forall|k: int| a < k < b ==> !#[trigger] marker_at(data, k)
}

/// Where a block ends whose next marker ends at `m2`: at the start of that marker.
pub open spec fn block_end(m2: int) -> int {
    if m2 > 49 { m2 - 49 } else { 0 }
}

/// A block from `start` to `end` is long enough to keep (the length taken modulo 2^64).
pub open spec fn long_enough(start: int, end: int) -> bool {
    (if end - start < 0 { end - start + 0x1_0000_0000_0000_0000 } else { end - start }) >= 130
}

proof fn lemma_marker_count_mono(data: Seq<u8>, a: int, b: int)
    requires
        a <= b,
    ensures
        marker_count(data, a) <= marker_count(data, b),
    decreases b - a,
{
    if a < b {
        lemma_marker_count_mono(data, a, b - 1);
    }
}

/// Reads bit `k` of `data`.
fn read_bit(data: &Vec<u8>, k: u64) -> (b: bool)
    requires
        k < 8 * data@.len(),
    ensures
        b == bit_at(data@, k as int),
{
    let len = data.len();
    assert(k / 8 < len);
    let idx = (k / 8) as usize;
    assert(idx as int == k as int / 8);
    let byte = data[idx] as u32;
    let sh = (7 - k % 8) as u32;
    assert(sh as int == 7 - (k as int) % 8);
    (byte >> sh) & 1 == 1
}

/// The block boundaries found in a damaged stream.
pub struct Boundaries {
    /// Start and end (bit positions) of each block that is long enough to be one.
    pub starts: Vec<u64>,
    pub ends: Vec<u64>,
    /// The last, unterminated block: its number, start and end.
    pub incomplete: Option<(usize, u64, u64)>,
}

/// Searches `data` for block boundaries, bit by bit: a block runs from the end of one
/// marker to the start of the next, and is kept when it is at least 130 bits long.
pub fn find_block_boundaries(data: &Vec<u8>) -> (r: Result<Boundaries, Error>)
    requires
        8 * data@.len() < 0xffff_ffff_ffff_0000,
    ensures
        r matches Ok(bd) ==> {
            &&& bd.starts@.len() == bd.ends@.len()
            &&& forall|j: int| 0 <= j < bd.starts@.len() ==> marker_at(data@, #[trigger] bd.starts@[j] as int)
            &&& forall|j: int| 0 <= j < bd.ends@.len() ==> #[trigger] bd.ends@[j] == 0 || marker_at(data@, bd.ends@[j] + 49)
            &&& forall|j: int| 0 <= j < bd.starts@.len() ==> long_enough(#[trigger] bd.starts@[j] as int, bd.ends@[j] as int)
                && (bd.ends@[j] > 0 ==> no_marker_between(data@, bd.starts@[j] as int, bd.ends@[j] + 49))
            &&& forall|i: int, j: int| 0 <= i < j < bd.starts@.len() ==> #[trigger] bd.starts@[i] < #[trigger] bd.starts@[j]
            &&& forall|m1: int, m2: int| 1 <= m1 < m2 <= 8 * data@.len() && #[trigger] marker_at(data@, m1)
                && #[trigger] marker_at(data@, m2) && no_marker_between(data@, m1, m2) && long_enough(m1, block_end(m2))
                ==> exists|j: int| 0 <= j < bd.starts@.len() && #[trigger] bd.starts@[j] == m1 && bd.ends@[j] == block_end(m2)
            &&& bd.incomplete matches Some((c, st, e)) ==> c == marker_count(data@, 8 * data@.len() as int)
                && e == 8 * data@.len() && marker_at(data@, st as int)
                && no_marker_between(data@, st as int, 8 * data@.len() as int + 1) && e + 1 - st >= 40
            &&& bd.incomplete is None ==> marker_count(data@, 8 * data@.len() as int) == 0
                || forall|st: int| 1 <= st <= 8 * data@.len() && #[trigger] marker_at(data@, st)
                    && no_marker_between(data@, st, 8 * data@.len() as int + 1) ==> 8 * data@.len() + 1 - st < 40
        },
        r matches Err(e) ==> e matches Error::TooManyBlocks(n) && n == BZ_MAX_HANDLED_BLOCKS,
        r is Err <==> marker_count(data@, 8 * data@.len() as int) > BZ_MAX_HANDLED_BLOCKS,
{
    let total: u64 = 8 * (data.len() as u64);
    let mut bits_read: u64 = 0;
    let mut hi: u32 = 0;
    let mut lo: u32 = 0;
    let mut cur: usize = 0;
    let mut cur_start: u64 = 0;
    let mut starts: Vec<u64> = Vec::new();
    let mut ends: Vec<u64> = Vec::new();
    while bits_read < total
        invariant
            bits_read <= total,
            total == 8 * data@.len(),
            total < 0xffff_ffff_ffff_0000,
            (hi, lo) == regs(data@, bits_read as int),
            cur <= BZ_MAX_HANDLED_BLOCKS,
            cur_start <= bits_read,
            cur > 0 ==> marker_at(data@, cur_start as int),
            starts@.len() == ends@.len(),
            forall|j: int| 0 <= j < starts@.len() ==> marker_at(data@, #[trigger] starts@[j] as int),
            forall|j: int| 0 <= j < ends@.len() ==> #[trigger] ends@[j] == 0 || marker_at(data@, ends@[j] + 49),
            cur == marker_count(data@, bits_read as int),
            cur > 0 ==> 1 <= cur_start && marker_at(data@, cur_start as int)
                && no_marker_between(data@, cur_start as int, bits_read + 1),
            cur == 0 ==> no_marker_between(data@, 0, bits_read + 1) && starts@.len() == 0,
            forall|j: int| 0 <= j < starts@.len() ==> long_enough(#[trigger] starts@[j] as int, ends@[j] as int)
                && (ends@[j] > 0 ==> no_marker_between(data@, starts@[j] as int, ends@[j] + 49)),
            forall|j: int| 0 <= j < starts@.len() ==> #[trigger] starts@[j] < cur_start,
            forall|i: int, j: int| 0 <= i < j < starts@.len() ==> #[trigger] starts@[i] < #[trigger] starts@[j],
            forall|m1: int, m2: int| 1 <= m1 < m2 <= bits_read && #[trigger] marker_at(data@, m1)
                && #[trigger] marker_at(data@, m2) && no_marker_between(data@, m1, m2) && long_enough(m1, block_end(m2))
                ==> exists|j: int| 0 <= j < starts@.len() && #[trigger] starts@[j] == m1 && ends@[j] == block_end(m2),
        decreases total - bits_read,
    {
        let b = read_bit(data, bits_read);
        bits_read = bits_read + 1;
        hi = (hi << 1u32) | (lo >> 31u32);
        lo = (lo << 1u32) | (if b { 1u32 } else { 0u32 });
        let ghost br = bits_read as int;
        let ghost s0 = starts@;
        let ghost e0 = ends@;
        if ((hi & 0xffff) == BLOCK_HEADER_HI && lo == BLOCK_HEADER_LO)
            || ((hi & 0xffff) == BLOCK_ENDMARK_HI && lo == BLOCK_ENDMARK_LO) {
            assert(marker_at(data@, br));
            let end: u64 = if bits_read > 49 { bits_read - 49 } else { 0 };
            assert(end == block_end(br));
            let kept = cur > 0 && end.wrapping_sub(cur_start) >= 130;
            if kept {
                starts.push(cur_start);
                ends.push(end);
            }
            if cur >= BZ_MAX_HANDLED_BLOCKS {
                proof {
                    lemma_marker_count_mono(data@, br, total as int);
                }
                return Err(Error::TooManyBlocks(BZ_MAX_HANDLED_BLOCKS));
            }
            proof {
                assert forall|m1: int, m2: int| 1 <= m1 < m2 <= br && #[trigger] marker_at(data@, m1)
                    && #[trigger] marker_at(data@, m2) && no_marker_between(data@, m1, m2) && long_enough(m1, block_end(m2))
                    implies exists|j: int| 0 <= j < starts@.len() && #[trigger] starts@[j] == m1 && ends@[j] == block_end(m2) by {
                    if m2 < br {
                        let j = choose|j: int| 0 <= j < s0.len() && #[trigger] s0[j] == m1 && e0[j] == block_end(m2);
                        assert(starts@[j] == m1 && ends@[j] == block_end(m2));
                    } else {
                        if cur == 0 {
                            assert(!marker_at(data@, m1));
                        } else if m1 < cur_start {
                            assert(!marker_at(data@, cur_start as int));
                        } else if m1 > cur_start {
                            assert(!marker_at(data@, m1));
                        }
                        assert(m1 == cur_start);
                        assert(starts@[s0.len() as int] == m1);
                    }
                }
            }
            cur = cur + 1;
            cur_start = bits_read;
        } else {
            proof {
                assert forall|m1: int, m2: int| 1 <= m1 < m2 <= br && #[trigger] marker_at(data@, m1)
                    && #[trigger] marker_at(data@, m2) && no_marker_between(data@, m1, m2) && long_enough(m1, block_end(m2))
                    implies exists|j: int| 0 <= j < starts@.len() && #[trigger] starts@[j] == m1 && ends@[j] == block_end(m2) by {
                    assert(m2 < br);
                }
            }
        }
    }
    assert(bits_read == total);
    assert(total as int == 8 * data@.len());
    assert forall|m1: int, m2: int| 1 <= m1 < m2 <= 8 * data@.len() && #[trigger] marker_at(data@, m1)
        && #[trigger] marker_at(data@, m2) && no_marker_between(data@, m1, m2) && long_enough(m1, block_end(m2))
        implies exists|j: int| 0 <= j < starts@.len() && #[trigger] starts@[j] == m1 && ends@[j] == block_end(m2) by {
        assert(m2 <= bits_read);
    }
    assert forall|st: int| 1 <= st <= 8 * data@.len() && #[trigger] marker_at(data@, st)
        && no_marker_between(data@, st, 8 * data@.len() as int + 1) && cur > 0 implies st == cur_start by {
        if st < cur_start {
            assert(!marker_at(data@, cur_start as int));
        } else if st > cur_start {
            assert(!marker_at(data@, st));
        }
    }
    let eof_count = bits_read + 1;
    let incomplete = if eof_count >= cur_start && eof_count - cur_start >= 40 && cur > 0 {
        Some((cur, cur_start, eof_count - 1))
    } else {
        None
    };
    Ok(Boundaries { starts, ends, incomplete })
}

/// Entry `i` of `v`, or 0 past its end.
fn entry_or_zero(v: &Vec<u64>, i: usize) -> (r: u64)
    ensures
        r == (if i < v@.len() { v@[i as int] } else { 0 }),
{
    if i < v.len() { v[i] } else { 0 }
}

/// The stream header for block size 9 and the block marker, as bits.
#[verifier::opaque]
pub open spec fn split_head_bits() -> Seq<bool> {
    Seq::<bool>::empty() + bits_of(0x42, 8) + bits_of(0x5a, 8) + bits_of(0x68, 8) + bits_of(0x39, 8) + bits_of(0x31, 8)
        + bits_of(0x41, 8) + bits_of(0x59, 8) + bits_of(0x26, 8) + bits_of(0x53, 8) + bits_of(0x59, 8)
}

/// The bits `b` followed by the end-of-stream marker and a combined CRC.
#[verifier::opaque]
pub open spec fn with_tail_bits(b: Seq<bool>, crc: u32) -> Seq<bool> {
    b + bits_of(0x17, 8) + bits_of(0x72, 8) + bits_of(0x45, 8) + bits_of(0x38, 8) + bits_of(0x50, 8)
        + bits_of(0x90, 8) + bits_of(crc, 32)
}

/// Bits `lo .. hi` of `data`.
#[verifier::opaque]
pub open spec fn data_bits(data: Seq<u8>, lo: int, hi: int) -> Seq<bool> {
    Seq::new((hi - lo) as nat, |i: int| bit_at(data, lo + i))
}

/// The 32 bits of `data` from `start` on, read as a number: a block's stored CRC when
/// `start` is where the block begins after its marker.
#[verifier::opaque]
pub open spec fn stored_crc(data: Seq<u8>, start: int) -> u32 {
    let (hi, lo) = regs(data, start + 48);
    ((hi << 16u32) | (lo >> 16u32)) as u32
}

/// The stream made of one block: header and marker, the block's bits from `start` to
/// `end`, the end marker and the block's CRC.
pub open spec fn block_stream_bits(data: Seq<u8>, start: int, end: int) -> Seq<bool> {
    with_tail_bits(split_head_bits() + data_bits(data, start, end + 1), stored_crc(data, start))
}

/// `out` holds the bits `b`, then zeros up to a whole byte.
#[verifier::opaque]
pub open spec fn padded_to_bytes(b: Seq<bool>, out: Seq<u8>) -> bool {
    &&& bytes_bits(out).len() == b.len() + (if b.len() % 8 == 0 { 0int } else { 8 - b.len() % 8 })
    &&& bytes_bits(out).subrange(0, b.len() as int) == b
    &&& forall|k: int| b.len() <= k < bytes_bits(out).len() ==> !#[trigger] bytes_bits(out)[k]
}

proof fn lemma_regs_step(data: Seq<u8>, n: int)
    requires
        0 <= n,
    ensures
        regs(data, n + 1) == ((((regs(data, n).0 << 1u32) | (regs(data, n).1 >> 31u32)) as u32),
            (((regs(data, n).1 << 1u32) | (if bit_at(data, n) { 1u32 } else { 0u32 })) as u32)),
{
}

proof fn lemma_data_bits_push(data: Seq<u8>, lo: int, k: int)
    requires
        lo <= k,
    ensures
        data_bits(data, lo, k + 1) == data_bits(data, lo, k).push(bit_at(data, k)),
{
    reveal(data_bits);
    assert(data_bits(data, lo, k + 1) =~= data_bits(data, lo, k).push(bit_at(data, k)));
}

/// A writer emptied of live bits after `finish` holds `b` padded to whole bytes.
proof fn lemma_finished_stream(w: BitWriter, b: Seq<bool>)
    requires
        w.live == 0,
        w.bits().subrange(0, b.len() as int) == b,
        w.bits().len() == b.len() + (if b.len() % 8 == 0 { 0int } else { 8 - b.len() % 8 }),
        forall|k: int| b.len() <= k < w.bits().len() ==> !#[trigger] w.bits()[k],
    ensures
        padded_to_bytes(b, w.out@),
{
    reveal(padded_to_bytes);
    assert(live_bits(w.buff, 0) =~= Seq::<bool>::empty());
    assert(w.bits() =~= bytes_bits(w.out@));
}

/// A writer holding the stream header for block size 9 and the block marker.
fn open_stream() -> (w: BitWriter)
    ensures
        w.wf(),
        w.bits() == split_head_bits(),
{
    let mut w = BitWriter::new();
    w.put_u8(0x42);
    w.put_u8(0x5a);
    w.put_u8(0x68);
    w.put_u8(0x30 + 9);
    w.put_u8(0x31);
    w.put_u8(0x41);
    w.put_u8(0x59);
    w.put_u8(0x26);
    w.put_u8(0x53);
    w.put_u8(0x59);
    proof { reveal(split_head_bits); }
    w
}

/// Ends a one-block stream: the end marker and `crc`, then padding to a whole byte.
fn close_stream(w: BitWriter, crc: u32) -> (out: Vec<u8>)
    requires
        w.wf(),
    ensures
        padded_to_bytes(with_tail_bits(w.bits(), crc), out@),
{
    let ghost b0 = w.bits();
    let mut w = w;
    w.put_u8(0x17);
    let ghost t1 = w.bits();
    w.put_u8(0x72);
    let ghost t2 = w.bits();
    w.put_u8(0x45);
    let ghost t3 = w.bits();
    w.put_u8(0x38);
    let ghost t4 = w.bits();
    w.put_u8(0x50);
    let ghost t5 = w.bits();
    w.put_u8(0x90);
    let ghost t6 = w.bits();
    w.put_u32(crc);
    let ghost b1 = w.bits();
    proof {
        reveal(with_tail_bits);
        assert(t1 == b0 + bits_of(0x17, 8));
        assert(t2 == t1 + bits_of(0x72, 8));
        assert(t3 == t2 + bits_of(0x45, 8));
        assert(t4 == t3 + bits_of(0x38, 8));
        assert(t5 == t4 + bits_of(0x50, 8));
        assert(t6 == t5 + bits_of(0x90, 8));
        assert(b1 == t6 + bits_of(crc, 32));
        assert(b1 == with_tail_bits(b0, crc));
    }
    let ghost l0 = w.live as int;
    let ghost n0 = w.out@.len() as int;
    proof {
        assert(b1.len() == 8 * n0 + l0);
        assert((8 * n0 + l0) % 8 == l0 % 8) by (nonlinear_arith)
            requires n0 >= 0, l0 >= 0;
    }
    w.finish();
    proof {
        lemma_finished_stream(w, b1);
    }
    w.out
}

/// Blocks that start after the first bit, hold at least their 48 bits of marker and CRC, end
/// inside the data, and come one after another with a gap between them.
pub open spec fn boundaries_ordered(starts: Seq<u64>, ends: Seq<u64>, total: int) -> bool {
    &&& starts.len() == ends.len()
    &&& forall|j: int| 0 <= j < starts.len() ==> #[trigger] span_ok(starts, ends, j, total)
    &&& forall|j: int| 0 <= j && j + 1 < starts.len() ==> #[trigger] gap_ok(starts, ends, j)
}

/// Block `j` starts after the first bit, holds its marker and CRC, and ends inside the data.
pub open spec fn span_ok(starts: Seq<u64>, ends: Seq<u64>, j: int, total: int) -> bool {
    1 <= starts[j] && starts[j] + 47 <= ends[j] && ends[j] < total
}

/// Block `j + 1` starts after a gap behind block `j`.
pub open spec fn gap_ok(starts: Seq<u64>, ends: Seq<u64>, j: int) -> bool {
    ends[j] + 1 < starts[j + 1]
}

/// Cuts the blocks found by `find_block_boundaries` out of `data`, each as a stream of its
/// own: a stream header for block size 9, the block marker, the block's bits, the end
/// marker and the block's CRC (its first 32 bits), padded to a byte. Returns the block
/// numbers (from 1) with the streams.
#[verifier::rlimit(30)]
pub fn split_blocks(data: &Vec<u8>, starts: &Vec<u64>, ends: &Vec<u64>) -> (r: Vec<(usize, Vec<u8>)>)
    requires
        8 * data@.len() < 0xffff_ffff_ffff_0000,
        starts@.len() == ends@.len(),
        starts@.len() <= BZ_MAX_HANDLED_BLOCKS,
        forall|j: int| 0 <= j < starts@.len() ==> #[trigger] starts@[j] < 0xffff_ffff_ffff_0000,
        forall|j: int| 0 <= j < ends@.len() ==> #[trigger] ends@[j] < 0xffff_ffff_ffff_0000,
    ensures
        r@.len() <= starts@.len(),
        forall|j: int| 0 <= j < r@.len() ==> 1 <= (#[trigger] r@[j]).0 <= starts@.len(),
        boundaries_ordered(starts@, ends@, 8 * data@.len() as int) ==> {
            &&& r@.len() == starts@.len()
            &&& forall|j: int| 0 <= j < r@.len() ==> (#[trigger] r@[j]).0 == j + 1
                && padded_to_bytes(block_stream_bits(data@, starts@[j] as int, ends@[j] as int), r@[j].1@)
        },
{
    let total: u64 = 8 * (data.len() as u64);
    let n_blocks = starts.len();
    let mut results: Vec<(usize, Vec<u8>)> = Vec::new();
    let mut bits_read: u64 = 0;
    let mut hi: u32 = 0;
    let mut lo: u32 = 0;
    let mut block_crc: u32 = 0;
    let mut out: Option<BitWriter> = None;
    let mut wr: usize = 0;
    let mut k: u64 = 0;
    let ghost ord = boundaries_ordered(starts@, ends@, 8 * data@.len() as int);
    proof {
        if ord && 0 < n_blocks {
            assert(span_ok(starts@, ends@, 0, total as int));
        }
    }
    while k < total
        invariant
            k <= total,
            total == 8 * data@.len(),
            total < 0xffff_ffff_ffff_0000,
            bits_read == k,
            wr <= n_blocks,
            n_blocks == starts@.len(),
            n_blocks == ends@.len(),
            n_blocks <= BZ_MAX_HANDLED_BLOCKS,
            forall|j: int| 0 <= j < starts@.len() ==> #[trigger] starts@[j] < 0xffff_ffff_ffff_0000,
            forall|j: int| 0 <= j < ends@.len() ==> #[trigger] ends@[j] < 0xffff_ffff_ffff_0000,
            out matches Some(w) ==> w.wf(),
            out is Some ==> wr < n_blocks,
            results@.len() <= wr,
            forall|j: int| 0 <= j < results@.len() ==> 1 <= (#[trigger] results@[j]).0 <= wr,
            (hi, lo) == regs(data@, k as int),
            ord == boundaries_ordered(starts@, ends@, 8 * data@.len() as int),
            ord ==> results@.len() == wr,
            ord ==> forall|j: int| 0 <= j < results@.len() ==> (#[trigger] results@[j]).0 == j + 1
                && padded_to_bytes(block_stream_bits(data@, starts@[j] as int, ends@[j] as int), results@[j].1@),
            ord && wr < n_blocks ==> k <= ends@[wr as int],
            ord && wr < n_blocks && k < starts@[wr as int] ==> out is None,
            ord && wr < n_blocks && starts@[wr as int] <= k ==> (out matches Some(w)
                && w.bits() == split_head_bits() + data_bits(data@, starts@[wr as int] as int, k as int)),
            ord && wr < n_blocks && k > starts@[wr as int] + 47 ==> block_crc == stored_crc(data@, starts@[wr as int] as int),
            ord && wr == n_blocks ==> out is None,
            ord && wr < n_blocks ==> span_ok(starts@, ends@, wr as int, total as int),
        ensures
            ord ==> wr == n_blocks,
        decreases total - k,
    {
        let b = read_bit(data, k);
        hi = (hi << 1u32) | (lo >> 31u32);
        lo = (lo << 1u32) | (if b { 1u32 } else { 0u32 });
        proof { lemma_regs_step(data@, k as int); }
        let start = entry_or_zero(starts, wr);
        let end = entry_or_zero(ends, wr);
        let ghost k0 = k as int;
        if bits_read == 47 + start {
            block_crc = (hi << 16u32) | (lo >> 16u32);
            proof { reveal(stored_crc); }
        }
        if bits_read >= start && bits_read <= end {
            match &mut out {
                Some(w) => {
                    w.put_bit(b);
                    proof {
                        if ord && wr < n_blocks {
                            lemma_data_bits_push(data@, start as int, k0);
                        }
                    }
                },
                None => {},
            }
        }
        bits_read = bits_read + 1;
        k = k + 1;
        if bits_read == end + 1 {
            match out.take() {
                Some(w) => {
                    let bytes = close_stream(w, block_crc);
                    results.push((wr + 1, bytes));
                },
                None => {},
            }
            if wr >= n_blocks {
                break;
            }
            proof {
                if ord && wr + 1 < n_blocks {
                    assert(gap_ok(starts@, ends@, wr as int));
                    assert(span_ok(starts@, ends@, wr + 1, total as int));
                }
            }
            wr = wr + 1;
        } else if bits_read == start {
            let w = open_stream();
            proof {
                reveal(data_bits);
                assert(data_bits(data@, start as int, k as int) =~= Seq::<bool>::empty());
                assert(split_head_bits() + Seq::<bool>::empty() =~= split_head_bits());
            }
            out = Some(w);
        }
    }
    results
}

} // verus!
