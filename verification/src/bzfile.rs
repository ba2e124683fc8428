//! Compressed files: a stream together with the file it reads from or writes to.
//!
//! A file being read is held as its bytes and a read position; the library takes from it
//! at most `BZ_MAX_UNUSED` bytes at a time, as a buffered read would. Writing alternates
//! compression with handing bytes to the file: each writing step gives back the bytes
//! for the caller to write, and says whether another step is due.
use vstd::prelude::*;
use crate::bzlib::{
    BZ2_bzCompress, BZ2_bzCompressEnd, BZ2_bzCompressInit, BZ2_bzDecompress,
    BZ2_bzDecompressEnd, BZ2_bzDecompressInit, bz_stream, copy_prefix, estate_ok, BZ_FINISH,
    BZ_FINISH_OK, BZ_IO_ERROR, BZ_OK, BZ_PARAM_ERROR, BZ_RUN, BZ_RUN_OK, BZ_SEQUENCE_ERROR,
    BZ_STREAM_END, BZ_UNEXPECTED_EOF,
};
use crate::compress::Mode;

verus! {

/// The size of the buffer between a stream and its file, and the most bytes that can
/// be handed back to a file opened for reading.
pub const BZ_MAX_UNUSED: usize = 5000;

/// Whether a compressed file was opened for reading or for writing.
#[derive(Clone, Copy, PartialEq, Eq, Structural, Debug)]
pub enum Operation {
    Reading,
    Writing,
}

#[allow(non_camel_case_types)]
/// A compressed file: the stream working on it, the outcome of the last call on it, and
/// what it was opened for.
pub struct BZFILE {
    /// The number of bytes last taken from the file, or handed in when opening it.
    pub bufN: i32,
    pub strm: bz_stream,
    pub lastErr: i32,
    pub operation: Operation,
    pub initialisedOk: bool,
}

/// A file opened for reading: its bytes, and how many of them have been read.
pub struct SourceFile {
    pub bytes: Vec<u8>,
    pub pos: usize,
}

impl SourceFile {
    /// The read position lies inside the file.
    pub open spec fn wf(&self) -> bool {
        self.pos <= self.bytes@.len()
    }

    /// A file with the given bytes, not read yet.
    pub fn new(bytes: Vec<u8>) -> (f: SourceFile)
        ensures
            f.wf(),
            f.bytes == bytes,
            f.pos == 0,
    {
        SourceFile { bytes, pos: 0 }
    }
}

impl BZFILE {
    /// The stream's positions lie inside its buffers, and it holds the compressor of a
    /// file being written or the decompressor of a file being read, and not the other.
    pub open spec fn wf(&self) -> bool {
        &&& self.strm.io_ok()
        &&& self.strm.cstate matches Some(s) ==> estate_ok(&*s)
        &&& self.strm.dstate matches Some(s) ==> s.wf()
        &&& self.operation == Operation::Writing ==> self.strm.dstate is None
        &&& self.operation == Operation::Reading ==> self.strm.cstate is None
        &&& self.operation == Operation::Reading ==> self.strm.input@.len() <= BZ_MAX_UNUSED
    }
}

/// Records `err` as the outcome of the call, for the caller and in the file.
fn set_err(bzerror: &mut i32, bzf: &mut BZFILE, err: i32)
    ensures
        *final(bzerror) == err,
        *final(bzf) == (BZFILE { lastErr: err, ..*old(bzf) }),
{
    *bzerror = err;
    bzf.lastErr = err;
}

/// Records a failure of the file itself (an error reading or writing it) as the outcome
/// of the call in progress.
pub fn io_failed(bzerror: &mut i32, bzf: &mut BZFILE)
    ensures
        *final(bzerror) == BZ_IO_ERROR,
        *final(bzf) == (BZFILE { lastErr: BZ_IO_ERROR, ..*old(bzf) }),
{
    set_err(bzerror, bzf, BZ_IO_ERROR);
}

/// The bytes `v[from .. from + n]`.
fn copy_range(v: &Vec<u8>, from: usize, n: usize) -> (r: Vec<u8>)
    requires
        from + n <= v@.len(),
    ensures
        r@ == v@.subrange(from as int, from + n),
{
    let mut r: Vec<u8> = Vec::new();
    let mut i: usize = 0;
    while i < n
        invariant
            i <= n,
            from + n <= v.len(),
            r@ == v@.subrange(from as int, from + i),
        decreases n - i,
    {
        r.push(v[from + i]);
        i = i + 1;
        assert(r@ =~= v@.subrange(from as int, from + i));
    }
    r
}

} // verus!

verus! {

/// Opens a compressed file for reading (`BZ2_bzReadOpen`). The first `nUnused` bytes of
/// `unused` are decompressed before anything is read from the file; `small` asks for the
/// decompressor that uses less memory. Returns nothing, with `BZ_PARAM_ERROR`, unless
/// `small` is 0 or 1, `verbosity` is in `0 ..= 4` and `nUnused` in `0 ..= BZ_MAX_UNUSED`.
pub fn BZ2_bzReadOpen(
    bzerror: &mut i32,
    verbosity: i32,
    small: i32,
    unused: &Vec<u8>,
    nUnused: i32,
) -> (r: Option<BZFILE>)
    requires
        nUnused <= unused@.len(),
    ensures
        r is Some <==> ((small == 0 || small == 1) && 0 <= verbosity <= 4 && 0 <= nUnused <= BZ_MAX_UNUSED),
        *final(bzerror) == (if r is Some { BZ_OK } else { BZ_PARAM_ERROR }),
        r matches Some(f) ==> {
            &&& f.wf()
            &&& f.operation == Operation::Reading
            &&& f.lastErr == BZ_OK
            &&& f.initialisedOk
            &&& f.bufN == nUnused
            &&& f.strm.input@ == unused@.subrange(0, nUnused as int)
            &&& f.strm.next_in == 0 && f.strm.avail_in == nUnused
            &&& f.strm.dstate matches Some(s) && s.state == crate::decompress::State::BZ_X_MAGIC_1
                && s.smallDecompress == (small == 1) && s.handed_out@.len() == 0 && s.accepted@.len() == 0
        },
{
    if !(small == 0 || small == 1) || !(0 <= verbosity && verbosity <= 4) || !(0 <= nUnused
        && nUnused <= BZ_MAX_UNUSED as i32) {
        *bzerror = BZ_PARAM_ERROR;
        return None;
    }
    let mut strm = bz_stream::zeroed();
    let ri = BZ2_bzDecompressInit(&mut strm, verbosity, small);
    assert(ri == BZ_OK);
    strm.input = copy_prefix(unused, nUnused as usize);
    strm.next_in = 0;
    strm.avail_in = nUnused as u32;
    *bzerror = BZ_OK;
    Some(BZFILE { bufN: nUnused, strm, lastErr: BZ_OK, operation: Operation::Reading, initialisedOk: true })
}

/// Ends reading a compressed file (`BZ2_bzReadClose`): its decompressor is dropped.
/// Returns `BZ_SEQUENCE_ERROR`, changing nothing, for a file opened for writing.
pub fn BZ2_bzReadClose(bzerror: &mut i32, bzf: &mut BZFILE)
    requires
        old(bzf).wf(),
    ensures
        final(bzf).wf(),
        old(bzf).operation == Operation::Writing ==> *final(bzerror) == BZ_SEQUENCE_ERROR
            && final(bzf).strm == old(bzf).strm,
        old(bzf).operation == Operation::Reading ==> *final(bzerror) == BZ_OK
            && final(bzf).strm.dstate is None,
        final(bzf).operation == old(bzf).operation,
{
    if bzf.operation != Operation::Reading {
        set_err(bzerror, bzf, BZ_SEQUENCE_ERROR);
        return;
    }
    *bzerror = BZ_OK;
    if bzf.initialisedOk {
        BZ2_bzDecompressEnd(&mut bzf.strm);
    }
    bzf.strm.dstate = None;
}

/// Takes the next piece of the file, at most `BZ_MAX_UNUSED` bytes, as the stream's input.
fn fill_input(bzf: &mut BZFILE, file: &mut SourceFile)
    requires
        old(bzf).wf(),
        old(file).wf(),
        old(file).pos < old(file).bytes@.len(),
    ensures
        final(bzf).wf(),
        final(file).wf(),
        final(file).bytes == old(file).bytes,
        old(file).pos < final(file).pos <= old(file).pos + BZ_MAX_UNUSED,
        final(bzf).strm.input@ == old(file).bytes@.subrange(old(file).pos as int, final(file).pos as int),
        final(bzf).strm.next_in == 0,
        final(bzf).strm.avail_in == final(file).pos - old(file).pos,
        final(bzf).strm.output == old(bzf).strm.output,
        final(bzf).strm.next_out == old(bzf).strm.next_out,
        final(bzf).strm.avail_out == old(bzf).strm.avail_out,
        final(bzf).strm.dstate == old(bzf).strm.dstate,
        final(bzf).strm.cstate == old(bzf).strm.cstate,
        final(bzf).operation == old(bzf).operation,
        final(bzf).lastErr == old(bzf).lastErr,
{
    let left = file.bytes.len() - file.pos;
    let n = if left < BZ_MAX_UNUSED { left } else { BZ_MAX_UNUSED };
    bzf.strm.input = copy_range(&file.bytes, file.pos, n);
    bzf.strm.next_in = 0;
    bzf.strm.avail_in = n as u32;
    bzf.bufN = n as i32;
    file.pos = file.pos + n;
}

/// Reads up to `len` decompressed bytes into `buf[0 .. len]` (`BZ2_bzRead`), taking more
/// of `file` whenever the stream's input runs out. Returns how many bytes were read;
/// `*bzerror` is `BZ_OK` when `len` bytes were read, `BZ_STREAM_END` when the logical
/// end of the stream came first, `BZ_UNEXPECTED_EOF` when the file ended before it,
/// `BZ_PARAM_ERROR` for a negative `len`, `BZ_SEQUENCE_ERROR` for a file opened for
/// writing, or the decompressor's error.
pub fn BZ2_bzRead(bzerror: &mut i32, bzf: &mut BZFILE, file: &mut SourceFile, buf: &mut Vec<u8>, len: i32) -> (n: i32)
    requires
        old(bzf).wf(),
        old(file).wf(),
        len < 0 || len <= old(buf)@.len(),
    ensures
        final(bzf).wf(),
        final(file).wf(),
        final(file).bytes == old(file).bytes,
        old(file).pos <= final(file).pos,
        final(buf)@.len() == old(buf)@.len(),
        final(bzf).operation == old(bzf).operation,
        final(bzf).lastErr == *final(bzerror),
        0 <= n && (len >= 0 ==> n <= len),
        len < 0 ==> final(buf)@ == old(buf)@,
        len >= 0 ==> final(buf)@.subrange(len as int, final(buf)@.len() as int) == old(buf)@.subrange(len as int, old(buf)@.len() as int),
        *final(bzerror) == BZ_OK || *final(bzerror) == BZ_STREAM_END ==>
            final(buf)@.subrange(n as int, final(buf)@.len() as int) == old(buf)@.subrange(n as int, old(buf)@.len() as int),
        len < 0 ==> *final(bzerror) == BZ_PARAM_ERROR && n == 0 && *final(file) == *old(file),
        len >= 0 && old(bzf).operation == Operation::Writing ==> *final(bzerror) == BZ_SEQUENCE_ERROR
            && n == 0 && final(bzf).strm == old(bzf).strm,
        len == 0 && old(bzf).operation == Operation::Reading ==> *final(bzerror) == BZ_OK && n == 0
            && *final(file) == *old(file) && final(bzf).strm == old(bzf).strm,
        len > 0 && old(bzf).operation == Operation::Reading ==> {
            &&& *final(bzerror) == BZ_OK ==> n == len
            &&& *final(bzerror) == BZ_UNEXPECTED_EOF ==> n == 0 && final(file).pos == final(file).bytes@.len()
            &&& *final(bzerror) != BZ_STREAM_END && *final(bzerror) != BZ_OK ==> n == 0
        },
        *final(bzerror) == BZ_OK || *final(bzerror) == BZ_STREAM_END || *final(bzerror) == BZ_UNEXPECTED_EOF
            || *final(bzerror) == BZ_PARAM_ERROR || *final(bzerror) == BZ_SEQUENCE_ERROR
            || *final(bzerror) == crate::bzlib::BZ_DATA_ERROR || *final(bzerror) == crate::bzlib::BZ_DATA_ERROR_MAGIC,
        *final(bzerror) == BZ_OK || *final(bzerror) == BZ_STREAM_END ==> (old(bzf).strm.dstate matches Some(s0) ==>
            final(bzf).strm.dstate matches Some(s1)
            && s1.handed_out@ == s0.handed_out@ + final(buf)@.subrange(0, n as int)),
{
    if len < 0 {
        set_err(bzerror, bzf, BZ_PARAM_ERROR);
        return 0;
    }
    if bzf.operation != Operation::Reading {
        set_err(bzerror, bzf, BZ_SEQUENCE_ERROR);
        return 0;
    }
    if len == 0 {
        set_err(bzerror, bzf, BZ_OK);
        return 0;
    }
    let ghost buf0 = buf@;
    let saved_next = bzf.strm.next_out;
    let saved_avail = bzf.strm.avail_out;
    std::mem::swap(&mut bzf.strm.output, buf);
    bzf.strm.next_out = 0;
    bzf.strm.avail_out = len as u32;
    let mut res: i32 = 0;
    let mut err: i32 = BZ_OK;
    assert(bzf.strm.output@.subrange(0, 0) =~= Seq::<u8>::empty());
    loop
        invariant
            bzf.wf(),
            file.wf(),
            file.bytes == old(file).bytes,
            old(file).pos <= file.pos,
            bzf.operation == Operation::Reading,
            0 < len <= buf0.len(),
            bzf.strm.output@.len() == buf0.len(),
            bzf.strm.next_out + bzf.strm.avail_out == len,
            bzf.strm.output@.subrange(bzf.strm.next_out as int, buf0.len() as int)
                == buf0.subrange(bzf.strm.next_out as int, buf0.len() as int),
            old(bzf).strm.dstate matches Some(s0) ==> bzf.strm.dstate matches Some(s)
                && s.handed_out@ == s0.handed_out@ + bzf.strm.output@.subrange(0, bzf.strm.next_out as int),
        ensures
            bzf.wf(),
            file.wf(),
            file.bytes == old(file).bytes,
            old(file).pos <= file.pos,
            bzf.operation == Operation::Reading,
            bzf.strm.output@.len() == buf0.len(),
            0 <= res <= len,
            bzf.strm.next_out <= len,
            bzf.strm.output@.subrange(bzf.strm.next_out as int, buf0.len() as int)
                == buf0.subrange(bzf.strm.next_out as int, buf0.len() as int),
            err == BZ_OK || err == BZ_STREAM_END ==> res == bzf.strm.next_out,
            old(bzf).strm.dstate matches Some(s0) ==> bzf.strm.dstate matches Some(s)
                && s.handed_out@ == s0.handed_out@ + bzf.strm.output@.subrange(0, bzf.strm.next_out as int),
            err == BZ_OK ==> res == len,
            err == BZ_UNEXPECTED_EOF ==> res == 0 && file.pos == file.bytes@.len(),
            err != BZ_STREAM_END && err != BZ_OK ==> res == 0,
            err == BZ_OK || err == BZ_STREAM_END || err == BZ_UNEXPECTED_EOF || err == BZ_PARAM_ERROR
                || err == BZ_SEQUENCE_ERROR || err == crate::bzlib::BZ_DATA_ERROR
                || err == crate::bzlib::BZ_DATA_ERROR_MAGIC,
        decreases 2 * (file.bytes@.len() - file.pos) + (if bzf.strm.avail_in > 0 { 1int } else { 0int }),
    {
        if bzf.strm.avail_in == 0 && file.pos < file.bytes.len() {
            fill_input(bzf, file);
        }
        let ghost before = bzf.strm;
        let r = BZ2_bzDecompress(&mut bzf.strm);
        proof {
            let after = bzf.strm;
            assert forall|k: int| 0 <= k < before.next_out implies after.output@[k] == before.output@[k] by {
                assert(after.output@.subrange(0, before.next_out as int)[k] == before.output@.subrange(0, before.next_out as int)[k]);
            }
            assert(after.output@.subrange(0, after.next_out as int)
                =~= before.output@.subrange(0, before.next_out as int)
                    + after.output@.subrange(before.next_out as int, after.next_out as int));
            if old(bzf).strm.dstate is Some {
                let h0 = old(bzf).strm.dstate->0.handed_out@;
                let hb = before.dstate->0.handed_out@;
                let h1 = after.dstate->0.handed_out@;
                assert(hb == h0 + before.output@.subrange(0, before.next_out as int));
                assert(h1 == hb + after.output@.subrange(before.next_out as int, after.next_out as int));
                assert(h1 =~= h0 + after.output@.subrange(0, after.next_out as int));
            }
        }
        proof {
            assert(bzf.strm.output@.subrange(bzf.strm.next_out as int, buf0.len() as int)
                =~= buf0.subrange(bzf.strm.next_out as int, buf0.len() as int)) by {
                assert forall|k: int| bzf.strm.next_out <= k < buf0.len() implies bzf.strm.output@[k] == buf0[k] by {
                    assert(bzf.strm.output@.subrange(bzf.strm.next_out as int, bzf.strm.output@.len() as int)[k - bzf.strm.next_out]
                        == before.output@.subrange(bzf.strm.next_out as int, before.output@.len() as int)[k - bzf.strm.next_out]);
                    assert(before.output@.subrange(before.next_out as int, buf0.len() as int)[k - before.next_out]
                        == buf0.subrange(before.next_out as int, buf0.len() as int)[k - before.next_out]);
                }
            }
        }
        if r == BZ_OK {
            if file.pos == file.bytes.len() && bzf.strm.avail_in == 0 && bzf.strm.avail_out > 0 {
                err = BZ_UNEXPECTED_EOF;
                res = 0;
                break;
            } else if bzf.strm.avail_out == 0 {
                err = BZ_OK;
                res = len;
                break;
            }
        } else if r == BZ_STREAM_END {
            err = BZ_STREAM_END;
            res = bzf.strm.next_out as i32;
            break;
        } else {
            err = r;
            res = 0;
            break;
        }
    }
    let ghost written = bzf.strm.next_out as int;
    std::mem::swap(&mut bzf.strm.output, buf);
    bzf.strm.next_out = saved_next;
    bzf.strm.avail_out = saved_avail;
    proof {
        assert forall|k: int| len <= k < buf0.len() implies buf@[k] == buf0[k] by {
            assert(buf@.subrange(written, buf0.len() as int)[k - written] == buf0.subrange(written, buf0.len() as int)[k - written]);
        }
        assert(buf@.subrange(len as int, buf@.len() as int) =~= buf0.subrange(len as int, buf0.len() as int));
    }
    set_err(bzerror, bzf, err);
    res
}

} // verus!

verus! {

/// What a writing step asks of its caller.
pub enum WriteAction {
    /// Write these bytes to the file, then take the next step.
    WriteThenContinue(Vec<u8>),
    /// Write these bytes to the file; the call is then complete.
    WriteThenStop(Vec<u8>),
    /// The call is complete, with its outcome recorded in the file.
    Stop,
}

/// Opens a compressed file for writing (`BZ2_bzWriteOpen`), with blocks of
/// `blockSize100k` × 100000 bytes and `workFactor` 0 standing for the default 30.
/// Returns nothing, with `BZ_PARAM_ERROR`, unless `blockSize100k` is in `1 ..= 9`,
/// `verbosity` in `0 ..= 4` and `workFactor` in `0 ..= 250`.
pub fn BZ2_bzWriteOpen(bzerror: &mut i32, blockSize100k: i32, verbosity: i32, workFactor: i32) -> (r: Option<BZFILE>)
    ensures
        r is Some <==> (1 <= blockSize100k <= 9 && 0 <= verbosity <= 4 && 0 <= workFactor <= 250),
        *final(bzerror) == (if r is Some { BZ_OK } else { BZ_PARAM_ERROR }),
        r matches Some(f) ==> {
            &&& f.wf()
            &&& f.operation == Operation::Writing
            &&& f.lastErr == BZ_OK
            &&& f.initialisedOk
            &&& f.strm.avail_in == 0
            &&& f.strm.cstate matches Some(s) && {
                &&& s.mode == Mode::Running
                &&& s.blockSize100k == blockSize100k
                &&& s.workFactor == (if workFactor == 0 { 30 } else { workFactor })
                &&& s.block_input@ == Seq::<u8>::empty()
            }
        },
{
    if !(1 <= blockSize100k && blockSize100k <= 9) || !(0 <= workFactor && workFactor <= 250)
        || !(0 <= verbosity && verbosity <= 4) {
        *bzerror = BZ_PARAM_ERROR;
        return None;
    }
    let mut strm = bz_stream::zeroed();
    let ri = BZ2_bzCompressInit(&mut strm, blockSize100k, verbosity, workFactor);
    assert(ri == BZ_OK);
    strm.avail_in = 0;
    *bzerror = BZ_OK;
    Some(BZFILE { bufN: 0, strm, lastErr: BZ_OK, operation: Operation::Writing, initialisedOk: true })
}

/// Hands `buf[0 .. len]` to the compressor of a file opened for writing (`BZ2_bzWrite`).
/// Returns whether writing steps are due to compress it; when none are, `*bzerror` is
/// `BZ_OK` for `len == 0`, `BZ_PARAM_ERROR` for a negative `len` and `BZ_SEQUENCE_ERROR`
/// for a file opened for reading.
pub fn BZ2_bzWrite(bzerror: &mut i32, bzf: &mut BZFILE, buf: &Vec<u8>, len: i32) -> (more: bool)
    requires
        old(bzf).wf(),
        len < 0 || len <= buf@.len(),
    ensures
        final(bzf).wf(),
        final(bzf).operation == old(bzf).operation,
        final(bzf).lastErr == *final(bzerror),
        final(bzf).strm.cstate == old(bzf).strm.cstate,
        more <==> (len > 0 && old(bzf).operation == Operation::Writing),
        len < 0 ==> *final(bzerror) == BZ_PARAM_ERROR,
        len >= 0 && old(bzf).operation == Operation::Reading ==> *final(bzerror) == BZ_SEQUENCE_ERROR,
        len >= 0 && old(bzf).operation == Operation::Writing ==> *final(bzerror) == BZ_OK,
        !more ==> final(bzf).strm == old(bzf).strm,
        more ==> final(bzf).strm.input@ == buf@.subrange(0, len as int) && final(bzf).strm.next_in == 0
            && final(bzf).strm.avail_in == len,
{
    if len < 0 {
        set_err(bzerror, bzf, BZ_PARAM_ERROR);
        return false;
    }
    if bzf.operation != Operation::Writing {
        set_err(bzerror, bzf, BZ_SEQUENCE_ERROR);
        return false;
    }
    set_err(bzerror, bzf, BZ_OK);
    if len == 0 {
        return false;
    }
    bzf.strm.input = copy_prefix(buf, len as usize);
    bzf.strm.next_in = 0;
    bzf.strm.avail_in = len as u32;
    true
}

/// A compressor that a finishing step may go on with: one still running, or one already
/// finishing whose announced input is what the stream holds.
pub open spec fn finishing_ok(bzf: &BZFILE) -> bool {
    bzf.strm.cstate matches Some(s) && (s.mode == Mode::Running
        || s.mode == Mode::Finishing && s.avail_in_expect == bzf.strm.avail_in)
}

/// Runs the compressor of a file opened for writing with `action`, into a fresh buffer of
/// `BZ_MAX_UNUSED` bytes; returns the compressor's answer and the bytes it produced.
fn compress_chunk(bzf: &mut BZFILE, action: i32) -> (res: (i32, Vec<u8>))
    requires
        old(bzf).wf(),
        old(bzf).operation == Operation::Writing,
    ensures
        final(bzf).wf(),
        final(bzf).operation == Operation::Writing,
        final(bzf).lastErr == old(bzf).lastErr,
        final(bzf).strm.input == old(bzf).strm.input,
        old(bzf).strm.cstate is Some <==> final(bzf).strm.cstate is Some,
        old(bzf).strm.cstate is None ==> res.0 == BZ_PARAM_ERROR,
        res.1@.len() <= BZ_MAX_UNUSED,
        res.0 == BZ_RUN_OK || res.0 == crate::bzlib::BZ_FLUSH_OK || res.0 == BZ_FINISH_OK || res.0 == BZ_STREAM_END
            || res.0 == BZ_SEQUENCE_ERROR || res.0 == BZ_PARAM_ERROR,
        old(bzf).strm.cstate matches Some(s) && s.mode == Mode::Running && action == BZ_RUN ==> {
            &&& final(bzf).strm.cstate matches Some(s1) && s1.mode == Mode::Running
            &&& old(bzf).strm.avail_in > 0 ==> res.0 == BZ_RUN_OK
            &&& res.0 == BZ_RUN_OK <==> (final(bzf).strm.avail_in < old(bzf).strm.avail_in || res.1@.len() > 0)
        },
        finishing_ok(old(bzf)) && action == BZ_FINISH ==> {
            &&& res.0 == BZ_FINISH_OK || res.0 == BZ_STREAM_END || res.0 == BZ_SEQUENCE_ERROR
            &&& res.0 == BZ_SEQUENCE_ERROR <==> !(final(bzf).strm.avail_in < old(bzf).strm.avail_in || res.1@.len() > 0)
        },
        res.0 == BZ_FINISH_OK ==> finishing_ok(final(bzf)),
        final(bzf).strm.avail_in <= old(bzf).strm.avail_in,
        res.0 == BZ_STREAM_END ==> (final(bzf).strm.cstate matches Some(s1) && s1.mode == Mode::Idle),
{
    let mut saved_out = vec![0u8; BZ_MAX_UNUSED];
    std::mem::swap(&mut saved_out, &mut bzf.strm.output);
    let saved_next = bzf.strm.next_out;
    let saved_avail = bzf.strm.avail_out;
    bzf.strm.next_out = 0;
    bzf.strm.avail_out = BZ_MAX_UNUSED as u32;
    let r = BZ2_bzCompress(&mut bzf.strm, action);
    let produced = bzf.strm.next_out;
    let chunk = copy_prefix(&bzf.strm.output, produced);
    bzf.strm.output = saved_out;
    bzf.strm.next_out = saved_next;
    bzf.strm.avail_out = saved_avail;
    (r, chunk)
}

/// One step of writing the input handed in by `BZ2_bzWrite`: compresses into at most
/// `BZ_MAX_UNUSED` bytes, which come back for the caller to write. Once the input is
/// used up the step stops with `BZ_OK`; a compressor that refuses stops it with its answer.
pub fn write_step(bzerror: &mut i32, bzf: &mut BZFILE) -> (action: WriteAction)
    requires
        old(bzf).wf(),
        old(bzf).operation == Operation::Writing,
    ensures
        final(bzf).wf(),
        final(bzf).operation == Operation::Writing,
        final(bzf).strm.input == old(bzf).strm.input,
        final(bzf).lastErr == *final(bzerror),
        action matches WriteAction::WriteThenContinue(b) ==> b@.len() <= BZ_MAX_UNUSED
            && final(bzf).strm.avail_in > 0 && *final(bzerror) == old(bzf).lastErr,
        action matches WriteAction::WriteThenStop(b) ==> b@.len() <= BZ_MAX_UNUSED
            && final(bzf).strm.avail_in == 0 && *final(bzerror) == BZ_OK,
        action is Stop ==> *final(bzerror) != BZ_OK,
        old(bzf).strm.cstate is None ==> action is Stop && *final(bzerror) == BZ_PARAM_ERROR,
        old(bzf).strm.cstate matches Some(s) && s.mode == Mode::Running ==> {
            &&& final(bzf).strm.cstate matches Some(s1) && s1.mode == Mode::Running
            &&& old(bzf).strm.avail_in > 0 ==> !(action is Stop)
            &&& action matches WriteAction::WriteThenContinue(b) ==> final(bzf).strm.avail_in < old(bzf).strm.avail_in || b@.len() > 0
        },
{
    let (r, chunk) = compress_chunk(bzf, BZ_RUN);
    if r == BZ_RUN_OK {
        if bzf.strm.avail_in == 0 {
            set_err(bzerror, bzf, BZ_OK);
            WriteAction::WriteThenStop(chunk)
        } else {
            *bzerror = bzf.lastErr;
            WriteAction::WriteThenContinue(chunk)
        }
    } else {
        set_err(bzerror, bzf, r);
        WriteAction::Stop
    }
}

/// Starts closing a file opened for writing (`BZ2_bzWriteClose64`). Returns whether
/// finishing steps are due: they are when `abandon` is 0 and no call on the file failed.
/// `*bzerror` is `BZ_SEQUENCE_ERROR` for a file opened for reading.
pub fn BZ2_bzWriteClose64(bzerror: &mut i32, bzf: &mut BZFILE, abandon: i32) -> (finishing: bool)
    requires
        old(bzf).wf(),
    ensures
        final(bzf).wf(),
        old(bzf).operation == Operation::Reading ==> *final(bzerror) == BZ_SEQUENCE_ERROR && !finishing
            && final(bzf).lastErr == BZ_SEQUENCE_ERROR,
        old(bzf).operation == Operation::Writing ==> *final(bzerror) == old(bzf).lastErr
            && finishing == (abandon == 0 && old(bzf).lastErr == BZ_OK),
        final(bzf).strm == old(bzf).strm,
        final(bzf).operation == old(bzf).operation,
{
    if bzf.operation != Operation::Writing {
        set_err(bzerror, bzf, BZ_SEQUENCE_ERROR);
        return false;
    }
    *bzerror = bzf.lastErr;
    abandon == 0 && bzf.lastErr == BZ_OK
}

/// Starts closing a file opened for writing (`BZ2_bzWriteClose`): as
/// `BZ2_bzWriteClose64`, whose totals the caller then keeps as 32-bit counts.
pub fn BZ2_bzWriteClose(bzerror: &mut i32, bzf: &mut BZFILE, abandon: i32) -> (finishing: bool)
    requires
        old(bzf).wf(),
    ensures
        final(bzf).wf(),
        old(bzf).operation == Operation::Reading ==> *final(bzerror) == BZ_SEQUENCE_ERROR && !finishing,
        old(bzf).operation == Operation::Writing ==> *final(bzerror) == old(bzf).lastErr
            && finishing == (abandon == 0 && old(bzf).lastErr == BZ_OK),
        final(bzf).strm == old(bzf).strm,
        final(bzf).operation == old(bzf).operation,
{
    BZ2_bzWriteClose64(bzerror, bzf, abandon)
}

/// One step of finishing a file opened for writing: compresses the rest, and the stream's
/// end, into at most `BZ_MAX_UNUSED` bytes for the caller to write. Stops once the stream's
/// end was handed out; a compressor that refuses stops it with its answer.
pub fn finish_step(bzerror: &mut i32, bzf: &mut BZFILE) -> (action: WriteAction)
    requires
        old(bzf).wf(),
        old(bzf).operation == Operation::Writing,
    ensures
        final(bzf).wf(),
        final(bzf).operation == Operation::Writing,
        final(bzf).lastErr == *final(bzerror),
        action matches WriteAction::WriteThenContinue(b) ==> b@.len() <= BZ_MAX_UNUSED && *final(bzerror) == old(bzf).lastErr,
        action matches WriteAction::WriteThenStop(b) ==> b@.len() <= BZ_MAX_UNUSED && *final(bzerror) == old(bzf).lastErr,
        action is Stop ==> *final(bzerror) != BZ_OK,
        old(bzf).strm.cstate is None ==> action is Stop && *final(bzerror) == BZ_PARAM_ERROR,
        finishing_ok(old(bzf)) ==> {
            &&& action is Stop ==> *final(bzerror) == BZ_SEQUENCE_ERROR
                && final(bzf).strm.avail_in == old(bzf).strm.avail_in
            &&& action matches WriteAction::WriteThenContinue(b) ==> finishing_ok(final(bzf))
                && (final(bzf).strm.avail_in < old(bzf).strm.avail_in || b@.len() > 0)
            &&& action matches WriteAction::WriteThenStop(b) ==> final(bzf).strm.avail_in < old(bzf).strm.avail_in || b@.len() > 0
        },
        action is WriteThenStop ==> (final(bzf).strm.cstate matches Some(s1) && s1.mode == Mode::Idle),
{
    let (r, chunk) = compress_chunk(bzf, BZ_FINISH);
    if r == BZ_FINISH_OK {
        *bzerror = bzf.lastErr;
        WriteAction::WriteThenContinue(chunk)
    } else if r == BZ_STREAM_END {
        *bzerror = bzf.lastErr;
        WriteAction::WriteThenStop(chunk)
    } else {
        set_err(bzerror, bzf, r);
        WriteAction::Stop
    }
}

/// Completes closing a file opened for writing: drops its compressor and returns the
/// numbers of bytes taken in and handed out, each as low and high 32-bit halves.
pub fn write_close_totals(bzerror: &mut i32, bzf: &mut BZFILE) -> (totals: (u32, u32, u32, u32))
    requires
        old(bzf).wf(),
    ensures
        final(bzf).wf(),
        *final(bzerror) == BZ_OK,
        final(bzf).lastErr == BZ_OK,
        final(bzf).strm.cstate is None,
        totals == (old(bzf).strm.total_in_lo32, old(bzf).strm.total_in_hi32,
            old(bzf).strm.total_out_lo32, old(bzf).strm.total_out_hi32),
{
    let totals = (bzf.strm.total_in_lo32, bzf.strm.total_in_hi32, bzf.strm.total_out_lo32, bzf.strm.total_out_hi32);
    set_err(bzerror, bzf, BZ_OK);
    BZ2_bzCompressEnd(&mut bzf.strm);
    totals
}

/// Hands back the bytes taken from the file but not needed to reach the end of the
/// stream (`BZ2_bzReadGetUnused`). Returns nothing, with `BZ_SEQUENCE_ERROR`, unless the
/// last read reached the end of the stream.
pub fn BZ2_bzReadGetUnused(bzerror: &mut i32, bzf: &mut BZFILE) -> (unused: Option<Vec<u8>>)
    requires
        old(bzf).wf(),
    ensures
        final(bzf).wf(),
        final(bzf).strm == old(bzf).strm,
        final(bzf).operation == old(bzf).operation,
        unused is Some <==> old(bzf).lastErr == BZ_STREAM_END,
        *final(bzerror) == (if unused is Some { BZ_OK } else { BZ_SEQUENCE_ERROR }),
        final(bzf).lastErr == *final(bzerror),
        unused matches Some(u) ==> u@ == old(bzf).strm.input@.subrange(old(bzf).strm.next_in as int,
            old(bzf).strm.next_in + old(bzf).strm.avail_in),
        old(bzf).operation == Operation::Reading && unused is Some ==> unused->0@.len() <= BZ_MAX_UNUSED,
{
    if bzf.lastErr != BZ_STREAM_END {
        set_err(bzerror, bzf, BZ_SEQUENCE_ERROR);
        return None;
    }
    set_err(bzerror, bzf, BZ_OK);
    Some(copy_range(&bzf.strm.input, bzf.strm.next_in, bzf.strm.avail_in as usize))
}

/// The name of a status, as `BZ2_bzerror` reports it: that of an error code, or "OK"
/// for every other status.
pub open spec fn error_text(err: int) -> Seq<char> {
    if err == -1 { "SEQUENCE_ERROR"@ }
    else if err == -2 { "PARAM_ERROR"@ }
    else if err == -3 { "MEM_ERROR"@ }
    else if err == -4 { "DATA_ERROR"@ }
    else if err == -5 { "DATA_ERROR_MAGIC"@ }
    else if err == -6 { "IO_ERROR"@ }
    else if err == -7 { "UNEXPECTED_EOF"@ }
    else if err == -8 { "OUTBUFF_FULL"@ }
    else if err == -9 { "CONFIG_ERROR"@ }
    else if err < 0 { "???"@ }
    else { "OK"@ }
}

/// Describes the outcome of the last call on the file (`BZ2_bzerror`): sets `*errnum` to
/// it when it was an error and to 0 otherwise, and returns its name.
pub fn BZ2_bzerror(b: &BZFILE, errnum: &mut i32) -> (msg: &'static str)
    ensures
        *final(errnum) == (if b.lastErr < 0 { b.lastErr } else { 0 }),
        msg@ == error_text(*final(errnum) as int),
{
    let err = if b.lastErr < 0 { b.lastErr } else { 0 };
    *errnum = err;
    if err == -1 { "SEQUENCE_ERROR" }
    else if err == -2 { "PARAM_ERROR" }
    else if err == -3 { "MEM_ERROR" }
    else if err == -4 { "DATA_ERROR" }
    else if err == -5 { "DATA_ERROR_MAGIC" }
    else if err == -6 { "IO_ERROR" }
    else if err == -7 { "UNEXPECTED_EOF" }
    else if err == -8 { "OUTBUFF_FULL" }
    else if err == -9 { "CONFIG_ERROR" }
    else if err < 0 { "???" }
    else { "OK" }
}

/// Flushes a compressed file (`BZ2_bzflush`): there is nothing to do, and it returns 0.
pub fn BZ2_bzflush(_b: &mut BZFILE) -> (r: i32)
    ensures
        r == 0,
        *final(_b) == *old(_b),
{
    0
}

/// The library's version: that of the bzip2 release whose format and interface it keeps.
pub fn BZ2_bzlibVersion() -> (v: &'static str)
    ensures
        v@ == "1.1.0"@,
{
    "1.1.0"
}

/// What a mode string of `BZ2_bzopen` asks for after its first `k` letters: reading (`r`)
/// or writing (`w`), the small decompressor (`s`), and a block size (a digit); a later
/// letter overrides an earlier one, and other letters are ignored.
pub open spec fn open_mode_upto(mode: Seq<u8>, k: int) -> (Operation, bool, int)
    decreases k,
{
    if k <= 0 {
        (Operation::Reading, false, 9)
    } else {
        let prev = open_mode_upto(mode, k - 1);
        let c = mode[k - 1];
        if c == 0x72u8 { (Operation::Reading, prev.1, prev.2) }
        else if c == 0x77u8 { (Operation::Writing, prev.1, prev.2) }
        else if c == 0x73u8 { (prev.0, true, prev.2) }
        else if 0x30u8 <= c <= 0x39u8 { (prev.0, prev.1, c - 0x30) }
        else { prev }
    }
}

/// What a mode string of `BZ2_bzopen` asks for (`bzopen_or_bzdopen`): reading or writing,
/// the small decompressor, and the block size, brought into `1 ..= 9`.
pub fn open_mode(mode: &[u8]) -> (r: (Operation, bool, i32))
    ensures
        r.0 == open_mode_upto(mode@, mode@.len() as int).0,
        r.1 == open_mode_upto(mode@, mode@.len() as int).1,
        r.2 == (if open_mode_upto(mode@, mode@.len() as int).2 < 1 { 1 } else { open_mode_upto(mode@, mode@.len() as int).2 }),
{
    let mut op = Operation::Reading;
    let mut small = false;
    let mut block_size: i32 = 9;
    let mut i: usize = 0;
    while i < mode.len()
        invariant
            i <= mode@.len(),
            (op, small, block_size as int) == open_mode_upto(mode@, i as int),
            0 <= block_size <= 9,
        decreases mode@.len() - i,
    {
        let c = mode[i];
        if c == 0x72 {
            op = Operation::Reading;
        } else if c == 0x77 {
            op = Operation::Writing;
        } else if c == 0x73 {
            small = true;
        } else if 0x30 <= c && c <= 0x39 {
            block_size = (c - 0x30) as i32;
        }
        i = i + 1;
    }
    (op, small, if block_size < 1 { 1 } else { block_size })
}

} // verus!
