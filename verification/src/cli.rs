//! The command-line tool's choice of input and output names.
use vstd::prelude::*;
use vstd::string::{StrSliceExecFns, StringExecFns};
use crate::bzlib::{
    BZ_CONFIG_ERROR, BZ_DATA_ERROR, BZ_DATA_ERROR_MAGIC, BZ_IO_ERROR, BZ_MEM_ERROR, BZ_UNEXPECTED_EOF,
};

verus! {

/// Where data comes from and goes to: stdin to stdout, a file to stdout, a file to a file.
#[derive(Clone, Copy, PartialEq, Eq, Structural)]
pub enum SourceMode {
    I2O,
    F2O,
    F2F,
}

/// What the tool does.
#[derive(Clone, Copy, PartialEq, Eq, Structural)]
pub enum OperationMode {
    Zip,
    Unzip,
    Test,
}

/// Which decompression variant is used.
#[derive(Clone, Copy, PartialEq, Eq, Structural)]
pub enum DecompressMode {
    Fast,
    Small,
}

/// The tool's settings for one file.
#[derive(Clone)]
pub struct Config {
    pub program_name: String,
    pub input: String,
    pub output: String,
    pub noisy: bool,
    pub verbosity: i32,
    pub force_overwrite: bool,
    pub keep_input_files: bool,
    pub blockSize100k: i32,
    pub workFactor: i32,
    pub decompress_mode: DecompressMode,
}

/// File names this long, in bytes, are refused.
pub const FILE_NAME_LEN: usize = 1034;

/// The length of `s` in bytes, in UTF-8.
pub open spec fn byte_len(s: Seq<char>) -> nat {
    vstd::utf8::encode_utf8(s).len()
}

/// Whether `s` ends with `suffix`.
pub open spec fn has_suffix(s: Seq<char>, suffix: Seq<char>) -> bool {
    suffix.len() <= s.len() && s.subrange(s.len() - suffix.len(), s.len() as int) == suffix
}

/// The output name for decompressing `name` to a file: the first known suffix it ends
/// with is replaced, otherwise `.out` is appended.
pub open spec fn uncompressed_name(name: Seq<char>) -> Seq<char> {
    if has_suffix(name, ".bz2"@) {
        name.subrange(0, name.len() - 4) + ""@
    } else if has_suffix(name, ".bz"@) {
        name.subrange(0, name.len() - 3) + ""@
    } else if has_suffix(name, ".tbz2"@) {
        name.subrange(0, name.len() - 5) + ".tar"@
    } else if has_suffix(name, ".tbz"@) {
        name.subrange(0, name.len() - 4) + ".tar"@
    } else {
        name + ".out"@
    }
}

/// Whether `name` ends with `suffix`.
fn ends_with(name: &str, suffix: &str) -> (r: bool)
    ensures
        r == has_suffix(name@, suffix@),
{
    let n = name.unicode_len();
    let k = suffix.unicode_len();
    if k > n {
        return false;
    }
    let mut i: usize = 0;
    while i < k
        invariant
            i <= k <= n,
            n == name@.len(),
            k == suffix@.len(),
            forall|j: int| 0 <= j < i ==> name@[n - k + j] == suffix@[j],
        decreases k - i,
    {
        if name.get_char(n - k + i) != suffix.get_char(i) {
            assert(name@.subrange(n - k, n as int)[i as int] != suffix@[i as int]);
            return false;
        }
        i = i + 1;
    }
    assert(name@.subrange(n - k, n as int) =~= suffix@);
    true
}

/// The extensions of a file that is already compressed: `bz2`, `bz`, `tbz2`, `tbz`.
pub open spec fn compressed_extension(ext: Seq<char>) -> bool {
    ||| ext == "bz2"@
    ||| ext == "bz"@
    ||| ext == "tbz2"@
    ||| ext == "tbz"@
}

/// Whether two strings hold the same characters.
fn same_chars(a: &str, b: &str) -> (r: bool)
    ensures
        r == (a@ == b@),
{
    if a.unicode_len() != b.unicode_len() {
        return false;
    }
    let r = ends_with(a, b);
    assert(a@.subrange(0, a@.len() as int) =~= a@);
    r
}

/// Whether a file's extension (the part after its last dot) marks it as already
/// compressed; such a file is not compressed again.
pub fn is_compressed_extension(ext: &str) -> (r: bool)
    ensures
        r == compressed_extension(ext@),
{
    same_chars(ext, "bz2") || same_chars(ext, "bz") || same_chars(ext, "tbz2") || same_chars(ext, "tbz")
}

/// `name` with its last `cut` characters replaced by `new`.
fn replace_suffix(name: &str, cut: usize, new: &str) -> (r: String)
    requires
        cut <= name@.len(),
    ensures
        r@ == name@.subrange(0, name@.len() - cut) + new@,
{
    let n = name.unicode_len();
    let stem = name.substring_char(0, n - cut);
    String::from_str(stem).concat(new)
}

impl Config {
    /// Names for compressing `name` in `mode`: standard streams are called `(stdin)` and
    /// `(stdout)`; a file `x` compressed to a file goes to `x.bz2`.
    pub fn with_compress_input(&mut self, name: Option<&str>, mode: SourceMode)
        requires
            mode != SourceMode::I2O ==> name is Some,
        ensures
            mode == SourceMode::I2O ==> final(self).input@ == "(stdin)"@ && final(self).output@ == "(stdout)"@,
            mode == SourceMode::F2O ==> final(self).input@ == name->0@ && final(self).output@ == "(stdout)"@,
            mode == SourceMode::F2F ==> final(self).input@ == name->0@ && final(self).output@ == name->0@ + ".bz2"@,
            *final(self) == (Config { input: final(self).input, output: final(self).output, ..*old(self) }),
    {
        match mode {
            SourceMode::I2O => {
                self.input = String::from_str("(stdin)");
                self.output = String::from_str("(stdout)");
            },
            SourceMode::F2O => {
                let n = name.unwrap();
                self.input = String::from_str(n);
                self.output = String::from_str("(stdout)");
            },
            SourceMode::F2F => {
                let n = name.unwrap();
                self.input = String::from_str(n);
                self.output = String::from_str(n).concat(".bz2");
            },
        }
    }

    /// Names for decompressing `name` in `mode`: a file decompressed to a file loses its
    /// compressed-file suffix (`.tbz2` and `.tbz` become `.tar`), or gains `.out`.
    pub fn with_uncompress_input(&mut self, name: Option<&str>, mode: SourceMode)
        requires
            mode != SourceMode::I2O ==> name is Some,
        ensures
            mode == SourceMode::I2O ==> final(self).input@ == "(stdin)"@ && final(self).output@ == "(stdout)"@,
            mode == SourceMode::F2O ==> final(self).input@ == name->0@ && final(self).output@ == "(stdout)"@,
            mode == SourceMode::F2F ==> final(self).input@ == name->0@ && final(self).output@ == uncompressed_name(name->0@),
            *final(self) == (Config { input: final(self).input, output: final(self).output, ..*old(self) }),
    {
        match mode {
            SourceMode::I2O => {
                self.input = String::from_str("(stdin)");
                self.output = String::from_str("(stdout)");
            },
            SourceMode::F2O => {
                let n = name.unwrap();
                self.input = String::from_str(n);
                self.output = String::from_str("(stdout)");
            },
            SourceMode::F2F => {
                let n = name.unwrap();
                self.input = String::from_str(n);
                proof {
                    reveal_strlit(".bz2");
                    reveal_strlit(".bz");
                    reveal_strlit(".tbz2");
                    reveal_strlit(".tbz");
                    reveal_strlit(".tar");
                    reveal_strlit("");
                    reveal_strlit(".out");
                }
                self.output = if ends_with(n, ".bz2") {
                    replace_suffix(n, 4, "")
                } else if ends_with(n, ".bz") {
                    replace_suffix(n, 3, "")
                } else if ends_with(n, ".tbz2") {
                    replace_suffix(n, 5, ".tar")
                } else if ends_with(n, ".tbz") {
                    replace_suffix(n, 4, ".tar")
                } else {
                    String::from_str(n).concat(".out")
                };
            },
        }
    }

    /// Names for testing `name` in `mode`: there is no output, called `(none)`.
    pub fn with_test_input(&mut self, name: Option<&str>, mode: SourceMode)
        requires
            mode != SourceMode::I2O ==> name is Some,
        ensures
            mode == SourceMode::I2O ==> final(self).input@ == "(stdin)"@,
            mode != SourceMode::I2O ==> final(self).input@ == name->0@,
            final(self).output@ == "(none)"@,
            *final(self) == (Config { input: final(self).input, output: final(self).output, ..*old(self) }),
    {
        self.output = String::from_str("(none)");
        match mode {
            SourceMode::I2O => {
                self.input = String::from_str("(stdin)");
            },
            _ => {
                let n = name.unwrap();
                self.input = String::from_str(n);
            },
        }
    }

    /// Names for `operation` on `name` in `mode`. Returns the complaint to print, and stop
    /// with, when the input or output name is too long.
    pub fn with_input(&mut self, operation: OperationMode, name: Option<&str>, mode: SourceMode) -> (r: Option<String>)
        requires
            mode != SourceMode::I2O ==> name is Some,
        ensures
            operation == OperationMode::Zip ==> final(self).output@ == (match mode {
                SourceMode::F2F => name->0@ + ".bz2"@,
                _ => "(stdout)"@,
            }),
            operation == OperationMode::Unzip ==> final(self).output@ == (match mode {
                SourceMode::F2F => uncompressed_name(name->0@),
                _ => "(stdout)"@,
            }),
            operation == OperationMode::Test ==> final(self).output@ == "(none)"@,
            *final(self) == (Config { input: final(self).input, output: final(self).output, ..*old(self) }),
            mode == SourceMode::I2O ==> final(self).input@ == "(stdin)"@,
            mode != SourceMode::I2O ==> final(self).input@ == name->0@,
            r is None <==> byte_len(final(self).input@) < FILE_NAME_LEN - 10
                && byte_len(final(self).output@) < FILE_NAME_LEN - 10,
            r matches Some(m) ==> {
                let bad = if byte_len(final(self).input@) >= FILE_NAME_LEN - 10 { final(self).input@ } else { final(self).output@ };
                m@ == "bzip2: file name\n`"@ + bad + "'\nis suspiciously (more than 1024 chars) long.\nTry using a reasonable file name instead.  Sorry! :-)\n"@
            },
    {
        match operation {
            OperationMode::Zip => self.with_compress_input(name, mode),
            OperationMode::Unzip => self.with_uncompress_input(name, mode),
            OperationMode::Test => self.with_test_input(name, mode),
        }
        let ilen = self.input.as_str().as_bytes().len();
        let olen = self.output.as_str().as_bytes().len();
        if ilen >= FILE_NAME_LEN - 10 {
            let mut m = String::from_str("bzip2: file name\n`");
            m.append(self.input.as_str());
            m.append("'\nis suspiciously (more than 1024 chars) long.\nTry using a reasonable file name instead.  Sorry! :-)\n");
            return Some(m);
        }
        if olen >= FILE_NAME_LEN - 10 {
            let mut m = String::from_str("bzip2: file name\n`");
            m.append(self.output.as_str());
            m.append("'\nis suspiciously (more than 1024 chars) long.\nTry using a reasonable file name instead.  Sorry! :-)\n");
            return Some(m);
        }
        None
    }
}

/// Whether a path holds the wildcard characters `?` or `*` (which file names may not hold
/// where the program, not the shell, expands wildcards).
pub fn contains_dubious_chars(path: &[u8]) -> (r: bool)
    ensures
        r == exists|i: int| 0 <= i < path@.len() && (path@[i] == 0x3fu8 || path@[i] == 0x2au8),
{
    let mut i: usize = 0;
    while i < path.len()
        invariant
            i <= path@.len(),
            forall|j: int| 0 <= j < i ==> !(path@[j] == 0x3fu8 || path@[j] == 0x2au8),
        decreases path@.len() - i,
    {
        if path[i] == 0x3f || path[i] == 0x2a {
            return true;
        }
        i = i + 1;
    }
    false
}

/// How reading a compressed file ended, as the tool acts on it.
#[derive(Clone, Copy, PartialEq, Eq, Structural, Debug)]
pub enum ReadVerdict {
    /// Something other than a stream follows the streams read: ignored, with a warning.
    TrailingGarbage,
    /// The file does not start with a stream.
    NotBzip2,
    /// The file does not start with a stream, and is copied out as it is.
    CopyRaw,
    /// A stream's data does not match its checksums.
    CrcError,
    /// The file ends inside a stream.
    UnexpectedEof,
    OutOfMemory,
    ConfigError,
    IoError,
    /// A status that reading never ends with.
    Unexpected,
}

/// The verdict on a read of stream number `stream_no` (from 1) of a compressed file that
/// ended with the error `bzerr`; `force` asks for a file that is no stream to be copied.
pub open spec fn read_verdict_spec(bzerr: i32, stream_no: i32, force: bool) -> ReadVerdict {
    if bzerr == BZ_CONFIG_ERROR { ReadVerdict::ConfigError }
    else if bzerr == BZ_IO_ERROR { ReadVerdict::IoError }
    else if bzerr == BZ_DATA_ERROR { ReadVerdict::CrcError }
    else if bzerr == BZ_MEM_ERROR { ReadVerdict::OutOfMemory }
    else if bzerr == BZ_UNEXPECTED_EOF { ReadVerdict::UnexpectedEof }
    else if bzerr == BZ_DATA_ERROR_MAGIC {
        if force { ReadVerdict::CopyRaw }
        else if stream_no == 1 { ReadVerdict::NotBzip2 }
        else { ReadVerdict::TrailingGarbage }
    }
    else { ReadVerdict::Unexpected }
}

/// What the tool makes of a read that ended with `bzerr` on stream number `stream_no`
/// of a compressed file (`uncompressStream`, `testStream`).
pub fn read_verdict(bzerr: i32, stream_no: i32, force: bool) -> (v: ReadVerdict)
    ensures
        v == read_verdict_spec(bzerr, stream_no, force),
{
    if bzerr == BZ_CONFIG_ERROR { ReadVerdict::ConfigError }
    else if bzerr == BZ_IO_ERROR { ReadVerdict::IoError }
    else if bzerr == BZ_DATA_ERROR { ReadVerdict::CrcError }
    else if bzerr == BZ_MEM_ERROR { ReadVerdict::OutOfMemory }
    else if bzerr == BZ_UNEXPECTED_EOF { ReadVerdict::UnexpectedEof }
    else if bzerr == BZ_DATA_ERROR_MAGIC {
        if force { ReadVerdict::CopyRaw }
        else if stream_no == 1 { ReadVerdict::NotBzip2 }
        else { ReadVerdict::TrailingGarbage }
    }
    else { ReadVerdict::Unexpected }
}


} // verus!
