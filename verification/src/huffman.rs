//! Canonical Huffman codes: code lengths from frequencies, codes from lengths, and the
//! tables the decoder uses to turn code words back into symbols.
use vstd::prelude::*;
use vstd::arithmetic::power2::{pow2, lemma_pow2_unfold, lemma_pow2_pos};

verus! {

/// The largest alphabet: 256 byte values, plus the two run symbols, minus one, plus end of block.
pub const BZ_MAX_ALPHA_SIZE: usize = 258;
/// Size of the per-table `limit`/`base` arrays used by the decoder.
pub const BZ_MAX_CODE_LEN: usize = 23;

/// How many of the first `upto` symbols have code length `n`.
pub open spec fn count_len(lens: Seq<u8>, upto: int, n: int) -> nat
    decreases upto,
{
    if upto <= 0 {
        0
    } else {
        count_len(lens, upto - 1, n) + (if lens[upto - 1] as int == n { 1nat } else { 0nat })
    }
}

/// How many of the first `upto` symbols have a code length below `n`.
pub open spec fn count_below(lens: Seq<u8>, upto: int, n: int) -> nat
    decreases upto,
{
    if upto <= 0 {
        0
    } else {
        count_below(lens, upto - 1, n) + (if (lens[upto - 1] as int) < n { 1nat } else { 0nat })
    }
}

/// The first canonical code of length `n`, when the shortest length in use is `min_len`.
pub open spec fn first_code(lens: Seq<u8>, min_len: int, n: int) -> int
    decreases n - min_len,
{
    if n <= min_len {
        0
    } else {
        2 * (first_code(lens, min_len, n - 1) + count_len(lens, lens.len() as int, n - 1))
    }
}

/// The canonical code of symbol `i`: codes of one length are consecutive, in symbol
/// order, and each length starts where the previous one ended, doubled.
pub open spec fn canonical_code(lens: Seq<u8>, min_len: int, i: int) -> int {
    first_code(lens, min_len, lens[i] as int) + count_len(lens, i, lens[i] as int)
}

/// Where symbol `q` sits in the decoder's `perm` table: after all shorter codes, and after
/// the smaller symbols of its own length.
pub open spec fn perm_pos(lens: Seq<u8>, upto: int, q: int) -> int {
    (count_below(lens, upto, lens[q] as int) + count_len(lens, q, lens[q] as int)) as int
}

/// Every length of `lens` lies in `min_len ..= max_len`.
pub open spec fn lens_in_range(lens: Seq<u8>, min_len: int, max_len: int) -> bool {
    forall|i: int| 0 <= i < lens.len() ==> min_len <= #[trigger] lens[i] as int <= max_len
}

pub proof fn lemma_count_len_le(lens: Seq<u8>, upto: int, n: int)
    requires
        0 <= upto,
    ensures
        count_len(lens, upto, n) <= upto,
    decreases upto,
{
    if upto > 0 {
        lemma_count_len_le(lens, upto - 1, n);
    }
}

pub proof fn lemma_count_len_mono(lens: Seq<u8>, a: int, b: int, n: int)
    requires
        0 <= a <= b,
    ensures
        count_len(lens, a, n) <= count_len(lens, b, n),
    decreases b - a,
{
    if a < b {
        lemma_count_len_mono(lens, a, b - 1, n);
    }
}

pub proof fn lemma_count_len_strict(lens: Seq<u8>, j: int, b: int)
    requires
        0 <= j < b,
    ensures
        count_len(lens, j, lens[j] as int) < count_len(lens, b, lens[j] as int),
{
    lemma_count_len_mono(lens, j + 1, b, lens[j] as int);
}

pub proof fn lemma_count_below_step(lens: Seq<u8>, upto: int, n: int)
    requires
        0 <= upto,
    ensures
        count_below(lens, upto, n + 1) == count_below(lens, upto, n) + count_len(lens, upto, n),
    decreases upto,
{
    if upto > 0 {
        lemma_count_below_step(lens, upto - 1, n);
    }
}

pub proof fn lemma_count_below_le(lens: Seq<u8>, upto: int, n: int)
    requires
        0 <= upto,
    ensures
        count_below(lens, upto, n) <= upto,
    decreases upto,
{
    if upto > 0 {
        lemma_count_below_le(lens, upto - 1, n);
    }
}

pub proof fn lemma_count_below_min(lens: Seq<u8>, upto: int, min_len: int)
    requires
        0 <= upto <= lens.len(),
        forall|i: int| 0 <= i < upto ==> min_len <= #[trigger] lens[i] as int,
    ensures
        count_below(lens, upto, min_len) == 0,
    decreases upto,
{
    if upto > 0 {
        lemma_count_below_min(lens, upto - 1, min_len);
    }
}

/// `first_code` grows at most like the alphabet size times a power of two.
pub proof fn lemma_first_code_bound(lens: Seq<u8>, min_len: int, n: int)
    requires
        min_len <= n,
    ensures
        0 <= first_code(lens, min_len, n) <= lens.len() * (pow2((n - min_len + 1) as nat) - 2),
    decreases n - min_len,
{
    let a = lens.len() as int;
    if n == min_len {
        vstd::arithmetic::power2::lemma2_to64();
    } else {
        lemma_first_code_bound(lens, min_len, n - 1);
        lemma_count_len_le(lens, a, n - 1);
        let k = (n - min_len) as nat;
        lemma_pow2_unfold(k + 1);
        let p = pow2(k) as int;
        let f = first_code(lens, min_len, n - 1);
        let c = count_len(lens, a, n - 1) as int;
        assert(2 * (f + c) <= a * (2 * p - 2)) by (nonlinear_arith)
            requires f <= a * (p - 2), c <= a, 0 <= a;
    }
}

proof fn lemma_pow2_small(k: nat)
    requires
        k <= 21,
    ensures
        pow2(k) <= 0x20_0000,
{
    vstd::arithmetic::power2::lemma2_to64();
    if k < 21 {
        vstd::arithmetic::power2::lemma_pow2_strictly_increases(k, 21);
    }
}

/// Assigns canonical codes to the symbols whose lengths lie in `minLen ..= maxLen`
/// (`BZ2_hbAssignCodes`). Symbols are `0 .. alphaSize`.
pub fn BZ2_hbAssignCodes(
    code: &mut Vec<i32>,
    length: &Vec<u8>,
    minLen: i32,
    maxLen: i32,
    alphaSize: usize,
)
    requires
        alphaSize <= BZ_MAX_ALPHA_SIZE,
        alphaSize <= old(code)@.len(),
        alphaSize <= length@.len(),
        0 <= minLen <= maxLen <= 32,
        maxLen <= minLen + 20,
    ensures
        final(code)@.len() == old(code)@.len(),
        forall|i: int|
            0 <= i < alphaSize && minLen <= #[trigger] length@[i] <= maxLen
                ==> final(code)@[i] == canonical_code(length@.subrange(0, alphaSize as int), minLen as int, i),
        forall|k: int|
            0 <= k < old(code)@.len() && !(k < alphaSize && minLen <= length@[k] <= maxLen)
                ==> final(code)@[k] == old(code)@[k],
{
    let ghost lens = length@.subrange(0, alphaSize as int);
    let ghost a = alphaSize as int;
    assert(forall|q: int| 0 <= q < alphaSize ==> lens[q] == length@[q]);
    let mut vec: i32 = 0;
    let mut n: i32 = minLen;
    while n <= maxLen
        invariant
            minLen <= n <= maxLen + 1,
            maxLen <= 32,
            alphaSize <= BZ_MAX_ALPHA_SIZE,
            maxLen <= minLen + 20,
            alphaSize <= code@.len(),
            alphaSize <= length@.len(),
            lens.len() == a,
            a == alphaSize,
            forall|q: int| 0 <= q < alphaSize ==> lens[q] == length@[q],
            code@.len() == old(code)@.len(),
            vec == first_code(lens, minLen as int, n as int),
            forall|q: int|
                0 <= q < alphaSize && minLen <= #[trigger] lens[q] < n
                    ==> code@[q] == canonical_code(lens, minLen as int, q),
            forall|q: int|
                0 <= q < alphaSize && !(minLen <= #[trigger] lens[q] < n) ==> code@[q] == old(code)@[q],
            forall|k: int| alphaSize <= k < code@.len() ==> code@[k] == old(code)@[k],
        decreases maxLen + 1 - n,
    {
        proof {
            lemma_first_code_bound(lens, minLen as int, n as int);
            lemma_pow2_small((n - minLen + 1) as nat);
            lemma_count_len_le(lens, a, n as int);
            let p = pow2((n - minLen + 1) as nat) as int;
            assert(a * (p - 2) <= a * (0x20_0000 - 2)) by (nonlinear_arith)
                requires p <= 0x20_0000, 0 <= a;
        }
        let ghost f = vec as int;
        let mut i: usize = 0;
        while i < alphaSize
            invariant
                minLen <= n <= maxLen,
                maxLen <= 32,
                i <= alphaSize,
                alphaSize <= BZ_MAX_ALPHA_SIZE,
                alphaSize <= code@.len(),
                alphaSize <= length@.len(),
                lens.len() == a,
                a == alphaSize,
                forall|q: int| 0 <= q < alphaSize ==> lens[q] == length@[q],
                code@.len() == old(code)@.len(),
                f == first_code(lens, minLen as int, n as int),
                0 <= f <= a * (0x20_0000 - 2),
                vec == f + count_len(lens, i as int, n as int),
                forall|q: int|
                    0 <= q < alphaSize && (minLen <= #[trigger] lens[q] < n || (q < i && lens[q] == n))
                        ==> code@[q] == canonical_code(lens, minLen as int, q),
                forall|q: int|
                    0 <= q < alphaSize && !(minLen <= #[trigger] lens[q] < n || (q < i && lens[q] == n))
                        ==> code@[q] == old(code)@[q],
                forall|k: int| alphaSize <= k < code@.len() ==> code@[k] == old(code)@[k],
            decreases alphaSize - i,
        {
            proof {
                lemma_count_len_le(lens, i as int, n as int);
            }
            if length[i] as i32 == n {
                code.set(i, vec);
                vec = vec + 1;
            }
            i = i + 1;
        }
        proof {
            lemma_count_len_le(lens, a, n as int);
        }
        vec = vec * 2;
        n = n + 1;
    }
    assert forall|k: int|
        0 <= k < old(code)@.len() && !(k < alphaSize && minLen <= length@[k] <= maxLen)
            implies code@[k] == old(code)@[k] by {
        if k < alphaSize {
            assert(lens[k] == length@[k]);
        }
    }
}

/// Builds the decoding tables of one Huffman table (`BZ2_hbCreateDecodeTables`):
/// `perm` lists the symbols by length and then by value; for each length `n` in use,
/// `limit[n]` is the largest code of that length and `base[n]` the amount to subtract from a
/// code of length `n` to find its place in `perm`. Of the other first `BZ_MAX_CODE_LEN`
/// entries, `limit` holds 0 and `base` the number of symbols with shorter codes.
pub fn BZ2_hbCreateDecodeTables(
    limit: &mut Vec<i32>,
    base: &mut Vec<i32>,
    perm: &mut Vec<i32>,
    length: &Vec<u8>,
    minLen: i32,
    maxLen: i32,
    alphaSize: i32,
)
    requires
        0 <= alphaSize <= BZ_MAX_ALPHA_SIZE,
        BZ_MAX_CODE_LEN <= old(limit)@.len(),
        BZ_MAX_CODE_LEN <= old(base)@.len(),
        alphaSize <= old(perm)@.len(),
        alphaSize <= length@.len(),
        1 <= minLen <= maxLen <= 20,
        lens_in_range(length@.subrange(0, alphaSize as int), minLen as int, maxLen as int),
    ensures
        final(limit)@.len() == old(limit)@.len(),
        final(base)@.len() == old(base)@.len(),
        final(perm)@.len() == old(perm)@.len(),
        ({
            let lens = length@.subrange(0, alphaSize as int);
            &&& forall|n: int| minLen <= n <= maxLen ==>
                #[trigger] final(limit)@[n] == first_code(lens, minLen as int, n) + count_len(lens, alphaSize as int, n) - 1
            &&& forall|n: int| minLen <= n <= maxLen ==>
                #[trigger] final(base)@[n] == first_code(lens, minLen as int, n) - count_below(lens, alphaSize as int, n)
            &&& forall|q: int| 0 <= q < alphaSize ==>
                final(perm)@[#[trigger] perm_pos(lens, alphaSize as int, q)] == q
            &&& forall|n: int| 0 <= n < BZ_MAX_CODE_LEN && !(minLen <= n <= maxLen) ==> #[trigger] final(limit)@[n] == 0
            &&& forall|n: int| 0 <= n < BZ_MAX_CODE_LEN && !(minLen <= n <= maxLen) ==>
                #[trigger] final(base)@[n] == count_below(lens, alphaSize as int, n)
        }),
        forall|k: int| 0 <= k < old(limit)@.len() && !(0 <= k < BZ_MAX_CODE_LEN) ==> final(limit)@[k] == old(limit)@[k],
        forall|k: int| 0 <= k < old(base)@.len() && !(0 <= k < BZ_MAX_CODE_LEN) ==> final(base)@[k] == old(base)@[k],
        forall|k: int| 0 <= k < old(perm)@.len() && !(0 <= k < alphaSize) ==> final(perm)@[k] == old(perm)@[k],
{
    let ghost lens = length@.subrange(0, alphaSize as int);
    let ghost a = alphaSize as int;
    let alpha = alphaSize as usize;
    assert(forall|q: int| 0 <= q < alpha ==> lens[q] == length@[q]);

    // perm: symbols ordered by length, then by value
    let mut pp: usize = 0;
    let mut i: i32 = minLen;
    proof {
        lemma_count_below_min(lens, a, minLen as int);
    }
    while i <= maxLen
        invariant
            minLen <= i <= maxLen + 1,
            maxLen <= 20,
            0 <= alphaSize <= BZ_MAX_ALPHA_SIZE,
            alpha == alphaSize,
            lens == length@.subrange(0, alphaSize as int),
            lens.len() == a,
            a == alphaSize,
            alphaSize <= length@.len(),
            forall|q: int| 0 <= q < alpha ==> lens[q] == length@[q],
            lens_in_range(lens, minLen as int, maxLen as int),
            alphaSize <= perm@.len(),
            perm@.len() == old(perm)@.len(),
            pp == count_below(lens, a, i as int),
            forall|q: int| 0 <= q < alphaSize && (lens[q] as int) < i ==>
                perm@[#[trigger] perm_pos(lens, a, q)] == q,
            forall|k: int| 0 <= k < old(perm)@.len() && !(0 <= k < alphaSize) ==> perm@[k] == old(perm)@[k],
        decreases maxLen + 1 - i,
    {
        let mut j: usize = 0;
        proof {
            lemma_count_below_step(lens, a, i as int);
            lemma_count_below_le(lens, a, i as int + 1);
        }
        while j < alpha
            invariant
                minLen <= i <= maxLen,
                j <= alpha,
                0 <= alphaSize <= BZ_MAX_ALPHA_SIZE,
                alpha == alphaSize,
                lens == length@.subrange(0, alphaSize as int),
                lens.len() == a,
                a == alphaSize,
                alphaSize <= length@.len(),
                forall|q: int| 0 <= q < alpha ==> lens[q] == length@[q],
                alphaSize <= perm@.len(),
                perm@.len() == old(perm)@.len(),
                count_below(lens, a, i as int + 1) == count_below(lens, a, i as int) + count_len(lens, a, i as int),
                count_below(lens, a, i as int + 1) <= a,
                pp == count_below(lens, a, i as int) + count_len(lens, j as int, i as int),
                forall|q: int| 0 <= q < alphaSize && (lens[q] as int) < i ==>
                    perm@[#[trigger] perm_pos(lens, a, q)] == q,
                forall|q: int| 0 <= q < j && lens[q] as int == i ==>
                    perm@[#[trigger] perm_pos(lens, a, q)] == q,
                forall|k: int| 0 <= k < old(perm)@.len() && !(0 <= k < alphaSize) ==> perm@[k] == old(perm)@[k],
            decreases alpha - j,
        {
            if length[j] as i32 == i {
                proof {
                    lemma_count_len_strict(lens, j as int, a);
                }
                perm.set(pp, j as i32);
                pp = pp + 1;
                proof {
                    assert forall|q: int| 0 <= q < alphaSize && (lens[q] as int) < i implies
                        perm@[#[trigger] perm_pos(lens, a, q)] == q by {
                        lemma_count_below_step(lens, a, lens[q] as int);
                        lemma_count_len_strict(lens, q, a);
                        lemma_count_below_mono_n(lens, a, lens[q] as int + 1, i as int);
                    }
                    assert forall|q: int| 0 <= q < j && lens[q] as int == i implies
                        perm@[#[trigger] perm_pos(lens, a, q)] == q by {
                        lemma_count_len_mono(lens, q + 1, j as int, i as int);
                    }
                }
            }
            j = j + 1;
        }
        i = i + 1;
    }

    // base: first the number of symbols of each length, shifted by one
    let mut z: usize = 0;
    while z < BZ_MAX_CODE_LEN
        invariant
            z <= BZ_MAX_CODE_LEN,
            BZ_MAX_CODE_LEN <= base@.len(),
            base@.len() == old(base)@.len(),
            forall|m: int| 0 <= m < z ==> base@[m] == 0,
            forall|k: int| 0 <= k < old(base)@.len() && !(0 <= k < BZ_MAX_CODE_LEN) ==> base@[k] == old(base)@[k],
        decreases BZ_MAX_CODE_LEN - z,
    {
        base.set(z, 0);
        z = z + 1;
    }
    let mut q: usize = 0;
    while q < alpha
        invariant
            q <= alpha,
            0 <= alphaSize <= BZ_MAX_ALPHA_SIZE,
            alpha == alphaSize,
            lens == length@.subrange(0, alphaSize as int),
            lens.len() == a,
            a == alphaSize,
            alphaSize <= length@.len(),
            forall|p: int| 0 <= p < alpha ==> lens[p] == length@[p],
            lens_in_range(lens, minLen as int, maxLen as int),
            1 <= minLen <= maxLen <= 20,
            BZ_MAX_CODE_LEN <= base@.len(),
            base@.len() == old(base)@.len(),
            base@[0] == 0,
            forall|m: int| 1 <= m < BZ_MAX_CODE_LEN ==> base@[m] == count_len(lens, q as int, m - 1),
            forall|k: int| 0 <= k < old(base)@.len() && !(0 <= k < BZ_MAX_CODE_LEN) ==> base@[k] == old(base)@[k],
        decreases alpha - q,
    {
        let l = length[q] as usize;
        proof {
            assert(minLen <= lens[q as int] <= maxLen);
            lemma_count_len_le(lens, q as int, l as int);
        }
        base.set(l + 1, base[l + 1] + 1);
        q = q + 1;
    }
    let mut m: usize = 1;
    proof {
        assert(count_below(lens, a, 0) == 0) by {
            lemma_count_below_min(lens, a, 0);
        }
        lemma_count_below_step(lens, a, 0);
    }
    while m < BZ_MAX_CODE_LEN
        invariant
            1 <= m <= BZ_MAX_CODE_LEN,
            lens.len() == a,
            0 <= a <= BZ_MAX_ALPHA_SIZE,
            BZ_MAX_CODE_LEN <= base@.len(),
            base@.len() == old(base)@.len(),
            base@[0] == 0,
            forall|p: int| 0 <= p < m ==> base@[p] == count_below(lens, a, p),
            forall|p: int| m <= p < BZ_MAX_CODE_LEN ==> base@[p] == count_len(lens, a, p - 1),
            forall|k: int| 0 <= k < old(base)@.len() && !(0 <= k < BZ_MAX_CODE_LEN) ==> base@[k] == old(base)@[k],
        decreases BZ_MAX_CODE_LEN - m,
    {
        proof {
            lemma_count_below_step(lens, a, m as int - 1);
            lemma_count_below_le(lens, a, m as int);
            lemma_count_below_le(lens, a, m as int - 1);
            lemma_count_len_le(lens, a, m as int - 1);
        }
        base.set(m, base[m] + base[m - 1]);
        m = m + 1;
    }

    // limit: the largest code of each length
    let mut z: usize = 0;
    while z < BZ_MAX_CODE_LEN
        invariant
            z <= BZ_MAX_CODE_LEN,
            BZ_MAX_CODE_LEN <= limit@.len(),
            limit@.len() == old(limit)@.len(),
            forall|k: int| 0 <= k < old(limit)@.len() && !(0 <= k < BZ_MAX_CODE_LEN) ==> limit@[k] == old(limit)@[k],
            forall|k: int| 0 <= k < z ==> limit@[k] == 0,
        decreases BZ_MAX_CODE_LEN - z,
    {
        limit.set(z, 0);
        z = z + 1;
    }
    let mut vec: i32 = 0;
    let mut i: i32 = minLen;
    while i <= maxLen
        invariant
            1 <= minLen <= i <= maxLen + 1,
            maxLen <= 20,
            lens.len() == a,
            0 <= a <= BZ_MAX_ALPHA_SIZE,
            BZ_MAX_CODE_LEN <= base@.len(),
            BZ_MAX_CODE_LEN <= limit@.len(),
            limit@.len() == old(limit)@.len(),
            base@.len() == old(base)@.len(),
            forall|p: int| 0 <= p < BZ_MAX_CODE_LEN ==> base@[p] == count_below(lens, a, p),
            vec == first_code(lens, minLen as int, i as int),
            forall|n: int| minLen <= n < i ==>
                #[trigger] limit@[n] == first_code(lens, minLen as int, n) + count_len(lens, a, n) - 1,
            forall|k: int| 0 <= k < old(limit)@.len() && !(0 <= k < BZ_MAX_CODE_LEN) ==> limit@[k] == old(limit)@[k],
            forall|n: int| 0 <= n < BZ_MAX_CODE_LEN && !(minLen <= n < i) ==> #[trigger] limit@[n] == 0,
        decreases maxLen + 1 - i,
    {
        proof {
            lemma_first_code_bound(lens, minLen as int, i as int);
            lemma_pow2_small((i - minLen + 1) as nat);
            lemma_count_len_le(lens, a, i as int);
            lemma_count_below_step(lens, a, i as int);
            lemma_count_below_le(lens, a, i as int);
            lemma_count_below_le(lens, a, i as int + 1);
            let p = pow2((i - minLen + 1) as nat) as int;
            assert(a * (p - 2) <= a * (0x20_0000 - 2)) by (nonlinear_arith)
                requires p <= 0x20_0000, 0 <= a;
        }
        vec = vec + (base[i as usize + 1] - base[i as usize]);
        limit.set(i as usize, vec - 1);
        vec = vec * 2;
        i = i + 1;
    }
    let mut i: i32 = minLen + 1;
    while i <= maxLen
        invariant
            1 <= minLen,
            minLen + 1 <= i <= maxLen + 1,
            maxLen <= 20,
            lens.len() == a,
            0 <= a <= BZ_MAX_ALPHA_SIZE,
            BZ_MAX_CODE_LEN <= base@.len(),
            BZ_MAX_CODE_LEN <= limit@.len(),
            base@.len() == old(base)@.len(),
            forall|p: int| (0 <= p < BZ_MAX_CODE_LEN && !(minLen + 1 <= p < i)) ==> base@[p] == count_below(lens, a, p),
            forall|n: int| minLen + 1 <= n < i ==>
                #[trigger] base@[n] == first_code(lens, minLen as int, n) - count_below(lens, a, n),
            forall|n: int| minLen <= n <= maxLen ==>
                #[trigger] limit@[n] == first_code(lens, minLen as int, n) + count_len(lens, a, n) - 1,
            forall|k: int| 0 <= k < old(base)@.len() && !(0 <= k < BZ_MAX_CODE_LEN) ==> base@[k] == old(base)@[k],
            forall|n: int| 0 <= n < BZ_MAX_CODE_LEN && !(minLen <= n <= maxLen) ==> #[trigger] limit@[n] == 0,
            forall|k: int| 0 <= k < old(limit)@.len() && !(0 <= k < BZ_MAX_CODE_LEN) ==> limit@[k] == old(limit)@[k],
            limit@.len() == old(limit)@.len(),
        decreases maxLen + 1 - i,
    {
        proof {
            lemma_first_code_bound(lens, minLen as int, i as int - 1);
            lemma_pow2_small((i - minLen) as nat);
            lemma_count_len_le(lens, a, i as int - 1);
            lemma_count_below_le(lens, a, i as int);
            let p = pow2((i - minLen) as nat) as int;
            assert(a * (p - 2) <= a * (0x20_0000 - 2)) by (nonlinear_arith)
                requires p <= 0x20_0000, 0 <= a;
        }
        base.set(i as usize, ((limit[i as usize - 1] + 1) * 2) - base[i as usize]);
        i = i + 1;
    }
    proof {
        lemma_count_below_min(lens, a, minLen as int);
    }
}

pub proof fn lemma_count_below_mono_n(lens: Seq<u8>, upto: int, n1: int, n2: int)
    requires
        0 <= upto,
        n1 <= n2,
    ensures
        count_below(lens, upto, n1) <= count_below(lens, upto, n2),
    decreases upto,
{
    if upto > 0 {
        lemma_count_below_mono_n(lens, upto - 1, n1, n2);
    }
}

} // verus!

verus! {

proof fn lemma_first_code_prefix(lens: Seq<u8>, min_len: int, m: int, n: int)
    requires
        min_len <= m < n,
    ensures
        first_code(lens, min_len, n) >= pow2((n - m) as nat) * (first_code(lens, min_len, m) + count_len(lens, lens.len() as int, m)),
    decreases n - m,
{
    let a = lens.len() as int;
    lemma_first_code_bound(lens, min_len, n - 1);
    if n == m + 1 {
        vstd::arithmetic::power2::lemma2_to64();
    } else {
        lemma_first_code_prefix(lens, min_len, m, n - 1);
        lemma_pow2_unfold((n - m) as nat);
        let p = pow2((n - 1 - m) as nat) as int;
        let x = first_code(lens, min_len, m) + count_len(lens, a, m);
        let f = first_code(lens, min_len, n - 1);
        let c = count_len(lens, a, n - 1) as int;
        assert(2 * (f + c) >= (2 * p) * x) by (nonlinear_arith)
            requires f >= p * x, c >= 0;
    }
}

/// Canonical codes decode back to their symbols: when a decoder holding tables built from
/// `lens` (see `BZ2_hbCreateDecodeTables`) reads the code of symbol `q` one bit at a time,
/// then at every length `m` shorter than the code's own, the bits read so far exceed the
/// largest code of length `m`; at the code's own length the code is at most the largest
/// code of that length, and subtracting that length's base gives the place of `q` in the
/// symbol table.
pub proof fn lemma_canonical_code_decodes(lens: Seq<u8>, min_len: int, max_len: int, q: int)
    requires
        lens_in_range(lens, min_len, max_len),
        0 <= q < lens.len(),
    ensures
        ({
            let n = lens[q] as int;
            let a = lens.len() as int;
            let c = canonical_code(lens, min_len, q);
            &&& c <= first_code(lens, min_len, n) + count_len(lens, a, n) - 1
            &&& c - (first_code(lens, min_len, n) - count_below(lens, a, n)) == perm_pos(lens, a, q)
            &&& forall|m: int| min_len <= m < n ==>
                #[trigger] (c / (pow2((n - m) as nat) as int)) > first_code(lens, min_len, m) + count_len(lens, a, m) - 1
        }),
{
    let n = lens[q] as int;
    let a = lens.len() as int;
    let c = canonical_code(lens, min_len, q);
    lemma_count_len_strict(lens, q, a);
    assert forall|m: int| min_len <= m < n implies
        #[trigger] (c / (pow2((n - m) as nat) as int)) > first_code(lens, min_len, m) + count_len(lens, a, m) - 1 by {
        lemma_first_code_prefix(lens, min_len, m, n);
        lemma_pow2_pos((n - m) as nat);
        let p = pow2((n - m) as nat) as int;
        let x = first_code(lens, min_len, m) + count_len(lens, a, m);
        assert(c >= p * x);
        assert(c / p >= x) by (nonlinear_arith)
            requires c >= p * x, p > 0;
    }
}

/// The lengths satisfy the Kraft inequality: `first_code` at the longest length plus the
/// number of codes of that length is the sum of `2^(max_len - len)` over the symbols, and
/// it stays within `2^max_len`.
pub open spec fn kraft_ok(lens: Seq<u8>, min_len: int, max_len: int) -> bool {
    first_code(lens, min_len, max_len) + count_len(lens, lens.len() as int, max_len) <= pow2(max_len as nat)
}

/// Under the Kraft inequality every canonical code fits in its length.
pub proof fn lemma_canonical_code_fits(lens: Seq<u8>, min_len: int, max_len: int, q: int)
    requires
        lens_in_range(lens, min_len, max_len),
        kraft_ok(lens, min_len, max_len),
        0 <= q < lens.len(),
    ensures
        0 <= canonical_code(lens, min_len, q) < pow2(lens[q] as nat),
{
    let n = lens[q] as int;
    let a = lens.len() as int;
    lemma_canonical_code_decodes(lens, min_len, max_len, q);
    lemma_count_len_strict(lens, q, a);
    lemma_first_code_bound(lens, min_len, n);
    if n < max_len {
        lemma_first_code_prefix(lens, min_len, n, max_len);
        let x = first_code(lens, min_len, n) + count_len(lens, a, n);
        let p = pow2((max_len - n) as nat) as int;
        vstd::arithmetic::power2::lemma_pow2_adds((max_len - n) as nat, n as nat);
        assert(pow2(max_len as nat) == pow2((max_len - n) as nat) * pow2(n as nat));
        let pn = pow2(n as nat) as int;
        assert(p * x <= p * pn) by {
            assert(first_code(lens, min_len, max_len) >= p * x);
        }
        lemma_pow2_pos((max_len - n) as nat);
        assert(x <= pn) by (nonlinear_arith)
            requires p * x <= p * pn, p > 0;
    }
}

} // verus!

verus! {

/// The weight part of a heap node: everything but the low byte.
fn weight_of(zz0: i32) -> (r: i32)
    ensures
        r == zz0 & -256i32,
{
    zz0 & -256i32
}

/// The depth part of a heap node: the low byte.
fn depth_of(zz1: i32) -> (r: i32)
    ensures
        r == zz1 & 0xff,
        0 <= r <= 255,
{
    let r = zz1 & 0xff;
    assert(0 <= r <= 255) by (bit_vector) requires r == zz1 & 0xffi32;
    r
}

/// The node that joins two subtrees: the weights add up, the depth is one more than the deeper.
fn add_weights(zw1: i32, zw2: i32) -> (r: i32)
    ensures
        r == (weight_of_spec(zw1).wrapping_add(weight_of_spec(zw2))) | ((1 + (if zw1 & 0xff > zw2 & 0xff { zw1 & 0xff } else { zw2 & 0xff })) as i32),
{
    let d1 = depth_of(zw1);
    let d2 = depth_of(zw2);
    let d = if d1 > d2 { d1 } else { d2 };
    (weight_of(zw1).wrapping_add(weight_of(zw2))) | (1 + d)
}

pub open spec fn weight_of_spec(zz0: i32) -> i32 {
    zz0 & -256i32
}

/// Heap entries `1 ..= nheap` are nodes `1 ..= nnodes`.
pub open spec fn heap_ok(heap: Seq<i32>, nheap: int, nnodes: int) -> bool {
    forall|p: int| 1 <= p <= nheap ==> 1 <= #[trigger] heap[p] <= nnodes
}

/// The entry at `p` is at least as heavy as its parent.
pub open spec fn pair_ok(w: Seq<i32>, h: Seq<i32>, p: int) -> bool {
    w[h[p / 2] as int] <= w[h[p] as int]
}

/// Entries `1 ..= n` form a heap by weight, the lightest at the root, except perhaps
/// below position `skip` (no position is skipped for `skip == 0`).
pub open spec fn heap_order(w: Seq<i32>, h: Seq<i32>, n: int, skip: int) -> bool {
    forall|p: int| 2 <= p <= n && p / 2 != skip ==> #[trigger] pair_ok(w, h, p)
}

proof fn lemma_swap_multiset(x: Seq<i32>, i: int, j: int)
    requires
        0 <= i < x.len(),
        0 <= j < x.len(),
    ensures
        x.update(i, x[j]).update(j, x[i]).to_multiset() == x.to_multiset(),
{
    broadcast use vstd::seq_lib::to_multiset_update, vstd::multiset::group_multiset_axioms;
    let x1 = x.update(i, x[j]);
    assert(x1[j] == x[j] || i == j);
    if i == j {
        assert(x.update(i, x[j]).update(j, x[i]) =~= x);
    } else {
        assert(x1.to_multiset() =~= x.to_multiset().insert(x[j]).remove(x[i]));
        assert(x1.update(j, x[i]).to_multiset() =~= x1.to_multiset().insert(x[i]).remove(x[j]));
        let m = x.to_multiset();
        assert(x.contains(x[i]));
        assert(m.count(x[i]) > 0) by {
            vstd::seq_lib::to_multiset_contains(x, x[i]);
        }
        assert forall|v: i32| #[trigger] m.insert(x[j]).remove(x[i]).insert(x[i]).remove(x[j]).count(v) == m.count(v) by {}
        assert(m.insert(x[j]).remove(x[i]).insert(x[i]).remove(x[j]) =~= m);
    }
}

/// Moves the entry at `z` up towards the root while it is lighter than its parent.
fn upheap(heap: &mut Vec<i32>, weight: &Vec<i32>, z0: usize, Ghost(nnodes): Ghost<int>)
    requires
        old(heap)@.len() == BZ_MAX_ALPHA_SIZE + 2,
        weight@.len() == BZ_MAX_ALPHA_SIZE * 2,
        1 <= z0 < BZ_MAX_ALPHA_SIZE + 2,
        nnodes < BZ_MAX_ALPHA_SIZE * 2,
        heap_ok(old(heap)@, z0 as int, nnodes),
    ensures
        final(heap)@.len() == old(heap)@.len(),
        heap_ok(final(heap)@, z0 as int, nnodes),
        forall|p: int| 0 <= p < final(heap)@.len() && !(1 <= p <= z0) ==> final(heap)@[p] == old(heap)@[p],
        final(heap)@.to_multiset() == old(heap)@.to_multiset(),
        heap_order(weight@, old(heap)@, z0 - 1, 0) ==> heap_order(weight@, final(heap)@, z0 as int, 0),
{
    let mut z = z0;
    let tmp = heap[z];
    let ghost ordered = heap_order(weight@, old(heap)@, z0 - 1, 0);
    proof {
        assert(heap@.update(z as int, tmp) =~= heap@);
    }
    loop
        invariant
            heap@.len() == BZ_MAX_ALPHA_SIZE + 2,
            weight@.len() == BZ_MAX_ALPHA_SIZE * 2,
            1 <= z <= z0 < BZ_MAX_ALPHA_SIZE + 2,
            nnodes < BZ_MAX_ALPHA_SIZE * 2,
            1 <= tmp <= nnodes,
            heap_ok(heap@, z0 as int, nnodes),
            forall|p: int| 0 <= p < heap@.len() && !(1 <= p <= z0) ==> heap@[p] == old(heap)@[p],
            heap@.update(z as int, tmp).to_multiset() == old(heap)@.to_multiset(),
            ordered == heap_order(weight@, old(heap)@, z0 - 1, 0),
            ordered ==> forall|p: int| 2 <= p <= z0 && p != z && p / 2 != z ==> #[trigger] pair_ok(weight@, heap@, p),
            ordered ==> forall|c: int| 2 <= c <= z0 && c / 2 == z ==> weight@[tmp as int] <= weight@[(#[trigger] heap@[c]) as int],
            ordered && z > 1 ==> forall|c: int| 2 <= c <= z0 && c / 2 == z ==> weight@[heap@[z as int / 2] as int] <= weight@[(#[trigger] heap@[c]) as int],
        ensures
            z <= 1 || weight@[heap@[z as int / 2] as int] <= weight@[tmp as int],
        decreases z,
    {
        if z <= 1 {
            break;
        }
        assert(z >> 1usize < z && z >> 1usize >= 1 && z >> 1usize == z / 2) by (bit_vector) requires z > 1usize;
        let up = heap[z >> 1];
        if !(weight[tmp as usize] < weight[up as usize]) {
            break;
        }
        let ghost h0 = heap@;
        let ghost zz = z as int;
        let ghost zp = zz / 2;
        heap.set(z, up);
        z = z >> 1;
        proof {
            let x = h0.update(zz, tmp);
            lemma_swap_multiset(x, zz, zp);
            assert(heap@.update(zp, tmp) =~= x.update(zz, x[zp]).update(zp, x[zz]));
            if ordered {
                assert forall|p: int| 2 <= p <= z0 && p != zp && p / 2 != zp implies #[trigger] pair_ok(weight@, heap@, p) by {
                    if p == zz {
                        assert(pair_ok(weight@, h0, zp) || zp == 1 || true);
                    } else if p / 2 == zz {
                        assert(weight@[h0[zz / 2] as int] <= weight@[h0[p] as int]);
                    } else {
                        assert(pair_ok(weight@, h0, p));
                    }
                }
                assert forall|c: int| 2 <= c <= z0 && c / 2 == zp implies weight@[tmp as int] <= weight@[(#[trigger] heap@[c]) as int] by {
                    if c != zz {
                        assert(pair_ok(weight@, h0, c));
                    }
                }
                if zp > 1 {
                    assert forall|c: int| 2 <= c <= z0 && c / 2 == zp implies weight@[heap@[zp / 2] as int] <= weight@[(#[trigger] heap@[c]) as int] by {
                        assert(pair_ok(weight@, h0, zp));
                        if c != zz {
                            assert(pair_ok(weight@, h0, c));
                        }
                    }
                }
            }
        }
    }
    let ghost h1 = heap@;
    heap.set(z, tmp);
    proof {
        if ordered {
            assert forall|p: int| 2 <= p <= z0 && p / 2 != 0 implies #[trigger] pair_ok(weight@, heap@, p) by {
                if p == z as int {
                    assert(z > 1);
                    assert(weight@[h1[z as int / 2] as int] <= weight@[tmp as int]);
                } else if p / 2 == z as int {
                    assert(weight@[tmp as int] <= weight@[h1[p] as int]);
                } else {
                    assert(pair_ok(weight@, h1, p));
                }
            }
        }
    }
}

/// Moves the entry at `z` down while a child is lighter.
fn downheap(heap: &mut Vec<i32>, weight: &Vec<i32>, nheap: usize, z0: usize, Ghost(nnodes): Ghost<int>)
    requires
        old(heap)@.len() == BZ_MAX_ALPHA_SIZE + 2,
        weight@.len() == BZ_MAX_ALPHA_SIZE * 2,
        1 <= z0 < BZ_MAX_ALPHA_SIZE + 2,
        nheap < BZ_MAX_ALPHA_SIZE + 2,
        z0 <= nheap || nheap == 0,
        nnodes < BZ_MAX_ALPHA_SIZE * 2,
        heap_ok(old(heap)@, nheap as int, nnodes),
    ensures
        final(heap)@.len() == old(heap)@.len(),
        heap_ok(final(heap)@, nheap as int, nnodes),
        forall|p: int| 0 <= p < final(heap)@.len() && !(1 <= p <= nheap) ==> final(heap)@[p] == old(heap)@[p],
        final(heap)@.to_multiset() == old(heap)@.to_multiset(),
        heap_order(weight@, old(heap)@, nheap as int, z0 as int) ==>
            forall|p: int| 2 <= p <= nheap && p != z0 ==> #[trigger] pair_ok(weight@, final(heap)@, p),
{
    let mut z = z0;
    let tmp = heap[z];
    let ghost ordered = heap_order(weight@, old(heap)@, nheap as int, z0 as int);
    proof {
        assert(heap@.update(z as int, tmp) =~= heap@);
    }
    loop
        invariant
            heap@.len() == BZ_MAX_ALPHA_SIZE + 2,
            weight@.len() == BZ_MAX_ALPHA_SIZE * 2,
            1 <= z0 <= z < BZ_MAX_ALPHA_SIZE + 2,
            nheap < BZ_MAX_ALPHA_SIZE + 2,
            z <= nheap || (nheap == 0 && z == z0 && *heap == *old(heap)),
            nnodes < BZ_MAX_ALPHA_SIZE * 2,
            nheap >= 1 ==> 1 <= tmp <= nnodes,
            tmp == old(heap)@[z0 as int],
            heap_ok(heap@, nheap as int, nnodes),
            forall|p: int| 0 <= p < heap@.len() && !(1 <= p <= nheap) ==> heap@[p] == old(heap)@[p],
            heap@.update(z as int, tmp).to_multiset() == old(heap)@.to_multiset(),
            ordered == heap_order(weight@, old(heap)@, nheap as int, z0 as int),
            ordered ==> forall|p: int| 2 <= p <= nheap && p != z && p / 2 != z && p != z0 ==> #[trigger] pair_ok(weight@, heap@, p),
            ordered && z != z0 ==> forall|c: int| 2 <= c <= nheap && c / 2 == z ==> weight@[heap@[z as int / 2] as int] <= weight@[(#[trigger] heap@[c]) as int],
            ordered && z != z0 ==> weight@[heap@[z as int / 2] as int] <= weight@[tmp as int],
        ensures
            forall|c: int| 2 <= c <= nheap && c / 2 == z ==> weight@[tmp as int] < weight@[(#[trigger] heap@[c]) as int],
        decreases nheap - z,
    {
        let mut yy = z * 2;
        if yy > nheap {
            break;
        }
        if yy < nheap && weight[heap[yy + 1] as usize] < weight[heap[yy] as usize] {
            yy = yy + 1;
        }
        proof {
            assert forall|c: int| 2 <= c <= nheap && c / 2 == z implies weight@[heap@[yy as int] as int] <= weight@[(#[trigger] heap@[c]) as int] by {
                assert(c == 2 * z || c == 2 * z + 1);
            }
        }
        if weight[tmp as usize] < weight[heap[yy] as usize] {
            break;
        }
        let ghost h0 = heap@;
        let ghost zz = z as int;
        let ghost yi = yy as int;
        let down = heap[yy];
        heap.set(z, down);
        z = yy;
        proof {
            let x = h0.update(zz, tmp);
            lemma_swap_multiset(x, zz, yi);
            assert(heap@.update(yi, tmp) =~= x.update(zz, x[yi]).update(yi, x[zz]));
            assert(yi / 2 == zz);
            if ordered {
                assert forall|p: int| 2 <= p <= nheap && p != yi && p / 2 != yi && p != z0 implies #[trigger] pair_ok(weight@, heap@, p) by {
                    if p == zz {
                        assert(weight@[h0[zz / 2] as int] <= weight@[h0[yi] as int]);
                    } else if p / 2 == zz {
                        assert(p == 2 * zz || p == 2 * zz + 1);
                    } else {
                        assert(pair_ok(weight@, h0, p));
                    }
                }
                assert forall|c: int| 2 <= c <= nheap && c / 2 == yi implies weight@[heap@[yi / 2] as int] <= weight@[(#[trigger] heap@[c]) as int] by {
                    assert(pair_ok(weight@, h0, c));
                }
            }
        }
    }
    let ghost h1 = heap@;
    heap.set(z, tmp);
    proof {
        assert(heap@ =~= h1.update(z as int, tmp));
        if ordered {
            assert forall|p: int| 2 <= p <= nheap && p != z0 implies #[trigger] pair_ok(weight@, heap@, p) by {
                if p == z as int {
                    assert(weight@[h1[z as int / 2] as int] <= weight@[tmp as int]);
                } else if p / 2 == z as int {
                    assert(weight@[tmp as int] < weight@[h1[p] as int]);
                } else {
                    assert(pair_ok(weight@, h1, p));
                }
            }
        }
    }
}

/// The code space still free at length `m` once the codes of lengths `1 ..= m` are placed:
/// `2^m` minus the slots, at length `m`, that they take.
pub open spec fn free_slots(lens: Seq<u8>, m: int) -> int {
    pow2(m as nat) - first_code(lens, 1, m) - count_len(lens, lens.len() as int, m)
}

proof fn lemma_free_slots_step(lens: Seq<u8>, m: int)
    requires
        1 <= m,
    ensures
        free_slots(lens, m + 1) == 2 * free_slots(lens, m) - count_len(lens, lens.len() as int, m + 1),
{
    lemma_pow2_unfold((m + 1) as nat);
    assert(first_code(lens, 1, m + 1) == 2 * (first_code(lens, 1, m) + count_len(lens, lens.len() as int, m)));
}

proof fn lemma_count_len_none(lens: Seq<u8>, upto: int, n: int)
    requires
        0 <= upto <= lens.len(),
        forall|i: int| 0 <= i < upto ==> #[trigger] lens[i] as int != n,
    ensures
        count_len(lens, upto, n) == 0,
    decreases upto,
{
    if upto > 0 {
        lemma_count_len_none(lens, upto - 1, n);
    }
}

proof fn lemma_count_len_all(lens: Seq<u8>, upto: int, n: int)
    requires
        0 <= upto <= lens.len(),
        forall|i: int| 0 <= i < upto ==> #[trigger] lens[i] as int == n,
    ensures
        count_len(lens, upto, n) == upto,
    decreases upto,
{
    if upto > 0 {
        lemma_count_len_all(lens, upto - 1, n);
    }
}

/// Equal lengths of `d` bits for at most `2^d` symbols fit the code space at every longer
/// length.
proof fn lemma_uniform_lengths_fit(lens: Seq<u8>, d: int, m: int)
    requires
        1 <= d <= m,
        lens.len() <= pow2(d as nat),
        forall|i: int| 0 <= i < lens.len() ==> #[trigger] lens[i] as int == d,
    ensures
        free_slots(lens, m) >= 0,
    decreases m,
{
    let a = lens.len() as int;
    if m == d {
        lemma_count_len_all(lens, a, d);
        lemma_first_code_below(lens, d, d);
    } else {
        lemma_uniform_lengths_fit(lens, d, m - 1);
        lemma_free_slots_step(lens, m - 1);
        assert forall|i: int| 0 <= i < a implies #[trigger] lens[i] as int != m by {}
        lemma_count_len_none(lens, a, m);
    }
}

/// Below the one length in use, no code is placed.
proof fn lemma_first_code_below(lens: Seq<u8>, d: int, m: int)
    requires
        1 <= m <= d,
        forall|i: int| 0 <= i < lens.len() ==> #[trigger] lens[i] as int == d,
    ensures
        first_code(lens, 1, m) == 0,
    decreases m,
{
    if m > 1 {
        lemma_first_code_below(lens, d, m - 1);
        assert forall|i: int| 0 <= i < lens.len() implies #[trigger] lens[i] as int != m - 1 by {}
        lemma_count_len_none(lens, lens.len() as int, m - 1);
    }
}

/// How many of the first `upto` lengths equal `n`.
fn count_length(len: &Vec<u8>, upto: usize, n: u32) -> (c: u32)
    requires
        upto <= len@.len(),
        upto <= BZ_MAX_ALPHA_SIZE,
    ensures
        c == count_len(len@.subrange(0, upto as int), upto as int, n as int),
        c <= upto,
{
    let ghost lens = len@.subrange(0, upto as int);
    let mut c: u32 = 0;
    let mut i: usize = 0;
    while i < upto
        invariant
            i <= upto <= len@.len(),
            upto <= BZ_MAX_ALPHA_SIZE,
            lens == len@.subrange(0, upto as int),
            c == count_len(lens, i as int, n as int),
            c <= i,
        decreases upto - i,
    {
        if len[i] as u32 == n {
            c = c + 1;
        }
        i = i + 1;
    }
    c
}

/// Whether the first `alpha` code lengths, each in `1 ..= max_len`, fit the code space of
/// a prefix code: the sum of `2^-len` over them is at most one (the Kraft inequality).
fn fits_code_space(len: &Vec<u8>, alpha: usize, max_len: u32) -> (ok: bool)
    requires
        1 <= max_len <= 255,
        alpha <= len@.len(),
        alpha <= BZ_MAX_ALPHA_SIZE,
    ensures
        ok == kraft_ok(len@.subrange(0, alpha as int), 1, max_len as int),
{
    let ghost lens = len@.subrange(0, alpha as int);
    proof {
        vstd::arithmetic::power2::lemma2_to64();
        assert(first_code(lens, 1, 1) == 0);
    }
    // The free slots, counted exactly until they reach 766; past that they can only grow,
    // and 766 or more stands for all of them.
    let c1 = count_length(len, alpha, 1);
    let mut free: i64 = 2 - c1 as i64;
    if free < 0 {
        proof { lemma_free_slots_stay_negative(lens, 1, max_len as int); }
        return false;
    }
    let mut m: u32 = 1;
    while m < max_len
        invariant
            1 <= m <= max_len <= 255,
            alpha <= len@.len(),
            alpha <= BZ_MAX_ALPHA_SIZE,
            lens == len@.subrange(0, alpha as int),
            lens.len() == alpha,
            0 <= free <= 1024,
            free == free_slots(lens, m as int) || (free >= 766 && free_slots(lens, m as int) >= free),
        decreases max_len - m,
    {
        let c = count_length(len, alpha, m + 1);
        proof {
            lemma_free_slots_step(lens, m as int);
        }
        let doubled = if free > 512 { 1024 } else { 2 * free };
        free = doubled - c as i64;
        m = m + 1;
        if free < 0 {
            proof { lemma_free_slots_stay_negative(lens, m as int, max_len as int); }
            return false;
        }
    }
    free >= 0
}

proof fn lemma_free_slots_stay_negative(lens: Seq<u8>, m: int, m2: int)
    requires
        1 <= m <= m2,
        free_slots(lens, m) < 0,
    ensures
        free_slots(lens, m2) < 0,
    decreases m2 - m,
{
    if m < m2 {
        lemma_free_slots_step(lens, m);
        lemma_free_slots_stay_negative(lens, m + 1, m2);
    }
}


/// Computes Huffman code lengths for symbols `0 .. alphaSize` with the given frequencies,
/// none longer than `maxLen` (`BZ2_hbMakeCodeLengths`). While some code is too long, the
/// frequencies are flattened (halved, plus one) and the tree is built again.
pub fn BZ2_hbMakeCodeLengths(len: &mut Vec<u8>, freq: &Vec<i32>, alphaSize: i32, maxLen: i32)
    requires
        2 <= alphaSize <= BZ_MAX_ALPHA_SIZE,
        alphaSize <= old(len)@.len(),
        alphaSize <= freq@.len(),
        forall|i: int| 0 <= i < alphaSize ==> 0 <= #[trigger] freq@[i] < 0x80_0000,
        9 <= maxLen <= 255,
    ensures
        final(len)@.len() == old(len)@.len(),
        forall|i: int| 0 <= i < alphaSize ==> 1 <= #[trigger] final(len)@[i] <= maxLen,
        forall|k: int| alphaSize <= k < old(len)@.len() ==> final(len)@[k] == old(len)@[k],
        kraft_ok(final(len)@.subrange(0, alphaSize as int), 1, maxLen as int),
{
    let alpha = alphaSize as usize;
    let mut heap: Vec<i32> = vec![0i32; BZ_MAX_ALPHA_SIZE + 2];
    let mut weight: Vec<i32> = vec![0i32; BZ_MAX_ALPHA_SIZE * 2];
    let mut parent: Vec<i32> = vec![0i32; BZ_MAX_ALPHA_SIZE * 2];

    let mut i: usize = 0;
    while i < alpha
        invariant
            i <= alpha,
            alpha == alphaSize,
            2 <= alphaSize <= BZ_MAX_ALPHA_SIZE,
            alphaSize <= freq@.len(),
            forall|q: int| 0 <= q < alphaSize ==> 0 <= #[trigger] freq@[q] < 0x80_0000,
            weight@.len() == BZ_MAX_ALPHA_SIZE * 2,
            forall|q: int| 1 <= q <= i ==> 0 <= #[trigger] weight@[q] < 0x8000_0000,
        decreases alpha - i,
    {
        let f = if freq[i] == 0 { 1 } else { freq[i] };
        assert(0 <= f < 0x80_0000);
        weight.set(i + 1, f * 256);
        i = i + 1;
    }

    let mut iter: u32 = 0;
    loop
        invariant
            alpha == alphaSize,
            2 <= alphaSize <= BZ_MAX_ALPHA_SIZE,
            9 <= maxLen <= 255,
            heap@.len() == BZ_MAX_ALPHA_SIZE + 2,
            weight@.len() == BZ_MAX_ALPHA_SIZE * 2,
            parent@.len() == BZ_MAX_ALPHA_SIZE * 2,
            len@.len() == old(len)@.len(),
            alphaSize <= len@.len(),
            forall|k: int| alphaSize <= k < old(len)@.len() ==> len@[k] == old(len)@[k],
            iter < 32,
        ensures
            len@.len() == old(len)@.len(),
            forall|i: int| 0 <= i < alphaSize ==> 1 <= #[trigger] len@[i] <= maxLen,
            forall|k: int| alphaSize <= k < old(len)@.len() ==> len@[k] == old(len)@[k],
            kraft_ok(len@.subrange(0, alphaSize as int), 1, maxLen as int),
        decreases 32 - iter,
    {
        let mut nNodes: usize = alpha;
        let mut nHeap: usize = 0;
        heap.set(0, 0);
        weight.set(0, 0);
        parent.set(0, -2);

        let mut i: usize = 1;
        while i <= alpha
            invariant
                1 <= i <= alpha + 1,
                nHeap == i - 1,
                nNodes == alpha,
                alpha == alphaSize,
                2 <= alphaSize <= BZ_MAX_ALPHA_SIZE,
                heap@.len() == BZ_MAX_ALPHA_SIZE + 2,
                weight@.len() == BZ_MAX_ALPHA_SIZE * 2,
                parent@.len() == BZ_MAX_ALPHA_SIZE * 2,
                heap_ok(heap@, nHeap as int, nNodes as int),
                parent@[0] == -2,
                forall|k: int| 1 <= k < i ==> #[trigger] parent@[k] == -1,
            decreases alpha + 1 - i,
        {
            parent.set(i, -1);
            nHeap = nHeap + 1;
            heap.set(nHeap, i as i32);
            upheap(&mut heap, &weight, nHeap, Ghost(nNodes as int));
            i = i + 1;
        }

        while nHeap > 1
            invariant
                1 <= nHeap <= alpha,
                nNodes + nHeap == 2 * alpha,
                alpha == alphaSize,
                2 <= alphaSize <= BZ_MAX_ALPHA_SIZE,
                heap@.len() == BZ_MAX_ALPHA_SIZE + 2,
                weight@.len() == BZ_MAX_ALPHA_SIZE * 2,
                parent@.len() == BZ_MAX_ALPHA_SIZE * 2,
                heap_ok(heap@, nHeap as int, nNodes as int),
                forall|k: int| 0 <= k <= nNodes ==> (#[trigger] parent@[k] < 0 || (k < parent@[k] <= nNodes)),
            decreases nHeap,
        {
            let n1 = heap[1] as usize;
            let last = heap[nHeap];
            heap.set(1, last);
            nHeap = nHeap - 1;
            downheap(&mut heap, &weight, nHeap, 1, Ghost(nNodes as int));
            let n2 = heap[1] as usize;
            let last = heap[nHeap];
            heap.set(1, last);
            nHeap = nHeap - 1;
            downheap(&mut heap, &weight, nHeap, 1, Ghost(nNodes as int));
            nNodes = nNodes + 1;
            parent.set(n1, nNodes as i32);
            parent.set(n2, nNodes as i32);
            let w = add_weights(weight[n1], weight[n2]);
            weight.set(nNodes, w);
            parent.set(nNodes, -1);
            nHeap = nHeap + 1;
            heap.set(nHeap, nNodes as i32);
            upheap(&mut heap, &weight, nHeap, Ghost(nNodes as int));
        }

        let mut tooLong = false;
        let mut i: usize = 1;
        while i <= alpha
            invariant
                1 <= i <= alpha + 1,
                alpha == alphaSize,
                2 <= alphaSize <= BZ_MAX_ALPHA_SIZE,
                9 <= maxLen <= 255,
                alpha <= nNodes < BZ_MAX_ALPHA_SIZE * 2,
                parent@.len() == BZ_MAX_ALPHA_SIZE * 2,
                forall|k: int| 0 <= k <= nNodes ==> (#[trigger] parent@[k] < 0 || (k < parent@[k] <= nNodes)),
                len@.len() == old(len)@.len(),
                alphaSize <= len@.len(),
                forall|k: int| alphaSize <= k < old(len)@.len() ==> len@[k] == old(len)@[k],
                !tooLong ==> forall|q: int| 0 <= q < i - 1 ==> 1 <= #[trigger] len@[q] <= maxLen,
            decreases alpha + 1 - i,
        {
            let mut j: i32 = 0;
            let mut k: usize = i;
            while parent[k] >= 0
                invariant
                    1 <= k < BZ_MAX_ALPHA_SIZE * 2,
                    0 <= j <= k,
                    nNodes < BZ_MAX_ALPHA_SIZE * 2,
                    parent@.len() == BZ_MAX_ALPHA_SIZE * 2,
                    forall|kk: int| 0 <= kk <= nNodes ==> (#[trigger] parent@[kk] < 0 || (kk < parent@[kk] <= nNodes)),
                    k <= nNodes,
                decreases BZ_MAX_ALPHA_SIZE * 2 - k,
            {
                k = parent[k] as usize;
                j = j + 1;
            }
            len.set(i - 1, (j % 256) as u8);
            if j > maxLen || j < 1 {
                tooLong = true;
            }
            i = i + 1;
        }

        if !tooLong && !fits_code_space(len, alpha, maxLen as u32) {
            // A tree built as above never oversubscribes the code space; lengths that did
            // would not make a prefix code, so they are never handed out.
            tooLong = true;
        }
        if !tooLong {
            break;
        }

        if iter + 1 >= 32 {
            // Unreachable in practice: the flattening makes all weights 1 or 2 long before
            // this, and such a tree is nowhere near `maxLen` deep. Fall back to equal lengths.
            let depth: u8 = 9;
            let mut q: usize = 0;
            while q < alpha
                invariant
                    q <= alpha,
                    alpha == alphaSize,
                    depth == 9,
                    9 <= maxLen,
                    len@.len() == old(len)@.len(),
                    alphaSize <= len@.len(),
                    forall|k: int| alphaSize <= k < old(len)@.len() ==> len@[k] == old(len)@[k],
                    forall|p: int| 0 <= p < q ==> 1 <= #[trigger] len@[p] <= maxLen,
                    forall|p: int| 0 <= p < q ==> #[trigger] len@[p] == 9,
                decreases alpha - q,
            {
                len.set(q, depth);
                q = q + 1;
            }
            proof {
                let lens = len@.subrange(0, alphaSize as int);
                vstd::arithmetic::power2::lemma2_to64();
                assert forall|p: int| 0 <= p < lens.len() implies #[trigger] lens[p] as int == 9 by {
                    assert(len@[p] as int == 9);
                }
                lemma_uniform_lengths_fit(lens, 9, maxLen as int);
            }
            break;
        }
        iter = iter + 1;

        let mut i: usize = 1;
        while i <= alpha
            invariant
                1 <= i <= alpha + 1,
                alpha <= BZ_MAX_ALPHA_SIZE,
                weight@.len() == BZ_MAX_ALPHA_SIZE * 2,
            decreases alpha + 1 - i,
        {
            let j = weight[i] >> 8u32;
            let j = 1 + j / 2;
            weight.set(i, j.wrapping_mul(256));
            i = i + 1;
        }
    }
}

} // verus!
