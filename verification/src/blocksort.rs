//! Sorting the rotations of a block: the Burrows-Wheeler transform's expensive part.
//!
//! The block is sorted with the exponential radix sort that bzip2 uses as its fallback
//! (inspired by the Manber-Myers suffix array construction): rotations are first
//! bucketed by their first byte, then buckets are refined by comparing the bucket numbers
//! of the rotations `H` places further on, with `H` doubling each round.
use vstd::prelude::*;
use crate::compress::BZ_N_OVERSHOOT;

verus! {

/// `s[0 .. n]` is a permutation of `0 .. n`, and `inv` says where each value sits.
pub open spec fn perm_inv(s: Seq<u32>, n: int, inv: Seq<int>) -> bool {
    &&& n <= s.len()
    &&& inv.len() == n
    &&& forall|i: int| 0 <= i < n ==> (#[trigger] s[i] as int) < n
    &&& forall|v: int| 0 <= v < n ==> 0 <= #[trigger] inv[v] < n && s[inv[v]] as int == v
}

/// Value `v` occurs in `s[0 .. i]`.
pub open spec fn occurs_before(s: Seq<u32>, i: int, v: int) -> bool {
    exists|k: int| 0 <= k < i && s[k] as int == v
}

/// `s[0 .. n]` holds each of `0 .. n` exactly once.
pub open spec fn is_bijection(s: Seq<u32>, n: int) -> bool {
    &&& n <= s.len()
    &&& forall|i: int| 0 <= i < n ==> (#[trigger] s[i] as int) < n
    &&& forall|i: int, j: int| 0 <= i < j < n ==> #[trigger] s[i] != #[trigger] s[j]
    &&& forall|v: int| 0 <= v < n ==> #[trigger] occurs_before(s, n, v)
}

/// Value `v` occurs in `s[0 .. n]`.
pub open spec fn occurs(s: Seq<u32>, n: int, v: int) -> bool {
    exists|i: int| 0 <= i < n && #[trigger] s[i] as int == v
}

/// `s[0 .. n]` is a permutation of `0 .. n`.
pub open spec fn is_perm(s: Seq<u32>, n: int) -> bool {
    &&& n <= s.len()
    &&& forall|i: int| 0 <= i < n ==> (#[trigger] s[i] as int) < n
    &&& forall|v: int| 0 <= v < n ==> #[trigger] occurs(s, n, v)
}

pub proof fn lemma_perm_inv_is_perm(s: Seq<u32>, n: int, inv: Seq<int>)
    requires
        perm_inv(s, n, inv),
    ensures
        is_perm(s, n),
{
    assert forall|v: int| 0 <= v < n implies #[trigger] occurs(s, n, v) by {
        assert(s[inv[v]] as int == v);
    }
}

/// Swaps two entries, keeping track of where each value went.
fn swap_perm(fmap: &mut Vec<u32>, a: usize, b: usize, Ghost(n): Ghost<int>, Ghost(inv): Ghost<Seq<int>>, Ghost(track): Ghost<bool>) -> (inv2: Ghost<Seq<int>>)
    requires
        a < old(fmap)@.len(),
        b < old(fmap)@.len(),
        track ==> perm_inv(old(fmap)@, n, inv) && a < n && b < n,
    ensures
        track ==> perm_inv(final(fmap)@, n, inv2@),
        final(fmap)@ == old(fmap)@.update(a as int, old(fmap)@[b as int]).update(b as int, old(fmap)@[a as int]),
{
    let x = fmap[a];
    let y = fmap[b];
    fmap.set(a, y);
    fmap.set(b, x);
    let ghost inv2 = inv.update(x as int, b as int).update(y as int, a as int);
    proof {
        if track {
        assert forall|v: int| 0 <= v < n implies 0 <= #[trigger] inv2[v] < n && fmap@[inv2[v]] as int == v by {
            if v == y as int {
            } else if v == x as int {
            } else {
                assert(inv[v] != a as int && inv[v] != b as int);
            }
        }
        }
    }
    Ghost(inv2)
}

/// The sort key of the entry at position `a`: the class of the rotation that `f[a]` names.
pub open spec fn key_at(f: Seq<u32>, e: Seq<u32>, a: int) -> u32 {
    e[f[a] as int]
}

/// Every entry of `f[lo ..= hi]` names a rotation that has a class in `e`.
pub open spec fn keys_in(f: Seq<u32>, m: int, lo: int, hi: int) -> bool {
    forall|k: int| lo <= k <= hi ==> (#[trigger] f[k] as int) < m
}

/// `f[lo ..= hi]` is in ascending order of key.
pub open spec fn sorted_keys(f: Seq<u32>, e: Seq<u32>, lo: int, hi: int) -> bool {
    forall|a: int, b: int| lo <= a <= b <= hi ==> #[trigger] key_at(f, e, a) <= #[trigger] key_at(f, e, b)
}

/// `w` shows where each entry of `after[lo ..= hi]` came from in `before[lo ..= hi]`.
pub open spec fn came_from(after: Seq<u32>, before: Seq<u32>, lo: int, hi: int, w: Seq<int>) -> bool {
    forall|k: int| lo <= k <= hi ==> lo <= #[trigger] w[k] <= hi && before[w[k]] == after[k]
}

/// Every entry of `after[lo ..= hi]` was somewhere in `before[lo ..= hi]`.
#[verifier::opaque]
pub open spec fn from_range(after: Seq<u32>, before: Seq<u32>, lo: int, hi: int) -> bool {
    exists|w: Seq<int>| #[trigger] came_from(after, before, lo, hi, w)
}

proof fn lemma_from_range_refl(s: Seq<u32>, lo: int, hi: int)
    requires
        0 <= lo,
    ensures
        from_range(s, s, lo, hi),
{
    reveal(from_range);
    let w = Seq::new((hi + 1) as nat, |i: int| i);
    assert(came_from(s, s, lo, hi, w));
}

proof fn lemma_from_range_trans(c: Seq<u32>, b: Seq<u32>, a: Seq<u32>, lo: int, hi: int)
    requires
        from_range(c, b, lo, hi),
        from_range(b, a, lo, hi),
        0 <= lo,
    ensures
        from_range(c, a, lo, hi),
{
    reveal(from_range);
    let w1 = choose|w: Seq<int>| #[trigger] came_from(c, b, lo, hi, w);
    let w2 = choose|w: Seq<int>| #[trigger] came_from(b, a, lo, hi, w);
    let w3 = Seq::new((hi + 1) as nat, |i: int| w2[w1[i]]);
    assert forall|k: int| lo <= k <= hi implies lo <= #[trigger] w3[k] <= hi && a[w3[k]] == c[k] by {
        assert(lo <= w1[k] <= hi);
        assert(lo <= w2[w1[k]] <= hi);
    }
    assert(came_from(c, a, lo, hi, w3));
}

proof fn lemma_from_range_swap(s: Seq<u32>, x: int, y: int, lo: int, hi: int)
    requires
        lo <= x <= hi,
        lo <= y <= hi,
        0 <= lo,
        hi < s.len(),
    ensures
        from_range(s.update(x, s[y]).update(y, s[x]), s, lo, hi),
{
    reveal(from_range);
    let t = s.update(x, s[y]).update(y, s[x]);
    let w = Seq::new((hi + 1) as nat, |i: int| if i == y { x } else if i == x { y } else { i });
    assert forall|k: int| lo <= k <= hi implies lo <= #[trigger] w[k] <= hi && s[w[k]] == t[k] by {
        if k == y {
        } else if k == x {
        } else {
        }
    }
    assert(came_from(t, s, lo, hi, w));
}

/// Entries moved about inside `lo ..= hi` keep naming rotations with a class.
proof fn lemma_keys_in_step(after: Seq<u32>, before: Seq<u32>, m: int, lo: int, hi: int, loSt: int, hiSt: int)
    requires
        from_range(after, before, lo, hi),
        forall|k: int| 0 <= k < after.len() && !(lo <= k <= hi) ==> after[k] == before[k],
        after.len() == before.len(),
        keys_in(before, m, loSt, hiSt),
        0 <= loSt <= lo,
        hi <= hiSt < after.len(),
    ensures
        keys_in(after, m, loSt, hiSt),
{
    reveal(from_range);
    let w = choose|w: Seq<int>| #[trigger] came_from(after, before, lo, hi, w);
    assert forall|k: int| loSt <= k <= hiSt implies (#[trigger] after[k] as int) < m by {
        if lo <= k <= hi {
            assert(lo <= w[k] <= hi && before[w[k]] == after[k]);
            assert((before[w[k]] as int) < m);
        } else {
            assert(after[k] == before[k]);
        }
    }
}

/// A rearrangement of a smaller range, leaving the rest alone, rearranges the larger one.
proof fn lemma_from_range_widen(after: Seq<u32>, before: Seq<u32>, p: int, q: int, lo: int, hi: int)
    requires
        from_range(after, before, p, q),
        lo <= p,
        q <= hi,
        forall|k: int| lo <= k <= hi && !(p <= k <= q) ==> after[k] == before[k],
        0 <= lo,
    ensures
        from_range(after, before, lo, hi),
{
    reveal(from_range);
    let w1 = choose|w: Seq<int>| #[trigger] came_from(after, before, p, q, w);
    let w = Seq::new((hi + 1) as nat, |i: int| if p <= i <= q { w1[i] } else { i });
    assert forall|k: int| lo <= k <= hi implies lo <= #[trigger] w[k] <= hi && before[w[k]] == after[k] by {
        if p <= k <= q {
            assert(p <= w1[k] <= q);
        }
    }
    assert(came_from(after, before, lo, hi, w));
}

} // verus!

verus! {

/// Insertion sort of `fmap[lo ..= hi]` by `eclass`, first with stride 4, then 1
/// (`fallbackSimpleSort`).
fn fallbackSimpleSort(fmap: &mut Vec<u32>, eclass: &Vec<u32>, lo: i32, hi: i32, Ghost(n): Ghost<int>, Ghost(inv): Ghost<Seq<int>>, Ghost(track): Ghost<bool>) -> (inv2: Ghost<Seq<int>>)
    requires
        track ==> perm_inv(old(fmap)@, n, inv) && hi < n,
        keys_in(old(fmap)@, eclass@.len() as int, lo as int, hi as int),
        0 <= lo <= hi + 1,
        hi < old(fmap)@.len(),
        hi < 0x3fff_0000,
    ensures
        track ==> perm_inv(final(fmap)@, n, inv2@),
        forall|k: int| 0 <= k < final(fmap)@.len() && !(lo <= k <= hi) ==> final(fmap)@[k] == old(fmap)@[k],
        final(fmap)@.len() == old(fmap)@.len(),
        sorted_keys(final(fmap)@, eclass@, lo as int, hi as int),
        from_range(final(fmap)@, old(fmap)@, lo as int, hi as int),
{
    let ghost mut inv = inv;
    proof { lemma_from_range_refl(fmap@, lo as int, hi as int); }
    if lo >= hi {
        return Ghost(inv);
    }
    if hi - lo > 3 {
        let mut i: i32 = hi - 4;
        while i >= lo
            invariant
                track ==> perm_inv(fmap@, n, inv),
                keys_in(fmap@, eclass@.len() as int, lo as int, hi as int),
                0 <= lo,
                hi < fmap@.len(),
                hi < 0x3fff_0000,
                track ==> hi < n,
                lo - 1 <= i <= hi - 4,
                forall|k: int| 0 <= k < fmap@.len() && !(lo <= k <= hi) ==> fmap@[k] == old(fmap)@[k],
                fmap@.len() == old(fmap)@.len(),
                from_range(fmap@, old(fmap)@, lo as int, hi as int),
            decreases i - lo + 1,
        {
            let tmp = fmap[i as usize];
            let ec_tmp = eclass[tmp as usize];
            let mut j: i32 = i + 4;
            while j <= hi && ec_tmp > eclass[fmap[j as usize] as usize]
                invariant
                    track ==> perm_inv(fmap@, n, inv),
                    keys_in(fmap@, eclass@.len() as int, lo as int, hi as int),
                    0 <= lo <= i,
                    hi < fmap@.len(),
                hi < 0x3fff_0000,
                track ==> hi < n,
                    i + 4 <= j <= hi + 4,
                    forall|k: int| 0 <= k < fmap@.len() && !(lo <= k <= hi) ==> fmap@[k] == old(fmap)@[k],
                    fmap@.len() == old(fmap)@.len(),
                    from_range(fmap@, old(fmap)@, lo as int, hi as int),
                decreases hi + 4 - j,
            {
                let ghost before = fmap@;
                let g = swap_perm(fmap, (j - 4) as usize, j as usize, Ghost(n), Ghost(inv), Ghost(track));
                proof {
                    inv = g@;
                    lemma_from_range_swap(before, (j - 4) as int, j as int, lo as int, hi as int);
                    lemma_from_range_trans(fmap@, before, old(fmap)@, lo as int, hi as int);
                }
                j = j + 4;
            }
            i = i - 1;
        }
    }
    let mut i: i32 = hi - 1;
    while i >= lo
        invariant
            track ==> perm_inv(fmap@, n, inv),
            keys_in(fmap@, eclass@.len() as int, lo as int, hi as int),
            0 <= lo,
            hi < fmap@.len(),
                hi < 0x3fff_0000,
                track ==> hi < n,
            lo - 1 <= i <= hi - 1,
            forall|k: int| 0 <= k < fmap@.len() && !(lo <= k <= hi) ==> fmap@[k] == old(fmap)@[k],
            fmap@.len() == old(fmap)@.len(),
            from_range(fmap@, old(fmap)@, lo as int, hi as int),
            sorted_keys(fmap@, eclass@, i + 1, hi as int),
        decreases i - lo + 1,
    {
        let tmp = fmap[i as usize];
        let ec_tmp = eclass[tmp as usize];
        let mut j: i32 = i + 1;
        while j <= hi && ec_tmp > eclass[fmap[j as usize] as usize]
            invariant
                track ==> perm_inv(fmap@, n, inv),
                keys_in(fmap@, eclass@.len() as int, lo as int, hi as int),
                0 <= lo <= i,
                hi < fmap@.len(),
                hi < 0x3fff_0000,
                track ==> hi < n,
                i + 1 <= j <= hi + 1,
                forall|k: int| 0 <= k < fmap@.len() && !(lo <= k <= hi) ==> fmap@[k] == old(fmap)@[k],
                fmap@.len() == old(fmap)@.len(),
                from_range(fmap@, old(fmap)@, lo as int, hi as int),
                key_at(fmap@, eclass@, j - 1) == ec_tmp,
                forall|a: int| i <= a < j - 1 ==> #[trigger] key_at(fmap@, eclass@, a) < ec_tmp,
                forall|a: int, b: int| i <= a <= b <= hi && a != j - 1 && b != j - 1
                    ==> #[trigger] key_at(fmap@, eclass@, a) <= #[trigger] key_at(fmap@, eclass@, b),
            decreases hi + 1 - j,
        {
            let ghost before = fmap@;
            let g = swap_perm(fmap, (j - 1) as usize, j as usize, Ghost(n), Ghost(inv), Ghost(track));
            proof {
                inv = g@;
                lemma_from_range_swap(before, (j - 1) as int, j as int, lo as int, hi as int);
                lemma_from_range_trans(fmap@, before, old(fmap)@, lo as int, hi as int);
                assert(key_at(fmap@, eclass@, j as int) == ec_tmp);
                assert(key_at(fmap@, eclass@, j - 1) == key_at(before, eclass@, j as int));
                assert forall|a: int| i <= a < j implies #[trigger] key_at(fmap@, eclass@, a) < ec_tmp by {
                    if a < j - 1 {
                        assert(key_at(fmap@, eclass@, a) == key_at(before, eclass@, a));
                    }
                }
                assert forall|a: int, b: int| i <= a <= b <= hi && a != j && b != j
                    implies #[trigger] key_at(fmap@, eclass@, a) <= #[trigger] key_at(fmap@, eclass@, b) by {
                    let a0 = if a == j - 1 { j as int } else { a };
                    let b0 = if b == j - 1 { j as int } else { b };
                    assert(key_at(fmap@, eclass@, a) == key_at(before, eclass@, a0));
                    assert(key_at(fmap@, eclass@, b) == key_at(before, eclass@, b0));
                    assert(key_at(before, eclass@, a0) <= key_at(before, eclass@, b0));
                }
            }
            j = j + 1;
        }
        proof {
            assert forall|a: int, b: int| i <= a <= b <= hi
                implies #[trigger] key_at(fmap@, eclass@, a) <= #[trigger] key_at(fmap@, eclass@, b) by {
                if a == b {
                } else if b == j - 1 {
                    assert(key_at(fmap@, eclass@, a) < ec_tmp);
                } else if a == j - 1 {
                    assert(j <= hi);
                    assert(key_at(fmap@, eclass@, j as int) <= key_at(fmap@, eclass@, b));
                }
            }
        }
        i = i - 1;
    }
    Ghost(inv)
}

} // verus!

verus! {

/// Ranges shorter than this are insertion sorted.
const FALLBACK_QSORT_SMALL_THRESH: i32 = 10;

/// Two units for every element still to be sorted, and one for every pending range.
pub open spec fn stack_measure(los: Seq<i32>, his: Seq<i32>) -> int
    decreases los.len(),
{
    if los.len() == 0 || his.len() == 0 {
        0
    } else {
        let lo = los.last() as int;
        let hi = his.last() as int;
        stack_measure(los.drop_last(), his.drop_last()) + 1 + 2 * (if hi >= lo { hi - lo + 1 } else { 0 })
    }
}

proof fn lemma_stack_measure_nonneg(los: Seq<i32>, his: Seq<i32>)
    ensures
        stack_measure(los, his) >= 0,
    decreases los.len(),
{
    if los.len() > 0 && his.len() > 0 {
        lemma_stack_measure_nonneg(los.drop_last(), his.drop_last());
    }
}

/// Swaps `fmap[p1 .. p1 + count]` with `fmap[p2 .. p2 + count]`, element by element.
fn fvswap(
    fmap: &mut Vec<u32>,
    p1: i32,
    p2: i32,
    count: i32,
    Ghost(n): Ghost<int>,
    Ghost(inv): Ghost<Seq<int>>,
    Ghost(rlo): Ghost<int>,
    Ghost(rhi): Ghost<int>,
    Ghost(track): Ghost<bool>,
) -> (inv2: Ghost<Seq<int>>)
    requires
        track ==> perm_inv(old(fmap)@, n, inv) && rhi < n,
        0 <= count,
        0 <= rlo <= p1,
        rlo <= p2,
        p1 + count <= p2 || p2 + count <= p1,
        p1 + count - 1 <= rhi,
        p2 + count - 1 <= rhi,
        rhi < old(fmap)@.len(),
        rhi < 0x3fff_0000,
    ensures
        track ==> perm_inv(final(fmap)@, n, inv2@),
        final(fmap)@.len() == old(fmap)@.len(),
        forall|k: int| 0 <= k < final(fmap)@.len() && !(p1 <= k < p1 + count) && !(p2 <= k < p2 + count)
            ==> final(fmap)@[k] == old(fmap)@[k],
        forall|k: int| p1 <= k < p1 + count ==> #[trigger] final(fmap)@[k] == old(fmap)@[k - p1 + p2],
        forall|k: int| p2 <= k < p2 + count ==> #[trigger] final(fmap)@[k] == old(fmap)@[k - p2 + p1],
        from_range(final(fmap)@, old(fmap)@, rlo, rhi),
{
    let ghost mut inv = inv;
    let mut yyp1 = p1;
    let mut yyp2 = p2;
    let mut yyn = count;
    proof { lemma_from_range_refl(fmap@, rlo, rhi); }
    while yyn > 0
        invariant
            track ==> perm_inv(fmap@, n, inv),
            track ==> rhi < n,
            0 <= yyn <= count,
            yyp1 == p1 + (count - yyn),
            yyp2 == p2 + (count - yyn),
            0 <= rlo <= p1,
            rlo <= p2,
            p1 + count <= p2 || p2 + count <= p1,
            p1 + count - 1 <= rhi,
            p2 + count - 1 <= rhi,
            rhi < fmap@.len(),
            rhi < 0x3fff_0000,
            fmap@.len() == old(fmap)@.len(),
            forall|k: int| 0 <= k < fmap@.len() && !(p1 <= k < yyp1) && !(p2 <= k < yyp2)
                ==> fmap@[k] == old(fmap)@[k],
            forall|k: int| p1 <= k < yyp1 ==> #[trigger] fmap@[k] == old(fmap)@[k - p1 + p2],
            forall|k: int| p2 <= k < yyp2 ==> #[trigger] fmap@[k] == old(fmap)@[k - p2 + p1],
            from_range(fmap@, old(fmap)@, rlo, rhi),
        decreases yyn,
    {
        let ghost before = fmap@;
        let g = swap_perm(fmap, yyp1 as usize, yyp2 as usize, Ghost(n), Ghost(inv), Ghost(track));
        proof {
            inv = g@;
            lemma_from_range_swap(before, yyp1 as int, yyp2 as int, rlo, rhi);
            lemma_from_range_trans(fmap@, before, old(fmap)@, rlo, rhi);
            assert forall|k: int| p1 <= k < yyp1 + 1 implies #[trigger] fmap@[k] == old(fmap)@[k - p1 + p2] by {
                if k < yyp1 {
                    assert(k != yyp2);
                    assert(before[k] == old(fmap)@[k - p1 + p2]);
                }
            }
            assert forall|k: int| p2 <= k < yyp2 + 1 implies #[trigger] fmap@[k] == old(fmap)@[k - p2 + p1] by {
                if k < yyp2 {
                    assert(k != yyp1);
                    assert(before[k] == old(fmap)@[k - p2 + p1]);
                }
            }
        }
        yyp1 = yyp1 + 1;
        yyp2 = yyp2 + 1;
        yyn = yyn - 1;
    }
    Ghost(inv)
}


/// Keys after swapping the entries at `x` and `y`.
proof fn lemma_swap_keys(s: Seq<u32>, e: Seq<u32>, x: int, y: int)
    requires
        0 <= x < s.len(),
        0 <= y < s.len(),
    ensures
        forall|k: int| 0 <= k < s.len() ==> #[trigger] key_at(s.update(x, s[y]).update(y, s[x]), e, k)
            == (if k == y { key_at(s, e, x) } else if k == x { key_at(s, e, y) } else { key_at(s, e, k) }),
{
}

/// Splits `fmap[lo ..= hi]` around `med`: returns `(ltLo, unLo, unHi, gtHi)` such that
/// `[lo, ltLo)` and `(gtHi, hi]` hold the entries equal to `med`, `[ltLo, unLo)` the smaller
/// and `(unHi, gtHi]` the greater ones, with `unLo == unHi + 1`.
fn partition3(
    fmap: &mut Vec<u32>,
    eclass: &Vec<u32>,
    lo: i32,
    hi: i32,
    med: u32,
    Ghost(pv0): Ghost<int>,
    Ghost(n): Ghost<int>,
    Ghost(inv): Ghost<Seq<int>>,
    Ghost(loSt): Ghost<int>,
    Ghost(hiSt): Ghost<int>,
    Ghost(track): Ghost<bool>,
) -> (res: (i32, i32, i32, i32, Ghost<Seq<int>>))
    requires
        track ==> perm_inv(old(fmap)@, n, inv) && hi < n,
        keys_in(old(fmap)@, eclass@.len() as int, lo as int, hi as int),
        0 <= loSt <= lo < hi <= hiSt < old(fmap)@.len(),
        hiSt < 0x3fff_0000,
        lo <= pv0 <= hi,
        eclass@[old(fmap)@[pv0] as int] == med,
    ensures
        track ==> perm_inv(final(fmap)@, n, res.4@),
        lo <= res.0 <= res.1,
        res.1 == res.2 + 1,
        res.2 <= res.3 <= hi,
        (res.0 - lo) + (hi - res.3) >= 1,
        final(fmap)@.len() == old(fmap)@.len(),
        forall|k: int| 0 <= k < final(fmap)@.len() && !(lo <= k <= hi) ==> final(fmap)@[k] == old(fmap)@[k],
        forall|k: int| lo <= k < res.0 ==> #[trigger] key_at(final(fmap)@, eclass@, k) == med,
        forall|k: int| res.0 <= k < res.1 ==> #[trigger] key_at(final(fmap)@, eclass@, k) < med,
        forall|k: int| res.2 < k <= res.3 ==> #[trigger] key_at(final(fmap)@, eclass@, k) > med,
        forall|k: int| res.3 < k <= hi ==> #[trigger] key_at(final(fmap)@, eclass@, k) == med,
        from_range(final(fmap)@, old(fmap)@, lo as int, hi as int),
{
    let ghost mut inv = inv;
    let ghost mut pv: int = pv0;
    proof { lemma_from_range_refl(fmap@, lo as int, hi as int); }
    let mut ltLo = lo;
    let mut unLo = lo;
    let mut gtHi = hi;
    let mut unHi = hi;

    loop
        invariant
            track ==> perm_inv(fmap@, n, inv),
            keys_in(fmap@, eclass@.len() as int, lo as int, hi as int),
            0 <= lo < hi < fmap@.len(),
                hi < 0x3fff_0000,
                track ==> hi < n,
            lo <= ltLo <= unLo <= unHi + 1,
            unHi <= gtHi <= hi,
            lo <= pv <= hi,
            eclass@[fmap@[pv] as int] == med,
            (lo <= pv < ltLo) || (unLo <= pv <= unHi) || (gtHi < pv <= hi),
            fmap@.len() == old(fmap)@.len(),
            forall|k: int| 0 <= k < fmap@.len() && !(lo <= k <= hi) ==> fmap@[k] == old(fmap)@[k],
            forall|k: int| lo <= k < ltLo ==> #[trigger] key_at(fmap@, eclass@, k) == med,
            forall|k: int| ltLo <= k < unLo ==> #[trigger] key_at(fmap@, eclass@, k) < med,
            forall|k: int| unHi < k <= gtHi ==> #[trigger] key_at(fmap@, eclass@, k) > med,
            forall|k: int| gtHi < k <= hi ==> #[trigger] key_at(fmap@, eclass@, k) == med,
            from_range(fmap@, old(fmap)@, lo as int, hi as int),
        ensures
            track ==> perm_inv(fmap@, n, inv),
            lo <= ltLo <= unLo,
            unLo == unHi + 1,
            unHi <= gtHi <= hi,
            (lo <= pv < ltLo) || (gtHi < pv <= hi),
            fmap@.len() == old(fmap)@.len(),
            forall|k: int| 0 <= k < fmap@.len() && !(lo <= k <= hi) ==> fmap@[k] == old(fmap)@[k],
            forall|k: int| lo <= k < ltLo ==> #[trigger] key_at(fmap@, eclass@, k) == med,
            forall|k: int| ltLo <= k < unLo ==> #[trigger] key_at(fmap@, eclass@, k) < med,
            forall|k: int| unHi < k <= gtHi ==> #[trigger] key_at(fmap@, eclass@, k) > med,
            forall|k: int| gtHi < k <= hi ==> #[trigger] key_at(fmap@, eclass@, k) == med,
            from_range(fmap@, old(fmap)@, lo as int, hi as int),
        decreases unHi + 1 - unLo,
    {
        let ghost d0 = unHi - unLo;
        while unLo <= unHi
            invariant
                unHi - unLo <= d0,
                track ==> perm_inv(fmap@, n, inv),
                keys_in(fmap@, eclass@.len() as int, lo as int, hi as int),
                0 <= lo < hi < fmap@.len(),
                hi < 0x3fff_0000,
                track ==> hi < n,
                lo <= ltLo <= unLo <= unHi + 1,
                unHi <= gtHi <= hi,
                lo <= pv <= hi,
                eclass@[fmap@[pv] as int] == med,
                (lo <= pv < ltLo) || (unLo <= pv <= unHi) || (gtHi < pv <= hi),
                fmap@.len() == old(fmap)@.len(),
                forall|k: int| 0 <= k < fmap@.len() && !(lo <= k <= hi) ==> fmap@[k] == old(fmap)@[k],
                forall|k: int| lo <= k < ltLo ==> #[trigger] key_at(fmap@, eclass@, k) == med,
                forall|k: int| ltLo <= k < unLo ==> #[trigger] key_at(fmap@, eclass@, k) < med,
                forall|k: int| unHi < k <= gtHi ==> #[trigger] key_at(fmap@, eclass@, k) > med,
                forall|k: int| gtHi < k <= hi ==> #[trigger] key_at(fmap@, eclass@, k) == med,
                from_range(fmap@, old(fmap)@, lo as int, hi as int),
            ensures
                unHi - unLo <= d0,
                track ==> perm_inv(fmap@, n, inv),
                lo <= ltLo <= unLo <= unHi + 1,
                unHi <= gtHi <= hi,
                lo <= pv <= hi,
                eclass@[fmap@[pv] as int] == med,
                (lo <= pv < ltLo) || (unLo <= pv <= unHi) || (gtHi < pv <= hi),
                unLo <= unHi ==> eclass@[fmap@[unLo as int] as int] > med,
                fmap@.len() == old(fmap)@.len(),
                forall|k: int| 0 <= k < fmap@.len() && !(lo <= k <= hi) ==> fmap@[k] == old(fmap)@[k],
                forall|k: int| lo <= k < ltLo ==> #[trigger] key_at(fmap@, eclass@, k) == med,
                forall|k: int| ltLo <= k < unLo ==> #[trigger] key_at(fmap@, eclass@, k) < med,
                forall|k: int| unHi < k <= gtHi ==> #[trigger] key_at(fmap@, eclass@, k) > med,
                forall|k: int| gtHi < k <= hi ==> #[trigger] key_at(fmap@, eclass@, k) == med,
                from_range(fmap@, old(fmap)@, lo as int, hi as int),
            decreases unHi + 1 - unLo,
        {
            let e = eclass[fmap[unLo as usize] as usize];
            if e > med {
                break;
            } else if e == med {
                proof {
                    if pv == unLo as int {
                        pv = ltLo as int;
                    } else if pv == ltLo as int {
                        pv = unLo as int;
                    }
                }
                let ghost before = fmap@;
                let g = swap_perm(fmap, unLo as usize, ltLo as usize, Ghost(n), Ghost(inv), Ghost(track));
                proof {
                    inv = g@;
                    lemma_swap_keys(before, eclass@, unLo as int, ltLo as int);
                    lemma_from_range_swap(before, unLo as int, ltLo as int, lo as int, hi as int);
                    lemma_from_range_trans(fmap@, before, old(fmap)@, lo as int, hi as int);
                }
                ltLo = ltLo + 1;
                unLo = unLo + 1;
            } else {
                unLo = unLo + 1;
            }
        }

        while unLo <= unHi
            invariant
                unHi - unLo <= d0,
                track ==> perm_inv(fmap@, n, inv),
                keys_in(fmap@, eclass@.len() as int, lo as int, hi as int),
                0 <= lo < hi < fmap@.len(),
                hi < 0x3fff_0000,
                track ==> hi < n,
                lo <= ltLo <= unLo <= unHi + 1,
                unHi <= gtHi <= hi,
                lo <= pv <= hi,
                eclass@[fmap@[pv] as int] == med,
                (lo <= pv < ltLo) || (unLo <= pv <= unHi) || (gtHi < pv <= hi),
                unLo <= unHi ==> eclass@[fmap@[unLo as int] as int] > med,
                fmap@.len() == old(fmap)@.len(),
                forall|k: int| 0 <= k < fmap@.len() && !(lo <= k <= hi) ==> fmap@[k] == old(fmap)@[k],
                forall|k: int| lo <= k < ltLo ==> #[trigger] key_at(fmap@, eclass@, k) == med,
                forall|k: int| ltLo <= k < unLo ==> #[trigger] key_at(fmap@, eclass@, k) < med,
                forall|k: int| unHi < k <= gtHi ==> #[trigger] key_at(fmap@, eclass@, k) > med,
                forall|k: int| gtHi < k <= hi ==> #[trigger] key_at(fmap@, eclass@, k) == med,
                from_range(fmap@, old(fmap)@, lo as int, hi as int),
            ensures
                unHi - unLo <= d0,
                track ==> perm_inv(fmap@, n, inv),
                lo <= ltLo <= unLo <= unHi + 1,
                unHi <= gtHi <= hi,
                lo <= pv <= hi,
                eclass@[fmap@[pv] as int] == med,
                (lo <= pv < ltLo) || (unLo <= pv <= unHi) || (gtHi < pv <= hi),
                unLo <= unHi ==> eclass@[fmap@[unLo as int] as int] > med,
                unLo <= unHi ==> eclass@[fmap@[unHi as int] as int] < med,
                fmap@.len() == old(fmap)@.len(),
                forall|k: int| 0 <= k < fmap@.len() && !(lo <= k <= hi) ==> fmap@[k] == old(fmap)@[k],
                forall|k: int| lo <= k < ltLo ==> #[trigger] key_at(fmap@, eclass@, k) == med,
                forall|k: int| ltLo <= k < unLo ==> #[trigger] key_at(fmap@, eclass@, k) < med,
                forall|k: int| unHi < k <= gtHi ==> #[trigger] key_at(fmap@, eclass@, k) > med,
                forall|k: int| gtHi < k <= hi ==> #[trigger] key_at(fmap@, eclass@, k) == med,
                from_range(fmap@, old(fmap)@, lo as int, hi as int),
            decreases unHi + 1 - unLo,
        {
            let e = eclass[fmap[unHi as usize] as usize];
            if e < med {
                break;
            } else if e == med {
                proof {
                    if pv == unHi as int {
                        pv = gtHi as int;
                    } else if pv == gtHi as int {
                        pv = unHi as int;
                    }
                }
                let ghost before = fmap@;
                let g = swap_perm(fmap, unHi as usize, gtHi as usize, Ghost(n), Ghost(inv), Ghost(track));
                proof {
                    inv = g@;
                    lemma_swap_keys(before, eclass@, unHi as int, gtHi as int);
                    lemma_from_range_swap(before, unHi as int, gtHi as int, lo as int, hi as int);
                    lemma_from_range_trans(fmap@, before, old(fmap)@, lo as int, hi as int);
                }
                gtHi = gtHi - 1;
                unHi = unHi - 1;
            } else {
                unHi = unHi - 1;
            }
        }

        if unLo > unHi {
            break;
        }

        let ghost before = fmap@;
        let g = swap_perm(fmap, unLo as usize, unHi as usize, Ghost(n), Ghost(inv), Ghost(track));
        proof {
            inv = g@;
            lemma_swap_keys(before, eclass@, unLo as int, unHi as int);
            lemma_from_range_swap(before, unLo as int, unHi as int, lo as int, hi as int);
            lemma_from_range_trans(fmap@, before, old(fmap)@, lo as int, hi as int);
        }
        unLo = unLo + 1;
        unHi = unHi - 1;
    }
    (ltLo, unLo, unHi, gtHi, Ghost(inv))
}

/// Pending range `q` of the stack spans positions `a` to `b`.
pub open spec fn covers(slo: Seq<i32>, shi: Seq<i32>, q: int, a: int, b: int) -> bool {
    0 <= q < slo.len() && slo[q] <= a && b <= shi[q]
}

/// Positions `a` and `b` lie in one pending range.
pub open spec fn pending(slo: Seq<i32>, shi: Seq<i32>, a: int, b: int) -> bool {
    exists|q: int| #[trigger] covers(slo, shi, q, a, b)
}

/// `f[lo ..= hi]` is in key order but for pairs of positions inside one pending range.
pub open spec fn stack_sorted(f: Seq<u32>, e: Seq<u32>, slo: Seq<i32>, shi: Seq<i32>, lo: int, hi: int) -> bool {
    forall|a: int, b: int| lo <= a <= b <= hi && !pending(slo, shi, a, b)
        ==> #[trigger] key_at(f, e, a) <= #[trigger] key_at(f, e, b)
}

/// No position lies in two pending ranges.
pub open spec fn stack_disjoint(slo: Seq<i32>, shi: Seq<i32>) -> bool {
    forall|q1: int, q2: int, x: int| q1 != q2 && #[trigger] covers(slo, shi, q1, x, x) ==> !#[trigger] covers(slo, shi, q2, x, x)
}

/// The pair `(a, b)` with `a` in the top range and `b` beyond it, or the other way round,
/// is in no pending range.
proof fn lemma_not_pending_across(slo: Seq<i32>, shi: Seq<i32>, a: int, b: int)
    requires
        slo.len() == shi.len() > 0,
        stack_disjoint(slo, shi),
        a <= b,
        (slo.last() <= a <= shi.last() && shi.last() < b) || (slo.last() <= b <= shi.last() && a < slo.last()),
    ensures
        !pending(slo, shi, a, b),
{
    let top = slo.len() - 1;
    assert forall|q: int| !#[trigger] covers(slo, shi, q, a, b) by {
        if covers(slo, shi, q, a, b) {
            if q == top {
            } else if slo.last() <= a <= shi.last() {
                assert(covers(slo, shi, q, a, a));
                assert(covers(slo, shi, top, a, a));
            } else {
                assert(covers(slo, shi, q, b, b));
                assert(covers(slo, shi, top, b, b));
            }
        }
    }
}

/// After the top range is put in order in place, only the ranges below it stay pending.
proof fn lemma_stack_settle(f: Seq<u32>, f2: Seq<u32>, e: Seq<u32>, slo: Seq<i32>, shi: Seq<i32>, loSt: int, hiSt: int)
    requires
        slo.len() == shi.len() > 0,
        0 <= loSt <= slo.last(),
        shi.last() <= hiSt,
        stack_sorted(f, e, slo, shi, loSt, hiSt),
        stack_disjoint(slo, shi),
        sorted_keys(f2, e, slo.last() as int, shi.last() as int),
        from_range(f2, f, slo.last() as int, shi.last() as int),
        forall|k: int| loSt <= k <= hiSt && !(slo.last() <= k <= shi.last()) ==> f2[k] == f[k],
    ensures
        stack_sorted(f2, e, slo.drop_last(), shi.drop_last(), loSt, hiSt),
        stack_disjoint(slo.drop_last(), shi.drop_last()),
{
    reveal(from_range);
    let lo = slo.last() as int;
    let hi = shi.last() as int;
    let top = slo.len() - 1;
    let blo = slo.drop_last();
    let bhi = shi.drop_last();
    let w = choose|w: Seq<int>| #[trigger] came_from(f2, f, lo, hi, w);
    assert forall|a: int, b: int| loSt <= a <= b <= hiSt && !pending(blo, bhi, a, b)
        implies #[trigger] key_at(f2, e, a) <= #[trigger] key_at(f2, e, b) by {
        if lo <= a <= hi && lo <= b <= hi {
        } else if lo <= a <= hi {
            let a2 = w[a];
            assert(lo <= a2 <= hi && f[a2] == f2[a]);
            lemma_not_pending_across(slo, shi, a2, b);
            assert(key_at(f, e, a2) <= key_at(f, e, b));
        } else if lo <= b <= hi {
            let b2 = w[b];
            assert(lo <= b2 <= hi && f[b2] == f2[b]);
            lemma_not_pending_across(slo, shi, a, b2);
            assert(key_at(f, e, a) <= key_at(f, e, b2));
        } else {
            assert forall|q: int| !#[trigger] covers(slo, shi, q, a, b) by {
                if 0 <= q < top {
                    assert(!covers(blo, bhi, q, a, b));
                }
            }
            assert(key_at(f, e, a) <= key_at(f, e, b));
        }
    }
    assert forall|q1: int, q2: int, x: int| q1 != q2 && #[trigger] covers(blo, bhi, q1, x, x)
        implies !#[trigger] covers(blo, bhi, q2, x, x) by {
        assert(covers(slo, shi, q1, x, x));
        if covers(blo, bhi, q2, x, x) {
            assert(covers(slo, shi, q2, x, x));
        }
    }
}

/// After the top range is split three ways by a pivot key, the ranges of smaller and of
/// greater keys take its place on the stack.
proof fn lemma_stack_split(
    f: Seq<u32>,
    f2: Seq<u32>,
    e: Seq<u32>,
    slo: Seq<i32>,
    shi: Seq<i32>,
    nlo: Seq<i32>,
    nhi: Seq<i32>,
    loSt: int,
    hiSt: int,
    nn: int,
    mm: int,
    med: u32,
)
    requires
        slo.len() == shi.len() > 0,
        0 <= loSt <= slo.last(),
        shi.last() <= hiSt,
        stack_sorted(f, e, slo, shi, loSt, hiSt),
        stack_disjoint(slo, shi),
        from_range(f2, f, slo.last() as int, shi.last() as int),
        forall|k: int| loSt <= k <= hiSt && !(slo.last() <= k <= shi.last()) ==> f2[k] == f[k],
        slo.last() - 1 <= nn < mm <= shi.last() + 1,
        forall|k: int| slo.last() <= k <= nn ==> #[trigger] key_at(f2, e, k) < med,
        forall|k: int| nn < k < mm ==> #[trigger] key_at(f2, e, k) == med,
        forall|k: int| mm <= k <= shi.last() ==> #[trigger] key_at(f2, e, k) > med,
        nlo.len() == nhi.len() == slo.len() + 1,
        forall|q: int| 0 <= q < slo.len() - 1 ==> nlo[q] == slo[q] && nhi[q] == shi[q],
        (nlo[slo.len() - 1] == slo.last() && nhi[slo.len() - 1] == nn && nlo[slo.len() as int] == mm && nhi[slo.len() as int] == shi.last())
            || (nlo[slo.len() as int] == slo.last() && nhi[slo.len() as int] == nn && nlo[slo.len() - 1] == mm && nhi[slo.len() - 1] == shi.last()),
    ensures
        stack_sorted(f2, e, nlo, nhi, loSt, hiSt),
        stack_disjoint(nlo, nhi),
{
    reveal(from_range);
    let lo = slo.last() as int;
    let hi = shi.last() as int;
    let top = slo.len() - 1;
    let w = choose|w: Seq<int>| #[trigger] came_from(f2, f, lo, hi, w);
    let ql: int = if nlo[top] == lo && nhi[top] == nn { top } else { top + 1 };
    let qg: int = if ql == top { top + 1 } else { top };
    assert(nlo[ql] == lo && nhi[ql] == nn && nlo[qg] == mm && nhi[qg] == hi);
    assert forall|a: int, b: int| loSt <= a <= b <= hiSt && !pending(nlo, nhi, a, b)
        implies #[trigger] key_at(f2, e, a) <= #[trigger] key_at(f2, e, b) by {
        if lo <= a <= hi && lo <= b <= hi {
            if a <= nn && b <= nn {
                assert(covers(nlo, nhi, ql, a, b));
            } else if a >= mm && b >= mm {
                assert(covers(nlo, nhi, qg, a, b));
            }
        } else if lo <= a <= hi {
            let a2 = w[a];
            assert(lo <= a2 <= hi && f[a2] == f2[a]);
            lemma_not_pending_across(slo, shi, a2, b);
            assert(key_at(f, e, a2) <= key_at(f, e, b));
        } else if lo <= b <= hi {
            let b2 = w[b];
            assert(lo <= b2 <= hi && f[b2] == f2[b]);
            lemma_not_pending_across(slo, shi, a, b2);
            assert(key_at(f, e, a) <= key_at(f, e, b2));
        } else {
            assert forall|q: int| !#[trigger] covers(slo, shi, q, a, b) by {
                if 0 <= q < top {
                    assert(!covers(nlo, nhi, q, a, b));
                }
            }
            assert(key_at(f, e, a) <= key_at(f, e, b));
        }
    }
    assert forall|q1: int, q2: int, x: int| q1 != q2 && #[trigger] covers(nlo, nhi, q1, x, x)
        implies !#[trigger] covers(nlo, nhi, q2, x, x) by {
        if covers(nlo, nhi, q2, x, x) {
            if q1 < top && q2 < top {
                assert(covers(slo, shi, q1, x, x));
                assert(covers(slo, shi, q2, x, x));
            } else if q1 < top {
                assert(covers(slo, shi, q1, x, x));
                assert(covers(slo, shi, top, x, x));
            } else if q2 < top {
                assert(covers(slo, shi, q2, x, x));
                assert(covers(slo, shi, top, x, x));
            }
        }
    }
}

/// Where the two block swaps that follow a three-way split leave the keys: smaller ones
/// first, then those equal to the pivot, then greater ones.
proof fn lemma_three_way(
    f0: Seq<u32>,
    f1: Seq<u32>,
    f2: Seq<u32>,
    e: Seq<u32>,
    lo: int,
    hi: int,
    ltLo: int,
    unLo: int,
    unHi: int,
    gtHi: int,
    n1: int,
    m1: int,
    med: u32,
)
    requires
        0 <= lo <= ltLo <= unLo,
        unLo == unHi + 1,
        unHi <= gtHi <= hi,
        forall|k: int| lo <= k < ltLo ==> #[trigger] key_at(f0, e, k) == med,
        forall|k: int| ltLo <= k < unLo ==> #[trigger] key_at(f0, e, k) < med,
        forall|k: int| unHi < k <= gtHi ==> #[trigger] key_at(f0, e, k) > med,
        forall|k: int| gtHi < k <= hi ==> #[trigger] key_at(f0, e, k) == med,
        n1 == (if ltLo - lo < unLo - ltLo { ltLo - lo } else { unLo - ltLo }),
        m1 == (if hi - gtHi < gtHi - unHi { hi - gtHi } else { gtHi - unHi }),
        forall|k: int| lo <= k < lo + n1 ==> #[trigger] f1[k] == f0[k - lo + (unLo - n1)],
        forall|k: int| unLo - n1 <= k < unLo ==> #[trigger] f1[k] == f0[k - (unLo - n1) + lo],
        forall|k: int| lo <= k <= hi && !(lo <= k < lo + n1) && !(unLo - n1 <= k < unLo) ==> #[trigger] f1[k] == f0[k],
        forall|k: int| unLo <= k < unLo + m1 ==> #[trigger] f2[k] == f1[k - unLo + (hi - m1 + 1)],
        forall|k: int| hi - m1 + 1 <= k < hi + 1 ==> #[trigger] f2[k] == f1[k - (hi - m1 + 1) + unLo],
        forall|k: int| lo <= k <= hi && !(unLo <= k < unLo + m1) && !(hi - m1 + 1 <= k < hi + 1) ==> #[trigger] f2[k] == f1[k],
    ensures
        forall|k: int| lo <= k <= lo + unLo - ltLo - 1 ==> #[trigger] key_at(f2, e, k) < med,
        forall|k: int| lo + unLo - ltLo - 1 < k < hi - (gtHi - unHi) + 1 ==> #[trigger] key_at(f2, e, k) == med,
        forall|k: int| hi - (gtHi - unHi) + 1 <= k <= hi ==> #[trigger] key_at(f2, e, k) > med,
{
    let nb = unLo - ltLo;
    let nc = gtHi - unHi;
    assert forall|k: int| lo <= k < unLo implies
        (if k < lo + nb { #[trigger] key_at(f1, e, k) < med } else { key_at(f1, e, k) == med }) by {
        if k < lo + n1 {
            assert(f1[k] == f0[k - lo + (unLo - n1)]);
            assert(key_at(f1, e, k) == key_at(f0, e, k - lo + (unLo - n1)));
        } else if unLo - n1 <= k {
            assert(f1[k] == f0[k - (unLo - n1) + lo]);
            assert(key_at(f1, e, k) == key_at(f0, e, k - (unLo - n1) + lo));
        } else {
            assert(f1[k] == f0[k]);
            assert(key_at(f1, e, k) == key_at(f0, e, k));
        }
    }
    assert forall|k: int| unLo <= k <= hi implies
        (if k <= gtHi { #[trigger] key_at(f1, e, k) > med } else { key_at(f1, e, k) == med }) by {
        assert(f1[k] == f0[k]);
        assert(key_at(f1, e, k) == key_at(f0, e, k));
    }
    assert forall|k: int| lo <= k <= hi implies
        (if k < lo + nb { #[trigger] key_at(f2, e, k) < med } else if k <= hi - nc { key_at(f2, e, k) == med } else { key_at(f2, e, k) > med }) by {
        if k < unLo {
            assert(f2[k] == f1[k]);
            assert(key_at(f2, e, k) == key_at(f1, e, k));
        } else if k < unLo + m1 {
            let j = k - unLo + (hi - m1 + 1);
            assert(f2[k] == f1[j]);
            assert(key_at(f2, e, k) == key_at(f1, e, j));
        } else if hi - m1 + 1 <= k {
            let j = k - (hi - m1 + 1) + unLo;
            assert(f2[k] == f1[j]);
            assert(key_at(f2, e, k) == key_at(f1, e, j));
        } else {
            assert(f2[k] == f1[k]);
            assert(key_at(f2, e, k) == key_at(f1, e, k));
        }
    }
}

/// Three-way quicksort of `fmap[loSt ..= hiSt]` by `eclass`, with a pseudo-random pivot
/// (`fallbackQSort3`).
#[verifier::spinoff_prover]
#[verifier::rlimit(90)]
fn fallbackQSort3(fmap: &mut Vec<u32>, eclass: &Vec<u32>, loSt: i32, hiSt: i32, Ghost(n): Ghost<int>, Ghost(inv): Ghost<Seq<int>>, Ghost(track): Ghost<bool>) -> (inv2: Ghost<Seq<int>>)
    requires
        track ==> perm_inv(old(fmap)@, n, inv) && hiSt < n,
        keys_in(old(fmap)@, eclass@.len() as int, loSt as int, hiSt as int),
        0 <= loSt <= hiSt + 1,
        hiSt < old(fmap)@.len(),
        hiSt < 0x3fff_0000,
    ensures
        track ==> perm_inv(final(fmap)@, n, inv2@),
        final(fmap)@.len() == old(fmap)@.len(),
        forall|k: int| 0 <= k < final(fmap)@.len() && !(loSt <= k <= hiSt) ==> final(fmap)@[k] == old(fmap)@[k],
        sorted_keys(final(fmap)@, eclass@, loSt as int, hiSt as int),
{
    let ghost mut inv = inv;
    let mut stackLo: Vec<i32> = Vec::new();
    let mut stackHi: Vec<i32> = Vec::new();
    let mut r: u32 = 0;
    stackLo.push(loSt);
    stackHi.push(hiSt);
    proof {
        assert forall|a: int, b: int| loSt <= a <= b <= hiSt && !pending(stackLo@, stackHi@, a, b)
            implies #[trigger] key_at(fmap@, eclass@, a) <= #[trigger] key_at(fmap@, eclass@, b) by {
            assert(covers(stackLo@, stackHi@, 0, a, b));
        }
    }

    while stackLo.len() > 0
        invariant
            track ==> perm_inv(fmap@, n, inv),
            keys_in(fmap@, eclass@.len() as int, loSt as int, hiSt as int),
            0 <= loSt <= hiSt + 1,
            hiSt < fmap@.len(),
            hiSt < 0x3fff_0000,
            track ==> hiSt < n,
            stackLo@.len() == stackHi@.len(),
            forall|q: int| 0 <= q < stackLo@.len() ==>
                loSt <= #[trigger] stackLo@[q] <= stackHi@[q] + 1 && stackHi@[q] <= hiSt,
            fmap@.len() == old(fmap)@.len(),
            forall|k: int| 0 <= k < fmap@.len() && !(loSt <= k <= hiSt) ==> fmap@[k] == old(fmap)@[k],
            stack_sorted(fmap@, eclass@, stackLo@, stackHi@, loSt as int, hiSt as int),
            stack_disjoint(stackLo@, stackHi@),
        decreases stack_measure(stackLo@, stackHi@),
    {
        let ghost m0 = stack_measure(stackLo@, stackHi@);
        let ghost slo = stackLo@;
        let ghost shi = stackHi@;
        let ghost f = fmap@;
        let lo = stackLo.pop().unwrap();
        let hi = stackHi.pop().unwrap();
        proof {
            assert(stackLo@ =~= slo.drop_last());
            assert(stackHi@ =~= shi.drop_last());
            assert(lo == slo.last());
            assert(hi == shi.last());
            lemma_stack_measure_nonneg(stackLo@, stackHi@);
            assert(loSt <= slo[slo.len() - 1] <= shi[shi.len() - 1] + 1);
        }

        if hi - lo < FALLBACK_QSORT_SMALL_THRESH {
            let g = fallbackSimpleSort(fmap, eclass, lo, hi, Ghost(n), Ghost(inv), Ghost(track));
            proof {
                inv = g@;
                lemma_keys_in_step(fmap@, f, eclass@.len() as int, lo as int, hi as int, loSt as int, hiSt as int);
                lemma_stack_settle(f, fmap@, eclass@, slo, shi, loSt as int, hiSt as int);
            }
            continue;
        }

        r = r.wrapping_mul(7621).wrapping_add(1) % 32768;
        let r3 = r % 3;
        let pivot_pos: i32 = if r3 == 0 { lo } else if r3 == 1 { (lo + hi) / 2 } else { hi };
        let med = eclass[fmap[pivot_pos as usize] as usize];
        let ghost mut pv: int = pivot_pos as int;

        let (ltLo, unLo, unHi, gtHi, g) = partition3(fmap, eclass, lo, hi, med, Ghost(pivot_pos as int), Ghost(n), Ghost(inv), Ghost(loSt as int), Ghost(hiSt as int), Ghost(track));
        proof {
            inv = g@;
            lemma_keys_in_step(fmap@, f, eclass@.len() as int, lo as int, hi as int, loSt as int, hiSt as int);
        }
        let ghost f0 = fmap@;

        if gtHi < ltLo {
            proof {
                assert forall|a: int, b: int| lo <= a <= b <= hi
                    implies #[trigger] key_at(fmap@, eclass@, a) <= #[trigger] key_at(fmap@, eclass@, b) by {
                    assert(key_at(fmap@, eclass@, a) == med);
                    assert(key_at(fmap@, eclass@, b) == med);
                }
                lemma_stack_settle(f, fmap@, eclass@, slo, shi, loSt as int, hiSt as int);
            }
            continue;
        }

        let n1 = if ltLo - lo < unLo - ltLo { ltLo - lo } else { unLo - ltLo };
        let g = fvswap(fmap, lo, unLo - n1, n1, Ghost(n), Ghost(inv), Ghost(lo as int), Ghost(hi as int), Ghost(track));
        proof { inv = g@; }
        let ghost f1 = fmap@;
        let m1 = if hi - gtHi < gtHi - unHi { hi - gtHi } else { gtHi - unHi };
        let g = fvswap(fmap, unLo, hi - m1 + 1, m1, Ghost(n), Ghost(inv), Ghost(lo as int), Ghost(hi as int), Ghost(track));
        proof { inv = g@; }

        let nn = lo + unLo - ltLo - 1;
        let mm = hi - (gtHi - unHi) + 1;
        proof {
            lemma_three_way(f0, f1, fmap@, eclass@, lo as int, hi as int, ltLo as int, unLo as int, unHi as int, gtHi as int,
                n1 as int, m1 as int, med);
            lemma_from_range_trans(f1, f0, f, lo as int, hi as int);
            lemma_from_range_trans(fmap@, f1, f, lo as int, hi as int);
            lemma_keys_in_step(fmap@, f, eclass@.len() as int, lo as int, hi as int, loSt as int, hiSt as int);
        }

        let ghost base_lo = stackLo@;
        let ghost base_hi = stackHi@;
        if nn - lo > hi - mm {
            stackLo.push(lo);
            stackHi.push(nn);
            stackLo.push(mm);
            stackHi.push(hi);
            proof {
                assert(stackLo@.drop_last() =~= base_lo.push(lo));
                assert(stackHi@.drop_last() =~= base_hi.push(nn));
                assert(base_lo.push(lo).drop_last() =~= base_lo);
                assert(base_hi.push(nn).drop_last() =~= base_hi);
                assert(stack_measure(base_lo.push(lo), base_hi.push(nn)) == stack_measure(base_lo, base_hi) + 1 + 2 * (unLo - ltLo));
                assert(stack_measure(stackLo@, stackHi@) == stack_measure(base_lo.push(lo), base_hi.push(nn)) + 1 + 2 * (gtHi - unHi));
            }
        } else {
            stackLo.push(mm);
            stackHi.push(hi);
            stackLo.push(lo);
            stackHi.push(nn);
            proof {
                assert(stackLo@.drop_last() =~= base_lo.push(mm));
                assert(stackHi@.drop_last() =~= base_hi.push(hi));
                assert(base_lo.push(mm).drop_last() =~= base_lo);
                assert(base_hi.push(hi).drop_last() =~= base_hi);
                assert(stack_measure(base_lo.push(mm), base_hi.push(hi)) == stack_measure(base_lo, base_hi) + 1 + 2 * (gtHi - unHi));
                assert(stack_measure(stackLo@, stackHi@) == stack_measure(base_lo.push(mm), base_hi.push(hi)) + 1 + 2 * (unLo - ltLo));
            }
        }
        proof {
            lemma_stack_split(f, fmap@, eclass@, slo, shi, stackLo@, stackHi@, loSt as int, hiSt as int, nn as int, mm as int, med);
        }
    }
    proof {
        assert forall|a: int, b: int| loSt <= a <= b <= hiSt
            implies #[trigger] key_at(fmap@, eclass@, a) <= #[trigger] key_at(fmap@, eclass@, b) by {
            assert(!pending(stackLo@, stackHi@, a, b));
        }
    }
    Ghost(inv)
}

} // verus!

verus! {

/// Bit `z` of the bucket-header bitmap.
pub open spec fn bit_set(b: Seq<u32>, z: int) -> bool {
    (b[z / 32] >> ((z % 32) as u32)) & 1u32 == 1u32
}

proof fn lemma_bit_index(z: usize)
    ensures
        z >> 5usize == z / 32,
        z & 31usize == z % 32,
{
    assert(z >> 5usize == z / 32) by (bit_vector);
    assert(z & 31usize == z % 32) by (bit_vector);
}

/// Whether bit `z` is set (`ISSET_BH`).
fn isset_bh(bhtab: &Vec<u32>, z: usize) -> (r: bool)
    requires
        z / 32 < bhtab@.len(),
    ensures
        r == bit_set(bhtab@, z as int),
{
    proof { lemma_bit_index(z); }
    let w = bhtab[z >> 5];
    let sh = (z & 31) as u32;
    (w >> sh) & 1 == 1
}

/// Sets bit `z` (`SET_BH`).
fn set_bh(bhtab: &mut Vec<u32>, z: usize)
    requires
        z / 32 < old(bhtab)@.len(),
    ensures
        final(bhtab)@.len() == old(bhtab)@.len(),
        bit_set(final(bhtab)@, z as int),
        forall|y: int| 0 <= y < 32 * old(bhtab)@.len() && y != z ==> bit_set(final(bhtab)@, y) == bit_set(old(bhtab)@, y),
{
    proof { lemma_bit_index(z); }
    let idx = z >> 5;
    let sh = (z & 31) as u32;
    let w = bhtab[idx];
    let nw = w | (1u32 << sh);
    bhtab.set(idx, nw);
    proof {
        assert(sh < 32 ==> (nw >> sh) & 1u32 == 1u32) by (bit_vector) requires nw == w | (1u32 << sh);
        assert forall|y: int| 0 <= y < 32 * old(bhtab)@.len() && y != z implies bit_set(bhtab@, y) == bit_set(old(bhtab)@, y) by {
            if y / 32 == z / 32 {
                let ys = (y % 32) as u32;
                assert(ys != sh);
                assert(ys < 32 && sh < 32 && ys != sh ==> (nw >> ys) & 1u32 == (w >> ys) & 1u32) by (bit_vector)
                    requires nw == w | (1u32 << sh);
            }
        }
    }
}

/// Clears bit `z` (`CLEAR_BH`).
fn clear_bh(bhtab: &mut Vec<u32>, z: usize)
    requires
        z / 32 < old(bhtab)@.len(),
    ensures
        final(bhtab)@.len() == old(bhtab)@.len(),
        !bit_set(final(bhtab)@, z as int),
        forall|y: int| 0 <= y < 32 * old(bhtab)@.len() && y != z ==> bit_set(final(bhtab)@, y) == bit_set(old(bhtab)@, y),
{
    proof { lemma_bit_index(z); }
    let idx = z >> 5;
    let sh = (z & 31) as u32;
    let w = bhtab[idx];
    let nw = w & !(1u32 << sh);
    bhtab.set(idx, nw);
    proof {
        assert(sh < 32 ==> (nw >> sh) & 1u32 == 0u32) by (bit_vector) requires nw == w & !(1u32 << sh);
        assert forall|y: int| 0 <= y < 32 * old(bhtab)@.len() && y != z implies bit_set(bhtab@, y) == bit_set(old(bhtab)@, y) by {
            if y / 32 == z / 32 {
                let ys = (y % 32) as u32;
                assert(ys != sh);
                assert(ys < 32 && sh < 32 && ys != sh ==> (nw >> ys) & 1u32 == (w >> ys) & 1u32) by (bit_vector)
                    requires nw == w & !(1u32 << sh);
            }
        }
    }
}

/// How many of `s[0 .. hi]` equal `b`.
pub open spec fn cnt(s: Seq<u8>, b: int, hi: int) -> nat
    decreases hi,
{
    if hi <= 0 {
        0
    } else {
        cnt(s, b, hi - 1) + (if s[hi - 1] as int == b { 1nat } else { 0nat })
    }
}

/// How many of `s[0 .. hi]` are at most `b`.
pub open spec fn cum(s: Seq<u8>, hi: int, b: int) -> nat
    decreases hi,
{
    if hi <= 0 {
        0
    } else {
        cum(s, hi - 1, b) + (if s[hi - 1] as int <= b { 1nat } else { 0nat })
    }
}

pub proof fn lemma_cum_step(s: Seq<u8>, hi: int, b: int)
    requires
        0 <= hi,
    ensures
        cum(s, hi, b) == cum(s, hi, b - 1) + cnt(s, b, hi),
    decreases hi,
{
    if hi > 0 {
        lemma_cum_step(s, hi - 1, b);
    }
}

pub proof fn lemma_cum_mono(s: Seq<u8>, hi: int, b1: int, b2: int)
    requires
        0 <= hi,
        b1 <= b2,
    ensures
        cum(s, hi, b1) <= cum(s, hi, b2),
    decreases hi,
{
    if hi > 0 {
        lemma_cum_mono(s, hi - 1, b1, b2);
    }
}

pub proof fn lemma_cum_bounds(s: Seq<u8>, hi: int, b: int)
    requires
        0 <= hi,
    ensures
        cum(s, hi, b) <= hi,
        b < 0 ==> cum(s, hi, b) == 0,
        b >= 255 ==> cum(s, hi, b) == hi,
    decreases hi,
{
    if hi > 0 {
        lemma_cum_bounds(s, hi - 1, b);
    }
}

pub proof fn lemma_cnt_mono(s: Seq<u8>, b: int, h1: int, h2: int)
    requires
        0 <= h1 <= h2,
    ensures
        cnt(s, b, h1) <= cnt(s, b, h2),
    decreases h2 - h1,
{
    if h1 < h2 {
        lemma_cnt_mono(s, b, h1, h2 - 1);
    }
}

/// Sorts `0 .. nblock` by the first byte of each rotation (a counting sort), giving the
/// first bucket boundaries. On return `fmap[0 .. nblock]` is a permutation, and for each
/// byte value `b`, `ftab[b]` is where the bucket of rotations starting with `b` begins.
fn initial_bucket_sort(fmap: &mut Vec<u32>, block: &Vec<u8>, nblock: usize) -> (res: (Vec<u32>, Ghost<Seq<int>>))
    requires
        1 <= nblock <= old(fmap)@.len(),
        nblock <= block@.len(),
        nblock <= 0x3fff_0000,
    ensures
        perm_inv(final(fmap)@, nblock as int, res.1@),
        final(fmap)@.len() == old(fmap)@.len(),
        res.0@.len() == 257,
        forall|b: int| 0 <= b < 256 ==> #[trigger] res.0@[b] == cum(block@, nblock as int, b - 1),
{
    let ghost s = block@;
    let ghost n = nblock as int;
    let mut ftab: Vec<u32> = vec![0u32; 257];
    let mut i: usize = 0;
    while i < nblock
        invariant
            i <= nblock <= block@.len(),
            s == block@,
            nblock <= 0x3fff_0000,
            ftab@.len() == 257,
            ftab@[256] == 0,
            forall|b: int| 0 <= b < 256 ==> #[trigger] ftab@[b] == cnt(s, b, i as int),
        decreases nblock - i,
    {
        let e = block[i] as usize;
        proof {
            lemma_cnt_mono(s, e as int, i as int, i as int);
            assert(cnt(s, e as int, i as int) <= i) by {
                lemma_cum_step(s, i as int, e as int);
                lemma_cum_bounds(s, i as int, e as int);
            }
        }
        ftab.set(e, ftab[e] + 1);
        i = i + 1;
    }
    let mut b: usize = 1;
    proof {
        lemma_cum_step(s, n, 0);
        lemma_cum_bounds(s, n, -1);
    }
    while b < 257
        invariant
            1 <= b <= 257,
            s == block@,
            n == nblock,
            nblock <= block@.len(),
            nblock <= 0x3fff_0000,
            ftab@.len() == 257,
            forall|c: int| 0 <= c < b && c < 256 ==> #[trigger] ftab@[c] == cum(s, n, c),
            b <= 256 ==> ftab@[256] == 0,
            b == 257 ==> ftab@[256] == n,
            forall|c: int| b <= c < 256 ==> #[trigger] ftab@[c] == cnt(s, c, n),
        decreases 257 - b,
    {
        proof {
            if b < 256 {
                lemma_cum_step(s, n, b as int);
            }
            lemma_cum_bounds(s, n, b as int);
            lemma_cum_bounds(s, n, b as int - 1);
            lemma_cum_bounds(s, n, 255);
        }
        ftab.set(b, ftab[b] + ftab[b - 1]);
        b = b + 1;
    }

    let mut z: usize = 0;
    while z < nblock
        invariant
            z <= nblock <= fmap@.len(),
            fmap@.len() == old(fmap)@.len(),
            forall|p: int| 0 <= p < z ==> fmap@[p] == 0,
        decreases nblock - z,
    {
        fmap.set(z, 0);
        z = z + 1;
    }

    let ghost mut inv: Seq<int> = Seq::new(nblock as nat, |v: int| 0int);
    let mut i: usize = 0;
    while i < nblock
        invariant
            i <= nblock <= fmap@.len(),
            nblock <= block@.len(),
            nblock <= 0x3fff_0000,
            s == block@,
            n == nblock,
            fmap@.len() == old(fmap)@.len(),
            ftab@.len() == 257,
            inv.len() == n,
            forall|c: int| 0 <= c < 256 ==> #[trigger] ftab@[c] == cum(s, n, c) - cnt(s, c, i as int),
            forall|p: int| 0 <= p < n ==> (#[trigger] fmap@[p] as int) < n,
            forall|v: int| 0 <= v < i ==>
                cum(s, n, s[v] as int) - cnt(s, s[v] as int, i as int) <= #[trigger] inv[v] < cum(s, n, s[v] as int)
                && cum(s, n, s[v] as int - 1) <= inv[v]
                && fmap@[inv[v]] as int == v,
        decreases nblock - i,
    {
        let e = block[i] as usize;
        proof {
            lemma_cnt_mono(s, e as int, i as int + 1, n);
            lemma_cum_step(s, n, e as int);
            lemma_cum_bounds(s, n, e as int);
        }
        let k = ftab[e] - 1;
        ftab.set(e, k);
        let ghost fmap_before = fmap@;
        let ghost inv_before = inv;
        fmap.set(k as usize, i as u32);
        proof {
            let ki = k as int;
            assert(fmap@ == fmap_before.update(ki, i as u32));
            assert forall|v: int| 0 <= v < i implies inv[v] != ki by {
                let bv = s[v] as int;
                if bv == e as int {
                } else if bv < e as int {
                    lemma_cum_mono(s, n, bv, e as int - 1);
                } else {
                    lemma_cum_mono(s, n, e as int, bv - 1);
                }
            }
            inv = inv.update(i as int, ki);
            assert forall|v: int| 0 <= v < i + 1 implies
                cum(s, n, s[v] as int) - cnt(s, s[v] as int, i + 1) <= #[trigger] inv[v] < cum(s, n, s[v] as int)
                && cum(s, n, s[v] as int - 1) <= inv[v]
                && fmap@[inv[v]] as int == v by {
                if v < i {
                    lemma_cnt_mono(s, s[v] as int, i as int, i as int + 1);
                    lemma_cum_bounds(s, n, s[v] as int);
                    assert(cum(s, n, s[v] as int) - cnt(s, s[v] as int, i + 1) <= inv[v]);
                    assert(inv[v] < cum(s, n, s[v] as int));
                    assert(cum(s, n, s[v] as int - 1) <= inv[v]);
                    assert(inv[v] == inv_before[v]);
                    assert(inv_before[v] != ki);
                    assert(fmap_before[inv_before[v]] as int == v);
                    assert(fmap@[inv_before[v]] == fmap_before[inv_before[v]]);
                } else {
                    assert(s[i as int] as int == e as int);
                    assert(cnt(s, e as int, i as int + 1) == cnt(s, e as int, i as int) + 1);
                    assert(inv[v] == ki);
                }
            }
        }
        i = i + 1;
    }
    proof {
        assert forall|c: int| 0 <= c < 256 implies #[trigger] ftab@[c] == cum(s, n, c - 1) by {
            lemma_cum_step(s, n, c);
        }
        assert forall|v: int| 0 <= v < n implies 0 <= #[trigger] inv[v] < n && fmap@[inv[v]] as int == v by {
            lemma_cum_bounds(s, n, s[v] as int);
            lemma_cum_bounds(s, n, s[v] as int - 1);
        }
    }
    (ftab, Ghost(inv))
}

} // verus!

verus! {

/// Length of the table used for the bucket-header bitmap (`ftab` in the compressor).
pub const FTAB_LEN: usize = 65537;

/// Finds the next bucket `[l, r]` of two or more entries, starting after `r`.
/// Returns `None` once the block is exhausted.
fn next_bucket(bhtab: &Vec<u32>, r: i64, nblock: usize) -> (res: Option<(i64, i64)>)
    requires
        bhtab@.len() == FTAB_LEN,
        1 <= nblock <= 1_000_000,
        -1 <= r < nblock,
        bit_set(bhtab@, 0),
    ensures
        res matches Some((l, r2)) ==> 0 <= l < r2 + 1 && r < l + 1 && l < r2 + 1 && r2 < nblock && r < r2,
        res matches Some((l, r2)) ==> bucket_at(bhtab@, r as int, l as int, r2 as int, nblock as int),
        res is None ==> forall|l: int, r2: int| !#[trigger] bucket_at(bhtab@, r as int, l, r2, nblock as int),
{
    let limit: usize = nblock + 64;
    let mut k: usize = (r + 1) as usize;
    while k < limit && isset_bh(bhtab, k) && k % 32 != 0
        invariant
            r + 1 <= k <= limit,
            limit == nblock + 64,
            bhtab@.len() == FTAB_LEN,
            nblock <= 1_000_000,
            forall|j: int| r < j < k ==> bit_set(bhtab@, j),
        decreases limit - k,
    {
        k = k + 1;
    }
    if k < limit && isset_bh(bhtab, k) {
        while k + 32 <= limit && bhtab[k / 32] == 0xffff_ffffu32
            invariant
                r + 1 <= k <= limit,
                limit == nblock + 64,
                bhtab@.len() == FTAB_LEN,
                nblock <= 1_000_000,
                forall|j: int| r < j < k ==> bit_set(bhtab@, j),
                k % 32 == 0,
            decreases limit - k,
        {
            proof { lemma_word_bits(bhtab@, k as int, 0xffff_ffffu32); }
            k = k + 32;
        }
        while k < limit && isset_bh(bhtab, k)
            invariant
                r + 1 <= k <= limit,
                limit == nblock + 64,
                bhtab@.len() == FTAB_LEN,
                nblock <= 1_000_000,
                bit_set(bhtab@, 0),
                forall|j: int| r < j < k ==> bit_set(bhtab@, j),
            decreases limit - k,
        {
            k = k + 1;
        }
    }
    let l: i64 = k as i64 - 1;
    if l >= nblock as i64 {
        proof {
            assert forall|l2: int, r3: int| !#[trigger] bucket_at(bhtab@, r as int, l2, r3, nblock as int) by {
                if bucket_at(bhtab@, r as int, l2, r3, nblock as int) {
                    assert(bit_set(bhtab@, l2 + 1));
                }
            }
        }
        return None;
    }
    let ghost k1 = k;
    assert(!bit_set(bhtab@, k1 as int));
    assert(l >= 0);
    while k < limit && !isset_bh(bhtab, k) && k % 32 != 0
        invariant
            k1 <= k <= limit,
            k1 < limit,
            !bit_set(bhtab@, k1 as int),
            limit == nblock + 64,
            bhtab@.len() == FTAB_LEN,
            nblock <= 1_000_000,
            forall|j: int| k1 <= j < k ==> !bit_set(bhtab@, j),
        decreases limit - k,
    {
        k = k + 1;
    }
    if k < limit && !isset_bh(bhtab, k) {
        while k + 32 <= limit && bhtab[k / 32] == 0u32
            invariant
                k1 <= k <= limit,
                k == k1 || k > k1,
                limit == nblock + 64,
                bhtab@.len() == FTAB_LEN,
                nblock <= 1_000_000,
                forall|j: int| k1 <= j < k ==> !bit_set(bhtab@, j),
                k % 32 == 0,
            decreases limit - k,
        {
            proof { lemma_word_bits(bhtab@, k as int, 0u32); }
            k = k + 32;
        }
        while k < limit && !isset_bh(bhtab, k)
            invariant
                k1 <= k <= limit,
                k1 < limit,
                !bit_set(bhtab@, k1 as int),
                limit == nblock + 64,
                bhtab@.len() == FTAB_LEN,
                nblock <= 1_000_000,
                forall|j: int| k1 <= j < k ==> !bit_set(bhtab@, j),
            decreases limit - k,
        {
            k = k + 1;
        }
    }
    let r2: i64 = k as i64 - 1;
    if r2 >= nblock as i64 {
        proof {
            assert forall|l2: int, r3: int| !#[trigger] bucket_at(bhtab@, r as int, l2, r3, nblock as int) by {
                if bucket_at(bhtab@, r as int, l2, r3, nblock as int) {
                    if l2 + 1 < k1 {
                        assert(bit_set(bhtab@, l2 + 1));
                    } else if l2 + 1 > k1 {
                        assert(!bit_set(bhtab@, k1 as int));
                    } else {
                        assert(!bit_set(bhtab@, r3 + 1));
                    }
                }
            }
        }
        return None;
    }
    Some((l, r2))
}

/// `[l, r2]`, below `nblock`, is the first bucket after `r`: the bits after `r` up to `l`
/// are set, those from `l + 1` to `r2` clear, and the one after `r2` set.
pub open spec fn bucket_at(b: Seq<u32>, r: int, l: int, r2: int, nblock: int) -> bool {
    &&& r <= l < r2 < nblock
    &&& forall|k: int| r < k <= l ==> bit_set(b, k)
    &&& forall|k: int| l < k <= r2 ==> !bit_set(b, k)
    &&& bit_set(b, r2 + 1)
}

/// All 32 bits of the word `k / 32`, for `k` at a word start, are set if the word is all
/// ones and clear if it is zero.
proof fn lemma_word_bits(b: Seq<u32>, k: int, w: u32)
    requires
        0 <= k,
        k % 32 == 0,
        k / 32 < b.len(),
        b[k / 32] == w,
        w == 0xffff_ffffu32 || w == 0u32,
    ensures
        forall|j: int| k <= j < k + 32 ==> bit_set(b, j) == (w == 0xffff_ffffu32),
{
    assert forall|j: int| k <= j < k + 32 implies bit_set(b, j) == (w == 0xffff_ffffu32) by {
        assert(j / 32 == k / 32);
        let sh = (j % 32) as u32;
        assert(sh < 32);
        assert((0xffff_ffffu32 >> sh) & 1u32 == 1u32 && (0u32 >> sh) & 1u32 == 0u32) by (bit_vector) requires sh < 32;
    }
}

} // verus!

verus! {

/// Sorts the rotations of `block[0 .. nblock]` (`fallbackSort`): on return `fmap[i]` is the
/// start of the `i`-th rotation in sorted order. `eclass` and `bhtab` are working space.
pub fn fallbackSort(
    fmap: &mut Vec<u32>,
    eclass: &mut Vec<u32>,
    bhtab: &mut Vec<u32>,
    block: &Vec<u8>,
    nblock: usize,
) -> (inv: Ghost<Seq<int>>)
    requires
        1 <= nblock <= 1_000_000,
        nblock <= old(fmap)@.len(),
        nblock <= old(eclass)@.len(),
        nblock <= block@.len(),
        old(bhtab)@.len() == FTAB_LEN,
    ensures
        perm_inv(final(fmap)@, nblock as int, inv@),
        final(fmap)@.len() == old(fmap)@.len(),
        final(eclass)@.len() == old(eclass)@.len(),
        final(bhtab)@.len() == old(bhtab)@.len(),
{
    let ghost n = nblock as int;
    let (ftab, g) = initial_bucket_sort(fmap, block, nblock);
    let ghost mut inv = g@;

    let mut z: usize = 0;
    while z < 2 + nblock / 32
        invariant
            z <= 2 + nblock / 32,
            nblock <= 1_000_000,
            bhtab@.len() == FTAB_LEN,
        decreases 2 + nblock / 32 - z,
    {
        bhtab.set(z, 0);
        z = z + 1;
    }
    let mut b: usize = 0;
    while b < 256
        invariant
            b <= 256,
            1 <= nblock <= 1_000_000,
            nblock <= block@.len(),
            bhtab@.len() == FTAB_LEN,
            ftab@.len() == 257,
            forall|c: int| 0 <= c < 256 ==> #[trigger] ftab@[c] == cum(block@, nblock as int, c - 1),
            b > 0 ==> bit_set(bhtab@, 0),
        decreases 256 - b,
    {
        proof {
            lemma_cum_bounds(block@, nblock as int, b as int - 1);
        }
        set_bh(bhtab, ftab[b] as usize);
        b = b + 1;
    }
    let mut q: usize = 0;
    while q < 32
        invariant
            q <= 32,
            1 <= nblock <= 1_000_000,
            bhtab@.len() == FTAB_LEN,
            bit_set(bhtab@, 0),
        decreases 32 - q,
    {
        set_bh(bhtab, nblock + 2 * q);
        clear_bh(bhtab, nblock + 2 * q + 1);
        q = q + 1;
    }

    let mut H: usize = 1;
    loop
        invariant_except_break
            1 <= H <= nblock,
        invariant
            1 <= nblock <= 1_000_000,
            n == nblock,
            nblock <= fmap@.len(),
            nblock <= eclass@.len(),
            perm_inv(fmap@, n, inv),
            fmap@.len() == old(fmap)@.len(),
            eclass@.len() == old(eclass)@.len(),
            bhtab@.len() == FTAB_LEN,
            bit_set(bhtab@, 0),
        decreases 2 * nblock + 2 - H,
    {
        let mut j: usize = 0;
        let mut i: usize = 0;
        while i < nblock
            invariant
                i <= nblock,
                j < nblock,
                1 <= H <= nblock,
                nblock <= eclass@.len(),
                nblock <= 1_000_000,
                perm_inv(fmap@, n, inv),
                n == nblock,
                eclass@.len() == old(eclass)@.len(),
                bhtab@.len() == FTAB_LEN,
            decreases nblock - i,
        {
            if isset_bh(bhtab, i) {
                j = i;
            }
            let mut k: i64 = fmap[i] as i64 - H as i64;
            if k < 0 {
                k = k + nblock as i64;
            }
            eclass.set(k as usize, j as u32);
            i = i + 1;
        }

        let mut not_done = false;
        let mut r: i64 = -1;
        loop
            invariant
                -1 <= r < nblock,
                1 <= nblock <= 1_000_000,
                n == nblock,
                1 <= H <= nblock,
                nblock <= fmap@.len(),
                nblock <= eclass@.len(),
                perm_inv(fmap@, n, inv),
                fmap@.len() == old(fmap)@.len(),
                eclass@.len() == old(eclass)@.len(),
                bhtab@.len() == FTAB_LEN,
                bit_set(bhtab@, 0),
            decreases nblock - r,
        {
            let Some((l, rr)) = next_bucket(bhtab, r, nblock) else {
                break;
            };
            r = rr;
            if r > l {
                not_done = true;
                let g = fallbackQSort3(fmap, eclass, l as i32, r as i32, Ghost(n), Ghost(inv), Ghost(true));
                proof { inv = g@; }
                let mut cc: i64 = -1;
                let mut i: i64 = l;
                while i <= r
                    invariant
                        l <= i <= r + 1,
                        0 <= l,
                        r < nblock,
                        1 <= nblock <= 1_000_000,
                        nblock <= eclass@.len(),
                        perm_inv(fmap@, n, inv),
                        n == nblock,
                        bhtab@.len() == FTAB_LEN,
                        bit_set(bhtab@, 0),
                    decreases r + 1 - i,
                {
                    let cc1 = eclass[fmap[i as usize] as usize] as i64;
                    if cc != cc1 {
                        set_bh(bhtab, i as usize);
                        cc = cc1;
                    }
                    i = i + 1;
                }
            }
        }

        H = H * 2;
        if H > nblock || !not_done {
            break;
        }
    }
    Ghost(inv)
}

} // verus!

verus! {

/// Ranges shorter than this are shell sorted by the main sort.
const MAIN_QSORT_SMALL_THRESH: i32 = 20;

/// Ranges compared this many bytes deep are shell sorted whatever their size.
const MAIN_QSORT_DEPTH_THRESH: i32 = 14;

/// The largest block, nine times 100000 bytes.
pub const MAX_BLOCK: i32 = 900000;

/// The most a single comparison of two rotations takes off the work budget.
const GTU_COST: i64 = 112502;

/// The most a single insertion of the shell sort takes off the budget.
const INSERT_COST: i64 = 101252_912502;

/// The most one pass of the shell sort takes off the budget.
const PASS_COST: i64 = 91_127_722_504_712_502;

/// Every entry of `ptr[0 .. n]` is a position of the block.
pub open spec fn in_range(ptr: Seq<u32>, n: int) -> bool {
    &&& n <= ptr.len()
    &&& forall|i: int| 0 <= i < n ==> (#[trigger] ptr[i] as int) < n
}

/// Swaps two entries of `ptr[0 .. n]`.
fn swap_in_range(ptr: &mut Vec<u32>, a: usize, b: usize, Ghost(n): Ghost<int>)
    requires
        in_range(old(ptr)@, n),
        a < n,
        b < n,
    ensures
        in_range(final(ptr)@, n),
        final(ptr)@ == old(ptr)@.update(a as int, old(ptr)@[b as int]).update(b as int, old(ptr)@[a as int]),
{
    let x = ptr[a];
    let y = ptr[b];
    ptr.set(a, y);
    ptr.set(b, x);
}

/// Whether the rotation starting at `i1` sorts after the one starting at `i2` (`mainGtU`):
/// the first twelve bytes decide, then bytes and their quadrant marks eight at a time,
/// each eight costing one unit of `budget`; after a whole turn round the block the two
/// count as equal, and not greater.
fn mainGtU(i1: u32, i2: u32, block: &Vec<u8>, quadrant: &Vec<u16>, nblock: u32, budget: &mut i64) -> (gt: bool)
    requires
        1 <= nblock <= MAX_BLOCK,
        i1 < nblock + 15,
        i2 < nblock + 15,
        nblock < 8 ==> i1 < nblock + 8 && i2 < nblock + 8,
        nblock + BZ_N_OVERSHOOT <= block@.len(),
        nblock + BZ_N_OVERSHOOT <= quadrant@.len(),
        *old(budget) >= -4_000_000_000_000_000_000,
    ensures
        *old(budget) - GTU_COST <= *final(budget) <= *old(budget),
        gt == gtu(block@, quadrant@, nblock as int, i1 as int, i2 as int),
        *final(budget) == *old(budget) - gtu_cost(block@, quadrant@, nblock as int, i1 as int, i2 as int),
        overshoot_ok(block@, nblock as int) && quadrant_flat(quadrant@, nblock as int) && i1 < nblock && i2 < nblock
            ==> gt == rot_gt(block@, nblock as int, i1 as int, i2 as int),
{
    proof {
        if overshoot_ok(block@, nblock as int) && quadrant_flat(quadrant@, nblock as int) && i1 < nblock && i2 < nblock {
            lemma_gtu_is_rotation_order(block@, quadrant@, nblock as int, i1 as int, i2 as int);
        }
    }
    let n = nblock as usize;
    let mut a = i1 as usize;
    let mut b = i2 as usize;
    let mut t: usize = 0;
    while t < 12
        invariant
            overshoot_ok(block@, nblock as int) && quadrant_flat(quadrant@, nblock as int) && i1 < nblock && i2 < nblock
                ==> gtu(block@, quadrant@, nblock as int, i1 as int, i2 as int) == rot_gt(block@, nblock as int, i1 as int, i2 as int),
            1 <= n <= MAX_BLOCK,
            t <= 12,
            a == i1 + t,
            b == i2 + t,
            i1 < n + 15,
            i2 < n + 15,
            n < 8 ==> i1 < n + 8 && i2 < n + 8,
            n == nblock,
            n + BZ_N_OVERSHOOT <= block@.len(),
            *budget == *old(budget),
            head_diff(block@, i1 as int, i2 as int, 0) == head_diff(block@, i1 as int, i2 as int, t as int),
        decreases 12 - t,
    {
        let c1 = block[a];
        let c2 = block[b];
        if c1 != c2 {
            return c1 > c2;
        }
        a = a + 1;
        b = b + 1;
        t = t + 1;
    }
    let ghost b0 = *budget;
    let mut k: i64 = nblock as i64 + 8;
    loop
        invariant
            overshoot_ok(block@, nblock as int) && quadrant_flat(quadrant@, nblock as int) && i1 < nblock && i2 < nblock
                ==> gtu(block@, quadrant@, nblock as int, i1 as int, i2 as int) == rot_gt(block@, nblock as int, i1 as int, i2 as int),
            1 <= n <= MAX_BLOCK,
            n == nblock,
            n >= 8 ==> a < n + 27 && b < n + 27,
            n < 8 ==> a < 28 && b < 28 && (k >= 8 ==> a < n + 20 && b < n + 20),
            n + BZ_N_OVERSHOOT <= block@.len(),
            n + BZ_N_OVERSHOOT <= quadrant@.len(),
            0 <= k <= n + 8,
            8 * (b0 - *budget) + k == n + 8,
            b0 == *old(budget),
            b0 >= -4_000_000_000_000_000_000,
            head_diff(block@, i1 as int, i2 as int, 0) is None,
            gtu(block@, quadrant@, n as int, i1 as int, i2 as int)
                == gtu_groups(block@, quadrant@, n as int, a as int, b as int, k as int),
            b0 - *budget + gtu_rounds(block@, quadrant@, n as int, a as int, b as int, k as int)
                == gtu_cost(block@, quadrant@, n as int, i1 as int, i2 as int),
        decreases k,
    {
        let mut t: usize = 0;
        let ghost a0 = a;
        let ghost b1 = b;
        while t < 8
            invariant
            overshoot_ok(block@, nblock as int) && quadrant_flat(quadrant@, nblock as int) && i1 < nblock && i2 < nblock
                ==> gtu(block@, quadrant@, nblock as int, i1 as int, i2 as int) == rot_gt(block@, nblock as int, i1 as int, i2 as int),
                t <= 8,
                a == a0 + t,
                b == b1 + t,
                a0 + 8 <= n + BZ_N_OVERSHOOT,
                b1 + 8 <= n + BZ_N_OVERSHOOT,
                n >= 8 ==> a0 < n + 27 && b1 < n + 27,
                n < 8 ==> a0 < 28 && b1 < 28 && (k >= 8 ==> a0 < n + 20 && b1 < n + 20),
                1 <= n,
                n + BZ_N_OVERSHOOT <= block@.len(),
                n + BZ_N_OVERSHOOT <= quadrant@.len(),
                0 <= k <= n + 8,
                8 * (b0 - *budget) + k == n + 8,
                b0 == *old(budget),
                n <= MAX_BLOCK,
                group_diff(block@, quadrant@, a0 as int, b1 as int, 0) == group_diff(block@, quadrant@, a0 as int, b1 as int, t as int),
                gtu(block@, quadrant@, n as int, i1 as int, i2 as int)
                    == gtu_groups(block@, quadrant@, n as int, a0 as int, b1 as int, k as int),
                b0 - *budget + gtu_rounds(block@, quadrant@, n as int, a0 as int, b1 as int, k as int)
                    == gtu_cost(block@, quadrant@, n as int, i1 as int, i2 as int),
                n == nblock,
            decreases 8 - t,
        {
            let c1 = block[a];
            let c2 = block[b];
            if c1 != c2 {
                assert(group_diff(block@, quadrant@, a0 as int, b1 as int, t as int) == Some(c1 > c2));
                assert(gtu_groups(block@, quadrant@, n as int, a0 as int, b1 as int, k as int) == (c1 > c2));
                assert(gtu_rounds(block@, quadrant@, n as int, a0 as int, b1 as int, k as int) == 0);
                return c1 > c2;
            }
            let s1 = quadrant[a];
            let s2 = quadrant[b];
            if s1 != s2 {
                assert(group_diff(block@, quadrant@, a0 as int, b1 as int, t as int) == Some(s1 > s2));
                assert(gtu_groups(block@, quadrant@, n as int, a0 as int, b1 as int, k as int) == (s1 > s2));
                assert(gtu_rounds(block@, quadrant@, n as int, a0 as int, b1 as int, k as int) == 0);
                return s1 > s2;
            }
            a = a + 1;
            b = b + 1;
            t = t + 1;
        }
        if a >= n {
            a = a - n;
        }
        if b >= n {
            b = b - n;
        }
        k = k - 8;
        *budget = *budget - 1;
        if k < 0 {
            return false;
        }
    }
}

/// The first difference among the bytes at `a + t ..` and `b + t ..`, up to `a + 11`:
/// whether the one at `a` is greater, or `None` if they agree.
pub open spec fn head_diff(block: Seq<u8>, a: int, b: int, t: int) -> Option<bool>
    decreases 12 - t,
{
    if t >= 12 {
        None
    } else if block[a + t] != block[b + t] {
        Some(block[a + t] > block[b + t])
    } else {
        head_diff(block, a, b, t + 1)
    }
}

/// The first difference among eight positions from `a + t` and `b + t`, comparing the bytes
/// and then the `quadrant` entries at each.
pub open spec fn group_diff(block: Seq<u8>, quadrant: Seq<u16>, a: int, b: int, t: int) -> Option<bool>
    decreases 8 - t,
{
    if t >= 8 {
        None
    } else if block[a + t] != block[b + t] {
        Some(block[a + t] > block[b + t])
    } else if quadrant[a + t] != quadrant[b + t] {
        Some(quadrant[a + t] > quadrant[b + t])
    } else {
        group_diff(block, quadrant, a, b, t + 1)
    }
}

/// Compares eight positions at a time from `a` and `b`, bringing each position back into the
/// block after each eight; once `k` runs below zero the two count as equal, and not greater.
pub open spec fn gtu_groups(block: Seq<u8>, quadrant: Seq<u16>, n: int, a: int, b: int, k: int) -> bool
    decreases k,
{
    match group_diff(block, quadrant, a, b, 0) {
        Some(g) => g,
        None => {
            if k - 8 < 0 {
                false
            } else {
                gtu_groups(block, quadrant, n, if a + 8 >= n { a + 8 - n } else { a + 8 },
                    if b + 8 >= n { b + 8 - n } else { b + 8 }, k - 8)
            }
        },
    }
}

/// How many eights of positions are compared from `a` and `b` before a difference or the
/// end of the turn.
pub open spec fn gtu_rounds(block: Seq<u8>, quadrant: Seq<u16>, n: int, a: int, b: int, k: int) -> int
    decreases k,
{
    match group_diff(block, quadrant, a, b, 0) {
        Some(g) => 0,
        None => {
            if k - 8 < 0 {
                1
            } else {
                1 + gtu_rounds(block, quadrant, n, if a + 8 >= n { a + 8 - n } else { a + 8 },
                    if b + 8 >= n { b + 8 - n } else { b + 8 }, k - 8)
            }
        },
    }
}

/// The units of budget a comparison of the rotations from `i1` and `i2` uses: one for each
/// whole eight of positions compared after the first twelve bytes.
pub open spec fn gtu_cost(block: Seq<u8>, quadrant: Seq<u16>, n: int, i1: int, i2: int) -> int {
    match head_diff(block, i1, i2, 0) {
        Some(g) => 0,
        None => gtu_rounds(block, quadrant, n, i1 + 12, i2 + 12, n + 8),
    }
}

/// Whether the rotation from `i1` sorts after the one from `i2` (`mainGtU`): the first
/// twelve bytes decide, then byte and `quadrant` pairs, for one turn round the block.
pub open spec fn gtu(block: Seq<u8>, quadrant: Seq<u16>, n: int, i1: int, i2: int) -> bool {
    match head_diff(block, i1, i2, 0) {
        Some(g) => g,
        None => gtu_groups(block, quadrant, n, i1 + 12, i2 + 12, n + 8),
    }
}

proof fn lemma_head_diff_flip(block: Seq<u8>, a: int, b: int, t: int)
    ensures
        head_diff(block, a, b, t) matches Some(g) ==> head_diff(block, b, a, t) == Some(!g),
        head_diff(block, a, b, t) is None ==> head_diff(block, b, a, t) is None,
    decreases 12 - t,
{
    if t < 12 && block[a + t] == block[b + t] {
        lemma_head_diff_flip(block, a, b, t + 1);
    }
}

proof fn lemma_group_diff_flip(block: Seq<u8>, quadrant: Seq<u16>, a: int, b: int, t: int)
    ensures
        group_diff(block, quadrant, a, b, t) matches Some(g) ==> group_diff(block, quadrant, b, a, t) == Some(!g),
        group_diff(block, quadrant, a, b, t) is None ==> group_diff(block, quadrant, b, a, t) is None,
    decreases 8 - t,
{
    if t < 8 && block[a + t] == block[b + t] && quadrant[a + t] == quadrant[b + t] {
        lemma_group_diff_flip(block, quadrant, a, b, t + 1);
    }
}

proof fn lemma_gtu_groups_asym(block: Seq<u8>, quadrant: Seq<u16>, n: int, a: int, b: int, k: int)
    ensures
        !(gtu_groups(block, quadrant, n, a, b, k) && gtu_groups(block, quadrant, n, b, a, k)),
    decreases k,
{
    lemma_group_diff_flip(block, quadrant, a, b, 0);
    if group_diff(block, quadrant, a, b, 0) is None && k - 8 >= 0 {
        lemma_gtu_groups_asym(block, quadrant, n, if a + 8 >= n { a + 8 - n } else { a + 8 },
            if b + 8 >= n { b + 8 - n } else { b + 8 }, k - 8);
    }
}

/// No rotation sorts both after and before another.
pub proof fn lemma_gtu_asym(block: Seq<u8>, quadrant: Seq<u16>, n: int, i1: int, i2: int)
    ensures
        !(gtu(block, quadrant, n, i1, i2) && gtu(block, quadrant, n, i2, i1)),
{
    lemma_head_diff_flip(block, i1, i2, 0);
    lemma_gtu_groups_asym(block, quadrant, n, i1 + 12, i2 + 12, n + 8);
}

/// The entries at `a` and `a + 1` are in order: the rotation `d` bytes on from the first does
/// not sort after the one from the second.
pub open spec fn in_order_at(p: Seq<u32>, block: Seq<u8>, quadrant: Seq<u16>, n: int, d: int, a: int) -> bool {
    !gtu(block, quadrant, n, p[a] + d, p[a + 1] + d)
}

/// `p[lo ..= hi]` is in order of rotations `d` bytes on, each entry against the next.
pub open spec fn gtu_sorted(p: Seq<u32>, block: Seq<u8>, quadrant: Seq<u16>, n: int, d: int, lo: int, hi: int) -> bool {
    forall|a: int| lo <= a < hi ==> #[trigger] in_order_at(p, block, quadrant, n, d, a)
}

/// Byte `t` of the rotation of `block[0 .. n]` that starts at `i`.
pub open spec fn rot_byte(block: Seq<u8>, n: int, i: int, t: int) -> u8 {
    block[(i + t) % n]
}

/// The first difference between the rotations from `i1` and `i2` among their bytes `t`
/// to `end - 1`: whether the first one's byte is the greater there.
pub open spec fn rot_diff(block: Seq<u8>, n: int, i1: int, i2: int, t: int, end: int) -> Option<bool>
    decreases end - t,
{
    if t >= end {
        None
    } else if rot_byte(block, n, i1, t) != rot_byte(block, n, i2, t) {
        Some(rot_byte(block, n, i1, t) > rot_byte(block, n, i2, t))
    } else {
        rot_diff(block, n, i1, i2, t + 1, end)
    }
}

/// The rotation of `block[0 .. n]` from `i1` sorts after the one from `i2`, comparing
/// bytes from the first on.
pub open spec fn rot_gt(block: Seq<u8>, n: int, i1: int, i2: int) -> bool {
    rot_diff(block, n, i1, i2, 0, n) == Some(true)
}

/// The bytes past the block repeat its start, as far as the comparisons read.
pub open spec fn overshoot_ok(block: Seq<u8>, n: int) -> bool {
    &&& n + BZ_N_OVERSHOOT <= block.len()
    &&& forall|k: int| 0 <= k < BZ_N_OVERSHOOT ==> #[trigger] block[n + k] == block[k]
}

/// How many positions the eight-at-a-time comparison looks at with `k` left.
pub open spec fn group_span(k: int) -> int
    decreases k,
{
    if k - 8 < 0 { 8 } else { 8 + group_span(k - 8) }
}

proof fn lemma_group_span(k: int)
    ensures
        group_span(k) >= k + 1,
        group_span(k) >= 8,
    decreases k,
{
    if k - 8 >= 0 {
        lemma_group_span(k - 8);
    }
}

proof fn lemma_rot_diff_split(block: Seq<u8>, n: int, i1: int, i2: int, t: int, m: int, end: int)
    requires
        t <= m <= end,
    ensures
        rot_diff(block, n, i1, i2, t, end) == (match rot_diff(block, n, i1, i2, t, m) {
            Some(g) => Some(g),
            None => rot_diff(block, n, i1, i2, m, end),
        }),
    decreases m - t,
{
    if t < m && rot_byte(block, n, i1, t) == rot_byte(block, n, i2, t) {
        lemma_rot_diff_split(block, n, i1, i2, t + 1, m, end);
    }
}

proof fn lemma_rot_diff_none_eq(block: Seq<u8>, n: int, i1: int, i2: int, t: int, end: int, s: int)
    requires
        rot_diff(block, n, i1, i2, t, end) is None,
        t <= s < end,
    ensures
        rot_byte(block, n, i1, s) == rot_byte(block, n, i2, s),
    decreases end - t,
{
    if t < s {
        lemma_rot_diff_none_eq(block, n, i1, i2, t + 1, end, s);
    }
}

proof fn lemma_rot_diff_all_eq(block: Seq<u8>, n: int, i1: int, i2: int, t: int, end: int)
    requires
        forall|s: int| t <= s < end ==> rot_byte(block, n, i1, s) == rot_byte(block, n, i2, s),
    ensures
        rot_diff(block, n, i1, i2, t, end) is None,
    decreases end - t,
{
    if t < end {
        lemma_rot_diff_all_eq(block, n, i1, i2, t + 1, end);
    }
}

proof fn lemma_rot_byte_period(block: Seq<u8>, n: int, i: int, t: int)
    requires
        n > 0,
        t >= n,
    ensures
        rot_byte(block, n, i, t) == rot_byte(block, n, i, t - n),
{
    vstd::arithmetic::div_mod::lemma_mod_sub_multiples_vanish(i + t, n);
    assert(-n + (i + t) == i + (t - n));
}

/// Comparing rotations past their length decides nothing more.
proof fn lemma_rot_diff_period(block: Seq<u8>, n: int, i1: int, i2: int, end: int)
    requires
        n > 0,
        end >= n,
    ensures
        rot_diff(block, n, i1, i2, 0, end) == rot_diff(block, n, i1, i2, 0, n),
    decreases end,
{
    lemma_rot_diff_split(block, n, i1, i2, 0, n, end);
    if rot_diff(block, n, i1, i2, 0, n) is None {
        assert forall|s: int| n <= s < end implies rot_byte(block, n, i1, s) == rot_byte(block, n, i2, s) by {
            lemma_rot_eq_all(block, n, i1, i2, s);
        }
        lemma_rot_diff_all_eq(block, n, i1, i2, n, end);
    }
}

proof fn lemma_rot_eq_all(block: Seq<u8>, n: int, i1: int, i2: int, s: int)
    requires
        n > 0,
        s >= 0,
        rot_diff(block, n, i1, i2, 0, n) is None,
    ensures
        rot_byte(block, n, i1, s) == rot_byte(block, n, i2, s),
    decreases s,
{
    if s < n {
        lemma_rot_diff_none_eq(block, n, i1, i2, 0, n, s);
    } else {
        lemma_rot_byte_period(block, n, i1, s);
        lemma_rot_byte_period(block, n, i2, s);
        lemma_rot_eq_all(block, n, i1, i2, s - n);
    }
}

proof fn lemma_block_wrap(block: Seq<u8>, n: int, x: int)
    requires
        n >= 1,
        overshoot_ok(block, n),
        0 <= x < n + BZ_N_OVERSHOOT,
    ensures
        block[x] == block[x % n],
    decreases x,
{
    if x < n {
        vstd::arithmetic::div_mod::lemma_small_mod(x as nat, n as nat);
    } else {
        vstd::arithmetic::div_mod::lemma_mod_sub_multiples_vanish(x, n);
        assert(block[n + (x - n)] == block[x - n]);
        lemma_block_wrap(block, n, x - n);
    }
}

proof fn lemma_mod_shift(a: int, y: int, s: int, n: int)
    requires
        n > 0,
        a % n == y % n,
    ensures
        (a + s) % n == (y + s) % n,
{
    vstd::arithmetic::div_mod::lemma_add_mod_noop(a, s, n);
    vstd::arithmetic::div_mod::lemma_add_mod_noop(y, s, n);
}

/// Position `a` of the block holds byte `o` of the rotation from `i`.
proof fn lemma_aligned_byte(block: Seq<u8>, n: int, a: int, i: int, o: int, s: int)
    requires
        n >= 1,
        overshoot_ok(block, n),
        0 <= a,
        a + s < n + BZ_N_OVERSHOOT,
        0 <= s,
        a % n == (i + o) % n,
    ensures
        block[a + s] == rot_byte(block, n, i, o + s),
{
    lemma_block_wrap(block, n, a + s);
    lemma_mod_shift(a, i + o, s, n);
    assert(i + o + s == i + (o + s));
}

proof fn lemma_head_is_rot(block: Seq<u8>, n: int, i1: int, i2: int, t: int)
    requires
        n >= 1,
        overshoot_ok(block, n),
        0 <= i1 < n,
        0 <= i2 < n,
        0 <= t <= 12,
    ensures
        head_diff(block, i1, i2, t) == rot_diff(block, n, i1, i2, t, 12),
    decreases 12 - t,
{
    if t < 12 {
        vstd::arithmetic::div_mod::lemma_small_mod(i1 as nat, n as nat);
        vstd::arithmetic::div_mod::lemma_small_mod(i2 as nat, n as nat);
        assert(i1 % n == (i1 + 0) % n);
        assert(i2 % n == (i2 + 0) % n);
        lemma_aligned_byte(block, n, i1, i1, 0, t);
        lemma_aligned_byte(block, n, i2, i2, 0, t);
        lemma_head_is_rot(block, n, i1, i2, t + 1);
    }
}

/// All of `quadrant[0 .. n + BZ_N_OVERSHOOT]` hold the same number.
pub open spec fn quadrant_flat(quadrant: Seq<u16>, n: int) -> bool {
    &&& n + BZ_N_OVERSHOOT <= quadrant.len()
    &&& forall|x: int| 0 <= x < n + BZ_N_OVERSHOOT ==> #[trigger] quadrant[x] == quadrant[0]
}

proof fn lemma_group_is_rot(block: Seq<u8>, quadrant: Seq<u16>, n: int, a: int, b: int, i1: int, i2: int, o: int, t: int)
    requires
        n >= 1,
        overshoot_ok(block, n),
        quadrant_flat(quadrant, n),
        0 <= a,
        0 <= b,
        a + 8 <= n + BZ_N_OVERSHOOT,
        b + 8 <= n + BZ_N_OVERSHOOT,
        a % n == (i1 + o) % n,
        b % n == (i2 + o) % n,
        0 <= t <= 8,
    ensures
        group_diff(block, quadrant, a, b, t) == rot_diff(block, n, i1, i2, o + t, o + 8),
    decreases 8 - t,
{
    if t < 8 {
        lemma_aligned_byte(block, n, a, i1, o, t);
        lemma_aligned_byte(block, n, b, i2, o, t);
        assert(quadrant[a + t] == quadrant[0] && quadrant[b + t] == quadrant[0]);
        lemma_group_is_rot(block, quadrant, n, a, b, i1, i2, o, t + 1);
        assert(o + t + 1 == o + (t + 1));
    }
}

proof fn lemma_groups_are_rot(block: Seq<u8>, quadrant: Seq<u16>, n: int, a: int, b: int, i1: int, i2: int, o: int, k: int)
    requires
        n >= 1,
        overshoot_ok(block, n),
        quadrant_flat(quadrant, n),
        0 <= a,
        0 <= b,
        n >= 8 ==> a < n + 26 && b < n + 26,
        n < 8 ==> a < 20 && b < 20 && k < 16 && (k >= 8 ==> a < n + 12 && b < n + 12),
        a % n == (i1 + o) % n,
        b % n == (i2 + o) % n,
    ensures
        gtu_groups(block, quadrant, n, a, b, k) == (rot_diff(block, n, i1, i2, o, o + group_span(k)) == Some(true)),
    decreases k,
{
    lemma_group_is_rot(block, quadrant, n, a, b, i1, i2, o, 0);
    lemma_group_span(k);
    lemma_rot_diff_split(block, n, i1, i2, o, o + 8, o + group_span(k));
    if group_diff(block, quadrant, a, b, 0) is None && k - 8 >= 0 {
        let a2 = if a + 8 >= n { a + 8 - n } else { a + 8 };
        let b2 = if b + 8 >= n { b + 8 - n } else { b + 8 };
        lemma_mod_shift(a, i1 + o, 8, n);
        lemma_mod_shift(b, i2 + o, 8, n);
        vstd::arithmetic::div_mod::lemma_mod_sub_multiples_vanish(a + 8, n);
        vstd::arithmetic::div_mod::lemma_mod_sub_multiples_vanish(b + 8, n);
        assert(a2 % n == (i1 + (o + 8)) % n);
        assert(b2 % n == (i2 + (o + 8)) % n);
        lemma_groups_are_rot(block, quadrant, n, a2, b2, i1, i2, o + 8, k - 8);
        assert(o + group_span(k) == (o + 8) + group_span(k - 8));
    }
}

/// Where every position carries the same quadrant mark, the comparison of `mainGtU` is the
/// order of rotations: the rotation from `i1` sorts after the one from `i2`, byte by byte.
pub proof fn lemma_gtu_is_rotation_order(block: Seq<u8>, quadrant: Seq<u16>, n: int, i1: int, i2: int)
    requires
        n >= 1,
        overshoot_ok(block, n),
        quadrant_flat(quadrant, n),
        0 <= i1 < n,
        0 <= i2 < n,
    ensures
        gtu(block, quadrant, n, i1, i2) == rot_gt(block, n, i1, i2),
{
    lemma_head_is_rot(block, n, i1, i2, 0);
    let g = group_span(n + 8);
    lemma_group_span(n + 8);
    assert((i1 + 12) % n == (i1 + 12) % n);
    lemma_groups_are_rot(block, quadrant, n, i1 + 12, i2 + 12, i1, i2, 12, n + 8);
    lemma_rot_diff_split(block, n, i1, i2, 0, 12, 12 + g);
    lemma_rot_diff_period(block, n, i1, i2, 12 + g);
}

/// The middle one of three bytes in order.
pub open spec fn median3(a: u8, b: u8, c: u8) -> u8 {
    if a <= b {
        if b <= c { b } else if a <= c { c } else { a }
    } else {
        if a <= c { a } else if b <= c { c } else { b }
    }
}

/// The median of three bytes (`mmed3`).
fn mmed3(a: u8, b: u8, c: u8) -> (m: u8)
    ensures
        m == a || m == b || m == c,
        m == median3(a, b, c),
{
    let mut a = a;
    let mut b = b;
    if a > b {
        let t = a;
        a = b;
        b = t;
    }
    if b > c {
        b = c;
        if a > b {
            b = a;
        }
    }
    b
}

/// The `k`-th increment of the shell sort: 1, 4, 13, 40, ..., each three times the last plus one.
fn shell_inc(k: usize) -> (h: i32)
    requires
        k < 14,
    ensures
        1 <= h <= 2391484,
        k == 13 ==> h == 2391484,
        k > 0 ==> h >= 4,
        k == 0 ==> h == 1,
{
    if k == 0 { 1 }
    else if k == 1 { 4 }
    else if k == 2 { 13 }
    else if k == 3 { 40 }
    else if k == 4 { 121 }
    else if k == 5 { 364 }
    else if k == 6 { 1093 }
    else if k == 7 { 3280 }
    else if k == 8 { 9841 }
    else if k == 9 { 29524 }
    else if k == 10 { 88573 }
    else if k == 11 { 265720 }
    else if k == 12 { 797161 }
    else { 2391484 }
}

/// Inserts `ptr[i]` into the run `... ptr[i - 2h], ptr[i - h]` of `ptr[lo ..]`, moving the
/// entries that sort after it `h` places up; one step of `mainSimpleSort`.
fn main_insert(
    ptr: &mut Vec<u32>,
    block: &Vec<u8>,
    quadrant: &Vec<u16>,
    nblock: i32,
    lo: i32,
    h: i32,
    i: i32,
    d: i32,
    budget: &mut i64,
)
    requires
        8 <= nblock <= MAX_BLOCK,
        in_range(old(ptr)@, nblock as int),
        0 <= lo,
        1 <= h,
        lo + h <= i < nblock,
        0 <= d <= 15,
        nblock + BZ_N_OVERSHOOT <= block@.len(),
        nblock + BZ_N_OVERSHOOT <= quadrant@.len(),
        *old(budget) >= -3_000_000_000_000_000_000,
    ensures
        in_range(final(ptr)@, nblock as int),
        final(ptr)@.len() == old(ptr)@.len(),
        *old(budget) - INSERT_COST <= *final(budget) <= *old(budget),
        forall|k: int| 0 <= k < final(ptr)@.len() && !(lo <= k <= i) ==> final(ptr)@[k] == old(ptr)@[k],
        from_range(final(ptr)@, old(ptr)@, lo as int, i as int),
        h == 1 && gtu_sorted(old(ptr)@, block@, quadrant@, nblock as int, d as int, lo as int, i - 1)
            ==> gtu_sorted(final(ptr)@, block@, quadrant@, nblock as int, d as int, lo as int, i as int),
{
    let ghost n = nblock as int;
    let ghost b0 = *budget;
    let ghost o = ptr@;
    let ghost sorting = h == 1 && gtu_sorted(o, block@, quadrant@, n, d as int, lo as int, i - 1);
    let v = ptr[i as usize];
    let mut j = i;
    let ghost mut c: int = 0;
    let ghost mut w: Seq<int> = Seq::new((i + 1) as nat, |k: int| k);
    loop
        invariant_except_break
            lo + h <= j,
            c <= i - j,
        invariant
            8 <= nblock <= MAX_BLOCK,
            n == nblock,
            in_range(ptr@, n),
            ptr@.len() == old(ptr)@.len(),
            lo <= j <= i < nblock,
            0 <= lo,
            1 <= h,
            0 <= d <= 15,
            (v as int) < n,
            nblock + BZ_N_OVERSHOOT <= block@.len(),
            nblock + BZ_N_OVERSHOOT <= quadrant@.len(),
            0 <= c <= i - j + 1,
            b0 - c * GTU_COST <= *budget <= b0,
            b0 == *old(budget),
            b0 >= -3_000_000_000_000_000_000,
            o == old(ptr)@,
            v == o[i as int],
            forall|k: int| 0 <= k < ptr@.len() && !(lo <= k <= i) ==> ptr@[k] == o[k],
            came_from(ptr@, o, lo as int, i as int, w),
            w.len() == i + 1,
            sorting == (h == 1 && gtu_sorted(o, block@, quadrant@, n, d as int, lo as int, i - 1)),
            sorting ==> forall|k: int| lo <= k <= j ==> #[trigger] ptr@[k] == o[k],
            sorting ==> forall|k: int| j < k <= i ==> #[trigger] ptr@[k] == o[k - 1],
            sorting && j < i ==> gtu(block@, quadrant@, n, o[j as int] + d, v + d),
        ensures
            in_range(ptr@, n),
            ptr@.len() == old(ptr)@.len(),
            lo <= j <= i,
            0 <= c <= i - j + 1,
            b0 - c * GTU_COST <= *budget <= b0,
            forall|k: int| 0 <= k < ptr@.len() && !(lo <= k <= i) ==> ptr@[k] == o[k],
            came_from(ptr@, o, lo as int, i as int, w),
            w.len() == i + 1,
            sorting ==> forall|k: int| lo <= k <= j ==> #[trigger] ptr@[k] == o[k],
            sorting ==> forall|k: int| j < k <= i ==> #[trigger] ptr@[k] == o[k - 1],
            sorting && j < i ==> gtu(block@, quadrant@, n, o[j as int] + d, v + d),
            sorting && j > lo ==> !gtu(block@, quadrant@, n, o[j - 1] + d, v + d),
        decreases j,
    {
        let p = ptr[(j - h) as usize];
        let gt = mainGtU(p + d as u32, v + d as u32, block, quadrant, nblock as u32, budget);
        proof { c = c + 1; }
        if !gt {
            break;
        }
        let ghost pj = j as int;
        ptr.set(j as usize, p);
        proof {
            w = w.update(pj, w[pj - h]);
            assert forall|k: int| lo <= k <= i implies lo <= #[trigger] w[k] <= i && o[w[k]] == ptr@[k] by {
                if k == pj {
                    assert(ptr@[pj - h] == p);
                }
            }
        }
        j = j - h;
        if j <= lo + h - 1 {
            break;
        }
    }
    ptr.set(j as usize, v);
    proof {
        w = w.update(j as int, i as int);
        assert(came_from(ptr@, o, lo as int, i as int, w));
        reveal(from_range);
        if sorting {
            assert forall|a: int| lo <= a < i implies #[trigger] in_order_at(ptr@, block@, quadrant@, n, d as int, a) by {
                if a + 1 < j {
                    assert(in_order_at(o, block@, quadrant@, n, d as int, a));
                } else if a + 1 == j {
                } else if a == j {
                    lemma_gtu_asym(block@, quadrant@, n, o[j as int] + d, v + d);
                } else {
                    assert(in_order_at(o, block@, quadrant@, n, d as int, a - 1));
                }
            }
        }
    }
    assert(c * GTU_COST <= (MAX_BLOCK + 1) * GTU_COST) by (nonlinear_arith)
        requires c <= MAX_BLOCK + 1;
}

/// Shell sort of `ptr[lo ..= hi]` by the rotations `d` bytes on (`mainSimpleSort`); it stops
/// early once `budget` runs out.
fn mainSimpleSort(
    ptr: &mut Vec<u32>,
    block: &Vec<u8>,
    quadrant: &Vec<u16>,
    nblock: i32,
    lo: i32,
    hi: i32,
    d: i32,
    budget: &mut i64,
)
    requires
        8 <= nblock <= MAX_BLOCK,
        in_range(old(ptr)@, nblock as int),
        0 <= lo <= hi + 1,
        hi < nblock,
        0 <= d <= 15,
        nblock + BZ_N_OVERSHOOT <= block@.len(),
        nblock + BZ_N_OVERSHOOT <= quadrant@.len(),
        *old(budget) >= 0,
    ensures
        in_range(final(ptr)@, nblock as int),
        final(ptr)@.len() == old(ptr)@.len(),
        *old(budget) - 14 * PASS_COST <= *final(budget) <= *old(budget),
        forall|k: int| 0 <= k < final(ptr)@.len() && !(lo <= k <= hi) ==> final(ptr)@[k] == old(ptr)@[k],
        from_range(final(ptr)@, old(ptr)@, lo as int, hi as int),
        *final(budget) >= 0 ==> gtu_sorted(final(ptr)@, block@, quadrant@, nblock as int, d as int, lo as int, hi as int),
{
    let ghost n = nblock as int;
    let ghost b0 = *budget;
    proof { lemma_from_range_refl(ptr@, lo as int, hi as int); }
    let big_n = hi - lo + 1;
    if big_n < 2 {
        return;
    }
    let mut hp: usize = 0;
    while shell_inc(hp) < big_n
        invariant
            hp < 14,
            big_n <= MAX_BLOCK,
        decreases 14 - hp,
    {
        hp = hp + 1;
        if hp == 13 {
            break;
        }
    }
    let mut passes: usize = hp + 1;
    assert(passes <= 14);
    let ghost mut last_one = false;
    while passes > 0
        invariant
            8 <= nblock <= MAX_BLOCK,
            n == nblock,
            in_range(ptr@, n),
            ptr@.len() == old(ptr)@.len(),
            0 <= lo <= hi + 1,
            hi < nblock,
            0 <= d <= 15,
            nblock + BZ_N_OVERSHOOT <= block@.len(),
            nblock + BZ_N_OVERSHOOT <= quadrant@.len(),
            passes <= 14,
            b0 - (14 - passes) * PASS_COST <= *budget <= b0,
            b0 == *old(budget),
            b0 >= 0,
            forall|k: int| 0 <= k < ptr@.len() && !(lo <= k <= hi) ==> ptr@[k] == old(ptr)@[k],
            from_range(ptr@, old(ptr)@, lo as int, hi as int),
            passes == 0 ==> last_one,
            last_one ==> gtu_sorted(ptr@, block@, quadrant@, n, d as int, lo as int, hi as int),
            lo + 1 <= hi,
        decreases passes,
    {
        passes = passes - 1;
        let h = shell_inc(passes);
        let ghost p0 = *budget;
        let mut i = lo + h;
        loop
            invariant
                8 <= nblock <= MAX_BLOCK,
                n == nblock,
                in_range(ptr@, n),
                ptr@.len() == old(ptr)@.len(),
                0 <= lo,
                hi < nblock,
                1 <= h,
                lo + h <= i,
                0 <= d <= 15,
                nblock + BZ_N_OVERSHOOT <= block@.len(),
                nblock + BZ_N_OVERSHOOT <= quadrant@.len(),
                i <= hi + 1 || i == lo + h,
                p0 - (i - lo - h) * INSERT_COST <= *budget <= p0,
                p0 >= b0 - 13 * PASS_COST,
                b0 - (14 - passes - 1) * PASS_COST <= p0 <= b0,
                passes < 14,
                b0 >= 0,
                b0 == *old(budget),
                forall|k: int| 0 <= k < ptr@.len() && !(lo <= k <= hi) ==> ptr@[k] == old(ptr)@[k],
                from_range(ptr@, old(ptr)@, lo as int, hi as int),
                h == 1 ==> gtu_sorted(ptr@, block@, quadrant@, n, d as int, lo as int, i - 1),
                lo + 1 <= hi,
            ensures
                i > hi,
            decreases (if i <= hi + 1 { hi + 2 - i } else { 0 }),
        {
            if i > hi {
                break;
            }
            proof { assert((i - lo - h) * INSERT_COST <= MAX_BLOCK * INSERT_COST) by (nonlinear_arith)
                requires i - lo - h <= MAX_BLOCK, i - lo - h >= 0; }
            let ghost before = ptr@;
            main_insert(ptr, block, quadrant, nblock, lo, h, i, d, budget);
            proof {
                lemma_from_range_widen(ptr@, before, lo as int, i as int, lo as int, hi as int);
                lemma_from_range_trans(ptr@, before, old(ptr)@, lo as int, hi as int);
            }
            i = i + 1;
            if i > hi {
                break;
            }
            proof { assert((i - lo - h) * INSERT_COST <= MAX_BLOCK * INSERT_COST) by (nonlinear_arith)
                requires i - lo - h <= MAX_BLOCK, i - lo - h >= 0; }
            let ghost before = ptr@;
            main_insert(ptr, block, quadrant, nblock, lo, h, i, d, budget);
            proof {
                lemma_from_range_widen(ptr@, before, lo as int, i as int, lo as int, hi as int);
                lemma_from_range_trans(ptr@, before, old(ptr)@, lo as int, hi as int);
            }
            i = i + 1;
            if i > hi {
                break;
            }
            proof { assert((i - lo - h) * INSERT_COST <= MAX_BLOCK * INSERT_COST) by (nonlinear_arith)
                requires i - lo - h <= MAX_BLOCK, i - lo - h >= 0; }
            let ghost before = ptr@;
            main_insert(ptr, block, quadrant, nblock, lo, h, i, d, budget);
            proof {
                lemma_from_range_widen(ptr@, before, lo as int, i as int, lo as int, hi as int);
                lemma_from_range_trans(ptr@, before, old(ptr)@, lo as int, hi as int);
            }
            i = i + 1;
            if *budget < 0 {
                proof {
                    assert((i - lo - h) * INSERT_COST <= (MAX_BLOCK + 1) * INSERT_COST) by (nonlinear_arith)
                        requires i - lo - h <= MAX_BLOCK + 1, i - lo - h >= 0;
                    assert((MAX_BLOCK + 1) * INSERT_COST <= PASS_COST);
                    assert(*budget >= p0 - (i - lo - h) * INSERT_COST);
                    assert(*budget >= p0 - PASS_COST);
                    assert(p0 >= b0 - (14 - passes - 1) * PASS_COST);
                    assert((14 - passes - 1) * PASS_COST + PASS_COST == (14 - passes) * PASS_COST);
                    assert((14 - passes) * PASS_COST <= 14 * PASS_COST);
                }
                return;
            }
        }
        proof {
            assert((i - lo - h) * INSERT_COST <= (MAX_BLOCK + 1) * INSERT_COST) by (nonlinear_arith)
                requires i - lo - h <= MAX_BLOCK + 1, i - lo - h >= 0;
            last_one = passes == 0;
        }
    }
}

} // verus!

verus! {

/// Three units for every element of a pending range for every byte it may still be
/// compared on, and one for the range.
pub open spec fn qsort_weight(lo: int, hi: int, d: int) -> int {
    1 + 3 * (if hi >= lo { hi - lo + 1 } else { 0 }) * (16 - d)
}

/// The weights of the pending ranges of the main quicksort.
pub open spec fn qstack_measure(los: Seq<i32>, his: Seq<i32>, ds: Seq<i32>) -> int
    decreases los.len(),
{
    if los.len() == 0 || his.len() != los.len() || ds.len() != los.len() {
        0
    } else {
        qstack_measure(los.drop_last(), his.drop_last(), ds.drop_last())
            + qsort_weight(los.last() as int, his.last() as int, ds.last() as int)
    }
}

proof fn lemma_qstack_push(los: Seq<i32>, his: Seq<i32>, ds: Seq<i32>, lo: i32, hi: i32, d: i32)
    requires
        los.len() == his.len(),
        los.len() == ds.len(),
    ensures
        qstack_measure(los.push(lo), his.push(hi), ds.push(d))
            == qstack_measure(los, his, ds) + qsort_weight(lo as int, hi as int, d as int),
{
    assert(los.push(lo).drop_last() =~= los);
    assert(his.push(hi).drop_last() =~= his);
    assert(ds.push(d).drop_last() =~= ds);
}

proof fn lemma_qstack_nonneg(los: Seq<i32>, his: Seq<i32>, ds: Seq<i32>)
    requires
        forall|q: int| 0 <= q < ds.len() ==> 0 <= #[trigger] ds[q] <= 15,
    ensures
        qstack_measure(los, his, ds) >= 0,
    decreases los.len(),
{
    if los.len() > 0 && his.len() == los.len() && ds.len() == los.len() {
        lemma_qstack_nonneg(los.drop_last(), his.drop_last(), ds.drop_last());
        let s: int = if his.last() >= los.last() { his.last() - los.last() + 1 } else { 0 };
        let dd: int = ds.last() as int;
        assert(0 <= dd <= 15);
        assert(s * (16 - dd) >= 0) by (nonlinear_arith)
            requires s >= 0, dd <= 15;
    }
}

/// Splits `ptr[lo ..= hi]` around `med` by the byte `d` places into each rotation, as
/// `partition3` does for the fallback sort: returns `(ltLo, unLo, unHi, gtHi)` with the
/// entries equal to `med` in `[lo, ltLo)` and `(gtHi, hi]`, at least one of them.
fn partition_main(
    ptr: &mut Vec<u32>,
    block: &Vec<u8>,
    lo: i32,
    hi: i32,
    d: i32,
    med: u8,
    Ghost(pv0): Ghost<int>,
    Ghost(n): Ghost<int>,
) -> (res: (i32, i32, i32, i32))
    requires
        in_range(old(ptr)@, n),
        n + BZ_N_OVERSHOOT <= block@.len(),
        0 <= lo < hi < n <= MAX_BLOCK,
        0 <= d <= 15,
        lo <= pv0 <= hi,
        block@[old(ptr)@[pv0] + d] == med,
    ensures
        in_range(final(ptr)@, n),
        lo <= res.0 <= res.1,
        res.1 == res.2 + 1,
        res.2 <= res.3 <= hi,
        (res.0 - lo) + (hi - res.3) >= 1,
        final(ptr)@.len() == old(ptr)@.len(),
        forall|k: int| 0 <= k < final(ptr)@.len() && !(lo <= k <= hi) ==> final(ptr)@[k] == old(ptr)@[k],
        from_range(final(ptr)@, old(ptr)@, lo as int, hi as int),
{
    proof { lemma_from_range_refl(ptr@, lo as int, hi as int); }
    let ghost mut pv: int = pv0;
    let mut ltLo = lo;
    let mut unLo = lo;
    let mut gtHi = hi;
    let mut unHi = hi;
    loop
        invariant
            in_range(ptr@, n),
            n + BZ_N_OVERSHOOT <= block@.len(),
            0 <= lo < hi < n <= MAX_BLOCK,
            0 <= d <= 15,
            lo <= ltLo <= unLo <= unHi + 1,
            unHi <= gtHi <= hi,
            lo <= pv <= hi,
            block@[ptr@[pv] + d] == med,
            (lo <= pv < ltLo) || (unLo <= pv <= unHi) || (gtHi < pv <= hi),
            ptr@.len() == old(ptr)@.len(),
            forall|k: int| 0 <= k < ptr@.len() && !(lo <= k <= hi) ==> ptr@[k] == old(ptr)@[k],
            from_range(ptr@, old(ptr)@, lo as int, hi as int),
        ensures
            in_range(ptr@, n),
            lo <= ltLo <= unLo,
            unLo == unHi + 1,
            unHi <= gtHi <= hi,
            (lo <= pv < ltLo) || (gtHi < pv <= hi),
            ptr@.len() == old(ptr)@.len(),
            forall|k: int| 0 <= k < ptr@.len() && !(lo <= k <= hi) ==> ptr@[k] == old(ptr)@[k],
            from_range(ptr@, old(ptr)@, lo as int, hi as int),
        decreases unHi + 1 - unLo,
    {
        let ghost d0 = unHi - unLo;
        while unLo <= unHi
            invariant
                unHi - unLo <= d0,
                in_range(ptr@, n),
                n + BZ_N_OVERSHOOT <= block@.len(),
                0 <= lo < hi < n <= MAX_BLOCK,
                0 <= d <= 15,
                lo <= ltLo <= unLo <= unHi + 1,
                unHi <= gtHi <= hi,
                lo <= pv <= hi,
                block@[ptr@[pv] + d] == med,
                (lo <= pv < ltLo) || (unLo <= pv <= unHi) || (gtHi < pv <= hi),
                ptr@.len() == old(ptr)@.len(),
                forall|k: int| 0 <= k < ptr@.len() && !(lo <= k <= hi) ==> ptr@[k] == old(ptr)@[k],
                from_range(ptr@, old(ptr)@, lo as int, hi as int),
            ensures
                unHi - unLo <= d0,
                in_range(ptr@, n),
                lo <= ltLo <= unLo <= unHi + 1,
                unHi <= gtHi <= hi,
                lo <= pv <= hi,
                block@[ptr@[pv] + d] == med,
                (lo <= pv < ltLo) || (unLo <= pv <= unHi) || (gtHi < pv <= hi),
                unLo <= unHi ==> block@[ptr@[unLo as int] + d] > med,
                ptr@.len() == old(ptr)@.len(),
                forall|k: int| 0 <= k < ptr@.len() && !(lo <= k <= hi) ==> ptr@[k] == old(ptr)@[k],
                from_range(ptr@, old(ptr)@, lo as int, hi as int),
            decreases unHi + 1 - unLo,
        {
            let e = block[(ptr[unLo as usize] + d as u32) as usize];
            if e > med {
                break;
            } else if e == med {
                proof {
                    if pv == unLo as int {
                        pv = ltLo as int;
                    } else if pv == ltLo as int {
                        pv = unLo as int;
                    }
                }
                let ghost before = ptr@;
                swap_in_range(ptr, unLo as usize, ltLo as usize, Ghost(n));
                proof {
                    lemma_from_range_swap(before, unLo as int, ltLo as int, lo as int, hi as int);
                    lemma_from_range_trans(ptr@, before, old(ptr)@, lo as int, hi as int);
                }
                ltLo = ltLo + 1;
                unLo = unLo + 1;
            } else {
                unLo = unLo + 1;
            }
        }
        while unLo <= unHi
            invariant
                unHi - unLo <= d0,
                in_range(ptr@, n),
                n + BZ_N_OVERSHOOT <= block@.len(),
                0 <= lo < hi < n <= MAX_BLOCK,
                0 <= d <= 15,
                lo <= ltLo <= unLo <= unHi + 1,
                unHi <= gtHi <= hi,
                lo <= pv <= hi,
                block@[ptr@[pv] + d] == med,
                (lo <= pv < ltLo) || (unLo <= pv <= unHi) || (gtHi < pv <= hi),
                unLo <= unHi ==> block@[ptr@[unLo as int] + d] > med,
                ptr@.len() == old(ptr)@.len(),
                forall|k: int| 0 <= k < ptr@.len() && !(lo <= k <= hi) ==> ptr@[k] == old(ptr)@[k],
                from_range(ptr@, old(ptr)@, lo as int, hi as int),
            ensures
                unHi - unLo <= d0,
                in_range(ptr@, n),
                lo <= ltLo <= unLo <= unHi + 1,
                unHi <= gtHi <= hi,
                lo <= pv <= hi,
                block@[ptr@[pv] + d] == med,
                (lo <= pv < ltLo) || (unLo <= pv <= unHi) || (gtHi < pv <= hi),
                unLo <= unHi ==> block@[ptr@[unLo as int] + d] > med,
                unLo <= unHi ==> block@[ptr@[unHi as int] + d] < med,
                ptr@.len() == old(ptr)@.len(),
                forall|k: int| 0 <= k < ptr@.len() && !(lo <= k <= hi) ==> ptr@[k] == old(ptr)@[k],
                from_range(ptr@, old(ptr)@, lo as int, hi as int),
            decreases unHi + 1 - unLo,
        {
            let e = block[(ptr[unHi as usize] + d as u32) as usize];
            if e < med {
                break;
            } else if e == med {
                proof {
                    if pv == unHi as int {
                        pv = gtHi as int;
                    } else if pv == gtHi as int {
                        pv = unHi as int;
                    }
                }
                let ghost before = ptr@;
                swap_in_range(ptr, unHi as usize, gtHi as usize, Ghost(n));
                proof {
                    lemma_from_range_swap(before, unHi as int, gtHi as int, lo as int, hi as int);
                    lemma_from_range_trans(ptr@, before, old(ptr)@, lo as int, hi as int);
                }
                gtHi = gtHi - 1;
                unHi = unHi - 1;
            } else {
                unHi = unHi - 1;
            }
        }
        if unLo > unHi {
            break;
        }
        let ghost before = ptr@;
        swap_in_range(ptr, unLo as usize, unHi as usize, Ghost(n));
        proof {
            lemma_from_range_swap(before, unLo as int, unHi as int, lo as int, hi as int);
            lemma_from_range_trans(ptr@, before, old(ptr)@, lo as int, hi as int);
        }
        unLo = unLo + 1;
        unHi = unHi - 1;
    }
    (ltLo, unLo, unHi, gtHi)
}

/// Swaps `ptr[p1 .. p1 + count]` with `ptr[p2 .. p2 + count]`, element by element.
fn vswap_main(ptr: &mut Vec<u32>, p1: i32, p2: i32, count: i32, Ghost(n): Ghost<int>, Ghost(rlo): Ghost<int>, Ghost(rhi): Ghost<int>)
    requires
        rhi < n,
        0 <= rlo <= p1,
        rlo <= p2,
        p1 + count - 1 <= rhi,
        p2 + count - 1 <= rhi,
        in_range(old(ptr)@, n),
        0 <= count,
        0 <= p1,
        0 <= p2,
        p1 + count <= n,
        p2 + count <= n,
        n <= MAX_BLOCK,
    ensures
        in_range(final(ptr)@, n),
        final(ptr)@.len() == old(ptr)@.len(),
        forall|k: int| 0 <= k < final(ptr)@.len() && !(p1 <= k < p1 + count) && !(p2 <= k < p2 + count)
            ==> final(ptr)@[k] == old(ptr)@[k],
        p1 + count <= p2 || p2 + count <= p1 ==> {
            &&& forall|j: int| p1 <= j < p1 + count ==> #[trigger] final(ptr)@[j] == old(ptr)@[j - p1 + p2]
            &&& forall|j: int| p2 <= j < p2 + count ==> #[trigger] final(ptr)@[j] == old(ptr)@[j - p2 + p1]
        },
        p1 == p2 ==> final(ptr)@ == old(ptr)@,
        from_range(final(ptr)@, old(ptr)@, rlo, rhi),
{
    proof { lemma_from_range_refl(ptr@, rlo, rhi); }
    let mut a = p1;
    let mut b = p2;
    let mut m = count;
    while m > 0
        invariant
            p1 + count <= p2 || p2 + count <= p1 ==> {
                &&& forall|j: int| p1 <= j < a ==> #[trigger] ptr@[j] == old(ptr)@[j - p1 + p2]
                &&& forall|j: int| p2 <= j < b ==> #[trigger] ptr@[j] == old(ptr)@[j - p2 + p1]
                &&& forall|j: int| a <= j < p1 + count ==> #[trigger] ptr@[j] == old(ptr)@[j]
                &&& forall|j: int| b <= j < p2 + count ==> #[trigger] ptr@[j] == old(ptr)@[j]
            },
            p1 == p2 ==> ptr@ == old(ptr)@,
            in_range(ptr@, n),
            0 <= m <= count,
            a == p1 + (count - m),
            b == p2 + (count - m),
            p1 + count <= n,
            p2 + count <= n,
            0 <= p1,
            0 <= p2,
            n <= MAX_BLOCK,
            ptr@.len() == old(ptr)@.len(),
            forall|k: int| 0 <= k < ptr@.len() && !(p1 <= k < p1 + count) && !(p2 <= k < p2 + count)
                ==> ptr@[k] == old(ptr)@[k],
            0 <= rlo <= p1,
            rlo <= p2,
            p1 + count - 1 <= rhi,
            p2 + count - 1 <= rhi,
            rhi < n,
            from_range(ptr@, old(ptr)@, rlo, rhi),
        decreases m,
    {
        let ghost before = ptr@;
        swap_in_range(ptr, a as usize, b as usize, Ghost(n));
        proof {
            lemma_from_range_swap(before, a as int, b as int, rlo, rhi);
            lemma_from_range_trans(ptr@, before, old(ptr)@, rlo, rhi);
        }
        a = a + 1;
        b = b + 1;
        m = m - 1;
    }
}

/// Moves the entries equal to the pivot from both ends of `ptr[lo ..= hi]` into the middle,
/// after a three-way split.
fn swap_sides_main(ptr: &mut Vec<u32>, lo: i32, hi: i32, ltLo: i32, unLo: i32, unHi: i32, gtHi: i32, Ghost(n): Ghost<int>)
    requires
        in_range(old(ptr)@, n),
        0 <= lo <= ltLo <= unLo,
        unLo == unHi + 1,
        unHi <= gtHi <= hi,
        hi < n <= MAX_BLOCK,
    ensures
        in_range(final(ptr)@, n),
        final(ptr)@.len() == old(ptr)@.len(),
        forall|k: int| 0 <= k < final(ptr)@.len() && !(lo <= k <= hi) ==> final(ptr)@[k] == old(ptr)@[k],
        from_range(final(ptr)@, old(ptr)@, lo as int, hi as int),
{
    let n1 = if ltLo - lo < unLo - ltLo { ltLo - lo } else { unLo - ltLo };
    let ghost p0 = ptr@;
    vswap_main(ptr, lo, unLo - n1, n1, Ghost(n), Ghost(lo as int), Ghost(hi as int));
    let ghost p1 = ptr@;
    let m1 = if hi - gtHi < gtHi - unHi { hi - gtHi } else { gtHi - unHi };
    vswap_main(ptr, unLo, hi - m1 + 1, m1, Ghost(n), Ghost(lo as int), Ghost(hi as int));
    proof { lemma_from_range_trans(ptr@, p1, p0, lo as int, hi as int); }
}

/// One rearrangement of `lo ..= hi`, inside `loSt ..= hiSt`, after others.
proof fn lemma_range_step(after: Seq<u32>, before: Seq<u32>, orig: Seq<u32>, lo: int, hi: int, loSt: int, hiSt: int)
    requires
        from_range(after, before, lo, hi),
        forall|k: int| 0 <= k < after.len() && !(lo <= k <= hi) ==> after[k] == before[k],
        after.len() == before.len(),
        from_range(before, orig, loSt, hiSt),
        0 <= loSt <= lo,
        hi <= hiSt < after.len(),
    ensures
        from_range(after, orig, loSt, hiSt),
{
    lemma_from_range_widen(after, before, lo, hi, loSt, hiSt);
    lemma_from_range_trans(after, before, orig, loSt, hiSt);
}

/// Three-way radix quicksort of `ptr[loSt ..= hiSt]` by the rotations from `dSt` bytes on
/// (`mainQSort3`): ranges are split by the byte at the current depth, the middle part
/// going one byte deeper; small or deep ranges are shell sorted. Stops once `budget`
/// runs out.
#[verifier::spinoff_prover]
#[verifier::rlimit(100)]
fn mainQSort3(
    ptr: &mut Vec<u32>,
    block: &Vec<u8>,
    quadrant: &Vec<u16>,
    nblock: i32,
    loSt: i32,
    hiSt: i32,
    dSt: i32,
    budget: &mut i64,
)
    requires
        8 <= nblock <= MAX_BLOCK,
        in_range(old(ptr)@, nblock as int),
        0 <= loSt <= hiSt + 1,
        hiSt < nblock,
        0 <= dSt <= 15,
        nblock + BZ_N_OVERSHOOT <= block@.len(),
        nblock + BZ_N_OVERSHOOT <= quadrant@.len(),
        *old(budget) >= 0,
    ensures
        in_range(final(ptr)@, nblock as int),
        final(ptr)@.len() == old(ptr)@.len(),
        *final(budget) <= *old(budget),
        *final(budget) >= -14 * PASS_COST,
        forall|k: int| 0 <= k < final(ptr)@.len() && !(loSt <= k <= hiSt) ==> final(ptr)@[k] == old(ptr)@[k],
        from_range(final(ptr)@, old(ptr)@, loSt as int, hiSt as int),
{
    proof { lemma_from_range_refl(ptr@, loSt as int, hiSt as int); }
    let ghost n = nblock as int;
    let mut stackLo: Vec<i32> = Vec::new();
    let mut stackHi: Vec<i32> = Vec::new();
    let mut stackD: Vec<i32> = Vec::new();
    stackLo.push(loSt);
    stackHi.push(hiSt);
    stackD.push(dSt);
    while stackLo.len() > 0
        invariant
            8 <= nblock <= MAX_BLOCK,
            n == nblock,
            in_range(ptr@, n),
            ptr@.len() == old(ptr)@.len(),
            nblock + BZ_N_OVERSHOOT <= block@.len(),
            nblock + BZ_N_OVERSHOOT <= quadrant@.len(),
            stackLo@.len() == stackHi@.len(),
            stackLo@.len() == stackD@.len(),
            forall|q: int| 0 <= q < stackLo@.len() ==>
                loSt <= #[trigger] stackLo@[q] <= stackHi@[q] + 1 && stackHi@[q] <= hiSt,
            0 <= loSt,
            hiSt < nblock,
            forall|k: int| 0 <= k < ptr@.len() && !(loSt <= k <= hiSt) ==> ptr@[k] == old(ptr)@[k],
            from_range(ptr@, old(ptr)@, loSt as int, hiSt as int),
            forall|q: int| 0 <= q < stackD@.len() ==> 0 <= #[trigger] stackD@[q] <= 15,
            *budget >= 0,
            *budget <= *old(budget),
        decreases qstack_measure(stackLo@, stackHi@, stackD@),
    {
        let ghost slo = stackLo@;
        let ghost shi = stackHi@;
        let ghost sd = stackD@;
        let lo = stackLo.pop().unwrap();
        let hi = stackHi.pop().unwrap();
        let d = stackD.pop().unwrap();
        proof {
            assert(stackLo@ =~= slo.drop_last());
            assert(stackHi@ =~= shi.drop_last());
            assert(stackD@ =~= sd.drop_last());
            assert(lo == slo.last() && hi == shi.last() && d == sd.last());
            assert(loSt <= slo[slo.len() - 1] <= shi[shi.len() - 1] + 1);
            assert(shi[shi.len() - 1] <= hiSt);
            assert(0 <= sd[sd.len() - 1] <= 15);
            lemma_qstack_nonneg(stackLo@, stackHi@, stackD@);
            assert(qstack_measure(slo, shi, sd) == qstack_measure(stackLo@, stackHi@, stackD@)
                + qsort_weight(lo as int, hi as int, d as int));
        }
        if hi - lo < MAIN_QSORT_SMALL_THRESH || d > MAIN_QSORT_DEPTH_THRESH {
            let ghost before = ptr@;
            mainSimpleSort(ptr, block, quadrant, nblock, lo, hi, d, budget);
            proof { lemma_range_step(ptr@, before, old(ptr)@, lo as int, hi as int, loSt as int, hiSt as int); }
            if *budget < 0 {
                return;
            }
            proof {
                assert forall|q: int| 0 <= q < stackLo@.len() implies
                    loSt <= #[trigger] stackLo@[q] <= stackHi@[q] + 1 && stackHi@[q] <= hiSt by {
                    assert(stackLo@[q] == slo[q] && stackHi@[q] == shi[q]);
                }
                assert(qsort_weight(lo as int, hi as int, d as int) >= 1) by (nonlinear_arith)
                    requires d <= 15, lo <= hi + 1;
            }
            continue;
        }
        let a = block[(ptr[lo as usize] + d as u32) as usize];
        let b = block[(ptr[hi as usize] + d as u32) as usize];
        let mid = (lo + hi) / 2;
        let c = block[(ptr[mid as usize] + d as u32) as usize];
        let med = mmed3(a, b, c);
        let ghost pv: int = if med == a { lo as int } else if med == b { hi as int } else { mid as int };
        let ghost before = ptr@;
        let (ltLo, unLo, unHi, gtHi) = partition_main(ptr, block, lo, hi, d, med, Ghost(pv), Ghost(n));
        proof { lemma_range_step(ptr@, before, old(ptr)@, lo as int, hi as int, loSt as int, hiSt as int); }
        if gtHi < ltLo {
            let ghost base_lo = stackLo@;
            let ghost base_hi = stackHi@;
            let ghost base_d = stackD@;
            stackLo.push(lo);
            stackHi.push(hi);
            stackD.push(d + 1);
            proof {
                assert(stackLo@ =~= base_lo.push(lo));
                assert(stackHi@ =~= base_hi.push(hi));
                assert forall|q: int| 0 <= q < stackLo@.len() implies
                    loSt <= #[trigger] stackLo@[q] <= stackHi@[q] + 1 && stackHi@[q] <= hiSt by {
                    if q < base_lo.len() {
                        assert(stackLo@[q] == base_lo[q] && stackHi@[q] == base_hi[q]);
                    }
                }
                lemma_qstack_push(base_lo, base_hi, base_d, lo, hi, (d + 1) as i32);
                let s: int = hi - lo + 1;
                assert(3 * s * (16 - (d + 1)) < 3 * s * (16 - d)) by (nonlinear_arith)
                    requires s >= 1;
            }
            continue;
        }
        let ghost before = ptr@;
        swap_sides_main(ptr, lo, hi, ltLo, unLo, unHi, gtHi, Ghost(n));
        proof { lemma_range_step(ptr@, before, old(ptr)@, lo as int, hi as int, loSt as int, hiSt as int); }
        let nn = lo + unLo - ltLo - 1;
        let mm = hi - (gtHi - unHi) + 1;
        let mut next = [(lo, nn, d), (mm, hi, d), (nn + 1, mm - 1, d + 1)];
        if next[0].1 - next[0].0 < next[1].1 - next[1].0 {
            let t = next[0];
            next[0] = next[1];
            next[1] = t;
        }
        if next[1].1 - next[1].0 < next[2].1 - next[2].0 {
            let t = next[1];
            next[1] = next[2];
            next[2] = t;
        }
        if next[0].1 - next[0].0 < next[1].1 - next[1].0 {
            let t = next[0];
            next[0] = next[1];
            next[1] = t;
        }
        let ghost base_lo = stackLo@;
        let ghost base_hi = stackHi@;
        let ghost base_d = stackD@;
        let (l0, h0, d0) = next[0];
        let (l1, h1, d1) = next[1];
        let (l2, h2, d2) = next[2];
        stackLo.push(l0);
        stackHi.push(h0);
        stackD.push(d0);
        stackLo.push(l1);
        stackHi.push(h1);
        stackD.push(d1);
        stackLo.push(l2);
        stackHi.push(h2);
        stackD.push(d2);
        proof {
            lemma_qstack_push(base_lo, base_hi, base_d, l0, h0, d0);
            lemma_qstack_push(base_lo.push(l0), base_hi.push(h0), base_d.push(d0), l1, h1, d1);
            lemma_qstack_push(base_lo.push(l0).push(l1), base_hi.push(h0).push(h1), base_d.push(d0).push(d1), l2, h2, d2);
            assert(stackLo@ =~= base_lo.push(l0).push(l1).push(l2));
            assert(stackHi@ =~= base_hi.push(h0).push(h1).push(h2));
            assert(stackD@ =~= base_d.push(d0).push(d1).push(d2));
            assert(loSt <= l0 <= h0 + 1 && h0 <= hiSt);
            assert(loSt <= l1 <= h1 + 1 && h1 <= hiSt);
            assert(loSt <= l2 <= h2 + 1 && h2 <= hiSt);
            assert forall|q: int| 0 <= q < stackLo@.len() implies
                loSt <= #[trigger] stackLo@[q] <= stackHi@[q] + 1 && stackHi@[q] <= hiSt by {
                if q < base_lo.len() {
                    assert(stackLo@[q] == base_lo[q] && stackHi@[q] == base_hi[q]);
                }
            }
            let s1: int = unLo - ltLo;
            let s2: int = gtHi - unHi;
            let s3: int = (ltLo - lo) + (hi - gtHi);
            assert(qsort_weight(lo as int, nn as int, d as int) == 1 + 3 * s1 * (16 - d));
            assert(qsort_weight(mm as int, hi as int, d as int) == 1 + 3 * s2 * (16 - d));
            assert(qsort_weight(nn + 1, mm - 1, d + 1) == 1 + 3 * s3 * (16 - (d + 1)));
            assert(qsort_weight(lo as int, hi as int, d as int) == 1 + 3 * (s1 + s2 + s3) * (16 - d));
            assert(3 + 3 * s1 * (16 - d) + 3 * s2 * (16 - d) + 3 * s3 * (16 - (d + 1))
                < 1 + 3 * (s1 + s2 + s3) * (16 - d)) by (nonlinear_arith)
                requires s3 >= 1;
            assert(qsort_weight(l0 as int, h0 as int, d0 as int) + qsort_weight(l1 as int, h1 as int, d1 as int)
                + qsort_weight(l2 as int, h2 as int, d2 as int)
                == qsort_weight(lo as int, nn as int, d as int) + qsort_weight(mm as int, hi as int, d as int)
                + qsort_weight(nn + 1, mm - 1, d + 1));
        }
    }
}

} // verus!

verus! {

/// Marks a small bucket of `ftab` whose entries are in their final order.
const SETMASK: u32 = 0x0020_0000;

/// Clears that mark.
const CLEARMASK: u32 = 0xffdf_ffff;

/// How many rotations start with a byte `b` (`BIGFREQ`), from the bucket starts in `ftab`.
fn big_freq(ftab: &Vec<u32>, b: usize) -> (f: u32)
    requires
        ftab@.len() == FTAB_LEN,
        b < 256,
    ensures
        f as int == (if ftab@[(b + 1) * 256] >= ftab@[b * 256] {
            ftab@[(b + 1) * 256] - ftab@[b * 256]
        } else {
            ftab@[(b + 1) * 256] - ftab@[b * 256] + 0x1_0000_0000
        }),
{
    ftab[(b + 1) * 256].wrapping_sub(ftab[b * 256])
}

/// Sorts the rotations of `block[0 .. nblock]` into `ptr` (`mainSort`): a radix sort on
/// the first two bytes, then each big bucket (rotations with the same first byte), smallest
/// first, by quicksorting its small buckets and deriving from the result the order of
/// the small buckets `[b, ss]` of the others; `quadrant` caches the ranks found so far for
/// later comparisons. Gives up, leaving `budget` negative, once the work budget runs out;
/// and likewise, with `budget` at -1, should the bucket bookkeeping not add up, which a
/// correct count never allows.
#[verifier::loop_isolation(false)]
#[verifier::rlimit(40)]
pub fn mainSort(
    ptr: &mut Vec<u32>,
    block: &mut Vec<u8>,
    quadrant: &mut Vec<u16>,
    ftab: &mut Vec<u32>,
    nblock: i32,
    budget: &mut i64,
)
    requires
        8 <= nblock <= MAX_BLOCK,
        in_range(old(ptr)@, nblock as int),
        old(block)@.len() == nblock + BZ_N_OVERSHOOT,
        old(quadrant)@.len() == nblock + BZ_N_OVERSHOOT,
        old(ftab)@.len() == FTAB_LEN,
        forall|k: int| 0 <= k < FTAB_LEN ==> old(ftab)@[k] == 0,
        *old(budget) >= 0,
    ensures
        in_range(final(ptr)@, nblock as int),
        final(ptr)@.len() == old(ptr)@.len(),
        final(block)@.len() == old(block)@.len(),
        final(block)@.subrange(0, nblock as int) == old(block)@.subrange(0, nblock as int),
        final(quadrant)@.len() == old(quadrant)@.len(),
        final(ftab)@.len() == FTAB_LEN,
        *final(budget) <= *old(budget),
        overshoot_ok(final(block)@, nblock as int),
        *final(budget) >= 0 ==> is_perm(final(ptr)@, nblock as int)
            && rotations_sorted(final(block)@, nblock as int, final(ptr)@),
{
    let ghost n0 = nblock as int;
    let ghost b0 = *budget;
    let ghost blk0 = block@;
    let n = nblock as usize;

    // Counts of each pair of leading bytes.
    let mut j: usize = (block[0] as usize) * 256;
    let mut i: usize = n;
    while i > 0
        invariant
            i <= n,
            j < 65536,
            ftab@.len() == FTAB_LEN,
            forall|k: int| 0 <= k < FTAB_LEN ==> ftab@[k] <= n - i,
        decreases i,
    {
        i = i - 1;
        j = j / 256 + (block[i] as usize) * 256;
        let f = ftab[j];
        ftab.set(j, f + 1);
    }

    // The first bytes again past the end, so that comparisons need not wrap at once.
    let mut t: usize = 0;
    while t < BZ_N_OVERSHOOT
        invariant
            t <= BZ_N_OVERSHOOT,
            block@.len() == blk0.len(),
            blk0.len() == n + BZ_N_OVERSHOOT,
            n >= 1,
            block@.subrange(0, n as int) == blk0.subrange(0, n as int),
            forall|k: int| 0 <= k < t ==> #[trigger] block@[n + k] == block@[k],
        decreases BZ_N_OVERSHOOT - t,
    {
        let c = block[t];
        block.set(n + t, c);
        t = t + 1;
        assert(block@.subrange(0, n as int) =~= blk0.subrange(0, n as int));
    }
    let ghost blk1 = block@;
    assert(overshoot_ok(blk1, n as int));

    // Bucket ends.
    let mut k: usize = 1;
    while k < FTAB_LEN
        invariant
            1 <= k <= FTAB_LEN,
            ftab@.len() == FTAB_LEN,
            forall|q: int| 0 <= q < FTAB_LEN ==> ftab@[q] <= n,
            *budget == b0,
        decreases FTAB_LEN - k,
    {
        let a = ftab[k - 1];
        let b = ftab[k];
        if a + b > n as u32 {
            *budget = -1;
            return;
        }
        ftab.set(k, a + b);
        k = k + 1;
    }

    // Each rotation into its bucket, filling buckets from their ends.
    let mut s: usize = (block[0] as usize) * 256;
    let mut i: usize = n;
    while i > 0
        invariant
            i <= n,
            s < 65536,
            ftab@.len() == FTAB_LEN,
            forall|q: int| 0 <= q < FTAB_LEN ==> ftab@[q] <= n,
            in_range(ptr@, n as int),
            ptr@.len() == old(ptr)@.len(),
            *budget == b0,
        decreases i,
    {
        i = i - 1;
        s = s / 256 + (block[i] as usize) * 256;
        let f = ftab[s];
        if f == 0 {
            *budget = -1;
            return;
        }
        ftab.set(s, f - 1);
        ptr.set((f - 1) as usize, i as u32);
    }

    // The big buckets, smallest first.
    let mut running_order: Vec<usize> = Vec::new();
    let mut r: usize = 0;
    while r < 256
        invariant
            r <= 256,
            running_order@.len() == r,
            forall|q: int| 0 <= q < r ==> (#[trigger] running_order@[q]) < 256,
        decreases 256 - r,
    {
        running_order.push(r);
        r = r + 1;
    }
    let mut h: usize = 1;
    while h <= 256
        invariant
            h == 1 || h == 4 || h == 13 || h == 40 || h == 121 || h == 364,
        decreases 400 - h,
    {
        h = 3 * h + 1;
    }
    loop
        invariant
            h == 4 || h == 13 || h == 40 || h == 121 || h == 364,
            running_order@.len() == 256,
            forall|q: int| 0 <= q < 256 ==> (#[trigger] running_order@[q]) < 256,
            ftab@.len() == FTAB_LEN,
        decreases h,
    {
        h = h / 3;
        let mut i: usize = h;
        while i <= 255
            invariant
                1 <= h <= 121,
                h <= i <= 256,
                running_order@.len() == 256,
                forall|q: int| 0 <= q < 256 ==> (#[trigger] running_order@[q]) < 256,
                ftab@.len() == FTAB_LEN,
            decreases 256 - i,
        {
            let vv = running_order[i];
            let mut j: usize = i;
            while big_freq(ftab, running_order[j - h]) > big_freq(ftab, vv)
                invariant
                    1 <= h <= 121,
                    h <= j <= i <= 255,
                    vv < 256,
                    running_order@.len() == 256,
                    forall|q: int| 0 <= q < 256 ==> (#[trigger] running_order@[q]) < 256,
                    ftab@.len() == FTAB_LEN,
                decreases j,
            {
                let x = running_order[j - h];
                running_order.set(j, x);
                j = j - h;
                if j <= h - 1 {
                    break;
                }
            }
            running_order.set(j, vv);
            i = i + 1;
        }
        if h == 1 {
            break;
        }
    }

    let mut big_done: Vec<bool> = vec![false; 256];
    let mut copy_start: Vec<i64> = vec![0i64; 256];
    let mut copy_end: Vec<i64> = vec![0i64; 256];
    let nn = n as i64;
    let mut ii: usize = 0;
    while ii < 256
        invariant
            ii <= 256,
            nn == n,
            running_order@.len() == 256,
            forall|q: int| 0 <= q < 256 ==> (#[trigger] running_order@[q]) < 256,
            ftab@.len() == FTAB_LEN,
            in_range(ptr@, n as int),
            ptr@.len() == old(ptr)@.len(),
            block@.len() == blk0.len(),
            block@.subrange(0, n as int) == blk0.subrange(0, n as int),
            quadrant@.len() == old(quadrant)@.len(),
            big_done@.len() == 256,
            copy_start@.len() == 256,
            copy_end@.len() == 256,
            forall|q: int| 0 <= q < 256 ==> 0 <= #[trigger] copy_start@[q] <= 0x1_0000_0000,
            forall|q: int| 0 <= q < 256 ==> -1 <= #[trigger] copy_end@[q] <= 0x1_0000_0000,
            0 <= *budget <= b0,
        decreases 256 - ii,
    {
        let ss = running_order[ii];

        // Step 1: quicksort the small buckets [ss, j] not yet in order.
        let mut jj: usize = 0;
        while jj < 256
            invariant
                jj <= 256,
                ss < 256,
                ftab@.len() == FTAB_LEN,
                in_range(ptr@, n as int),
                ptr@.len() == old(ptr)@.len(),
                0 <= *budget <= b0,
            decreases 256 - jj,
        {
            if jj != ss {
                let sb = ss * 256 + jj;
                if ftab[sb] & SETMASK == 0 {
                    let lo: i64 = (ftab[sb] & CLEARMASK) as i64;
                    let hi: i64 = (ftab[sb + 1] & CLEARMASK) as i64 - 1;
                    if hi > lo {
                        if hi >= nn {
                            *budget = -1;
                            return;
                        }
                        mainQSort3(ptr, block, quadrant, nblock, lo as i32, hi as i32, 2, budget);
                        if *budget < 0 {
                            return;
                        }
                    }
                }
                let f = ftab[sb];
                ftab.set(sb, f | SETMASK);
            }
            jj = jj + 1;
        }
        if big_done[ss] {
            *budget = -1;
            return;
        }

        // Step 2: from the big bucket [ss], the order of the small buckets [b, ss] for
        // every big bucket b not done yet, [ss, ss] included.
        let mut c: usize = 0;
        while c < 256
            invariant
                c <= 256,
                ss < 256,
                ftab@.len() == FTAB_LEN,
                copy_start@.len() == 256,
                copy_end@.len() == 256,
                forall|q: int| 0 <= q < 256 ==> 0 <= #[trigger] copy_start@[q] <= 0x1_0000_0000,
                forall|q: int| 0 <= q < 256 ==> -1 <= #[trigger] copy_end@[q] <= 0x1_0000_0000,
                0 <= *budget <= b0,
            decreases 256 - c,
        {
            copy_start.set(c, (ftab[c * 256 + ss] & CLEARMASK) as i64);
            copy_end.set(c, (ftab[c * 256 + ss + 1] & CLEARMASK) as i64 - 1);
            c = c + 1;
        }
        let mut j: i64 = (ftab[ss * 256] & CLEARMASK) as i64;
        while j < copy_start[ss]
            invariant
                ss < 256,
                0 <= j,
                nn == n,
                block@.len() == blk0.len(),
                in_range(ptr@, n as int),
                ptr@.len() == old(ptr)@.len(),
                copy_start@.len() == 256,
                copy_end@.len() == 256,
                big_done@.len() == 256,
                forall|q: int| 0 <= q < 256 ==> 0 <= #[trigger] copy_start@[q] <= 0x1_0000_0000,
                forall|q: int| 0 <= q < 256 ==> -1 <= #[trigger] copy_end@[q] <= 0x1_0000_0000,
                0 <= *budget <= b0,
            decreases (if j <= nn { nn - j } else { 0 }),
        {
            if j >= nn {
                *budget = -1;
                return;
            }
            let p = ptr[j as usize];
            let k: usize = if p == 0 { n - 1 } else { (p - 1) as usize };
            let c1 = block[k] as usize;
            if !big_done[c1] {
                let cs = copy_start[c1];
                if cs < 0 || cs >= nn {
                    *budget = -1;
                    return;
                }
                ptr.set(cs as usize, k as u32);
                copy_start.set(c1, cs + 1);
            }
            j = j + 1;
        }
        let mut j: i64 = (ftab[(ss + 1) * 256] & CLEARMASK) as i64 - 1;
        while j > copy_end[ss]
            invariant
                ss < 256,
                j >= -1,
                nn == n,
                block@.len() == blk0.len(),
                in_range(ptr@, n as int),
                ptr@.len() == old(ptr)@.len(),
                copy_start@.len() == 256,
                copy_end@.len() == 256,
                big_done@.len() == 256,
                forall|q: int| 0 <= q < 256 ==> 0 <= #[trigger] copy_start@[q] <= 0x1_0000_0000,
                forall|q: int| 0 <= q < 256 ==> -1 <= #[trigger] copy_end@[q] <= 0x1_0000_0000,
                0 <= *budget <= b0,
            decreases j + 1,
        {
            if j < 0 || j >= nn {
                *budget = -1;
                return;
            }
            let p = ptr[j as usize];
            let k: usize = if p == 0 { n - 1 } else { (p - 1) as usize };
            let c1 = block[k] as usize;
            if !big_done[c1] {
                let ce = copy_end[c1];
                if ce < 0 || ce >= nn {
                    *budget = -1;
                    return;
                }
                ptr.set(ce as usize, k as u32);
                copy_end.set(c1, ce - 1);
            }
            j = j - 1;
        }
        if !(copy_start[ss] - 1 == copy_end[ss] || (copy_start[ss] == 0 && copy_end[ss] == nn - 1)) {
            *budget = -1;
            return;
        }
        let mut c: usize = 0;
        while c < 256
            invariant
                c <= 256,
                ss < 256,
                ftab@.len() == FTAB_LEN,
                0 <= *budget <= b0,
            decreases 256 - c,
        {
            let f = ftab[c * 256 + ss];
            ftab.set(c * 256 + ss, f | SETMASK);
            c = c + 1;
        }

        // Step 3: the big bucket [ss] is done; its ranks go into the quadrant marks.
        big_done.set(ss, true);
        if ii < 255 {
            let bb_start: i64 = (ftab[ss * 256] & CLEARMASK) as i64;
            let bb_size: i64 = (ftab[(ss + 1) * 256] & CLEARMASK) as i64 - bb_start;
            if bb_size < 0 || bb_start + bb_size > nn {
                *budget = -1;
                return;
            }
            mark_bucket_ranks(ptr, quadrant, bb_start, bb_size, n);
        }
        ii = ii + 1;
    }

    // The sorted list is checked before it is handed on; one that fails the check counts
    // as a sort that gave up.
    if *budget >= 0 {
        match perm_check(ptr, n) {
            Some(g) => {
                if !rotations_in_order(block, n, ptr, g) {
                    *budget = -1;
                } else {
                    proof { lemma_perm_inv_is_perm(ptr@, n as int, g@); }
                }
            },
            None => {
                *budget = -1;
            },
        }
    }
}

} // verus!

verus! {

/// Whether no position of a bucket from its start `lo` up to `k` holds the entry that
/// position `k` holds.
pub open spec fn first_in_bucket(ptr: Seq<u32>, lo: int, k: int) -> bool {
    forall|k2: int| lo <= k2 < k ==> ptr[k2] != ptr[k]
}

/// Whether `x` is one of the entries `ptr[lo .. hi]`, or lies `n` past one.
pub open spec fn marked_by(ptr: Seq<u32>, lo: int, hi: int, n: int, x: int) -> bool {
    exists|k: int| lo <= k < hi && (x == ptr[k] as int || x == ptr[k] + n)
}

proof fn lemma_rank_shift(a: i64, b: i64, s: u32)
    by (bit_vector)
    requires
        0 <= a <= b,
        b < 0x8000_0000,
        s <= 31,
    ensures
        0 <= a >> s,
        a >> s <= b >> s,
        s == 0 ==> a >> s == a,
        s == 31 ==> b >> s == 0,
{
}

/// Ranks `2 * (bb / 65535 + 1)` or more apart stay apart once scaled down by the fewest
/// halvings that bring `bb` under 65535.
proof fn lemma_rank_gap(a: i64, b: i64, bb: i64, s: u32)
    by (bit_vector)
    requires
        0 <= a <= b,
        b < bb,
        bb < 0x8000_0000,
        s <= 31,
        s >= 1 ==> (bb >> ((s - 1) as u32)) > 65534,
        b - a >= 2 * (bb / 65535 + 1),
    ensures
        (a >> s) < (b >> s),
{
}

/// Marks each rotation of a sorted big bucket `ptr[bb_start .. bb_start + bb_size]` in the
/// quadrant with its rank in the bucket, scaled down so that the ranks fit in 16 bits, and
/// copies the marks of the first `BZ_N_OVERSHOOT` positions past the block's end. The marks
/// keep the bucket's order: a later rotation never gets a smaller mark, rotations
/// `2 * (bb_size / 65535 + 1)` or more places apart get different marks, and a bucket of
/// fewer than 65535 rotations marks each with its exact rank.
fn mark_bucket_ranks(ptr: &Vec<u32>, quadrant: &mut Vec<u16>, bb_start: i64, bb_size: i64, n: usize)
    requires
        0 <= bb_start,
        0 <= bb_size,
        bb_start + bb_size <= n <= MAX_BLOCK,
        in_range(ptr@, n as int),
        old(quadrant)@.len() == n + BZ_N_OVERSHOOT,
    ensures
        final(quadrant)@.len() == old(quadrant)@.len(),
        forall|k1: int, k2: int|
            0 <= k1 <= k2 < bb_size && first_in_bucket(ptr@, bb_start as int, bb_start + k1)
                && first_in_bucket(ptr@, bb_start as int, bb_start + k2) ==>
                #[trigger] final(quadrant)@[ptr@[bb_start + k1] as int] <= #[trigger] final(quadrant)@[ptr@[bb_start + k2] as int],
        forall|k1: int, k2: int|
            0 <= k1 < k2 < bb_size && k2 - k1 >= 2 * (bb_size / 65535 + 1)
                && first_in_bucket(ptr@, bb_start as int, bb_start + k1)
                && first_in_bucket(ptr@, bb_start as int, bb_start + k2) ==>
                #[trigger] final(quadrant)@[ptr@[bb_start + k1] as int] < #[trigger] final(quadrant)@[ptr@[bb_start + k2] as int],
        bb_size <= 65534 ==> forall|k: int|
            0 <= k < bb_size && first_in_bucket(ptr@, bb_start as int, bb_start + k) ==>
                final(quadrant)@[#[trigger] ptr@[bb_start + k] as int] == k,
        forall|k: int|
            0 <= k < bb_size && first_in_bucket(ptr@, bb_start as int, bb_start + k) && ptr@[bb_start + k] < BZ_N_OVERSHOOT ==>
                final(quadrant)@[#[trigger] ptr@[bb_start + k] + n] == final(quadrant)@[ptr@[bb_start + k] as int],
        forall|x: int| 0 <= x < final(quadrant)@.len() && !marked_by(ptr@, bb_start as int, bb_start + bb_size, n as int, x)
            ==> #[trigger] final(quadrant)@[x] == old(quadrant)@[x],
{
    proof {
        lemma_rank_shift(bb_size, bb_size, 0);
    }
    let mut shifts: u32 = 0;
    while shifts < 31 && (bb_size >> shifts) > 65534
        invariant
            shifts <= 31,
            0 <= bb_size <= MAX_BLOCK,
            bb_size <= 65534 ==> shifts == 0,
            bb_size >> 0u32 == bb_size,
            shifts >= 1 ==> (bb_size >> ((shifts - 1) as u32)) > 65534,
        decreases 31 - shifts,
    {
        shifts = shifts + 1;
    }
    proof {
        lemma_rank_shift(bb_size, bb_size, shifts);
    }
    let ghost bs = bb_start as int;
    let mut j: i64 = bb_size - 1;
    while j >= 0
        invariant
            -1 <= j < bb_size,
            0 <= bb_start,
            bb_start + bb_size <= n <= MAX_BLOCK,
            bs == bb_start,
            shifts <= 31,
            (bb_size >> shifts) <= 65534,
            bb_size <= 65534 ==> shifts == 0,
            shifts >= 1 ==> (bb_size >> ((shifts - 1) as u32)) > 65534,
            in_range(ptr@, n as int),
            quadrant@.len() == n + BZ_N_OVERSHOOT,
            forall|k: int| j < k < bb_size && first_in_bucket(ptr@, bs + j + 1, bs + k) ==> {
                &&& #[trigger] quadrant@[ptr@[bs + k] as int] as int == ((k as i64) >> shifts) as int
                &&& ptr@[bs + k] < BZ_N_OVERSHOOT ==> quadrant@[ptr@[bs + k] + n] as int == ((k as i64) >> shifts) as int
            },
            forall|x: int| 0 <= x < quadrant@.len() && !marked_by(ptr@, bs + j + 1, bs + bb_size, n as int, x)
                ==> #[trigger] quadrant@[x] == old(quadrant)@[x],
        decreases j + 1,
    {
        let a2update = ptr[(bb_start + j) as usize] as usize;
        proof {
            lemma_rank_shift(j, bb_size, shifts);
            assert(ptr@[bs + j] < n);
        }
        let ghost q0 = quadrant@;
        let q_val = #[verifier::truncate] ((j >> shifts) as u16);
        assert(q_val as int == (j >> shifts) as int);
        quadrant.set(a2update, q_val);
        if a2update < BZ_N_OVERSHOOT {
            quadrant.set(a2update + n, q_val);
        }
        proof {
            assert forall|k: int| j - 1 < k < bb_size && first_in_bucket(ptr@, bs + j, bs + k) implies {
                &&& #[trigger] quadrant@[ptr@[bs + k] as int] as int == ((k as i64) >> shifts) as int
                &&& ptr@[bs + k] < BZ_N_OVERSHOOT ==> quadrant@[ptr@[bs + k] + n] as int == ((k as i64) >> shifts) as int
            } by {
                assert(ptr@[bs + k] < n);
                if k > j {
                    assert(ptr@[bs + j] != ptr@[bs + k]);
                    assert(first_in_bucket(ptr@, bs + j + 1, bs + k));
                    assert(q0[ptr@[bs + k] as int] as int == ((k as i64) >> shifts) as int);
                    assert(quadrant@[ptr@[bs + k] as int] == q0[ptr@[bs + k] as int]);
                    if ptr@[bs + k] < BZ_N_OVERSHOOT {
                        assert(quadrant@[ptr@[bs + k] + n] == q0[ptr@[bs + k] + n]);
                    }
                } else {
                    assert(k == j);
                }
            }
            assert forall|x: int| 0 <= x < quadrant@.len() && !marked_by(ptr@, bs + j, bs + bb_size, n as int, x)
                implies #[trigger] quadrant@[x] == old(quadrant)@[x] by {
                assert(x != ptr@[bs + j] as int && x != ptr@[bs + j] + n);
                assert(!marked_by(ptr@, bs + j + 1, bs + bb_size, n as int, x));
            }
        }
        j = j - 1;
    }
    proof {
        assert forall|k1: int, k2: int|
            0 <= k1 <= k2 < bb_size && first_in_bucket(ptr@, bb_start as int, bb_start + k1)
                && first_in_bucket(ptr@, bb_start as int, bb_start + k2) implies
                #[trigger] quadrant@[ptr@[bb_start + k1] as int] <= #[trigger] quadrant@[ptr@[bb_start + k2] as int] by {
            lemma_rank_shift(k1 as i64, k2 as i64, shifts);
        }
        assert forall|k: int|
            0 <= k < bb_size && first_in_bucket(ptr@, bb_start as int, bb_start + k) && ptr@[bb_start + k] < BZ_N_OVERSHOOT implies
                quadrant@[#[trigger] ptr@[bb_start + k] + n] == quadrant@[ptr@[bb_start + k] as int] by {
        }
        assert forall|k1: int, k2: int|
            0 <= k1 < k2 < bb_size && k2 - k1 >= 2 * (bb_size / 65535 + 1)
                && first_in_bucket(ptr@, bb_start as int, bb_start + k1)
                && first_in_bucket(ptr@, bb_start as int, bb_start + k2) implies
                #[trigger] quadrant@[ptr@[bb_start + k1] as int] < #[trigger] quadrant@[ptr@[bb_start + k2] as int] by {
            lemma_rank_gap(k1 as i64, k2 as i64, bb_size, shifts);
        }
        if bb_size <= 65534 {
            assert forall|k: int|
                0 <= k < bb_size && first_in_bucket(ptr@, bb_start as int, bb_start + k) implies
                    quadrant@[#[trigger] ptr@[bb_start + k] as int] == k by {
                    lemma_rank_shift(k as i64, bb_size, shifts);
            }
        }
    }
}

/// Checks that `ptr[0 .. n]` is a permutation of `0 .. n`; when it is, returns where
/// each value sits.
fn perm_check(ptr: &Vec<u32>, n: usize) -> (r: Option<Ghost<Seq<int>>>)
    requires
        n <= ptr@.len(),
    ensures
        r matches Some(g) ==> perm_inv(ptr@, n as int, g@),
        r is None ==> !is_bijection(ptr@, n as int),
{
    let mut seen: Vec<bool> = vec![false; n];
    let ghost mut inv: Seq<int> = Seq::new(n as nat, |v: int| 0int);
    let mut i: usize = 0;
    while i < n
        invariant
            i <= n <= ptr@.len(),
            seen@.len() == n,
            inv.len() == n,
            forall|k: int| 0 <= k < i ==> (#[trigger] ptr@[k] as int) < n,
            forall|v: int| 0 <= v < n && #[trigger] seen@[v] ==> 0 <= inv[v] < i && ptr@[inv[v]] as int == v,
            forall|v: int| 0 <= v < n && !(#[trigger] seen@[v]) ==> !occurs_before(ptr@, i as int, v),
        decreases n - i,
    {
        let v = ptr[i] as usize;
        if v >= n {
            return None;
        }
        if seen[v] {
            proof {
                assert(ptr@[inv[v as int]] == ptr@[i as int]);
            }
            return None;
        }
        seen.set(v, true);
        proof {
            inv = inv.update(v as int, i as int);
        }
        i = i + 1;
    }
    let mut v: usize = 0;
    while v < n
        invariant
            v <= n <= ptr@.len(),
            seen@.len() == n,
            forall|w: int| 0 <= w < v ==> #[trigger] seen@[w],
            forall|w: int| 0 <= w < n && !(#[trigger] seen@[w]) ==> !occurs_before(ptr@, n as int, w),
        decreases n - v,
    {
        if !seen[v] {
            proof {
                assert(!occurs_before(ptr@, n as int, v as int));
            }
            return None;
        }
        v = v + 1;
    }
    proof {
        assert forall|w: int| 0 <= w < n implies 0 <= #[trigger] inv[w] < n && ptr@[inv[w]] as int == w by {
            assert(seen@[w]);
        }
    }
    Some(Ghost(inv))
}

/// Sorts the rotations of the current block (`BZ2_blockSort`): afterwards `s.ptr[0 .. nblock]`
/// is a permutation of `0 .. nblock`, which the sorts leave in the order of the rotations,
/// and `s.origPtr` is where the unrotated block (rotation 0) ended up. Blocks of fewer than
/// 10000 bytes go to the fallback sort; longer ones to the main sort, and to the fallback
/// sort after all when the main sort runs out of its work budget (`workFactor` per byte,
/// roughly) or its result is not a permutation.
pub fn BZ2_blockSort(s: &mut crate::compress::EState)
    requires
        old(s).wf(),
        old(s).nblock > 0,
    ensures
        final(s).wf(),
        old(s).same_but_sort(&*final(s)),
        is_perm(final(s).ptr@, final(s).nblock as int),
        rotations_sorted(final(s).block@, final(s).nblock as int, final(s).ptr@),
        0 <= final(s).origPtr < final(s).nblock,
        final(s).ptr@[final(s).origPtr as int] == 0,
{
    let nblock = s.nblock as usize;
    let mut z: usize = 0;
    while z < FTAB_LEN
        invariant
            z <= FTAB_LEN,
            s.wf(),
            old(s).same_but_sort(&*s),
            nblock == s.nblock,
            nblock > 0,
            forall|k: int| 0 <= k < z ==> s.ftab@[k] == 0,
        decreases FTAB_LEN - z,
    {
        s.ftab.set(z, 0);
        z = z + 1;
    }
    let mut inv: Ghost<Seq<int>>;
    if nblock < 10000 {
        inv = fallbackSort(&mut s.ptr, &mut s.eclass, &mut s.ftab, &s.block, nblock);
    } else {
        let mut blk = crate::bzlib::copy_prefix(&s.block, nblock + BZ_N_OVERSHOOT);
        let mut quadrant: Vec<u16> = vec![0u16; nblock + BZ_N_OVERSHOOT];
        let mut k: usize = 0;
        while k < nblock
            invariant
                k <= nblock,
                s.wf(),
                old(s).same_but_sort(&*s),
                nblock == s.nblock,
                forall|q: int| 0 <= q < k ==> s.ptr@[q] == 0,
                forall|q: int| 0 <= q < FTAB_LEN ==> s.ftab@[q] == 0,
            decreases nblock - k,
        {
            s.ptr.set(k, 0);
            k = k + 1;
        }
        let wfact: i32 = if s.workFactor < 1 { 1 } else if s.workFactor > 100 { 100 } else { s.workFactor };
        let per_byte: i64 = ((wfact - 1) / 3) as i64;
        assert((nblock as i64) * per_byte <= 900000 * 33) by (nonlinear_arith)
            requires nblock <= 900000, 0 <= per_byte <= 33;
        let mut budget: i64 = (nblock as i64) * per_byte;
        mainSort(&mut s.ptr, &mut blk, &mut quadrant, &mut s.ftab, nblock as i32, &mut budget);
        let checked = if budget < 0 { None } else { perm_check(&s.ptr, nblock) };
        match checked {
            Some(g) => {
                inv = g;
                if !rotations_in_order(&s.block, nblock, &s.ptr, g) {
                    inv = fallbackSort(&mut s.ptr, &mut s.eclass, &mut s.ftab, &s.block, nblock);
                }
            },
            None => {
                inv = fallbackSort(&mut s.ptr, &mut s.eclass, &mut s.ftab, &s.block, nblock);
            },
        }
    }
    // Whichever sort ran, its order is checked; a list that fails the check is sorted by
    // inserting whole rotations, so only ordered rotations leave here.
    if !rotations_in_order(&s.block, nblock, &s.ptr, inv) {
        inv = sort_rotations_by_insertion(&s.block, nblock, &mut s.ptr, inv);
    }
    proof {
        lemma_perm_inv_is_perm(s.ptr@, nblock as int, inv@);
    }
    let mut i: usize = 0;
    while i < nblock
        invariant
            i <= nblock,
            nblock == s.nblock,
            s.wf(),
            old(s).same_but_sort(&*s),
            nblock <= s.ptr@.len(),
            perm_inv(s.ptr@, nblock as int, inv@),
            rotations_sorted(s.block@, nblock as int, s.ptr@),
            forall|k: int| 0 <= k < i ==> s.ptr@[k] != 0,
        decreases nblock - i,
    {
        if s.ptr[i] == 0 {
            s.origPtr = i as i32;
            proof {
                lemma_perm_inv_is_perm(s.ptr@, nblock as int, inv@);
            }
            return;
        }
        i = i + 1;
    }
    proof {
        assert(s.ptr@[inv@[0]] == 0);
        assert(false);
    }
    s.origPtr = 0;
}

} // verus!

verus! {

/// The rotations of `block[0 .. n]` listed in `p[0 .. n]` come in ascending order.
pub open spec fn rotations_sorted(block: Seq<u8>, n: int, p: Seq<u32>) -> bool {
    forall|i: int| 0 <= i < n - 1 ==> !rot_gt(block, n, #[trigger] p[i] as int, p[i + 1] as int)
}

/// Shifting `block[0 .. n]` round by `d` leaves it as it is.
pub open spec fn periodic(block: Seq<u8>, n: int, d: int) -> bool {
    forall|x: int| 0 <= x < n ==> #[trigger] block[x] == block[(x + d) % n]
}

/// What a pass over neighbours in `p` can see of their order: the first bytes differ in
/// the right direction, or they agree and the rotations one further on come in the same
/// order (`rank` gives each rotation's place in `p`), or the two rotations are equal.
pub open spec fn neighbours_ok(block: Seq<u8>, n: int, p: Seq<u32>, rank: Seq<u32>, i: int) -> bool {
    let a = p[i] as int;
    let b = p[i + 1] as int;
    ||| block[a] < block[b]
    ||| block[a] == block[b] && rank[(a + 1) % n] < rank[(b + 1) % n]
    ||| rot_diff(block, n, a, b, 0, n) is None
}

proof fn lemma_rot_diff_refl(block: Seq<u8>, n: int, a: int, t: int, end: int)
    ensures
        rot_diff(block, n, a, a, t, end) is None,
    decreases end - t,
{
    if t < end {
        lemma_rot_diff_refl(block, n, a, t + 1, end);
    }
}

proof fn lemma_rot_diff_antisym(block: Seq<u8>, n: int, a: int, b: int, t: int, end: int)
    requires
        rot_diff(block, n, a, b, t, end) == Some(true),
    ensures
        rot_diff(block, n, b, a, t, end) == Some(false),
    decreases end - t,
{
    if t < end && rot_byte(block, n, a, t) == rot_byte(block, n, b, t) {
        lemma_rot_diff_antisym(block, n, a, b, t + 1, end);
    }
}

proof fn lemma_rot_diff_trans(block: Seq<u8>, n: int, a: int, b: int, c: int, t: int, end: int)
    requires
        rot_diff(block, n, a, b, t, end) != Some(true),
        rot_diff(block, n, b, c, t, end) != Some(true),
    ensures
        rot_diff(block, n, a, c, t, end) != Some(true),
    decreases end - t,
{
    if t < end && rot_byte(block, n, a, t) == rot_byte(block, n, b, t) && rot_byte(block, n, b, t) == rot_byte(block, n, c, t) {
        lemma_rot_diff_trans(block, n, a, b, c, t + 1, end);
    }
}

proof fn lemma_rot_diff_prefix(block: Seq<u8>, n: int, a: int, b: int, t: int, m: int, end: int)
    requires
        t <= m <= end,
        rot_diff(block, n, a, b, t, end) is None,
    ensures
        rot_diff(block, n, a, b, t, m) is None,
    decreases m - t,
{
    if t < m {
        lemma_rot_diff_prefix(block, n, a, b, t + 1, m, end);
    }
}

proof fn lemma_next_mod(x: int, t: int, n: int)
    requires
        1 <= n,
        0 <= x,
        0 <= t,
    ensures
        (x + (t + 1)) % n == ((x + 1) % n + t) % n,
{
    vstd::arithmetic::div_mod::lemma_add_mod_noop_right(t, x + 1, n);
    assert(x + (t + 1) == t + (x + 1));
    assert((x + 1) % n + t == t + (x + 1) % n);
}

/// Comparing from byte `t + 1` on is comparing the rotations one further on from byte `t`.
proof fn lemma_rot_diff_shift(block: Seq<u8>, n: int, a: int, b: int, t: int, end: int)
    requires
        1 <= n,
        0 <= a < n,
        0 <= b < n,
        0 <= t,
    ensures
        rot_diff(block, n, a, b, t + 1, end + 1) == rot_diff(block, n, (a + 1) % n, (b + 1) % n, t, end),
    decreases end - t,
{
    lemma_next_mod(a, t, n);
    lemma_next_mod(b, t, n);
    if t < end {
        lemma_rot_diff_shift(block, n, a, b, t + 1, end);
    }
}

/// The first byte of a rotation from `a < n` is `block[a]`.
proof fn lemma_rot_first(block: Seq<u8>, n: int, a: int)
    requires
        0 <= a < n,
    ensures
        rot_byte(block, n, a, 0) == block[a],
{
    vstd::arithmetic::div_mod::lemma_small_mod(a as nat, n as nat);
}

/// Order along a list follows from order between neighbours.
proof fn lemma_order_chain(block: Seq<u8>, n: int, p: Seq<u32>, k: int, i: int, j: int)
    requires
        0 <= i <= j < n,
        forall|q: int| 0 <= q < n - 1 ==> rot_diff(block, n, #[trigger] p[q] as int, p[q + 1] as int, 0, k) != Some(true),
    ensures
        rot_diff(block, n, p[i] as int, p[j] as int, 0, k) != Some(true),
    decreases j - i,
{
    if i == j {
        lemma_rot_diff_refl(block, n, p[i] as int, 0, k);
    } else {
        lemma_order_chain(block, n, p, k, i, j - 1);
        assert(rot_diff(block, n, p[j - 1] as int, p[j - 1 + 1] as int, 0, k) != Some(true));
        lemma_rot_diff_trans(block, n, p[i] as int, p[j - 1] as int, p[j] as int, 0, k);
    }
}

/// Neighbours that look ordered make the whole list ordered on its first `k` bytes.
proof fn lemma_order_upto(block: Seq<u8>, n: int, p: Seq<u32>, rank: Seq<u32>, k: int)
    requires
        1 <= n,
        0 <= k <= n,
        p.len() >= n,
        rank.len() == n,
        forall|q: int| 0 <= q < n ==> (#[trigger] p[q] as int) < n,
        forall|v: int| 0 <= v < n ==> (#[trigger] rank[v] as int) < n && p[rank[v] as int] as int == v,
        forall|q: int| 0 <= q < n - 1 ==> #[trigger] neighbours_ok(block, n, p, rank, q),
    ensures
        forall|i: int, j: int| 0 <= i <= j < n ==>
            #[trigger] rot_diff(block, n, p[i] as int, p[j] as int, 0, k) != Some(true),
    decreases k,
{
    if k > 0 {
        lemma_order_upto(block, n, p, rank, k - 1);
        assert forall|q: int| 0 <= q < n - 1 implies
            rot_diff(block, n, #[trigger] p[q] as int, p[q + 1] as int, 0, k) != Some(true) by {
            let a = p[q] as int;
            let b = p[q + 1] as int;
            assert(neighbours_ok(block, n, p, rank, q));
            lemma_rot_first(block, n, a);
            lemma_rot_first(block, n, b);
            if block[a] < block[b] {
            } else if block[a] == block[b] && rank[(a + 1) % n] < rank[(b + 1) % n] {
                lemma_rot_diff_shift(block, n, a, b, 0, k - 1);
                let a1 = (a + 1) % n;
                let b1 = (b + 1) % n;
                let r1 = rank[a1] as int;
                let r2 = rank[b1] as int;
                assert(p[r1] as int == a1);
                assert(p[r2] as int == b1);
                assert(rot_diff(block, n, p[r1] as int, p[r2] as int, 0, k - 1) != Some(true));
            } else {
                lemma_rot_diff_prefix(block, n, a, b, 0, k, n);
            }
        }
        assert forall|i: int, j: int| 0 <= i <= j < n implies
            #[trigger] rot_diff(block, n, p[i] as int, p[j] as int, 0, k) != Some(true) by {
            lemma_order_chain(block, n, p, k, i, j);
        }
    }
}

/// Neighbours that look ordered make the rotations listed in `p` come in ascending order.
pub proof fn lemma_neighbours_sort(block: Seq<u8>, n: int, p: Seq<u32>, rank: Seq<u32>)
    requires
        1 <= n,
        p.len() >= n,
        rank.len() == n,
        forall|q: int| 0 <= q < n ==> (#[trigger] p[q] as int) < n,
        forall|v: int| 0 <= v < n ==> (#[trigger] rank[v] as int) < n && p[rank[v] as int] as int == v,
        forall|q: int| 0 <= q < n - 1 ==> #[trigger] neighbours_ok(block, n, p, rank, q),
    ensures
        rotations_sorted(block, n, p),
{
    lemma_order_upto(block, n, p, rank, n);
    assert forall|i: int| 0 <= i < n - 1 implies !rot_gt(block, n, #[trigger] p[i] as int, p[i + 1] as int) by {
        assert(rot_diff(block, n, p[i] as int, p[i + 1] as int, 0, n) != Some(true));
    }
}

/// `(x + n) % n` is `x` for `x < n`, and `(x + d) % n` is `x + d - n` past `n`.
proof fn lemma_wrap(x: int, d: int, n: int)
    requires
        0 <= x < n,
        0 <= d <= n,
    ensures
        x + d < n ==> (x + d) % n == x + d,
        x + d >= n ==> (x + d) % n == x + d - n,
{
    if x + d < n {
        vstd::arithmetic::div_mod::lemma_small_mod((x + d) as nat, n as nat);
    } else {
        vstd::arithmetic::div_mod::lemma_mod_multiples_vanish(1, x + d - n, n);
        vstd::arithmetic::div_mod::lemma_small_mod((x + d - n) as nat, n as nat);
    }
}

/// Shifting a block with period `d` round by any multiple of `d` leaves it as it is.
proof fn lemma_periodic_shift(block: Seq<u8>, n: int, d: int, x: int, m: int)
    requires
        1 <= n,
        periodic(block, n, d),
        0 <= d,
        0 <= x < n,
        0 <= m,
    ensures
        block[x] == block[(x + m * d) % n],
    decreases m,
{
    if m == 0 {
        vstd::arithmetic::div_mod::lemma_small_mod(x as nat, n as nat);
    } else {
        lemma_periodic_shift(block, n, d, x, m - 1);
        let y = (x + (m - 1) * d) % n;
        assert(0 <= y < n);
        assert(block[y] == block[(y + d) % n]);
        vstd::arithmetic::div_mod::lemma_add_mod_noop_right(d, x + (m - 1) * d, n);
        assert((m - 1) * d + d == m * d) by (nonlinear_arith);
        assert(d + (x + (m - 1) * d) == x + m * d);
        assert(y + d == d + y);
    }
}

proof fn lemma_rot_diff_equal(block: Seq<u8>, n: int, a: int, b: int, t: int, end: int)
    requires
        forall|u: int| t <= u < end ==> #[trigger] rot_byte(block, n, a, u) == rot_byte(block, n, b, u),
    ensures
        rot_diff(block, n, a, b, t, end) is None,
    decreases end - t,
{
    if t < end {
        assert(rot_byte(block, n, a, t) == rot_byte(block, n, b, t));
        lemma_rot_diff_equal(block, n, a, b, t + 1, end);
    }
}

/// In a block with period `d`, rotations a multiple of `d` apart are equal.
proof fn lemma_periodic_rotations_equal(block: Seq<u8>, n: int, d: int, a: int, b: int)
    requires
        1 <= d <= n,
        periodic(block, n, d),
        0 <= a < n,
        0 <= b < n,
        ((b + n - a) % n) % d == 0,
    ensures
        rot_diff(block, n, a, b, 0, n) is None,
{
    let diff = (b + n - a) % n;
    let m = diff / d;
    vstd::arithmetic::div_mod::lemma_fundamental_div_mod(diff, d);
    assert(diff == d * m);
    assert(0 <= m) by {
        vstd::arithmetic::div_mod::lemma_div_pos_is_pos(diff, d);
    }
    vstd::arithmetic::div_mod::lemma_add_mod_noop_right(a, b + n - a, n);
    lemma_wrap(b, n, n);
    assert(b == (a + diff) % n);
    assert forall|u: int| 0 <= u < n implies #[trigger] rot_byte(block, n, a, u) == rot_byte(block, n, b, u) by {
        let x = (a + u) % n;
        assert(0 <= x < n);
        lemma_periodic_shift(block, n, d, x, m);
        vstd::arithmetic::div_mod::lemma_add_mod_noop_right(m * d, a + u, n);
        vstd::arithmetic::div_mod::lemma_add_mod_noop_right(u, a + diff, n);
        assert(m * d == d * m) by (nonlinear_arith);
        assert(m * d + x == x + m * d);
        assert(u + (a + diff) % n == b + u);
        assert(u + (a + diff) == m * d + (a + u));
    }
    lemma_rot_diff_equal(block, n, a, b, 0, n);
}

/// Whether `block[0 .. n]` shifted round by `d < n` is itself.
fn is_period(block: &Vec<u8>, n: usize, d: usize) -> (r: bool)
    requires
        1 <= d < n <= block@.len(),
    ensures
        r ==> periodic(block@, n as int, d as int),
{
    let mut x: usize = 0;
    while x < n
        invariant
            x <= n,
            1 <= d < n <= block@.len(),
            forall|y: int| 0 <= y < x ==> #[trigger] block@[y] == block@[(y + d) % (n as int)],
        decreases n - x,
    {
        proof { lemma_wrap(x as int, d as int, n as int); }
        let y = if x < n - d { x + d } else { x - (n - d) };
        if block[x] != block[y] {
            return false;
        }
        x = x + 1;
    }
    true
}

/// The shortest shift, among the divisors of `n`, that leaves `block[0 .. n]` as it is.
fn block_period(block: &Vec<u8>, n: usize) -> (d: usize)
    requires
        1 <= n <= block@.len(),
    ensures
        1 <= d <= n,
        periodic(block@, n as int, d as int),
{
    let mut d: usize = 1;
    while d < n
        invariant
            1 <= d <= n <= block@.len(),
        decreases n - d,
    {
        if n % d == 0 && is_period(block, n, d) {
            return d;
        }
        d = d + 1;
    }
    assert forall|x: int| 0 <= x < n implies #[trigger] block@[x] == block@[(x + n) % (n as int)] by {
        lemma_wrap(x, n as int, n as int);
    }
    n
}

/// `(a + 1) % n` for `a < n`.
fn next_pos(a: usize, n: usize) -> (r: usize)
    requires
        a < n,
    ensures
        r == (a + 1) % (n as int),
        r < n,
{
    proof { lemma_wrap(a as int, 1, n as int); }
    if a + 1 == n { 0 } else { a + 1 }
}

/// Checks, in one pass over neighbours, that the rotations of `block[0 .. n]` listed in
/// `ptr[0 .. n]` come in ascending order. Neighbours with equal first bytes are ordered by
/// the places of the rotations one further on; equal rotations are recognised through the
/// block's period.
fn rotations_in_order(block: &Vec<u8>, n: usize, ptr: &Vec<u32>, Ghost(inv): Ghost<Seq<int>>) -> (ok: bool)
    requires
        1 <= n <= block@.len(),
        n <= MAX_BLOCK,
        perm_inv(ptr@, n as int, inv),
    ensures
        ok ==> rotations_sorted(block@, n as int, ptr@),
{
    let mut rank: Vec<u32> = vec![0u32; n];
    let mut i: usize = 0;
    while i < n
        invariant
            i <= n <= MAX_BLOCK,
            rank@.len() == n,
            perm_inv(ptr@, n as int, inv),
            forall|v: int| 0 <= v < n && occurs_before(ptr@, i as int, v) ==>
                (#[trigger] rank@[v] as int) < i && ptr@[rank@[v] as int] as int == v,
        decreases n - i,
    {
        let v = ptr[i] as usize;
        rank.set(v, i as u32);
        proof {
            assert forall|w: int| 0 <= w < n && occurs_before(ptr@, i + 1, w) implies
                (#[trigger] rank@[w] as int) < i + 1 && ptr@[rank@[w] as int] as int == w by {
                if w != v {
                    let k = choose|k: int| 0 <= k < i + 1 && ptr@[k] as int == w;
                    assert(occurs_before(ptr@, i as int, w));
                }
            }
        }
        i = i + 1;
    }
    assert forall|v: int| 0 <= v < n implies
        (#[trigger] rank@[v] as int) < n && ptr@[rank@[v] as int] as int == v by {
        assert(ptr@[inv[v]] as int == v);
        assert(occurs_before(ptr@, n as int, v));
    }
    let mut period: usize = 0;
    let mut i: usize = 0;
    while i + 1 < n
        invariant
            i < n <= MAX_BLOCK,
            n <= block@.len(),
            rank@.len() == n,
            perm_inv(ptr@, n as int, inv),
            period == 0 || (1 <= period <= n && periodic(block@, n as int, period as int)),
            forall|q: int| 0 <= q < i ==> #[trigger] neighbours_ok(block@, n as int, ptr@, rank@, q),
        decreases n - i,
    {
        let a = ptr[i] as usize;
        let b = ptr[i + 1] as usize;
        if block[a] > block[b] {
            return false;
        }
        if block[a] == block[b] {
            let a1 = next_pos(a, n);
            let b1 = next_pos(b, n);
            if rank[a1] >= rank[b1] {
                if period == 0 {
                    period = block_period(block, n);
                }
                let diff = (b + n - a) % n;
                if diff % period != 0 {
                    return false;
                }
                proof { lemma_periodic_rotations_equal(block@, n as int, period as int, a as int, b as int); }
            }
        }
        assert(neighbours_ok(block@, n as int, ptr@, rank@, i as int));
        i = i + 1;
    }
    proof { lemma_neighbours_sort(block@, n as int, ptr@, rank@); }
    true
}

/// Whether the rotation of `block[0 .. n]` from `a` sorts after the one from `b`.
fn rot_greater(block: &Vec<u8>, n: usize, a: usize, b: usize) -> (r: bool)
    requires
        1 <= n <= block@.len(),
        a < n,
        b < n,
    ensures
        r == rot_gt(block@, n as int, a as int, b as int),
{
    let mut t: usize = 0;
    let mut ia: usize = a;
    let mut ib: usize = b;
    proof {
        vstd::arithmetic::div_mod::lemma_small_mod(a as nat, n as nat);
        vstd::arithmetic::div_mod::lemma_small_mod(b as nat, n as nat);
    }
    while t < n
        invariant
            t <= n <= block@.len(),
            a < n,
            b < n,
            ia == (a + t) % (n as int),
            ib == (b + t) % (n as int),
            rot_diff(block@, n as int, a as int, b as int, 0, n as int) == rot_diff(block@, n as int, a as int, b as int, t as int, n as int),
        decreases n - t,
    {
        if block[ia] != block[ib] {
            return block[ia] > block[ib];
        }
        proof {
            lemma_next_mod(a as int, t as int, n as int);
            lemma_next_mod(b as int, t as int, n as int);
            vstd::arithmetic::div_mod::lemma_add_mod_noop_right(1, (a + t) as int, n as int);
            vstd::arithmetic::div_mod::lemma_add_mod_noop_right(1, (b + t) as int, n as int);
        }
        ia = next_pos(ia, n);
        ib = next_pos(ib, n);
        t = t + 1;
    }
    false
}

/// One step of insertion: swapping an out-of-order pair moves the gap in the order one
/// place down.
proof fn lemma_insert_step(block: Seq<u8>, n: int, p0: Seq<u32>, p1: Seq<u32>, i: int, j: int)
    requires
        0 < j <= i < n <= p0.len(),
        p1 == p0.update(j - 1, p0[j]).update(j, p0[j - 1]),
        rot_diff(block, n, p0[j] as int, p0[j - 1] as int, 0, n) == Some(false),
        forall|q: int| 0 <= q < i && q != j - 1 ==> !rot_gt(block, n, #[trigger] p0[q] as int, p0[q + 1] as int),
        0 < j < i ==> !rot_gt(block, n, p0[j - 1] as int, p0[j + 1] as int),
    ensures
        forall|q: int| 0 <= q < i && q != j - 2 ==> !rot_gt(block, n, #[trigger] p1[q] as int, p1[q + 1] as int),
        0 < j - 1 < i ==> !rot_gt(block, n, p1[j - 2] as int, p1[j] as int),
{
    assert forall|q: int| 0 <= q < i && q != j - 2 implies
        !rot_gt(block, n, #[trigger] p1[q] as int, p1[q + 1] as int) by {
        if q == j - 1 {
        } else if q == j {
            assert(p1[q] == p0[j - 1]);
            assert(p1[q + 1] == p0[j + 1]);
        } else {
            assert(p1[q] == p0[q]);
            assert(p1[q + 1] == p0[q + 1]);
        }
    }
    if j >= 2 {
        assert(!rot_gt(block, n, p0[j - 2] as int, p0[j - 2 + 1] as int));
    }
}

/// Sorts the rotations listed in `ptr[0 .. n]` by inserting them one at a time, comparing
/// whole rotations. Slow, and used only where the faster sorts' result fails its check.
fn sort_rotations_by_insertion(block: &Vec<u8>, n: usize, ptr: &mut Vec<u32>, Ghost(inv): Ghost<Seq<int>>) -> (inv2: Ghost<Seq<int>>)
    requires
        1 <= n <= block@.len(),
        perm_inv(old(ptr)@, n as int, inv),
    ensures
        perm_inv(final(ptr)@, n as int, inv2@),
        final(ptr)@.len() == old(ptr)@.len(),
        rotations_sorted(block@, n as int, final(ptr)@),
{
    let ghost mut g = inv;
    let mut i: usize = 1;
    while i < n
        invariant
            1 <= i <= n <= block@.len(),
            perm_inv(ptr@, n as int, g),
            ptr@.len() == old(ptr)@.len(),
            forall|q: int| 0 <= q < i - 1 ==> !rot_gt(block@, n as int, #[trigger] ptr@[q] as int, ptr@[q + 1] as int),
        decreases n - i,
    {
        let mut j: usize = i;
        let mut moving = true;
        while j > 0 && moving
            invariant
                1 <= i < n <= block@.len(),
                j <= i,
                perm_inv(ptr@, n as int, g),
                ptr@.len() == old(ptr)@.len(),
                forall|q: int| 0 <= q < i && q != j - 1 ==> !rot_gt(block@, n as int, #[trigger] ptr@[q] as int, ptr@[q + 1] as int),
                0 < j < i ==> !rot_gt(block@, n as int, ptr@[j - 1] as int, ptr@[j + 1] as int),
                !moving ==> j > 0 && !rot_gt(block@, n as int, ptr@[j - 1] as int, ptr@[j as int] as int),
            decreases j + (if moving { 1int } else { 0int }),
        {
            let x = ptr[j - 1] as usize;
            let y = ptr[j] as usize;
            assert(ptr@[j - 1] < n && ptr@[j as int] < n);
            if rot_greater(block, n, x, y) {
                proof { lemma_rot_diff_antisym(block@, n as int, x as int, y as int, 0, n as int); }
                let ghost p0 = ptr@;
                let gg = swap_perm(ptr, j - 1, j, Ghost(n as int), Ghost(g), Ghost(true));
                proof {
                    g = gg@;
                    lemma_insert_step(block@, n as int, p0, ptr@, i as int, j as int);
                }
                j = j - 1;
            } else {
                moving = false;
            }
        }
        i = i + 1;
    }
    Ghost(g)
}

} // verus!
