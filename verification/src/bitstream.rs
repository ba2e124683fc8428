//! Writing and reading the bzip2 bit stream, most significant bit first.
use vstd::prelude::*;

verus! {

/// Bit `k` (counting from the most significant of the lowest `n` bits) of `v`.
pub open spec fn msb_bit(v: u32, n: nat, k: int) -> bool {
    (v >> ((n - 1 - k) as u32)) & 1u32 == 1u32
}

/// The lowest `n` bits of `v`, most significant first.
pub open spec fn bits_of(v: u32, n: nat) -> Seq<bool> {
    Seq::new(n, |k: int| msb_bit(v, n, k))
}

/// The bits of a byte sequence, each byte most significant bit first.
pub open spec fn bytes_bits(s: Seq<u8>) -> Seq<bool> {
    Seq::new(8 * s.len(), |k: int| ((s[k / 8] as u32) >> ((7 - k % 8) as u32)) & 1u32 == 1u32)
}

/// The number whose binary digits, most significant first, are `b`.
pub open spec fn bits_value(b: Seq<bool>) -> nat
    decreases b.len(),
{
    if b.len() == 0 {
        0
    } else {
        2 * bits_value(b.drop_last()) + (if b.last() { 1nat } else { 0nat })
    }
}

/// The first `live` bits held in the top of `buff`.
pub open spec fn live_bits(buff: u32, live: nat) -> Seq<bool> {
    Seq::new(live, |k: int| (buff >> ((31 - k) as u32)) & 1u32 == 1u32)
}

/// Accumulates bits and packs them into bytes.
pub struct BitWriter {
    pub out: Vec<u8>,
    pub buff: u32,
    pub live: u32,
}

proof fn lemma_flush_byte(buff: u32, live: u32, k: u32)
    requires
        8 <= live <= 32,
        k < live,
    ensures
        k < 8 ==> (((buff >> 24u32) as u8 as u32) >> (7 - k) as u32) & 1u32 == (buff >> (31 - k) as u32) & 1u32,
        k >= 8 ==> ((buff << 8u32) >> (31 - (k - 8)) as u32) & 1u32 == (buff >> (31 - k) as u32) & 1u32,
{
    assert(k < 8 ==> (((buff >> 24u32) as u8 as u32) >> (7 - k) as u32) & 1u32 == (buff >> (31 - k) as u32) & 1u32)
        by (bit_vector);
    assert(8 <= k < 32 ==> ((buff << 8u32) >> (31 - (k - 8)) as u32) & 1u32 == (buff >> (31 - k) as u32) & 1u32)
        by (bit_vector);
}

proof fn lemma_flush_clean(buff: u32, live: u32)
    requires
        8 <= live <= 32,
        live < 32 ==> buff << live == 0,
    ensures
        live - 8 < 32 ==> (buff << 8u32) << (live - 8) as u32 == 0,
{
    assert(8 <= live <= 32 && (live < 32 ==> buff << live == 0) ==> (live - 8 < 32 ==> (buff << 8u32) << (live - 8) as u32 == 0))
        by (bit_vector);
}

proof fn lemma_or_bits(buff: u32, live: u32, v: u32, n: u32, k: u32)
    requires
        live + n <= 32,
        1 <= n <= 32,
        n < 32 ==> v >> n == 0,
        live < 32 ==> buff << live == 0,
        k < live + n,
    ensures
        k < live ==> ((buff | (v << (32 - live - n) as u32)) >> (31 - k) as u32) & 1u32 == (buff >> (31 - k) as u32) & 1u32,
        k >= live ==> ((buff | (v << (32 - live - n) as u32)) >> (31 - k) as u32) & 1u32 == (v >> (n - 1 - (k - live)) as u32) & 1u32,
        live + n < 32 ==> (buff | (v << (32 - live - n) as u32)) << (live + n) as u32 == 0,
{
    assert(live + n <= 32 && 1 <= n <= 32 && (n < 32 ==> v >> n == 0) && (live < 32 ==> buff << live == 0) && k < live + n ==> (
        (k < live ==> ((buff | (v << (32 - live - n) as u32)) >> (31 - k) as u32) & 1u32 == (buff >> (31 - k) as u32) & 1u32)
        && (k >= live ==> ((buff | (v << (32 - live - n) as u32)) >> (31 - k) as u32) & 1u32 == (v >> (n - 1 - (k - live)) as u32) & 1u32)
        && (live + n < 32 ==> (buff | (v << (32 - live - n) as u32)) << (live + n) as u32 == 0)))
        by (bit_vector);
}

impl BitWriter {
    /// Well-formedness: at most 32 live bits, and the bits below them are zero.
    pub open spec fn wf(&self) -> bool {
        &&& self.live <= 32
        &&& self.live < 32 ==> self.buff << self.live == 0
    }

    /// Every bit written so far, in order.
    pub open spec fn bits(&self) -> Seq<bool> {
        bytes_bits(self.out@) + live_bits(self.buff, self.live as nat)
    }

    /// An empty writer (`BZ2_bsInitWrite`).
    pub fn new() -> (w: BitWriter)
        ensures
            w.wf(),
            w.out@.len() == 0,
            w.live == 0,
            w.bits() == Seq::<bool>::empty(),
    {
        let w = BitWriter { out: Vec::new(), buff: 0, live: 0 };
        assert(0u32 << 0u32 == 0u32) by (bit_vector);
        assert(w.bits() =~= Seq::<bool>::empty());
        w
    }

    /// Moves one whole byte from the bit buffer to the output.
    fn flush_byte(&mut self)
        requires
            old(self).wf(),
            old(self).live >= 8,
        ensures
            final(self).wf(),
            final(self).bits() == old(self).bits(),
            final(self).live == old(self).live - 8,
            final(self).out@.len() == old(self).out@.len() + 1,
    {
        let ghost old_bits = self.bits();
        let ghost buff0 = self.buff;
        let ghost live0 = self.live;
        let ghost out0 = self.out@;
        let byte = (self.buff >> 24u32) as u8;
        self.out.push(byte);
        self.buff = self.buff << 8u32;
        self.live = self.live - 8;
        proof {
            lemma_flush_clean(buff0, live0);
            let nb = self.bits();
            assert forall|k: int| 0 <= k < nb.len() implies nb[k] == old_bits[k] by {
                let base = 8 * out0.len();
                if k < base {
                    assert(bytes_bits(self.out@)[k] == bytes_bits(out0)[k]);
                } else {
                    let kk = (k - base) as u32;
                    lemma_flush_byte(buff0, live0, kk);
                    if kk < 8 {
                        assert(k / 8 == out0.len());
                        assert(k % 8 == kk as int);
                    }
                }
            }
            assert(nb =~= old_bits);
        }
    }

    /// Emits any remaining bits, padding the last byte with zeros (`bsFinishWrite`).
    pub fn finish(&mut self)
        requires
            old(self).wf(),
        ensures
            final(self).wf(),
            final(self).live == 0,
            final(self).bits().subrange(0, old(self).bits().len() as int) == old(self).bits(),
            final(self).bits().len() == old(self).bits().len() + (if old(self).live % 8 == 0 { 0int } else { 8 - old(self).live % 8 }),
            forall|k: int| old(self).bits().len() <= k < final(self).bits().len() ==> !#[trigger] final(self).bits()[k],
    {
        let ghost b0 = self.bits();
        if self.live % 8 != 0 {
            let ghost buff0 = self.buff;
            let ghost live0 = self.live;
            let pad = 8 - self.live % 8;
            self.live = self.live + pad;
            proof {
                let lv = self.live;
                assert(live0 < 32 && buff0 << live0 == 0u32 && live0 <= lv <= 32 ==> (lv < 32 ==> buff0 << lv == 0u32)) by (bit_vector);
                let nb = self.bits();
                let base = 8 * self.out@.len();
                assert forall|k: int| b0.len() <= k < nb.len() implies !nb[k] by {
                    let kk = (k - base) as u32;
                    assert(live0 < 32 && live0 <= kk < 32 && buff0 << live0 == 0u32 ==> (buff0 >> (31 - kk) as u32) & 1u32 == 0u32) by (bit_vector);
                }
                assert(nb.subrange(0, b0.len() as int) =~= b0);
            }
        }
        let ghost b1 = self.bits();
        while self.live > 0
            invariant
                self.wf(),
                self.live % 8 == 0,
                self.bits() == b1,
            decreases self.live,
        {
            self.flush_byte();
        }
    }

    /// Appends the lowest `n` bits of `value`, most significant first (`bsW`).
    pub fn write(&mut self, n: u32, value: u32)
        requires
            old(self).wf(),
            1 <= n <= 24,
        ensures
            final(self).wf(),
            final(self).bits() == old(self).bits() + bits_of(value, n as nat),
            final(self).live < 32,
    {
        assert(1 <= n <= 24 ==> 1u32 << n >= 1u32) by (bit_vector);
        let v = value & ((1u32 << n) - 1);
        proof {
            assert(1 <= n <= 24 ==> v >> n == 0) by (bit_vector) requires v == value & (((1u32 << n) - 1) as u32);
            assert forall|k: int| 0 <= k < n implies msb_bit(v, n as nat, k) == msb_bit(value, n as nat, k) by {
                let sh = (n - 1 - k) as u32;
                assert(sh < n && n <= 24 ==> (v >> sh) & 1u32 == (value >> sh) & 1u32) by (bit_vector)
                    requires v == value & (((1u32 << n) - 1) as u32);
            }
            assert(bits_of(v, n as nat) =~= bits_of(value, n as nat));
        }
        while self.live >= 8
            invariant
                self.wf(),
                self.bits() == old(self).bits(),
            decreases self.live,
        {
            self.flush_byte();
        }
        let ghost before = self.bits();
        let ghost buff0 = self.buff;
        let ghost live0 = self.live;
        self.buff = self.buff | (v << (32 - self.live - n));
        self.live = self.live + n;
        proof {
            let nb = self.bits();
            let expect = before + bits_of(v, n as nat);
            let base = 8 * self.out@.len();
            assert forall|k: int| 0 <= k < nb.len() implies nb[k] == expect[k] by {
                if k >= base {
                    let kk = (k - base) as u32;
                    lemma_or_bits(buff0, live0, v, n, kk);
                }
            }
            assert(nb =~= expect);
            lemma_or_bits(buff0, live0, v, n, 0);
        }
    }

    /// Appends a byte (`bsPutUChar`).
    pub fn put_u8(&mut self, c: u8)
        requires
            old(self).wf(),
        ensures
            final(self).wf(),
            final(self).bits() == old(self).bits() + bits_of(c as u32, 8),
            final(self).live < 32,
    {
        self.write(8, c as u32);
    }

    /// Appends one bit.
    pub fn put_bit(&mut self, b: bool)
        requires
            old(self).wf(),
        ensures
            final(self).wf(),
            final(self).bits() == old(self).bits().push(b),
            final(self).live < 32,
    {
        let v: u32 = if b { 1 } else { 0 };
        self.write(1, v);
        proof {
            assert((1u32 >> 0u32) & 1u32 == 1u32 && (0u32 >> 0u32) & 1u32 == 0u32) by (bit_vector);
            assert(bits_of(v, 1) =~= seq![b]);
        }
    }

    /// Appends two bits, `a` then `b`.
    pub fn put_pair(&mut self, a: bool, b: bool)
        requires
            old(self).wf(),
        ensures
            final(self).wf(),
            final(self).bits() == old(self).bits() + seq![a, b],
            final(self).live < 32,
    {
        let ghost b0 = self.bits();
        self.put_bit(a);
        self.put_bit(b);
        assert(self.bits() =~= b0 + seq![a, b]);
    }

    /// Appends a 32-bit value as four bytes, most significant first (`bsPutUInt32`).
    pub fn put_u32(&mut self, u: u32)
        requires
            old(self).wf(),
        ensures
            final(self).wf(),
            final(self).bits() == old(self).bits() + bits_of(u, 32),
            final(self).live < 32,
    {
        let ghost b0 = self.bits();
        self.put_u8((u >> 24u32) as u8);
        self.put_u8(((u >> 16u32) & 0xff) as u8);
        self.put_u8(((u >> 8u32) & 0xff) as u8);
        self.put_u8((u & 0xff) as u8);
        proof {
            let nb = self.bits();
            let expect = b0 + bits_of(u, 32);
            assert forall|k: int| 0 <= k < nb.len() implies nb[k] == expect[k] by {
                if k >= b0.len() {
                    let kk = (k - b0.len()) as u32;
                    assert(kk < 32 ==> (
                        (kk < 8 ==> (((u >> 24u32) as u8 as u32) >> (7 - kk) as u32) & 1u32 == (u >> (31 - kk) as u32) & 1u32)
                        && (8 <= kk < 16 ==> ((((u >> 16u32) & 0xffu32) as u8 as u32) >> (15 - kk) as u32) & 1u32 == (u >> (31 - kk) as u32) & 1u32)
                        && (16 <= kk < 24 ==> ((((u >> 8u32) & 0xffu32) as u8 as u32) >> (23 - kk) as u32) & 1u32 == (u >> (31 - kk) as u32) & 1u32)
                        && (24 <= kk < 32 ==> (((u & 0xffu32) as u8 as u32) >> (31 - kk) as u32) & 1u32 == (u >> (31 - kk) as u32) & 1u32)))
                        by (bit_vector);
                }
            }
            assert(nb =~= expect);
        }
    }
}

} // verus!
