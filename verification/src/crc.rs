//! The rolling weak checksum: two sums modulo 2^16 over a window of bytes,
//! which can be moved one byte to the right in constant time.
use vstd::prelude::*;
use vstd::arithmetic::div_mod::*;
use crate::wire::{be_array4, be_bytes, be_value, be_value4};

verus! {

/// The plain sum of the bytes of a window.
pub open spec fn sum1(w: Seq<u8>) -> int
    decreases w.len(),
{
    if w.len() == 0 {
        0
    } else {
        w[0] as int + sum1(w.drop_first())
    }
}

/// The weighted sum of the bytes of a window of length `n`: the byte at
/// index `i` counts `n - i` times.
pub open spec fn sum2(w: Seq<u8>) -> int
    decreases w.len(),
{
    if w.len() == 0 {
        0
    } else {
        w.len() * (w[0] as int) + sum2(w.drop_first())
    }
}

/// The 32-bit value made of a low and a high half.
pub open spec fn combine(low: int, high: int) -> int {
    high * 0x1_0000 + low
}

/// The weak checksum of a window: the weighted sum modulo 2^16 in the high
/// half, the plain sum modulo 2^16 in the low half.
pub open spec fn weak_sum(w: Seq<u8>) -> u32 {
    combine(sum1(w) % 0x1_0000, sum2(w) % 0x1_0000) as u32
}

/// The low half after the window has moved by one byte.
pub open spec fn slide_low(low: int, old_byte: u8, new_byte: u8) -> int {
    (low - old_byte + new_byte) % 0x1_0000
}

/// The high half after a window of `size` bytes has moved by one byte,
/// given the low half after the move.
pub open spec fn slide_high(high: int, low_after: int, size: int, old_byte: u8) -> int {
    (high - size * old_byte + low_after) % 0x1_0000
}

/// Appending a byte adds it to the plain sum, and the new plain sum to the
/// weighted sum.
pub proof fn lemma_sums_push(w: Seq<u8>, b: u8)
    ensures
        sum1(w.push(b)) == sum1(w) + b,
        sum2(w.push(b)) == sum2(w) + sum1(w) + b,
    decreases w.len(),
{
    let p = w.push(b);
    if w.len() == 0 {
        assert(p.drop_first() =~= Seq::<u8>::empty());
        assert(sum1(p.drop_first()) == 0);
        assert(sum2(p.drop_first()) == 0);
    } else {
        assert(p.drop_first() =~= w.drop_first().push(b));
        lemma_sums_push(w.drop_first(), b);
        assert(p.len() * (p[0] as int) == w.len() * (w[0] as int) + w[0] as int)
            by (nonlinear_arith)
            requires
                p.len() == w.len() + 1,
                p[0] == w[0],
        ;
    }
}

/// Adding a multiple of the modulus does not change a remainder.
proof fn lemma_mod_shift(a: int, k: int)
    ensures
        (a + k * 0x1_0000) % 0x1_0000 == a % 0x1_0000,
{
    lemma_mod_multiples_vanish(k, a, 0x1_0000);
    assert(0x1_0000 * k + a == a + k * 0x1_0000);
}

/// A term may be replaced by its remainder inside a remainder.
proof fn lemma_mod_inner(a: int, b: int)
    ensures
        (a % 0x1_0000 + b) % 0x1_0000 == (a + b) % 0x1_0000,
        (b - a % 0x1_0000) % 0x1_0000 == (b - a) % 0x1_0000,
{
    lemma_fundamental_div_mod(a, 0x1_0000);
    let q = a / 0x1_0000;
    assert(a % 0x1_0000 + b == (a + b) + (-q) * 0x1_0000) by (nonlinear_arith)
        requires
            a == 0x1_0000 * q + a % 0x1_0000,
    ;
    lemma_mod_shift(a + b, -q);
    assert(b - a % 0x1_0000 == (b - a) + q * 0x1_0000) by (nonlinear_arith)
        requires
            a == 0x1_0000 * q + a % 0x1_0000,
    ;
    lemma_mod_shift(b - a, q);
}

/// Moving a window one byte to the right: the halves that `slide_low` and
/// `slide_high` compute from the checksum of the old window are those of
/// the checksum of the new window.
pub proof fn lemma_slide(w: Seq<u8>, new_byte: u8)
    requires
        w.len() >= 1,
    ensures
        ({
            let moved = w.drop_first().push(new_byte);
            let low = slide_low(sum1(w) % 0x1_0000, w[0], new_byte);
            let high = slide_high(sum2(w) % 0x1_0000, low, w.len() as int, w[0]);
            &&& low == sum1(moved) % 0x1_0000
            &&& high == sum2(moved) % 0x1_0000
            &&& weak_sum(moved) == combine(low, high) as u32
        }),
{
    let rest = w.drop_first();
    let moved = rest.push(new_byte);
    lemma_sums_push(rest, new_byte);
    let low = slide_low(sum1(w) % 0x1_0000, w[0], new_byte);
    lemma_mod_inner(sum1(w), new_byte as int - w[0] as int);
    assert(sum1(w) % 0x1_0000 + (new_byte as int - w[0] as int) == sum1(w) % 0x1_0000 - w[0]
        + new_byte);
    assert(low == sum1(moved) % 0x1_0000);
    let t = low - w.len() * (w[0] as int);
    lemma_mod_inner(sum2(w), t);
    assert(sum2(w) % 0x1_0000 + t == sum2(w) % 0x1_0000 - w.len() * (w[0] as int) + low);
    lemma_mod_inner(sum1(moved), sum2(w) - w.len() * (w[0] as int));
    assert(sum2(w) + t == low + (sum2(w) - w.len() * (w[0] as int)));
    assert(sum1(moved) + (sum2(w) - w.len() * (w[0] as int)) == sum2(moved));
}

/// A weak checksum, held as its two halves.
#[derive(Clone, Copy, Debug, PartialEq, Eq, Structural)]
pub struct Crc {
    /// The plain sum modulo 2^16.
    pub low: u16,
    /// The weighted sum modulo 2^16.
    pub high: u16,
}

impl Crc {
    /// Number of bytes of a serialized checksum.
    pub const SIZE: usize = 4;

    /// The 32-bit value of the checksum.
    pub open spec fn spec_value(self) -> u32 {
        combine(self.low as int, self.high as int) as u32
    }

    /// The checksum of the empty window.
    pub fn new() -> (crc: Crc)
        ensures
            crc.low == 0,
            crc.high == 0,
            crc.spec_value() == weak_sum(Seq::empty()),
    {
        Crc { low: 0, high: 0 }
    }

    /// The 32-bit value of the checksum: the high half in the upper 16 bits.
    pub fn value(self) -> (v: u32)
        ensures
            v == self.spec_value(),
    {
        self.high as u32 * 0x1_0000 + self.low as u32
    }

    /// The checksum with this 32-bit value.
    pub fn from_value(v: u32) -> (crc: Crc)
        ensures
            crc.spec_value() == v,
            crc.low == v % 0x1_0000,
            crc.high == v / 0x1_0000,
    {
        Crc { low: (v % 0x1_0000) as u16, high: (v / 0x1_0000) as u16 }
    }

    /// Extends the window by the bytes of `buf` on its right.
    pub fn update(self, buf: &[u8]) -> (crc: Crc)
        ensures
            crc.low as int == (self.low + sum1(buf@)) % 0x1_0000,
            crc.high as int == (self.high + buf@.len() * self.low + sum2(buf@)) % 0x1_0000,
            self.low == 0 && self.high == 0 ==> crc.spec_value() == weak_sum(buf@),
    {
        let mut low: u32 = self.low as u32;
        let mut high: u32 = self.high as u32;
        let mut i: usize = 0;
        proof {
            assert(buf@.take(0) =~= Seq::<u8>::empty());
            assert(0 * self.low == 0);
        }
        while i < buf.len()
            invariant
                0 <= i <= buf.len(),
                low < 0x1_0000,
                high < 0x1_0000,
                low as int == (self.low + sum1(buf@.take(i as int))) % 0x1_0000,
                high as int == (self.high + i * self.low + sum2(buf@.take(i as int)))
                    % 0x1_0000,
            decreases buf.len() - i,
        {
            let b: u8 = buf[i];
            proof {
                let before = buf@.take(i as int);
                assert(buf@.take(i + 1) =~= before.push(b));
                lemma_sums_push(before, b);
                lemma_mod_inner(self.low + sum1(before), b as int);
                let h = self.high + i * self.low + sum2(before);
                lemma_mod_inner(h, (low + b) % 0x1_0000);
                lemma_mod_inner(self.low + sum1(before) + b, h);
                assert((i + 1) * self.low == i * self.low + self.low) by (nonlinear_arith);
            }
            low = (low + b as u32) % 0x1_0000;
            high = (high + low) % 0x1_0000;
            i = i + 1;
        }
        proof {
            assert(buf@.take(buf.len() as int) =~= buf@);
            if self.low == 0 {
                assert(buf@.len() * self.low == 0) by (nonlinear_arith)
                    requires
                        self.low == 0,
                ;
            }
        }
        Crc { low: low as u16, high: high as u16 }
    }

    /// Moves a window of `size` bytes one byte to the right: `old_byte`
    /// leaves on the left, `new_byte` enters on the right.
    pub fn rotate(self, size: u32, old_byte: u8, new_byte: u8) -> (crc: Crc)
        ensures
            crc.low as int == slide_low(self.low as int, old_byte, new_byte),
            crc.high as int == slide_high(
                self.high as int,
                crc.low as int,
                size as int,
                old_byte,
            ),
    {
        let low: u32 = (self.low as u32 + 0x1_0000 - old_byte as u32 + new_byte as u32)
            % 0x1_0000;
        assert(size as u64 * old_byte as u64 <= 0xffff_ffff * 0xff) by (nonlinear_arith)
            requires
                size <= 0xffff_ffff,
                old_byte <= 0xff,
        ;
        let gone: u64 = (size as u64 * old_byte as u64) % 0x1_0000;
        let high: u64 = (self.high as u64 + low as u64 + 0x1_0000 - gone) % 0x1_0000;
        proof {
            lemma_mod_shift(self.low - old_byte + new_byte, 1);
            let x = size as int * old_byte as int;
            lemma_mod_shift(self.high + low - gone, 1);
            lemma_mod_inner(x, self.high + low);
        }
        Crc { low: low as u16, high: high as u16 }
    }

    /// The four bytes of the checksum, most significant first.
    pub fn to_bytes(self) -> (bytes: [u8; 4])
        ensures
            bytes@ == be_bytes(self.spec_value() as nat, 4),
    {
        be_array4(self.value())
    }

    /// The checksum that four bytes denote, most significant first.
    pub fn from_bytes(bytes: [u8; 4]) -> (crc: Crc)
        ensures
            crc.spec_value() as nat == be_value(bytes@),
    {
        Crc::from_value(be_value4(bytes))
    }
}

/// Sliding a checksum agrees with computing it afresh: if `crc` is the
/// checksum of a window `w` of `size` bytes, then rotating it by the byte
/// that leaves and the byte that enters gives the checksum of the moved
/// window.
pub proof fn lemma_rotate_is_fresh(crc: Crc, after: Crc, w: Seq<u8>, size: u32, new_byte: u8)
    requires
        w.len() == size,
        size >= 1,
        crc.spec_value() == weak_sum(w),
        after.low as int == slide_low(crc.low as int, w[0], new_byte),
        after.high as int == slide_high(crc.high as int, after.low as int, size as int, w[0]),
    ensures
        after.spec_value() == weak_sum(w.drop_first().push(new_byte)),
{
    lemma_slide(w, new_byte);
    lemma_halves(crc, w);
}

/// A checksum whose value is that of a window holds the window's two sums
/// modulo 2^16 in its halves.
pub proof fn lemma_halves(crc: Crc, w: Seq<u8>)
    requires
        crc.spec_value() == weak_sum(w),
    ensures
        crc.low as int == sum1(w) % 0x1_0000,
        crc.high as int == sum2(w) % 0x1_0000,
{
}

} // verus!
