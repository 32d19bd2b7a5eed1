//! Big-endian integers of one to eight bytes, as they stand in signatures
//! and deltas.
use vstd::prelude::*;
use vstd::arithmetic::div_mod::*;
use vstd::arithmetic::mul::*;

verus! {

/// 256 to the power `w`.
pub open spec fn pow256(w: nat) -> nat
    decreases w,
{
    if w == 0 {
        1
    } else {
        256 * pow256((w - 1) as nat)
    }
}

/// The number that a byte string denotes, most significant byte first.
pub open spec fn be_value(s: Seq<u8>) -> nat
    decreases s.len(),
{
    if s.len() == 0 {
        0
    } else {
        be_value(s.drop_last()) * 256 + s.last() as nat
    }
}

/// The `width` lowest base-256 digits of `v`, most significant first.
pub open spec fn be_bytes(v: nat, width: nat) -> Seq<u8>
    decreases width,
{
    if width == 0 {
        Seq::empty()
    } else {
        be_bytes(v / 256, (width - 1) as nat).push((v % 256) as u8)
    }
}

/// The powers of 256 at the widths that occur on the wire.
pub proof fn lemma_pow256_values()
    ensures
        pow256(0) == 1,
        pow256(1) == 0x100,
        pow256(2) == 0x1_0000,
        pow256(3) == 0x100_0000,
        pow256(4) == 0x1_0000_0000,
        pow256(5) == 0x100_0000_0000,
        pow256(6) == 0x1_0000_0000_0000,
        pow256(7) == 0x100_0000_0000_0000,
        pow256(8) == 0x1_0000_0000_0000_0000,
{
    reveal_with_fuel(pow256, 10);
}

/// `be_bytes` yields exactly `width` bytes.
pub proof fn lemma_be_bytes_len(v: nat, width: nat)
    ensures
        be_bytes(v, width).len() == width,
    decreases width,
{
    if width > 0 {
        lemma_be_bytes_len(v / 256, (width - 1) as nat);
    }
}

/// A byte string of length `n` denotes a number below 256 to the `n`.
pub proof fn lemma_be_value_bound(s: Seq<u8>)
    ensures
        be_value(s) < pow256(s.len()),
    decreases s.len(),
{
    if s.len() > 0 {
        lemma_be_value_bound(s.drop_last());
    }
}

/// Reading back what was written gives the number, provided it fits.
pub proof fn lemma_be_value_of_bytes(v: nat, width: nat)
    requires
        v < pow256(width),
    ensures
        be_value(be_bytes(v, width)) == v,
    decreases width,
{
    if width > 0 {
        let rest = be_bytes(v / 256, (width - 1) as nat);
        assert(be_bytes(v, width).drop_last() =~= rest);
        lemma_be_value_of_bytes(v / 256, (width - 1) as nat);
    }
}

/// Writing the number that a byte string denotes, at the string's own
/// width, gives the string back.
pub proof fn lemma_be_bytes_of_value(s: Seq<u8>)
    ensures
        be_bytes(be_value(s), s.len()) == s,
    decreases s.len(),
{
    if s.len() > 0 {
        let v = be_value(s);
        lemma_be_bytes_of_value(s.drop_last());
        assert(v / 256 == be_value(s.drop_last()));
        assert(v % 256 == s.last() as nat);
        assert(be_bytes(v, s.len()) =~= s);
    } else {
        assert(be_bytes(be_value(s), s.len()) =~= s);
    }
}

/// Dividing by `d` and then by 256 is dividing by `d` times 256.
proof fn lemma_be_bytes_step(v: nat, d: nat)
    requires
        d > 0,
    ensures
        (v / (d * 256)) == (v / d) / 256,
        d * 256 > 0,
{
    lemma_div_denominator(v as int, d as int, 256);
    lemma_mul_strictly_positive(d as int, 256);
}

/// Appends `v` to `out` as `width` big-endian bytes.
pub fn put_be(out: &mut Vec<u8>, v: u64, width: usize)
    requires
        1 <= width <= 8,
    ensures
        final(out)@ == old(out)@ + be_bytes(v as nat, width as nat),
{
    let mut d: u64 = 1;
    let mut k: usize = 1;
    proof {
        lemma_pow256_values();
    }
    while k < width
        invariant
            1 <= k <= width <= 8,
            d as nat == pow256((k - 1) as nat),
        decreases width - k,
    {
        proof {
            lemma_pow256_values();
        }
        d = d * 256;
        k = k + 1;
    }
    let mut i: usize = 0;
    while i < width
        invariant
            0 <= i <= width <= 8,
            i < width ==> d as nat == pow256((width - 1 - i) as nat),
            out@ == old(out)@ + be_bytes(v as nat / pow256((width - i) as nat), i as nat),
        decreases width - i,
    {
        proof {
            lemma_pow256_values();
            assert(pow256((width - i) as nat) == 256 * pow256((width - i - 1) as nat));
            assert(d > 0);
        }
        let digit: u64 = (v / d) % 256;
        proof {
            lemma_be_bytes_step(v as nat, d as nat);
            assert(d as nat * 256 == pow256((width - i) as nat));
            assert(be_bytes(v as nat / d as nat, (i + 1) as nat) == be_bytes(
                v as nat / d as nat / 256,
                i as nat,
            ).push(((v as nat / d as nat) % 256) as u8));
            assert((old(out)@ + be_bytes(v as nat / (d as nat * 256), i as nat)).push(
                digit as u8,
            ) =~= old(out)@ + be_bytes(v as nat / d as nat, (i + 1) as nat));
        }
        out.push(digit as u8);
        i = i + 1;
        if i < width {
            proof {
                assert(pow256((width - i) as nat) == 256 * pow256((width - i - 1) as nat));
            }
            d = d / 256;
        }
    }
    proof {
        assert(pow256(0) == 1);
        assert(v as nat / 1 == v as nat);
    }
}

/// Reads the `width` bytes of `data` from `pos` on as a big-endian number.
pub fn get_be(data: &[u8], pos: usize, width: usize) -> (v: u64)
    requires
        width <= 8,
        pos + width <= data.len(),
    ensures
        v as nat == be_value(data@.subrange(pos as int, pos + width)),
{
    let mut acc: u64 = 0;
    let mut i: usize = 0;
    proof {
        assert(data@.subrange(pos as int, pos as int).len() == 0);
    }
    while i < width
        invariant
            0 <= i <= width <= 8,
            pos + width <= data.len(),
            acc as nat == be_value(data@.subrange(pos as int, pos + i)),
        decreases width - i,
    {
        proof {
            let s = data@.subrange(pos as int, pos + i + 1);
            assert(s.drop_last() =~= data@.subrange(pos as int, pos + i));
            lemma_be_value_bound(s.drop_last());
            lemma_pow256_values();
            assert(pow256(i as nat) <= pow256(7)) by {
                lemma_pow256_values();
            }
        }
        acc = acc * 256 + data[pos + i] as u64;
        i = i + 1;
    }
    acc
}

/// The four big-endian bytes of a 32-bit number.
pub fn be_array4(v: u32) -> (bytes: [u8; 4])
    ensures
        bytes@ == be_bytes(v as nat, 4),
{
    let bytes: [u8; 4] = [
        (v / 0x100_0000) as u8,
        (v / 0x1_0000 % 0x100) as u8,
        (v / 0x100 % 0x100) as u8,
        (v % 0x100) as u8,
    ];
    proof {
        reveal_with_fuel(be_bytes, 5);
        assert(bytes@ =~= be_bytes(v as nat, 4));
    }
    bytes
}

/// The 32-bit number that four big-endian bytes denote.
pub fn be_value4(bytes: [u8; 4]) -> (v: u32)
    ensures
        v as nat == be_value(bytes@),
{
    proof {
        reveal_with_fuel(be_value, 5);
        assert(bytes@.drop_last().drop_last().drop_last().drop_last().len() == 0);
    }
    bytes[0] as u32 * 0x100_0000 + bytes[1] as u32 * 0x1_0000 + bytes[2] as u32 * 0x100
        + bytes[3] as u32
}

} // verus!
