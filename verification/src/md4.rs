//! The MD4 strong hash: 16 bytes per block. Kept for signatures of the
//! older kind; MD4 is not collision resistant.
use vstd::prelude::*;
use vstd::slice::slice_to_vec;

verus! {

/// Number of bytes of an MD4 digest.
pub const MD4_SIZE: usize = 16;

/// The four 32-bit registers of MD4.
#[derive(Clone, Copy, Debug, PartialEq, Eq, Structural)]
pub struct Registers {
    pub a: u32,
    pub b: u32,
    pub c: u32,
    pub d: u32,
}

/// Addition modulo 2^32.
pub open spec fn add32(x: u32, y: u32) -> u32 {
    ((x as int + y as int) % 0x1_0000_0000) as u32
}

/// Rotation of a word to the left by `s` bits, `0 < s < 32`.
pub open spec fn rotl32(x: u32, s: u32) -> u32 {
    (x << s) | (x >> sub32(32, s))
}

/// `x - y` for `y <= x`.
pub open spec fn sub32(x: u32, y: u32) -> u32 {
    (x - y) as u32
}

/// The registers before the first block.
pub open spec fn initial_registers() -> Registers {
    Registers { a: 0x6745_2301, b: 0xefcd_ab89, c: 0x98ba_dcfe, d: 0x1032_5476 }
}

/// The word of the block that step `i` (0 to 47) adds.
pub open spec fn step_word(i: int) -> int {
    if i < 16 {
        i
    } else if i < 32 {
        ((i - 16) % 4) * 4 + (i - 16) / 4
    } else {
        ((i - 32) % 2) * 8 + (((i - 32) / 2) % 2) * 4 + (((i - 32) / 4) % 2) * 2 + (i - 32) / 8
    }
}

/// The number of bits by which step `i` rotates.
pub open spec fn step_shift(i: int) -> u32 {
    let r = i % 4;
    if i < 16 {
        if r == 0 {
            3
        } else if r == 1 {
            7
        } else if r == 2 {
            11
        } else {
            19
        }
    } else if i < 32 {
        if r == 0 {
            3
        } else if r == 1 {
            5
        } else if r == 2 {
            9
        } else {
            13
        }
    } else {
        if r == 0 {
            3
        } else if r == 1 {
            9
        } else if r == 2 {
            11
        } else {
            15
        }
    }
}

/// The constant that step `i` adds.
pub open spec fn step_constant(i: int) -> u32 {
    if i < 16 {
        0
    } else if i < 32 {
        0x5a82_7999
    } else {
        0x6ed9_eba1
    }
}

/// The bitwise function of step `i`: selection in the first round, majority
/// in the second, parity in the third.
pub open spec fn step_mix(i: int, x: u32, y: u32, z: u32) -> u32 {
    if i < 16 {
        (x & y) | (!x & z)
    } else if i < 32 {
        (x & y) | (x & z) | (y & z)
    } else {
        x ^ y ^ z
    }
}

/// Word `k` of a block: four bytes, least significant first.
pub open spec fn block_word(block: Seq<u8>, k: int) -> u32 {
    (block[4 * k] as int + block[4 * k + 1] as int * 0x100 + block[4 * k + 2] as int * 0x1_0000
        + block[4 * k + 3] as int * 0x100_0000) as u32
}

/// One step: the first register takes up the mixed other three, a word of
/// the block and the round's constant, is rotated, and the registers move
/// round by one place.
pub open spec fn step(r: Registers, i: int, block: Seq<u8>) -> Registers {
    let sum = add32(
        add32(add32(r.a, step_mix(i, r.b, r.c, r.d)), block_word(block, step_word(i))),
        step_constant(i),
    );
    Registers { a: r.d, b: rotl32(sum, step_shift(i)), c: r.b, d: r.c }
}

/// The registers after the first `n` steps on a block.
pub open spec fn steps(r: Registers, n: nat, block: Seq<u8>) -> Registers
    decreases n,
{
    if n == 0 {
        r
    } else {
        step(steps(r, (n - 1) as nat, block), n - 1, block)
    }
}

/// The registers after a whole block of 64 bytes: 48 steps, then each
/// register is added to what it held before.
pub open spec fn compress(r: Registers, block: Seq<u8>) -> Registers {
    let t = steps(r, 48, block);
    Registers { a: add32(r.a, t.a), b: add32(r.b, t.b), c: add32(r.c, t.c), d: add32(r.d, t.d) }
}

/// Number of zero bytes in the padding of a message of `len` bytes.
pub open spec fn padding_zeros(len: nat) -> nat {
    ((119 - len % 64) % 64) as nat
}

/// Byte `i` of the 64-bit number `v`, least significant first.
pub open spec fn le_byte(v: nat, i: nat) -> u8
    decreases i,
{
    if i == 0 {
        (v % 256) as u8
    } else {
        le_byte(v / 256, (i - 1) as nat)
    }
}

/// The message with its padding: a byte 0x80, zero bytes up to eight short
/// of a multiple of 64, and the length in bits as eight bytes, least
/// significant first.
pub open spec fn padded(data: Seq<u8>) -> Seq<u8> {
    let bits = ((data.len() * 8) % 0x1_0000_0000_0000_0000) as nat;
    data + seq![0x80u8] + Seq::new(padding_zeros(data.len()), |i: int| 0u8) + Seq::new(
        8,
        |i: int| le_byte(bits, i as nat),
    )
}

/// The registers after the first `n` blocks of a padded message.
pub open spec fn absorb(message: Seq<u8>, n: nat) -> Registers
    decreases n,
{
    if n == 0 {
        initial_registers()
    } else {
        compress(absorb(message, (n - 1) as nat), message.subrange(64 * (n - 1), 64 * (n as int)))
    }
}

/// The four bytes of a word, least significant first.
pub open spec fn word_bytes(w: u32) -> Seq<u8> {
    seq![
        (w % 0x100) as u8,
        (w / 0x100 % 0x100) as u8,
        (w / 0x1_0000 % 0x100) as u8,
        (w / 0x100_0000) as u8,
    ]
}

/// The MD4 digest of a byte string.
pub open spec fn md4_digest(data: Seq<u8>) -> Seq<u8> {
    let message = padded(data);
    let r = absorb(message, message.len() / 64);
    word_bytes(r.a) + word_bytes(r.b) + word_bytes(r.c) + word_bytes(r.d)
}

/// The padded message is a whole number of blocks.
pub proof fn lemma_padded_len(data: Seq<u8>)
    ensures
        padded(data).len() == data.len() + 1 + padding_zeros(data.len()) + 8,
        padded(data).len() % 64 == 0,
        md4_digest(data).len() == 16,
{
}

fn add_words(x: u32, y: u32) -> (z: u32)
    ensures
        z == add32(x, y),
{
    ((x as u64 + y as u64) % 0x1_0000_0000) as u32
}

fn rotate_left(x: u32, s: u32) -> (z: u32)
    requires
        0 < s < 32,
    ensures
        z == rotl32(x, s),
{
    (x << s) | (x >> (32 - s))
}

fn word_of_step(i: usize) -> (k: usize)
    requires
        i < 48,
    ensures
        k == step_word(i as int),
        k < 16,
{
    if i < 16 {
        i
    } else if i < 32 {
        ((i - 16) % 4) * 4 + (i - 16) / 4
    } else {
        ((i - 32) % 2) * 8 + (((i - 32) / 2) % 2) * 4 + (((i - 32) / 4) % 2) * 2 + (i - 32) / 8
    }
}

fn shift_of_step(i: usize) -> (s: u32)
    requires
        i < 48,
    ensures
        s == step_shift(i as int),
        0 < s < 32,
{
    let r: usize = i % 4;
    if i < 16 {
        if r == 0 {
            3
        } else if r == 1 {
            7
        } else if r == 2 {
            11
        } else {
            19
        }
    } else if i < 32 {
        if r == 0 {
            3
        } else if r == 1 {
            5
        } else if r == 2 {
            9
        } else {
            13
        }
    } else {
        if r == 0 {
            3
        } else if r == 1 {
            9
        } else if r == 2 {
            11
        } else {
            15
        }
    }
}

fn mix_of_step(i: usize, x: u32, y: u32, z: u32) -> (m: u32)
    requires
        i < 48,
    ensures
        m == step_mix(i as int, x, y, z),
{
    if i < 16 {
        (x & y) | (!x & z)
    } else if i < 32 {
        (x & y) | (x & z) | (y & z)
    } else {
        x ^ y ^ z
    }
}

fn constant_of_step(i: usize) -> (c: u32)
    requires
        i < 48,
    ensures
        c == step_constant(i as int),
{
    if i < 16 {
        0
    } else if i < 32 {
        0x5a82_7999
    } else {
        0x6ed9_eba1
    }
}

fn read_word(message: &[u8], start: usize, k: usize) -> (w: u32)
    requires
        k < 16,
        start + 64 <= message.len(),
    ensures
        w == block_word(message@.subrange(start as int, start + 64), k as int),
{
    let at: usize = start + 4 * k;
    message[at] as u32 + message[at + 1] as u32 * 0x100 + message[at + 2] as u32 * 0x1_0000
        + message[at + 3] as u32 * 0x100_0000
}

/// Runs the 64 bytes of `message` from `start` on through the registers.
fn compress_block(r: Registers, message: &[u8], start: usize) -> (after: Registers)
    requires
        start + 64 <= message.len(),
    ensures
        after == compress(r, message@.subrange(start as int, start + 64)),
{
    let ghost block = message@.subrange(start as int, start + 64);
    let mut t: Registers = r;
    let mut i: usize = 0;
    while i < 48
        invariant
            0 <= i <= 48,
            start + 64 <= message.len(),
            block == message@.subrange(start as int, start + 64),
            t == steps(r, i as nat, block),
        decreases 48 - i,
    {
        let k: usize = word_of_step(i);
        let sum: u32 = add_words(
            add_words(add_words(t.a, mix_of_step(i, t.b, t.c, t.d)), read_word(message, start, k)),
            constant_of_step(i),
        );
        t = Registers { a: t.d, b: rotate_left(sum, shift_of_step(i)), c: t.b, d: t.c };
        i = i + 1;
    }
    Registers {
        a: add_words(r.a, t.a),
        b: add_words(r.b, t.b),
        c: add_words(r.c, t.c),
        d: add_words(r.d, t.d),
    }
}

/// Appends the padding of a message of `len` bytes to `message`, which
/// holds that message.
fn pad(message: &mut Vec<u8>, Ghost(data): Ghost<Seq<u8>>)
    requires
        old(message)@ == data,
    ensures
        final(message)@ == padded(data),
{
    let len: usize = message.len();
    let zeros: usize = (119 - len % 64) % 64;
    message.push(0x80);
    let mut i: usize = 0;
    while i < zeros
        invariant
            0 <= i <= zeros,
            message@ == data + seq![0x80u8] + Seq::new(i as nat, |j: int| 0u8),
        decreases zeros - i,
    {
        message.push(0);
        i = i + 1;
        assert(message@ =~= data + seq![0x80u8] + Seq::new(i as nat, |j: int| 0u8));
    }
    let mut bits: u64 = ((len as u64) % 0x2000_0000_0000_0000) * 8;
    let ghost all_bits: nat = bits as nat;
    assert(all_bits == ((data.len() * 8) % 0x1_0000_0000_0000_0000) as nat);
    let ghost head = message@;
    let mut j: usize = 0;
    while j < 8
        invariant
            0 <= j <= 8,
            message@ == head + Seq::new(j as nat, |k: int| le_byte(all_bits, k as nat)),
            forall|k: nat| #[trigger] le_byte(bits as nat, k) == le_byte(all_bits, k + j as nat),
        decreases 8 - j,
    {
        let low: u8 = (bits % 256) as u8;
        proof {
            assert(low == le_byte(bits as nat, 0));
            assert forall|k: nat| #[trigger]
                le_byte((bits / 256) as nat, k) == le_byte(all_bits, k + j as nat + 1) by {
                assert(le_byte(bits as nat, k + 1) == le_byte((bits / 256) as nat, k));
            }
        }
        message.push(low);
        bits = bits / 256;
        j = j + 1;
        assert(message@ =~= head + Seq::new(j as nat, |k: int| le_byte(all_bits, k as nat)));
    }
    assert(message@ =~= padded(data));
}

/// Computes the MD4 digest of `data`.
pub fn md4(data: &[u8]) -> (digest: [u8; 16])
    ensures
        digest@ == md4_digest(data@),
{
    let mut message: Vec<u8> = slice_to_vec(data);
    pad(&mut message, Ghost(data@));
    proof {
        lemma_padded_len(data@);
    }
    let blocks: usize = message.len() / 64;
    let mut r: Registers = Registers {
        a: 0x6745_2301,
        b: 0xefcd_ab89,
        c: 0x98ba_dcfe,
        d: 0x1032_5476,
    };
    let mut n: usize = 0;
    while n < blocks
        invariant
            0 <= n <= blocks,
            blocks == message.len() / 64,
            message.len() % 64 == 0,
            r == absorb(message@, n as nat),
        decreases blocks - n,
    {
        r = compress_block(r, message.as_slice(), 64 * n);
        n = n + 1;
    }
    let digest: [u8; 16] = [
        (r.a % 0x100) as u8,
        (r.a / 0x100 % 0x100) as u8,
        (r.a / 0x1_0000 % 0x100) as u8,
        (r.a / 0x100_0000) as u8,
        (r.b % 0x100) as u8,
        (r.b / 0x100 % 0x100) as u8,
        (r.b / 0x1_0000 % 0x100) as u8,
        (r.b / 0x100_0000) as u8,
        (r.c % 0x100) as u8,
        (r.c / 0x100 % 0x100) as u8,
        (r.c / 0x1_0000 % 0x100) as u8,
        (r.c / 0x100_0000) as u8,
        (r.d % 0x100) as u8,
        (r.d / 0x100 % 0x100) as u8,
        (r.d / 0x1_0000 % 0x100) as u8,
        (r.d / 0x100_0000) as u8,
    ];
    assert(digest@ =~= md4_digest(data@));
    digest
}

/// Computes the MD4 digest of every block, in order, and pairs each block
/// with its digest.
pub fn md4_many<'a>(datas: Vec<&'a [u8]>) -> (hashed: Vec<(&'a [u8], [u8; 16])>)
    ensures
        hashed.len() == datas.len(),
        forall|i: int|
            0 <= i < datas.len() ==> (#[trigger] hashed[i]).0 == datas[i] && hashed[i].1@
                == md4_digest(datas[i]@),
{
    let mut hashed: Vec<(&'a [u8], [u8; 16])> = Vec::new();
    let mut i: usize = 0;
    while i < datas.len()
        invariant
            0 <= i <= datas.len(),
            hashed.len() == i,
            forall|j: int|
                0 <= j < i ==> (#[trigger] hashed[j]).0 == datas[j] && hashed[j].1@
                    == md4_digest(datas[j]@),
        decreases datas.len() - i,
    {
        let block: &'a [u8] = datas[i];
        hashed.push((block, md4(block)));
        i = i + 1;
    }
    hashed
}

} // verus!
