//! Signatures: the header and the per-block checksums of a base, as one
//! serialized blob.
use vstd::prelude::*;
use crate::consts::{BLAKE2_MAGIC, BLAKE3_MAGIC, MD4_MAGIC};
use std::collections::HashMap;
use vstd::slice::slice_subrange;
use crate::hashmap_variant::SecondLayerMap;
use crate::blake3::{blake3, blake3_digest, blake3_many};
use crate::crc::{weak_sum, Crc};
use crate::md4::{lemma_padded_len, md4, md4_digest, md4_many};
use crate::wire::{
    be_array4, be_bytes, be_value, be_value4, get_be, lemma_be_bytes_len, lemma_be_value_bound,
    lemma_be_value_of_bytes, lemma_pow256_values,
};

verus! {

/// The hash family that a signature names in its magic.
#[derive(Copy, Clone, Debug, PartialEq, Eq, Structural)]
pub enum SignatureType {
    Md4,
    Blake2,
    Blake3,
}

/// The strong hash that a signature is calculated with.
#[derive(Copy, Clone, Debug, PartialEq, Eq, Structural)]
pub enum HashAlgorithm {
    /// MD4: 16 bytes, kept for older peers, not collision resistant.
    Md4,
    /// BLAKE3: 32 bytes.
    Blake3,
}

/// The family that a magic number stands for, if any.
pub open spec fn magic_kind(magic: nat) -> Option<SignatureType> {
    if magic == BLAKE2_MAGIC {
        Some(SignatureType::Blake2)
    } else if magic == MD4_MAGIC {
        Some(SignatureType::Md4)
    } else if magic == BLAKE3_MAGIC {
        Some(SignatureType::Blake3)
    } else {
        None
    }
}

impl SignatureType {
    /// Number of bytes of a magic.
    pub const SIZE: usize = 4;

    /// The magic number of the family.
    pub open spec fn magic(self) -> u32 {
        match self {
            SignatureType::Md4 => MD4_MAGIC,
            SignatureType::Blake2 => BLAKE2_MAGIC,
            SignatureType::Blake3 => BLAKE3_MAGIC,
        }
    }

    /// Number of bytes of a whole digest of the family.
    pub open spec fn digest_size(self) -> nat {
        match self {
            SignatureType::Md4 => 16,
            SignatureType::Blake2 => 32,
            SignatureType::Blake3 => 32,
        }
    }

    /// The family whose magic the four bytes spell, most significant first.
    pub fn from_magic(bytes: [u8; 4]) -> (kind: Option<SignatureType>)
        ensures
            kind == magic_kind(be_value(bytes@)),
    {
        let magic: u32 = be_value4(bytes);
        if magic == BLAKE2_MAGIC {
            Some(SignatureType::Blake2)
        } else if magic == MD4_MAGIC {
            Some(SignatureType::Md4)
        } else if magic == BLAKE3_MAGIC {
            Some(SignatureType::Blake3)
        } else {
            None
        }
    }

    /// The four bytes of the family's magic, most significant first.
    pub fn to_magic(self) -> (bytes: [u8; 4])
        ensures
            bytes@ == be_bytes(self.magic() as nat, 4),
    {
        let magic: u32 = match self {
            SignatureType::Md4 => MD4_MAGIC,
            SignatureType::Blake2 => BLAKE2_MAGIC,
            SignatureType::Blake3 => BLAKE3_MAGIC,
        };
        be_array4(magic)
    }
}

impl HashAlgorithm {
    /// The family of this algorithm.
    pub open spec fn kind(self) -> SignatureType {
        match self {
            HashAlgorithm::Md4 => SignatureType::Md4,
            HashAlgorithm::Blake3 => SignatureType::Blake3,
        }
    }

    /// The family that signatures of this algorithm carry in their magic.
    pub fn to_signature_type(self) -> (kind: SignatureType)
        ensures
            kind == self.kind(),
    {
        match self {
            HashAlgorithm::Md4 => SignatureType::Md4,
            HashAlgorithm::Blake3 => SignatureType::Blake3,
        }
    }

    /// Number of bytes of a whole digest: the most that a signature can
    /// keep per block.
    pub fn max_hash_size(self) -> (size: usize)
        ensures
            size == self.kind().digest_size(),
            size == match self {
                HashAlgorithm::Md4 => 16usize,
                HashAlgorithm::Blake3 => 32usize,
            },
    {
        match self {
            HashAlgorithm::Md4 => crate::md4::MD4_SIZE,
            HashAlgorithm::Blake3 => crate::blake3::BLAKE3_SIZE,
        }
    }
}

/// What a byte string was refused for: it is no signature.
#[derive(Debug)]
pub struct SignatureParseError(());

impl SignatureParseError {
    /// The reason in words.
    pub fn message(&self) -> (text: &'static str)
        ensures
            text@ == "invalid or unsupported signature"@,
    {
        "invalid or unsupported signature"
    }
}

/// What a signature is calculated with.
#[derive(Copy, Clone, Debug)]
pub struct SignatureOptions {
    /// Number of bytes of a block; greater than zero.
    pub block_size: u32,
    /// Number of bytes kept of each block's strong hash: at least one, at
    /// most the algorithm's digest size.
    pub crypto_hash_size: u32,
    /// The strong hash.
    pub hash_algorithm: HashAlgorithm,
}

/// Number of bytes before the first record: magic, block size, hash size.
pub const HEADER_SIZE: usize = 12;

/// The twelve bytes that open a signature.
pub open spec fn header(kind: SignatureType, block_size: u32, crypto_hash_size: u32) -> Seq<u8> {
    be_bytes(kind.magic() as nat, 4) + be_bytes(block_size as nat, 4) + be_bytes(
        crypto_hash_size as nat,
        4,
    )
}

/// A signature as a mathematical value: the three header fields and the
/// whole blob, header included.
pub struct SignatureView {
    pub kind: SignatureType,
    pub block_size: u32,
    pub crypto_hash_size: u32,
    pub bytes: Seq<u8>,
}

/// Reading a blob: `Some` exactly where the blob holds a header with a
/// known magic and a whole number of records after it.
pub open spec fn parse(bytes: Seq<u8>) -> Option<SignatureView> {
    if bytes.len() < 12 {
        None
    } else {
        match magic_kind(be_value(bytes.subrange(0, 4))) {
            None => None,
            Some(kind) => {
                let block_size = be_value(bytes.subrange(4, 8)) as u32;
                let crypto_hash_size = be_value(bytes.subrange(8, 12)) as u32;
                if (bytes.len() - 12) % (4 + crypto_hash_size) != 0 {
                    None
                } else {
                    Some(SignatureView { kind, block_size, crypto_hash_size, bytes })
                }
            },
        }
    }
}

impl SignatureView {
    /// Number of bytes of one record: checksum and kept hash.
    pub open spec fn record_size(self) -> int {
        4 + self.crypto_hash_size
    }

    /// The fields are those that the blob's header spells, and the blob
    /// holds a whole number of records.
    pub open spec fn well_formed(self) -> bool {
        parse(self.bytes) == Some(self)
    }

    /// Number of records, one per block of the base.
    pub open spec fn record_count(self) -> nat {
        ((self.bytes.len() - 12) / self.record_size()) as nat
    }

    /// Where record `i` starts in the blob.
    pub open spec fn record_start(self, i: int) -> int {
        12 + i * self.record_size()
    }

    /// The weak checksum of block `i`.
    pub open spec fn record_crc(self, i: int) -> u32 {
        be_value(self.bytes.subrange(self.record_start(i), self.record_start(i) + 4)) as u32
    }

    /// The kept bytes of the strong hash of block `i`.
    pub open spec fn record_hash(self, i: int) -> Seq<u8> {
        self.bytes.subrange(self.record_start(i) + 4, self.record_start(i + 1))
    }

    /// All records in block order.
    pub open spec fn records(self) -> Seq<(u32, Seq<u8>)> {
        Seq::new(self.record_count(), |i: int| (self.record_crc(i), self.record_hash(i)))
    }
}

/// The strong hash of a block in a family. BLAKE2 is reserved and has no
/// digest here.
pub open spec fn strong_digest(kind: SignatureType, block: Seq<u8>) -> Seq<u8> {
    match kind {
        SignatureType::Md4 => md4_digest(block),
        SignatureType::Blake2 => Seq::empty(),
        SignatureType::Blake3 => blake3_digest(block)@,
    }
}

/// Number of blocks of a base of `len` bytes: the last one may be short.
pub open spec fn block_count(len: nat, block_size: nat) -> nat {
    if block_size == 0 {
        0
    } else {
        ((len + block_size - 1) / block_size as int) as nat
    }
}

/// Block `i` of a base.
pub open spec fn block_of(data: Seq<u8>, block_size: nat, i: int) -> Seq<u8> {
    data.subrange(
        i * block_size,
        if (i + 1) * block_size <= data.len() {
            (i + 1) * block_size
        } else {
            data.len() as int
        },
    )
}

/// The record of one block: its weak checksum in four bytes, then the
/// first `crypto_hash_size` bytes of its strong hash.
pub open spec fn block_record(kind: SignatureType, crypto_hash_size: nat, block: Seq<u8>) -> Seq<
    u8,
> {
    be_bytes(weak_sum(block) as nat, 4) + strong_digest(kind, block).take(crypto_hash_size as int)
}

/// The records of the first `n` blocks of a base, one after the other.
pub open spec fn block_records(
    kind: SignatureType,
    crypto_hash_size: nat,
    data: Seq<u8>,
    block_size: nat,
    n: nat,
) -> Seq<u8>
    decreases n,
{
    if n == 0 {
        Seq::empty()
    } else {
        block_records(kind, crypto_hash_size, data, block_size, (n - 1) as nat) + block_record(
            kind,
            crypto_hash_size,
            block_of(data, block_size, n - 1),
        )
    }
}

/// The options that `calculate` accepts.
pub open spec fn valid_options(options: SignatureOptions) -> bool {
    &&& options.block_size > 0
    &&& 0 < options.crypto_hash_size <= options.hash_algorithm.kind().digest_size()
}

/// The serialized signature of a base: the header, then one record per
/// block.
pub open spec fn signature_bytes(data: Seq<u8>, options: SignatureOptions) -> Seq<u8> {
    header(options.hash_algorithm.kind(), options.block_size, options.crypto_hash_size)
        + block_records(
        options.hash_algorithm.kind(),
        options.crypto_hash_size as nat,
        data,
        options.block_size as nat,
        block_count(data.len(), options.block_size as nat),
    )
}

/// The signature of a base as a mathematical value.
pub open spec fn signature_of(data: Seq<u8>, options: SignatureOptions) -> SignatureView {
    SignatureView {
        kind: options.hash_algorithm.kind(),
        block_size: options.block_size,
        crypto_hash_size: options.crypto_hash_size,
        bytes: signature_bytes(data, options),
    }
}

/// A whole digest has the size of its family.
pub proof fn lemma_digest_len(kind: SignatureType, block: Seq<u8>)
    requires
        kind != SignatureType::Blake2,
    ensures
        strong_digest(kind, block).len() == kind.digest_size(),
{
    lemma_padded_len(block);
}

/// Each record takes four bytes and the kept hash bytes.
pub proof fn lemma_block_records_len(
    kind: SignatureType,
    crypto_hash_size: nat,
    data: Seq<u8>,
    block_size: nat,
    n: nat,
)
    requires
        kind != SignatureType::Blake2,
        crypto_hash_size <= kind.digest_size(),
    ensures
        block_records(kind, crypto_hash_size, data, block_size, n).len() == n * (4
            + crypto_hash_size),
    decreases n,
{
    if n > 0 {
        lemma_block_records_len(kind, crypto_hash_size, data, block_size, (n - 1) as nat);
        let block = block_of(data, block_size, n - 1);
        lemma_digest_len(kind, block);
        lemma_be_bytes_len(weak_sum(block) as nat, 4);
        assert(n * (4 + crypto_hash_size) == (n - 1) * (4 + crypto_hash_size) + (4
            + crypto_hash_size)) by (nonlinear_arith);
    } else {
        assert(0 * (4 + crypto_hash_size) == 0);
    }
}

/// A header followed by a whole number of records parses to the fields
/// that the header was written from.
pub proof fn lemma_parse_header(
    kind: SignatureType,
    block_size: u32,
    crypto_hash_size: u32,
    body: Seq<u8>,
    n: nat,
)
    requires
        body.len() == n * (4 + crypto_hash_size),
    ensures
        parse(header(kind, block_size, crypto_hash_size) + body) == Some(
            SignatureView {
                kind,
                block_size,
                crypto_hash_size,
                bytes: header(kind, block_size, crypto_hash_size) + body,
            },
        ),
{
    let bytes = header(kind, block_size, crypto_hash_size) + body;
    lemma_be_bytes_len(kind.magic() as nat, 4);
    lemma_be_bytes_len(block_size as nat, 4);
    lemma_be_bytes_len(crypto_hash_size as nat, 4);
    lemma_pow256_values();
    lemma_be_value_of_bytes(kind.magic() as nat, 4);
    lemma_be_value_of_bytes(block_size as nat, 4);
    lemma_be_value_of_bytes(crypto_hash_size as nat, 4);
    assert(bytes.subrange(0, 4) =~= be_bytes(kind.magic() as nat, 4));
    assert(bytes.subrange(4, 8) =~= be_bytes(block_size as nat, 4));
    assert(bytes.subrange(8, 12) =~= be_bytes(crypto_hash_size as nat, 4));
    assert(bytes.len() - 12 == n * (4 + crypto_hash_size));
    vstd::arithmetic::div_mod::lemma_mod_multiples_basic(n as int, 4 + crypto_hash_size);
}

/// A signature: a blob that parses, with its header fields.
#[derive(Debug, Eq, PartialEq)]
pub struct Signature {
    signature_type: SignatureType,
    block_size: u32,
    crypto_hash_size: u32,
    signature: Vec<u8>,
}

impl View for Signature {
    type V = SignatureView;

    closed spec fn view(&self) -> SignatureView {
        SignatureView {
            kind: self.signature_type,
            block_size: self.block_size,
            crypto_hash_size: self.crypto_hash_size,
            bytes: self.signature@,
        }
    }
}

impl Clone for Signature {
    fn clone(&self) -> (copy: Signature)
        ensures
            copy@ == self@,
    {
        proof {
            use_type_invariant(self);
        }
        let signature = self.signature.clone();
        assert(signature@ =~= self.signature@);
        Signature {
            signature_type: self.signature_type,
            block_size: self.block_size,
            crypto_hash_size: self.crypto_hash_size,
            signature,
        }
    }
}

impl Signature {
    /// Number of bytes before the first record.
    pub const HEADER_SIZE: usize = 12;

    #[verifier::type_invariant]
    closed spec fn inv(&self) -> bool {
        self@.well_formed()
    }

    /// Calculates the signature of `buf`: the header, then for each block
    /// of `block_size` bytes (the last may be shorter) its weak checksum and
    /// the first `crypto_hash_size` bytes of its strong hash.
    pub fn calculate(buf: &[u8], options: SignatureOptions) -> (sig: Signature)
        requires
            valid_options(options),
        ensures
            sig@ == signature_of(buf@, options),
            sig@.well_formed(),
    {
        let signature_type = options.hash_algorithm.to_signature_type();
        let block_size: usize = options.block_size as usize;
        let keep: usize = options.crypto_hash_size as usize;
        let full: usize = buf.len() / block_size;
        let ghost kind = options.hash_algorithm.kind();
        let ghost bs = options.block_size as nat;

        let mut signature: Vec<u8> = Vec::new();
        signature.extend_from_slice(signature_type.to_magic().as_slice());
        signature.extend_from_slice(be_array4(options.block_size).as_slice());
        signature.extend_from_slice(be_array4(options.crypto_hash_size).as_slice());
        let ghost head = header(kind, options.block_size, options.crypto_hash_size);
        assert(signature@ =~= head);

        let mut chunks: Vec<&[u8]> = Vec::new();
        let mut i: usize = 0;
        while i < full
            invariant
                0 <= i <= full,
                block_size > 0,
                bs == block_size,
                full == buf.len() / block_size,
                chunks.len() == i,
                forall|j: int| 0 <= j < i ==> (#[trigger] chunks[j])@ == block_of(buf@, bs, j),
            decreases full - i,
        {
            proof {
                lemma_full_block_fits(buf@.len(), bs, i as int);
            }
            let chunk: &[u8] = slice_subrange(buf, i * block_size, (i + 1) * block_size);
            chunks.push(chunk);
            i = i + 1;
        }
        match options.hash_algorithm {
            HashAlgorithm::Md4 => {
                let hashed = md4_many(chunks);
                let mut k: usize = 0;
                while k < full
                    invariant
                        0 <= k <= full,
                        hashed.len() == full,
                        kind == SignatureType::Md4,
                        keep == options.crypto_hash_size,
                        keep <= 16,
                        forall|j: int|
                            0 <= j < full ==> (#[trigger] hashed[j]).0@ == block_of(buf@, bs, j)
                                && hashed[j].1@ == md4_digest(block_of(buf@, bs, j)),
                        signature@ == head + block_records(kind, keep as nat, buf@, bs, k as nat),
                    decreases full - k,
                {
                    let block: &[u8] = hashed[k].0;
                    let digest: [u8; 16] = hashed[k].1;
                    append_record(&mut signature, block, digest.as_slice(), keep);
                    k = k + 1;
                    assert(signature@ =~= head + block_records(
                        kind,
                        keep as nat,
                        buf@,
                        bs,
                        k as nat,
                    ));
                }
                if buf.len() % block_size != 0 {
                    proof {
                        lemma_last_block(buf@.len(), bs);
                    }
                    let rest: &[u8] = slice_subrange(buf, full * block_size, buf.len());
                    let digest: [u8; 16] = md4(rest);
                    append_record(&mut signature, rest, digest.as_slice(), keep);
                    assert(signature@ =~= head + block_records(
                        kind,
                        keep as nat,
                        buf@,
                        bs,
                        (full + 1) as nat,
                    ));
                } else {
                    proof {
                        lemma_last_block(buf@.len(), bs);
                    }
                }
            },
            HashAlgorithm::Blake3 => {
                let hashed = blake3_many(chunks);
                let mut k: usize = 0;
                while k < full
                    invariant
                        0 <= k <= full,
                        hashed.len() == full,
                        kind == SignatureType::Blake3,
                        keep == options.crypto_hash_size,
                        keep <= 32,
                        forall|j: int|
                            0 <= j < full ==> (#[trigger] hashed[j]).0@ == block_of(buf@, bs, j)
                                && hashed[j].1 == blake3_digest(block_of(buf@, bs, j)),
                        signature@ == head + block_records(kind, keep as nat, buf@, bs, k as nat),
                    decreases full - k,
                {
                    let block: &[u8] = hashed[k].0;
                    let digest: [u8; 32] = hashed[k].1;
                    append_record(&mut signature, block, digest.as_slice(), keep);
                    k = k + 1;
                    assert(signature@ =~= head + block_records(
                        kind,
                        keep as nat,
                        buf@,
                        bs,
                        k as nat,
                    ));
                }
                if buf.len() % block_size != 0 {
                    proof {
                        lemma_last_block(buf@.len(), bs);
                    }
                    let rest: &[u8] = slice_subrange(buf, full * block_size, buf.len());
                    let digest: [u8; 32] = blake3(rest);
                    append_record(&mut signature, rest, digest.as_slice(), keep);
                    assert(signature@ =~= head + block_records(
                        kind,
                        keep as nat,
                        buf@,
                        bs,
                        (full + 1) as nat,
                    ));
                } else {
                    proof {
                        lemma_last_block(buf@.len(), bs);
                    }
                }
            },
        }
        proof {
            let n = block_count(buf@.len(), bs);
            let body = block_records(kind, keep as nat, buf@, bs, n);
            lemma_block_records_len(kind, keep as nat, buf@, bs, n);
            lemma_parse_header(kind, options.block_size, options.crypto_hash_size, body, n);
        }
        Signature {
            signature_type,
            block_size: options.block_size,
            crypto_hash_size: options.crypto_hash_size,
            signature,
        }
    }

    /// Reads a serialized signature. The header and the blob's length are
    /// checked; the hashes are taken as they stand.
    pub fn deserialize(signature: Vec<u8>) -> (parsed: Result<Signature, SignatureParseError>)
        ensures
            match parse(signature@) {
                Some(v) => parsed is Ok && parsed->Ok_0@ == v,
                None => parsed is Err,
            },
    {
        if signature.len() < HEADER_SIZE {
            return Err(SignatureParseError(()));
        }
        let magic: [u8; 4] = [signature[0], signature[1], signature[2], signature[3]];
        assert(magic@ =~= signature@.subrange(0, 4));
        let signature_type = match SignatureType::from_magic(magic) {
            Some(kind) => kind,
            None => {
                return Err(SignatureParseError(()));
            },
        };
        let block_size: u64 = get_be(signature.as_slice(), 4, 4);
        let crypto_hash_size: u64 = get_be(signature.as_slice(), 8, 4);
        proof {
            lemma_pow256_values();
            lemma_be_value_bound(signature@.subrange(4, 8));
            lemma_be_value_bound(signature@.subrange(8, 12));
        }
        let record_size: u64 = 4 + crypto_hash_size;
        if (signature.len() - HEADER_SIZE) as u64 % record_size != 0 {
            return Err(SignatureParseError(()));
        }
        Ok(
            Signature {
                signature_type,
                block_size: block_size as u32,
                crypto_hash_size: crypto_hash_size as u32,
                signature,
            },
        )
    }

    /// The serialized form of the signature.
    pub fn serialized(&self) -> (bytes: &[u8])
        ensures
            bytes@ == self@.bytes,
    {
        self.signature.as_slice()
    }

    /// The serialized form of the signature, owned.
    pub fn into_serialized(self) -> (bytes: Vec<u8>)
        ensures
            bytes@ == self@.bytes,
    {
        self.signature
    }
}

/// The strong hash of `data` in the family `kind`; empty for the reserved
/// family, which has none.
pub fn strong_hash(kind: SignatureType, data: &[u8]) -> (digest: Vec<u8>)
    ensures
        digest@ == strong_digest(kind, data@),
{
    match kind {
        SignatureType::Md4 => {
            let digest: [u8; 16] = md4(data);
            vstd::slice::slice_to_vec(digest.as_slice())
        },
        SignatureType::Blake2 => Vec::new(),
        SignatureType::Blake3 => {
            let digest: [u8; 32] = blake3(data);
            vstd::slice::slice_to_vec(digest.as_slice())
        },
    }
}

/// Appends the record of a block, given the block's whole digest: the
/// block's weak checksum in four bytes, then the first `keep` bytes of the
/// digest.
pub fn append_record(out: &mut Vec<u8>, block: &[u8], digest: &[u8], keep: usize)
    requires
        keep <= digest.len(),
    ensures
        final(out)@ == old(out)@ + be_bytes(weak_sum(block@) as nat, 4) + digest@.take(
            keep as int,
        ),
{
    let crc = Crc::new().update(block);
    out.extend_from_slice(crc.to_bytes().as_slice());
    out.extend_from_slice(slice_subrange(digest, 0, keep));
}

/// A block that lies wholly within the base ends where the next begins.
proof fn lemma_full_block_fits(len: nat, block_size: nat, i: int)
    requires
        block_size > 0,
        0 <= i < len / block_size,
    ensures
        (i + 1) * block_size <= len,
        i * block_size + block_size == (i + 1) * block_size,
        0 <= i * block_size,
{
    vstd::arithmetic::div_mod::lemma_fundamental_div_mod(len as int, block_size as int);
    assert((i + 1) * block_size <= (len / block_size) * block_size) by (nonlinear_arith)
        requires
            i + 1 <= len / block_size,
            block_size > 0,
    ;
    assert(i * block_size + block_size == (i + 1) * block_size) by (nonlinear_arith);
    assert(0 <= i * block_size) by (nonlinear_arith)
        requires
            0 <= i,
            block_size > 0,
    ;
    assert((len / block_size) * block_size == block_size * (len / block_size))
        by (nonlinear_arith);
}

/// The number of blocks is the number of whole blocks, and one more where
/// bytes are left over; the last block then runs to the end of the base.
proof fn lemma_last_block(len: nat, block_size: nat)
    requires
        block_size > 0,
    ensures
        len % block_size == 0 ==> block_count(len, block_size) == len / block_size,
        len % block_size != 0 ==> block_count(len, block_size) == len / block_size + 1,
        (len / block_size) * block_size <= len,
        len % block_size != 0 ==> (len / block_size + 1) * block_size > len,
{
    let q = len / block_size;
    let r = len % block_size;
    vstd::arithmetic::div_mod::lemma_fundamental_div_mod(len as int, block_size as int);
    assert(block_size * q == q * block_size) by (nonlinear_arith);
    assert((q + 1) * block_size == q * block_size + block_size) by (nonlinear_arith);
    if r == 0 {
        vstd::arithmetic::div_mod::lemma_fundamental_div_mod_converse(
            len + block_size - 1,
            block_size as int,
            q as int,
            block_size - 1,
        );
    } else {
        vstd::arithmetic::div_mod::lemma_fundamental_div_mod_converse(
            len + block_size - 1,
            block_size as int,
            (q + 1) as int,
            r - 1,
        );
    }
}

/// Whether some record carries the weak checksum `crc`.
pub open spec fn crc_present(records: Seq<(u32, Seq<u8>)>, crc: u32) -> bool
    decreases records.len(),
{
    records.len() > 0 && (records.last().0 == crc || crc_present(records.drop_last(), crc))
}

/// The number of the last block whose record is the pair of `crc` and
/// `prefix`, if there is one.
pub open spec fn find_block(records: Seq<(u32, Seq<u8>)>, crc: u32, prefix: Seq<u8>) -> Option<
    nat,
>
    decreases records.len(),
{
    if records.len() == 0 {
        None
    } else if records.last() == (crc, prefix) {
        Some((records.len() - 1) as nat)
    } else {
        find_block(records.drop_last(), crc, prefix)
    }
}

/// What a found block is: a record with that checksum and those hash
/// bytes, at a place within the records.
pub proof fn lemma_find_block(records: Seq<(u32, Seq<u8>)>, crc: u32, prefix: Seq<u8>)
    ensures
        match find_block(records, crc, prefix) {
            Some(i) => i < records.len() && records[i as int] == (crc, prefix) && crc_present(
                records,
                crc,
            ),
            None => forall|i: int|
                0 <= i < records.len() ==> #[trigger] records[i] != (crc, prefix),
        },
    decreases records.len(),
{
    if records.len() > 0 {
        lemma_find_block(records.drop_last(), crc, prefix);
        if records.last() != (crc, prefix) {
            match find_block(records, crc, prefix) {
                Some(i) => {
                    assert(records.drop_last()[i as int] == records[i as int]);
                },
                None => {
                    assert forall|i: int| 0 <= i < records.len() implies #[trigger] records[i] != (
                        crc,
                        prefix,
                    ) by {
                        if i < records.len() - 1 {
                            assert(records.drop_last()[i] == records[i]);
                        }
                    }
                },
            }
        }
    }
}

/// What the two-level index gives for a checksum and hash bytes.
pub open spec fn layered<'a>(
    blocks: Map<u32, SecondLayerMap<'a>>,
    crc: u32,
    prefix: Seq<u8>,
) -> Option<nat> {
    if blocks.contains_key(crc) && blocks[crc]@.contains_key(prefix) {
        Some(blocks[crc]@[prefix] as nat)
    } else {
        None
    }
}

/// The two-level index holds exactly the records: a checksum is a key of
/// the outer map where some record carries it, and a pair of checksum and
/// hash bytes leads to the last block with that record.
pub open spec fn indexes<'a>(
    blocks: Map<u32, SecondLayerMap<'a>>,
    records: Seq<(u32, Seq<u8>)>,
) -> bool {
    &&& forall|crc: u32| #[trigger] blocks.contains_key(crc) <==> crc_present(records, crc)
    &&& forall|crc: u32, prefix: Seq<u8>|
        #![trigger layered(blocks, crc, prefix)]
        #![trigger find_block(records, crc, prefix)]
        layered(blocks, crc, prefix) == find_block(records, crc, prefix)
}

/// A signature with its index from weak checksum and hash bytes to block
/// number. It borrows the signature's blob.
#[derive(Debug, PartialEq, Eq)]
pub struct IndexedSignature<'a> {
    signature_type: SignatureType,
    block_size: u32,
    crypto_hash_size: u32,
    signature: &'a [u8],
    blocks: HashMap<u32, SecondLayerMap<'a>>,
}

impl<'a> View for IndexedSignature<'a> {
    type V = SignatureView;

    closed spec fn view(&self) -> SignatureView {
        SignatureView {
            kind: self.signature_type,
            block_size: self.block_size,
            crypto_hash_size: self.crypto_hash_size,
            bytes: self.signature@,
        }
    }
}

/// The checksum and the hash bytes of record `i` of a blob whose records
/// keep `crypto_hash_size` hash bytes each.
fn record_at<'a>(blob: &'a [u8], crypto_hash_size: u32, i: usize) -> (record: (u32, &'a [u8]))
    requires
        blob.len() >= 12,
        (blob.len() - 12) % (4 + crypto_hash_size) == 0,
        i < (blob.len() - 12) / (4 + crypto_hash_size),
    ensures
        ({
            let start = 12 + i * (4 + crypto_hash_size);
            &&& start + 4 + crypto_hash_size <= blob.len()
            &&& record.0 as nat == be_value(blob@.subrange(start, start + 4))
            &&& record.1@ == blob@.subrange(start + 4, start + 4 + crypto_hash_size)
        }),
{
    let size: u64 = 4 + crypto_hash_size as u64;
    proof {
        let body = blob.len() - 12;
        vstd::arithmetic::div_mod::lemma_fundamental_div_mod(body, size as int);
        assert((i + 1) * size <= (body / size as int) * size) by (nonlinear_arith)
            requires
                i + 1 <= body / size as int,
                size > 0,
        ;
        assert((body / size as int) * size == size * (body / size as int)) by (nonlinear_arith);
        assert((i + 1) * size == i * size + size) by (nonlinear_arith);
        assert(0 <= i * size) by (nonlinear_arith)
            requires
                0 <= i,
                size > 0,
        ;
    }
    let start: usize = 12 + (i as u64 * size) as usize;
    let crc: u64 = get_be(blob, start, 4);
    proof {
        lemma_pow256_values();
        lemma_be_value_bound(blob@.subrange(start as int, start + 4));
    }
    let key: &'a [u8] = slice_subrange(blob, start + 4, start + 4 + crypto_hash_size as usize);
    (crc as u32, key)
}

impl SignatureView {
    /// Record `i` ends where record `i + 1` starts.
    pub proof fn lemma_record_bounds(self, i: int)
        requires
            self.well_formed(),
            0 <= i < self.record_count(),
        ensures
            12 <= self.record_start(i),
            self.record_start(i + 1) == self.record_start(i) + 4 + self.crypto_hash_size,
            self.record_start(i + 1) <= self.bytes.len(),
            self.records()[i] == (self.record_crc(i), self.record_hash(i)),
            self.record_hash(i).len() == self.crypto_hash_size,
    {
        let size = self.record_size();
        let body = self.bytes.len() - 12;
        vstd::arithmetic::div_mod::lemma_fundamental_div_mod(body, size);
        assert((i + 1) * size <= (body / size) * size) by (nonlinear_arith)
            requires
                i + 1 <= body / size,
                size > 0,
        ;
        assert((body / size) * size == size * (body / size)) by (nonlinear_arith);
        assert((i + 1) * size == i * size + size) by (nonlinear_arith);
        assert(0 <= i * size) by (nonlinear_arith)
            requires
                0 <= i,
                size > 0,
        ;
    }
}

impl Signature {
    /// Number of records, one per block of the base.
    pub fn block_count(&self) -> (n: usize)
        ensures
            n == self@.record_count(),
            self@.well_formed(),
    {
        proof {
            use_type_invariant(self);
        }
        let size: u64 = 4 + self.crypto_hash_size as u64;
        ((self.signature.len() - HEADER_SIZE) as u64 / size) as usize
    }

    /// The records in block order: each block's weak checksum and the kept
    /// bytes of its strong hash.
    pub fn blocks(&self) -> (records: Vec<(Crc, &[u8])>)
        ensures
            records.len() == self@.record_count(),
            forall|i: int|
                0 <= i < records.len() ==> (#[trigger] records[i]).0.spec_value()
                    == self@.record_crc(i) && records[i].1@ == self@.record_hash(i),
    {
        proof {
            use_type_invariant(self);
        }
        let count: usize = self.block_count();
        let mut records: Vec<(Crc, &[u8])> = Vec::new();
        let mut i: usize = 0;
        while i < count
            invariant
                0 <= i <= count,
                count == self@.record_count(),
                self@.well_formed(),
                records.len() == i,
                forall|j: int|
                    0 <= j < i ==> (#[trigger] records[j]).0.spec_value() == self@.record_crc(j)
                        && records[j].1@ == self@.record_hash(j),
            decreases count - i,
        {
            proof {
                self@.lemma_record_bounds(i as int);
            }
            let (crc, hash) = record_at(self.signature.as_slice(), self.crypto_hash_size, i);
            records.push((Crc::from_value(crc), hash));
            i = i + 1;
        }
        records
    }

    /// Builds the index of the signature, for calculating deltas against
    /// it. Where several blocks have the same record, the index leads to
    /// the last of them.
    pub fn index(&self) -> (indexed: IndexedSignature<'_>)
        requires
            self@.record_count() <= u32::MAX,
        ensures
            indexed@ == self@,
    {
        proof {
            use_type_invariant(self);
        }
        let count: usize = self.block_count();
        let mut blocks: HashMap<u32, SecondLayerMap<'_>> = HashMap::new();
        let ghost all = self@.records();
        assert(all.take(0) =~= Seq::empty());
        let mut i: usize = 0;
        while i < count
            invariant
                0 <= i <= count,
                count == self@.record_count(),
                count <= u32::MAX,
                self@.well_formed(),
                all == self@.records(),
                indexes(blocks@, all.take(i as int)),
            decreases count - i,
        {
            let ghost before = blocks@;
            proof {
                self@.lemma_record_bounds(i as int);
            }
            let (crc, hash) = record_at(self.signature.as_slice(), self.crypto_hash_size, i);
            let mut layer = match blocks.remove(&crc) {
                Some(layer) => layer,
                None => SecondLayerMap::new(),
            };
            let ghost layer_before = layer@;
            layer.insert(hash, i as u32);
            blocks.insert(crc, layer);
            proof {
                let done = all.take(i as int);
                let next = all.take(i + 1);
                assert(next.drop_last() =~= done);
                assert(next.last() == (crc, hash@));
                assert(blocks@ == before.remove(crc).insert(crc, layer));
                assert(before.contains_key(crc) ==> layer_before == before[crc]@);
                assert(!before.contains_key(crc) ==> layer_before == Map::<Seq<u8>, u32>::empty());
                assert forall|c: u32| #[trigger] blocks@.contains_key(c) <==> crc_present(
                    next,
                    c,
                ) by {
                    assert(before.contains_key(c) <==> crc_present(done, c));
                }
                assert forall|c: u32, p: Seq<u8>|
                    #![trigger layered(blocks@, c, p)]
                    #![trigger find_block(next, c, p)]
                    layered(blocks@, c, p) == find_block(next, c, p) by {
                    assert(layered(before, c, p) == find_block(done, c, p));
                }
            }
            i = i + 1;
        }
        proof {
            assert(all.take(count as int) =~= all);
        }
        IndexedSignature {
            signature_type: self.signature_type,
            block_size: self.block_size,
            crypto_hash_size: self.crypto_hash_size,
            signature: self.signature.as_slice(),
            blocks,
        }
    }
}

impl<'a> Clone for IndexedSignature<'a> {
    fn clone(&self) -> (copy: IndexedSignature<'a>)
        ensures
            copy@ == self@,
    {
        proof {
            use_type_invariant(self);
        }
        IndexedSignature {
            signature_type: self.signature_type,
            block_size: self.block_size,
            crypto_hash_size: self.crypto_hash_size,
            signature: self.signature,
            blocks: self.blocks.clone(),
        }
    }
}

impl<'a> IndexedSignature<'a> {
    #[verifier::type_invariant]
    closed spec fn inv(&self) -> bool {
        &&& self@.well_formed()
        &&& self@.record_count() <= u32::MAX
        &&& indexes(self.blocks@, self@.records())
    }

    /// The hash family of the signature.
    pub fn signature_type(&self) -> (kind: SignatureType)
        ensures
            kind == self@.kind,
            self@.well_formed(),
            self@.record_count() <= u32::MAX,
    {
        proof {
            use_type_invariant(self);
        }
        self.signature_type
    }

    /// Number of bytes of a block.
    pub fn block_size(&self) -> (size: u32)
        ensures
            size == self@.block_size,
    {
        self.block_size
    }

    /// Number of bytes kept of each strong hash.
    pub fn crypto_hash_size(&self) -> (size: u32)
        ensures
            size == self@.crypto_hash_size,
    {
        self.crypto_hash_size
    }

    /// The blocks that carry the weak checksum `crc`, by the kept bytes of
    /// their strong hash; `None` where no block carries it.
    pub fn probe(&self, crc: u32) -> (layer: Option<&SecondLayerMap<'a>>)
        ensures
            layer is Some <==> crc_present(self@.records(), crc),
            layer is Some ==> forall|prefix: Seq<u8>|
                #![trigger layer->Some_0@.contains_key(prefix)]
                #![trigger find_block(self@.records(), crc, prefix)]
                find_block(self@.records(), crc, prefix) == (if layer->Some_0@.contains_key(
                    prefix,
                ) {
                    Some(layer->Some_0@[prefix] as nat)
                } else {
                    None
                }),
    {
        proof {
            use_type_invariant(self);
        }
        let layer = self.blocks.get(&crc);
        proof {
            if layer is Some {
                assert forall|prefix: Seq<u8>|
                    #![trigger layer->Some_0@.contains_key(prefix)]
                    #![trigger find_block(self@.records(), crc, prefix)]
                    find_block(self@.records(), crc, prefix) == (if layer->Some_0@.contains_key(
                        prefix,
                    ) {
                        Some(layer->Some_0@[prefix] as nat)
                    } else {
                        None
                    }) by {
                    assert(layered(self.blocks@, crc, prefix) == find_block(
                        self@.records(),
                        crc,
                        prefix,
                    ));
                }
            }
        }
        layer
    }
}

} // verus!
