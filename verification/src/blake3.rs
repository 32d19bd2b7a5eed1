//! The BLAKE3 strong hash: 32 bytes per block.
use vstd::prelude::*;

verus! {

/// Number of bytes of a BLAKE3 digest.
pub const BLAKE3_SIZE: usize = 32;

/// The BLAKE3 digest of a byte string.
pub uninterp spec fn blake3_digest(data: Seq<u8>) -> [u8; 32];

/// Computes the BLAKE3 digest of `data`.
///
/// Calls `blake3::hash` and takes the 32 bytes of the `Hash` it returns.
/// The digest is a function of the input bytes alone; nothing else is
/// claimed of it here.
#[verifier::external_body]
pub fn blake3(data: &[u8]) -> (digest: [u8; 32])
    ensures
        digest == blake3_digest(data@),
{
    ::blake3::hash(data).into()
}

/// Computes the BLAKE3 digest of every block, in order, and pairs each
/// block with its digest.
pub fn blake3_many<'a>(datas: Vec<&'a [u8]>) -> (hashed: Vec<(&'a [u8], [u8; 32])>)
    ensures
        hashed.len() == datas.len(),
        forall|i: int|
            0 <= i < datas.len() ==> (#[trigger] hashed[i]).0 == datas[i] && hashed[i].1
                == blake3_digest(datas[i]@),
{
    let mut hashed: Vec<(&'a [u8], [u8; 32])> = Vec::new();
    let mut i: usize = 0;
    while i < datas.len()
        invariant
            0 <= i <= datas.len(),
            hashed.len() == i,
            forall|j: int|
                0 <= j < i ==> (#[trigger] hashed[j]).0 == datas[j] && hashed[j].1
                    == blake3_digest(datas[j]@),
        decreases datas.len() - i,
    {
        let block: &'a [u8] = datas[i];
        hashed.push((block, blake3(block)));
        i = i + 1;
    }
    hashed
}

} // verus!
