//! Deltas between a base and a target in the manner of rsync: a signature
//! of the base, a delta of the target against that signature, and the
//! target again from the base and the delta.
pub mod apply;
pub mod blake3;
pub mod bounds;
pub mod consts;
pub mod crc;
pub mod diff;
pub mod hashmap_variant;
pub mod identity;
pub mod locality;
pub mod md4;
pub mod roundtrip;
pub mod signature;
pub mod wire;

pub use crate::apply::{apply, ApplyError};
pub use crate::diff::{diff, diff_parallel, DiffError};
pub use crate::signature::{
    HashAlgorithm, IndexedSignature, Signature, SignatureOptions, SignatureParseError,
};
