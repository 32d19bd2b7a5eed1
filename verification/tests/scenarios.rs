use superfast_rsync::apply::{apply, ApplyError};
use superfast_rsync::diff::{diff, DiffError};
use superfast_rsync::signature::{HashAlgorithm, Signature, SignatureOptions};

fn delta_for(base: &[u8], target: &[u8], options: SignatureOptions) -> Vec<u8> {
    let signature = Signature::calculate(base, options);
    let indexed = signature.index();
    let mut delta = Vec::new();
    diff(&indexed, target, &mut delta).unwrap();
    delta
}

fn patched(base: &[u8], delta: &[u8]) -> Vec<u8> {
    let mut out = Vec::new();
    apply(base, delta, &mut out).unwrap();
    out
}

fn blake3_options(block_size: u32, crypto_hash_size: u32) -> SignatureOptions {
    SignatureOptions { block_size, crypto_hash_size, hash_algorithm: HashAlgorithm::Blake3 }
}

fn md4_options(block_size: u32, crypto_hash_size: u32) -> SignatureOptions {
    SignatureOptions { block_size, crypto_hash_size, hash_algorithm: HashAlgorithm::Md4 }
}

#[test]
fn identical_two_blocks_become_one_copy() {
    let base = b"abcdefgh";
    let delta = delta_for(base, base, blake3_options(4, 32));
    assert_eq!(delta, vec![0x72, 0x73, 0x02, 0x36, 0x45, 0x00, 0x08, 0x00]);
    assert_eq!(patched(base, &delta), base.to_vec());
}

#[test]
fn empty_base_gives_one_literal() {
    for options in [blake3_options(4, 32), md4_options(4096, 16), blake3_options(1, 1)] {
        let delta = delta_for(b"", b"hello", options);
        let mut expected = vec![0x72, 0x73, 0x02, 0x36, 0x05];
        expected.extend_from_slice(b"hello");
        expected.push(0x00);
        assert_eq!(delta, expected);
        assert_eq!(patched(b"", &delta), b"hello".to_vec());
    }
}

#[test]
fn empty_target_gives_magic_and_end() {
    let delta = delta_for(b"hello", b"", blake3_options(4, 32));
    assert_eq!(delta, vec![0x72, 0x73, 0x02, 0x36, 0x00]);
    assert_eq!(patched(b"hello", &delta), Vec::<u8>::new());
}

#[test]
fn shifted_target_without_a_whole_block_is_all_literal() {
    let base = vec![b'x'; 4096];
    let mut target = vec![b'y'];
    target.extend_from_slice(&base[..4095]);
    let delta = delta_for(&base, &target, md4_options(4096, 16));
    // the only window is the whole target, which matches no block: one
    // literal of 4096 bytes, whose first byte is the `y`
    let mut expected = vec![0x72, 0x73, 0x02, 0x36, 0x42, 0x10, 0x00];
    expected.extend_from_slice(&target);
    expected.push(0x00);
    assert_eq!(delta, expected);
    assert_eq!(delta[7], b'y');
    assert_eq!(patched(&base, &delta), target);
}

#[test]
fn repeated_blocks_copy_the_last_of_them() {
    let base: Vec<u8> = b"abcd".iter().copied().cycle().take(4096).collect();
    let delta = delta_for(&base, &base, blake3_options(1024, 4));
    // every block has the same record, so each window leads to the last
    // block: four copies of the block at 3072, which do not continue one
    // another in the base
    let mut expected = vec![0x72, 0x73, 0x02, 0x36];
    for _ in 0..4 {
        expected.extend_from_slice(&[0x4a, 0x0c, 0x00, 0x04, 0x00]);
    }
    expected.push(0x00);
    assert_eq!(delta, expected);
    assert_eq!(patched(&base, &delta), base);
}

#[test]
fn distinct_blocks_coalesce_into_one_copy() {
    let base: Vec<u8> = (0..4096u32).map(|i| (i % 251) as u8).collect();
    let delta = delta_for(&base, &base, blake3_options(1024, 4));
    assert_eq!(delta, vec![0x72, 0x73, 0x02, 0x36, 0x46, 0x00, 0x10, 0x00, 0x00]);
    assert_eq!(patched(&base, &delta), base);
}

#[test]
fn unknown_opcode_is_reported() {
    let mut out = Vec::new();
    let result = apply(b"", &[0x72, 0x73, 0x02, 0x36, 0xff, 0x00], &mut out);
    assert_eq!(result, Err(ApplyError::UnknownCommand(0xff)));
    assert!(out.is_empty());
}

#[test]
fn blake2_signature_parses_but_cannot_be_diffed() {
    let mut blob = vec![0x72, 0x73, 0x01, 0x37, 0, 0, 0, 4, 0, 0, 0, 2];
    blob.extend_from_slice(&[1, 2, 3, 4, 5, 6]);
    let signature = Signature::deserialize(blob).unwrap();
    let indexed = signature.index();
    let mut delta = Vec::new();
    assert_eq!(diff(&indexed, b"abcd", &mut delta), Err(DiffError::InvalidSignature));
    assert!(delta.is_empty());
}
