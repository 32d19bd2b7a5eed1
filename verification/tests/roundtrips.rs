use superfast_rsync::diff::probe_block;
use superfast_rsync::{
    apply, diff, diff_parallel, DiffError, HashAlgorithm, Signature, SignatureOptions,
};

fn noise(len: usize, seed: u32) -> Vec<u8> {
    let mut state = seed;
    let mut out = Vec::with_capacity(len);
    for _ in 0..len {
        state = state.wrapping_mul(1664525).wrapping_add(1013904223);
        out.push((state >> 24) as u8);
    }
    out
}

fn options(block_size: u32, crypto_hash_size: u32, hash_algorithm: HashAlgorithm) -> SignatureOptions {
    SignatureOptions { block_size, crypto_hash_size, hash_algorithm }
}

fn sequential(base: &[u8], target: &[u8], options: SignatureOptions) -> Vec<u8> {
    let signature = Signature::calculate(base, options);
    let mut delta = Vec::new();
    diff(&signature.index(), target, &mut delta).unwrap();
    delta
}

fn parallel(base: &[u8], target: &[u8], options: SignatureOptions) -> Vec<u8> {
    let signature = Signature::calculate(base, options);
    let mut delta = Vec::new();
    diff_parallel(&signature.index(), target, &mut delta).unwrap();
    delta
}

fn patched(base: &[u8], delta: &[u8]) -> Vec<u8> {
    let mut out = Vec::new();
    apply(base, delta, &mut out).unwrap();
    out
}

/// The instructions of a delta: for a literal its length, for a copy its
/// offset and length.
fn instructions(delta: &[u8]) -> Vec<(Option<u64>, u64)> {
    let mut list = Vec::new();
    let mut pos = 4;
    loop {
        let op = delta[pos] as usize;
        pos += 1;
        let mut number = |width: usize| {
            let mut v: u64 = 0;
            for b in &delta[pos..pos + width] {
                v = v * 256 + *b as u64;
            }
            pos += width;
            v
        };
        if op == 0 {
            assert_eq!(pos, delta.len());
            return list;
        } else if op <= 0x40 {
            list.push((None, op as u64));
            pos += op;
        } else if op <= 0x44 {
            let len = number(1 << (op - 0x41));
            list.push((None, len));
            pos += len as usize;
        } else {
            let offset = number(1 << ((op - 0x45) / 4));
            let len = number(1 << ((op - 0x45) % 4));
            list.push((Some(offset), len));
        }
    }
}

fn literal_content(delta: &[u8]) -> u64 {
    instructions(delta).iter().filter(|i| i.0.is_none()).map(|i| i.1).sum()
}

#[test]
fn round_trip_of_edited_data() {
    let base = noise(10_000, 1);
    let mut targets: Vec<Vec<u8>> = Vec::new();
    targets.push(base.clone());
    targets.push(Vec::new());
    targets.push(noise(3000, 2));
    let mut inserted = base.clone();
    inserted.splice(5000..5000, noise(37, 3));
    targets.push(inserted);
    let mut removed = base.clone();
    removed.drain(100..1333);
    targets.push(removed);
    let mut swapped = base[6000..].to_vec();
    swapped.extend_from_slice(&base[..6000]);
    targets.push(swapped);
    let mut doubled = base.clone();
    doubled.extend_from_slice(&base);
    targets.push(doubled);
    targets.push(base[1..].to_vec());
    targets.push(base[..9999].to_vec());
    for algorithm in [HashAlgorithm::Md4, HashAlgorithm::Blake3] {
        for (block_size, keep) in [(1u32, 16u32), (7, 8), (64, 16), (1024, 4), (4096, 16), (20_000, 1)] {
            let opts = options(block_size, keep, algorithm);
            for target in &targets {
                let delta = sequential(&base, target, opts);
                assert_eq!(&patched(&base, &delta), target);
                let delta = parallel(&base, target, opts);
                assert_eq!(&patched(&base, &delta), target);
            }
        }
    }
}

#[test]
fn round_trip_of_repetitive_data() {
    let base: Vec<u8> = b"abcabcabd".iter().copied().cycle().take(5000).collect();
    let target: Vec<u8> = b"bcabcabda".iter().copied().cycle().take(4000).collect();
    for block_size in [1u32, 2, 3, 9, 10, 100] {
        let opts = options(block_size, 32, HashAlgorithm::Blake3);
        assert_eq!(patched(&base, &sequential(&base, &target, opts)), target);
        assert_eq!(patched(&base, &parallel(&base, &target, opts)), target);
    }
}

#[test]
fn round_trip_with_empty_sides() {
    let opts = options(4, 4, HashAlgorithm::Md4);
    assert_eq!(patched(b"", &sequential(b"", b"", opts)), b"".to_vec());
    assert_eq!(sequential(b"", b"", opts), vec![0x72, 0x73, 0x02, 0x36, 0x00]);
    assert_eq!(parallel(b"", b"", options(4, 4, HashAlgorithm::Blake3)), vec![0x72, 0x73, 0x02, 0x36, 0x00]);
    assert_eq!(patched(b"abcd", &sequential(b"abcd", b"", opts)), b"".to_vec());
    assert_eq!(patched(b"", &sequential(b"", b"abcd", opts)), b"abcd".to_vec());
}

#[test]
fn identity_delta_is_one_copy_for_distinct_blocks() {
    let base = noise(64 * 1024, 5);
    for algorithm in [HashAlgorithm::Md4, HashAlgorithm::Blake3] {
        let opts = options(1024, 16, algorithm);
        assert_eq!(instructions(&sequential(&base, &base, opts)), vec![(Some(0), 65536)]);
        assert_eq!(sequential(&base, &base, opts).len(), 4 + 6 + 1);
    }
}

#[test]
fn identity_delta_of_diff_parallel_is_one_copy_for_each_block() {
    let base = noise(64 * 1024, 5);
    let delta = parallel(&base, &base, options(1024, 16, HashAlgorithm::Blake3));
    let expected: Vec<(Option<u64>, u64)> = (0..64u64).map(|i| (Some(1024 * i), 1024)).collect();
    assert_eq!(instructions(&delta), expected);
    assert!(delta.len() <= 5 + 17 * 64);
    assert_eq!(patched(&base, &delta), base);
}

#[test]
fn identity_delta_of_repeating_blocks_is_copies_only() {
    let base: Vec<u8> = b"abcdabcdefgh".iter().copied().cycle().take(12 * 50).collect();
    let opts = options(4, 16, HashAlgorithm::Blake3);
    let delta = sequential(&base, &base, opts);
    let list = instructions(&delta);
    assert!(list.iter().all(|i| i.0.is_some()));
    assert!(list.len() <= 150);
    assert_eq!(list.iter().map(|i| i.1).sum::<u64>(), 600);
    assert!(delta.len() <= 5 + 17 * 150);
    assert_eq!(patched(&base, &delta), base);
}

#[test]
fn identity_delta_with_a_short_last_block_ends_in_a_literal() {
    let base = noise(1030, 6);
    let delta = sequential(&base, &base, options(512, 16, HashAlgorithm::Blake3));
    assert_eq!(instructions(&delta), vec![(Some(0), 1024), (None, 6)]);
}

#[test]
fn single_byte_edit_costs_at_most_two_blocks_of_literal() {
    let base = noise(16 * 1024, 8);
    for block_size in [256u32, 1000, 4096] {
        for at in [0usize, 1, 255, 256, 5000, 16 * 1024 - 1] {
            let mut target = base.clone();
            target[at] ^= 0x55;
            for algorithm in [HashAlgorithm::Md4, HashAlgorithm::Blake3] {
                let delta = sequential(&base, &target, options(block_size, 16, algorithm));
                assert!(literal_content(&delta) <= 2 * block_size as u64);
                assert_eq!(patched(&base, &delta), target);
            }
        }
    }
}

#[test]
fn diff_finds_a_block_at_any_position() {
    let base = noise(4096, 11);
    let mut target = vec![1u8, 2, 3];
    target.extend_from_slice(&base);
    let opts = options(1024, 16, HashAlgorithm::Blake3);
    assert_eq!(instructions(&sequential(&base, &target, opts)), vec![(None, 3), (Some(0), 4096)]);
    // only the windows at the multiples of the block size are looked up
    assert_eq!(instructions(&parallel(&base, &target, opts)), vec![(None, 4099)]);
}

#[test]
fn diff_parallel_writes_a_copy_for_each_block() {
    let base = noise(4096, 12);
    let mut target = base[1024..3072].to_vec();
    target.extend_from_slice(&[9u8; 1024]);
    target.extend_from_slice(&base[..1024]);
    target.extend_from_slice(b"tail");
    let delta = parallel(&base, &target, options(1024, 32, HashAlgorithm::Blake3));
    assert_eq!(
        instructions(&delta),
        vec![(Some(1024), 1024), (Some(2048), 1024), (None, 1024), (Some(0), 1024), (None, 4)]
    );
    assert_eq!(patched(&base, &delta), target);
    // `diff` joins the two copies that follow one another
    assert_eq!(
        instructions(&sequential(&base, &target, options(1024, 32, HashAlgorithm::Blake3))),
        vec![(Some(1024), 2048), (None, 1024), (Some(0), 1024), (None, 4)]
    );
}

#[test]
fn diff_parallel_is_diff_for_md4() {
    let base = noise(4096, 13);
    let mut target = vec![1u8, 2, 3];
    target.extend_from_slice(&base);
    let opts = options(1024, 16, HashAlgorithm::Md4);
    assert_eq!(parallel(&base, &target, opts), sequential(&base, &target, opts));
    assert_eq!(instructions(&parallel(&base, &target, opts)), vec![(None, 3), (Some(0), 4096)]);
}

#[test]
fn probe_block_gives_position_offset_and_length() {
    let base = noise(4096, 14);
    let signature = Signature::calculate(&base, options(1024, 16, HashAlgorithm::Blake3));
    let indexed = signature.index();
    let mut target = base[2048..3072].to_vec();
    target.extend_from_slice(&[0u8; 1024]);
    target.extend_from_slice(&base[3072..]);
    assert_eq!(probe_block(&indexed, &target, 0), Some((0, 2048, 1024)));
    assert_eq!(probe_block(&indexed, &target, 1024), None);
    assert_eq!(probe_block(&indexed, &target, 2048), Some((2048, 3072, 1024)));
    assert_eq!(probe_block(&indexed, &target, 1), None);
}

#[test]
fn unusable_signatures_are_refused_by_both() {
    // the reserved family
    let blob = vec![0x72, 0x73, 0x01, 0x37, 0, 0, 0, 4, 0, 0, 0, 4];
    // more hash bytes than MD4 has
    let mut long_md4 = vec![0x72, 0x73, 0x01, 0x36, 0, 0, 0, 4, 0, 0, 0, 17];
    long_md4.extend_from_slice(&[0u8; 21]);
    // more hash bytes than BLAKE3 has
    let mut long_blake3 = vec![0x72, 0x73, 0x01, 0x38, 0, 0, 0, 4, 0, 0, 0, 33];
    long_blake3.extend_from_slice(&[0u8; 37]);
    // a block size of zero
    let zero_md4 = vec![0x72, 0x73, 0x01, 0x36, 0, 0, 0, 0, 0, 0, 0, 16];
    let zero_blake3 = vec![0x72, 0x73, 0x01, 0x38, 0, 0, 0, 0, 0, 0, 0, 16];
    for blob in [blob, long_md4, long_blake3, zero_md4, zero_blake3] {
        let signature = Signature::deserialize(blob).unwrap();
        let indexed = signature.index();
        let mut delta = vec![7u8];
        assert_eq!(diff(&indexed, b"abcdefgh", &mut delta), Err(DiffError::InvalidSignature));
        assert_eq!(diff_parallel(&indexed, b"abcdefgh", &mut delta), Err(DiffError::InvalidSignature));
        assert_eq!(delta, vec![7u8]);
        assert_eq!(DiffError::InvalidSignature.message(), "invalid or unsupported signature for diff");
    }
}

#[test]
fn diff_against_a_parsed_signature() {
    let base = noise(3000, 15);
    let signature = Signature::calculate(&base, options(500, 16, HashAlgorithm::Md4));
    let parsed = Signature::deserialize(signature.into_serialized()).unwrap();
    let mut delta = vec![0xaa];
    assert_eq!(diff(&parsed.index(), &base, &mut delta), Ok(()));
    assert_eq!(delta[0], 0xaa);
    assert_eq!(instructions(&delta[1..]), vec![(Some(0), 3000)]);
}

#[test]
fn a_misleading_checksum_is_given_up() {
    // every window of the target has the checksum zero, which the one
    // record carries with a hash that no window has
    let mut blob = vec![0x72, 0x73, 0x01, 0x38, 0, 0, 0, 4, 0, 0, 0, 4];
    blob.extend_from_slice(&[0, 0, 0, 0, 1, 2, 3, 4]);
    let signature = Signature::deserialize(blob).unwrap();
    let target = vec![0u8; 5000];
    let mut delta = Vec::new();
    assert_eq!(diff(&signature.index(), &target, &mut delta), Ok(()));
    assert_eq!(instructions(&delta), vec![(None, 5000)]);
    assert_eq!(patched(b"", &delta), target);
}

#[test]
fn hash_size_zero_matches_on_the_checksum_alone() {
    let mut blob = vec![0x72, 0x73, 0x01, 0x38, 0, 0, 0, 4, 0, 0, 0, 0];
    blob.extend_from_slice(&[0x03, 0xd4, 0x01, 0x8a]);
    let signature = Signature::deserialize(blob).unwrap();
    let mut delta = Vec::new();
    assert_eq!(diff(&signature.index(), b"xabcdx", &mut delta), Ok(()));
    assert_eq!(instructions(&delta), vec![(None, 1), (Some(0), 4), (None, 1)]);
}

#[test]
fn a_window_that_collides_with_a_block_is_copied_all_the_same() {
    // "abba" and "baab" agree in the weak checksum; with no hash bytes
    // kept the one is taken for the other
    let signature = Signature::deserialize({
        let mut blob = vec![0x72, 0x73, 0x01, 0x38, 0, 0, 0, 4, 0, 0, 0, 0];
        blob.extend_from_slice(&superfast_rsync::crc::Crc::new().update(b"abba").to_bytes());
        blob
    })
    .unwrap();
    let mut delta = Vec::new();
    assert_eq!(diff(&signature.index(), b"baab", &mut delta), Ok(()));
    assert_eq!(instructions(&delta), vec![(Some(0), 4)]);
    assert_eq!(patched(b"abba", &delta), b"abba".to_vec());
}

#[test]
fn one_kept_hash_byte_lets_two_blocks_collide() {
    // "abei" and "accj" agree in both sums of the weak checksum and in the
    // first byte of their BLAKE3 hash
    let base = b"abei";
    let target = b"accj";
    assert_eq!(
        superfast_rsync::crc::Crc::new().update(base),
        superfast_rsync::crc::Crc::new().update(target)
    );
    assert_eq!(superfast_rsync::blake3::blake3(base)[0], superfast_rsync::blake3::blake3(target)[0]);
    let delta = sequential(base, target, options(4, 1, HashAlgorithm::Blake3));
    assert_eq!(instructions(&delta), vec![(Some(0), 4)]);
    assert_eq!(patched(base, &delta), base.to_vec());
    // with a second hash byte the two are told apart
    let delta = sequential(base, target, options(4, 2, HashAlgorithm::Blake3));
    assert_eq!(instructions(&delta), vec![(None, 4)]);
    assert_eq!(patched(base, &delta), target.to_vec());
}

#[test]
fn a_given_up_checksum_makes_a_single_edit_cost_more() {
    // a block of 65536 bytes whose sum is 65536: every rotation of it has
    // the block's weak checksum, and none but the block itself its hash
    let block_size = 65536usize;
    let mut block = vec![1u8; block_size];
    block[0] = 2;
    block[1] = 0;
    let mut base = Vec::new();
    for _ in 0..5 {
        base.extend_from_slice(&block);
    }
    let mut target = base.clone();
    target[block_size] = 3;
    let delta = sequential(&base, &target, options(block_size as u32, 32, HashAlgorithm::Blake3));
    // the first block is copied; the windows after the changed byte miss
    // 1024 times, and from then on their checksum is not looked up
    assert_eq!(instructions(&delta), vec![(Some(4 * 65536), 65536), (None, 4 * 65536)]);
    assert!(literal_content(&delta) > 2 * block_size as u64);
    assert_eq!(patched(&base, &delta), target);
}
