use md4::Digest;
use superfast_rsync::blake3::{blake3, blake3_many};
use superfast_rsync::md4::{md4, md4_many};

fn hex(bytes: &[u8]) -> String {
    let mut text = String::new();
    for b in bytes {
        text.push_str(&format!("{:02x}", b));
    }
    text
}

#[test]
fn test_blake3_basic() {
    let data = b"hello world";
    let hash = blake3(data);
    assert_eq!(hash.len(), 32);

    // Test that same input produces same output
    let hash2 = blake3(data);
    assert_eq!(hash, hash2);
}

#[test]
fn test_blake3_many() {
    let data1 = b"block1";
    let data2 = b"block2";
    let data3 = b"block3";

    let datas: Vec<&[u8]> = vec![data1, data2, data3];
    let results: Vec<_> = blake3_many(datas);

    assert_eq!(results.len(), 3);
    assert_eq!(results[0].0, b"block1");
    assert_eq!(results[1].0, b"block2");
    assert_eq!(results[2].0, b"block3");

    // Verify each hash is 32 bytes
    for (_, hash) in &results {
        assert_eq!(hash.len(), 32);
    }
}

#[test]
fn blake3_known_digests() {
    assert_eq!(
        hex(&blake3(b"")),
        "af1349b9f5f9a1a6a0404dea36dcc9499bcb25c9adc112b7cc9a93cae41f3262"
    );
    assert_eq!(
        hex(&blake3(b"hello world")),
        "d74981efa70a0c880b8d8c1985d075dbcbf679b99a5f9914e5aaf96b831a9e24"
    );
    assert_ne!(blake3(b"block1"), blake3(b"block2"));
}

#[test]
fn blake3_many_agrees_with_single() {
    let datas: Vec<&[u8]> = vec![b"one", b"two", b""];
    let results = blake3_many(datas.clone());
    for (i, (block, hash)) in results.iter().enumerate() {
        assert_eq!(*block, datas[i]);
        assert_eq!(*hash, blake3(datas[i]));
    }
}

#[test]
fn md4_reference_vectors() {
    assert_eq!(hex(&md4(b"")), "31d6cfe0d16ae931b73c59d7e0c089c0");
    assert_eq!(hex(&md4(b"a")), "bde52cb31de33e46245e05fbdbd6fb24");
    assert_eq!(hex(&md4(b"abc")), "a448017aaf21d8525fc10ae87aa6729d");
    assert_eq!(hex(&md4(b"message digest")), "d9130a8164549fe818874806e1c7014b");
    assert_eq!(
        hex(&md4(b"abcdefghijklmnopqrstuvwxyz")),
        "d79e1c308aa5bbcdeea8ed63df412da9"
    );
    assert_eq!(
        hex(&md4(b"ABCDEFGHIJKLMNOPQRSTUVWXYZabcdefghijklmnopqrstuvwxyz0123456789")),
        "043f8582f241db351ce627e153e7f0e4"
    );
    assert_eq!(
        hex(&md4(
            b"12345678901234567890123456789012345678901234567890123456789012345678901234567890"
        )),
        "e33b4ddc9c38f2199c3e7b164fcc0536"
    );
}

#[test]
fn md4_agrees_with_reference_crate_on_all_short_lengths() {
    let mut data: Vec<u8> = Vec::new();
    for n in 0..300usize {
        let expected = md4::Md4::digest(&data);
        assert_eq!(&md4(&data)[..], &expected[..], "length {}", n);
        data.push((n * 7 + 3) as u8);
    }
}

#[test]
fn md4_many_agrees_with_single() {
    let datas: Vec<&[u8]> = vec![b"abcd", b"efgh", b"ijkl"];
    let results = md4_many(datas.clone());
    assert_eq!(results.len(), 3);
    for (i, (block, hash)) in results.iter().enumerate() {
        assert_eq!(*block, datas[i]);
        assert_eq!(*hash, md4(datas[i]));
    }
}
