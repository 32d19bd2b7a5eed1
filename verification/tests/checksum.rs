use superfast_rsync::crc::Crc;
use superfast_rsync::wire::{be_array4, be_value4, get_be, put_be};

fn reference(window: &[u8]) -> u32 {
    let n = window.len() as u64;
    let mut s1: u64 = 0;
    let mut s2: u64 = 0;
    for (i, b) in window.iter().enumerate() {
        s1 += *b as u64;
        s2 += (n - i as u64) * *b as u64;
    }
    (((s2 % 65536) << 16) | (s1 % 65536)) as u32
}

fn noise(len: usize, seed: u32) -> Vec<u8> {
    let mut state = seed;
    let mut out = Vec::with_capacity(len);
    for _ in 0..len {
        state = state.wrapping_mul(1664525).wrapping_add(1013904223);
        out.push((state >> 24) as u8);
    }
    out
}

#[test]
fn crc_of_empty_window_is_zero() {
    assert_eq!(Crc::new().value(), 0);
    assert_eq!(Crc::new().update(b"").value(), 0);
}

#[test]
fn crc_of_hand_computed_window() {
    // s1 = 1 + 2 + 3 = 6, s2 = 3*1 + 2*2 + 1*3 = 10
    let crc = Crc::new().update(&[1, 2, 3]);
    assert_eq!(crc.low, 6);
    assert_eq!(crc.high, 10);
    assert_eq!(crc.value(), 0x000a_0006);
    assert_eq!(crc.to_bytes(), [0x00, 0x0a, 0x00, 0x06]);
}

#[test]
fn crc_of_abcd() {
    // s1 = 394 = 0x018a, s2 = 4*97 + 3*98 + 2*99 + 100 = 980 = 0x03d4
    assert_eq!(Crc::new().update(b"abcd").value(), 0x03d4_018a);
}

#[test]
fn crc_wraps_modulo_two_to_the_sixteen() {
    let window = vec![0xffu8; 1000];
    let crc = Crc::new().update(&window);
    assert_eq!(crc.low as u32, 255_000 % 65536);
    assert_eq!(crc.high as u32, (255u64 * 500_500 % 65536) as u32);
    assert_eq!(crc.value(), reference(&window));
}

#[test]
fn crc_update_in_parts_is_update_of_the_whole() {
    let data = noise(500, 7);
    for cut in [0usize, 1, 17, 250, 499, 500] {
        let parts = Crc::new().update(&data[..cut]).update(&data[cut..]);
        assert_eq!(parts, Crc::new().update(&data));
        assert_eq!(parts.value(), reference(&data));
    }
}

#[test]
fn crc_rotate_agrees_with_fresh_on_every_shift() {
    let data = noise(2000, 99);
    for size in [1usize, 2, 3, 16, 255, 700] {
        let mut crc = Crc::new().update(&data[..size]);
        for here in 1..=(data.len() - size) {
            crc = crc.rotate(size as u32, data[here - 1], data[here + size - 1]);
            assert_eq!(crc.value(), reference(&data[here..here + size]), "size {} at {}", size, here);
        }
    }
}

#[test]
fn crc_rotate_hand_computed() {
    // window [1, 2, 3] -> [2, 3, 4]: s1 = 6 - 1 + 4 = 9, s2 = 10 - 3*1 + 9 = 16
    let crc = Crc::new().update(&[1, 2, 3]).rotate(3, 1, 4);
    assert_eq!(crc.low, 9);
    assert_eq!(crc.high, 16);
    assert_eq!(crc, Crc::new().update(&[2, 3, 4]));
}

#[test]
fn crc_rotate_below_zero_wraps() {
    // window [200, 0] -> [0, 0]
    let crc = Crc::new().update(&[200, 0]).rotate(2, 200, 0);
    assert_eq!(crc.value(), 0);
    // window [0, 0] with sums zero, leaving byte larger than the sums
    let crc = Crc::new().update(&[0, 255]).rotate(2, 0, 1);
    assert_eq!(crc.value(), reference(&[255, 1]));
}

#[test]
fn crc_bytes_round_trip() {
    for value in [0u32, 1, 0x0001_0000, 0x03d4_018a, 0xffff_ffff, 0x1234_5678] {
        let crc = Crc::from_value(value);
        assert_eq!(crc.value(), value);
        assert_eq!(crc.to_bytes(), value.to_be_bytes());
        assert_eq!(Crc::from_bytes(value.to_be_bytes()), crc);
    }
    assert_eq!(Crc::SIZE, 4);
}

#[test]
fn big_endian_numbers_of_every_width() {
    let mut out = vec![9u8];
    put_be(&mut out, 0x12, 1);
    put_be(&mut out, 0x1234, 2);
    put_be(&mut out, 0x1234_5678, 4);
    put_be(&mut out, 0x0102_0304_0506_0708, 8);
    put_be(&mut out, 0x1_0203, 2);
    assert_eq!(
        out,
        vec![9, 0x12, 0x12, 0x34, 0x12, 0x34, 0x56, 0x78, 1, 2, 3, 4, 5, 6, 7, 8, 0x02, 0x03]
    );
    assert_eq!(get_be(&out, 1, 1), 0x12);
    assert_eq!(get_be(&out, 2, 2), 0x1234);
    assert_eq!(get_be(&out, 4, 4), 0x1234_5678);
    assert_eq!(get_be(&out, 8, 8), 0x0102_0304_0506_0708);
    assert_eq!(get_be(&out, 3, 0), 0);
    assert_eq!(get_be(&out, 8, 3), 0x01_0203);
    assert_eq!(be_array4(0x7273_0236), [0x72, 0x73, 0x02, 0x36]);
    assert_eq!(be_value4([0x72, 0x73, 0x02, 0x36]), 0x7273_0236);
}
