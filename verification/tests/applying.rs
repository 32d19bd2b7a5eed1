use superfast_rsync::apply::{apply, ApplyError};

const MAGIC: [u8; 4] = [0x72, 0x73, 0x02, 0x36];

fn delta(body: &[u8]) -> Vec<u8> {
    let mut bytes = MAGIC.to_vec();
    bytes.extend_from_slice(body);
    bytes
}

fn run(base: &[u8], body: &[u8]) -> (Result<(), ApplyError>, Vec<u8>) {
    let mut out = Vec::new();
    let result = apply(base, &delta(body), &mut out);
    (result, out)
}

#[test]
fn magic_alone_lacks_the_end() {
    assert_eq!(run(b"", &[]), (Err(ApplyError::UnexpectedEof), vec![]));
}

#[test]
fn end_gives_the_empty_target() {
    assert_eq!(run(b"base", &[0x00]), (Ok(()), vec![]));
}

#[test]
fn bytes_after_the_end_are_ignored() {
    assert_eq!(run(b"base", &[0x01, b'x', 0x00, 0xff, 0x45]), (Ok(()), vec![b'x']));
}

#[test]
fn wrong_magic_is_refused() {
    let mut out = vec![1u8];
    assert_eq!(apply(b"", &[], &mut out), Err(ApplyError::WrongMagic));
    assert_eq!(apply(b"", &[0x72, 0x73, 0x02], &mut out), Err(ApplyError::WrongMagic));
    assert_eq!(apply(b"", &[0x72, 0x73, 0x01, 0x36, 0x00], &mut out), Err(ApplyError::WrongMagic));
    assert_eq!(apply(b"", &[0x36, 0x02, 0x73, 0x72, 0x00], &mut out), Err(ApplyError::WrongMagic));
    assert_eq!(out, vec![1u8]);
}

#[test]
fn output_is_appended() {
    let mut out = vec![1u8, 2];
    assert_eq!(apply(b"", &delta(&[0x02, 8, 9, 0x00]), &mut out), Ok(()));
    assert_eq!(out, vec![1, 2, 8, 9]);
}

#[test]
fn every_inline_literal_length() {
    for len in 1..=64usize {
        let payload: Vec<u8> = (0..len).map(|i| (i * 3) as u8).collect();
        let mut body = vec![len as u8];
        body.extend_from_slice(&payload);
        body.push(0x00);
        assert_eq!(run(b"", &body), (Ok(()), payload));
    }
}

#[test]
fn every_literal_width() {
    let payload: Vec<u8> = (0..300usize).map(|i| (i % 7) as u8).collect();
    for (opcode, length, take) in [
        (0x41u8, vec![200u8], 200usize),
        (0x41, vec![0], 0),
        (0x41, vec![3], 3),
        (0x42, vec![1, 44], 300),
        (0x42, vec![0, 5], 5),
        (0x43, vec![0, 0, 1, 44], 300),
        (0x43, vec![0, 0, 0, 0], 0),
        (0x44, vec![0, 0, 0, 0, 0, 0, 1, 44], 300),
        (0x44, vec![0, 0, 0, 0, 0, 0, 0, 1], 1),
    ] {
        let mut body = vec![opcode];
        body.extend_from_slice(&length);
        body.extend_from_slice(&payload[..take]);
        body.push(0x00);
        assert_eq!(run(b"", &body), (Ok(()), payload[..take].to_vec()));
    }
}

#[test]
fn every_copy_opcode() {
    let base: Vec<u8> = (0..1000usize).map(|i| (i % 251) as u8).collect();
    let offset: u64 = 200;
    let len: u64 = 100;
    let widths = [1usize, 2, 4, 8];
    for x in 0..4 {
        for y in 0..4 {
            let mut body = vec![(0x45 + 4 * x + y) as u8];
            body.extend_from_slice(&offset.to_be_bytes()[8 - widths[x]..]);
            body.extend_from_slice(&len.to_be_bytes()[8 - widths[y]..]);
            body.push(0x00);
            assert_eq!(run(&base, &body), (Ok(()), base[200..300].to_vec()), "opcode {:#x}", body[0]);
        }
    }
}

#[test]
fn copies_and_literals_in_turn() {
    let base = b"0123456789";
    let body = [0x45, 2, 3, 0x02, b'a', b'b', 0x45, 0, 1, 0x45, 9, 1, 0x46, 0, 0, 10, 0x00];
    assert_eq!(run(base, &body), (Ok(()), b"234ab090123456789".to_vec()));
}

#[test]
fn copy_of_nothing_gives_nothing() {
    assert_eq!(run(b"abc", &[0x45, 3, 0, 0x45, 0, 0, 0x00]), (Ok(()), vec![]));
}

#[test]
fn copy_up_to_the_end_of_the_base() {
    assert_eq!(run(b"abc", &[0x45, 0, 3, 0x00]), (Ok(()), b"abc".to_vec()));
    assert_eq!(run(b"abc", &[0x45, 2, 1, 0x00]), (Ok(()), b"c".to_vec()));
}

#[test]
fn copy_beyond_the_base_is_out_of_bounds() {
    assert_eq!(run(b"abc", &[0x45, 0, 4, 0x00]), (Err(ApplyError::OutOfBounds), vec![]));
    assert_eq!(run(b"abc", &[0x45, 3, 1, 0x00]), (Err(ApplyError::OutOfBounds), vec![]));
    assert_eq!(run(b"abc", &[0x45, 4, 0, 0x00]), (Err(ApplyError::OutOfBounds), vec![]));
    assert_eq!(run(b"", &[0x45, 0, 1, 0x00]), (Err(ApplyError::OutOfBounds), vec![]));
}

#[test]
fn copy_whose_end_overflows_is_out_of_bounds() {
    let mut body = vec![0x54];
    body.extend_from_slice(&u64::MAX.to_be_bytes());
    body.extend_from_slice(&2u64.to_be_bytes());
    body.push(0x00);
    assert_eq!(run(b"abc", &body), (Err(ApplyError::OutOfBounds), vec![]));
    let mut body = vec![0x54];
    body.extend_from_slice(&1u64.to_be_bytes());
    body.extend_from_slice(&u64::MAX.to_be_bytes());
    body.push(0x00);
    assert_eq!(run(b"abc", &body), (Err(ApplyError::OutOfBounds), vec![]));
}

#[test]
fn what_came_before_an_error_stays_written() {
    assert_eq!(
        run(b"abc", &[0x02, b'x', b'y', 0x45, 0, 2, 0x45, 2, 2, 0x00]),
        (Err(ApplyError::OutOfBounds), b"xyab".to_vec())
    );
    assert_eq!(run(b"abc", &[0x01, b'x', 0x55]), (Err(ApplyError::UnknownCommand(0x55)), b"x".to_vec()));
    assert_eq!(run(b"abc", &[0x01, b'x']), (Err(ApplyError::UnexpectedEof), b"x".to_vec()));
}

#[test]
fn unknown_opcodes_are_reported() {
    for opcode in 0x55..=0xffu8 {
        assert_eq!(run(b"abc", &[opcode, 0, 0, 0]), (Err(ApplyError::UnknownCommand(opcode)), vec![]));
    }
}

#[test]
fn truncated_instructions_end_unexpectedly() {
    // a literal whose payload is cut short
    assert_eq!(run(b"", &[0x03, 1, 2]), (Err(ApplyError::UnexpectedEof), vec![]));
    assert_eq!(run(b"", &[0x40]), (Err(ApplyError::UnexpectedEof), vec![]));
    assert_eq!(run(b"", &[0x41, 5, 1, 2, 3, 4]), (Err(ApplyError::UnexpectedEof), vec![]));
    // a length that is cut short
    assert_eq!(run(b"", &[0x41]), (Err(ApplyError::UnexpectedEof), vec![]));
    assert_eq!(run(b"", &[0x42, 0]), (Err(ApplyError::UnexpectedEof), vec![]));
    assert_eq!(run(b"", &[0x43, 0, 0, 0]), (Err(ApplyError::UnexpectedEof), vec![]));
    assert_eq!(run(b"", &[0x44, 0, 0, 0, 0, 0, 0, 0]), (Err(ApplyError::UnexpectedEof), vec![]));
    // a literal longer than any delta
    assert_eq!(
        run(b"", &[0x44, 255, 255, 255, 255, 255, 255, 255, 255, 1]),
        (Err(ApplyError::UnexpectedEof), vec![])
    );
    // a copy whose numbers are cut short
    assert_eq!(run(b"abc", &[0x45]), (Err(ApplyError::UnexpectedEof), vec![]));
    assert_eq!(run(b"abc", &[0x45, 0]), (Err(ApplyError::UnexpectedEof), vec![]));
    assert_eq!(run(b"abc", &[0x4a, 0, 0, 0]), (Err(ApplyError::UnexpectedEof), vec![]));
    assert_eq!(run(b"abc", &[0x54, 0, 0, 0, 0, 0, 0, 0, 0, 0, 0, 0, 0, 0, 0, 0]), (Err(ApplyError::UnexpectedEof), vec![]));
    // a whole instruction and then no end
    assert_eq!(run(b"abc", &[0x45, 0, 1]), (Err(ApplyError::UnexpectedEof), b"a".to_vec()));
}

#[test]
fn truncated_copy_is_told_before_its_bounds() {
    // the offset alone is out of bounds, but the length is missing
    assert_eq!(run(b"abc", &[0x45, 200]), (Err(ApplyError::UnexpectedEof), vec![]));
}
