use superfast_rsync::diff::{copy_command, insert_command, OutputState};

fn literal_header(len: u64) -> Vec<u8> {
    let mut out = Vec::new();
    insert_command(len, &mut out);
    out
}

fn copy(offset: u64, len: u64) -> Vec<u8> {
    let mut out = Vec::new();
    copy_command(offset, len, &mut out);
    out
}

#[test]
fn inline_literals_carry_their_length_in_the_opcode() {
    assert_eq!(literal_header(1), vec![0x01]);
    assert_eq!(literal_header(5), vec![0x05]);
    assert_eq!(literal_header(64), vec![0x40]);
}

#[test]
fn longer_literals_carry_their_length_in_the_fewest_bytes() {
    assert_eq!(literal_header(65), vec![0x41, 65]);
    assert_eq!(literal_header(255), vec![0x41, 255]);
    assert_eq!(literal_header(256), vec![0x42, 1, 0]);
    assert_eq!(literal_header(4096), vec![0x42, 0x10, 0]);
    assert_eq!(literal_header(65535), vec![0x42, 255, 255]);
    assert_eq!(literal_header(65536), vec![0x43, 0, 1, 0, 0]);
    assert_eq!(literal_header(0xffff_ffff), vec![0x43, 255, 255, 255, 255]);
    assert_eq!(literal_header(0x1_0000_0000), vec![0x44, 0, 0, 0, 1, 0, 0, 0, 0]);
    assert_eq!(literal_header(u64::MAX), vec![0x44, 255, 255, 255, 255, 255, 255, 255, 255]);
}

#[test]
fn copies_take_the_smallest_width_for_offset_and_length() {
    assert_eq!(copy(0, 0), vec![0x45, 0, 0]);
    assert_eq!(copy(0, 8), vec![0x45, 0, 8]);
    assert_eq!(copy(255, 255), vec![0x45, 255, 255]);
    assert_eq!(copy(0, 256), vec![0x46, 0, 1, 0]);
    assert_eq!(copy(0, 65536), vec![0x47, 0, 0, 1, 0, 0]);
    assert_eq!(copy(1, 0x1_0000_0000), vec![0x48, 1, 0, 0, 0, 1, 0, 0, 0, 0]);
    assert_eq!(copy(256, 1), vec![0x49, 1, 0, 1]);
    assert_eq!(copy(3072, 1024), vec![0x4a, 0x0c, 0, 4, 0]);
    assert_eq!(copy(65535, 65536), vec![0x4b, 255, 255, 0, 1, 0, 0]);
    assert_eq!(copy(65536, 2), vec![0x4d, 0, 1, 0, 0, 2]);
    assert_eq!(copy(0xffff_ffff, 0xffff_ffff), vec![0x4f, 255, 255, 255, 255, 255, 255, 255, 255]);
    assert_eq!(copy(0x1_0000_0000, 3), vec![0x51, 0, 0, 0, 1, 0, 0, 0, 0, 3]);
    assert_eq!(
        copy(u64::MAX, u64::MAX - 1),
        vec![0x54, 255, 255, 255, 255, 255, 255, 255, 255, 255, 255, 255, 255, 255, 255, 255, 254]
    );
}

#[test]
fn every_copy_opcode_is_written_for_its_widths() {
    let samples: [u64; 4] = [0x12, 0x1234, 0x1234_5678, 0x1234_5678_9abc_def0];
    let widths = [1usize, 2, 4, 8];
    for x in 0..4 {
        for y in 0..4 {
            let bytes = copy(samples[x], samples[y]);
            assert_eq!(bytes[0] as usize, 0x45 + 4 * x + y);
            assert_eq!(bytes.len(), 1 + widths[x] + widths[y]);
            assert_eq!(&bytes[1..1 + widths[x]], &samples[x].to_be_bytes()[8 - widths[x]..]);
            assert_eq!(&bytes[1 + widths[x]..], &samples[y].to_be_bytes()[8 - widths[y]..]);
        }
    }
}

#[test]
fn commands_are_appended() {
    let mut out = vec![1, 2, 3];
    insert_command(2, &mut out);
    copy_command(4, 5, &mut out);
    assert_eq!(out, vec![1, 2, 3, 0x02, 0x45, 4, 5]);
}

#[test]
fn emit_writes_nothing_when_up_to_date() {
    let mut state = OutputState::new();
    let mut out = Vec::new();
    state.emit(0, b"abcdef", &mut out);
    assert!(out.is_empty());
    assert_eq!(state.emitted, 0);
    assert_eq!(state.queued_copy, None);
}

#[test]
fn emit_writes_a_literal_for_what_is_missing() {
    let mut state = OutputState::new();
    let mut out = Vec::new();
    state.emit(4, b"abcdef", &mut out);
    assert_eq!(out, vec![0x04, b'a', b'b', b'c', b'd']);
    assert_eq!(state.emitted, 4);
    state.emit(6, b"abcdef", &mut out);
    assert_eq!(out, vec![0x04, b'a', b'b', b'c', b'd', 0x02, b'e', b'f']);
    assert_eq!(state.emitted, 6);
}

#[test]
fn emit_writes_the_copy_held_back_and_then_the_literal() {
    let mut state = OutputState { emitted: 1, queued_copy: Some((300, 2)) };
    let mut out = Vec::new();
    state.emit(5, b"abcdef", &mut out);
    assert_eq!(out, vec![0x49, 1, 44, 2, 0x02, b'd', b'e']);
    assert_eq!(state.emitted, 5);
    assert_eq!(state.queued_copy, None);

    let mut state = OutputState { emitted: 1, queued_copy: Some((300, 4)) };
    let mut out = Vec::new();
    state.emit(5, b"abcdef", &mut out);
    assert_eq!(out, vec![0x49, 1, 44, 4]);
    assert_eq!(state.emitted, 5);
}

#[test]
fn copy_is_held_back() {
    let mut state = OutputState::new();
    let mut out = Vec::new();
    state.copy(8, 4, 0, b"abcdefgh", &mut out);
    assert!(out.is_empty());
    assert_eq!(state.emitted, 0);
    assert_eq!(state.queued_copy, Some((8, 4)));
}

#[test]
fn copy_that_continues_is_joined() {
    let mut state = OutputState::new();
    let mut out = Vec::new();
    state.copy(8, 4, 0, b"abcdefgh", &mut out);
    state.copy(12, 4, 4, b"abcdefgh", &mut out);
    assert!(out.is_empty());
    assert_eq!(state.queued_copy, Some((8, 8)));
    state.emit(8, b"abcdefgh", &mut out);
    assert_eq!(out, vec![0x45, 8, 8]);
}

#[test]
fn copy_that_does_not_continue_in_the_base_flushes() {
    let mut state = OutputState::new();
    let mut out = Vec::new();
    state.copy(8, 4, 0, b"abcdefgh", &mut out);
    state.copy(16, 4, 4, b"abcdefgh", &mut out);
    assert_eq!(out, vec![0x45, 8, 4]);
    assert_eq!(state.emitted, 4);
    assert_eq!(state.queued_copy, Some((16, 4)));
}

#[test]
fn copy_that_does_not_continue_in_the_target_flushes_with_a_literal() {
    let mut state = OutputState::new();
    let mut out = Vec::new();
    state.copy(0, 2, 1, b"abcdefgh", &mut out);
    assert_eq!(out, vec![0x01, b'a']);
    state.copy(2, 2, 5, b"abcdefgh", &mut out);
    assert_eq!(out, vec![0x01, b'a', 0x45, 0, 2, 0x02, b'd', b'e']);
    assert_eq!(state.emitted, 5);
    assert_eq!(state.queued_copy, Some((2, 2)));
    state.emit(8, b"abcdefgh", &mut out);
    assert_eq!(out, vec![0x01, b'a', 0x45, 0, 2, 0x02, b'd', b'e', 0x45, 2, 2, 0x01, b'h']);
}
