//! Calculating a delta: the instructions of the wire format, the output
//! state that joins adjacent copies, and the matcher that slides a window
//! over the target.
use rayon::iter::{IntoParallelRefIterator, ParallelIterator};
use std::collections::HashMap;
use vstd::prelude::*;
use vstd::slice::slice_subrange;
use crate::consts::{
    DELTA_MAGIC, RS_OP_COPY_N1_N1, RS_OP_END, RS_OP_LITERAL_1, RS_OP_LITERAL_N1, RS_OP_LITERAL_N2,
    RS_OP_LITERAL_N4, RS_OP_LITERAL_N8,
};
use crate::crc::{lemma_rotate_is_fresh, weak_sum, Crc};
use crate::signature::{
    crc_present, find_block, lemma_digest_len, strong_digest, strong_hash, IndexedSignature,
    SignatureType, SignatureView,
};
use crate::wire::{be_bytes, put_be};

verus! {

/// The width class of a number: 0, 1, 2 or 3 for the least of one, two,
/// four or eight bytes that hold it.
pub open spec fn size_class(v: nat) -> nat {
    if v <= 0xff {
        0
    } else if v <= 0xffff {
        1
    } else if v <= 0xffff_ffff {
        2
    } else {
        3
    }
}

/// Number of bytes of a width class.
pub open spec fn class_width(class: nat) -> nat {
    if class == 0 {
        1
    } else if class == 1 {
        2
    } else if class == 2 {
        4
    } else {
        8
    }
}

/// A number in the fewest of one, two, four or eight big-endian bytes.
pub open spec fn varint(v: nat) -> Seq<u8> {
    be_bytes(v, class_width(size_class(v)))
}

/// The bytes that announce a literal of `len` bytes: up to 64 the opcode
/// is the length itself; beyond, an opcode for the width of the length and
/// then the length.
pub open spec fn literal_header(len: nat) -> Seq<u8> {
    if len <= 64 {
        seq![len as u8]
    } else {
        seq![(RS_OP_LITERAL_N1 + size_class(len)) as u8] + varint(len)
    }
}

/// A literal instruction: header, then the bytes themselves.
pub open spec fn literal_bytes(payload: Seq<u8>) -> Seq<u8> {
    literal_header(payload.len()) + payload
}

/// A copy instruction: an opcode for the widths of offset and length, then
/// the offset and the length, each in the fewest bytes.
pub open spec fn copy_bytes(offset: nat, len: nat) -> Seq<u8> {
    seq![(RS_OP_COPY_N1_N1 + 4 * size_class(offset) + size_class(len)) as u8] + varint(offset)
        + varint(len)
}

fn u64_size_class(val: u64) -> (class: u8)
    ensures
        class == size_class(val as nat),
        class <= 3,
{
    if val <= 0xff {
        0
    } else if val <= 0xffff {
        1
    } else if val <= 0xffff_ffff {
        2
    } else {
        3
    }
}

fn size_class_marker(offset: u64, len: u64) -> (marker: u8)
    ensures
        marker == RS_OP_COPY_N1_N1 + 4 * size_class(offset as nat) + size_class(len as nat),
{
    let offset_len: u8 = u64_size_class(offset);
    let len_len: u8 = u64_size_class(len);
    RS_OP_COPY_N1_N1 + offset_len * 4 + len_len
}

fn write_varint(val: u64, out: &mut Vec<u8>)
    ensures
        final(out)@ == old(out)@ + varint(val as nat),
{
    if val <= 0xff {
        put_be(out, val, 1);
    } else if val <= 0xffff {
        put_be(out, val, 2);
    } else if val <= 0xffff_ffff {
        put_be(out, val, 4);
    } else {
        put_be(out, val, 8);
    }
}

/// Appends the header of a literal of `len` bytes.
pub fn insert_command(len: u64, out: &mut Vec<u8>)
    requires
        len != 0,
    ensures
        final(out)@ == old(out)@ + literal_header(len as nat),
{
    if len <= 64 {
        out.push(RS_OP_LITERAL_1 + (len - 1) as u8);
        assert(out@ =~= old(out)@ + literal_header(len as nat));
    } else {
        let opcode: u8 = if len <= 0xff {
            RS_OP_LITERAL_N1
        } else if len <= 0xffff {
            RS_OP_LITERAL_N2
        } else if len <= 0xffff_ffff {
            RS_OP_LITERAL_N4
        } else {
            RS_OP_LITERAL_N8
        };
        out.push(opcode);
        write_varint(len, out);
        assert(out@ =~= old(out)@ + literal_header(len as nat));
    }
}

/// Appends a copy instruction for `len` bytes of the base from `offset`.
pub fn copy_command(offset: u64, len: u64, out: &mut Vec<u8>)
    ensures
        final(out)@ == old(out)@ + copy_bytes(offset as nat, len as nat),
{
    let marker: u8 = size_class_marker(offset, len);
    out.push(marker);
    write_varint(offset, out);
    write_varint(len, out);
    assert(out@ =~= old(out)@ + copy_bytes(offset as nat, len as nat));
}

/// How far the target has been written into the delta, and a copy that is
/// held back so that a copy that follows it directly can be joined to it.
#[derive(Clone, Copy, Debug)]
pub struct OutputState {
    /// Number of target bytes that the instructions written so far give.
    pub emitted: usize,
    /// Offset in the base and length of the copy held back; it gives the
    /// target bytes from `emitted` on.
    pub queued_copy: Option<(u64, usize)>,
}

impl OutputState {
    /// The sums that the state's fields stand for fit their types.
    pub open spec fn wf(self) -> bool {
        match self.queued_copy {
            Some((offset, len)) => self.emitted + len <= usize::MAX && offset + len <= u64::MAX,
            None => true,
        }
    }

    /// Number of target bytes given once the copy held back is written.
    pub open spec fn covered(self) -> nat {
        match self.queued_copy {
            Some((_, len)) => (self.emitted + len) as nat,
            None => self.emitted as nat,
        }
    }

    /// The instruction of the copy held back, if there is one.
    pub open spec fn queued_bytes(self) -> Seq<u8> {
        match self.queued_copy {
            Some((offset, len)) => copy_bytes(offset as nat, len as nat),
            None => Seq::empty(),
        }
    }

    /// What `emit` writes: nothing where the target is written up to
    /// `until` already; else the copy held back, then the target bytes
    /// that are still missing up to `until` as one literal.
    pub open spec fn emit_bytes(self, until: nat, data: Seq<u8>) -> Seq<u8> {
        if self.emitted == until {
            Seq::empty()
        } else if self.covered() < until {
            self.queued_bytes() + literal_bytes(data.subrange(self.covered() as int, until as int))
        } else {
            self.queued_bytes()
        }
    }

    /// The state that `emit` leaves.
    pub open spec fn after_emit(self, until: nat) -> OutputState {
        if self.emitted == until {
            self
        } else if self.covered() < until {
            OutputState { emitted: until as usize, queued_copy: None }
        } else {
            OutputState { emitted: self.covered() as usize, queued_copy: None }
        }
    }

    /// Whether a copy from `offset` that gives the target from `here` on
    /// continues the copy held back, in the base and in the target.
    pub open spec fn joins(self, offset: nat, here: nat) -> bool {
        match self.queued_copy {
            Some((queued_offset, queued_len)) => self.emitted + queued_len == here && queued_offset
                + queued_len == offset,
            None => false,
        }
    }

    /// What `copy` writes: nothing where the copy is joined to the one held
    /// back; else what `emit` writes up to `here`.
    pub open spec fn copy_bytes_written(self, offset: nat, here: nat, data: Seq<u8>) -> Seq<u8> {
        if self.joins(offset, here) {
            Seq::empty()
        } else {
            self.emit_bytes(here, data)
        }
    }

    /// The state that `copy` leaves: the copy held back has grown by `len`,
    /// or the new copy is held back in its place.
    pub open spec fn after_copy(self, offset: nat, len: nat, here: nat) -> OutputState {
        if self.joins(offset, here) {
            OutputState {
                emitted: self.emitted,
                queued_copy: Some(
                    (self.queued_copy->Some_0.0, (self.queued_copy->Some_0.1 + len) as usize),
                ),
            }
        } else {
            OutputState {
                emitted: self.after_emit(here).emitted,
                queued_copy: Some((offset as u64, len as usize)),
            }
        }
    }

    /// What taking up a copy writes: with `joining`, what `copy` writes;
    /// without, what `emit` writes up to `here`, so that the copy is never
    /// joined to the one held back.
    pub open spec fn take_bytes(self, joining: bool, offset: nat, here: nat, data: Seq<u8>) -> Seq<
        u8,
    > {
        if joining {
            self.copy_bytes_written(offset, here, data)
        } else {
            self.emit_bytes(here, data)
        }
    }

    /// The state that taking up a copy leaves: with `joining`, the one
    /// that `copy` leaves; without, the new copy held back after `emit`.
    pub open spec fn after_take(self, joining: bool, offset: nat, len: nat, here: nat) -> OutputState {
        if joining {
            self.after_copy(offset, len, here)
        } else {
            OutputState {
                emitted: self.after_emit(here).emitted,
                queued_copy: Some((offset as u64, len as usize)),
            }
        }
    }

    /// The state before anything is written.
    pub fn new() -> (state: OutputState)
        ensures
            state.emitted == 0,
            state.queued_copy is None,
            state.wf(),
    {
        OutputState { emitted: 0, queued_copy: None }
    }

    /// Writes what is missing of the target up to `until`: the copy held
    /// back, then the bytes after it as a literal.
    pub fn emit(&mut self, until: usize, data: &[u8], out: &mut Vec<u8>)
        requires
            old(self).wf(),
            until <= data.len(),
        ensures
            final(out)@ == old(out)@ + old(self).emit_bytes(until as nat, data@),
            *final(self) == old(self).after_emit(until as nat),
            final(self).wf(),
    {
        if self.emitted == until {
            assert(out@ =~= old(out)@ + old(self).emit_bytes(until as nat, data@));
            return ;
        }
        if let Some((offset, len)) = self.queued_copy {
            copy_command(offset, len as u64, out);
            self.emitted = self.emitted + len;
            self.queued_copy = None;
        }
        if self.emitted < until {
            let to_emit: &[u8] = vstd::slice::slice_subrange(data, self.emitted, until);
            insert_command(to_emit.len() as u64, out);
            out.extend_from_slice(to_emit);
            self.emitted = until;
        }
        assert(out@ =~= old(out)@ + old(self).emit_bytes(until as nat, data@));
    }

    /// Takes up a copy of `len` bytes of the base from `offset`, which
    /// gives the target from `here` on. It is joined to the copy held back
    /// where it continues it; else what is missing up to `here` is written
    /// and the new copy is held back.
    pub fn copy(&mut self, offset: u64, len: usize, here: usize, data: &[u8], out: &mut Vec<u8>)
        requires
            old(self).wf(),
            here <= data.len(),
            here + len <= usize::MAX,
            old(self).covered() + len <= usize::MAX,
            offset + len <= u64::MAX,
        ensures
            final(out)@ == old(out)@ + old(self).copy_bytes_written(
                offset as nat,
                here as nat,
                data@,
            ),
            *final(self) == old(self).after_copy(offset as nat, len as nat, here as nat),
            final(self).wf(),
    {
        if let Some((queued_offset, queued_len)) = self.queued_copy {
            if self.emitted + queued_len == here && queued_offset + queued_len as u64 == offset {
                self.queued_copy = Some((queued_offset, queued_len + len));
                assert(out@ =~= old(out)@ + old(self).copy_bytes_written(
                    offset as nat,
                    here as nat,
                    data@,
                ));
                return ;
            }
        }
        self.emit(here, data, out);
        self.queued_copy = Some((offset, len));
    }
}

/// How often a weak checksum may lead to a strong hash that matches no
/// block before the checksum is ignored for the rest of the run.
pub const MAX_CRC_COLLISIONS: u32 = 1024;

/// Why no delta was calculated.
#[derive(Clone, Copy, Debug, PartialEq, Eq, Structural)]
pub enum DiffError {
    /// The signature is of the reserved family, keeps more hash bytes than
    /// its family has, or has a block size of zero.
    InvalidSignature,
}

impl DiffError {
    /// The reason in words.
    pub fn message(&self) -> (text: &'static str)
        ensures
            text@ == "invalid or unsupported signature for diff"@,
    {
        "invalid or unsupported signature for diff"
    }
}

/// The signatures against which a delta can be calculated.
pub open spec fn usable(sig: SignatureView) -> bool {
    &&& sig.kind != SignatureType::Blake2
    &&& sig.crypto_hash_size <= sig.kind.digest_size()
    &&& sig.block_size > 0
}

/// The `block_size` bytes of the target from `here` on.
pub open spec fn window(data: Seq<u8>, here: nat, block_size: nat) -> Seq<u8> {
    data.subrange(here as int, (here + block_size) as int)
}

/// The bytes of a window's strong hash that the signature keeps.
pub open spec fn strong_prefix(sig: SignatureView, w: Seq<u8>) -> Seq<u8> {
    strong_digest(sig.kind, w).take(sig.crypto_hash_size as int)
}

/// How often a weak checksum has led to no block so far.
pub open spec fn count_of(counts: Map<u32, u32>, crc: u32) -> nat {
    if counts.contains_key(crc) {
        counts[crc] as nat
    } else {
        0
    }
}

/// What looking a window up comes to.
pub enum Probe {
    /// The strong hash was not computed: the weak checksum is ignored by
    /// now, or no block carries it.
    Skipped,
    /// The strong hash was computed and no block has it.
    Missed,
    /// The block with this number has the window's checksum and hash.
    Found(nat),
}

/// Looks the window at `here` up in the signature.
#[verifier::opaque]
pub open spec fn probe_at(
    sig: SignatureView,
    data: Seq<u8>,
    here: nat,
    counts: Map<u32, u32>,
) -> Probe {
    let w = window(data, here, sig.block_size as nat);
    let crc = weak_sum(w);
    if count_of(counts, crc) >= MAX_CRC_COLLISIONS || !crc_present(sig.records(), crc) {
        Probe::Skipped
    } else {
        match find_block(sig.records(), crc, strong_prefix(sig, w)) {
            Some(block) => Probe::Found(block),
            None => Probe::Missed,
        }
    }
}

/// What the matcher arrives at: the matches, each a position in the target
/// and a block number, and the count of misses per weak checksum.
pub struct Scan {
    pub matches: Seq<(nat, nat)>,
    pub counts: Map<u32, u32>,
}

/// The matcher from position `here` on: where the window matches a block,
/// the match is taken and the window moves by a whole block; else it moves
/// by one byte, and a computed hash that matched nothing is counted.
#[verifier::opaque]
pub open spec fn scan(sig: SignatureView, data: Seq<u8>, here: nat, counts: Map<u32, u32>) -> Scan
    decreases data.len() - here,
{
    let block_size = sig.block_size as nat;
    if block_size == 0 || here + block_size > data.len() {
        Scan { matches: Seq::empty(), counts }
    } else {
        match probe_at(sig, data, here, counts) {
            Probe::Found(block) => {
                let rest = scan(sig, data, here + block_size, counts);
                Scan { matches: seq![(here, block)] + rest.matches, counts: rest.counts }
            },
            Probe::Missed => {
                let crc = weak_sum(window(data, here, block_size));
                scan(sig, data, here + 1, counts.insert(crc, (count_of(counts, crc) + 1) as u32))
            },
            Probe::Skipped => scan(sig, data, here + 1, counts),
        }
    }
}

/// The instructions for a target and its matches, from an output state on:
/// each match is taken up as a copy of one block, then what is missing up
/// to the end of the target is written, and the end opcode. With
/// `joining`, a copy that continues the one before it is joined to it.
#[verifier::opaque]
pub open spec fn render(
    data: Seq<u8>,
    block_size: nat,
    matches: Seq<(nat, nat)>,
    state: OutputState,
    joining: bool,
) -> Seq<u8>
    decreases matches.len(),
{
    if matches.len() == 0 {
        state.emit_bytes(data.len(), data) + seq![RS_OP_END]
    } else {
        let (here, block) = matches[0];
        state.take_bytes(joining, block * block_size, here, data) + render(
            data,
            block_size,
            matches.drop_first(),
            state.after_take(joining, block * block_size, block_size, here),
            joining,
        )
    }
}

/// The delta for a target and its matches: the magic, the instructions,
/// the end opcode.
pub open spec fn delta_bytes(
    data: Seq<u8>,
    block_size: nat,
    matches: Seq<(nat, nat)>,
    joining: bool,
) -> Seq<u8> {
    be_bytes(DELTA_MAGIC as nat, 4) + render(
        data,
        block_size,
        matches,
        OutputState { emitted: 0, queued_copy: None },
        joining,
    )
}

/// The delta that `diff` calculates: adjacent copies are joined.
pub open spec fn diff_bytes(sig: SignatureView, data: Seq<u8>) -> Seq<u8> {
    delta_bytes(data, sig.block_size as nat, scan(sig, data, 0, Map::empty()).matches, true)
}

/// How many windows from `here` on have the weak checksum `crc` and a
/// strong hash that was computed and matched no block.
pub open spec fn misses(
    sig: SignatureView,
    data: Seq<u8>,
    here: nat,
    counts: Map<u32, u32>,
    crc: u32,
) -> nat
    decreases data.len() - here,
{
    let block_size = sig.block_size as nat;
    if block_size == 0 || here + block_size > data.len() {
        0
    } else {
        match probe_at(sig, data, here, counts) {
            Probe::Found(_) => misses(sig, data, here + block_size, counts, crc),
            Probe::Missed => {
                let found = weak_sum(window(data, here, block_size));
                let after = counts.insert(found, (count_of(counts, found) + 1) as u32);
                if found == crc {
                    1 + misses(sig, data, here + 1, after, crc)
                } else {
                    misses(sig, data, here + 1, after, crc)
                }
            },
            Probe::Skipped => misses(sig, data, here + 1, counts, crc),
        }
    }
}

/// For no weak checksum is a strong hash computed in vain more than
/// `MAX_CRC_COLLISIONS` times: every such miss is counted, and a checksum
/// whose count has reached the limit is not looked up again.
pub proof fn lemma_misses_bounded(
    sig: SignatureView,
    data: Seq<u8>,
    here: nat,
    counts: Map<u32, u32>,
    crc: u32,
)
    requires
        count_of(counts, crc) <= MAX_CRC_COLLISIONS,
    ensures
        count_of(scan(sig, data, here, counts).counts, crc) == count_of(counts, crc) + misses(
            sig,
            data,
            here,
            counts,
            crc,
        ),
        count_of(counts, crc) + misses(sig, data, here, counts, crc) <= MAX_CRC_COLLISIONS,
    decreases data.len() - here,
{
    reveal_with_fuel(scan, 1);
    reveal(probe_at);
    let block_size = sig.block_size as nat;
    if !(block_size == 0 || here + block_size > data.len()) {
        match probe_at(sig, data, here, counts) {
            Probe::Found(_) => {
                lemma_misses_bounded(sig, data, here + block_size, counts, crc);
            },
            Probe::Missed => {
                let found = weak_sum(window(data, here, block_size));
                let after = counts.insert(found, (count_of(counts, found) + 1) as u32);
                lemma_misses_bounded(sig, data, here + 1, after, crc);
            },
            Probe::Skipped => {
                lemma_misses_bounded(sig, data, here + 1, counts, crc);
            },
        }
    }
}

/// The product of a block number and a block size fits in 64 bits, with a
/// block to spare.
proof fn lemma_offset_fits(block: nat, block_size: nat)
    requires
        block <= u32::MAX,
        block_size <= u32::MAX,
    ensures
        block * block_size + block_size <= u64::MAX,
        block * block_size >= 0,
{
    assert(block * block_size <= 0xffff_ffff * 0xffff_ffff) by (nonlinear_arith)
        requires
            block <= 0xffff_ffff,
            block_size <= 0xffff_ffff,
    ;
}

/// Where the window at `here` matches a block, the matcher takes the match
/// and goes on a whole block further; the instructions are what taking up
/// the copy writes, then those of the rest.
proof fn lemma_render_found(
    sig: SignatureView,
    data: Seq<u8>,
    here: nat,
    counts: Map<u32, u32>,
    block: nat,
    state: OutputState,
)
    requires
        sig.block_size > 0,
        here + sig.block_size <= data.len(),
        probe_at(sig, data, here, counts) == Probe::Found(block),
    ensures
        ({
            let bs = sig.block_size as nat;
            render(data, bs, scan(sig, data, here, counts).matches, state, true)
                == state.copy_bytes_written(block * bs, here, data) + render(
                data,
                bs,
                scan(sig, data, here + bs, counts).matches,
                state.after_copy(block * bs, bs, here),
                true,
            )
        }),
{
    let bs = sig.block_size as nat;
    reveal_with_fuel(scan, 2);
    reveal_with_fuel(render, 2);
    let found = scan(sig, data, here, counts);
    let rest = scan(sig, data, here + bs, counts);
    assert(found.matches[0] == (here, block));
    assert(found.matches.drop_first() =~= rest.matches);
}

/// Where the window at `here` matches no block, the matcher goes on one
/// byte further, with the miss counted if the strong hash was computed.
proof fn lemma_scan_moves(sig: SignatureView, data: Seq<u8>, here: nat, counts: Map<u32, u32>)
    requires
        sig.block_size > 0,
        here + sig.block_size <= data.len(),
        !(probe_at(sig, data, here, counts) is Found),
    ensures
        ({
            let crc = weak_sum(window(data, here, sig.block_size as nat));
            let after = if probe_at(sig, data, here, counts) is Missed {
                counts.insert(crc, (count_of(counts, crc) + 1) as u32)
            } else {
                counts
            };
            scan(sig, data, here, counts) == scan(sig, data, here + 1, after)
        }),
{
    reveal_with_fuel(scan, 2);
}

/// Past the last position at which a whole window fits, the matcher finds
/// nothing more.
proof fn lemma_scan_ends(sig: SignatureView, data: Seq<u8>, here: nat, counts: Map<u32, u32>)
    requires
        here + sig.block_size > data.len(),
    ensures
        scan(sig, data, here, counts).matches == Seq::<(nat, nat)>::empty(),
{
    reveal_with_fuel(scan, 2);
}

/// With no match left, the instructions are what is missing up to the end
/// of the target, and the end opcode.
proof fn lemma_render_ends(data: Seq<u8>, block_size: nat, state: OutputState, joining: bool)
    ensures
        render(data, block_size, Seq::empty(), state, joining) == state.emit_bytes(
            data.len(),
            data,
        ) + seq![RS_OP_END],
{
    reveal_with_fuel(render, 2);
}

/// Looks the window at `here` up: the number of the block that it matches,
/// if the weak checksum `key` is still heeded, some block carries it, and
/// one of those blocks has the window's strong hash. A computed hash that
/// matches no block is counted in `collisions`.
fn look_up(
    signature: &IndexedSignature<'_>,
    data: &[u8],
    here: usize,
    key: u32,
    collisions: &mut HashMap<u32, u32>,
) -> (found: Option<u32>)
    requires
        usable(signature@),
        here + signature@.block_size <= data.len(),
        key == weak_sum(window(data@, here as nat, signature@.block_size as nat)),
        forall|c: u32| count_of(old(collisions)@, c) <= MAX_CRC_COLLISIONS,
    ensures
        forall|c: u32| count_of(final(collisions)@, c) <= MAX_CRC_COLLISIONS,
        match probe_at(signature@, data@, here as nat, old(collisions)@) {
            Probe::Found(block) => {
                &&& found == Some(block as u32)
                &&& block <= u32::MAX
                &&& final(collisions)@ == old(collisions)@
            },
            Probe::Missed => found is None && final(collisions)@ == old(collisions)@.insert(
                key,
                (count_of(old(collisions)@, key) + 1) as u32,
            ),
            Probe::Skipped => found is None && final(collisions)@ == old(collisions)@,
        },
{
    let kind = signature.signature_type();
    let block_size: usize = signature.block_size() as usize;
    let crypto_hash_size: usize = signature.crypto_hash_size() as usize;
    let ghost sig = signature@;
    let ghost counts = collisions@;
    let ghost w = window(data@, here as nat, sig.block_size as nat);
    proof {
        reveal(probe_at);
    }
    let seen: u32 = match collisions.get(&key) {
        Some(count) => *count,
        None => 0,
    };
    assert(seen == count_of(counts, key));
    // a checksum that has misled too often is ignored
    if seen >= MAX_CRC_COLLISIONS {
        return None;
    }
    let blocks = match signature.probe(key) {
        Some(blocks) => blocks,
        None => {
            return None;
        },
    };
    let digest = strong_hash(kind, slice_subrange(data, here, here + block_size));
    proof {
        lemma_digest_len(kind, w);
    }
    let prefix = slice_subrange(digest.as_slice(), 0, crypto_hash_size);
    assert(prefix@ == strong_prefix(sig, w));
    match blocks.get(prefix) {
        Some(idx) => {
            proof {
                crate::signature::lemma_find_block(sig.records(), key, prefix@);
            }
            Some(idx)
        },
        None => {
            collisions.insert(key, seen + 1);
            proof {
                assert forall|c: u32| count_of(collisions@, c) <= MAX_CRC_COLLISIONS by {
                    assert(count_of(counts, c) <= MAX_CRC_COLLISIONS);
                }
            }
            None
        },
    }
}

/// The checksum of the window at `here`, from that of the window one byte
/// before it.
fn slide(crc: Crc, data: &[u8], here: usize, block_size: u32) -> (moved: Crc)
    requires
        here >= 1,
        block_size >= 1,
        here + block_size <= data.len(),
        crc.spec_value() == weak_sum(window(data@, (here - 1) as nat, block_size as nat)),
    ensures
        moved.spec_value() == weak_sum(window(data@, here as nat, block_size as nat)),
{
    let ghost w = window(data@, (here - 1) as nat, block_size as nat);
    let moved = crc.rotate(block_size, data[here - 1], data[here + block_size as usize - 1]);
    proof {
        assert(w.drop_first().push(data@[here + block_size - 1]) =~= window(
            data@,
            here as nat,
            block_size as nat,
        ));
        lemma_rotate_is_fresh(crc, moved, w, block_size, data@[here + block_size - 1]);
    }
    moved
}

/// Calculates a delta and appends it to `out`. Applied to the base that
/// `signature` was calculated from, the delta gives `data`, unless a block
/// of the base and a window of `data` differ and yet agree in checksum and
/// kept hash.
///
/// The window slides over `data` byte by byte, so a block is found at any
/// position. A weak checksum whose strong hash has matched no block
/// `MAX_CRC_COLLISIONS` times is ignored from then on.
pub fn diff(signature: &IndexedSignature<'_>, data: &[u8], out: &mut Vec<u8>) -> (done: Result<
    (),
    DiffError,
>)
    ensures
        usable(signature@) ==> done is Ok && final(out)@ == old(out)@ + diff_bytes(
            signature@,
            data@,
        ),
        !usable(signature@) ==> done == Err::<(), DiffError>(DiffError::InvalidSignature)
            && final(out)@ == old(out)@,
{
    let kind = signature.signature_type();
    let block_size: u32 = signature.block_size();
    let crypto_hash_size: usize = signature.crypto_hash_size() as usize;
    match kind {
        SignatureType::Md4 => {
            if crypto_hash_size > crate::md4::MD4_SIZE {
                return Err(DiffError::InvalidSignature);
            }
        },
        SignatureType::Blake3 => {
            if crypto_hash_size > crate::blake3::BLAKE3_SIZE {
                return Err(DiffError::InvalidSignature);
            }
        },
        SignatureType::Blake2 => {
            return Err(DiffError::InvalidSignature);
        },
    }
    if block_size == 0 {
        return Err(DiffError::InvalidSignature);
    }
    let ghost sig = signature@;
    let ghost bs = block_size as nat;
    put_be(out, DELTA_MAGIC as u64, 4);
    let mut state = OutputState::new();
    let mut here: usize = 0;
    let mut collisions: HashMap<u32, u32> = HashMap::new();
    assert(out@ + render(data@, bs, scan(sig, data@, 0, Map::empty()).matches, state, true)
        =~= old(out)@ + diff_bytes(sig, data@));
    while data.len() - here >= block_size as usize
        invariant
            sig == signature@,
            usable(sig),
            bs == block_size,
            block_size == sig.block_size,
            here <= data.len(),
            state.wf(),
            state.covered() <= here,
            forall|c: u32| count_of(collisions@, c) <= MAX_CRC_COLLISIONS,
            old(out)@ + diff_bytes(sig, data@) == out@ + render(
                data@,
                bs,
                scan(sig, data@, here as nat, collisions@).matches,
                state,
                true,
            ),
        decreases data.len() - here,
    {
        let ghost start = here;
        let mut crc = Crc::new().update(slice_subrange(data, here, here + block_size as usize));
        loop
            invariant_except_break
                here + bs <= data.len(),
                crc.spec_value() == weak_sum(window(data@, here as nat, bs)),
            invariant
                sig == signature@,
                usable(sig),
                bs == block_size,
                block_size == sig.block_size,
                start <= here <= data.len(),
                state.wf(),
                state.covered() <= here,
                forall|c: u32| count_of(collisions@, c) <= MAX_CRC_COLLISIONS,
                old(out)@ + diff_bytes(sig, data@) == out@ + render(
                    data@,
                    bs,
                    scan(sig, data@, here as nat, collisions@).matches,
                    state,
                    true,
                ),
            ensures
                start < here,
            decreases data.len() - here,
        {
            let ghost counts = collisions@;
            let ghost before = state;
            let ghost written = out@;
            if let Some(idx) = look_up(signature, data, here, crc.value(), &mut collisions) {
                // match found
                let ghost at = here as nat;
                proof {
                    lemma_offset_fits(idx as nat, bs);
                    lemma_render_found(sig, data@, at, counts, idx as nat, before);
                }
                state.copy(idx as u64 * block_size as u64, block_size as usize, here, data, out);
                here = here + block_size as usize;
                proof {
                    let taken = before.copy_bytes_written(idx as nat * bs, at, data@);
                    let rest = render(
                        data@,
                        bs,
                        scan(sig, data@, here as nat, counts).matches,
                        state,
                        true,
                    );
                    assert(out@ == written + taken);
                    assert(written + (taken + rest) =~= (written + taken) + rest);
                }
                break ;
            }
            // no match, try to extend
            proof {
                lemma_scan_moves(sig, data@, here as nat, counts);
            }
            here = here + 1;
            if data.len() - here < block_size as usize {
                break ;
            }
            crc = slide(crc, data, here, block_size);
        }
    }
    proof {
        lemma_scan_ends(sig, data@, here as nat, collisions@);
        lemma_render_ends(data@, bs, state, true);
    }
    let ghost written = out@;
    let ghost last = state.emit_bytes(data@.len(), data@);
    state.emit(data.len(), data, out);
    out.push(RS_OP_END);
    assert(out@ =~= written + (last + seq![RS_OP_END]));
    Ok(())
}

/// The block that the window at `here` matches, if any: the last block
/// whose record holds the window's checksum and kept hash.
pub open spec fn block_at(sig: SignatureView, data: Seq<u8>, here: nat) -> Option<nat> {
    let w = window(data, here, sig.block_size as nat);
    find_block(sig.records(), weak_sum(w), strong_prefix(sig, w))
}

/// The matches among the windows number `k` to `n - 1` of those that start
/// at the multiples of the block size.
pub open spec fn aligned_matches(sig: SignatureView, data: Seq<u8>, k: nat, n: nat) -> Seq<
    (nat, nat),
>
    decreases n - k,
{
    if k >= n {
        Seq::empty()
    } else {
        let rest = aligned_matches(sig, data, k + 1, n);
        match block_at(sig, data, k * sig.block_size as nat) {
            Some(block) => seq![(k * sig.block_size as nat, block)] + rest,
            None => rest,
        }
    }
}

/// What looking up the window at `start` gives: where it matches a block,
/// `start`, the block's offset in the base, and the block size.
pub open spec fn aligned_probe(sig: SignatureView, data: Seq<u8>, start: usize) -> Option<
    (usize, u64, usize),
> {
    match block_at(sig, data, start as nat) {
        Some(block) => Some((start, (block * sig.block_size) as u64, sig.block_size as usize)),
        None => None,
    }
}

/// The delta that `diff_parallel` calculates: for MD4 that of `diff`; else
/// the one whose matches are those of the windows at the multiples of the
/// block size, each with a copy of its own.
pub open spec fn diff_parallel_bytes(sig: SignatureView, data: Seq<u8>) -> Seq<u8> {
    if sig.kind == SignatureType::Md4 {
        diff_bytes(sig, data)
    } else {
        delta_bytes(
            data,
            sig.block_size as nat,
            aligned_matches(sig, data, 0, data.len() / sig.block_size as nat),
            false,
        )
    }
}

/// Looks the window of `data` at `start` up in the signature, by its weak
/// checksum and then by its strong hash.
pub fn probe_block(signature: &IndexedSignature<'_>, data: &[u8], start: usize) -> (found: Option<
    (usize, u64, usize),
>)
    requires
        usable(signature@),
        start + signature@.block_size <= data.len(),
    ensures
        found == aligned_probe(signature@, data@, start),
{
    let kind = signature.signature_type();
    let block_size: u32 = signature.block_size();
    let crypto_hash_size: usize = signature.crypto_hash_size() as usize;
    let ghost sig = signature@;
    let ghost w = window(data@, start as nat, block_size as nat);
    let block_data = slice_subrange(data, start, start + block_size as usize);
    let crc = Crc::new().update(block_data);
    proof {
        crate::signature::lemma_find_block(sig.records(), crc.spec_value(), strong_prefix(sig, w));
    }
    if let Some(blocks) = signature.probe(crc.value()) {
        let digest = strong_hash(kind, block_data);
        proof {
            lemma_digest_len(kind, w);
        }
        let prefix = slice_subrange(digest.as_slice(), 0, crypto_hash_size);
        assert(prefix@ == strong_prefix(sig, w));
        if let Some(idx) = blocks.get(prefix) {
            proof {
                lemma_offset_fits(idx as nat, block_size as nat);
            }
            return Some((start, idx as u64 * block_size as u64, block_size as usize));
        }
    }
    None
}

/// Looks the windows at `starts` up, each on its own, and gives the
/// results in the order of `starts`.
///
/// Calls rayon's `par_iter` on the slice of starts, `map` with
/// `probe_block`, and `collect` into a `Vec`. Of rayon this claims that the
/// vector has one result for each start, in the same order, and that each
/// is what the mapped function returns for that start.
#[verifier::external_body]
fn probe_blocks(signature: &IndexedSignature<'_>, data: &[u8], starts: &Vec<usize>) -> (found: Vec<
    Option<(usize, u64, usize)>,
>)
    requires
        usable(signature@),
        forall|i: int|
            0 <= i < starts.len() ==> #[trigger] starts[i] + signature@.block_size <= data.len(),
    ensures
        found.len() == starts.len(),
        forall|i: int|
            0 <= i < starts.len() ==> #[trigger] found[i] == aligned_probe(
                signature@,
                data@,
                starts[i],
            ),
{
    starts.par_iter().map(|&start| probe_block(signature, data, start)).collect()
}

/// Window `k` of those at the multiples of the block size lies within the
/// target where `k` is less than the number of whole blocks.
proof fn lemma_aligned_fits(len: nat, block_size: nat, k: nat)
    requires
        block_size > 0,
        k < len / block_size,
    ensures
        k * block_size + block_size <= len,
        (k + 1) * block_size == k * block_size + block_size,
{
    vstd::arithmetic::div_mod::lemma_fundamental_div_mod(len as int, block_size as int);
    assert((k + 1) * block_size <= (len / block_size) * block_size) by (nonlinear_arith)
        requires
            k + 1 <= len / block_size,
            block_size > 0,
    ;
    assert((len / block_size) * block_size == block_size * (len / block_size))
        by (nonlinear_arith);
    assert((k + 1) * block_size == k * block_size + block_size) by (nonlinear_arith);
}

/// The instructions for the matches from window `k` on begin with what
/// taking up the match of window `k` writes, if it has one.
proof fn lemma_render_aligned(
    sig: SignatureView,
    data: Seq<u8>,
    k: nat,
    n: nat,
    state: OutputState,
)
    requires
        k < n,
    ensures
        ({
            let bs = sig.block_size as nat;
            let here = k * bs;
            render(data, bs, aligned_matches(sig, data, k, n), state, false) == match block_at(
                sig,
                data,
                here,
            ) {
                Some(block) => state.emit_bytes(here, data) + render(
                    data,
                    bs,
                    aligned_matches(sig, data, k + 1, n),
                    state.after_take(false, block * bs, bs, here),
                    false,
                ),
                None => render(data, bs, aligned_matches(sig, data, k + 1, n), state, false),
            }
        }),
{
    let bs = sig.block_size as nat;
    reveal_with_fuel(render, 2);
    let all = aligned_matches(sig, data, k, n);
    let rest = aligned_matches(sig, data, k + 1, n);
    match block_at(sig, data, k * bs) {
        Some(block) => {
            assert(all[0] == (k * bs, block));
            assert(all.drop_first() =~= rest);
        },
        None => {},
    }
}

/// Calculates a delta as `diff` does, but looks only at the windows that
/// start at the multiples of the block size, all of them at once on
/// rayon's thread pool. Blocks that have moved by less than a block are
/// not found, and each match gets a copy of its own, so the delta may be
/// longer than that of `diff`; it gives the same target. For MD4 this is
/// `diff`.
pub fn diff_parallel(signature: &IndexedSignature<'_>, data: &[u8], out: &mut Vec<u8>) -> (done:
    Result<(), DiffError>)
    ensures
        usable(signature@) ==> done is Ok && final(out)@ == old(out)@ + diff_parallel_bytes(
            signature@,
            data@,
        ),
        !usable(signature@) ==> done == Err::<(), DiffError>(DiffError::InvalidSignature)
            && final(out)@ == old(out)@,
{
    let kind = signature.signature_type();
    // MD4 is always sequential
    match kind {
        SignatureType::Md4 => {
            return diff(signature, data, out);
        },
        SignatureType::Blake3 => {},
        SignatureType::Blake2 => {
            return Err(DiffError::InvalidSignature);
        },
    }
    let block_size: usize = signature.block_size() as usize;
    if signature.crypto_hash_size() as usize > crate::blake3::BLAKE3_SIZE || block_size == 0 {
        return Err(DiffError::InvalidSignature);
    }
    let ghost sig = signature@;
    let ghost bs = block_size as nat;
    put_be(out, DELTA_MAGIC as u64, 4);
    let count: usize = data.len() / block_size;
    let mut starts: Vec<usize> = Vec::new();
    let mut k: usize = 0;
    while k < count
        invariant
            0 <= k <= count,
            count == data.len() / block_size,
            block_size > 0,
            bs == block_size,
            starts.len() == k,
            forall|i: int| 0 <= i < k ==> #[trigger] starts[i] == i * block_size,
            forall|i: int| 0 <= i < k ==> #[trigger] starts[i] + block_size <= data.len(),
        decreases count - k,
    {
        proof {
            lemma_aligned_fits(data@.len(), bs, k as nat);
        }
        starts.push(k * block_size);
        k = k + 1;
    }
    let results = probe_blocks(signature, data, &starts);
    let mut state = OutputState::new();
    let mut k: usize = 0;
    assert(out@ + render(data@, bs, aligned_matches(sig, data@, 0, count as nat), state, false)
        =~= old(out)@ + diff_parallel_bytes(sig, data@));
    while k < count
        invariant
            0 <= k <= count,
            count == data.len() / block_size,
            sig == signature@,
            usable(sig),
            bs == block_size,
            block_size == sig.block_size,
            sig.record_count() <= u32::MAX,
            sig.well_formed(),
            starts.len() == count,
            results.len() == count,
            forall|i: int| 0 <= i < count ==> #[trigger] starts[i] == i * block_size,
            forall|i: int|
                0 <= i < count ==> #[trigger] results[i] == aligned_probe(sig, data@, starts[i]),
            state.wf(),
            state.covered() <= k * bs,
            old(out)@ + diff_parallel_bytes(sig, data@) == out@ + render(
                data@,
                bs,
                aligned_matches(sig, data@, k as nat, count as nat),
                state,
                false,
            ),
        decreases count - k,
    {
        let ghost before = state;
        let ghost written = out@;
        proof {
            lemma_aligned_fits(data@.len(), bs, k as nat);
            lemma_render_aligned(sig, data@, k as nat, count as nat, before);
            assert(starts[k as int] == k * block_size);
            match block_at(sig, data@, k as nat * bs) {
                Some(block) => {
                    crate::signature::lemma_find_block(
                        sig.records(),
                        weak_sum(window(data@, k as nat * bs, bs)),
                        strong_prefix(sig, window(data@, k as nat * bs, bs)),
                    );
                    lemma_offset_fits(block, bs);
                },
                None => {},
            }
        }
        match results[k] {
            Some((start, offset, len)) => {
                state.emit(start, data, out);
                state.copy(offset, len, start, data, out);
                proof {
                    let taken = before.emit_bytes(start as nat, data@);
                    let rest = render(
                        data@,
                        bs,
                        aligned_matches(sig, data@, (k + 1) as nat, count as nat),
                        state,
                        false,
                    );
                    assert(out@ =~= written + taken);
                    assert(written + (taken + rest) =~= (written + taken) + rest);
                }
            },
            None => {},
        }
        k = k + 1;
    }
    proof {
        lemma_render_ends(data@, bs, state, false);
        assert(aligned_matches(sig, data@, count as nat, count as nat) =~= Seq::empty());
        lemma_last_fits(data@.len(), bs);
    }
    let ghost written = out@;
    let ghost last = state.emit_bytes(data@.len(), data@);
    state.emit(data.len(), data, out);
    out.push(RS_OP_END);
    assert(out@ =~= written + (last + seq![RS_OP_END]));
    Ok(())
}

/// The whole blocks of a target do not reach beyond its end.
proof fn lemma_last_fits(len: nat, block_size: nat)
    requires
        block_size > 0,
    ensures
        (len / block_size) * block_size <= len,
{
    vstd::arithmetic::div_mod::lemma_fundamental_div_mod(len as int, block_size as int);
    assert((len / block_size) * block_size == block_size * (len / block_size))
        by (nonlinear_arith);
}

} // verus!
