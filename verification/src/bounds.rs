//! How long a delta can be: the bytes of the target that no match covers,
//! and a small constant for each instruction.
use vstd::prelude::*;
use crate::apply::lemma_size_class_fits;
use crate::consts::{DELTA_MAGIC, RS_OP_END};
use crate::diff::{
    aligned_matches, copy_bytes, delta_bytes, diff_bytes, diff_parallel_bytes, literal_header,
    render, scan, OutputState,
};
use crate::roundtrip::{in_order, lemma_aligned_in_order, lemma_scan_in_order};
use crate::signature::{SignatureType, SignatureView};
use crate::wire::lemma_be_bytes_len;

verus! {

/// The most bytes that one match can add to a delta beyond the literal
/// bytes themselves: a copy of 17 bytes and a literal header of 9.
pub open spec fn per_match() -> nat {
    26
}

/// A copy takes at most 17 bytes, a literal header at most 9.
pub proof fn lemma_instruction_sizes(offset: nat, len: nat)
    requires
        offset <= u64::MAX,
        len <= u64::MAX,
    ensures
        3 <= copy_bytes(offset, len).len() <= 17,
        1 <= literal_header(len).len() <= 9,
{
    lemma_size_class_fits(offset);
    lemma_size_class_fits(len);
}

/// What `emit` writes is the bytes between what the state covers and
/// `until`, and at most one copy and one literal header.
proof fn lemma_emit_size(target: Seq<u8>, state: OutputState, until: nat)
    requires
        state.covered() <= until <= target.len(),
        target.len() <= usize::MAX,
    ensures
        state.emit_bytes(until, target).len() <= until - state.covered() + per_match(),
        state.after_emit(until).emitted == until,
{
    lemma_instruction_sizes(0, (until - state.covered()) as nat);
    match state.queued_copy {
        Some((offset, len)) => {
            lemma_instruction_sizes(offset as nat, len as nat);
        },
        None => {},
    }
}

/// The instructions for matches in order are no longer than the bytes that
/// neither the output state nor a match covers, 26 bytes for each match
/// and for the end of the target, and the end opcode.
proof fn lemma_render_size(
    target: Seq<u8>,
    block_size: nat,
    matches: Seq<(nat, nat)>,
    state: OutputState,
    from: nat,
    blocks: nat,
    joining: bool,
)
    requires
        block_size > 0,
        target.len() <= usize::MAX,
        state.covered() <= from <= target.len(),
        in_order(matches, from, block_size, target.len(), blocks),
    ensures
        render(target, block_size, matches, state, joining).len() + state.covered() + matches.len()
            * block_size <= target.len() + per_match() * (matches.len() + 1) + 1,
    decreases matches.len(),
{
    reveal_with_fuel(render, 1);
    if matches.len() == 0 {
        lemma_emit_size(target, state, target.len());
        assert(0 * block_size == 0);
    } else {
        let (here, block) = matches[0];
        let offset = block * block_size;
        let rest = matches.drop_first();
        let next = state.after_take(joining, offset, block_size, here);
        assert(matches.len() * block_size == rest.len() * block_size + block_size)
            by (nonlinear_arith)
            requires
                matches.len() == rest.len() + 1,
        ;
        assert(per_match() * (matches.len() + 1) == per_match() * (rest.len() + 1) + per_match())
            by (nonlinear_arith)
            requires
                matches.len() == rest.len() + 1,
        ;
        lemma_render_size(target, block_size, rest, next, here + block_size, blocks, joining);
        if !(joining && state.joins(offset, here)) {
            lemma_emit_size(target, state, here);
        }
    }
}

/// A delta is no longer than the magic, the bytes of the target that no
/// match covers, 26 bytes for each match and for the end of the target,
/// and the end opcode.
pub proof fn lemma_delta_size(
    target: Seq<u8>,
    block_size: nat,
    matches: Seq<(nat, nat)>,
    blocks: nat,
    joining: bool,
)
    requires
        block_size > 0,
        target.len() <= usize::MAX,
        in_order(matches, 0, block_size, target.len(), blocks),
    ensures
        delta_bytes(target, block_size, matches, joining).len() + matches.len() * block_size
            <= target.len() + per_match() * (matches.len() + 1) + 5,
{
    lemma_be_bytes_len(DELTA_MAGIC as nat, 4);
    lemma_render_size(
        target,
        block_size,
        matches,
        OutputState { emitted: 0, queued_copy: None },
        0,
        blocks,
        joining,
    );
}

/// The deltas that `diff` and `diff_parallel` calculate are no longer than
/// the target and 26 bytes for each match, and 31 bytes more.
pub proof fn lemma_diff_size(sig: SignatureView, target: Seq<u8>)
    requires
        sig.block_size > 0,
        target.len() <= usize::MAX,
    ensures
        diff_bytes(sig, target).len() <= target.len() + per_match() * scan(
            sig,
            target,
            0,
            Map::empty(),
        ).matches.len() + 31,
        sig.kind != SignatureType::Md4 ==> diff_parallel_bytes(sig, target).len() <= target.len()
            + per_match() * aligned_matches(
            sig,
            target,
            0,
            target.len() / sig.block_size as nat,
        ).len() + 31,
{
    let bs = sig.block_size as nat;
    let found = scan(sig, target, 0, Map::empty()).matches;
    lemma_scan_in_order(sig, target, 0, Map::empty());
    lemma_delta_size(target, bs, found, sig.records().len(), true);
    assert(found.len() * bs >= 0) by (nonlinear_arith)
        requires
            found.len() >= 0,
            bs >= 0,
    ;
    assert(per_match() * (found.len() + 1) == per_match() * found.len() + 26)
        by (nonlinear_arith);
    let aligned = aligned_matches(sig, target, 0, target.len() / bs);
    lemma_aligned_in_order(sig, target, 0, target.len() / bs);
    assert(0 * bs == 0);
    lemma_delta_size(target, bs, aligned, sig.records().len(), false);
    assert(aligned.len() * bs >= 0) by (nonlinear_arith)
        requires
            aligned.len() >= 0,
            bs >= 0,
    ;
    assert(per_match() * (aligned.len() + 1) == per_match() * aligned.len() + 26)
        by (nonlinear_arith);
}

} // verus!
