//! The delta of a base against itself: copies only.
use vstd::prelude::*;
use crate::apply::{decode, lemma_decode_copy, lemma_size_class_fits, Instruction};
use crate::consts::{DELTA_MAGIC, RS_OP_END};
use crate::crc::weak_sum;
use crate::diff::{
    aligned_matches, block_at, class_width, copy_bytes, delta_bytes, diff_bytes,
    diff_parallel_bytes, probe_at, render, scan, size_class, strong_prefix, window, OutputState,
    Probe,
};
use crate::roundtrip::{lemma_calculated_record, lemma_signature_parses};
use crate::signature::{
    block_count, block_of, lemma_find_block, signature_of, valid_options, SignatureOptions,
    SignatureType, SignatureView,
};
use crate::wire::{be_bytes, lemma_be_bytes_len};

verus! {

/// The instructions in `s` are copies, at most `budget` of them, that give
/// `total` bytes in all; the end opcode follows them and nothing else.
pub open spec fn only_copies(s: Seq<u8>, total: nat, budget: nat) -> bool
    decreases s.len(),
{
    match decode(s) {
        Instruction::End => total == 0 && s.len() == 1,
        Instruction::Copy { header, offset, len } => {
            &&& budget > 0
            &&& len <= total
            &&& 1 <= header <= s.len()
            &&& only_copies(
                s.subrange(header as int, s.len() as int),
                (total - len) as nat,
                (budget - 1) as nat,
            )
        },
        _ => false,
    }
}

/// The matches follow one another without a gap, from `from` to the end of
/// the target, and each names one of the `blocks` blocks.
pub open spec fn gapless(
    matches: Seq<(nat, nat)>,
    from: nat,
    block_size: nat,
    target_len: nat,
    blocks: nat,
) -> bool
    decreases matches.len(),
{
    if matches.len() == 0 {
        from == target_len
    } else {
        &&& matches[0].0 == from
        &&& from + block_size <= target_len
        &&& matches[0].1 < blocks
        &&& gapless(matches.drop_first(), from + block_size, block_size, target_len, blocks)
    }
}

/// A copy instruction followed by more bytes is read as that copy.
proof fn lemma_copy_first(offset: nat, len: nat, tail: Seq<u8>)
    requires
        offset <= u64::MAX,
        len <= u64::MAX,
    ensures
        decode(copy_bytes(offset, len) + tail) == (Instruction::Copy {
            header: copy_bytes(offset, len).len(),
            offset,
            len,
        }),
        1 <= copy_bytes(offset, len).len() <= 17,
        (copy_bytes(offset, len) + tail).subrange(
            copy_bytes(offset, len).len() as int,
            (copy_bytes(offset, len) + tail).len() as int,
        ) == tail,
{
    lemma_size_class_fits(offset);
    lemma_size_class_fits(len);
    lemma_decode_copy(size_class(offset), size_class(len), offset, len, tail);
    let s = copy_bytes(offset, len) + tail;
    assert(s.subrange(copy_bytes(offset, len).len() as int, s.len() as int) =~= tail);
}

/// The instructions for gapless matches are copies only.
proof fn lemma_render_copies(
    target: Seq<u8>,
    block_size: nat,
    matches: Seq<(nat, nat)>,
    state: OutputState,
    blocks: nat,
    budget: nat,
    joining: bool,
)
    requires
        block_size > 0,
        target.len() <= usize::MAX,
        blocks * block_size <= u64::MAX,
        gapless(matches, state.covered(), block_size, target.len(), blocks),
        match state.queued_copy {
            Some((offset, len)) => len > 0 && offset + len <= blocks * block_size && budget
                > matches.len(),
            None => budget >= matches.len(),
        },
    ensures
        only_copies(
            render(target, block_size, matches, state, joining),
            (target.len() - state.emitted) as nat,
            budget,
        ),
    decreases matches.len(),
{
    reveal_with_fuel(render, 1);
    let end = seq![RS_OP_END];
    let total = (target.len() - state.emitted) as nat;
    let all = render(target, block_size, matches, state, joining);
    if matches.len() == 0 {
        match state.queued_copy {
            Some((offset, len)) => {
                lemma_copy_first(offset as nat, len as nat, end);
                assert(all =~= copy_bytes(offset as nat, len as nat) + end);
                assert(decode(end) == Instruction::End);
                assert(only_copies(end, 0, (budget - 1) as nat));
                assert(only_copies(all, total, budget));
            },
            None => {
                assert(all =~= end);
                assert(decode(end) == Instruction::End);
                assert(only_copies(all, total, budget));
            },
        }
    } else {
        let (here, block) = matches[0];
        let offset = block * block_size;
        let rest = matches.drop_first();
        let next = state.after_take(joining, offset, block_size, here);
        let tail = render(target, block_size, rest, next, joining);
        assert(offset + block_size <= blocks * block_size) by (nonlinear_arith)
            requires
                offset == block * block_size,
                block + 1 <= blocks,
                block_size > 0,
        ;
        if joining && state.joins(offset, here) {
            lemma_render_copies(target, block_size, rest, next, blocks, budget, joining);
            assert(all =~= tail);
            assert(only_copies(all, total, budget));
        } else {
            match state.queued_copy {
                Some((queued_offset, queued_len)) => {
                    lemma_copy_first(queued_offset as nat, queued_len as nat, tail);
                    assert(next.emitted == here);
                    lemma_render_copies(
                        target,
                        block_size,
                        rest,
                        next,
                        blocks,
                        (budget - 1) as nat,
                        joining,
                    );
                    assert(all =~= copy_bytes(queued_offset as nat, queued_len as nat) + tail);
                    assert(only_copies(tail, (total - queued_len) as nat, (budget - 1) as nat));
                    assert(only_copies(all, total, budget));
                },
                None => {
                    assert(next.emitted == here);
                    lemma_render_copies(target, block_size, rest, next, blocks, budget, joining);
                    assert(all =~= tail);
                    assert(only_copies(all, total, budget));
                },
            }
        }
    }
}

/// Window `k` of a base against its own signature matches a block.
proof fn lemma_own_block_found(base: Seq<u8>, options: SignatureOptions, k: nat)
    requires
        valid_options(options),
        base.len() % (options.block_size as nat) == 0,
        k < block_count(base.len(), options.block_size as nat),
    ensures
        k * options.block_size + options.block_size <= base.len(),
        (k + 1) * options.block_size == k * options.block_size + options.block_size,
        block_at(signature_of(base, options), base, k * options.block_size as nat) is Some,
        block_at(signature_of(base, options), base, k * options.block_size as nat)->Some_0
            < block_count(base.len(), options.block_size as nat),
        crate::signature::crc_present(
            signature_of(base, options).records(),
            weak_sum(window(base, k * options.block_size as nat, options.block_size as nat)),
        ),
{
    let sig = signature_of(base, options);
    let bs = options.block_size as nat;
    let n = block_count(base.len(), bs);
    lemma_whole_blocks(base.len(), bs);
    assert((k + 1) * bs <= n * bs) by (nonlinear_arith)
        requires
            k + 1 <= n,
            bs > 0,
    ;
    assert((k + 1) * bs == k * bs + bs) by (nonlinear_arith);
    let w = window(base, k * bs, bs);
    assert(w =~= block_of(base, bs, k as int));
    lemma_calculated_record(base, options, k);
    lemma_find_block(sig.records(), weak_sum(w), strong_prefix(sig, w));
}

/// A base of a whole number of blocks has as many blocks as its length
/// holds block sizes.
proof fn lemma_whole_blocks(len: nat, block_size: nat)
    requires
        block_size > 0,
        len % block_size == 0,
    ensures
        block_count(len, block_size) * block_size == len,
        block_count(len, block_size) == len / block_size,
{
    let q = len / block_size;
    vstd::arithmetic::div_mod::lemma_fundamental_div_mod(len as int, block_size as int);
    assert(block_size * q == q * block_size) by (nonlinear_arith);
    vstd::arithmetic::div_mod::lemma_fundamental_div_mod_converse(
        len + block_size - 1,
        block_size as int,
        q as int,
        block_size - 1,
    );
}

/// Against its own signature, the sliding matcher finds a base block by
/// block, without a gap.
proof fn lemma_own_scan(base: Seq<u8>, options: SignatureOptions, k: nat)
    requires
        valid_options(options),
        base.len() % (options.block_size as nat) == 0,
        k <= block_count(base.len(), options.block_size as nat),
    ensures
        gapless(
            scan(
                signature_of(base, options),
                base,
                k * options.block_size as nat,
                Map::empty(),
            ).matches,
            k * options.block_size as nat,
            options.block_size as nat,
            base.len(),
            block_count(base.len(), options.block_size as nat),
        ),
    decreases block_count(base.len(), options.block_size as nat) - k,
{
    reveal_with_fuel(scan, 1);
    reveal(probe_at);
    let sig = signature_of(base, options);
    let bs = options.block_size as nat;
    let n = block_count(base.len(), bs);
    let here = k * bs;
    lemma_whole_blocks(base.len(), bs);
    if k < n {
        lemma_own_block_found(base, options, k);
        lemma_own_scan(base, options, k + 1);
        let all = scan(sig, base, here, Map::empty()).matches;
        let rest = scan(sig, base, here + bs, Map::empty()).matches;
        let block = block_at(sig, base, here)->Some_0;
        assert(probe_at(sig, base, here, Map::empty()) == Probe::Found(block));
        assert(all[0] == (here, block));
        assert(all.drop_first() =~= rest);
    } else {
        assert(scan(sig, base, here, Map::empty()).matches =~= Seq::empty());
    }
}

/// Against its own signature, every window of a base at a multiple of the
/// block size is matched.
proof fn lemma_own_aligned(base: Seq<u8>, options: SignatureOptions, k: nat)
    requires
        valid_options(options),
        base.len() % (options.block_size as nat) == 0,
        k <= block_count(base.len(), options.block_size as nat),
    ensures
        gapless(
            aligned_matches(
                signature_of(base, options),
                base,
                k,
                block_count(base.len(), options.block_size as nat),
            ),
            k * options.block_size as nat,
            options.block_size as nat,
            base.len(),
            block_count(base.len(), options.block_size as nat),
        ),
    decreases block_count(base.len(), options.block_size as nat) - k,
{
    let sig = signature_of(base, options);
    let bs = options.block_size as nat;
    let n = block_count(base.len(), bs);
    lemma_whole_blocks(base.len(), bs);
    if k < n {
        lemma_own_block_found(base, options, k);
        lemma_own_aligned(base, options, k + 1);
        let all = aligned_matches(sig, base, k, n);
        let rest = aligned_matches(sig, base, k + 1, n);
        let block = block_at(sig, base, k * bs)->Some_0;
        assert(all[0] == (k * bs, block));
        assert(all.drop_first() =~= rest);
    }
}

/// Identity delta: the delta of a base of a whole number of blocks against
/// its own signature is the magic, then copies only, at most one per
/// block, that give as many bytes as the base has, then the end opcode. So
/// it has at most 5 + 17 times the number of blocks bytes.
///
/// A base whose last block is short has no window for that block: its
/// bytes leave as a literal, and such bases are left out here.
pub proof fn lemma_identity_delta(base: Seq<u8>, options: SignatureOptions)
    requires
        valid_options(options),
        base.len() <= usize::MAX,
        base.len() % (options.block_size as nat) == 0,
    ensures
        ({
            let delta = diff_bytes(signature_of(base, options), base);
            &&& delta.len() >= 4
            &&& delta.subrange(0, 4) == be_bytes(DELTA_MAGIC as nat, 4)
            &&& only_copies(
                delta.subrange(4, delta.len() as int),
                base.len(),
                block_count(base.len(), options.block_size as nat),
            )
        }),
        ({
            let delta = diff_parallel_bytes(signature_of(base, options), base);
            &&& delta.len() >= 4
            &&& delta.subrange(0, 4) == be_bytes(DELTA_MAGIC as nat, 4)
            &&& only_copies(
                delta.subrange(4, delta.len() as int),
                base.len(),
                block_count(base.len(), options.block_size as nat),
            )
        }),
{
    let sig = signature_of(base, options);
    let bs = options.block_size as nat;
    let n = block_count(base.len(), bs);
    lemma_whole_blocks(base.len(), bs);
    assert(0 * bs == 0);
    lemma_own_scan(base, options, 0);
    lemma_delta_copies(base, bs, scan(sig, base, 0, Map::empty()).matches, n, true);
    lemma_own_aligned(base, options, 0);
    lemma_delta_copies(base, bs, aligned_matches(sig, base, 0, n), n, false);
}

/// The delta for gapless matches is the magic, then copies only.
proof fn lemma_delta_copies(
    target: Seq<u8>,
    block_size: nat,
    matches: Seq<(nat, nat)>,
    blocks: nat,
    joining: bool,
)
    requires
        block_size > 0,
        target.len() <= usize::MAX,
        blocks * block_size == target.len(),
        gapless(matches, 0, block_size, target.len(), blocks),
    ensures
        ({
            let delta = delta_bytes(target, block_size, matches, joining);
            &&& delta.len() >= 4
            &&& delta.subrange(0, 4) == be_bytes(DELTA_MAGIC as nat, 4)
            &&& only_copies(delta.subrange(4, delta.len() as int), target.len(), blocks)
        }),
{
    let start = OutputState { emitted: 0, queued_copy: None };
    lemma_be_bytes_len(DELTA_MAGIC as nat, 4);
    lemma_gapless_len(matches, 0, block_size, target.len(), blocks);
    assert(matches.len() == blocks) by (nonlinear_arith)
        requires
            matches.len() * block_size == blocks * block_size,
            block_size > 0,
    ;
    lemma_render_copies(target, block_size, matches, start, blocks, blocks, joining);
    let delta = delta_bytes(target, block_size, matches, joining);
    assert(delta.subrange(0, 4) =~= be_bytes(DELTA_MAGIC as nat, 4));
    assert(delta.subrange(4, delta.len() as int) =~= render(target, block_size, matches, start, joining));
}

/// Gapless matches from `from` on are as many as blocks fit between `from`
/// and the end of the target.
proof fn lemma_gapless_len(
    matches: Seq<(nat, nat)>,
    from: nat,
    block_size: nat,
    target_len: nat,
    blocks: nat,
)
    requires
        block_size > 0,
        gapless(matches, from, block_size, target_len, blocks),
    ensures
        from + matches.len() * block_size == target_len,
    decreases matches.len(),
{
    if matches.len() > 0 {
        lemma_gapless_len(matches.drop_first(), from + block_size, block_size, target_len, blocks);
        assert(matches.len() * block_size == (matches.len() - 1) * block_size + block_size)
            by (nonlinear_arith);
    } else {
        assert(0 * block_size == 0);
    }
}

/// Instructions that are copies only, at most `budget` of them, take at
/// most 17 bytes for each and one for the end opcode.
pub proof fn lemma_only_copies_len(s: Seq<u8>, total: nat, budget: nat)
    requires
        only_copies(s, total, budget),
    ensures
        s.len() <= 17 * budget + 1,
    decreases s.len(),
{
    match decode(s) {
        Instruction::Copy { header, offset, len } => {
            lemma_only_copies_len(
                s.subrange(header as int, s.len() as int),
                (total - len) as nat,
                (budget - 1) as nat,
            );
        },
        _ => {},
    }
}

} // verus!
