//! A single changed byte costs little: all of the target but less than two
//! blocks is copied from the base.
use vstd::prelude::*;
use crate::apply::{
    decode, lemma_decode_copy, lemma_decode_literal, lemma_decode_short_literal,
    lemma_size_class_fits, Instruction,
};
use crate::consts::{DELTA_MAGIC, RS_OP_END, RS_OP_LITERAL_N1};
use crate::crc::weak_sum;
use crate::diff::{
    class_width, copy_bytes, count_of, delta_bytes, diff_bytes, lemma_misses_bounded,
    literal_bytes, probe_at, render, scan, size_class, strong_prefix, window, OutputState, Probe,
    MAX_CRC_COLLISIONS,
};
use crate::roundtrip::{in_order, lemma_calculated_record, lemma_scan_in_order};
use crate::wire::{be_bytes, lemma_be_bytes_len};
use crate::signature::{
    block_count, block_of, lemma_find_block, signature_of, valid_options, SignatureOptions,
};

verus! {

/// The target is the base with the byte at `at` changed, or not changed.
pub open spec fn differ_at_most_at(base: Seq<u8>, target: Seq<u8>, at: nat) -> bool {
    &&& target.len() == base.len()
    &&& forall|i: int| 0 <= i < base.len() && i != at ==> #[trigger] target[i] == base[i]
}

/// No weak checksum has been counted beyond the limit.
pub open spec fn within_limit(counts: Map<u32, u32>) -> bool {
    forall|c: u32| #[trigger] count_of(counts, c) <= MAX_CRC_COLLISIONS
}

/// No weak checksum is given up in the run of the matcher from `here` on:
/// at its end every count is below the limit.
pub open spec fn none_given_up(
    sig: crate::signature::SignatureView,
    data: Seq<u8>,
    here: nat,
    counts: Map<u32, u32>,
) -> bool {
    forall|c: u32| #[trigger]
        count_of(scan(sig, data, here, counts).counts, c) < MAX_CRC_COLLISIONS
}

/// Number of bytes of the target from `here` on that no match covers.
pub open spec fn uncovered(
    sig: crate::signature::SignatureView,
    data: Seq<u8>,
    here: nat,
    counts: Map<u32, u32>,
) -> int {
    data.len() - here - scan(sig, data, here, counts).matches.len() * sig.block_size
}

/// A block that lies wholly within the base has a record.
proof fn lemma_block_has_record(len: nat, block_size: nat, a: nat)
    requires
        block_size > 0,
        a * block_size + block_size <= len,
    ensures
        a < block_count(len, block_size),
        (a + 1) * block_size == a * block_size + block_size,
{
    let n = block_count(len, block_size);
    assert((a + 1) * block_size == a * block_size + block_size) by (nonlinear_arith);
    vstd::arithmetic::div_mod::lemma_fundamental_div_mod(
        len + block_size - 1,
        block_size as int,
    );
    assert(block_size * n + (len + block_size - 1) % (block_size as int) == len + block_size
        - 1);
    if a >= n {
        assert(a * block_size >= n * block_size) by (nonlinear_arith)
            requires
                a >= n,
                block_size > 0,
        ;
        assert(n * block_size == block_size * n) by (nonlinear_arith);
    }
}

/// A window of the target that starts at a multiple of the block size and
/// does not hold the changed byte matches a block, as long as its checksum
/// is heeded.
proof fn lemma_clean_window_found(
    base: Seq<u8>,
    target: Seq<u8>,
    options: SignatureOptions,
    at: nat,
    a: nat,
    counts: Map<u32, u32>,
)
    requires
        valid_options(options),
        differ_at_most_at(base, target, at),
        a * options.block_size + options.block_size <= target.len(),
        at < a * options.block_size || a * options.block_size + options.block_size <= at,
        within_limit(counts),
        none_given_up(signature_of(base, options), target, a * options.block_size as nat, counts),
    ensures
        probe_at(signature_of(base, options), target, a * options.block_size as nat, counts)
            is Found,
{
    reveal(probe_at);
    let sig = signature_of(base, options);
    let bs = options.block_size as nat;
    let here = a * bs;
    let w = window(target, here, bs);
    lemma_block_has_record(base.len(), bs, a);
    assert(w =~= block_of(base, bs, a as int));
    lemma_calculated_record(base, options, a);
    lemma_find_block(sig.records(), weak_sum(w), strong_prefix(sig, w));
    lemma_misses_bounded(sig, target, here, counts, weak_sum(w));
}

/// What a step of the matcher does to the counts keeps them within the
/// limit, and the run from the next position ends with the same counts.
proof fn lemma_step_keeps(
    sig: crate::signature::SignatureView,
    data: Seq<u8>,
    here: nat,
    counts: Map<u32, u32>,
)
    requires
        sig.block_size > 0,
        here + sig.block_size <= data.len(),
        within_limit(counts),
        none_given_up(sig, data, here, counts),
    ensures
        ({
            let bs = sig.block_size as nat;
            let crc = weak_sum(window(data, here, bs));
            let bumped = counts.insert(crc, (count_of(counts, crc) + 1) as u32);
            match probe_at(sig, data, here, counts) {
                Probe::Found(_) => {
                    &&& none_given_up(sig, data, here + bs, counts)
                    &&& uncovered(sig, data, here, counts) == uncovered(
                        sig,
                        data,
                        here + bs,
                        counts,
                    )
                },
                Probe::Missed => {
                    &&& within_limit(bumped)
                    &&& none_given_up(sig, data, here + 1, bumped)
                    &&& uncovered(sig, data, here, counts) == 1 + uncovered(
                        sig,
                        data,
                        here + 1,
                        bumped,
                    )
                },
                Probe::Skipped => {
                    &&& none_given_up(sig, data, here + 1, counts)
                    &&& uncovered(sig, data, here, counts) == 1 + uncovered(
                        sig,
                        data,
                        here + 1,
                        counts,
                    )
                },
            }
        }),
{
    reveal_with_fuel(scan, 1);
    reveal(probe_at);
    let bs = sig.block_size as nat;
    let crc = weak_sum(window(data, here, bs));
    let bumped = counts.insert(crc, (count_of(counts, crc) + 1) as u32);
    match probe_at(sig, data, here, counts) {
        Probe::Found(block) => {
            let rest = scan(sig, data, here + bs, counts);
            let all = scan(sig, data, here, counts);
            assert(all.matches.len() == rest.matches.len() + 1);
            assert(all.matches.len() * bs == rest.matches.len() * bs + bs) by (nonlinear_arith)
                requires
                    all.matches.len() == rest.matches.len() + 1,
            ;
            assert forall|c: u32| #[trigger]
                count_of(scan(sig, data, here + bs, counts).counts, c)
                    < MAX_CRC_COLLISIONS by {
                assert(count_of(scan(sig, data, here, counts).counts, c) < MAX_CRC_COLLISIONS);
            }
        },
        Probe::Missed => {
            assert forall|c: u32| #[trigger] count_of(bumped, c) <= MAX_CRC_COLLISIONS by {
                assert(count_of(counts, c) <= MAX_CRC_COLLISIONS);
            }
            assert forall|c: u32| #[trigger]
                count_of(scan(sig, data, here + 1, bumped).counts, c) < MAX_CRC_COLLISIONS by {
                assert(count_of(scan(sig, data, here, counts).counts, c) < MAX_CRC_COLLISIONS);
            }
        },
        Probe::Skipped => {
            assert forall|c: u32| #[trigger]
                count_of(scan(sig, data, here + 1, counts).counts, c) < MAX_CRC_COLLISIONS by {
                assert(count_of(scan(sig, data, here, counts).counts, c) < MAX_CRC_COLLISIONS);
            }
        },
    }
}

/// Past the changed byte: from position `a * block_size + c` on, the
/// matcher leaves uncovered at most what it takes to reach the next
/// multiple of the block size, and less than a block at the end.
proof fn lemma_after_the_change(
    base: Seq<u8>,
    target: Seq<u8>,
    options: SignatureOptions,
    at: nat,
    a: nat,
    c: nat,
    counts: Map<u32, u32>,
)
    requires
        valid_options(options),
        differ_at_most_at(base, target, at),
        c < options.block_size,
        at < a * options.block_size + c <= target.len(),
        within_limit(counts),
        none_given_up(
            signature_of(base, options),
            target,
            a * options.block_size as nat + c,
            counts,
        ),
    ensures
        uncovered(signature_of(base, options), target, a * options.block_size as nat + c, counts)
            <= (if c == 0 {
            0int
        } else {
            options.block_size - c
        }) + options.block_size - 1,
    decreases target.len() - (a * options.block_size as nat + c),
{
    let sig = signature_of(base, options);
    let bs = options.block_size as nat;
    let here = a * bs + c;
    assert((a + 1) * bs == a * bs + bs) by (nonlinear_arith);
    if here + bs > target.len() {
        reveal_with_fuel(scan, 1);
        assert(scan(sig, target, here, counts).matches.len() == 0);
        assert(0 * sig.block_size == 0);
    } else {
        lemma_step_keeps(sig, target, here, counts);
        let crc = weak_sum(window(target, here, bs));
        let bumped = counts.insert(crc, (count_of(counts, crc) + 1) as u32);
        if c == 0 {
            lemma_clean_window_found(base, target, options, at, a, counts);
        }
        match probe_at(sig, target, here, counts) {
            Probe::Found(_) => {
                lemma_after_the_change(base, target, options, at, a + 1, c, counts);
            },
            Probe::Missed => {
                if c + 1 < bs {
                    lemma_after_the_change(base, target, options, at, a, c + 1, bumped);
                } else {
                    lemma_after_the_change(base, target, options, at, a + 1, 0, bumped);
                }
            },
            Probe::Skipped => {
                if c + 1 < bs {
                    lemma_after_the_change(base, target, options, at, a, c + 1, counts);
                } else {
                    lemma_after_the_change(base, target, options, at, a + 1, 0, counts);
                }
            },
        }
    }
}

/// Within the block of the changed byte: from position `j * block_size +
/// d` on, where the windows may hold the changed byte, the matcher leaves
/// uncovered at most the rest of that block and less than a block more.
proof fn lemma_at_the_change(
    base: Seq<u8>,
    target: Seq<u8>,
    options: SignatureOptions,
    at: nat,
    j: nat,
    d: nat,
    counts: Map<u32, u32>,
)
    requires
        valid_options(options),
        differ_at_most_at(base, target, at),
        at < target.len(),
        j * options.block_size <= at < j * options.block_size + options.block_size,
        j * options.block_size + d <= at,
        within_limit(counts),
        none_given_up(
            signature_of(base, options),
            target,
            j * options.block_size as nat + d,
            counts,
        ),
    ensures
        uncovered(signature_of(base, options), target, j * options.block_size as nat + d, counts)
            <= (options.block_size - d) + options.block_size - 1,
    decreases target.len() - (j * options.block_size as nat + d),
{
    let sig = signature_of(base, options);
    let bs = options.block_size as nat;
    let here = j * bs + d;
    assert((j + 1) * bs == j * bs + bs) by (nonlinear_arith);
    if here + bs > target.len() {
        reveal_with_fuel(scan, 1);
        assert(scan(sig, target, here, counts).matches.len() == 0);
        assert(0 * sig.block_size == 0);
    } else {
        lemma_step_keeps(sig, target, here, counts);
        let crc = weak_sum(window(target, here, bs));
        let bumped = counts.insert(crc, (count_of(counts, crc) + 1) as u32);
        match probe_at(sig, target, here, counts) {
            Probe::Found(_) => {
                lemma_after_the_change(base, target, options, at, j + 1, d, counts);
            },
            Probe::Missed => {
                if here < at {
                    lemma_at_the_change(base, target, options, at, j, d + 1, bumped);
                } else if d + 1 < bs {
                    lemma_after_the_change(base, target, options, at, j, d + 1, bumped);
                } else {
                    lemma_after_the_change(base, target, options, at, j + 1, 0, bumped);
                }
            },
            Probe::Skipped => {
                if here < at {
                    lemma_at_the_change(base, target, options, at, j, d + 1, counts);
                } else if d + 1 < bs {
                    lemma_after_the_change(base, target, options, at, j, d + 1, counts);
                } else {
                    lemma_after_the_change(base, target, options, at, j + 1, 0, counts);
                }
            },
        }
    }
}

/// Before the block of the changed byte: every block is matched where it
/// stands, so nothing is left uncovered up to that block.
proof fn lemma_before_the_change(
    base: Seq<u8>,
    target: Seq<u8>,
    options: SignatureOptions,
    at: nat,
    j: nat,
    m: nat,
)
    requires
        valid_options(options),
        differ_at_most_at(base, target, at),
        at < target.len(),
        j * options.block_size <= at < j * options.block_size + options.block_size,
        m <= j,
        none_given_up(
            signature_of(base, options),
            target,
            m * options.block_size as nat,
            Map::empty(),
        ),
    ensures
        uncovered(signature_of(base, options), target, m * options.block_size as nat, Map::empty())
            <= 2 * options.block_size - 1,
    decreases j - m,
{
    let sig = signature_of(base, options);
    let bs = options.block_size as nat;
    let here = m * bs;
    let counts = Map::<u32, u32>::empty();
    assert(within_limit(counts));
    if m == j {
        lemma_at_the_change(base, target, options, at, j, 0, counts);
    } else {
        assert((m + 1) * bs == m * bs + bs) by (nonlinear_arith);
        assert((m + 1) * bs <= j * bs) by (nonlinear_arith)
            requires
                m + 1 <= j,
                bs > 0,
        ;
        lemma_clean_window_found(base, target, options, at, m, counts);
        lemma_step_keeps(sig, target, here, counts);
        lemma_before_the_change(base, target, options, at, j, m + 1);
    }
}

/// Small edit locality: where the target is the base with a single byte
/// changed, the matches that `diff` takes cover all of the target but less
/// than two blocks, so less than two blocks of it leave as literals. This
/// holds as long as no weak checksum is given up for misleading too often.
pub proof fn lemma_small_edit(
    base: Seq<u8>,
    target: Seq<u8>,
    options: SignatureOptions,
    at: nat,
)
    requires
        valid_options(options),
        at < base.len(),
        differ_at_most_at(base, target, at),
        none_given_up(signature_of(base, options), target, 0, Map::empty()),
    ensures
        target.len() - scan(signature_of(base, options), target, 0, Map::empty()).matches.len()
            * options.block_size <= 2 * options.block_size - 1,
{
    let bs = options.block_size as nat;
    let j = at / bs;
    vstd::arithmetic::div_mod::lemma_fundamental_div_mod(at as int, bs as int);
    assert(j * bs == bs * j) by (nonlinear_arith);
    assert(0 * bs == 0);
    lemma_before_the_change(base, target, options, at, j, 0);
}

/// Number of bytes that the literals among the instructions in `s` carry,
/// up to the end opcode or the first instruction that cannot be read.
pub open spec fn literal_total(s: Seq<u8>) -> nat
    decreases s.len(),
{
    match decode(s) {
        Instruction::Literal { header, len } => {
            if header + len > s.len() {
                0
            } else {
                len + literal_total(s.subrange((header + len) as int, s.len() as int))
            }
        },
        Instruction::Copy { header, offset, len } => literal_total(
            s.subrange(header as int, s.len() as int),
        ),
        _ => 0,
    }
}

/// A copy carries no literal bytes.
proof fn lemma_total_copy(offset: nat, len: nat, tail: Seq<u8>)
    requires
        offset <= u64::MAX,
        len <= u64::MAX,
    ensures
        literal_total(copy_bytes(offset, len) + tail) == literal_total(tail),
{
    let s = copy_bytes(offset, len) + tail;
    lemma_size_class_fits(offset);
    lemma_size_class_fits(len);
    lemma_decode_copy(size_class(offset), size_class(len), offset, len, tail);
    let header = 1 + class_width(size_class(offset)) + class_width(size_class(len));
    assert(s.subrange(header as int, s.len() as int) =~= tail);
}

/// A literal carries its payload.
proof fn lemma_total_literal(payload: Seq<u8>, tail: Seq<u8>)
    requires
        1 <= payload.len() <= u64::MAX,
    ensures
        literal_total(literal_bytes(payload) + tail) == payload.len() + literal_total(tail),
{
    let len = payload.len();
    let s = literal_bytes(payload) + tail;
    if len <= 64 {
        lemma_decode_short_literal(len, payload + tail);
        assert(s =~= seq![len as u8] + (payload + tail));
        assert(s.subrange((1 + len) as int, s.len() as int) =~= tail);
    } else {
        let class = size_class(len);
        let width = class_width(class);
        lemma_size_class_fits(len);
        lemma_decode_literal(class, len, payload + tail);
        assert(s =~= seq![(RS_OP_LITERAL_N1 + class) as u8] + be_bytes(len, width) + (payload
            + tail));
        assert(s.subrange((1 + width + len) as int, s.len() as int) =~= tail);
    }
}

/// What `emit` writes carries as literal the bytes between what the state
/// covers and `until`.
proof fn lemma_total_emit(target: Seq<u8>, state: OutputState, until: nat, tail: Seq<u8>)
    requires
        state.covered() <= until <= target.len(),
        target.len() <= usize::MAX,
    ensures
        literal_total(state.emit_bytes(until, target) + tail) == until - state.covered()
            + literal_total(tail),
        state.after_emit(until).emitted == until,
{
    if state.emitted == until {
        assert(state.emit_bytes(until, target) + tail =~= tail);
    } else {
        let covered = state.covered();
        let gap = target.subrange(covered as int, until as int);
        let after = if covered < until {
            literal_bytes(gap) + tail
        } else {
            tail
        };
        if covered < until {
            lemma_total_literal(gap, tail);
        }
        match state.queued_copy {
            Some((offset, len)) => {
                lemma_total_copy(offset as nat, len as nat, after);
                assert(state.emit_bytes(until, target) + tail =~= state.queued_bytes() + after);
            },
            None => {
                assert(state.emit_bytes(until, target) + tail =~= after);
            },
        }
    }
}

/// The literals of the instructions for matches in order carry exactly the
/// bytes of the target that neither the output state nor a match covers.
proof fn lemma_total_render(
    target: Seq<u8>,
    block_size: nat,
    matches: Seq<(nat, nat)>,
    state: OutputState,
    from: nat,
    blocks: nat,
    joining: bool,
)
    requires
        block_size > 0,
        target.len() <= usize::MAX,
        state.covered() <= from <= target.len(),
        in_order(matches, from, block_size, target.len(), blocks),
    ensures
        literal_total(render(target, block_size, matches, state, joining)) == target.len()
            - state.covered() - matches.len() * block_size,
    decreases matches.len(),
{
    reveal_with_fuel(render, 1);
    let all = render(target, block_size, matches, state, joining);
    if matches.len() == 0 {
        let end = seq![RS_OP_END];
        lemma_total_emit(target, state, target.len(), end);
        assert(decode(end) == Instruction::End);
        assert(0 * block_size == 0);
    } else {
        let (here, block) = matches[0];
        let offset = block * block_size;
        let rest = matches.drop_first();
        let next = state.after_take(joining, offset, block_size, here);
        let tail = render(target, block_size, rest, next, joining);
        assert(matches.len() * block_size == rest.len() * block_size + block_size)
            by (nonlinear_arith)
            requires
                matches.len() == rest.len() + 1,
        ;
        lemma_total_render(target, block_size, rest, next, here + block_size, blocks, joining);
        if joining && state.joins(offset, here) {
            assert(all =~= tail);
        } else {
            lemma_total_emit(target, state, here, tail);
        }
    }
}

/// The literals of a delta carry exactly the bytes of the target that no
/// match covers.
pub proof fn lemma_literal_total(
    target: Seq<u8>,
    block_size: nat,
    matches: Seq<(nat, nat)>,
    blocks: nat,
    joining: bool,
)
    requires
        block_size > 0,
        target.len() <= usize::MAX,
        in_order(matches, 0, block_size, target.len(), blocks),
    ensures
        ({
            let delta = delta_bytes(target, block_size, matches, joining);
            literal_total(delta.subrange(4, delta.len() as int)) == target.len() - matches.len()
                * block_size
        }),
{
    let start = OutputState { emitted: 0, queued_copy: None };
    let delta = delta_bytes(target, block_size, matches, joining);
    lemma_be_bytes_len(DELTA_MAGIC as nat, 4);
    lemma_total_render(target, block_size, matches, start, 0, blocks, joining);
    assert(delta.subrange(4, delta.len() as int) =~= render(target, block_size, matches, start, joining));
}

/// Small edit locality, of the delta itself: where the target is the base
/// with a single byte changed, the literals of the delta that `diff`
/// calculates carry less than two blocks of bytes, as long as no weak
/// checksum is given up for misleading too often.
pub proof fn lemma_small_edit_delta(
    base: Seq<u8>,
    target: Seq<u8>,
    options: SignatureOptions,
    at: nat,
)
    requires
        valid_options(options),
        at < base.len(),
        base.len() <= usize::MAX,
        differ_at_most_at(base, target, at),
        none_given_up(signature_of(base, options), target, 0, Map::empty()),
    ensures
        ({
            let delta = diff_bytes(signature_of(base, options), target);
            literal_total(delta.subrange(4, delta.len() as int)) <= 2 * options.block_size - 1
        }),
{
    let sig = signature_of(base, options);
    let bs = options.block_size as nat;
    let matches = scan(sig, target, 0, Map::empty()).matches;
    lemma_small_edit(base, target, options, at);
    lemma_scan_in_order(sig, target, 0, Map::empty());
    lemma_literal_total(target, bs, matches, sig.records().len(), true);
}

} // verus!
