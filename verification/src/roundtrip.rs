//! What holds of a delta and the base it was calculated against: applied to
//! the base, it gives the target back.
use vstd::prelude::*;
use crate::apply::{
    apply_outcome, interpret, lemma_interpret_copy, lemma_interpret_end, lemma_interpret_literal,
    then, Outcome,
};
use crate::consts::{DELTA_MAGIC, RS_OP_END};
use crate::diff::{
    aligned_matches, block_at, delta_bytes, diff_bytes, diff_parallel_bytes, literal_bytes,
    probe_at, render, scan, usable, window, OutputState, Probe,
};
use crate::crc::weak_sum;
use crate::diff::strong_prefix;
use crate::signature::{
    block_count, block_of, block_record, block_records, header, lemma_block_records_len,
    lemma_digest_len, lemma_find_block, lemma_parse_header, parse, signature_bytes, signature_of,
    strong_digest, valid_options, SignatureOptions, SignatureType, SignatureView,
};
use crate::wire::{be_bytes, lemma_be_bytes_len};

verus! {

/// Every match is a true one: the window of the target at the match's
/// position holds the bytes of the block that it names.
pub open spec fn faithful(
    base: Seq<u8>,
    target: Seq<u8>,
    block_size: nat,
    matches: Seq<(nat, nat)>,
) -> bool {
    forall|j: int|
        0 <= j < matches.len() ==> window(target, (#[trigger] matches[j]).0, block_size)
            == block_of(base, block_size, matches[j].1 as int)
}

/// The matches come in the order of their positions, from `from` on; no
/// two windows overlap, each lies within the target, and each names one of
/// the `blocks` blocks.
pub open spec fn in_order(
    matches: Seq<(nat, nat)>,
    from: nat,
    block_size: nat,
    target_len: nat,
    blocks: nat,
) -> bool
    decreases matches.len(),
{
    matches.len() > 0 ==> {
        &&& from <= matches[0].0
        &&& matches[0].0 + block_size <= target_len
        &&& matches[0].1 < blocks
        &&& in_order(
            matches.drop_first(),
            matches[0].0 + block_size,
            block_size,
            target_len,
            blocks,
        )
    }
}

/// The matches are in order and each copy that stands for one gives, out
/// of the base, the bytes of its window.
pub open spec fn admissible(
    base: Seq<u8>,
    target: Seq<u8>,
    block_size: nat,
    matches: Seq<(nat, nat)>,
    from: nat,
) -> bool
    decreases matches.len(),
{
    if matches.len() == 0 {
        from <= target.len()
    } else {
        let (here, block) = matches[0];
        &&& from <= here
        &&& here + block_size <= target.len()
        &&& block * block_size + block_size <= base.len()
        &&& target.subrange(here as int, (here + block_size) as int) == base.subrange(
            (block * block_size) as int,
            (block * block_size + block_size) as int,
        )
        &&& admissible(base, target, block_size, matches.drop_first(), here + block_size)
    }
}

/// The copy held back, if there is one, gives out of the base the bytes of
/// the target that it stands for.
pub open spec fn state_faithful(base: Seq<u8>, target: Seq<u8>, state: OutputState) -> bool {
    &&& state.emitted <= target.len()
    &&& match state.queued_copy {
        Some((offset, len)) => {
            &&& offset + len <= base.len()
            &&& state.emitted + len <= target.len()
            &&& base.subrange(offset as int, offset + len) == target.subrange(
                state.emitted as int,
                state.emitted + len,
            )
        },
        None => true,
    }
}

/// Block `i` of a base starts within the base.
proof fn lemma_block_starts_within(len: nat, block_size: nat, i: nat)
    requires
        block_size > 0,
        i < block_count(len, block_size),
    ensures
        i * block_size < len,
        (i + 1) * block_size == i * block_size + block_size,
{
    let n = block_count(len, block_size);
    vstd::arithmetic::div_mod::lemma_fundamental_div_mod(
        len + block_size - 1,
        block_size as int,
    );
    assert(block_size * n <= len + block_size - 1);
    assert((i + 1) * block_size <= n * block_size) by (nonlinear_arith)
        requires
            i + 1 <= n,
            block_size > 0,
    ;
    assert(n * block_size == block_size * n) by (nonlinear_arith);
    assert((i + 1) * block_size == i * block_size + block_size) by (nonlinear_arith);
}

/// Matches that are in order and faithful are admissible.
proof fn lemma_admissible(
    base: Seq<u8>,
    target: Seq<u8>,
    block_size: nat,
    matches: Seq<(nat, nat)>,
    from: nat,
)
    requires
        block_size > 0,
        from <= target.len(),
        faithful(base, target, block_size, matches),
        in_order(matches, from, block_size, target.len(), block_count(base.len(), block_size)),
    ensures
        admissible(base, target, block_size, matches, from),
    decreases matches.len(),
{
    if matches.len() > 0 {
        let (here, block) = matches[0];
        let rest = matches.drop_first();
        assert forall|j: int| 0 <= j < rest.len() implies window(
            target,
            (#[trigger] rest[j]).0,
            block_size,
        ) == block_of(base, block_size, rest[j].1 as int) by {
            assert(rest[j] == matches[j + 1]);
        }
        lemma_admissible(base, target, block_size, rest, here + block_size);
        lemma_block_starts_within(base.len(), block_size, block);
        let w = window(target, here, block_size);
        assert(w == block_of(base, block_size, block as int));
        assert(w.len() == block_size);
    }
}

/// What `emit` writes gives the target from where the state stands up to
/// `until`, and the run goes on with what follows.
proof fn lemma_emit_sound(
    base: Seq<u8>,
    target: Seq<u8>,
    state: OutputState,
    until: nat,
    tail: Seq<u8>,
)
    requires
        state_faithful(base, target, state),
        state.covered() <= until <= target.len(),
        target.len() <= usize::MAX,
        base.len() <= u64::MAX,
    ensures
        state.after_emit(until).emitted == until,
        interpret(base, state.emit_bytes(until, target) + tail) == then(
            target.subrange(state.emitted as int, until as int),
            interpret(base, tail),
        ),
{
    let rest = interpret(base, tail);
    let goal = then(target.subrange(state.emitted as int, until as int), rest);
    if state.emitted == until {
        assert(state.emit_bytes(until, target) + tail =~= tail);
        assert(goal.output =~= rest.output);
    } else {
        let covered = state.covered();
        let gap = target.subrange(covered as int, until as int);
        let after = if covered < until {
            literal_bytes(gap) + tail
        } else {
            tail
        };
        if covered < until {
            lemma_interpret_literal(base, gap, tail);
        }
        assert(interpret(base, after).error == rest.error);
        match state.queued_copy {
            Some((offset, len)) => {
                lemma_interpret_copy(base, offset as nat, len as nat, after);
                assert(state.emit_bytes(until, target) + tail =~= state.queued_bytes() + after);
                let piece = base.subrange(offset as int, offset + len);
                assert(goal.output =~= piece + interpret(base, after).output);
            },
            None => {
                assert(state.emit_bytes(until, target) + tail =~= after);
                assert(goal.output =~= interpret(base, after).output);
            },
        }
    }
}

/// The instructions for admissible matches, run against the base, give the
/// target from where the output state stands to its end.
proof fn lemma_render_sound(
    base: Seq<u8>,
    target: Seq<u8>,
    block_size: nat,
    matches: Seq<(nat, nat)>,
    state: OutputState,
    from: nat,
    joining: bool,
)
    requires
        block_size > 0,
        target.len() <= usize::MAX,
        base.len() <= u64::MAX,
        admissible(base, target, block_size, matches, from),
        state_faithful(base, target, state),
        state.covered() <= from,
    ensures
        interpret(base, render(target, block_size, matches, state, joining)) == (Outcome {
            output: target.subrange(state.emitted as int, target.len() as int),
            error: None,
        }),
    decreases matches.len(),
{
    reveal_with_fuel(render, 1);
    let goal = Outcome {
        output: target.subrange(state.emitted as int, target.len() as int),
        error: None,
    };
    if matches.len() == 0 {
        let end = seq![RS_OP_END];
        lemma_emit_sound(base, target, state, target.len(), end);
        lemma_interpret_end(base, Seq::empty());
        assert(end + Seq::<u8>::empty() =~= end);
        let got = interpret(base, render(target, block_size, matches, state, joining));
        assert(got.output =~= goal.output);
    } else {
        let (here, block) = matches[0];
        let offset = block * block_size;
        let rest = matches.drop_first();
        let next = state.after_take(joining, offset, block_size, here);
        let tail = render(target, block_size, rest, next, joining);
        if joining && state.joins(offset, here) {
            let (queued_offset, queued_len) = state.queued_copy->Some_0;
            assert(base.subrange(queued_offset as int, queued_offset + queued_len + block_size)
                =~= base.subrange(queued_offset as int, queued_offset + queued_len)
                + base.subrange(offset as int, (offset + block_size) as int));
            assert(target.subrange(state.emitted as int, state.emitted + queued_len + block_size)
                =~= target.subrange(state.emitted as int, state.emitted + queued_len)
                + target.subrange(here as int, (here + block_size) as int));
            lemma_render_sound(base, target, block_size, rest, next, here + block_size, joining);
            assert(state.take_bytes(joining, offset, here, target) + tail =~= tail);
        } else {
            lemma_emit_sound(base, target, state, here, tail);
            lemma_render_sound(base, target, block_size, rest, next, here + block_size, joining);
            let got = interpret(base, render(target, block_size, matches, state, joining));
            assert(got.output =~= goal.output);
        }
    }
}

/// A delta whose matches are admissible, applied to the base, gives the
/// target and no error.
pub proof fn lemma_delta_applies(
    base: Seq<u8>,
    target: Seq<u8>,
    block_size: nat,
    matches: Seq<(nat, nat)>,
    joining: bool,
)
    requires
        block_size > 0,
        target.len() <= usize::MAX,
        base.len() <= u64::MAX,
        admissible(base, target, block_size, matches, 0),
    ensures
        apply_outcome(base, delta_bytes(target, block_size, matches, joining)) == (Outcome {
            output: target,
            error: None,
        }),
{
    let start = OutputState { emitted: 0, queued_copy: None };
    let delta = delta_bytes(target, block_size, matches, joining);
    lemma_be_bytes_len(DELTA_MAGIC as nat, 4);
    lemma_render_sound(base, target, block_size, matches, start, 0, joining);
    assert(delta.subrange(0, 4) =~= be_bytes(DELTA_MAGIC as nat, 4));
    assert(delta.subrange(4, delta.len() as int) =~= render(target, block_size, matches, start, joining));
    assert(target.subrange(0, target.len() as int) =~= target);
}

/// The matches that the sliding matcher finds from `here` on are in order.
pub proof fn lemma_scan_in_order(
    sig: SignatureView,
    data: Seq<u8>,
    here: nat,
    counts: Map<u32, u32>,
)
    ensures
        in_order(
            scan(sig, data, here, counts).matches,
            here,
            sig.block_size as nat,
            data.len(),
            sig.records().len(),
        ),
    decreases data.len() - here,
{
    reveal_with_fuel(scan, 1);
    reveal(probe_at);
    let bs = sig.block_size as nat;
    if !(bs == 0 || here + bs > data.len()) {
        let w = window(data, here, bs);
        match probe_at(sig, data, here, counts) {
            Probe::Found(block) => {
                let rest = scan(sig, data, here + bs, counts);
                let all = scan(sig, data, here, counts).matches;
                lemma_scan_in_order(sig, data, here + bs, counts);
                lemma_find_block(
                    sig.records(),
                    crate::crc::weak_sum(w),
                    crate::diff::strong_prefix(sig, w),
                );
                assert(all[0] == (here, block));
                assert(all.drop_first() =~= rest.matches);
            },
            Probe::Missed => {
                let crc = crate::crc::weak_sum(w);
                lemma_scan_in_order(
                    sig,
                    data,
                    here + 1,
                    counts.insert(crc, (crate::diff::count_of(counts, crc) + 1) as u32),
                );
            },
            Probe::Skipped => {
                lemma_scan_in_order(sig, data, here + 1, counts);
            },
        }
    }
}

/// The matches of the windows at the multiples of the block size are in
/// order.
pub proof fn lemma_aligned_in_order(sig: SignatureView, data: Seq<u8>, k: nat, n: nat)
    requires
        sig.block_size > 0,
        n <= data.len() / sig.block_size as nat,
    ensures
        in_order(
            aligned_matches(sig, data, k, n),
            k * sig.block_size as nat,
            sig.block_size as nat,
            data.len(),
            sig.records().len(),
        ),
    decreases n - k,
{
    let bs = sig.block_size as nat;
    if k < n {
        lemma_aligned_in_order(sig, data, k + 1, n);
        let rest = aligned_matches(sig, data, k + 1, n);
        assert((k + 1) * bs == k * bs + bs) by (nonlinear_arith);
        vstd::arithmetic::div_mod::lemma_fundamental_div_mod(data.len() as int, bs as int);
        assert((k + 1) * bs <= (data.len() / bs) * bs) by (nonlinear_arith)
            requires
                k + 1 <= data.len() / bs,
                bs > 0,
        ;
        assert((data.len() / bs) * bs == bs * (data.len() / bs)) by (nonlinear_arith);
        match block_at(sig, data, k * bs) {
            Some(block) => {
                let w = window(data, k * bs, bs);
                let all = aligned_matches(sig, data, k, n);
                lemma_find_block(
                    sig.records(),
                    crate::crc::weak_sum(w),
                    crate::diff::strong_prefix(sig, w),
                );
                assert(all[0] == (k * bs, block));
                assert(all.drop_first() =~= rest);
            },
            None => {},
        }
    }
}

/// The signature of a base holds one record per block, and parses to
/// itself.
pub proof fn lemma_signature_parses(data: Seq<u8>, options: SignatureOptions)
    requires
        valid_options(options),
    ensures
        parse(signature_bytes(data, options)) == Some(signature_of(data, options)),
        signature_of(data, options).well_formed(),
        signature_of(data, options).record_count() == block_count(
            data.len(),
            options.block_size as nat,
        ),
        signature_bytes(data, options).len() == 12 + block_count(
            data.len(),
            options.block_size as nat,
        ) * (4 + options.crypto_hash_size),
{
    let kind = options.hash_algorithm.kind();
    let keep = options.crypto_hash_size as nat;
    let bs = options.block_size as nat;
    let n = block_count(data.len(), bs);
    let body = block_records(kind, keep, data, bs, n);
    lemma_block_records_len(kind, keep, data, bs, n);
    lemma_parse_header(kind, options.block_size, options.crypto_hash_size, body, n);
    lemma_be_bytes_len(kind.magic() as nat, 4);
    lemma_be_bytes_len(options.block_size as nat, 4);
    lemma_be_bytes_len(options.crypto_hash_size as nat, 4);
    assert(header(kind, options.block_size, options.crypto_hash_size).len() == 12);
    vstd::arithmetic::div_mod::lemma_div_by_multiple(n as int, (4 + keep) as int);
    assert(n * (4 + keep) == (4 + keep) * n) by (nonlinear_arith);
}

/// The delta that `diff` calculates against the signature of a base,
/// applied to that base, gives the target: whenever every match that the
/// matcher took is a true one.
///
/// A match is taken on the weak checksum and the kept bytes of the strong
/// hash alone, so a window that agrees with a block in both and yet
/// differs from it is copied from the base all the same; on such inputs
/// the delta gives other bytes, and they are left out here.
pub proof fn lemma_diff_round_trip(base: Seq<u8>, target: Seq<u8>, options: SignatureOptions)
    requires
        valid_options(options),
        base.len() <= u64::MAX,
        target.len() <= usize::MAX,
        faithful(
            base,
            target,
            options.block_size as nat,
            scan(signature_of(base, options), target, 0, Map::empty()).matches,
        ),
    ensures
        usable(signature_of(base, options)),
        apply_outcome(base, diff_bytes(signature_of(base, options), target)) == (Outcome {
            output: target,
            error: None,
        }),
{
    let sig = signature_of(base, options);
    let bs = options.block_size as nat;
    let matches = scan(sig, target, 0, Map::empty()).matches;
    lemma_signature_parses(base, options);
    lemma_scan_in_order(sig, target, 0, Map::empty());
    lemma_admissible(base, target, bs, matches, 0);
    lemma_delta_applies(base, target, bs, matches, true);
}

/// The delta that `diff_parallel` calculates against the signature of a
/// base, applied to that base, gives the target: whenever every match that
/// was taken is a true one.
pub proof fn lemma_diff_parallel_round_trip(
    base: Seq<u8>,
    target: Seq<u8>,
    options: SignatureOptions,
)
    requires
        valid_options(options),
        base.len() <= u64::MAX,
        target.len() <= usize::MAX,
        options.hash_algorithm.kind() == SignatureType::Md4 ==> faithful(
            base,
            target,
            options.block_size as nat,
            scan(signature_of(base, options), target, 0, Map::empty()).matches,
        ),
        options.hash_algorithm.kind() != SignatureType::Md4 ==> faithful(
            base,
            target,
            options.block_size as nat,
            aligned_matches(
                signature_of(base, options),
                target,
                0,
                target.len() / options.block_size as nat,
            ),
        ),
    ensures
        apply_outcome(base, diff_parallel_bytes(signature_of(base, options), target)) == (Outcome {
            output: target,
            error: None,
        }),
{
    let sig = signature_of(base, options);
    let bs = options.block_size as nat;
    if sig.kind == SignatureType::Md4 {
        lemma_diff_round_trip(base, target, options);
    } else {
        let matches = aligned_matches(sig, target, 0, target.len() / bs);
        lemma_signature_parses(base, options);
        lemma_aligned_in_order(sig, target, 0, target.len() / bs);
        assert(0 * bs == 0);
        lemma_admissible(base, target, bs, matches, 0);
        lemma_delta_applies(base, target, bs, matches, false);
    }
}

/// A blob with the magic of the reserved family and a whole number of
/// records parses, and no delta can be calculated against what it parses
/// to: `diff` and `diff_parallel` return `InvalidSignature` for it.
pub proof fn lemma_blake2_rejected(bytes: Seq<u8>)
    requires
        bytes.len() >= 12,
        bytes.subrange(0, 4) == be_bytes(crate::consts::BLAKE2_MAGIC as nat, 4),
        (bytes.len() - 12) % (4 + (crate::wire::be_value(bytes.subrange(8, 12)) as u32)) as int
            == 0,
    ensures
        parse(bytes) is Some,
        parse(bytes)->Some_0.kind == SignatureType::Blake2,
        !usable(parse(bytes)->Some_0),
{
    crate::wire::lemma_pow256_values();
    crate::wire::lemma_be_value_of_bytes(crate::consts::BLAKE2_MAGIC as nat, 4);
}

/// Record `i` stands in the records of the first `n` blocks at `i` times
/// the record size.
proof fn lemma_block_records_at(
    kind: SignatureType,
    keep: nat,
    data: Seq<u8>,
    block_size: nat,
    n: nat,
    i: nat,
)
    requires
        kind != SignatureType::Blake2,
        keep <= kind.digest_size(),
        i < n,
    ensures
        i * (4 + keep) + (4 + keep) <= block_records(kind, keep, data, block_size, n).len(),
        block_records(kind, keep, data, block_size, n).subrange(
            (i * (4 + keep)) as int,
            (i * (4 + keep) + (4 + keep)) as int,
        ) == block_record(kind, keep, block_of(data, block_size, i as int)),
    decreases n,
{
    let size = 4 + keep;
    let all = block_records(kind, keep, data, block_size, n);
    let shorter = block_records(kind, keep, data, block_size, (n - 1) as nat);
    let last = block_record(kind, keep, block_of(data, block_size, n - 1));
    lemma_block_records_len(kind, keep, data, block_size, n);
    lemma_block_records_len(kind, keep, data, block_size, (n - 1) as nat);
    assert(n * size == (n - 1) * size + size) by (nonlinear_arith);
    assert(0 <= i * size) by (nonlinear_arith)
        requires
            0 <= i,
            size >= 0,
    ;
    if i == n - 1 {
        assert(all.subrange((i * size) as int, (i * size + size) as int) =~= last);
    } else {
        lemma_block_records_at(kind, keep, data, block_size, (n - 1) as nat, i);
        assert((i + 1) * size <= (n - 1) * size) by (nonlinear_arith)
            requires
                i + 1 <= n - 1,
                size >= 0,
        ;
        assert((i + 1) * size == i * size + size) by (nonlinear_arith);
        assert(all.subrange((i * size) as int, (i * size + size) as int) =~= shorter.subrange(
            (i * size) as int,
            (i * size + size) as int,
        ));
    }
}

/// Record `i` of the signature of a base holds the weak checksum of block
/// `i` and the first `crypto_hash_size` bytes of its strong hash.
pub proof fn lemma_calculated_record(data: Seq<u8>, options: SignatureOptions, i: nat)
    requires
        valid_options(options),
        i < block_count(data.len(), options.block_size as nat),
    ensures
        signature_of(data, options).records().len() == block_count(
            data.len(),
            options.block_size as nat,
        ),
        signature_of(data, options).records()[i as int] == (
            weak_sum(block_of(data, options.block_size as nat, i as int)),
            strong_prefix(
                signature_of(data, options),
                block_of(data, options.block_size as nat, i as int),
            ),
        ),
{
    let sig = signature_of(data, options);
    let kind = options.hash_algorithm.kind();
    let keep = options.crypto_hash_size as nat;
    let bs = options.block_size as nat;
    let n = block_count(data.len(), bs);
    let head = header(kind, options.block_size, options.crypto_hash_size);
    let body = block_records(kind, keep, data, bs, n);
    let block = block_of(data, bs, i as int);
    let record = block_record(kind, keep, block);
    let size = 4 + keep;
    lemma_signature_parses(data, options);
    lemma_block_records_at(kind, keep, data, bs, n, i);
    lemma_be_bytes_len(kind.magic() as nat, 4);
    lemma_be_bytes_len(options.block_size as nat, 4);
    lemma_be_bytes_len(options.crypto_hash_size as nat, 4);
    lemma_be_bytes_len(weak_sum(block) as nat, 4);
    lemma_digest_len(kind, block);
    crate::wire::lemma_pow256_values();
    crate::wire::lemma_be_value_of_bytes(weak_sum(block) as nat, 4);
    let start = sig.record_start(i as int);
    assert(start == 12 + i * size);
    assert(sig.record_start(i as int + 1) == start + size) by (nonlinear_arith)
        requires
            start == 12 + i * size,
            sig.record_start(i as int + 1) == 12 + (i + 1) * size,
    ;
    assert(sig.bytes.subrange(start, start + size) =~= body.subrange(
        (i * size) as int,
        (i * size + size) as int,
    ));
    assert(sig.bytes.subrange(start, start + 4) =~= record.subrange(0, 4));
    assert(record.subrange(0, 4) =~= be_bytes(weak_sum(block) as nat, 4));
    assert(sig.bytes.subrange(start + 4, start + size) =~= record.subrange(4, size as int));
    assert(record.subrange(4, size as int) =~= strong_digest(kind, block).take(keep as int));
}

/// No window of the target agrees with a block of the base in weak
/// checksum and kept hash bytes without holding the block's bytes.
pub open spec fn collision_free(base: Seq<u8>, target: Seq<u8>, options: SignatureOptions) -> bool {
    let sig = signature_of(base, options);
    let bs = options.block_size as nat;
    forall|here: nat, i: nat|
        #![trigger window(target, here, bs), block_of(base, bs, i as int)]
        here + bs <= target.len() && i < block_count(base.len(), bs) && weak_sum(
            window(target, here, bs),
        ) == weak_sum(block_of(base, bs, i as int)) && strong_prefix(sig, window(target, here, bs))
            == strong_prefix(sig, block_of(base, bs, i as int)) ==> window(target, here, bs)
            == block_of(base, bs, i as int)
}

/// Each match that the sliding matcher takes is of a window within the
/// target and of the block that the signature gives for it.
pub proof fn lemma_scan_matches(
    sig: SignatureView,
    data: Seq<u8>,
    here: nat,
    counts: Map<u32, u32>,
)
    ensures
        forall|j: int|
            0 <= j < scan(sig, data, here, counts).matches.len() ==> {
                let found = #[trigger] scan(sig, data, here, counts).matches[j];
                &&& found.0 + sig.block_size <= data.len()
                &&& block_at(sig, data, found.0) == Some(found.1)
            },
    decreases data.len() - here,
{
    reveal_with_fuel(scan, 1);
    reveal(probe_at);
    let bs = sig.block_size as nat;
    let all = scan(sig, data, here, counts).matches;
    if !(bs == 0 || here + bs > data.len()) {
        let w = window(data, here, bs);
        match probe_at(sig, data, here, counts) {
            Probe::Found(block) => {
                let rest = scan(sig, data, here + bs, counts).matches;
                lemma_scan_matches(sig, data, here + bs, counts);
                assert forall|j: int| 0 <= j < all.len() implies {
                    let found = #[trigger] all[j];
                    &&& found.0 + sig.block_size <= data.len()
                    &&& block_at(sig, data, found.0) == Some(found.1)
                } by {
                    if j > 0 {
                        assert(all[j] == rest[j - 1]);
                    }
                }
            },
            Probe::Missed => {
                let crc = weak_sum(w);
                lemma_scan_matches(
                    sig,
                    data,
                    here + 1,
                    counts.insert(crc, (crate::diff::count_of(counts, crc) + 1) as u32),
                );
            },
            Probe::Skipped => {
                lemma_scan_matches(sig, data, here + 1, counts);
            },
        }
    }
}

/// Each match among the windows at the multiples of the block size is of
/// a window within the target and of the block that the signature gives
/// for it.
pub proof fn lemma_aligned_matches(sig: SignatureView, data: Seq<u8>, k: nat, n: nat)
    requires
        sig.block_size > 0,
        n <= data.len() / sig.block_size as nat,
    ensures
        forall|j: int|
            0 <= j < aligned_matches(sig, data, k, n).len() ==> {
                let found = #[trigger] aligned_matches(sig, data, k, n)[j];
                &&& found.0 + sig.block_size <= data.len()
                &&& block_at(sig, data, found.0) == Some(found.1)
            },
    decreases n - k,
{
    let bs = sig.block_size as nat;
    let all = aligned_matches(sig, data, k, n);
    if k < n {
        let rest = aligned_matches(sig, data, k + 1, n);
        lemma_aligned_matches(sig, data, k + 1, n);
        vstd::arithmetic::div_mod::lemma_fundamental_div_mod(data.len() as int, bs as int);
        assert(k * bs + bs <= (data.len() / bs) * bs) by (nonlinear_arith)
            requires
                k + 1 <= data.len() / bs,
                bs > 0,
        ;
        assert((data.len() / bs) * bs == bs * (data.len() / bs)) by (nonlinear_arith);
        match block_at(sig, data, k * bs) {
            Some(block) => {
                assert forall|j: int| 0 <= j < all.len() implies {
                    let found = #[trigger] all[j];
                    &&& found.0 + sig.block_size <= data.len()
                    &&& block_at(sig, data, found.0) == Some(found.1)
                } by {
                    if j > 0 {
                        assert(all[j] == rest[j - 1]);
                    }
                }
            },
            None => {},
        }
    }
}

/// Without collisions every match is a true one, whichever windows were
/// looked up.
proof fn lemma_faithful(
    base: Seq<u8>,
    target: Seq<u8>,
    options: SignatureOptions,
    matches: Seq<(nat, nat)>,
)
    requires
        valid_options(options),
        collision_free(base, target, options),
        forall|j: int|
            0 <= j < matches.len() ==> {
                let found = #[trigger] matches[j];
                &&& found.0 + options.block_size <= target.len()
                &&& block_at(signature_of(base, options), target, found.0) == Some(found.1)
            },
    ensures
        faithful(base, target, options.block_size as nat, matches),
{
    let sig = signature_of(base, options);
    let bs = options.block_size as nat;
    assert forall|j: int| 0 <= j < matches.len() implies window(
        target,
        (#[trigger] matches[j]).0,
        bs,
    ) == block_of(base, bs, matches[j].1 as int) by {
        let (here, block) = matches[j];
        let w = window(target, here, bs);
        lemma_find_block(sig.records(), weak_sum(w), strong_prefix(sig, w));
        lemma_signature_parses(base, options);
        lemma_calculated_record(base, options, block);
    }
}

/// Round trip: for every base, every target and all valid options, the
/// delta that `diff` calculates against the signature of the base, applied
/// to the base, gives the target back, unless a window of the target
/// agrees with a block of the base in checksum and kept hash bytes and yet
/// differs from it.
pub proof fn lemma_round_trip(base: Seq<u8>, target: Seq<u8>, options: SignatureOptions)
    requires
        valid_options(options),
        base.len() <= u64::MAX,
        target.len() <= usize::MAX,
        collision_free(base, target, options),
    ensures
        apply_outcome(base, diff_bytes(signature_of(base, options), target)) == (Outcome {
            output: target,
            error: None,
        }),
        apply_outcome(base, diff_parallel_bytes(signature_of(base, options), target)) == (Outcome {
            output: target,
            error: None,
        }),
{
    let sig = signature_of(base, options);
    let bs = options.block_size as nat;
    lemma_scan_matches(sig, target, 0, Map::empty());
    lemma_faithful(base, target, options, scan(sig, target, 0, Map::empty()).matches);
    lemma_diff_round_trip(base, target, options);
    lemma_aligned_matches(sig, target, 0, target.len() / bs);
    lemma_faithful(base, target, options, aligned_matches(sig, target, 0, target.len() / bs));
    lemma_diff_parallel_round_trip(base, target, options);
}

} // verus!
