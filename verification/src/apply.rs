//! Applying a delta: an interpreter for the instructions, which writes the
//! target out of literals and of pieces of the base.
use vstd::prelude::*;
use vstd::slice::slice_subrange;
use crate::consts::{
    DELTA_MAGIC, RS_OP_COPY_N1_N1, RS_OP_COPY_N8_N8, RS_OP_END, RS_OP_LITERAL_64,
    RS_OP_LITERAL_N1, RS_OP_LITERAL_N8,
};
use crate::diff::{class_width, copy_bytes, literal_bytes, literal_header, size_class, varint};
use crate::wire::{
    be_bytes, be_value, get_be, lemma_be_bytes_len, lemma_be_value_of_bytes, lemma_pow256_values,
    pow256,
};

verus! {

/// Why a delta could not be applied.
#[derive(Clone, Copy, Debug, PartialEq, Eq, Structural)]
pub enum ApplyError {
    /// The delta does not start with the magic of deltas.
    WrongMagic,
    /// The delta ends within an instruction, or before the end opcode.
    UnexpectedEof,
    /// An opcode that stands for no instruction.
    UnknownCommand(u8),
    /// A copy that reaches beyond the end of the base.
    OutOfBounds,
}

/// One instruction as it is read off the head of a byte string: its kind,
/// the number of bytes before its payload or before the next instruction,
/// and its numbers.
pub enum Instruction {
    /// The end opcode.
    End,
    /// A literal of `len` bytes, which follow the `header` bytes of opcode
    /// and length.
    Literal { header: nat, len: nat },
    /// A copy of `len` bytes of the base from `offset`; the instruction
    /// takes `header` bytes.
    Copy { header: nat, offset: nat, len: nat },
    /// The bytes end before the instruction's numbers do.
    Truncated,
    /// No instruction has this opcode.
    Unknown(u8),
}

/// Reads the instruction at the head of `s`.
pub open spec fn decode(s: Seq<u8>) -> Instruction {
    if s.len() == 0 {
        Instruction::Truncated
    } else {
        let op = s[0];
        if op == RS_OP_END {
            Instruction::End
        } else if op <= RS_OP_LITERAL_64 {
            Instruction::Literal { header: 1, len: op as nat }
        } else if op <= RS_OP_LITERAL_N8 {
            let width = class_width((op - RS_OP_LITERAL_N1) as nat);
            if 1 + width > s.len() {
                Instruction::Truncated
            } else {
                Instruction::Literal {
                    header: 1 + width,
                    len: be_value(s.subrange(1, 1 + width as int)),
                }
            }
        } else if op <= RS_OP_COPY_N8_N8 {
            let offset_width = class_width(((op - RS_OP_COPY_N1_N1) / 4) as nat);
            let len_width = class_width(((op - RS_OP_COPY_N1_N1) % 4) as nat);
            if 1 + offset_width + len_width > s.len() {
                Instruction::Truncated
            } else {
                Instruction::Copy {
                    header: 1 + offset_width + len_width,
                    offset: be_value(s.subrange(1, 1 + offset_width as int)),
                    len: be_value(
                        s.subrange(1 + offset_width as int, 1 + offset_width + len_width as int),
                    ),
                }
            }
        } else {
            Instruction::Unknown(op)
        }
    }
}

/// What applying comes to: the bytes written, and the error that stopped
/// it, if one did.
pub struct Outcome {
    pub output: Seq<u8>,
    pub error: Option<ApplyError>,
}

/// The outcome of writing `first` and then going on to `rest`.
pub open spec fn then(first: Seq<u8>, rest: Outcome) -> Outcome {
    Outcome { output: first + rest.output, error: rest.error }
}

/// The outcome of stopping at once for `error`.
pub open spec fn fail(error: ApplyError) -> Outcome {
    Outcome { output: Seq::empty(), error: Some(error) }
}

/// Runs the instructions in `s` against `base`, up to the end opcode or
/// the first error. Bytes after the end opcode are not looked at.
#[verifier::opaque]
pub open spec fn interpret(base: Seq<u8>, s: Seq<u8>) -> Outcome
    decreases s.len(),
{
    match decode(s) {
        Instruction::End => Outcome { output: Seq::empty(), error: None },
        Instruction::Truncated => fail(ApplyError::UnexpectedEof),
        Instruction::Unknown(op) => fail(ApplyError::UnknownCommand(op)),
        Instruction::Literal { header, len } => {
            if header + len > s.len() {
                fail(ApplyError::UnexpectedEof)
            } else {
                then(
                    s.subrange(header as int, (header + len) as int),
                    interpret(base, s.subrange((header + len) as int, s.len() as int)),
                )
            }
        },
        Instruction::Copy { header, offset, len } => {
            if offset + len > base.len() {
                fail(ApplyError::OutOfBounds)
            } else {
                then(
                    base.subrange(offset as int, (offset + len) as int),
                    interpret(base, s.subrange(header as int, s.len() as int)),
                )
            }
        },
    }
}

/// What applying `delta` to `base` comes to: the magic is checked, then
/// the instructions after it are run.
pub open spec fn apply_outcome(base: Seq<u8>, delta: Seq<u8>) -> Outcome {
    if delta.len() < 4 || delta.subrange(0, 4) != be_bytes(DELTA_MAGIC as nat, 4) {
        fail(ApplyError::WrongMagic)
    } else {
        interpret(base, delta.subrange(4, delta.len() as int))
    }
}

/// An instruction as `apply` holds it: places in the delta and numbers.
enum Command {
    End,
    Literal { start: usize, len: u64 },
    Copy { next: usize, offset: u64, len: u64 },
}

/// Number of bytes of a width class.
fn width_of(class: u8) -> (width: usize)
    requires
        class <= 3,
    ensures
        width == class_width(class as nat),
        1 <= width <= 8,
{
    if class == 0 {
        1
    } else if class == 1 {
        2
    } else if class == 2 {
        4
    } else {
        8
    }
}

/// Reads the instruction that starts at `pos`.
fn read_command(delta: &[u8], pos: usize) -> (read: Result<Command, ApplyError>)
    requires
        pos <= delta.len(),
    ensures
        match decode(delta@.subrange(pos as int, delta.len() as int)) {
            Instruction::End => read == Ok::<Command, ApplyError>(Command::End),
            Instruction::Truncated => read == Err::<Command, ApplyError>(
                ApplyError::UnexpectedEof,
            ),
            Instruction::Unknown(op) => read == Err::<Command, ApplyError>(
                ApplyError::UnknownCommand(op),
            ),
            Instruction::Literal { header, len } => read == Ok::<Command, ApplyError>(
                Command::Literal { start: (pos + header) as usize, len: len as u64 },
            ) && pos + header <= delta.len() && len <= u64::MAX,
            Instruction::Copy { header, offset, len } => read == Ok::<Command, ApplyError>(
                Command::Copy {
                    next: (pos + header) as usize,
                    offset: offset as u64,
                    len: len as u64,
                },
            ) && pos + header <= delta.len() && offset <= u64::MAX && len <= u64::MAX,
        },
{
    let ghost s = delta@.subrange(pos as int, delta.len() as int);
    if pos >= delta.len() {
        return Err(ApplyError::UnexpectedEof);
    }
    let op: u8 = delta[pos];
    assert(op == s[0]);
    let left: usize = delta.len() - pos - 1;
    if op == RS_OP_END {
        Ok(Command::End)
    } else if op <= RS_OP_LITERAL_64 {
        Ok(Command::Literal { start: pos + 1, len: op as u64 })
    } else if op <= RS_OP_LITERAL_N8 {
        let width: usize = width_of(op - RS_OP_LITERAL_N1);
        if width > left {
            return Err(ApplyError::UnexpectedEof);
        }
        let len: u64 = get_be(delta, pos + 1, width);
        assert(s.subrange(1, 1 + width) =~= delta@.subrange(pos + 1, pos + 1 + width));
        Ok(Command::Literal { start: pos + 1 + width, len })
    } else if op <= RS_OP_COPY_N8_N8 {
        let offset_width: usize = width_of((op - RS_OP_COPY_N1_N1) / 4);
        let len_width: usize = width_of((op - RS_OP_COPY_N1_N1) % 4);
        if offset_width + len_width > left {
            return Err(ApplyError::UnexpectedEof);
        }
        let offset: u64 = get_be(delta, pos + 1, offset_width);
        let len: u64 = get_be(delta, pos + 1 + offset_width, len_width);
        assert(s.subrange(1, 1 + offset_width) =~= delta@.subrange(
            pos + 1,
            pos + 1 + offset_width,
        ));
        assert(s.subrange(1 + offset_width, 1 + offset_width + len_width) =~= delta@.subrange(
            pos + 1 + offset_width,
            pos + 1 + offset_width + len_width,
        ));
        Ok(Command::Copy { next: pos + 1 + offset_width + len_width, offset, len })
    } else {
        Err(ApplyError::UnknownCommand(op))
    }
}

/// Applies `delta` to `base` and appends the target to `out`.
///
/// The instructions are run in order up to the end opcode; what follows it
/// is ignored. On an error, `out` holds what the instructions before the
/// failing one gave.
pub fn apply(base: &[u8], delta: &[u8], out: &mut Vec<u8>) -> (done: Result<(), ApplyError>)
    ensures
        final(out)@ == old(out)@ + apply_outcome(base@, delta@).output,
        done == match apply_outcome(base@, delta@).error {
            None => Ok::<(), ApplyError>(()),
            Some(error) => Err::<(), ApplyError>(error),
        },
{
    if delta.len() < 4 {
        assert(out@ =~= old(out)@ + apply_outcome(base@, delta@).output);
        return Err(ApplyError::WrongMagic);
    }
    let magic: u64 = get_be(delta, 0, 4);
    proof {
        crate::wire::lemma_be_bytes_of_value(delta@.subrange(0, 4));
        crate::wire::lemma_pow256_values();
        crate::wire::lemma_be_value_of_bytes(DELTA_MAGIC as nat, 4);
    }
    if magic != DELTA_MAGIC as u64 {
        assert(out@ =~= old(out)@ + apply_outcome(base@, delta@).output);
        return Err(ApplyError::WrongMagic);
    }
    let ghost whole = apply_outcome(base@, delta@);
    let mut pos: usize = 4;
    assert(out@ + whole.output =~= old(out)@ + whole.output);
    loop
        invariant
            4 <= pos <= delta.len(),
            whole == apply_outcome(base@, delta@),
            whole.error == interpret(base@, delta@.subrange(pos as int, delta.len() as int)).error,
            old(out)@ + whole.output == out@ + interpret(
                base@,
                delta@.subrange(pos as int, delta.len() as int),
            ).output,
        ensures
            final(out)@ == old(out)@ + whole.output,
        decreases delta.len() - pos,
    {
        let ghost s = delta@.subrange(pos as int, delta.len() as int);
        let ghost written = out@;
        proof {
            reveal_with_fuel(interpret, 1);
        }
        let command = match read_command(delta, pos) {
            Ok(command) => command,
            Err(error) => {
                assert(out@ =~= old(out)@ + whole.output);
                return Err(error);
            },
        };
        match command {
            Command::End => {
                assert(out@ =~= old(out)@ + whole.output);
                return Ok(());
            },
            Command::Literal { start, len } => {
                if len > (delta.len() - start) as u64 {
                    assert(out@ =~= old(out)@ + whole.output);
                    return Err(ApplyError::UnexpectedEof);
                }
                let end: usize = start + len as usize;
                out.extend_from_slice(slice_subrange(delta, start, end));
                proof {
                    let payload = delta@.subrange(start as int, end as int);
                    let rest = interpret(base@, delta@.subrange(end as int, delta.len() as int));
                    assert(s.subrange(start - pos, end - pos) =~= payload);
                    assert(s.subrange(end - pos, s.len() as int) =~= delta@.subrange(
                        end as int,
                        delta.len() as int,
                    ));
                    assert(written + (payload + rest.output) =~= (written + payload) + rest.output);
                }
                pos = end;
            },
            Command::Copy { next, offset, len } => {
                if offset > base.len() as u64 || len > base.len() as u64 - offset {
                    assert(out@ =~= old(out)@ + whole.output);
                    return Err(ApplyError::OutOfBounds);
                }
                let from: usize = offset as usize;
                let to: usize = from + len as usize;
                out.extend_from_slice(slice_subrange(base, from, to));
                proof {
                    let piece = base@.subrange(from as int, to as int);
                    let rest = interpret(base@, delta@.subrange(next as int, delta.len() as int));
                    assert(s.subrange(next - pos, s.len() as int) =~= delta@.subrange(
                        next as int,
                        delta.len() as int,
                    ));
                    assert(written + (piece + rest.output) =~= (written + piece) + rest.output);
                }
                pos = next;
            },
        }
    }
}

/// An inline literal of 1 to 64 bytes is read as what it was written for.
pub proof fn lemma_decode_short_literal(len: nat, tail: Seq<u8>)
    requires
        1 <= len <= 64,
    ensures
        decode(seq![len as u8] + tail) == (Instruction::Literal { header: 1, len }),
{
}

/// A literal header of any of the four widths is read as what it was
/// written for: every length that fits the width comes back.
pub proof fn lemma_decode_literal(class: nat, len: nat, tail: Seq<u8>)
    requires
        class <= 3,
        len < pow256(class_width(class)),
    ensures
        decode(seq![(RS_OP_LITERAL_N1 + class) as u8] + be_bytes(len, class_width(class)) + tail)
            == (Instruction::Literal { header: 1 + class_width(class), len }),
{
    let width = class_width(class);
    let s = seq![(RS_OP_LITERAL_N1 + class) as u8] + be_bytes(len, width) + tail;
    lemma_be_bytes_len(len, width);
    lemma_be_value_of_bytes(len, width);
    assert(s.subrange(1, (1 + width) as int) =~= be_bytes(len, width));
}

/// A copy instruction of any of the sixteen pairs of widths is read as
/// what it was written for: every offset and length that fit their widths
/// come back.
pub proof fn lemma_decode_copy(
    offset_class: nat,
    len_class: nat,
    offset: nat,
    len: nat,
    tail: Seq<u8>,
)
    requires
        offset_class <= 3,
        len_class <= 3,
        offset < pow256(class_width(offset_class)),
        len < pow256(class_width(len_class)),
    ensures
        decode(
            seq![(RS_OP_COPY_N1_N1 + 4 * offset_class + len_class) as u8] + be_bytes(
                offset,
                class_width(offset_class),
            ) + be_bytes(len, class_width(len_class)) + tail,
        ) == (Instruction::Copy {
            header: 1 + class_width(offset_class) + class_width(len_class),
            offset,
            len,
        }),
{
    let offset_width = class_width(offset_class);
    let len_width = class_width(len_class);
    let op = (RS_OP_COPY_N1_N1 + 4 * offset_class + len_class) as u8;
    let s = seq![op] + be_bytes(offset, offset_width) + be_bytes(len, len_width) + tail;
    lemma_be_bytes_len(offset, offset_width);
    lemma_be_bytes_len(len, len_width);
    lemma_be_value_of_bytes(offset, offset_width);
    lemma_be_value_of_bytes(len, len_width);
    assert(((op - RS_OP_COPY_N1_N1) / 4) as nat == offset_class);
    assert(((op - RS_OP_COPY_N1_N1) % 4) as nat == len_class);
    assert(s.subrange(1, (1 + offset_width) as int) =~= be_bytes(offset, offset_width));
    assert(s.subrange((1 + offset_width) as int, (1 + offset_width + len_width) as int)
        =~= be_bytes(len, len_width));
}

/// A number of up to 64 bits fits the width of its class.
pub proof fn lemma_size_class_fits(v: nat)
    requires
        v <= u64::MAX,
    ensures
        size_class(v) <= 3,
        v < pow256(class_width(size_class(v))),
        varint(v).len() == class_width(size_class(v)),
{
    lemma_pow256_values();
    lemma_be_bytes_len(v, class_width(size_class(v)));
}

/// The end opcode ends the run, whatever follows it.
pub proof fn lemma_interpret_end(base: Seq<u8>, tail: Seq<u8>)
    ensures
        interpret(base, seq![RS_OP_END] + tail) == (Outcome { output: Seq::empty(), error: None }),
{
    reveal_with_fuel(interpret, 1);
}

/// A literal as the encoder writes it gives its payload, and the run goes
/// on with what follows.
pub proof fn lemma_interpret_literal(base: Seq<u8>, payload: Seq<u8>, tail: Seq<u8>)
    requires
        1 <= payload.len() <= u64::MAX,
    ensures
        interpret(base, literal_bytes(payload) + tail) == then(payload, interpret(base, tail)),
{
    reveal_with_fuel(interpret, 1);
    let len = payload.len();
    let s = literal_bytes(payload) + tail;
    if len <= 64 {
        lemma_decode_short_literal(len, payload + tail);
        assert(s =~= seq![len as u8] + (payload + tail));
        assert(s.subrange(1, (1 + len) as int) =~= payload);
        assert(s.subrange((1 + len) as int, s.len() as int) =~= tail);
    } else {
        let class = size_class(len);
        let width = class_width(class);
        lemma_size_class_fits(len);
        lemma_decode_literal(class, len, payload + tail);
        assert(s =~= seq![(RS_OP_LITERAL_N1 + class) as u8] + be_bytes(len, width) + (payload
            + tail));
        assert(s.subrange((1 + width) as int, (1 + width + len) as int) =~= payload);
        assert(s.subrange((1 + width + len) as int, s.len() as int) =~= tail);
    }
}

/// A copy as the encoder writes it gives the piece of the base that it
/// names, and the run goes on with what follows.
pub proof fn lemma_interpret_copy(base: Seq<u8>, offset: nat, len: nat, tail: Seq<u8>)
    requires
        offset <= u64::MAX,
        len <= u64::MAX,
        offset + len <= base.len(),
    ensures
        interpret(base, copy_bytes(offset, len) + tail) == then(
            base.subrange(offset as int, (offset + len) as int),
            interpret(base, tail),
        ),
{
    reveal_with_fuel(interpret, 1);
    let s = copy_bytes(offset, len) + tail;
    lemma_size_class_fits(offset);
    lemma_size_class_fits(len);
    lemma_decode_copy(size_class(offset), size_class(len), offset, len, tail);
    let header = 1 + class_width(size_class(offset)) + class_width(size_class(len));
    assert(s.subrange(header as int, s.len() as int) =~= tail);
}

/// A copy that reaches beyond the base stops the run with `OutOfBounds`,
/// and nothing is written for it.
pub proof fn lemma_interpret_out_of_bounds(base: Seq<u8>, s: Seq<u8>)
    requires
        decode(s) is Copy,
        decode(s)->Copy_offset + decode(s)->Copy_len > base.len(),
    ensures
        interpret(base, s) == fail(ApplyError::OutOfBounds),
{
    reveal_with_fuel(interpret, 1);
}

} // verus!
