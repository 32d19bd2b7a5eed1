use vstd::prelude::*;

verus! {

/// Magic that opens every delta.
pub const DELTA_MAGIC: u32 = 0x7273_0236;

/// Magic of a signature whose strong hash is MD4.
pub const MD4_MAGIC: u32 = 0x7273_0136;

/// Magic of a signature whose strong hash is BLAKE2 (reserved on the wire).
pub const BLAKE2_MAGIC: u32 = 0x7273_0137;

/// Magic of a signature whose strong hash is BLAKE3.
pub const BLAKE3_MAGIC: u32 = 0x7273_0138;

/// Opcode that terminates a delta.
pub const RS_OP_END: u8 = 0x00;

/// Opcode of a literal of one byte; the literals of 2 to 64 bytes follow it.
pub const RS_OP_LITERAL_1: u8 = 0x01;

/// Opcode of the longest inline literal.
pub const RS_OP_LITERAL_64: u8 = 0x40;

/// Literal whose length is given in one byte.
pub const RS_OP_LITERAL_N1: u8 = 0x41;

/// Literal whose length is given in two bytes.
pub const RS_OP_LITERAL_N2: u8 = 0x42;

/// Literal whose length is given in four bytes.
pub const RS_OP_LITERAL_N4: u8 = 0x43;

/// Literal whose length is given in eight bytes.
pub const RS_OP_LITERAL_N8: u8 = 0x44;

/// First of the sixteen copy opcodes: offset and length of one byte each.
pub const RS_OP_COPY_N1_N1: u8 = 0x45;

/// Last of the sixteen copy opcodes: offset and length of eight bytes each.
pub const RS_OP_COPY_N8_N8: u8 = 0x54;

} // verus!
