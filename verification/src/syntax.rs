use vstd::prelude::*;

verus! {

/// The eight bytes that carry meaning in a source program. Every other byte
/// is a comment byte and is skipped by the lexical filter.
pub const IDENT_INC_DP: u8 = 62;

pub const IDENT_DEC_DP: u8 = 60;

pub const IDENT_INC_DATA: u8 = 43;

pub const IDENT_DEC_DATA: u8 = 45;

pub const IDENT_WRITE_BYTE: u8 = 46;

pub const IDENT_READ_BYTE: u8 = 44;

pub const IDENT_JUMP_ZERO: u8 = 91;

pub const IDENT_JUMP_NOT_ZERO: u8 = 93;

/// Whether `b` is one of the eight opcode bytes.
pub open spec fn spec_is_ident(b: u8) -> bool {
    b == IDENT_INC_DP || b == IDENT_DEC_DP || b == IDENT_INC_DATA || b == IDENT_DEC_DATA
        || b == IDENT_WRITE_BYTE || b == IDENT_READ_BYTE || b == IDENT_JUMP_ZERO
        || b == IDENT_JUMP_NOT_ZERO
}

pub fn is_ident(b: u8) -> (r: bool)
    ensures
        r == spec_is_ident(b),
{
    b == IDENT_INC_DP || b == IDENT_DEC_DP || b == IDENT_INC_DATA || b == IDENT_DEC_DATA
        || b == IDENT_WRITE_BYTE || b == IDENT_READ_BYTE || b == IDENT_JUMP_ZERO
        || b == IDENT_JUMP_NOT_ZERO
}

} // verus!
