//! Byte-level encodings shared by the compiler and the disassembler:
//! little-endian immediates, literal pushes, calls, and the fixed
//! bootstrap and helper routines at the start of every binary.
use vstd::prelude::*;
use crate::op;

verus! {

/// The four little-endian bytes of `v`.
pub open spec fn le_bytes(v: u32) -> Seq<u8> {
    seq![(v & 0xff) as u8, ((v >> 8) & 0xff) as u8, ((v >> 16) & 0xff) as u8, ((v >> 24) & 0xff) as u8]
}

/// The `u32` whose little-endian bytes are `b0 b1 b2 b3`.
pub open spec fn le_value(b0: u8, b1: u8, b2: u8, b3: u8) -> u32 {
    (b0 as u32) | ((b1 as u32) << 8) | ((b2 as u32) << 16) | ((b3 as u32) << 24)
}

/// Decoding the little-endian bytes of `v` gives back `v`.
pub proof fn lemma_le_roundtrip(v: u32)
    ensures
        le_value(le_bytes(v)[0], le_bytes(v)[1], le_bytes(v)[2], le_bytes(v)[3]) == v,
{
    let b0 = (v & 0xff) as u8;
    let b1 = ((v >> 8) & 0xff) as u8;
    let b2 = ((v >> 16) & 0xff) as u8;
    let b3 = ((v >> 24) & 0xff) as u8;
    assert((b0 as u32) | ((b1 as u32) << 8) | ((b2 as u32) << 16) | ((b3 as u32) << 24) == v)
        by (bit_vector)
        requires
            b0 == (v & 0xff) as u8,
            b1 == ((v >> 8) & 0xff) as u8,
            b2 == ((v >> 16) & 0xff) as u8,
            b3 == ((v >> 24) & 0xff) as u8,
    ;
}

/// `PUSH v`: the opcode and a 4-byte little-endian immediate.
pub open spec fn push_long(v: u32) -> Seq<u8> {
    seq![op::PUSH] + le_bytes(v)
}

/// `PUSH addr; CALL_ABS`.
pub open spec fn call_bytes(addr: u16) -> Seq<u8> {
    push_long(addr as u32) + seq![op::CALL_ABS]
}

/// The shortest push of the literal `n`: `PUSH_ZERO` for 0, `PUSH_SHORT`
/// for values in `-128..=127`, otherwise `PUSH` of `n` truncated to 32 bits.
pub open spec fn literal_bytes(n: i64) -> Seq<u8> {
    if n == 0 {
        seq![op::PUSH_ZERO]
    } else if -128 <= n <= 127 {
        seq![op::PUSH_SHORT, (n as i8) as u8]
    } else {
        push_long((n as i32) as u32)
    }
}

/// The per-word prolog: a call to the prolog helper.
pub open spec fn prolog_bytes() -> Seq<u8> {
    call_bytes(crate::PROLOG_HELPER_ADDR)
}

/// The per-word epilog: a tail jump to the epilog helper.
pub open spec fn epilog_bytes() -> Seq<u8> {
    push_long(crate::EPILOG_HELPER_ADDR as u32) + seq![op::JUMP_ABS]
}

/// The bootstrap: initialise the return-stack pointer, call `main` (its
/// address is a placeholder until `finalize`), halt.
pub open spec fn bootstrap_bytes() -> Seq<u8> {
    push_long(crate::RETSTACK_INITIAL) + push_long(crate::RSP_STORAGE_ADDR) + seq![op::STORE_ABS]
        + push_long(0) + seq![op::CALL_ABS, op::HALT]
}

/// The prolog helper: stash the body's address, move the caller's return
/// address onto the return stack, jump into the body.
pub open spec fn prolog_helper_bytes() -> Seq<u8> {
    push_long(crate::PROLOG_SCRATCH_ADDR) + seq![op::STORE_ABS] + push_long(crate::RSP_STORAGE_ADDR)
        + seq![op::LOAD_ABS] + seq![op::PUSH_SHORT, 0xFC, op::ADD] + seq![
        op::PUSH_SHORT,
        0xFC,
        op::LOAD_SP_REL,
    ] + push_long(crate::RSP_STORAGE_ADDR) + seq![op::STORE_ABS] + seq![op::STORE_ABS]
        + push_long(crate::PROLOG_SCRATCH_ADDR) + seq![op::LOAD_ABS, op::JUMP_ABS]
}

/// The epilog helper: pop the caller's return address off the return stack
/// and jump to it.
pub open spec fn epilog_helper_bytes() -> Seq<u8> {
    push_long(crate::RSP_STORAGE_ADDR) + seq![op::LOAD_ABS] + seq![op::PUSH_SHORT, 0xFC, op::LOAD_SP_REL]
        + seq![op::PUSH_SHORT, 0x04, op::ADD] + push_long(crate::RSP_STORAGE_ADDR) + seq![op::STORE_ABS]
        + seq![op::LOAD_ABS, op::JUMP_ABS]
}

/// Everything before the first user word: bootstrap and both helpers.
pub open spec fn preamble_bytes() -> Seq<u8> {
    bootstrap_bytes() + prolog_helper_bytes() + epilog_helper_bytes()
}

/// `code` with the four bytes at `pos` replaced by the little-endian bytes
/// of `v`.
pub open spec fn write_u32(code: Seq<u8>, pos: int, v: u32) -> Seq<u8> {
    code.subrange(0, pos) + le_bytes(v) + code.subrange(pos + 4, code.len() as int)
}

/// `code` with every slot in `slots` overwritten with `v`, in order.
pub open spec fn write_u32_all(code: Seq<u8>, slots: Seq<usize>, v: u32) -> Seq<u8>
    decreases slots.len(),
{
    if slots.len() == 0 {
        code
    } else {
        write_u32_all(write_u32(code, slots[0] as int, v), slots.drop_first(), v)
    }
}

/// Appends `b` to `code`.
pub fn emit1(code: &mut Vec<u8>, b: u8)
    ensures
        final(code)@ == old(code)@.push(b),
{
    code.push(b);
}

/// Appends the little-endian bytes of `v` to `code`.
pub fn emit_u32(code: &mut Vec<u8>, v: u32)
    ensures
        final(code)@ == old(code)@ + le_bytes(v),
{
    code.push((v & 0xff) as u8);
    code.push(((v >> 8) & 0xff) as u8);
    code.push(((v >> 16) & 0xff) as u8);
    code.push(((v >> 24) & 0xff) as u8);
    assert(code@ =~= old(code)@ + le_bytes(v));
}

/// Appends `PUSH v` to `code`.
pub fn emit_push_long(code: &mut Vec<u8>, v: u32)
    ensures
        final(code)@ == old(code)@ + push_long(v),
{
    code.push(op::PUSH);
    emit_u32(code, v);
    assert(code@ =~= old(code)@ + push_long(v));
}

/// Appends `PUSH_SHORT v` (the byte of `v` in two's complement).
pub fn emit_push_short(code: &mut Vec<u8>, v: i8)
    ensures
        final(code)@ == old(code)@ + seq![op::PUSH_SHORT, v as u8],
{
    code.push(op::PUSH_SHORT);
    code.push(v as u8);
    assert(code@ =~= old(code)@ + seq![op::PUSH_SHORT, v as u8]);
}

/// Appends the shortest push of the literal `n`; see [`literal_bytes`].
pub fn emit_literal(code: &mut Vec<u8>, n: i64)
    ensures
        final(code)@ == old(code)@ + literal_bytes(n),
{
    if n == 0 {
        code.push(op::PUSH_ZERO);
        assert(code@ =~= old(code)@ + literal_bytes(n));
    } else if -128 <= n && n <= 127 {
        emit_push_short(code, n as i8);
    } else {
        emit_push_long(code, (n as i32) as u32);
    }
}

/// Appends `PUSH addr; CALL_ABS` to `code`.
pub fn emit_call(code: &mut Vec<u8>, addr: u16)
    ensures
        final(code)@ == old(code)@ + call_bytes(addr),
{
    emit_push_long(code, addr as u32);
    code.push(op::CALL_ABS);
    assert(code@ =~= old(code)@ + call_bytes(addr));
}

/// Overwrites the four bytes at `pos` with the little-endian bytes of `v`.
pub fn patch_u32(code: &mut Vec<u8>, pos: usize, v: u32)
    requires
        pos + 4 <= old(code)@.len(),
    ensures
        final(code)@ == write_u32(old(code)@, pos as int, v),
{
    let _len = code.len();
    code.set(pos, (v & 0xff) as u8);
    code.set(pos + 1, ((v >> 8) & 0xff) as u8);
    code.set(pos + 2, ((v >> 16) & 0xff) as u8);
    code.set(pos + 3, ((v >> 24) & 0xff) as u8);
    assert(code@ =~= write_u32(old(code)@, pos as int, v));
}

} // verus!
