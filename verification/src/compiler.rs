//! The compiler: turns Forth-style source into LiveCTF VM bytecode.
//!
//! It is single-pass, with a table of pending forward references that are
//! patched when the referenced word is defined. Every operation is proved
//! to act on the state as the definitions in `model.rs` say.
use vstd::prelude::*;
use crate::encode::{
    call_bytes, emit1, emit_call, emit_literal, emit_push_long, emit_u32, epilog_bytes, le_bytes,
    literal_bytes, patch_u32, preamble_bytes, prolog_bytes, push_long, write_u32, write_u32_all,
    bootstrap_bytes, prolog_helper_bytes, epilog_helper_bytes,
};
use crate::fmt::{push_dec, push_hex};
use crate::lexer::{parse_number_chars, tokenize_chars, views_of, number_value};
use crate::model::{
    quoted_list, msg_outside_definition,
    count_do, do_index_addr, frame_ok, frame_clear, clear_of_slots, initial_model, lemma_emit_inv, lemma_patch_inv,
    lemma_pop_frame_inv, lemma_push_frame_inv, is_primitive, single_op, swap_op,
    stack_read_op, CompilerModel, CtrlFrame, DictEntry, Outcome,
};
use crate::names::{NameMap, copy_chars, sort_names, lemma_sorted_listing_unique, strictly_sorted, sorted_listing};
use crate::op;
use crate::text::{append_chars, append_str, str_chars, string_from, tok_is};

verus! {

/// Whether a compiler result agrees with an outcome of the model.
pub open spec fn outcome_matches(o: Outcome, r: Result<(), String>) -> bool {
    match o {
        Outcome::Done => r is Ok,
        Outcome::Failed(msg) => r is Err && r->Err_0@ == msg,
        Outcome::Aborted => false,
    }
}

/// Whether a result that may report an abort agrees with an outcome of the
/// model: `None` exactly for [`Outcome::Aborted`].
pub open spec fn checked_outcome_matches(o: Outcome, r: Option<Result<(), String>>) -> bool {
    match r {
        None => o is Aborted,
        Some(r) => outcome_matches(o, r),
    }
}

/// The compiler's state: the code emitted so far, the dictionary, the open
/// definition and control structures, and pending forward references.
pub struct Compiler {
    code: Vec<u8>,
    dict: NameMap<DictEntry>,
    compiling: Option<Vec<char>>,
    ctrl: Vec<CtrlFrame>,
    /// Position of the bootstrap's 4-byte slot for `main`'s address.
    main_patch_pos: usize,
    do_depth: usize,
    fwd_refs: NameMap<Vec<usize>>,
}

impl View for Compiler {
    type V = CompilerModel;

    closed spec fn view(&self) -> CompilerModel {
        CompilerModel {
            code: self.code@,
            dict: self.dict@,
            compiling: match self.compiling {
                Some(n) => Some(n@),
                None => None,
            },
            ctrl: self.ctrl@,
            do_depth: self.do_depth as nat,
            fwd_refs: self.fwd_refs@.map_values(|v: Vec<usize>| v@),
        }
    }
}

/// An error result carrying the text `msg`.
fn fail(msg: &str) -> (res: Result<(), String>)
    ensures
        res is Err && res->Err_0@ == msg@,
{
    Err(string_from(msg))
}

/// Appends the bootstrap (initialise the return-stack pointer, call
/// `main`, halt) and returns the position of `main`'s address slot.
fn emit_bootstrap(code: &mut Vec<u8>) -> (main_patch_pos: usize)
    ensures
        final(code)@ == old(code)@ + bootstrap_bytes(),
        main_patch_pos == old(code)@.len() + 12,
{
    let ghost start = code@;
    emit_push_long(code, crate::RETSTACK_INITIAL);
    emit_push_long(code, crate::RSP_STORAGE_ADDR);
    emit1(code, op::STORE_ABS);
    emit1(code, op::PUSH);
    let main_patch_pos = code.len();
    emit_u32(code, 0);
    emit1(code, op::CALL_ABS);
    emit1(code, op::HALT);
    proof {
        assert(code@ =~= start + bootstrap_bytes());
    }
    main_patch_pos
}

/// Appends the prolog helper (32 bytes). A word's prolog calls it with the
/// data stack holding the caller's return address and the body's address:
/// it stashes the body's address, moves the caller's return address onto
/// the return stack, and jumps into the body.
fn emit_prolog_helper(code: &mut Vec<u8>)
    ensures
        final(code)@ == old(code)@ + prolog_helper_bytes(),
{
    let ghost start = code@;
    emit_push_long(code, crate::PROLOG_SCRATCH_ADDR);
    emit1(code, op::STORE_ABS);
    emit_push_long(code, crate::RSP_STORAGE_ADDR);
    emit1(code, op::LOAD_ABS);
    emit1(code, op::PUSH_SHORT);
    emit1(code, 0xFC);
    emit1(code, op::ADD);
    emit1(code, op::PUSH_SHORT);
    emit1(code, 0xFC);
    emit1(code, op::LOAD_SP_REL);
    emit_push_long(code, crate::RSP_STORAGE_ADDR);
    emit1(code, op::STORE_ABS);
    emit1(code, op::STORE_ABS);
    emit_push_long(code, crate::PROLOG_SCRATCH_ADDR);
    emit1(code, op::LOAD_ABS);
    emit1(code, op::JUMP_ABS);
    proof {
        assert(code@ =~= start + prolog_helper_bytes());
    }
}

/// Appends the epilog helper (20 bytes): pop the caller's return address
/// off the return stack and jump to it.
fn emit_epilog_helper(code: &mut Vec<u8>)
    ensures
        final(code)@ == old(code)@ + epilog_helper_bytes(),
{
    let ghost start = code@;
    emit_push_long(code, crate::RSP_STORAGE_ADDR);
    emit1(code, op::LOAD_ABS);
    emit1(code, op::PUSH_SHORT);
    emit1(code, 0xFC);
    emit1(code, op::LOAD_SP_REL);
    emit1(code, op::PUSH_SHORT);
    emit1(code, 0x04);
    emit1(code, op::ADD);
    emit_push_long(code, crate::RSP_STORAGE_ADDR);
    emit1(code, op::STORE_ABS);
    emit1(code, op::LOAD_ABS);
    emit1(code, op::JUMP_ABS);
    proof {
        assert(code@ =~= start + epilog_helper_bytes());
    }
}

impl Compiler {
    /// The compiler's internal invariant.
    pub closed spec fn wf(&self) -> bool {
        &&& self.dict.wf()
        &&& self.fwd_refs.wf()
        &&& self.main_patch_pos == 12
        &&& self@.inv()
    }

    /// The state of a well-formed compiler satisfies the model's invariant,
    /// so what `laws.rs` proves of such states holds of every compiler.
    pub proof fn lemma_view_inv(&self)
        requires
            self.wf(),
        ensures
            self@.inv(),
    {
    }

    /// A compiler holding just the preamble (bootstrap and helpers).
    pub fn new() -> (res: Self)
        ensures
            res.wf(),
            res@ == initial_model(),
    {
        let mut code: Vec<u8> = Vec::new();
        let main_patch_pos = emit_bootstrap(&mut code);
        emit_prolog_helper(&mut code);
        emit_epilog_helper(&mut code);
        proof {
            assert(code@ =~= preamble_bytes());
        }
        let c = Compiler {
            code,
            dict: NameMap::new(),
            compiling: None,
            ctrl: Vec::new(),
            main_patch_pos,
            do_depth: 0,
            fwd_refs: NameMap::new(),
        };
        proof {
            assert(c@.fwd_refs =~= Map::<Seq<char>, Seq<usize>>::empty());
            assert(c@ == initial_model());
        }
        c
    }

    /// The current code length: where the next byte will go.
    pub fn here(&self) -> (res: usize)
        ensures
            res == self@.code.len(),
    {
        self.code.len()
    }

    /// The code emitted so far.
    pub fn code(&self) -> (res: &[u8])
        ensures
            res@ == self@.code,
    {
        self.code.as_slice()
    }

    /// The dictionary entry for `name`, if any.
    pub fn dict_get(&self, name: &str) -> (res: Option<DictEntry>)
        requires
            self.wf(),
        ensures
            res == (if self@.dict.dom().contains(name@) {
                Some(self@.dict[name@])
            } else {
                None
            }),
    {
        let n = str_chars(name);
        match self.dict.get(&n) {
            Some(e) => Some(*e),
            None => None,
        }
    }

    /// The finished bytecode.
    pub fn into_bytes(self) -> (res: Vec<u8>)
        ensures
            res@ == self@.code,
    {
        self.code
    }
}


impl Compiler {
    /// Appends `b`; nothing else changes.
    fn emit(&mut self, b: u8)
        requires
            old(self).wf(),
        ensures
            final(self).wf(),
            final(self)@ == old(self)@.emit(seq![b]),
    {
        emit1(&mut self.code, b);
        proof {
            lemma_emit_inv(old(self)@, seq![b]);
            assert(self@.code =~= old(self)@.emit(seq![b]).code);
        }
    }

    /// Appends `PUSH v`; nothing else changes.
    fn emit_push_long(&mut self, v: u32)
        requires
            old(self).wf(),
        ensures
            final(self).wf(),
            final(self)@ == old(self)@.emit(push_long(v)),
    {
        emit_push_long(&mut self.code, v);
        proof {
            lemma_emit_inv(old(self)@, push_long(v));
        }
    }

    /// Appends the shortest push of `n`; nothing else changes.
    fn emit_literal(&mut self, n: i64)
        requires
            old(self).wf(),
        ensures
            final(self).wf(),
            final(self)@ == old(self)@.emit(literal_bytes(n)),
    {
        emit_literal(&mut self.code, n);
        proof {
            lemma_emit_inv(old(self)@, literal_bytes(n));
        }
    }

    /// Appends a call of `addr`; nothing else changes.
    fn emit_call(&mut self, addr: u16)
        requires
            old(self).wf(),
        ensures
            final(self).wf(),
            final(self)@ == old(self)@.emit(call_bytes(addr)),
    {
        emit_call(&mut self.code, addr);
        proof {
            lemma_emit_inv(old(self)@, call_bytes(addr));
        }
    }

    /// Appends the per-word epilog.
    fn emit_epilog(&mut self)
        requires
            old(self).wf(),
        ensures
            final(self).wf(),
            final(self)@ == old(self)@.emit(epilog_bytes()),
    {
        emit_push_long(&mut self.code, crate::EPILOG_HELPER_ADDR as u32);
        emit1(&mut self.code, op::JUMP_ABS);
        proof {
            assert(self.code@ =~= old(self).code@ + epilog_bytes());
            lemma_emit_inv(old(self)@, epilog_bytes());
        }
    }

    /// Appends the per-word prolog.
    fn emit_prolog(&mut self)
        requires
            old(self).wf(),
        ensures
            final(self).wf(),
            final(self)@ == old(self)@.emit(prolog_bytes()),
    {
        emit_call(&mut self.code, crate::PROLOG_HELPER_ADDR);
        proof {
            lemma_emit_inv(old(self)@, prolog_bytes());
        }
    }

    /// Appends `PUSH` with four zero bytes to be patched later; returns the
    /// position of the four-byte slot.
    fn emit_placeholder_push(&mut self) -> (pos: usize)
        requires
            old(self).wf(),
        ensures
            final(self).wf(),
            final(self)@ == old(self)@.emit(seq![op::PUSH, 0, 0, 0, 0]),
            pos == old(self)@.code.len() + 1,
    {
        emit1(&mut self.code, op::PUSH);
        let pos = self.code.len();
        emit1(&mut self.code, 0);
        emit1(&mut self.code, 0);
        emit1(&mut self.code, 0);
        emit1(&mut self.code, 0);
        proof {
            assert(self.code@ =~= old(self).code@ + seq![op::PUSH, 0u8, 0, 0, 0]);
            lemma_emit_inv(old(self)@, seq![op::PUSH, 0, 0, 0, 0]);
        }
        pos
    }

    /// Opens a control structure.
    fn push_ctrl(&mut self, f: CtrlFrame)
        requires
            old(self).wf(),
            frame_ok(f, old(self)@.code.len()),
            frame_clear(f, old(self)@.fwd_refs),
            f is Do ==> count_do(old(self)@.ctrl) + 1 <= old(self)@.do_depth,
        ensures
            final(self).wf(),
            final(self)@ == old(self)@.push_frame(f),
    {
        self.ctrl.push(f);
        proof {
            lemma_push_frame_inv(old(self)@, f);
        }
    }

    /// Overwrites the four bytes at `pos` with `v`.
    fn write_u32_at(&mut self, pos: usize, v: u32)
        requires
            old(self).wf(),
            pos == 12 || crate::PREAMBLE_LEN <= pos,
            pos + 4 <= old(self)@.code.len(),
            clear_of_slots(pos as int, old(self)@.fwd_refs),
        ensures
            final(self).wf(),
            final(self)@ == old(self)@.patch(pos as int, v),
    {
        patch_u32(&mut self.code, pos, v);
        proof {
            lemma_patch_inv(old(self)@, pos as int, v);
        }
    }

    /// Writes the 32-bit two's-complement form of `v` at `pos`.
    fn write_i32_at(&mut self, pos: usize, v: i32)
        requires
            old(self).wf(),
            crate::PREAMBLE_LEN <= pos,
            pos + 4 <= old(self)@.code.len(),
            clear_of_slots(pos as int, old(self)@.fwd_refs),
            v >= 0,
        ensures
            final(self).wf(),
            final(self)@ == old(self)@.patch(pos as int, v as u32),
    {
        self.write_u32_at(pos, v as u32);
    }

    /// Closes the innermost control structure, or fails with `msg` when
    /// none is open.
    fn pop_ctrl(&mut self, msg: &str) -> (res: Result<CtrlFrame, String>)
        requires
            old(self).wf(),
        ensures
            final(self).wf(),
            old(self)@.ctrl.len() == 0 ==> final(self)@ == old(self)@ && res is Err && res->Err_0@ == msg@,
            old(self)@.ctrl.len() > 0 ==> final(self)@ == old(self)@.pop_frame() && res == Ok::<CtrlFrame, String>(old(self)@.ctrl.last()),
            old(self)@.ctrl.len() > 0 ==> frame_ok(old(self)@.ctrl.last(), old(self)@.code.len()),
            old(self)@.ctrl.len() > 0 ==> count_do(old(self)@.ctrl) == count_do(final(self)@.ctrl) + if old(self)@.ctrl.last() is Do { 1nat } else { 0nat },
    {
        if self.ctrl.len() == 0 {
            return Err(string_from(msg));
        }
        proof {
            lemma_pop_frame_inv(self@);
        }
        let f = self.ctrl.pop().unwrap();
        Ok(f)
    }

    /// `begin`: records the back-branch target.
    fn compile_begin(&mut self)
        requires
            old(self).wf(),
        ensures
            final(self).wf(),
            final(self)@ == old(self)@.push_frame(CtrlFrame::Begin { begin_pos: old(self)@.code.len() as usize }),
    {
        let begin_pos = self.code.len();
        self.push_ctrl(CtrlFrame::Begin { begin_pos });
    }

    /// `if`: conditional forward jump, patched by `else` or `then`.
    fn compile_if(&mut self)
        requires
            old(self).wf(),
        ensures
            final(self).wf(),
            final(self)@ == old(self)@.compile_if(),
    {
        self.emit(op::LOGICAL_NOT);
        let placeholder_pos = self.emit_placeholder_push();
        self.emit(op::MUL);
        self.emit(op::JUMP_REL);
        let body_start = self.code.len();
        proof {
            assert(self@.code =~= old(self)@.code + seq![op::LOGICAL_NOT, op::PUSH, 0, 0, 0, 0, op::MUL, op::JUMP_REL]);
        }
        self.push_ctrl(CtrlFrame::If { placeholder_pos, body_start });
    }
}


/// `prefix`, the decimal text of `n`, then `suffix`.
fn text_with_number(prefix: &str, n: i128, suffix: &str) -> (res: String)
    ensures
        res@ == prefix@ + crate::fmt::dec_text(n as int) + suffix@,
{
    let mut s = string_from(prefix);
    push_dec(&mut s, n);
    append_str(&mut s, suffix);
    s
}

/// `prefix`, the characters `name`, then `suffix`.
fn text_with_name(prefix: &str, name: &Vec<char>, suffix: &str) -> (res: String)
    ensures
        res@ == prefix@ + name@ + suffix@,
{
    let mut s = string_from(prefix);
    append_chars(&mut s, name);
    append_str(&mut s, suffix);
    s
}

impl Compiler {
    /// `else`: jump over the else-body; the `if` jump lands after it.
    fn compile_else(&mut self) -> (res: Result<(), String>)
        requires
            old(self).wf(),
        ensures
            final(self).wf(),
            final(self)@ == old(self)@.compile_else().0,
            outcome_matches(old(self)@.compile_else().1, res),
    {
        let frame = match self.pop_ctrl("`else` with no matching `if`") {
            Ok(f) => f,
            Err(e) => {
                return Err(e);
            },
        };
        match frame {
            CtrlFrame::If { placeholder_pos, body_start } => {
                let true_len = self.code.len() - body_start;
                let ghost m1 = self@;
                let ph2 = self.emit_placeholder_push();
                self.emit(op::JUMP_REL);
                let else_body_start = self.code.len();
                proof {
                    assert(self@.code =~= m1.emit(seq![op::PUSH, 0, 0, 0, 0, op::JUMP_REL]).code);
                }
                if true_len > 0x7FFF_FFF9 {
                    return Err(text_with_number("if-true-body too long: ", true_len as i128, " bytes"));
                }
                self.write_i32_at(placeholder_pos, (true_len + 6) as i32);
                self.push_ctrl(CtrlFrame::IfElse { placeholder_pos: ph2, else_body_start });
                Ok(())
            },
            _ => fail("`else` requires `if` on top of control stack"),
        }
    }

    /// `then`: the open `if` or `else` jump lands here.
    fn compile_then(&mut self) -> (res: Result<(), String>)
        requires
            old(self).wf(),
        ensures
            final(self).wf(),
            final(self)@ == old(self)@.compile_then().0,
            outcome_matches(old(self)@.compile_then().1, res),
    {
        let frame = match self.pop_ctrl("`then` with no matching `if`/`else`") {
            Ok(f) => f,
            Err(e) => {
                return Err(e);
            },
        };
        let (pos, start) = match frame {
            CtrlFrame::If { placeholder_pos, body_start } => (placeholder_pos, body_start),
            CtrlFrame::IfElse { placeholder_pos, else_body_start } => (placeholder_pos, else_body_start),
            _ => {
                return fail("`then` requires `if`/`else` on top");
            },
        };
        let len = self.code.len() - start;
        if len > 0x7FFF_FFFF {
            return Err(text_with_number("branch body too long: ", len as i128, " bytes"));
        }
        self.write_i32_at(pos, len as i32);
        Ok(())
    }

    /// A backward jump to `begin_pos`: the optional `LOGICAL_NOT`, a push of
    /// the offset in the shortest form, then the optional `MUL` and the jump.
    fn emit_back_jump(&mut self, begin_pos: usize, flip: bool, mul: bool, kw: &str) -> (res: Result<(), String>)
        requires
            old(self).wf(),
            begin_pos <= old(self)@.code.len(),
        ensures
            final(self).wf(),
            ({
                let prefix = if flip { seq![op::LOGICAL_NOT] } else { Seq::<u8>::empty() };
                let suffix = if mul { seq![op::MUL, op::JUMP_REL] } else { seq![op::JUMP_REL] };
                let r = old(self)@.back_jump(begin_pos as int, prefix, suffix, kw@);
                final(self)@ == r.0 && outcome_matches(r.1, res)
            }),
    {
        let ghost prefix = if flip { seq![op::LOGICAL_NOT] } else { Seq::<u8>::empty() };
        let ghost suffix = if mul { seq![op::MUL, op::JUMP_REL] } else { seq![op::JUMP_REL] };
        let here = self.code.len() as i128;
        let extra: i128 = (if flip { 1 } else { 0 }) + (if mul { 2 } else { 1 });
        let off_short = (begin_pos as i128) - (here + 2 + extra);
        if -128 <= off_short && off_short <= 127 {
            if flip {
                self.emit(op::LOGICAL_NOT);
            }
            self.emit(op::PUSH_SHORT);
            self.emit((off_short as i8) as u8);
            if mul {
                self.emit(op::MUL);
            }
            self.emit(op::JUMP_REL);
            proof {
                assert(self@.code =~= old(self)@.code + (prefix + seq![op::PUSH_SHORT, (off_short as i8) as u8] + suffix));
            }
            return Ok(());
        }
        let off_long = (begin_pos as i128) - (here + 5 + extra);
        if !(-0x8000_0000 <= off_long && off_long <= 0x7FFF_FFFF) {
            let mut s = string_from("`");
            append_str(&mut s, kw);
            append_str(&mut s, "` jump out of i32 range: ");
            push_dec(&mut s, off_long);
            return Err(s);
        }
        if flip {
            self.emit(op::LOGICAL_NOT);
        }
        self.emit_push_long((off_long as i32) as u32);
        if mul {
            self.emit(op::MUL);
        }
        self.emit(op::JUMP_REL);
        proof {
            assert(self@.code =~= old(self)@.code + (prefix + push_long((off_long as i32) as u32) + suffix));
        }
        Ok(())
    }

    /// Conditional back-jump: `[LOGICAL_NOT]; <push offset>; MUL; JUMP_REL`.
    /// `flip` adds the `LOGICAL_NOT` that `until` needs (loop while zero).
    fn emit_back_jump_mul(&mut self, begin_pos: usize, flip: bool, kw: &str) -> (res: Result<(), String>)
        requires
            old(self).wf(),
            begin_pos <= old(self)@.code.len(),
        ensures
            final(self).wf(),
            ({
                let prefix = if flip { seq![op::LOGICAL_NOT] } else { Seq::<u8>::empty() };
                let r = old(self)@.back_jump(begin_pos as int, prefix, seq![op::MUL, op::JUMP_REL], kw@);
                final(self)@ == r.0 && outcome_matches(r.1, res)
            }),
    {
        self.emit_back_jump(begin_pos, flip, true, kw)
    }

    /// Unconditional back-jump: `<push offset>; JUMP_REL`.
    fn emit_back_jump_uncond(&mut self, begin_pos: usize, kw: &str) -> (res: Result<(), String>)
        requires
            old(self).wf(),
            begin_pos <= old(self)@.code.len(),
        ensures
            final(self).wf(),
            ({
                let r = old(self)@.back_jump(begin_pos as int, Seq::empty(), seq![op::JUMP_REL], kw@);
                final(self)@ == r.0 && outcome_matches(r.1, res)
            }),
    {
        self.emit_back_jump(begin_pos, false, false, kw)
    }

    /// `until`: jump back to `begin` while the condition is zero.
    fn compile_until(&mut self) -> (res: Result<(), String>)
        requires
            old(self).wf(),
        ensures
            final(self).wf(),
            final(self)@ == old(self)@.compile_until().0,
            outcome_matches(old(self)@.compile_until().1, res),
    {
        let frame = match self.pop_ctrl("`until` with no matching `begin`") {
            Ok(f) => f,
            Err(e) => {
                return Err(e);
            },
        };
        match frame {
            CtrlFrame::Begin { begin_pos } => self.emit_back_jump_mul(begin_pos, true, "until"),
            _ => fail("`until` requires `begin` on top"),
        }
    }

    /// `again`: jump back to `begin` unconditionally.
    fn compile_again(&mut self) -> (res: Result<(), String>)
        requires
            old(self).wf(),
        ensures
            final(self).wf(),
            final(self)@ == old(self)@.compile_again().0,
            outcome_matches(old(self)@.compile_again().1, res),
    {
        let frame = match self.pop_ctrl("`again` with no matching `begin`") {
            Ok(f) => f,
            Err(e) => {
                return Err(e);
            },
        };
        match frame {
            CtrlFrame::Begin { begin_pos } => self.emit_back_jump_uncond(begin_pos, "again"),
            _ => fail("`again` requires `begin` on top"),
        }
    }
}


/// (index slot, limit slot) addresses of the do/loop at nesting `depth`.
fn do_slot_addrs(depth: usize) -> (res: (u32, u32))
    requires
        depth < crate::DO_LOOP_MAX_DEPTH,
    ensures
        res.0 == do_index_addr(depth as nat),
        res.1 == res.0 + 4,
{
    let index = crate::DO_LOOP_BASE + (depth as u32) * 8;
    (index, index + 4)
}

/// The opcode of a single-byte primitive; see [`single_op`].
fn single_op_of(tok: &Vec<char>) -> (res: Option<u8>)
    ensures
        res == single_op(tok@),
{
    if tok_is(tok, "+") {
        Some(op::ADD)
    } else if tok_is(tok, "*") {
        Some(op::MUL)
    } else if tok_is(tok, "and") {
        Some(op::AND)
    } else if tok_is(tok, "or") {
        Some(op::OR)
    } else if tok_is(tok, "xor") {
        Some(op::XOR)
    } else if tok_is(tok, "=") {
        Some(op::EQ)
    } else if tok_is(tok, "<>") {
        Some(op::NE)
    } else if tok_is(tok, "not") {
        Some(op::LOGICAL_NOT)
    } else if tok_is(tok, "invert") {
        Some(op::BITWISE_NOT)
    } else if tok_is(tok, "negate") {
        Some(op::NEG)
    } else if tok_is(tok, "drop") {
        Some(op::POP)
    } else if tok_is(tok, "@") {
        Some(op::LOAD_ABS)
    } else if tok_is(tok, "!") {
        Some(op::STORE_ABS)
    } else if tok_is(tok, "halt") {
        Some(op::HALT)
    } else if tok_is(tok, "syscall") {
        Some(op::SYSCALL)
    } else if tok_is(tok, "skip") {
        Some(op::SKIP)
    } else if tok_is(tok, "<") {
        Some(op::GT)
    } else if tok_is(tok, "<=") {
        Some(op::GE)
    } else if tok_is(tok, ">") {
        Some(op::LT)
    } else if tok_is(tok, ">=") {
        Some(op::LE)
    } else {
        None
    }
}

/// The opcode of a swap-then-op operator; see [`swap_op`].
fn swap_op_of(tok: &Vec<char>) -> (res: Option<u8>)
    ensures
        res == swap_op(tok@),
{
    if tok_is(tok, "/") {
        Some(op::DIV)
    } else if tok_is(tok, "mod") {
        Some(op::REM)
    } else if tok_is(tok, "lshift") {
        Some(op::SHL)
    } else if tok_is(tok, "rshift") {
        Some(op::SHR)
    } else {
        None
    }
}

impl Compiler {
    /// `do`: store start and limit in this depth's scratch slots.
    fn compile_do(&mut self) -> (res: Result<(), String>)
        requires
            old(self).wf(),
        ensures
            final(self).wf(),
            final(self)@ == old(self)@.compile_do().0,
            outcome_matches(old(self)@.compile_do().1, res),
    {
        if self.do_depth >= crate::DO_LOOP_MAX_DEPTH {
            return Err(
                text_with_number(
                    "`do` nesting too deep (max ",
                    crate::DO_LOOP_MAX_DEPTH as i128,
                    "); raise DO_LOOP_MAX_DEPTH if you need more",
                ),
            );
        }
        let depth = self.do_depth;
        let (index_addr, limit_addr) = do_slot_addrs(depth);
        self.emit_push_long(index_addr);
        self.emit(op::STORE_ABS);
        self.emit_push_long(limit_addr);
        self.emit(op::STORE_ABS);
        let ghost m1 = self@;
        proof {
            assert(index_addr == do_index_addr(depth as nat));
            assert(self@.code =~= old(self)@.code + (push_long(index_addr) + seq![op::STORE_ABS]
                + push_long(limit_addr) + seq![op::STORE_ABS]));
        }
        self.do_depth = depth + 1;
        proof {
            assert(self@.inv()) by {
                assert forall|i: int| 0 <= i < self@.ctrl.len() implies frame_ok(
                    #[trigger] self@.ctrl[i],
                    self@.code.len(),
                ) by {
                    assert(frame_ok(m1.ctrl[i], m1.code.len()));
                }
                assert forall|k: Seq<char>, j: int|
                    #![trigger self@.fwd_refs[k][j]]
                    self@.fwd_refs.dom().contains(k) && 0 <= j < self@.fwd_refs[k].len()
                        implies self@.fwd_refs[k][j] + 4 <= self@.code.len() by {
                    assert(m1.fwd_refs[k][j] + 4 <= m1.code.len());
                }
            }
        }
        let begin_pos = self.code.len();
        self.push_ctrl(CtrlFrame::Do { begin_pos, depth });
        Ok(())
    }

    /// `loop`: advance the index; jump back while it is below the limit.
    fn compile_loop(&mut self) -> (res: Result<(), String>)
        requires
            old(self).wf(),
        ensures
            final(self).wf(),
            final(self)@ == old(self)@.compile_loop().0,
            outcome_matches(old(self)@.compile_loop().1, res),
    {
        let frame = match self.pop_ctrl("`loop` with no matching `do`") {
            Ok(f) => f,
            Err(e) => {
                return Err(e);
            },
        };
        match frame {
            CtrlFrame::Do { begin_pos, depth } => {
                let ghost m0 = self@;
                self.do_depth = self.do_depth - 1;
                proof {
                    assert(self@.inv()) by {
                        assert forall|i: int| 0 <= i < self@.ctrl.len() implies frame_ok(
                            #[trigger] self@.ctrl[i],
                            self@.code.len(),
                        ) by {
                            assert(frame_ok(m0.ctrl[i], m0.code.len()));
                        }
                        assert forall|k: Seq<char>, j: int|
                            #![trigger self@.fwd_refs[k][j]]
                            self@.fwd_refs.dom().contains(k) && 0 <= j < self@.fwd_refs[k].len()
                                implies crate::PREAMBLE_LEN <= self@.fwd_refs[k][j] && self@.fwd_refs[k][j] + 4 <= self@.code.len() by {
                            assert(m0.fwd_refs[k][j] + 4 <= m0.code.len());
                        }
                    }
                }
                let ghost m1 = self@;
                let (index_addr, limit_addr) = do_slot_addrs(depth);
                self.emit_push_long(index_addr);
                self.emit(op::LOAD_ABS);
                self.emit(op::PUSH_SHORT);
                self.emit(1);
                self.emit(op::ADD);
                self.emit(op::PUSH_SHORT);
                self.emit(0xFC);
                self.emit(op::LOAD_SP_REL);
                self.emit_push_long(index_addr);
                self.emit(op::STORE_ABS);
                self.emit_push_long(limit_addr);
                self.emit(op::LOAD_ABS);
                self.emit(op::GT);
                proof {
                    assert(index_addr == do_index_addr(depth as nat));
                    assert(self@.code =~= m1.code + CompilerModel::loop_step_bytes(depth as nat));
                }
                self.emit_back_jump_mul(begin_pos, false, "loop")
            },
            _ => fail("`loop` requires `do` on top"),
        }
    }

    /// `i`: push the innermost loop's index.
    fn compile_i(&mut self) -> (res: Result<(), String>)
        requires
            old(self).wf(),
        ensures
            final(self).wf(),
            final(self)@ == old(self)@.compile_i().0,
            outcome_matches(old(self)@.compile_i().1, res),
    {
        if self.do_depth == 0 {
            return fail("`i` used outside of a `do`/`loop`");
        }
        let (index_addr, _) = do_slot_addrs(self.do_depth - 1);
        self.emit_push_long(index_addr);
        self.emit(op::LOAD_ABS);
        proof {
            assert(index_addr == do_index_addr((old(self)@.do_depth - 1) as nat));
            assert(self@.code =~= old(self)@.code + (push_long(index_addr) + seq![op::LOAD_ABS]));
        }
        Ok(())
    }

    /// Appends `PUSH 0; CALL_ABS`, a call whose address is patched later;
    /// returns the position of the address slot.
    fn emit_call_placeholder(&mut self) -> (pos: usize)
        requires
            old(self).wf(),
        ensures
            final(self).wf(),
            final(self)@ == old(self)@.emit(seq![op::PUSH, 0, 0, 0, 0, op::CALL_ABS]),
            pos == old(self)@.code.len() + 1,
    {
        let pos = self.emit_placeholder_push();
        self.emit(op::CALL_ABS);
        proof {
            assert(self@.code =~= old(self)@.code + seq![op::PUSH, 0, 0, 0, 0, op::CALL_ABS]);
        }
        pos
    }

    /// A call of a name not yet defined: emit a placeholder call and record
    /// its slot.
    fn compile_forward_call(&mut self, name: &Vec<char>)
        requires
            old(self).wf(),
            !old(self)@.dict.dom().contains(name@),
        ensures
            final(self).wf(),
            final(self)@ == old(self)@.compile_forward_call(name@),
    {
        let pos = self.emit_call_placeholder();
        let ghost m1 = self@;
        let mut slots = match self.fwd_refs.remove(name) {
            Some(v) => v,
            None => Vec::new(),
        };
        slots.push(pos);
        let ghost new_slots = slots@;
        self.fwd_refs.insert(copy_chars(name), slots);
        proof {
            assert(self@.fwd_refs =~= m1.fwd_refs.insert(name@, new_slots));
            assert(self@ == old(self)@.compile_forward_call(name@));
            crate::laws::lemma_forward_call_step(old(self)@, name@);
        }
    }
}


/// The characters of an optional token.
pub open spec fn opt_view(o: Option<&Vec<char>>) -> Option<Seq<char>> {
    match o {
        Some(v) => Some(v@),
        None => None,
    }
}

impl Compiler {
    /// Whether `swap` is defined as a word, as the swap-based operators need.
    fn swap_is_word(&self) -> (res: bool)
        requires
            self.wf(),
        ensures
            res == self@.swap_is_word(),
    {
        let swap = str_chars("swap");
        match self.dict.get(&swap) {
            Some(DictEntry::Word(_)) => true,
            _ => false,
        }
    }

    /// Emits a call to the prelude's `swap`, which `/`, `mod`, `lshift` and
    /// `rshift` use to put their operands in the VM's order.
    fn emit_swap_call(&mut self)
        requires
            old(self).wf(),
            old(self)@.swap_is_word(),
        ensures
            final(self).wf(),
            final(self)@ == old(self)@.emit(call_bytes(old(self)@.dict["swap"@]->Word_0)),
    {
        let swap = str_chars("swap");
        match self.dict.get(&swap) {
            Some(DictEntry::Word(addr)) => {
                let addr = *addr;
                self.emit_call(addr);
            },
            _ => {
                proof {
                    assert(false);
                }
            },
        }
    }

    /// Compiles `tok` if it is a primitive and says whether it was one.
    fn try_primitive(&mut self, tok: &Vec<char>) -> (res: bool)
        requires
            old(self).wf(),
            swap_op(tok@) is Some ==> old(self)@.swap_is_word(),
        ensures
            final(self).wf(),
            res == is_primitive(tok@),
            res ==> final(self)@ == old(self)@.emit(old(self)@.primitive_code(tok@)),
            !res ==> final(self)@ == old(self)@,
    {
        if let Some(b) = single_op_of(tok) {
            self.emit(b);
            return true;
        }
        self.try_compound_primitive(tok)
    }

    /// The primitives of more than one byte: `-`, the swap-based operators,
    /// `dup` and `over`.
    fn try_compound_primitive(&mut self, tok: &Vec<char>) -> (res: bool)
        requires
            old(self).wf(),
            single_op(tok@) is None,
            swap_op(tok@) is Some ==> old(self)@.swap_is_word(),
        ensures
            final(self).wf(),
            res == is_primitive(tok@),
            res ==> final(self)@ == old(self)@.emit(old(self)@.primitive_code(tok@)),
            !res ==> final(self)@ == old(self)@,
    {
        if tok_is(tok, "-") {
            self.emit(op::SUB);
            self.emit(op::NEG);
            proof {
                assert(self@.code =~= old(self)@.code + seq![op::SUB, op::NEG]);
            }
            return true;
        }
        if let Some(b) = swap_op_of(tok) {
            self.emit_swap_call();
            self.emit(b);
            proof {
                assert(self@.code =~= old(self)@.code + old(self)@.primitive_code(tok@));
            }
            return true;
        }
        if tok_is(tok, "dup") {
            self.emit(op::PUSH_SHORT);
            self.emit(0xFC);
            self.emit(op::LOAD_SP_REL);
            proof {
                assert(self@.code =~= old(self)@.code + seq![op::PUSH_SHORT, 0xFC, op::LOAD_SP_REL]);
            }
            return true;
        }
        if tok_is(tok, "over") {
            self.emit(op::PUSH_SHORT);
            self.emit(0xF8);
            self.emit(op::LOAD_SP_REL);
            proof {
                assert(self@.code =~= old(self)@.code + seq![op::PUSH_SHORT, 0xF8, op::LOAD_SP_REL]);
            }
            return true;
        }
        false
    }

    /// Compiles one token inside a word body.
    fn compile_token(&mut self, tok: &Vec<char>) -> (res: Option<Result<(), String>>)
        requires
            old(self).wf(),
        ensures
            final(self).wf(),
            final(self)@ == old(self)@.compile_token(tok@).0,
            checked_outcome_matches(old(self)@.compile_token(tok@).1, res),
    {
        // 1. Numeric literal.
        if let Some(n) = parse_number_chars(tok) {
            self.emit_literal(n);
            return Some(Ok(()));
        }
        // 2. Control-flow keyword.
        if tok_is(tok, "exit") {
            self.emit_epilog();
            return Some(Ok(()));
        }
        if tok_is(tok, "if") {
            self.compile_if();
            return Some(Ok(()));
        }
        if tok_is(tok, "else") {
            return Some(self.compile_else());
        }
        if tok_is(tok, "then") {
            return Some(self.compile_then());
        }
        if tok_is(tok, "begin") {
            self.compile_begin();
            return Some(Ok(()));
        }
        if tok_is(tok, "until") {
            return Some(self.compile_until());
        }
        if tok_is(tok, "again") {
            return Some(self.compile_again());
        }
        if tok_is(tok, "do") {
            return Some(self.compile_do());
        }
        if tok_is(tok, "loop") {
            return Some(self.compile_loop());
        }
        if tok_is(tok, "i") {
            return Some(self.compile_i());
        }
        // 3. Primitive.
        if swap_op_of(tok).is_some() && !self.swap_is_word() {
            return None;
        }
        if self.try_primitive(tok) {
            return Some(Ok(()));
        }
        // 4. A defined word or value.
        match self.dict.get(tok) {
            Some(DictEntry::Word(addr)) => {
                let addr = *addr;
                self.emit_call(addr);
                return Some(Ok(()));
            },
            Some(DictEntry::Value(v)) => {
                let v = *v;
                self.emit_literal(v);
                return Some(Ok(()));
            },
            None => {},
        }
        // 5. A forward reference to a word defined later.
        self.compile_forward_call(tok);
        Some(Ok(()))
    }

    /// Fills every slot in `slots` with `v`.
    fn patch_all(&mut self, slots: &Vec<usize>, v: u32)
        requires
            old(self).wf(),
            forall|j: int| 0 <= j < slots@.len() ==> crate::PREAMBLE_LEN <= #[trigger] slots@[j] && slots@[j] + 4 <= old(self)@.code.len(),
            forall|j: int| 0 <= j < slots@.len() ==> clear_of_slots(#[trigger] slots@[j] as int, old(self)@.fwd_refs),
        ensures
            final(self).wf(),
            final(self)@ == (CompilerModel { code: write_u32_all(old(self)@.code, slots@, v), ..old(self)@ }),
            final(self)@.code.len() == old(self)@.code.len(),
    {
        let mut j: usize = 0;
        proof {
            assert(slots@.skip(0) =~= slots@);
        }
        while j < slots.len()
            invariant
                j <= slots@.len(),
                self.wf(),
                self@.code.len() == old(self)@.code.len(),
                forall|q: int| 0 <= q < slots@.len() ==> crate::PREAMBLE_LEN <= #[trigger] slots@[q] && slots@[q] + 4 <= old(self)@.code.len(),
                forall|q: int| 0 <= q < slots@.len() ==> clear_of_slots(#[trigger] slots@[q] as int, old(self)@.fwd_refs),
                self@ == (CompilerModel { code: self@.code, ..old(self)@ }),
                write_u32_all(self@.code, slots@.skip(j as int), v) == write_u32_all(old(self)@.code, slots@, v),
            decreases slots.len() - j,
        {
            let ghost before = self@.code;
            assert(slots@[j as int] + 4 <= old(self)@.code.len());
            assert(clear_of_slots(slots@[j as int] as int, old(self)@.fwd_refs));
            self.write_u32_at(slots[j], v);
            proof {
                let rest = slots@.skip(j as int);
                assert(rest[0] == slots@[j as int]);
                assert(rest.drop_first() =~= slots@.skip(j + 1));
            }
            j += 1;
        }
        proof {
            assert(slots@.skip(j as int) =~= Seq::<usize>::empty());
        }
    }

    /// Patches every call slot waiting for `name` with its address `addr`.
    fn resolve_fwd_refs(&mut self, name: &Vec<char>, addr: u16)
        requires
            old(self).wf(),
        ensures
            final(self).wf(),
            final(self)@ == old(self)@.resolve_forward(name@, addr),
            final(self)@.code.len() == old(self)@.code.len(),
    {
        let ghost m1 = self@;
        match self.fwd_refs.remove(name) {
            Some(slots) => {
                let ghost m_removed = self@;
                proof {
                    assert(m_removed.fwd_refs =~= m1.fwd_refs.remove(name@));
                    assert(slots@ == m1.fwd_refs[name@]);
                    assert forall|j: int| 0 <= j < slots@.len() implies crate::PREAMBLE_LEN <= #[trigger] slots@[j] && slots@[j] + 4 <= m1.code.len() by {
                        assert(m1.fwd_refs[name@][j] + 4 <= m1.code.len());
                    }
                    crate::model::lemma_drop_slots_inv(m1, name@);
                    assert(self@ == (CompilerModel { fwd_refs: m1.fwd_refs.remove(name@), ..m1 }));
                    assert forall|j: int| 0 <= j < slots@.len() implies clear_of_slots(
                        #[trigger] slots@[j] as int,
                        self@.fwd_refs,
                    ) by {
                        assert(slots@[j] == m1.fwd_refs[name@][j]);
                    }
                }
                self.patch_all(&slots, addr as u32);
            },
            None => {
                proof {
                    assert(self@.fwd_refs =~= m1.fwd_refs);
                }
            },
        }
    }

    /// `: name`: open a definition of `name` here.
    fn handle_colon(&mut self, name: Option<&Vec<char>>) -> (res: Result<(), String>)
        requires
            old(self).wf(),
        ensures
            final(self).wf(),
            final(self)@ == old(self)@.compile_colon(opt_view(name)).0,
            outcome_matches(old(self)@.compile_colon(opt_view(name)).1, res),
    {
        if self.compiling.is_some() {
            return fail("nested `:` is not allowed");
        }
        let name = match name {
            Some(n) => n,
            None => {
                return fail("`:` needs a name");
            },
        };
        if self.code.len() > 0xFFFF {
            return fail("binary already exceeds 64 KB before defining word");
        }
        let addr = self.code.len() as u16;
        let ghost m1 = CompilerModel { dict: old(self)@.dict.insert(name@, DictEntry::Word(addr)), ..old(self)@ };
        self.resolve_fwd_refs(name, addr);
        let ghost m_resolved = self@;
        let ghost m2 = m1.resolve_forward(name@, addr);
        proof {
            assert(!m_resolved.fwd_refs.dom().contains(name@));
        }
        self.compiling = Some(copy_chars(name));
        proof {
            assert(self@.inv()) by {
                assert forall|k: Seq<char>|
                    #[trigger] self@.dict.dom().contains(k) && self@.dict[k] is Word implies crate::model::word_placed(
                        self@.dict[k]->Word_0 as int,
                        self@.code.len() as int,
                        self@.compiling != Some(k),
                    ) by {
                    assert(m_resolved.dict.dom().contains(k));
                }
            }
        }
        self.emit_prolog();
        let ghost m3 = self@;
        self.dict.insert(copy_chars(name), DictEntry::Word(addr));
        proof {
            assert(self@ == CompilerModel { compiling: Some(name@), ..m2 }.emit(prolog_bytes()));
            assert(self@.inv()) by {
                assert forall|k: Seq<char>| #[trigger] self@.fwd_refs.dom().contains(k) implies !self@.dict.dom().contains(k) by {
                    assert(m_resolved.fwd_refs.dom().contains(k));
                    assert(!m_resolved.dict.dom().contains(k));
                }
                assert forall|k: Seq<char>|
                    #[trigger] self@.dict.dom().contains(k) && self@.dict[k] is Word implies crate::model::word_placed(
                        self@.dict[k]->Word_0 as int,
                        self@.code.len() as int,
                        self@.compiling != Some(k),
                    ) by {
                    assert(prolog_bytes().len() == crate::PROLOG_LEN);
                    assert(self@.code.len() == addr + crate::PROLOG_LEN);
                    if k != name@ {
                        assert(m3.dict.dom().contains(k));
                    }
                }
            }
        }
        Ok(())
    }

    /// `variable name`: reserve four zero bytes for `name`.
    fn handle_variable(&mut self, name: Option<&Vec<char>>) -> (res: Result<(), String>)
        requires
            old(self).wf(),
        ensures
            final(self).wf(),
            final(self)@ == old(self)@.compile_variable(opt_view(name)).0,
            outcome_matches(old(self)@.compile_variable(opt_view(name)).1, res),
    {
        if self.compiling.is_some() {
            return fail("`variable` not allowed inside a word definition");
        }
        let name = match name {
            Some(n) => n,
            None => {
                return fail("`variable` needs a name");
            },
        };
        proof {
            assert(self@.fwd_refs.dom() =~= self.fwd_refs@.dom());
        }
        if self.fwd_refs.contains(name) {
            let mut s = string_from("`");
            append_chars(&mut s, name);
            append_str(&mut s, "` was forward-referenced as a word but is being defined as a ");
            append_str(&mut s, "variable");
            return Err(s);
        }
        let addr = self.code.len();
        if addr > 0xFFFF - 4 {
            return fail("not enough space to allocate variable");
        }
        self.emit(0);
        self.emit(0);
        self.emit(0);
        self.emit(0);
        proof {
            assert(self@.code =~= old(self)@.code + seq![0u8, 0, 0, 0]);
        }
        self.dict.insert(copy_chars(name), DictEntry::Value(addr as i64));
        Ok(())
    }

    /// `constant name value`: `name` pushes `value`.
    fn handle_constant(&mut self, name: Option<&Vec<char>>, value: Option<&Vec<char>>) -> (res: Result<(), String>)
        requires
            old(self).wf(),
        ensures
            final(self).wf(),
            final(self)@ == old(self)@.compile_constant(opt_view(name), opt_view(value)).0,
            outcome_matches(old(self)@.compile_constant(opt_view(name), opt_view(value)).1, res),
    {
        if self.compiling.is_some() {
            return fail("`constant` not allowed inside a word definition");
        }
        let name = match name {
            Some(n) => n,
            None => {
                return fail("`constant` needs a name");
            },
        };
        let value_tok = match value {
            Some(v) => v,
            None => {
                return fail("`constant` needs a value");
            },
        };
        let value = match parse_number_chars(value_tok) {
            Some(v) => v,
            None => {
                return Err(text_with_name("`constant`: bad value `", value_tok, "`"));
            },
        };
        proof {
            assert(self@.fwd_refs.dom() =~= self.fwd_refs@.dom());
        }
        if self.fwd_refs.contains(name) {
            let mut s = string_from("`");
            append_chars(&mut s, name);
            append_str(&mut s, "` was forward-referenced as a word but is being defined as a ");
            append_str(&mut s, "constant");
            return Err(s);
        }
        self.dict.insert(copy_chars(name), DictEntry::Value(value));
        Ok(())
    }

    /// `;`: close the open definition.
    fn handle_semicolon(&mut self) -> (res: Result<(), String>)
        requires
            old(self).wf(),
        ensures
            final(self).wf(),
            final(self)@ == old(self)@.compile_semicolon().0,
            outcome_matches(old(self)@.compile_semicolon().1, res),
    {
        if self.compiling.is_none() {
            return fail("`;` with no matching `:`");
        }
        if self.ctrl.len() != 0 {
            return fail("`;` while a control block is open (if without then?)");
        }
        self.emit_epilog();
        self.compiling = None;
        Ok(())
    }
}


impl Compiler {
    /// Compiles a chunk of source, as [`Compiler::compile`] does, and
    /// returns `None` where that cannot go on (see [`Outcome::Aborted`]):
    /// then the tokens before the offending one have been compiled.
    pub fn try_compile(&mut self, src: &str) -> (res: Option<Result<(), String>>)
        requires
            old(self).wf(),
        ensures
            final(self).wf(),
            final(self)@ == old(self)@.compile_source(src@).0,
            checked_outcome_matches(old(self)@.compile_source(src@).1, res),
    {
        let chars = str_chars(src);
        let toks = tokenize_chars(&chars);
        let ghost ts = views_of(toks@);
        let ghost goal = old(self)@.run(ts, 0);
        let mut i: usize = 0;
        while i < toks.len()
            invariant
                self.wf(),
                i <= toks.len(),
                ts == views_of(toks@),
                ts == crate::lexer::tokens_of(src@),
                goal == old(self)@.compile_source(src@),
                ts.len() == toks@.len(),
                self@.run(ts, i as int) == goal,
            decreases toks.len() - i,
        {
            let tok = &toks[i];
            proof {
                assert(ts[i as int] == tok@);
                if i + 1 < toks.len() {
                    assert(ts[i + 1] == toks@[i + 1]@);
                }
                if i + 2 < toks.len() {
                    assert(ts[i + 2] == toks@[i + 2]@);
                }
            }
            let next = if i + 1 < toks.len() { Some(&toks[i + 1]) } else { None };
            proof {
                assert(opt_view(next) == (if i + 1 < ts.len() { Some(ts[i + 1]) } else { None::<Seq<char>> }));
            }
            if tok_is(tok, ":") {
                match self.handle_colon(next) {
                    Ok(()) => {},
                    Err(e) => {
                        return Some(Err(e));
                    },
                }
                i += 2;
            } else if tok_is(tok, "variable") {
                match self.handle_variable(next) {
                    Ok(()) => {},
                    Err(e) => {
                        return Some(Err(e));
                    },
                }
                i += 2;
            } else if tok_is(tok, "constant") {
                let after = if toks.len() - i > 2 { Some(&toks[i + 2]) } else { None };
                proof {
                    assert(opt_view(after) == (if i + 2 < ts.len() { Some(ts[i + 2]) } else { None::<Seq<char>> }));
                }
                match self.handle_constant(next, after) {
                    Ok(()) => {},
                    Err(e) => {
                        return Some(Err(e));
                    },
                }
                i += 3;
            } else if tok_is(tok, ";") {
                match self.handle_semicolon() {
                    Ok(()) => {},
                    Err(e) => {
                        return Some(Err(e));
                    },
                }
                i += 1;
            } else {
                if self.compiling.is_none() {
                    return Some(Err(
                        text_with_name(
                            "token `",
                            tok,
                            "` outside of a word definition (wrap your code in `: main ... ;`)",
                        ),
                    ));
                }
                match self.compile_token(tok) {
                    Some(Ok(())) => {},
                    other => {
                        return other;
                    },
                }
                i += 1;
            }
        }
        Some(Ok(()))
    }

    /// Compiles a chunk of source. May be called repeatedly to append to
    /// the same program; call `finalize` once after the last chunk.
    pub fn compile(&mut self, src: &str) -> (res: Result<(), String>)
        requires
            old(self).wf(),
            !(old(self)@.compile_source(src@).1 is Aborted),
        ensures
            final(self).wf(),
            final(self)@ == old(self)@.compile_source(src@).0,
            outcome_matches(old(self)@.compile_source(src@).1, res),
    {
        match self.try_compile(src) {
            Some(r) => r,
            None => {
                proof {
                    assert(false);
                }
                Ok(())
            },
        }
    }

    /// Patches `main`'s address into the bootstrap and checks that the
    /// program is complete and small enough. Call once after all `compile`
    /// calls.
    pub fn finalize(&mut self) -> (res: Result<(), String>)
        requires
            old(self).wf(),
        ensures
            final(self).wf(),
            final(self)@ == old(self)@.finalize().0,
            outcome_matches(old(self)@.finalize().1, res),
    {
        if let Some(name) = &self.compiling {
            return Err(text_with_name("unclosed definition: `", name, "` missing `;`"));
        }
        proof {
            assert(self@.fwd_refs.dom() =~= self.fwd_refs@.dom());
        }
        if !self.fwd_refs.is_empty() {
            let names = self.fwd_refs.name_list();
            proof {
                self.fwd_refs.lemma_names();
            }
            let sorted = sort_names(names);
            let ghost sv = sorted@.map_values(|v: Vec<char>| v@);
            let ghost dom = self@.fwd_refs.dom();
            proof {
                assert(strictly_sorted(sv) && sv.to_set() == dom);
                let chosen = sorted_listing(dom);
                assert(strictly_sorted(chosen) && chosen.to_set() == dom);
                lemma_sorted_listing_unique(sv, chosen);
            }
            let mut s = string_from("unresolved forward references: ");
            let ghost prefix = s@;
            let mut j: usize = 0;
            while j < sorted.len()
                invariant
                    j <= sorted@.len(),
                    sv == sorted@.map_values(|v: Vec<char>| v@),
                    s@ == prefix + quoted_list(sv.subrange(0, j as int)),
                decreases sorted.len() - j,
            {
                let ghost before = s@;
                if j > 0 {
                    append_str(&mut s, ", ");
                }
                append_str(&mut s, "`");
                append_chars(&mut s, &sorted[j]);
                append_str(&mut s, "`");
                proof {
                    let sub = sv.subrange(0, j + 1);
                    assert(sub.last() == sorted@[j as int]@);
                    if j > 0 {
                        assert(sub.drop_last() =~= sv.subrange(0, j as int));
                        assert(s@ =~= prefix + quoted_list(sub));
                    } else {
                        assert(sub[0] == sorted@[0]@);
                        assert(sv.subrange(0, 0) =~= Seq::<Seq<char>>::empty());
                        assert(s@ =~= prefix + quoted_list(sub));
                    }
                }
                j += 1;
            }
            proof {
                assert(sv.subrange(0, j as int) =~= sv);
            }
            return Err(s);
        }
        let main_name = str_chars("main");
        let main_addr = match self.dict.get(&main_name) {
            Some(DictEntry::Word(a)) => *a,
            Some(DictEntry::Value(_)) => {
                return fail("`main` must be a word (`: main ... ;`), not a constant/variable");
            },
            None => {
                return fail("no `main` word defined");
            },
        };
        self.write_u32_at(self.main_patch_pos, main_addr as u32);
        if self.code.len() > crate::MAX_CODE_END {
            let mut s = string_from("binary too large: ");
            push_dec(&mut s, self.code.len() as i128);
            append_str(&mut s, " bytes (max ");
            push_dec(&mut s, crate::MAX_CODE_END as i128);
            append_str(&mut s, " = 0x");
            push_hex(&mut s, crate::MAX_CODE_END as u128, 4);
            append_str(
                &mut s,
                "; higher would let the return stack at 0x7000..0x7FC4 overwrite code/data at runtime)",
            );
            return Err(s);
        }
        Ok(())
    }
}

impl Default for Compiler {
    fn default() -> (res: Self)
        ensures
            res.wf(),
            res@ == initial_model(),
    {
        Self::new()
    }
}

} // verus!





