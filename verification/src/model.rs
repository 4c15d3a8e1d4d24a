//! The compiler's abstract state and the meaning of compiling each token,
//! stated over that state. The executable compiler in `compiler.rs` is
//! proved to follow these definitions exactly.
use vstd::prelude::*;
use crate::encode::{
    call_bytes, epilog_bytes, literal_bytes, preamble_bytes, prolog_bytes, push_long, write_u32,
    write_u32_all,
};
use crate::fmt::dec_text;
use crate::lexer::{number_value, tokens_of};
use crate::names::sorted_listing;
use crate::op;

verus! {

/// A name's meaning in the dictionary: words compile to a call, values
/// (variables and constants) to a literal push.
#[derive(Clone, Copy, Debug, PartialEq, Eq, Structural)]
pub enum DictEntry {
    Word(u16),
    Value(i64),
}

/// One open control structure: each opening keyword (`if`, `begin`, `do`)
/// pushes a frame and the matching closing keyword pops it.
#[derive(Clone, Copy, Debug, PartialEq, Eq, Structural)]
pub enum CtrlFrame {
    /// After `if`: the 4-byte slot of its jump offset, and where its body
    /// starts.
    If { placeholder_pos: usize, body_start: usize },
    /// After `else`: the 4-byte slot of the jump over the else-body, and
    /// where that body starts.
    IfElse { placeholder_pos: usize, else_body_start: usize },
    /// After `begin`: the back-branch target.
    Begin { begin_pos: usize },
    /// After `do`: the back-branch target and the loop's nesting depth.
    Do { begin_pos: usize, depth: usize },
}

/// How a run of the compiler ends.
pub enum Outcome {
    /// Every token was compiled.
    Done,
    /// Compilation stopped with this error message.
    Failed(Seq<char>),
    /// The input reaches a case where the compiler cannot go on: a
    /// swap-based operator (`/`, `mod`, `lshift`, `rshift`) while `swap` is
    /// not a word.
    Aborted,
}

/// The compiler's state.
pub struct CompilerModel {
    /// The bytecode emitted so far.
    pub code: Seq<u8>,
    /// Words, variables and constants.
    pub dict: Map<Seq<char>, DictEntry>,
    /// The name of the word being defined, if a `:` is open.
    pub compiling: Option<Seq<char>>,
    /// Open control structures, innermost last.
    pub ctrl: Seq<CtrlFrame>,
    /// Number of `do` loops opened and not yet closed by `loop`.
    pub do_depth: nat,
    /// Call slots awaiting the address of a word not yet defined.
    pub fwd_refs: Map<Seq<char>, Seq<usize>>,
}

/// Address of the index slot of the do/loop at `depth`.
pub open spec fn do_index_addr(depth: nat) -> u32 {
    (crate::DO_LOOP_BASE + 8 * depth) as u32
}

/// Number of `do` frames in `ctrl`.
pub open spec fn count_do(ctrl: Seq<CtrlFrame>) -> nat
    decreases ctrl.len(),
{
    if ctrl.len() == 0 {
        0
    } else {
        count_do(ctrl.drop_last()) + if ctrl.last() is Do { 1nat } else { 0nat }
    }
}

/// A frame's recorded positions lie within code of length `len`.
pub open spec fn frame_ok(f: CtrlFrame, len: nat) -> bool {
    match f {
        CtrlFrame::If { placeholder_pos, body_start } => crate::PREAMBLE_LEN <= placeholder_pos
            && placeholder_pos + 4 <= body_start <= len,
        CtrlFrame::IfElse { placeholder_pos, else_body_start } => crate::PREAMBLE_LEN
            <= placeholder_pos && placeholder_pos + 4 <= else_body_start <= len,
        CtrlFrame::Begin { begin_pos } => begin_pos <= len,
        CtrlFrame::Do { begin_pos, depth } => begin_pos <= len && depth < crate::DO_LOOP_MAX_DEPTH,
    }
}

/// The pending call slots never overlap: any two of them, of the same name
/// or of two names, lie at least four bytes apart.
pub open spec fn slots_apart(f: Map<Seq<char>, Seq<usize>>) -> bool {
    forall|k1: Seq<char>, j1: int, k2: Seq<char>, j2: int|
        #![trigger f[k1][j1], f[k2][j2]]
        f.dom().contains(k1) && f.dom().contains(k2) && 0 <= j1 < f[k1].len() && 0 <= j2 < f[k2].len()
            && (k1 != k2 || j1 != j2) ==> f[k1][j1] + 4 <= f[k2][j2] || f[k2][j2] + 4 <= f[k1][j1]
}

/// A word at `addr` in code of length `len`: after the preamble, with its
/// prolog emitted, and with its epilog too once it is closed.
pub open spec fn word_placed(addr: int, len: int, closed: bool) -> bool {
    &&& crate::PREAMBLE_LEN <= addr
    &&& addr + crate::PROLOG_LEN <= len
    &&& closed ==> addr + crate::PROLOG_LEN + crate::EPILOG_LEN <= len
}

/// Every pending call slot still holds its four zero placeholder bytes.
pub open spec fn slots_zero(code: Seq<u8>, f: Map<Seq<char>, Seq<usize>>) -> bool {
    forall|k: Seq<char>, j: int|
        #![trigger f[k][j]]
        f.dom().contains(k) && 0 <= j < f[k].len() ==> code.subrange(f[k][j] as int, f[k][j] + 4) == seq![
            0u8,
            0,
            0,
            0,
        ]
}

/// The four bytes at `pos` overlap no pending call slot.
pub open spec fn clear_of_slots(pos: int, f: Map<Seq<char>, Seq<usize>>) -> bool {
    forall|k: Seq<char>, j: int|
        #![trigger f[k][j]]
        f.dom().contains(k) && 0 <= j < f[k].len() ==> pos + 4 <= f[k][j] || f[k][j] + 4 <= pos
}

/// An open jump's placeholder overlaps no pending call slot.
pub open spec fn frame_clear(fr: CtrlFrame, f: Map<Seq<char>, Seq<usize>>) -> bool {
    match fr {
        CtrlFrame::If { placeholder_pos, .. } => clear_of_slots(placeholder_pos as int, f),
        CtrlFrame::IfElse { placeholder_pos, .. } => clear_of_slots(placeholder_pos as int, f),
        _ => true,
    }
}

// ---------------------------------------------------------------------------
// Error messages
// ---------------------------------------------------------------------------

pub open spec fn msg_nested_colon() -> Seq<char> {
    "nested `:` is not allowed"@
}

pub open spec fn msg_colon_needs_name() -> Seq<char> {
    "`:` needs a name"@
}

pub open spec fn msg_too_big_for_word() -> Seq<char> {
    "binary already exceeds 64 KB before defining word"@
}

pub open spec fn msg_variable_inside() -> Seq<char> {
    "`variable` not allowed inside a word definition"@
}

pub open spec fn msg_variable_needs_name() -> Seq<char> {
    "`variable` needs a name"@
}

pub open spec fn msg_forward_as(name: Seq<char>, kind: Seq<char>) -> Seq<char> {
    "`"@ + name + "` was forward-referenced as a word but is being defined as a "@ + kind
}

pub open spec fn msg_no_space_variable() -> Seq<char> {
    "not enough space to allocate variable"@
}

pub open spec fn msg_constant_inside() -> Seq<char> {
    "`constant` not allowed inside a word definition"@
}

pub open spec fn msg_constant_needs_name() -> Seq<char> {
    "`constant` needs a name"@
}

pub open spec fn msg_constant_needs_value() -> Seq<char> {
    "`constant` needs a value"@
}

pub open spec fn msg_constant_bad_value(v: Seq<char>) -> Seq<char> {
    "`constant`: bad value `"@ + v + "`"@
}

pub open spec fn msg_semicolon_unmatched() -> Seq<char> {
    "`;` with no matching `:`"@
}

pub open spec fn msg_semicolon_open_block() -> Seq<char> {
    "`;` while a control block is open (if without then?)"@
}

pub open spec fn msg_outside_definition(tok: Seq<char>) -> Seq<char> {
    "token `"@ + tok + "` outside of a word definition (wrap your code in `: main ... ;`)"@
}

pub open spec fn msg_else_unmatched() -> Seq<char> {
    "`else` with no matching `if`"@
}

pub open spec fn msg_else_needs_if() -> Seq<char> {
    "`else` requires `if` on top of control stack"@
}

pub open spec fn msg_if_body_too_long(len: int) -> Seq<char> {
    "if-true-body too long: "@ + dec_text(len) + " bytes"@
}

pub open spec fn msg_then_unmatched() -> Seq<char> {
    "`then` with no matching `if`/`else`"@
}

pub open spec fn msg_then_needs_if() -> Seq<char> {
    "`then` requires `if`/`else` on top"@
}

pub open spec fn msg_branch_too_long(len: int) -> Seq<char> {
    "branch body too long: "@ + dec_text(len) + " bytes"@
}


pub open spec fn msg_jump_range(kw: Seq<char>, off: int) -> Seq<char> {
    "`"@ + kw + "` jump out of i32 range: "@ + dec_text(off)
}

pub open spec fn msg_do_too_deep() -> Seq<char> {
    "`do` nesting too deep (max "@ + dec_text(crate::DO_LOOP_MAX_DEPTH as int)
        + "); raise DO_LOOP_MAX_DEPTH if you need more"@
}

pub open spec fn msg_i_outside() -> Seq<char> {
    "`i` used outside of a `do`/`loop`"@
}

pub open spec fn msg_unclosed(name: Seq<char>) -> Seq<char> {
    "unclosed definition: `"@ + name + "` missing `;`"@
}

/// `` `a`, `b`, `c` ``.
pub open spec fn quoted_list(names: Seq<Seq<char>>) -> Seq<char>
    decreases names.len(),
{
    if names.len() == 0 {
        Seq::empty()
    } else if names.len() == 1 {
        "`"@ + names[0] + "`"@
    } else {
        quoted_list(names.drop_last()) + ", "@ + ("`"@ + names.last() + "`"@)
    }
}

pub open spec fn msg_unresolved(names: Seq<Seq<char>>) -> Seq<char> {
    "unresolved forward references: "@ + quoted_list(names)
}

pub open spec fn msg_main_not_word() -> Seq<char> {
    "`main` must be a word (`: main ... ;`), not a constant/variable"@
}

pub open spec fn msg_no_main() -> Seq<char> {
    "no `main` word defined"@
}

pub open spec fn msg_too_large(len: int) -> Seq<char> {
    "binary too large: "@ + dec_text(len) + " bytes (max "@ + dec_text(crate::MAX_CODE_END as int)
        + " = 0x"@ + crate::fmt::zero_pad(crate::fmt::hex_text(crate::MAX_CODE_END as nat), 4)
        + "; higher would let the return stack at 0x7000..0x7FC4 overwrite code/data at runtime)"@
}

// ---------------------------------------------------------------------------
// Primitive tables
// ---------------------------------------------------------------------------

/// The opcode of a primitive that compiles to that single byte. The
/// ordered comparisons map to the reflected opcode, since the VM compares
/// top-of-stack against next-on-stack while Forth compares the other way.
pub open spec fn single_op(tok: Seq<char>) -> Option<u8> {
    if tok == "+"@ {
        Some(op::ADD)
    } else if tok == "*"@ {
        Some(op::MUL)
    } else if tok == "and"@ {
        Some(op::AND)
    } else if tok == "or"@ {
        Some(op::OR)
    } else if tok == "xor"@ {
        Some(op::XOR)
    } else if tok == "="@ {
        Some(op::EQ)
    } else if tok == "<>"@ {
        Some(op::NE)
    } else if tok == "not"@ {
        Some(op::LOGICAL_NOT)
    } else if tok == "invert"@ {
        Some(op::BITWISE_NOT)
    } else if tok == "negate"@ {
        Some(op::NEG)
    } else if tok == "drop"@ {
        Some(op::POP)
    } else if tok == "@"@ {
        Some(op::LOAD_ABS)
    } else if tok == "!"@ {
        Some(op::STORE_ABS)
    } else if tok == "halt"@ {
        Some(op::HALT)
    } else if tok == "syscall"@ {
        Some(op::SYSCALL)
    } else if tok == "skip"@ {
        Some(op::SKIP)
    } else if tok == "<"@ {
        Some(op::GT)
    } else if tok == "<="@ {
        Some(op::GE)
    } else if tok == ">"@ {
        Some(op::LT)
    } else if tok == ">="@ {
        Some(op::LE)
    } else {
        None
    }
}

/// The opcode of an operator that compiles to a call of `swap` followed by
/// that opcode (the non-commutative operators with no reflected opcode).
pub open spec fn swap_op(tok: Seq<char>) -> Option<u8> {
    if tok == "/"@ {
        Some(op::DIV)
    } else if tok == "mod"@ {
        Some(op::REM)
    } else if tok == "lshift"@ {
        Some(op::SHL)
    } else if tok == "rshift"@ {
        Some(op::SHR)
    } else {
        None
    }
}

/// The bytes of `dup` and `over`, which read the data stack at a negative
/// offset from the stack pointer.
pub open spec fn stack_read_op(tok: Seq<char>) -> Option<Seq<u8>> {
    if tok == "dup"@ {
        Some(seq![op::PUSH_SHORT, 0xFC, op::LOAD_SP_REL])
    } else if tok == "over"@ {
        Some(seq![op::PUSH_SHORT, 0xF8, op::LOAD_SP_REL])
    } else {
        None
    }
}

/// Whether `tok` is a primitive: a single-opcode one, `-`, a swap-based
/// operator, `dup` or `over`.
pub open spec fn is_primitive(tok: Seq<char>) -> bool {
    single_op(tok) is Some || tok == "-"@ || swap_op(tok) is Some || stack_read_op(tok) is Some
}

/// The initial state: the preamble emitted, nothing defined or open.
pub open spec fn initial_model() -> CompilerModel {
    CompilerModel {
        code: preamble_bytes(),
        dict: Map::empty(),
        compiling: None,
        ctrl: Seq::empty(),
        do_depth: 0,
        fwd_refs: Map::empty(),
    }
}

impl CompilerModel {
    /// The state's invariant: every recorded position lies within the code.
    pub open spec fn inv(self) -> bool {
        &&& self.code.len() >= crate::PREAMBLE_LEN
        &&& self.code.subrange(0, 12) == preamble_bytes().subrange(0, 12)
        &&& self.code.subrange(16, crate::PREAMBLE_LEN as int) == preamble_bytes().subrange(
            16,
            crate::PREAMBLE_LEN as int,
        )
        &&& self.do_depth <= crate::DO_LOOP_MAX_DEPTH
        &&& count_do(self.ctrl) <= self.do_depth
        &&& forall|i: int| 0 <= i < self.ctrl.len() ==> frame_ok(#[trigger] self.ctrl[i], self.code.len())
        &&& self.fwd_refs.dom().finite()
        &&& forall|k: Seq<char>, j: int|
            #![trigger self.fwd_refs[k][j]]
            self.fwd_refs.dom().contains(k) && 0 <= j < self.fwd_refs[k].len() ==> crate::PREAMBLE_LEN
                <= self.fwd_refs[k][j] && self.fwd_refs[k][j] + 4 <= self.code.len()
        &&& slots_apart(self.fwd_refs)
        &&& slots_zero(self.code, self.fwd_refs)
        &&& forall|k: Seq<char>|
            #[trigger] self.dict.dom().contains(k) && self.dict[k] is Word ==> word_placed(
                self.dict[k]->Word_0 as int,
                self.code.len() as int,
                self.compiling != Some(k),
            )
        &&& forall|i: int| 0 <= i < self.ctrl.len() ==> frame_clear(#[trigger] self.ctrl[i], self.fwd_refs)
        &&& forall|k: Seq<char>| #[trigger] self.fwd_refs.dom().contains(k) ==> !self.dict.dom().contains(k)
    }

    pub open spec fn here(self) -> int {
        self.code.len() as int
    }

    pub open spec fn emit(self, b: Seq<u8>) -> CompilerModel {
        CompilerModel { code: self.code + b, ..self }
    }

    pub open spec fn push_frame(self, f: CtrlFrame) -> CompilerModel {
        CompilerModel { ctrl: self.ctrl.push(f), ..self }
    }

    pub open spec fn pop_frame(self) -> CompilerModel {
        CompilerModel { ctrl: self.ctrl.drop_last(), ..self }
    }

    pub open spec fn patch(self, pos: int, v: u32) -> CompilerModel {
        CompilerModel { code: write_u32(self.code, pos, v), ..self }
    }

    /// `if`: a conditional forward jump whose offset `else`/`then` fills in.
    pub open spec fn compile_if(self) -> CompilerModel {
        let p = self.here();
        self.emit(seq![op::LOGICAL_NOT, op::PUSH, 0, 0, 0, 0, op::MUL, op::JUMP_REL]).push_frame(
            CtrlFrame::If { placeholder_pos: (p + 2) as usize, body_start: (p + 8) as usize },
        )
    }

    /// `else`: an unconditional jump over the else-body; the `if` jump now
    /// lands just after it.
    pub open spec fn compile_else(self) -> (CompilerModel, Outcome) {
        if self.ctrl.len() == 0 {
            (self, Outcome::Failed(msg_else_unmatched()))
        } else {
            let m1 = self.pop_frame();
            match self.ctrl.last() {
                CtrlFrame::If { placeholder_pos, body_start } => {
                    let true_len = m1.here() - body_start;
                    let m2 = m1.emit(seq![op::PUSH, 0, 0, 0, 0, op::JUMP_REL]);
                    let if_offset = true_len + 6;
                    if if_offset > i32::MAX {
                        (m2, Outcome::Failed(msg_if_body_too_long(true_len)))
                    } else {
                        (
                            m2.patch(placeholder_pos as int, if_offset as u32).push_frame(
                                CtrlFrame::IfElse {
                                    placeholder_pos: (m1.here() + 1) as usize,
                                    else_body_start: (m1.here() + 6) as usize,
                                },
                            ),
                            Outcome::Done,
                        )
                    }
                },
                _ => (m1, Outcome::Failed(msg_else_needs_if())),
            }
        }
    }

    /// `then`: the open `if` or `else` jump lands here.
    pub open spec fn compile_then(self) -> (CompilerModel, Outcome) {
        if self.ctrl.len() == 0 {
            (self, Outcome::Failed(msg_then_unmatched()))
        } else {
            let m1 = self.pop_frame();
            let slot = match self.ctrl.last() {
                CtrlFrame::If { placeholder_pos, body_start } => Some((placeholder_pos, body_start)),
                CtrlFrame::IfElse { placeholder_pos, else_body_start } => Some(
                    (placeholder_pos, else_body_start),
                ),
                _ => None,
            };
            match slot {
                Some((pos, start)) => {
                    let len = m1.here() - start;
                    if len > i32::MAX {
                        (m1, Outcome::Failed(msg_branch_too_long(len)))
                    } else {
                        (m1.patch(pos as int, len as u32), Outcome::Done)
                    }
                },
                None => (m1, Outcome::Failed(msg_then_needs_if())),
            }
        }
    }

    /// A backward jump to `begin_pos`: `prefix`, a push of the offset (one
    /// byte when it fits in `i8`, else four), then `suffix`, ending in the
    /// jump. The offset counts from the end of the whole sequence.
    pub open spec fn back_jump(self, begin_pos: int, prefix: Seq<u8>, suffix: Seq<u8>, kw: Seq<char>) -> (
        CompilerModel,
        Outcome,
    ) {
        let off_short = begin_pos - (self.here() + prefix.len() + 2 + suffix.len());
        if -128 <= off_short <= 127 {
            (self.emit(prefix + seq![op::PUSH_SHORT, (off_short as i8) as u8] + suffix), Outcome::Done)
        } else {
            let off_long = begin_pos - (self.here() + prefix.len() + 5 + suffix.len());
            if !(i32::MIN <= off_long <= i32::MAX) {
                (self, Outcome::Failed(msg_jump_range(kw, off_long)))
            } else {
                (self.emit(prefix + push_long((off_long as i32) as u32) + suffix), Outcome::Done)
            }
        }
    }

    /// `until`: jump back to `begin` while the condition is zero.
    pub open spec fn compile_until(self) -> (CompilerModel, Outcome) {
        if self.ctrl.len() == 0 {
            (self, Outcome::Failed("`until` with no matching `begin`"@))
        } else {
            match self.ctrl.last() {
                CtrlFrame::Begin { begin_pos } => self.pop_frame().back_jump(
                    begin_pos as int,
                    seq![op::LOGICAL_NOT],
                    seq![op::MUL, op::JUMP_REL],
                    "until"@,
                ),
                _ => (self.pop_frame(), Outcome::Failed("`until` requires `begin` on top"@)),
            }
        }
    }

    /// `again`: jump back to `begin` unconditionally.
    pub open spec fn compile_again(self) -> (CompilerModel, Outcome) {
        if self.ctrl.len() == 0 {
            (self, Outcome::Failed("`again` with no matching `begin`"@))
        } else {
            match self.ctrl.last() {
                CtrlFrame::Begin { begin_pos } => self.pop_frame().back_jump(
                    begin_pos as int,
                    Seq::empty(),
                    seq![op::JUMP_REL],
                    "again"@,
                ),
                _ => (self.pop_frame(), Outcome::Failed("`again` requires `begin` on top"@)),
            }
        }
    }

    /// `do`: store the start index and the limit in this depth's slots.
    pub open spec fn compile_do(self) -> (CompilerModel, Outcome) {
        if self.do_depth >= crate::DO_LOOP_MAX_DEPTH {
            (self, Outcome::Failed(msg_do_too_deep()))
        } else {
            let idx = do_index_addr(self.do_depth);
            let m1 = self.emit(
                push_long(idx) + seq![op::STORE_ABS] + push_long((idx + 4) as u32) + seq![op::STORE_ABS],
            );
            let m2 = CompilerModel { do_depth: self.do_depth + 1, ..m1 };
            (
                m2.push_frame(
                    CtrlFrame::Do { begin_pos: m1.here() as usize, depth: self.do_depth as usize },
                ),
                Outcome::Done,
            )
        }
    }

    /// The bytes of `loop` before its back-jump: increment the index,
    /// store it back, and compare it with the limit.
    pub open spec fn loop_step_bytes(depth: nat) -> Seq<u8> {
        let idx = do_index_addr(depth);
        push_long(idx) + seq![op::LOAD_ABS, op::PUSH_SHORT, 1, op::ADD] + seq![
            op::PUSH_SHORT,
            0xFC,
            op::LOAD_SP_REL,
        ] + push_long(idx) + seq![op::STORE_ABS] + push_long((idx + 4) as u32) + seq![
            op::LOAD_ABS,
            op::GT,
        ]
    }

    /// `loop`: advance the index and jump back while it is below the limit.
    pub open spec fn compile_loop(self) -> (CompilerModel, Outcome) {
        if self.ctrl.len() == 0 {
            (self, Outcome::Failed("`loop` with no matching `do`"@))
        } else {
            match self.ctrl.last() {
                CtrlFrame::Do { begin_pos, depth } => {
                    let m1 = CompilerModel { do_depth: (self.do_depth - 1) as nat, ..self.pop_frame() };
                    m1.emit(Self::loop_step_bytes(depth as nat)).back_jump(
                        begin_pos as int,
                        Seq::empty(),
                        seq![op::MUL, op::JUMP_REL],
                        "loop"@,
                    )
                },
                _ => (self.pop_frame(), Outcome::Failed("`loop` requires `do` on top"@)),
            }
        }
    }

    /// `i`: push the innermost loop's index.
    pub open spec fn compile_i(self) -> (CompilerModel, Outcome) {
        if self.do_depth == 0 {
            (self, Outcome::Failed(msg_i_outside()))
        } else {
            (
                self.emit(push_long(do_index_addr((self.do_depth - 1) as nat)) + seq![op::LOAD_ABS]),
                Outcome::Done,
            )
        }
    }

    /// `swap` is defined as a word.
    pub open spec fn swap_is_word(self) -> bool {
        self.dict.dom().contains("swap"@) && self.dict["swap"@] is Word
    }

    /// The bytes of the primitive `tok`: its opcode; `SUB; NEG` for `-`
    /// (the VM subtracts the other way round); a call of `swap` then the
    /// opcode for `/`, `mod`, `lshift`, `rshift`; a stack read for `dup`
    /// and `over`.
    pub open spec fn primitive_code(self, tok: Seq<char>) -> Seq<u8> {
        if single_op(tok) is Some {
            seq![single_op(tok)->0]
        } else if tok == "-"@ {
            seq![op::SUB, op::NEG]
        } else if swap_op(tok) is Some {
            call_bytes(self.dict["swap"@]->Word_0) + seq![swap_op(tok)->0]
        } else {
            stack_read_op(tok)->0
        }
    }

    /// A call of `name`, not yet defined: a placeholder call whose address
    /// slot is recorded for when `name` gets a definition.
    pub open spec fn compile_forward_call(self, name: Seq<char>) -> CompilerModel {
        let slots = if self.fwd_refs.dom().contains(name) {
            self.fwd_refs[name]
        } else {
            Seq::empty()
        };
        let m1 = self.emit(seq![op::PUSH, 0, 0, 0, 0, op::CALL_ABS]);
        CompilerModel {
            fwd_refs: self.fwd_refs.insert(name, slots.push((self.here() + 1) as usize)),
            ..m1
        }
    }

    /// Compiles one token inside a word body: a number, a control keyword,
    /// a primitive, a defined name, or else a forward reference.
    pub open spec fn compile_token(self, tok: Seq<char>) -> (CompilerModel, Outcome) {
        if number_value(tok) is Some {
            (self.emit(literal_bytes(number_value(tok)->0)), Outcome::Done)
        } else if tok == "exit"@ {
            (self.emit(epilog_bytes()), Outcome::Done)
        } else if tok == "if"@ {
            (self.compile_if(), Outcome::Done)
        } else if tok == "else"@ {
            self.compile_else()
        } else if tok == "then"@ {
            self.compile_then()
        } else if tok == "begin"@ {
            (self.push_frame(CtrlFrame::Begin { begin_pos: self.here() as usize }), Outcome::Done)
        } else if tok == "until"@ {
            self.compile_until()
        } else if tok == "again"@ {
            self.compile_again()
        } else if tok == "do"@ {
            self.compile_do()
        } else if tok == "loop"@ {
            self.compile_loop()
        } else if tok == "i"@ {
            self.compile_i()
        } else if is_primitive(tok) {
            if swap_op(tok) is Some && !self.swap_is_word() {
                (self, Outcome::Aborted)
            } else {
                (self.emit(self.primitive_code(tok)), Outcome::Done)
            }
        } else if self.dict.dom().contains(tok) {
            match self.dict[tok] {
                DictEntry::Word(addr) => (self.emit(call_bytes(addr)), Outcome::Done),
                DictEntry::Value(v) => (self.emit(literal_bytes(v)), Outcome::Done),
            }
        } else {
            (self.compile_forward_call(tok), Outcome::Done)
        }
    }

    /// Defining `name` at `addr` fills in every call slot waiting for it.
    pub open spec fn resolve_forward(self, name: Seq<char>, addr: u16) -> CompilerModel {
        if self.fwd_refs.dom().contains(name) {
            CompilerModel {
                code: write_u32_all(self.code, self.fwd_refs[name], addr as u32),
                fwd_refs: self.fwd_refs.remove(name),
                ..self
            }
        } else {
            self
        }
    }

    /// `: name`: open a definition of `name` at the current address.
    pub open spec fn compile_colon(self, name: Option<Seq<char>>) -> (CompilerModel, Outcome) {
        if self.compiling is Some {
            (self, Outcome::Failed(msg_nested_colon()))
        } else if name is None {
            (self, Outcome::Failed(msg_colon_needs_name()))
        } else if self.here() > 0xFFFF {
            (self, Outcome::Failed(msg_too_big_for_word()))
        } else {
            let n = name->0;
            let addr = self.here() as u16;
            let m1 = CompilerModel { dict: self.dict.insert(n, DictEntry::Word(addr)), ..self };
            let m2 = m1.resolve_forward(n, addr);
            (CompilerModel { compiling: Some(n), ..m2 }.emit(prolog_bytes()), Outcome::Done)
        }
    }

    /// `variable name`: reserve four zero bytes; `name` pushes their address.
    pub open spec fn compile_variable(self, name: Option<Seq<char>>) -> (CompilerModel, Outcome) {
        if self.compiling is Some {
            (self, Outcome::Failed(msg_variable_inside()))
        } else if name is None {
            (self, Outcome::Failed(msg_variable_needs_name()))
        } else if self.fwd_refs.dom().contains(name->0) {
            (self, Outcome::Failed(msg_forward_as(name->0, "variable"@)))
        } else if self.here() + 4 > 0xFFFF {
            (self, Outcome::Failed(msg_no_space_variable()))
        } else {
            let m1 = self.emit(seq![0, 0, 0, 0]);
            (
                CompilerModel {
                    dict: self.dict.insert(name->0, DictEntry::Value(self.here() as i64)),
                    ..m1
                },
                Outcome::Done,
            )
        }
    }

    /// `constant name value`: `name` pushes `value`.
    pub open spec fn compile_constant(self, name: Option<Seq<char>>, value: Option<Seq<char>>) -> (
        CompilerModel,
        Outcome,
    ) {
        if self.compiling is Some {
            (self, Outcome::Failed(msg_constant_inside()))
        } else if name is None {
            (self, Outcome::Failed(msg_constant_needs_name()))
        } else if value is None {
            (self, Outcome::Failed(msg_constant_needs_value()))
        } else if number_value(value->0) is None {
            (self, Outcome::Failed(msg_constant_bad_value(value->0)))
        } else if self.fwd_refs.dom().contains(name->0) {
            (self, Outcome::Failed(msg_forward_as(name->0, "constant"@)))
        } else {
            (
                CompilerModel {
                    dict: self.dict.insert(name->0, DictEntry::Value(number_value(value->0)->0)),
                    ..self
                },
                Outcome::Done,
            )
        }
    }

    /// `;`: close the open definition.
    pub open spec fn compile_semicolon(self) -> (CompilerModel, Outcome) {
        if self.compiling is None {
            (self, Outcome::Failed(msg_semicolon_unmatched()))
        } else if self.ctrl.len() != 0 {
            (self, Outcome::Failed(msg_semicolon_open_block()))
        } else {
            (CompilerModel { compiling: None, ..self.emit(epilog_bytes()) }, Outcome::Done)
        }
    }

    /// Compiles `toks[i..]` at top level: definitions, variables, constants
    /// and `;` anywhere, other tokens only inside a definition. Stops at the
    /// first token that fails.
    pub open spec fn run(self, toks: Seq<Seq<char>>, i: int) -> (CompilerModel, Outcome)
        decreases toks.len() - i,
    {
        if i < 0 || i >= toks.len() {
            (self, Outcome::Done)
        } else {
            let t = toks[i];
            let next = if i + 1 < toks.len() { Some(toks[i + 1]) } else { None };
            let after = if i + 2 < toks.len() { Some(toks[i + 2]) } else { None };
            if t == ":"@ {
                let (m, o) = self.compile_colon(next);
                if o is Done && i + 1 < toks.len() { m.run(toks, i + 2) } else { (m, o) }
            } else if t == "variable"@ {
                let (m, o) = self.compile_variable(next);
                if o is Done && i + 1 < toks.len() { m.run(toks, i + 2) } else { (m, o) }
            } else if t == "constant"@ {
                let (m, o) = self.compile_constant(next, after);
                if o is Done && i + 2 < toks.len() { m.run(toks, i + 3) } else { (m, o) }
            } else if t == ";"@ {
                let (m, o) = self.compile_semicolon();
                if o is Done { m.run(toks, i + 1) } else { (m, o) }
            } else if self.compiling is None {
                (self, Outcome::Failed(msg_outside_definition(t)))
            } else {
                let (m, o) = self.compile_token(t);
                if o is Done { m.run(toks, i + 1) } else { (m, o) }
            }
        }
    }

    /// Compiles the source text `src`.
    pub open spec fn compile_source(self, src: Seq<char>) -> (CompilerModel, Outcome) {
        self.run(tokens_of(src), 0)
    }

    /// Checks that the program is complete and patches `main`'s address
    /// into the bootstrap.
    pub open spec fn finalize(self) -> (CompilerModel, Outcome) {
        if self.compiling is Some {
            (self, Outcome::Failed(msg_unclosed(self.compiling->0)))
        } else if self.fwd_refs.dom() != Set::<Seq<char>>::empty() {
            (self, Outcome::Failed(msg_unresolved(sorted_listing(self.fwd_refs.dom()))))
        } else if !self.dict.dom().contains("main"@) {
            (self, Outcome::Failed(msg_no_main()))
        } else {
            match self.dict["main"@] {
                DictEntry::Value(_) => (self, Outcome::Failed(msg_main_not_word())),
                DictEntry::Word(addr) => {
                    let m1 = self.patch(12, addr as u32);
                    if m1.code.len() > crate::MAX_CODE_END {
                        (m1, Outcome::Failed(msg_too_large(m1.code.len() as int)))
                    } else {
                        (m1, Outcome::Done)
                    }
                },
            }
        }
    }
}


// ---------------------------------------------------------------------------
// The invariant is kept by each elementary change of state
// ---------------------------------------------------------------------------

/// Appending bytes keeps the invariant.
pub proof fn lemma_emit_inv(m: CompilerModel, b: Seq<u8>)
    requires
        m.inv(),
    ensures
        m.emit(b).inv(),
        m.emit(b).code.len() == m.code.len() + b.len(),
{
    let m2 = m.emit(b);
    assert(m2.code.subrange(0, 12) =~= m.code.subrange(0, 12));
    assert(m2.code.subrange(16, crate::PREAMBLE_LEN as int) =~= m.code.subrange(
        16,
        crate::PREAMBLE_LEN as int,
    ));
    assert forall|i: int| 0 <= i < m2.ctrl.len() implies frame_ok(#[trigger] m2.ctrl[i], m2.code.len()) by {
        assert(frame_ok(m.ctrl[i], m.code.len()));
    }
    assert forall|k: Seq<char>, j: int|
        #![trigger m2.fwd_refs[k][j]]
        m2.fwd_refs.dom().contains(k) && 0 <= j < m2.fwd_refs[k].len() implies m2.fwd_refs[k][j] + 4
            <= m2.code.len() by {
        assert(m.fwd_refs[k][j] + 4 <= m.code.len());
    }
    assert forall|k: Seq<char>, j: int|
        #![trigger m2.fwd_refs[k][j]]
        m2.fwd_refs.dom().contains(k) && 0 <= j < m2.fwd_refs[k].len() implies m2.code.subrange(
            m2.fwd_refs[k][j] as int,
            m2.fwd_refs[k][j] + 4,
        ) == seq![0u8, 0, 0, 0] by {
        let p = m.fwd_refs[k][j] as int;
        assert(p + 4 <= m.code.len());
        assert(m2.code.subrange(p, p + 4) =~= m.code.subrange(p, p + 4));
    }
    assert forall|i: int| 0 <= i < m2.ctrl.len() implies frame_clear(#[trigger] m2.ctrl[i], m2.fwd_refs) by {
        assert(frame_clear(m.ctrl[i], m.fwd_refs));
    }
}

/// Overwriting four bytes of user code clear of the pending call slots, or
/// `main`'s slot in the bootstrap, keeps the invariant.
pub proof fn lemma_patch_inv(m: CompilerModel, pos: int, v: u32)
    requires
        m.inv(),
        pos == 12 || crate::PREAMBLE_LEN <= pos,
        pos + 4 <= m.code.len(),
        clear_of_slots(pos, m.fwd_refs),
    ensures
        m.patch(pos, v).inv(),
        m.patch(pos, v).code.len() == m.code.len(),
{
    let m2 = m.patch(pos, v);
    assert(m2.code.len() == m.code.len());
    assert(m2.code.subrange(0, 12) =~= m.code.subrange(0, 12));
    assert(m2.code.subrange(16, crate::PREAMBLE_LEN as int) =~= m.code.subrange(
        16,
        crate::PREAMBLE_LEN as int,
    ));
    assert forall|i: int| 0 <= i < m2.ctrl.len() implies frame_ok(#[trigger] m2.ctrl[i], m2.code.len()) by {
        assert(frame_ok(m.ctrl[i], m.code.len()));
    }
    assert forall|k: Seq<char>, j: int|
        #![trigger m2.fwd_refs[k][j]]
        m2.fwd_refs.dom().contains(k) && 0 <= j < m2.fwd_refs[k].len() implies m2.fwd_refs[k][j] + 4
            <= m2.code.len() by {
        assert(m.fwd_refs[k][j] + 4 <= m.code.len());
    }
    assert forall|k: Seq<char>, j: int|
        #![trigger m2.fwd_refs[k][j]]
        m2.fwd_refs.dom().contains(k) && 0 <= j < m2.fwd_refs[k].len() implies m2.code.subrange(
            m2.fwd_refs[k][j] as int,
            m2.fwd_refs[k][j] + 4,
        ) == seq![0u8, 0, 0, 0] by {
        let p = m.fwd_refs[k][j] as int;
        assert(p + 4 <= m.code.len());
        assert(pos + 4 <= p || p + 4 <= pos);
        assert(m2.code.subrange(p, p + 4) =~= m.code.subrange(p, p + 4));
    }
    assert forall|i: int| 0 <= i < m2.ctrl.len() implies frame_clear(#[trigger] m2.ctrl[i], m2.fwd_refs) by {
        assert(frame_clear(m.ctrl[i], m.fwd_refs));
    }
}

/// Counting `do` frames after a push.
pub proof fn lemma_count_do_push(ctrl: Seq<CtrlFrame>, f: CtrlFrame)
    ensures
        count_do(ctrl.push(f)) == count_do(ctrl) + if f is Do { 1nat } else { 0nat },
{
    assert(ctrl.push(f).drop_last() =~= ctrl);
}

/// Opening a control structure whose positions lie within the code keeps
/// the invariant, provided a `do` frame has a nesting slot to count in.
pub proof fn lemma_push_frame_inv(m: CompilerModel, f: CtrlFrame)
    requires
        m.inv(),
        frame_ok(f, m.code.len()),
        frame_clear(f, m.fwd_refs),
        f is Do ==> count_do(m.ctrl) + 1 <= m.do_depth,
    ensures
        m.push_frame(f).inv(),
{
    let m2 = m.push_frame(f);
    lemma_count_do_push(m.ctrl, f);
    assert forall|i: int| 0 <= i < m2.ctrl.len() implies frame_ok(#[trigger] m2.ctrl[i], m2.code.len()) by {
        if i < m.ctrl.len() {
            assert(frame_ok(m.ctrl[i], m.code.len()));
        }
    }
    assert forall|i: int| 0 <= i < m2.ctrl.len() implies frame_clear(#[trigger] m2.ctrl[i], m2.fwd_refs) by {
        if i < m.ctrl.len() {
            assert(frame_clear(m.ctrl[i], m.fwd_refs));
        }
    }
}

/// Closing the innermost control structure keeps the invariant.
pub proof fn lemma_pop_frame_inv(m: CompilerModel)
    requires
        m.inv(),
        m.ctrl.len() > 0,
    ensures
        m.pop_frame().inv(),
        frame_ok(m.ctrl.last(), m.code.len()),
        frame_clear(m.ctrl.last(), m.fwd_refs),
        count_do(m.ctrl) == count_do(m.pop_frame().ctrl) + if m.ctrl.last() is Do { 1nat } else { 0nat },
{
    let m2 = m.pop_frame();
    assert(frame_ok(m.ctrl[m.ctrl.len() - 1], m.code.len()));
    assert(frame_clear(m.ctrl[m.ctrl.len() - 1], m.fwd_refs));
    assert forall|i: int| 0 <= i < m2.ctrl.len() implies frame_ok(#[trigger] m2.ctrl[i], m2.code.len()) by {
        assert(frame_ok(m.ctrl[i], m.code.len()));
    }
    assert forall|i: int| 0 <= i < m2.ctrl.len() implies frame_clear(#[trigger] m2.ctrl[i], m2.fwd_refs) by {
        assert(frame_clear(m.ctrl[i], m.fwd_refs));
    }
}


/// Dropping a name's pending slots keeps the invariant, and each dropped
/// slot is clear of the slots still pending.
pub proof fn lemma_drop_slots_inv(m: CompilerModel, name: Seq<char>)
    requires
        m.inv(),
        m.fwd_refs.dom().contains(name),
    ensures
        (CompilerModel { fwd_refs: m.fwd_refs.remove(name), ..m }).inv(),
        forall|j: int|
            0 <= j < m.fwd_refs[name].len() ==> clear_of_slots(
                #[trigger] m.fwd_refs[name][j] as int,
                m.fwd_refs.remove(name),
            ),
{
    let m2 = CompilerModel { fwd_refs: m.fwd_refs.remove(name), ..m };
    let f = m2.fwd_refs;
    assert forall|k: Seq<char>, j: int|
        #![trigger f[k][j]]
        f.dom().contains(k) && 0 <= j < f[k].len() implies crate::PREAMBLE_LEN <= f[k][j] && f[k][j] + 4
            <= m2.code.len() && m2.code.subrange(f[k][j] as int, f[k][j] + 4) == seq![0u8, 0, 0, 0] by {
        assert(m.fwd_refs[k][j] + 4 <= m.code.len());
        assert(m.code.subrange(m.fwd_refs[k][j] as int, m.fwd_refs[k][j] + 4) == seq![0u8, 0, 0, 0]);
    }
    assert forall|k1: Seq<char>, j1: int, k2: Seq<char>, j2: int|
        #![trigger f[k1][j1], f[k2][j2]]
        f.dom().contains(k1) && f.dom().contains(k2) && 0 <= j1 < f[k1].len() && 0 <= j2 < f[k2].len()
            && (k1 != k2 || j1 != j2) implies f[k1][j1] + 4 <= f[k2][j2] || f[k2][j2] + 4 <= f[k1][j1] by {
        assert(m.fwd_refs[k1][j1] + 4 <= m.fwd_refs[k2][j2] || m.fwd_refs[k2][j2] + 4 <= m.fwd_refs[k1][j1]);
    }
    assert forall|i: int| 0 <= i < m2.ctrl.len() implies frame_clear(#[trigger] m2.ctrl[i], f) by {
        let fr = m.ctrl[i];
        assert(frame_clear(fr, m.fwd_refs));
        match fr {
            CtrlFrame::If { placeholder_pos, .. } => {
                assert forall|k: Seq<char>, j: int|
                    #![trigger f[k][j]]
                    f.dom().contains(k) && 0 <= j < f[k].len() implies placeholder_pos + 4 <= f[k][j]
                        || f[k][j] + 4 <= placeholder_pos by {
                    assert(f[k][j] == m.fwd_refs[k][j]);
                }
            },
            CtrlFrame::IfElse { placeholder_pos, .. } => {
                assert forall|k: Seq<char>, j: int|
                    #![trigger f[k][j]]
                    f.dom().contains(k) && 0 <= j < f[k].len() implies placeholder_pos + 4 <= f[k][j]
                        || f[k][j] + 4 <= placeholder_pos by {
                    assert(f[k][j] == m.fwd_refs[k][j]);
                }
            },
            _ => {},
        }
    }
    assert forall|j: int| 0 <= j < m.fwd_refs[name].len() implies clear_of_slots(
        #[trigger] m.fwd_refs[name][j] as int,
        f,
    ) by {
        assert forall|k: Seq<char>, j2: int|
            #![trigger f[k][j2]]
            f.dom().contains(k) && 0 <= j2 < f[k].len() implies m.fwd_refs[name][j] + 4 <= f[k][j2]
                || f[k][j2] + 4 <= m.fwd_refs[name][j] by {
            assert(slots_apart(m.fwd_refs));
            assert(m.fwd_refs[name][j] + 4 <= m.fwd_refs[k][j2] || m.fwd_refs[k][j2] + 4
                <= m.fwd_refs[name][j]);
        }
    }
}

} // verus!

