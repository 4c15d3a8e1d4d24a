//! Linear-sweep disassembler for LiveCTF bytecode, with labels at every
//! call and jump target and recognition of the compiler's conditional-jump
//! idiom (`PUSH <offset>; MUL; JUMP_REL`).
use vstd::prelude::*;
use crate::encode::le_value;
use crate::fmt::{dec_text, hex_text, push_dec, push_hex, space_pad, zero_pad};
use crate::op;
use crate::text::{append_str, push_char, string_from};
use vstd::string::StrSliceExecFns;
use std::collections::HashSet;

verus! {

broadcast use vstd::std_specs::hash::group_hash_axioms;

/// One decoded instruction.
pub struct Line {
    /// Offset of the instruction in the code.
    pub addr: usize,
    /// The instruction's bytes (opcode and immediate).
    pub bytes: Vec<u8>,
    /// The opcode byte.
    pub opcode: u8,
    /// Its name, `???` for a byte that is no opcode.
    pub mnemonic: &'static str,
    /// Immediate or raw value, as text.
    pub operand: String,
    /// Where the instruction calls or jumps, when known.
    pub target: Option<u16>,
    /// The value a push instruction pushes.
    pub immediate: Option<u32>,
}

/// A decoded instruction, as values.
pub struct LineModel {
    pub addr: int,
    pub bytes: Seq<u8>,
    pub opcode: u8,
    pub mnemonic: Seq<char>,
    pub operand: Seq<char>,
    pub target: Option<u16>,
    pub immediate: Option<u32>,
}

impl View for Line {
    type V = LineModel;

    open spec fn view(&self) -> LineModel {
        LineModel {
            addr: self.addr as int,
            bytes: self.bytes@,
            opcode: self.opcode,
            mnemonic: self.mnemonic@,
            operand: self.operand@,
            target: self.target,
            immediate: self.immediate,
        }
    }
}

/// The views of a list of lines.
pub open spec fn line_views(lines: Seq<Line>) -> Seq<LineModel> {
    lines.map_values(|l: Line| l@)
}

/// The name of each opcode; `???` for the bytes that are none.
pub open spec fn mnemonic_of(b: u8) -> Seq<char> {
    if b == op::HALT { "HALT"@ }
    else if b == op::PUSH { "PUSH"@ }
    else if b == op::PUSH_ZERO { "PUSH_ZERO"@ }
    else if b == op::PUSH_SHORT { "PUSH_SHORT"@ }
    else if b == op::POP { "POP"@ }
    else if b == op::LOAD_SP_REL { "LOAD_SP_REL"@ }
    else if b == op::STORE_SP_REL { "STORE_SP_REL"@ }
    else if b == op::LOAD_ABS { "LOAD_ABS"@ }
    else if b == op::STORE_ABS { "STORE_ABS"@ }
    else if b == op::JUMP_REL { "JUMP_REL"@ }
    else if b == op::JUMP_ABS { "JUMP_ABS"@ }
    else if b == op::CALL_REL { "CALL_REL"@ }
    else if b == op::CALL_ABS { "CALL_ABS"@ }
    else if b == op::SKIP { "SKIP"@ }
    else if b == op::SYSCALL { "SYSCALL"@ }
    else if b == op::LT { "LT"@ }
    else if b == op::LE { "LE"@ }
    else if b == op::GT { "GT"@ }
    else if b == op::GE { "GE"@ }
    else if b == op::EQ { "EQ"@ }
    else if b == op::NE { "NE"@ }
    else if b == op::ADD { "ADD"@ }
    else if b == op::SUB { "SUB"@ }
    else if b == op::MUL { "MUL"@ }
    else if b == op::DIV { "DIV"@ }
    else if b == op::REM { "REM"@ }
    else if b == op::AND { "AND"@ }
    else if b == op::OR { "OR"@ }
    else if b == op::XOR { "XOR"@ }
    else if b == op::SHL { "SHL"@ }
    else if b == op::SHR { "SHR"@ }
    else if b == op::LOGICAL_NOT { "LOGICAL_NOT"@ }
    else if b == op::BITWISE_NOT { "BITWISE_NOT"@ }
    else if b == op::NEG { "NEG"@ }
    else { "???"@ }
}

/// Whether `b` is an opcode of the VM.
pub open spec fn is_opcode(b: u8) -> bool {
    b <= 0x0E || (0x10 <= b <= 0x15) || (0x20 <= b <= 0x2C)
}

/// The byte `b` read as a signed 8-bit number.
pub open spec fn signed8(b: u8) -> int {
    if b < 128 { b as int } else { b as int - 256 }
}

/// The word `v` read as a signed 32-bit number.
pub open spec fn signed32(v: u32) -> int {
    if v < 0x8000_0000 { v as int } else { v as int - 0x1_0000_0000 }
}

/// The 32-bit word a `PUSH_SHORT` of `b` pushes (sign-extended).
pub open spec fn short_value(b: u8) -> u32 {
    (signed8(b) % 0x1_0000_0000) as u32
}

/// The target of a relative call or jump at `ip` with offset `off`: the
/// address after the opcode plus the signed offset, modulo 65536.
pub open spec fn rel_target(ip: int, off: u32) -> u16 {
    ((ip + 1 + signed32(off)) % 0x1_0000) as u16
}

/// Length of the instruction at `ip`: the opcode plus an immediate when it
/// fits in the code (a truncated immediate is left out).
pub open spec fn insn_len(code: Seq<u8>, ip: int) -> int {
    let b = code[ip];
    if b == op::PUSH && ip + 5 <= code.len() {
        5
    } else if b == op::PUSH_SHORT && ip + 2 <= code.len() {
        2
    } else {
        1
    }
}

/// The value pushed by the instruction at `ip`, if it is a push.
pub open spec fn pushed_value(code: Seq<u8>, ip: int) -> Option<u32> {
    let b = code[ip];
    if b == op::PUSH {
        if ip + 5 <= code.len() {
            Some(le_value(code[ip + 1], code[ip + 2], code[ip + 3], code[ip + 4]))
        } else {
            None
        }
    } else if b == op::PUSH_ZERO {
        Some(0)
    } else if b == op::PUSH_SHORT {
        if ip + 2 <= code.len() { Some(short_value(code[ip + 1])) } else { None }
    } else {
        None
    }
}

/// The operand text of the instruction at `ip`.
pub open spec fn operand_text(code: Seq<u8>, ip: int) -> Seq<char> {
    let b = code[ip];
    if b == op::PUSH {
        if ip + 5 <= code.len() {
            let v = le_value(code[ip + 1], code[ip + 2], code[ip + 3], code[ip + 4]);
            "0x"@ + hex_text(v as nat) + " ("@ + dec_text(signed32(v)) + ")"@
        } else {
            "(truncated)"@
        }
    } else if b == op::PUSH_SHORT {
        if ip + 2 <= code.len() { dec_text(signed8(code[ip + 1])) } else { "(truncated)"@ }
    } else if is_opcode(b) {
        Seq::empty()
    } else {
        "0x"@ + zero_pad(hex_text(b as nat), 2)
    }
}

/// Where the instruction at `ip` calls or jumps, given the value pushed by
/// the instruction just before it.
pub open spec fn jump_target(code: Seq<u8>, ip: int, prev_push: Option<u32>) -> Option<u16> {
    let b = code[ip];
    match prev_push {
        Some(v) => if b == op::JUMP_REL || b == op::CALL_REL {
            Some(rel_target(ip, v))
        } else if b == op::JUMP_ABS || b == op::CALL_ABS {
            Some((v % 0x1_0000) as u16)
        } else {
            None
        },
        None => None,
    }
}

/// The instruction at `ip`, given the value pushed just before it.
pub open spec fn decode_line(code: Seq<u8>, ip: int, prev_push: Option<u32>) -> LineModel {
    LineModel {
        addr: ip,
        bytes: code.subrange(ip, ip + insn_len(code, ip)),
        opcode: code[ip],
        mnemonic: mnemonic_of(code[ip]),
        operand: operand_text(code, ip),
        target: jump_target(code, ip, prev_push),
        immediate: pushed_value(code, ip),
    }
}

/// The instructions of `code[ip..]`.
pub open spec fn lines_from(code: Seq<u8>, ip: int, prev_push: Option<u32>) -> Seq<LineModel>
    decreases code.len() - ip,
{
    if ip < 0 || ip >= code.len() {
        Seq::empty()
    } else {
        seq![decode_line(code, ip, prev_push)] + lines_from(
            code,
            ip + insn_len(code, ip),
            pushed_value(code, ip),
        )
    }
}

/// The name of opcode `b`; see [`mnemonic_of`].
pub fn mnemonic(b: u8) -> (res: &'static str)
    ensures
        res@ == mnemonic_of(b),
{
    if b == op::HALT { "HALT" }
    else if b == op::PUSH { "PUSH" }
    else if b == op::PUSH_ZERO { "PUSH_ZERO" }
    else if b == op::PUSH_SHORT { "PUSH_SHORT" }
    else if b == op::POP { "POP" }
    else if b == op::LOAD_SP_REL { "LOAD_SP_REL" }
    else if b == op::STORE_SP_REL { "STORE_SP_REL" }
    else if b == op::LOAD_ABS { "LOAD_ABS" }
    else if b == op::STORE_ABS { "STORE_ABS" }
    else if b == op::JUMP_REL { "JUMP_REL" }
    else if b == op::JUMP_ABS { "JUMP_ABS" }
    else if b == op::CALL_REL { "CALL_REL" }
    else if b == op::CALL_ABS { "CALL_ABS" }
    else if b == op::SKIP { "SKIP" }
    else if b == op::SYSCALL { "SYSCALL" }
    else if b == op::LT { "LT" }
    else if b == op::LE { "LE" }
    else if b == op::GT { "GT" }
    else if b == op::GE { "GE" }
    else if b == op::EQ { "EQ" }
    else if b == op::NE { "NE" }
    else if b == op::ADD { "ADD" }
    else if b == op::SUB { "SUB" }
    else if b == op::MUL { "MUL" }
    else if b == op::DIV { "DIV" }
    else if b == op::REM { "REM" }
    else if b == op::AND { "AND" }
    else if b == op::OR { "OR" }
    else if b == op::XOR { "XOR" }
    else if b == op::SHL { "SHL" }
    else if b == op::SHR { "SHR" }
    else if b == op::LOGICAL_NOT { "LOGICAL_NOT" }
    else if b == op::BITWISE_NOT { "BITWISE_NOT" }
    else if b == op::NEG { "NEG" }
    else { "???" }
}

/// Decodes the instruction at `code[ip]`. `last_push` holds the value
/// pushed by the instruction just before, which resolves the target of a
/// push-then-call/jump pair; it is updated to this instruction's push.
pub fn decode_one(code: &[u8], ip: usize, last_push: &mut Option<u32>) -> (res: Line)
    requires
        ip < code@.len(),
    ensures
        res@ == decode_line(code@, ip as int, *old(last_push)),
        *final(last_push) == pushed_value(code@, ip as int),
{
    let b = code[ip];
    let prev_push = *last_push;
    let n = code.len();
    let mut len: usize = 1;
    let mut operand = String::new();
    let mut next_push: Option<u32> = None;
    if b == op::PUSH {
        if n - ip >= 5 {
            let v = (code[ip + 1] as u32) | ((code[ip + 2] as u32) << 8) | ((code[ip + 3] as u32) << 16)
                | ((code[ip + 4] as u32) << 24);
            len = 5;
            operand = string_from("0x");
            push_hex(&mut operand, v as u128, 0);
            append_str(&mut operand, " (");
            push_dec(&mut operand, if v < 0x8000_0000 { v as i128 } else { v as i128 - 0x1_0000_0000 });
            append_str(&mut operand, ")");
            next_push = Some(v);
        } else {
            operand = string_from("(truncated)");
        }
    } else if b == op::PUSH_ZERO {
        next_push = Some(0);
    } else if b == op::PUSH_SHORT {
        if n - ip >= 2 {
            let v = code[ip + 1];
            len = 2;
            push_dec(&mut operand, if v < 128 { v as i128 } else { v as i128 - 256 });
            next_push = Some(if v < 128 { v as u32 } else { (v as u32) + 0xFFFF_FF00 });
        } else {
            operand = string_from("(truncated)");
        }
    } else if !(b <= 0x0E || (0x10 <= b && b <= 0x15) || (0x20 <= b && b <= 0x2C)) {
        operand = string_from("0x");
        push_hex(&mut operand, b as u128, 2);
    }
    let target: Option<u16> = match prev_push {
        Some(v) => {
            if b == op::JUMP_REL || b == op::CALL_REL {
                Some((((ip % 0x1_0000) + 1 + (v % 0x1_0000) as usize) % 0x1_0000) as u16)
            } else if b == op::JUMP_ABS || b == op::CALL_ABS {
                Some((v % 0x1_0000) as u16)
            } else {
                None
            }
        },
        None => None,
    };
    *last_push = next_push;
    let mut bytes: Vec<u8> = Vec::new();
    let mut k: usize = 0;
    while k < len
        invariant
            k <= len,
            n == code@.len(),
            ip + len <= code@.len(),
            bytes@ == code@.subrange(ip as int, ip + k),
        decreases len - k,
    {
        bytes.push(code[ip + k]);
        k += 1;
        proof {
            assert(bytes@ =~= code@.subrange(ip as int, ip + k));
        }
    }
    proof {
        assert(zero_pad(hex_text(0), 0) == hex_text(0));
        if b == op::PUSH_SHORT && n - ip >= 2 {
            let v = code@[ip + 1];
            assert(short_value(v) as int == (if v < 128 { v as int } else { v as int + 0xFFFF_FF00 }));
        }
        match prev_push {
            Some(v) => {
                if b == op::JUMP_REL || b == op::CALL_REL {
                    assert((((ip % 0x1_0000) + 1 + (v % 0x1_0000)) % 0x1_0000) == ((ip + 1 + signed32(v))
                        % 0x1_0000)) by (nonlinear_arith);
                }
            },
            None => {},
        }
    }
    Line { addr: ip, bytes, opcode: b, mnemonic: mnemonic(b), operand, target, immediate: next_push }
}


/// Disassembles `code` from start to end.
pub fn disassemble(code: &[u8]) -> (res: Vec<Line>)
    ensures
        line_views(res@) == lines_from(code@, 0, None),
{
    let mut lines: Vec<Line> = Vec::new();
    let mut ip: usize = 0;
    let mut last_push: Option<u32> = None;
    while ip < code.len()
        invariant
            ip <= code@.len(),
            line_views(lines@) + lines_from(code@, ip as int, last_push) == lines_from(code@, 0, None),
        decreases code@.len() - ip,
    {
        let ghost prev = last_push;
        let line = decode_one(code, ip, &mut last_push);
        let step = line.bytes.len();
        let ghost before = line_views(lines@);
        let ghost lv = line@;
        lines.push(line);
        proof {
            assert(line_views(lines@) =~= before.push(lv));
            assert(step == insn_len(code@, ip as int));
            assert(before.push(lv) + lines_from(code@, ip + step, last_push) =~= before + lines_from(
                code@,
                ip as int,
                prev,
            ));
        }
        ip = ip + step;
    }
    proof {
        assert(line_views(lines@) + lines_from(code@, ip as int, last_push) =~= line_views(lines@));
    }
    lines
}

/// Whether `b` is one of the three push opcodes.
pub open spec fn is_push_opcode(b: u8) -> bool {
    b == op::PUSH || b == op::PUSH_SHORT || b == op::PUSH_ZERO
}

/// The target of line `i` when it ends the conditional-jump idiom
/// `PUSH <offset>; MUL; JUMP_REL` (or `CALL_REL`) and has no target yet:
/// the jump goes at most `offset` bytes, and the decoder could not see it
/// because `MUL` came between the push and the jump.
pub open spec fn idiom_target(ls: Seq<LineModel>, i: int) -> Option<u16> {
    if 2 <= i < ls.len() && ls[i].target is None && (ls[i].opcode == op::JUMP_REL || ls[i].opcode
        == op::CALL_REL) && ls[i - 1].opcode == op::MUL && is_push_opcode(ls[i - 2].opcode)
        && ls[i - 2].immediate is Some {
        Some(rel_target(ls[i].addr, ls[i - 2].immediate->0))
    } else {
        None
    }
}

/// The lines with the targets of conditional-jump idioms filled in.
pub open spec fn annotated(ls: Seq<LineModel>) -> Seq<LineModel> {
    Seq::new(
        ls.len(),
        |i: int|
            match idiom_target(ls, i) {
                Some(t) => LineModel { target: Some(t), ..ls[i] },
                None => ls[i],
            },
    )
}

/// Gives each `PUSH <X>; MUL; JUMP_REL` (the compiler's `if`/`until`
/// idiom) the target of its jump, at most X bytes on; see [`annotated`].
pub fn annotate_conditional_jumps(lines: &mut Vec<Line>)
    ensures
        line_views(final(lines)@) == annotated(line_views(old(lines)@)),
{
    let ghost ls = line_views(lines@);
    let mut i: usize = 2;
    while i < lines.len()
        invariant
            2 <= i,
            lines@.len() == ls.len(),
            forall|j: int|
                0 <= j < ls.len() ==> #[trigger] lines@[j]@ == (if j < i {
                    annotated(ls)[j]
                } else {
                    ls[j]
                }),
        decreases lines.len() - i,
    {
        proof {
            assert(lines@[i as int]@ == ls[i as int]);
            assert(lines@[i - 1]@ == annotated(ls)[i - 1]);
            assert(lines@[i - 2]@ == annotated(ls)[i - 2]);
            assert(lines@[i - 1].opcode == ls[i - 1].opcode);
            assert(lines@[i - 2].opcode == ls[i - 2].opcode);
            assert(lines@[i - 2].immediate == ls[i - 2].immediate);
        }
        let cond = lines[i].target.is_none() && (lines[i].opcode == op::JUMP_REL || lines[i].opcode
            == op::CALL_REL) && lines[i - 1].opcode == op::MUL && (lines[i - 2].opcode == op::PUSH
            || lines[i - 2].opcode == op::PUSH_SHORT || lines[i - 2].opcode == op::PUSH_ZERO);
        if cond {
            if let Some(off) = lines[i - 2].immediate {
                let addr = lines[i].addr;
                let t = (((addr % 0x1_0000) + 1 + (off % 0x1_0000) as usize) % 0x1_0000) as u16;
                proof {
                    assert((((addr % 0x1_0000) + 1 + (off % 0x1_0000)) % 0x1_0000) == ((addr + 1
                        + signed32(off)) % 0x1_0000)) by (nonlinear_arith);
                }
                lines[i].target = Some(t);
            }
        }
        proof {
            assert forall|j: int| 0 <= j < ls.len() implies #[trigger] lines@[j]@ == (if j < i + 1 {
                annotated(ls)[j]
            } else {
                ls[j]
            }) by {
                if j != i {
                }
            }
        }
        i += 1;
    }
    proof {
        assert forall|j: int| 0 <= j < ls.len() implies #[trigger] line_views(lines@)[j] == annotated(ls)[j] by {
            assert(lines@[j]@ == (if j < i { annotated(ls)[j] } else { ls[j] }));
            if j >= i {
                assert(j < 2);
            }
        }
        assert(line_views(lines@) =~= annotated(ls));
    }
}


/// A byte as two lower-case hex digits.
pub open spec fn byte_hex(b: u8) -> Seq<char> {
    zero_pad(hex_text(b as nat), 2)
}

/// The bytes as hex pairs separated by single spaces.
pub open spec fn hex_bytes_text(bs: Seq<u8>) -> Seq<char>
    decreases bs.len(),
{
    if bs.len() == 0 {
        Seq::empty()
    } else if bs.len() == 1 {
        byte_hex(bs[0])
    } else {
        hex_bytes_text(bs.drop_last()) + " "@ + byte_hex(bs.last())
    }
}

/// The addresses that get a label: 0 (the entry point) and every target.
pub open spec fn label_set(ls: Seq<LineModel>) -> Set<u16> {
    Set::new(|t: u16| t == 0 || exists|j: int| 0 <= j < ls.len() && #[trigger] ls[j].target == Some(t))
}

/// The `; -> Lxxxx` note of a line with a target.
pub open spec fn comment_text(t: Option<u16>) -> Seq<char> {
    match t {
        Some(t) => "    ; -> L"@ + zero_pad(hex_text(t as nat), 4),
        None => Seq::empty(),
    }
}

/// The label line before an instruction at a labelled address; every label
/// but one at the very start of the listing is preceded by a blank line.
pub open spec fn label_text(l: LineModel, first: bool, labels: Set<u16>) -> Seq<char> {
    if labels.contains((l.addr % 0x1_0000) as u16) {
        (if first { Seq::empty() } else { "\n"@ }) + "L"@ + zero_pad(hex_text(l.addr as nat), 4) + ":\n"@
    } else {
        Seq::empty()
    }
}

/// One instruction's listing line: address, bytes, mnemonic, operand and
/// target note, in padded columns.
pub open spec fn insn_text(l: LineModel) -> Seq<char> {
    zero_pad(hex_text(l.addr as nat), 4) + ":  "@ + space_pad(hex_bytes_text(l.bytes), 14) + "  "@
        + space_pad(l.mnemonic, 12) + " "@ + space_pad(l.operand, 18) + comment_text(l.target)
        + "\n"@
}

/// The listing of the first `n` lines.
pub open spec fn render_prefix(ls: Seq<LineModel>, n: int, labels: Set<u16>) -> Seq<char>
    decreases n,
{
    if n <= 0 {
        Seq::empty()
    } else {
        render_prefix(ls, n - 1, labels) + label_text(ls[n - 1], n - 1 == 0, labels) + insn_text(
            ls[n - 1],
        )
    }
}

/// The whole listing.
pub open spec fn render_text(ls: Seq<LineModel>) -> Seq<char> {
    render_prefix(ls, ls.len() as int, label_set(ls))
}

/// Appends `s` padded with spaces to `width` characters.
fn append_padded(out: &mut String, s: &str, width: usize)
    ensures
        final(out)@ == old(out)@ + space_pad(s@, width as nat),
{
    let len = s.unicode_len();
    append_str(out, s);
    let ghost mid = out@;
    if len < width {
        let mut k: usize = len;
        while k < width
            invariant
                len <= k <= width,
                out@ == mid + crate::fmt::repeat_char(' ', (k - len) as nat),
            decreases width - k,
        {
            push_char(out, ' ');
            k += 1;
            proof {
                assert(out@ =~= mid + crate::fmt::repeat_char(' ', (k - len) as nat));
            }
        }
    }
    proof {
        assert(out@ =~= old(out)@ + space_pad(s@, width as nat));
    }
}

/// The bytes as hex pairs separated by spaces.
fn hex_bytes(bs: &Vec<u8>) -> (res: String)
    ensures
        res@ == hex_bytes_text(bs@),
{
    let mut out = String::new();
    let mut i: usize = 0;
    while i < bs.len()
        invariant
            i <= bs@.len(),
            out@ == hex_bytes_text(bs@.subrange(0, i as int)),
        decreases bs.len() - i,
    {
        let ghost before = out@;
        if i > 0 {
            append_str(&mut out, " ");
        }
        push_hex(&mut out, bs[i] as u128, 2);
        proof {
            let sub = bs@.subrange(0, i + 1);
            assert(sub.last() == bs@[i as int]);
            if i > 0 {
                assert(sub.drop_last() =~= bs@.subrange(0, i as int));
                assert(out@ =~= hex_bytes_text(sub));
            } else {
                assert(bs@.subrange(0, 0) =~= Seq::<u8>::empty());
                assert(out@ =~= hex_bytes_text(sub));
            }
        }
        i += 1;
    }
    proof {
        assert(bs@.subrange(0, i as int) =~= bs@);
    }
    out
}

/// Appends one instruction's listing line.
fn append_insn(out: &mut String, l: &Line)
    ensures
        final(out)@ == old(out)@ + insn_text(l@),
{
    push_hex(out, l.addr as u128, 4);
    append_str(out, ":  ");
    let h = hex_bytes(&l.bytes);
    append_padded(out, h.as_str(), 14);
    append_str(out, "  ");
    append_padded(out, l.mnemonic, 12);
    append_str(out, " ");
    append_padded(out, l.operand.as_str(), 18);
    let ghost before_comment = out@;
    if let Some(t) = l.target {
        append_str(out, "    ; -> L");
        push_hex(out, t as u128, 4);
    }
    proof {
        assert(out@ =~= before_comment + comment_text(l.target));
    }
    append_str(out, "\n");
    proof {
        assert(out@ =~= old(out)@ + insn_text(l@));
    }
}

/// Renders the listing: a label before every instruction at a call or jump
/// target (and at address 0), then one padded line per instruction.
pub fn render(lines: &[Line]) -> (res: String)
    ensures
        res@ == render_text(line_views(lines@)),
{
    let ghost ls = line_views(lines@);
    let ghost labels = label_set(ls);
    // The addresses that get a label.
    let mut marks: HashSet<u16> = HashSet::new();
    let mut i: usize = 0;
    while i < lines.len()
        invariant
            i <= lines@.len(),
            ls == line_views(lines@),
            forall|t: u16|
                #![trigger marks@.contains(t)]
                marks@.contains(t) == exists|j: int| 0 <= j < i && #[trigger] ls[j].target == Some(t),
        decreases lines.len() - i,
    {
        proof {
            assert(ls[i as int] == lines@[i as int]@);
        }
        let ghost old_marks = marks@;
        if let Some(t) = lines[i].target {
            marks.insert(t);
        }
        proof {
            assert forall|t: u16| #![trigger marks@.contains(t)] marks@.contains(t) == exists|j: int|
                0 <= j < i + 1 && #[trigger] ls[j].target == Some(t) by {
                assert(old_marks.contains(t) == exists|j: int| 0 <= j < i && #[trigger] ls[j].target == Some(t));
                if ls[i as int].target == Some(t) {
                    assert(marks@.contains(t));
                } else {
                    assert(marks@.contains(t) == old_marks.contains(t));
                    if exists|j: int| 0 <= j < i + 1 && #[trigger] ls[j].target == Some(t) {
                        let j = choose|j: int| 0 <= j < i + 1 && #[trigger] ls[j].target == Some(t);
                        assert(j < i);
                    }
                }
            }
        }
        i += 1;
    }
    marks.insert(0);
    proof {
        assert forall|t: u16| #![trigger marks@.contains(t)] marks@.contains(t) == labels.contains(t) by {
            if t != 0 {
                assert(marks@.contains(t) == exists|j: int| 0 <= j < lines@.len() && #[trigger] ls[j].target == Some(t));
            }
        }
    }
    let mut out = String::new();
    let mut i: usize = 0;
    while i < lines.len()
        invariant
            i <= lines@.len(),
            ls == line_views(lines@),
            labels == label_set(ls),
            forall|t: u16| #![trigger marks@.contains(t)] marks@.contains(t) == labels.contains(t),
            out@ == render_prefix(ls, i as int, labels),
        decreases lines.len() - i,
    {
        let l = &lines[i];
        let ghost lv = l@;
        proof {
            assert(ls[i as int] == lv);
        }
        let ghost before = out@;
        let key = (l.addr % 0x1_0000) as u16;
        proof {
            assert(marks@.contains(key) == labels.contains(key));
        }
        if marks.contains(&key) {
            if i > 0 {
                append_str(&mut out, "\n");
            }
            append_str(&mut out, "L");
            push_hex(&mut out, l.addr as u128, 4);
            append_str(&mut out, ":\n");
        }
        let ghost after_label = out@;
        proof {
            assert(after_label =~= before + label_text(lv, i as int == 0, labels));
        }
        append_insn(&mut out, l);
        proof {
            assert(out@ =~= render_prefix(ls, i + 1, labels));
        }
        i += 1;
    }
    out
}

} // verus!


