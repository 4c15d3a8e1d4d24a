//! Properties of the compiler and disassembler as a whole, each proved
//! over the definitions in `model.rs`, `encode.rs` and `disasm.rs`.
use vstd::prelude::*;
use crate::disasm::{
    annotated, idiom_target, insn_len, jump_target, lines_from, pushed_value, rel_target, short_value,
    signed32, signed8, LineModel,
};
use crate::fmt::{dec_text, digit_char, hex_text, radix_digits};
use crate::lexer::{all_digits, digit_value, digits_value, lex, number_value, tokens_of, LexMode};
use crate::text::is_ws;
use crate::encode::{
    le_bytes, le_value, lemma_le_roundtrip, literal_bytes, preamble_bytes, prolog_bytes, write_u32,
    write_u32_all,
};
use crate::model::{is_primitive, CompilerModel, CtrlFrame, DictEntry};
use crate::op;

verus! {

/// A successful `finalize` leaves the bootstrap intact and makes it call
/// `main`: the preamble's bytes stand everywhere but in the call's 4-byte
/// address slot, which holds `main`'s address, so the push before the
/// `CALL_ABS` at offset 16 pushes that address and the call goes there.
pub proof fn law_bootstrap_calls_main(m: CompilerModel)
    requires
        m.inv(),
        m.finalize().1 is Done,
    ensures
        m.dict.dom().contains("main"@),
        m.dict["main"@] is Word,
        ({
            let code = m.finalize().0.code;
            let addr = m.dict["main"@]->Word_0;
            &&& code.subrange(0, 12) == preamble_bytes().subrange(0, 12)
            &&& code.subrange(12, 16) == le_bytes(addr as u32)
            &&& code.subrange(16, crate::PREAMBLE_LEN as int) == preamble_bytes().subrange(
                16,
                crate::PREAMBLE_LEN as int,
            )
            &&& code[11] == op::PUSH
            &&& code[16] == op::CALL_ABS
            &&& pushed_value(code, 11) == Some(addr as u32)
            &&& jump_target(code, 16, pushed_value(code, 11)) == Some(addr)
        }),
{
    let addr = m.dict["main"@]->Word_0;
    let m1 = m.patch(12, addr as u32);
    crate::model::lemma_patch_inv(m, 12, addr as u32);
    let code = m1.code;
    assert(code.subrange(12, 16) =~= le_bytes(addr as u32));
    assert(code[11] == m.code.subrange(0, 12)[11]);
    assert(code[16] == m.code.subrange(16, crate::PREAMBLE_LEN as int)[0]);
    assert(preamble_bytes()[11] == op::PUSH);
    assert(preamble_bytes()[16] == op::CALL_ABS);
    assert(code[12] == le_bytes(addr as u32)[0]);
    assert(code[13] == le_bytes(addr as u32)[1]);
    assert(code[14] == le_bytes(addr as u32)[2]);
    assert(code[15] == le_bytes(addr as u32)[3]);
    lemma_le_roundtrip(addr as u32);
    assert((addr as u32) % 0x1_0000 == addr);
}

/// Every literal is pushed by a single instruction of the shortest form
/// (`PUSH_ZERO` for 0, `PUSH_SHORT` within `-128..=127`, else `PUSH`),
/// which the disassembler decodes whole and reads back as the literal
/// truncated to 32 bits.
pub proof fn law_literal_decodes(n: i64)
    ensures
        literal_bytes(n).len() == (if n == 0 {
            1int
        } else if -128 <= n <= 127 {
            2int
        } else {
            5int
        }),
        insn_len(literal_bytes(n), 0) == literal_bytes(n).len(),
        pushed_value(literal_bytes(n), 0) == Some((n as i32) as u32),
{
    let b = literal_bytes(n);
    if n == 0 {
        assert((n as i32) as u32 == 0) by (bit_vector)
            requires
                n == 0,
        ;
    } else if -128 <= n <= 127 {
        let v = (n as i8) as u8;
        assert(short_value(v) == (n as i32) as u32) by {
            assert(((n as i8) as u8) as int == if n >= 0 { n as int } else { n + 256 }) by (bit_vector)
                requires
                    -128 <= n <= 127,
            ;
            assert((n as i32) as u32 as int == if n >= 0 { n as int } else { n + 0x1_0000_0000 })
                by (bit_vector)
                requires
                    -128 <= n <= 127,
            ;
        }
    } else {
        let v = (n as i32) as u32;
        lemma_le_roundtrip(v);
        assert(b[1] == le_bytes(v)[0]);
        assert(b[2] == le_bytes(v)[1]);
        assert(b[3] == le_bytes(v)[2]);
        assert(b[4] == le_bytes(v)[3]);
    }
}


/// `then` fills the open `if` (or `else`) jump's 4-byte slot with the
/// number of bytes from the start of the skipped body to here, the code
/// that follows `then`; the code keeps its length.
pub proof fn law_then_patches_jump(m: CompilerModel)
    requires
        m.inv(),
        m.ctrl.len() > 0,
        m.ctrl.last() is If || m.ctrl.last() is IfElse,
        m.compile_then().1 is Done,
    ensures
        ({
            let (pos, start) = match m.ctrl.last() {
                CtrlFrame::If { placeholder_pos, body_start } => (placeholder_pos as int, body_start as int),
                CtrlFrame::IfElse { placeholder_pos, else_body_start } => (
                    placeholder_pos as int,
                    else_body_start as int,
                ),
                _ => (0, 0),
            };
            let code = m.compile_then().0.code;
            &&& code.len() == m.code.len()
            &&& le_value(code[pos], code[pos + 1], code[pos + 2], code[pos + 3]) == m.here() - start
            &&& code.subrange(0, pos) == m.code.subrange(0, pos)
            &&& code.subrange(pos + 4, code.len() as int) == m.code.subrange(pos + 4, m.code.len() as int)
        }),
{
    crate::model::lemma_pop_frame_inv(m);
    let (pos, start) = match m.ctrl.last() {
        CtrlFrame::If { placeholder_pos, body_start } => (placeholder_pos as int, body_start as int),
        CtrlFrame::IfElse { placeholder_pos, else_body_start } => (
            placeholder_pos as int,
            else_body_start as int,
        ),
        _ => (0, 0),
    };
    let len = m.here() - start;
    let v = len as u32;
    let code = m.compile_then().0.code;
    assert(code == crate::encode::write_u32(m.code, pos, v));
    assert(code[pos] == le_bytes(v)[0]);
    assert(code[pos + 1] == le_bytes(v)[1]);
    assert(code[pos + 2] == le_bytes(v)[2]);
    assert(code[pos + 3] == le_bytes(v)[3]);
    lemma_le_roundtrip(v);
    assert(code.subrange(0, pos) =~= m.code.subrange(0, pos));
    assert(code.subrange(pos + 4, code.len() as int) =~= m.code.subrange(pos + 4, m.code.len() as int));
}

/// Every backward jump (`until`, `again`, `loop`) lands on its target:
/// after the prefix comes one push (`PUSH_SHORT` or `PUSH`) of an offset,
/// then the suffix, and the offset, counted from the end of the sequence,
/// leads back to `begin_pos`. When the suffix ends in `JUMP_REL`, the
/// disassembler sees that jump go to `begin_pos`.
pub proof fn law_back_jump_lands(
    m: CompilerModel,
    begin_pos: int,
    prefix: Seq<u8>,
    suffix: Seq<u8>,
    kw: Seq<char>,
)
    requires
        m.back_jump(begin_pos, prefix, suffix, kw).1 is Done,
    ensures
        ({
            let code = m.back_jump(begin_pos, prefix, suffix, kw).0.code;
            let k = m.here() + prefix.len();
            let end = code.len() as int;
            &&& code.subrange(0, k) == m.code + prefix
            &&& (code[k] == op::PUSH_SHORT || code[k] == op::PUSH)
            &&& code.subrange(k + insn_len(code, k), end) == suffix
            &&& pushed_value(code, k) is Some
            &&& end + signed32(pushed_value(code, k)->0) == begin_pos
            &&& (suffix.len() > 0 && suffix.last() == op::JUMP_REL) ==> rel_target(
                end - 1,
                pushed_value(code, k)->0,
            ) == (begin_pos % 0x1_0000) as u16
        }),
{
    let code = m.back_jump(begin_pos, prefix, suffix, kw).0.code;
    let k = m.here() + prefix.len();
    let end = code.len() as int;
    let off_short = begin_pos - (m.here() + prefix.len() + 2 + suffix.len());
    if -128 <= off_short <= 127 {
        let b = (off_short as i8) as u8;
        assert(code =~= m.code + prefix + seq![op::PUSH_SHORT, b] + suffix);
        assert(code[k] == op::PUSH_SHORT);
        assert(code[k + 1] == b);
        assert(code.subrange(0, k) =~= m.code + prefix);
        assert(code.subrange(k + 2, end) =~= suffix);
        let o = off_short as i32;
        assert(o == off_short);
        assert(((o as i8) as u8) as int == if o >= 0 { o as int } else { o + 256 }) by (bit_vector)
            requires
                -128 <= o <= 127,
        ;
        assert(signed8(b) == off_short);
        assert(signed32(short_value(b)) == signed8(b));
    } else {
        let off_long = begin_pos - (m.here() + prefix.len() + 5 + suffix.len());
        let v = (off_long as i32) as u32;
        assert(code =~= m.code + prefix + crate::encode::push_long(v) + suffix);
        assert(code[k] == op::PUSH);
        assert(code[k + 1] == le_bytes(v)[0]);
        assert(code[k + 2] == le_bytes(v)[1]);
        assert(code[k + 3] == le_bytes(v)[2]);
        assert(code[k + 4] == le_bytes(v)[3]);
        lemma_le_roundtrip(v);
        assert(code.subrange(0, k) =~= m.code + prefix);
        assert(code.subrange(k + 5, end) =~= suffix);
        let o = off_long as i64;
        assert(o == off_long);
        assert(((o as i32) as u32) as int == if o >= 0 { o as int } else { o + 0x1_0000_0000 })
            by (bit_vector)
            requires
                i32::MIN <= o <= i32::MAX,
        ;
        assert(signed32(v) == off_long);
    }
}

/// Two successive `variable` declarations of different names get
/// consecutive 4-byte cells: the second's address is the first's plus 4.
pub proof fn law_variables_consecutive(m: CompilerModel, a: Seq<char>, b: Seq<char>)
    requires
        a != b,
        m.compile_variable(Some(a)).1 is Done,
        m.compile_variable(Some(a)).0.compile_variable(Some(b)).1 is Done,
    ensures
        ({
            let m2 = m.compile_variable(Some(a)).0.compile_variable(Some(b)).0;
            &&& m2.dict[a] == DictEntry::Value(m.here() as i64)
            &&& m2.dict[b] == DictEntry::Value((m.here() + 4) as i64)
            &&& m2.code == m.code + seq![0u8, 0, 0, 0, 0, 0, 0, 0]
        }),
{
    let m1 = m.compile_variable(Some(a)).0;
    let m2 = m1.compile_variable(Some(b)).0;
    assert(m2.code =~= m.code + seq![0u8, 0, 0, 0, 0, 0, 0, 0]);
}


/// Running from position `ta.len() + k` of `ta + tb` is running from
/// position `k` of `tb`.
proof fn lemma_run_shift(m: CompilerModel, ta: Seq<Seq<char>>, tb: Seq<Seq<char>>, k: int)
    requires
        0 <= k,
    ensures
        m.run(ta + tb, ta.len() + k) == m.run(tb, k),
    decreases tb.len() - k,
{
    let toks = ta + tb;
    let i = ta.len() + k;
    if k < tb.len() {
        assert(toks[i] == tb[k]);
        if k + 1 < tb.len() {
            assert(toks[i + 1] == tb[k + 1]);
        }
        if k + 2 < tb.len() {
            assert(toks[i + 2] == tb[k + 2]);
        }
        let t = tb[k];
        let next = if k + 1 < tb.len() { Some(tb[k + 1]) } else { None };
        let after = if k + 2 < tb.len() { Some(tb[k + 2]) } else { None };
        if t == ":"@ {
            if k + 1 < tb.len() {
                lemma_run_shift(m.compile_colon(next).0, ta, tb, k + 2);
            }
        } else if t == "variable"@ {
            if k + 1 < tb.len() {
                lemma_run_shift(m.compile_variable(next).0, ta, tb, k + 2);
            }
        } else if t == "constant"@ {
            if k + 2 < tb.len() {
                lemma_run_shift(m.compile_constant(next, after).0, ta, tb, k + 3);
            }
        } else if t == ";"@ {
            lemma_run_shift(m.compile_semicolon().0, ta, tb, k + 1);
        } else if m.compiling is Some {
            lemma_run_shift(m.compile_token(t).0, ta, tb, k + 1);
        }
    }
}

/// `run` from position `i` of `ta + tb`, when `ta` from `i` compiles
/// without error, is the run of `ta` followed by the run of `tb`.
proof fn lemma_run_concat(m: CompilerModel, ta: Seq<Seq<char>>, tb: Seq<Seq<char>>, i: int)
    requires
        0 <= i <= ta.len(),
        m.run(ta, i).1 is Done,
    ensures
        m.run(ta + tb, i) == m.run(ta, i).0.run(tb, 0),
    decreases ta.len() - i,
{
    let toks = ta + tb;
    if i == ta.len() {
        lemma_run_shift(m, ta, tb, 0);
    } else {
        assert(toks[i] == ta[i]);
        if i + 1 < ta.len() {
            assert(toks[i + 1] == ta[i + 1]);
        }
        if i + 2 < ta.len() {
            assert(toks[i + 2] == ta[i + 2]);
        }
        let t = ta[i];
        let next = if i + 1 < ta.len() { Some(ta[i + 1]) } else { None };
        let after = if i + 2 < ta.len() { Some(ta[i + 2]) } else { None };
        if t == ":"@ {
            lemma_run_concat(m.compile_colon(next).0, ta, tb, i + 2);
        } else if t == "variable"@ {
            lemma_run_concat(m.compile_variable(next).0, ta, tb, i + 2);
        } else if t == "constant"@ {
            lemma_run_concat(m.compile_constant(next, after).0, ta, tb, i + 3);
        } else if t == ";"@ {
            lemma_run_concat(m.compile_semicolon().0, ta, tb, i + 1);
        } else if m.compiling is Some {
            lemma_run_concat(m.compile_token(t).0, ta, tb, i + 1);
        }
    }
}

/// Compiling the tokens `ta` and then, in a second call, the tokens `tb`
/// gives the same state and outcome as compiling `ta + tb` in one call,
/// whenever the first call succeeds.
pub proof fn law_compile_in_chunks(m: CompilerModel, ta: Seq<Seq<char>>, tb: Seq<Seq<char>>)
    requires
        m.run(ta, 0).1 is Done,
    ensures
        m.run(ta + tb, 0) == m.run(ta, 0).0.run(tb, 0),
{
    lemma_run_concat(m, ta, tb, 0);
}


/// Every token `lex` gives from position `i` on is nonempty and free of
/// whitespace, given that an open token so far is.
proof fn lemma_lex_tokens(s: Seq<char>, i: int, mode: LexMode, start: int)
    requires
        0 <= i <= s.len(),
        mode == LexMode::Word ==> 0 <= start < i && forall|j: int| start <= j < i ==> !is_ws(#[trigger] s[j]),
    ensures
        forall|k: int|
            0 <= k < lex(s, i, mode, start).len() ==> #[trigger] lex(s, i, mode, start)[k].len() > 0
                && forall|j: int| 0 <= j < lex(s, i, mode, start)[k].len() ==> !is_ws(lex(s, i, mode, start)[k][j]),
    decreases s.len() - i,
{
    let out = lex(s, i, mode, start);
    if i >= s.len() {
        if mode == LexMode::Word {
            let t = s.subrange(start, s.len() as int);
            assert(out == seq![t]);
            assert forall|j: int| 0 <= j < t.len() implies !is_ws(t[j]) by {
                assert(t[j] == s[start + j]);
            }
        }
    } else {
        let c = s[i];
        match mode {
            LexMode::Gap => if is_ws(c) {
                lemma_lex_tokens(s, i + 1, LexMode::Gap, start);
                assert(out == lex(s, i + 1, LexMode::Gap, start));
            } else if c == '\\' && (i + 1 >= s.len() || is_ws(s[i + 1])) {
                lemma_lex_tokens(s, i + 1, LexMode::LineComment, start);
                assert(out == lex(s, i + 1, LexMode::LineComment, start));
            } else if c == '(' {
                lemma_lex_tokens(s, i + 1, LexMode::BlockComment, start);
                assert(out == lex(s, i + 1, LexMode::BlockComment, start));
            } else {
                lemma_lex_tokens(s, i + 1, LexMode::Word, i);
                assert(out == lex(s, i + 1, LexMode::Word, i));
            },
            LexMode::LineComment => if c == '\n' {
                lemma_lex_tokens(s, i + 1, LexMode::Gap, start);
                assert(out == lex(s, i + 1, LexMode::Gap, start));
            } else {
                lemma_lex_tokens(s, i + 1, LexMode::LineComment, start);
                assert(out == lex(s, i + 1, LexMode::LineComment, start));
            },
            LexMode::BlockComment => if c == ')' {
                lemma_lex_tokens(s, i + 1, LexMode::Gap, start);
                assert(out == lex(s, i + 1, LexMode::Gap, start));
            } else {
                lemma_lex_tokens(s, i + 1, LexMode::BlockComment, start);
                assert(out == lex(s, i + 1, LexMode::BlockComment, start));
            },
            LexMode::Word => if is_ws(c) {
                let t = s.subrange(start, i);
                let rest = lex(s, i + 1, LexMode::Gap, start);
                lemma_lex_tokens(s, i + 1, LexMode::Gap, start);
                assert(out == seq![t] + rest);
                assert forall|k: int| 0 <= k < out.len() implies #[trigger] out[k].len() > 0
                    && forall|j: int| 0 <= j < out[k].len() ==> !is_ws(out[k][j]) by {
                    if k == 0 {
                        assert(out[0] == t);
                        assert forall|j: int| 0 <= j < t.len() implies !is_ws(t[j]) by {
                            assert(t[j] == s[start + j]);
                        }
                    } else {
                        assert(out[k] == rest[k - 1]);
                    }
                }
            } else {
                lemma_lex_tokens(s, i + 1, LexMode::Word, start);
                assert(out == lex(s, i + 1, LexMode::Word, start));
            },
        }
    }
}

/// Every token of a source text is nonempty and contains no whitespace.
pub proof fn law_tokens_are_words(s: Seq<char>)
    ensures
        forall|k: int|
            0 <= k < tokens_of(s).len() ==> #[trigger] tokens_of(s)[k].len() > 0 && forall|j: int|
                0 <= j < tokens_of(s)[k].len() ==> !is_ws(tokens_of(s)[k][j]),
{
    lemma_lex_tokens(s, 0, LexMode::Gap, 0);
}

/// All the lines' bytes, in order.
pub open spec fn joined_bytes(ls: Seq<LineModel>) -> Seq<u8>
    decreases ls.len(),
{
    if ls.len() == 0 {
        Seq::empty()
    } else {
        ls[0].bytes + joined_bytes(ls.drop_first())
    }
}

/// The disassembly of `code[ip..]` covers it exactly: the lines' bytes,
/// joined, are the code, the first line starts at `ip`, and each line
/// starts where the one before it ends.
pub proof fn law_disassembly_tiles(code: Seq<u8>, ip: int, prev_push: Option<u32>)
    requires
        0 <= ip <= code.len(),
    ensures
        ({
            let ls = lines_from(code, ip, prev_push);
            &&& joined_bytes(ls) == code.subrange(ip, code.len() as int)
            &&& ls.len() > 0 ==> ls[0].addr == ip
            &&& forall|k: int|
                0 <= k < ls.len() ==> #[trigger] ls[k].bytes == code.subrange(
                    ls[k].addr,
                    ls[k].addr + ls[k].bytes.len(),
                ) && ls[k].bytes.len() > 0 && (if k + 1 < ls.len() {
                    ls[k + 1].addr
                } else {
                    code.len() as int
                }) == ls[k].addr + ls[k].bytes.len()
        }),
    decreases code.len() - ip,
{
    let ls = lines_from(code, ip, prev_push);
    if ip < code.len() {
        let n = insn_len(code, ip);
        let rest = lines_from(code, ip + n, pushed_value(code, ip));
        law_disassembly_tiles(code, ip + n, pushed_value(code, ip));
        assert(ls == seq![crate::disasm::decode_line(code, ip, prev_push)] + rest);
        assert(ls.drop_first() =~= rest);
        assert(code.subrange(ip, code.len() as int) =~= code.subrange(ip, ip + n) + code.subrange(
            ip + n,
            code.len() as int,
        ));
        assert forall|k: int| 0 <= k < ls.len() implies #[trigger] ls[k].bytes == code.subrange(
            ls[k].addr,
            ls[k].addr + ls[k].bytes.len(),
        ) && ls[k].bytes.len() > 0 && (if k + 1 < ls.len() {
            ls[k + 1].addr
        } else {
            code.len() as int
        }) == ls[k].addr + ls[k].bytes.len() by {
            if k > 0 {
                assert(ls[k] == rest[k - 1]);
                if k + 1 < ls.len() {
                    assert(ls[k + 1] == rest[k]);
                }
            } else {
                if rest.len() > 0 {
                    assert(ls[1] == rest[0]);
                }
            }
        }
    } else {
        assert(code.subrange(ip, code.len() as int) =~= Seq::<u8>::empty());
    }
}

/// Annotating conditional jumps changes no line but for giving a target
/// to a line that had none: addresses, bytes, names and operands stay,
/// and a target already known is kept.
pub proof fn law_annotation_only_adds_targets(ls: Seq<LineModel>)
    ensures
        annotated(ls).len() == ls.len(),
        forall|i: int|
            0 <= i < ls.len() ==> {
                let a = #[trigger] annotated(ls)[i];
                &&& a == (LineModel { target: a.target, ..ls[i] })
                &&& ls[i].target is Some ==> a.target == ls[i].target
            },
{
    assert forall|i: int| 0 <= i < ls.len() implies {
        let a = #[trigger] annotated(ls)[i];
        &&& a == (LineModel { target: a.target, ..ls[i] })
        &&& ls[i].target is Some ==> a.target == ls[i].target
    } by {
        match idiom_target(ls, i) {
            Some(t) => {},
            None => {},
        }
    }
}


/// Position `p` lies in none of the 4-byte slots at `slots`.
pub open spec fn outside_slots(p: int, slots: Seq<usize>) -> bool {
    forall|j: int| 0 <= j < slots.len() ==> p < #[trigger] slots[j] || slots[j] + 4 <= p
}

/// Filling slots that do not overlap: each then holds the value, and every
/// other byte is left as it was.
proof fn lemma_write_all(code: Seq<u8>, slots: Seq<usize>, v: u32)
    requires
        forall|j: int| 0 <= j < slots.len() ==> #[trigger] slots[j] + 4 <= code.len(),
        forall|i: int, j: int|
            0 <= i < slots.len() && 0 <= j < slots.len() && i != j ==> #[trigger] slots[i] + 4
                <= #[trigger] slots[j] || slots[j] + 4 <= slots[i],
    ensures
        write_u32_all(code, slots, v).len() == code.len(),
        forall|j: int|
            0 <= j < slots.len() ==> write_u32_all(code, slots, v).subrange(
                #[trigger] slots[j] as int,
                slots[j] + 4,
            ) == le_bytes(v),
        forall|p: int|
            0 <= p < code.len() && outside_slots(p, slots) ==> #[trigger] write_u32_all(code, slots, v)[p]
                == code[p],
    decreases slots.len(),
{
    if slots.len() > 0 {
        let c1 = write_u32(code, slots[0] as int, v);
        let rest = slots.drop_first();
        assert forall|j: int| 0 <= j < rest.len() implies #[trigger] rest[j] + 4 <= c1.len() by {
            assert(rest[j] == slots[j + 1]);
        }
        assert forall|i: int, j: int|
            0 <= i < rest.len() && 0 <= j < rest.len() && i != j implies #[trigger] rest[i] + 4
                <= #[trigger] rest[j] || rest[j] + 4 <= rest[i] by {
            assert(rest[i] == slots[i + 1]);
            assert(rest[j] == slots[j + 1]);
        }
        lemma_write_all(c1, rest, v);
        let out = write_u32_all(code, slots, v);
        assert(out == write_u32_all(c1, rest, v));
        assert forall|j: int| 0 <= j < slots.len() implies out.subrange(
            #[trigger] slots[j] as int,
            slots[j] + 4,
        ) == le_bytes(v) by {
            if j == 0 {
                let s0 = slots[0] as int;
                assert forall|q: int| s0 <= q < s0 + 4 implies outside_slots(q, rest) by {
                    assert forall|r: int| 0 <= r < rest.len() implies q < #[trigger] rest[r] || rest[r]
                        + 4 <= q by {
                        assert(rest[r] == slots[r + 1]);
                    }
                }
                assert(out.subrange(s0, s0 + 4) =~= c1.subrange(s0, s0 + 4));
                assert(c1.subrange(s0, s0 + 4) =~= le_bytes(v));
            } else {
                assert(slots[j] == rest[j - 1]);
            }
        }
        assert forall|p: int| 0 <= p < code.len() && outside_slots(p, slots) implies #[trigger] out[p]
            == code[p] by {
            assert(p < slots[0] || slots[0] + 4 <= p);
            assert(outside_slots(p, rest)) by {
                assert forall|r: int| 0 <= r < rest.len() implies p < #[trigger] rest[r] || rest[r] + 4
                    <= p by {
                    assert(rest[r] == slots[r + 1]);
                }
            }
        }
    }
}

/// Defining a word resolves its forward references: `: name` gives `name`
/// the current address, writes that address into every call slot that
/// was waiting for it, leaves every other byte of the code as it was, and
/// emits the word's prolog. `name` then has no pending slot.
pub proof fn law_definition_resolves_forward_calls(m: CompilerModel, name: Seq<char>)
    requires
        m.inv(),
        m.compile_colon(Some(name)).1 is Done,
    ensures
        ({
            let m2 = m.compile_colon(Some(name)).0;
            let addr = m.here() as u16;
            let slots = if m.fwd_refs.dom().contains(name) { m.fwd_refs[name] } else { Seq::empty() };
            &&& m2.dict[name] == DictEntry::Word(addr)
            &&& !m2.fwd_refs.dom().contains(name)
            &&& m2.code.len() == m.code.len() + prolog_bytes().len()
            &&& m2.code.subrange(m.code.len() as int, m2.code.len() as int) == prolog_bytes()
            &&& forall|j: int|
                0 <= j < slots.len() ==> m2.code.subrange(#[trigger] slots[j] as int, slots[j] + 4)
                    == le_bytes(addr as u32)
            &&& forall|p: int| 0 <= p < m.code.len() && outside_slots(p, slots) ==> #[trigger] m2.code[p] == m.code[p]
        }),
{
    let addr = m.here() as u16;
    let m1 = CompilerModel { dict: m.dict.insert(name, DictEntry::Word(addr)), ..m };
    let mr = m1.resolve_forward(name, addr);
    let m2 = m.compile_colon(Some(name)).0;
    assert(m2.code == mr.code + prolog_bytes());
    if m.fwd_refs.dom().contains(name) {
        let slots = m.fwd_refs[name];
        assert forall|j: int| 0 <= j < slots.len() implies #[trigger] slots[j] + 4 <= m.code.len() by {
            assert(m.fwd_refs[name][j] + 4 <= m.code.len());
        }
        assert forall|i: int, j: int|
            0 <= i < slots.len() && 0 <= j < slots.len() && i != j implies #[trigger] slots[i] + 4
                <= #[trigger] slots[j] || slots[j] + 4 <= slots[i] by {
            assert(crate::model::slots_apart(m.fwd_refs));
            assert(m.fwd_refs[name][i] + 4 <= m.fwd_refs[name][j] || m.fwd_refs[name][j] + 4
                <= m.fwd_refs[name][i]);
        }
        lemma_write_all(m.code, slots, addr as u32);
        assert forall|j: int| 0 <= j < slots.len() implies m2.code.subrange(
            #[trigger] slots[j] as int,
            slots[j] + 4,
        ) == le_bytes(addr as u32) by {
            assert(m2.code.subrange(slots[j] as int, slots[j] + 4) =~= mr.code.subrange(
                slots[j] as int,
                slots[j] + 4,
            ));
        }
    }
    assert(m2.code.subrange(m.code.len() as int, m2.code.len() as int) =~= prolog_bytes());
}

/// Redefining a name leaves the code emitted so far untouched, so earlier
/// call sites keep calling the old definition: `: name` on a name already
/// defined only emits the new word's prolog and points `name` at it.
pub proof fn law_redefinition_keeps_old_calls(m: CompilerModel, name: Seq<char>)
    requires
        m.inv(),
        m.dict.dom().contains(name),
        m.compile_colon(Some(name)).1 is Done,
    ensures
        m.compile_colon(Some(name)).0.code == m.code + prolog_bytes(),
        m.compile_colon(Some(name)).0.dict[name] == DictEntry::Word(m.here() as u16),
{
    assert(!m.fwd_refs.dom().contains(name));
}


/// Primitives are looked up before the dictionary: with `swap` defined as
/// the prelude defines it, a primitive compiles to its own code, and to the
/// same code whether or not a word or value of the same name exists.
pub proof fn law_primitives_shadow_dictionary(m: CompilerModel, tok: Seq<char>, e: DictEntry)
    requires
        is_primitive(tok),
        m.swap_is_word(),
    ensures
        m.compile_token(tok).1 is Done,
        m.compile_token(tok).0 == m.emit(m.primitive_code(tok)),
        (CompilerModel { dict: m.dict.insert(tok, e), ..m }).compile_token(tok).0.code == m.compile_token(
            tok,
        ).0.code,
{
    reveal_strlit("+");
    reveal_strlit("*");
    reveal_strlit("and");
    reveal_strlit("or");
    reveal_strlit("xor");
    reveal_strlit("=");
    reveal_strlit("<>");
    reveal_strlit("not");
    reveal_strlit("invert");
    reveal_strlit("negate");
    reveal_strlit("drop");
    reveal_strlit("@");
    reveal_strlit("!");
    reveal_strlit("halt");
    reveal_strlit("syscall");
    reveal_strlit("skip");
    reveal_strlit("<");
    reveal_strlit("<=");
    reveal_strlit(">");
    reveal_strlit(">=");
    reveal_strlit("-");
    reveal_strlit("/");
    reveal_strlit("mod");
    reveal_strlit("lshift");
    reveal_strlit("rshift");
    reveal_strlit("dup");
    reveal_strlit("over");
    reveal_strlit("exit");
    reveal_strlit("if");
    reveal_strlit("else");
    reveal_strlit("then");
    reveal_strlit("begin");
    reveal_strlit("until");
    reveal_strlit("again");
    reveal_strlit("do");
    reveal_strlit("loop");
    reveal_strlit("i");
    reveal_strlit("swap");
    assert(tok.len() > 0 && tok[0] != '0' && !('0' <= tok[0] && tok[0] <= '9'));
    assert(!crate::lexer::has_hex_prefix(tok));
    assert(!crate::lexer::has_neg_hex_prefix(tok));
    assert(crate::lexer::number_value(tok) is None) by {
        if tok.len() == 1 {
            assert(tok[0] != '-' ==> crate::lexer::digit_value(tok[0], 10) < 0);
        } else {
            assert(tok[0] != '-');
            assert(crate::lexer::digit_value(tok[0], 10) < 0);
        }
    }
    assert(tok != "swap"@) by {
        assert("swap"@.len() == 4 && "swap"@[0] == 's' && "swap"@[1] == 'w');
        if tok == "swap"@ {
            assert(tok[0] == 's' && tok[1] == 'w');
        }
    }
}


/// Compiling source `a` and then, in a second call, source `b` gives the
/// same state and outcome as compiling a source `ab` whose tokens are those
/// of `a` followed by those of `b` (such as `a`, a newline and `b`, when `a`
/// does not end inside a comment), whenever the first call succeeds.
pub proof fn law_compile_sources_in_chunks(m: CompilerModel, a: Seq<char>, b: Seq<char>, ab: Seq<char>)
    requires
        tokens_of(ab) == tokens_of(a) + tokens_of(b),
        m.compile_source(a).1 is Done,
    ensures
        m.compile_source(ab) == m.compile_source(a).0.compile_source(b),
{
    lemma_run_concat(m, tokens_of(a), tokens_of(b), 0);
}

/// The digit characters the library prints read back as their values.
proof fn lemma_digit_char(d: int, radix: int)
    requires
        radix == 10 || radix == 16,
        0 <= d < radix,
    ensures
        digit_value(digit_char(d), radix) == d,
        digit_char(d) != '-' && digit_char(d) != 'x',
{
    if d < 10 {
        assert(('0' as int + d) as char as int == '0' as int + d);
    } else {
        assert(('a' as int + d - 10) as char as int == 'a' as int + d - 10);
    }
}

/// The digits of `n` in `radix` are digits of that radix whose value is `n`.
proof fn lemma_radix_digits(n: nat, radix: int)
    requires
        radix == 10 || radix == 16,
    ensures
        radix_digits(n, radix as nat).len() > 0,
        all_digits(radix_digits(n, radix as nat), radix),
        digits_value(radix_digits(n, radix as nat), radix) == n,
        forall|i: int|
            0 <= i < radix_digits(n, radix as nat).len() ==> #[trigger] radix_digits(n, radix as nat)[i]
                != '-' && radix_digits(n, radix as nat)[i] != 'x',
    decreases n,
{
    let s = radix_digits(n, radix as nat);
    if n < radix {
        lemma_digit_char(n as int, radix);
        assert(s == seq![digit_char(n as int)]);
        assert(s.drop_last() =~= Seq::<char>::empty());
        assert(digits_value(s.drop_last(), radix) == 0);
        assert(digits_value(s, radix) == 0 * radix + digit_value(s.last(), radix));
    } else {
        let q = n / (radix as nat);
        let r = n % (radix as nat);
        vstd::arithmetic::div_mod::lemma_div_decreases(n as int, radix);
        lemma_radix_digits(q, radix);
        lemma_digit_char(r as int, radix);
        let p = radix_digits(q, radix as nat);
        assert(s == p.push(digit_char(r as int)));
        assert(s.drop_last() =~= p);
        assert forall|i: int| 0 <= i < s.len() implies #[trigger] digit_value(s[i], radix) >= 0 by {
            if i < p.len() {
                assert(s[i] == p[i]);
            }
        }
        assert forall|i: int| 0 <= i < s.len() implies #[trigger] s[i] != '-' && s[i] != 'x' by {
            if i < p.len() {
                assert(s[i] == p[i]);
            }
        }
        assert(q * radix + r == n) by {
            vstd::arithmetic::div_mod::lemma_fundamental_div_mod(n as int, radix);
            vstd::arithmetic::mul::lemma_mul_is_commutative(q as int, radix);
        }
        assert(digits_value(s, radix) == digits_value(p, radix) * radix + digit_value(
            s.last(),
            radix,
        ));
        assert(s.last() == digit_char(r as int));
    }
}

/// Number text round-trips: the decimal text of any `i64`, and the `0x`
/// and `-0x` hex texts of any nonnegative `i64`, as the library prints
/// them, parse back to the number.
pub proof fn law_number_text_roundtrip(n: i64)
    ensures
        number_value(dec_text(n as int)) == Some(n),
        n >= 0 ==> number_value("0x"@ + hex_text(n as nat)) == Some(n),
        n >= 0 ==> number_value("-0x"@ + hex_text(n as nat)) == Some((-n) as i64),
{
    reveal_strlit("0x");
    reveal_strlit("-0x");
    let t = dec_text(n as int);
    if n < 0 {
        let d = radix_digits((-n) as nat, 10);
        lemma_radix_digits((-n) as nat, 10);
        assert(t == seq!['-'] + d);
        assert(t.drop_first() =~= d);
        assert(t[1] == d[0]);
        if d.len() > 1 {
            assert(t[2] == d[1]);
        }
    } else {
        let d = radix_digits(n as nat, 10);
        lemma_radix_digits(n as nat, 10);
        assert(t == d);
        assert(t[0] == d[0]);
        if d.len() > 1 {
            assert(t[1] == d[1]);
        }
        let h = hex_text(n as nat);
        lemma_radix_digits(n as nat, 16);
        assert(("0x"@ + h).skip(2) =~= h);
        assert(("-0x"@ + h).skip(3) =~= h);
        assert(("-0x"@ + h)[0] == '-');
        assert(("0x"@ + h)[0] == '0' && ("0x"@ + h)[1] == 'x');
    }
}


/// What every compile step keeps, from state `m` to state `m2`: the code
/// never shrinks, `main`'s slot in the bootstrap (bytes 12..16) is left as
/// it was, no name leaves the dictionary, and a name that is still not
/// defined keeps every call slot it was waiting on, in order.
pub open spec fn kept(m: CompilerModel, m2: CompilerModel) -> bool {
    &&& m2.code.len() >= m.code.len()
    &&& m2.code.subrange(12, 16) == m.code.subrange(12, 16)
    &&& forall|k: Seq<char>| #[trigger] m.dict.dom().contains(k) ==> m2.dict.dom().contains(k)
    &&& forall|k: Seq<char>|
        #[trigger] m.fwd_refs.dom().contains(k) && !m2.dict.dom().contains(k) ==> m2.fwd_refs.dom().contains(k)
            && m.fwd_refs[k].len() <= m2.fwd_refs[k].len() && m2.fwd_refs[k].subrange(
            0,
            m.fwd_refs[k].len() as int,
        ) == m.fwd_refs[k]
}

/// A step that changes neither the dictionary nor the pending slots, and
/// only adds to the code after the bootstrap, keeps what every step keeps.
proof fn lemma_kept_same_names(m: CompilerModel, m2: CompilerModel)
    requires
        m2.dict == m.dict,
        m2.fwd_refs == m.fwd_refs,
        m2.code.len() >= m.code.len(),
        m2.code.subrange(12, 16) == m.code.subrange(12, 16),
    ensures
        kept(m, m2),
{
    assert forall|k: Seq<char>| #[trigger] m.fwd_refs.dom().contains(k) && !m2.dict.dom().contains(k)
        implies m2.fwd_refs.dom().contains(k) && m.fwd_refs[k].len() <= m2.fwd_refs[k].len()
        && m2.fwd_refs[k].subrange(0, m.fwd_refs[k].len() as int) == m.fwd_refs[k] by {
        assert(m2.fwd_refs[k].subrange(0, m.fwd_refs[k].len() as int) =~= m.fwd_refs[k]);
    }
}

proof fn lemma_kept_trans(a: CompilerModel, b: CompilerModel, c: CompilerModel)
    requires
        kept(a, b),
        kept(b, c),
    ensures
        kept(a, c),
{
    assert forall|k: Seq<char>| #[trigger] a.fwd_refs.dom().contains(k) && !c.dict.dom().contains(k)
        implies c.fwd_refs.dom().contains(k) && a.fwd_refs[k].len() <= c.fwd_refs[k].len()
        && c.fwd_refs[k].subrange(0, a.fwd_refs[k].len() as int) == a.fwd_refs[k] by {
        if b.dict.dom().contains(k) {
            assert(c.dict.dom().contains(k));
        }
        assert(b.fwd_refs.dom().contains(k));
        assert(c.fwd_refs[k].subrange(0, a.fwd_refs[k].len() as int) =~= c.fwd_refs[k].subrange(
            0,
            b.fwd_refs[k].len() as int,
        ).subrange(0, a.fwd_refs[k].len() as int));
    }
}

/// Appending bytes keeps the invariant and what every step keeps.
proof fn lemma_emit_step(m: CompilerModel, b: Seq<u8>)
    requires
        m.inv(),
    ensures
        m.emit(b).inv(),
        kept(m, m.emit(b)),
        m.emit(b).code.subrange(0, m.code.len() as int) == m.code,
{
    crate::model::lemma_emit_inv(m, b);
    assert(m.emit(b).code.subrange(12, 16) =~= m.code.subrange(12, 16));
    lemma_kept_same_names(m, m.emit(b));
    assert(m.emit(b).code.subrange(0, m.code.len() as int) =~= m.code);
}

/// Patching four bytes of user code keeps the invariant and what every
/// step keeps.
proof fn lemma_patch_step(m: CompilerModel, pos: int, v: u32)
    requires
        m.inv(),
        crate::PREAMBLE_LEN <= pos,
        pos + 4 <= m.code.len(),
        crate::model::clear_of_slots(pos, m.fwd_refs),
    ensures
        m.patch(pos, v).inv(),
        kept(m, m.patch(pos, v)),
{
    crate::model::lemma_patch_inv(m, pos, v);
    assert(m.patch(pos, v).code.subrange(12, 16) =~= m.code.subrange(12, 16));
    lemma_kept_same_names(m, m.patch(pos, v));
}

proof fn lemma_back_jump_step(m: CompilerModel, begin_pos: int, prefix: Seq<u8>, suffix: Seq<u8>, kw: Seq<char>)
    requires
        m.inv(),
    ensures
        m.back_jump(begin_pos, prefix, suffix, kw).0.inv(),
        kept(m, m.back_jump(begin_pos, prefix, suffix, kw).0),
        m.back_jump(begin_pos, prefix, suffix, kw).0 == (CompilerModel {
            code: m.back_jump(begin_pos, prefix, suffix, kw).0.code,
            ..m
        }),
        m.back_jump(begin_pos, prefix, suffix, kw).0.code.subrange(0, m.code.len() as int) == m.code,
        !(m.back_jump(begin_pos, prefix, suffix, kw).1 is Done) ==> m.back_jump(
            begin_pos,
            prefix,
            suffix,
            kw,
        ).0 == m,
{
    let off_short = begin_pos - (m.here() + prefix.len() + 2 + suffix.len());
    if -128 <= off_short <= 127 {
        lemma_emit_step(m, prefix + seq![op::PUSH_SHORT, (off_short as i8) as u8] + suffix);
    } else {
        let off_long = begin_pos - (m.here() + prefix.len() + 5 + suffix.len());
        if i32::MIN <= off_long <= i32::MAX {
            lemma_emit_step(m, prefix + crate::encode::push_long((off_long as i32) as u32) + suffix);
        } else {
            assert(m.code.subrange(0, m.code.len() as int) =~= m.code);
            lemma_kept_same_names(m, m);
        }
    }
}

/// A forward call keeps the invariant, given the name is not defined.
pub proof fn lemma_forward_call_step(m: CompilerModel, name: Seq<char>)
    requires
        m.inv(),
        !m.dict.dom().contains(name),
        m.code.len() + 1 <= usize::MAX,
    ensures
        m.compile_forward_call(name).inv(),
        kept(m, m.compile_forward_call(name)),
        m.compile_forward_call(name).dict == m.dict,
        m.compile_forward_call(name).code.subrange(0, m.code.len() as int) == m.code,
{
    let m1 = m.emit(seq![op::PUSH, 0, 0, 0, 0, op::CALL_ABS]);
    lemma_emit_step(m, seq![op::PUSH, 0, 0, 0, 0, op::CALL_ABS]);
    let m2 = m.compile_forward_call(name);
    let old_map = m.fwd_refs;
    let f = m2.fwd_refs;
    let slots = if old_map.dom().contains(name) { old_map[name] } else { Seq::empty() };
    let new_slots = slots.push((m.here() + 1) as usize);
    let last = new_slots.len() - 1;
    assert(f == old_map.insert(name, new_slots));
    assert forall|i: int| 0 <= i < m2.ctrl.len() implies crate::model::frame_ok(
        #[trigger] m2.ctrl[i],
        m2.code.len(),
    ) by {
        assert(crate::model::frame_ok(m1.ctrl[i], m1.code.len()));
    }
    assert forall|k: Seq<char>, j: int|
        #![trigger f[k][j]]
        f.dom().contains(k) && 0 <= j < f[k].len() implies crate::PREAMBLE_LEN <= f[k][j] && f[k][j] + 4
            <= m2.code.len() by {
        if k == name {
            if j < last {
                assert(f[k][j] == slots[j]);
                assert(old_map[k][j] + 4 <= m.code.len());
            }
        } else {
            assert(old_map[k][j] + 4 <= m.code.len());
        }
    }
    assert forall|k1: Seq<char>, j1: int, k2: Seq<char>, j2: int|
        #![trigger f[k1][j1], f[k2][j2]]
        f.dom().contains(k1) && f.dom().contains(k2) && 0 <= j1 < f[k1].len() && 0 <= j2 < f[k2].len()
            && (k1 != k2 || j1 != j2) implies f[k1][j1] + 4 <= f[k2][j2] || f[k2][j2] + 4
            <= f[k1][j1] by {
        let new1 = k1 == name && j1 == last;
        let new2 = k2 == name && j2 == last;
        if !new1 {
            assert(f[k1][j1] == old_map[k1][j1]);
            assert(old_map[k1][j1] + 4 <= m.code.len());
        }
        if !new2 {
            assert(f[k2][j2] == old_map[k2][j2]);
            assert(old_map[k2][j2] + 4 <= m.code.len());
        }
        if !new1 && !new2 {
            assert(crate::model::slots_apart(old_map));
            assert(old_map[k1][j1] + 4 <= old_map[k2][j2] || old_map[k2][j2] + 4 <= old_map[k1][j1]);
        }
    }
    assert(f.dom() =~= old_map.dom().insert(name));
    assert forall|k: Seq<char>, j: int|
        #![trigger f[k][j]]
        f.dom().contains(k) && 0 <= j < f[k].len() implies m2.code.subrange(f[k][j] as int, f[k][j] + 4)
            == seq![0u8, 0, 0, 0] by {
        if k == name && j == last {
            assert(m2.code.subrange(f[k][j] as int, f[k][j] + 4) =~= seq![0u8, 0, 0, 0]);
        } else {
            assert(f[k][j] == old_map[k][j]);
            assert(m1.code.subrange(old_map[k][j] as int, old_map[k][j] + 4) == seq![0u8, 0, 0, 0]);
        }
    }
    assert forall|i: int| 0 <= i < m2.ctrl.len() implies crate::model::frame_clear(
        #[trigger] m2.ctrl[i],
        f,
    ) by {
        let fr = m.ctrl[i];
        assert(crate::model::frame_clear(fr, old_map));
        assert(crate::model::frame_ok(fr, m.code.len()));
        match fr {
            CtrlFrame::If { placeholder_pos, .. } => {
                assert forall|k: Seq<char>, j: int|
                    #![trigger f[k][j]]
                    f.dom().contains(k) && 0 <= j < f[k].len() implies placeholder_pos + 4 <= f[k][j]
                        || f[k][j] + 4 <= placeholder_pos by {
                    if !(k == name && j == last) {
                        assert(f[k][j] == old_map[k][j]);
                    }
                }
            },
            CtrlFrame::IfElse { placeholder_pos, .. } => {
                assert forall|k: Seq<char>, j: int|
                    #![trigger f[k][j]]
                    f.dom().contains(k) && 0 <= j < f[k].len() implies placeholder_pos + 4 <= f[k][j]
                        || f[k][j] + 4 <= placeholder_pos by {
                    if !(k == name && j == last) {
                        assert(f[k][j] == old_map[k][j]);
                    }
                }
            },
            _ => {},
        }
    }
    assert forall|k: Seq<char>| #[trigger] m.fwd_refs.dom().contains(k) && !m2.dict.dom().contains(k)
        implies m2.fwd_refs.dom().contains(k) && m.fwd_refs[k].len() <= m2.fwd_refs[k].len()
        && m2.fwd_refs[k].subrange(0, m.fwd_refs[k].len() as int) == m.fwd_refs[k] by {
        if k == name {
            assert(new_slots.subrange(0, slots.len() as int) =~= slots);
        } else {
            assert(f[k] == old_map[k]);
            assert(f[k].subrange(0, old_map[k].len() as int) =~= old_map[k]);
        }
    }
}


/// The open control structures change but nothing else does.
proof fn lemma_frames_step(m: CompilerModel, m2: CompilerModel)
    requires
        m2.inv(),
        m2 == (CompilerModel { ctrl: m2.ctrl, do_depth: m2.do_depth, ..m }),
    ensures
        kept(m, m2),
{
    lemma_kept_same_names(m, m2);
}

proof fn lemma_if_step(m: CompilerModel)
    requires
        m.inv(),
        m.code.len() + 64 <= usize::MAX,
    ensures
        m.compile_if().inv(),
        kept(m, m.compile_if()),
        m.compile_if().code.len() == m.code.len() + 8,
        m.compile_if().code.subrange(0, m.code.len() as int) == m.code,
        m.compile_if().dict == m.dict,
{
    let p = m.here();
    let b = seq![op::LOGICAL_NOT, op::PUSH, 0, 0, 0, 0, op::MUL, op::JUMP_REL];
    let m1 = m.emit(b);
    lemma_emit_step(m, b);
    let f = CtrlFrame::If { placeholder_pos: (p + 2) as usize, body_start: (p + 8) as usize };
    crate::model::lemma_push_frame_inv(m1, f);
    lemma_frames_step(m1, m1.push_frame(f));
    lemma_kept_trans(m, m1, m1.push_frame(f));
}

proof fn lemma_else_step(m: CompilerModel)
    requires
        m.inv(),
        m.code.len() + 64 <= usize::MAX,
    ensures
        m.compile_else().0.inv(),
        kept(m, m.compile_else().0),
        m.compile_else().0.code.len() <= m.code.len() + 6,
{
    if m.ctrl.len() > 0 {
        crate::model::lemma_pop_frame_inv(m);
        let m1 = m.pop_frame();
        lemma_frames_step(m, m1);
        match m.ctrl.last() {
            CtrlFrame::If { placeholder_pos, body_start } => {
                let b = seq![op::PUSH, 0, 0, 0, 0, op::JUMP_REL];
                let m2 = m1.emit(b);
                lemma_emit_step(m1, b);
                lemma_kept_trans(m, m1, m2);
                let true_len = m1.here() - body_start;
                let if_offset = true_len + 6;
                if if_offset <= i32::MAX {
                    let m3 = m2.patch(placeholder_pos as int, if_offset as u32);
                    lemma_patch_step(m2, placeholder_pos as int, if_offset as u32);
                    lemma_kept_trans(m, m2, m3);
                    let f = CtrlFrame::IfElse {
                        placeholder_pos: (m1.here() + 1) as usize,
                        else_body_start: (m1.here() + 6) as usize,
                    };
                    crate::model::lemma_push_frame_inv(m3, f);
                    lemma_frames_step(m3, m3.push_frame(f));
                    lemma_kept_trans(m, m3, m3.push_frame(f));
                }
            },
            _ => {},
        }
    } else {
        lemma_kept_same_names(m, m);
    }
}

proof fn lemma_then_step(m: CompilerModel)
    requires
        m.inv(),
    ensures
        m.compile_then().0.inv(),
        kept(m, m.compile_then().0),
        m.compile_then().0.code.len() == m.code.len(),
{
    if m.ctrl.len() > 0 {
        crate::model::lemma_pop_frame_inv(m);
        let m1 = m.pop_frame();
        lemma_frames_step(m, m1);
        let slot = match m.ctrl.last() {
            CtrlFrame::If { placeholder_pos, body_start } => Some((placeholder_pos, body_start)),
            CtrlFrame::IfElse { placeholder_pos, else_body_start } => Some(
                (placeholder_pos, else_body_start),
            ),
            _ => None,
        };
        match slot {
            Some((pos, start)) => {
                let len = m1.here() - start;
                if len <= i32::MAX {
                    lemma_patch_step(m1, pos as int, len as u32);
                    lemma_kept_trans(m, m1, m1.patch(pos as int, len as u32));
                }
            },
            None => {},
        }
    } else {
        lemma_kept_same_names(m, m);
    }
}

proof fn lemma_do_step(m: CompilerModel)
    requires
        m.inv(),
        m.code.len() + 64 <= usize::MAX,
    ensures
        m.compile_do().0.inv(),
        kept(m, m.compile_do().0),
        m.compile_do().0.code.len() <= m.code.len() + 12,
        m.compile_do().0.dict == m.dict,
        m.compile_do().0.code.subrange(0, m.code.len() as int) == m.code,
        !(m.compile_do().1 is Done) ==> m.compile_do().0.code == m.code,
{
    if m.do_depth >= crate::DO_LOOP_MAX_DEPTH {
        lemma_kept_same_names(m, m);
        assert(m.code.subrange(0, m.code.len() as int) =~= m.code);
    } else {
        let idx = crate::model::do_index_addr(m.do_depth);
        let b = crate::encode::push_long(idx) + seq![op::STORE_ABS] + crate::encode::push_long(
            (idx + 4) as u32,
        ) + seq![op::STORE_ABS];
        let m1 = m.emit(b);
        lemma_emit_step(m, b);
        let m2 = CompilerModel { do_depth: m.do_depth + 1, ..m1 };
        lemma_frames_step(m1, m2);
        lemma_kept_trans(m, m1, m2);
        let f = CtrlFrame::Do { begin_pos: m1.here() as usize, depth: m.do_depth as usize };
        crate::model::lemma_push_frame_inv(m2, f);
        lemma_frames_step(m2, m2.push_frame(f));
        lemma_kept_trans(m, m2, m2.push_frame(f));
    }
}

proof fn lemma_loop_step(m: CompilerModel)
    requires
        m.inv(),
        m.code.len() + 64 <= usize::MAX,
    ensures
        m.compile_loop().0.inv(),
        kept(m, m.compile_loop().0),
        m.compile_loop().0.code.len() <= m.code.len() + 32,
        m.compile_loop().0.dict == m.dict,
        m.compile_loop().0.code.subrange(0, m.code.len() as int) == m.code,
{
    assert(m.code.subrange(0, m.code.len() as int) =~= m.code);
    if m.ctrl.len() == 0 {
        lemma_kept_same_names(m, m);
    } else {
        crate::model::lemma_pop_frame_inv(m);
        let m0 = m.pop_frame();
        lemma_frames_step(m, m0);
        match m.ctrl.last() {
            CtrlFrame::Do { begin_pos, depth } => {
                let m1 = CompilerModel { do_depth: (m.do_depth - 1) as nat, ..m0 };
                lemma_frames_step(m, m1);
                let b = CompilerModel::loop_step_bytes(depth as nat);
                let m2 = m1.emit(b);
                lemma_emit_step(m1, b);
                lemma_kept_trans(m, m1, m2);
                lemma_back_jump_step(m2, begin_pos as int, Seq::empty(), seq![op::MUL, op::JUMP_REL], "loop"@);
                lemma_kept_trans(m, m2, m2.back_jump(begin_pos as int, Seq::empty(), seq![op::MUL, op::JUMP_REL], "loop"@).0);
                assert(m2.code.subrange(0, m.code.len() as int) =~= m.code);
                let r = m2.back_jump(begin_pos as int, Seq::empty(), seq![op::MUL, op::JUMP_REL], "loop"@).0;
                assert(r.code.subrange(0, m.code.len() as int) =~= r.code.subrange(0, m2.code.len() as int).subrange(0, m.code.len() as int));
            },
            _ => {},
        }
    }
}


proof fn lemma_until_again_step(m: CompilerModel, until: bool)
    requires
        m.inv(),
    ensures
        ({
            let r = if until { m.compile_until() } else { m.compile_again() };
            &&& r.0.inv()
            &&& kept(m, r.0)
            &&& r.0.code.len() <= m.code.len() + 10
            &&& r.0.dict == m.dict
            &&& r.0.code.subrange(0, m.code.len() as int) == m.code
            &&& !(r.1 is Done) ==> r.0.code == m.code
        }),
{
    assert(m.code.subrange(0, m.code.len() as int) =~= m.code);
    if m.ctrl.len() == 0 {
        lemma_kept_same_names(m, m);
    } else {
        crate::model::lemma_pop_frame_inv(m);
        let m0 = m.pop_frame();
        lemma_frames_step(m, m0);
        match m.ctrl.last() {
            CtrlFrame::Begin { begin_pos } => {
                let (prefix, suffix, kw) = if until {
                    (seq![op::LOGICAL_NOT], seq![op::MUL, op::JUMP_REL], "until"@)
                } else {
                    (Seq::<u8>::empty(), seq![op::JUMP_REL], "again"@)
                };
                lemma_back_jump_step(m0, begin_pos as int, prefix, suffix, kw);
                lemma_kept_trans(m, m0, m0.back_jump(begin_pos as int, prefix, suffix, kw).0);
            },
            _ => {},
        }
    }
}

/// Compiling one token inside a word body keeps the invariant and what
/// every step keeps, and adds at most 64 bytes of code.
proof fn lemma_token_step(m: CompilerModel, tok: Seq<char>)
    requires
        m.inv(),
        m.code.len() + 64 <= usize::MAX,
    ensures
        m.compile_token(tok).0.inv(),
        kept(m, m.compile_token(tok).0),
        m.compile_token(tok).0.code.len() <= m.code.len() + 64,
        tok != "else"@ && tok != "then"@ ==> {
            let r = m.compile_token(tok);
            &&& r.0.dict == m.dict
            &&& r.0.code.subrange(0, m.code.len() as int) == m.code
            &&& !(r.1 is Done) && tok != "loop"@ ==> r.0.code == m.code
        },
{
    assert(m.code.subrange(0, m.code.len() as int) =~= m.code);
    if crate::lexer::number_value(tok) is Some {
        lemma_emit_step(m, literal_bytes(crate::lexer::number_value(tok)->0));
    } else if tok == "exit"@ {
        lemma_emit_step(m, crate::encode::epilog_bytes());
    } else if tok == "if"@ {
        lemma_if_step(m);
    } else if tok == "else"@ {
        lemma_else_step(m);
    } else if tok == "then"@ {
        lemma_then_step(m);
    } else if tok == "begin"@ {
        let f = CtrlFrame::Begin { begin_pos: m.here() as usize };
        crate::model::lemma_push_frame_inv(m, f);
        lemma_frames_step(m, m.push_frame(f));
    } else if tok == "until"@ {
        lemma_until_again_step(m, true);
    } else if tok == "again"@ {
        lemma_until_again_step(m, false);
    } else if tok == "do"@ {
        lemma_do_step(m);
    } else if tok == "loop"@ {
        lemma_loop_step(m);
    } else if tok == "i"@ {
        if m.do_depth == 0 {
            lemma_kept_same_names(m, m);
        } else {
            lemma_emit_step(
                m,
                crate::encode::push_long(crate::model::do_index_addr((m.do_depth - 1) as nat)) + seq![
                    op::LOAD_ABS,
                ],
            );
        }
    } else if is_primitive(tok) {
        if crate::model::swap_op(tok) is Some && !m.swap_is_word() {
            lemma_kept_same_names(m, m);
        } else {
            lemma_emit_step(m, m.primitive_code(tok));
        }
    } else if m.dict.dom().contains(tok) {
        match m.dict[tok] {
            DictEntry::Word(addr) => lemma_emit_step(m, crate::encode::call_bytes(addr)),
            DictEntry::Value(v) => lemma_emit_step(m, literal_bytes(v)),
        }
    } else {
        lemma_forward_call_step(m, tok);
    }
}


/// `: name` keeps the invariant and what every step keeps.
/// Filling slots that are clear of every pending slot keeps the invariant
/// and the bootstrap's `main` slot.
proof fn lemma_fill_slots(m: CompilerModel, slots: Seq<usize>, v: u32)
    requires
        m.inv(),
        forall|j: int|
            0 <= j < slots.len() ==> crate::PREAMBLE_LEN <= #[trigger] slots[j] && slots[j] + 4
                <= m.code.len() && crate::model::clear_of_slots(slots[j] as int, m.fwd_refs),
    ensures
        (CompilerModel { code: write_u32_all(m.code, slots, v), ..m }).inv(),
        write_u32_all(m.code, slots, v).len() == m.code.len(),
        write_u32_all(m.code, slots, v).subrange(12, 16) == m.code.subrange(12, 16),
    decreases slots.len(),
{
    if slots.len() > 0 {
        let m1 = m.patch(slots[0] as int, v);
        crate::model::lemma_patch_inv(m, slots[0] as int, v);
        assert(m1.code.subrange(12, 16) =~= m.code.subrange(12, 16));
        let rest = slots.drop_first();
        assert forall|j: int| 0 <= j < rest.len() implies crate::PREAMBLE_LEN <= #[trigger] rest[j] && rest[j]
            + 4 <= m1.code.len() && crate::model::clear_of_slots(rest[j] as int, m1.fwd_refs) by {
            assert(rest[j] == slots[j + 1]);
        }
        lemma_fill_slots(m1, rest, v);
        assert(m1 == (CompilerModel { code: write_u32(m.code, slots[0] as int, v), ..m }));
    }
}

/// `: name` keeps the invariant and what every step keeps.
proof fn lemma_colon_step(m: CompilerModel, name: Option<Seq<char>>)
    requires
        m.inv(),
        m.code.len() + 64 <= usize::MAX,
    ensures
        m.compile_colon(name).0.inv(),
        kept(m, m.compile_colon(name).0),
        m.compile_colon(name).0.code.len() <= m.code.len() + 64,
{
    if m.compile_colon(name).1 is Done {
        let n = name->0;
        let addr = m.here() as u16;
        let m2 = m.resolve_forward(n, addr);
        if m.fwd_refs.dom().contains(n) {
            let slots = m.fwd_refs[n];
            crate::model::lemma_drop_slots_inv(m, n);
            let md = CompilerModel { fwd_refs: m.fwd_refs.remove(n), ..m };
            assert forall|j: int| 0 <= j < slots.len() implies crate::PREAMBLE_LEN <= #[trigger] slots[j]
                && slots[j] + 4 <= md.code.len() && crate::model::clear_of_slots(slots[j] as int, md.fwd_refs) by {
                assert(m.fwd_refs[n][j] + 4 <= m.code.len());
            }
            lemma_fill_slots(md, slots, addr as u32);
            let mf = CompilerModel { code: write_u32_all(md.code, slots, addr as u32), ..md };
            assert(m2 == mf);
        } else {
            assert(m2 == m);
        }
        assert(m2.inv());
        let m3 = CompilerModel { compiling: Some(n), ..m2 };
        assert(m3.inv()) by {
            assert forall|k: Seq<char>|
                #[trigger] m3.dict.dom().contains(k) && m3.dict[k] is Word implies crate::model::word_placed(
                    m3.dict[k]->Word_0 as int,
                    m3.code.len() as int,
                    m3.compiling != Some(k),
                ) by {
                assert(m2.dict.dom().contains(k));
            }
        }
        lemma_emit_step(m3, crate::encode::prolog_bytes());
        let m4 = m3.emit(crate::encode::prolog_bytes());
        let r = CompilerModel { dict: m.dict.insert(n, DictEntry::Word(addr)), ..m4 };
        assert(r == m.compile_colon(name).0);
        assert(r.inv()) by {
            assert forall|k: Seq<char>| #[trigger] r.fwd_refs.dom().contains(k) implies !r.dict.dom().contains(k) by {
                assert(m4.fwd_refs.dom().contains(k));
                assert(m.fwd_refs.dom().contains(k));
            }
            assert forall|k: Seq<char>|
                #[trigger] r.dict.dom().contains(k) && r.dict[k] is Word implies crate::model::word_placed(
                    r.dict[k]->Word_0 as int,
                    r.code.len() as int,
                    r.compiling != Some(k),
                ) by {
                if k != n {
                    assert(m4.dict.dom().contains(k));
                }
            }
        }
        assert forall|k: Seq<char>| #[trigger] m.dict.dom().contains(k) implies r.dict.dom().contains(k) by {}
        assert forall|k: Seq<char>| #[trigger] m.fwd_refs.dom().contains(k) && !r.dict.dom().contains(k)
            implies r.fwd_refs.dom().contains(k) && m.fwd_refs[k].len() <= r.fwd_refs[k].len()
            && r.fwd_refs[k].subrange(0, m.fwd_refs[k].len() as int) == m.fwd_refs[k] by {
            assert(k != n);
            assert(r.fwd_refs[k] == m.fwd_refs[k]);
            assert(r.fwd_refs[k].subrange(0, m.fwd_refs[k].len() as int) =~= m.fwd_refs[k]);
        }
        assert(r.code.subrange(12, 16) =~= m2.code.subrange(12, 16));
        assert(m2.code.subrange(12, 16) =~= m.code.subrange(12, 16));
    } else {
        lemma_kept_same_names(m, m);
    }
}

/// `variable`, `constant` and `;` keep the invariant and what every step
/// keeps.
proof fn lemma_definition_steps(m: CompilerModel, name: Option<Seq<char>>, value: Option<Seq<char>>)
    requires
        m.inv(),
        m.code.len() + 64 <= usize::MAX,
    ensures
        m.compile_variable(name).0.inv(),
        kept(m, m.compile_variable(name).0),
        m.compile_variable(name).0.code.len() <= m.code.len() + 64,
        m.compile_constant(name, value).0.inv(),
        kept(m, m.compile_constant(name, value).0),
        m.compile_constant(name, value).0.code.len() <= m.code.len() + 64,
        m.compile_semicolon().0.inv(),
        kept(m, m.compile_semicolon().0),
        m.compile_semicolon().0.code.len() <= m.code.len() + 64,
{
    lemma_kept_same_names(m, m);
    if m.compile_variable(name).1 is Done {
        let m1 = m.emit(seq![0, 0, 0, 0]);
        lemma_emit_step(m, seq![0, 0, 0, 0]);
        let r = m.compile_variable(name).0;
        assert forall|k: Seq<char>| #[trigger] r.fwd_refs.dom().contains(k) implies !r.dict.dom().contains(k) by {
            assert(m.fwd_refs.dom().contains(k));
        }
        assert forall|k: Seq<char>| #[trigger] m.fwd_refs.dom().contains(k) && !r.dict.dom().contains(k)
            implies r.fwd_refs.dom().contains(k) && m.fwd_refs[k].len() <= r.fwd_refs[k].len()
            && r.fwd_refs[k].subrange(0, m.fwd_refs[k].len() as int) == m.fwd_refs[k] by {
            assert(r.fwd_refs[k].subrange(0, m.fwd_refs[k].len() as int) =~= m.fwd_refs[k]);
        }
    }
    if m.compile_constant(name, value).1 is Done {
        let r = m.compile_constant(name, value).0;
        assert forall|k: Seq<char>| #[trigger] r.fwd_refs.dom().contains(k) implies !r.dict.dom().contains(k) by {
            assert(m.fwd_refs.dom().contains(k));
        }
        assert forall|k: Seq<char>| #[trigger] m.fwd_refs.dom().contains(k) && !r.dict.dom().contains(k)
            implies r.fwd_refs.dom().contains(k) && m.fwd_refs[k].len() <= r.fwd_refs[k].len()
            && r.fwd_refs[k].subrange(0, m.fwd_refs[k].len() as int) == m.fwd_refs[k] by {
            assert(r.fwd_refs[k].subrange(0, m.fwd_refs[k].len() as int) =~= m.fwd_refs[k]);
        }
    }
    if m.compile_semicolon().1 is Done {
        lemma_emit_step(m, crate::encode::epilog_bytes());
        let m1 = m.emit(crate::encode::epilog_bytes());
        lemma_kept_same_names(m1, m.compile_semicolon().0);
        lemma_kept_trans(m, m1, m.compile_semicolon().0);
    }
}

/// Compiling tokens from position `i` on keeps the invariant and what
/// every step keeps, adding at most 64 bytes per token.
proof fn lemma_run_keeps(m: CompilerModel, toks: Seq<Seq<char>>, i: int)
    requires
        m.inv(),
        0 <= i <= toks.len(),
        m.code.len() + 64 * (toks.len() - i) <= usize::MAX,
    ensures
        m.run(toks, i).0.inv(),
        kept(m, m.run(toks, i).0),
        m.run(toks, i).0.code.len() <= m.code.len() + 64 * (toks.len() - i),
    decreases toks.len() - i,
{
    if i >= toks.len() {
        lemma_kept_same_names(m, m);
    } else {
        let t = toks[i];
        let next = if i + 1 < toks.len() { Some(toks[i + 1]) } else { None };
        let after = if i + 2 < toks.len() { Some(toks[i + 2]) } else { None };
        lemma_definition_steps(m, next, after);
        assert(64 * (toks.len() - i) == 64 + 64 * (toks.len() - (i + 1)));
        if t == ":"@ {
            lemma_colon_step(m, next);
            let m1 = m.compile_colon(next).0;
            if m.compile_colon(next).1 is Done && i + 1 < toks.len() {
                assert(64 * (toks.len() - (i + 1)) == 64 + 64 * (toks.len() - (i + 2)));
                lemma_run_keeps(m1, toks, i + 2);
                lemma_kept_trans(m, m1, m1.run(toks, i + 2).0);
            }
        } else if t == "variable"@ {
            let m1 = m.compile_variable(next).0;
            if m.compile_variable(next).1 is Done && i + 1 < toks.len() {
                assert(64 * (toks.len() - (i + 1)) == 64 + 64 * (toks.len() - (i + 2)));
                lemma_run_keeps(m1, toks, i + 2);
                lemma_kept_trans(m, m1, m1.run(toks, i + 2).0);
            }
        } else if t == "constant"@ {
            let m1 = m.compile_constant(next, after).0;
            if m.compile_constant(next, after).1 is Done && i + 2 < toks.len() {
                assert(64 * (toks.len() - (i + 1)) == 64 + 64 * (toks.len() - (i + 2)));
                assert(64 * (toks.len() - (i + 2)) == 64 + 64 * (toks.len() - (i + 3)));
                lemma_run_keeps(m1, toks, i + 3);
                lemma_kept_trans(m, m1, m1.run(toks, i + 3).0);
            }
        } else if t == ";"@ {
            let m1 = m.compile_semicolon().0;
            if m.compile_semicolon().1 is Done {
                lemma_run_keeps(m1, toks, i + 1);
                lemma_kept_trans(m, m1, m1.run(toks, i + 1).0);
            }
        } else if m.compiling is None {
        } else {
            lemma_token_step(m, t);
            let m1 = m.compile_token(t).0;
            if m.compile_token(t).1 is Done {
                lemma_run_keeps(m1, toks, i + 1);
                lemma_kept_trans(m, m1, m1.run(toks, i + 1).0);
            }
        }
    }
}


/// The state a new compiler starts in satisfies the invariant, and `main`'s
/// slot in its bootstrap holds four zero bytes.
pub proof fn law_initial_state()
    ensures
        crate::model::initial_model().inv(),
        crate::model::initial_model().code.subrange(12, 16) == seq![0u8, 0, 0, 0],
{
    let m = crate::model::initial_model();
    assert(m.code.subrange(0, 12) =~= preamble_bytes().subrange(0, 12));
    let z: u32 = 0;
    assert((z & 0xff) as u8 == 0 && ((z >> 8) & 0xff) as u8 == 0 && ((z >> 16) & 0xff) as u8 == 0
        && ((z >> 24) & 0xff) as u8 == 0) by (bit_vector)
        requires
            z == 0,
    ;
    assert(le_bytes(0) =~= seq![0u8, 0, 0, 0]);
    assert(m.code.subrange(12, 16) =~= seq![0u8, 0, 0, 0]);
    assert(m.fwd_refs.dom() =~= Set::<Seq<char>>::empty());
}

/// Every compile keeps the invariant and never undoes earlier work: the
/// code only grows, `main`'s slot in the bootstrap (bytes 12..16) is not
/// touched (only `finalize` fills it in), no name leaves the dictionary,
/// and a forward call stays pending, at its slot, until its name is
/// defined. The bound on the source's size keeps the code's length within
/// `usize`.
pub proof fn law_compile_keeps_state(m: CompilerModel, src: Seq<char>)
    requires
        m.inv(),
        m.code.len() + 64 * tokens_of(src).len() <= usize::MAX,
    ensures
        m.compile_source(src).0.inv(),
        kept(m, m.compile_source(src).0),
{
    lemma_run_keeps(m, tokens_of(src), 0);
}

/// Compiling a token inside a word body never changes the dictionary and
/// never rewrites earlier code: except for `else` and `then`, which fill
/// in their jump, the code before it stays as it was; and a token that
/// fails leaves the code as it was, but for `loop`, whose increment stays
/// when its back jump does not fit in 32 bits.
pub proof fn law_token_only_appends(m: CompilerModel, tok: Seq<char>)
    requires
        m.inv(),
        m.code.len() + 64 <= usize::MAX,
        tok != "else"@,
        tok != "then"@,
    ensures
        m.compile_token(tok).0.dict == m.dict,
        m.compile_token(tok).0.code.len() >= m.code.len(),
        m.compile_token(tok).0.code.subrange(0, m.code.len() as int) == m.code,
        !(m.compile_token(tok).1 is Done) && tok != "loop"@ ==> m.compile_token(tok).0.code == m.code,
{
    lemma_token_step(m, tok);
}


/// Each token takes at least one character of the text.
proof fn lemma_lex_len(s: Seq<char>, i: int, mode: LexMode, start: int)
    requires
        0 <= i <= s.len(),
    ensures
        lex(s, i, mode, start).len() <= s.len() - i + if mode == LexMode::Word { 1int } else { 0int },
    decreases s.len() - i,
{
    if i < s.len() {
        let c = s[i];
        match mode {
            LexMode::Gap => if is_ws(c) {
                lemma_lex_len(s, i + 1, LexMode::Gap, start);
            } else if c == '\\' && (i + 1 >= s.len() || is_ws(s[i + 1])) {
                lemma_lex_len(s, i + 1, LexMode::LineComment, start);
            } else if c == '(' {
                lemma_lex_len(s, i + 1, LexMode::BlockComment, start);
            } else {
                lemma_lex_len(s, i + 1, LexMode::Word, i);
            },
            LexMode::LineComment => if c == '\n' {
                lemma_lex_len(s, i + 1, LexMode::Gap, start);
            } else {
                lemma_lex_len(s, i + 1, LexMode::LineComment, start);
            },
            LexMode::BlockComment => if c == ')' {
                lemma_lex_len(s, i + 1, LexMode::Gap, start);
            } else {
                lemma_lex_len(s, i + 1, LexMode::BlockComment, start);
            },
            LexMode::Word => if is_ws(c) {
                lemma_lex_len(s, i + 1, LexMode::Gap, start);
            } else {
                lemma_lex_len(s, i + 1, LexMode::Word, start);
            },
        }
    }
}

/// The compiler's state after the prelude and `src`, before `finalize`.
pub open spec fn program_model(src: Seq<char>) -> CompilerModel {
    crate::model::initial_model().compile_source(crate::PRELUDE@).0.compile_source(src).0
}

/// A successfully compiled program fits below `0x7000`, holds at least the
/// preamble and `main`'s prolog and epilog (82 bytes), begins with the
/// preamble, and its bootstrap calls `main`: bytes 12..16 hold `main`'s
/// address, where the `CALL_ABS` at offset 16 goes. The bound on the
/// texts' size keeps the code's length within `usize` along the way.
pub proof fn law_program_calls_main(src: Seq<char>)
    requires
        crate::program_result(src) matches Some(Ok(_)),
        64 * (crate::PRELUDE@.len() + src.len()) + crate::PREAMBLE_LEN <= usize::MAX,
    ensures
        ({
            let code = crate::program_result(src)->0->Ok_0;
            let m = program_model(src);
            &&& m.dict.dom().contains("main"@)
            &&& m.dict["main"@] is Word
            &&& crate::PREAMBLE_LEN + crate::PROLOG_LEN + crate::EPILOG_LEN <= code.len() <= crate::MAX_CODE_END
            &&& code.subrange(0, 12) == preamble_bytes().subrange(0, 12)
            &&& code.subrange(12, 16) == le_bytes(m.dict["main"@]->Word_0 as u32)
            &&& code.subrange(16, crate::PREAMBLE_LEN as int) == preamble_bytes().subrange(
                16,
                crate::PREAMBLE_LEN as int,
            )
            &&& jump_target(code, 16, pushed_value(code, 11)) == Some(m.dict["main"@]->Word_0)
        }),
{
    let m0 = crate::model::initial_model();
    law_initial_state();
    let tp = tokens_of(crate::PRELUDE@);
    let ts = tokens_of(src);
    lemma_lex_len(crate::PRELUDE@, 0, LexMode::Gap, 0);
    lemma_lex_len(src, 0, LexMode::Gap, 0);
    assert(64 * tp.len() + 64 * ts.len() <= 64 * (crate::PRELUDE@.len() + src.len())) by (nonlinear_arith)
        requires
            tp.len() <= crate::PRELUDE@.len(),
            ts.len() <= src.len(),
    ;
    lemma_run_keeps(m0, tp, 0);
    let m1 = m0.compile_source(crate::PRELUDE@).0;
    lemma_run_keeps(m1, ts, 0);
    let m2 = program_model(src);
    assert(m2 == m1.compile_source(src).0);
    law_bootstrap_calls_main(m2);
    assert(m2.dict.dom().contains("main"@));
    assert(m2.compiling is None);
    assert(crate::model::word_placed(m2.dict["main"@]->Word_0 as int, m2.code.len() as int, true));
}


/// A forward call keeps its zero placeholder until its name is defined:
/// each call slot still waiting for a name holds four zero bytes, and
/// compiling more source keeps it waiting, at the same slot and with the
/// same zero bytes, for as long as the name stays undefined. (When `: name`
/// comes, the slot gets the address: see
/// [`law_definition_resolves_forward_calls`].)
pub proof fn law_forward_call_waits(m: CompilerModel, src: Seq<char>, name: Seq<char>, j: int)
    requires
        m.inv(),
        m.code.len() + 64 * tokens_of(src).len() <= usize::MAX,
        m.fwd_refs.dom().contains(name),
        0 <= j < m.fwd_refs[name].len(),
    ensures
        ({
            let s = m.fwd_refs[name][j] as int;
            let r = m.compile_source(src).0;
            &&& m.code.subrange(s, s + 4) == seq![0u8, 0, 0, 0]
            &&& !r.dict.dom().contains(name) ==> {
                &&& r.fwd_refs.dom().contains(name)
                &&& j < r.fwd_refs[name].len()
                &&& r.fwd_refs[name][j] == s
                &&& r.code.subrange(s, s + 4) == seq![0u8, 0, 0, 0]
            }
        }),
{
    let s = m.fwd_refs[name][j];
    assert(m.code.subrange(s as int, s + 4) == seq![0u8, 0, 0, 0]);
    lemma_run_keeps(m, tokens_of(src), 0);
    let r = m.compile_source(src).0;
    if !r.dict.dom().contains(name) {
        assert(r.fwd_refs[name].subrange(0, m.fwd_refs[name].len() as int)[j] == r.fwd_refs[name][j]);
        assert(r.code.subrange(r.fwd_refs[name][j] as int, r.fwd_refs[name][j] + 4) == seq![0u8, 0, 0, 0]);
    }
}


/// The disassembler names each opcode byte after its constant in `op`
/// (`0x12` is `GT`, `0x10` is `LT`, ...), and calls every other byte `???`.
pub proof fn law_mnemonics_name_opcodes(b: u8)
    ensures
        b == op::HALT ==> crate::disasm::mnemonic_of(b) == "HALT"@,
        b == op::PUSH ==> crate::disasm::mnemonic_of(b) == "PUSH"@,
        b == op::PUSH_ZERO ==> crate::disasm::mnemonic_of(b) == "PUSH_ZERO"@,
        b == op::PUSH_SHORT ==> crate::disasm::mnemonic_of(b) == "PUSH_SHORT"@,
        b == op::POP ==> crate::disasm::mnemonic_of(b) == "POP"@,
        b == op::LOAD_SP_REL ==> crate::disasm::mnemonic_of(b) == "LOAD_SP_REL"@,
        b == op::STORE_SP_REL ==> crate::disasm::mnemonic_of(b) == "STORE_SP_REL"@,
        b == op::LOAD_ABS ==> crate::disasm::mnemonic_of(b) == "LOAD_ABS"@,
        b == op::STORE_ABS ==> crate::disasm::mnemonic_of(b) == "STORE_ABS"@,
        b == op::JUMP_REL ==> crate::disasm::mnemonic_of(b) == "JUMP_REL"@,
        b == op::JUMP_ABS ==> crate::disasm::mnemonic_of(b) == "JUMP_ABS"@,
        b == op::CALL_REL ==> crate::disasm::mnemonic_of(b) == "CALL_REL"@,
        b == op::CALL_ABS ==> crate::disasm::mnemonic_of(b) == "CALL_ABS"@,
        b == op::SKIP ==> crate::disasm::mnemonic_of(b) == "SKIP"@,
        b == op::SYSCALL ==> crate::disasm::mnemonic_of(b) == "SYSCALL"@,
        b == op::LT ==> crate::disasm::mnemonic_of(b) == "LT"@,
        b == op::LE ==> crate::disasm::mnemonic_of(b) == "LE"@,
        b == op::GT ==> crate::disasm::mnemonic_of(b) == "GT"@,
        b == op::GE ==> crate::disasm::mnemonic_of(b) == "GE"@,
        b == op::EQ ==> crate::disasm::mnemonic_of(b) == "EQ"@,
        b == op::NE ==> crate::disasm::mnemonic_of(b) == "NE"@,
        b == op::ADD ==> crate::disasm::mnemonic_of(b) == "ADD"@,
        b == op::SUB ==> crate::disasm::mnemonic_of(b) == "SUB"@,
        b == op::MUL ==> crate::disasm::mnemonic_of(b) == "MUL"@,
        b == op::DIV ==> crate::disasm::mnemonic_of(b) == "DIV"@,
        b == op::REM ==> crate::disasm::mnemonic_of(b) == "REM"@,
        b == op::AND ==> crate::disasm::mnemonic_of(b) == "AND"@,
        b == op::OR ==> crate::disasm::mnemonic_of(b) == "OR"@,
        b == op::XOR ==> crate::disasm::mnemonic_of(b) == "XOR"@,
        b == op::SHL ==> crate::disasm::mnemonic_of(b) == "SHL"@,
        b == op::SHR ==> crate::disasm::mnemonic_of(b) == "SHR"@,
        b == op::LOGICAL_NOT ==> crate::disasm::mnemonic_of(b) == "LOGICAL_NOT"@,
        b == op::BITWISE_NOT ==> crate::disasm::mnemonic_of(b) == "BITWISE_NOT"@,
        b == op::NEG ==> crate::disasm::mnemonic_of(b) == "NEG"@,
        !(b <= 0x0E || (0x10 <= b && b <= 0x15) || (0x20 <= b && b <= 0x2C)) ==> crate::disasm::mnemonic_of(b)
            == "???"@,
{
}

/// Decoding the instruction at `ip`, in terms of the bytes: a `PUSH` takes
/// the four bytes after it as a little-endian immediate and a
/// `PUSH_SHORT` the byte after it, sign-extended, when they fit in the
/// code; `PUSH_ZERO` pushes 0. An absolute call or jump (`CALL_ABS`,
/// `JUMP_ABS`) right after a push of `v` goes to `v` modulo 65536; a
/// relative one (`CALL_REL`, `JUMP_REL`) goes to the byte after it plus
/// `v` read as signed, modulo 65536. No other instruction has a target.
/// The operand shows a `PUSH` immediate in hex and as a signed decimal, a
/// `PUSH_SHORT` one as a signed decimal, `(truncated)` for a push cut off
/// by the end of the code, and a byte that is no opcode in two hex digits.
pub proof fn law_decode_reads_bytes(code: Seq<u8>, ip: int, prev: Option<u32>)
    requires
        0 <= ip < code.len(),
    ensures
        ({
            let l = crate::disasm::decode_line(code, ip, prev);
            let b = code[ip];
            let long = b == op::PUSH && ip + 5 <= code.len();
            let short = b == op::PUSH_SHORT && ip + 2 <= code.len();
            &&& l.addr == ip
            &&& l.opcode == b
            &&& l.mnemonic == crate::disasm::mnemonic_of(b)
            &&& l.operand == (if long {
                let v = l.immediate->0;
                "0x"@ + hex_text(v as nat) + " ("@ + dec_text(
                    if v < 0x8000_0000 { v as int } else { v - 0x1_0000_0000 },
                ) + ")"@
            } else if short {
                dec_text(if code[ip + 1] < 0x80 { code[ip + 1] as int } else { code[ip + 1] - 0x100 })
            } else if b == op::PUSH || b == op::PUSH_SHORT {
                "(truncated)"@
            } else if b <= 0x0E || (0x10 <= b && b <= 0x15) || (0x20 <= b && b <= 0x2C) {
                Seq::empty()
            } else {
                "0x"@ + crate::fmt::zero_pad(hex_text(b as nat), 2)
            })
            &&& l.bytes.len() == (if long { 5int } else if short { 2int } else { 1int })
            &&& l.bytes == code.subrange(ip, ip + l.bytes.len())
            &&& l.immediate == (if long {
                Some(
                    (code[ip + 1] + 0x100 * code[ip + 2] + 0x1_0000 * code[ip + 3] + 0x100_0000 * code[ip
                        + 4]) as u32,
                )
            } else if short {
                Some(
                    (if code[ip + 1] < 0x80 {
                        code[ip + 1] as int
                    } else {
                        code[ip + 1] + 0xFFFF_FF00
                    }) as u32,
                )
            } else if b == op::PUSH_ZERO {
                Some(0u32)
            } else {
                None
            })
            &&& l.target == (match prev {
                Some(v) => if b == op::JUMP_ABS || b == op::CALL_ABS {
                    Some((v % 0x1_0000) as u16)
                } else if b == op::JUMP_REL || b == op::CALL_REL {
                    Some(
                        ((ip + 1 + (if v < 0x8000_0000 {
                            v as int
                        } else {
                            v - 0x1_0000_0000
                        })) % 0x1_0000) as u16,
                    )
                } else {
                    None
                },
                None => None,
            })
        }),
{
    let b = code[ip];
    if b == op::PUSH && ip + 5 <= code.len() {
        let b0 = code[ip + 1];
        let b1 = code[ip + 2];
        let b2 = code[ip + 3];
        let b3 = code[ip + 4];
        assert((b0 as u32) | ((b1 as u32) << 8) | ((b2 as u32) << 16) | ((b3 as u32) << 24) == (b0 + 0x100
            * b1 + 0x1_0000 * b2 + 0x100_0000 * b3) as u32) by (bit_vector);
    }
    if b == op::PUSH_SHORT && ip + 2 <= code.len() {
        let x = code[ip + 1];
        assert(crate::disasm::short_value(x) == (if x < 0x80 { x as int } else { x + 0xFFFF_FF00 }) as u32);
    }
}


/// Annotation gives each jump of the compiler's conditional idiom its
/// target: a `JUMP_REL` or `CALL_REL` line with no target yet, right after
/// a `MUL` that comes right after any push (`PUSH`, `PUSH_SHORT` or
/// `PUSH_ZERO`) of `x`, gets the byte after it plus `x` read as signed,
/// modulo 65536. Every other line keeps its target.
pub proof fn law_annotation_targets(ls: Seq<LineModel>, i: int)
    requires
        0 <= i < ls.len(),
    ensures
        annotated(ls)[i].target == (if 2 <= i && ls[i].target is None && (ls[i].opcode == op::JUMP_REL
            || ls[i].opcode == op::CALL_REL) && ls[i - 1].opcode == op::MUL && (ls[i - 2].opcode
            == op::PUSH || ls[i - 2].opcode == op::PUSH_SHORT || ls[i - 2].opcode == op::PUSH_ZERO)
            && ls[i - 2].immediate is Some {
            Some(
                ((ls[i].addr + 1 + (if ls[i - 2].immediate->0 < 0x8000_0000 {
                    ls[i - 2].immediate->0 as int
                } else {
                    ls[i - 2].immediate->0 - 0x1_0000_0000
                })) % 0x1_0000) as u16,
            )
        } else {
            ls[i].target
        }),
{
}

/// The label line before an instruction at `addr` in a listing: at the
/// top, just `Lxxxx:`; further down, after a blank line.
pub open spec fn label_line(addr: int, first: bool) -> Seq<char> {
    (if first { Seq::empty() } else { "\n"@ }) + "L"@ + crate::fmt::zero_pad(hex_text(addr as nat), 4)
        + ":\n"@
}

/// An instruction's line in a listing: address, bytes, mnemonic and operand
/// in padded columns, then `; -> Lxxxx` when it has a target.
pub open spec fn listing_line(l: LineModel) -> Seq<char> {
    crate::fmt::zero_pad(hex_text(l.addr as nat), 4) + ":  "@ + crate::fmt::space_pad(
        crate::disasm::hex_bytes_text(l.bytes),
        14,
    ) + "  "@ + crate::fmt::space_pad(l.mnemonic, 12) + " "@ + crate::fmt::space_pad(l.operand, 18) + (
    match l.target {
        Some(t) => "    ; -> L"@ + crate::fmt::zero_pad(hex_text(t as nat), 4),
        None => Seq::<char>::empty(),
    }) + "\n"@
}

/// The listing of `ls` is, line after line, a label line before exactly
/// the instructions at address 0 and at an address that some line calls or
/// jumps to (whatever kind of call or jump that is), then the instruction's
/// own line.
pub proof fn law_listing_labels(ls: Seq<LineModel>)
    ensures
        crate::disasm::render_text(ls) == crate::disasm::render_prefix(
            ls,
            ls.len() as int,
            crate::disasm::label_set(ls),
        ),
        forall|k: int|
            0 <= k < ls.len() ==> #[trigger] crate::disasm::render_prefix(ls, k + 1, crate::disasm::label_set(ls))
                == crate::disasm::render_prefix(ls, k, crate::disasm::label_set(ls)) + (if (ls[k].addr
                % 0x1_0000) as u16 == 0 || exists|j: int|
                0 <= j < ls.len() && #[trigger] ls[j].target == Some((ls[k].addr % 0x1_0000) as u16) {
                label_line(ls[k].addr, k == 0)
            } else {
                Seq::empty()
            }) + listing_line(ls[k]),
{
    let labels = crate::disasm::label_set(ls);
    assert forall|k: int| 0 <= k < ls.len() implies #[trigger] crate::disasm::render_prefix(ls, k + 1, labels)
        == crate::disasm::render_prefix(ls, k, labels) + (if (ls[k].addr % 0x1_0000) as u16 == 0 || exists|j: int|
        0 <= j < ls.len() && #[trigger] ls[j].target == Some((ls[k].addr % 0x1_0000) as u16) {
        label_line(ls[k].addr, k == 0)
    } else {
        Seq::empty()
    }) + listing_line(ls[k]) by {
        let a = (ls[k].addr % 0x1_0000) as u16;
        assert(labels.contains(a) == (a == 0 || exists|j: int| 0 <= j < ls.len() && #[trigger] ls[j].target == Some(a)));
        assert(crate::disasm::insn_text(ls[k]) == listing_line(ls[k]));
        assert(crate::disasm::comment_text(ls[k].target) == match ls[k].target {
            Some(t) => "    ; -> L"@ + crate::fmt::zero_pad(hex_text(t as nat), 4),
            None => Seq::<char>::empty(),
        });
    }
}


/// A linear sweep: the disassembly of `code[ip..]` decodes its first
/// instruction with the push value it was given, and each later one with
/// the value pushed by the instruction just before it (none when that one
/// is no push).
pub proof fn law_disassembly_threads_pushes(code: Seq<u8>, ip: int, prev: Option<u32>)
    requires
        0 <= ip <= code.len(),
    ensures
        ({
            let ls = lines_from(code, ip, prev);
            &&& ip < code.len() ==> ls.len() > 0 && ls[0] == crate::disasm::decode_line(code, ip, prev)
            &&& forall|k: int|
                0 <= k < ls.len() - 1 ==> #[trigger] ls[k + 1] == crate::disasm::decode_line(
                    code,
                    ls[k + 1].addr,
                    ls[k].immediate,
                )
        }),
    decreases code.len() - ip,
{
    if ip < code.len() {
        let n = insn_len(code, ip);
        let rest = lines_from(code, ip + n, pushed_value(code, ip));
        law_disassembly_threads_pushes(code, ip + n, pushed_value(code, ip));
        law_disassembly_tiles(code, ip + n, pushed_value(code, ip));
        let ls = lines_from(code, ip, prev);
        assert(ls == seq![crate::disasm::decode_line(code, ip, prev)] + rest);
        assert forall|k: int| 0 <= k < ls.len() - 1 implies #[trigger] ls[k + 1] == crate::disasm::decode_line(
            code,
            ls[k + 1].addr,
            ls[k].immediate,
        ) by {
            assert(ls[k + 1] == rest[k]);
            if k > 0 {
                assert(ls[k] == rest[k - 1]);
                let k1 = k - 1;
                assert(rest[k1 + 1] == crate::disasm::decode_line(code, rest[k1 + 1].addr, rest[k1].immediate));
            } else {
                assert(ip + n < code.len());
                assert(rest[0] == crate::disasm::decode_line(code, ip + n, pushed_value(code, ip)));
                assert(ls[0].immediate == pushed_value(code, ip));
            }
        }
    }
}

/// Zero padding puts zeros in front of `s` up to `width` characters; space
/// padding puts spaces after it. Neither changes `s` itself nor pads a
/// text that is already wide enough.
pub proof fn law_padding(s: Seq<char>, width: nat)
    ensures
        crate::fmt::zero_pad(s, width).len() == if s.len() < width { width as int } else { s.len() as int },
        crate::fmt::space_pad(s, width).len() == if s.len() < width { width as int } else { s.len() as int },
        crate::fmt::zero_pad(s, width).subrange(
            crate::fmt::zero_pad(s, width).len() - s.len(),
            crate::fmt::zero_pad(s, width).len() as int,
        ) == s,
        crate::fmt::space_pad(s, width).subrange(0, s.len() as int) == s,
        forall|i: int|
            0 <= i < crate::fmt::zero_pad(s, width).len() - s.len() ==> #[trigger] crate::fmt::zero_pad(
                s,
                width,
            )[i] == '0',
        forall|i: int|
            s.len() <= i < crate::fmt::space_pad(s, width).len() ==> #[trigger] crate::fmt::space_pad(
                s,
                width,
            )[i] == ' ',
{
    let z = crate::fmt::zero_pad(s, width);
    let p = crate::fmt::space_pad(s, width);
    assert(z.subrange(z.len() - s.len(), z.len() as int) =~= s);
    assert(p.subrange(0, s.len() as int) =~= s);
}


/// The code of each primitive: one opcode for most; the comparisons map to
/// the reflected opcode (`<` is `GT`, `>=` is `LE`, ...) since the VM
/// compares the other way round; `-` is `SUB; NEG`; `/`, `mod`, `lshift`
/// and `rshift` call `swap` first; `dup` and `over` read the stack at -4
/// and -8.
pub proof fn law_primitive_code(m: CompilerModel)
    ensures
        m.primitive_code("+"@) == seq![op::ADD],
        m.primitive_code("*"@) == seq![op::MUL],
        m.primitive_code("and"@) == seq![op::AND],
        m.primitive_code("or"@) == seq![op::OR],
        m.primitive_code("xor"@) == seq![op::XOR],
        m.primitive_code("="@) == seq![op::EQ],
        m.primitive_code("<>"@) == seq![op::NE],
        m.primitive_code("not"@) == seq![op::LOGICAL_NOT],
        m.primitive_code("invert"@) == seq![op::BITWISE_NOT],
        m.primitive_code("negate"@) == seq![op::NEG],
        m.primitive_code("drop"@) == seq![op::POP],
        m.primitive_code("@"@) == seq![op::LOAD_ABS],
        m.primitive_code("!"@) == seq![op::STORE_ABS],
        m.primitive_code("halt"@) == seq![op::HALT],
        m.primitive_code("syscall"@) == seq![op::SYSCALL],
        m.primitive_code("skip"@) == seq![op::SKIP],
        m.primitive_code("<"@) == seq![op::GT],
        m.primitive_code("<="@) == seq![op::GE],
        m.primitive_code(">"@) == seq![op::LT],
        m.primitive_code(">="@) == seq![op::LE],
        m.primitive_code("/"@) == crate::encode::call_bytes(m.dict["swap"@]->Word_0) + seq![op::DIV],
        m.primitive_code("mod"@) == crate::encode::call_bytes(m.dict["swap"@]->Word_0) + seq![op::REM],
        m.primitive_code("lshift"@) == crate::encode::call_bytes(m.dict["swap"@]->Word_0) + seq![op::SHL],
        m.primitive_code("rshift"@) == crate::encode::call_bytes(m.dict["swap"@]->Word_0) + seq![op::SHR],
        m.primitive_code("-"@) == seq![op::SUB, op::NEG],
        m.primitive_code("dup"@) == seq![op::PUSH_SHORT, 0xFC, op::LOAD_SP_REL],
        m.primitive_code("over"@) == seq![op::PUSH_SHORT, 0xF8, op::LOAD_SP_REL],
{
    // The names' characters, their lengths, and for each pair of names of the
    // same length a character that tells them apart.
    reveal_strlit("+");
    reveal_strlit("*");
    reveal_strlit("and");
    reveal_strlit("or");
    reveal_strlit("xor");
    reveal_strlit("=");
    reveal_strlit("<>");
    reveal_strlit("not");
    reveal_strlit("invert");
    reveal_strlit("negate");
    reveal_strlit("drop");
    reveal_strlit("@");
    reveal_strlit("!");
    reveal_strlit("halt");
    reveal_strlit("syscall");
    reveal_strlit("skip");
    reveal_strlit("<");
    reveal_strlit("<=");
    reveal_strlit(">");
    reveal_strlit(">=");
    reveal_strlit("/");
    reveal_strlit("mod");
    reveal_strlit("lshift");
    reveal_strlit("rshift");
    reveal_strlit("-");
    reveal_strlit("dup");
    reveal_strlit("over");
    assert("+"@.len() == 1);
    assert("*"@.len() == 1);
    assert("and"@.len() == 3);
    assert("or"@.len() == 2);
    assert("xor"@.len() == 3);
    assert("="@.len() == 1);
    assert("<>"@.len() == 2);
    assert("not"@.len() == 3);
    assert("invert"@.len() == 6);
    assert("negate"@.len() == 6);
    assert("drop"@.len() == 4);
    assert("@"@.len() == 1);
    assert("!"@.len() == 1);
    assert("halt"@.len() == 4);
    assert("syscall"@.len() == 7);
    assert("skip"@.len() == 4);
    assert("<"@.len() == 1);
    assert("<="@.len() == 2);
    assert(">"@.len() == 1);
    assert(">="@.len() == 2);
    assert("-"@.len() == 1);
    assert("/"@.len() == 1);
    assert("mod"@.len() == 3);
    assert("lshift"@.len() == 6);
    assert("rshift"@.len() == 6);
    assert("dup"@.len() == 3);
    assert("over"@.len() == 4);
    assert("*"@[0] != "+"@[0]);
    assert("xor"@[0] != "and"@[0]);
    assert("="@[0] != "+"@[0]);
    assert("="@[0] != "*"@[0]);
    assert("<>"@[0] != "or"@[0]);
    assert("not"@[0] != "and"@[0]);
    assert("not"@[0] != "xor"@[0]);
    assert("negate"@[0] != "invert"@[0]);
    assert("@"@[0] != "+"@[0]);
    assert("@"@[0] != "*"@[0]);
    assert("@"@[0] != "="@[0]);
    assert("!"@[0] != "+"@[0]);
    assert("!"@[0] != "*"@[0]);
    assert("!"@[0] != "="@[0]);
    assert("!"@[0] != "@"@[0]);
    assert("halt"@[0] != "drop"@[0]);
    assert("skip"@[0] != "drop"@[0]);
    assert("skip"@[0] != "halt"@[0]);
    assert("<"@[0] != "+"@[0]);
    assert("<"@[0] != "*"@[0]);
    assert("<"@[0] != "="@[0]);
    assert("<"@[0] != "@"@[0]);
    assert("<"@[0] != "!"@[0]);
    assert("<="@[0] != "or"@[0]);
    assert("<="@[1] != "<>"@[1]);
    assert(">"@[0] != "+"@[0]);
    assert(">"@[0] != "*"@[0]);
    assert(">"@[0] != "="@[0]);
    assert(">"@[0] != "@"@[0]);
    assert(">"@[0] != "!"@[0]);
    assert(">"@[0] != "<"@[0]);
    assert(">="@[0] != "or"@[0]);
    assert(">="@[0] != "<>"@[0]);
    assert(">="@[0] != "<="@[0]);
    assert("-"@[0] != "+"@[0]);
    assert("-"@[0] != "*"@[0]);
    assert("-"@[0] != "="@[0]);
    assert("-"@[0] != "@"@[0]);
    assert("-"@[0] != "!"@[0]);
    assert("-"@[0] != "<"@[0]);
    assert("-"@[0] != ">"@[0]);
    assert("/"@[0] != "+"@[0]);
    assert("/"@[0] != "*"@[0]);
    assert("/"@[0] != "="@[0]);
    assert("/"@[0] != "@"@[0]);
    assert("/"@[0] != "!"@[0]);
    assert("/"@[0] != "<"@[0]);
    assert("/"@[0] != ">"@[0]);
    assert("/"@[0] != "-"@[0]);
    assert("mod"@[0] != "and"@[0]);
    assert("mod"@[0] != "xor"@[0]);
    assert("mod"@[0] != "not"@[0]);
    assert("lshift"@[0] != "invert"@[0]);
    assert("lshift"@[0] != "negate"@[0]);
    assert("rshift"@[0] != "invert"@[0]);
    assert("rshift"@[0] != "negate"@[0]);
    assert("rshift"@[0] != "lshift"@[0]);
    assert("dup"@[0] != "and"@[0]);
    assert("dup"@[0] != "xor"@[0]);
    assert("dup"@[0] != "not"@[0]);
    assert("dup"@[0] != "mod"@[0]);
    assert("over"@[0] != "drop"@[0]);
    assert("over"@[0] != "halt"@[0]);
    assert("over"@[0] != "skip"@[0]);
}

} // verus!
