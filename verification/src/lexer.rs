//! Tokenizer and number parser. Both are pure functions over text: they
//! hold no state and do not touch the dictionary or emit bytecode.
use vstd::prelude::*;
use crate::text::{is_ws, is_whitespace, push_char, str_chars, string_of};

verus! {

/// What the tokenizer is in the middle of.
#[derive(Clone, Copy, PartialEq, Eq, Structural, Debug)]
pub enum LexMode {
    /// Between tokens.
    Gap,
    /// Inside a `\ ...` comment, which ends at a newline.
    LineComment,
    /// Inside a `( ... )` comment, which ends at `)`.
    BlockComment,
    /// Inside a token.
    Word,
}

/// The tokens of `s[i..]`, when the tokenizer reaches position `i` in
/// `mode`; in `Word` mode the current token began at `start`.
///
/// Tokens are maximal runs of non-whitespace characters. Outside a token,
/// a `\` followed by whitespace (or ending the input) opens a comment that
/// runs through the next newline, and `(` opens one that runs through the
/// next `)`; either kind may also run to the end of the input. Elsewhere
/// these characters are ordinary: `\x` is a token.
pub open spec fn lex(s: Seq<char>, i: int, mode: LexMode, start: int) -> Seq<Seq<char>>
    decreases s.len() - i,
{
    if i >= s.len() {
        if mode == LexMode::Word {
            seq![s.subrange(start, s.len() as int)]
        } else {
            Seq::empty()
        }
    } else {
        let c = s[i];
        match mode {
            LexMode::Gap => if is_ws(c) {
                lex(s, i + 1, LexMode::Gap, start)
            } else if c == '\\' && (i + 1 >= s.len() || is_ws(s[i + 1])) {
                lex(s, i + 1, LexMode::LineComment, start)
            } else if c == '(' {
                lex(s, i + 1, LexMode::BlockComment, start)
            } else {
                lex(s, i + 1, LexMode::Word, i)
            },
            LexMode::LineComment => if c == '\n' {
                lex(s, i + 1, LexMode::Gap, start)
            } else {
                lex(s, i + 1, LexMode::LineComment, start)
            },
            LexMode::BlockComment => if c == ')' {
                lex(s, i + 1, LexMode::Gap, start)
            } else {
                lex(s, i + 1, LexMode::BlockComment, start)
            },
            LexMode::Word => if is_ws(c) {
                seq![s.subrange(start, i)] + lex(s, i + 1, LexMode::Gap, start)
            } else {
                lex(s, i + 1, LexMode::Word, start)
            },
        }
    }
}

/// The tokens of a whole source text.
pub open spec fn tokens_of(s: Seq<char>) -> Seq<Seq<char>> {
    lex(s, 0, LexMode::Gap, 0)
}

/// The character views of a list of character vectors.
pub open spec fn views_of(v: Seq<Vec<char>>) -> Seq<Seq<char>> {
    v.map_values(|t: Vec<char>| t@)
}

/// The character views of a list of strings.
pub open spec fn string_views(v: Seq<String>) -> Seq<Seq<char>> {
    v.map_values(|t: String| t@)
}

/// Splits `s` into tokens, each as a vector of characters.
pub fn tokenize_chars(s: &Vec<char>) -> (res: Vec<Vec<char>>)
    ensures
        views_of(res@) == tokens_of(s@),
{
    let mut out: Vec<Vec<char>> = Vec::new();
    let mut cur: Vec<char> = Vec::new();
    let mut mode = LexMode::Gap;
    let mut start: usize = 0;
    let mut i: usize = 0;
    while i < s.len()
        invariant
            i <= s.len(),
            start <= i,
            mode == LexMode::Word ==> cur@ == s@.subrange(start as int, i as int),
            views_of(out@) + lex(s@, i as int, mode, start as int) == tokens_of(s@),
        decreases s.len() - i,
    {
        let c = s[i];
        let ghost old_out = views_of(out@);
        match mode {
            LexMode::Gap => {
                if is_whitespace(c) {
                } else if c == '\\' && (i + 1 >= s.len() || is_whitespace(s[i + 1])) {
                    mode = LexMode::LineComment;
                } else if c == '(' {
                    mode = LexMode::BlockComment;
                } else {
                    mode = LexMode::Word;
                    start = i;
                    cur = Vec::new();
                    cur.push(c);
                }
            },
            LexMode::LineComment => {
                if c == '\n' {
                    mode = LexMode::Gap;
                }
            },
            LexMode::BlockComment => {
                if c == ')' {
                    mode = LexMode::Gap;
                }
            },
            LexMode::Word => {
                if is_whitespace(c) {
                    let tok = cur;
                    cur = Vec::new();
                    out.push(tok);
                    mode = LexMode::Gap;
                    proof {
                        assert(views_of(out@) =~= old_out.push(tok@));
                        assert(old_out.push(tok@) + lex(s@, i + 1, LexMode::Gap, start as int)
                            =~= old_out + (seq![tok@] + lex(s@, i + 1, LexMode::Gap, start as int)));
                    }
                } else {
                    cur.push(c);
                }
            },
        }
        i += 1;
        proof {
            if mode == LexMode::Word {
                assert(cur@ =~= s@.subrange(start as int, i as int));
            }
        }
    }
    if mode == LexMode::Word {
        let ghost old_out = views_of(out@);
        out.push(cur);
        proof {
            assert(views_of(out@) =~= old_out + lex(s@, i as int, mode, start as int));
        }
    } else {
        proof {
            assert(views_of(out@) =~= views_of(out@) + lex(s@, i as int, mode, start as int));
        }
    }
    out
}

/// Splits `src` into whitespace-separated tokens, skipping `\ ...` line
/// comments and `( ... )` block comments.
pub fn tokenize(src: &str) -> (res: Vec<String>)
    ensures
        string_views(res@) == tokens_of(src@),
{
    let chars = str_chars(src);
    let toks = tokenize_chars(&chars);
    let mut out: Vec<String> = Vec::new();
    let mut i: usize = 0;
    while i < toks.len()
        invariant
            i <= toks.len(),
            string_views(out@) == views_of(toks@).subrange(0, i as int),
        decreases toks.len() - i,
    {
        let t = string_of(&toks[i]);
        let ghost old_out = string_views(out@);
        out.push(t);
        proof {
            assert(string_views(out@) =~= old_out.push(toks@[i as int]@));
            assert(views_of(toks@).subrange(0, i + 1) =~= views_of(toks@).subrange(0, i as int).push(
                toks@[i as int]@,
            ));
        }
        i += 1;
    }
    proof {
        assert(views_of(toks@).subrange(0, toks.len() as int) =~= views_of(toks@));
    }
    out
}


/// The value of `c` as a digit in `radix` (10 or 16), or -1 when it is
/// not one. Hex digits may be upper- or lower-case.
pub open spec fn digit_value(c: char, radix: int) -> int {
    if '0' <= c && c <= '9' {
        c as int - '0' as int
    } else if radix == 16 && 'a' <= c && c <= 'f' {
        c as int - 'a' as int + 10
    } else if radix == 16 && 'A' <= c && c <= 'F' {
        c as int - 'A' as int + 10
    } else {
        -1
    }
}

/// Every character of `s` is a digit in `radix`.
pub open spec fn all_digits(s: Seq<char>, radix: int) -> bool {
    forall|i: int| 0 <= i < s.len() ==> #[trigger] digit_value(s[i], radix) >= 0
}

/// The value of the digit string `s` in `radix`.
pub open spec fn digits_value(s: Seq<char>, radix: int) -> int
    decreases s.len(),
{
    if s.len() == 0 {
        0
    } else {
        digits_value(s.drop_last(), radix) * radix + digit_value(s.last(), radix)
    }
}

/// `s` read as a number in `radix` (10 or 16): one or more digits, after
/// an optional `-` in decimal only, with a value that fits in `i64`.
pub open spec fn parse_radix(s: Seq<char>, radix: int) -> Option<i64> {
    let neg = radix == 10 && s.len() > 0 && s[0] == '-';
    let body = if neg { s.drop_first() } else { s };
    if body.len() == 0 || !all_digits(body, radix) {
        None
    } else {
        let v = if neg { -digits_value(body, radix) } else { digits_value(body, radix) };
        if i64::MIN <= v <= i64::MAX { Some(v as i64) } else { None }
    }
}

/// `t` begins with `0x`.
pub open spec fn has_hex_prefix(t: Seq<char>) -> bool {
    t.len() >= 2 && t[0] == '0' && t[1] == 'x'
}

/// `t` begins with `-0x`.
pub open spec fn has_neg_hex_prefix(t: Seq<char>) -> bool {
    t.len() >= 3 && t[0] == '-' && t[1] == '0' && t[2] == 'x'
}

/// The value of the numeric literal `t`, in one of the three documented
/// forms: `0x` and hex digits, `-0x` and hex digits (negated), or decimal
/// digits with an optional leading `-`; `None` when `t` is not a number.
pub open spec fn number_value(t: Seq<char>) -> Option<i64> {
    if has_hex_prefix(t) {
        parse_radix(t.skip(2), 16)
    } else if has_neg_hex_prefix(t) {
        match parse_radix(t.skip(3), 16) {
            Some(n) => Some((-n) as i64),
            None => None,
        }
    } else {
        parse_radix(t, 10)
    }
}

proof fn lemma_digits_value_nonneg(s: Seq<char>, radix: int)
    requires
        all_digits(s, radix),
        radix >= 1,
    ensures
        digits_value(s, radix) >= 0,
    decreases s.len(),
{
    if s.len() > 0 {
        assert(all_digits(s.drop_last(), radix)) by {
            assert forall|i: int| 0 <= i < s.drop_last().len() implies #[trigger] digit_value(
                s.drop_last()[i],
                radix,
            ) >= 0 by {
                assert(s.drop_last()[i] == s[i]);
            }
        }
        lemma_digits_value_nonneg(s.drop_last(), radix);
        let d = digits_value(s.drop_last(), radix);
        assert(d * radix >= 0) by (nonlinear_arith)
            requires
                d >= 0,
                radix >= 1,
        ;
        assert(digit_value(s[s.len() - 1], radix) >= 0);
    }
}

/// Appending digits never lowers the value of a digit string.
proof fn lemma_digits_value_prefix(s: Seq<char>, k: int, radix: int)
    requires
        all_digits(s, radix),
        0 <= k <= s.len(),
        radix >= 1,
    ensures
        digits_value(s, radix) >= digits_value(s.subrange(0, k), radix),
    decreases s.len(),
{
    if k == s.len() {
        assert(s.subrange(0, k) =~= s);
    } else {
        let p = s.drop_last();
        assert(all_digits(p, radix)) by {
            assert forall|i: int| 0 <= i < p.len() implies #[trigger] digit_value(p[i], radix)
                >= 0 by {
                assert(p[i] == s[i]);
            }
        }
        lemma_digits_value_prefix(p, k, radix);
        assert(p.subrange(0, k) =~= s.subrange(0, k));
        lemma_digits_value_nonneg(p, radix);
        let d = digits_value(p, radix);
        assert(d * radix >= d) by (nonlinear_arith)
            requires
                d >= 0,
                radix >= 1,
        ;
        assert(digit_value(s[s.len() - 1], radix) >= 0);
    }
}

/// Executable digit value, as in [`digit_value`].
fn digit_of(c: char, radix: u32) -> (res: i32)
    requires
        radix == 10 || radix == 16,
    ensures
        res == digit_value(c, radix as int),
        -1 <= res < radix,
{
    if '0' <= c && c <= '9' {
        (c as u32 - '0' as u32) as i32
    } else if radix == 16 && 'a' <= c && c <= 'f' {
        (c as u32 - 'a' as u32 + 10) as i32
    } else if radix == 16 && 'A' <= c && c <= 'F' {
        (c as u32 - 'A' as u32 + 10) as i32
    } else {
        -1
    }
}

/// Parses `t[from..]` as a number in `radix`; see [`parse_radix`].
fn parse_radix_at(t: &Vec<char>, from: usize, radix: u32) -> (res: Option<i64>)
    requires
        from <= t.len(),
        radix == 10 || radix == 16,
    ensures
        res == parse_radix(t@.skip(from as int), radix as int),
        radix == 16 && res is Some ==> res->0 >= 0,
{
    let ghost s = t@.skip(from as int);
    if from == t.len() {
        return None;
    }
    let neg = radix == 10 && t[from] == '-';
    let first = if neg { from + 1 } else { from };
    let ghost body = if neg { s.drop_first() } else { s };
    proof {
        assert(body =~= t@.skip(first as int));
    }
    if first == t.len() {
        return None;
    }
    let mut acc: i128 = 0;
    let mut k: usize = first;
    while k < t.len()
        invariant
            first <= k <= t.len(),
            from < t.len(),
            s == t@.skip(from as int),
            s[0] == t@[from as int],
            body == (if neg { s.drop_first() } else { s }),
            neg == (radix == 10 && s[0] == '-'),
            body == t@.skip(first as int),
            radix == 10 || radix == 16,
            all_digits(body.subrange(0, k - first), radix as int),
            acc == digits_value(body.subrange(0, k - first), radix as int),
            0 <= acc <= 0x8000_0000_0000_0000,
        decreases t.len() - k,
    {
        let d = digit_of(t[k], radix);
        let ghost pre = body.subrange(0, k - first);
        let ghost next = body.subrange(0, k + 1 - first);
        proof {
            assert(next.drop_last() =~= pre);
            assert(next.last() == t@[k as int]);
        }
        if d < 0 {
            proof {
                let j = k - first;
                assert(body[j] == t@[k as int]);
                assert(digit_value(body[j], radix as int) < 0);
                assert(!all_digits(body, radix as int));
                assert(s[0] == t@[from as int]);
            }
            return None;
        }
        proof {
            assert(all_digits(next, radix as int)) by {
                assert forall|i: int| 0 <= i < next.len() implies #[trigger] digit_value(
                    next[i],
                    radix as int,
                ) >= 0 by {
                    if i < pre.len() {
                        assert(next[i] == pre[i]);
                    }
                }
            }
        }
        proof {
            assert(acc * (radix as i128) <= 0x8000_0000_0000_0000 * 16) by (nonlinear_arith)
                requires
                    0 <= acc <= 0x8000_0000_0000_0000,
                    radix <= 16,
            ;
            assert(acc * (radix as i128) >= 0) by (nonlinear_arith)
                requires
                    0 <= acc,
                    radix >= 0,
            ;
        }
        acc = acc * (radix as i128) + (d as i128);
        k += 1;
        if acc > 0x8000_0000_0000_0000 {
            proof {
                if all_digits(body, radix as int) {
                    lemma_digits_value_prefix(body, k - first, radix as int);
                }
            }
            return None;
        }
    }
    proof {
        assert(body.subrange(0, k - first) =~= body);
    }
    if neg {
        let v = -acc;
        Some(v as i64)
    } else if acc <= 0x7FFF_FFFF_FFFF_FFFF {
        Some(acc as i64)
    } else {
        None
    }
}

/// Parses a numeric literal: decimal, `0x` hex, or `-0x` hex. Returns `None`
/// for a non-number, so the caller can treat the token as a name.
pub fn parse_number_chars(t: &Vec<char>) -> (res: Option<i64>)
    ensures
        res == number_value(t@),
{
    if t.len() >= 2 && t[0] == '0' && t[1] == 'x' {
        return parse_radix_at(t, 2, 16);
    }
    if t.len() >= 3 && t[0] == '-' && t[1] == '0' && t[2] == 'x' {
        return match parse_radix_at(t, 3, 16) {
            Some(n) => Some(-n),
            None => None,
        };
    }
    proof {
        assert(t@.skip(0) =~= t@);
    }
    parse_radix_at(t, 0, 10)
}

/// Parses a numeric literal: decimal, `0x` hex, or `-0x` hex (upper- or
/// lower-case digits). Returns `None` when `tok` is not a number.
pub fn parse_number(tok: &str) -> (res: Option<i64>)
    ensures
        res == number_value(tok@),
{
    let t = str_chars(tok);
    parse_number_chars(&t)
}

} // verus!

