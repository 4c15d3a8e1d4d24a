//! Decimal and hexadecimal rendering of integers, and padding, as used in
//! error messages and disassembly listings.
use vstd::prelude::*;
use crate::text::push_char;
use vstd::string::StrSliceExecFns;

verus! {

/// The character for a digit value below 16 (lower-case hex letters).
pub open spec fn digit_char(d: int) -> char {
    if d < 10 {
        ('0' as int + d) as char
    } else {
        ('a' as int + d - 10) as char
    }
}

/// The base-`radix` digits of `n`, most significant first, without leading
/// zeros (a single `0` for zero).
pub open spec fn radix_digits(n: nat, radix: nat) -> Seq<char>
    recommends
        radix >= 2,
    decreases n,
{
    if n < radix || radix < 2 {
        seq![digit_char(n as int)]
    } else {
        proof {
            vstd::arithmetic::div_mod::lemma_div_decreases(n as int, radix as int);
        }
        radix_digits(n / radix, radix).push(digit_char((n % radix) as int))
    }
}

/// Decimal text of `v`, with a leading `-` when negative (as `{}` prints).
pub open spec fn dec_text(v: int) -> Seq<char> {
    if v < 0 {
        seq!['-'] + radix_digits((-v) as nat, 10)
    } else {
        radix_digits(v as nat, 10)
    }
}

/// Lower-case hex text of `n` (as `{:x}` prints).
pub open spec fn hex_text(n: nat) -> Seq<char> {
    radix_digits(n, 16)
}

/// `c` repeated `n` times.
pub open spec fn repeat_char(c: char, n: nat) -> Seq<char> {
    Seq::new(n, |_i: int| c)
}

/// `s` padded on the left with zeros to at least `width` characters
/// (as `{:0width$}` prints).
pub open spec fn zero_pad(s: Seq<char>, width: nat) -> Seq<char> {
    if s.len() < width {
        repeat_char('0', (width - s.len()) as nat) + s
    } else {
        s
    }
}

/// `s` padded on the right with spaces to at least `width` characters
/// (as `{:<width$}` prints).
pub open spec fn space_pad(s: Seq<char>, width: nat) -> Seq<char> {
    if s.len() < width {
        s + repeat_char(' ', (width - s.len()) as nat)
    } else {
        s
    }
}

fn digit_to_char(d: u128) -> (c: char)
    requires
        d < 16,
    ensures
        c == digit_char(d as int),
{
    if d < 10 {
        ((48 + d) as u8) as char
    } else {
        ((87 + d) as u8) as char
    }
}

/// Appends the base-`radix` digits of `n` to `out`.
pub fn push_digits(out: &mut String, n: u128, radix: u128)
    requires
        radix == 10 || radix == 16,
    ensures
        final(out)@ == old(out)@ + radix_digits(n as nat, radix as nat),
    decreases n,
{
    if n >= radix {
        push_digits(out, n / radix, radix);
    }
    push_char(out, digit_to_char(n % radix));
    proof {
        if n >= radix {
            assert(radix_digits(n as nat, radix as nat) == radix_digits((n / radix) as nat, radix as nat).push(
                digit_char((n % radix) as int),
            ));
        } else {
            assert(n % radix == n);
        }
    }
}

/// Appends the decimal text of `v` to `out`.
pub fn push_dec(out: &mut String, v: i128)
    ensures
        final(out)@ == old(out)@ + dec_text(v as int),
{
    if v < 0 {
        push_char(out, '-');
        let mag: u128 = if v == i128::MIN {
            0x8000_0000_0000_0000_0000_0000_0000_0000u128
        } else {
            (-v) as u128
        };
        let ghost mid = out@;
        push_digits(out, mag, 10);
        proof {
            assert(out@ =~= old(out)@ + dec_text(v as int));
        }
    } else {
        push_digits(out, v as u128, 10);
    }
}

/// Appends the lower-case hex text of `n`, zero-padded to `width`.
pub fn push_hex(out: &mut String, n: u128, width: usize)
    ensures
        final(out)@ == old(out)@ + zero_pad(hex_text(n as nat), width as nat),
{
    let mut digits = String::new();
    push_digits(&mut digits, n, 16);
    let ghost d = digits@;
    let len = digits.as_str().unicode_len();
    let ghost start = out@;
    if len < width {
        let mut k: usize = len;
        while k < width
            invariant
                len <= k <= width,
                out@ == start + repeat_char('0', (k - len) as nat),
            decreases width - k,
        {
            push_char(out, '0');
            k += 1;
            proof {
                assert(out@ =~= start + repeat_char('0', (k - len) as nat));
            }
        }
    }
    crate::text::append_str(out, digits.as_str());
    proof {
        assert(out@ =~= start + zero_pad(hex_text(n as nat), width as nat));
    }
}

} // verus!
