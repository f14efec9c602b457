use vstd::prelude::*;
use crate::direct_keyboard::{direct_checks, direct_plan, KeyCheck};
use crate::matrix_keyboard::{first_key_at, matrix_model, matrix_plan, ColumnScan};

verus! {

/// A token of a layout description.
#[derive(Copy, Clone, Debug, PartialEq, Eq, Structural)]
pub enum LayoutToken {
    /// An integer literal: decimal, or hexadecimal, octal or binary after
    /// `0x`, `0o` or `0b`; `_` may separate its digits and an integer type
    /// such as `u8` may follow it. Its value, or `None` when the value is
    /// above `u64::MAX`.
    Int(Option<u64>),
    /// `(`
    Open,
    /// `)`
    Close,
    /// `,`
    Comma,
}

/// Why a layout description was refused.
#[derive(Copy, Clone, Debug, PartialEq, Eq, Structural)]
pub enum LayoutError {
    /// A byte that starts no token.
    InvalidByte(u8),
    /// An integer literal without digits, or followed by something other
    /// than an integer type.
    InvalidLiteral,
    /// Tokens out of place.
    Syntax,
    /// A pin sequence without pins.
    EmptyPinSequence,
    /// A pin read that is not one of the 32 of the GPIO bank, a key read
    /// whose number an event byte cannot carry, or a coordinate read above
    /// `usize::MAX`.
    OutOfRange,
    /// A doc comment: it stands for an attribute, which no description
    /// takes.
    DocComment,
    /// A block comment that is not closed.
    UnterminatedComment,
}

/// Length of the white space character at the start of `s`, 0 when there
/// is none: tab, line feed, vertical tab, form feed, carriage return and
/// space, and, in UTF-8, U+0085, U+200E, U+200F, U+2028 and U+2029.
pub open spec fn space_len(s: Seq<u8>) -> nat {
    if s.len() >= 1 && ((0x09 <= s[0] <= 0x0D) || s[0] == 0x20) {
        1
    } else if s.len() >= 2 && s[0] == 0xC2 && s[1] == 0x85 {
        2
    } else if s.len() >= 3 && s[0] == 0xE2 && s[1] == 0x80 && (s[2] == 0x8E || s[2] == 0x8F
        || s[2] == 0xA8 || s[2] == 0xA9) {
        3
    } else {
        0
    }
}

/// The bytes of a line comment: all but the line feed.
pub open spec fn line_chars() -> spec_fn(u8) -> bool {
    |b: u8| b != 0x0A
}

/// Whether the line comment at the start of `s` is a doc comment: `//!`,
/// or `///` not followed by a fourth `/`.
pub open spec fn is_line_doc(s: Seq<u8>) -> bool {
    s.len() >= 3 && (s[2] == 0x21 || (s[2] == 0x2F && !(s.len() >= 4 && s[3] == 0x2F)))
}

/// Whether the block comment at the start of `s` is a doc comment: `/*!`,
/// or `/**` followed by neither `*` nor `/`.
pub open spec fn is_block_doc(s: Seq<u8>) -> bool {
    s.len() >= 3 && (s[2] == 0x21 || (s[2] == 0x2A && !(s.len() >= 4 && (s[3] == 0x2A || s[3]
        == 0x2F))))
}

/// Where a block comment of `s` ends, read from index `i` with `depth`
/// comments open: the index after the `*/` that closes the outermost, or
/// `None` when `s` ends first. `/*` opens a nested comment.
pub open spec fn block_end(s: Seq<u8>, i: int, depth: nat) -> Option<int>
    decreases s.len() - i,
{
    if i < 0 || i >= s.len() {
        None
    } else if s[i] == 0x2F && i + 1 < s.len() && s[i + 1] == 0x2A {
        block_end(s, i + 2, depth + 1)
    } else if s[i] == 0x2A && i + 1 < s.len() && s[i + 1] == 0x2F {
        if depth <= 1 {
            Some(i + 2)
        } else {
            block_end(s, i + 2, (depth - 1) as nat)
        }
    } else {
        block_end(s, i + 1, depth)
    }
}

/// A block comment that ends, ends after where it was read from and
/// within `s`.
pub proof fn lemma_block_end_bounds(s: Seq<u8>, i: int, depth: nat)
    ensures
        block_end(s, i, depth) matches Some(e) ==> i < e <= s.len(),
    decreases s.len() - i,
{
    if 0 <= i < s.len() {
        if s[i] == 0x2F && i + 1 < s.len() && s[i + 1] == 0x2A {
            lemma_block_end_bounds(s, i + 2, depth + 1);
        } else if s[i] == 0x2A && i + 1 < s.len() && s[i + 1] == 0x2F {
            if depth > 1 {
                lemma_block_end_bounds(s, i + 2, (depth - 1) as nat);
            }
        } else {
            lemma_block_end_bounds(s, i + 1, depth);
        }
    }
}

/// An ASCII decimal digit.
pub open spec fn is_digit(b: u8) -> bool {
    0x30 <= b <= 0x39
}

/// The value of `b` as a digit of base 16 or below (`0`-`9`, `a`-`f`,
/// `A`-`F`), or 16 when it is none.
pub open spec fn digit_value(b: u8) -> nat {
    if 0x30 <= b <= 0x39 {
        (b - 0x30) as nat
    } else if 0x61 <= b <= 0x66 {
        (b - 0x57) as nat
    } else if 0x41 <= b <= 0x46 {
        (b - 0x37) as nat
    } else {
        16
    }
}

/// A byte of the digits of a literal in base `radix`: a digit of that base,
/// or `_`.
pub open spec fn is_body_char(b: u8, radix: nat) -> bool {
    digit_value(b) < radix || b == 0x5F
}

/// A byte of an identifier: an ASCII letter or digit, or `_`.
pub open spec fn is_ident_char(b: u8) -> bool {
    (0x30 <= b <= 0x39) || (0x41 <= b <= 0x5A) || (0x61 <= b <= 0x7A) || b == 0x5F
}

/// Length of the run at the start of `s` of bytes that `p` accepts.
pub open spec fn run(s: Seq<u8>, p: spec_fn(u8) -> bool) -> nat
    decreases s.len(),
{
    if s.len() > 0 && p(s[0]) {
        1 + run(s.drop_first(), p)
    } else {
        0
    }
}

/// The bytes of the digits of a literal in base `radix`.
pub open spec fn body_chars(radix: nat) -> spec_fn(u8) -> bool {
    |b: u8| is_body_char(b, radix)
}

/// The bytes of an identifier.
pub open spec fn ident_chars() -> spec_fn(u8) -> bool {
    |b: u8| is_ident_char(b)
}

/// The value of the digits of `s` in base `radix`, read left to right, `_`
/// skipped.
pub open spec fn radix_value(s: Seq<u8>, radix: nat) -> nat
    decreases s.len(),
{
    if s.len() == 0 {
        0
    } else if s.last() == 0x5F {
        radix_value(s.drop_last(), radix)
    } else {
        radix_value(s.drop_last(), radix) * radix + digit_value(s.last())
    }
}

/// Whether `s` holds a byte other than `_`.
pub open spec fn has_digit(s: Seq<u8>) -> bool
    decreases s.len(),
{
    s.len() > 0 && (s.last() != 0x5F || has_digit(s.drop_last()))
}

/// An integer type name that may follow a literal: `u` or `i` and then `8`,
/// `16`, `32`, `64`, `128` or `size`.
pub open spec fn is_int_suffix(s: Seq<u8>) -> bool {
    &&& s.len() >= 2
    &&& s[0] == 0x75 || s[0] == 0x69
    &&& {
        let w = s.drop_first();
        ||| w == seq![0x38u8]
        ||| w == seq![0x31u8, 0x36u8]
        ||| w == seq![0x33u8, 0x32u8]
        ||| w == seq![0x36u8, 0x34u8]
        ||| w == seq![0x31u8, 0x32u8, 0x38u8]
        ||| w == seq![0x73u8, 0x69u8, 0x7Au8, 0x65u8]
    }
}

/// The base of the literal at the start of `s`: 16, 8 or 2 after `0x`,
/// `0o` or `0b`, 10 otherwise.
pub open spec fn literal_radix(s: Seq<u8>) -> nat {
    if s.len() >= 2 && s[0] == 0x30 {
        if s[1] == 0x78 {
            16
        } else if s[1] == 0x6F {
            8
        } else if s[1] == 0x62 {
            2
        } else {
            10
        }
    } else {
        10
    }
}

/// Length of the base prefix of the literal at the start of `s`.
pub open spec fn literal_prefix(s: Seq<u8>) -> nat {
    if literal_radix(s) == 10 {
        0
    } else {
        2
    }
}

/// The literal at the start of `s`, which starts with a decimal digit: its
/// length, its value (`None` above `u64::MAX`), and whether it is well
/// formed: it has a digit, and nothing or an integer type follows its
/// digits.
pub open spec fn literal(s: Seq<u8>) -> (nat, Option<u64>, bool) {
    let r = literal_radix(s);
    let p = literal_prefix(s);
    let body = s.skip(p as int);
    let b = run(body, body_chars(r));
    let digits = body.take(b as int);
    let after = body.skip(b as int);
    let x = run(after, ident_chars());
    let v = radix_value(digits, r);
    (
        p + b + x,
        if v <= u64::MAX {
            Some(v as u64)
        } else {
            None
        },
        has_digit(digits) && (x == 0 || is_int_suffix(after.take(x as int))),
    )
}

/// A run lies within its sequence, and is not empty when the first byte
/// belongs to it.
pub proof fn lemma_run_bounds(s: Seq<u8>, p: spec_fn(u8) -> bool)
    ensures
        run(s, p) <= s.len(),
        s.len() > 0 && p(s[0]) ==> run(s, p) >= 1,
    decreases s.len(),
{
    if s.len() > 0 && p(s[0]) {
        lemma_run_bounds(s.drop_first(), p);
    }
}

/// A literal is at least one byte long and lies within `s`.
pub proof fn lemma_literal_len(s: Seq<u8>)
    requires
        s.len() > 0,
        is_digit(s[0]),
    ensures
        1 <= literal(s).0 <= s.len(),
{
    let r = literal_radix(s);
    let p = literal_prefix(s);
    let body = s.skip(p as int);
    lemma_run_bounds(body, body_chars(r));
    let b = run(body, body_chars(r));
    lemma_run_bounds(body.skip(b as int), ident_chars());
    if p == 0 {
        assert(body[0] == s[0]);
        assert(is_body_char(s[0], r));
    }
}

/// `r` with `t` in front of its tokens.
pub open spec fn prepend(t: Seq<LayoutToken>, r: Result<Seq<LayoutToken>, LayoutError>) -> Result<
    Seq<LayoutToken>,
    LayoutError,
> {
    match r {
        Ok(ts) => Ok(t + ts),
        Err(e) => Err(e),
    }
}

/// The tokens of `s`, left to right, white space and comments skipped: a
/// line comment runs from `//` to the end of the line, a block comment from
/// `/*` to the `*/` that closes it. The first byte that starts no token,
/// the first literal that is not well formed, the first doc comment, or a
/// block comment that is not closed refuses it.
pub open spec fn lex(s: Seq<u8>) -> Result<Seq<LayoutToken>, LayoutError>
    decreases s.len(),
{
    if s.len() == 0 {
        Ok(Seq::empty())
    } else {
        let b = s[0];
        if space_len(s) > 0 {
            lex(s.skip(space_len(s) as int))
        } else if s.len() >= 2 && b == 0x2F && s[1] == 0x2F {
            if is_line_doc(s) {
                Err(LayoutError::DocComment)
            } else {
                proof {
                    lemma_run_bounds(s, line_chars());
                }
                lex(s.skip(run(s, line_chars()) as int))
            }
        } else if s.len() >= 2 && b == 0x2F && s[1] == 0x2A {
            proof {
                lemma_block_end_bounds(s, 2, 1);
            }
            match block_end(s, 2, 1) {
                None => Err(LayoutError::UnterminatedComment),
                Some(e) => if is_block_doc(s) {
                    Err(LayoutError::DocComment)
                } else {
                    lex(s.skip(e))
                },
            }
        } else if b == 0x28 {
            prepend(seq![LayoutToken::Open], lex(s.drop_first()))
        } else if b == 0x29 {
            prepend(seq![LayoutToken::Close], lex(s.drop_first()))
        } else if b == 0x2C {
            prepend(seq![LayoutToken::Comma], lex(s.drop_first()))
        } else if is_digit(b) {
            let (n, v, ok) = literal(s);
            proof {
                lemma_literal_len(s);
            }
            if !ok {
                Err(LayoutError::InvalidLiteral)
            } else {
                prepend(seq![LayoutToken::Int(v)], lex(s.skip(n as int)))
            }
        } else {
            Err(LayoutError::InvalidByte(b))
        }
    }
}

/// A run that ends where `s` ends or at a byte outside it.
proof fn lemma_run_exact(s: Seq<u8>, p: spec_fn(u8) -> bool, m: int)
    requires
        0 <= m <= s.len(),
        forall|k: int| 0 <= k < m ==> p(#[trigger] s[k]),
        m == s.len() || !p(s[m]),
    ensures
        run(s, p) == m,
    decreases m,
{
    if m > 0 {
        assert forall|k: int| 0 <= k < m - 1 implies p(#[trigger] s.drop_first()[k]) by {
            assert(s.drop_first()[k] == s[k + 1]);
        }
        lemma_run_exact(s.drop_first(), p, m - 1);
    }
}

/// Multiplying by a base of at least 1 never lowers a value.
proof fn lemma_scale(v: nat, r: nat)
    requires
        r >= 1,
    ensures
        v * r >= v,
{
    assert(v * r >= v) by (nonlinear_arith)
        requires
            r >= 1,
    ;
}

/// The value of `b` as a digit of base 16 or below, or 16 when it is none.
fn digit_of(b: u8) -> (d: u8)
    ensures
        d as nat == digit_value(b),
{
    if 0x30 <= b && b <= 0x39 {
        b - 0x30
    } else if 0x61 <= b && b <= 0x66 {
        b - 0x57
    } else if 0x41 <= b && b <= 0x46 {
        b - 0x37
    } else {
        16
    }
}

/// Whether `input[start..end]` is an integer type name.
fn int_suffix_at(input: &[u8], start: usize, end: usize) -> (ok: bool)
    requires
        start <= end <= input.len(),
    ensures
        ok == is_int_suffix(input@.subrange(start as int, end as int)),
{
    let ghost s = input@.subrange(start as int, end as int);
    if end - start < 2 {
        return false;
    }
    let c = input[start];
    assert(s[0] == c);
    if !(c == 0x75 || c == 0x69) {
        return false;
    }
    let w = start + 1;
    let ghost ws = s.drop_first();
    assert(ws =~= input@.subrange(w as int, end as int));
    let n = end - w;
    if n == 1 {
        assert(ws[0] == input@[w as int]);
        let ok = input[w] == 0x38;
        if ok {
            assert(ws =~= seq![0x38u8]);
        }
        ok
    } else if n == 2 {
        assert(ws[0] == input@[w as int] && ws[1] == input@[w + 1]);
        let (a, b) = (input[w], input[w + 1]);
        let ok = (a == 0x31 && b == 0x36) || (a == 0x33 && b == 0x32) || (a == 0x36 && b == 0x34);
        if a == 0x31 && b == 0x36 {
            assert(ws =~= seq![0x31u8, 0x36u8]);
        }
        if a == 0x33 && b == 0x32 {
            assert(ws =~= seq![0x33u8, 0x32u8]);
        }
        if a == 0x36 && b == 0x34 {
            assert(ws =~= seq![0x36u8, 0x34u8]);
        }
        ok
    } else if n == 3 {
        assert(ws[0] == input@[w as int] && ws[1] == input@[w + 1] && ws[2] == input@[w + 2]);
        let ok = input[w] == 0x31 && input[w + 1] == 0x32 && input[w + 2] == 0x38;
        if ok {
            assert(ws =~= seq![0x31u8, 0x32u8, 0x38u8]);
        }
        ok
    } else if n == 4 {
        assert(ws[0] == input@[w as int] && ws[1] == input@[w + 1] && ws[2] == input@[w + 2]
            && ws[3] == input@[w + 3]);
        let ok = input[w] == 0x73 && input[w + 1] == 0x69 && input[w + 2] == 0x7A && input[w + 3]
            == 0x65;
        if ok {
            assert(ws =~= seq![0x73u8, 0x69u8, 0x7Au8, 0x65u8]);
        }
        ok
    } else {
        false
    }
}

/// Reads the literal at `input[i..]`, which starts with a decimal digit:
/// its token and the index after it.
#[verifier::rlimit(40)]
fn scan_literal(input: &[u8], i: usize) -> (r: Result<(LayoutToken, usize), LayoutError>)
    requires
        i < input.len(),
        is_digit(input@[i as int]),
    ensures
        ({
            let (n, v, ok) = literal(input@.skip(i as int));
            match r {
                Ok((t, j)) => ok && t == LayoutToken::Int(v) && j == i + n && j <= input.len(),
                Err(e) => !ok && e == LayoutError::InvalidLiteral,
            }
        }),
{
    let n = input.len();
    let b = input[i];
    let ghost rest = input@.skip(i as int);
    assert(rest[0] == b);
    let (radix, p): (u8, usize) = if n - i >= 2 && b == 0x30 && input[i + 1] == 0x78 {
        (16, 2)
    } else if n - i >= 2 && b == 0x30 && input[i + 1] == 0x6F {
        (8, 2)
    } else if n - i >= 2 && b == 0x30 && input[i + 1] == 0x62 {
        (2, 2)
    } else {
        (10, 0)
    };
    proof {
        if n - i >= 2 {
            assert(rest[1] == input@[i + 1]);
        }
        assert(radix as nat == literal_radix(rest));
        assert(p as nat == literal_prefix(rest));
    }
    let start = i + p;
    let ghost body = rest.skip(p as int);
    assert(body =~= input@.skip(start as int));
    let mut j: usize = start;
    let mut value: u64 = 0;
    let mut too_large = false;
    let mut saw_digit = false;
    while j < n && (digit_of(input[j]) < radix || input[j] == 0x5F)
        invariant
            n == input@.len(),
            start <= j <= n,
            2 <= radix <= 16,
            forall|k: int| start <= k < j ==> is_body_char(#[trigger] input@[k], radix as nat),
            saw_digit == has_digit(input@.subrange(start as int, j as int)),
            !too_large ==> value == radix_value(
                input@.subrange(start as int, j as int),
                radix as nat,
            ),
            too_large ==> radix_value(input@.subrange(start as int, j as int), radix as nat)
                > u64::MAX,
        decreases n - j,
    {
        let c = input[j];
        let ghost old_value = radix_value(input@.subrange(start as int, j as int), radix as nat);
        assert(input@.subrange(start as int, j + 1).drop_last() =~= input@.subrange(
            start as int,
            j as int,
        ));
        assert(input@.subrange(start as int, j + 1).last() == c);
        if c != 0x5F {
            saw_digit = true;
            let d = digit_of(c) as u64;
            proof {
                lemma_scale(old_value, radix as nat);
            }
            if !too_large {
                match value.checked_mul(radix as u64) {
                    Some(m) => match m.checked_add(d) {
                        Some(v) => {
                            value = v;
                        },
                        None => {
                            too_large = true;
                        },
                    },
                    None => {
                        too_large = true;
                    },
                }
            }
        }
        j += 1;
    }
    let body_end = j;
    proof {
        assert forall|k: int| 0 <= k < body_end - start implies (#[trigger] body_chars(
            radix as nat,
        )(body[k])) by {
            assert(body[k] == input@[start + k]);
        }
        if body_end < n {
            assert(body[body_end - start] == input@[body_end as int]);
        }
        lemma_run_exact(body, body_chars(radix as nat), body_end - start);
        assert(body.take(body_end - start) =~= input@.subrange(start as int, body_end as int));
    }
    while j < n && ((0x30 <= input[j] && input[j] <= 0x39) || (0x41 <= input[j] && input[j]
        <= 0x5A) || (0x61 <= input[j] && input[j] <= 0x7A) || input[j] == 0x5F)
        invariant
            n == input@.len(),
            body_end <= j <= n,
            forall|k: int| body_end <= k < j ==> is_ident_char(#[trigger] input@[k]),
        decreases n - j,
    {
        j += 1;
    }
    let ghost after = body.skip(body_end - start);
    proof {
        assert(after =~= input@.skip(body_end as int));
        assert forall|k: int| 0 <= k < j - body_end implies (#[trigger] ident_chars()(
            after[k],
        )) by {
            assert(after[k] == input@[body_end + k]);
        }
        if j < n {
            assert(after[j - body_end] == input@[j as int]);
        }
        lemma_run_exact(after, ident_chars(), j - body_end);
        assert(after.take(j - body_end) =~= input@.subrange(body_end as int, j as int));
        assert(rest.skip((j - i) as int) =~= input@.skip(j as int));
    }
    let suffix_ok = j == body_end || int_suffix_at(input, body_end, j);
    if !saw_digit || !suffix_ok {
        return Err(LayoutError::InvalidLiteral);
    }
    let t = LayoutToken::Int(
        if too_large {
            None
        } else {
            Some(value)
        },
    );
    Ok((t, j))
}

/// Length of the white space character at `input[i..]`.
fn space_at(input: &[u8], i: usize) -> (k: usize)
    requires
        i <= input.len(),
    ensures
        k == space_len(input@.skip(i as int)),
{
    let ghost rest = input@.skip(i as int);
    let n = input.len();
    if i >= n {
        return 0;
    }
    let b = input[i];
    assert(rest[0] == b);
    if (0x09 <= b && b <= 0x0D) || b == 0x20 {
        return 1;
    }
    if n - i >= 2 {
        assert(rest[1] == input@[i + 1]);
    }
    if n - i >= 2 && b == 0xC2 && input[i + 1] == 0x85 {
        return 2;
    }
    if n - i >= 3 {
        assert(rest[2] == input@[i + 2]);
    }
    if n - i >= 3 && b == 0xE2 && input[i + 1] == 0x80 && (input[i + 2] == 0x8E || input[i + 2]
        == 0x8F || input[i + 2] == 0xA8 || input[i + 2] == 0xA9) {
        return 3;
    }
    0
}

/// The index of the line feed that ends the line comment at `input[i..]`,
/// or the length of `input` when none does.
fn line_end(input: &[u8], i: usize) -> (j: usize)
    requires
        i <= input.len(),
    ensures
        i <= j <= input.len(),
        j - i == run(input@.skip(i as int), line_chars()),
{
    let ghost rest = input@.skip(i as int);
    let n = input.len();
    let mut j: usize = i;
    while j < n && input[j] != 0x0A
        invariant
            n == input@.len(),
            i <= j <= n,
            forall|k: int| i <= k < j ==> #[trigger] input@[k] != 0x0A,
        decreases n - j,
    {
        j += 1;
    }
    proof {
        assert forall|k: int| 0 <= k < j - i implies (#[trigger] line_chars()(rest[k])) by {
            assert(rest[k] == input@[i + k]);
        }
        if j < n {
            assert(rest[j - i] == input@[j as int]);
        }
        lemma_run_exact(rest, line_chars(), j - i);
    }
    j
}

/// The index after the block comment that starts at `input[i..]`, or
/// `None` when it is not closed.
fn block_comment_end(input: &[u8], i: usize) -> (r: Option<usize>)
    requires
        i + 2 <= input.len(),
    ensures
        match r {
            Some(j) => j <= input.len() && i <= j && block_end(input@.skip(i as int), 2, 1) == Some(
                (j - i) as int,
            ),
            None => block_end(input@.skip(i as int), 2, 1) is None,
        },
{
    let ghost rest = input@.skip(i as int);
    let n = input.len();
    let mut j: usize = i + 2;
    let mut depth: usize = 1;
    while j < n
        invariant
            n == input@.len(),
            rest == input@.skip(i as int),
            i + 2 <= j <= n,
            1 <= depth <= j - i,
            block_end(rest, 2, 1) == block_end(rest, j - i, depth as nat),
        decreases n - j,
    {
        assert(rest[j - i] == input@[j as int]);
        if j + 1 < n {
            assert(rest[j + 1 - i] == input@[j + 1]);
        }
        if input[j] == 0x2F && j + 1 < n && input[j + 1] == 0x2A {
            depth += 1;
            j += 2;
        } else if input[j] == 0x2A && j + 1 < n && input[j + 1] == 0x2F {
            if depth == 1 {
                return Some(j + 2);
            }
            depth -= 1;
            j += 2;
        } else {
            j += 1;
        }
    }
    None
}

/// The tokens of `input`.
pub fn tokenize(input: &[u8]) -> (r: Result<Vec<LayoutToken>, LayoutError>)
    ensures
        match (r, lex(input@)) {
            (Ok(ts), Ok(spec_ts)) => ts@ == spec_ts,
            (Err(e), Err(spec_e)) => e == spec_e,
            _ => false,
        },
{
    let mut tokens: Vec<LayoutToken> = Vec::new();
    let mut i: usize = 0;
    let n = input.len();
    assert(input@.skip(0) =~= input@);
    while i < n
        invariant
            n == input@.len(),
            i <= n,
            lex(input@) == prepend(tokens@, lex(input@.skip(i as int))),
        decreases n - i,
    {
        let b = input[i];
        let ghost rest = input@.skip(i as int);
        assert(rest[0] == b);
        assert(rest.drop_first() =~= input@.skip(i + 1));
        if n - i >= 2 {
            assert(rest[1] == input@[i + 1]);
        }
        if n - i >= 3 {
            assert(rest[2] == input@[i + 2]);
        }
        if n - i >= 4 {
            assert(rest[3] == input@[i + 3]);
        }
        let space = space_at(input, i);
        if space > 0 {
            assert(rest.skip(space as int) =~= input@.skip(i + space));
            i += space;
        } else if b == 0x2F && n - i >= 2 && input[i + 1] == 0x2F {
            if n - i >= 3 && (input[i + 2] == 0x21 || (input[i + 2] == 0x2F && !(n - i >= 4
                && input[i + 3] == 0x2F))) {
                return Err(LayoutError::DocComment);
            }
            let j = line_end(input, i);
            proof {
                lemma_run_bounds(rest, line_chars());
                assert(rest.skip((j - i) as int) =~= input@.skip(j as int));
            }
            i = j;
        } else if b == 0x2F && n - i >= 2 && input[i + 1] == 0x2A {
            proof {
                lemma_block_end_bounds(rest, 2, 1);
            }
            match block_comment_end(input, i) {
                None => {
                    return Err(LayoutError::UnterminatedComment);
                },
                Some(j) => {
                    if n - i >= 3 && (input[i + 2] == 0x21 || (input[i + 2] == 0x2A && !(n - i
                        >= 4 && (input[i + 3] == 0x2A || input[i + 3] == 0x2F)))) {
                        return Err(LayoutError::DocComment);
                    }
                    assert(rest.skip((j - i) as int) =~= input@.skip(j as int));
                    i = j;
                },
            }
        } else if b == 0x28 || b == 0x29 || b == 0x2C {
            let t = if b == 0x28 {
                LayoutToken::Open
            } else if b == 0x29 {
                LayoutToken::Close
            } else {
                LayoutToken::Comma
            };
            let ghost before = tokens@;
            tokens.push(t);
            proof {
                match lex(input@.skip(i + 1)) {
                    Ok(ts) => {
                        assert(before + (seq![t] + ts) =~= before.push(t) + ts);
                    },
                    Err(_) => {},
                }
            }
            i += 1;
        } else if 0x30 <= b && b <= 0x39 {
            let (t, j) = scan_literal(input, i)?;
            proof {
                lemma_literal_len(rest);
                assert(rest.skip((j - i) as int) =~= input@.skip(j as int));
            }
            let ghost before = tokens@;
            tokens.push(t);
            proof {
                match lex(input@.skip(j as int)) {
                    Ok(ts) => {
                        assert(before + (seq![t] + ts) =~= before.push(t) + ts);
                    },
                    Err(_) => {},
                }
            }
            i = j;
        } else {
            return Err(LayoutError::InvalidByte(b));
        }
    }
    assert(input@.skip(n as int) =~= Seq::<u8>::empty());
    assert(tokens@ + Seq::<LayoutToken>::empty() =~= tokens@);
    Ok(tokens)
}

/// A sequence of integer literals, each followed by an optional comma: their
/// values (`None` above `u64::MAX`).
pub open spec fn int_list(t: Seq<LayoutToken>) -> Result<Seq<Option<u64>>, LayoutError>
    decreases t.len(),
{
    if t.len() == 0 {
        Ok(Seq::empty())
    } else {
        match t[0] {
            LayoutToken::Int(v) => {
                let rest = if t.len() > 1 && t[1] == LayoutToken::Comma {
                    t.skip(2)
                } else {
                    t.skip(1)
                };
                match int_list(rest) {
                    Ok(vs) => Ok(seq![v] + vs),
                    Err(e) => Err(e),
                }
            },
            _ => Err(LayoutError::Syntax),
        }
    }
}

/// The pins of a keyboard wired directly: a sequence of integers, each
/// followed by an optional comma, with at least one.
pub open spec fn pin_list(t: Seq<LayoutToken>) -> Result<Seq<Option<u64>>, LayoutError> {
    if t.len() == 0 {
        Err(LayoutError::EmptyPinSequence)
    } else {
        int_list(t)
    }
}

/// Index of the first `)` in `t`, or `t.len()` when there is none.
pub open spec fn first_close(t: Seq<LayoutToken>) -> int
    decreases t.len(),
{
    if t.len() == 0 {
        0
    } else if t[0] == LayoutToken::Close {
        0
    } else {
        1 + first_close(t.drop_first())
    }
}

/// A parenthesised [`int_list`] at the start of `t`: its values, and the
/// tokens after its `)`.
pub open spec fn group_list(t: Seq<LayoutToken>) -> Result<(Seq<Option<u64>>, Seq<LayoutToken>), LayoutError> {
    if t.len() > 0 && t[0] == LayoutToken::Open {
        let c = 1 + first_close(t.drop_first());
        if c < t.len() {
            match int_list(t.subrange(1, c)) {
                Ok(vs) => Ok((vs, t.skip(c + 1))),
                Err(e) => Err(e),
            }
        } else {
            Err(LayoutError::Syntax)
        }
    } else {
        Err(LayoutError::Syntax)
    }
}

/// The description of a key matrix: `((columns), (rows))`, a comma allowed
/// after the rows; the column pins and the row pins.
pub open spec fn matrix_desc(t: Seq<LayoutToken>) -> Result<(Seq<Option<u64>>, Seq<Option<u64>>), LayoutError> {
    if t.len() >= 2 && t[0] == LayoutToken::Open && t.last() == LayoutToken::Close {
        let inner = t.subrange(1, t.len() - 1);
        match group_list(inner) {
            Ok((cols, r1)) => if r1.len() > 0 && r1[0] == LayoutToken::Comma {
                match group_list(r1.skip(1)) {
                    Ok((rows, r3)) => if r3.len() == 0 || (r3.len() == 1 && r3[0]
                        == LayoutToken::Comma) {
                        Ok((cols, rows))
                    } else {
                        Err(LayoutError::Syntax)
                    },
                    Err(e) => Err(e),
                }
            } else {
                Err(LayoutError::Syntax)
            },
            Err(e) => Err(e),
        }
    } else {
        Err(LayoutError::Syntax)
    }
}

/// The keys of a matrix: `(column, row)` pairs, each followed by an
/// optional comma.
pub open spec fn key_seq(t: Seq<LayoutToken>) -> Result<Seq<(Option<u64>, Option<u64>)>, LayoutError>
    decreases t.len(),
{
    if t.len() == 0 {
        Ok(Seq::empty())
    } else if t.len() >= 5 && t[0] == LayoutToken::Open && t[1] is Int && t[2] == LayoutToken::Comma
        && t[3] is Int && t[4] == LayoutToken::Close {
        let rest = if t.len() > 5 && t[5] == LayoutToken::Comma {
            t.skip(6)
        } else {
            t.skip(5)
        };
        match key_seq(rest) {
            Ok(ks) => Ok(seq![(t[1]->Int_0, t[3]->Int_0)] + ks),
            Err(e) => Err(e),
        }
    } else {
        Err(LayoutError::Syntax)
    }
}

/// `r` with `v` in front of its values.
pub open spec fn prepend_values<A>(v: Seq<A>, r: Result<Seq<A>, LayoutError>) -> Result<
    Seq<A>,
    LayoutError,
> {
    match r {
        Ok(vs) => Ok(v + vs),
        Err(e) => Err(e),
    }
}

/// The integers of `t[start..end]`, read as an [`int_list`].
fn parse_ints(t: &Vec<LayoutToken>, start: usize, end: usize) -> (r: Result<Vec<Option<u64>>, LayoutError>)
    requires
        start <= end <= t.len(),
    ensures
        match (r, int_list(t@.subrange(start as int, end as int))) {
            (Ok(vs), Ok(spec_vs)) => vs@ == spec_vs,
            (Err(e), Err(spec_e)) => e == spec_e,
            _ => false,
        },
{
    let mut values: Vec<Option<u64>> = Vec::new();
    let mut i = start;
    while i < end
        invariant
            start <= i <= end <= t.len(),
            int_list(t@.subrange(start as int, end as int)) == prepend_values(
                values@,
                int_list(t@.subrange(i as int, end as int)),
            ),
        decreases end - i,
    {
        let ghost sub = t@.subrange(i as int, end as int);
        match t[i] {
            LayoutToken::Int(v) => {
                let next = if i + 1 < end && t[i + 1] == LayoutToken::Comma {
                    i + 2
                } else {
                    i + 1
                };
                proof {
                    assert(sub[0] == t@[i as int]);
                    if i + 1 < end && t@[i + 1] == LayoutToken::Comma {
                        assert(sub[1] == t@[i + 1]);
                        assert(sub.skip(2) =~= t@.subrange(next as int, end as int));
                    } else {
                        if i + 1 < end {
                            assert(sub[1] == t@[i + 1]);
                        }
                        assert(sub.skip(1) =~= t@.subrange(next as int, end as int));
                    }
                    match int_list(t@.subrange(next as int, end as int)) {
                        Ok(vs) => {
                            assert(values@ + (seq![v] + vs) =~= values@.push(v) + vs);
                        },
                        Err(_) => {},
                    }
                }
                values.push(v);
                i = next;
            },
            _ => {
                proof {
                    assert(sub[0] == t@[i as int]);
                }
                return Err(LayoutError::Syntax);
            },
        }
    }
    proof {
        assert(t@.subrange(i as int, end as int) =~= Seq::<LayoutToken>::empty());
        assert(values@ + Seq::<Option<u64>>::empty() =~= values@);
    }
    Ok(values)
}

/// Index of the first `)` in `t[start..end]`, or `end` when there is none.
fn find_close(t: &Vec<LayoutToken>, start: usize, end: usize) -> (c: usize)
    requires
        start <= end <= t.len(),
    ensures
        c == start + first_close(t@.subrange(start as int, end as int)),
        start <= c <= end,
{
    let mut i = start;
    while i < end && t[i] != LayoutToken::Close
        invariant
            start <= i <= end <= t.len(),
            first_close(t@.subrange(start as int, end as int)) == (i - start) + first_close(
                t@.subrange(i as int, end as int),
            ),
        decreases end - i,
    {
        proof {
            assert(t@.subrange(i as int, end as int)[0] == t@[i as int]);
            assert(t@.subrange(i as int, end as int).drop_first() =~= t@.subrange(i + 1, end as int));
        }
        i += 1;
    }
    proof {
        if i < end {
            assert(t@.subrange(i as int, end as int)[0] == t@[i as int]);
        }
    }
    i
}

/// `first_close` stays within the sequence.
proof fn lemma_first_close_bounds(t: Seq<LayoutToken>)
    ensures
        0 <= first_close(t) <= t.len(),
        first_close(t) < t.len() ==> t[first_close(t)] == LayoutToken::Close,
    decreases t.len(),
{
    if t.len() > 0 && t[0] != LayoutToken::Close {
        lemma_first_close_bounds(t.drop_first());
    }
}

/// The parenthesised integers at the start of `t[start..end]`, and the index
/// after their `)`.
fn parse_group(t: &Vec<LayoutToken>, start: usize, end: usize) -> (r: Result<(Vec<Option<u64>>, usize), LayoutError>)
    requires
        start <= end <= t.len(),
    ensures
        match (r, group_list(t@.subrange(start as int, end as int))) {
            (Ok((vs, next)), Ok((spec_vs, rest))) => vs@ == spec_vs && start <= next <= end && rest
                == t@.subrange(next as int, end as int),
            (Err(e), Err(spec_e)) => e == spec_e,
            _ => false,
        },
{
    let ghost sub = t@.subrange(start as int, end as int);
    if !(start < end && t[start] == LayoutToken::Open) {
        proof {
            if start < end {
                assert(sub[0] == t@[start as int]);
            }
        }
        return Err(LayoutError::Syntax);
    }
    assert(sub[0] == t@[start as int]);
    assert(sub.drop_first() =~= t@.subrange(start + 1, end as int));
    let c = find_close(t, start + 1, end);
    proof {
        lemma_first_close_bounds(t@.subrange(start + 1, end as int));
    }
    if c >= end {
        return Err(LayoutError::Syntax);
    }
    assert(sub.subrange(1, (c - start) as int) =~= t@.subrange(start + 1, c as int));
    assert(sub.skip((c - start) + 1) =~= t@.subrange(c + 1, end as int));
    let values = parse_ints(t, start + 1, c)?;
    Ok((values, c + 1))
}

/// The description of a key matrix, `((columns), (rows))` with a comma
/// allowed after the rows: the column pins and the row pins.
pub fn parse_matrix_desc(input: &[u8]) -> (r: Result<(Vec<Option<u64>>, Vec<Option<u64>>), LayoutError>)
    ensures
        match (r, lex(input@)) {
            (Err(e), Err(lex_e)) => e == lex_e,
            (Ok((cols, rows)), Ok(ts)) => matrix_desc(ts) == Ok::<(Seq<Option<u64>>, Seq<Option<u64>>), LayoutError>(
                (cols@, rows@),
            ),
            (Err(e), Ok(ts)) => matrix_desc(ts) == Err::<(Seq<Option<u64>>, Seq<Option<u64>>), LayoutError>(e),
            _ => false,
        },
{
    let tokens = tokenize(input)?;
    let n = tokens.len();
    if !(n >= 2 && tokens[0] == LayoutToken::Open && tokens[n - 1] == LayoutToken::Close) {
        return Err(LayoutError::Syntax);
    }
    let ghost inner = tokens@.subrange(1, n - 1);
    let (cols, p1) = parse_group(&tokens, 1, n - 1)?;
    if !(p1 < n - 1 && tokens[p1] == LayoutToken::Comma) {
        proof {
            if p1 < n - 1 {
                assert(tokens@.subrange(p1 as int, n - 1)[0] == tokens@[p1 as int]);
            }
        }
        return Err(LayoutError::Syntax);
    }
    proof {
        assert(tokens@.subrange(p1 as int, n - 1)[0] == tokens@[p1 as int]);
        assert(tokens@.subrange(p1 as int, n - 1).skip(1) =~= tokens@.subrange(p1 + 1, n - 1));
    }
    let (rows, p3) = parse_group(&tokens, p1 + 1, n - 1)?;
    if !(p3 == n - 1 || (p3 + 1 == n - 1 && tokens[p3] == LayoutToken::Comma)) {
        proof {
            if p3 + 1 == n - 1 {
                assert(tokens@.subrange(p3 as int, n - 1)[0] == tokens@[p3 as int]);
            }
        }
        return Err(LayoutError::Syntax);
    }
    proof {
        if p3 + 1 == n - 1 {
            assert(tokens@.subrange(p3 as int, n - 1)[0] == tokens@[p3 as int]);
        }
    }
    Ok((cols, rows))
}

/// The keys of a matrix, from their description: `(column, row)` pairs of
/// integer literals, each followed by an optional comma.
pub fn parse_key_seq(input: &[u8]) -> (r: Result<Vec<(Option<u64>, Option<u64>)>, LayoutError>)
    ensures
        match (r, lex(input@)) {
            (Err(e), Err(lex_e)) => e == lex_e,
            (Ok(ks), Ok(ts)) => key_seq(ts) == Ok::<Seq<(Option<u64>, Option<u64>)>, LayoutError>(ks@),
            (Err(e), Ok(ts)) => key_seq(ts) == Err::<Seq<(Option<u64>, Option<u64>)>, LayoutError>(e),
            _ => false,
        },
{
    let t = tokenize(input)?;
    let n = t.len();
    let mut keys: Vec<(Option<u64>, Option<u64>)> = Vec::new();
    let mut i: usize = 0;
    assert(t@.skip(0) =~= t@);
    while i < n
        invariant
            n == t.len(),
            i <= n,
            lex(input@) == Ok::<Seq<LayoutToken>, LayoutError>(t@),
            key_seq(t@) == prepend_values(keys@, key_seq(t@.skip(i as int))),
        decreases n - i,
    {
        let ghost rest = t@.skip(i as int);
        assert(rest.len() > 0);
        if n - i >= 5 {
            proof {
                assert(rest[0] == t@[i as int]);
                assert(rest[1] == t@[i + 1]);
                assert(rest[2] == t@[i + 2]);
                assert(rest[3] == t@[i + 3]);
                assert(rest[4] == t@[i + 4]);
            }
            if let (LayoutToken::Open, LayoutToken::Int(x), LayoutToken::Comma, LayoutToken::Int(y),
                LayoutToken::Close) = (t[i], t[i + 1], t[i + 2], t[i + 3], t[i + 4]) {
                let next = if i + 5 < n && t[i + 5] == LayoutToken::Comma {
                    i + 6
                } else {
                    i + 5
                };
                proof {
                    if i + 5 < n {
                        assert(rest[5] == t@[i + 5]);
                    }
                    if next == i + 6 {
                        assert(rest.skip(6) =~= t@.skip(next as int));
                    } else {
                        assert(rest.skip(5) =~= t@.skip(next as int));
                    }
                    match key_seq(t@.skip(next as int)) {
                        Ok(ks) => {
                            assert(keys@ + (seq![(x, y)] + ks) =~= keys@.push((x, y)) + ks);
                        },
                        Err(_) => {},
                    }
                }
                keys.push((x, y));
                i = next;
            } else {
                return Err(LayoutError::Syntax);
            }
        } else {
            return Err(LayoutError::Syntax);
        }
    }
    proof {
        assert(t@.skip(n as int) =~= Seq::<LayoutToken>::empty());
        assert(keys@ + Seq::<(Option<u64>, Option<u64>)>::empty() =~= keys@);
    }
    Ok(keys)
}

/// The pins of a keyboard wired directly, from their description: integer
/// literals, each followed by an optional comma, at least one.
pub fn parse_pin_list(input: &[u8]) -> (r: Result<Vec<Option<u64>>, LayoutError>)
    ensures
        match (r, lex(input@)) {
            (Err(e), Err(lex_e)) => e == lex_e,
            (Ok(vs), Ok(ts)) => pin_list(ts) == Ok::<Seq<Option<u64>>, LayoutError>(vs@),
            (Err(e), Ok(ts)) => pin_list(ts) == Err::<Seq<Option<u64>>, LayoutError>(e),
            _ => false,
        },
{
    let tokens = tokenize(input)?;
    if tokens.len() == 0 {
        return Err(LayoutError::EmptyPinSequence);
    }
    proof {
        assert(tokens@.subrange(0, tokens.len() as int) =~= tokens@);
    }
    parse_ints(&tokens, 0, tokens.len())
}

/// Whether a literal names a pin of the GPIO bank.
pub open spec fn pin_fits(v: Option<u64>) -> bool {
    v matches Some(x) && x < 32
}

/// Whether every literal of `vs` names a pin of the GPIO bank.
pub open spec fn pins_fit(vs: Seq<Option<u64>>) -> bool {
    forall|i: int| 0 <= i < vs.len() ==> pin_fits(#[trigger] vs[i])
}

/// The pins of `vs` as bytes.
pub open spec fn pin_bytes(vs: Seq<Option<u64>>) -> Seq<u8> {
    vs.map_values(|v: Option<u64>| v.unwrap() as u8)
}

/// The input pins of a keyboard wired directly, key `i` on pin `i`, from
/// the description `s`.
pub open spec fn direct_layout(s: Seq<u8>) -> Result<Seq<u8>, LayoutError> {
    match lex(s) {
        Err(e) => Err(e),
        Ok(ts) => match pin_list(ts) {
            Err(e) => Err(e),
            Ok(vs) => if vs.len() <= 128 && pins_fit(vs) {
                Ok(pin_bytes(vs))
            } else {
                Err(LayoutError::OutOfRange)
            },
        },
    }
}

/// Converts pin literals that all fit into bytes.
fn to_pins(vs: &Vec<Option<u64>>) -> (pins: Vec<u8>)
    requires
        pins_fit(vs@),
    ensures
        pins@ == pin_bytes(vs@),
{
    let mut pins: Vec<u8> = Vec::new();
    let mut i: usize = 0;
    while i < vs.len()
        invariant
            i <= vs.len(),
            pins_fit(vs@),
            pins@ == pin_bytes(vs@.take(i as int)),
        decreases vs.len() - i,
    {
        assert(pin_fits(vs@[i as int]));
        let v = match vs[i] {
            Some(v) => v,
            None => 0,
        };
        pins.push(v as u8);
        i += 1;
        assert(pins@ =~= pin_bytes(vs@.take(i as int)));
    }
    assert(vs@.take(vs.len() as int) =~= vs@);
    pins
}

/// Whether every literal of `vs` is a pin, checked.
fn check_pins(vs: &Vec<Option<u64>>) -> (ok: bool)
    ensures
        ok == pins_fit(vs@),
{
    let mut i: usize = 0;
    while i < vs.len()
        invariant
            i <= vs.len(),
            forall|j: int| 0 <= j < i ==> pin_fits(#[trigger] vs@[j]),
        decreases vs.len() - i,
    {
        match vs[i] {
            Some(v) => {
                if v >= 32 {
                    return false;
                }
            },
            None => {
                return false;
            },
        }
        i += 1;
    }
    true
}

/// How a keyboard wired directly is read, from the description of its pins:
/// key `i` on the `i`-th pin.
pub fn direct_layout_plan(text: &[u8]) -> (r: Result<Vec<KeyCheck>, LayoutError>)
    ensures
        match (r, direct_layout(text@)) {
            (Ok(checks), Ok(pins)) => checks@ == direct_checks(pins),
            (Err(e), Err(spec_e)) => e == spec_e,
            _ => false,
        },
{
    let values = parse_pin_list(text)?;
    if !(values.len() <= 128 && check_pins(&values)) {
        return Err(LayoutError::OutOfRange);
    }
    let pins = to_pins(&values);
    Ok(direct_plan(&pins))
}

/// Whether a coordinate literal fits a `usize`.
pub open spec fn coord_fits(v: Option<u64>) -> bool {
    v matches Some(x) && x <= usize::MAX
}

/// Where the search for the first key at column `c` and row `r` ends,
/// reading the keys of `ks` in order: each key's column is read, and its
/// row only when the column is `c`. The index of the key found, -1 when
/// none is, or `OutOfRange` at the first literal read that does not fit a
/// `usize`.
pub open spec fn search_cell(ks: Seq<(Option<u64>, Option<u64>)>, c: int, r: int) -> Result<
    int,
    LayoutError,
>
    decreases ks.len(),
{
    if ks.len() == 0 {
        Ok(-1)
    } else {
        match search_cell(ks.drop_last(), c, r) {
            Err(e) => Err(e),
            Ok(k) => if k >= 0 {
                Ok(k)
            } else {
                let (x, y) = ks.last();
                if !coord_fits(x) {
                    Err(LayoutError::OutOfRange)
                } else if x.unwrap() != c {
                    Ok(-1)
                } else if !coord_fits(y) {
                    Err(LayoutError::OutOfRange)
                } else if y.unwrap() == r {
                    Ok(ks.len() - 1)
                } else {
                    Ok(-1)
                }
            },
        }
    }
}

/// Whether the cell at column `c` and row `r` is read without fault: the
/// search for its key reads only coordinates that fit, and a key found
/// there sits on a pin of the GPIO bank and is numbered below 128, so that
/// an event byte can carry it.
pub open spec fn cell_fits(
    ks: Seq<(Option<u64>, Option<u64>)>,
    rows: Seq<Option<u64>>,
    c: int,
    r: int,
) -> bool {
    match search_cell(ks, c, r) {
        Ok(k) => k >= 0 ==> pin_fits(rows[r]) && k < 128,
        Err(_) => false,
    }
}

/// Whether every cell of the first `ncols` columns and of the rows `rows`
/// is read without fault. Literals that no read reaches are not checked.
pub open spec fn reads_fit(ks: Seq<(Option<u64>, Option<u64>)>, rows: Seq<Option<u64>>, ncols: nat) -> bool {
    forall|c: int, r: int| 0 <= c < ncols && 0 <= r < rows.len() ==> #[trigger] cell_fits(ks, rows, c, r)
}

/// A row literal as a pin byte; 0xFF, which is no pin, for a literal that
/// names none: where the reads fit, no key is found on such a row.
pub open spec fn row_byte(v: Option<u64>) -> u8 {
    if pin_fits(v) {
        v.unwrap() as u8
    } else {
        0xFF
    }
}

/// The row literals of `vs` as pin bytes.
pub open spec fn row_bytes(vs: Seq<Option<u64>>) -> Seq<u8> {
    vs.map_values(|v: Option<u64>| row_byte(v))
}

/// A coordinate literal as a `usize`; `usize::MAX` for one that does not
/// fit: where the reads fit, no search compares it.
pub open spec fn coord_value(v: Option<u64>) -> usize {
    if coord_fits(v) {
        v.unwrap() as usize
    } else {
        usize::MAX
    }
}

/// The keys of `ks` as `usize` coordinates.
pub open spec fn key_coords(ks: Seq<(Option<u64>, Option<u64>)>) -> Seq<(usize, usize)> {
    ks.map_values(|k: (Option<u64>, Option<u64>)| (coord_value(k.0), coord_value(k.1)))
}

/// A key matrix from its two descriptions: the number of columns, the row
/// pins, and the keys as (column, row) in key order. The column literals
/// are only counted; a row literal or a coordinate is read only where the
/// search for a cell's key reaches it.
pub open spec fn matrix_layout(desc: Seq<u8>, keys: Seq<u8>) -> Result<
    (nat, Seq<u8>, Seq<(usize, usize)>),
    LayoutError,
> {
    match lex(desc) {
        Err(e) => Err(e),
        Ok(dt) => match matrix_desc(dt) {
            Err(e) => Err(e),
            Ok((cols, rows)) => match lex(keys) {
                Err(e) => Err(e),
                Ok(kt) => match key_seq(kt) {
                    Err(e) => Err(e),
                    Ok(ks) => if reads_fit(ks, rows, cols.len()) {
                        Ok((cols.len(), row_bytes(rows), key_coords(ks)))
                    } else {
                        Err(LayoutError::OutOfRange)
                    },
                },
            },
        },
    }
}

/// A search that has failed or found a key ends the same on any longer
/// sequence of keys.
proof fn lemma_search_prefix(ks: Seq<(Option<u64>, Option<u64>)>, c: int, r: int, n: int)
    requires
        0 <= n <= ks.len(),
        match search_cell(ks.take(n), c, r) {
            Ok(k) => k >= 0,
            Err(_) => true,
        },
    ensures
        search_cell(ks, c, r) == search_cell(ks.take(n), c, r),
    decreases ks.len() - n,
{
    if n < ks.len() {
        assert(ks.take(n + 1).drop_last() =~= ks.take(n));
        lemma_search_prefix(ks, c, r, n + 1);
    } else {
        assert(ks.take(n) =~= ks);
    }
}

/// A search that ends without fault finds the key that `first_key_at`
/// finds among the coordinates.
proof fn lemma_search_coords(ks: Seq<(Option<u64>, Option<u64>)>, c: int, r: int)
    requires
        search_cell(ks, c, r) is Ok,
    ensures
        first_key_at(key_coords(ks), c, r) == search_cell(ks, c, r)->Ok_0,
    decreases ks.len(),
{
    if ks.len() > 0 {
        assert(key_coords(ks).drop_last() =~= key_coords(ks.drop_last()));
        lemma_search_coords(ks.drop_last(), c, r);
    }
}

/// A coordinate literal as a `usize`.
fn coord_of(v: Option<u64>) -> (x: usize)
    ensures
        x == coord_value(v),
{
    match v {
        Some(x) => if x > usize::MAX as u64 {
            usize::MAX
        } else {
            x as usize
        },
        None => usize::MAX,
    }
}

/// The search for the first key at column `c` and row `r`.
fn search_key(ks: &Vec<(Option<u64>, Option<u64>)>, c: usize, r: usize) -> (res: Result<
    Option<usize>,
    LayoutError,
>)
    ensures
        match res {
            Ok(Some(k)) => search_cell(ks@, c as int, r as int) == Ok::<int, LayoutError>(k as int),
            Ok(None) => search_cell(ks@, c as int, r as int) == Ok::<int, LayoutError>(-1),
            Err(e) => search_cell(ks@, c as int, r as int) == Err::<int, LayoutError>(e),
        },
{
    let mut i: usize = 0;
    assert(ks@.take(0) =~= Seq::<(Option<u64>, Option<u64>)>::empty());
    while i < ks.len()
        invariant
            i <= ks.len(),
            search_cell(ks@.take(i as int), c as int, r as int) == Ok::<int, LayoutError>(-1),
        decreases ks.len() - i,
    {
        assert(ks@.take(i + 1).drop_last() =~= ks@.take(i as int));
        assert(ks@.take(i + 1).last() == ks@[i as int]);
        let (x, y) = ks[i];
        let found = match x {
            Some(cx) if cx <= usize::MAX as u64 => {
                if cx as usize != c {
                    false
                } else {
                    match y {
                        Some(cy) if cy <= usize::MAX as u64 => cy as usize == r,
                        _ => {
                            proof {
                                lemma_search_prefix(ks@, c as int, r as int, i + 1);
                            }
                            return Err(LayoutError::OutOfRange);
                        },
                    }
                }
            },
            _ => {
                proof {
                    lemma_search_prefix(ks@, c as int, r as int, i + 1);
                }
                return Err(LayoutError::OutOfRange);
            },
        };
        if found {
            proof {
                lemma_search_prefix(ks@, c as int, r as int, i + 1);
            }
            return Ok(Some(i));
        }
        i += 1;
    }
    assert(ks@.take(ks.len() as int) =~= ks@);
    Ok(None)
}

/// Whether every cell of the first `ncols` columns and of the rows `rows`
/// is read without fault, checked.
fn check_reads(ks: &Vec<(Option<u64>, Option<u64>)>, rows: &Vec<Option<u64>>, ncols: usize) -> (ok:
    bool)
    ensures
        ok == reads_fit(ks@, rows@, ncols as nat),
{
    let mut c: usize = 0;
    while c < ncols
        invariant
            c <= ncols,
            forall|c2: int, r2: int|
                0 <= c2 < c && 0 <= r2 < rows.len() ==> #[trigger] cell_fits(ks@, rows@, c2, r2),
        decreases ncols - c,
    {
        let mut r: usize = 0;
        while r < rows.len()
            invariant
                c < ncols,
                r <= rows.len(),
                forall|c2: int, r2: int|
                    0 <= c2 < c && 0 <= r2 < rows.len() ==> #[trigger] cell_fits(ks@, rows@, c2, r2),
                forall|r2: int| 0 <= r2 < r ==> #[trigger] cell_fits(ks@, rows@, c as int, r2),
            decreases rows.len() - r,
        {
            let fits = match search_key(ks, c, r) {
                Err(_) => false,
                Ok(None) => true,
                Ok(Some(k)) => k < 128 && match rows[r] {
                    Some(p) => p < 32,
                    None => false,
                },
            };
            if !fits {
                assert(!cell_fits(ks@, rows@, c as int, r as int));
                return false;
            }
            r += 1;
        }
        c += 1;
    }
    true
}

/// The row literals as pin bytes.
fn to_row_bytes(vs: &Vec<Option<u64>>) -> (rows: Vec<u8>)
    ensures
        rows@ == row_bytes(vs@),
{
    let mut rows: Vec<u8> = Vec::new();
    let mut i: usize = 0;
    while i < vs.len()
        invariant
            i <= vs.len(),
            rows@ == row_bytes(vs@.take(i as int)),
        decreases vs.len() - i,
    {
        let b = match vs[i] {
            Some(p) if p < 32 => p as u8,
            _ => 0xFF,
        };
        rows.push(b);
        i += 1;
        assert(rows@ =~= row_bytes(vs@.take(i as int)));
    }
    assert(vs@.take(vs.len() as int) =~= vs@);
    rows
}

/// The keys as `usize` coordinates.
fn to_coords(ks: &Vec<(Option<u64>, Option<u64>)>) -> (cs: Vec<(usize, usize)>)
    ensures
        cs@ == key_coords(ks@),
{
    let mut cs: Vec<(usize, usize)> = Vec::new();
    let mut i: usize = 0;
    while i < ks.len()
        invariant
            i <= ks.len(),
            cs@ == key_coords(ks@.take(i as int)),
        decreases ks.len() - i,
    {
        let (x, y) = ks[i];
        cs.push((coord_of(x), coord_of(y)));
        i += 1;
        assert(cs@ =~= key_coords(ks@.take(i as int)));
    }
    assert(ks@.take(ks.len() as int) =~= ks@);
    cs
}

/// How a key matrix is read, from the description of its pins,
/// `((columns), (rows))`, and of its keys, `(column, row)` pairs in key order.
pub fn matrix_layout_plan(desc: &[u8], keys: &[u8]) -> (r: Result<Vec<ColumnScan>, LayoutError>)
    ensures
        match (r, matrix_layout(desc@, keys@)) {
            (Ok(plan), Ok((ncols, rows, ks))) => plan@.map_values(|s: ColumnScan| s.model())
                == matrix_model(ks, rows, ncols),
            (Err(e), Err(spec_e)) => e == spec_e,
            _ => false,
        },
{
    let (cols, rows) = parse_matrix_desc(desc)?;
    let key_values = parse_key_seq(keys)?;
    if !check_reads(&key_values, &rows, cols.len()) {
        return Err(LayoutError::OutOfRange);
    }
    let row_pins = to_row_bytes(&rows);
    let coords = to_coords(&key_values);
    proof {
        assert forall|c: int, r: int|
            0 <= c < cols.len() && 0 <= r < row_pins.len() && #[trigger] first_key_at(
                coords@,
                c,
                r,
            ) >= 0 implies row_pins@[r] < 32 && first_key_at(coords@, c, r) < 128 by {
            assert(cell_fits(key_values@, rows@, c, r));
            lemma_search_coords(key_values@, c, r);
        }
    }
    Ok(matrix_plan(cols.len(), &row_pins, &coords))
}

} // verus!
