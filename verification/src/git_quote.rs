//! Decoding git's C-style path quoting.
//!
//! git wraps a path holding a quote, a backslash, a control character or a
//! non-ASCII byte in double quotes and escapes those bytes C-style. The
//! escapes are octal *byte* values, so decoding has to happen before any
//! containment check: `"a/\056\056/etc"` spells `a/../etc`.

use crate::text::{lemma_ascii_byte_boundaries, lemma_split_view, string_from_utf8};
use std::borrow::Cow;
use vstd::prelude::*;
use vstd::string::StringSliceAdditionalSpecFns;
use vstd::utf8::*;

verus! {

/// `"` as a byte.
pub open spec fn quote_byte() -> u8 {
    34
}

/// `\` as a byte.
pub open spec fn backslash_byte() -> u8 {
    92
}

/// An octal digit `0`..`7`.
pub open spec fn is_octal_digit(b: u8) -> bool {
    48 <= b && b <= 55
}

/// The byte a one-letter C escape stands for, if `b` names one.
pub open spec fn named_escape(b: u8) -> Option<u8> {
    if b == 97 {
        Some(0x07u8)
    } else if b == 98 {
        Some(0x08u8)
    } else if b == 102 {
        Some(0x0cu8)
    } else if b == 110 {
        Some(0x0au8)
    } else if b == 114 {
        Some(0x0du8)
    } else if b == 116 {
        Some(0x09u8)
    } else if b == 118 {
        Some(0x0bu8)
    } else if b == 34 {
        Some(34u8)
    } else if b == 92 {
        Some(92u8)
    } else {
        None
    }
}

/// `x` in front of a decoded remainder, if there is one.
pub open spec fn prepend_opt(x: u8, rest: Option<Seq<u8>>) -> Option<Seq<u8>> {
    match rest {
        Some(r) => Some(seq![x] + r),
        None => None,
    }
}

/// `prefix` in front of a decoded remainder, if there is one.
pub open spec fn concat_opt(prefix: Seq<u8>, rest: Option<Seq<u8>>) -> Option<Seq<u8>> {
    match rest {
        Some(r) => Some(prefix + r),
        None => None,
    }
}

/// The bytes the inside of a quoted path stands for, or `None` when it is
/// malformed: a bare `"`, a trailing `\`, an unknown escape letter, or an
/// octal escape that is not exactly three octal digits of at most 255.
pub open spec fn decode_c_escapes(b: Seq<u8>) -> Option<Seq<u8>>
    decreases b.len(),
{
    if b.len() == 0 {
        Some(Seq::empty())
    } else if b[0] != backslash_byte() {
        if b[0] == quote_byte() {
            None
        } else {
            prepend_opt(b[0], decode_c_escapes(b.skip(1)))
        }
    } else if b.len() < 2 {
        None
    } else if named_escape(b[1]) is Some {
        prepend_opt(named_escape(b[1])->0, decode_c_escapes(b.skip(2)))
    } else if is_octal_digit(b[1]) {
        if b.len() < 4 || !is_octal_digit(b[2]) || !is_octal_digit(b[3]) {
            None
        } else {
            let v = (b[1] - 48) * 64 + (b[2] - 48) * 8 + (b[3] - 48);
            if v > 255 {
                None
            } else {
                prepend_opt(v as u8, decode_c_escapes(b.skip(4)))
            }
        }
    } else {
        None
    }
}

/// Whether the encoded path `b` is in git's quoted form.
pub open spec fn is_quoted_form(b: Seq<u8>) -> bool {
    b.len() > 0 && b[0] == quote_byte()
}

/// The bytes a diff-header path stands for: the path itself when it is not
/// quoted; otherwise the decoded inside of the quotes, `None` when the
/// closing quote is missing, an escape is malformed, or the decoded bytes
/// are not UTF-8.
pub open spec fn spec_unquote_git_path(b: Seq<u8>) -> Option<Seq<u8>> {
    if !is_quoted_form(b) {
        Some(b)
    } else if b.len() < 2 || b[b.len() - 1] != quote_byte() {
        None
    } else {
        match decode_c_escapes(b.subrange(1, b.len() - 1)) {
            Some(d) => if valid_utf8(d) {
                Some(d)
            } else {
                None
            },
            None => None,
        }
    }
}


/// How git's C-style quoting writes byte `c` inside the quotes: `"` and
/// `\` behind a backslash, BEL through CR as `\a \b \t \n \v \f \r`,
/// any other control byte and every byte from 0x7f up as a backslash and
/// three octal digits, anything else as itself.
pub open spec fn c_escape(c: u8) -> Seq<u8> {
    if c == quote_byte() || c == backslash_byte() {
        seq![backslash_byte(), c]
    } else if c == 0x07 {
        seq![backslash_byte(), 97u8]
    } else if c == 0x08 {
        seq![backslash_byte(), 98u8]
    } else if c == 0x09 {
        seq![backslash_byte(), 116u8]
    } else if c == 0x0a {
        seq![backslash_byte(), 110u8]
    } else if c == 0x0b {
        seq![backslash_byte(), 118u8]
    } else if c == 0x0c {
        seq![backslash_byte(), 102u8]
    } else if c == 0x0d {
        seq![backslash_byte(), 114u8]
    } else if c < 0x20 || c >= 0x7f {
        seq![backslash_byte(), (48 + c / 64) as u8, (48 + (c / 8) % 8) as u8, (48 + c % 8) as u8]
    } else {
        seq![c]
    }
}

/// The bytes `b` escaped C-style, byte by byte (see [`c_escape`]).
pub open spec fn c_escape_all(b: Seq<u8>) -> Seq<u8>
    decreases b.len(),
{
    if b.len() == 0 {
        Seq::empty()
    } else {
        c_escape(b[0]) + c_escape_all(b.skip(1))
    }
}

/// A path as git writes it quoted: its bytes escaped C-style between
/// double quotes.
pub open spec fn git_quoted(b: Seq<u8>) -> Seq<u8> {
    seq![quote_byte()] + c_escape_all(b) + seq![quote_byte()]
}

proof fn lemma_decode_escape(c: u8, rest: Seq<u8>)
    ensures
        decode_c_escapes(c_escape(c) + rest) == prepend_opt(c, decode_c_escapes(rest)),
{
    let e = c_escape(c);
    let x = e + rest;
    assert(x.skip(e.len() as int) =~= rest);
    if c < 0x20 || c >= 0x7f {
        if !(c == 0x07 || c == 0x08 || c == 0x09 || c == 0x0a || c == 0x0b || c == 0x0c || c == 0x0d) {
            let d1 = (48 + c / 64) as u8;
            let d2 = (48 + (c / 8) % 8) as u8;
            let d3 = (48 + c % 8) as u8;
            assert(x[1] == d1 && x[2] == d2 && x[3] == d3);
            assert((d1 - 48) * 64 + (d2 - 48) * 8 + (d3 - 48) == c) by (nonlinear_arith)
                requires
                    d1 == 48 + c / 64,
                    d2 == 48 + (c / 8) % 8,
                    d3 == 48 + c % 8,
                    c < 256,
            ;
            assert(named_escape(d1) is None);
        }
    }
}

proof fn lemma_decode_escape_all(b: Seq<u8>)
    ensures
        decode_c_escapes(c_escape_all(b)) == Some(b),
    decreases b.len(),
{
    if b.len() > 0 {
        lemma_decode_escape_all(b.skip(1));
        lemma_decode_escape(b[0], c_escape_all(b.skip(1)));
        assert(seq![b[0]] + b.skip(1) =~= b);
    }
}

/// Decoding undoes git's C-style quoting: any text, quoted as git quotes
/// it, unquotes to exactly that text, so a path's escapes are revealed,
/// never hidden.
pub proof fn lemma_unquote_undoes_quoting(text: Seq<char>)
    ensures
        is_quoted_form(git_quoted(encode_utf8(text))),
        spec_unquote_git_path(git_quoted(encode_utf8(text))) == Some(encode_utf8(text)),
        decode_utf8(encode_utf8(text)) == text,
{
    let b = encode_utf8(text);
    let q = git_quoted(b);
    assert(q.subrange(1, q.len() - 1) =~= c_escape_all(b));
    lemma_decode_escape_all(b);
    encode_utf8_valid_utf8(text);
    encode_utf8_decode_utf8(text);
}

proof fn lemma_decode_step(b: Seq<u8>, i: int, end: int, n: int)
    requires
        0 <= i < end <= b.len(),
        1 <= n <= end - i,
    ensures
        b.subrange(i, end).skip(n) == b.subrange(i + n, end),
{
    assert(b.subrange(i, end).skip(n) =~= b.subrange(i + n, end));
}

/// Decodes a path as it appears in a git diff header.
///
/// An unquoted path is returned as-is, borrowed. A quoted path is decoded
/// into its real bytes. `None` when the quoted form is malformed (no
/// closing quote, a truncated or out-of-range escape, an unknown escape
/// letter, a bare quote inside) or when the decoded bytes are not UTF-8.
pub fn unquote_git_path(value: &str) -> (r: Option<Cow<'_, str>>)
    ensures
        r is Some <==> spec_unquote_git_path(value.spec_bytes()) is Some,
        r matches Some(p) ==> p@ == decode_utf8(spec_unquote_git_path(value.spec_bytes())->0),
        !is_quoted_form(value.spec_bytes()) ==> r == Some(Cow::<str>::Borrowed(value)),
        is_quoted_form(value.spec_bytes()) ==> (r matches Some(p) ==> p is Owned),
{
    let b = value.as_bytes();
    let n = b.len();
    if n == 0 || b[0] != 34u8 {
        proof {
            encode_utf8_decode_utf8(value@);
        }
        return Some(Cow::Borrowed(value));
    }
    if n < 2 || b[n - 1] != 34u8 {
        return None;
    }
    let end = n - 1;
    let ghost inner = b@.subrange(1, end as int);
    let mut out: Vec<u8> = Vec::new();
    let mut i: usize = 1;
    assert(b@.subrange(1, end as int) == inner);
    while i < end
        invariant
            n == b@.len(),
            b@ == value.spec_bytes(),
            b@[0] == 34u8,
            end == n - 1,
            1 <= i <= end,
            inner == b@.subrange(1, end as int),
            decode_c_escapes(inner) == concat_opt(
                out@,
                decode_c_escapes(b@.subrange(i as int, end as int)),
            ),
        decreases end - i,
    {
        let byte = b[i];
        let ghost cur = b@.subrange(i as int, end as int);
        assert(cur[0] == byte);
        if byte != 92u8 {
            if byte == 34u8 {
                assert(decode_c_escapes(cur) == None::<Seq<u8>>);
                return None;
            }
            proof {
                lemma_decode_step(b@, i as int, end as int, 1);
                assert(out@.push(byte) =~= out@ + seq![byte]);
                assert(concat_opt(out@, prepend_opt(byte, decode_c_escapes(cur.skip(1))))
                    == concat_opt(out@.push(byte), decode_c_escapes(cur.skip(1))));
            }
            out.push(byte);
            i = i + 1;
            continue;
        }
        if i + 1 >= end {
            return None;
        }
        let escape = b[i + 1];
        assert(cur[1] == escape);
        let named: Option<u8> = if escape == 97u8 {
            Some(0x07u8)
        } else if escape == 98u8 {
            Some(0x08u8)
        } else if escape == 102u8 {
            Some(0x0cu8)
        } else if escape == 110u8 {
            Some(0x0au8)
        } else if escape == 114u8 {
            Some(0x0du8)
        } else if escape == 116u8 {
            Some(0x09u8)
        } else if escape == 118u8 {
            Some(0x0bu8)
        } else if escape == 34u8 {
            Some(34u8)
        } else if escape == 92u8 {
            Some(92u8)
        } else {
            None
        };
        assert(named == named_escape(escape));
        match named {
            Some(x) => {
                proof {
                    lemma_decode_step(b@, i as int, end as int, 2);
                    assert(out@.push(x) =~= out@ + seq![x]);
                    assert(concat_opt(out@, prepend_opt(x, decode_c_escapes(cur.skip(2))))
                        == concat_opt(out@.push(x), decode_c_escapes(cur.skip(2))));
                }
                out.push(x);
                i = i + 2;
            },
            None => {
                if !(48u8 <= escape && escape <= 55u8) {
                    return None;
                }
                if i + 3 >= end {
                    return None;
                }
                let second = b[i + 2];
                let third = b[i + 3];
                assert(cur[2] == second && cur[3] == third);
                if !(48u8 <= second && second <= 55u8 && 48u8 <= third && third <= 55u8) {
                    return None;
                }
                let value_u32: u32 = ((escape - 48u8) as u32 * 8 + (second - 48u8) as u32) * 8
                    + (third - 48u8) as u32;
                assert(value_u32 == (escape - 48) * 64 + (second - 48) * 8 + (third - 48));
                if value_u32 > 255 {
                    return None;
                }
                let x = value_u32 as u8;
                proof {
                    lemma_decode_step(b@, i as int, end as int, 4);
                    assert(out@.push(x) =~= out@ + seq![x]);
                    assert(concat_opt(out@, prepend_opt(x, decode_c_escapes(cur.skip(4))))
                        == concat_opt(out@.push(x), decode_c_escapes(cur.skip(4))));
                }
                out.push(x);
                i = i + 4;
            },
        }
    }
    assert(b@.subrange(i as int, end as int) =~= Seq::<u8>::empty());
    assert(out@ + Seq::<u8>::empty() =~= out@);
    match string_from_utf8(out) {
        Some(s) => Some(Cow::Owned(s)),
        None => None,
    }
}

/// Index of the closing quote of a quoted token, scanning from `i`: a `\`
/// skips the byte after it, so an escaped quote does not close the token.
pub open spec fn closing_quote_from(b: Seq<u8>, i: int) -> Option<int>
    decreases b.len() + 2 - i,
{
    if i < 0 || i >= b.len() {
        None
    } else if b[i] == backslash_byte() {
        closing_quote_from(b, i + 2)
    } else if b[i] == quote_byte() {
        Some(i)
    } else {
        closing_quote_from(b, i + 1)
    }
}

/// Where a leading quoted token of `b` ends (the index of its closing
/// quote), `None` when `b` does not start with a quote or the token is not
/// terminated.
pub open spec fn spec_quoted_token_end(b: Seq<u8>) -> Option<int> {
    if !is_quoted_form(b) {
        None
    } else {
        closing_quote_from(b, 1)
    }
}

proof fn lemma_closing_quote_bounds(b: Seq<u8>, i: int)
    requires
        0 <= i,
    ensures
        closing_quote_from(b, i) matches Some(k) ==> i <= k < b.len() && b[k] == quote_byte(),
    decreases b.len() + 2 - i,
{
    if i < b.len() {
        if b[i] == backslash_byte() {
            lemma_closing_quote_bounds(b, i + 2);
        } else if b[i] != quote_byte() {
            lemma_closing_quote_bounds(b, i + 1);
        }
    }
}

/// Splits a leading double-quoted token off `value`, returning it (quotes
/// included, still encoded) and the remainder. A quoted path may itself
/// hold an escaped space or quote, so the split follows the token's own
/// closing quote rather than the first space.
///
/// `None` when `value` does not start with a quote, or has no unescaped
/// closing quote.
pub fn split_quoted_token(value: &str) -> (r: Option<(&str, &str)>)
    ensures
        r is Some <==> spec_quoted_token_end(value.spec_bytes()) is Some,
        r matches Some((token, rest)) ==> {
            let k = spec_quoted_token_end(value.spec_bytes())->0;
            &&& token.spec_bytes() == value.spec_bytes().subrange(0, k + 1)
            &&& rest.spec_bytes() == value.spec_bytes().subrange(
                k + 1,
                value.spec_bytes().len() as int,
            )
            &&& token@ + rest@ == value@
        },
{
    let b = value.as_bytes();
    let n = b.len();
    if n == 0 || b[0] != 34u8 {
        return None;
    }
    let mut i: usize = 1;
    while i < n
        invariant
            n == b@.len(),
            b@ == value.spec_bytes(),
            is_quoted_form(b@),
            1 <= i,
            closing_quote_from(b@, 1) == closing_quote_from(b@, i as int),
        decreases n + 2 - i,
    {
        if b[i] == 92u8 {
            if n - i <= 2 {
                assert(closing_quote_from(b@, i as int + 2) == None::<int>);
                return None;
            }
            i = i + 2;
        } else if b[i] == 34u8 {
            proof {
                encode_utf8_valid_utf8(value@);
                lemma_ascii_byte_boundaries(b@, i as int);
                lemma_split_view(value@, i + 1);
                encode_utf8_decode_utf8(value@);
            }
            let (token, rest) = value.split_at(i + 1);
            proof {
                encode_utf8_decode_utf8(token@);
                encode_utf8_decode_utf8(rest@);
            }
            return Some((token, rest));
        } else {
            i = i + 1;
        }
    }
    None
}

} // verus!
