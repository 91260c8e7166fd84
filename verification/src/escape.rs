//! Neutralizing terminal control sequences in rendered output.
//!
//! Everything a report is built from comes from the change under review, and
//! a file whose name holds an ESC byte is enough to drive a terminal that
//! prints the report. Control characters are therefore shown, not sent.

use crate::text::{push_char, str_chars};
use std::borrow::Cow;
use vstd::prelude::*;

verus! {

/// A control character a terminal would act on: C0, `DEL` and C1, except
/// `\n` and `\t`, which carry the report's own layout.
pub open spec fn spec_is_terminal_control(c: char) -> bool {
    c != '\n' && c != '\t' && ((c as u32) <= 0x1f || (0x7f <= (c as u32) && (c as u32) <= 0x9f))
}

/// The lower-case hexadecimal digit for `d < 16`.
pub open spec fn hex_digit_char(d: nat) -> char {
    if d < 10 {
        ((d + 48) as u32) as char
    } else {
        ((d + 87) as u32) as char
    }
}

/// `n` in lower-case hexadecimal without leading zeros (`{:x}`).
pub open spec fn lower_hex(n: nat) -> Seq<char>
    decreases n,
{
    if n < 16 {
        seq![hex_digit_char(n)]
    } else {
        lower_hex(n / 16) + seq![hex_digit_char(n % 16)]
    }
}

/// What one character becomes in the output: a `\u{..}` escape for a
/// terminal control, the character itself otherwise.
pub open spec fn escaped_char(c: char) -> Seq<char> {
    if spec_is_terminal_control(c) {
        seq!['\\', 'u', '{'] + lower_hex((c as u32) as nat) + seq!['}']
    } else {
        seq![c]
    }
}

/// Every character of `s`, escaped in turn.
pub open spec fn escape_all(s: Seq<char>) -> Seq<char>
    decreases s.len(),
{
    if s.len() == 0 {
        Seq::empty()
    } else {
        escape_all(s.drop_last()) + escaped_char(s.last())
    }
}

/// Whether `s` holds a terminal control character.
pub open spec fn has_terminal_control(s: Seq<char>) -> bool {
    exists|i: int| 0 <= i < s.len() && spec_is_terminal_control(#[trigger] s[i])
}

/// Whether `character` is a control character a terminal would act on.
fn is_terminal_control(character: char) -> (r: bool)
    ensures
        r == spec_is_terminal_control(character),
{
    if character == '\n' || character == '\t' {
        return false;
    }
    let u = character as u32;
    u <= 0x1f || (0x7f <= u && u <= 0x9f)
}

fn hex_digit(d: u32) -> (c: char)
    requires
        d < 16,
    ensures
        c == hex_digit_char(d as nat),
{
    if d < 10 {
        char_from_digit_value(d + 48)
    } else {
        char_from_digit_value(d + 87)
    }
}

fn char_from_digit_value(v: u32) -> (c: char)
    requires
        48 <= v <= 57 || 97 <= v <= 102,
    ensures
        c == v as char,
{
    if v == 48 { '0' } else if v == 49 { '1' } else if v == 50 { '2' } else if v == 51 { '3' }
    else if v == 52 { '4' } else if v == 53 { '5' } else if v == 54 { '6' } else if v == 55 { '7' }
    else if v == 56 { '8' } else if v == 57 { '9' } else if v == 97 { 'a' } else if v == 98 { 'b' }
    else if v == 99 { 'c' } else if v == 100 { 'd' } else if v == 101 { 'e' } else { 'f' }
}

/// Appends the `\u{..}` escape of a control character to `out`.
fn push_escape(out: &mut String, character: char)
    requires
        spec_is_terminal_control(character),
    ensures
        final(out)@ == old(out)@ + escaped_char(character),
{
    let u = character as u32;
    push_char(out, '\\');
    push_char(out, 'u');
    push_char(out, '{');
    if u < 16 {
        push_char(out, hex_digit(u));
        assert(lower_hex(u as nat) == seq![hex_digit_char(u as nat)]);
    } else {
        push_char(out, hex_digit(u / 16));
        push_char(out, hex_digit(u % 16));
        assert(lower_hex((u / 16) as nat) == seq![hex_digit_char((u / 16) as nat)]);
        assert(lower_hex(u as nat) == seq![hex_digit_char((u / 16) as nat)] + seq![
            hex_digit_char((u % 16) as nat),
        ]);
    }
    push_char(out, '}');
    assert(final(out)@ =~= old(out)@ + escaped_char(character));
}

/// Replaces every control character a terminal would act on with a
/// printable `\u{..}` escape, leaving `\n` and `\t` alone. Covers C0,
/// `DEL`, and C1 (a terminal in 8-bit mode acts on C1 as on its two-byte
/// C0 equivalent).
///
/// Returns the text borrowed and unchanged when there is nothing to escape.
pub fn escape_control_chars(text: &str) -> (r: Cow<'_, str>)
    ensures
        r@ == escape_all(text@),
        !has_terminal_control(text@) ==> r == Cow::<str>::Borrowed(text),
        has_terminal_control(text@) ==> r is Owned,
{
    let chars = str_chars(text);
    let mut any = false;
    let mut k: usize = 0;
    while k < chars.len()
        invariant
            k <= chars@.len(),
            chars@ == text@,
            any == (exists|j: int| 0 <= j < k && spec_is_terminal_control(#[trigger] chars@[j])),
        decreases chars@.len() - k,
    {
        if is_terminal_control(chars[k]) {
            any = true;
        }
        k = k + 1;
    }
    if !any {
        proof {
            lemma_escape_all_identity(text@);
        }
        return Cow::Borrowed(text);
    }
    let mut escaped = String::new();
    let mut i: usize = 0;
    while i < chars.len()
        invariant
            i <= chars@.len(),
            chars@ == text@,
            escaped@ == escape_all(chars@.take(i as int)),
        decreases chars@.len() - i,
    {
        let character = chars[i];
        if is_terminal_control(character) {
            push_escape(&mut escaped, character);
        } else {
            push_char(&mut escaped, character);
        }
        assert(chars@.take(i + 1).drop_last() =~= chars@.take(i as int));
        i = i + 1;
    }
    assert(chars@.take(chars@.len() as int) =~= chars@);
    Cow::Owned(escaped)
}

/// Text with no control character escapes to itself.
pub proof fn lemma_escape_all_identity(s: Seq<char>)
    requires
        !has_terminal_control(s),
    ensures
        escape_all(s) == s,
    decreases s.len(),
{
    if s.len() > 0 {
        let t = s.drop_last();
        assert forall|i: int| 0 <= i < t.len() implies !spec_is_terminal_control(#[trigger] t[i]) by {
            assert(t[i] == s[i]);
        }
        lemma_escape_all_identity(t);
        assert(!spec_is_terminal_control(s[s.len() - 1]));
        assert(t + seq![s.last()] =~= s);
    }
}

proof fn lemma_lower_hex_printable(n: nat)
    ensures
        !has_terminal_control(lower_hex(n)),
    decreases n,
{
    if n >= 16 {
        lemma_lower_hex_printable(n / 16);
        let h = lower_hex(n / 16);
        let t = lower_hex(n);
        assert(t =~= h + seq![hex_digit_char(n % 16)]);
        assert forall|i: int| 0 <= i < t.len() implies !spec_is_terminal_control(#[trigger] t[i]) by {
            if i < h.len() {
                assert(t[i] == h[i]);
            }
        }
    }
}

proof fn lemma_escaped_char_printable(c: char)
    ensures
        !has_terminal_control(escaped_char(c)),
{
    if spec_is_terminal_control(c) {
        lemma_lower_hex_printable((c as u32) as nat);
        let h = lower_hex((c as u32) as nat);
        let e = escaped_char(c);
        assert forall|i: int| 0 <= i < e.len() implies !spec_is_terminal_control(#[trigger] e[i]) by {
            if 3 <= i < 3 + h.len() {
                assert(e[i] == h[i - 3]);
            }
        }
    }
}

/// Escaped text holds no control character a terminal would act on.
pub proof fn escaped_text_has_no_control(s: Seq<char>)
    ensures
        !has_terminal_control(escape_all(s)),
    decreases s.len(),
{
    if s.len() > 0 {
        escaped_text_has_no_control(s.drop_last());
        lemma_escaped_char_printable(s.last());
        let a = escape_all(s.drop_last());
        let b = escaped_char(s.last());
        assert forall|i: int| 0 <= i < escape_all(s).len() implies !spec_is_terminal_control(#[trigger] escape_all(s)[i]) by {
            if i < a.len() {
                assert(escape_all(s)[i] == a[i]);
            } else {
                assert(escape_all(s)[i] == b[i - a.len()]);
            }
        }
    }
}

/// Escaping is idempotent: escaping escaped text changes nothing.
pub proof fn escaping_is_idempotent(s: Seq<char>)
    ensures
        escape_all(escape_all(s)) == escape_all(s),
{
    escaped_text_has_no_control(s);
    lemma_escape_all_identity(escape_all(s));
}

} // verus!
