//! Shaping a definition's signature text: whitespace normalization for
//! contract comparison, and the line-structure tidy applied for display.

use crate::syntax::{children_of, first_with_field, SyntaxNode, SyntaxTree};
use crate::text::string_from_utf8;
use vstd::utf8::{decode_utf8, encode_utf8, valid_utf8};
use crate::signature_bound::{bound_signature, spec_bound_signature, MAX_SIGNATURE_BYTES, TRUNCATION_MARKER};
use crate::text::{
    all_whitespace, byte_len, chars_between, is_alphanumeric, is_whitespace, lines_of, push_char, spec_all_whitespace,
    spec_is_alphanumeric, spec_is_whitespace, spec_trim_end, split_lines, str_chars, string_from_chars, trim_end_chars,
    utf8_len, utf8_width,
};
use vstd::prelude::*;

verus! {

/// A character that may be part of an identifier: alphanumeric or `_`.
pub open spec fn is_word_char(c: char) -> bool {
    spec_is_alphanumeric(c) || c == '_'
}

/// The nearest non-whitespace character before index `i`, if any.
pub open spec fn last_non_ws_before(c: Seq<char>, i: int) -> Option<char>
    decreases i,
{
    if i <= 0 {
        None
    } else if !spec_is_whitespace(c[i - 1]) {
        Some(c[i - 1])
    } else {
        last_non_ws_before(c, i - 1)
    }
}

/// What character `i` contributes to the normalized text: itself when it is
/// not whitespace; for the last character of a whitespace run, a single
/// space exactly when the characters on both sides of the run are word
/// characters; nothing otherwise.
pub open spec fn normalized_piece(c: Seq<char>, i: int) -> Seq<char> {
    if !spec_is_whitespace(c[i]) {
        seq![c[i]]
    } else if i + 1 < c.len() && !spec_is_whitespace(c[i + 1]) && is_word_char(c[i + 1])
        && (last_non_ws_before(c, i) matches Some(b) && is_word_char(b)) {
        seq![' ']
    } else {
        Seq::empty()
    }
}

/// The normalized form of the first `n` characters of `c`.
pub open spec fn normalized_prefix(c: Seq<char>, n: int) -> Seq<char>
    decreases n,
{
    if n <= 0 {
        Seq::empty()
    } else {
        normalized_prefix(c, n - 1) + normalized_piece(c, n - 1)
    }
}

/// `text` with every maximal whitespace run collapsed to one space when both
/// neighbours of the run are word characters, and removed otherwise.
pub open spec fn spec_normalize_for_comparison(c: Seq<char>) -> Seq<char> {
    normalized_prefix(c, c.len() as int)
}


/// Whether `s` is in normalized form: its only white space is single
/// spaces, each between two word characters.
pub open spec fn is_normalized(s: Seq<char>) -> bool {
    forall|j: int|
        0 <= j < s.len() && spec_is_whitespace(#[trigger] s[j]) ==> s[j] == ' ' && 0 < j && j + 1 < s.len()
            && !spec_is_whitespace(s[j - 1]) && is_word_char(s[j - 1]) && !spec_is_whitespace(s[j + 1])
            && is_word_char(s[j + 1])
}

/// What holds of the normalized form of the first `n` characters of `c`:
/// its white space is single spaces after a word character (and before
/// one, unless the space is last, when the next character of `c` is a word
/// character); and it ends with the last non-white-space character read,
/// or a space.
pub open spec fn prefix_shape(c: Seq<char>, n: int) -> bool {
    let p = normalized_prefix(c, n);
    &&& forall|j: int|
        0 <= j < p.len() && spec_is_whitespace(#[trigger] p[j]) ==> p[j] == ' ' && 0 < j && !spec_is_whitespace(p[j - 1])
            && is_word_char(p[j - 1]) && (j + 1 < p.len() ==> !spec_is_whitespace(p[j + 1]) && is_word_char(p[j + 1]))
    &&& (p.len() > 0 && spec_is_whitespace(p.last()) ==> n < c.len() && !spec_is_whitespace(c[n]) && is_word_char(c[n]))
    &&& (last_non_ws_before(c, n) matches Some(b) ==> p.len() > 0 && (p.last() == b || spec_is_whitespace(p.last())))
}

proof fn lemma_prefix_shape(c: Seq<char>, n: int)
    requires
        0 <= n <= c.len(),
    ensures
        prefix_shape(c, n),
    decreases n,
{
    if n > 0 {
        lemma_prefix_shape(c, n - 1);
        let p = normalized_prefix(c, n - 1);
        let q = normalized_prefix(c, n);
        let piece = normalized_piece(c, n - 1);
        assert(q == p + piece);
        assert(spec_is_whitespace(' '));
        if !spec_is_whitespace(c[n - 1]) {
            assert(q == p.push(c[n - 1]));
            assert forall|j: int| 0 <= j < q.len() && spec_is_whitespace(#[trigger] q[j]) implies q[j] == ' ' && 0 < j
                && !spec_is_whitespace(q[j - 1]) && is_word_char(q[j - 1]) && (j + 1 < q.len() ==> !spec_is_whitespace(
                q[j + 1],
            ) && is_word_char(q[j + 1])) by {
                assert(j < p.len());
                assert(p[j] == q[j]);
                assert(p[j - 1] == q[j - 1]);
                if j + 1 < p.len() {
                    assert(p[j + 1] == q[j + 1]);
                }
            }
        } else if piece.len() > 0 {
            assert(piece == seq![' ']);
            assert(q == p.push(' '));
            let b = last_non_ws_before(c, n - 1)->0;
            assert(p.len() > 0);
            assert(!spec_is_whitespace(p.last()));
            assert(p.last() == b);
            assert(last_non_ws_before(c, n) == last_non_ws_before(c, n - 1));
            assert forall|j: int| 0 <= j < q.len() && spec_is_whitespace(#[trigger] q[j]) implies q[j] == ' ' && 0 < j
                && !spec_is_whitespace(q[j - 1]) && is_word_char(q[j - 1]) && (j + 1 < q.len() ==> !spec_is_whitespace(
                q[j + 1],
            ) && is_word_char(q[j + 1])) by {
                if j < p.len() {
                    assert(p[j] == q[j]);
                    assert(p[j - 1] == q[j - 1]);
                    if j + 1 < p.len() {
                        assert(p[j + 1] == q[j + 1]);
                    } else {
                        assert(false);
                    }
                } else {
                    assert(q[j - 1] == p.last());
                }
            }
        } else {
            assert(q =~= p);
            assert(last_non_ws_before(c, n) == last_non_ws_before(c, n - 1));
        }
    }
}

proof fn lemma_normalized_fixed(s: Seq<char>, n: int)
    requires
        is_normalized(s),
        0 <= n <= s.len(),
    ensures
        normalized_prefix(s, n) == s.take(n),
    decreases n,
{
    if n > 0 {
        lemma_normalized_fixed(s, n - 1);
        assert(s.take(n) =~= s.take(n - 1).push(s[n - 1]));
        if spec_is_whitespace(s[n - 1]) {
            assert(s[n - 1] == ' ');
            assert(last_non_ws_before(s, n - 1) == Some(s[n - 2]));
            assert(normalized_piece(s, n - 1) == seq![' ']);
        }
        assert(normalized_piece(s, n - 1) =~= seq![s[n - 1]]);
    }
}

/// Normalizing for comparison is idempotent: normalized text is already in
/// normal form, and normalizing it again changes nothing.
pub proof fn lemma_normalize_for_comparison_idempotent(text: Seq<char>)
    ensures
        is_normalized(spec_normalize_for_comparison(text)),
        spec_normalize_for_comparison(spec_normalize_for_comparison(text)) == spec_normalize_for_comparison(text),
{
    lemma_prefix_shape(text, text.len() as int);
    let p = spec_normalize_for_comparison(text);
    assert forall|j: int|
        0 <= j < p.len() && spec_is_whitespace(#[trigger] p[j]) implies p[j] == ' ' && 0 < j && j + 1 < p.len()
        && !spec_is_whitespace(p[j - 1]) && is_word_char(p[j - 1]) && !spec_is_whitespace(p[j + 1]) && is_word_char(
        p[j + 1],
    ) by {
        if j + 1 >= p.len() {
            assert(p.last() == p[j]);
        }
    }
    lemma_normalized_fixed(p, p.len() as int);
    assert(p.take(p.len() as int) =~= p);
}


/// Whether every character of `w` is white space.
pub open spec fn all_white(w: Seq<char>) -> bool {
    forall|i: int| 0 <= i < w.len() ==> spec_is_whitespace(#[trigger] w[i])
}

proof fn lemma_last_non_ws_same_prefix(s1: Seq<char>, s2: Seq<char>, n: int)
    requires
        0 <= n <= s1.len(),
        n <= s2.len(),
        s1.take(n) == s2.take(n),
    ensures
        last_non_ws_before(s1, n) == last_non_ws_before(s2, n),
    decreases n,
{
    if n > 0 {
        assert(s1[n - 1] == s1.take(n)[n - 1]);
        assert(s2[n - 1] == s2.take(n)[n - 1]);
        assert(s1.take(n - 1) =~= s1.take(n).take(n - 1));
        assert(s2.take(n - 1) =~= s2.take(n).take(n - 1));
        lemma_last_non_ws_same_prefix(s1, s2, n - 1);
    }
}

proof fn lemma_last_non_ws_over_white(s: Seq<char>, k: int, j: int)
    requires
        0 <= k,
        0 <= j,
        k + j <= s.len(),
        forall|i: int| k <= i < k + j ==> spec_is_whitespace(#[trigger] s[i]),
    ensures
        last_non_ws_before(s, k + j) == last_non_ws_before(s, k),
    decreases j,
{
    if j > 0 {
        assert(spec_is_whitespace(s[k + j - 1]));
        lemma_last_non_ws_over_white(s, k, j - 1);
    }
}

/// Inserting white space next to punctuation does not change the
/// normalized form: for any `a` and `b` whose adjoining characters include
/// one that is neither white space nor a word character, `a`, a run of
/// white space, then `b` normalizes as `a` then `b` does.
pub proof fn lemma_normalize_ignores_space_at_punctuation(a: Seq<char>, w: Seq<char>, b: Seq<char>)
    requires
        a.len() > 0,
        b.len() > 0,
        all_white(w),
        (!spec_is_whitespace(a.last()) && !is_word_char(a.last())) || (!spec_is_whitespace(b[0]) && !is_word_char(b[0])),
    ensures
        spec_normalize_for_comparison(a + w + b) == spec_normalize_for_comparison(a + b),
{
    let s1 = a + b;
    let s2 = a + w + b;
    let k = a.len() as int;
    let m = w.len() as int;
    // The two texts agree up to the end of `a`.
    assert forall|n: int| 0 <= n <= k implies #[trigger] normalized_prefix(s2, n) == normalized_prefix(s1, n) by {
        lemma_prefix_upto(a, w, b, n);
    }
    // The run of white space adds nothing.
    assert forall|j: int| 0 <= j <= m implies #[trigger] normalized_prefix(s2, k + j) == normalized_prefix(s2, k) by {
        lemma_white_adds_nothing(a, w, b, j);
    }
    // And `b` adds the same to both.
    lemma_suffix_same(a, w, b, b.len() as int);
    assert(s2.len() == k + m + b.len());
}

proof fn lemma_prefix_upto(a: Seq<char>, w: Seq<char>, b: Seq<char>, n: int)
    requires
        a.len() > 0,
        b.len() > 0,
        all_white(w),
        (!spec_is_whitespace(a.last()) && !is_word_char(a.last())) || (!spec_is_whitespace(b[0]) && !is_word_char(b[0])),
        0 <= n <= a.len(),
    ensures
        normalized_prefix(a + w + b, n) == normalized_prefix(a + b, n),
    decreases n,
{
    let s1 = a + b;
    let s2 = a + w + b;
    let k = a.len() as int;
    if n > 0 {
        lemma_prefix_upto(a, w, b, n - 1);
        assert(s1.take(n - 1) =~= s2.take(n - 1));
        lemma_last_non_ws_same_prefix(s1, s2, n - 1);
        assert(s1[n - 1] == a[n - 1]);
        assert(s2[n - 1] == a[n - 1]);
        if n < k {
            assert(s1[n] == a[n]);
            assert(s2[n] == a[n]);
        } else if w.len() > 0 {
            assert(s2[n] == w[0]);
            assert(spec_is_whitespace(w[0]));
            assert(s1[n] == b[0]);
        } else {
            assert(s2 =~= s1);
        }
        assert(normalized_piece(s2, n - 1) == normalized_piece(s1, n - 1));
    }
}

proof fn lemma_white_adds_nothing(a: Seq<char>, w: Seq<char>, b: Seq<char>, j: int)
    requires
        a.len() > 0,
        b.len() > 0,
        all_white(w),
        (!spec_is_whitespace(a.last()) && !is_word_char(a.last())) || (!spec_is_whitespace(b[0]) && !is_word_char(b[0])),
        0 <= j <= w.len(),
    ensures
        normalized_prefix(a + w + b, a.len() + j) == normalized_prefix(a + w + b, a.len() as int),
    decreases j,
{
    let s2 = a + w + b;
    let k = a.len() as int;
    if j > 0 {
        lemma_white_adds_nothing(a, w, b, j - 1);
        let i = k + j - 1;
        assert(s2[i] == w[j - 1]);
        assert(spec_is_whitespace(s2[i]));
        if j < w.len() {
            assert(s2[i + 1] == w[j]);
            assert(spec_is_whitespace(w[j]));
        } else {
            assert(s2[i + 1] == b[0]);
            assert forall|t: int| k <= t < k + (j - 1) implies spec_is_whitespace(#[trigger] s2[t]) by {
                assert(s2[t] == w[t - k]);
            }
            lemma_last_non_ws_over_white(s2, k, j - 1);
            assert(s2[k - 1] == a.last());
        }
        assert(normalized_piece(s2, i) =~= Seq::<char>::empty());
        assert(normalized_prefix(s2, i + 1) =~= normalized_prefix(s2, i));
    }
}

proof fn lemma_suffix_same(a: Seq<char>, w: Seq<char>, b: Seq<char>, i: int)
    requires
        a.len() > 0,
        b.len() > 0,
        all_white(w),
        (!spec_is_whitespace(a.last()) && !is_word_char(a.last())) || (!spec_is_whitespace(b[0]) && !is_word_char(b[0])),
        0 <= i <= b.len(),
    ensures
        normalized_prefix(a + w + b, a.len() + w.len() + i) == normalized_prefix(a + b, a.len() + i),
        last_non_ws_before(a + w + b, a.len() + w.len() + i) == last_non_ws_before(a + b, a.len() + i),
    decreases i,
{
    let s1 = a + b;
    let s2 = a + w + b;
    let k = a.len() as int;
    let m = w.len() as int;
    if i == 0 {
        lemma_prefix_upto(a, w, b, k);
        lemma_white_adds_nothing(a, w, b, m);
        assert forall|t: int| k <= t < k + m implies spec_is_whitespace(#[trigger] s2[t]) by {
            assert(s2[t] == w[t - k]);
        }
        lemma_last_non_ws_over_white(s2, k, m);
        assert(s1.take(k) =~= s2.take(k));
        lemma_last_non_ws_same_prefix(s1, s2, k);
    } else {
        lemma_suffix_same(a, w, b, i - 1);
        let x = k + m + i - 1;
        let y = k + i - 1;
        assert(s2[x] == b[i - 1]);
        assert(s1[y] == b[i - 1]);
        if i < b.len() {
            assert(s2[x + 1] == b[i]);
            assert(s1[y + 1] == b[i]);
        }
        assert(normalized_piece(s2, x) == normalized_piece(s1, y));
    }
}

fn is_word(c: char) -> (r: bool)
    ensures
        r == is_word_char(c),
{
    is_alphanumeric(c) || c == '_'
}

/// Normalizes a signature for contract-impact comparison only: a reflow that
/// moves or inserts whitespace next to punctuation compares equal, while
/// whitespace that separates two words (`a b` vs `ab`) still counts.
pub fn normalize_for_comparison(text: &str) -> (r: String)
    ensures
        r@ == spec_normalize_for_comparison(text@),
{
    let chars = str_chars(text);
    let mut result = String::new();
    let mut before: Option<char> = None;
    let mut i: usize = 0;
    while i < chars.len()
        invariant
            i <= chars@.len(),
            result@ == normalized_prefix(chars@, i as int),
            before == last_non_ws_before(chars@, i as int),
        decreases chars@.len() - i,
    {
        let c = chars[i];
        if !is_whitespace(c) {
            push_char(&mut result, c);
            before = Some(c);
            assert(result@ =~= normalized_prefix(chars@, i as int) + normalized_piece(chars@, i as int));
        } else {
            let keep = i + 1 < chars.len() && !is_whitespace(chars[i + 1]) && is_word(chars[i + 1])
                && match before {
                Some(b) => is_word(b),
                None => false,
            };
            if keep {
                push_char(&mut result, ' ');
            }
            assert(result@ =~= normalized_prefix(chars@, i as int) + normalized_piece(chars@, i as int));
        }
        i = i + 1;
    }
    proof {
        assert(chars@ == text@);
    }
    result
}

/// How many white-space characters `s` starts with.
pub open spec fn leading_ws(s: Seq<char>) -> nat
    decreases s.len(),
{
    if s.len() > 0 && spec_is_whitespace(s[0]) {
        1 + leading_ws(s.drop_first())
    } else {
        0
    }
}

/// The UTF-8 length of the leading white space of `s`: its indentation in
/// bytes.
pub open spec fn indent_bytes(s: Seq<char>) -> nat {
    byte_len(s.take(leading_ws(s) as int))
}

/// The character index at which the first `n` bytes of `s` end, when a
/// character boundary falls exactly there.
pub open spec fn cut_at_byte(s: Seq<char>, n: int) -> Option<nat>
    decreases s.len(),
{
    if n == 0 {
        Some(0)
    } else if s.len() == 0 || utf8_len(s[0]) > n {
        None
    } else {
        match cut_at_byte(s.drop_first(), n - utf8_len(s[0])) {
            Some(k) => Some(k + 1),
            None => None,
        }
    }
}

/// The indentation a line counts with: the first line's is the column its
/// declaration starts at in the file, which its own text does not show.
pub open spec fn counted_indent(lines: Seq<Seq<char>>, i: int, first_line_column: int) -> int {
    if i == 0 {
        first_line_column
    } else {
        indent_bytes(lines[i]) as int
    }
}

/// The least counted indentation among the first `n` non-blank lines.
pub open spec fn least_indent(lines: Seq<Seq<char>>, first_line_column: int, n: int) -> Option<int>
    decreases n,
{
    if n <= 0 {
        None
    } else {
        let prev = least_indent(lines, first_line_column, n - 1);
        if spec_all_whitespace(lines[n - 1]) {
            prev
        } else {
            let here = counted_indent(lines, n - 1, first_line_column);
            match prev {
                Some(m) => if m < here {
                    Some(m)
                } else {
                    Some(here)
                },
                None => Some(here),
            }
        }
    }
}

/// Line `i` once dedented: empty when blank; the first line only trimmed at
/// its end; any other line with its first `min_indent` bytes removed (when
/// a character boundary falls there) and trimmed at its end.
pub open spec fn dedented_line(lines: Seq<Seq<char>>, i: int, min_indent: int) -> Seq<char> {
    let line = lines[i];
    if spec_all_whitespace(line) {
        Seq::empty()
    } else if i == 0 {
        spec_trim_end(line)
    } else {
        match cut_at_byte(line, min_indent) {
            Some(k) => spec_trim_end(line.skip(k as int)),
            None => spec_trim_end(line),
        }
    }
}

/// `lines` with every run of empty lines cut down to one.
pub open spec fn collapse_empty_runs(lines: Seq<Seq<char>>) -> Seq<Seq<char>>
    decreases lines.len(),
{
    if lines.len() == 0 {
        Seq::empty()
    } else {
        let prev = collapse_empty_runs(lines.drop_last());
        if lines.last().len() == 0 && prev.len() > 0 && prev.last().len() == 0 {
            prev
        } else {
            prev.push(lines.last())
        }
    }
}

/// `lines` without its leading empty lines.
pub open spec fn drop_leading_empty(lines: Seq<Seq<char>>) -> Seq<Seq<char>>
    decreases lines.len(),
{
    if lines.len() > 0 && lines[0].len() == 0 {
        drop_leading_empty(lines.drop_first())
    } else {
        lines
    }
}

/// `lines` without its trailing empty lines.
pub open spec fn drop_trailing_empty(lines: Seq<Seq<char>>) -> Seq<Seq<char>>
    decreases lines.len(),
{
    if lines.len() > 0 && lines.last().len() == 0 {
        drop_trailing_empty(lines.drop_last())
    } else {
        lines
    }
}

/// `lines` joined with `\n` between them.
pub open spec fn join_lines(lines: Seq<Seq<char>>) -> Seq<char>
    decreases lines.len(),
{
    if lines.len() == 0 {
        Seq::empty()
    } else if lines.len() == 1 {
        lines[0]
    } else {
        join_lines(lines.drop_last()) + seq!['\n'] + lines.last()
    }
}

/// The displayed signature made from a raw declaration slice: every line
/// but the first dedented by the least indentation of the non-blank lines
/// (the first counting with `first_line_column`), each trimmed at its end,
/// blank-line runs cut to one, blank lines at either end dropped, and the
/// result bounded in size.
pub open spec fn spec_tidy_signature_lines(text: Seq<char>, first_line_column: int) -> Seq<char> {
    let lines = lines_of(text);
    let min_indent = match least_indent(lines, first_line_column, lines.len() as int) {
        Some(m) => m,
        None => 0,
    };
    let dedented = Seq::new(lines.len(), |i: int| dedented_line(lines, i, min_indent));
    spec_bound_signature(
        join_lines(drop_trailing_empty(drop_leading_empty(collapse_empty_runs(dedented)))),
        TRUNCATION_MARKER@,
    )
}

fn indent_bytes_of(line: &[char]) -> (r: usize)
    requires
        byte_len(line@) <= usize::MAX,
    ensures
        r == indent_bytes(line@),
{
    let mut k: usize = 0;
    let mut bytes: usize = 0;
    assert(line@.skip(0) =~= line@);
    while k < line.len() && is_whitespace(line[k])
        invariant
            k <= line@.len(),
            byte_len(line@) <= usize::MAX,
            bytes == byte_len(line@.take(k as int)),
            leading_ws(line@) == k + leading_ws(line@.skip(k as int)),
        decreases line@.len() - k,
    {
        assert(line@.skip(k as int).drop_first() =~= line@.skip(k + 1));
        assert(line@.take(k + 1).drop_last() =~= line@.take(k as int));
        proof {
            crate::text::lemma_byte_len_take(line@, k + 1);
        }
        bytes = bytes + utf8_width(line[k]);
        k = k + 1;
    }
    assert(leading_ws(line@.skip(k as int)) == 0) by {
        if k < line@.len() {
            assert(line@.skip(k as int)[0] == line@[k as int]);
        }
    }
    bytes
}

fn cut_at_byte_of(line: &[char], n: usize) -> (r: Option<usize>)
    ensures
        match cut_at_byte(line@, n as int) {
            Some(k) => r == Some(k as usize) && k <= line@.len(),
            None => r is None,
        },
{
    let mut k: usize = 0;
    let mut rest: usize = n;
    assert(line@.skip(0) =~= line@);
    while rest > 0
        invariant
            k <= line@.len(),
            rest <= n,
            cut_at_byte(line@, n as int) == match cut_at_byte(line@.skip(k as int), rest as int) {
                Some(j) => Some((j + k) as nat),
                None => None::<nat>,
            },
        decreases rest,
    {
        if k == line.len() {
            return None;
        }
        let w = utf8_width(line[k]);
        assert(line@.skip(k as int)[0] == line@[k as int]);
        if w > rest {
            return None;
        }
        assert(line@.skip(k as int).drop_first() =~= line@.skip(k + 1));
        rest = rest - w;
        k = k + 1;
    }
    Some(k)
}

/// Shapes a raw, range-stripped declaration slice into the multi-line
/// signature shown for a symbol (see [`spec_tidy_signature_lines`]).
/// `first_line_column` is the column the declaration starts at in the
/// file: it tells a nested definition, whose continuation lines carry their
/// full indentation, from a top-level one, whose do not.
pub fn tidy_signature_lines(text: &str, first_line_column: usize) -> (r: String)
    ensures
        r@ == spec_tidy_signature_lines(text@, first_line_column as int),
        encode_utf8(r@).len() <= MAX_SIGNATURE_BYTES + 1 + encode_utf8(TRUNCATION_MARKER@).len(),
{
    let raw_lines = split_lines(text);
    let ghost lines = lines_of(text@);
    let n = raw_lines.len();
    let mut chars_of: Vec<Vec<char>> = Vec::new();
    let mut i: usize = 0;
    while i < n
        invariant
            n == raw_lines@.len(),
            raw_lines@.map_values(|x: String| x@) == lines,
            i <= n,
            chars_of@.len() == i,
            forall|j: int| 0 <= j < i ==> #[trigger] chars_of@[j]@ == lines[j],
            forall|j: int| 0 <= j < i ==> byte_len(#[trigger] lines[j]) <= usize::MAX,
        decreases n - i,
    {
        assert(raw_lines@.map_values(|x: String| x@)[i as int] == raw_lines@[i as int]@);
        let _size = crate::text::byte_len_fits(raw_lines[i].as_str());
        chars_of.push(str_chars(raw_lines[i].as_str()));
        i = i + 1;
    }
    let mut least: Option<usize> = None;
    let mut j: usize = 0;
    while j < n
        invariant
            n == lines.len(),
            chars_of@.len() == n,
            forall|a: int| 0 <= a < n ==> #[trigger] chars_of@[a]@ == lines[a],
            forall|a: int| 0 <= a < n ==> byte_len(#[trigger] lines[a]) <= usize::MAX,
            j <= n,
            match least {
                Some(m) => least_indent(lines, first_line_column as int, j as int) == Some(m as int),
                None => least_indent(lines, first_line_column as int, j as int) is None,
            },
        decreases n - j,
    {
        let line = chars_of[j].as_slice();
        if !all_whitespace(line) {
            let here = if j == 0 {
                first_line_column
            } else {
                indent_bytes_of(line)
            };
            least = match least {
                Some(m) => if m < here {
                    Some(m)
                } else {
                    Some(here)
                },
                None => Some(here),
            };
        }
        j = j + 1;
    }
    let min_indent: usize = match least {
        Some(m) => m,
        None => 0,
    };
    let ghost dedented = Seq::new(lines.len(), |a: int| dedented_line(lines, a, min_indent as int));
    let mut collapsed: Vec<Vec<char>> = Vec::new();
    let mut k: usize = 0;
    while k < n
        invariant
            n == lines.len(),
            chars_of@.len() == n,
            forall|a: int| 0 <= a < n ==> #[trigger] chars_of@[a]@ == lines[a],
            dedented == Seq::new(lines.len(), |a: int| dedented_line(lines, a, min_indent as int)),
            k <= n,
            collapsed@.map_values(|x: Vec<char>| x@) == collapse_empty_runs(dedented.take(k as int)),
        decreases n - k,
    {
        let line = chars_of[k].as_slice();
        let out: Vec<char> = if all_whitespace(line) {
            Vec::new()
        } else if k == 0 {
            trim_end_chars(line)
        } else {
            match cut_at_byte_of(line, min_indent) {
                Some(cut) => trim_end_chars(chars_between(line, cut, line.len()).as_slice()),
                None => trim_end_chars(line),
            }
        };
        proof {
            if !spec_all_whitespace(lines[k as int]) && k > 0 {
                if let Some(cut) = cut_at_byte(lines[k as int], min_indent as int) {
                    assert(lines[k as int].subrange(cut as int, lines[k as int].len() as int) =~= lines[k as int].skip(
                        cut as int,
                    ));
                }
            }
        }
        assert(out@ == dedented[k as int]);
        assert(dedented.take(k + 1).drop_last() =~= dedented.take(k as int));
        assert(dedented.take(k + 1).last() == dedented[k as int]);
        let ghost prev = collapsed@.map_values(|x: Vec<char>| x@);
        let skip = out.len() == 0 && collapsed.len() > 0 && collapsed[collapsed.len() - 1].len() == 0;
        if !skip {
            collapsed.push(out);
            assert(collapsed@.map_values(|x: Vec<char>| x@) =~= prev.push(dedented[k as int]));
        } else {
            assert(prev.last().len() == 0);
        }
        k = k + 1;
    }
    assert(dedented.take(n as int) =~= dedented);
    let ghost c = collapsed@.map_values(|x: Vec<char>| x@);
    let mut start: usize = 0;
    assert(c.skip(0) =~= c);
    while start < collapsed.len() && collapsed[start].len() == 0
        invariant
            c == collapsed@.map_values(|x: Vec<char>| x@),
            start <= collapsed@.len(),
            drop_leading_empty(c) == drop_leading_empty(c.skip(start as int)),
        decreases collapsed@.len() - start,
    {
        assert(c.skip(start as int).drop_first() =~= c.skip(start + 1));
        start = start + 1;
    }
    let ghost d = c.skip(start as int);
    assert(drop_leading_empty(c) == d) by {
        if start < c.len() {
            assert(d[0] == c[start as int]);
        }
    }
    let mut end: usize = collapsed.len();
    assert(d.take(d.len() as int) =~= d);
    while end > start && collapsed[end - 1].len() == 0
        invariant
            c == collapsed@.map_values(|x: Vec<char>| x@),
            d == c.skip(start as int),
            start <= end <= collapsed@.len(),
            drop_trailing_empty(d) == drop_trailing_empty(d.take(end - start)),
        decreases end,
    {
        assert(d.take(end - start).drop_last() =~= d.take(end - 1 - start));
        assert(d.take(end - start).last() == c[end - 1]);
        end = end - 1;
    }
    let ghost kept = d.take(end - start);
    assert(drop_trailing_empty(kept) == kept) by {
        if end > start {
            assert(kept.last() == c[end - 1]);
        }
    }
    let mut joined: Vec<char> = Vec::new();
    let mut m: usize = start;
    while m < end
        invariant
            c == collapsed@.map_values(|x: Vec<char>| x@),
            d == c.skip(start as int),
            kept == d.take(end - start),
            start <= m <= end <= collapsed@.len(),
            joined@ == join_lines(kept.take(m - start)),
        decreases end - m,
    {
        let ghost before = joined@;
        if m > start {
            joined.push('\n');
        }
        let piece = collapsed[m].as_slice();
        let mut q: usize = 0;
        let ghost mid = joined@;
        while q < piece.len()
            invariant
                q <= piece@.len(),
                joined@ == mid + piece@.take(q as int),
            decreases piece@.len() - q,
        {
            joined.push(piece[q]);
            assert(piece@.take(q + 1) =~= piece@.take(q as int).push(piece@[q as int]));
            q = q + 1;
        }
        assert(piece@.take(piece@.len() as int) =~= piece@);
        assert(kept.take(m + 1 - start).drop_last() =~= kept.take(m - start));
        assert(kept.take(m + 1 - start).last() == c[m as int]);
        proof {
            if m == start {
                assert(kept.take(1) =~= seq![c[m as int]]);
                assert(joined@ =~= piece@);
            } else {
                assert(joined@ =~= before + seq!['\n'] + piece@);
            }
        }
        m = m + 1;
    }
    assert(kept.take(end - start) =~= kept);
    bound_signature(string_from_chars(joined.as_slice()))
}

/// Where the line holding byte `at` of `source` starts: just after the
/// last `\n` before `at`, or 0.
pub open spec fn line_start_before(source: Seq<u8>, at: int) -> int
    decreases at,
{
    if at <= 0 {
        0
    } else if source[at - 1] == 10 {
        at
    } else {
        line_start_before(source, at - 1)
    }
}

/// A comment's byte range widened back to the start of its line when only
/// spaces and tabs stand between the line's start and the comment.
pub open spec fn spec_widen_to_whole_line_comment(range: (usize, usize), source: Seq<u8>) -> (usize, usize) {
    let line_start = line_start_before(source, range.0 as int);
    if forall|i: int| line_start <= i < range.0 ==> source[i] == 32 || source[i] == 9 {
        (line_start as usize, range.1)
    } else {
        range
    }
}

/// Extends a comment's byte range over its line's leading indentation when
/// the comment is the whole line's content, so that removing it leaves no
/// indentation-only line behind whatever the grammar includes in the
/// comment token.
pub fn widen_to_whole_line_comment(range: (usize, usize), source: &[u8]) -> (r: (usize, usize))
    requires
        range.0 <= source@.len(),
    ensures
        r == spec_widen_to_whole_line_comment(range, source@),
{
    let mut line_start: usize = range.0;
    while line_start > 0 && source[line_start - 1] != 10
        invariant
            line_start <= range.0 <= source@.len(),
            line_start_before(source@, range.0 as int) == line_start_before(source@, line_start as int),
            forall|i: int| line_start <= i < range.0 ==> source@[i] != 10,
        decreases line_start,
    {
        line_start = line_start - 1;
    }
    let mut i: usize = line_start;
    while i < range.0
        invariant
            line_start <= i <= range.0 <= source@.len(),
            line_start == line_start_before(source@, range.0 as int),
            forall|j: int| line_start <= j < i ==> source@[j] == 32 || source@[j] == 9,
        decreases range.0 - i,
    {
        if source[i] != 32 && source[i] != 9 {
            return range;
        }
        i = i + 1;
    }
    (line_start, range.1)
}

/// `sorted` with range `x` inserted after every range starting no later.
pub open spec fn insert_by_start(sorted: Seq<(usize, usize)>, x: (usize, usize)) -> Seq<(usize, usize)>
    decreases sorted.len(),
{
    if sorted.len() == 0 {
        seq![x]
    } else if x.0 < sorted.last().0 {
        insert_by_start(sorted.drop_last(), x).push(sorted.last())
    } else {
        sorted.push(x)
    }
}

/// `ranges` stably sorted by start.
pub open spec fn sorted_by_start(ranges: Seq<(usize, usize)>) -> Seq<(usize, usize)>
    decreases ranges.len(),
{
    if ranges.len() == 0 {
        Seq::empty()
    } else {
        insert_by_start(sorted_by_start(ranges.drop_last()), ranges.last())
    }
}

/// Walking sorted `ranges` from `cursor`: the bytes kept before each range
/// (a range starting before the cursor is passed over), and where the
/// cursor ends.
pub open spec fn removal_walk(source: Seq<u8>, node_end: int, ranges: Seq<(usize, usize)>, cursor: int) -> (
    Seq<u8>,
    int,
)
    decreases ranges.len(),
{
    if ranges.len() == 0 {
        (Seq::empty(), cursor)
    } else {
        let r = ranges[0];
        if (r.0 as int) < cursor {
            removal_walk(source, node_end, ranges.drop_first(), cursor)
        } else {
            let upto = if (r.0 as int) < node_end {
                r.0 as int
            } else {
                node_end
            };
            let next = if (r.1 as int) > cursor {
                r.1 as int
            } else {
                cursor
            };
            let rest = removal_walk(source, node_end, ranges.drop_first(), next);
            (source.subrange(cursor, upto) + rest.0, rest.1)
        }
    }
}

/// Whether every slice [`removal_walk`] takes lies inside `source`.
pub open spec fn walk_in_bounds(source: Seq<u8>, node_end: int, ranges: Seq<(usize, usize)>, cursor: int) -> bool
    decreases ranges.len(),
{
    if ranges.len() == 0 {
        true
    } else {
        let r = ranges[0];
        if (r.0 as int) < cursor {
            walk_in_bounds(source, node_end, ranges.drop_first(), cursor)
        } else {
            let upto = if (r.0 as int) < node_end {
                r.0 as int
            } else {
                node_end
            };
            let next = if (r.1 as int) > cursor {
                r.1 as int
            } else {
                cursor
            };
            0 <= cursor <= upto <= source.len() && walk_in_bounds(source, node_end, ranges.drop_first(), next)
        }
    }
}

/// The bytes of `span_start..node_end` of `source` with `ranges` removed.
pub open spec fn kept_bytes(source: Seq<u8>, span_start: int, node_end: int, ranges: Seq<(usize, usize)>) -> Seq<u8> {
    let walk = removal_walk(source, node_end, sorted_by_start(ranges), span_start);
    let tail_start = if walk.1 < node_end {
        walk.1
    } else {
        node_end
    };
    walk.0 + source.subrange(tail_start, node_end)
}

/// The text of `span_start..node_end` of `source` with every byte range of
/// `ranges` removed; ranges are taken by start, and one starting before
/// the end of an earlier removal is passed over. Empty when what is left
/// is not valid UTF-8.
pub open spec fn spec_text_with_ranges_removed(
    source: Seq<u8>,
    span_start: int,
    node_end: int,
    ranges: Seq<(usize, usize)>,
) -> Seq<char> {
    let kept = kept_bytes(source, span_start, node_end, ranges);
    if valid_utf8(kept) {
        decode_utf8(kept)
    } else {
        Seq::empty()
    }
}

pub fn sort_by_start(ranges: Vec<(usize, usize)>) -> (r: Vec<(usize, usize)>)
    ensures
        r@ == sorted_by_start(ranges@),
{
    let mut sorted: Vec<(usize, usize)> = Vec::new();
    let mut i: usize = 0;
    while i < ranges.len()
        invariant
            i <= ranges@.len(),
            sorted@ == sorted_by_start(ranges@.take(i as int)),
        decreases ranges@.len() - i,
    {
        let x = ranges[i];
        assert(ranges@.take(i + 1).drop_last() =~= ranges@.take(i as int));
        let ghost old_sorted = sorted@;
        let mut j: usize = sorted.len();
        assert(old_sorted.take(j as int) =~= old_sorted);
        assert(old_sorted.skip(j as int) =~= Seq::<(usize, usize)>::empty());
        while j > 0 && x.0 < sorted[j - 1].0
            invariant
                j <= sorted@.len(),
                sorted@ == old_sorted,
                insert_by_start(old_sorted, x) == insert_by_start(old_sorted.take(j as int), x) + old_sorted.skip(j as int),
            decreases j,
        {
            let ghost t = old_sorted.take(j as int);
            assert(t.drop_last() =~= old_sorted.take(j - 1));
            assert(old_sorted.skip(j - 1) =~= seq![old_sorted[j - 1]] + old_sorted.skip(j as int));
            j = j - 1;
        }
        proof {
            if j == 0 {
                assert(old_sorted.take(0) =~= Seq::<(usize, usize)>::empty());
            }
        }
        sorted.insert(j, x);
        assert(sorted@ =~= old_sorted.take(j as int).push(x) + old_sorted.skip(j as int));
        i = i + 1;
    }
    assert(ranges@.take(ranges@.len() as int) =~= ranges@);
    sorted
}

fn push_bytes(out: &mut Vec<u8>, source: &[u8], from: usize, to: usize)
    requires
        from <= to <= source@.len(),
    ensures
        final(out)@ == old(out)@ + source@.subrange(from as int, to as int),
{
    let ghost start = out@;
    let mut i: usize = from;
    while i < to
        invariant
            from <= i <= to <= source@.len(),
            out@ == start + source@.subrange(from as int, i as int),
        decreases to - i,
    {
        out.push(source[i]);
        assert(source@.subrange(from as int, i + 1) =~= source@.subrange(from as int, i as int).push(source@[i as int]));
        i = i + 1;
    }
}

/// Removes every byte range of `ranges` from the `span_start..node_end`
/// text of `source` (see [`spec_text_with_ranges_removed`]).
pub fn text_with_ranges_removed(node_end: usize, span_start: usize, source: &[u8], ranges: Vec<(usize, usize)>) -> (r:
    String)
    requires
        node_end <= source@.len(),
        walk_in_bounds(source@, node_end as int, sorted_by_start(ranges@), span_start as int),
    ensures
        r@ == spec_text_with_ranges_removed(source@, span_start as int, node_end as int, ranges@),
{
    let sorted = sort_by_start(ranges);
    let ghost all = sorted@;
    let mut result: Vec<u8> = Vec::new();
    let mut cursor: usize = span_start;
    let mut i: usize = 0;
    assert(all.skip(0) =~= all);
    while i < sorted.len()
        invariant
            all == sorted@,
            i <= all.len(),
            node_end <= source@.len(),
            walk_in_bounds(source@, node_end as int, all.skip(i as int), cursor as int),
            removal_walk(source@, node_end as int, all, span_start as int) == ({
                let rest = removal_walk(source@, node_end as int, all.skip(i as int), cursor as int);
                (result@ + rest.0, rest.1)
            }),
        decreases all.len() - i,
    {
        let (start, end) = sorted[i];
        assert(all.skip(i as int)[0] == all[i as int]);
        assert(all.skip(i as int).drop_first() =~= all.skip(i + 1));
        if start >= cursor {
            let upto = if start < node_end {
                start
            } else {
                node_end
            };
            let ghost before = result@;
            push_bytes(&mut result, source, cursor, upto);
            assert(result@ == before + source@.subrange(cursor as int, upto as int));
            let ghost rest = removal_walk(source@, node_end as int, all.skip(i + 1), if end > cursor {
                end as int
            } else {
                cursor as int
            });
            assert(before + (source@.subrange(cursor as int, upto as int) + rest.0) =~= result@ + rest.0);
            cursor = if end > cursor {
                end
            } else {
                cursor
            };
        }
        i = i + 1;
    }
    assert(all.skip(i as int) =~= Seq::<(usize, usize)>::empty());
    assert(result@ + Seq::<u8>::empty() =~= result@);
    let tail_start = if cursor < node_end {
        cursor
    } else {
        node_end
    };
    push_bytes(&mut result, source, tail_start, node_end);
    match string_from_utf8(result) {
        Some(text) => text,
        None => String::new(),
    }
}

/// A method node whose body is implementation detail.
pub open spec fn is_method_kind(kind: Seq<char>) -> bool {
    kind == "function_definition"@ || kind == "method_definition"@ || kind == "method_declaration"@
}

/// The body range node `c` contributes itself, if it is a method with a
/// body (body start to the method's end) or a class field whose value is
/// an arrow function with a body.
pub open spec fn own_body_range(nodes: Seq<SyntaxNode>, c: int) -> Option<(usize, usize)> {
    if is_method_kind(nodes[c].kind@) && first_with_field(nodes, children_of(nodes, c), "body"@) is Some {
        let b = first_with_field(nodes, children_of(nodes, c), "body"@)->Some_0;
        Some((nodes[b].start_byte, nodes[c].end_byte))
    } else if nodes[c].kind@ == "public_field_definition"@ && first_with_field(nodes, children_of(nodes, c), "value"@)
        is Some {
        let v = first_with_field(nodes, children_of(nodes, c), "value"@)->Some_0;
        if nodes[v].kind@ == "arrow_function"@ && first_with_field(nodes, children_of(nodes, v), "body"@) is Some {
            let b = first_with_field(nodes, children_of(nodes, v), "body"@)->Some_0;
            Some((nodes[b].start_byte, nodes[c].end_byte))
        } else {
            None
        }
    } else {
        None
    }
}

/// The method-body ranges found under the nodes `cands` (children of
/// `parent`), in document order: a method's body is taken whole and not
/// descended into, any other node is searched.
pub open spec fn body_ranges_among(nodes: Seq<SyntaxNode>, parent: int, cands: Seq<int>) -> Seq<(usize, usize)>
    decreases nodes.len() - parent, cands.len(),
{
    if cands.len() == 0 {
        Seq::empty()
    } else {
        let c = cands[0];
        let here = match own_body_range(nodes, c) {
            Some(r) => seq![r],
            None => if parent < c < nodes.len() {
                body_ranges_among(nodes, c, children_of(nodes, c))
            } else {
                Seq::empty()
            },
        };
        here + body_ranges_among(nodes, parent, cands.drop_first())
    }
}

proof fn lemma_children_after(tree: &SyntaxTree, p: int)
    requires
        tree.wf(),
        0 <= p <= usize::MAX,
    ensures
        forall|k: int|
            0 <= k < children_of(tree.nodes@, p).len() ==> p < #[trigger] children_of(tree.nodes@, p)[k]
                < tree.nodes@.len(),
{
    crate::syntax::lemma_child_indices_bounds(tree.nodes@, p, tree.nodes@.len() as int);
    assert forall|k: int| 0 <= k < children_of(tree.nodes@, p).len() implies p < #[trigger] children_of(
        tree.nodes@,
        p,
    )[k] < tree.nodes@.len() by {
        let c = children_of(tree.nodes@, p)[k];
        assert(tree.nodes@[c].parent == Some(p as usize));
    }
}

fn own_body_range_of(tree: &SyntaxTree, c: usize) -> (r: Option<(usize, usize)>)
    requires
        c < tree.nodes@.len(),
    ensures
        r == own_body_range(tree.nodes@, c as int),
{
    let kind = crate::text::str_chars(tree.nodes[c].kind.as_str());
    let k = kind.as_slice();
    if crate::text::chars_are(k, "function_definition") || crate::text::chars_are(k, "method_definition")
        || crate::text::chars_are(k, "method_declaration") {
        match tree.child_by_field_name(c, "body") {
            Some(b) => {
                return Some((tree.nodes[b].start_byte, tree.nodes[c].end_byte));
            },
            None => {},
        }
    }
    if crate::text::chars_are(k, "public_field_definition") {
        match tree.child_by_field_name(c, "value") {
            Some(v) => {
                if crate::text::chars_are(crate::text::str_chars(tree.nodes[v].kind.as_str()).as_slice(), "arrow_function") {
                    match tree.child_by_field_name(v, "body") {
                        Some(b) => {
                            return Some((tree.nodes[b].start_byte, tree.nodes[c].end_byte));
                        },
                        None => {},
                    }
                }
            },
            None => {},
        }
    }
    None
}

/// Collects the byte ranges of every method body nested in a class-like
/// node (see [`body_ranges_among`]), without descending into a method's own
/// body.
pub fn collect_method_body_ranges(tree: &SyntaxTree, node: usize, ranges: &mut Vec<(usize, usize)>)
    requires
        tree.wf(),
        node < tree.nodes@.len(),
    ensures
        final(ranges)@ == old(ranges)@ + body_ranges_among(tree.nodes@, node as int, children_of(tree.nodes@, node as int)),
    decreases tree.nodes@.len() - node,
{
    let kids = tree.children(node);
    let ghost all = kids@.map_values(|c: usize| c as int);
    let ghost start = ranges@;
    proof {
        lemma_children_after(tree, node as int);
    }
    let mut k: usize = 0;
    assert(all.skip(0) =~= all);
    while k < kids.len()
        invariant
            tree.wf(),
            node < tree.nodes@.len(),
            all == kids@.map_values(|c: usize| c as int),
            all == children_of(tree.nodes@, node as int),
            forall|m: int| 0 <= m < all.len() ==> node < #[trigger] all[m] < tree.nodes@.len(),
            k <= kids@.len(),
            ranges@ + body_ranges_among(tree.nodes@, node as int, all.skip(k as int)) == start + body_ranges_among(
                tree.nodes@,
                node as int,
                all,
            ),
        decreases kids@.len() - k,
    {
        let c = kids[k];
        assert(all[k as int] == c as int);
        let ghost rest = all.skip(k as int);
        assert(rest[0] == c as int);
        assert(rest.drop_first() =~= all.skip(k + 1));
        let ghost before = ranges@;
        match own_body_range_of(tree, c) {
            Some(r) => {
                ranges.push(r);
                assert(ranges@ =~= before + seq![r]);
            },
            None => {
                collect_method_body_ranges(tree, c, ranges);
            },
        }
        assert(before + body_ranges_among(tree.nodes@, node as int, rest) =~= ranges@ + body_ranges_among(
            tree.nodes@,
            node as int,
            all.skip(k + 1),
        ));
        k = k + 1;
    }
    assert(all.skip(k as int) =~= Seq::<int>::empty());
    assert(ranges@ + Seq::<(usize, usize)>::empty() =~= ranges@);
}

/// A comment node, under any of the grammars.
pub open spec fn is_comment_kind(kind: Seq<char>) -> bool {
    kind == "line_comment"@ || kind == "block_comment"@ || kind == "comment"@
}

/// Whether the span `start..end` lies inside one of `removed`.
pub open spec fn covered_by(removed: Seq<(usize, usize)>, start: int, end: int) -> bool {
    exists|k: int| 0 <= k < removed.len() && (#[trigger] removed[k]).0 <= start && end <= removed[k].1
}

/// The comment ranges found under the nodes `cands` (children of
/// `parent`), in document order: a comment gives its range widened over
/// a whole line's indentation; a node inside an already removed range
/// gives none; any other node is searched.
pub open spec fn comment_ranges_among(
    nodes: Seq<SyntaxNode>,
    source: Seq<u8>,
    removed: Seq<(usize, usize)>,
    parent: int,
    cands: Seq<int>,
) -> Seq<(usize, usize)>
    decreases nodes.len() - parent, cands.len(),
{
    if cands.len() == 0 {
        Seq::empty()
    } else {
        let c = cands[0];
        let here = if is_comment_kind(nodes[c].kind@) {
            seq![spec_widen_to_whole_line_comment((nodes[c].start_byte, nodes[c].end_byte), source)]
        } else if covered_by(removed, nodes[c].start_byte as int, nodes[c].end_byte as int) {
            Seq::empty()
        } else if parent < c < nodes.len() {
            comment_ranges_among(nodes, source, removed, c, children_of(nodes, c))
        } else {
            Seq::empty()
        };
        here + comment_ranges_among(nodes, source, removed, parent, cands.drop_first())
    }
}

/// The comment ranges of node `i` and everything under it (see
/// [`comment_ranges_among`]).
pub open spec fn spec_comment_ranges(
    nodes: Seq<SyntaxNode>,
    source: Seq<u8>,
    removed: Seq<(usize, usize)>,
    i: int,
) -> Seq<(usize, usize)> {
    if is_comment_kind(nodes[i].kind@) {
        seq![spec_widen_to_whole_line_comment((nodes[i].start_byte, nodes[i].end_byte), source)]
    } else if covered_by(removed, nodes[i].start_byte as int, nodes[i].end_byte as int) {
        Seq::empty()
    } else {
        comment_ranges_among(nodes, source, removed, i, children_of(nodes, i))
    }
}

fn is_comment_node(tree: &SyntaxTree, i: usize) -> (r: bool)
    requires
        i < tree.nodes@.len(),
    ensures
        r == is_comment_kind(tree.nodes@[i as int].kind@),
{
    let kind = crate::text::str_chars(tree.nodes[i].kind.as_str());
    crate::text::chars_are(kind.as_slice(), "line_comment") || crate::text::chars_are(kind.as_slice(), "block_comment")
        || crate::text::chars_are(kind.as_slice(), "comment")
}

fn is_covered(removed: &[(usize, usize)], start: usize, end: usize) -> (r: bool)
    ensures
        r == covered_by(removed@, start as int, end as int),
{
    let mut k: usize = 0;
    while k < removed.len()
        invariant
            k <= removed@.len(),
            forall|m: int| 0 <= m < k ==> !((#[trigger] removed@[m]).0 <= start && end <= removed@[m].1),
        decreases removed@.len() - k,
    {
        if removed[k].0 <= start && end <= removed[k].1 {
            return true;
        }
        k = k + 1;
    }
    false
}

/// Collects the byte range of every comment under `node` (see
/// [`spec_comment_ranges`]), each widened over its line's indentation when
/// the comment is the whole line.
pub fn collect_comment_ranges(
    tree: &SyntaxTree,
    node: usize,
    source: &[u8],
    already_removed: &[(usize, usize)],
    ranges: &mut Vec<(usize, usize)>,
)
    requires
        tree.wf(),
        tree.spans_within(source@),
        node < tree.nodes@.len(),
    ensures
        final(ranges)@ == old(ranges)@ + spec_comment_ranges(tree.nodes@, source@, already_removed@, node as int),
    decreases tree.nodes@.len() - node,
{
    if is_comment_node(tree, node) {
        let range = widen_to_whole_line_comment((tree.nodes[node].start_byte, tree.nodes[node].end_byte), source);
        ranges.push(range);
        return;
    }
    if is_covered(already_removed, tree.nodes[node].start_byte, tree.nodes[node].end_byte) {
        assert(old(ranges)@ + Seq::<(usize, usize)>::empty() =~= old(ranges)@);
        return;
    }
    let kids = tree.children(node);
    let ghost all = kids@.map_values(|c: usize| c as int);
    let ghost start = ranges@;
    proof {
        lemma_children_after(tree, node as int);
    }
    let mut k: usize = 0;
    assert(all.skip(0) =~= all);
    while k < kids.len()
        invariant
            tree.wf(),
            tree.spans_within(source@),
            node < tree.nodes@.len(),
            all == kids@.map_values(|c: usize| c as int),
            all == children_of(tree.nodes@, node as int),
            forall|m: int| 0 <= m < all.len() ==> node < #[trigger] all[m] < tree.nodes@.len(),
            k <= kids@.len(),
            ranges@ + comment_ranges_among(tree.nodes@, source@, already_removed@, node as int, all.skip(k as int))
                == start + comment_ranges_among(tree.nodes@, source@, already_removed@, node as int, all),
        decreases kids@.len() - k,
    {
        let c = kids[k];
        assert(all[k as int] == c as int);
        let ghost rest = all.skip(k as int);
        assert(rest[0] == c as int);
        assert(rest.drop_first() =~= all.skip(k + 1));
        let ghost before = ranges@;
        collect_comment_ranges(tree, c, source, already_removed, ranges);
        assert(before + comment_ranges_among(tree.nodes@, source@, already_removed@, node as int, rest) =~= ranges@
            + comment_ranges_among(tree.nodes@, source@, already_removed@, node as int, all.skip(k + 1)));
        k = k + 1;
    }
    assert(all.skip(k as int) =~= Seq::<int>::empty());
    assert(ranges@ + Seq::<(usize, usize)>::empty() =~= ranges@);
}

/// A class-like definition, whose methods carry bodies that are
/// implementation detail.
pub open spec fn is_class_like(kind: Seq<char>) -> bool {
    kind == "class_definition"@ || kind == "class_declaration"@ || kind == "abstract_class_declaration"@ || kind
        == "trait_declaration"@ || kind == "enum_declaration"@
}

/// A function-like definition with a `body` field.
pub open spec fn has_body_field(kind: Seq<char>) -> bool {
    kind == "function_item"@ || kind == "function_declaration"@ || kind == "method_declaration"@ || kind
        == "function_definition"@ || kind == "method_definition"@
}

/// The node where definition `i`'s body starts, if it has one: an arrow
/// function's body under a declarator's `value`, a function's `body`, or
/// a section's first node after its heading.
pub open spec fn body_node(nodes: Seq<SyntaxNode>, i: int) -> Option<int> {
    let k = nodes[i].kind@;
    if k == "variable_declarator"@ {
        match first_with_field(nodes, children_of(nodes, i), "value"@) {
            Some(v) => first_with_field(nodes, children_of(nodes, v), "body"@),
            None => None,
        }
    } else if has_body_field(k) {
        first_with_field(nodes, children_of(nodes, i), "body"@)
    } else if k == "section"@ {
        crate::markdown::spec_section_body_start(nodes, i)
    } else {
        None
    }
}

/// The ranges of `rs` starting before `end`, in order.
pub open spec fn ranges_before(rs: Seq<(usize, usize)>, end: int) -> Seq<(usize, usize)>
    decreases rs.len(),
{
    if rs.len() == 0 {
        Seq::empty()
    } else {
        ranges_before(rs.drop_last(), end) + if (rs.last().0 as int) < end {
            seq![rs.last()]
        } else {
            Seq::empty()
        }
    }
}

/// The byte ranges removed from definition `i`'s span to leave its
/// signature. For a class-like definition: its method bodies, the members
/// the change did not touch (when given), and its comments outside those.
/// For any other: its comments before its body, and the body itself (to
/// the end of the definition).
pub open spec fn signature_ranges(
    nodes: Seq<SyntaxNode>,
    source: Seq<u8>,
    i: int,
    untouched: Option<Seq<(usize, usize)>>,
) -> Seq<(usize, usize)> {
    if is_class_like(nodes[i].kind@) {
        let removed = body_ranges_among(nodes, i, children_of(nodes, i)) + match untouched {
            Some(u) => u,
            None => Seq::empty(),
        };
        removed + spec_comment_ranges(nodes, source, removed, i)
    } else {
        let text_end = match body_node(nodes, i) {
            Some(b) => nodes[b].start_byte as int,
            None => nodes[i].end_byte as int,
        };
        let comments = ranges_before(spec_comment_ranges(nodes, source, Seq::empty(), i), text_end);
        match body_node(nodes, i) {
            Some(b) => comments.push((nodes[b].start_byte, nodes[i].end_byte)),
            None => comments,
        }
    }
}

/// A definition's signature: its span (from `span_start_byte`, which takes
/// in any decorator or attribute, to the node's end) with
/// [`signature_ranges`] removed, then tidied for display.
pub open spec fn spec_slice_signature(
    nodes: Seq<SyntaxNode>,
    source: Seq<u8>,
    i: int,
    span_start_byte: int,
    first_line_column: int,
    untouched: Option<Seq<(usize, usize)>>,
) -> Seq<char> {
    spec_tidy_signature_lines(
        spec_text_with_ranges_removed(
            source,
            span_start_byte,
            nodes[i].end_byte as int,
            signature_ranges(nodes, source, i, untouched),
        ),
        first_line_column,
    )
}

fn body_node_of(tree: &SyntaxTree, i: usize) -> (r: Option<usize>)
    requires
        i < tree.nodes@.len(),
    ensures
        match body_node(tree.nodes@, i as int) {
            Some(b) => r matches Some(x) && x as int == b,
            None => r is None,
        },
        r matches Some(x) ==> x < tree.nodes@.len(),
{
    let kind = crate::text::str_chars(tree.nodes[i].kind.as_str());
    let k = kind.as_slice();
    if crate::text::chars_are(k, "variable_declarator") {
        match tree.child_by_field_name(i, "value") {
            Some(v) => tree.child_by_field_name(v, "body"),
            None => None,
        }
    } else if crate::text::chars_are(k, "function_item") || crate::text::chars_are(k, "function_declaration")
        || crate::text::chars_are(k, "method_declaration") || crate::text::chars_are(k, "function_definition")
        || crate::text::chars_are(k, "method_definition") {
        tree.child_by_field_name(i, "body")
    } else if crate::text::chars_are(k, "section") {
        let r = crate::markdown::section_body_start(tree, i);
        proof {
            if let Some(x) = r {
                lemma_first_starting_in_tree(tree, i as int);
            }
        }
        r
    } else {
        None
    }
}

proof fn lemma_first_starting_in_tree(tree: &SyntaxTree, i: int)
    requires
        0 <= i < tree.nodes@.len(),
    ensures
        crate::markdown::spec_section_body_start(tree.nodes@, i) matches Some(x) ==> 0 <= x < tree.nodes@.len(),
{
    crate::syntax::lemma_child_indices_bounds(tree.nodes@, i, tree.nodes@.len() as int);
    match crate::markdown::spec_heading_of(tree.nodes@, i) {
        Some(h) => lemma_first_starting_member(
            tree.nodes@,
            children_of(tree.nodes@, i),
            tree.nodes@[h].end_byte as int,
        ),
        None => {},
    }
}

proof fn lemma_first_starting_member(nodes: Seq<SyntaxNode>, cands: Seq<int>, b: int)
    ensures
        crate::markdown::first_starting_from(nodes, cands, b) matches Some(x) ==> cands.contains(x),
    decreases cands.len(),
{
    if cands.len() > 0 && !(nodes[cands[0]].start_byte >= b) {
        lemma_first_starting_member(nodes, cands.drop_first(), b);
        if let Some(x) = crate::markdown::first_starting_from(nodes, cands.drop_first(), b) {
            let k = choose|k: int| 0 <= k < cands.drop_first().len() && cands.drop_first()[k] == x;
            assert(cands[k + 1] == x);
        }
    } else if cands.len() > 0 {
        assert(cands[0] == cands[0]);
    }
}

/// The byte ranges removed from definition `node`'s span to leave its
/// signature (see [`signature_ranges`]).
pub fn signature_removal_ranges(
    tree: &SyntaxTree,
    node: usize,
    source: &[u8],
    untouched_member_ranges: Option<Vec<(usize, usize)>>,
) -> (r: Vec<(usize, usize)>)
    requires
        tree.wf(),
        tree.spans_within(source@),
        node < tree.nodes@.len(),
    ensures
        r@ == signature_ranges(
            tree.nodes@,
            source@,
            node as int,
            match untouched_member_ranges {
                Some(u) => Some(u@),
                None => None,
            },
        ),
{
    let ghost untouched = match &untouched_member_ranges {
        Some(u) => Some(u@),
        None => None,
    };
    let node_end = tree.nodes[node].end_byte;
    let kind = crate::text::str_chars(tree.nodes[node].kind.as_str());
    let k = kind.as_slice();
    let class_like = crate::text::chars_are(k, "class_definition") || crate::text::chars_are(k, "class_declaration")
        || crate::text::chars_are(k, "abstract_class_declaration") || crate::text::chars_are(k, "trait_declaration")
        || crate::text::chars_are(k, "enum_declaration");
    let removed: Vec<(usize, usize)> = if class_like {
        let mut removed: Vec<(usize, usize)> = Vec::new();
        collect_method_body_ranges(tree, node, &mut removed);
        match untouched_member_ranges {
            Some(mut u) => {
                removed.append(&mut u);
            },
            None => {},
        }
        let ghost base = removed@;
        let snapshot = copy_ranges(&removed);
        collect_comment_ranges(tree, node, source, snapshot.as_slice(), &mut removed);
        assert(removed@ =~= signature_ranges(tree.nodes@, source@, node as int, untouched)) by {
            assert(base =~= body_ranges_among(tree.nodes@, node as int, children_of(tree.nodes@, node as int)) + match untouched {
                Some(u) => u,
                None => Seq::empty(),
            });
        }
        removed
    } else {
        let body = body_node_of(tree, node);
        let text_end = match body {
            Some(b) => tree.nodes[b].start_byte,
            None => node_end,
        };
        let mut comments: Vec<(usize, usize)> = Vec::new();
        let nothing_removed: Vec<(usize, usize)> = Vec::new();
        assert(nothing_removed@ =~= Seq::<(usize, usize)>::empty());
        collect_comment_ranges(tree, node, source, nothing_removed.as_slice(), &mut comments);
        let ghost all = comments@;
        assert(all =~= Seq::empty() + spec_comment_ranges(tree.nodes@, source@, Seq::empty(), node as int));
        let mut kept: Vec<(usize, usize)> = Vec::new();
        let mut m: usize = 0;
        while m < comments.len()
            invariant
                all == comments@,
                m <= all.len(),
                kept@ == ranges_before(all.take(m as int), text_end as int),
            decreases all.len() - m,
        {
            assert(all.take(m + 1).drop_last() =~= all.take(m as int));
            if comments[m].0 < text_end {
                kept.push(comments[m]);
            }
            m = m + 1;
        }
        assert(all.take(m as int) =~= all);
        match body {
            Some(b) => {
                kept.push((tree.nodes[b].start_byte, node_end));
            },
            None => {},
        }
        kept
    };
    removed
}

/// Whether every slice the removal walk over sorted `ranges` takes lies
/// inside `source` (see [`walk_in_bounds`]).
pub fn walk_fits(source: &[u8], node_end: usize, ranges: &[(usize, usize)], start: usize) -> (r: bool)
    ensures
        r == walk_in_bounds(source@, node_end as int, ranges@, start as int),
{
    let ghost all = ranges@;
    let ghost first = start as int;
    let mut cursor: usize = start;
    let mut i: usize = 0;
    assert(all.skip(0) =~= all);
    while i < ranges.len()
        invariant
            all == ranges@,
            first == start as int,
            i <= all.len(),
            walk_in_bounds(source@, node_end as int, all, first) == walk_in_bounds(
                source@,
                node_end as int,
                all.skip(i as int),
                cursor as int,
            ),
        decreases all.len() - i,
    {
        let (lo, end) = ranges[i];
        assert(all.skip(i as int)[0] == all[i as int]);
        assert(all.skip(i as int).drop_first() =~= all.skip(i + 1));
        if lo >= cursor {
            let upto = if lo < node_end {
                lo
            } else {
                node_end
            };
            if !(cursor <= upto && upto <= source.len()) {
                assert(all.skip(i as int).len() > 0);
                assert(!walk_in_bounds(source@, node_end as int, all.skip(i as int), cursor as int));
                return false;
            }
            cursor = if end > cursor {
                end
            } else {
                cursor
            };
        }
        i = i + 1;
    }
    assert(all.skip(i as int) =~= Seq::<(usize, usize)>::empty());
    true
}

/// Slices definition `node`'s signature (see [`spec_slice_signature`]).
/// `span_start_byte` and `first_line_column` say where the definition's
/// span starts once decorators and attributes are taken in;
/// `untouched_member_ranges`, when given, are the members of a container
/// the change did not touch, left out of its signature.
pub fn slice_signature(
    tree: &SyntaxTree,
    node: usize,
    source: &[u8],
    span_start_byte: usize,
    first_line_column: usize,
    untouched_member_ranges: Option<Vec<(usize, usize)>>,
) -> (r: String)
    requires
        tree.wf(),
        tree.spans_within(source@),
        node < tree.nodes@.len(),
        walk_in_bounds(
            source@,
            tree.nodes@[node as int].end_byte as int,
            sorted_by_start(
                signature_ranges(
                    tree.nodes@,
                    source@,
                    node as int,
                    match untouched_member_ranges {
                        Some(u) => Some(u@),
                        None => None,
                    },
                ),
            ),
            span_start_byte as int,
        ),
    ensures
        r@ == spec_slice_signature(
            tree.nodes@,
            source@,
            node as int,
            span_start_byte as int,
            first_line_column as int,
            match untouched_member_ranges {
                Some(u) => Some(u@),
                None => None,
            },
        ),
        encode_utf8(r@).len() <= MAX_SIGNATURE_BYTES + 1 + encode_utf8(TRUNCATION_MARKER@).len(),
{
    let node_end = tree.nodes[node].end_byte;
    let removed = signature_removal_ranges(tree, node, source, untouched_member_ranges);
    let raw = text_with_ranges_removed(node_end, span_start_byte, source, removed);
    tidy_signature_lines(raw.as_str(), first_line_column)
}

fn copy_ranges(v: &Vec<(usize, usize)>) -> (r: Vec<(usize, usize)>)
    ensures
        r@ == v@,
{
    let mut r: Vec<(usize, usize)> = Vec::new();
    let mut i: usize = 0;
    while i < v.len()
        invariant
            i <= v@.len(),
            r@ == v@.take(i as int),
        decreases v@.len() - i,
    {
        r.push(v[i]);
        assert(v@.take(i + 1) =~= v@.take(i as int).push(v@[i as int]));
        i = i + 1;
    }
    assert(v@.take(v@.len() as int) =~= v@);
    r
}

} // verus!
