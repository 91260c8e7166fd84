//! Character- and byte-level string helpers shared by the rest of the crate.

use crate::path_proximity::{lemma_split_on_nonempty, split_chars, split_on};
use vstd::prelude::*;
use vstd::string::StringSliceAdditionalSpecFns;
use vstd::utf8::*;

verus! {

/// The characters of `s`, in order.
pub fn str_chars(s: &str) -> (chars: Vec<char>)
    ensures
        chars@ == s@,
{
    let mut chars: Vec<char> = Vec::new();
    for c in it: s.chars()
        invariant
            it.seq() == s@,
            chars@ == it.seq().take(it.index() as int),
    {
        chars.push(c);
    }
    chars
}

/// Whether two character vectors are equal.
pub fn chars_eq(a: &[char], b: &[char]) -> (r: bool)
    ensures
        r == (a@ == b@),
{
    if a.len() != b.len() {
        return false;
    }
    let mut i: usize = 0;
    while i < a.len()
        invariant
            a@.len() == b@.len(),
            i <= a@.len(),
            forall|j: int| 0 <= j < i ==> a@[j] == b@[j],
        decreases a@.len() - i,
    {
        if a[i] != b[i] {
            return false;
        }
        i = i + 1;
    }
    assert(a@ =~= b@);
    true
}

/// Whether `s` holds exactly the characters of `lit`.
pub fn chars_are(s: &[char], lit: &str) -> (r: bool)
    ensures
        r == (s@ == lit@),
{
    let l = str_chars(lit);
    chars_eq(s, l.as_slice())
}

/// The characters of `s` from `lo` up to (not including) `hi`.
pub fn chars_between(s: &[char], lo: usize, hi: usize) -> (r: Vec<char>)
    requires
        lo <= hi <= s@.len(),
    ensures
        r@ == s@.subrange(lo as int, hi as int),
{
    let mut r: Vec<char> = Vec::new();
    let mut i: usize = lo;
    while i < hi
        invariant
            lo <= i <= hi <= s@.len(),
            r@ == s@.subrange(lo as int, i as int),
        decreases hi - i,
    {
        r.push(s[i]);
        assert(s@.subrange(lo as int, i + 1) == s@.subrange(lo as int, i as int).push(s@[i as int]));
        i = i + 1;
    }
    r
}

/// The owned text of `c`.
pub fn cow_into_string(c: std::borrow::Cow<'_, str>) -> (r: String)
    ensures
        r@ == c@,
{
    match c {
        std::borrow::Cow::Borrowed(b) => b.to_owned(),
        std::borrow::Cow::Owned(o) => o,
    }
}

/// Appends one character to `s` (`String::push`).
#[verifier::external_body]
pub(crate) fn push_char(s: &mut String, c: char)
    ensures
        final(s)@ == old(s)@.push(c),
{
    s.push(c);
}

/// A `String` holding exactly `chars`.
pub fn string_from_chars(chars: &[char]) -> (s: String)
    ensures
        s@ == chars@,
{
    let mut s = String::new();
    let mut i: usize = 0;
    while i < chars.len()
        invariant
            i <= chars@.len(),
            s@ == chars@.take(i as int),
        decreases chars@.len() - i,
    {
        push_char(&mut s, chars[i]);
        assert(chars@.take(i + 1) == chars@.take(i as int).push(chars@[i as int]));
        i = i + 1;
    }
    assert(chars@.take(chars@.len() as int) == chars@);
    s
}

/// Unicode `White_Space`, the property `char::is_whitespace` tests.
pub open spec fn spec_is_whitespace(c: char) -> bool {
    let u = c as u32;
    (0x9 <= u && u <= 0xd) || u == 0x20 || u == 0x85 || u == 0xa0 || u == 0x1680
        || (0x2000 <= u && u <= 0x200a) || u == 0x2028 || u == 0x2029 || u == 0x202f
        || u == 0x205f || u == 0x3000
}

/// Whether `c` is Unicode white space (`char::is_whitespace`).
pub fn is_whitespace(c: char) -> (r: bool)
    ensures
        r == spec_is_whitespace(c),
{
    let u = c as u32;
    (0x9 <= u && u <= 0xd) || u == 0x20 || u == 0x85 || u == 0xa0 || u == 0x1680
        || (0x2000 <= u && u <= 0x200a) || u == 0x2028 || u == 0x2029 || u == 0x202f
        || u == 0x205f || u == 0x3000
}

/// Unicode `Alphabetic` or `Numeric` (`char::is_alphanumeric`): defined by
/// the Unicode tables the standard library carries.
pub uninterp spec fn spec_is_alphanumeric(c: char) -> bool;

/// Whether `c` is alphanumeric (`char::is_alphanumeric`).
#[verifier::external_body]
pub(crate) fn is_alphanumeric(c: char) -> (r: bool)
    ensures
        r == spec_is_alphanumeric(c),
{
    c.is_alphanumeric()
}

/// Whether every character of `s` is white space — what `s.trim().is_empty()` tests.
pub open spec fn spec_all_whitespace(s: Seq<char>) -> bool {
    forall|i: int| 0 <= i < s.len() ==> spec_is_whitespace(#[trigger] s[i])
}

/// An ASCII letter (`char::is_ascii_alphabetic`).
pub open spec fn spec_is_ascii_alphabetic(c: char) -> bool {
    ('a' <= c && c <= 'z') || ('A' <= c && c <= 'Z')
}

/// An ASCII digit (`char::is_ascii_digit`).
pub open spec fn spec_is_ascii_digit(c: char) -> bool {
    '0' <= c && c <= '9'
}

/// An ASCII letter or digit (`char::is_ascii_alphanumeric`).
pub open spec fn spec_is_ascii_alphanumeric(c: char) -> bool {
    spec_is_ascii_alphabetic(c) || spec_is_ascii_digit(c)
}

/// An ASCII upper-case letter (`char::is_ascii_uppercase`).
pub open spec fn spec_is_ascii_uppercase(c: char) -> bool {
    'A' <= c && c <= 'Z'
}

/// Whether `prefix` is a prefix of `s`.
pub open spec fn spec_starts_with<T>(s: Seq<T>, prefix: Seq<T>) -> bool {
    prefix.len() <= s.len() && s.take(prefix.len() as int) == prefix
}

/// Whether `suffix` is a suffix of `s`.
pub open spec fn spec_ends_with<T>(s: Seq<T>, suffix: Seq<T>) -> bool {
    suffix.len() <= s.len() && s.skip(s.len() - suffix.len()) == suffix
}

/// Whether `needle` occurs in `s` starting at index `i`.
pub open spec fn spec_occurs_at<T>(s: Seq<T>, needle: Seq<T>, i: int) -> bool {
    0 <= i && i + needle.len() <= s.len() && s.subrange(i, i + needle.len()) == needle
}

/// Whether `needle` occurs anywhere in `s` (`str::contains`).
pub open spec fn spec_contains<T>(s: Seq<T>, needle: Seq<T>) -> bool {
    exists|i: int| spec_occurs_at(s, needle, i)
}

/// Whether every character of `s` is white space.
pub fn all_whitespace(s: &[char]) -> (r: bool)
    ensures
        r == spec_all_whitespace(s@),
{
    let mut i: usize = 0;
    while i < s.len()
        invariant
            i <= s@.len(),
            forall|j: int| 0 <= j < i ==> spec_is_whitespace(#[trigger] s@[j]),
        decreases s@.len() - i,
    {
        if !is_whitespace(s[i]) {
            return false;
        }
        i = i + 1;
    }
    true
}

/// Whether `prefix` is a prefix of `s`.
pub fn starts_with_chars(s: &[char], prefix: &[char]) -> (r: bool)
    ensures
        r == spec_starts_with(s@, prefix@),
{
    if prefix.len() > s.len() {
        return false;
    }
    let mut i: usize = 0;
    while i < prefix.len()
        invariant
            prefix@.len() <= s@.len(),
            i <= prefix@.len(),
            forall|j: int| 0 <= j < i ==> s@[j] == prefix@[j],
        decreases prefix@.len() - i,
    {
        if s[i] != prefix[i] {
            assert(s@.take(prefix@.len() as int)[i as int] != prefix@[i as int]);
            return false;
        }
        i = i + 1;
    }
    assert(s@.take(prefix@.len() as int) =~= prefix@);
    true
}

/// Whether `suffix` is a suffix of `s`.
pub fn ends_with_chars(s: &[char], suffix: &[char]) -> (r: bool)
    ensures
        r == spec_ends_with(s@, suffix@),
{
    if suffix.len() > s.len() {
        return false;
    }
    let off = s.len() - suffix.len();
    let mut i: usize = 0;
    while i < suffix.len()
        invariant
            suffix@.len() <= s@.len(),
            off == s@.len() - suffix@.len(),
            s@.len() <= usize::MAX,
            i <= suffix@.len(),
            forall|j: int| 0 <= j < i ==> s@[off + j] == suffix@[j],
        decreases suffix@.len() - i,
    {
        if s[off + i] != suffix[i] {
            assert(s@.skip(off as int)[i as int] != suffix@[i as int]);
            return false;
        }
        i = i + 1;
    }
    assert(s@.skip(off as int) =~= suffix@);
    true
}

/// Whether `needle` occurs in `s` starting at index `at`.
pub fn occurs_at(s: &[char], needle: &[char], at: usize) -> (r: bool)
    ensures
        r == spec_occurs_at(s@, needle@, at as int),
{
    if at > s.len() || needle.len() > s.len() - at {
        return false;
    }
    let mut i: usize = 0;
    while i < needle.len()
        invariant
            at + needle@.len() <= s@.len(),
            s@.len() <= usize::MAX,
            i <= needle@.len(),
            forall|j: int| 0 <= j < i ==> s@[at + j] == needle@[j],
        decreases needle@.len() - i,
    {
        if s[at + i] != needle[i] {
            assert(s@.subrange(at as int, at + needle@.len())[i as int] != needle@[i as int]);
            return false;
        }
        i = i + 1;
    }
    assert(s@.subrange(at as int, at + needle@.len()) =~= needle@);
    true
}

/// Whether `needle` occurs anywhere in `s`.
pub fn contains_chars(s: &[char], needle: &[char]) -> (r: bool)
    ensures
        r == spec_contains(s@, needle@),
{
    if needle.len() > s.len() {
        assert forall|i: int| !spec_occurs_at(s@, needle@, i) by {}
        return false;
    }
    let limit = s.len() - needle.len();
    let mut at: usize = 0;
    while at <= limit
        invariant
            needle@.len() <= s@.len(),
            limit == s@.len() - needle@.len(),
            at <= limit,
            forall|j: int| 0 <= j < at ==> !spec_occurs_at(s@, needle@, j),
        decreases limit - at,
    {
        if occurs_at(s, needle, at) {
            return true;
        }
        if at == limit {
            assert forall|i: int| !spec_occurs_at(s@, needle@, i) by {
                if 0 <= i && i <= limit {
                    assert(i < at || i == at);
                }
            }
            return false;
        }
        at = at + 1;
    }
    false
}

/// Bytes that begin an encoded character or end the sequence split a valid
/// UTF-8 sequence cleanly; an ASCII byte is always such a character on its own.
pub proof fn lemma_ascii_byte_boundaries(bytes: Seq<u8>, k: int)
    requires
        valid_utf8(bytes),
        0 <= k < bytes.len(),
        bytes[k] < 0x80,
    ensures
        is_char_boundary(bytes, k),
        is_char_boundary(bytes, k + 1),
    decreases bytes.len(),
{
    is_char_boundary_iff_not_is_continuation_byte(bytes, k);
    let l = length_of_first_scalar(bytes);
    if k == 0 {
        assert(l == 1);
        assert(is_char_boundary(pop_first_scalar(bytes), 0));
    } else {
        assert(valid_first_scalar(bytes));
        assert(k >= l);
        let tail = pop_first_scalar(bytes);
        assert(tail[k - l] == bytes[k]);
        lemma_ascii_byte_boundaries(tail, k - l);
    }
}

/// The characters of a UTF-8 encoding, split at a character boundary, are
/// the characters of the two halves.
pub proof fn lemma_split_view(s: Seq<char>, i: int)
    requires
        is_char_boundary(encode_utf8(s), i),
    ensures
        decode_utf8(encode_utf8(s).subrange(0, i)) + decode_utf8(
            encode_utf8(s).subrange(i, encode_utf8(s).len() as int),
        ) == s,
        valid_utf8(encode_utf8(s).subrange(0, i)),
        valid_utf8(encode_utf8(s).subrange(i, encode_utf8(s).len() as int)),
{
    encode_utf8_valid_utf8(s);
    encode_utf8_decode_utf8(s);
    decode_utf8_split(encode_utf8(s), i);
    valid_utf8_split(encode_utf8(s), i);
}

/// Encoding distributes over concatenation.
pub proof fn lemma_encode_utf8_append(a: Seq<char>, b: Seq<char>)
    ensures
        encode_utf8(a + b) == encode_utf8(a) + encode_utf8(b),
    decreases a.len(),
{
    if a.len() == 0 {
        assert(a + b =~= b);
        assert(encode_utf8(a) + encode_utf8(b) =~= encode_utf8(b));
    } else {
        lemma_encode_utf8_append(a.drop_first(), b);
        assert((a + b).drop_first() =~= a.drop_first() + b);
        assert((a + b)[0] == a[0]);
        assert(encode_utf8(a + b) =~= encode_scalar(a[0] as u32) + encode_utf8(a.drop_first() + b));
        assert(encode_scalar(a[0] as u32) + (encode_utf8(a.drop_first()) + encode_utf8(b))
            =~= (encode_scalar(a[0] as u32) + encode_utf8(a.drop_first())) + encode_utf8(b));
    }
}

/// Builds a `String` from UTF-8 bytes (`String::from_utf8`), `None` when
/// the bytes are not valid UTF-8.
#[verifier::external_body]
pub(crate) fn string_from_utf8(bytes: Vec<u8>) -> (r: Option<String>)
    ensures
        r is Some <==> valid_utf8(bytes@),
        r matches Some(s) ==> s@ == decode_utf8(bytes@),
{
    String::from_utf8(bytes).ok()
}

/// How far past `from` the first occurrence of `needle` in `s` starts, if
/// there is one at or after `from`.
pub open spec fn find_from<T>(s: Seq<T>, needle: Seq<T>, from: int) -> Option<nat>
    decreases s.len() + 1 - from,
{
    if from < 0 || from + needle.len() > s.len() {
        None
    } else if spec_occurs_at(s, needle, from) {
        Some(0)
    } else {
        match find_from(s, needle, from + 1) {
            Some(k) => Some(k + 1),
            None => None,
        }
    }
}

/// The index of the first occurrence of `needle` in `s` at or after `from`.
pub fn find_chars_from(s: &[char], needle: &[char], from: usize) -> (r: Option<usize>)
    ensures
        match find_from(s@, needle@, from as int) {
            Some(k) => r == Some((from + k) as usize) && from + k + needle@.len() <= s@.len(),
            None => r is None,
        },
{
    if needle.len() == 0 {
        return if from <= s.len() {
            assert(s@.subrange(from as int, from as int) =~= needle@);
            Some(from)
        } else {
            None
        };
    }
    let mut i: usize = from;
    while i <= s.len() && needle.len() <= s.len() - i
        invariant
            from <= i,
            needle@.len() > 0,
            match find_from(s@, needle@, from as int) {
                Some(k) => from + k >= i && find_from(s@, needle@, i as int) == Some((from + k - i) as nat),
                None => find_from(s@, needle@, i as int) is None,
            },
        decreases s@.len() + 1 - i,
    {
        if occurs_at(s, needle, i) {
            return Some(i);
        }
        i = i + 1;
    }
    None
}

/// What `char::to_uppercase` yields for `c`.
pub uninterp spec fn spec_to_uppercase(c: char) -> Seq<char>;

/// The upper-case mapping of `c` (`char::to_uppercase`), one or more
/// characters. An ASCII lower-case letter maps to its capital and any other
/// ASCII character to itself; beyond ASCII the mapping is Unicode's, left
/// unstated here.
#[verifier::external_body]
pub(crate) fn to_uppercase(c: char) -> (r: String)
    ensures
        r@ == spec_to_uppercase(c),
        'a' <= c <= 'z' ==> r@ == seq![((c as u32) - 32) as char],
        (c as u32) < 0x80 && !('a' <= c <= 'z') ==> r@ == seq![c],
{
    c.to_uppercase().collect::<String>()
}

/// The decimal digit for `d < 10`.
pub open spec fn decimal_digit(d: nat) -> char {
    ((d + 48) as u32) as char
}

/// `n` in decimal without leading zeros (`{}` of an unsigned integer).
pub open spec fn decimal(n: nat) -> Seq<char>
    decreases n,
{
    if n < 10 {
        seq![decimal_digit(n)]
    } else {
        decimal(n / 10) + seq![decimal_digit(n % 10)]
    }
}

/// Appends `n` in decimal to `s`.
pub fn push_decimal(s: &mut String, n: usize)
    ensures
        final(s)@ == old(s)@ + decimal(n as nat),
    decreases n,
{
    if n >= 10 {
        push_decimal(s, n / 10);
    }
    let digit: u8 = (n % 10) as u8 + 48;
    push_char(s, digit as char);
    assert(final(s)@ =~= old(s)@ + decimal(n as nat));
}

/// `s` without its trailing white space (`str::trim_end`).
pub open spec fn spec_trim_end(s: Seq<char>) -> Seq<char>
    decreases s.len(),
{
    if s.len() > 0 && spec_is_whitespace(s.last()) {
        spec_trim_end(s.drop_last())
    } else {
        s
    }
}

/// `s` without its trailing white space.
pub fn trim_end_chars(s: &[char]) -> (r: Vec<char>)
    ensures
        r@ == spec_trim_end(s@),
{
    let mut end: usize = s.len();
    assert(s@.take(end as int) =~= s@);
    while end > 0 && is_whitespace(s[end - 1])
        invariant
            end <= s@.len(),
            spec_trim_end(s@) == spec_trim_end(s@.take(end as int)),
        decreases end,
    {
        assert(s@.take(end as int).drop_last() =~= s@.take(end - 1));
        end = end - 1;
    }
    let r = chars_between(s, 0, end);
    assert(r@ =~= s@.take(end as int));
    r
}

/// `x` without one trailing carriage return.
pub open spec fn strip_cr(x: Seq<char>) -> Seq<char> {
    if x.len() > 0 && x.last() == '\r' {
        x.drop_last()
    } else {
        x
    }
}

/// The lines of `s` as `str::lines` gives them: split at each `\n`, a
/// `\r` just before a `\n` dropped, and no empty line after a final line
/// ending.
pub open spec fn lines_of(s: Seq<char>) -> Seq<Seq<char>> {
    let p = split_on(s, '\n');
    let terminated = p.take(p.len() - 1).map_values(|x: Seq<char>| strip_cr(x));
    if p.last().len() == 0 {
        terminated
    } else {
        terminated.push(p.last())
    }
}

/// The lines of `stdout` (`str::lines`).
pub fn split_lines(stdout: &str) -> (r: Vec<String>)
    ensures
        r@.map_values(|x: String| x@) == lines_of(stdout@),
{
    let chars = str_chars(stdout);
    let pieces = split_chars(chars.as_slice(), '\n');
    let ghost p = split_on(stdout@, '\n');
    proof {
        lemma_split_on_nonempty(stdout@, '\n');
    }
    let n = pieces.len();
    let mut lines: Vec<String> = Vec::new();
    let mut i: usize = 0;
    while i + 1 < n
        invariant
            n == pieces@.len(),
            n == p.len(),
            n >= 1,
            p == split_on(stdout@, '\n'),
            forall|j: int| 0 <= j < n ==> #[trigger] pieces@[j]@ == p[j],
            i < n,
            lines@.map_values(|x: String| x@) == p.take(i as int).map_values(|x: Seq<char>| strip_cr(x)),
        decreases n - i,
    {
        let piece = pieces[i].as_slice();
        let len = piece.len();
        let line = if len > 0 && piece[len - 1] == '\r' {
            string_from_chars(chars_between(piece, 0, len - 1).as_slice())
        } else {
            string_from_chars(piece)
        };
        assert(line@ =~= strip_cr(p[i as int]));
        let ghost before = lines@.map_values(|x: String| x@);
        lines.push(line);
        assert(lines@.map_values(|x: String| x@) =~= before.push(line@));
        assert(p.take(i + 1).map_values(|x: Seq<char>| strip_cr(x)) =~= p.take(i as int).map_values(
            |x: Seq<char>| strip_cr(x),
        ).push(strip_cr(p[i as int])));
        i = i + 1;
    }
    let last = pieces[n - 1].as_slice();
    if last.len() > 0 {
        let ghost before = lines@.map_values(|x: String| x@);
        lines.push(string_from_chars(last));
        assert(lines@.map_values(|x: String| x@) =~= before.push(p.last()));
    }
    lines
}

/// The number of bytes `c` takes in UTF-8.
pub open spec fn utf8_len(c: char) -> nat {
    let u = c as u32;
    if u < 0x80 {
        1
    } else if u < 0x800 {
        2
    } else if u < 0x10000 {
        3
    } else {
        4
    }
}

/// The number of bytes `c` takes in UTF-8.
pub fn utf8_width(c: char) -> (n: usize)
    ensures
        n == utf8_len(c),
{
    let u = c as u32;
    if u < 0x80 {
        1
    } else if u < 0x800 {
        2
    } else if u < 0x10000 {
        3
    } else {
        4
    }
}

/// The number of bytes `s` takes in UTF-8.
pub open spec fn byte_len(s: Seq<char>) -> nat
    decreases s.len(),
{
    if s.len() == 0 {
        0
    } else {
        byte_len(s.drop_last()) + utf8_len(s.last())
    }
}

proof fn lemma_byte_len_front(s: Seq<char>)
    requires
        s.len() > 0,
    ensures
        byte_len(s) == utf8_len(s[0]) + byte_len(s.drop_first()),
    decreases s.len(),
{
    if s.len() > 1 {
        lemma_byte_len_front(s.drop_last());
        assert(s.drop_last().drop_first() =~= s.drop_first().drop_last());
        assert(s.drop_first().last() == s.last());
    } else {
        assert(s.drop_first() =~= Seq::<char>::empty());
        assert(s.drop_last() =~= Seq::<char>::empty());
    }
}

/// The UTF-8 length of text is the length of its encoding.
pub proof fn lemma_byte_len_encoding(s: Seq<char>)
    ensures
        byte_len(s) == encode_utf8(s).len(),
    decreases s.len(),
{
    if s.len() > 0 {
        lemma_byte_len_front(s);
        lemma_byte_len_encoding(s.drop_first());
        vstd::utf8::char_is_scalar(s[0]);
    }
}

/// The UTF-8 length of the text of a `str` fits in a `usize`.
pub fn byte_len_fits(s: &str) -> (n: usize)
    ensures
        n == byte_len(s@),
{
    let n = s.as_bytes().len();
    proof {
        lemma_byte_len_encoding(s@);
        assert(s.spec_bytes() == encode_utf8(s@));
    }
    n
}

/// A prefix of text takes no more bytes than the text.
pub proof fn lemma_byte_len_take(s: Seq<char>, k: int)
    requires
        0 <= k <= s.len(),
    ensures
        byte_len(s.take(k)) <= byte_len(s),
    decreases s.len() - k,
{
    if k < s.len() {
        lemma_byte_len_take(s, k + 1);
        assert(s.take(k + 1).drop_last() =~= s.take(k));
    } else {
        assert(s.take(k) =~= s);
    }
}

/// The UTF-8 length of joined text is the sum of the parts' lengths.
pub proof fn lemma_byte_len_concat(a: Seq<char>, b: Seq<char>)
    ensures
        byte_len(a + b) == byte_len(a) + byte_len(b),
    decreases b.len(),
{
    if b.len() > 0 {
        lemma_byte_len_concat(a, b.drop_last());
        assert((a + b).drop_last() =~= a + b.drop_last());
        assert((a + b).last() == b.last());
    } else {
        assert(a + b =~= a);
    }
}

} // verus!
