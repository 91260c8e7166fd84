//! An upper bound on how much text one signature can carry.
//!
//! A signature is the widest channel the change under review has into a
//! report meant for a model: a parameter default can hold arbitrary text.
//! Bounding the length does not make that text mean less, but it caps how
//! much of it there can be.

use crate::text::{lemma_encode_utf8_append, push_char};
use vstd::prelude::*;
use vstd::string::*;
use vstd::utf8::*;

verus! {

/// Byte length above which a signature is truncated: about three times
/// the longest real signature measured, so genuine declarations survive
/// whole.
pub const MAX_SIGNATURE_BYTES: usize = 2000;

/// The marker left in place of what was cut, phrased in the tool's own
/// voice so a reader can tell it apart from quoted text.
pub const TRUNCATION_MARKER: &'static str = "… truncated by rinkaku";

/// The last character boundary of `b` at or below `i`.
pub open spec fn last_boundary_at_most(b: Seq<u8>, i: int) -> int
    decreases i,
{
    if i <= 0 {
        0
    } else if is_char_boundary(b, i) {
        i
    } else {
        last_boundary_at_most(b, i - 1)
    }
}

/// What a bounded signature holds: the signature itself when its UTF-8
/// encoding is within the bound; otherwise its longest prefix that ends on
/// a character boundary at or below the bound, a newline, and the marker.
pub open spec fn spec_bound_signature(s: Seq<char>, marker: Seq<char>) -> Seq<char> {
    let b = encode_utf8(s);
    if b.len() <= MAX_SIGNATURE_BYTES {
        s
    } else {
        decode_utf8(b.subrange(0, last_boundary_at_most(b, MAX_SIGNATURE_BYTES as int))) + seq![
            '\n',
        ] + marker
    }
}

proof fn lemma_last_boundary(b: Seq<u8>, i: int)
    requires
        valid_utf8(b),
        0 <= i <= b.len(),
    ensures
        0 <= last_boundary_at_most(b, i) <= i,
        is_char_boundary(b, last_boundary_at_most(b, i)),
    decreases i,
{
    is_char_boundary_start_end_of_seq(b);
    if i > 0 && !is_char_boundary(b, i) {
        lemma_last_boundary(b, i - 1);
    }
}

/// Truncates `signature` to [`MAX_SIGNATURE_BYTES`] bytes, appending
/// [`TRUNCATION_MARKER`] on its own line when anything was cut. The cut
/// lands on a character boundary, so multi-byte text is never split.
pub fn bound_signature(signature: String) -> (r: String)
    ensures
        r@ == spec_bound_signature(signature@, TRUNCATION_MARKER@),
        encode_utf8(r@).len() <= MAX_SIGNATURE_BYTES + 1 + encode_utf8(TRUNCATION_MARKER@).len(),
{
    let text = signature.as_str();
    assert(text.spec_bytes() == encode_utf8(signature@));
    if text.as_bytes().len() <= MAX_SIGNATURE_BYTES {
        return signature;
    }
    let ghost b = encode_utf8(signature@);
    proof {
        encode_utf8_valid_utf8(signature@);
        lemma_last_boundary(b, MAX_SIGNATURE_BYTES as int);
    }
    let mut cut: usize = MAX_SIGNATURE_BYTES;
    while cut > 0 && !text.is_char_boundary(cut)
        invariant
            cut <= MAX_SIGNATURE_BYTES,
            b == text.spec_bytes(),
            b.len() > MAX_SIGNATURE_BYTES,
            valid_utf8(b),
            last_boundary_at_most(b, cut as int) == last_boundary_at_most(
                b,
                MAX_SIGNATURE_BYTES as int,
            ),
        decreases cut,
    {
        cut = cut - 1;
    }
    assert(last_boundary_at_most(b, cut as int) == cut as int);
    let (head, _tail) = text.split_at(cut);
    let mut out = head.to_owned();
    proof {
        valid_utf8_split(b, cut as int);
        decode_utf8_encode_utf8(b.subrange(0, cut as int));
        encode_utf8_decode_utf8(head@);
    }
    push_char(&mut out, '\n');
    out.append(TRUNCATION_MARKER);
    proof {
        lemma_encode_utf8_append(head@, seq!['\n']);
        lemma_encode_utf8_append(head@ + seq!['\n'], TRUNCATION_MARKER@);
        assert(encode_utf8(seq!['\n']).len() == 1) by {
            reveal_with_fuel(encode_utf8, 2);
        }
    }
    out
}

} // verus!
