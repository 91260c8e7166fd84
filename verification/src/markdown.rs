//! The name of a Markdown section: its heading's text, without the `#`
//! markers, a closing `#` run, or the white space around them.

use crate::text::{is_whitespace, spec_is_whitespace, spec_trim_end, str_chars, string_from_chars, trim_end_chars};
use crate::syntax::{children_of, node_text, SyntaxNode, SyntaxTree};
use crate::text::chars_are;
use vstd::prelude::*;

verus! {

/// `s` without its trailing `#` characters.
pub open spec fn trim_hashes(s: Seq<char>) -> Seq<char>
    decreases s.len(),
{
    if s.len() > 0 && s.last() == '#' {
        trim_hashes(s.drop_last())
    } else {
        s
    }
}

/// `s` without its leading white space (`str::trim_start`).
pub open spec fn spec_trim_start(s: Seq<char>) -> Seq<char>
    decreases s.len(),
{
    if s.len() > 0 && spec_is_whitespace(s[0]) {
        spec_trim_start(s.drop_first())
    } else {
        s
    }
}

/// An ATX heading's text without its optional closing `#` run: the run is
/// dropped (with the white space before it) only when white space
/// precedes it, so a heading ending in `C#` keeps its `#`.
pub open spec fn spec_strip_closing_sequence(text: Seq<char>) -> Seq<char> {
    let without_hashes = trim_hashes(text);
    if without_hashes.len() == text.len() {
        text
    } else if without_hashes.len() > 0 && spec_is_whitespace(without_hashes.last()) {
        spec_trim_end(without_hashes)
    } else {
        text
    }
}

/// Drops an ATX heading's closing `#` run (see
/// [`spec_strip_closing_sequence`]).
pub fn strip_closing_sequence(text: &[char]) -> (r: Vec<char>)
    ensures
        r@ == spec_strip_closing_sequence(text@),
{
    let mut end: usize = text.len();
    assert(text@.take(end as int) =~= text@);
    while end > 0 && text[end - 1] == '#'
        invariant
            end <= text@.len(),
            trim_hashes(text@) == trim_hashes(text@.take(end as int)),
        decreases end,
    {
        assert(text@.take(end as int).drop_last() =~= text@.take(end - 1));
        end = end - 1;
    }
    let ghost without = text@.take(end as int);
    assert(trim_hashes(without) == without);
    if end == text.len() {
        return crate::text::chars_between(text, 0, end);
    }
    if end > 0 && is_whitespace(text[end - 1]) {
        let prefix = crate::text::chars_between(text, 0, end);
        trim_end_chars(prefix.as_slice())
    } else {
        crate::text::chars_between(text, 0, text.len())
    }
}

/// `s` without white space at either end (`str::trim`).
pub open spec fn spec_trim(s: Seq<char>) -> Seq<char> {
    spec_trim_end(spec_trim_start(s))
}

/// A section's name from its heading text: trimmed, its closing `#` run
/// dropped, and `None` when nothing is left.
pub open spec fn spec_heading_name(text: Seq<char>) -> Option<Seq<char>> {
    let name = spec_strip_closing_sequence(spec_trim(text));
    if name.len() == 0 {
        None
    } else {
        Some(name)
    }
}

/// A section's name from its heading's inline text (see
/// [`spec_heading_name`]): `## Test strategy ##` is named `Test strategy`.
pub fn heading_name_from_text(text: &str) -> (r: Option<String>)
    ensures
        match spec_heading_name(text@) {
            Some(n) => r matches Some(s) && s@ == n,
            None => r is None,
        },
{
    let chars = str_chars(text);
    let mut start: usize = 0;
    assert(chars@.skip(0) =~= chars@);
    while start < chars.len() && is_whitespace(chars[start])
        invariant
            chars@ == text@,
            start <= chars@.len(),
            spec_trim_start(text@) == spec_trim_start(chars@.skip(start as int)),
        decreases chars@.len() - start,
    {
        assert(chars@.skip(start as int).drop_first() =~= chars@.skip(start + 1));
        start = start + 1;
    }
    let rest = crate::text::chars_between(chars.as_slice(), start, chars.len());
    assert(rest@ =~= chars@.skip(start as int));
    assert(spec_trim_start(rest@) == rest@) by {
        if rest@.len() > 0 {
            assert(rest@[0] == chars@[start as int]);
        }
    }
    let trimmed = trim_end_chars(rest.as_slice());
    let name = strip_closing_sequence(trimmed.as_slice());
    if name.len() == 0 {
        None
    } else {
        Some(string_from_chars(name.as_slice()))
    }
}

/// Whether a node kind is a heading.
pub open spec fn is_heading_kind(kind: Seq<char>) -> bool {
    kind == "atx_heading"@ || kind == "setext_heading"@
}

/// The first named node of `cands` that is a heading.
pub open spec fn first_named_heading(nodes: Seq<SyntaxNode>, cands: Seq<int>) -> Option<int>
    decreases cands.len(),
{
    if cands.len() == 0 {
        None
    } else if nodes[cands[0]].is_named && is_heading_kind(nodes[cands[0]].kind@) {
        Some(cands[0])
    } else {
        first_named_heading(nodes, cands.drop_first())
    }
}

/// The heading a captured definition is named by: the node itself when it
/// is a heading, otherwise the first heading among its named children
/// (none for a document's leading section).
pub open spec fn spec_heading_of(nodes: Seq<SyntaxNode>, i: int) -> Option<int> {
    if is_heading_kind(nodes[i].kind@) {
        Some(i)
    } else {
        first_named_heading(nodes, children_of(nodes, i))
    }
}

/// The first named node of `cands` of kind `kind`.
pub open spec fn first_named_of_kind(nodes: Seq<SyntaxNode>, cands: Seq<int>, kind: Seq<char>) -> Option<int>
    decreases cands.len(),
{
    if cands.len() == 0 {
        None
    } else if nodes[cands[0]].is_named && nodes[cands[0]].kind@ == kind {
        Some(cands[0])
    } else {
        first_named_of_kind(nodes, cands.drop_first(), kind)
    }
}

/// The `inline` node carrying a heading's text, looked for among the named
/// nodes `cands` in order: an `inline` node itself, or the first named
/// `inline` child of a `paragraph`.
pub open spec fn inline_among(nodes: Seq<SyntaxNode>, cands: Seq<int>) -> Option<int>
    decreases cands.len(),
{
    if cands.len() == 0 {
        None
    } else {
        let c = cands[0];
        if nodes[c].is_named && nodes[c].kind@ == "inline"@ {
            Some(c)
        } else if nodes[c].is_named && nodes[c].kind@ == "paragraph"@ && first_named_of_kind(
            nodes,
            children_of(nodes, c),
            "inline"@,
        ) is Some {
            first_named_of_kind(nodes, children_of(nodes, c), "inline"@)
        } else {
            inline_among(nodes, cands.drop_first())
        }
    }
}

/// The text of heading `h`'s `inline` node, when it has one and its bytes
/// are valid UTF-8.
pub open spec fn spec_heading_inline_text(nodes: Seq<SyntaxNode>, source: Seq<u8>, h: int) -> Option<Seq<char>> {
    match inline_among(nodes, children_of(nodes, h)) {
        Some(c) => node_text(nodes, source, c),
        None => None,
    }
}

/// A Markdown definition's name: its heading's text without markers and
/// surrounding white space; `None` without a heading or with an empty one.
pub open spec fn spec_heading_name_of(nodes: Seq<SyntaxNode>, source: Seq<u8>, i: int) -> Option<Seq<char>> {
    match spec_heading_of(nodes, i) {
        Some(h) => match spec_heading_inline_text(nodes, source, h) {
            Some(t) => spec_heading_name(t),
            None => None,
        },
        None => None,
    }
}

/// The first of `cands` starting at or after byte `b`.
pub open spec fn first_starting_from(nodes: Seq<SyntaxNode>, cands: Seq<int>, b: int) -> Option<int>
    decreases cands.len(),
{
    if cands.len() == 0 {
        None
    } else if nodes[cands[0]].start_byte >= b {
        Some(cands[0])
    } else {
        first_starting_from(nodes, cands.drop_first(), b)
    }
}

/// Where a section's body starts: its first child starting at or after the
/// end of its heading; `None` for a heading-only section or one with no
/// heading.
pub open spec fn spec_section_body_start(nodes: Seq<SyntaxNode>, section: int) -> Option<int> {
    match spec_heading_of(nodes, section) {
        Some(h) => first_starting_from(nodes, children_of(nodes, section), nodes[h].end_byte as int),
        None => None,
    }
}

fn kind_is(tree: &SyntaxTree, i: usize, kind: &str) -> (r: bool)
    requires
        i < tree.nodes@.len(),
    ensures
        r == (tree.nodes@[i as int].kind@ == kind@),
{
    chars_are(str_chars(tree.nodes[i].kind.as_str()).as_slice(), kind)
}

/// Whether node `i` is a heading.
pub fn is_heading(tree: &SyntaxTree, i: usize) -> (r: bool)
    requires
        i < tree.nodes@.len(),
    ensures
        r == is_heading_kind(tree.nodes@[i as int].kind@),
{
    kind_is(tree, i, "atx_heading") || kind_is(tree, i, "setext_heading")
}

fn first_named_of(tree: &SyntaxTree, cands: &Vec<usize>, kind: &str) -> (r: Option<usize>)
    requires
        forall|m: int| 0 <= m < cands@.len() ==> (#[trigger] cands@[m]) < tree.nodes@.len(),
    ensures
        match first_named_of_kind(tree.nodes@, cands@.map_values(|c: usize| c as int), kind@) {
            Some(c) => r matches Some(x) && x as int == c,
            None => r is None,
        },
        r matches Some(x) ==> x < tree.nodes@.len(),
{
    let ghost all = cands@.map_values(|c: usize| c as int);
    let mut k: usize = 0;
    assert(all.skip(0) =~= all);
    while k < cands.len()
        invariant
            all == cands@.map_values(|c: usize| c as int),
            forall|m: int| 0 <= m < cands@.len() ==> (#[trigger] cands@[m]) < tree.nodes@.len(),
            k <= cands@.len(),
            first_named_of_kind(tree.nodes@, all, kind@) == first_named_of_kind(tree.nodes@, all.skip(k as int), kind@),
        decreases cands@.len() - k,
    {
        let c = cands[k];
        assert(all.skip(k as int)[0] == c as int);
        assert(all.skip(k as int).drop_first() =~= all.skip(k + 1));
        if tree.nodes[c].is_named && kind_is(tree, c, kind) {
            return Some(c);
        }
        k = k + 1;
    }
    None
}

/// The heading a captured definition is named by (see
/// [`spec_heading_of`]).
pub fn heading_of(tree: &SyntaxTree, i: usize) -> (r: Option<usize>)
    requires
        i < tree.nodes@.len(),
    ensures
        match spec_heading_of(tree.nodes@, i as int) {
            Some(h) => r matches Some(x) && x as int == h,
            None => r is None,
        },
        r matches Some(x) ==> x < tree.nodes@.len(),
{
    if is_heading(tree, i) {
        return Some(i);
    }
    let kids = tree.children(i);
    let ghost all = kids@.map_values(|c: usize| c as int);
    let mut k: usize = 0;
    assert(all.skip(0) =~= all);
    while k < kids.len()
        invariant
            all == kids@.map_values(|c: usize| c as int),
            all == children_of(tree.nodes@, i as int),
            !is_heading_kind(tree.nodes@[i as int].kind@),
            forall|m: int| 0 <= m < kids@.len() ==> (#[trigger] kids@[m]) < tree.nodes@.len(),
            k <= kids@.len(),
            first_named_heading(tree.nodes@, all) == first_named_heading(tree.nodes@, all.skip(k as int)),
        decreases kids@.len() - k,
    {
        let c = kids[k];
        assert(all.skip(k as int)[0] == c as int);
        assert(all.skip(k as int).drop_first() =~= all.skip(k + 1));
        if tree.nodes[c].is_named && is_heading(tree, c) {
            assert(first_named_heading(tree.nodes@, all.skip(k as int)) == Some(c as int));
            return Some(c);
        }
        k = k + 1;
    }
    None
}

/// The text of a heading's `inline` node (see
/// [`spec_heading_inline_text`]).
pub fn heading_inline_text(tree: &SyntaxTree, heading: usize, source: &[u8]) -> (r: Option<String>)
    requires
        heading < tree.nodes@.len(),
        tree.spans_within(source@),
    ensures
        match spec_heading_inline_text(tree.nodes@, source@, heading as int) {
            Some(t) => r matches Some(s) && s@ == t,
            None => r is None,
        },
{
    let kids = tree.children(heading);
    let ghost all = kids@.map_values(|c: usize| c as int);
    let mut k: usize = 0;
    assert(all.skip(0) =~= all);
    while k < kids.len()
        invariant
            all == kids@.map_values(|c: usize| c as int),
            all == children_of(tree.nodes@, heading as int),
            forall|m: int| 0 <= m < kids@.len() ==> (#[trigger] kids@[m]) < tree.nodes@.len(),
            k <= kids@.len(),
            tree.spans_within(source@),
            inline_among(tree.nodes@, all) == inline_among(tree.nodes@, all.skip(k as int)),
        decreases kids@.len() - k,
    {
        let c = kids[k];
        assert(all.skip(k as int)[0] == c as int);
        assert(all.skip(k as int).drop_first() =~= all.skip(k + 1));
        if tree.nodes[c].is_named {
            if kind_is(tree, c, "inline") {
                return tree.text_of(source, c);
            }
            if kind_is(tree, c, "paragraph") {
                let grandchildren = tree.children(c);
                match first_named_of(tree, &grandchildren, "inline") {
                    Some(g) => {
                        return tree.text_of(source, g);
                    },
                    None => {},
                }
            }
        }
        k = k + 1;
    }
    None
}

/// A Markdown definition's name (see [`spec_heading_name_of`]): `##
/// Test strategy` is named `Test strategy`.
pub fn heading_name(tree: &SyntaxTree, i: usize, source: &[u8]) -> (r: Option<String>)
    requires
        i < tree.nodes@.len(),
        tree.spans_within(source@),
    ensures
        match spec_heading_name_of(tree.nodes@, source@, i as int) {
            Some(n) => r matches Some(s) && s@ == n,
            None => r is None,
        },
{
    let heading = match heading_of(tree, i) {
        Some(h) => h,
        None => {
            return None;
        },
    };
    match heading_inline_text(tree, heading, source) {
        Some(text) => heading_name_from_text(text.as_str()),
        None => None,
    }
}

/// Where a section's body starts (see [`spec_section_body_start`]).
pub fn section_body_start(tree: &SyntaxTree, section: usize) -> (r: Option<usize>)
    requires
        section < tree.nodes@.len(),
    ensures
        match spec_section_body_start(tree.nodes@, section as int) {
            Some(c) => r matches Some(x) && x as int == c,
            None => r is None,
        },
{
    let heading = match heading_of(tree, section) {
        Some(h) => h,
        None => {
            return None;
        },
    };
    let heading_end = tree.nodes[heading].end_byte;
    let kids = tree.children(section);
    let ghost all = kids@.map_values(|c: usize| c as int);
    let mut k: usize = 0;
    assert(all.skip(0) =~= all);
    while k < kids.len()
        invariant
            all == kids@.map_values(|c: usize| c as int),
            all == children_of(tree.nodes@, section as int),
            heading < tree.nodes@.len(),
            spec_heading_of(tree.nodes@, section as int) == Some(heading as int),
            heading_end == tree.nodes@[heading as int].end_byte,
            forall|m: int| 0 <= m < kids@.len() ==> (#[trigger] kids@[m]) < tree.nodes@.len(),
            k <= kids@.len(),
            first_starting_from(tree.nodes@, all, heading_end as int) == first_starting_from(
                tree.nodes@,
                all.skip(k as int),
                heading_end as int,
            ),
        decreases kids@.len() - k,
    {
        let c = kids[k];
        assert(all.skip(k as int)[0] == c as int);
        assert(all.skip(k as int).drop_first() =~= all.skip(k + 1));
        if tree.nodes[c].start_byte >= heading_end {
            assert(first_starting_from(tree.nodes@, all.skip(k as int), heading_end as int) == Some(c as int));
            return Some(c);
        }
        k = k + 1;
    }
    None
}

} // verus!
