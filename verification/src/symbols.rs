//! Symbol extraction: the definitions a language's definition query
//! captures in a file, each read off the file's syntax tree into an
//! [`ExtractedSymbol`] with its kind, name, signature, line range,
//! container and the names it references.

use crate::definition::{
    definition_name, find_container, has_ancestor, is_descendant_of, spec_definition_name, spec_find_container,
    spec_symbol_kind, symbol_kind,
};
use crate::deps::opt_view;
use crate::extract::{overlaps_any, spec_overlaps_any, ExtractedSymbol, LineRange, SymbolKind};
use crate::language::vue::{mask_non_script, spec_mask_non_script, strings_view};
use crate::markdown::{heading_name, spec_heading_name_of};
use crate::signature_slice::{
    signature_ranges, signature_removal_ranges, slice_signature, sort_by_start, sorted_by_start,
    spec_slice_signature, walk_fits, walk_in_bounds,
};
use crate::syntax::{children_of, first_with_field, node_text, capture_rows, query_captures, parsed_nodes, node_rows, run_query, CaptureRow, Grammar, SyntaxNode, SyntaxTree};
use crate::text::{chars_are, chars_eq, str_chars, string_from_utf8};
use vstd::prelude::*;
use vstd::utf8::{decode_utf8, encode_utf8, valid_utf8};

verus! {

/// The first of the first `k` nodes with byte span `start..end` and kind
/// `kind`.
pub open spec fn first_node_like(nodes: Seq<SyntaxNode>, start: usize, end: usize, kind: Seq<char>, k: int) -> Option<usize>
    decreases k,
{
    if k <= 0 {
        None
    } else {
        match first_node_like(nodes, start, end, kind, k - 1) {
            Some(j) => Some(j),
            None => if nodes[k - 1].start_byte == start && nodes[k - 1].end_byte == end && nodes[k - 1].kind@ == kind {
                Some((k - 1) as usize)
            } else {
                None
            },
        }
    }
}

/// The node a capture captured: the first node, in document order, with
/// the capture's span and kind.
pub open spec fn captured_node(nodes: Seq<SyntaxNode>, c: CaptureRow) -> Option<usize> {
    first_node_like(nodes, c.1, c.2, c.3, nodes.len() as int)
}

/// The nodes the captures named `definition` capture, in order.
pub open spec fn definition_nodes(nodes: Seq<SyntaxNode>, caps: Seq<CaptureRow>) -> Seq<usize>
    decreases caps.len(),
{
    if caps.len() == 0 {
        Seq::empty()
    } else {
        let prev = definition_nodes(nodes, caps.drop_last());
        if caps.last().0 == "definition"@ {
            match captured_node(nodes, caps.last()) {
                Some(d) => prev.push(d),
                None => prev,
            }
        } else {
            prev
        }
    }
}

/// Whether a capture name marks a bare reference: a call or a type.
pub open spec fn is_bare_reference(name: Seq<char>) -> bool {
    name == "reference.call"@ || name == "reference.type"@
}

/// Whether a capture name marks a reference through a receiver or a
/// method specification.
pub open spec fn is_method_reference(name: Seq<char>) -> bool {
    name == "reference.method"@ || name == "reference.methodspec"@
}

/// The text of bytes `start..end` of `source`, when they lie inside it
/// and are valid UTF-8.
pub open spec fn span_text(source: Seq<u8>, start: int, end: int) -> Option<Seq<char>> {
    if 0 <= start <= end <= source.len() && valid_utf8(source.subrange(start, end)) {
        Some(decode_utf8(source.subrange(start, end)))
    } else {
        None
    }
}

/// `names` with `x` added at the end unless it is already there.
pub open spec fn push_new(names: Seq<Seq<char>>, x: Seq<char>) -> Seq<Seq<char>> {
    if names.contains(x) {
        names
    } else {
        names.push(x)
    }
}

/// The texts of the reference captures of one class (bare ones, or those
/// through a receiver when `method`) lying inside bytes `lo..hi`, each
/// once, in the order first captured.
pub open spec fn referenced_texts(source: Seq<u8>, caps: Seq<CaptureRow>, lo: int, hi: int, method: bool) -> Seq<Seq<char>>
    decreases caps.len(),
{
    if caps.len() == 0 {
        Seq::empty()
    } else {
        let prev = referenced_texts(source, caps.drop_last(), lo, hi, method);
        let c = caps.last();
        let wanted = if method {
            is_method_reference(c.0)
        } else {
            is_bare_reference(c.0)
        };
        if wanted && lo <= c.1 && c.2 <= hi {
            match span_text(source, c.1 as int, c.2 as int) {
                Some(t) => push_new(prev, t),
                None => prev,
            }
        } else {
            prev
        }
    }
}

/// The first node with byte span `start..end` and kind `kind` (see
/// [`captured_node`]).
pub fn find_captured_node(tree: &SyntaxTree, start: usize, end: usize, kind: &str) -> (r: Option<usize>)
    ensures
        r == first_node_like(tree.nodes@, start, end, kind@, tree.nodes@.len() as int),
{
    let wanted = str_chars(kind);
    let mut i: usize = 0;
    while i < tree.nodes.len()
        invariant
            i <= tree.nodes@.len(),
            wanted@ == kind@,
            first_node_like(tree.nodes@, start, end, kind@, i as int) is None,
        decreases tree.nodes@.len() - i,
    {
        let node = &tree.nodes[i];
        if node.start_byte == start && node.end_byte == end && chars_eq(
            str_chars(node.kind.as_str()).as_slice(),
            wanted.as_slice(),
        ) {
            assert(first_node_like(tree.nodes@, start, end, kind@, i + 1) == Some(i));
            proof {
                lemma_first_node_like_stable(tree.nodes@, start, end, kind@, i + 1, tree.nodes@.len() as int);
            }
            return Some(i);
        }
        i = i + 1;
    }
    None
}

proof fn lemma_first_node_like_stable(nodes: Seq<SyntaxNode>, start: usize, end: usize, kind: Seq<char>, k: int, m: int)
    requires
        k <= m,
        first_node_like(nodes, start, end, kind, k) is Some,
    ensures
        first_node_like(nodes, start, end, kind, m) == first_node_like(nodes, start, end, kind, k),
    decreases m - k,
{
    if k < m {
        lemma_first_node_like_stable(nodes, start, end, kind, k, m - 1);
    }
}

proof fn lemma_first_node_like_bound(nodes: Seq<SyntaxNode>, start: usize, end: usize, kind: Seq<char>, k: int)
    requires
        k <= nodes.len(),
    ensures
        first_node_like(nodes, start, end, kind, k) matches Some(j) ==> j < k,
    decreases k,
{
    if k > 0 {
        lemma_first_node_like_bound(nodes, start, end, kind, k - 1);
    }
}

/// The nodes the `definition` captures of `caps` capture (see
/// [`definition_nodes`]).
pub fn definition_nodes_of(tree: &SyntaxTree, caps: &[(String, usize, usize, String)]) -> (r: Vec<usize>)
    ensures
        r@ == definition_nodes(tree.nodes@, capture_seq(caps@)),
        forall|k: int| 0 <= k < r@.len() ==> #[trigger] r@[k] < tree.nodes@.len(),
{
    let mut r: Vec<usize> = Vec::new();
    let mut i: usize = 0;
    while i < caps.len()
        invariant
            i <= caps@.len(),
            r@ == definition_nodes(tree.nodes@, capture_seq(caps@).take(i as int)),
            forall|k: int| 0 <= k < r@.len() ==> #[trigger] r@[k] < tree.nodes@.len(),
        decreases caps@.len() - i,
    {
        let ghost rows = capture_seq(caps@);
        assert(rows.take(i + 1).drop_last() =~= rows.take(i as int));
        assert(rows.take(i + 1).last() == rows[i as int]);
        let c = &caps[i];
        if chars_are(str_chars(c.0.as_str()).as_slice(), "definition") {
            match find_captured_node(tree, c.1, c.2, c.3.as_str()) {
                Some(d) => {
                    proof {
                        lemma_first_node_like_bound(tree.nodes@, c.1, c.2, c.3@, tree.nodes@.len() as int);
                    }
                    r.push(d);
                },
                None => {},
            }
        }
        i = i + 1;
    }
    assert(capture_seq(caps@).take(i as int) =~= capture_seq(caps@));
    r
}

/// Capture tuples as plain values.
pub open spec fn capture_seq(caps: Seq<(String, usize, usize, String)>) -> Seq<CaptureRow> {
    caps.map_values(|c: (String, usize, usize, String)| (c.0@, c.1, c.2, c.3@))
}

/// The text of bytes `start..end` of `source` (see [`span_text`]).
pub fn text_of_span(source: &[u8], start: usize, end: usize) -> (r: Option<String>)
    ensures
        match span_text(source@, start as int, end as int) {
            Some(t) => r matches Some(s) && s@ == t,
            None => r is None,
        },
{
    if !(start <= end && end <= source.len()) {
        return None;
    }
    let mut bytes: Vec<u8> = Vec::new();
    let mut k: usize = start;
    while k < end
        invariant
            start <= k <= end <= source@.len(),
            bytes@ == source@.subrange(start as int, k as int),
        decreases end - k,
    {
        bytes.push(source[k]);
        assert(source@.subrange(start as int, k + 1) =~= source@.subrange(start as int, k as int).push(source@[k as int]));
        k = k + 1;
    }
    string_from_utf8(bytes)
}

/// Whether `names` holds `name`.
fn holds_name(names: &Vec<String>, name: &String) -> (r: bool)
    ensures
        r == strings_view(names@).contains(name@),
{
    let wanted = str_chars(name.as_str());
    let mut i: usize = 0;
    while i < names.len()
        invariant
            i <= names@.len(),
            wanted@ == name@,
            forall|k: int| 0 <= k < i ==> strings_view(names@)[k] != name@,
        decreases names@.len() - i,
    {
        if chars_eq(str_chars(names[i].as_str()).as_slice(), wanted.as_slice()) {
            assert(strings_view(names@)[i as int] == name@);
            return true;
        }
        i = i + 1;
    }
    false
}

/// The names referenced inside bytes `lo..hi` (see [`referenced_texts`]).
pub fn referenced_names_in(source: &[u8], caps: &[(String, usize, usize, String)], lo: usize, hi: usize, method: bool) -> (r: Vec<String>)
    ensures
        strings_view(r@) == referenced_texts(source@, capture_seq(caps@), lo as int, hi as int, method),
{
    let mut r: Vec<String> = Vec::new();
    let mut i: usize = 0;
    while i < caps.len()
        invariant
            i <= caps@.len(),
            strings_view(r@) == referenced_texts(source@, capture_seq(caps@).take(i as int), lo as int, hi as int, method),
        decreases caps@.len() - i,
    {
        let ghost rows = capture_seq(caps@);
        assert(rows.take(i + 1).drop_last() =~= rows.take(i as int));
        assert(rows.take(i + 1).last() == rows[i as int]);
        let c = &caps[i];
        let name = str_chars(c.0.as_str());
        let wanted = if method {
            chars_are(name.as_slice(), "reference.method") || chars_are(name.as_slice(), "reference.methodspec")
        } else {
            chars_are(name.as_slice(), "reference.call") || chars_are(name.as_slice(), "reference.type")
        };
        if wanted && lo <= c.1 && c.2 <= hi {
            match text_of_span(source, c.1, c.2) {
                Some(t) => {
                    if !holds_name(&r, &t) {
                        let ghost before = r@;
                        r.push(t);
                        assert(strings_view(r@) =~= strings_view(before).push(t@));
                    }
                },
                None => {},
            }
        }
        i = i + 1;
    }
    assert(capture_seq(caps@).take(i as int) =~= capture_seq(caps@));
    r
}


/// The text of the child of `d` under field `name`.
pub open spec fn field_text(nodes: Seq<SyntaxNode>, source: Seq<u8>, d: int, name: Seq<char>) -> Option<Seq<char>> {
    match first_with_field(nodes, children_of(nodes, d), name) {
        Some(c) => node_text(nodes, source, c),
        None => None,
    }
}

/// The first of the nodes `cands` of kind `kind`.
pub open spec fn first_of_kind(nodes: Seq<SyntaxNode>, cands: Seq<int>, kind: Seq<char>) -> Option<int>
    decreases cands.len(),
{
    if cands.len() == 0 {
        None
    } else if nodes[cands[0]].kind@ == kind {
        Some(cands[0])
    } else {
        first_of_kind(nodes, cands.drop_first(), kind)
    }
}

/// Whether definition `d` declares part of a component's interface: a
/// `define*` macro call, a `props`/`emits` option, an exported `let`, or a
/// declarator whose value is a call (the `$props()` rune).
pub open spec fn is_component_api(nodes: Seq<SyntaxNode>, d: int) -> bool {
    let k = nodes[d].kind@;
    ||| k == "call_expression"@
    ||| k == "pair"@
    ||| k == "export_statement"@
    ||| (k == "variable_declarator"@ && match first_with_field(nodes, children_of(nodes, d), "value"@) {
        Some(v) => nodes[v].kind@ == "call_expression"@,
        None => false,
    })
}

/// An ASCII upper-case letter in lower case; any other character as it is.
pub open spec fn lower_initial(c: char) -> char {
    if 'A' <= c && c <= 'Z' {
        crate::language::vue::ascii_lower(c)
    } else {
        c
    }
}

/// A `define*` macro's interface name: the macro's name without `define`,
/// its first letter in lower case (`defineProps` is `props`).
pub open spec fn macro_api_name(t: Seq<char>) -> Seq<char> {
    if t.len() > 6 && t.take(6) == "define"@ {
        seq![lower_initial(t[6])] + t.skip(7)
    } else {
        t
    }
}

/// The name of component-interface definition `d`: a macro's interface
/// name, an option's key, the first variable an exported `let` declares,
/// or `props` for the `$props()` rune.
pub open spec fn component_api_name(nodes: Seq<SyntaxNode>, source: Seq<u8>, d: int) -> Option<Seq<char>> {
    let k = nodes[d].kind@;
    if k == "call_expression"@ {
        match field_text(nodes, source, d, "function"@) {
            Some(t) => Some(macro_api_name(t)),
            None => None,
        }
    } else if k == "pair"@ {
        field_text(nodes, source, d, "key"@)
    } else if k == "export_statement"@ {
        match first_with_field(nodes, children_of(nodes, d), "declaration"@) {
            Some(decl) => match first_of_kind(nodes, children_of(nodes, decl), "variable_declarator"@) {
                Some(v) => field_text(nodes, source, v, "name"@),
                None => None,
            },
            None => None,
        }
    } else {
        Some("props"@)
    }
}

/// The text of the child of `d` under field `name` (see [`field_text`]).
fn field_text_of(tree: &SyntaxTree, source: &[u8], d: usize, name: &str) -> (r: Option<String>)
    requires
        tree.spans_within(source@),
        d < tree.nodes@.len(),
    ensures
        match field_text(tree.nodes@, source@, d as int, name@) {
            Some(t) => r matches Some(s) && s@ == t,
            None => r is None,
        },
{
    match tree.child_by_field_name(d, name) {
        Some(c) => tree.text_of(source, c),
        None => None,
    }
}

/// The first child of `d` of kind `kind` (see [`first_of_kind`]).
fn first_child_of_kind(tree: &SyntaxTree, d: usize, kind: &str) -> (r: Option<usize>)
    ensures
        match first_of_kind(tree.nodes@, children_of(tree.nodes@, d as int), kind@) {
            Some(c) => r matches Some(x) && x as int == c,
            None => r is None,
        },
        r matches Some(x) ==> x < tree.nodes@.len(),
{
    let kids = tree.children(d);
    let ghost all = children_of(tree.nodes@, d as int);
    let wanted = str_chars(kind);
    let mut k: usize = 0;
    assert(all.skip(0) =~= all);
    while k < kids.len()
        invariant
            all == children_of(tree.nodes@, d as int),
            kids@.map_values(|c: usize| c as int) == all,
            forall|m: int| 0 <= m < kids@.len() ==> (#[trigger] kids@[m]) < tree.nodes@.len(),
            wanted@ == kind@,
            k <= kids@.len(),
            first_of_kind(tree.nodes@, all, kind@) == first_of_kind(tree.nodes@, all.skip(k as int), kind@),
        decreases kids@.len() - k,
    {
        let c = kids[k];
        assert(all.skip(k as int)[0] == c as int);
        if chars_eq(str_chars(tree.nodes[c].kind.as_str()).as_slice(), wanted.as_slice()) {
            return Some(c);
        }
        assert(all.skip(k as int).drop_first() =~= all.skip(k + 1));
        k = k + 1;
    }
    None
}

/// Whether definition `d` declares part of a component's interface (see
/// [`is_component_api`]).
fn component_api_check(tree: &SyntaxTree, d: usize) -> (r: bool)
    requires
        d < tree.nodes@.len(),
    ensures
        r == is_component_api(tree.nodes@, d as int),
{
    let kind = str_chars(tree.nodes[d].kind.as_str());
    let k = kind.as_slice();
    if chars_are(k, "call_expression") || chars_are(k, "pair") || chars_are(k, "export_statement") {
        return true;
    }
    if !chars_are(k, "variable_declarator") {
        return false;
    }
    match tree.child_by_field_name(d, "value") {
        Some(v) => chars_are(str_chars(tree.nodes[v].kind.as_str()).as_slice(), "call_expression"),
        None => false,
    }
}

/// The interface name of component-interface definition `d` (see
/// [`component_api_name`]).
fn component_api_name_of(tree: &SyntaxTree, source: &[u8], d: usize) -> (r: Option<String>)
    requires
        tree.spans_within(source@),
        d < tree.nodes@.len(),
    ensures
        match component_api_name(tree.nodes@, source@, d as int) {
            Some(t) => r matches Some(s) && s@ == t,
            None => r is None,
        },
{
    let kind = str_chars(tree.nodes[d].kind.as_str());
    let k = kind.as_slice();
    if chars_are(k, "call_expression") {
        match field_text_of(tree, source, d, "function") {
            Some(t) => {
                let chars = str_chars(t.as_str());
                let prefix = str_chars("define");
                proof {
                    reveal_strlit("define");
                }
                if chars.len() > 6 && crate::text::starts_with_chars(chars.as_slice(), prefix.as_slice()) {
                    let first = chars[6];
                    let lower = if 'A' <= first && first <= 'Z' {
                        let code: u8 = (first as u32 + 32) as u8;
                        code as char
                    } else {
                        first
                    };
                    let mut name: Vec<char> = Vec::new();
                    name.push(lower);
                    let mut j: usize = 7;
                    while j < chars.len()
                        invariant
                            7 <= j <= chars@.len(),
                            name@ == seq![lower] + chars@.subrange(7, j as int),
                        decreases chars@.len() - j,
                    {
                        name.push(chars[j]);
                        assert(chars@.subrange(7, j + 1) =~= chars@.subrange(7, j as int).push(chars@[j as int]));
                        j = j + 1;
                    }
                    assert(chars@.take(6) =~= "define"@);
                    assert(chars@.subrange(7, chars@.len() as int) =~= chars@.skip(7));
                    Some(crate::text::string_from_chars(name.as_slice()))
                } else {
                    proof {
                        if t@.len() > 6 && t@.take(6) == "define"@ {
                            assert(crate::text::spec_starts_with(t@, "define"@));
                        }
                    }
                    Some(t)
                }
            },
            None => None,
        }
    } else if chars_are(k, "pair") {
        field_text_of(tree, source, d, "key")
    } else if chars_are(k, "export_statement") {
        match tree.child_by_field_name(d, "declaration") {
            Some(decl) => match first_child_of_kind(tree, decl, "variable_declarator") {
                Some(v) => field_text_of(tree, source, v, "name"),
                None => None,
            },
            None => None,
        }
    } else {
        let name = str_chars("props");
        proof {
            reveal_strlit("props");
        }
        Some(crate::text::string_from_chars(name.as_slice()))
    }
}

/// A symbol as plain values: name, kind, signature, line range, container,
/// bare referenced names and names referenced through a receiver.
pub type SymbolView = (Seq<char>, SymbolKind, Seq<char>, LineRange, Option<Seq<char>>, Seq<Seq<char>>, Seq<Seq<char>>);

/// A symbol as plain values.
pub open spec fn symbol_view(s: ExtractedSymbol) -> SymbolView {
    (
        s.name@,
        s.kind,
        s.signature@,
        s.range,
        opt_view(s.container),
        strings_view(s.referenced_names@),
        strings_view(s.referenced_method_names@),
    )
}

/// Symbols as plain values.
pub open spec fn symbol_views(v: Seq<ExtractedSymbol>) -> Seq<SymbolView> {
    v.map_values(|s: ExtractedSymbol| symbol_view(s))
}

/// Whether the later stages have not touched `s` yet: no identifier, no
/// dependencies, not test code, not classified.
pub open spec fn is_fresh(s: ExtractedSymbol) -> bool {
    &&& s.id@.len() == 0
    &&& s.dependencies@.len() == 0
    &&& s.omitted_dependency_matches == 0
    &&& !s.is_test
    &&& s.classification is None
    &&& s.previous_signature is None
}

/// Whether a node kind is a Markdown section or setext heading.
pub open spec fn is_section_kind(kind: Seq<char>) -> bool {
    kind == "section"@ || kind == "setext_heading"@
}

/// The symbol kind of definition `d`: a section for a Markdown section or
/// heading, otherwise by its node (see [`spec_symbol_kind`]).
pub open spec fn definition_kind(nodes: Seq<SyntaxNode>, d: int) -> Option<SymbolKind> {
    if nodes[d].kind@ == "program"@ {
        Some(SymbolKind::Component)
    } else if is_section_kind(nodes[d].kind@) {
        Some(SymbolKind::Section)
    } else if is_component_api(nodes, d) {
        Some(SymbolKind::ComponentApi)
    } else {
        spec_symbol_kind(nodes, d)
    }
}

/// The name of definition `d`: a section's heading text, otherwise its
/// `name` field's text.
pub open spec fn definition_label(nodes: Seq<SyntaxNode>, source: Seq<u8>, d: int) -> Option<Seq<char>> {
    if is_section_kind(nodes[d].kind@) {
        spec_heading_name_of(nodes, source, d)
    } else if is_component_api(nodes, d) {
        component_api_name(nodes, source, d)
    } else {
        spec_definition_name(nodes, source, d)
    }
}

/// The container of a Markdown section or heading: the nearest section
/// enclosing it, as `section` and that section's heading name; `None` when
/// that section has no heading, or none encloses it.
pub open spec fn section_container(nodes: Seq<SyntaxNode>, source: Seq<u8>, n: int) -> Option<Seq<char>>
    decreases n,
{
    if n < 0 || n >= nodes.len() {
        None
    } else {
        match nodes[n].parent {
            Some(p) => if (p as int) < n {
                if nodes[p as int].kind@ == "section"@ {
                    match spec_heading_name_of(nodes, source, p as int) {
                        Some(h) => Some("section "@ + h),
                        None => None,
                    }
                } else {
                    section_container(nodes, source, p as int)
                }
            } else {
                None
            },
            None => None,
        }
    }
}

/// The container of Markdown definition `d` (see [`section_container`]).
fn section_container_of(tree: &SyntaxTree, source: &[u8], d: usize) -> (r: Option<String>)
    requires
        tree.wf(),
        tree.spans_within(source@),
        d < tree.nodes@.len(),
    ensures
        match section_container(tree.nodes@, source@, d as int) {
            Some(t) => r matches Some(s) && s@ == t,
            None => r is None,
        },
{
    let mut cur: usize = d;
    loop
        invariant
            tree.wf(),
            tree.spans_within(source@),
            cur < tree.nodes@.len(),
            section_container(tree.nodes@, source@, d as int) == section_container(tree.nodes@, source@, cur as int),
        decreases cur,
    {
        match tree.nodes[cur].parent {
            Some(p) => {
                assert(p < cur);
                let kind = str_chars(tree.nodes[p].kind.as_str());
                if chars_are(kind.as_slice(), "section") {
                    return match heading_name(tree, p, source) {
                        Some(h) => {
                            let mut text = str_chars("section ");
                            let mut rest = str_chars(h.as_str());
                            text.append(&mut rest);
                            proof {
                                reveal_strlit("section ");
                            }
                            Some(crate::text::string_from_chars(text.as_slice()))
                        },
                        None => None,
                    };
                }
                cur = p;
            },
            None => {
                return None;
            },
        }
    }
}

/// A node's lines, 1-based and inclusive. A node that ends at column 0 of
/// a later row ends with the line terminator of the row before, so that
/// row is its last.
pub open spec fn definition_range(n: SyntaxNode) -> LineRange {
    LineRange {
        start: (n.start_row + 1) as usize,
        end: if n.end_column == 0 && n.end_row > n.start_row {
            n.end_row
        } else {
            (n.end_row + 1) as usize
        },
    }
}

/// The lines of definition node `n`: a component (the whole parsed
/// file) from the first line, anything else its own lines.
pub open spec fn symbol_range(n: SyntaxNode) -> LineRange {
    if n.kind@ == "program"@ {
        LineRange { start: 1, end: definition_range(n).end }
    } else {
        definition_range(n)
    }
}

/// The lines of a definition node (see [`symbol_range`]).
fn symbol_range_of(n: &SyntaxNode) -> (r: LineRange)
    requires
        n.start_row < usize::MAX,
        n.end_row < usize::MAX,
    ensures
        r == symbol_range(*n),
{
    let range = line_range_of(n);
    if chars_are(str_chars(n.kind.as_str()).as_slice(), "program") {
        LineRange { start: 1, end: range.end }
    } else {
        range
    }
}

/// A node's lines (see [`definition_range`]).
fn line_range_of(n: &SyntaxNode) -> (r: LineRange)
    requires
        n.start_row < usize::MAX,
        n.end_row < usize::MAX,
    ensures
        r == definition_range(*n),
{
    let end = if n.end_column == 0 && n.end_row > n.start_row {
        n.end_row
    } else {
        n.end_row + 1
    };
    LineRange { start: n.start_row + 1, end }
}

/// The symbol definition `d` makes. The whole parsed file (a component)
/// makes the component symbol, when the component has a name: named after
/// its file, its signature the tag that renders it, referencing what its
/// markup renders. Any other definition makes one when it has a reported
/// kind and a name: its signature sliced from the node's own start, its
/// range, its container and the names referenced inside it.
pub open spec fn spec_symbol_at(
    nodes: Seq<SyntaxNode>,
    source: Seq<u8>,
    refs: Seq<CaptureRow>,
    component: (Seq<char>, Seq<Seq<char>>),
    d: int,
) -> Option<SymbolView> {
    if nodes[d].kind@ == "program"@ {
        if component.0.len() == 0 {
            None
        } else {
            Some(
            (
                component.0,
                SymbolKind::Component,
                "<"@ + component.0 + " />"@,
                symbol_range(nodes[d]),
                None,
                component.1,
                Seq::empty(),
            ),
        )
        }
    } else {
        match (definition_kind(nodes, d), definition_label(nodes, source, d)) {
            (Some(kind), Some(name)) => Some(
                (
                    name,
                    kind,
                    spec_slice_signature(nodes, source, d, nodes[d].start_byte as int, nodes[d].start_column as int, None),
                    symbol_range(nodes[d]),
                    if is_section_kind(nodes[d].kind@) {
                        section_container(nodes, source, d)
                    } else {
                        spec_find_container(nodes, source, d)
                    },
                    referenced_texts(source, refs, nodes[d].start_byte as int, nodes[d].end_byte as int, false),
                    referenced_texts(source, refs, nodes[d].start_byte as int, nodes[d].end_byte as int, true),
                ),
            ),
            _ => None,
        }
    }
}

/// The symbols definitions `defs` make, in order.
pub open spec fn symbols_at(
    nodes: Seq<SyntaxNode>,
    source: Seq<u8>,
    refs: Seq<CaptureRow>,
    component: (Seq<char>, Seq<Seq<char>>),
    defs: Seq<usize>,
) -> Seq<SymbolView>
    decreases defs.len(),
{
    if defs.len() == 0 {
        Seq::empty()
    } else {
        let prev = symbols_at(nodes, source, refs, component, defs.drop_last());
        match spec_symbol_at(nodes, source, refs, component, defs.last() as int) {
            Some(v) => prev.push(v),
            None => prev,
        }
    }
}

/// Whether definition `d`'s signature can be sliced without leaving
/// `source` and its lines can be counted from one.
pub open spec fn symbol_fits(nodes: Seq<SyntaxNode>, source: Seq<u8>, d: int) -> bool {
    &&& walk_in_bounds(
        source,
        nodes[d].end_byte as int,
        sorted_by_start(signature_ranges(nodes, source, d, None)),
        nodes[d].start_byte as int,
    )
    &&& nodes[d].start_row < usize::MAX
    &&& nodes[d].end_row < usize::MAX
}

/// Whether every definition of `defs` fits (see [`symbol_fits`]).
pub open spec fn definitions_fit(nodes: Seq<SyntaxNode>, source: Seq<u8>, defs: Seq<usize>) -> bool {
    forall|k: int| 0 <= k < defs.len() ==> symbol_fits(nodes, source, #[trigger] defs[k] as int)
}

/// Whether definition `d` fits (see [`symbol_fits`]).
fn symbol_fits_check(tree: &SyntaxTree, source: &[u8], d: usize) -> (r: bool)
    requires
        tree.wf(),
        tree.spans_within(source@),
        d < tree.nodes@.len(),
    ensures
        r == symbol_fits(tree.nodes@, source@, d as int),
{
    let node = &tree.nodes[d];
    if node.start_row == usize::MAX || node.end_row == usize::MAX {
        return false;
    }
    let removed = signature_removal_ranges(tree, d, source, None);
    let sorted = sort_by_start(removed);
    walk_fits(source, node.end_byte, sorted.as_slice(), node.start_byte)
}

/// Whether every definition of `defs` fits (see [`definitions_fit`]).
pub fn definitions_fit_check(tree: &SyntaxTree, source: &[u8], defs: &[usize]) -> (r: bool)
    requires
        tree.wf(),
        tree.spans_within(source@),
        forall|k: int| 0 <= k < defs@.len() ==> #[trigger] defs@[k] < tree.nodes@.len(),
    ensures
        r == definitions_fit(tree.nodes@, source@, defs@),
{
    let mut i: usize = 0;
    while i < defs.len()
        invariant
            i <= defs@.len(),
            tree.wf(),
            tree.spans_within(source@),
            forall|k: int| 0 <= k < defs@.len() ==> #[trigger] defs@[k] < tree.nodes@.len(),
            forall|k: int| 0 <= k < i ==> symbol_fits(tree.nodes@, source@, #[trigger] defs@[k] as int),
        decreases defs@.len() - i,
    {
        if !symbol_fits_check(tree, source, defs[i]) {
            return false;
        }
        i = i + 1;
    }
    true
}

/// The symbol definition `d` makes (see [`spec_symbol_at`]).
fn symbol_at(
    tree: &SyntaxTree,
    source: &[u8],
    refs: &[(String, usize, usize, String)],
    component: &(String, Vec<String>),
    d: usize,
) -> (r: Option<ExtractedSymbol>)
    requires
        tree.wf(),
        tree.spans_within(source@),
        d < tree.nodes@.len(),
        symbol_fits(tree.nodes@, source@, d as int),
    ensures
        match spec_symbol_at(tree.nodes@, source@, capture_seq(refs@), component_view(component), d as int) {
            Some(v) => r matches Some(s) && symbol_view(s) == v && is_fresh(s),
            None => r is None,
        },
{
    if chars_are(str_chars(tree.nodes[d].kind.as_str()).as_slice(), "program") {
        if str_chars(component.0.as_str()).len() == 0 {
            return None;
        }
        return Some(component_symbol(component, &tree.nodes[d]));
    }
    let section = {
        let kind = str_chars(tree.nodes[d].kind.as_str());
        chars_are(kind.as_slice(), "section") || chars_are(kind.as_slice(), "setext_heading")
    };
    let api = component_api_check(tree, d);
    let kind = if section {
        Some(SymbolKind::Section)
    } else if api {
        Some(SymbolKind::ComponentApi)
    } else {
        symbol_kind(tree, d)
    };
    let kind = match kind {
        Some(k) => k,
        None => {
            return None;
        },
    };
    let name = if section {
        heading_name(tree, d, source)
    } else if api {
        component_api_name_of(tree, source, d)
    } else {
        definition_name(tree, d, source)
    };
    let name = match name {
        Some(n) => n,
        None => {
            return None;
        },
    };
    let node = &tree.nodes[d];
    let signature = slice_signature(tree, d, source, node.start_byte, node.start_column, None);
    let container = if section {
        section_container_of(tree, source, d)
    } else {
        find_container(tree, d, source)
    };
    let referenced_names = referenced_names_in(source, refs, node.start_byte, node.end_byte, false);
    let referenced_method_names = referenced_names_in(source, refs, node.start_byte, node.end_byte, true);
    let symbol = ExtractedSymbol {
        id: String::new(),
        name,
        kind,
        signature,
        range: symbol_range_of(node),
        container,
        referenced_names,
        referenced_method_names,
        dependencies: Vec::new(),
        omitted_dependency_matches: 0,
        is_test: false,
        classification: None,
        previous_signature: None,
    };
    Some(symbol)
}

/// The symbols definitions `defs` make, in order (see [`symbols_at`]).
pub fn symbols_from(
    tree: &SyntaxTree,
    defs: &[usize],
    refs: &[(String, usize, usize, String)],
    component: &(String, Vec<String>),
    source: &[u8],
) -> (r: Vec<ExtractedSymbol>)
    requires
        tree.wf(),
        tree.spans_within(source@),
        forall|k: int| 0 <= k < defs@.len() ==> #[trigger] defs@[k] < tree.nodes@.len(),
        definitions_fit(tree.nodes@, source@, defs@),
    ensures
        symbol_views(r@) == symbols_at(tree.nodes@, source@, capture_seq(refs@), component_view(component), defs@),
        forall|k: int| 0 <= k < r@.len() ==> is_fresh(#[trigger] r@[k]),
{
    let mut r: Vec<ExtractedSymbol> = Vec::new();
    let mut i: usize = 0;
    while i < defs.len()
        invariant
            i <= defs@.len(),
            tree.wf(),
            tree.spans_within(source@),
            forall|k: int| 0 <= k < defs@.len() ==> #[trigger] defs@[k] < tree.nodes@.len(),
            definitions_fit(tree.nodes@, source@, defs@),
            symbol_views(r@) == symbols_at(tree.nodes@, source@, capture_seq(refs@), component_view(component), defs@.take(i as int)),
            forall|k: int| 0 <= k < r@.len() ==> is_fresh(#[trigger] r@[k]),
        decreases defs@.len() - i,
    {
        assert(defs@.take(i + 1).drop_last() =~= defs@.take(i as int));
        assert(defs@.take(i + 1).last() == defs@[i as int]);
        assert(symbol_fits(tree.nodes@, source@, defs@[i as int] as int));
        match symbol_at(tree, source, refs, component, defs[i]) {
            Some(s) => {
                let ghost before = r@;
                r.push(s);
                assert(symbol_views(r@) =~= symbol_views(before).push(symbol_view(s)));
            },
            None => {},
        }
        i = i + 1;
    }
    assert(defs@.take(i as int) =~= defs@);
    r
}

/// The definitions of `defs` whose lines overlap a changed range.
pub open spec fn touched_definitions(nodes: Seq<SyntaxNode>, defs: Seq<usize>, changed: Seq<LineRange>) -> Seq<usize>
    decreases defs.len(),
{
    if defs.len() == 0 {
        Seq::empty()
    } else {
        let prev = touched_definitions(nodes, defs.drop_last(), changed);
        if spec_overlaps_any(symbol_range(nodes[defs.last() as int]), changed) {
            prev.push(defs.last())
        } else {
            prev
        }
    }
}

/// Whether another definition of `touched` lies nested inside `d`.
pub open spec fn encloses_another(nodes: Seq<SyntaxNode>, touched: Seq<usize>, d: usize) -> bool {
    exists|k: int| 0 <= k < touched.len() && #[trigger] touched[k] != d && has_ancestor(nodes, touched[k] as int, d as int)
}

/// The first `n` of the `touched` definitions that enclose no other: a
/// touched definition holding another touched one gives way to it.
pub open spec fn narrowest_among(nodes: Seq<SyntaxNode>, touched: Seq<usize>, n: int) -> Seq<usize>
    decreases n,
{
    if n <= 0 {
        Seq::empty()
    } else {
        let prev = narrowest_among(nodes, touched, n - 1);
        if encloses_another(nodes, touched, touched[n - 1]) {
            prev
        } else {
            prev.push(touched[n - 1])
        }
    }
}

/// The changed symbols: those of the definitions touched by `changed`,
/// each narrowest one (see [`narrowest_among`]).
pub open spec fn spec_changed_symbols(
    nodes: Seq<SyntaxNode>,
    source: Seq<u8>,
    definitions: Seq<CaptureRow>,
    references: Seq<CaptureRow>,
    component: (Seq<char>, Seq<Seq<char>>),
    changed: Seq<LineRange>,
) -> Seq<SymbolView> {
    let touched = touched_definitions(nodes, definition_nodes(nodes, definitions), changed);
    symbols_at(nodes, source, references, component, narrowest_among(nodes, touched, touched.len() as int))
}

/// Every symbol the definitions make.
pub open spec fn spec_all_symbols(
    nodes: Seq<SyntaxNode>,
    source: Seq<u8>,
    definitions: Seq<CaptureRow>,
    references: Seq<CaptureRow>,
    component: (Seq<char>, Seq<Seq<char>>),
) -> Seq<SymbolView> {
    symbols_at(nodes, source, references, component, definition_nodes(nodes, definitions))
}

/// The definitions of `defs` touched by `changed` (see
/// [`touched_definitions`]).
fn touched_of(tree: &SyntaxTree, defs: &Vec<usize>, changed: &[LineRange]) -> (r: Vec<usize>)
    requires
        forall|k: int| 0 <= k < defs@.len() ==> #[trigger] defs@[k] < tree.nodes@.len(),
        forall|k: int|
            0 <= k < defs@.len() ==> (#[trigger] tree.nodes@[defs@[k] as int]).start_row < usize::MAX
                && tree.nodes@[defs@[k] as int].end_row < usize::MAX,
    ensures
        r@ == touched_definitions(tree.nodes@, defs@, changed@),
        forall|k: int| 0 <= k < r@.len() ==> #[trigger] r@[k] < tree.nodes@.len(),
{
    let mut r: Vec<usize> = Vec::new();
    let mut i: usize = 0;
    while i < defs.len()
        invariant
            i <= defs@.len(),
            forall|k: int| 0 <= k < defs@.len() ==> #[trigger] defs@[k] < tree.nodes@.len(),
            forall|k: int|
                0 <= k < defs@.len() ==> (#[trigger] tree.nodes@[defs@[k] as int]).start_row < usize::MAX
                    && tree.nodes@[defs@[k] as int].end_row < usize::MAX,
            r@ == touched_definitions(tree.nodes@, defs@.take(i as int), changed@),
            forall|k: int| 0 <= k < r@.len() ==> #[trigger] r@[k] < tree.nodes@.len(),
        decreases defs@.len() - i,
    {
        assert(defs@.take(i + 1).drop_last() =~= defs@.take(i as int));
        assert(defs@.take(i + 1).last() == defs@[i as int]);
        let d = defs[i];
        let node = &tree.nodes[d];
        assert(tree.nodes@[defs@[i as int] as int].start_row < usize::MAX);
        let range = symbol_range_of(node);
        assert(range == symbol_range(tree.nodes@[d as int]));
        if overlaps_any(range, changed) {
            r.push(d);
        }
        i = i + 1;
    }
    assert(defs@.take(i as int) =~= defs@);
    r
}

/// The touched definitions that enclose no other touched one (see
/// [`narrowest_among`]).
fn narrowest_of(tree: &SyntaxTree, touched: &Vec<usize>) -> (r: Vec<usize>)
    requires
        tree.wf(),
        forall|k: int| 0 <= k < touched@.len() ==> #[trigger] touched@[k] < tree.nodes@.len(),
    ensures
        r@ == narrowest_among(tree.nodes@, touched@, touched@.len() as int),
        forall|k: int| 0 <= k < r@.len() ==> #[trigger] r@[k] < tree.nodes@.len(),
{
    let mut r: Vec<usize> = Vec::new();
    let mut i: usize = 0;
    while i < touched.len()
        invariant
            i <= touched@.len(),
            tree.wf(),
            forall|k: int| 0 <= k < touched@.len() ==> #[trigger] touched@[k] < tree.nodes@.len(),
            r@ == narrowest_among(tree.nodes@, touched@, i as int),
            forall|k: int| 0 <= k < r@.len() ==> #[trigger] r@[k] < tree.nodes@.len(),
        decreases touched@.len() - i,
    {
        let d = touched[i];
        let mut encloses = false;
        let mut j: usize = 0;
        while j < touched.len()
            invariant
                j <= touched@.len(),
                i < touched@.len(),
                d == touched@[i as int],
                tree.wf(),
                forall|k: int| 0 <= k < touched@.len() ==> #[trigger] touched@[k] < tree.nodes@.len(),
                encloses ==> encloses_another(tree.nodes@, touched@, d),
                !encloses ==> forall|k: int|
                    0 <= k < j ==> !(#[trigger] touched@[k] != d && has_ancestor(tree.nodes@, touched@[k] as int, d as int)),
            decreases touched@.len() - j,
        {
            let o = touched[j];
            if o != d && is_descendant_of(tree, o, d) {
                assert(touched@[j as int] != d && has_ancestor(tree.nodes@, touched@[j as int] as int, d as int));
                encloses = true;
            }
            j = j + 1;
        }
        if !encloses {
            r.push(d);
        }
        i = i + 1;
    }
    r
}

/// The changed symbols of a file whose tree, definition captures and
/// reference captures are given (see [`spec_changed_symbols`]).
pub fn changed_symbols_from(
    tree: &SyntaxTree,
    definitions: &[(String, usize, usize, String)],
    references: &[(String, usize, usize, String)],
    component: &(String, Vec<String>),
    source: &[u8],
    changed_ranges: &[LineRange],
) -> (r: Vec<ExtractedSymbol>)
    requires
        tree.wf(),
        tree.spans_within(source@),
        definitions_fit(tree.nodes@, source@, definition_nodes(tree.nodes@, capture_seq(definitions@))),
    ensures
        symbol_views(r@) == spec_changed_symbols(
            tree.nodes@,
            source@,
            capture_seq(definitions@),
            capture_seq(references@),
            component_view(component),
            changed_ranges@,
        ),
        forall|k: int| 0 <= k < r@.len() ==> is_fresh(#[trigger] r@[k]),
{
    let defs = definition_nodes_of(tree, definitions);
    assert forall|k: int| 0 <= k < defs@.len() implies (#[trigger] tree.nodes@[defs@[k] as int]).start_row < usize::MAX
        && tree.nodes@[defs@[k] as int].end_row < usize::MAX by {
        assert(symbol_fits(tree.nodes@, source@, defs@[k] as int));
    }
    let touched = touched_of(tree, &defs, changed_ranges);
    let narrowest = narrowest_of(tree, &touched);
    proof {
        lemma_narrowest_among_from(tree.nodes@, touched@, touched@.len() as int);
        lemma_touched_from(tree.nodes@, defs@, changed_ranges@);
        assert forall|k: int| 0 <= k < narrowest@.len() implies symbol_fits(tree.nodes@, source@, #[trigger] narrowest@[k] as int) by {
            let t = choose|m: int| 0 <= m < touched@.len() && touched@[m] == narrowest@[k];
            let e = choose|m: int| 0 <= m < defs@.len() && defs@[m] == touched@[t];
            assert(symbol_fits(tree.nodes@, source@, defs@[e] as int));
        }
    }
    symbols_from(tree, narrowest.as_slice(), references, component, source)
}

proof fn lemma_narrowest_among_from(nodes: Seq<SyntaxNode>, touched: Seq<usize>, n: int)
    requires
        0 <= n <= touched.len(),
    ensures
        forall|k: int|
            0 <= k < narrowest_among(nodes, touched, n).len() ==> exists|m: int|
                0 <= m < touched.len() && touched[m] == #[trigger] narrowest_among(nodes, touched, n)[k],
    decreases n,
{
    if n > 0 {
        lemma_narrowest_among_from(nodes, touched, n - 1);
        let prev = narrowest_among(nodes, touched, n - 1);
        assert forall|k: int| 0 <= k < narrowest_among(nodes, touched, n).len() implies exists|m: int|
            0 <= m < touched.len() && touched[m] == #[trigger] narrowest_among(nodes, touched, n)[k] by {
            if k < prev.len() {
                assert(narrowest_among(nodes, touched, n)[k] == prev[k]);
            } else {
                assert(touched[n - 1] == narrowest_among(nodes, touched, n)[k]);
            }
        }
    }
}

proof fn lemma_touched_from(nodes: Seq<SyntaxNode>, defs: Seq<usize>, changed: Seq<LineRange>)
    ensures
        forall|k: int|
            0 <= k < touched_definitions(nodes, defs, changed).len() ==> exists|m: int|
                0 <= m < defs.len() && defs[m] == #[trigger] touched_definitions(nodes, defs, changed)[k],
    decreases defs.len(),
{
    if defs.len() > 0 {
        lemma_touched_from(nodes, defs.drop_last(), changed);
        let prev = touched_definitions(nodes, defs.drop_last(), changed);
        let cur = touched_definitions(nodes, defs, changed);
        assert forall|k: int| 0 <= k < cur.len() implies exists|m: int| 0 <= m < defs.len() && defs[m] == #[trigger] cur[k] by {
            if k < prev.len() {
                assert(cur[k] == prev[k]);
                let m = choose|m: int| 0 <= m < defs.drop_last().len() && defs.drop_last()[m] == prev[k];
                assert(defs[m] == cur[k]);
            } else {
                assert(defs[defs.len() - 1] == cur[k]);
            }
        }
    }
}

/// Every symbol of a file whose tree, definition captures and reference
/// captures are given (see [`spec_all_symbols`]).
pub fn all_symbols_from(
    tree: &SyntaxTree,
    definitions: &[(String, usize, usize, String)],
    references: &[(String, usize, usize, String)],
    component: &(String, Vec<String>),
    source: &[u8],
) -> (r: Vec<ExtractedSymbol>)
    requires
        tree.wf(),
        tree.spans_within(source@),
        definitions_fit(tree.nodes@, source@, definition_nodes(tree.nodes@, capture_seq(definitions@))),
    ensures
        symbol_views(r@) == spec_all_symbols(
            tree.nodes@,
            source@,
            capture_seq(definitions@),
            capture_seq(references@),
            component_view(component),
        ),
        forall|k: int| 0 <= k < r@.len() ==> is_fresh(#[trigger] r@[k]),
{
    let defs = definition_nodes_of(tree, definitions);
    symbols_from(tree, defs.as_slice(), references, component, source)
}

/// The languages whose files symbols are extracted from.
#[derive(Debug, Clone, Copy, PartialEq, Eq, Structural)]
pub enum LanguageKind {
    Markdown,
    Php,
    Vue,
    Svelte,
}

/// The grammar a language's text is parsed with.
pub open spec fn language_grammar(language: LanguageKind) -> Grammar {
    match language {
        LanguageKind::Markdown => Grammar::Markdown,
        LanguageKind::Php => Grammar::Php,
        LanguageKind::Vue => Grammar::TypeScript,
        LanguageKind::Svelte => Grammar::TypeScript,
    }
}

/// A language's definition query.
pub open spec fn language_definition_query(language: LanguageKind) -> Seq<char> {
    match language {
        LanguageKind::Markdown => crate::language::markdown::DEFINITION_QUERY@,
        LanguageKind::Php => crate::language::php::DEFINITION_QUERY@,
        LanguageKind::Vue => crate::language::vue::DEFINITION_QUERY@,
        LanguageKind::Svelte => crate::language::svelte::DEFINITION_QUERY@,
    }
}

/// A language's reference query; a single-file component's is
/// TypeScript's.
pub open spec fn language_reference_query(language: LanguageKind) -> Seq<char> {
    match language {
        LanguageKind::Markdown => crate::language::markdown::REFERENCE_QUERY@,
        LanguageKind::Php => crate::language::php::REFERENCE_QUERY@,
        LanguageKind::Vue => crate::language::typescript::REFERENCE_QUERY@,
        LanguageKind::Svelte => crate::language::typescript::REFERENCE_QUERY@,
    }
}

/// The text a language's file is parsed as: a single-file component with
/// everything outside its scripts masked, any other file as it is.
pub open spec fn language_parse_text(language: LanguageKind, source: Seq<char>) -> Seq<char> {
    match language {
        LanguageKind::Vue => spec_mask_non_script(source),
        LanguageKind::Svelte => spec_mask_non_script(source),
        _ => source,
    }
}

/// Whether every node's span lies inside `source`.
pub open spec fn nodes_within(nodes: Seq<SyntaxNode>, source: Seq<u8>) -> bool {
    forall|i: int| 0 <= i < nodes.len() ==> (#[trigger] nodes[i]).start_byte <= nodes[i].end_byte <= source.len()
}

/// What extraction from `text` parsed by `grammar` into `nodes` gives:
/// the symbols of `changed` (every symbol when `None`); `None` when a
/// query does not compile, or a span or signature would leave the text.
pub open spec fn extraction(
    grammar: Grammar,
    definition_query: Seq<char>,
    reference_query: Seq<char>,
    nodes: Seq<SyntaxNode>,
    text: Seq<char>,
    component: (Seq<char>, Seq<Seq<char>>),
    changed: Option<Seq<LineRange>>,
) -> Option<Seq<SymbolView>> {
    let bytes = encode_utf8(text);
    match (query_captures(grammar, definition_query, text), query_captures(grammar, reference_query, text)) {
        (Some(d), Some(rf)) => if nodes_within(nodes, bytes) && definitions_fit(nodes, bytes, definition_nodes(nodes, d)) {
            Some(
                match changed {
                    Some(c) => spec_changed_symbols(nodes, bytes, d, rf, component, c),
                    None => spec_all_symbols(nodes, bytes, d, rf, component),
                },
            )
        } else {
            None
        },
        _ => None,
    }
}

/// Whether `r` is the outcome `o`, its symbols fresh.
pub open spec fn outcome_is(r: Option<Vec<ExtractedSymbol>>, o: Option<Seq<SymbolView>>) -> bool {
    match o {
        Some(v) => r matches Some(s) && symbol_views(s@) == v && forall|k: int| 0 <= k < s@.len() ==> is_fresh(#[trigger] s@[k]),
        None => r is None,
    }
}

/// A component as plain values: its name and the components its markup
/// renders.
pub open spec fn component_view(c: &(String, Vec<String>)) -> (Seq<char>, Seq<Seq<char>>) {
    (c.0@, strings_view(c.1@))
}

/// Copies of `v`'s strings.
fn copy_strings(v: &Vec<String>) -> (r: Vec<String>)
    ensures
        strings_view(r@) == strings_view(v@),
{
    let mut r: Vec<String> = Vec::new();
    let mut i: usize = 0;
    while i < v.len()
        invariant
            i <= v@.len(),
            strings_view(r@) == strings_view(v@.take(i as int)),
        decreases v@.len() - i,
    {
        let ghost before = r@;
        let copy = v[i].clone();
        assert(copy == v@[i as int]);
        r.push(copy);
        assert(v@.take(i + 1) =~= v@.take(i as int).push(v@[i as int]));
        assert(r@ =~= before.push(v@[i as int]));
        assert(strings_view(r@) =~= strings_view(before).push(v@[i as int]@));
        assert(strings_view(v@.take(i + 1)) =~= strings_view(v@.take(i as int)).push(v@[i as int]@));
        i = i + 1;
    }
    assert(v@.take(i as int) =~= v@);
    r
}

/// The component symbol: named after its file, its signature the tag that
/// renders it, spanning the file from its first line, referencing the
/// components its markup renders.
fn component_symbol(component: &(String, Vec<String>), node: &SyntaxNode) -> (r: ExtractedSymbol)
    requires
        node.kind@ == "program"@,
        node.start_row < usize::MAX,
        node.end_row < usize::MAX,
    ensures
        symbol_view(r) == (
            component.0@,
            SymbolKind::Component,
            "<"@ + component.0@ + " />"@,
            symbol_range(*node),
            None::<Seq<char>>,
            strings_view(component.1@),
            Seq::<Seq<char>>::empty(),
        ),
        is_fresh(r),
{
    let mut tag = str_chars("<");
    let mut name = str_chars(component.0.as_str());
    let mut close = str_chars(" />");
    proof {
        reveal_strlit("<");
        reveal_strlit(" />");
    }
    let ghost open_part = tag@;
    tag.append(&mut name);
    tag.append(&mut close);
    let signature = crate::text::string_from_chars(tag.as_slice());
    let referenced_method_names: Vec<String> = Vec::new();
    assert(strings_view(referenced_method_names@) =~= Seq::<Seq<char>>::empty());
    ExtractedSymbol {
        id: String::new(),
        name: component.0.clone(),
        kind: SymbolKind::Component,
        signature,
        range: symbol_range_of(node),
        container: None,
        referenced_names: copy_strings(&component.1),
        referenced_method_names,
        dependencies: Vec::new(),
        omitted_dependency_matches: 0,
        is_test: false,
        classification: None,
        previous_signature: None,
    }
}

/// Extraction from `text` already prepared for parsing (see
/// [`extraction`]).
fn extract_from_text(
    text: &str,
    grammar: Grammar,
    definition_query: &str,
    reference_query: &str,
    component: &(String, Vec<String>),
    changed: Option<&[LineRange]>,
) -> (r: Option<Vec<ExtractedSymbol>>)
    ensures
        exists|nodes: Seq<SyntaxNode>|
            #![trigger node_rows(nodes)]
            node_rows(nodes) == parsed_nodes(grammar, text@) && outcome_is(
                r,
                extraction(
                    grammar,
                    definition_query@,
                    reference_query@,
                    nodes,
                    text@,
                    component_view(component),
                    match changed {
                        Some(c) => Some(c@),
                        None => None,
                    },
                ),
            ),
{
    let tree = match SyntaxTree::parse(text, grammar) {
        Some(t) => t,
        None => {
            return None;
        },
    };
    let ghost nodes = tree.nodes@;
    let ghost wanted = extraction(
        grammar,
        definition_query@,
        reference_query@,
        nodes,
        text@,
        component_view(component),
        match changed {
            Some(c) => Some(c@),
            None => None,
        },
    );
    let definitions = run_query(grammar, definition_query, text);
    let references = run_query(grammar, reference_query, text);
    let (definitions, references) = match (definitions, references) {
        (Some(d), Some(rf)) => (d, rf),
        _ => {
            assert(wanted is None);
            assert(node_rows(nodes) == parsed_nodes(grammar, text@) && outcome_is(None, wanted));
            return None;
        },
    };
    assert(capture_seq(definitions@) == capture_rows(Some(definitions)).unwrap());
    assert(capture_seq(references@) == capture_rows(Some(references)).unwrap());
    let bytes = text.as_bytes();
    let defs = definition_nodes_of(&tree, definitions.as_slice());
    if !tree.check_spans_within(bytes) || !definitions_fit_check(&tree, bytes, defs.as_slice()) {
        assert(wanted is None);
        assert(node_rows(nodes) == parsed_nodes(grammar, text@) && outcome_is(None, wanted));
        return None;
    }
    let r = match changed {
        Some(c) => changed_symbols_from(&tree, definitions.as_slice(), references.as_slice(), component, bytes, c),
        None => all_symbols_from(&tree, definitions.as_slice(), references.as_slice(), component, bytes),
    };
    assert(node_rows(nodes) == parsed_nodes(grammar, text@) && outcome_is(Some(r), wanted));
    Some(r)
}

impl LanguageKind {
    /// The language's definition query.
    pub fn definition_query(self) -> (r: &'static str)
        ensures
            r@ == language_definition_query(self),
    {
        match self {
            LanguageKind::Markdown => crate::language::markdown::DEFINITION_QUERY,
            LanguageKind::Php => crate::language::php::DEFINITION_QUERY,
            LanguageKind::Vue => crate::language::vue::DEFINITION_QUERY,
            LanguageKind::Svelte => crate::language::svelte::DEFINITION_QUERY,
        }
    }

    /// The language's reference query.
    pub fn reference_query(self) -> (r: &'static str)
        ensures
            r@ == language_reference_query(self),
    {
        match self {
            LanguageKind::Markdown => crate::language::markdown::REFERENCE_QUERY,
            LanguageKind::Php => crate::language::php::REFERENCE_QUERY,
            _ => crate::language::typescript::REFERENCE_QUERY,
        }
    }

    /// The grammar the language is parsed with.
    pub fn grammar(self) -> (r: Grammar)
        ensures
            r == language_grammar(self),
    {
        match self {
            LanguageKind::Markdown => Grammar::Markdown,
            LanguageKind::Php => Grammar::Php,
            _ => Grammar::TypeScript,
        }
    }
}

/// The position of the last `.` among the first `n` characters of `s`.
pub open spec fn last_dot_before(s: Seq<char>, n: int) -> Option<int>
    decreases n,
{
    if n <= 0 {
        None
    } else if s[n - 1] == '.' {
        Some(n - 1)
    } else {
        last_dot_before(s, n - 1)
    }
}

/// A file's name without its path and its last extension
/// (`src/components/Counter.vue` gives `Counter`).
pub open spec fn file_stem(path: Seq<char>) -> Seq<char> {
    let name = crate::language::file_name_of(path);
    match last_dot_before(name, name.len() as int) {
        Some(i) => name.take(i),
        None => name,
    }
}

/// The component a file of `language` at `path` makes: named after the
/// file, referencing the components its markup renders (a single-file
/// component's only; other files render none).
pub open spec fn language_component(language: LanguageKind, path: Seq<char>, source: Seq<char>) -> (Seq<char>, Seq<Seq<char>>) {
    (
        file_stem(path),
        match language {
            LanguageKind::Vue => crate::language::vue::spec_component_tags(source),
            LanguageKind::Svelte => crate::language::vue::spec_component_tags(source),
            _ => Seq::empty(),
        },
    )
}

/// A file's name without its path and last extension (see [`file_stem`]).
fn file_stem_of(path: &str) -> (r: String)
    ensures
        r@ == file_stem(path@),
{
    let chars = str_chars(path);
    let segments = crate::path_proximity::split_slash(chars.as_slice());
    proof {
        crate::path_proximity::lemma_split_on_nonempty(path@, '/');
    }
    let last = segments.len() - 1;
    let name = segments[last].as_slice();
    let ghost whole = name@;
    let mut n: usize = name.len();
    while n > 0 && name[n - 1] != '.'
        invariant
            n <= name@.len(),
            whole == name@,
            last_dot_before(whole, whole.len() as int) == last_dot_before(whole, n as int),
        decreases n,
    {
        n = n - 1;
    }
    if n == 0 {
        crate::text::string_from_chars(name)
    } else {
        let stem = crate::text::chars_between(name, 0, n - 1);
        crate::text::string_from_chars(stem.as_slice())
    }
}

/// The component of a file (see [`language_component`]).
fn component_of(language: LanguageKind, path: &str, source: &str) -> (r: (String, Vec<String>))
    ensures
        component_view(&r) == language_component(language, path@, source@),
{
    let name = file_stem_of(path);
    let rendered = match language {
        LanguageKind::Vue | LanguageKind::Svelte => crate::language::vue::component_tags(source),
        _ => {
            let none: Vec<String> = Vec::new();
            assert(strings_view(none@) =~= Seq::<Seq<char>>::empty());
            none
        },
    };
    (name, rendered)
}

/// Extraction from a file of `language` at `path` (see [`extraction`]).
fn extract_for_language(path: &str, source: &str, language: LanguageKind, changed: Option<&[LineRange]>) -> (r: Option<
    Vec<ExtractedSymbol>,
>)
    ensures
        exists|nodes: Seq<SyntaxNode>|
            #![trigger node_rows(nodes)]
            node_rows(nodes) == parsed_nodes(language_grammar(language), language_parse_text(language, source@))
                && outcome_is(
                r,
                extraction(
                    language_grammar(language),
                    language_definition_query(language),
                    language_reference_query(language),
                    nodes,
                    language_parse_text(language, source@),
                    language_component(language, path@, source@),
                    match changed {
                        Some(c) => Some(c@),
                        None => None,
                    },
                ),
            ),
{
    let grammar = language.grammar();
    let definition_query = language.definition_query();
    let reference_query = language.reference_query();
    let component = component_of(language, path, source);
    match language {
        LanguageKind::Vue | LanguageKind::Svelte => {
            let masked = mask_non_script(source);
            extract_from_text(masked.as_str(), grammar, definition_query, reference_query, &component, changed)
        },
        _ => extract_from_text(source, grammar, definition_query, reference_query, &component, changed),
    }
}

/// The symbols of the definitions of the file at `path` holding `source`
/// that contain a changed line (see [`spec_changed_symbols`]); nothing
/// when no range changed. `None` when a query does not compile for the
/// language, or a span or signature would leave the text.
pub fn extract_changed_symbols(path: &str, source: &str, language: LanguageKind, changed_ranges: &[LineRange]) -> (r:
    Option<Vec<ExtractedSymbol>>)
    ensures
        changed_ranges@.len() == 0 ==> (r matches Some(v) && v@.len() == 0),
        changed_ranges@.len() > 0 ==> exists|nodes: Seq<SyntaxNode>|
            #![trigger node_rows(nodes)]
            node_rows(nodes) == parsed_nodes(language_grammar(language), language_parse_text(language, source@))
                && outcome_is(
                r,
                extraction(
                    language_grammar(language),
                    language_definition_query(language),
                    language_reference_query(language),
                    nodes,
                    language_parse_text(language, source@),
                    language_component(language, path@, source@),
                    Some(changed_ranges@),
                ),
            ),
{
    if changed_ranges.len() == 0 {
        return Some(Vec::new());
    }
    extract_for_language(path, source, language, Some(changed_ranges))
}

/// Every symbol of the file at `path` holding `source` (see
/// [`spec_all_symbols`]). `None` when a query does not compile for the
/// language, or a span or signature would leave the text.
pub fn extract_all_symbols(path: &str, source: &str, language: LanguageKind) -> (r: Option<Vec<ExtractedSymbol>>)
    ensures
        exists|nodes: Seq<SyntaxNode>|
            #![trigger node_rows(nodes)]
            node_rows(nodes) == parsed_nodes(language_grammar(language), language_parse_text(language, source@))
                && outcome_is(
                r,
                extraction(
                    language_grammar(language),
                    language_definition_query(language),
                    language_reference_query(language),
                    nodes,
                    language_parse_text(language, source@),
                    language_component(language, path@, source@),
                    None,
                ),
            ),
{
    extract_for_language(path, source, language, None)
}

proof fn lemma_symbols_at_ranges(
    nodes: Seq<SyntaxNode>,
    source: Seq<u8>,
    refs: Seq<CaptureRow>,
    component: (Seq<char>, Seq<Seq<char>>),
    defs: Seq<usize>,
)
    ensures
        forall|k: int|
            0 <= k < symbols_at(nodes, source, refs, component, defs).len() ==> exists|m: int|
                0 <= m < defs.len() && (#[trigger] symbols_at(nodes, source, refs, component, defs)[k]).3 == symbol_range(
                    nodes[defs[m] as int],
                ),
    decreases defs.len(),
{
    if defs.len() > 0 {
        let prev = symbols_at(nodes, source, refs, component, defs.drop_last());
        let cur = symbols_at(nodes, source, refs, component, defs);
        lemma_symbols_at_ranges(nodes, source, refs, component, defs.drop_last());
        assert forall|k: int| 0 <= k < cur.len() implies exists|m: int|
            0 <= m < defs.len() && (#[trigger] cur[k]).3 == symbol_range(nodes[defs[m] as int]) by {
            if k < prev.len() {
                assert(cur[k] == prev[k]);
                let m = choose|m: int|
                    0 <= m < defs.drop_last().len() && prev[k].3 == symbol_range(nodes[defs.drop_last()[m] as int]);
                assert(defs[m] == defs.drop_last()[m]);
            } else {
                assert(cur[k].3 == symbol_range(nodes[defs[defs.len() - 1] as int]));
            }
        }
    }
}

proof fn lemma_touched_overlap(nodes: Seq<SyntaxNode>, defs: Seq<usize>, changed: Seq<LineRange>)
    ensures
        forall|k: int|
            0 <= k < touched_definitions(nodes, defs, changed).len() ==> spec_overlaps_any(
                symbol_range(nodes[#[trigger] touched_definitions(nodes, defs, changed)[k] as int]),
                changed,
            ),
    decreases defs.len(),
{
    if defs.len() > 0 {
        lemma_touched_overlap(nodes, defs.drop_last(), changed);
        let prev = touched_definitions(nodes, defs.drop_last(), changed);
        let cur = touched_definitions(nodes, defs, changed);
        assert forall|k: int| 0 <= k < cur.len() implies spec_overlaps_any(symbol_range(nodes[#[trigger] cur[k] as int]), changed) by {
            if k < prev.len() {
                assert(cur[k] == prev[k]);
            }
        }
    }
}

/// Every changed symbol contains a changed line: its lines overlap one of
/// the changed ranges.
pub proof fn lemma_changed_symbols_touch_the_change(
    nodes: Seq<SyntaxNode>,
    source: Seq<u8>,
    definitions: Seq<CaptureRow>,
    references: Seq<CaptureRow>,
    component: (Seq<char>, Seq<Seq<char>>),
    changed: Seq<LineRange>,
)
    ensures
        forall|k: int|
            0 <= k < spec_changed_symbols(nodes, source, definitions, references, component, changed).len()
                ==> spec_overlaps_any(
                (#[trigger] spec_changed_symbols(nodes, source, definitions, references, component, changed)[k]).3,
                changed,
            ),
{
    let touched = touched_definitions(nodes, definition_nodes(nodes, definitions), changed);
    let narrowest = narrowest_among(nodes, touched, touched.len() as int);
    let syms = spec_changed_symbols(nodes, source, definitions, references, component, changed);
    lemma_symbols_at_ranges(nodes, source, references, component, narrowest);
    lemma_narrowest_among_from(nodes, touched, touched.len() as int);
    lemma_touched_overlap(nodes, definition_nodes(nodes, definitions), changed);
    assert forall|k: int| 0 <= k < syms.len() implies spec_overlaps_any((#[trigger] syms[k]).3, changed) by {
        let m = choose|m: int| 0 <= m < narrowest.len() && syms[k].3 == symbol_range(nodes[narrowest[m] as int]);
        let t = choose|t: int| 0 <= t < touched.len() && touched[t] == narrowest[m];
        assert(spec_overlaps_any(symbol_range(nodes[touched[t] as int]), changed));
    }
}

proof fn lemma_symbols_at_from(
    nodes: Seq<SyntaxNode>,
    source: Seq<u8>,
    refs: Seq<CaptureRow>,
    component: (Seq<char>, Seq<Seq<char>>),
    defs: Seq<usize>,
)
    ensures
        forall|k: int|
            0 <= k < symbols_at(nodes, source, refs, component, defs).len() ==> exists|m: int|
                0 <= m < defs.len() && spec_symbol_at(nodes, source, refs, component, defs[m] as int) == Some(
                    #[trigger] symbols_at(nodes, source, refs, component, defs)[k],
                ),
    decreases defs.len(),
{
    if defs.len() > 0 {
        lemma_symbols_at_from(nodes, source, refs, component, defs.drop_last());
        let prev = symbols_at(nodes, source, refs, component, defs.drop_last());
        let cur = symbols_at(nodes, source, refs, component, defs);
        assert forall|k: int| 0 <= k < cur.len() implies exists|m: int|
            0 <= m < defs.len() && spec_symbol_at(nodes, source, refs, component, defs[m] as int) == Some(#[trigger] cur[k]) by {
            if k < prev.len() {
                assert(cur[k] == prev[k]);
                let m = choose|m: int|
                    0 <= m < defs.drop_last().len() && spec_symbol_at(nodes, source, refs, component, defs.drop_last()[m] as int)
                        == Some(prev[k]);
                assert(defs[m] == defs.drop_last()[m]);
            } else {
                assert(defs[defs.len() - 1] == defs.last());
            }
        }
    }
}

proof fn lemma_symbols_at_holds(
    nodes: Seq<SyntaxNode>,
    source: Seq<u8>,
    refs: Seq<CaptureRow>,
    component: (Seq<char>, Seq<Seq<char>>),
    defs: Seq<usize>,
    m: int,
)
    requires
        0 <= m < defs.len(),
        spec_symbol_at(nodes, source, refs, component, defs[m] as int) is Some,
    ensures
        symbols_at(nodes, source, refs, component, defs).contains(
            spec_symbol_at(nodes, source, refs, component, defs[m] as int)->0,
        ),
    decreases defs.len(),
{
    let cur = symbols_at(nodes, source, refs, component, defs);
    let prev = symbols_at(nodes, source, refs, component, defs.drop_last());
    if m == defs.len() - 1 {
        assert(cur[cur.len() - 1] == spec_symbol_at(nodes, source, refs, component, defs[m] as int)->0);
    } else {
        assert(defs.drop_last()[m] == defs[m]);
        lemma_symbols_at_holds(nodes, source, refs, component, defs.drop_last(), m);
        let k = choose|k: int| 0 <= k < prev.len() && prev[k] == spec_symbol_at(nodes, source, refs, component, defs[m] as int)->0;
        assert(cur[k] == prev[k]);
    }
}

/// The changed symbols are among a file's symbols: every symbol that
/// extraction of a change gives, the whole file's extraction gives too.
pub proof fn lemma_changed_symbols_are_among_all(
    nodes: Seq<SyntaxNode>,
    source: Seq<u8>,
    definitions: Seq<CaptureRow>,
    references: Seq<CaptureRow>,
    component: (Seq<char>, Seq<Seq<char>>),
    changed: Seq<LineRange>,
)
    ensures
        forall|k: int|
            0 <= k < spec_changed_symbols(nodes, source, definitions, references, component, changed).len()
                ==> spec_all_symbols(nodes, source, definitions, references, component).contains(
                #[trigger] spec_changed_symbols(nodes, source, definitions, references, component, changed)[k],
            ),
{
    let defs = definition_nodes(nodes, definitions);
    let touched = touched_definitions(nodes, defs, changed);
    let narrowest = narrowest_among(nodes, touched, touched.len() as int);
    let syms = spec_changed_symbols(nodes, source, definitions, references, component, changed);
    lemma_symbols_at_from(nodes, source, references, component, narrowest);
    lemma_narrowest_among_from(nodes, touched, touched.len() as int);
    lemma_touched_from(nodes, defs, changed);
    assert forall|k: int| 0 <= k < syms.len() implies spec_all_symbols(nodes, source, definitions, references, component).contains(
        #[trigger] syms[k],
    ) by {
        let m = choose|m: int|
            0 <= m < narrowest.len() && spec_symbol_at(nodes, source, references, component, narrowest[m] as int) == Some(syms[k]);
        let t = choose|t: int| 0 <= t < touched.len() && touched[t] == narrowest[m];
        let e = choose|e: int| 0 <= e < defs.len() && defs[e] == touched[t];
        lemma_symbols_at_holds(nodes, source, references, component, defs, e);
    }
}

} // verus!
