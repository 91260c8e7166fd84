//! Reading a captured definition off its syntax tree: what kind of symbol
//! it is, its name, and the container (impl, trait, class, interface,
//! enum, or a Go method's receiver type) it belongs to.
//!
//! Node kinds are matched flat across the grammars; a kind name shared by
//! two grammars is safe because only each language's own definition query
//! decides which nodes are captured.

use crate::extract::SymbolKind;
use crate::syntax::{children_of, first_with_field, node_text, SyntaxNode, SyntaxTree};
use crate::text::{chars_are, str_chars, string_from_chars};
use vstd::prelude::*;
use vstd::string::StringExecFns;

verus! {

/// Whether node `a` is a strict ancestor of node `n`.
pub open spec fn has_ancestor(nodes: Seq<SyntaxNode>, n: int, a: int) -> bool
    decreases n,
{
    if n < 0 || n >= nodes.len() {
        false
    } else {
        match nodes[n].parent {
            Some(p) => if (p as int) < n {
                p as int == a || has_ancestor(nodes, p as int, a)
            } else {
                false
            },
            None => false,
        }
    }
}

/// Whether `node` is strictly nested inside `ancestor`.
pub fn is_descendant_of(tree: &SyntaxTree, node: usize, ancestor: usize) -> (r: bool)
    requires
        tree.wf(),
        node < tree.nodes@.len(),
    ensures
        r == has_ancestor(tree.nodes@, node as int, ancestor as int),
{
    let mut current = node;
    loop
        invariant
            tree.wf(),
            current < tree.nodes@.len(),
            has_ancestor(tree.nodes@, node as int, ancestor as int) == has_ancestor(
                tree.nodes@,
                current as int,
                ancestor as int,
            ),
        decreases current,
    {
        match tree.nodes[current].parent {
            Some(p) => {
                if p == ancestor {
                    return true;
                }
                current = p;
            },
            None => {
                return false;
            },
        }
    }
}

/// The symbol kind of a node kind that decides it alone.
pub open spec fn plain_symbol_kind(kind: Seq<char>) -> Option<SymbolKind> {
    if kind == "function_item"@ || kind == "function_signature_item"@ {
        Some(SymbolKind::Function)
    } else if kind == "struct_item"@ {
        Some(SymbolKind::Struct)
    } else if kind == "enum_item"@ {
        Some(SymbolKind::Enum)
    } else if kind == "trait_item"@ {
        Some(SymbolKind::Trait)
    } else if kind == "function_declaration"@ || kind == "method_declaration"@ {
        Some(SymbolKind::Function)
    } else if kind == "class_definition"@ {
        Some(SymbolKind::Class)
    } else if kind == "function_definition"@ {
        Some(SymbolKind::Function)
    } else if kind == "interface_declaration"@ {
        Some(SymbolKind::Interface)
    } else if kind == "type_alias_declaration"@ {
        Some(SymbolKind::TypeAlias)
    } else if kind == "class_declaration"@ || kind == "abstract_class_declaration"@ {
        Some(SymbolKind::Class)
    } else if kind == "method_definition"@ || kind == "abstract_method_signature"@ {
        Some(SymbolKind::Function)
    } else if kind == "enum_declaration"@ {
        Some(SymbolKind::Enum)
    } else if kind == "variable_declarator"@ {
        Some(SymbolKind::Function)
    } else if kind == "trait_declaration"@ {
        Some(SymbolKind::Trait)
    } else {
        None
    }
}

/// The symbol kind of node `i`: by its kind, and for a Go `type_spec` by
/// the kind of its `type` field (a struct or an interface).
pub open spec fn spec_symbol_kind(nodes: Seq<SyntaxNode>, i: int) -> Option<SymbolKind> {
    if nodes[i].kind@ == "type_spec"@ {
        match first_with_field(nodes, children_of(nodes, i), "type"@) {
            Some(t) => if nodes[t].kind@ == "struct_type"@ {
                Some(SymbolKind::Struct)
            } else if nodes[t].kind@ == "interface_type"@ {
                Some(SymbolKind::Interface)
            } else {
                None
            },
            None => None,
        }
    } else {
        plain_symbol_kind(nodes[i].kind@)
    }
}

fn plain_symbol_kind_of(kind: &[char]) -> (r: Option<SymbolKind>)
    ensures
        r == plain_symbol_kind(kind@),
{
    if chars_are(kind, "function_item") || chars_are(kind, "function_signature_item") {
        Some(SymbolKind::Function)
    } else if chars_are(kind, "struct_item") {
        Some(SymbolKind::Struct)
    } else if chars_are(kind, "enum_item") {
        Some(SymbolKind::Enum)
    } else if chars_are(kind, "trait_item") {
        Some(SymbolKind::Trait)
    } else if chars_are(kind, "function_declaration") || chars_are(kind, "method_declaration") {
        Some(SymbolKind::Function)
    } else if chars_are(kind, "class_definition") {
        Some(SymbolKind::Class)
    } else if chars_are(kind, "function_definition") {
        Some(SymbolKind::Function)
    } else if chars_are(kind, "interface_declaration") {
        Some(SymbolKind::Interface)
    } else if chars_are(kind, "type_alias_declaration") {
        Some(SymbolKind::TypeAlias)
    } else if chars_are(kind, "class_declaration") || chars_are(kind, "abstract_class_declaration") {
        Some(SymbolKind::Class)
    } else if chars_are(kind, "method_definition") || chars_are(kind, "abstract_method_signature") {
        Some(SymbolKind::Function)
    } else if chars_are(kind, "enum_declaration") {
        Some(SymbolKind::Enum)
    } else if chars_are(kind, "variable_declarator") {
        Some(SymbolKind::Function)
    } else if chars_are(kind, "trait_declaration") {
        Some(SymbolKind::Trait)
    } else {
        None
    }
}

/// Maps a captured definition node to a language-neutral symbol kind (see
/// [`spec_symbol_kind`]); `None` for a kind not reported.
pub fn symbol_kind(tree: &SyntaxTree, i: usize) -> (r: Option<SymbolKind>)
    requires
        i < tree.nodes@.len(),
    ensures
        r == spec_symbol_kind(tree.nodes@, i as int),
{
    let kind = str_chars(tree.nodes[i].kind.as_str());
    if chars_are(kind.as_slice(), "type_spec") {
        match tree.child_by_field_name(i, "type") {
            Some(t) => {
                let type_kind = str_chars(tree.nodes[t].kind.as_str());
                if chars_are(type_kind.as_slice(), "struct_type") {
                    Some(SymbolKind::Struct)
                } else if chars_are(type_kind.as_slice(), "interface_type") {
                    Some(SymbolKind::Interface)
                } else {
                    None
                }
            },
            None => None,
        }
    } else {
        plain_symbol_kind_of(kind.as_slice())
    }
}

/// A definition's declared name: the text of its `name` field.
pub open spec fn spec_definition_name(nodes: Seq<SyntaxNode>, source: Seq<u8>, i: int) -> Option<Seq<char>> {
    match first_with_field(nodes, children_of(nodes, i), "name"@) {
        Some(n) => node_text(nodes, source, n),
        None => None,
    }
}

/// A definition's declared name (see [`spec_definition_name`]).
pub fn definition_name(tree: &SyntaxTree, i: usize, source: &[u8]) -> (r: Option<String>)
    requires
        i < tree.nodes@.len(),
        tree.spans_within(source@),
    ensures
        match spec_definition_name(tree.nodes@, source@, i as int) {
            Some(t) => r matches Some(s) && s@ == t,
            None => r is None,
        },
{
    match tree.child_by_field_name(i, "name") {
        Some(n) => tree.text_of(source, n),
        None => None,
    }
}

/// `s` without its leading `*` characters.
pub open spec fn trim_leading_stars(s: Seq<char>) -> Seq<char>
    decreases s.len(),
{
    if s.len() > 0 && s[0] == '*' {
        trim_leading_stars(s.drop_first())
    } else {
        s
    }
}

/// The first named node of `cands` of kind `parameter_declaration`.
pub open spec fn first_parameter(nodes: Seq<SyntaxNode>, cands: Seq<int>) -> Option<int>
    decreases cands.len(),
{
    if cands.len() == 0 {
        None
    } else if nodes[cands[0]].is_named && nodes[cands[0]].kind@ == "parameter_declaration"@ {
        Some(cands[0])
    } else {
        first_parameter(nodes, cands.drop_first())
    }
}

/// A Go method's receiver type name: the `type` of the first parameter of
/// its `receiver` field, without a pointer's leading `*`.
pub open spec fn spec_go_receiver_type_name(nodes: Seq<SyntaxNode>, source: Seq<u8>, i: int) -> Option<Seq<char>> {
    match first_with_field(nodes, children_of(nodes, i), "receiver"@) {
        Some(receiver) => match first_parameter(nodes, children_of(nodes, receiver)) {
            Some(param) => match first_with_field(nodes, children_of(nodes, param), "type"@) {
                Some(t) => match node_text(nodes, source, t) {
                    Some(text) => Some(trim_leading_stars(text)),
                    None => None,
                },
                None => None,
            },
            None => None,
        },
        None => None,
    }
}

/// A Go method's receiver type name (see [`spec_go_receiver_type_name`]),
/// so that `func (r *Repo) Save()` and `func (r Repo) Save()` both belong
/// to `Repo`.
pub fn go_receiver_type_name(tree: &SyntaxTree, i: usize, source: &[u8]) -> (r: Option<String>)
    requires
        i < tree.nodes@.len(),
        tree.spans_within(source@),
    ensures
        match spec_go_receiver_type_name(tree.nodes@, source@, i as int) {
            Some(t) => r matches Some(s) && s@ == t,
            None => r is None,
        },
{
    let receiver = match tree.child_by_field_name(i, "receiver") {
        Some(r) => r,
        None => {
            return None;
        },
    };
    let kids = tree.children(receiver);
    let ghost all = kids@.map_values(|c: usize| c as int);
    let mut param: Option<usize> = None;
    let mut k: usize = 0;
    assert(all.skip(0) =~= all);
    while k < kids.len()
        invariant_except_break
            param is None,
        invariant
            all == kids@.map_values(|c: usize| c as int),
            all == children_of(tree.nodes@, receiver as int),
            forall|m: int| 0 <= m < kids@.len() ==> (#[trigger] kids@[m]) < tree.nodes@.len(),
            k <= kids@.len(),
            first_parameter(tree.nodes@, all) == first_parameter(tree.nodes@, all.skip(k as int)),
        ensures
            match first_parameter(tree.nodes@, all) {
                Some(p) => param matches Some(x) && x as int == p,
                None => param is None,
            },
            param matches Some(x) ==> x < tree.nodes@.len(),
        decreases kids@.len() - k,
    {
        let c = kids[k];
        assert(all.skip(k as int)[0] == c as int);
        assert(all.skip(k as int).drop_first() =~= all.skip(k + 1));
        if tree.nodes[c].is_named && chars_are(str_chars(tree.nodes[c].kind.as_str()).as_slice(), "parameter_declaration") {
            assert(first_parameter(tree.nodes@, all.skip(k as int)) == Some(c as int));
            param = Some(c);
            break;
        }
        k = k + 1;
    }
    let param = match param {
        Some(p) => p,
        None => {
            return None;
        },
    };
    let type_node = match tree.child_by_field_name(param, "type") {
        Some(t) => t,
        None => {
            return None;
        },
    };
    let text = match tree.text_of(source, type_node) {
        Some(t) => t,
        None => {
            return None;
        },
    };
    let chars = str_chars(text.as_str());
    let mut start: usize = 0;
    assert(chars@.skip(0) =~= chars@);
    while start < chars.len() && chars[start] == '*'
        invariant
            start <= chars@.len(),
            trim_leading_stars(chars@) == trim_leading_stars(chars@.skip(start as int)),
        decreases chars@.len() - start,
    {
        assert(chars@.skip(start as int).drop_first() =~= chars@.skip(start + 1));
        start = start + 1;
    }
    let rest = crate::text::chars_between(chars.as_slice(), start, chars.len());
    assert(rest@ =~= chars@.skip(start as int));
    Some(string_from_chars(rest.as_slice()))
}

/// `prefix` followed by the name, when there is one.
pub open spec fn prefixed(prefix: Seq<char>, name: Option<Seq<char>>) -> Option<Seq<char>> {
    match name {
        Some(n) => Some(prefix + n),
        None => None,
    }
}

/// What ancestor `c` says of the container: `None` when it is not a
/// container and the walk goes on; otherwise the container's descriptive
/// name, or no container at all when that name cannot be read.
pub open spec fn container_label(nodes: Seq<SyntaxNode>, source: Seq<u8>, c: int) -> Option<Option<Seq<char>>> {
    let k = nodes[c].kind@;
    if k == "impl_item"@ {
        Some(
            match first_with_field(nodes, children_of(nodes, c), "type"@) {
                Some(t) => prefixed("impl "@, node_text(nodes, source, t)),
                None => None,
            },
        )
    } else if k == "trait_item"@ || k == "trait_declaration"@ {
        Some(prefixed("trait "@, spec_definition_name(nodes, source, c)))
    } else if k == "class_definition"@ || k == "class_declaration"@ || k == "abstract_class_declaration"@ {
        Some(prefixed("class "@, spec_definition_name(nodes, source, c)))
    } else if k == "interface_declaration"@ {
        Some(prefixed("interface "@, spec_definition_name(nodes, source, c)))
    } else if k == "enum_declaration"@ {
        Some(prefixed("enum "@, spec_definition_name(nodes, source, c)))
    } else {
        None
    }
}

/// The container found walking up from node `n`: the first ancestor that
/// is a container decides.
pub open spec fn container_walk(nodes: Seq<SyntaxNode>, source: Seq<u8>, n: int) -> Option<Seq<char>>
    decreases n,
{
    if n < 0 || n >= nodes.len() {
        None
    } else {
        match nodes[n].parent {
            Some(p) => if (p as int) < n {
                match container_label(nodes, source, p as int) {
                    Some(found) => found,
                    None => container_walk(nodes, source, p as int),
                }
            } else {
                None
            },
            None => None,
        }
    }
}

/// The enclosing container of definition `i`: a Go method's receiver type
/// when it has one, otherwise the nearest container among its ancestors.
pub open spec fn spec_find_container(nodes: Seq<SyntaxNode>, source: Seq<u8>, i: int) -> Option<Seq<char>> {
    if nodes[i].kind@ == "method_declaration"@ && spec_go_receiver_type_name(nodes, source, i) is Some {
        spec_go_receiver_type_name(nodes, source, i)
    } else {
        container_walk(nodes, source, i)
    }
}

fn with_prefix(prefix: &str, name: Option<String>) -> (r: Option<String>)
    ensures
        match name {
            Some(n) => r matches Some(s) && s@ == prefix@ + n@,
            None => r is None,
        },
{
    match name {
        Some(n) => {
            let mut s = prefix.to_owned();
            s.append(n.as_str());
            Some(s)
        },
        None => None,
    }
}

fn label_of(tree: &SyntaxTree, c: usize, source: &[u8]) -> (r: Option<Option<String>>)
    requires
        c < tree.nodes@.len(),
        tree.spans_within(source@),
    ensures
        match container_label(tree.nodes@, source@, c as int) {
            Some(found) => r matches Some(x) && match found {
                Some(t) => x matches Some(s) && s@ == t,
                None => x is None,
            },
            None => r is None,
        },
{
    let kind = str_chars(tree.nodes[c].kind.as_str());
    let k = kind.as_slice();
    if chars_are(k, "impl_item") {
        let name = match tree.child_by_field_name(c, "type") {
            Some(t) => tree.text_of(source, t),
            None => None,
        };
        Some(with_prefix("impl ", name))
    } else if chars_are(k, "trait_item") || chars_are(k, "trait_declaration") {
        Some(with_prefix("trait ", definition_name(tree, c, source)))
    } else if chars_are(k, "class_definition") || chars_are(k, "class_declaration") || chars_are(
        k,
        "abstract_class_declaration",
    ) {
        Some(with_prefix("class ", definition_name(tree, c, source)))
    } else if chars_are(k, "interface_declaration") {
        Some(with_prefix("interface ", definition_name(tree, c, source)))
    } else if chars_are(k, "enum_declaration") {
        Some(with_prefix("enum ", definition_name(tree, c, source)))
    } else {
        None
    }
}

/// The enclosing container's descriptive name (`impl Foo`, `trait Bar`,
/// `class Point`, or a Go receiver type such as `Repo`), or `None` for a
/// top-level definition (see [`spec_find_container`]).
pub fn find_container(tree: &SyntaxTree, i: usize, source: &[u8]) -> (r: Option<String>)
    requires
        tree.wf(),
        i < tree.nodes@.len(),
        tree.spans_within(source@),
    ensures
        match spec_find_container(tree.nodes@, source@, i as int) {
            Some(t) => r matches Some(s) && s@ == t,
            None => r is None,
        },
{
    if chars_are(str_chars(tree.nodes[i].kind.as_str()).as_slice(), "method_declaration") {
        match go_receiver_type_name(tree, i, source) {
            Some(receiver) => {
                return Some(receiver);
            },
            None => {},
        }
    }
    let mut current = i;
    loop
        invariant
            tree.wf(),
            tree.spans_within(source@),
            current < tree.nodes@.len(),
            spec_find_container(tree.nodes@, source@, i as int) == container_walk(
                tree.nodes@,
                source@,
                current as int,
            ),
        decreases current,
    {
        match tree.nodes[current].parent {
            Some(p) => {
                match label_of(tree, p, source) {
                    Some(found) => {
                        return found;
                    },
                    None => {
                        current = p;
                    },
                }
            },
            None => {
                return None;
            },
        }
    }
}

} // verus!
