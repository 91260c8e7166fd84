//! The extracted-symbol model and contract-impact classification.
//!
//! A changed symbol is classified by comparing its normalized signature
//! against the same symbol (same name, same container) on the base side of
//! the change: added, signature changed, or body only.

use crate::deps::{opt_str_eq, opt_view, ResolvedSymbol};
use crate::signature_slice::{normalize_for_comparison, spec_normalize_for_comparison};
use vstd::prelude::*;

verus! {

/// A 1-based inclusive line range.
#[derive(Debug, Clone, Copy, PartialEq, Eq, Structural)]
pub struct LineRange {
    pub start: usize,
    pub end: usize,
}

/// The kind of symbol a definition represents, in language-neutral terms.
#[derive(Debug, Clone, Copy, PartialEq, Eq, Structural)]
pub enum SymbolKind {
    Function,
    Struct,
    Enum,
    Trait,
    Class,
    Interface,
    TypeAlias,
    /// A named configuration block (a resource, variable, module, ...).
    Block,
    /// A document section, named by its heading.
    Section,
    /// A component's declared interface: its props, emits, model, slots
    /// or exposed members.
    ComponentApi,
    /// A single-file component, named after its file.
    Component,
}

/// A changed symbol's contract impact.
#[derive(Debug, Clone, Copy, PartialEq, Eq, Structural)]
pub enum Classification {
    /// No symbol with the same name and container on the base side.
    Added,
    /// A base-side match exists, but its normalized signature differs.
    SignatureChanged,
    /// A base-side match exists with an identical normalized signature.
    BodyOnly,
}

/// A definition whose signature was extracted because one of its lines fell
/// inside a changed range.
#[derive(Debug, Clone, PartialEq, Eq)]
pub struct ExtractedSymbol {
    /// Stable identifier, filled in once the symbol graph is built.
    pub id: String,
    pub name: String,
    pub kind: SymbolKind,
    /// Declaration text without its body.
    pub signature: String,
    /// Full definition range on the new side, body included.
    pub range: LineRange,
    /// The enclosing container's descriptive name, if any.
    pub container: Option<String>,
    /// Names referenced as bare calls or types.
    pub referenced_names: Vec<String>,
    /// Names referenced through a receiver or method specification.
    pub referenced_method_names: Vec<String>,
    /// Resolved 1-hop dependencies.
    pub dependencies: Vec<ResolvedSymbol>,
    /// Same-name candidates cut by the per-name cap.
    pub omitted_dependency_matches: usize,
    /// Whether the definition is test code by its syntactic context.
    pub is_test: bool,
    /// Contract impact, `None` until classified.
    pub classification: Option<Classification>,
    /// The base-side signature, set only for a changed signature.
    pub previous_signature: Option<String>,
}

/// A base-side symbol with no head-side counterpart.
#[derive(Debug, Clone, PartialEq, Eq)]
pub struct RemovedSymbol {
    pub name: String,
    pub kind: SymbolKind,
    pub path: String,
    /// The base-side signature.
    pub signature: String,
}

/// Whether two line ranges share at least one line.
pub open spec fn ranges_overlap(a: LineRange, b: LineRange) -> bool {
    a.start <= b.end && b.start <= a.end
}

/// Whether `range` shares a line with any range in `others`.
pub open spec fn spec_overlaps_any(range: LineRange, others: Seq<LineRange>) -> bool {
    exists|i: int| 0 <= i < others.len() && ranges_overlap(range, #[trigger] others[i])
}

/// Whether `s` is the symbol identified by `name` within `container`.
pub open spec fn has_identity(s: ExtractedSymbol, name: Seq<char>, container: Option<Seq<char>>) -> bool {
    s.name@ == name && opt_view(s.container) == container
}

/// Index of the last symbol in `syms` with the given identity.
pub open spec fn last_with_identity(
    syms: Seq<ExtractedSymbol>,
    name: Seq<char>,
    container: Option<Seq<char>>,
) -> Option<int>
    decreases syms.len(),
{
    if syms.len() == 0 {
        None
    } else if has_identity(syms.last(), name, container) {
        Some(syms.len() - 1)
    } else {
        last_with_identity(syms.drop_last(), name, container)
    }
}

/// `h` after classification against the base side: added when no base
/// symbol shares its identity; otherwise body-only when the normalized
/// signatures agree, and signature-changed (with the base signature kept)
/// when they do not. The head signature compared is the complete one from
/// `all_head`, falling back to `h`'s own.
pub open spec fn classified(
    h: ExtractedSymbol,
    base: Seq<ExtractedSymbol>,
    all_head: Seq<ExtractedSymbol>,
) -> ExtractedSymbol {
    match last_with_identity(base, h.name@, opt_view(h.container)) {
        None => ExtractedSymbol { classification: Some(Classification::Added), ..h },
        Some(bi) => {
            let compared = match last_with_identity(all_head, h.name@, opt_view(h.container)) {
                Some(ai) => all_head[ai].signature@,
                None => h.signature@,
            };
            if spec_normalize_for_comparison(base[bi].signature@) == spec_normalize_for_comparison(
                compared,
            ) {
                ExtractedSymbol { classification: Some(Classification::BodyOnly), ..h }
            } else {
                ExtractedSymbol {
                    classification: Some(Classification::SignatureChanged),
                    previous_signature: Some(base[bi].signature),
                    ..h
                }
            }
        },
    }
}

/// Whether base symbol `b` counts as removed: nothing in the complete head
/// file shares its identity, and its base-side range overlaps a changed range.
pub open spec fn is_removed(b: ExtractedSymbol, all_head: Seq<ExtractedSymbol>, old_ranges: Seq<LineRange>) -> bool {
    last_with_identity(all_head, b.name@, opt_view(b.container)) is None && spec_overlaps_any(
        b.range,
        old_ranges,
    )
}

/// The removed symbols, in base order, as (name, kind, signature).
pub open spec fn removed_of(
    base: Seq<ExtractedSymbol>,
    all_head: Seq<ExtractedSymbol>,
    old_ranges: Seq<LineRange>,
) -> Seq<(String, SymbolKind, String)>
    decreases base.len(),
{
    if base.len() == 0 {
        Seq::empty()
    } else {
        let b = base.last();
        removed_of(base.drop_last(), all_head, old_ranges) + if is_removed(b, all_head, old_ranges) {
            seq![(b.name, b.kind, b.signature)]
        } else {
            Seq::empty()
        }
    }
}

/// Whether `range` shares at least one line with any range in `others`.
pub fn overlaps_any(range: LineRange, others: &[LineRange]) -> (r: bool)
    ensures
        r == spec_overlaps_any(range, others@),
{
    let mut i: usize = 0;
    while i < others.len()
        invariant
            i <= others@.len(),
            forall|j: int| 0 <= j < i ==> !ranges_overlap(range, #[trigger] others@[j]),
        decreases others@.len() - i,
    {
        let other = others[i];
        if range.start <= other.end && other.start <= range.end {
            return true;
        }
        i = i + 1;
    }
    false
}

/// Index of the last symbol in `syms` with the identity of `name`/`container`.
fn find_last_with_identity(syms: &[ExtractedSymbol], name: &String, container: &Option<String>) -> (r: Option<usize>)
    ensures
        match r {
            Some(i) => i < syms@.len() && last_with_identity(syms@, name@, opt_view(*container)) == Some(
                i as int,
            ),
            None => last_with_identity(syms@, name@, opt_view(*container)) is None,
        },
{
    let mut found: Option<usize> = None;
    let mut i: usize = 0;
    while i < syms.len()
        invariant
            i <= syms@.len(),
            match found {
                Some(k) => k < i && last_with_identity(syms@.take(i as int), name@, opt_view(*container))
                    == Some(k as int),
                None => last_with_identity(syms@.take(i as int), name@, opt_view(*container)) is None,
            },
        decreases syms@.len() - i,
    {
        assert(syms@.take(i + 1).drop_last() =~= syms@.take(i as int));
        if syms[i].name == *name && opt_str_eq(&syms[i].container, container) {
            found = Some(i);
        }
        i = i + 1;
    }
    assert(syms@.take(syms@.len() as int) =~= syms@);
    found
}

/// Classifies every symbol of `head_symbols` by contract impact, setting its
/// `classification`/`previous_signature` in place, and returns the base-side
/// symbols that no longer exist on the head side at all.
///
/// Head and base symbols of the one file are matched by `(name, container)`.
/// A head symbol's signature is compared through its complete counterpart in
/// `all_head_symbols` (a reported container may have been narrowed to its
/// touched members), after whitespace normalization. A base symbol counts as
/// removed only when the whole head file lacks its identity and its range
/// overlaps one of `old_changed_ranges`.
pub fn classify_symbols(
    head_symbols: &mut Vec<ExtractedSymbol>,
    base_symbols: &[ExtractedSymbol],
    all_head_symbols: &[ExtractedSymbol],
    old_changed_ranges: &[LineRange],
    path: &str,
) -> (removed: Vec<RemovedSymbol>)
    ensures
        final(head_symbols)@.len() == old(head_symbols)@.len(),
        forall|i: int|
            0 <= i < final(head_symbols)@.len() ==> #[trigger] final(head_symbols)@[i] == classified(
                old(head_symbols)@[i],
                base_symbols@,
                all_head_symbols@,
            ),
        removed@.map_values(|x: RemovedSymbol| (x.name, x.kind, x.signature)) == removed_of(
            base_symbols@,
            all_head_symbols@,
            old_changed_ranges@,
        ),
        forall|i: int| 0 <= i < removed@.len() ==> (#[trigger] removed@[i]).path@ == path@,
{
    let mut i: usize = 0;
    while i < head_symbols.len()
        invariant
            i <= head_symbols@.len(),
            head_symbols@.len() == old(head_symbols)@.len(),
            forall|j: int|
                0 <= j < i ==> #[trigger] head_symbols@[j] == classified(
                    old(head_symbols)@[j],
                    base_symbols@,
                    all_head_symbols@,
                ),
            forall|j: int| i <= j < head_symbols@.len() ==> #[trigger] head_symbols@[j] == old(head_symbols)@[j],
        decreases head_symbols@.len() - i,
    {
        let base_index = find_last_with_identity(base_symbols, &head_symbols[i].name, &head_symbols[i].container);
        match base_index {
            None => {
                let symbol = &mut head_symbols[i];
                symbol.classification = Some(Classification::Added);
            },
            Some(bi) => {
                let head_index = find_last_with_identity(
                    all_head_symbols,
                    &head_symbols[i].name,
                    &head_symbols[i].container,
                );
                let base_normalized = normalize_for_comparison(base_symbols[bi].signature.as_str());
                let head_normalized = match head_index {
                    Some(ai) => normalize_for_comparison(all_head_symbols[ai].signature.as_str()),
                    None => normalize_for_comparison(head_symbols[i].signature.as_str()),
                };
                if base_normalized == head_normalized {
                    let symbol = &mut head_symbols[i];
                    symbol.classification = Some(Classification::BodyOnly);
                } else {
                    let previous = base_symbols[bi].signature.clone();
                    let symbol = &mut head_symbols[i];
                    symbol.classification = Some(Classification::SignatureChanged);
                    symbol.previous_signature = Some(previous);
                }
            },
        }
        i = i + 1;
    }
    let mut removed: Vec<RemovedSymbol> = Vec::new();
    let mut k: usize = 0;
    while k < base_symbols.len()
        invariant
            k <= base_symbols@.len(),
            removed@.map_values(|x: RemovedSymbol| (x.name, x.kind, x.signature)) == removed_of(
                base_symbols@.take(k as int),
                all_head_symbols@,
                old_changed_ranges@,
            ),
            forall|j: int| 0 <= j < removed@.len() ==> (#[trigger] removed@[j]).path@ == path@,
        decreases base_symbols@.len() - k,
    {
        assert(base_symbols@.take(k + 1).drop_last() =~= base_symbols@.take(k as int));
        let base_symbol = &base_symbols[k];
        let in_head = find_last_with_identity(all_head_symbols, &base_symbol.name, &base_symbol.container);
        if in_head.is_none() && overlaps_any(base_symbol.range, old_changed_ranges) {
            removed.push(
                RemovedSymbol {
                    name: base_symbol.name.clone(),
                    kind: base_symbol.kind,
                    path: path.to_owned(),
                    signature: base_symbol.signature.clone(),
                },
            );
        }
        assert(removed@.map_values(|x: RemovedSymbol| (x.name, x.kind, x.signature)) =~= removed_of(
            base_symbols@.take(k + 1),
            all_head_symbols@,
            old_changed_ranges@,
        ));
        k = k + 1;
    }
    assert(base_symbols@.take(base_symbols@.len() as int) =~= base_symbols@);
    removed
}

} // verus!
