//! 1-hop dependency resolution by name.
//!
//! The resolver matches referenced names against a repository-wide index of
//! definitions, with no type information: every same-named definition is a
//! candidate, ranked by how close it sits to the referencing file.

use crate::extract::ExtractedSymbol;
use crate::path_proximity::{path_proximity_rank, spec_proximity_rank, split_chars, split_on, ProximityRank};
use crate::render::FileReport;
use crate::text::{string_from_chars, chars_are, contains_chars, spec_contains, spec_ends_with, str_chars, ends_with_chars, is_whitespace, push_char, spec_is_whitespace};
use vstd::prelude::*;
use vstd::utf8::encode_utf8;

verus! {

/// The persisted projection of an extracted definition: what the index
/// needs to answer a lookup without re-parsing the file it came from.
#[derive(Debug, Clone, PartialEq, Eq)]
pub struct IndexEntry {
    pub name: String,
    pub signature: String,
    pub container: Option<String>,
    pub is_test: bool,
}

/// A definition found for a referenced name.
#[derive(Debug, Clone, PartialEq, Eq)]
pub struct ResolvedSymbol {
    pub signature: String,
    /// Path of the file the definition lives in.
    pub path: String,
    /// The enclosing impl/trait/class block's descriptive name, if any.
    pub container: Option<String>,
}

/// The characters of an optional string.
pub open spec fn opt_view(o: Option<String>) -> Option<Seq<char>> {
    match o {
        Some(s) => Some(s@),
        None => None,
    }
}

/// The most same-named candidates kept per referenced name.
pub const MAX_MATCHES_PER_NAME: usize = 3;

/// A copy of `s`.
pub fn copy_opt_string(s: &Option<String>) -> (r: Option<String>)
    ensures
        r == *s,
{
    match s {
        Some(v) => Some(v.clone()),
        None => None,
    }
}

/// A copy of `s`.
pub fn copy_resolved(s: &ResolvedSymbol) -> (r: ResolvedSymbol)
    ensures
        r == *s,
{
    ResolvedSymbol { signature: s.signature.clone(), path: s.path.clone(), container: copy_opt_string(&s.container) }
}

/// The index entries one file contributes: each entry (test entries only
/// when `include_tests`) under its name, located in `path`.
pub open spec fn file_index(path: String, entries: Seq<IndexEntry>, include_tests: bool) -> Seq<(Seq<char>, ResolvedSymbol)>
    decreases entries.len(),
{
    if entries.len() == 0 {
        Seq::empty()
    } else {
        let e = entries.last();
        file_index(path, entries.drop_last(), include_tests) + if include_tests || !e.is_test {
            seq![(e.name@, ResolvedSymbol { signature: e.signature, path, container: e.container })]
        } else {
            Seq::empty()
        }
    }
}

/// The index built from per-file entries, in the order the files and
/// their entries come.
pub open spec fn entries_index(files: Seq<(String, Seq<IndexEntry>)>, include_tests: bool) -> Seq<(Seq<char>, ResolvedSymbol)>
    decreases files.len(),
{
    if files.len() == 0 {
        Seq::empty()
    } else {
        entries_index(files.drop_last(), include_tests) + file_index(files.last().0, files.last().1, include_tests)
    }
}

/// Per-file entries with their entry vectors as sequences.
pub open spec fn files_entries_view(files: Seq<(String, Vec<IndexEntry>)>) -> Seq<(String, Seq<IndexEntry>)> {
    files.map_values(|f: (String, Vec<IndexEntry>)| (f.0, f.1@))
}

/// Every definition indexed under `name`, in insertion order.
pub open spec fn resolved_by(index: Seq<(Seq<char>, ResolvedSymbol)>, name: Seq<char>) -> Seq<ResolvedSymbol>
    decreases index.len(),
{
    if index.len() == 0 {
        Seq::empty()
    } else {
        resolved_by(index.drop_last(), name) + if index.last().0 == name {
            seq![index.last().1]
        } else {
            Seq::empty()
        }
    }
}

/// Resolves a referenced name to the definitions it may point to. More
/// than one is a normal outcome: resolution is by name, and callers decide
/// how to present several.
pub trait Resolver {
    /// The definitions `name` resolves to, in order.
    spec fn resolved(&self, name: Seq<char>) -> Seq<ResolvedSymbol>;

    /// The definitions `name` resolves to.
    fn resolve(&self, name: &str) -> (r: Vec<ResolvedSymbol>)
        ensures
            r@ == self.resolved(name@),
    ;
}

/// The name-only resolver: every indexed definition, under its name, in
/// the order it was indexed. Resolving a name gives all of its
/// definitions, since with no type information nothing tells same-named
/// definitions apart.
pub struct TagsResolver {
    index: Vec<(String, ResolvedSymbol)>,
}

impl View for TagsResolver {
    type V = Seq<(Seq<char>, ResolvedSymbol)>;

    closed spec fn view(&self) -> Seq<(Seq<char>, ResolvedSymbol)> {
        self.index@.map_values(|e: (String, ResolvedSymbol)| (e.0@, e.1))
    }
}

impl TagsResolver {
    /// Builds the index from already-extracted entries, keyed by the path
    /// each file's entries were extracted from, inserting them in the order
    /// given (files, then entries within a file); test entries are dropped
    /// unless `include_tests`.
    pub fn from_entries(entries: Vec<(String, Vec<IndexEntry>)>, include_tests: bool) -> (r: TagsResolver)
        ensures
            r@ == entries_index(files_entries_view(entries@), include_tests),
    {
        let mut index: Vec<(String, ResolvedSymbol)> = Vec::new();
        let mut f: usize = 0;
        assert(index@.map_values(|e: (String, ResolvedSymbol)| (e.0@, e.1)) =~= Seq::empty());
        while f < entries.len()
            invariant
                f <= entries@.len(),
                index@.map_values(|e: (String, ResolvedSymbol)| (e.0@, e.1)) == entries_index(
                    files_entries_view(entries@.take(f as int)),
                    include_tests,
                ),
            decreases entries@.len() - f,
        {
            let path = &entries[f].0;
            let file_entries = &entries[f].1;
            let ghost before = index@.map_values(|e: (String, ResolvedSymbol)| (e.0@, e.1));
            let mut k: usize = 0;
            while k < file_entries.len()
                invariant
                    k <= file_entries@.len(),
                    index@.map_values(|e: (String, ResolvedSymbol)| (e.0@, e.1)) == before + file_index(
                        *path,
                        file_entries@.take(k as int),
                        include_tests,
                    ),
                decreases file_entries@.len() - k,
            {
                let entry = &file_entries[k];
                assert(file_entries@.take(k + 1).drop_last() =~= file_entries@.take(k as int));
                let ghost mid = index@.map_values(|e: (String, ResolvedSymbol)| (e.0@, e.1));
                if include_tests || !entry.is_test {
                    let resolved = ResolvedSymbol {
                        signature: entry.signature.clone(),
                        path: path.clone(),
                        container: copy_opt_string(&entry.container),
                    };
                    index.push((entry.name.clone(), resolved));
                    assert(index@.map_values(|e: (String, ResolvedSymbol)| (e.0@, e.1)) =~= mid.push(
                        (entry.name@, resolved),
                    ));
                } else {
                    assert(file_index(*path, file_entries@.take(k + 1), include_tests) =~= file_index(
                        *path,
                        file_entries@.take(k as int),
                        include_tests,
                    ));
                }
                k = k + 1;
            }
            assert(file_entries@.take(file_entries@.len() as int) =~= file_entries@);
            assert(entries@.take(f + 1).drop_last() =~= entries@.take(f as int));
            assert(files_entries_view(entries@.take(f + 1)).drop_last() =~= files_entries_view(entries@.take(f as int)));
            f = f + 1;
        }
        assert(entries@.take(entries@.len() as int) =~= entries@);
        TagsResolver { index }
    }

    /// Builds the index from each file's extracted symbols, in the order
    /// the files come: the same index as [`TagsResolver::from_entries`] on
    /// the symbols' index entries.
    pub fn from_extracted(files: Vec<(String, Vec<ExtractedSymbol>)>, include_tests: bool) -> (r: TagsResolver)
        ensures
            r@ == entries_index(
                files@.map_values(
                    |f: (String, Vec<ExtractedSymbol>)|
                        (f.0, f.1@.map_values(|s: ExtractedSymbol| crate::deps_cache::entry_of(s))),
                ),
                include_tests,
            ),
    {
        let ghost all = files@;
        let ghost target = files@.map_values(
            |f: (String, Vec<ExtractedSymbol>)| (f.0, f.1@.map_values(|s: ExtractedSymbol| crate::deps_cache::entry_of(s))),
        );
        let mut files = files;
        let mut reversed: Vec<(String, Vec<IndexEntry>)> = Vec::new();
        while files.len() > 0
            invariant
                files@.len() + reversed@.len() == all.len(),
                files@ == all.take(files@.len() as int),
                target == all.map_values(
                    |f: (String, Vec<ExtractedSymbol>)| (f.0, f.1@.map_values(|s: ExtractedSymbol| crate::deps_cache::entry_of(s))),
                ),
                forall|i: int|
                    0 <= i < reversed@.len() ==> (#[trigger] reversed@[i]).0 == target[all.len() - 1 - i].0
                        && reversed@[i].1@ == target[all.len() - 1 - i].1,
            decreases files@.len(),
        {
            let ghost before = files@;
            let (path, symbols) = files.pop().unwrap();
            assert(files@ =~= all.take(files@.len() as int));
            assert(before[before.len() - 1] == all[all.len() - 1 - reversed@.len()]);
            let entries = crate::deps_cache::extract_entries(symbols);
            reversed.push((path, entries));
        }
        let mut ordered: Vec<(String, Vec<IndexEntry>)> = Vec::new();
        let n = reversed.len();
        while reversed.len() > 0
            invariant
                reversed@.len() + ordered@.len() == n,
                n == all.len(),
                target.len() == all.len(),
                forall|i: int|
                    0 <= i < reversed@.len() ==> (#[trigger] reversed@[i]).0 == target[all.len() - 1 - i].0
                        && reversed@[i].1@ == target[all.len() - 1 - i].1,
                forall|i: int|
                    0 <= i < ordered@.len() ==> (#[trigger] ordered@[i]).0 == target[i].0 && ordered@[i].1@
                        == target[i].1,
            decreases reversed@.len(),
        {
            let ghost before = reversed@;
            let e = reversed.pop().unwrap();
            assert(e == before[before.len() - 1]);
            ordered.push(e);
        }
        assert(files_entries_view(ordered@) =~= target);
        TagsResolver::from_entries(ordered, include_tests)
    }

}

impl Resolver for TagsResolver {
    /// Every definition indexed under `name`, in insertion order.
    open spec fn resolved(&self, name: Seq<char>) -> Seq<ResolvedSymbol> {
        resolved_by(self@, name)
    }

    /// Every definition indexed under `name`, in insertion order; empty
    /// when there is none.
    fn resolve(&self, name: &str) -> (r: Vec<ResolvedSymbol>)
    {
        let wanted = str_chars(name);
        let ghost view = self@;
        let mut found: Vec<ResolvedSymbol> = Vec::new();
        let mut i: usize = 0;
        while i < self.index.len()
            invariant
                view == self@,
                view == self.index@.map_values(|e: (String, ResolvedSymbol)| (e.0@, e.1)),
                wanted@ == name@,
                i <= self.index@.len(),
                found@ == resolved_by(view.take(i as int), name@),
            decreases self.index@.len() - i,
        {
            assert(view.take(i + 1).drop_last() =~= view.take(i as int));
            let entry_name = str_chars(self.index[i].0.as_str());
            if crate::text::chars_eq(entry_name.as_slice(), wanted.as_slice()) {
                found.push(copy_resolved(&self.index[i].1));
            }
            assert(found@ =~= resolved_by(view.take(i + 1), name@));
            i = i + 1;
        }
        assert(view.take(view.len() as int) =~= view);
        found
    }
}

/// How many leading lines [`is_generated_content`] looks at.
pub const GENERATED_MARKER_SCAN_LINES: usize = 5;

/// Whether a line carries both halves of the `Code generated ... DO NOT
/// EDIT` marker.
pub open spec fn spec_is_code_generated_do_not_edit_line(line: Seq<char>) -> bool {
    spec_contains(line, "Code generated"@) && spec_contains(line, "DO NOT EDIT"@)
}

/// Whether a line marks its file as generated.
pub open spec fn is_generated_marker_line(line: Seq<char>) -> bool {
    spec_contains(line, "@generated"@) || spec_is_code_generated_do_not_edit_line(line)
}

/// Whether one of the first five lines of `content` carries a generated
/// marker. Lines are the pieces between `\n`s; neither marker holds a line
/// break, so a trailing `\r` or an empty last piece changes nothing.
pub open spec fn spec_is_generated_content(content: Seq<char>) -> bool {
    exists|i: int|
        0 <= i < split_on(content, '\n').len() && i < 5 && is_generated_marker_line(
            #[trigger] split_on(content, '\n')[i],
        )
}

/// Whether `line` contains both `Code generated` and `DO NOT EDIT`.
fn is_code_generated_do_not_edit_line(line: &[char]) -> (r: bool)
    ensures
        r == spec_is_code_generated_do_not_edit_line(line@),
{
    contains_chars(line, str_chars("Code generated").as_slice()) && contains_chars(
        line,
        str_chars("DO NOT EDIT").as_slice(),
    )
}

/// Whether the first lines of `content` carry a generated-file marker: an
/// `@generated` anywhere on the line, or `Code generated` and `DO NOT
/// EDIT` on one line. Case-sensitive.
pub fn is_generated_content(content: &str) -> (r: bool)
    ensures
        r == spec_is_generated_content(content@),
{
    let chars = str_chars(content);
    let lines = split_chars(chars.as_slice(), '\n');
    let ghost pieces = split_on(content@, '\n');
    let generated = str_chars("@generated");
    let mut i: usize = 0;
    while i < lines.len() && i < GENERATED_MARKER_SCAN_LINES
        invariant
            chars@ == content@,
            pieces == split_on(content@, '\n'),
            lines@.len() == pieces.len(),
            forall|j: int| 0 <= j < lines@.len() ==> #[trigger] lines@[j]@ == pieces[j],
            generated@ == "@generated"@,
            i <= lines@.len(),
            forall|j: int| 0 <= j < i ==> !is_generated_marker_line(#[trigger] pieces[j]),
        decreases lines@.len() - i,
    {
        let line = lines[i].as_slice();
        let has_at = contains_chars(line, generated.as_slice());
        let has_go = is_code_generated_do_not_edit_line(line);
        assert(line@ == pieces[i as int]);
        if has_at || has_go {
            assert(is_generated_marker_line(split_on(content@, '\n')[i as int]));
            return true;
        }
        i = i + 1;
    }
    false
}

/// Whether `path` is a Terraform dependency lock file, matched by its
/// exact file name.
pub open spec fn spec_is_generated_lockfile_path(path: Seq<char>) -> bool {
    path == ".terraform.lock.hcl"@ || spec_ends_with(path, "/.terraform.lock.hcl"@)
}

/// Whether `path` is a Terraform dependency lock file (see
/// [`spec_is_generated_lockfile_path`]).
pub fn is_generated_lockfile_path(path: &str) -> (r: bool)
    ensures
        r == spec_is_generated_lockfile_path(path@),
{
    let chars = str_chars(path);
    chars_are(chars.as_slice(), ".terraform.lock.hcl") || ends_with_chars(
        chars.as_slice(),
        str_chars("/.terraform.lock.hcl").as_slice(),
    )
}

/// What character `i` of `s` becomes once white-space runs are collapsed:
/// the first white space of a run becomes one space, the rest of the run
/// nothing, anything else itself.
pub open spec fn collapsed_piece(s: Seq<char>, i: int) -> Seq<char> {
    if spec_is_whitespace(s[i]) {
        if i > 0 && spec_is_whitespace(s[i - 1]) {
            Seq::empty()
        } else {
            seq![' ']
        }
    } else {
        seq![s[i]]
    }
}

/// The first `n` characters of `s` with white-space runs collapsed.
pub open spec fn collapsed_prefix(s: Seq<char>, n: int) -> Seq<char>
    decreases n,
{
    if n <= 0 {
        Seq::empty()
    } else {
        collapsed_prefix(s, n - 1) + collapsed_piece(s, n - 1)
    }
}

/// `s` with every maximal run of white space collapsed to one space.
pub open spec fn spec_normalize_whitespace(s: Seq<char>) -> Seq<char> {
    collapsed_prefix(s, s.len() as int)
}

/// Collapses every maximal run of white space in `content` to a single
/// space, so that a declaration keyword and the name it introduces are one
/// space apart however the file spaces them.
pub fn normalize_whitespace(content: &str) -> (r: String)
    ensures
        r@ == spec_normalize_whitespace(content@),
{
    let chars = str_chars(content);
    let mut normalized = String::new();
    let mut in_whitespace = false;
    let mut i: usize = 0;
    while i < chars.len()
        invariant
            chars@ == content@,
            i <= chars@.len(),
            normalized@ == collapsed_prefix(chars@, i as int),
            in_whitespace == (i > 0 && spec_is_whitespace(chars@[i - 1])),
        decreases chars@.len() - i,
    {
        let ch = chars[i];
        if is_whitespace(ch) {
            if !in_whitespace {
                push_char(&mut normalized, ' ');
            }
            in_whitespace = true;
        } else {
            push_char(&mut normalized, ch);
            in_whitespace = false;
        }
        assert(normalized@ =~= collapsed_prefix(chars@, i + 1));
        i = i + 1;
    }
    normalized
}

/// Whether two optional strings hold the same text.
pub(crate) fn opt_str_eq(a: &Option<String>, b: &Option<String>) -> (r: bool)
    ensures
        r == (opt_view(*a) == opt_view(*b)),
{
    match (a, b) {
        (Some(x), Some(y)) => {
            let same: bool = *x == *y;
            same
        },
        (None, None) => true,
        _ => false,
    }
}

/// A definition's identity: name, container and path.
pub open spec fn identity(name: Seq<char>, container: Option<Seq<char>>, path: Seq<char>) -> (
    Seq<char>,
    Option<Seq<char>>,
    Seq<char>,
) {
    (name, container, path)
}

/// The identity of symbol `j` of `file`.
pub open spec fn symbol_identity(file: FileReport, j: int) -> (Seq<char>, Option<Seq<char>>, Seq<char>) {
    identity(file.symbols@[j].name@, opt_view(file.symbols@[j].container), file.path@)
}

/// The identities of the symbols of one file, in order.
pub open spec fn file_identities(file: FileReport) -> Seq<(Seq<char>, Option<Seq<char>>, Seq<char>)> {
    Seq::new(file.symbols@.len(), |j: int| symbol_identity(file, j))
}

/// The identities of every symbol of the change, file by file.
pub open spec fn change_identities(files: Seq<FileReport>) -> Seq<(Seq<char>, Option<Seq<char>>, Seq<char>)>
    decreases files.len(),
{
    if files.len() == 0 {
        Seq::empty()
    } else {
        change_identities(files.drop_last()) + file_identities(files.last())
    }
}

/// Whether some symbol of the change has identity `key`.
pub open spec fn in_change(files: Seq<FileReport>, key: (Seq<char>, Option<Seq<char>>, Seq<char>)) -> bool {
    change_identities(files).contains(key)
}

/// Which candidates' containers a reference may reach.
pub enum ContainerRule<'a> {
    /// A bare reference: only top-level candidates, or those in the
    /// referencing symbol's own container.
    SameOrNone(Option<&'a str>),
    /// A receiver or method-specification reference: any container.
    Any,
}

/// A container rule as plain values: `None` for any container, otherwise
/// the referencing symbol's own container.
pub open spec fn rule_view(rule: ContainerRule) -> Option<Option<Seq<char>>> {
    match rule {
        ContainerRule::Any => None,
        ContainerRule::SameOrNone(own) => Some(
            match own {
                Some(c) => Some(c@),
                None => None,
            },
        ),
    }
}

/// Whether a candidate passes the rule `rule`.
pub open spec fn rule_admits(rule: Option<Option<Seq<char>>>, c: ResolvedSymbol) -> bool {
    match rule {
        None => true,
        Some(own) => c.container is None || opt_view(c.container) == own,
    }
}

/// Whether candidate `c` for `name` is kept before ranking: its container
/// passes `rule`, and it is neither the referencing symbol itself nor a
/// symbol of the change.
pub open spec fn admits(
    c: ResolvedSymbol,
    name: Seq<char>,
    own: (Seq<char>, Option<Seq<char>>, Seq<char>),
    files: Seq<FileReport>,
    rule: Option<Option<Seq<char>>>,
) -> bool {
    rule_admits(rule, c) && identity(name, opt_view(c.container), c.path@) != own && !in_change(
        files,
        identity(name, opt_view(c.container), c.path@),
    )
}

/// The candidates of `cands` that [`admits`] keeps, in order.
pub open spec fn admitted(
    cands: Seq<ResolvedSymbol>,
    name: Seq<char>,
    own: (Seq<char>, Option<Seq<char>>, Seq<char>),
    files: Seq<FileReport>,
    rule: Option<Option<Seq<char>>>,
) -> Seq<ResolvedSymbol>
    decreases cands.len(),
{
    if cands.len() == 0 {
        Seq::empty()
    } else {
        admitted(cands.drop_last(), name, own, files, rule) + if admits(cands.last(), name, own, files, rule) {
            seq![cands.last()]
        } else {
            Seq::empty()
        }
    }
}

/// Whether rank `a` sorts strictly before rank `b`.
pub open spec fn rank_lt(a: ProximityRank, b: ProximityRank) -> bool {
    a.tier < b.tier || (a.tier == b.tier && a.shared_depth > b.shared_depth)
}

/// `sorted` with `x` inserted after every element that does not rank
/// strictly after it.
pub open spec fn insert_ranked(sorted: Seq<ResolvedSymbol>, x: ResolvedSymbol, referencing: Seq<char>) -> Seq<
    ResolvedSymbol,
>
    decreases sorted.len(),
{
    if sorted.len() == 0 {
        seq![x]
    } else if rank_lt(
        spec_proximity_rank(referencing, x.path@),
        spec_proximity_rank(referencing, sorted.last().path@),
    ) {
        insert_ranked(sorted.drop_last(), x, referencing).push(sorted.last())
    } else {
        sorted.push(x)
    }
}

/// `cands` stably sorted by proximity to `referencing`: closer first, and
/// equally close candidates in their original order.
pub open spec fn ranked(cands: Seq<ResolvedSymbol>, referencing: Seq<char>) -> Seq<ResolvedSymbol>
    decreases cands.len(),
{
    if cands.len() == 0 {
        Seq::empty()
    } else {
        insert_ranked(ranked(cands.drop_last(), referencing), cands.last(), referencing)
    }
}

/// What resolving one referenced name contributes: the admitted
/// candidates ranked by proximity, at most [`MAX_MATCHES_PER_NAME`] of
/// them, and how many the cap cut.
pub open spec fn collected<R: Resolver>(
    resolver: R,
    name: Seq<char>,
    own: (Seq<char>, Option<Seq<char>>, Seq<char>),
    files: Seq<FileReport>,
    referencing: Seq<char>,
    rule: Option<Option<Seq<char>>>,
) -> (Seq<ResolvedSymbol>, nat) {
    let c = ranked(admitted(resolver.resolved(name), name, own, files, rule), referencing);
    if c.len() > 3 {
        (c.take(3), (c.len() - 3) as nat)
    } else {
        (c, 0)
    }
}

/// What resolving every name of `names` contributes, in order.
pub open spec fn names_collected<R: Resolver>(
    resolver: R,
    names: Seq<String>,
    own: (Seq<char>, Option<Seq<char>>, Seq<char>),
    files: Seq<FileReport>,
    referencing: Seq<char>,
    rule: Option<Option<Seq<char>>>,
) -> (Seq<ResolvedSymbol>, nat)
    decreases names.len(),
{
    if names.len() == 0 {
        (Seq::empty(), 0)
    } else {
        let p = names_collected(resolver, names.drop_last(), own, files, referencing, rule);
        let c = collected(resolver, names.last()@, own, files, referencing, rule);
        (p.0 + c.0, p.1 + c.1)
    }
}

/// The dependencies of symbol `s` of the file at `path` and the number of
/// candidates the cap cut: its bare references first, restricted to
/// top-level candidates and its own container, then its method references,
/// in any container.
pub open spec fn symbol_dependencies<R: Resolver>(
    resolver: R,
    s: ExtractedSymbol,
    path: Seq<char>,
    files: Seq<FileReport>,
) -> (Seq<ResolvedSymbol>, nat) {
    let own = identity(s.name@, opt_view(s.container), path);
    let bare = names_collected(resolver, s.referenced_names@, own, files, path, Some(opt_view(s.container)));
    let method = names_collected(resolver, s.referenced_method_names@, own, files, path, None);
    (bare.0 + method.0, bare.1 + method.1)
}

/// Whether `a` is `b` with only its dependencies and their count changed.
pub open spec fn same_but_dependencies(a: ExtractedSymbol, b: ExtractedSymbol) -> bool {
    &&& a.id == b.id
    &&& a.name == b.name
    &&& a.kind == b.kind
    &&& a.signature == b.signature
    &&& a.range == b.range
    &&& a.container == b.container
    &&& a.referenced_names == b.referenced_names
    &&& a.referenced_method_names == b.referenced_method_names
    &&& a.is_test == b.is_test
    &&& a.classification == b.classification
    &&& a.previous_signature == b.previous_signature
}

/// The identities of every symbol of the change, as owned values.
pub struct ChangeKeys {
    pub keys: Vec<(String, Option<String>, String)>,
}

/// Owned identities as plain values.
pub open spec fn keys_view(keys: Seq<(String, Option<String>, String)>) -> Seq<(Seq<char>, Option<Seq<char>>, Seq<char>)> {
    keys.map_values(|t: (String, Option<String>, String)| identity(t.0@, opt_view(t.1), t.2@))
}

fn change_keys(files: &Vec<FileReport>) -> (r: ChangeKeys)
    ensures
        keys_view(r.keys@) == change_identities(files@),
{
    let mut keys: Vec<(String, Option<String>, String)> = Vec::new();
    let mut i: usize = 0;
    assert(keys_view(keys@) =~= Seq::empty());
    while i < files.len()
        invariant
            i <= files@.len(),
            keys_view(keys@) == change_identities(files@.take(i as int)),
        decreases files@.len() - i,
    {
        let ghost before = keys_view(keys@);
        let mut j: usize = 0;
        while j < files[i].symbols.len()
            invariant
                i < files@.len(),
                j <= files@[i as int].symbols@.len(),
                keys_view(keys@) == before + file_identities(files@[i as int]).take(j as int),
            decreases files@[i as int].symbols@.len() - j,
        {
            let symbol = &files[i].symbols[j];
            let key = (symbol.name.clone(), copy_opt_string(&symbol.container), files[i].path.clone());
            let ghost mid = keys@;
            keys.push(key);
            assert(keys_view(keys@) =~= keys_view(mid).push(identity(key.0@, opt_view(key.1), key.2@)));
            assert(file_identities(files@[i as int]).take(j + 1) =~= file_identities(files@[i as int]).take(
                j as int,
            ).push(symbol_identity(files@[i as int], j as int)));
            j = j + 1;
        }
        assert(file_identities(files@[i as int]).take(j as int) =~= file_identities(files@[i as int]));
        assert(files@.take(i + 1).drop_last() =~= files@.take(i as int));
        i = i + 1;
    }
    assert(files@.take(files@.len() as int) =~= files@);
    ChangeKeys { keys }
}

fn in_keys(keys: &Vec<(String, Option<String>, String)>, name: &String, container: &Option<String>, path: &String) -> (r:
    bool)
    ensures
        r == keys_view(keys@).contains(identity(name@, opt_view(*container), path@)),
{
    let ghost view = keys_view(keys@);
    let ghost key = identity(name@, opt_view(*container), path@);
    let mut i: usize = 0;
    while i < keys.len()
        invariant
            i <= keys@.len(),
            view == keys_view(keys@),
            key == identity(name@, opt_view(*container), path@),
            forall|m: int| 0 <= m < i ==> view[m] != key,
        decreases keys@.len() - i,
    {
        let (k_name, k_container, k_path) = &keys[i];
        if *k_name == *name && opt_str_eq(k_container, container) && *k_path == *path {
            assert(view[i as int] == key);
            return true;
        }
        i = i + 1;
    }
    false
}

fn rule_ok(rule: &ContainerRule<'_>, c: &ResolvedSymbol) -> (r: bool)
    ensures
        r == rule_admits(rule_view(*rule), *c),
{
    match rule {
        ContainerRule::Any => true,
        ContainerRule::SameOrNone(own) => match (&c.container, own) {
            (None, _) => true,
            (Some(x), Some(o)) => {
                let a = str_chars(x.as_str());
                let b = str_chars(o);
                crate::text::chars_eq(a.as_slice(), b.as_slice())
            },
            (Some(_), None) => false,
        },
    }
}

fn rank_less(a: ProximityRank, b: ProximityRank) -> (r: bool)
    ensures
        r == rank_lt(a, b),
{
    a.tier < b.tier || (a.tier == b.tier && a.shared_depth > b.shared_depth)
}

/// Inserts `x` into the ranked list `sorted` after every element that does
/// not rank strictly after it, keeping `ranks` in step.
fn insert_by_rank(
    sorted: &mut Vec<ResolvedSymbol>,
    ranks: &mut Vec<ProximityRank>,
    x: ResolvedSymbol,
    rx: ProximityRank,
    referencing: Ghost<Seq<char>>,
)
    requires
        old(ranks)@.len() == old(sorted)@.len(),
        forall|i: int|
            0 <= i < old(sorted)@.len() ==> #[trigger] old(ranks)@[i] == spec_proximity_rank(
                referencing@,
                old(sorted)@[i].path@,
            ),
        rx == spec_proximity_rank(referencing@, x.path@),
    ensures
        final(sorted)@ == insert_ranked(old(sorted)@, x, referencing@),
        final(ranks)@.len() == final(sorted)@.len(),
        forall|i: int|
            0 <= i < final(sorted)@.len() ==> #[trigger] final(ranks)@[i] == spec_proximity_rank(
                referencing@,
                final(sorted)@[i].path@,
            ),
{
    let ghost old_sorted = sorted@;
    let mut j: usize = sorted.len();
    assert(old_sorted.take(j as int) =~= old_sorted);
    assert(old_sorted.skip(j as int) =~= Seq::<ResolvedSymbol>::empty());
    while j > 0 && rank_less(rx, ranks[j - 1])
        invariant
            j <= sorted@.len(),
            sorted@ == old_sorted,
            ranks@.len() == sorted@.len(),
            forall|i: int|
                0 <= i < sorted@.len() ==> #[trigger] ranks@[i] == spec_proximity_rank(referencing@, sorted@[i].path@),
            rx == spec_proximity_rank(referencing@, x.path@),
            insert_ranked(old_sorted, x, referencing@) == insert_ranked(old_sorted.take(j as int), x, referencing@)
                + old_sorted.skip(j as int),
        decreases j,
    {
        let ghost t = old_sorted.take(j as int);
        assert(t.drop_last() =~= old_sorted.take(j - 1));
        assert(t.last() == old_sorted[j - 1]);
        assert(old_sorted.skip(j - 1) =~= seq![old_sorted[j - 1]] + old_sorted.skip(j as int));
        j = j - 1;
    }
    proof {
        if j == 0 {
            assert(old_sorted.take(0) =~= Seq::<ResolvedSymbol>::empty());
        }
    }
    let ghost before_ranks = ranks@;
    sorted.insert(j, x);
    ranks.insert(j, rx);
    assert(sorted@ =~= old_sorted.take(j as int).push(x) + old_sorted.skip(j as int));
    assert forall|i: int|
        0 <= i < sorted@.len() implies #[trigger] ranks@[i] == spec_proximity_rank(referencing@, sorted@[i].path@) by {
        if i < j {
            assert(ranks@[i] == before_ranks[i]);
        } else if i > j {
            assert(ranks@[i] == before_ranks[i - 1]);
            assert(sorted@[i] == old_sorted[i - 1]);
        }
    }
}

/// Resolves `name`, keeps the candidates [`admits`] keeps, ranks them by
/// proximity to `referencing_path` (a stable sort), and appends at most
/// [`MAX_MATCHES_PER_NAME`] of them to `dependencies`, adding the number
/// cut to `omitted`.
fn collect_candidates<R: Resolver>(
    resolver: &R,
    name: &String,
    own: (&String, &Option<String>, &String),
    keys: &Vec<(String, Option<String>, String)>,
    files: Ghost<Seq<FileReport>>,
    referencing_path: &String,
    rule: ContainerRule<'_>,
    dependencies: &mut Vec<ResolvedSymbol>,
    omitted: &mut usize,
)
    requires
        keys_view(keys@) == change_identities(files@),
        *old(omitted) as int + collected(
            *resolver,
            name@,
            identity(own.0@, opt_view(*own.1), own.2@),
            files@,
            referencing_path@,
            rule_view(rule),
        ).1 <= usize::MAX,
    ensures
        ({
            let c = collected(
                *resolver,
                name@,
                identity(own.0@, opt_view(*own.1), own.2@),
                files@,
                referencing_path@,
                rule_view(rule),
            );
            &&& final(dependencies)@ == old(dependencies)@ + c.0
            &&& *final(omitted) as int == *old(omitted) as int + c.1
        }),
{
    let ghost own_key = identity(own.0@, opt_view(*own.1), own.2@);
    let ghost spec_rule = rule_view(rule);
    let resolved = resolver.resolve(name.as_str());
    let referencing = str_chars(referencing_path.as_str());
    let mut sorted: Vec<ResolvedSymbol> = Vec::new();
    let mut ranks: Vec<ProximityRank> = Vec::new();
    let mut i: usize = 0;
    while i < resolved.len()
        invariant
            i <= resolved@.len(),
            referencing@ == referencing_path@,
            keys_view(keys@) == change_identities(files@),
            own_key == identity(own.0@, opt_view(*own.1), own.2@),
            spec_rule == rule_view(rule),
            ranks@.len() == sorted@.len(),
            forall|m: int|
                0 <= m < sorted@.len() ==> #[trigger] ranks@[m] == spec_proximity_rank(
                    referencing_path@,
                    sorted@[m].path@,
                ),
            sorted@ == ranked(admitted(resolved@.take(i as int), name@, own_key, files@, spec_rule), referencing_path@),
        decreases resolved@.len() - i,
    {
        let candidate = &resolved[i];
        let ghost prefix = resolved@.take(i as int);
        assert(resolved@.take(i + 1).drop_last() =~= prefix);
        let same_as_own = *name == *own.0 && opt_str_eq(&candidate.container, own.1) && candidate.path == *own.2;
        let keep = rule_ok(&rule, candidate) && !same_as_own && !in_keys(
            keys,
            name,
            &candidate.container,
            &candidate.path,
        );
        assert(keep == admits(*candidate, name@, own_key, files@, spec_rule));
        if keep {
            let rank = path_proximity_rank(referencing.as_slice(), str_chars(candidate.path.as_str()).as_slice());
            insert_by_rank(&mut sorted, &mut ranks, copy_resolved(candidate), rank, Ghost(referencing_path@));
            assert(admitted(resolved@.take(i + 1), name@, own_key, files@, spec_rule) =~= admitted(
                prefix,
                name@,
                own_key,
                files@,
                spec_rule,
            ).push(*candidate));
            assert(admitted(resolved@.take(i + 1), name@, own_key, files@, spec_rule).drop_last() =~= admitted(
                prefix,
                name@,
                own_key,
                files@,
                spec_rule,
            ));
        } else {
            assert(admitted(resolved@.take(i + 1), name@, own_key, files@, spec_rule) =~= admitted(
                prefix,
                name@,
                own_key,
                files@,
                spec_rule,
            ));
        }
        i = i + 1;
    }
    assert(resolved@.take(resolved@.len() as int) =~= resolved@);
    if sorted.len() > MAX_MATCHES_PER_NAME {
        *omitted = *omitted + (sorted.len() - MAX_MATCHES_PER_NAME);
        sorted.truncate(MAX_MATCHES_PER_NAME);
    }
    let ghost before = dependencies@;
    let mut kept = sorted;
    dependencies.append(&mut kept);
}

proof fn lemma_names_collected_prefix<R: Resolver>(
    resolver: R,
    names: Seq<String>,
    own: (Seq<char>, Option<Seq<char>>, Seq<char>),
    files: Seq<FileReport>,
    referencing: Seq<char>,
    rule: Option<Option<Seq<char>>>,
    k: int,
)
    requires
        0 <= k <= names.len(),
    ensures
        names_collected(resolver, names.take(k), own, files, referencing, rule).1 <= names_collected(
            resolver,
            names,
            own,
            files,
            referencing,
            rule,
        ).1,
    decreases names.len() - k,
{
    if k < names.len() {
        lemma_names_collected_prefix(resolver, names, own, files, referencing, rule, k + 1);
        assert(names.take(k + 1).drop_last() =~= names.take(k));
    } else {
        assert(names.take(k) =~= names);
    }
}

fn collect_names<R: Resolver>(
    resolver: &R,
    names: &Vec<String>,
    symbol: &ExtractedSymbol,
    path: &String,
    keys: &Vec<(String, Option<String>, String)>,
    files: Ghost<Seq<FileReport>>,
    any_container: bool,
    dependencies: &mut Vec<ResolvedSymbol>,
    omitted: &mut usize,
)
    requires
        keys_view(keys@) == change_identities(files@),
        *old(omitted) as int + names_collected(
            *resolver,
            names@,
            identity(symbol.name@, opt_view(symbol.container), path@),
            files@,
            path@,
            if any_container {
                None
            } else {
                Some(opt_view(symbol.container))
            },
        ).1 <= usize::MAX,
    ensures
        ({
            let c = names_collected(
                *resolver,
                names@,
                identity(symbol.name@, opt_view(symbol.container), path@),
                files@,
                path@,
                if any_container {
                    None
                } else {
                    Some(opt_view(symbol.container))
                },
            );
            &&& final(dependencies)@ == old(dependencies)@ + c.0
            &&& *final(omitted) as int == *old(omitted) as int + c.1
        }),
{
    let ghost own = identity(symbol.name@, opt_view(symbol.container), path@);
    let ghost rule = if any_container {
        None
    } else {
        Some(opt_view(symbol.container))
    };
    let ghost deps0 = dependencies@;
    let ghost omitted0 = *omitted as int;
    let mut k: usize = 0;
    assert(names@.take(0) =~= Seq::<String>::empty());
    assert(deps0 + Seq::<ResolvedSymbol>::empty() =~= deps0);
    while k < names.len()
        invariant
            k <= names@.len(),
            keys_view(keys@) == change_identities(files@),
            own == identity(symbol.name@, opt_view(symbol.container), path@),
            rule == if any_container {
                None
            } else {
                Some(opt_view(symbol.container))
            },
            omitted0 + names_collected(*resolver, names@, own, files@, path@, rule).1 <= usize::MAX,
            dependencies@ == deps0 + names_collected(*resolver, names@.take(k as int), own, files@, path@, rule).0,
            *omitted as int == omitted0 + names_collected(*resolver, names@.take(k as int), own, files@, path@, rule).1,
        decreases names@.len() - k,
    {
        proof {
            lemma_names_collected_prefix(*resolver, names@, own, files@, path@, rule, k + 1);
        }
        assert(names@.take(k + 1).drop_last() =~= names@.take(k as int));
        let container_rule = if any_container {
            ContainerRule::Any
        } else {
            match &symbol.container {
                Some(c) => ContainerRule::SameOrNone(Some(c.as_str())),
                None => ContainerRule::SameOrNone(None),
            }
        };
        assert(rule_view(container_rule) == rule);
        let ghost before = dependencies@;
        collect_candidates(
            resolver,
            &names[k],
            (&symbol.name, &symbol.container, path),
            keys,
            files,
            path,
            container_rule,
            dependencies,
            omitted,
        );
        assert(dependencies@ =~= deps0 + names_collected(*resolver, names@.take(k + 1), own, files@, path@, rule).0);
        k = k + 1;
    }
    assert(names@.take(names@.len() as int) =~= names@);
}

/// Whether the capped-away count of every symbol fits in a `usize`.
pub open spec fn omitted_counts_fit<R: Resolver>(resolver: R, files: Seq<FileReport>) -> bool {
    forall|i: int, j: int|
        0 <= i < files.len() && 0 <= j < files[i].symbols@.len() ==> #[trigger] symbol_dependencies(
            resolver,
            files[i].symbols@[j],
            files[i].path@,
            files,
        ).1 <= usize::MAX
}

/// Whether `r` is `files` with every symbol's dependencies resolved through
/// `index`.
pub open spec fn dependencies_resolved<R: Resolver>(
    r: Seq<FileReport>,
    files: Seq<FileReport>,
    resolver: R,
) -> bool {
    &&& r.len() == files.len()
    &&& forall|i: int|
        0 <= i < r.len() ==> {
            &&& (#[trigger] r[i]).path == files[i].path
            &&& r[i].symbols@.len() == files[i].symbols@.len()
            &&& forall|j: int|
                0 <= j < r[i].symbols@.len() ==> {
                    &&& same_but_dependencies(#[trigger] r[i].symbols@[j], files[i].symbols@[j])
                    &&& (r[i].symbols@[j].dependencies@, r[i].symbols@[j].omitted_dependency_matches as nat)
                        == symbol_dependencies(resolver, files[i].symbols@[j], files[i].path@, files)
                }
        }
}

/// Fills in every symbol's dependencies by resolving its referenced names
/// through `resolver`, over every file of the change at once: a symbol may
/// reference one changed in another file, and such a symbol (like the
/// symbol itself) is left out, being shown elsewhere in the report.
///
/// Bare references keep only top-level candidates and those in the
/// referencing symbol's own container; method references keep any. The
/// candidates for each name are ranked by path proximity, closest first
/// and ties in index order, and at most [`MAX_MATCHES_PER_NAME`] are kept;
/// the rest are counted in `omitted_dependency_matches`.
pub fn resolve_dependencies<R: Resolver>(files: Vec<FileReport>, resolver: &R) -> (r: Vec<FileReport>)
    requires
        omitted_counts_fit(*resolver, files@),
    ensures
        dependencies_resolved(r@, files@, *resolver),
{
    let keys = change_keys(&files);
    let ghost orig = files@;
    let mut files = files;
    let mut i: usize = 0;
    while i < files.len()
        invariant
            i <= files@.len(),
            files@.len() == orig.len(),
            keys_view(keys.keys@) == change_identities(orig),
            omitted_counts_fit(*resolver, orig),
            forall|a: int| i <= a < files@.len() ==> #[trigger] files@[a] == orig[a],
            forall|a: int|
                0 <= a < i ==> {
                    &&& (#[trigger] files@[a]).path == orig[a].path
                    &&& files@[a].symbols@.len() == orig[a].symbols@.len()
                    &&& forall|j: int|
                        0 <= j < files@[a].symbols@.len() ==> {
                            &&& same_but_dependencies(#[trigger] files@[a].symbols@[j], orig[a].symbols@[j])
                            &&& (files@[a].symbols@[j].dependencies@, files@[a].symbols@[j].omitted_dependency_matches as nat)
                                == symbol_dependencies(*resolver, orig[a].symbols@[j], orig[a].path@, orig)
                        }
                },
        decreases files@.len() - i,
    {
        let file = files.remove(i);
        let path = file.path;
        let mut symbols = file.symbols;
        let ghost orig_symbols = orig[i as int].symbols@;
        let mut j: usize = 0;
        while j < symbols.len()
            invariant
                i < orig.len(),
                path == orig[i as int].path,
                symbols@.len() == orig_symbols.len(),
                orig_symbols == orig[i as int].symbols@,
                keys_view(keys.keys@) == change_identities(orig),
                omitted_counts_fit(*resolver, orig),
                forall|b: int| j <= b < symbols@.len() ==> #[trigger] symbols@[b] == orig_symbols[b],
                forall|b: int|
                    0 <= b < j ==> {
                        &&& same_but_dependencies(#[trigger] symbols@[b], orig_symbols[b])
                        &&& (symbols@[b].dependencies@, symbols@[b].omitted_dependency_matches as nat)
                            == symbol_dependencies(*resolver, orig_symbols[b], orig[i as int].path@, orig)
                    },
            decreases symbols@.len() - j,
        {
            let ghost s0 = orig_symbols[j as int];
            assert(symbol_dependencies(*resolver, orig[i as int].symbols@[j as int], orig[i as int].path@, orig).1
                <= usize::MAX);
            let mut dependencies: Vec<ResolvedSymbol> = Vec::new();
            let mut omitted: usize = 0;
            proof {
                let own = identity(s0.name@, opt_view(s0.container), path@);
                let bare = names_collected(*resolver, s0.referenced_names@, own, orig, path@, Some(opt_view(s0.container)));
                let method = names_collected(*resolver, s0.referenced_method_names@, own, orig, path@, None);
                assert(bare.1 + method.1 <= usize::MAX);
            }
            collect_names(resolver, &symbols[j].referenced_names, &symbols[j], &path, &keys.keys, Ghost(orig), false, &mut dependencies, &mut omitted);
            collect_names(resolver, &symbols[j].referenced_method_names, &symbols[j], &path, &keys.keys, Ghost(orig), true, &mut dependencies, &mut omitted);
            assert(dependencies@ =~= Seq::<ResolvedSymbol>::empty() + symbol_dependencies(*resolver, s0, path@, orig).0);
            let mut symbol = symbols.remove(j);
            symbol.dependencies = dependencies;
            symbol.omitted_dependency_matches = omitted;
            symbols.insert(j, symbol);
            j = j + 1;
        }
        let ghost before = files@;
        files.insert(i, FileReport { path, symbols });
        assert(forall|a: int| 0 <= a < i ==> files@[a] == before[a]);
        assert(forall|a: int| i < a < files@.len() ==> files@[a] == before[a - 1]);
        i = i + 1;
    }
    files
}

/// Whether a file enters the index (before the name prefilter): not a test
/// file when tests are excluded, and, unless generated files are included,
/// neither listed as generated nor marked generated in its content.
pub open spec fn spec_admits_for_indexing(
    path: Seq<char>,
    content: Seq<char>,
    is_test_path: bool,
    include_tests: bool,
    generated_paths: Seq<String>,
    include_generated: bool,
) -> bool {
    &&& include_tests || !is_test_path
    &&& include_generated || !crate::str_map::key_listed(generated_paths, path)
    &&& include_generated || !spec_is_generated_content(content)
}

/// Whether a file enters the index (see [`spec_admits_for_indexing`]);
/// `is_test_path` is what the file's language says of its path.
pub fn admits_for_indexing(
    path: &str,
    content: &str,
    is_test_path: bool,
    include_tests: bool,
    generated_paths: &[String],
    include_generated: bool,
) -> (r: bool)
    ensures
        r == spec_admits_for_indexing(path@, content@, is_test_path, include_tests, generated_paths@, include_generated),
{
    if !include_tests && is_test_path {
        return false;
    }
    if !include_generated && crate::str_map::list_has(generated_paths, path) {
        return false;
    }
    if !include_generated && is_generated_content(content) {
        return false;
    }
    true
}

proof fn lemma_insert_ranked_members(sorted: Seq<ResolvedSymbol>, x: ResolvedSymbol, referencing: Seq<char>)
    ensures
        forall|y: ResolvedSymbol| #[trigger] insert_ranked(sorted, x, referencing).contains(y) <==> (sorted.contains(y)
            || y == x),
    decreases sorted.len(),
{
    if sorted.len() > 0 {
        lemma_insert_ranked_members(sorted.drop_last(), x, referencing);
        let r = insert_ranked(sorted, x, referencing);
        assert forall|y: ResolvedSymbol| #[trigger] r.contains(y) <==> (sorted.contains(y) || y == x) by {
            if rank_lt(spec_proximity_rank(referencing, x.path@), spec_proximity_rank(referencing, sorted.last().path@)) {
                let inner = insert_ranked(sorted.drop_last(), x, referencing);
                assert(r == inner.push(sorted.last()));
                if r.contains(y) {
                    let k = choose|k: int| 0 <= k < r.len() && r[k] == y;
                    if k < inner.len() {
                        assert(inner.contains(y));
                        if sorted.drop_last().contains(y) {
                            let j = choose|j: int| 0 <= j < sorted.drop_last().len() && sorted.drop_last()[j] == y;
                            assert(sorted[j] == y);
                        }
                    } else {
                        assert(sorted[sorted.len() - 1] == y);
                    }
                }
                if sorted.contains(y) {
                    let j = choose|j: int| 0 <= j < sorted.len() && sorted[j] == y;
                    if j < sorted.len() - 1 {
                        assert(sorted.drop_last()[j] == y);
                        assert(inner.contains(y));
                        let k = choose|k: int| 0 <= k < inner.len() && inner[k] == y;
                        assert(r[k] == y);
                    } else {
                        assert(r[r.len() - 1] == y);
                    }
                }
                if y == x {
                    assert(inner.contains(x));
                    let k = choose|k: int| 0 <= k < inner.len() && inner[k] == x;
                    assert(r[k] == x);
                }
            } else {
                assert(r == sorted.push(x));
                if r.contains(y) {
                    let k = choose|k: int| 0 <= k < r.len() && r[k] == y;
                    if k < sorted.len() {
                        assert(sorted[k] == y);
                    }
                }
                if sorted.contains(y) {
                    let j = choose|j: int| 0 <= j < sorted.len() && sorted[j] == y;
                    assert(r[j] == y);
                }
                if y == x {
                    assert(r[r.len() - 1] == x);
                }
            }
        }
    } else {
        assert forall|y: ResolvedSymbol| #[trigger] insert_ranked(sorted, x, referencing).contains(y) <==> (
        sorted.contains(y) || y == x) by {
            if y == x {
                assert(insert_ranked(sorted, x, referencing)[0] == x);
            }
        }
    }
}

proof fn lemma_ranked_members(cands: Seq<ResolvedSymbol>, referencing: Seq<char>)
    ensures
        forall|y: ResolvedSymbol| #[trigger] ranked(cands, referencing).contains(y) ==> cands.contains(y),
        ranked(cands, referencing).len() == cands.len(),
    decreases cands.len(),
{
    if cands.len() > 0 {
        lemma_ranked_members(cands.drop_last(), referencing);
        lemma_insert_ranked_members(ranked(cands.drop_last(), referencing), cands.last(), referencing);
        lemma_insert_ranked_len(ranked(cands.drop_last(), referencing), cands.last(), referencing);
        assert forall|y: ResolvedSymbol| #[trigger] ranked(cands, referencing).contains(y) implies cands.contains(y) by {
            if ranked(cands.drop_last(), referencing).contains(y) {
                let j = choose|j: int| 0 <= j < cands.drop_last().len() && cands.drop_last()[j] == y;
                assert(cands[j] == y);
            } else {
                assert(cands[cands.len() - 1] == y);
            }
        }
    }
}

proof fn lemma_insert_ranked_len(sorted: Seq<ResolvedSymbol>, x: ResolvedSymbol, referencing: Seq<char>)
    ensures
        insert_ranked(sorted, x, referencing).len() == sorted.len() + 1,
    decreases sorted.len(),
{
    if sorted.len() > 0 {
        lemma_insert_ranked_len(sorted.drop_last(), x, referencing);
    }
}

proof fn lemma_admitted_members(
    cands: Seq<ResolvedSymbol>,
    name: Seq<char>,
    own: (Seq<char>, Option<Seq<char>>, Seq<char>),
    files: Seq<FileReport>,
    rule: Option<Option<Seq<char>>>,
)
    ensures
        forall|y: ResolvedSymbol| #[trigger] admitted(cands, name, own, files, rule).contains(y) ==> admits(
            y,
            name,
            own,
            files,
            rule,
        ),
    decreases cands.len(),
{
    if cands.len() > 0 {
        lemma_admitted_members(cands.drop_last(), name, own, files, rule);
        let prev = admitted(cands.drop_last(), name, own, files, rule);
        let all = admitted(cands, name, own, files, rule);
        assert forall|y: ResolvedSymbol| #[trigger] all.contains(y) implies admits(y, name, own, files, rule) by {
            let k = choose|k: int| 0 <= k < all.len() && all[k] == y;
            if k < prev.len() {
                assert(prev[k] == y);
                assert(prev.contains(y));
            }
        }
    }
}

/// What resolving one name contributes holds at most
/// [`MAX_MATCHES_PER_NAME`] definitions, none of them the referencing
/// symbol itself or a symbol of the change, each in a container the
/// reference can reach; and what the cap cut is counted, not lost: kept
/// and cut together are every admitted candidate.
pub proof fn resolved_dependencies_are_admitted_and_capped<R: Resolver>(
    resolver: R,
    name: Seq<char>,
    own: (Seq<char>, Option<Seq<char>>, Seq<char>),
    files: Seq<FileReport>,
    referencing: Seq<char>,
    rule: Option<Option<Seq<char>>>,
)
    ensures
        ({
            let c = collected(resolver, name, own, files, referencing, rule);
            &&& c.0.len() <= MAX_MATCHES_PER_NAME
            &&& c.0.len() + c.1 == admitted(resolver.resolved(name), name, own, files, rule).len()
            &&& forall|i: int|
                0 <= i < c.0.len() ==> {
                    &&& rule_admits(rule, #[trigger] c.0[i])
                    &&& identity(name, opt_view(c.0[i].container), c.0[i].path@) != own
                    &&& !in_change(files, identity(name, opt_view(c.0[i].container), c.0[i].path@))
                }
        }),
{
    let a = admitted(resolver.resolved(name), name, own, files, rule);
    let r = ranked(a, referencing);
    lemma_ranked_members(a, referencing);
    lemma_admitted_members(resolver.resolved(name), name, own, files, rule);
    let c = collected(resolver, name, own, files, referencing, rule);
    assert forall|i: int| 0 <= i < c.0.len() implies {
        &&& rule_admits(rule, #[trigger] c.0[i])
        &&& identity(name, opt_view(c.0[i].container), c.0[i].path@) != own
        &&& !in_change(files, identity(name, opt_view(c.0[i].container), c.0[i].path@))
    } by {
        assert(c.0[i] == r[i]);
        assert(r.contains(r[i]));
        assert(a.contains(r[i]));
    }
}

/// Whether `s` is ordered by proximity to `referencing`: no candidate
/// ranks strictly before one in front of it.
pub open spec fn ranked_in_order(s: Seq<ResolvedSymbol>, referencing: Seq<char>) -> bool {
    forall|i: int, j: int|
        0 <= i < j < s.len() ==> !rank_lt(
            spec_proximity_rank(referencing, (#[trigger] s[j]).path@),
            spec_proximity_rank(referencing, (#[trigger] s[i]).path@),
        )
}

proof fn lemma_insert_ranked_in_order(sorted: Seq<ResolvedSymbol>, x: ResolvedSymbol, referencing: Seq<char>)
    requires
        ranked_in_order(sorted, referencing),
    ensures
        ranked_in_order(insert_ranked(sorted, x, referencing), referencing),
        insert_ranked(sorted, x, referencing).len() == sorted.len() + 1,
        forall|y: ResolvedSymbol| #[trigger] insert_ranked(sorted, x, referencing).contains(y) <==> (sorted.contains(y)
            || y == x),
    decreases sorted.len(),
{
    lemma_insert_ranked_members(sorted, x, referencing);
    lemma_insert_ranked_len(sorted, x, referencing);
    if sorted.len() > 0 {
        let last = sorted.last();
        let rx = spec_proximity_rank(referencing, x.path@);
        let rl = spec_proximity_rank(referencing, last.path@);
        let r = insert_ranked(sorted, x, referencing);
        if rank_lt(rx, rl) {
            let t = sorted.drop_last();
            assert(ranked_in_order(t, referencing)) by {
                assert forall|i: int, j: int| 0 <= i < j < t.len() implies !rank_lt(
                    spec_proximity_rank(referencing, (#[trigger] t[j]).path@),
                    spec_proximity_rank(referencing, (#[trigger] t[i]).path@),
                ) by {
                    assert(t[i] == sorted[i] && t[j] == sorted[j]);
                }
            }
            lemma_insert_ranked_in_order(t, x, referencing);
            let inner = insert_ranked(t, x, referencing);
            assert(r == inner.push(last));
            assert forall|i: int, j: int| 0 <= i < j < r.len() implies !rank_lt(
                spec_proximity_rank(referencing, (#[trigger] r[j]).path@),
                spec_proximity_rank(referencing, (#[trigger] r[i]).path@),
            ) by {
                if j == r.len() - 1 {
                    let y = r[i];
                    assert(inner[i] == y);
                    assert(inner.contains(y));
                    if y != x {
                        assert(t.contains(y));
                        let m = choose|m: int| 0 <= m < t.len() && t[m] == y;
                        assert(sorted[m] == y);
                        assert(sorted[sorted.len() - 1] == last);
                    }
                } else {
                    assert(r[i] == inner[i] && r[j] == inner[j]);
                }
            }
        } else {
            assert(r == sorted.push(x));
            assert forall|i: int, j: int| 0 <= i < j < r.len() implies !rank_lt(
                spec_proximity_rank(referencing, (#[trigger] r[j]).path@),
                spec_proximity_rank(referencing, (#[trigger] r[i]).path@),
            ) by {
                if j == r.len() - 1 {
                    assert(r[i] == sorted[i]);
                    if i < sorted.len() - 1 {
                        assert(!rank_lt(rl, spec_proximity_rank(referencing, sorted[i].path@))) by {
                            assert(sorted[sorted.len() - 1] == last);
                        }
                    }
                } else {
                    assert(r[i] == sorted[i] && r[j] == sorted[j]);
                }
            }
        }
    }
}

/// Ranking orders the candidates closest first (a stable sort by path
/// proximity), keeping every candidate.
pub proof fn ranked_candidates_are_in_order(cands: Seq<ResolvedSymbol>, referencing: Seq<char>)
    ensures
        ranked_in_order(ranked(cands, referencing), referencing),
        ranked(cands, referencing).len() == cands.len(),
    decreases cands.len(),
{
    if cands.len() > 0 {
        ranked_candidates_are_in_order(cands.drop_last(), referencing);
        lemma_insert_ranked_in_order(ranked(cands.drop_last(), referencing), cands.last(), referencing);
    }
}

/// Whether every white-space character of `s` is a plain space and no two
/// of them are adjacent.
pub open spec fn single_spaced(s: Seq<char>) -> bool {
    &&& forall|i: int| 0 <= i < s.len() && spec_is_whitespace(#[trigger] s[i]) ==> s[i] == ' '
    &&& forall|i: int| 0 <= i < s.len() - 1 ==> !(spec_is_whitespace(#[trigger] s[i]) && spec_is_whitespace(s[i + 1]))
}

proof fn lemma_collapsed_prefix(s: Seq<char>, n: int)
    requires
        0 <= n <= s.len(),
    ensures
        single_spaced(collapsed_prefix(s, n)),
        n > 0 ==> collapsed_prefix(s, n).len() > 0,
        n > 0 ==> (spec_is_whitespace(collapsed_prefix(s, n).last()) <==> spec_is_whitespace(s[n - 1])),
    decreases n,
{
    if n > 0 {
        lemma_collapsed_prefix(s, n - 1);
        let prev = collapsed_prefix(s, n - 1);
        let piece = collapsed_piece(s, n - 1);
        let out = collapsed_prefix(s, n);
        assert(out == prev + piece);
        assert(spec_is_whitespace(' '));
        if piece.len() == 0 {
            assert(out =~= prev);
        } else {
            assert(piece.len() == 1);
            assert(out =~= prev.push(piece[0]));
            assert forall|i: int| 0 <= i < out.len() - 1 implies !(spec_is_whitespace(#[trigger] out[i])
                && spec_is_whitespace(out[i + 1])) by {
                if i < prev.len() - 1 {
                    assert(out[i] == prev[i] && out[i + 1] == prev[i + 1]);
                } else {
                    assert(out[i] == prev.last());
                }
            }
            assert forall|i: int| 0 <= i < out.len() && spec_is_whitespace(#[trigger] out[i]) implies out[i] == ' ' by {
                if i < prev.len() {
                    assert(out[i] == prev[i]);
                }
            }
        }
    }
}

/// Collapsed text is single-spaced: white space survives only as single
/// spaces, never two in a row.
pub proof fn normalized_whitespace_is_single_spaced(s: Seq<char>)
    ensures
        single_spaced(spec_normalize_whitespace(s)),
{
    lemma_collapsed_prefix(s, s.len() as int);
}

#[verifier::external_type_specification]
#[verifier::external_body]
pub struct ExAhoCorasick(aho_corasick::AhoCorasick);

/// The patterns a multi-pattern matcher was built from, as bytes.
pub uninterp spec fn matcher_patterns(m: aho_corasick::AhoCorasick) -> Seq<Seq<u8>>;

/// Whether one of `patterns` occurs somewhere in `haystack`.
pub open spec fn some_pattern_occurs(patterns: Seq<Seq<u8>>, haystack: Seq<u8>) -> bool {
    exists|i: int| 0 <= i < patterns.len() && spec_contains(haystack, #[trigger] patterns[i])
}

/// The patterns of `names` as bytes.
pub open spec fn patterns_bytes(names: Seq<String>) -> Seq<Seq<u8>> {
    names.map_values(|n: String| encode_utf8(n@))
}

/// Pattern texts as bytes.
pub open spec fn texts_bytes(patterns: Seq<Seq<char>>) -> Seq<Seq<u8>> {
    patterns.map_values(|p: Seq<char>| encode_utf8(p))
}

/// Whether `AhoCorasick::new` builds a matcher over `patterns`: it fails
/// only past its internal size limits, which depend on the patterns alone.
pub uninterp spec fn matcher_builds(patterns: Seq<Seq<u8>>) -> bool;

/// Builds a matcher over `patterns` (`AhoCorasick::new`); `None` exactly
/// when the automaton cannot be built (see [`matcher_builds`]). The matcher
/// holds exactly the given patterns.
#[verifier::external_body]
fn build_matcher(patterns: &Vec<String>) -> (r: Option<aho_corasick::AhoCorasick>)
    ensures
        r is Some <==> matcher_builds(patterns_bytes(patterns@)),
        r matches Some(m) ==> matcher_patterns(m) == patterns_bytes(patterns@),
{
    aho_corasick::AhoCorasick::new(patterns).ok()
}

/// `AhoCorasick::is_match`: whether one of the matcher's patterns occurs
/// anywhere in `haystack`'s bytes.
#[verifier::external_body]
fn matcher_is_match(matcher: &aho_corasick::AhoCorasick, haystack: &str) -> (r: bool)
    ensures
        r == some_pattern_occurs(matcher_patterns(*matcher), encode_utf8(haystack@)),
{
    matcher.is_match(haystack)
}

/// The prefilter patterns of the referenced names, under the languages
/// that keep the bare name as a name's only pattern: each name, and for a
/// dotted name (which never appears whole in its defining file) each of
/// its `.`-separated components too.
pub open spec fn bare_name_patterns(names: Seq<String>) -> Seq<Seq<char>>
    decreases names.len(),
{
    if names.len() == 0 {
        Seq::empty()
    } else {
        let n = names.last()@;
        bare_name_patterns(names.drop_last()) + seq![n] + if spec_contains(n, seq!['.']) {
            split_on(n, '.')
        } else {
            Seq::empty()
        }
    }
}

/// The prefilter patterns of `reference_names` (see
/// [`bare_name_patterns`]).
pub fn prefilter_patterns(reference_names: &[String]) -> (r: Vec<String>)
    ensures
        r@.map_values(|s: String| s@) == bare_name_patterns(reference_names@),
{
    let mut patterns: Vec<String> = Vec::new();
    let dot = str_chars(".");
    proof {
        reveal_strlit(".");
        assert(dot@ =~= seq!['.']);
    }
    let mut i: usize = 0;
    while i < reference_names.len()
        invariant
            i <= reference_names@.len(),
            dot@ == seq!['.'],
            patterns@.map_values(|s: String| s@) == bare_name_patterns(reference_names@.take(i as int)),
        decreases reference_names@.len() - i,
    {
        let name = &reference_names[i];
        assert(reference_names@.take(i + 1).drop_last() =~= reference_names@.take(i as int));
        assert(reference_names@.take(i + 1).last() == *name);
        let ghost before = patterns@.map_values(|s: String| s@);
        patterns.push(name.clone());
        let chars = str_chars(name.as_str());
        let ghost with_name = patterns@.map_values(|s: String| s@);
        assert(with_name =~= before + seq![name@]);
        if contains_chars(chars.as_slice(), dot.as_slice()) {
            let parts = split_chars(chars.as_slice(), '.');
            let mut k: usize = 0;
            while k < parts.len()
                invariant
                    k <= parts@.len(),
                    parts@.len() == split_on(name@, '.').len(),
                    forall|j: int| 0 <= j < parts@.len() ==> #[trigger] parts@[j]@ == split_on(name@, '.')[j],
                    patterns@.map_values(|s: String| s@) == with_name + split_on(name@, '.').take(k as int),
                decreases parts@.len() - k,
            {
                let ghost mid = patterns@.map_values(|s: String| s@);
                patterns.push(string_from_chars(parts[k].as_slice()));
                assert(patterns@.map_values(|s: String| s@) =~= mid.push(split_on(name@, '.')[k as int]));
                assert(split_on(name@, '.').take(k + 1) =~= split_on(name@, '.').take(k as int).push(
                    split_on(name@, '.')[k as int],
                ));
                k = k + 1;
            }
            assert(split_on(name@, '.').take(parts@.len() as int) =~= split_on(name@, '.'));
        } else {
            assert(with_name + Seq::<Seq<char>>::empty() =~= with_name);
        }
        i = i + 1;
    }
    assert(reference_names@.take(reference_names@.len() as int) =~= reference_names@);
    patterns
}

/// Builds the prefilter for `reference_names`: one matcher over all their
/// patterns; `None` when it cannot be built.
pub fn build_prefilter(reference_names: &[String]) -> (r: Option<aho_corasick::AhoCorasick>)
    ensures
        r is Some <==> matcher_builds(texts_bytes(bare_name_patterns(reference_names@))),
        r matches Some(m) ==> matcher_patterns(m) == texts_bytes(bare_name_patterns(reference_names@)),
{
    let patterns = prefilter_patterns(reference_names);
    assert(patterns_bytes(patterns@) =~= texts_bytes(bare_name_patterns(reference_names@)));
    build_matcher(&patterns)
}


/// The declaration-shaped prefilter patterns of PHP: for each bare pattern
/// (see [`bare_name_patterns`]) the keywords that introduce a PHP
/// definition, then a space, then the pattern. A file that only calls a
/// name holds none of them; a file that declares it (its white space
/// normalized) holds one.
pub open spec fn php_declaration_patterns(bare: Seq<Seq<char>>) -> Seq<Seq<char>>
    decreases bare.len(),
{
    if bare.len() == 0 {
        Seq::empty()
    } else {
        let p = bare.last();
        php_declaration_patterns(bare.drop_last()) + seq![
            "function "@ + p,
            "class "@ + p,
            "interface "@ + p,
            "trait "@ + p,
            "enum "@ + p,
        ]
    }
}

fn keyword_pattern(keyword: &str, name: &String) -> (r: String)
    ensures
        r@ == keyword@ + seq![' '] + name@,
{
    let mut text = str_chars(keyword);
    text.push(' ');
    let mut rest = str_chars(name.as_str());
    text.append(&mut rest);
    string_from_chars(text.as_slice())
}

/// PHP's prefilter patterns of `reference_names` (see
/// [`php_declaration_patterns`]).
pub fn php_prefilter_patterns(reference_names: &[String]) -> (r: Vec<String>)
    ensures
        r@.map_values(|s: String| s@) == php_declaration_patterns(bare_name_patterns(reference_names@)),
{
    let bare = prefilter_patterns(reference_names);
    let ghost all = bare@.map_values(|s: String| s@);
    let mut patterns: Vec<String> = Vec::new();
    let mut i: usize = 0;
    proof {
        reveal_strlit("function ");
        reveal_strlit("class ");
        reveal_strlit("interface ");
        reveal_strlit("trait ");
        reveal_strlit("enum ");
        reveal_strlit("function");
        reveal_strlit("class");
        reveal_strlit("interface");
        reveal_strlit("trait");
        reveal_strlit("enum");
    }
    while i < bare.len()
        invariant
            i <= bare@.len(),
            all == bare@.map_values(|s: String| s@),
            patterns@.map_values(|s: String| s@) == php_declaration_patterns(all.take(i as int)),
            "function "@ == "function"@ + seq![' '],
            "class "@ == "class"@ + seq![' '],
            "interface "@ == "interface"@ + seq![' '],
            "trait "@ == "trait"@ + seq![' '],
            "enum "@ == "enum"@ + seq![' '],
        decreases bare@.len() - i,
    {
        let ghost before = patterns@.map_values(|s: String| s@);
        let name = &bare[i];
        assert(all.take(i + 1).drop_last() =~= all.take(i as int));
        assert(all.take(i + 1).last() == name@);
        patterns.push(keyword_pattern("function", name));
        patterns.push(keyword_pattern("class", name));
        patterns.push(keyword_pattern("interface", name));
        patterns.push(keyword_pattern("trait", name));
        patterns.push(keyword_pattern("enum", name));
        assert(patterns@.map_values(|s: String| s@) =~= before + seq![
            "function "@ + name@,
            "class "@ + name@,
            "interface "@ + name@,
            "trait "@ + name@,
            "enum "@ + name@,
        ]);
        i = i + 1;
    }
    assert(all.take(i as int) =~= all);
    patterns
}

/// Builds PHP's prefilter for `reference_names`: one matcher over their
/// declaration-shaped patterns; `None` when it cannot be built.
pub fn build_php_prefilter(reference_names: &[String]) -> (r: Option<aho_corasick::AhoCorasick>)
    ensures
        r is Some <==> matcher_builds(texts_bytes(php_declaration_patterns(bare_name_patterns(reference_names@)))),
        r matches Some(m) ==> matcher_patterns(m) == texts_bytes(php_declaration_patterns(bare_name_patterns(reference_names@))),
{
    let patterns = php_prefilter_patterns(reference_names);
    assert(patterns_bytes(patterns@) =~= texts_bytes(php_declaration_patterns(bare_name_patterns(reference_names@))));
    build_matcher(&patterns)
}

/// Whether `content` (already white-space-normalized) could define a
/// referenced name: some pattern of the matcher occurs in it. A coarse
/// substring test that only decides whether parsing is worth trying.
pub fn should_parse_file(matcher: &aho_corasick::AhoCorasick, content: &str) -> (r: bool)
    ensures
        r == some_pattern_occurs(matcher_patterns(*matcher), encode_utf8(content@)),
{
    matcher_is_match(matcher, content)
}

/// Whether a file is parsed for the repository index: it is admitted (see
/// [`spec_admits_for_indexing`]) and its white-space-normalized content
/// passes the prefilter, so that a declaration split across lines still
/// matches its pattern.
pub fn should_index_file(
    path: &str,
    content: &str,
    is_test_path: bool,
    include_tests: bool,
    generated_paths: &[String],
    include_generated: bool,
    matcher: &aho_corasick::AhoCorasick,
) -> (r: bool)
    ensures
        r == (spec_admits_for_indexing(path@, content@, is_test_path, include_tests, generated_paths@, include_generated)
            && some_pattern_occurs(matcher_patterns(*matcher), encode_utf8(spec_normalize_whitespace(content@)))),
{
    if !admits_for_indexing(path, content, is_test_path, include_tests, generated_paths, include_generated) {
        return false;
    }
    let normalized = normalize_whitespace(content);
    should_parse_file(matcher, normalized.as_str())
}

} // verus!
