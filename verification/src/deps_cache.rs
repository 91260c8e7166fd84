//! The persistent dependency-index cache: each indexed file's entries,
//! keyed by path and stamped with the git blob id they were extracted from,
//! so that a later run re-reads and re-parses only the files whose blob
//! changed.
//!
//! The cache is a pure optimization. A cache written by another format or
//! another build is treated as empty, and the entries a run hands to the
//! index are the same with or without it.

use crate::deps::{copy_opt_string, IndexEntry};
use crate::extract::ExtractedSymbol;
use crate::str_map::{key_listed, list_has, StrMap};
use vstd::prelude::*;

verus! {

/// Version of the cache's shape; a cache of another version is ignored.
pub const FORMAT_VERSION: u32 = 1;

/// The build the cache was written by; a cache of another build is ignored.
pub const RINKAKU_VERSION: &'static str = "0.6.22+laravel.2";

/// Directory, under the repository's git directory, that holds the cache.
pub const CACHE_DIR_NAME: &'static str = "rinkaku-cache";

/// The cache file's name.
pub const CACHE_FILE_NAME: &'static str = "deps-index-v1.json";

/// One file's cached index entries.
pub struct CachedFile {
    /// The git blob id the entries were extracted from.
    pub oid: String,
    /// Whether the content carried a generated-file marker when read.
    pub is_generated: bool,
    pub entries: Vec<IndexEntry>,
}

/// The whole cache.
pub struct DepsCache {
    pub format_version: u32,
    pub rinkaku_version: String,
    pub files: StrMap<CachedFile>,
}

/// A copy of `e`.
pub fn copy_index_entry(e: &IndexEntry) -> (r: IndexEntry)
    ensures
        r == *e,
{
    IndexEntry {
        name: e.name.clone(),
        signature: e.signature.clone(),
        container: copy_opt_string(&e.container),
        is_test: e.is_test,
    }
}

/// A copy of `v`.
pub fn copy_entries(v: &Vec<IndexEntry>) -> (r: Vec<IndexEntry>)
    ensures
        r@ == v@,
{
    let mut r: Vec<IndexEntry> = Vec::new();
    let mut i: usize = 0;
    while i < v.len()
        invariant
            i <= v@.len(),
            r@ == v@.take(i as int),
        decreases v@.len() - i,
    {
        r.push(copy_index_entry(&v[i]));
        assert(v@.take(i + 1) =~= v@.take(i as int).push(v@[i as int]));
        i = i + 1;
    }
    assert(v@.take(v@.len() as int) =~= v@);
    r
}

impl DepsCache {
    /// Whether each path is cached once.
    pub open spec fn wf(&self) -> bool {
        self.files.wf()
    }

    /// Whether this is an empty cache of the current format and build.
    pub open spec fn is_empty_current(&self) -> bool {
        &&& self.wf()
        &&& self.format_version == FORMAT_VERSION
        &&& self.rinkaku_version@ == RINKAKU_VERSION@
        &&& forall|k: Seq<char>| #[trigger] self.files.get_spec(k) is None
    }

    /// An empty cache of the current format and build.
    pub fn empty() -> (r: DepsCache)
        ensures
            r.is_empty_current(),
    {
        DepsCache { format_version: FORMAT_VERSION, rinkaku_version: RINKAKU_VERSION.to_owned(), files: StrMap::new() }
    }

    /// The cache to work with, given what was read from disk: the loaded
    /// cache when it is of the current format and build, an empty one when
    /// nothing could be read or it is of another.
    pub fn accept_loaded(loaded: Option<DepsCache>) -> (r: DepsCache)
        requires
            loaded matches Some(c) ==> c.wf(),
        ensures
            r.wf(),
            match loaded {
                Some(c) => if c.format_version == FORMAT_VERSION && c.rinkaku_version@ == RINKAKU_VERSION@ {
                    r == c
                } else {
                    r.is_empty_current()
                },
                None => r.is_empty_current(),
            },
    {
        match loaded {
            Some(cache) => {
                let current = str_eq(cache.rinkaku_version.as_str(), RINKAKU_VERSION);
                if cache.format_version == FORMAT_VERSION && current {
                    cache
                } else {
                    DepsCache::empty()
                }
            },
            None => DepsCache::empty(),
        }
    }

    /// The cached entry of `path`, only when it was cached for blob `oid`.
    pub fn get(&self, path: &str, oid: &str) -> (r: Option<&CachedFile>)
        requires
            self.wf(),
        ensures
            match self.files.get_spec(path@) {
                Some(c) => if c.oid@ == oid@ {
                    r matches Some(x) && *x == c
                } else {
                    r is None
                },
                None => r is None,
            },
    {
        match self.files.get(path) {
            Some(cached) => {
                if str_eq(cached.oid.as_str(), oid) {
                    Some(cached)
                } else {
                    None
                }
            },
            None => None,
        }
    }

    /// Records `path`'s freshly computed entry, replacing what was cached
    /// for it before.
    pub fn insert(&mut self, path: String, oid: String, is_generated: bool, entries: Vec<IndexEntry>)
        requires
            old(self).wf(),
        ensures
            final(self).wf(),
            final(self).format_version == old(self).format_version,
            final(self).rinkaku_version == old(self).rinkaku_version,
            forall|k: Seq<char>|
                #[trigger] final(self).files.get_spec(k) == if k == path@ {
                    Some(CachedFile { oid, is_generated, entries })
                } else {
                    old(self).files.get_spec(k)
                },
    {
        self.files.insert(path, CachedFile { oid, is_generated, entries });
    }

    /// Drops every cached path that is not among `candidate_paths`, so that
    /// a file gone out of scope does not linger in the cache.
    pub fn prune(&mut self, candidate_paths: &[String])
        requires
            old(self).wf(),
        ensures
            final(self).wf(),
            final(self).format_version == old(self).format_version,
            final(self).rinkaku_version == old(self).rinkaku_version,
            forall|k: Seq<char>|
                #[trigger] final(self).files.get_spec(k) == if key_listed(candidate_paths@, k) {
                    old(self).files.get_spec(k)
                } else {
                    None
                },
    {
        self.files.retain_keys(candidate_paths);
    }
}

/// Whether two strings hold the same text.
pub fn str_eq(a: &str, b: &str) -> (r: bool)
    ensures
        r == (a@ == b@),
{
    crate::text::chars_eq(crate::text::str_chars(a).as_slice(), crate::text::str_chars(b).as_slice())
}

/// Whether a file contributes no entries to this run's index because it
/// is generated, by its content marker or by the repository's attributes,
/// and generated files are not included.
pub open spec fn spec_should_exclude_as_generated(
    path: Seq<char>,
    content_marker: bool,
    generated_paths: Seq<String>,
    include_generated: bool,
) -> bool {
    !include_generated && (content_marker || key_listed(generated_paths, path))
}

/// Whether `path` contributes no entries because it is generated (see
/// [`spec_should_exclude_as_generated`]).
pub fn should_exclude_as_generated(
    path: &str,
    content_marker: bool,
    generated_paths: &[String],
    include_generated: bool,
) -> (r: bool)
    ensures
        r == spec_should_exclude_as_generated(path@, content_marker, generated_paths@, include_generated),
{
    !include_generated && (content_marker || list_has(generated_paths, path))
}

/// The index entry of an extracted symbol: its name, signature, container
/// and test flag.
pub open spec fn entry_of(s: ExtractedSymbol) -> IndexEntry {
    IndexEntry { name: s.name, signature: s.signature, container: s.container, is_test: s.is_test }
}

/// The index entries of a file's extracted symbols, in order.
pub fn extract_entries(symbols: Vec<ExtractedSymbol>) -> (r: Vec<IndexEntry>)
    ensures
        r@ == symbols@.map_values(|s: ExtractedSymbol| entry_of(s)),
{
    let ghost all = symbols@;
    let mut symbols = symbols;
    let mut reversed: Vec<IndexEntry> = Vec::new();
    while symbols.len() > 0
        invariant
            symbols@.len() + reversed@.len() == all.len(),
            symbols@ == all.take(symbols@.len() as int),
            forall|i: int|
                0 <= i < reversed@.len() ==> #[trigger] reversed@[i] == entry_of(all[all.len() - 1 - i]),
        decreases symbols@.len(),
    {
        let ghost before = symbols@;
        let s = symbols.pop().unwrap();
        assert(symbols@ =~= all.take(symbols@.len() as int));
        let ghost k = reversed@.len();
        reversed.push(IndexEntry { name: s.name, signature: s.signature, container: s.container, is_test: s.is_test });
        assert(before[before.len() - 1] == all[all.len() - 1 - k]);
    }
    let mut r: Vec<IndexEntry> = Vec::new();
    let n = reversed.len();
    while reversed.len() > 0
        invariant
            reversed@.len() + r@.len() == n,
            n == all.len(),
            forall|i: int| 0 <= i < reversed@.len() ==> #[trigger] reversed@[i] == entry_of(all[all.len() - 1 - i]),
            forall|i: int| 0 <= i < r@.len() ==> #[trigger] r@[i] == entry_of(all[i]),
        decreases reversed@.len(),
    {
        let ghost before = reversed@;
        let e = reversed.pop().unwrap();
        assert(e == before[before.len() - 1]);
        r.push(e);
    }
    assert(r@ =~= all.map_values(|s: ExtractedSymbol| entry_of(s)));
    r
}

/// The cached entry usable for `path`: cached for the blob the path has
/// now.
pub open spec fn cache_hit(path: Seq<char>, blob_oids: StrMap<String>, cache: DepsCache) -> Option<CachedFile> {
    match blob_oids.get_spec(path) {
        Some(oid) => match cache.files.get_spec(path) {
            Some(c) => if c.oid@ == oid@ {
                Some(c)
            } else {
                None
            },
            None => None,
        },
        None => None,
    }
}

/// The entries a cache hit contributes: none when the file is excluded as
/// generated, its cached entries otherwise.
pub open spec fn hit_entries(c: CachedFile, path: Seq<char>, generated_paths: Seq<String>, include_generated: bool) -> Seq<
    IndexEntry,
> {
    if spec_should_exclude_as_generated(path, c.is_generated, generated_paths, include_generated) {
        Seq::empty()
    } else {
        c.entries@
    }
}

/// The paths of `paths` with no usable cache entry, in order.
pub open spec fn misses_of(paths: Seq<String>, blob_oids: StrMap<String>, cache: DepsCache) -> Seq<String>
    decreases paths.len(),
{
    if paths.len() == 0 {
        Seq::empty()
    } else {
        misses_of(paths.drop_last(), blob_oids, cache) + if cache_hit(paths.last()@, blob_oids, cache) is None {
            seq![paths.last()]
        } else {
            Seq::empty()
        }
    }
}

/// Looks every candidate path up in the cache before any content is read:
/// the entries of each path whose blob is unchanged since it was cached
/// (none when it is excluded as generated), and the paths that must be
/// read and parsed, in order.
pub fn look_up_cached(
    paths: &Vec<String>,
    blob_oids: &StrMap<String>,
    cache: &DepsCache,
    generated_paths: &[String],
    include_generated: bool,
) -> (r: (StrMap<Vec<IndexEntry>>, Vec<String>))
    requires
        blob_oids.wf(),
        cache.wf(),
    ensures
        r.0.wf(),
        forall|k: Seq<char>|
            match #[trigger] r.0.get_spec(k) {
                Some(v) => key_listed(paths@, k) && (cache_hit(k, *blob_oids, *cache) matches Some(c) && v@
                    == hit_entries(c, k, generated_paths@, include_generated)),
                None => !(key_listed(paths@, k) && cache_hit(k, *blob_oids, *cache) is Some),
            },
        r.1@ == misses_of(paths@, *blob_oids, *cache),
{
    let mut file_entries: StrMap<Vec<IndexEntry>> = StrMap::new();
    let mut misses: Vec<String> = Vec::new();
    let mut i: usize = 0;
    while i < paths.len()
        invariant
            i <= paths@.len(),
            blob_oids.wf(),
            cache.wf(),
            file_entries.wf(),
            forall|k: Seq<char>|
                match #[trigger] file_entries.get_spec(k) {
                    Some(v) => key_listed(paths@.take(i as int), k) && (cache_hit(k, *blob_oids, *cache) matches Some(
                        c,
                    ) && v@ == hit_entries(c, k, generated_paths@, include_generated)),
                    None => !(key_listed(paths@.take(i as int), k) && cache_hit(k, *blob_oids, *cache) is Some),
                },
            misses@ == misses_of(paths@.take(i as int), *blob_oids, *cache),
        decreases paths@.len() - i,
    {
        let path = &paths[i];
        assert(paths@.take(i + 1).drop_last() =~= paths@.take(i as int));
        assert(paths@.take(i + 1).last() == *path);
        let hit = match blob_oids.get(path.as_str()) {
            Some(oid) => cache.get(path.as_str(), oid.as_str()),
            None => None,
        };
        assert(hit matches Some(c) ==> cache_hit(path@, *blob_oids, *cache) == Some(*c));
        assert(hit is None ==> cache_hit(path@, *blob_oids, *cache) is None);
        assert forall|k: Seq<char>| #[trigger] key_listed(paths@.take(i + 1), k) <==> (key_listed(paths@.take(i as int), k)
            || k == path@) by {
            if key_listed(paths@.take(i + 1), k) {
                let j = choose|j: int| 0 <= j < paths@.take(i + 1).len() && (#[trigger] paths@.take(i + 1)[j])@ == k;
                if j < i {
                    assert(paths@.take(i as int)[j] == paths@.take(i + 1)[j]);
                }
            }
            if key_listed(paths@.take(i as int), k) {
                let j = choose|j: int| 0 <= j < paths@.take(i as int).len() && (#[trigger] paths@.take(i as int)[j])@ == k;
                assert(paths@.take(i + 1)[j] == paths@.take(i as int)[j]);
            }
            if k == path@ {
                assert(paths@.take(i + 1)[i as int] == *path);
            }
        }
        match hit {
            Some(cached) => {
                let excluded = should_exclude_as_generated(
                    path.as_str(),
                    cached.is_generated,
                    generated_paths,
                    include_generated,
                );
                let entries = if excluded {
                    Vec::new()
                } else {
                    copy_entries(&cached.entries)
                };
                file_entries.insert(path.clone(), entries);
            },
            None => {
                misses.push(path.clone());
            },
        }
        i = i + 1;
    }
    assert(paths@.take(paths@.len() as int) =~= paths@);
    (file_entries, misses)
}

/// Records the entries of a file read and parsed this run: in the cache
/// under its current blob id (when it has one), and among this run's
/// entries.
pub fn record_read_file(
    cache: &mut DepsCache,
    blob_oids: &StrMap<String>,
    file_entries: &mut StrMap<Vec<IndexEntry>>,
    path: String,
    is_generated: bool,
    entries: Vec<IndexEntry>,
)
    requires
        old(cache).wf(),
        blob_oids.wf(),
        old(file_entries).wf(),
    ensures
        final(cache).wf(),
        final(file_entries).wf(),
        final(cache).format_version == old(cache).format_version,
        final(cache).rinkaku_version == old(cache).rinkaku_version,
        forall|k: Seq<char>|
            k != path@ ==> #[trigger] final(cache).files.get_spec(k) == old(cache).files.get_spec(k),
        match blob_oids.get_spec(path@) {
            Some(oid) => final(cache).files.get_spec(path@) matches Some(c) && c.oid == oid && c.is_generated
                == is_generated && c.entries@ == entries@,
            None => final(cache).files.get_spec(path@) == old(cache).files.get_spec(path@),
        },
        forall|k: Seq<char>|
            k != path@ ==> #[trigger] final(file_entries).get_spec(k) == old(file_entries).get_spec(k),
        final(file_entries).get_spec(path@) matches Some(v) && v@ == entries@,
{
    match blob_oids.get(path.as_str()) {
        Some(oid) => {
            cache.insert(path.clone(), oid.clone(), is_generated, copy_entries(&entries));
        },
        None => {},
    }
    let ghost p = path@;
    file_entries.insert(path, entries);
    assert(file_entries.get_spec(p) is Some);
}


/// The entries a file contributes when it is read and parsed this run:
/// none when it is excluded as generated, its extracted entries otherwise.
pub open spec fn fresh_entries(
    path: Seq<char>,
    content: Seq<char>,
    extracted: Seq<IndexEntry>,
    generated_paths: Seq<String>,
    include_generated: bool,
) -> Seq<IndexEntry> {
    if spec_should_exclude_as_generated(path, crate::deps::spec_is_generated_content(content), generated_paths, include_generated) {
        Seq::empty()
    } else {
        extracted
    }
}

/// A cached index equals a fresh one: when the cache holds, for the blob
/// `path` has now, what an earlier run recorded on reading that blob's
/// content under the same generated-file settings (its marker and its
/// fresh entries), the cache hit contributes exactly the entries reading
/// the file afresh would.
pub proof fn lemma_cached_entries_equal_fresh(
    path: Seq<char>,
    content: Seq<char>,
    extracted: Seq<IndexEntry>,
    blob_oids: StrMap<String>,
    cache: DepsCache,
    generated_paths: Seq<String>,
    include_generated: bool,
)
    requires
        blob_oids.get_spec(path) matches Some(oid) && cache.files.get_spec(path) matches Some(c) && c.oid@ == oid@
            && c.is_generated == crate::deps::spec_is_generated_content(content) && c.entries@ == fresh_entries(
            path,
            content,
            extracted,
            generated_paths,
            include_generated,
        ),
    ensures
        cache_hit(path, blob_oids, cache) matches Some(c) && hit_entries(c, path, generated_paths, include_generated)
            == fresh_entries(path, content, extracted, generated_paths, include_generated),
{
}

/// Whether `paths[i]` is the first occurrence of its text in `paths`.
pub open spec fn first_occurrence(paths: Seq<String>, i: int) -> bool {
    forall|j: int| 0 <= j < i ==> (#[trigger] paths[j])@ != paths[i]@
}

/// Hands out every path's entries in `paths` order, each path's entries
/// once: a path listed twice gets none the second time.
pub fn collect_indexed_files(paths: Vec<String>, file_entries: StrMap<Vec<IndexEntry>>) -> (r: Vec<
    (String, Vec<IndexEntry>),
>)
    requires
        file_entries.wf(),
    ensures
        r@.len() == paths@.len(),
        forall|i: int|
            0 <= i < r@.len() ==> {
                &&& (#[trigger] r@[i]).0 == paths@[i]
                &&& r@[i].1@ == if first_occurrence(paths@, i) {
                    match file_entries.get_spec(paths@[i]@) {
                        Some(v) => v@,
                        None => Seq::empty(),
                    }
                } else {
                    Seq::empty()
                }
            },
{
    let ghost orig = file_entries;
    let mut map = file_entries;
    let mut result: Vec<(String, Vec<IndexEntry>)> = Vec::new();
    let mut i: usize = 0;
    while i < paths.len()
        invariant
            i <= paths@.len(),
            result@.len() == i,
            map.wf(),
            orig.wf(),
            forall|k: Seq<char>|
                #[trigger] map.get_spec(k) == if key_listed(paths@.take(i as int), k) {
                    None
                } else {
                    orig.get_spec(k)
                },
            forall|a: int|
                0 <= a < i ==> {
                    &&& (#[trigger] result@[a]).0 == paths@[a]
                    &&& result@[a].1@ == if first_occurrence(paths@, a) {
                        match orig.get_spec(paths@[a]@) {
                            Some(v) => v@,
                            None => Seq::empty(),
                        }
                    } else {
                        Seq::empty()
                    }
                },
        decreases paths@.len() - i,
    {
        let path = paths[i].clone();
        assert(key_listed(paths@.take(i as int), path@) <==> !first_occurrence(paths@, i as int)) by {
            if key_listed(paths@.take(i as int), path@) {
                let j = choose|j: int| 0 <= j < paths@.take(i as int).len() && (#[trigger] paths@.take(i as int)[j])@
                    == path@;
                assert(paths@[j] == paths@.take(i as int)[j]);
            }
            if !first_occurrence(paths@, i as int) {
                let j = choose|j: int| 0 <= j < i && (#[trigger] paths@[j])@ == paths@[i as int]@;
                assert(paths@.take(i as int)[j] == paths@[j]);
            }
        }
        let entries = match map.remove(path.as_str()) {
            Some(v) => v,
            None => Vec::new(),
        };
        assert forall|k: Seq<char>| #[trigger] key_listed(paths@.take(i + 1), k) <==> (key_listed(paths@.take(i as int), k)
            || k == path@) by {
            if key_listed(paths@.take(i + 1), k) {
                let j = choose|j: int| 0 <= j < paths@.take(i + 1).len() && (#[trigger] paths@.take(i + 1)[j])@ == k;
                if j < i {
                    assert(paths@.take(i as int)[j] == paths@.take(i + 1)[j]);
                }
            }
            if key_listed(paths@.take(i as int), k) {
                let j = choose|j: int| 0 <= j < paths@.take(i as int).len() && (#[trigger] paths@.take(i as int)[j])@ == k;
                assert(paths@.take(i + 1)[j] == paths@.take(i as int)[j]);
            }
            if k == path@ {
                assert(paths@.take(i + 1)[i as int] == paths@[i as int]);
            }
        }
        result.push((path, entries));
        i = i + 1;
    }
    result
}

} // verus!
