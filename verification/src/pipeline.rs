//! The decisions of the diff-to-report pipeline that do not need the
//! repository: whether there is anything to analyze, which files the
//! dependency index scans, and whether the persistent cache is used.

use crate::cli::{Cli, DepsScope};
use crate::project_scope::{changed_project_roots, is_within_project_roots, all_scoped, is_root_of_changed, strictly_sorted, string_listed};
use crate::deps::{dependencies_resolved, omitted_counts_fit, resolve_dependencies, Resolver};
use crate::render::FileReport;
use crate::str_map::StrMap;
use crate::text::{all_whitespace, spec_all_whitespace, spec_starts_with, str_chars};
use vstd::prelude::*;

verus! {

/// Whether a diff holds nothing to analyze: it is empty or white space
/// only.
pub fn diff_is_empty(diff_text: &str) -> (r: bool)
    ensures
        r == spec_all_whitespace(diff_text@),
{
    all_whitespace(str_chars(diff_text).as_slice())
}

/// Whether resolution runs at all: `--deps 0` skips it.
pub fn resolves_dependencies(cli: &Cli) -> (r: bool)
    ensures
        r == (cli.deps != 0),
{
    cli.deps != 0
}

/// Whether the dependency index goes through the persistent cache: only
/// when a head commit names stable blobs to key it on, and `--no-deps-cache`
/// was not given.
pub fn uses_deps_cache(cli: &Cli, head: Option<&str>) -> (r: bool)
    ensures
        r == (head is Some && !cli.no_deps_cache),
{
    head.is_some() && !cli.no_deps_cache
}

/// The project roots the dependency scan is restricted to: none with
/// `--deps-scope repo`; otherwise the roots of the projects holding the
/// changed paths, or none when scoping cannot narrow anything.
pub fn dependency_scan_roots(cli: &Cli, changed_paths: &[String], listed_paths: &[String]) -> (r: Option<Vec<String>>)
    ensures
        cli.deps_scope == DepsScope::Repo ==> r is None,
        cli.deps_scope == DepsScope::ChangedProjects ==> {
            &&& (changed_paths@.len() == 0 || !all_scoped(changed_paths@, listed_paths@)) ==> r is None
            &&& (changed_paths@.len() > 0 && all_scoped(changed_paths@, listed_paths@)) ==> r is Some
            &&& r matches Some(roots) ==> {
                &&& strictly_sorted(roots@.map_values(|s: String| s@))
                &&& forall|d: Seq<char>|
                    #[trigger] string_listed(roots@, d) <==> is_root_of_changed(
                        changed_paths@,
                        listed_paths@,
                        changed_paths@.len() as int,
                        d,
                    )
            }
        },
{
    match cli.deps_scope {
        DepsScope::Repo => None,
        DepsScope::ChangedProjects => changed_project_roots(changed_paths, listed_paths),
    }
}

/// Whether a listed path enters the dependency scan, decided before its
/// content is read: inside the scanned project roots (when there are
/// any), of a registered language that feeds the index, and not a test
/// file when tests are excluded. `language` is what the path's language
/// says: whether it feeds the index, and whether the path is a test file;
/// `None` when no language is registered for it.
pub open spec fn spec_keeps_for_index(
    path: Seq<char>,
    roots: Option<Seq<String>>,
    language: Option<(bool, bool)>,
    exclude_tests: bool,
) -> bool {
    in_scanned_roots(path, roots) && language_keeps(language, exclude_tests)
}

/// Whether `path` lies under one of `roots`, when the scan is scoped.
pub open spec fn in_scanned_roots(path: Seq<char>, roots: Option<Seq<String>>) -> bool {
    match roots {
        Some(rs) => under_some_root(path, rs),
        None => true,
    }
}

/// Whether `path` lies under one of `roots`.
pub open spec fn under_some_root(path: Seq<char>, roots: Seq<String>) -> bool {
    exists|i: int| 0 <= i < roots.len() && spec_starts_with(path, (#[trigger] roots[i])@.push('/'))
}

/// Whether a path's language keeps it in the scan.
pub open spec fn language_keeps(language: Option<(bool, bool)>, exclude_tests: bool) -> bool {
    match language {
        Some((contributes, is_test)) => contributes && (!exclude_tests || !is_test),
        None => false,
    }
}

/// Whether a listed path enters the dependency scan (see
/// [`spec_keeps_for_index`]).
pub fn keeps_for_index(path: &str, roots: Option<&[String]>, language: Option<(bool, bool)>, exclude_tests: bool) -> (r:
    bool)
    ensures
        r == spec_keeps_for_index(
            path@,
            match roots {
                Some(rs) => Some(rs@),
                None => None,
            },
            language,
            exclude_tests,
        ),
{
    let in_scope = match roots {
        Some(rs) => {
            let within = is_within_project_roots(path, rs);
            assert(within == under_some_root(path@, rs@));
            within
        },
        None => true,
    };
    let indexed = match language {
        Some((contributes, is_test)) => contributes && (!exclude_tests || !is_test),
        None => false,
    };
    in_scope && indexed
}

/// The content prefetched for `path`, if any; a path that was not
/// prefetched is read on its own instead.
pub fn prefetched_content(prefetched: &StrMap<String>, path: &str) -> (r: Option<String>)
    requires
        prefetched.wf(),
    ensures
        match prefetched.get_spec(path@) {
            Some(c) => r matches Some(s) && s == c,
            None => r is None,
        },
{
    match prefetched.get(path) {
        Some(content) => Some(content.clone()),
        None => None,
    }
}

/// The files with every symbol's dependencies resolved through `resolver`
/// when one was built, and unchanged (not even reordered) when none was:
/// with `--deps 0`, or when the change references no name.
pub fn resolve_with<R: Resolver>(files: Vec<FileReport>, resolver: Option<&R>) -> (r: Vec<FileReport>)
    requires
        resolver matches Some(res) ==> omitted_counts_fit(*res, files@),
    ensures
        match resolver {
            Some(res) => dependencies_resolved(r@, files@, *res),
            None => r@ == files@,
        },
{
    match resolver {
        Some(res) => resolve_dependencies(files, res),
        None => files,
    }
}

} // verus!
