//! Project-scoped dependency-scan filtering.
//!
//! In a monorepo holding several projects, a diff usually touches one of
//! them. From path lists alone, this computes the project roots the changed
//! files belong to, so the dependency scan can be restricted to them. A
//! project root is a directory holding a manifest; a file's project is its
//! nearest such ancestor.

use crate::text::chars_eq;
use crate::text::{spec_starts_with, starts_with_chars, str_chars, string_from_chars};
use vstd::prelude::*;

verus! {

/// Whether `name` is one of the manifest file names that mark a project
/// root: one per ecosystem the tool supports, plus `Gemfile`.
pub open spec fn is_manifest_name(name: Seq<char>) -> bool {
    name == "composer.json"@ || name == "package.json"@ || name == "Cargo.toml"@ || name
        == "go.mod"@ || name == "pyproject.toml"@ || name == "setup.py"@ || name == "Gemfile"@
}

/// Whether `s` holds a `/`.
pub open spec fn has_slash(s: Seq<char>) -> bool {
    exists|i: int| 0 <= i < s.len() && s[i] == '/'
}

/// Index of the last `/` in `s` (meaningful when there is one).
pub open spec fn last_slash(s: Seq<char>) -> int {
    choose|i: int| 0 <= i < s.len() && s[i] == '/' && forall|j: int| i < j < s.len() ==> s[j] != '/'
}

/// The `/`-separated parent directory of `path`, empty for a top-level entry.
pub open spec fn spec_parent_dir(path: Seq<char>) -> Seq<char> {
    if has_slash(path) {
        path.take(last_slash(path))
    } else {
        Seq::empty()
    }
}

/// The last `/`-separated component of `path`.
pub open spec fn spec_file_name(path: Seq<char>) -> Seq<char> {
    if has_slash(path) {
        path.skip(last_slash(path) + 1)
    } else {
        path
    }
}

/// Whether some listed path is a manifest living directly in `dir`.
pub open spec fn is_manifest_dir(listed: Seq<String>, dir: Seq<char>) -> bool {
    exists|i: int|
        0 <= i < listed.len() && is_manifest_name(spec_file_name(#[trigger] listed[i]@))
            && spec_parent_dir(listed[i]@) == dir
}

/// The deepest directory, walking up from `dir` itself, that holds a
/// manifest; `None` when no ancestor (the root, `""`, included) does.
pub open spec fn nearest_manifest_dir_from(listed: Seq<String>, dir: Seq<char>) -> Option<Seq<char>>
    decreases dir.len(),
{
    if is_manifest_dir(listed, dir) {
        Some(dir)
    } else if dir.len() == 0 {
        None
    } else {
        proof {
            lemma_parent_shorter(dir);
        }
        nearest_manifest_dir_from(listed, spec_parent_dir(dir))
    }
}

/// The project root a changed path belongs to, `None` when it cannot narrow
/// anything (no manifest ancestor, or the nearest one is the repository root).
pub open spec fn project_root_of(listed: Seq<String>, path: Seq<char>) -> Option<Seq<char>> {
    match nearest_manifest_dir_from(listed, spec_parent_dir(path)) {
        Some(d) => if d.len() > 0 {
            Some(d)
        } else {
            None
        },
        None => None,
    }
}

/// Lexicographic order on character sequences (the order of `String`).
pub open spec fn lex_lt(a: Seq<char>, b: Seq<char>) -> bool
    decreases a.len(),
{
    if a.len() == 0 {
        b.len() > 0
    } else if b.len() == 0 {
        false
    } else if a[0] != b[0] {
        (a[0] as u32) < (b[0] as u32)
    } else {
        lex_lt(a.drop_first(), b.drop_first())
    }
}

/// Whether `d` is one of `roots`.
pub open spec fn string_listed(roots: Seq<String>, d: Seq<char>) -> bool {
    exists|m: int| 0 <= m < roots.len() && (#[trigger] roots[m])@ == d
}

/// Whether `d` is the project root of one of the first `n` changed paths.
pub open spec fn is_root_of_changed(changed: Seq<String>, listed: Seq<String>, n: int, d: Seq<char>) -> bool {
    exists|k: int| 0 <= k < n && project_root_of(listed, (#[trigger] changed[k])@) == Some(d)
}

/// Strictly increasing, hence free of duplicates.
pub open spec fn strictly_sorted(s: Seq<Seq<char>>) -> bool {
    forall|i: int, j: int| 0 <= i < j < s.len() ==> lex_lt(s[i], s[j])
}

/// Whether every changed path has a project root.
pub open spec fn all_scoped(changed: Seq<String>, listed: Seq<String>) -> bool {
    forall|i: int| 0 <= i < changed.len() ==> (#[trigger] project_root_of(listed, changed[i]@)) is Some
}

pub proof fn lemma_parent_shorter(dir: Seq<char>)
    requires
        dir.len() > 0,
    ensures
        spec_parent_dir(dir).len() < dir.len(),
{
    if has_slash(dir) {
        let k = last_slash(dir);
        let w = choose|i: int| 0 <= i < dir.len() && dir[i] == '/';
        lemma_last_slash_exists(dir, w);
    }
}

proof fn lemma_last_slash_exists(s: Seq<char>, w: int)
    requires
        0 <= w < s.len(),
        s[w] == '/',
    ensures
        0 <= last_slash(s) < s.len(),
        s[last_slash(s)] == '/',
        forall|j: int| last_slash(s) < j < s.len() ==> s[j] != '/',
    decreases s.len() - w,
{
    if exists|j: int| w < j < s.len() && s[j] == '/' {
        let j = choose|j: int| w < j < s.len() && s[j] == '/';
        lemma_last_slash_exists(s, j);
    } else {
        assert(0 <= w < s.len() && s[w] == '/' && forall|j: int| w < j < s.len() ==> s[j] != '/');
    }
}

proof fn lemma_lex_lt_irreflexive(a: Seq<char>)
    ensures
        !lex_lt(a, a),
    decreases a.len(),
{
    if a.len() > 0 {
        lemma_lex_lt_irreflexive(a.drop_first());
    }
}

proof fn lemma_lex_lt_trans(a: Seq<char>, b: Seq<char>, c: Seq<char>)
    requires
        lex_lt(a, b),
        lex_lt(b, c),
    ensures
        lex_lt(a, c),
    decreases a.len(),
{
    if a.len() > 0 && b.len() > 0 && c.len() > 0 && a[0] == b[0] && b[0] == c[0] {
        lemma_lex_lt_trans(a.drop_first(), b.drop_first(), c.drop_first());
    }
}

proof fn lemma_lex_total(a: Seq<char>, b: Seq<char>)
    ensures
        a == b || lex_lt(a, b) || lex_lt(b, a),
    decreases a.len(),
{
    if a.len() > 0 && b.len() > 0 && a[0] == b[0] {
        lemma_lex_total(a.drop_first(), b.drop_first());
        if a.drop_first() == b.drop_first() {
            assert(a =~= seq![a[0]] + a.drop_first());
            assert(b =~= seq![b[0]] + b.drop_first());
        }
    } else if a.len() == 0 && b.len() == 0 {
        assert(a =~= b);
    } else if a.len() > 0 && b.len() > 0 {
        vstd::utf8::char_u32_cast(a[0], a[0] as u32);
        vstd::utf8::char_u32_cast(b[0], b[0] as u32);
        assert((a[0] as u32) != (b[0] as u32));
    }
}

/// Whether `a` sorts strictly before `b`.
fn lex_less(a: &[char], b: &[char]) -> (r: bool)
    ensures
        r == lex_lt(a@, b@),
{
    let mut i: usize = 0;
    assert(a@.skip(0) =~= a@);
    assert(b@.skip(0) =~= b@);
    while i < a.len() && i < b.len() && a[i] == b[i]
        invariant
            i <= a@.len(),
            i <= b@.len(),
            lex_lt(a@, b@) == lex_lt(a@.skip(i as int), b@.skip(i as int)),
        decreases a@.len() - i,
    {
        assert(a@.skip(i as int).drop_first() =~= a@.skip(i + 1));
        assert(b@.skip(i as int).drop_first() =~= b@.skip(i + 1));
        i = i + 1;
    }
    let ghost sa = a@.skip(i as int);
    let ghost sb = b@.skip(i as int);
    if i == a.len() {
        assert(sa.len() == 0);
        i < b.len()
    } else if i == b.len() {
        assert(sb.len() == 0);
        false
    } else {
        assert(sa[0] == a@[i as int] && sb[0] == b@[i as int]);
        (a[i] as u32) < (b[i] as u32)
    }
}

/// Index of the last `/` in `s`, if any.
fn find_last_slash(s: &[char]) -> (r: Option<usize>)
    ensures
        r is None <==> !has_slash(s@),
        r matches Some(k) ==> k == last_slash(s@) && k < s@.len(),
{
    let mut i = s.len();
    while i > 0
        invariant
            i <= s@.len(),
            forall|j: int| i <= j < s@.len() ==> s@[j] != '/',
        decreases i,
    {
        if s[i - 1] == '/' {
            proof {
                lemma_last_slash_exists(s@, i - 1);
                let k = last_slash(s@);
                assert(k == i - 1) by {
                    if k < i - 1 {
                    } else if k > i - 1 {
                    }
                }
            }
            return Some(i - 1);
        }
        i = i - 1;
    }
    None
}

/// The `/`-separated parent directory of `path`, empty for a top-level entry.
fn parent_dir(path: &[char]) -> (r: Vec<char>)
    ensures
        r@ == spec_parent_dir(path@),
{
    match find_last_slash(path) {
        Some(k) => {
            let mut out: Vec<char> = Vec::new();
            let mut i: usize = 0;
            while i < k
                invariant
                    k < path@.len(),
                    i <= k,
                    out@ == path@.take(i as int),
                decreases k - i,
            {
                out.push(path[i]);
                assert(path@.take(i + 1) =~= path@.take(i as int).push(path@[i as int]));
                i = i + 1;
            }
            out
        },
        None => Vec::new(),
    }
}

/// The last `/`-separated component of `path`.
fn file_name(path: &[char]) -> (r: Vec<char>)
    ensures
        r@ == spec_file_name(path@),
{
    let n = path.len();
    let start = match find_last_slash(path) {
        Some(k) => {
            assert(k < n);
            k + 1
        },
        None => 0,
    };
    let mut out: Vec<char> = Vec::new();
    let mut i: usize = start;
    while i < path.len()
        invariant
            start <= i <= path@.len(),
            out@ == path@.subrange(start as int, i as int),
        decreases path@.len() - i,
    {
        out.push(path[i]);
        assert(path@.subrange(start as int, i + 1) =~= path@.subrange(start as int, i as int).push(
            path@[i as int],
        ));
        i = i + 1;
    }
    assert(path@.subrange(start as int, path@.len() as int) =~= path@.skip(start as int));
    proof {
        if !has_slash(path@) {
            assert(path@.skip(0) =~= path@);
        }
    }
    out
}

/// Whether `name` is a manifest file name.
fn is_manifest_file(name: &[char]) -> (r: bool)
    ensures
        r == is_manifest_name(name@),
{
    let names = [
        "composer.json",
        "package.json",
        "Cargo.toml",
        "go.mod",
        "pyproject.toml",
        "setup.py",
        "Gemfile",
    ];
    let mut i: usize = 0;
    while i < 7
        invariant
            names@ == seq![
                "composer.json",
                "package.json",
                "Cargo.toml",
                "go.mod",
                "pyproject.toml",
                "setup.py",
                "Gemfile",
            ],
            i <= 7,
            forall|j: int| 0 <= j < i ==> name@ != (#[trigger] names@[j])@,
        decreases 7 - i,
    {
        let candidate = str_chars(names[i]);
        if chars_eq(name, &candidate) {
            return true;
        }
        i = i + 1;
    }
    assert(name@ != names@[0]@);
    assert(name@ != names@[1]@);
    assert(name@ != names@[2]@);
    assert(name@ != names@[3]@);
    assert(name@ != names@[4]@);
    assert(name@ != names@[5]@);
    assert(name@ != names@[6]@);
    false
}

fn contains_dir(dirs: &Vec<Vec<char>>, dir: &[char]) -> (r: bool)
    ensures
        r == dir_listed(dirs@, dir@),
{
    let mut i: usize = 0;
    while i < dirs.len()
        invariant
            i <= dirs@.len(),
            forall|j: int| 0 <= j < i ==> (#[trigger] dirs@[j])@ != dir@,
        decreases dirs@.len() - i,
    {
        if chars_eq(&dirs[i], dir) {
            return true;
        }
        i = i + 1;
    }
    false
}

/// Whether `d` is one of `dirs`.
pub open spec fn dir_listed(dirs: Seq<Vec<char>>, d: Seq<char>) -> bool {
    exists|m: int| 0 <= m < dirs.len() && (#[trigger] dirs[m])@ == d
}

/// Whether one of the first `n` listed paths is a manifest living in `d`.
pub open spec fn manifest_dir_among(listed: Seq<String>, n: int, d: Seq<char>) -> bool {
    exists|k: int|
        0 <= k < n && is_manifest_name(spec_file_name(#[trigger] listed[k]@)) && spec_parent_dir(
            listed[k]@,
        ) == d
}

/// The directories holding a manifest, one entry per listed manifest.
fn manifest_dirs(listed: &[String]) -> (dirs: Vec<Vec<char>>)
    ensures
        forall|d: Seq<char>| #[trigger] is_manifest_dir(listed@, d) <==> dir_listed(dirs@, d),
{
    let mut dirs: Vec<Vec<char>> = Vec::new();
    let mut i: usize = 0;
    while i < listed.len()
        invariant
            i <= listed@.len(),
            forall|d: Seq<char>|
                #![trigger dir_listed(dirs@, d)]
                #![trigger manifest_dir_among(listed@, i as int, d)]
                manifest_dir_among(listed@, i as int, d) <==> dir_listed(dirs@, d),
        decreases listed@.len() - i,
    {
        let path = str_chars(listed[i].as_str());
        let name = file_name(&path);
        let ghost before = dirs@;
        if is_manifest_file(&name) {
            let dir = parent_dir(&path);
            dirs.push(dir);
        }
        assert forall|d: Seq<char>|
            #![trigger dir_listed(dirs@, d)]
            #![trigger manifest_dir_among(listed@, i + 1, d)]
            manifest_dir_among(listed@, i + 1, d) <==> dir_listed(dirs@, d) by {
            if manifest_dir_among(listed@, i + 1, d) {
                let k = choose|k: int|
                    0 <= k < i + 1 && is_manifest_name(spec_file_name(#[trigger] listed@[k]@))
                        && spec_parent_dir(listed@[k]@) == d;
                if k < i {
                    assert(manifest_dir_among(listed@, i as int, d));
                    let m = choose|m: int| 0 <= m < before.len() && (#[trigger] before[m])@ == d;
                    assert(dirs@[m] == before[m]);
                } else {
                    assert(dirs@[dirs@.len() - 1]@ == d);
                }
            }
            if dir_listed(dirs@, d) {
                let m = choose|m: int| 0 <= m < dirs@.len() && (#[trigger] dirs@[m])@ == d;
                if m < before.len() {
                    assert(before[m] == dirs@[m]);
                    assert(dir_listed(before, d));
                } else {
                    assert(is_manifest_name(spec_file_name(listed@[i as int]@)));
                }
            }
        }
        i = i + 1;
    }
    assert forall|d: Seq<char>| #[trigger] is_manifest_dir(listed@, d) <==> dir_listed(dirs@, d) by {
        assert(manifest_dir_among(listed@, listed@.len() as int, d) == is_manifest_dir(listed@, d));
    }
    dirs
}

/// The deepest manifest-holding directory at or above `path`'s own directory.
fn nearest_manifest_dir(path: &[char], dirs: &Vec<Vec<char>>, listed: Ghost<Seq<String>>) -> (r: Option<Vec<char>>)
    requires
        forall|d: Seq<char>| #[trigger] is_manifest_dir(listed@, d) <==> dir_listed(dirs@, d),
    ensures
        match r {
            Some(d) => nearest_manifest_dir_from(listed@, spec_parent_dir(path@)) == Some(d@),
            None => nearest_manifest_dir_from(listed@, spec_parent_dir(path@)) is None,
        },
{
    let mut dir = parent_dir(path);
    loop
        invariant
            forall|d: Seq<char>| #[trigger] is_manifest_dir(listed@, d) <==> dir_listed(dirs@, d),
            nearest_manifest_dir_from(listed@, spec_parent_dir(path@)) == nearest_manifest_dir_from(
                listed@,
                dir@,
            ),
        decreases dir@.len(),
    {
        if contains_dir(dirs, &dir) {
            return Some(dir);
        }
        if dir.len() == 0 {
            return None;
        }
        proof {
            lemma_parent_shorter(dir@);
        }
        dir = parent_dir(&dir);
    }
}

/// Inserts `item` into a strictly sorted list, keeping it strictly sorted.
fn insert_sorted(list: &mut Vec<Vec<char>>, item: Vec<char>)
    requires
        strictly_sorted(old(list)@.map_values(|v: Vec<char>| v@)),
    ensures
        strictly_sorted(final(list)@.map_values(|v: Vec<char>| v@)),
        forall|d: Seq<char>|
            #[trigger] dir_listed(final(list)@, d) <==> (d == item@ || dir_listed(old(list)@, d)),
{
    let ghost before = list@.map_values(|v: Vec<char>| v@);
    let mut pos: usize = 0;
    while pos < list.len() && lex_less(&list[pos], &item)
        invariant
            list@ == old(list)@,
            before == list@.map_values(|v: Vec<char>| v@),
            pos <= list@.len(),
            forall|j: int| 0 <= j < pos ==> lex_lt(before[j], item@),
        decreases list@.len() - pos,
    {
        pos = pos + 1;
    }
    if pos < list.len() && chars_eq(&list[pos], &item) {
        return;
    }
    proof {
        if pos < list@.len() {
            assert(before[pos as int] == list@[pos as int]@);
            lemma_lex_total(before[pos as int], item@);
            assert(lex_lt(item@, before[pos as int]));
        }
    }
    let ghost item_view = item@;
    list.insert(pos, item);
    let ghost after = list@.map_values(|v: Vec<char>| v@);
    assert(after.len() == before.len() + 1);
    assert forall|k: int| 0 <= k < after.len() implies #[trigger] after[k] == (if k < pos {
        before[k]
    } else if k == pos {
        item_view
    } else {
        before[k - 1]
    }) by {
        assert(after[k] == list@[k]@);
    }
    assert forall|i: int, j: int| 0 <= i < j < after.len() implies lex_lt(after[i], after[j]) by {
        if j < pos {
        } else if i < pos && j == pos {
        } else if i < pos {
            assert(i < j - 1);
        } else if i == pos {
            if j - 1 > pos {
                lemma_lex_lt_trans(item_view, before[pos as int], before[j - 1]);
            }
        } else {
        }
    }
    assert forall|d: Seq<char>|
        #[trigger] dir_listed(list@, d) <==> (d == item@ || dir_listed(old(list)@, d)) by {
        if dir_listed(list@, d) {
            let i = choose|i: int| 0 <= i < list@.len() && (#[trigger] list@[i])@ == d;
            if i < pos {
                assert(old(list)@[i]@ == d);
            } else if i > pos {
                assert(old(list)@[i - 1]@ == d);
            }
        }
        if dir_listed(old(list)@, d) {
            let i = choose|i: int| 0 <= i < old(list)@.len() && (#[trigger] old(list)@[i])@ == d;
            if i < pos {
                assert(list@[i]@ == d);
            } else {
                assert(list@[i + 1]@ == d);
            }
        }
        if d == item@ {
            assert(list@[pos as int]@ == d);
        }
    }
}

/// The project roots whose subtrees cover every path in `changed_paths`,
/// sorted and free of duplicates, or `None` when scoping cannot narrow the
/// scan: `changed_paths` is empty, or some changed path's nearest manifest
/// directory is the repository root, or it has none at all. `None` means
/// "scan everything", the always-correct fallback.
pub fn changed_project_roots(changed_paths: &[String], tracked_paths: &[String]) -> (r: Option<Vec<String>>)
    ensures
        (changed_paths@.len() == 0 || !all_scoped(changed_paths@, tracked_paths@)) ==> r is None,
        (changed_paths@.len() > 0 && all_scoped(changed_paths@, tracked_paths@)) ==> r is Some,
        r matches Some(roots) ==> {
            &&& strictly_sorted(roots@.map_values(|s: String| s@))
            &&& forall|d: Seq<char>|
                #[trigger] string_listed(roots@, d) <==> is_root_of_changed(
                    changed_paths@,
                    tracked_paths@,
                    changed_paths@.len() as int,
                    d,
                )
        },
{
    if changed_paths.len() == 0 {
        return None;
    }
    let dirs = manifest_dirs(tracked_paths);
    let mut roots: Vec<Vec<char>> = Vec::new();
    let mut i: usize = 0;
    while i < changed_paths.len()
        invariant
            i <= changed_paths@.len(),
            forall|d: Seq<char>| #[trigger] is_manifest_dir(tracked_paths@, d) <==> dir_listed(dirs@, d),
            strictly_sorted(roots@.map_values(|v: Vec<char>| v@)),
            forall|k: int| 0 <= k < i ==> (#[trigger] project_root_of(tracked_paths@, changed_paths@[k]@)) is Some,
            forall|d: Seq<char>|
                #[trigger] dir_listed(roots@, d) <==> is_root_of_changed(
                    changed_paths@,
                    tracked_paths@,
                    i as int,
                    d,
                ),
        decreases changed_paths@.len() - i,
    {
        let changed = str_chars(changed_paths[i].as_str());
        match nearest_manifest_dir(&changed, &dirs, Ghost(tracked_paths@)) {
            Some(dir) => {
                if dir.len() == 0 {
                    assert(project_root_of(tracked_paths@, changed_paths@[i as int]@) is None);
                    assert(!all_scoped(changed_paths@, tracked_paths@));
                    return None;
                }
                insert_sorted(&mut roots, dir);
            },
            None => {
                assert(project_root_of(tracked_paths@, changed_paths@[i as int]@) is None);
                assert(!all_scoped(changed_paths@, tracked_paths@));
                return None;
            },
        }
        i = i + 1;
    }
    let mut out: Vec<String> = Vec::new();
    let mut j: usize = 0;
    while j < roots.len()
        invariant
            j <= roots@.len(),
            out@.len() == j,
            forall|m: int| 0 <= m < j ==> (#[trigger] out@[m])@ == roots@[m]@,
        decreases roots@.len() - j,
    {
        out.push(string_from_chars(&roots[j]));
        j = j + 1;
    }
    assert(out@.map_values(|s: String| s@) =~= roots@.map_values(|v: Vec<char>| v@));
    assert forall|d: Seq<char>| #[trigger] string_listed(out@, d) <==> dir_listed(roots@, d) by {
        if string_listed(out@, d) {
            let m = choose|m: int| 0 <= m < out@.len() && (#[trigger] out@[m])@ == d;
            assert(roots@[m]@ == d);
        }
        if dir_listed(roots@, d) {
            let m = choose|m: int| 0 <= m < roots@.len() && (#[trigger] roots@[m])@ == d;
            assert(out@[m]@ == d);
        }
    }
    Some(out)
}

/// Whether `path` lies under some root in `roots` — a prefix match on a
/// whole component, so root `apps/a` does not claim `apps/ab/x.php`.
pub fn is_within_project_roots(path: &str, roots: &[String]) -> (r: bool)
    ensures
        r == exists|i: int| 0 <= i < roots@.len() && spec_starts_with(path@, (#[trigger] roots@[i])@.push('/')),
{
    let chars = str_chars(path);
    let mut i: usize = 0;
    while i < roots.len()
        invariant
            i <= roots@.len(),
            chars@ == path@,
            forall|j: int| 0 <= j < i ==> !spec_starts_with(path@, (#[trigger] roots@[j])@.push('/')),
        decreases roots@.len() - i,
    {
        let mut prefix = str_chars(roots[i].as_str());
        prefix.push('/');
        if starts_with_chars(&chars, &prefix) {
            return true;
        }
        i = i + 1;
    }
    false
}

/// The manifest names are exactly `composer.json`, `package.json`,
/// `Cargo.toml`, `go.mod`, `pyproject.toml`, `setup.py` and `Gemfile`:
/// one of them marks a project root, and nothing else does.
pub proof fn lemma_manifest_names(name: Seq<char>)
    ensures
        is_manifest_name(name) <==> (name == "composer.json"@ || name == "package.json"@ || name == "Cargo.toml"@
            || name == "go.mod"@ || name == "pyproject.toml"@ || name == "setup.py"@ || name == "Gemfile"@),
{
}

/// A listed file named like a manifest marks its directory as a project
/// root: when `listed[i]` is `dir/go.mod` (or any other manifest name),
/// `dir` holds a manifest and is the nearest project root walking up from
/// itself.
pub proof fn lemma_listed_manifest_marks_root(listed: Seq<String>, i: int, dir: Seq<char>, name: Seq<char>)
    requires
        0 <= i < listed.len(),
        listed[i]@ == dir + seq!['/'] + name,
        name == "composer.json"@ || name == "package.json"@ || name == "Cargo.toml"@ || name == "go.mod"@ || name
            == "pyproject.toml"@ || name == "setup.py"@ || name == "Gemfile"@,
    ensures
        is_manifest_dir(listed, dir),
        nearest_manifest_dir_from(listed, dir) == Some(dir),
{
    reveal_strlit("composer.json");
    reveal_strlit("package.json");
    reveal_strlit("Cargo.toml");
    reveal_strlit("go.mod");
    reveal_strlit("pyproject.toml");
    reveal_strlit("setup.py");
    reveal_strlit("Gemfile");
    let p = listed[i]@;
    let n = dir.len() as int;
    assert(forall|j: int| 0 <= j < name.len() ==> name[j] != '/');
    assert(p[n] == '/');
    assert(forall|j: int| n < j < p.len() ==> p[j] == name[j - n - 1]);
    assert(has_slash(p));
    let l = last_slash(p);
    assert(0 <= l < p.len() && p[l] == '/' && forall|j: int| l < j < p.len() ==> p[j] != '/') by {
        assert(n < p.len() && p[n] == '/' && forall|j: int| n < j < p.len() ==> p[j] != '/');
    }
    if l < n {
        assert(p[n] != '/');
    }
    if l > n {
        assert(p[l] == name[l - n - 1]);
    }
    assert(l == n);
    assert(p.skip(n + 1) =~= name);
    assert(p.take(n) =~= dir);
    assert(is_manifest_name(spec_file_name(listed[i]@)) && spec_parent_dir(listed[i]@) == dir);
}

} // verus!
