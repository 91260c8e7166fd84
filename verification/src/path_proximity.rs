//! Path-proximity ranking for name-only resolution.
//!
//! A name shared by several definitions yields several equally plausible
//! candidates; they are ranked by how close each sits to the referencing
//! file in the repository tree.

use crate::text::chars_eq;
use vstd::prelude::*;

verus! {

/// `s` split at every `sep`, the pieces in order (always at least one).
pub open spec fn split_on(s: Seq<char>, sep: char) -> Seq<Seq<char>>
    decreases s.len(),
{
    if s.len() == 0 {
        seq![Seq::empty()]
    } else if s.last() == sep {
        split_on(s.drop_last(), sep).push(Seq::empty())
    } else {
        let p = split_on(s.drop_last(), sep);
        p.update(p.len() - 1, p.last().push(s.last()))
    }
}

pub proof fn lemma_split_on_nonempty(s: Seq<char>, sep: char)
    ensures
        split_on(s, sep).len() >= 1,
    decreases s.len(),
{
    if s.len() > 0 {
        lemma_split_on_nonempty(s.drop_last(), sep);
    }
}

/// The directory components of a `/`-separated path: every component but
/// the file name.
pub open spec fn dir_components(path: Seq<char>) -> Seq<Seq<char>> {
    split_on(path, '/').drop_last()
}

/// Whether `a` and `b` agree on their first `k` elements.
pub open spec fn agree_up_to<T>(a: Seq<T>, b: Seq<T>, k: int) -> bool {
    0 <= k <= a.len() && k <= b.len() && forall|j: int| 0 <= j < k ==> a[j] == b[j]
}

/// `k` is the length of the longest common prefix of `a` and `b`.
pub open spec fn is_common_prefix_len<T>(a: Seq<T>, b: Seq<T>, k: int) -> bool {
    agree_up_to(a, b, k) && (k == a.len() || k == b.len() || a[k] != b[k])
}

/// How close a candidate is to the referencing file: lower `tier` first,
/// then deeper `shared_depth` first.
#[derive(Debug, Clone, Copy, PartialEq, Eq)]
pub struct ProximityRank {
    pub tier: u8,
    pub shared_depth: usize,
}

/// The rank of `candidate` against `referencing`: 0 for the same file, 1 for
/// the same directory, 2 with the depth of the shared directory prefix, and
/// 3 when no directory is shared.
pub open spec fn spec_proximity_rank(referencing: Seq<char>, candidate: Seq<char>) -> ProximityRank {
    let rd = dir_components(referencing);
    let cd = dir_components(candidate);
    if candidate == referencing {
        ProximityRank { tier: 0, shared_depth: usize::MAX }
    } else if rd == cd {
        ProximityRank { tier: 1, shared_depth: usize::MAX }
    } else {
        let k = choose|k: int| is_common_prefix_len(rd, cd, k);
        if k > 0 {
            ProximityRank { tier: 2, shared_depth: k as usize }
        } else {
            ProximityRank { tier: 3, shared_depth: 0 }
        }
    }
}

/// Splits `path` at every `sep`.
pub fn split_chars(path: &[char], sep: char) -> (parts: Vec<Vec<char>>)
    ensures
        parts@.len() == split_on(path@, sep).len(),
        forall|i: int| 0 <= i < parts@.len() ==> #[trigger] parts@[i]@ == split_on(path@, sep)[i],
{
    let mut parts: Vec<Vec<char>> = Vec::new();
    parts.push(Vec::new());
    let mut i: usize = 0;
    while i < path.len()
        invariant
            i <= path@.len(),
            parts@.len() == split_on(path@.take(i as int), sep).len(),
            parts@.len() >= 1,
            forall|j: int|
                0 <= j < parts@.len() ==> #[trigger] parts@[j]@ == split_on(
                    path@.take(i as int),
                    sep,
                )[j],
        decreases path@.len() - i,
    {
        let ghost prev = path@.take(i as int);
        assert(path@.take(i + 1).drop_last() =~= prev);
        assert(path@.take(i + 1).last() == path@[i as int]);
        proof {
            lemma_split_on_nonempty(prev, sep);
        }
        let c = path[i];
        if c == sep {
            parts.push(Vec::new());
        } else {
            let last = parts.len() - 1;
            let mut piece = parts.pop().unwrap();
            piece.push(c);
            parts.push(piece);
            assert(parts@.len() == last + 1);
        }
        i = i + 1;
    }
    assert(path@.take(path@.len() as int) =~= path@);
    parts
}

/// Splits `path` at every `/`.
pub fn split_slash(path: &[char]) -> (parts: Vec<Vec<char>>)
    ensures
        parts@.len() == split_on(path@, '/').len(),
        forall|i: int| 0 <= i < parts@.len() ==> #[trigger] parts@[i]@ == split_on(path@, '/')[i],
{
    split_chars(path, '/')
}

/// The directory components of `path`, dropping the file name itself.
fn path_dir_components(path: &[char]) -> (dirs: Vec<Vec<char>>)
    ensures
        dirs@.len() == dir_components(path@).len(),
        forall|i: int| 0 <= i < dirs@.len() ==> #[trigger] dirs@[i]@ == dir_components(path@)[i],
{
    let mut parts = split_slash(path);
    proof {
        lemma_split_on_nonempty(path@, '/');
    }
    parts.pop();
    parts
}

fn components_eq(a: &Vec<Vec<char>>, b: &Vec<Vec<char>>, sa: Ghost<Seq<Seq<char>>>, sb: Ghost<Seq<Seq<char>>>) -> (r: bool)
    requires
        a@.len() == sa@.len(),
        b@.len() == sb@.len(),
        forall|i: int| 0 <= i < a@.len() ==> #[trigger] a@[i]@ == sa@[i],
        forall|i: int| 0 <= i < b@.len() ==> #[trigger] b@[i]@ == sb@[i],
    ensures
        r == (sa@ == sb@),
{
    if a.len() != b.len() {
        return false;
    }
    let mut i: usize = 0;
    while i < a.len()
        invariant
            a@.len() == b@.len(),
            a@.len() == sa@.len(),
            b@.len() == sb@.len(),
            forall|j: int| 0 <= j < a@.len() ==> #[trigger] a@[j]@ == sa@[j],
            forall|j: int| 0 <= j < b@.len() ==> #[trigger] b@[j]@ == sb@[j],
            i <= a@.len(),
            forall|j: int| 0 <= j < i ==> sa@[j] == sb@[j],
        decreases a@.len() - i,
    {
        if !chars_eq(&a[i], &b[i]) {
            assert(a@[i as int]@ == sa@[i as int]);
            return false;
        }
        i = i + 1;
    }
    assert(sa@ =~= sb@);
    true
}

/// Ranks how close `candidate_path` is to `referencing_path`, lower being
/// closer: the same file, then the same directory, then a shared directory
/// prefix (deeper first), then nothing shared. Two files both at the
/// repository root share the (empty) directory and rank as the same
/// directory.
pub fn path_proximity_rank(referencing_path: &[char], candidate_path: &[char]) -> (r: ProximityRank)
    ensures
        r == spec_proximity_rank(referencing_path@, candidate_path@),
{
    if chars_eq(candidate_path, referencing_path) {
        return ProximityRank { tier: 0, shared_depth: usize::MAX };
    }
    let referencing_dir = path_dir_components(referencing_path);
    let candidate_dir = path_dir_components(candidate_path);
    let ghost rd = dir_components(referencing_path@);
    let ghost cd = dir_components(candidate_path@);
    if components_eq(&referencing_dir, &candidate_dir, Ghost(rd), Ghost(cd)) {
        return ProximityRank { tier: 1, shared_depth: usize::MAX };
    }
    let mut shared: usize = 0;
    while shared < referencing_dir.len() && shared < candidate_dir.len() && chars_eq(
        &referencing_dir[shared],
        &candidate_dir[shared],
    )
        invariant
            referencing_dir@.len() == rd.len(),
            candidate_dir@.len() == cd.len(),
            forall|j: int| 0 <= j < rd.len() ==> #[trigger] referencing_dir@[j]@ == rd[j],
            forall|j: int| 0 <= j < cd.len() ==> #[trigger] candidate_dir@[j]@ == cd[j],
            agree_up_to(rd, cd, shared as int),
        decreases rd.len() - shared,
    {
        shared = shared + 1;
    }
    assert(is_common_prefix_len(rd, cd, shared as int));
    proof {
        lemma_common_prefix_unique(rd, cd, shared as int);
    }
    if shared > 0 {
        ProximityRank { tier: 2, shared_depth: shared }
    } else {
        ProximityRank { tier: 3, shared_depth: 0 }
    }
}

proof fn lemma_common_prefix_unique<T>(a: Seq<T>, b: Seq<T>, k: int)
    requires
        is_common_prefix_len(a, b, k),
    ensures
        (choose|m: int| is_common_prefix_len(a, b, m)) == k,
{
    let m = choose|m: int| is_common_prefix_len(a, b, m);
    assert(is_common_prefix_len(a, b, m));
    if m < k {
        assert(a[m] == b[m]);
    } else if m > k {
        assert(a[k] == b[k]);
    }
}

/// How ranking reads the two paths' directories: the same path ranks 0;
/// different paths in the same directory rank 1; paths whose directories
/// differ but whose first `k >= 1` directory components agree (and no
/// more) rank 2 at depth `k` (a depth that fits a machine word); and paths whose first directory components
/// already differ (or one of which is at the root) rank 3 at depth 0.
pub proof fn lemma_proximity_rank_tiers(referencing: Seq<char>, candidate: Seq<char>, k: int)
    ensures
        candidate == referencing ==> spec_proximity_rank(referencing, candidate).tier == 0,
        candidate != referencing && dir_components(referencing) == dir_components(candidate) ==> spec_proximity_rank(
            referencing,
            candidate,
        ).tier == 1,
        ({
            let rd = dir_components(referencing);
            let cd = dir_components(candidate);
            candidate != referencing && rd != cd && 1 <= k <= rd.len() && k <= cd.len() && k <= usize::MAX && (forall|
                j: int|
                0 <= j < k ==> rd[j] == cd[j]) && (k == rd.len() || k == cd.len() || rd[k] != cd[k])
                ==> spec_proximity_rank(referencing, candidate) == ProximityRank { tier: 2, shared_depth: k as usize }
        }),
        ({
            let rd = dir_components(referencing);
            let cd = dir_components(candidate);
            candidate != referencing && rd != cd && (rd.len() == 0 || cd.len() == 0 || rd[0] != cd[0])
                ==> spec_proximity_rank(referencing, candidate) == ProximityRank { tier: 3, shared_depth: 0 }
        }),
{
    let rd = dir_components(referencing);
    let cd = dir_components(candidate);
    if candidate != referencing && rd != cd && 1 <= k <= rd.len() && k <= cd.len() && k <= usize::MAX && (forall|j: int|
        0 <= j < k ==> rd[j] == cd[j]) && (k == rd.len() || k == cd.len() || rd[k] != cd[k]) {
        assert(is_common_prefix_len(rd, cd, k));
        lemma_common_prefix_unique(rd, cd, k);
    }
    if candidate != referencing && rd != cd && (rd.len() == 0 || cd.len() == 0 || rd[0] != cd[0]) {
        assert(is_common_prefix_len(rd, cd, 0));
        lemma_common_prefix_unique(rd, cd, 0);
    }
}

/// Sharing a directory prefix ranks closer than sharing nothing: of two
/// candidates in directories other than the referencing file's, one whose
/// first directory component agrees with the referencing file's comes
/// before one whose first component does not.
pub proof fn lemma_shared_prefix_ranks_closer(referencing: Seq<char>, near: Seq<char>, far: Seq<char>)
    requires
        near != referencing,
        far != referencing,
        dir_components(near) != dir_components(referencing),
        dir_components(far) != dir_components(referencing),
        0 < dir_components(referencing).len() <= usize::MAX,
        dir_components(near).len() > 0,
        dir_components(near)[0] == dir_components(referencing)[0],
        dir_components(far).len() == 0 || dir_components(far)[0] != dir_components(referencing)[0],
    ensures
        spec_proximity_rank(referencing, near).tier == 2,
        spec_proximity_rank(referencing, near).shared_depth >= 1,
        spec_proximity_rank(referencing, far).tier == 3,
{
    let rd = dir_components(referencing);
    let cd = dir_components(near);
    let k = choose|k: int| is_common_prefix_len(rd, cd, k);
    lemma_common_prefix_exists(rd, cd, 0);
    assert(is_common_prefix_len(rd, cd, k));
    if k == 0 {
        assert(rd[0] == cd[0]);
    }
    lemma_proximity_rank_tiers(referencing, far, 0);
}

proof fn lemma_common_prefix_exists<T>(a: Seq<T>, b: Seq<T>, k: int)
    requires
        agree_up_to(a, b, k),
    ensures
        exists|m: int| is_common_prefix_len(a, b, m),
    decreases a.len() - k,
{
    if !is_common_prefix_len(a, b, k) {
        assert(agree_up_to(a, b, k + 1));
        lemma_common_prefix_exists(a, b, k + 1);
    }
}

} // verus!
