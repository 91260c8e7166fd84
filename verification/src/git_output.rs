//! Reading what `git ls-files` and `git ls-tree` print.

use crate::path_proximity::{split_chars, split_on};
use crate::str_map::{entries_view, lookup, StrMap};
use crate::text::{chars_between, find_chars_from, find_from, lines_of, split_lines, str_chars, string_from_chars};
use vstd::prelude::*;

verus! {

/// The paths `git ls-files` printed, one per line.
pub fn parse_ls_files(stdout: &str) -> (r: Vec<String>)
    ensures
        r@.map_values(|x: String| x@) == lines_of(stdout@),
{
    split_lines(stdout)
}

/// The `(path, blob id)` pairs of the NUL-separated `<oid>\t<path>`
/// entries of `s`: empty entries and entries without a tab are skipped, and
/// the tab is the first one in the entry.
pub open spec fn blob_pairs(entries: Seq<Seq<char>>) -> Seq<(Seq<char>, Seq<char>)>
    decreases entries.len(),
{
    if entries.len() == 0 {
        Seq::empty()
    } else {
        let e = entries.last();
        blob_pairs(entries.drop_last()) + if e.len() > 0 && find_from(e, seq!['\t'], 0) is Some {
            let t = find_from(e, seq!['\t'], 0)->Some_0 as int;
            seq![(e.subrange(t + 1, e.len() as int), e.subrange(0, t))]
        } else {
            Seq::empty()
        }
    }
}

/// The blob id of every path `git ls-tree -r -z
/// --format=%(objectname)%x09%(path)` printed, a path printed twice
/// keeping its last id.
pub fn parse_blob_oids(stdout: &str) -> (r: StrMap<String>)
    ensures
        r.wf(),
        forall|k: Seq<char>|
            match #[trigger] r.get_spec(k) {
                Some(oid) => lookup(blob_pairs(split_on(stdout@, '\0')), k) == Some(oid@),
                None => lookup(blob_pairs(split_on(stdout@, '\0')), k) is None,
            },
{
    let chars = str_chars(stdout);
    let entries = split_chars(chars.as_slice(), '\0');
    let ghost all = split_on(stdout@, '\0');
    let tab = str_chars("\t");
    proof {
        reveal_strlit("\t");
        assert(tab@ =~= seq!['\t']);
    }
    let mut pairs: Vec<(String, String)> = Vec::new();
    let mut i: usize = 0;
    while i < entries.len()
        invariant
            entries@.len() == all.len(),
            all == split_on(stdout@, '\0'),
            forall|j: int| 0 <= j < entries@.len() ==> #[trigger] entries@[j]@ == all[j],
            tab@ == seq!['\t'],
            i <= entries@.len(),
            pairs@.map_values(|x: (String, String)| (x.0@, x.1@)) == blob_pairs(all.take(i as int)),
        decreases entries@.len() - i,
    {
        let entry = entries[i].as_slice();
        assert(all.take(i + 1).drop_last() =~= all.take(i as int));
        assert(all.take(i + 1).last() == all[i as int]);
        let ghost before = pairs@.map_values(|x: (String, String)| (x.0@, x.1@));
        if entry.len() > 0 {
            match find_chars_from(entry, tab.as_slice(), 0) {
                Some(t) => {
                    let oid = string_from_chars(chars_between(entry, 0, t).as_slice());
                    let path = string_from_chars(chars_between(entry, t + 1, entry.len()).as_slice());
                    pairs.push((path, oid));
                    assert(pairs@.map_values(|x: (String, String)| (x.0@, x.1@)) =~= before.push(
                        (all[i as int].subrange(t + 1, all[i as int].len() as int), all[i as int].subrange(0, t as int)),
                    ));
                },
                None => {
                    assert(blob_pairs(all.take(i + 1)) =~= blob_pairs(all.take(i as int)));
                },
            }
        } else {
            assert(blob_pairs(all.take(i + 1)) =~= blob_pairs(all.take(i as int)));
        }
        i = i + 1;
    }
    assert(all.take(all.len() as int) =~= all);
    let ghost pv = pairs@;
    let map = StrMap::from_pairs(pairs);
    proof {
        assert forall|k: Seq<char>|
            match #[trigger] map.get_spec(k) {
                Some(oid) => lookup(blob_pairs(all), k) == Some(oid@),
                None => lookup(blob_pairs(all), k) is None,
            } by {
            lemma_lookup_views(pv, k);
        }
    }
    map
}

proof fn lemma_lookup_views(pairs: Seq<(String, String)>, k: Seq<char>)
    ensures
        match lookup(entries_view(pairs), k) {
            Some(v) => lookup(pairs.map_values(|x: (String, String)| (x.0@, x.1@)), k) == Some(v@),
            None => lookup(pairs.map_values(|x: (String, String)| (x.0@, x.1@)), k) is None,
        },
    decreases pairs.len(),
{
    if pairs.len() > 0 {
        let t = pairs.drop_last();
        assert(entries_view(pairs).drop_last() =~= entries_view(t));
        assert(pairs.map_values(|x: (String, String)| (x.0@, x.1@)).drop_last() =~= t.map_values(
            |x: (String, String)| (x.0@, x.1@),
        ));
        lemma_lookup_views(t, k);
    }
}

} // verus!
