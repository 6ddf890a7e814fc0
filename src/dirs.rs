//! The directory resolver: which directories a scan covers.

use vstd::prelude::*;
use crate::order::{lemma_strictly_sorted_distinct, pick, sorted_unique_positions, strictly_sorted};
use crate::search::seqs_of;
use crate::text::{chars_of, compare_chars, pieces, split_on, string_of};

verus! {

broadcast use vstd::string::group_string_axioms;

/// The characters of each string.
pub open spec fn strings_view(v: Seq<String>) -> Seq<Seq<char>> {
    v.map_values(|s: String| s@)
}

/// The directories listed in a search-path value, split at each `:`.
pub fn split_search_path(path_var: &str) -> (r: Vec<String>)
    ensures
        strings_view(r@) == pieces(path_var@, ':'),
{
    let parts = split_on(&chars_of(path_var), ':');
    let mut r: Vec<String> = Vec::new();
    let mut i: usize = 0;
    while i < parts.len()
        invariant
            i <= parts.len(),
            parts@.len() == pieces(path_var@, ':').len(),
            forall|j: int| 0 <= j < parts@.len() ==> (#[trigger] parts@[j])@ == pieces(path_var@, ':')[j],
            r@.len() == i,
            forall|j: int| 0 <= j < i ==> (#[trigger] r@[j])@ == parts@[j]@,
        decreases parts.len() - i,
    {
        r.push(string_of(&parts[i]));
        i = i + 1;
    }
    assert(strings_view(r@) =~= pieces(path_var@, ':'));
    r
}

/// The directories a scan considers: those of the search path, then the
/// extra ones.
pub fn candidate_directories(path_var: &str, extra_directories: &Vec<String>) -> (r: Vec<String>)
    ensures
        strings_view(r@) == pieces(path_var@, ':') + strings_view(extra_directories@),
{
    let mut r = split_search_path(path_var);
    let ghost start = strings_view(r@);
    let mut i: usize = 0;
    while i < extra_directories.len()
        invariant
            i <= extra_directories.len(),
            start == pieces(path_var@, ':'),
            strings_view(r@) == start + strings_view(extra_directories@).take(i as int),
        decreases extra_directories.len() - i,
    {
        let ghost prev = r@;
        let d = extra_directories[i].clone();
        assert(d@ == extra_directories@[i as int]@);
        r.push(d);
        assert(strings_view(r@) =~= strings_view(prev).push(d@));
        assert(strings_view(extra_directories@).take(i + 1) =~= strings_view(extra_directories@).take(
            i as int,
        ).push(d@));
        i = i + 1;
        assert(strings_view(r@) =~= start + strings_view(extra_directories@).take(i as int));
    }
    assert(strings_view(extra_directories@).take(i as int) =~= strings_view(extra_directories@));
    r
}

/// `d` is a candidate that exists and is not ignored.
pub open spec fn kept_directory(
    candidates: Seq<Seq<char>>,
    exists: Seq<bool>,
    ignored: Seq<Seq<char>>,
    d: Seq<char>,
) -> bool {
    &&& exists|i: int| 0 <= i < candidates.len() && #[trigger] candidates[i] == d && exists[i]
    &&& !ignored.contains(d)
}

/// Tests whether `d` is one of `list`.
fn listed_in(list: &Vec<String>, d: &Vec<char>) -> (r: bool)
    ensures
        r == strings_view(list@).contains(d@),
{
    let mut i: usize = 0;
    while i < list.len()
        invariant
            i <= list.len(),
            forall|j: int| 0 <= j < i ==> list@[j]@ != d@,
        decreases list.len() - i,
    {
        let item = chars_of(list[i].as_str());
        if matches!(compare_chars(&item, d), core::cmp::Ordering::Equal) {
            assert(strings_view(list@)[i as int] == d@);
            return true;
        }
        i = i + 1;
    }
    assert forall|j: int| 0 <= j < strings_view(list@).len() implies strings_view(list@)[j] != d@ by {
        assert(strings_view(list@)[j] == list@[j]@);
    }
    false
}

/// The directories to scan: the candidates that exist (`exists` says so of
/// each) and are not ignored, sorted and without duplicates.
pub fn get_binary_dirs(candidates: &Vec<String>, exists: &Vec<bool>, ignored: &Vec<String>) -> (r: Vec<String>)
    requires
        candidates@.len() == exists@.len(),
    ensures
        strictly_sorted(strings_view(r@)),
        forall|a: int, b: int| 0 <= a < b < r@.len() ==> #[trigger] r@[a]@ != #[trigger] r@[b]@,
        forall|d: Seq<char>|
            #[trigger] strings_view(r@).contains(d) <==> kept_directory(
                strings_view(candidates@),
                exists@,
                strings_view(ignored@),
                d,
            ),
{
    let ghost c = strings_view(candidates@);
    let ghost ig = strings_view(ignored@);
    let mut keys: Vec<Vec<char>> = Vec::new();
    let mut i: usize = 0;
    while i < candidates.len()
        invariant
            i <= candidates.len(),
            candidates@.len() == exists@.len(),
            c == strings_view(candidates@),
            ig == strings_view(ignored@),
            forall|m: int| 0 <= m < keys@.len() ==> kept_directory(c, exists@, ig, #[trigger] keys@[m]@),
            forall|m: int| 0 <= m < i && exists@[m] && !ig.contains(#[trigger] c[m]) ==> seqs_of(keys@).contains(c[m]),
        decreases candidates.len() - i,
    {
        let dir = chars_of(candidates[i].as_str());
        assert(c[i as int] == dir@);
        if exists[i] && !listed_in(ignored, &dir) {
            let ghost prev = keys@;
            keys.push(dir);
            assert(seqs_of(keys@)[prev.len() as int] == dir@);
            assert forall|m: int| 0 <= m < i && exists@[m] && !ig.contains(#[trigger] c[m]) implies seqs_of(keys@).contains(c[m]) by {
                let p = choose|p: int| 0 <= p < seqs_of(prev).len() && seqs_of(prev)[p] == c[m];
                assert(seqs_of(keys@)[p] == c[m]);
            }
        }
        i = i + 1;
    }
    let ghost k = seqs_of(keys@);
    let idx = sorted_unique_positions(&keys);
    let mut r: Vec<String> = Vec::new();
    let mut j: usize = 0;
    while j < idx.len()
        invariant
            k == seqs_of(keys@),
            crate::order::first_of_each(k, idx@, k.len() as int),
            j <= idx.len(),
            r@.len() == j,
            forall|m: int| 0 <= m < j ==> (#[trigger] r@[m])@ == k[idx@[m] as int],
        decreases idx.len() - j,
    {
        r.push(string_of(&keys[idx[j]]));
        j = j + 1;
    }
    let ghost rv = strings_view(r@);
    assert(rv =~= pick(k, idx@));
    proof {
        lemma_strictly_sorted_distinct(rv);
        assert forall|a: int, b: int| 0 <= a < b < r@.len() implies #[trigger] r@[a]@ != #[trigger] r@[b]@ by {
            assert(rv[a] == r@[a]@ && rv[b] == r@[b]@);
        }
    }
    assert forall|d: Seq<char>| #[trigger] rv.contains(d) <==> kept_directory(c, exists@, ig, d) by {
        if rv.contains(d) {
            let jj = choose|jj: int| 0 <= jj < rv.len() && rv[jj] == d;
            assert(rv[jj] == k[idx@[jj] as int]);
            assert(kept_directory(c, exists@, ig, keys@[idx@[jj] as int]@));
        }
        if kept_directory(c, exists@, ig, d) {
            let m = choose|m: int| 0 <= m < c.len() && #[trigger] c[m] == d && exists@[m];
            assert(k.contains(c[m]));
            let p = choose|p: int| 0 <= p < k.len() && k[p] == c[m];
            assert(crate::order::represented(k, idx@, p));
            let jj = choose|jj: int| 0 <= jj < idx@.len() && k[#[trigger] idx@[jj] as int] == k[p];
            assert(rv[jj] == d);
        }
    }
    r
}

} // verus!
