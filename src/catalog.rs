//! Building the catalog: classifying directory entries, reading desktop
//! shortcuts, and sorting the results into a duplicate-free order.

use vstd::prelude::*;
use crate::executables::{EntryModel, Executable};
use crate::order::{pick, sorted_unique_positions, strictly_sorted};
use crate::search::{display_texts, models, seqs_of};
use crate::text::{chars_of, lines_of, slice_chars, split_lines, starts_with, string_of};

verus! {

broadcast use vstd::string::group_string_axioms;

/// The permission bits that allow execution by owner, group or others.
pub const EXECUTE_BITS: u32 = 0o111;

/// How a directory entry enters the catalog.
#[derive(Debug, PartialEq, Eq, Structural, Clone, Copy)]
pub enum EntryKind {
    /// It does not.
    Skip,
    /// As a desktop shortcut, read from the file's contents.
    DesktopFile,
    /// As a binary, under its file name.
    Binary,
}

/// The file name's extension is `desktop`: it ends in `.desktop` after at
/// least one other character.
pub open spec fn is_desktop_name(name: Seq<char>) -> bool {
    &&& name.len() > 8
    &&& name.subrange(name.len() - 8, name.len() as int) == seq!['.', 'd', 'e', 's', 'k', 't', 'o', 'p']
}

/// How an entry is classified: a desktop shortcut when those are included,
/// else a binary when those are included and the entry is a regular file or
/// symlink with an execute bit set.
pub open spec fn entry_kind(
    name: Seq<char>,
    is_file_or_symlink: bool,
    mode: u32,
    include_binaries: bool,
    include_desktop_files: bool,
) -> EntryKind {
    if is_desktop_name(name) && include_desktop_files {
        EntryKind::DesktopFile
    } else if include_binaries && is_file_or_symlink && mode & EXECUTE_BITS != 0 {
        EntryKind::Binary
    } else {
        EntryKind::Skip
    }
}

/// Tests whether a file name has the `desktop` extension.
pub fn is_desktop_file_name(name: &str) -> (r: bool)
    ensures
        r == is_desktop_name(name@),
{
    let n = chars_of(name);
    if n.len() <= 8 {
        return false;
    }
    let tail = slice_chars(&n, n.len() - 8, n.len());
    let r = tail[0] == '.' && tail[1] == 'd' && tail[2] == 'e' && tail[3] == 's' && tail[4] == 'k'
        && tail[5] == 't' && tail[6] == 'o' && tail[7] == 'p';
    assert(r == (tail@ =~= seq!['.', 'd', 'e', 's', 'k', 't', 'o', 'p']));
    r
}

/// Classifies a directory entry from its name, its file type and its
/// permission bits.
pub fn classify_entry(
    file_name: &str,
    is_file_or_symlink: bool,
    mode: u32,
    include_binaries: bool,
    include_desktop_files: bool,
) -> (r: EntryKind)
    ensures
        r == entry_kind(file_name@, is_file_or_symlink, mode, include_binaries, include_desktop_files),
{
    if include_desktop_files && is_desktop_file_name(file_name) {
        EntryKind::DesktopFile
    } else if include_binaries && is_file_or_symlink && mode & EXECUTE_BITS != 0 {
        EntryKind::Binary
    } else {
        EntryKind::Skip
    }
}

/// The value of line `l` under `key`, when the line reads `key=value`.
pub open spec fn line_value(l: Seq<char>, key: Seq<char>) -> Option<Seq<char>> {
    if starts_with(l, key.push('=')) {
        Some(l.subrange(key.len() + 1int, l.len() as int))
    } else {
        None
    }
}

/// The value under `key` in the first of the lines that has one.
pub open spec fn first_value(ls: Seq<Seq<char>>, key: Seq<char>) -> Option<Seq<char>>
    decreases ls.len(),
{
    if ls.len() == 0 {
        None
    } else {
        match first_value(ls.drop_last(), key) {
            Some(v) => Some(v),
            None => line_value(ls.last(), key),
        }
    }
}

/// The key of a shortcut's display name.
pub open spec fn name_key() -> Seq<char> {
    seq!['N', 'a', 'm', 'e']
}

/// The key of a shortcut's command.
pub open spec fn exec_key() -> Seq<char> {
    seq!['E', 'x', 'e', 'c']
}

/// A name for what stripping the field codes (`%` and the word character
/// after it) leaves of a desktop entry's command.
pub uninterp spec fn field_codes_stripped(s: Seq<char>) -> Seq<char>;

/// Relies on `regex::Regex::replace_all` with the pattern `%\w` and an empty
/// replacement: every field code is removed, and a text without `%` has no
/// match and comes back unchanged.
#[verifier::external_body]
fn strip_field_codes(s: &str) -> (r: String)
    ensures
        r@ == field_codes_stripped(s@),
        !s@.contains('%') ==> r@ == s@,
{
    regex::Regex::new(r"%\w").unwrap().replace_all(s, "").into_owned()
}

proof fn lemma_first_value_step(ls: Seq<Seq<char>>, i: int, key: Seq<char>)
    requires
        0 <= i < ls.len(),
    ensures
        first_value(ls.take(i + 1), key) == match first_value(ls.take(i), key) {
            Some(v) => Some(v),
            None => line_value(ls[i], key),
        },
{
    assert(ls.take(i + 1).drop_last() =~= ls.take(i));
}

/// Tests whether `l` reads `key=...`, where `key` is given with its `=`.
fn value_after(l: &Vec<char>, key_eq: &Vec<char>) -> (r: Option<Vec<char>>)
    requires
        key_eq@.len() > 0,
        key_eq@.last() == '=',
    ensures
        r matches Some(v) ==> line_value(l@, key_eq@.drop_last()) == Some(v@),
        r is None ==> line_value(l@, key_eq@.drop_last()) is None,
{
    assert(key_eq@.drop_last().push('=') =~= key_eq@);
    if l.len() < key_eq.len() {
        return None;
    }
    let mut j: usize = 0;
    while j < key_eq.len()
        invariant
            key_eq@.len() <= l@.len(),
            key_eq@.drop_last().push('=') == key_eq@,
            j <= key_eq@.len(),
            forall|m: int| 0 <= m < j ==> l@[m] == key_eq@[m],
        decreases key_eq.len() - j,
    {
        if l[j] != key_eq[j] {
            assert(l@.take(key_eq@.len() as int)[j as int] != key_eq@[j as int]);
            assert(!starts_with(l@, key_eq@));
            return None;
        }
        j = j + 1;
    }
    assert(l@.take(key_eq@.len() as int) =~= key_eq@);
    Some(slice_chars(l, key_eq.len(), l.len()))
}

/// The display name and the raw command of a desktop shortcut: the values
/// of its first `Name=` line and its first `Exec=` line, if both are there.
pub fn desktop_file_fields(contents: &str) -> (r: Option<(String, String)>)
    ensures
        ({
            let ls = lines_of(contents@);
            match (first_value(ls, name_key()), first_value(ls, exec_key())) {
                (Some(n), Some(x)) => r matches Some(p) && p.0@ == n && p.1@ == x,
                _ => r is None,
            }
        }),
{
    let lines = split_lines(&chars_of(contents));
    let ghost ls = seqs_of(lines@);
    let name_eq = vec!['N', 'a', 'm', 'e', '='];
    let exec_eq = vec!['E', 'x', 'e', 'c', '='];
    assert(name_eq@.drop_last() =~= name_key());
    assert(exec_eq@.drop_last() =~= exec_key());
    let mut name: Option<Vec<char>> = None;
    let mut exec: Option<Vec<char>> = None;
    let mut i: usize = 0;
    assert(ls.take(0) =~= seq![]);
    while i < lines.len()
        invariant
            ls == seqs_of(lines@),
            i <= lines.len(),
            name_eq@.drop_last() == name_key(),
            exec_eq@.drop_last() == exec_key(),
            name_eq@.len() == 5 && name_eq@.last() == '=',
            exec_eq@.len() == 5 && exec_eq@.last() == '=',
            match name {
                Some(v) => first_value(ls.take(i as int), name_key()) == Some(v@),
                None => first_value(ls.take(i as int), name_key()) is None,
            },
            match exec {
                Some(v) => first_value(ls.take(i as int), exec_key()) == Some(v@),
                None => first_value(ls.take(i as int), exec_key()) is None,
            },
        decreases lines.len() - i,
    {
        proof {
            lemma_first_value_step(ls, i as int, name_key());
            lemma_first_value_step(ls, i as int, exec_key());
        }
        assert(ls[i as int] == lines@[i as int]@);
        if name.is_none() {
            name = value_after(&lines[i], &name_eq);
        }
        if exec.is_none() {
            exec = value_after(&lines[i], &exec_eq);
        }
        i = i + 1;
    }
    assert(ls.take(lines.len() as int) =~= ls);
    match (name, exec) {
        (Some(n), Some(x)) => Some((string_of(&n), string_of(&x))),
        _ => None,
    }
}

/// The entry a desktop shortcut describes: its first `Name=` value as the
/// display name, and its first `Exec=` value, field codes stripped, as the
/// command; `None` when either is missing.
pub fn parse_desktop_entry(contents: &str) -> (r: Option<Executable>)
    ensures
        ({
            let ls = lines_of(contents@);
            match (first_value(ls, name_key()), first_value(ls, exec_key())) {
                (Some(n), Some(x)) => r matches Some(e) && e@ == (EntryModel {
                    command: field_codes_stripped(x),
                    name: Some(n),
                }),
                _ => r is None,
            }
        }),
{
    match desktop_file_fields(contents) {
        Some((name, exec)) => {
            let command = strip_field_codes(exec.as_str());
            Some(Executable::new_desktop_file(command, name))
        },
        None => None,
    }
}

/// Some entry of `cat` shows the text `t`.
pub open spec fn listed(cat: Seq<EntryModel>, t: Seq<char>) -> bool {
    exists|j: int| 0 <= j < cat.len() && (#[trigger] cat[j]).display_text() == t
}

/// `e` is an entry of `found` that no earlier entry shares its text with.
pub open spec fn first_of_text(found: Seq<EntryModel>, e: EntryModel) -> bool {
    exists|i: int|
        0 <= i < found.len() && #[trigger] found[i] == e && forall|m: int|
            0 <= m < i ==> (#[trigger] found[m]).display_text() != e.display_text()
}

/// `cat` is the catalog of `found`: sorted by display text without two
/// entries of one text, each text of `found` present, each entry the first
/// of `found` with its text.
pub open spec fn is_catalog_of(found: Seq<EntryModel>, cat: Seq<EntryModel>) -> bool {
    &&& strictly_sorted(display_texts(cat))
    &&& forall|i: int| 0 <= i < found.len() ==> listed(cat, (#[trigger] found[i]).display_text())
    &&& forall|j: int| 0 <= j < cat.len() ==> first_of_text(found, #[trigger] cat[j])
}

/// Sorts the entries found by a scan by display text and drops those whose
/// text an earlier one already has.
pub fn build_catalog(found: &Vec<Executable>) -> (r: Vec<Executable>)
    ensures
        is_catalog_of(models(found@), models(r@)),
{
    let ghost f = models(found@);
    let mut keys: Vec<Vec<char>> = Vec::new();
    let mut i: usize = 0;
    while i < found.len()
        invariant
            i <= found.len(),
            keys@.len() == i,
            forall|m: int| 0 <= m < i ==> (#[trigger] keys@[m])@ == found@[m]@.display_text(),
        decreases found.len() - i,
    {
        keys.push(chars_of(found[i].get_display_text()));
        i = i + 1;
    }
    let ghost k = seqs_of(keys@);
    assert(k =~= display_texts(f));
    let idx = sorted_unique_positions(&keys);
    let mut r: Vec<Executable> = Vec::new();
    let mut j: usize = 0;
    while j < idx.len()
        invariant
            k == display_texts(f),
            f == models(found@),
            k.len() == found@.len(),
            crate::order::first_of_each(k, idx@, k.len() as int),
            j <= idx.len(),
            r@.len() == j,
            forall|m: int| 0 <= m < j ==> (#[trigger] r@[m])@ == found@[idx@[m] as int]@,
        decreases idx.len() - j,
    {
        r.push(found[idx[j]].clone());
        j = j + 1;
    }
    let ghost c = models(r@);
    assert(display_texts(c) =~= pick(k, idx@));
    assert forall|i: int| 0 <= i < f.len() implies listed(c, (#[trigger] f[i]).display_text()) by {
        assert(crate::order::represented(k, idx@, i));
        let jj = choose|jj: int| 0 <= jj < idx@.len() && k[#[trigger] idx@[jj] as int] == k[i];
        assert(c[jj].display_text() == k[idx@[jj] as int]);
    }
    assert forall|jj: int| 0 <= jj < c.len() implies first_of_text(f, #[trigger] c[jj]) by {
        let i = idx@[jj] as int;
        assert(f[i] == c[jj]);
        assert forall|m: int| 0 <= m < i implies (#[trigger] f[m]).display_text() != c[jj].display_text() by {
            assert(k[m] == f[m].display_text());
        }
    }
    r
}

} // verus!
