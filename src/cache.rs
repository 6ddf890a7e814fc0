//! The catalog cache: one line per entry, and the rule that decides when the
//! cache must be rebuilt.

use vstd::prelude::*;
use crate::executables::{desktop_prefix, separator, EntryModel, Executable};
use crate::search::{models, seqs_of};
use crate::text::{
    chars_of, contains, contains_chars, find_first, has_char, is_first_occurrence, lemma_pieces_extend,
    lines_of, occurs_at, pieces, slice_chars, split_lines, starts_with, string_of,
};

verus! {

broadcast use vstd::string::group_string_axioms;

/// The file name of the cache inside the cache directory.
pub const CACHE_FILE_NAME: &'static str = "executables.txt";

/// Why a cache line was rejected.
#[derive(Debug, PartialEq, Eq, Structural, Clone, Copy)]
pub enum CacheLineError {
    /// A binary's line holds a space.
    SpaceInCommand,
    /// A `D:` line does not part into a name and a command around `" - "`.
    MalformedDesktopEntry,
}

/// The name and command of a desktop line's text after `D:`: the parts
/// before and after the first `" - "`, where the command holds no further
/// `" - "`.
pub open spec fn desktop_fields(rest: Seq<char>) -> Option<(Seq<char>, Seq<char>)> {
    if exists|p: int| is_first_occurrence(rest, separator(), p) {
        let p = choose|p: int| is_first_occurrence(rest, separator(), p);
        let command = rest.subrange(p + 3, rest.len() as int);
        if contains(command, separator()) {
            None
        } else {
            Some((rest.take(p), command))
        }
    } else {
        None
    }
}

/// What one cache line decodes to.
pub open spec fn line_outcome(l: Seq<char>) -> Result<EntryModel, CacheLineError> {
    if starts_with(l, desktop_prefix()) {
        match desktop_fields(l.subrange(2, l.len() as int)) {
            Some((name, command)) => Ok(EntryModel { command, name: Some(name) }),
            None => Err(CacheLineError::MalformedDesktopEntry),
        }
    } else if l.contains(' ') {
        Err(CacheLineError::SpaceInCommand)
    } else {
        Ok(EntryModel { command: l, name: None })
    }
}

/// The entry a line decodes to, if it is not rejected.
pub open spec fn decoded(l: Seq<char>) -> Option<EntryModel> {
    match line_outcome(l) {
        Ok(e) => Some(e),
        Err(_) => None,
    }
}

/// The entries of a cache text, rejected lines skipped.
pub open spec fn decode_text(t: Seq<char>) -> Seq<EntryModel> {
    lines_of(t).filter_map(|l: Seq<char>| decoded(l))
}

/// How many of the lines are rejected.
pub open spec fn count_rejected(ls: Seq<Seq<char>>) -> nat
    decreases ls.len(),
{
    if ls.len() == 0 {
        0
    } else {
        count_rejected(ls.drop_last()) + if line_outcome(ls.last()) is Err {
            1nat
        } else {
            0nat
        }
    }
}

/// How many lines of a cache text are rejected.
pub open spec fn rejected_lines(t: Seq<char>) -> nat {
    count_rejected(lines_of(t))
}

/// The lines joined by newlines.
pub open spec fn join_lines(ls: Seq<Seq<char>>) -> Seq<char>
    decreases ls.len(),
{
    if ls.len() == 0 {
        seq![]
    } else if ls.len() == 1 {
        ls[0]
    } else {
        join_lines(ls.drop_last()) + seq!['\n'] + ls.last()
    }
}

/// The cache text of a catalog.
pub open spec fn cache_text(entries: Seq<EntryModel>) -> Seq<char> {
    join_lines(entries.map_values(|e: EntryModel| e.cache_line()))
}

/// A modification time that exists and is later than `c`.
pub open spec fn is_newer(t: Option<i64>, c: i64) -> bool {
    match t {
        Some(m) => m > c,
        None => false,
    }
}

/// Whether a cache file must be rebuilt: it is missing, or an existing
/// scanned directory was modified after it. `None` stands for a file or
/// directory that does not exist.
pub open spec fn is_stale(cache_mtime: Option<i64>, dir_mtimes: Seq<Option<i64>>) -> bool {
    match cache_mtime {
        None => true,
        Some(c) => exists|i: int| 0 <= i < dir_mtimes.len() && is_newer(#[trigger] dir_mtimes[i], c),
    }
}

/// A cache file older than some existing scanned directory is rebuilt; one
/// at least as new as every existing scanned directory is loaded as it is;
/// a missing one is always rebuilt.
pub proof fn lemma_staleness(c: i64, dir_mtimes: Seq<Option<i64>>)
    ensures
        is_stale(None, dir_mtimes),
        (exists|i: int|
            0 <= i < dir_mtimes.len() && #[trigger] dir_mtimes[i] is Some && dir_mtimes[i]->0 > c)
            ==> is_stale(Some(c), dir_mtimes),
        (forall|i: int|
            0 <= i < dir_mtimes.len() && #[trigger] dir_mtimes[i] is Some ==> dir_mtimes[i]->0 <= c)
            ==> !is_stale(Some(c), dir_mtimes),
{
    if exists|i: int| 0 <= i < dir_mtimes.len() && #[trigger] dir_mtimes[i] is Some && dir_mtimes[i]->0 > c {
        let i = choose|i: int|
            0 <= i < dir_mtimes.len() && #[trigger] dir_mtimes[i] is Some && dir_mtimes[i]->0 > c;
        assert(is_newer(dir_mtimes[i], c));
    }
}

/// Decides whether the cache must be rebuilt, from the modification time of
/// the cache file and of each scanned directory.
pub fn should_invalidate_cache(cache_mtime: Option<i64>, dir_mtimes: &Vec<Option<i64>>) -> (r: bool)
    ensures
        r == is_stale(cache_mtime, dir_mtimes@),
{
    let c = match cache_mtime {
        None => return true,
        Some(c) => c,
    };
    let mut i: usize = 0;
    while i < dir_mtimes.len()
        invariant
            i <= dir_mtimes.len(),
            cache_mtime == Some(c),
            forall|j: int| 0 <= j < i ==> !is_newer(#[trigger] dir_mtimes@[j], c),
        decreases dir_mtimes.len() - i,
    {
        if let Some(m) = dir_mtimes[i] {
            if m > c {
                return true;
            }
        }
        i = i + 1;
    }
    false
}

/// Decodes one cache line.
pub fn decode_line(line: &Vec<char>) -> (r: Result<Executable, CacheLineError>)
    ensures
        match r {
            Ok(e) => line_outcome(line@) == Ok::<EntryModel, CacheLineError>(e@),
            Err(k) => line_outcome(line@) == Err::<EntryModel, CacheLineError>(k),
        },
{
    if line.len() >= 2 && line[0] == 'D' && line[1] == ':' {
        assert(line@.take(2) =~= desktop_prefix());
        let rest = slice_chars(line, 2, line.len());
        let sep = vec![' ', '-', ' '];
        assert(sep@ =~= separator());
        match find_first(&rest, &sep) {
            Some(p) => {
                let command = slice_chars(&rest, p + 3, rest.len());
                if contains_chars(&command, &sep) {
                    Err(CacheLineError::MalformedDesktopEntry)
                } else {
                    let name = slice_chars(&rest, 0, p);
                    assert(name@ =~= rest@.take(p as int));
                    Ok(Executable::new_desktop_file(string_of(&command), string_of(&name)))
                }
            },
            None => Err(CacheLineError::MalformedDesktopEntry),
        }
    } else {
        assert(!starts_with(line@, desktop_prefix())) by {
            if line@.len() >= 2 {
                assert(line@.take(2)[0] == line@[0]);
                assert(line@.take(2)[1] == line@[1]);
            }
        }
        if has_char(line, ' ') {
            Err(CacheLineError::SpaceInCommand)
        } else {
            Ok(Executable::new_binary(string_of(line)))
        }
    }
}

/// Decodes a cache text: the entries of the lines that decode, in order, and
/// how many lines were rejected.
pub fn decode_catalog(text: &str) -> (r: (Vec<Executable>, usize))
    ensures
        models(r.0@) == decode_text(text@),
        r.1 == rejected_lines(text@),
{
    let lines = split_lines(&chars_of(text));
    let ghost ls = seqs_of(lines@);
    let mut entries: Vec<Executable> = Vec::new();
    let mut rejected: usize = 0;
    let mut i: usize = 0;
    assert(ls.take(0) =~= seq![]);
    while i < lines.len()
        invariant
            ls == seqs_of(lines@),
            ls == lines_of(text@),
            i <= lines.len(),
            models(entries@) == ls.take(i as int).filter_map(|l: Seq<char>| decoded(l)),
            rejected == count_rejected(ls.take(i as int)),
            rejected <= i,
        decreases lines.len() - i,
    {
        let outcome = decode_line(&lines[i]);
        assert(ls.take(i + 1).drop_last() =~= ls.take(i as int));
        assert(ls.take(i + 1).last() == lines@[i as int]@);
        let ghost prev = entries@;
        match outcome {
            Ok(e) => {
                entries.push(e);
                assert(models(entries@) =~= models(prev).push(e@));
            },
            Err(_) => {
                rejected = rejected + 1;
            },
        }
        i = i + 1;
    }
    assert(ls.take(lines.len() as int) =~= ls);
    (entries, rejected)
}

/// Encodes a catalog: one line per entry, joined by newlines.
pub fn encode_catalog(entries: &Vec<Executable>) -> (r: String)
    ensures
        r@ == cache_text(models(entries@)),
{
    let ghost lines = models(entries@).map_values(|e: EntryModel| e.cache_line());
    let mut r = String::new();
    let mut i: usize = 0;
    proof {
        assert(lines.take(0) =~= seq![]);
    }
    while i < entries.len()
        invariant
            i <= entries.len(),
            lines == models(entries@).map_values(|e: EntryModel| e.cache_line()),
            r@ == join_lines(lines.take(i as int)),
        decreases entries.len() - i,
    {
        let line = entries[i].to_string();
        let ghost taken = lines.take(i + 1);
        assert(taken.drop_last() =~= lines.take(i as int));
        assert(taken.last() == line@);
        let ghost prev = r@;
        if i > 0 {
            r.append("\n");
            proof {
                reveal_strlit("\n");
                assert(r@ =~= prev + seq!['\n']);
            }
        }
        r.append(line.as_str());
        proof {
            if i == 0 {
                assert(r@ =~= taken[0]);
            } else {
                assert(r@ =~= join_lines(taken.drop_last()) + seq!['\n'] + taken.last());
            }
        }
        i = i + 1;
    }
    assert(lines.take(entries.len() as int) =~= lines);
    r
}

/// An entry whose cache line reads back as the entry itself (or, for a
/// binary whose command holds a space, is rejected): no line break in its
/// fields; a binary's command is not empty and does not open with `D:`; a
/// desktop entry's name holds no `" - "`, even where it meets the separator,
/// and neither does its command.
pub open spec fn encodable(e: EntryModel) -> bool {
    &&& !e.command.contains('\n')
    &&& match e.name {
        None => e.command.len() > 0 && !starts_with(e.command, desktop_prefix()),
        Some(n) => {
            &&& !n.contains('\n')
            &&& !contains(n + seq![' ', '-'], separator())
            &&& !contains(e.command, separator())
        },
    }
}

/// An entry that the cache keeps: all but binaries whose command holds a
/// space, which are dropped on reading.
pub open spec fn survives_cache(e: EntryModel) -> bool {
    !(e.name is None && e.command.contains(' '))
}

proof fn lemma_desktop_fields(n: Seq<char>, c: Seq<char>)
    requires
        !contains(n + seq![' ', '-'], separator()),
        !contains(c, separator()),
    ensures
        desktop_fields(n + separator() + c) == Some((n, c)),
{
    let sep = separator();
    let rest = n + sep + c;
    let p = n.len() as int;
    assert(rest.subrange(p, p + 3) =~= sep);
    let head = n + seq![' ', '-'];
    assert forall|j: int| 0 <= j < p implies !occurs_at(rest, sep, j) by {
        if occurs_at(rest, sep, j) {
            assert(head.subrange(j, j + 3) =~= rest.subrange(j, j + 3));
            assert(occurs_at(head, sep, j));
        }
    }
    assert(is_first_occurrence(rest, sep, p));
    let q = choose|q: int| is_first_occurrence(rest, sep, q);
    assert(q == p) by {
        if q < p {
            assert(!occurs_at(rest, sep, q));
        } else if q > p {
            assert(!occurs_at(rest, sep, p));
        }
    }
    assert(rest.subrange(p + 3, rest.len() as int) =~= c);
    assert(rest.take(p) =~= n);
}

proof fn lemma_no_newline_concat(a: Seq<char>, b: Seq<char>)
    requires
        !a.contains('\n'),
        !b.contains('\n'),
    ensures
        !(a + b).contains('\n'),
{
    assert forall|i: int| 0 <= i < (a + b).len() implies (a + b)[i] != '\n' by {
        if i < a.len() {
            assert((a + b)[i] == a[i]);
        } else {
            assert((a + b)[i] == b[i - a.len()]);
        }
    }
}

proof fn lemma_line_round_trip(e: EntryModel)
    requires
        encodable(e),
    ensures
        line_outcome(e.cache_line()) == if survives_cache(e) {
            Ok::<EntryModel, CacheLineError>(e)
        } else {
            Err::<EntryModel, CacheLineError>(CacheLineError::SpaceInCommand)
        },
        e.cache_line().len() > 0,
        !e.cache_line().contains('\n'),
{
    match e.name {
        None => {},
        Some(n) => {
            let l = e.cache_line();
            assert(l.take(2) =~= desktop_prefix());
            assert(l.subrange(2, l.len() as int) =~= n + separator() + e.command);
            lemma_desktop_fields(n, e.command);
            assert(!desktop_prefix().contains('\n')) by {
                assert(desktop_prefix()[0] != '\n' && desktop_prefix()[1] != '\n');
            }
            assert(!separator().contains('\n')) by {
                assert(separator()[0] != '\n' && separator()[1] != '\n' && separator()[2] != '\n');
            }
            lemma_no_newline_concat(desktop_prefix(), n);
            lemma_no_newline_concat(desktop_prefix() + n, separator());
            lemma_no_newline_concat(desktop_prefix() + n + separator(), e.command);
        },
    }
}

proof fn lemma_segments_join(ls: Seq<Seq<char>>)
    requires
        ls.len() >= 1,
        forall|i: int| 0 <= i < ls.len() ==> !(#[trigger] ls[i]).contains('\n'),
    ensures
        pieces(join_lines(ls), '\n') == ls,
    decreases ls.len(),
{
    if ls.len() == 1 {
        lemma_pieces_extend(seq![], ls[0], '\n');
        assert(seq![] + ls[0] =~= ls[0]);
        assert(seq![ls[0]] =~= ls);
    } else {
        let init = ls.drop_last();
        lemma_segments_join(init);
        let a = join_lines(init) + seq!['\n'];
        assert(a.drop_last() =~= join_lines(init));
        assert(pieces(a, '\n') == init.push(seq![]));
        lemma_pieces_extend(a, ls.last(), '\n');
        assert(seq![] + ls.last() =~= ls.last());
        assert(init.push(seq![]).update(init.len() as int, ls.last()) =~= ls);
    }
}

proof fn lemma_decode_lines(entries: Seq<EntryModel>)
    requires
        forall|i: int| 0 <= i < entries.len() ==> encodable(#[trigger] entries[i]),
    ensures
        entries.map_values(|e: EntryModel| e.cache_line()).filter_map(|l: Seq<char>| decoded(l))
            == entries.filter(|e: EntryModel| survives_cache(e)),
        count_rejected(entries.map_values(|e: EntryModel| e.cache_line())) == entries.filter(
            |e: EntryModel| !survives_cache(e),
        ).len(),
    decreases entries.len(),
{
    reveal(Seq::filter);
    if entries.len() > 0 {
        let init = entries.drop_last();
        lemma_decode_lines(init);
        let ls = entries.map_values(|e: EntryModel| e.cache_line());
        assert(ls.drop_last() =~= init.map_values(|e: EntryModel| e.cache_line()));
        lemma_line_round_trip(entries.last());
    } else {
        let ls = entries.map_values(|e: EntryModel| e.cache_line());
        assert(ls =~= seq![]);
    }
}

/// Encoding a catalog and decoding the text gives back its entries, in
/// order, but for binaries whose command holds a space: those are dropped,
/// and each counts as one rejected line.
pub proof fn lemma_cache_round_trip(entries: Seq<EntryModel>)
    requires
        forall|i: int| 0 <= i < entries.len() ==> encodable(#[trigger] entries[i]),
    ensures
        decode_text(cache_text(entries)) == entries.filter(|e: EntryModel| survives_cache(e)),
        rejected_lines(cache_text(entries)) == entries.filter(|e: EntryModel| !survives_cache(e)).len(),
{
    let ls = entries.map_values(|e: EntryModel| e.cache_line());
    lemma_decode_lines(entries);
    assert forall|i: int| 0 <= i < ls.len() implies !(#[trigger] ls[i]).contains('\n') && ls[i].len() > 0 by {
        lemma_line_round_trip(entries[i]);
    }
    if ls.len() == 0 {
        assert(cache_text(entries) =~= seq![]);
        assert(lines_of(cache_text(entries)) =~= seq![]);
        assert(ls =~= seq![]);
    } else {
        lemma_segments_join(ls);
        assert(ls.last() == ls[ls.len() - 1]);
        assert(lines_of(cache_text(entries)) == ls);
    }
}

} // verus!
