//! What the process launcher is handed: a committed command split into
//! words, and the places where its program may be found.

use vstd::prelude::*;
use crate::dirs::strings_view;
use crate::text::{chars_of, pieces, split_on, string_of};

verus! {

broadcast use vstd::string::group_string_axioms;

/// The words of a command: its pieces between spaces, empty ones left out.
pub open spec fn command_words(command: Seq<char>) -> Seq<Seq<char>> {
    pieces(command, ' ').filter(|w: Seq<char>| w.len() > 0)
}

/// Splits a command into its words; the first names the program.
pub fn split_command(command: &str) -> (r: Vec<String>)
    ensures
        strings_view(r@) == command_words(command@),
{
    let parts = split_on(&chars_of(command), ' ');
    let ghost ps = pieces(command@, ' ');
    let mut r: Vec<String> = Vec::new();
    let mut i: usize = 0;
    assert(ps.take(0) =~= seq![]);
    while i < parts.len()
        invariant
            i <= parts.len(),
            parts@.len() == ps.len(),
            ps == pieces(command@, ' '),
            forall|j: int| 0 <= j < parts@.len() ==> (#[trigger] parts@[j])@ == ps[j],
            strings_view(r@) == ps.take(i as int).filter(|w: Seq<char>| w.len() > 0),
        decreases parts.len() - i,
    {
        proof {
            reveal(Seq::filter);
            assert(ps.take(i + 1).drop_last() =~= ps.take(i as int));
        }
        let ghost prev = r@;
        if parts[i].len() > 0 {
            let w = string_of(&parts[i]);
            r.push(w);
            assert(strings_view(r@) =~= strings_view(prev).push(w@));
        }
        i = i + 1;
    }
    assert(ps.take(parts.len() as int) =~= ps);
    r
}

/// The path of `program` in each directory, in the directories' order.
pub fn candidate_paths(directories: &Vec<String>, program: &str) -> (r: Vec<String>)
    ensures
        r@.len() == directories@.len(),
        forall|j: int| 0 <= j < r@.len() ==> (#[trigger] r@[j])@ == directories@[j]@ + seq!['/'] + program@,
{
    let mut r: Vec<String> = Vec::new();
    let mut i: usize = 0;
    while i < directories.len()
        invariant
            i <= directories.len(),
            r@.len() == i,
            forall|j: int| 0 <= j < i ==> (#[trigger] r@[j])@ == directories@[j]@ + seq!['/'] + program@,
        decreases directories.len() - i,
    {
        let mut path = directories[i].clone();
        path.append("/");
        path.append(program);
        proof {
            reveal_strlit("/");
            assert(path@ =~= directories@[i as int]@ + seq!['/'] + program@);
        }
        r.push(path);
        i = i + 1;
    }
    r
}

} // verus!
