//! Catalog entries: binaries found on the search path and desktop shortcuts.

use vstd::prelude::*;
use crate::text::{chars_of, compare_chars};

verus! {

broadcast use vstd::string::group_string_axioms;

/// What an entry holds, as character sequences.
pub ghost struct EntryModel {
    pub command: Seq<char>,
    pub name: Option<Seq<char>>,
}

/// The two characters that open the cache line of a desktop entry.
pub open spec fn desktop_prefix() -> Seq<char> {
    seq!['D', ':']
}

/// What stands between the name and the command in a desktop entry's line.
pub open spec fn separator() -> Seq<char> {
    seq![' ', '-', ' ']
}

impl EntryModel {
    /// The text shown for the entry, by which entries are compared.
    pub open spec fn display_text(self) -> Seq<char> {
        match self.name {
            Some(n) => n,
            None => self.command,
        }
    }

    /// The entry's line in the cache file.
    pub open spec fn cache_line(self) -> Seq<char> {
        match self.name {
            Some(n) => desktop_prefix() + n + separator() + self.command,
            None => self.command,
        }
    }
}

/// A runnable target: a command, and for desktop shortcuts the name shown
/// in its place.
#[derive(Debug, Eq)]
pub struct Executable {
    pub command: String,
    pub display_name: Option<String>,
}

impl View for Executable {
    type V = EntryModel;

    open spec fn view(&self) -> EntryModel {
        EntryModel {
            command: self.command@,
            name: match self.display_name {
                Some(n) => Some(n@),
                None => None,
            },
        }
    }
}

impl Clone for Executable {
    fn clone(&self) -> (r: Self)
        ensures
            r == *self,
    {
        Executable {
            command: self.command.clone(),
            display_name: match &self.display_name {
                Some(n) => Some(n.clone()),
                None => None,
            },
        }
    }
}

impl PartialEq for Executable {
    fn eq(&self, other: &Executable) -> (r: bool)
        ensures
            r == (self@.display_text() == other@.display_text()),
    {
        let a = chars_of(self.get_display_text());
        let b = chars_of(other.get_display_text());
        matches!(compare_chars(&a, &b), core::cmp::Ordering::Equal)
    }
}

impl vstd::std_specs::cmp::PartialEqSpecImpl for Executable {
    open spec fn obeys_eq_spec() -> bool {
        true
    }

    open spec fn eq_spec(&self, other: &Executable) -> bool {
        self@.display_text() == other@.display_text()
    }
}

impl Executable {
    /// An entry for a binary: its file name is both command and display text.
    pub fn new_binary(binary_name: String) -> (r: Executable)
        ensures
            r@ == (EntryModel { command: binary_name@, name: None }),
    {
        Executable { command: binary_name, display_name: None }
    }

    /// An entry for a desktop shortcut.
    pub fn new_desktop_file(command: String, display_name: String) -> (r: Executable)
        ensures
            r@ == (EntryModel { command: command@, name: Some(display_name@) }),
    {
        Executable { command, display_name: Some(display_name) }
    }

    /// The display name where there is one, else the command.
    pub fn get_display_text(&self) -> (r: &str)
        ensures
            r@ == self@.display_text(),
    {
        match &self.display_name {
            Some(display_name) => display_name.as_str(),
            None => self.command.as_str(),
        }
    }

    /// Whether the entry comes from a desktop shortcut.
    pub fn is_desktop_file(&self) -> (r: bool)
        ensures
            r == self@.name is Some,
    {
        self.display_name.is_some()
    }

    /// The entry's line in the cache file: the bare command for a binary,
    /// `D:<name> - <command>` for a desktop shortcut.
    pub fn to_string(&self) -> (r: String)
        ensures
            r@ == self@.cache_line(),
    {
        match &self.display_name {
            Some(display_name) => {
                let mut line = String::from_str("D:");
                line.append(display_name.as_str());
                line.append(" - ");
                line.append(self.command.as_str());
                proof {
                    reveal_strlit("D:");
                    reveal_strlit(" - ");
                    assert(line@ =~= self@.cache_line());
                }
                line
            },
            None => self.command.clone(),
        }
    }
}

} // verus!
