//! A launch target named by its file path.

use vstd::prelude::*;

verus! {

broadcast use vstd::string::group_string_axioms;

/// Whether `i` is the position of the last `/` in `s`.
pub open spec fn is_last_slash(s: Seq<char>, i: int) -> bool {
    &&& 0 <= i < s.len()
    &&& s[i] == '/'
    &&& forall|j: int| i < j < s.len() ==> s[j] != '/'
}

/// A file path together with the position where its last component starts.
#[derive(Debug, Clone)]
pub struct Executable {
    pub file_path: String,
    display_name_index: usize,
}

impl Executable {
    /// The index is one past the last `/` of the path.
    pub closed spec fn wf(&self) -> bool {
        &&& 0 < self.display_name_index <= self.file_path@.len()
        &&& is_last_slash(self.file_path@, self.display_name_index - 1)
    }

    /// The full path.
    pub closed spec fn path(&self) -> Seq<char> {
        self.file_path@
    }

    /// The last component of the path: what follows its last `/`.
    pub closed spec fn display_name(&self) -> Seq<char> {
        self.file_path@.subrange(self.display_name_index as int, self.file_path@.len() as int)
    }

    /// Makes an entry for a path that holds at least one `/`.
    pub fn new(file_path: String) -> (r: Self)
        requires
            file_path@.contains('/'),
        ensures
            r.wf(),
            r.path() == file_path@,
            forall|i: int| is_last_slash(file_path@, i) ==> r.display_name() == file_path@.subrange(
                i + 1,
                file_path@.len() as int,
            ),
    {
        let n = file_path.as_str().unicode_len();
        let mut i: usize = n;
        // Scan backwards for the last `/`.
        while i > 0 && file_path.as_str().get_char(i - 1) != '/'
            invariant
                n == file_path@.len(),
                i <= n,
                forall|j: int| i <= j < n ==> file_path@[j] != '/',
                file_path@.contains('/'),
            decreases i,
        {
            i = i - 1;
        }
        if i == 0 {
            let ghost k = choose|k: int| 0 <= k < file_path@.len() && file_path@[k] == '/';
            assert(false);
        }
        Executable { file_path, display_name_index: i }
    }

    /// The last component of the path.
    pub fn get_display_name(&self) -> (r: &str)
        requires
            self.wf(),
        ensures
            r@ == self.display_name(),
    {
        let path = self.file_path.as_str();
        path.substring_char(self.display_name_index, path.unicode_len())
    }
}

} // verus!
