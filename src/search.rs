//! Incremental ranked search over the catalog, and the selection state that
//! the key events of a session drive.
//!
//! Ranking is literal filtering: entries whose display text equals the query
//! come first, then those that contain it, each group in catalog order. No
//! similarity score is computed, so a query with a typo matches nothing.

use vstd::prelude::*;
use crate::executables::{EntryModel, Executable};
use crate::text::{chars_of, compare_chars, contains, contains_chars};

verus! {

broadcast use vstd::string::group_string_axioms;

/// The most positions a ranked list holds.
pub const MAX_RANKED: usize = 8;

/// The characters of each vector.
pub open spec fn seqs_of(v: Seq<Vec<char>>) -> Seq<Seq<char>> {
    v.map_values(|x: Vec<char>| x@)
}

/// The display text of each entry.
pub open spec fn display_texts(entries: Seq<EntryModel>) -> Seq<Seq<char>> {
    entries.map_values(|e: EntryModel| e.display_text())
}

/// The view of each entry.
pub open spec fn models(entries: Seq<Executable>) -> Seq<EntryModel> {
    entries.map_values(|e: Executable| e@)
}

/// `t` matches the query exactly, or, when `exact` is false, contains it
/// without being equal to it.
pub open spec fn matches_kind(t: Seq<char>, q: Seq<char>, exact: bool) -> bool {
    if exact {
        t == q
    } else {
        t != q && contains(t, q)
    }
}

/// The positions below `n` whose text matches `q` in the given way, in
/// ascending order.
pub open spec fn matching_positions(texts: Seq<Seq<char>>, q: Seq<char>, n: int, exact: bool) -> Seq<
    usize,
>
    decreases n,
{
    if n <= 0 {
        seq![]
    } else {
        let earlier = matching_positions(texts, q, n - 1, exact);
        if matches_kind(texts[n - 1], q, exact) {
            earlier.push((n - 1) as usize)
        } else {
            earlier
        }
    }
}

/// The first `MAX_RANKED` items of `s`.
pub open spec fn capped(s: Seq<usize>) -> Seq<usize> {
    if s.len() > MAX_RANKED {
        s.take(MAX_RANKED as int)
    } else {
        s
    }
}

/// The ranked list for query `q`: empty for an empty query, else the exact
/// matches, then the entries that contain the query, each group in catalog
/// order, cut to `MAX_RANKED` positions.
pub open spec fn ranking(texts: Seq<Seq<char>>, q: Seq<char>) -> Seq<usize> {
    if q.len() == 0 {
        seq![]
    } else {
        capped(
            matching_positions(texts, q, texts.len() as int, true) + matching_positions(
                texts,
                q,
                texts.len() as int,
                false,
            ),
        )
    }
}

proof fn lemma_matching_positions(texts: Seq<Seq<char>>, q: Seq<char>, n: int, exact: bool)
    requires
        n <= texts.len() <= usize::MAX,
    ensures
        forall|j: int|
            0 <= j < matching_positions(texts, q, n, exact).len() ==> {
                let p = #[trigger] matching_positions(texts, q, n, exact)[j];
                &&& 0 <= p < n
                &&& matches_kind(texts[p as int], q, exact)
            },
    decreases n,
{
    if n > 0 {
        lemma_matching_positions(texts, q, n - 1, exact);
        let earlier = matching_positions(texts, q, n - 1, exact);
        let all = matching_positions(texts, q, n, exact);
        assert forall|j: int| 0 <= j < all.len() implies {
            &&& 0 <= all[j] < n
            &&& matches_kind(texts[all[j] as int], q, exact)
        } by {
            if j < earlier.len() {
                assert(all[j] == earlier[j]);
            }
        }
    }
}

/// For a non-empty query, every ranked position names an entry whose text
/// equals the query or contains it, and no containment-only match comes
/// before an exact one.
pub proof fn lemma_ranked_entries_match(texts: Seq<Seq<char>>, q: Seq<char>)
    requires
        q.len() > 0,
        texts.len() <= usize::MAX,
    ensures
        forall|j: int|
            0 <= j < ranking(texts, q).len() ==> {
                let p = #[trigger] ranking(texts, q)[j];
                &&& p < texts.len()
                &&& (texts[p as int] == q || contains(texts[p as int], q))
            },
        forall|j1: int, j2: int|
            0 <= j1 < j2 < ranking(texts, q).len() && texts[ranking(texts, q)[j2] as int] == q
                ==> texts[ranking(texts, q)[j1] as int] == q,
{
    let n = texts.len() as int;
    let e = matching_positions(texts, q, n, true);
    let c = matching_positions(texts, q, n, false);
    lemma_matching_positions(texts, q, n, true);
    lemma_matching_positions(texts, q, n, false);
    let all = e + c;
    assert forall|j: int| 0 <= j < all.len() implies {
        &&& all[j] < texts.len()
        &&& (texts[all[j] as int] == q || contains(texts[all[j] as int], q))
        &&& (texts[all[j] as int] == q <==> j < e.len())
    } by {
        if j < e.len() {
            assert(all[j] == e[j]);
        } else {
            assert(all[j] == c[j - e.len()]);
        }
    }
}

/// The ranked list never holds more than `MAX_RANKED` positions.
pub proof fn lemma_ranking_capped(texts: Seq<Seq<char>>, q: Seq<char>)
    ensures
        ranking(texts, q).len() <= MAX_RANKED,
{
}

proof fn lemma_capped_push(s: Seq<usize>, x: usize)
    ensures
        capped(s.push(x)) == if capped(s).len() < MAX_RANKED {
            capped(s).push(x)
        } else {
            capped(s)
        },
{
    if s.len() >= MAX_RANKED {
        assert(s.push(x).take(MAX_RANKED as int) =~= s.take(MAX_RANKED as int));
    }
}

/// Computes the ranked list of `q` over the texts.
pub fn rank(texts: &Vec<Vec<char>>, q: &Vec<char>) -> (r: Vec<usize>)
    ensures
        r@ == ranking(seqs_of(texts@), q@),
{
    let ghost t = seqs_of(texts@);
    let mut r: Vec<usize> = Vec::new();
    if q.len() == 0 {
        return r;
    }
    let n = texts.len();
    let mut i: usize = 0;
    while i < n
        invariant
            n == texts.len(),
            t == seqs_of(texts@),
            i <= n,
            r@ == capped(matching_positions(t, q@, i as int, true)),
        decreases n - i,
    {
        proof {
            lemma_capped_push(matching_positions(t, q@, i as int, true), i);
        }
        if matches!(compare_chars(&texts[i], q), core::cmp::Ordering::Equal) && r.len() < MAX_RANKED {
            r.push(i);
        }
        i = i + 1;
    }
    let ghost exact = matching_positions(t, q@, n as int, true);
    i = 0;
    while i < n
        invariant
            n == texts.len(),
            t == seqs_of(texts@),
            i <= n,
            exact == matching_positions(t, q@, n as int, true),
            r@ == capped(exact + matching_positions(t, q@, i as int, false)),
        decreases n - i,
    {
        let ghost before = matching_positions(t, q@, i as int, false);
        proof {
            lemma_capped_push(exact + before, i);
            assert((exact + before).push(i) =~= exact + before.push(i));
        }
        if r.len() < MAX_RANKED && !matches!(compare_chars(&texts[i], q), core::cmp::Ordering::Equal)
            && contains_chars(&texts[i], q) {
            r.push(i);
        }
        i = i + 1;
    }
    r
}

/// A key event of a session, as the window reports it.
pub enum Key {
    ControlPressed,
    ControlReleased,
    Enter,
    Escape,
    CloseRequested,
    ArrowUp,
    ArrowDown,
    Backspace,
    /// Text typed by a key; the space bar gives `" "`.
    Text(String),
}

/// What a key event leads to.
#[derive(Debug, PartialEq, Eq, Structural, Clone, Copy)]
pub enum Outcome {
    /// The session goes on.
    Continue,
    /// The session ends and nothing is launched.
    Cancel,
    /// The session ends by launching the catalog entry at this index.
    Commit(usize),
}

/// The ranked position that a digit hotkey addresses: `1` to `9` address
/// positions 0 to 8, and `0` addresses position 9.
pub open spec fn hotkey_position(s: Seq<char>) -> Option<int> {
    if s.len() != 1 {
        None
    } else if s[0] == '1' {
        Some(0)
    } else if s[0] == '2' {
        Some(1)
    } else if s[0] == '3' {
        Some(2)
    } else if s[0] == '4' {
        Some(3)
    } else if s[0] == '5' {
        Some(4)
    } else if s[0] == '6' {
        Some(5)
    } else if s[0] == '7' {
        Some(6)
    } else if s[0] == '8' {
        Some(7)
    } else if s[0] == '9' {
        Some(8)
    } else if s[0] == '0' {
        Some(9)
    } else {
        None
    }
}

/// Finds the ranked position that the typed text addresses as a hotkey.
pub fn hotkey_index(s: &str) -> (r: Option<usize>)
    ensures
        r matches Some(p) ==> hotkey_position(s@) == Some(p as int),
        r is None ==> hotkey_position(s@) is None,
{
    if s.unicode_len() != 1 {
        return None;
    }
    let c = s.get_char(0);
    if c == '1' {
        Some(0)
    } else if c == '2' {
        Some(1)
    } else if c == '3' {
        Some(2)
    } else if c == '4' {
        Some(3)
    } else if c == '5' {
        Some(4)
    } else if c == '6' {
        Some(5)
    } else if c == '7' {
        Some(6)
    } else if c == '8' {
        Some(7)
    } else if c == '9' {
        Some(8)
    } else if c == '0' {
        Some(9)
    } else {
        None
    }
}

/// The state of a session: the catalog, the query typed so far, its ranked
/// list of catalog indices, the selected ranked position, and whether the
/// hotkey modifier is held.
pub struct AppState {
    search_entry: Vec<char>,
    executables: Vec<Executable>,
    display_texts: Vec<Vec<char>>,
    matching_executable_indexes: Vec<usize>,
    selected_index: usize,
    ctrl_pressed: bool,
}

impl AppState {
    /// The catalog.
    pub closed spec fn catalog(&self) -> Seq<EntryModel> {
        models(self.executables@)
    }

    /// The query typed so far.
    pub closed spec fn query(&self) -> Seq<char> {
        self.search_entry@
    }

    /// The ranked catalog indices.
    pub closed spec fn ranked(&self) -> Seq<usize> {
        self.matching_executable_indexes@
    }

    /// The selected position in the ranked list.
    pub closed spec fn selected(&self) -> int {
        self.selected_index as int
    }

    /// Whether the hotkey modifier is held.
    pub closed spec fn modifier_held(&self) -> bool {
        self.ctrl_pressed
    }

    /// The ranked list is that of the query, and the selection lies in it
    /// (or is 0 when it is empty).
    pub closed spec fn wf(&self) -> bool {
        &&& self.display_texts@.len() == self.executables@.len()
        &&& seqs_of(self.display_texts@) == display_texts(self.catalog())
        &&& self.ranked() == ranking(display_texts(self.catalog()), self.query())
        &&& forall|j: int| 0 <= j < self.ranked().len() ==> #[trigger] self.ranked()[j] < self.executables@.len()
        &&& (self.ranked().len() == 0 ==> self.selected_index == 0)
        &&& (self.ranked().len() > 0 ==> self.selected_index < self.ranked().len())
    }

    /// A session over `executables`, with an empty query.
    pub fn new(executables: Vec<Executable>) -> (r: Self)
        ensures
            r.wf(),
            r.catalog() == models(executables@),
            r.query().len() == 0,
            r.ranked().len() == 0,
            r.selected() == 0,
            !r.modifier_held(),
    {
        let mut texts: Vec<Vec<char>> = Vec::new();
        let mut i: usize = 0;
        while i < executables.len()
            invariant
                i <= executables.len(),
                texts@.len() == i,
                forall|j: int| 0 <= j < i ==> #[trigger] texts@[j]@ == executables@[j]@.display_text(),
            decreases executables.len() - i,
        {
            texts.push(chars_of(executables[i].get_display_text()));
            i = i + 1;
        }
        let r = AppState {
            search_entry: Vec::new(),
            executables,
            display_texts: texts,
            matching_executable_indexes: Vec::new(),
            selected_index: 0,
            ctrl_pressed: false,
        };
        assert(seqs_of(r.display_texts@) =~= display_texts(r.catalog()));
        assert(r.ranked() =~= ranking(display_texts(r.catalog()), r.query()));
        r
    }

    /// Recomputes the ranked list for the current query and selects its
    /// first position.
    fn update_matching_executable_indexes(&mut self)
        requires
            old(self).display_texts@.len() == old(self).executables@.len(),
            seqs_of(old(self).display_texts@) == display_texts(old(self).catalog()),
        ensures
            final(self).wf(),
            final(self).catalog() == old(self).catalog(),
            final(self).query() == old(self).query(),
            final(self).modifier_held() == old(self).modifier_held(),
            final(self).selected() == 0,
    {
        self.selected_index = 0;
        self.matching_executable_indexes = rank(&self.display_texts, &self.search_entry);
        // Reading the length records that it fits in a `usize`, which the
        // ranking lemma asks for.
        let _n = self.executables.len();
        proof {
            let t = display_texts(self.catalog());
            assert(t.len() == self.executables@.len());
            if self.query().len() > 0 {
                lemma_ranked_entries_match(t, self.query());
            }
        }
    }

    /// Adds typed text to the end of the query.
    pub fn append_to_search(&mut self, s: &str)
        requires
            old(self).wf(),
        ensures
            final(self).wf(),
            final(self).query() == old(self).query() + s@,
            final(self).catalog() == old(self).catalog(),
            final(self).ranked() == ranking(display_texts(final(self).catalog()), final(self).query()),
            final(self).selected() == 0,
            final(self).modifier_held() == old(self).modifier_held(),
    {
        let typed = chars_of(s);
        let mut i: usize = 0;
        let ghost start = self.search_entry@;
        while i < typed.len()
            invariant
                i <= typed.len(),
                typed@ == s@,
                self.search_entry@ == start + s@.take(i as int),
                self.executables == old(self).executables,
                self.display_texts == old(self).display_texts,
                self.ctrl_pressed == old(self).ctrl_pressed,
            decreases typed.len() - i,
        {
            self.search_entry.push(typed[i]);
            i = i + 1;
            assert(s@.take(i as int) =~= s@.take(i - 1) + seq![typed@[i - 1]]);
        }
        assert(s@.take(typed.len() as int) =~= s@);
        self.update_matching_executable_indexes();
    }

    /// Removes the last character of the query, if any.
    pub fn search_backspace(&mut self)
        requires
            old(self).wf(),
        ensures
            final(self).wf(),
            final(self).query() == if old(self).query().len() > 0 {
                old(self).query().drop_last()
            } else {
                old(self).query()
            },
            final(self).catalog() == old(self).catalog(),
            final(self).selected() == 0,
            final(self).modifier_held() == old(self).modifier_held(),
    {
        self.search_entry.pop();
        self.update_matching_executable_indexes();
    }

    /// Moves the selection one position down the ranked list; at the last
    /// position it stays.
    pub fn increment_selected_index(&mut self)
        requires
            old(self).wf(),
        ensures
            final(self).wf(),
            final(self).selected() == if old(self).selected() + 1 < old(self).ranked().len() {
                old(self).selected() + 1
            } else {
                old(self).selected()
            },
            final(self).query() == old(self).query(),
            final(self).ranked() == old(self).ranked(),
            final(self).catalog() == old(self).catalog(),
            final(self).modifier_held() == old(self).modifier_held(),
    {
        if self.selected_index + 1 < self.matching_executable_indexes.len() {
            self.selected_index = self.selected_index + 1;
        }
    }

    /// Moves the selection one position up the ranked list; at the first
    /// position it stays.
    pub fn decrement_selected_index(&mut self)
        requires
            old(self).wf(),
        ensures
            final(self).wf(),
            final(self).selected() == if old(self).selected() > 0 {
                old(self).selected() - 1
            } else {
                0
            },
            final(self).query() == old(self).query(),
            final(self).ranked() == old(self).ranked(),
            final(self).catalog() == old(self).catalog(),
            final(self).modifier_held() == old(self).modifier_held(),
    {
        if self.selected_index > 0 {
            self.selected_index = self.selected_index - 1;
        }
    }

    /// The catalog index at the selected ranked position, if the ranked
    /// list is not empty.
    pub fn get_selected_index(&self) -> (r: Option<usize>)
        requires
            self.wf(),
        ensures
            r == if self.ranked().len() > 0 {
                Some(self.ranked()[self.selected()])
            } else {
                None::<usize>
            },
    {
        if self.selected_index < self.matching_executable_indexes.len() {
            Some(self.matching_executable_indexes[self.selected_index])
        } else {
            None
        }
    }

    /// The entry at the selected ranked position, if the ranked list is not
    /// empty.
    pub fn get_selected_executable(&self) -> (r: Option<&Executable>)
        requires
            self.wf(),
        ensures
            self.ranked().len() == 0 <==> r is None,
            r matches Some(e) ==> e@ == self.catalog()[self.ranked()[self.selected()] as int],
    {
        match self.get_selected_index() {
            Some(i) => Some(&self.executables[i]),
            None => None,
        }
    }

    /// The entry at ranked position `index`, if the ranked list reaches it.
    pub fn get_executable(&self, index: usize) -> (r: Option<&Executable>)
        requires
            self.wf(),
        ensures
            index < self.ranked().len() <==> r is Some,
            r matches Some(e) ==> e@ == self.catalog()[self.ranked()[index as int] as int],
    {
        if index < self.matching_executable_indexes.len() {
            Some(&self.executables[self.matching_executable_indexes[index]])
        } else {
            None
        }
    }

    /// The entry at catalog index `index`.
    pub fn executable_at(&self, index: usize) -> (r: &Executable)
        requires
            self.wf(),
            index < self.catalog().len(),
        ensures
            r@ == self.catalog()[index as int],
    {
        &self.executables[index]
    }

    /// The query typed so far.
    pub fn search_text(&self) -> (r: String)
        ensures
            r@ == self.query(),
    {
        crate::text::string_of(&self.search_entry)
    }

    /// The display texts of the ranked entries, in ranked order.
    pub fn ranked_display_texts(&self) -> (r: Vec<String>)
        requires
            self.wf(),
        ensures
            r@.len() == self.ranked().len(),
            forall|j: int| 0 <= j < r@.len() ==> #[trigger] r@[j]@ == self.catalog()[self.ranked()[j] as int].display_text(),
    {
        let mut r: Vec<String> = Vec::new();
        let mut j: usize = 0;
        while j < self.matching_executable_indexes.len()
            invariant
                self.wf(),
                j <= self.ranked().len(),
                r@.len() == j,
                forall|m: int| 0 <= m < j ==> #[trigger] r@[m]@ == self.catalog()[self.ranked()[m] as int].display_text(),
            decreases self.ranked().len() - j,
        {
            let text = self.executables[self.matching_executable_indexes[j]].get_display_text();
            r.push(String::from_str(text));
            j = j + 1;
        }
        r
    }

    /// The selected position in the ranked list.
    pub fn selected_position(&self) -> (r: usize)
        ensures
            r == self.selected(),
    {
        self.selected_index
    }

    /// Applies one key event: the modifier keys toggle the hotkey mode,
    /// typing and backspace edit the query, the arrows move the selection,
    /// Enter and a modifier-plus-digit hotkey commit to an entry, and Escape
    /// or a close request cancel.
    pub fn handle_key(&mut self, key: Key) -> (r: Outcome)
        requires
            old(self).wf(),
        ensures
            final(self).wf(),
            final(self).catalog() == old(self).catalog(),
            match key {
                Key::ControlPressed => r == Outcome::Continue && final(self).modifier_held()
                    && final(self).query() == old(self).query() && final(self).selected() == old(self).selected(),
                Key::ControlReleased => r == Outcome::Continue && !final(self).modifier_held()
                    && final(self).query() == old(self).query() && final(self).selected() == old(self).selected(),
                Key::Enter => r == if old(self).ranked().len() > 0 {
                    Outcome::Commit(old(self).ranked()[old(self).selected()])
                } else {
                    Outcome::Continue
                },
                Key::Escape => r == Outcome::Cancel,
                Key::CloseRequested => r == Outcome::Cancel,
                Key::ArrowUp => r == Outcome::Continue && final(self).query() == old(self).query()
                    && final(self).selected() == if old(self).selected() > 0 {
                    old(self).selected() - 1
                } else {
                    0
                },
                Key::ArrowDown => r == Outcome::Continue && final(self).query() == old(self).query()
                    && final(self).selected() == if old(self).selected() + 1 < old(self).ranked().len() {
                    old(self).selected() + 1
                } else {
                    old(self).selected()
                },
                Key::Backspace => r == Outcome::Continue && final(self).selected() == 0
                    && final(self).query() == if old(self).query().len() > 0 {
                    old(self).query().drop_last()
                } else {
                    old(self).query()
                },
                Key::Text(s) => if old(self).modifier_held() {
                    final(self).query() == old(self).query() && r == match hotkey_position(s@) {
                        Some(p) => if p < old(self).ranked().len() {
                            Outcome::Commit(old(self).ranked()[p])
                        } else {
                            Outcome::Continue
                        },
                        None => Outcome::Continue,
                    }
                } else {
                    r == Outcome::Continue && final(self).query() == old(self).query() + s@
                        && final(self).selected() == 0
                },
            },
    {
        match key {
            Key::ControlPressed => {
                self.ctrl_pressed = true;
                Outcome::Continue
            },
            Key::ControlReleased => {
                self.ctrl_pressed = false;
                Outcome::Continue
            },
            Key::Enter => match self.get_selected_index() {
                Some(i) => Outcome::Commit(i),
                None => Outcome::Continue,
            },
            Key::Escape => Outcome::Cancel,
            Key::CloseRequested => Outcome::Cancel,
            Key::ArrowUp => {
                self.decrement_selected_index();
                Outcome::Continue
            },
            Key::ArrowDown => {
                self.increment_selected_index();
                Outcome::Continue
            },
            Key::Backspace => {
                self.search_backspace();
                Outcome::Continue
            },
            Key::Text(s) => {
                if self.ctrl_pressed {
                    match hotkey_index(s.as_str()) {
                        Some(p) => if p < self.matching_executable_indexes.len() {
                            Outcome::Commit(self.matching_executable_indexes[p])
                        } else {
                            Outcome::Continue
                        },
                        None => Outcome::Continue,
                    }
                } else {
                    self.append_to_search(s.as_str());
                    Outcome::Continue
                }
            },
        }
    }
}

} // verus!
