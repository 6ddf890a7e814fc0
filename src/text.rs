//! Character-sequence helpers shared by the other modules.

use vstd::prelude::*;

verus! {

broadcast use vstd::string::group_string_axioms;

/// Copies the characters of `s` into a vector.
pub fn chars_of(s: &str) -> (r: Vec<char>)
    ensures
        r@ == s@,
{
    let mut r: Vec<char> = Vec::new();
    for c in it: s.chars()
        invariant
            r@ == it.seq().take(it.index() as int),
    {
        r.push(c);
    }
    r
}


/// Relies on std's `FromIterator<&char> for String`: the string holds the
/// given characters in order.
#[verifier::external_body]
pub(crate) fn string_of(chars: &Vec<char>) -> (r: String)
    ensures
        r@ == chars@,
{
    String::from_iter(chars.iter())
}

/// `a` and `b` hold the same characters at every position below `k`.
pub open spec fn agree_below(a: Seq<char>, b: Seq<char>, k: int) -> bool {
    forall|i: int| 0 <= i < k ==> a[i] == b[i]
}

/// `a` orders before `b`, and `k` is the first position where they part.
pub open spec fn lex_lt_at(a: Seq<char>, b: Seq<char>, k: int) -> bool {
    &&& 0 <= k <= a.len()
    &&& k <= b.len()
    &&& agree_below(a, b, k)
    &&& ((k == a.len() && k < b.len()) || (k < a.len() && k < b.len() && a[k] < b[k]))
}

/// Lexicographic order on character sequences, by code point: the order of
/// `str::cmp`.
pub open spec fn lex_lt(a: Seq<char>, b: Seq<char>) -> bool {
    exists|k: int| #[trigger] lex_lt_at(a, b, k)
}

/// No sequence orders before itself.
pub proof fn lemma_lex_lt_irreflexive(a: Seq<char>)
    ensures
        !lex_lt(a, a),
{
}

/// The order is transitive.
pub proof fn lemma_lex_lt_transitive(a: Seq<char>, b: Seq<char>, c: Seq<char>)
    requires
        lex_lt(a, b),
        lex_lt(b, c),
    ensures
        lex_lt(a, c),
{
    let k1 = choose|k: int| lex_lt_at(a, b, k);
    let k2 = choose|k: int| lex_lt_at(b, c, k);
    if k1 < k2 {
        assert(lex_lt_at(a, c, k1));
    } else if k2 < k1 {
        assert(a[k2] == b[k2]);
        assert(lex_lt_at(a, c, k2));
    } else {
        assert(lex_lt_at(a, c, k1));
    }
}

/// Of two sequences, either they are equal or one orders before the other,
/// and never both ways.
pub proof fn lemma_lex_lt_trichotomy(a: Seq<char>, b: Seq<char>)
    ensures
        a == b || lex_lt(a, b) || lex_lt(b, a),
        !(lex_lt(a, b) && lex_lt(b, a)),
        !(a == b && lex_lt(a, b)),
{
    if lex_lt(a, b) && lex_lt(b, a) {
        lemma_lex_lt_transitive(a, b, a);
    }
    lemma_lex_lt_total_from(a, b, 0);
}

proof fn lemma_lex_lt_total_from(a: Seq<char>, b: Seq<char>, k: int)
    requires
        0 <= k <= a.len(),
        k <= b.len(),
        agree_below(a, b, k),
    ensures
        a == b || lex_lt(a, b) || lex_lt(b, a),
    decreases a.len() - k,
{
    if k == a.len() && k == b.len() {
        assert(a =~= b);
    } else if k == a.len() {
        assert(lex_lt_at(a, b, k));
    } else if k == b.len() {
        assert(lex_lt_at(b, a, k));
    } else if a[k] == b[k] {
        lemma_lex_lt_total_from(a, b, k + 1);
    } else if a[k] < b[k] {
        assert(lex_lt_at(a, b, k));
    } else {
        assert(lex_lt_at(b, a, k));
    }
}

/// Compares two character sequences in lexicographic order.
pub fn compare_chars(a: &Vec<char>, b: &Vec<char>) -> (r: core::cmp::Ordering)
    ensures
        (r == core::cmp::Ordering::Less) == lex_lt(a@, b@),
        (r == core::cmp::Ordering::Equal) == (a@ == b@),
        (r == core::cmp::Ordering::Greater) == lex_lt(b@, a@),
{
    proof {
        lemma_lex_lt_trichotomy(a@, b@);
    }
    let mut k: usize = 0;
    while k < a.len() && k < b.len() && a[k] == b[k]
        invariant
            0 <= k <= a.len(),
            k <= b.len(),
            agree_below(a@, b@, k as int),
        decreases a.len() - k,
    {
        k = k + 1;
    }
    if k == a.len() && k == b.len() {
        assert(a@ =~= b@);
        core::cmp::Ordering::Equal
    } else if k == a.len() {
        assert(lex_lt_at(a@, b@, k as int));
        core::cmp::Ordering::Less
    } else if k == b.len() {
        assert(lex_lt_at(b@, a@, k as int));
        core::cmp::Ordering::Greater
    } else if a[k] < b[k] {
        assert(lex_lt_at(a@, b@, k as int));
        core::cmp::Ordering::Less
    } else {
        assert(lex_lt_at(b@, a@, k as int));
        core::cmp::Ordering::Greater
    }
}

/// `q` occurs in `t` starting at position `i`.
pub open spec fn occurs_at(t: Seq<char>, q: Seq<char>, i: int) -> bool {
    0 <= i && i + q.len() <= t.len() && t.subrange(i, i + q.len()) == q
}

/// `q` occurs somewhere in `t` as a contiguous substring.
pub open spec fn contains(t: Seq<char>, q: Seq<char>) -> bool {
    exists|i: int| #[trigger] occurs_at(t, q, i)
}

/// Tests whether `q` occurs in `t` at position `i`.
pub fn occurs_at_exec(t: &Vec<char>, q: &Vec<char>, i: usize) -> (r: bool)
    ensures
        r == occurs_at(t@, q@, i as int),
{
    if i > t.len() || q.len() > t.len() - i {
        return false;
    }
    let mut j: usize = 0;
    while j < q.len()
        invariant
            i + q.len() <= t.len(),
            0 <= j <= q.len(),
            forall|m: int| 0 <= m < j ==> t@[i + m] == q@[m],
        decreases q.len() - j,
    {
        if t[i + j] != q[j] {
            assert(t@.subrange(i as int, i + q.len())[j as int] != q@[j as int]);
            return false;
        }
        j = j + 1;
    }
    assert(t@.subrange(i as int, i + q.len()) =~= q@);
    true
}

/// Tests whether `q` occurs in `t` as a contiguous substring.
pub fn contains_chars(t: &Vec<char>, q: &Vec<char>) -> (r: bool)
    ensures
        r == contains(t@, q@),
{
    if q.len() > t.len() {
        return false;
    }
    let last: usize = t.len() - q.len();
    let mut i: usize = 0;
    loop
        invariant
            last == t.len() - q.len(),
            i <= last,
            forall|m: int| 0 <= m < i ==> !occurs_at(t@, q@, m),
        decreases last - i,
    {
        if occurs_at_exec(t, q, i) {
            return true;
        }
        if i == last {
            return false;
        }
        i = i + 1;
    }
}

/// `p` is the first position where `q` occurs in `t`.
pub open spec fn is_first_occurrence(t: Seq<char>, q: Seq<char>, p: int) -> bool {
    &&& occurs_at(t, q, p)
    &&& forall|j: int| 0 <= j < p ==> !occurs_at(t, q, j)
}

/// Finds the first position where `q` occurs in `t`.
pub fn find_first(t: &Vec<char>, q: &Vec<char>) -> (r: Option<usize>)
    ensures
        r matches Some(p) ==> is_first_occurrence(t@, q@, p as int),
        r is None ==> !contains(t@, q@),
{
    if q.len() > t.len() {
        return None;
    }
    let last: usize = t.len() - q.len();
    let mut i: usize = 0;
    loop
        invariant
            last == t.len() - q.len(),
            i <= last,
            forall|m: int| 0 <= m < i ==> !occurs_at(t@, q@, m),
        decreases last - i,
    {
        if occurs_at_exec(t, q, i) {
            return Some(i);
        }
        if i == last {
            return None;
        }
        i = i + 1;
    }
}

/// `p` is a prefix of `s`.
pub open spec fn starts_with(s: Seq<char>, p: Seq<char>) -> bool {
    p.len() <= s.len() && s.take(p.len() as int) == p
}

/// Tests whether `c` occurs in `v`.
pub fn has_char(v: &Vec<char>, c: char) -> (r: bool)
    ensures
        r == v@.contains(c),
{
    let mut i: usize = 0;
    while i < v.len()
        invariant
            i <= v.len(),
            forall|m: int| 0 <= m < i ==> v@[m] != c,
        decreases v.len() - i,
    {
        if v[i] == c {
            return true;
        }
        i = i + 1;
    }
    false
}

/// Copies the characters of `v` from position `from` up to `to`.
pub fn slice_chars(v: &Vec<char>, from: usize, to: usize) -> (r: Vec<char>)
    requires
        from <= to <= v.len(),
    ensures
        r@ == v@.subrange(from as int, to as int),
{
    let mut r: Vec<char> = Vec::new();
    let mut i: usize = from;
    while i < to
        invariant
            from <= i <= to <= v.len(),
            r@ == v@.subrange(from as int, i as int),
        decreases to - i,
    {
        r.push(v[i]);
        i = i + 1;
        assert(r@ =~= v@.subrange(from as int, i as int));
    }
    r
}

/// The pieces of `t` between occurrences of `c`; there is always at least
/// one, as with `str::split`.
pub open spec fn pieces(t: Seq<char>, c: char) -> Seq<Seq<char>>
    decreases t.len(),
{
    if t.len() == 0 {
        seq![seq![]]
    } else {
        let s = pieces(t.drop_last(), c);
        if t.last() == c {
            s.push(seq![])
        } else {
            s.update(s.len() - 1, s.last().push(t.last()))
        }
    }
}

/// The lines of `t`: its pieces between newlines, but for an empty piece
/// after a final newline (or of an empty text), as with `BufRead::lines`.
pub open spec fn lines_of(t: Seq<char>) -> Seq<Seq<char>> {
    let s = pieces(t, '\n');
    if s.len() > 0 && s.last().len() == 0 {
        s.drop_last()
    } else {
        s
    }
}

pub proof fn lemma_pieces_nonempty(t: Seq<char>, c: char)
    ensures
        pieces(t, c).len() >= 1,
    decreases t.len(),
{
    if t.len() > 0 {
        lemma_pieces_nonempty(t.drop_last(), c);
    }
}

/// Text free of `c` added at the end only lengthens the last piece.
pub proof fn lemma_pieces_extend(a: Seq<char>, b: Seq<char>, c: char)
    requires
        !b.contains(c),
    ensures
        pieces(a + b, c) == pieces(a, c).update(pieces(a, c).len() - 1, pieces(a, c).last() + b),
    decreases b.len(),
{
    lemma_pieces_nonempty(a, c);
    let s = pieces(a, c);
    if b.len() == 0 {
        assert(a + b =~= a);
        assert(s.last() + b =~= s.last());
        assert(s.update(s.len() - 1, s.last()) =~= s);
    } else {
        let b0 = b.drop_last();
        assert(!b0.contains(c)) by {
            if b0.contains(c) {
                let i = choose|i: int| 0 <= i < b0.len() && b0[i] == c;
                assert(b[i] == c);
            }
        }
        lemma_pieces_extend(a, b0, c);
        assert((a + b).drop_last() =~= a + b0);
        assert((a + b).last() == b.last());
        assert(b.last() != c) by {
            assert(b[b.len() - 1] == b.last());
        }
        assert((s.last() + b0).push(b.last()) =~= s.last() + b);
        assert(s.update(s.len() - 1, s.last() + b0).update(s.len() - 1, s.last() + b) =~= s.update(
            s.len() - 1,
            s.last() + b,
        ));
    }
}

/// Splits `t` at each occurrence of `c`.
pub fn split_on(t: &Vec<char>, c: char) -> (r: Vec<Vec<char>>)
    ensures
        r@.len() >= 1,
        forall|j: int| 0 <= j < r@.len() ==> (#[trigger] r@[j])@ == pieces(t@, c)[j],
        r@.len() == pieces(t@, c).len(),
{
    let mut done: Vec<Vec<char>> = Vec::new();
    let mut current: Vec<char> = Vec::new();
    let mut i: usize = 0;
    assert(t@.take(0) =~= seq![]);
    while i < t.len()
        invariant
            i <= t.len(),
            pieces(t@.take(i as int), c).len() == done@.len() + 1,
            forall|j: int| 0 <= j < done@.len() ==> (#[trigger] done@[j])@ == pieces(t@.take(i as int), c)[j],
            current@ == pieces(t@.take(i as int), c).last(),
        decreases t.len() - i,
    {
        assert(t@.take(i + 1).drop_last() =~= t@.take(i as int));
        if t[i] == c {
            done.push(current);
            current = Vec::new();
        } else {
            current.push(t[i]);
        }
        i = i + 1;
    }
    assert(t@.take(t.len() as int) =~= t@);
    done.push(current);
    done
}

/// Splits `t` into its lines.
pub fn split_lines(t: &Vec<char>) -> (r: Vec<Vec<char>>)
    ensures
        crate::search::seqs_of(r@) == lines_of(t@),
{
    let mut r = split_on(t, '\n');
    if r[r.len() - 1].len() == 0 {
        r.pop();
    }
    assert(crate::search::seqs_of(r@) =~= lines_of(t@));
    r
}

} // verus!
