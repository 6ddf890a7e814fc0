//! Sorting character sequences into a duplicate-free ascending order.

use vstd::prelude::*;
use crate::search::seqs_of;
use crate::text::{
    compare_chars, lemma_lex_lt_irreflexive, lemma_lex_lt_transitive, lemma_lex_lt_trichotomy,
    lex_lt,
};

verus! {

/// Every item orders strictly before every later one.
pub open spec fn strictly_sorted(s: Seq<Seq<char>>) -> bool {
    forall|a: int, b: int| 0 <= a < b < s.len() ==> lex_lt(#[trigger] s[a], #[trigger] s[b])
}

/// A strictly sorted sequence holds no item twice.
pub proof fn lemma_strictly_sorted_distinct(s: Seq<Seq<char>>)
    requires
        strictly_sorted(s),
    ensures
        forall|a: int, b: int| 0 <= a < b < s.len() ==> #[trigger] s[a] != #[trigger] s[b],
{
    assert forall|a: int, b: int| 0 <= a < b < s.len() implies #[trigger] s[a] != #[trigger] s[b] by {
        lemma_lex_lt_irreflexive(s[a]);
    }
}

/// The keys at the given positions.
pub open spec fn pick(keys: Seq<Seq<char>>, idx: Seq<usize>) -> Seq<Seq<char>> {
    idx.map_values(|i: usize| keys[i as int])
}

/// Some listed position holds the same key as position `i`.
pub open spec fn represented(keys: Seq<Seq<char>>, idx: Seq<usize>, i: int) -> bool {
    exists|j: int| 0 <= j < idx.len() && keys[#[trigger] idx[j] as int] == keys[i]
}

/// `idx` lists, in ascending key order, the first position of each distinct
/// key among the first `n`.
pub open spec fn first_of_each(keys: Seq<Seq<char>>, idx: Seq<usize>, n: int) -> bool {
    &&& forall|j: int| 0 <= j < idx.len() ==> #[trigger] idx[j] < n
    &&& strictly_sorted(pick(keys, idx))
    &&& forall|i: int| 0 <= i < n ==> #[trigger] represented(keys, idx, i)
    &&& forall|j: int, i: int|
        0 <= j < idx.len() && 0 <= i < idx[j] ==> #[trigger] keys[i] != keys[#[trigger] idx[j] as int]
}

/// The positions of the first occurrence of each distinct key, ordered by
/// key.
pub fn sorted_unique_positions(keys: &Vec<Vec<char>>) -> (r: Vec<usize>)
    ensures
        first_of_each(seqs_of(keys@), r@, keys@.len() as int),
{
    let ghost k = seqs_of(keys@);
    let mut r: Vec<usize> = Vec::new();
    let mut i: usize = 0;
    while i < keys.len()
        invariant
            k == seqs_of(keys@),
            i <= keys.len(),
            first_of_each(k, r@, i as int),
        decreases keys.len() - i,
    {
        let ghost kk = k[i as int];
        assert(kk == keys@[i as int]@);
        let mut lo: usize = 0;
        let mut hi: usize = r.len();
        while lo < hi
            invariant
                k == seqs_of(keys@),
                kk == keys@[i as int]@,
                i < keys.len(),
                first_of_each(k, r@, i as int),
                lo <= hi <= r.len(),
                forall|j: int| 0 <= j < lo ==> lex_lt(#[trigger] k[r@[j] as int], kk),
                forall|j: int| hi <= j < r.len() ==> !lex_lt(#[trigger] k[r@[j] as int], kk),
            decreases hi - lo,
        {
            let mid = lo + (hi - lo) / 2;
            let c = compare_chars(&keys[r[mid]], &keys[i]);
            assert(k[r@[mid as int] as int] == keys@[r@[mid as int] as int]@);
            if matches!(c, core::cmp::Ordering::Less) {
                proof {
                    assert forall|j: int| 0 <= j < mid + 1 implies lex_lt(#[trigger] k[r@[j] as int], kk) by {
                        if j < mid {
                            assert(pick(k, r@)[j] == k[r@[j] as int]);
                            assert(pick(k, r@)[mid as int] == k[r@[mid as int] as int]);
                            lemma_lex_lt_transitive(k[r@[j] as int], k[r@[mid as int] as int], kk);
                        }
                    }
                }
                lo = mid + 1;
            } else {
                assert(!lex_lt(k[r@[mid as int] as int], kk));
                proof {
                    assert forall|j: int| mid <= j < r.len() implies !lex_lt(#[trigger] k[r@[j] as int], kk) by {
                        if j > mid {
                            assert(pick(k, r@)[j] == k[r@[j] as int]);
                            assert(pick(k, r@)[mid as int] == k[r@[mid as int] as int]);
                            lemma_lex_lt_trichotomy(k[r@[mid as int] as int], kk);
                            if lex_lt(k[r@[j] as int], kk) {
                                lemma_lex_lt_transitive(k[r@[mid as int] as int], k[r@[j] as int], kk);
                                lemma_lex_lt_trichotomy(k[r@[mid as int] as int], kk);
                            }
                        }
                    }
                }
                hi = mid;
            }
        }
        let duplicate = lo < r.len() && matches!(compare_chars(&keys[r[lo]], &keys[i]), core::cmp::Ordering::Equal);
        assert(lo < r.len() ==> k[r@[lo as int] as int] == keys@[r@[lo as int] as int]@);
        if !duplicate {
            let ghost old_r = r@;
            proof {
                assert forall|j: int| 0 <= j < old_r.len() implies k[#[trigger] old_r[j] as int] != kk by {
                    if k[old_r[j] as int] == kk {
                        lemma_lex_lt_irreflexive(kk);
                        if j > lo {
                            assert(pick(k, old_r)[lo as int] == k[old_r[lo as int] as int]);
                            assert(pick(k, old_r)[j] == k[old_r[j] as int]);
                            lemma_lex_lt_trichotomy(k[old_r[lo as int] as int], kk);
                        }
                    }
                }
            }
            r.insert(lo, i);
            proof {
                let p = pick(k, r@);
                assert forall|a: int, b: int| 0 <= a < b < p.len() implies lex_lt(#[trigger] p[a], #[trigger] p[b]) by {
                    assert(p[a] == k[r@[a] as int]);
                    assert(p[b] == k[r@[b] as int]);
                    if a < lo && b > lo {
                        assert(pick(k, old_r)[a] == k[old_r[a] as int]);
                        assert(pick(k, old_r)[b - 1] == k[old_r[b - 1] as int]);
                    } else if a < lo && b < lo {
                        assert(pick(k, old_r)[a] == k[old_r[a] as int]);
                        assert(pick(k, old_r)[b] == k[old_r[b] as int]);
                    } else if a > lo {
                        assert(pick(k, old_r)[a - 1] == k[old_r[a - 1] as int]);
                        assert(pick(k, old_r)[b - 1] == k[old_r[b - 1] as int]);
                    } else if a == lo {
                        lemma_lex_lt_trichotomy(k[old_r[b - 1] as int], kk);
                    }
                }
                assert forall|m: int| 0 <= m < i + 1 implies #[trigger] represented(k, r@, m) by {
                    if m == i {
                        assert(r@[lo as int] == i);
                    } else {
                        assert(represented(k, old_r, m));
                        let j0 = choose|j: int| 0 <= j < old_r.len() && k[#[trigger] old_r[j] as int] == k[m];
                        if j0 < lo {
                            assert(r@[j0] == old_r[j0]);
                        } else {
                            assert(r@[j0 + 1] == old_r[j0]);
                        }
                    }
                }
                assert forall|j: int, m: int| 0 <= j < r@.len() && 0 <= m < r@[j] implies #[trigger] k[m] != k[#[trigger] r@[j] as int] by {
                    if j < lo {
                        assert(r@[j] == old_r[j]);
                    } else if j > lo {
                        assert(r@[j] == old_r[j - 1]);
                    } else {
                        if k[m] == kk {
                            assert(represented(k, old_r, m));
                            let j0 = choose|j: int| 0 <= j < old_r.len() && k[#[trigger] old_r[j] as int] == k[m];
                        }
                    }
                }
            }
        } else {
            proof {
                assert forall|m: int| 0 <= m < i + 1 implies #[trigger] represented(k, r@, m) by {
                    if m == i {
                        assert(k[r@[lo as int] as int] == k[m]);
                    }
                }
            }
        }
        i = i + 1;
    }
    r
}

} // verus!
