use vstd::prelude::*;
use crate::boyermoore::{Byte, all_matches, matches_at, occurrences_in, truncate};

verus! {

/// The occurrences in `[lo, hi)` are exactly the matching offsets of that
/// range, and they come in strictly decreasing order.
proof fn lemma_occurrences_exact(t: Seq<u8>, p: Seq<u8>, lo: int, hi: int)
    requires
        0 <= lo,
        hi <= t.len() <= usize::MAX,
    ensures
        forall|x: usize| #[trigger]
            occurrences_in(t, p, lo, hi).contains(x) <==> (lo <= x < hi && matches_at(t, p, x as int)),
        forall|i: int, j: int|
            0 <= i < j < occurrences_in(t, p, lo, hi).len() ==> #[trigger] occurrences_in(t, p, lo, hi)[i]
                > #[trigger] occurrences_in(t, p, lo, hi)[j],
    decreases hi - lo,
{
    if lo < hi {
        lemma_occurrences_exact(t, p, lo + 1, hi);
        let rest = occurrences_in(t, p, lo + 1, hi);
        if matches_at(t, p, lo) {
            let s = rest.push(lo as usize);
            assert forall|x: usize| #[trigger] s.contains(x) <==> (lo <= x < hi && matches_at(t, p, x as int)) by {
                if x == lo {
                    assert(s[s.len() - 1] == x);
                }
                if s.contains(x) && x != lo {
                    let k = choose|k: int| 0 <= k < s.len() && s[k] == x;
                    assert(rest[k] == x);
                }
                if rest.contains(x) {
                    let k = choose|k: int| 0 <= k < rest.len() && rest[k] == x;
                    assert(s[k] == x);
                }
            }
            assert forall|i: int, j: int| 0 <= i < j < s.len() implies #[trigger] s[i] > #[trigger] s[j] by {
                if j == s.len() - 1 {
                    assert(rest.contains(rest[i]));
                }
            }
        }
    } else {
        assert(occurrences_in(t, p, lo, hi) =~= seq![]);
    }
}

/// An offset is in the match set exactly when the pattern is non-empty and
/// occurs there: every occurrence is reported, and nothing else is.
pub proof fn lemma_match_set_is_exact(t: Seq<u8>, p: Seq<u8>, k: usize)
    requires
        t.len() <= usize::MAX,
    ensures
        all_matches(t, p).contains(k) <==> (p.len() > 0 && matches_at(t, p, k as int)),
{
    if p.len() > 0 {
        lemma_occurrences_exact(t, p, 0, t.len() - p.len() + 1);
    }
}

/// Where the pattern occurs nowhere in the text, the match set is empty.
pub proof fn lemma_no_occurrence_empty(t: Seq<u8>, p: Seq<u8>)
    requires
        forall|k: int| !#[trigger] matches_at(t, p, k),
    ensures
        all_matches(t, p) == Seq::<usize>::empty(),
{
    if p.len() > 0 {
        lemma_no_occurrence_in_range(t, p, 0, t.len() - p.len() + 1);
    }
}

proof fn lemma_no_occurrence_in_range(t: Seq<u8>, p: Seq<u8>, lo: int, hi: int)
    requires
        forall|k: int| !#[trigger] matches_at(t, p, k),
    ensures
        occurrences_in(t, p, lo, hi) == Seq::<usize>::empty(),
    decreases hi - lo,
{
    if lo < hi {
        lemma_no_occurrence_in_range(t, p, lo + 1, hi);
    } else {
        assert(occurrences_in(t, p, lo, hi) =~= Seq::<usize>::empty());
    }
}

/// A match set, with or without a limit, is strictly decreasing.
pub proof fn lemma_match_set_decreasing(t: Seq<u8>, p: Seq<u8>, limit: nat)
    requires
        t.len() <= usize::MAX,
    ensures
        forall|i: int|
            0 <= i < truncate(all_matches(t, p), limit).len() - 1 ==> #[trigger] truncate(
                all_matches(t, p),
                limit,
            )[i] > truncate(all_matches(t, p), limit)[i + 1],
{
    let all = all_matches(t, p);
    if p.len() > 0 {
        lemma_occurrences_exact(t, p, 0, t.len() - p.len() + 1);
    } else {
        assert(all =~= seq![]);
    }
    let r = truncate(all, limit);
    assert forall|i: int| 0 <= i < r.len() - 1 implies #[trigger] r[i] > r[i + 1] by {
        assert(r[i] == all[i] && r[i + 1] == all[i + 1]);
        assert(all[i] > all[i + 1]);
    }
}

/// A limit `n > 0` keeps the first `n` offsets of the unlimited match set,
/// in the order produced (all of them when there are fewer); a limit of 0
/// keeps all of them.
pub proof fn lemma_limit_keeps_prefix(t: Seq<u8>, p: Seq<u8>, limit: nat)
    ensures
        limit == 0 ==> truncate(all_matches(t, p), limit) == all_matches(t, p),
        limit > 0 ==> truncate(all_matches(t, p), limit).len() == if all_matches(t, p).len() < limit {
            all_matches(t, p).len()
        } else {
            limit
        },
        forall|i: int|
            0 <= i < truncate(all_matches(t, p), limit).len() ==> #[trigger] truncate(
                all_matches(t, p),
                limit,
            )[i] == all_matches(t, p)[i],
{
}

/// A pattern longer than the text has no occurrence.
pub proof fn lemma_pattern_longer_than_text(t: Seq<u8>, p: Seq<u8>)
    requires
        p.len() > t.len(),
    ensures
        all_matches(t, p) == Seq::<usize>::empty(),
{
    assert(occurrences_in(t, p, 0, t.len() - p.len() + 1) =~= Seq::<usize>::empty());
}

/// A pattern as long as the text occurs at offset 0 when the two are equal,
/// and nowhere otherwise.
pub proof fn lemma_pattern_as_long_as_text(t: Seq<u8>, p: Seq<u8>)
    requires
        p.len() == t.len(),
        p.len() > 0,
    ensures
        all_matches(t, p) == if t == p { seq![0usize] } else { Seq::<usize>::empty() },
{
    assert(occurrences_in(t, p, 1, 1) =~= Seq::<usize>::empty());
    if t == p {
        assert(matches_at(t, p, 0));
        assert(occurrences_in(t, p, 0, 1) =~= seq![0usize]);
    } else {
        if matches_at(t, p, 0) {
            assert(t =~= p) by {
                assert forall|j: int| 0 <= j < p.len() implies t[j] == p[j] by {
                    assert(t[0 + j] == p[j]);
                }
            }
        }
        assert(occurrences_in(t, p, 0, 1) =~= Seq::<usize>::empty());
    }
}


/// Scanning is idempotent: two scans of one text by one matcher, each
/// returning the match set that `find_full_all` promises, agree.
pub proof fn lemma_scan_idempotent(m: &Byte, t: Seq<u8>, first: Seq<usize>, second: Seq<usize>)
    requires
        first == all_matches(t, m@),
        second == all_matches(t, m@),
    ensures
        first == second,
{
}


} // verus!
