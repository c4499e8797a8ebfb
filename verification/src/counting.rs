//! Counting facts about duplicate-free sequences of small integers.

use vstd::prelude::*;

verus! {

/// A duplicate-free sequence of integers below `n` has at most `n` elements.
pub proof fn lemma_distinct_below_len(s: Seq<int>, n: int)
    requires
        s.no_duplicates(),
        forall|i: int| 0 <= i < s.len() ==> 0 <= #[trigger] s[i] < n,
    ensures
        s.len() <= if n < 0 { 0 } else { n },
    decreases if n < 0 { 0 } else { n },
{
    if n <= 0 {
        if s.len() > 0 {
            assert(0 <= s[0] < n);
        }
    } else if s.contains(n - 1) {
        let k = choose|k: int| 0 <= k < s.len() && s[k] == n - 1;
        let t = s.remove(k);
        s.remove_ensures(k);
        assert forall|i: int| 0 <= i < t.len() implies 0 <= #[trigger] t[i] < n - 1 by {
            if i < k {
                assert(t[i] == s[i]);
            } else {
                assert(t[i] == s[i + 1]);
            }
        }
        assert forall|i: int, j: int| 0 <= i < j < t.len() implies t[i] != t[j] by {
            let a = if i < k { i } else { i + 1 };
            let b = if j < k { j } else { j + 1 };
            assert(t[i] == s[a]);
            assert(t[j] == s[b]);
        }
        lemma_distinct_below_len(t, n - 1);
    } else {
        assert forall|i: int| 0 <= i < s.len() implies 0 <= #[trigger] s[i] < n - 1 by {
            assert(s[i] != n - 1);
        }
        lemma_distinct_below_len(s, n - 1);
    }
}

/// A duplicate-free sequence of `n` integers below `n` holds every integer
/// below `n`.
pub proof fn lemma_distinct_below_full(s: Seq<int>, n: int, x: int)
    requires
        s.no_duplicates(),
        s.len() == n,
        forall|i: int| 0 <= i < s.len() ==> 0 <= #[trigger] s[i] < n,
        0 <= x < n,
    ensures
        s.contains(x),
{
    if !s.contains(x) {
        let t = s.map_values(|y: int| if y < x { y } else { y - 1 });
        assert forall|i: int| 0 <= i < t.len() implies 0 <= #[trigger] t[i] < n - 1 by {
            assert(s[i] != x);
        }
        assert forall|i: int, j: int| 0 <= i < j < t.len() implies t[i] != t[j] by {
            assert(s[i] != s[j]);
            assert(s[i] != x);
            assert(s[j] != x);
        }
        lemma_distinct_below_len(t, n - 1);
    }
}

/// Sum of a sequence of naturals.
pub open spec fn seq_sum(w: Seq<nat>) -> nat
    decreases w.len(),
{
    if w.len() == 0 {
        0
    } else {
        seq_sum(w.drop_last()) + w.last()
    }
}

/// Sum of `w` at the positions listed in `src`.
pub open spec fn picked_sum(w: Seq<nat>, src: Seq<int>) -> nat
    decreases src.len(),
{
    if src.len() == 0 {
        0
    } else {
        picked_sum(w, src.drop_last()) + w[src.last()]
    }
}

proof fn lemma_picked_sum_remove(w: Seq<nat>, src: Seq<int>, j: int)
    requires
        0 <= j < src.len(),
    ensures
        picked_sum(w, src) == picked_sum(w, src.remove(j)) + w[src[j]],
    decreases src.len(),
{
    if j < src.len() - 1 {
        lemma_picked_sum_remove(w, src.drop_last(), j);
        assert(src.remove(j).drop_last() =~= src.drop_last().remove(j));
        assert(src.remove(j).last() == src.last());
    } else {
        assert(src.remove(j) =~= src.drop_last());
    }
}

proof fn lemma_picked_sum_shrink(w: Seq<nat>, src: Seq<int>)
    requires
        w.len() > 0,
        forall|i: int| 0 <= i < src.len() ==> 0 <= #[trigger] src[i] < w.len() - 1,
    ensures
        picked_sum(w, src) == picked_sum(w.drop_last(), src),
    decreases src.len(),
{
    if src.len() > 0 {
        lemma_picked_sum_shrink(w, src.drop_last());
    }
}

/// Picking each position at most once sums to no more than the whole.
pub proof fn lemma_picked_sum_bound(w: Seq<nat>, src: Seq<int>)
    requires
        src.no_duplicates(),
        forall|i: int| 0 <= i < src.len() ==> 0 <= #[trigger] src[i] < w.len(),
    ensures
        picked_sum(w, src) <= seq_sum(w),
    decreases w.len(),
{
    if w.len() == 0 {
        if src.len() > 0 {
            assert(0 <= src[0] < w.len());
        }
    } else {
        let m = w.len() - 1;
        if src.contains(m) {
            let j = choose|j: int| 0 <= j < src.len() && src[j] == m;
            let t = src.remove(j);
            lemma_picked_sum_remove(w, src, j);
            assert forall|i: int| 0 <= i < t.len() implies 0 <= #[trigger] t[i] < w.len() - 1 by {
                if i < j {
                    assert(t[i] == src[i]);
                } else {
                    assert(t[i] == src[i + 1]);
                }
            }
            assert forall|a: int, b: int| 0 <= a < b < t.len() implies t[a] != t[b] by {
                let a2 = if a < j { a } else { a + 1 };
                let b2 = if b < j { b } else { b + 1 };
                assert(t[a] == src[a2]);
                assert(t[b] == src[b2]);
            }
            lemma_picked_sum_shrink(w, t);
            lemma_picked_sum_bound(w.drop_last(), t);
        } else {
            assert forall|i: int| 0 <= i < src.len() implies 0 <= #[trigger] src[i] < w.len() - 1 by {
                assert(src[i] != m);
            }
            lemma_picked_sum_shrink(w, src);
            lemma_picked_sum_bound(w.drop_last(), src);
        }
    }
}

} // verus!
