//! A stable insertion sort, specified by the sequence it produces.

use vstd::prelude::*;
use crate::text::{seq_lt, string_lt, views};

verus! {

/// A strict "sorts before" relation with an executable test.
pub trait SortKey: Sized {
    spec fn key_lt(self, other: Self) -> bool;

    fn sorts_before(&self, other: &Self) -> (b: bool)
        ensures
            b == self.key_lt(*other),
    ;
}

impl SortKey for String {
    open spec fn key_lt(self, other: Self) -> bool {
        seq_lt(self@, other@)
    }

    fn sorts_before(&self, other: &Self) -> (b: bool) {
        string_lt(self, other)
    }
}

impl SortKey for usize {
    open spec fn key_lt(self, other: Self) -> bool {
        self < other
    }

    fn sorts_before(&self, other: &Self) -> (b: bool) {
        *self < *other
    }
}

/// Index at which a stable insertion places `x` into `s`: before the first
/// element that `x` sorts strictly before.
pub open spec fn insertion_point<T: SortKey>(s: Seq<T>, x: T) -> nat
    decreases s.len(),
{
    if s.len() == 0 {
        0
    } else if x.key_lt(s[0]) {
        0
    } else {
        1 + insertion_point(s.drop_first(), x)
    }
}

/// `s` stably sorted by `key_lt`: each element in turn is inserted after all
/// elements it does not sort strictly before.
pub open spec fn stable_sorted<T: SortKey>(s: Seq<T>) -> Seq<T>
    decreases s.len(),
{
    if s.len() == 0 {
        s
    } else {
        let r = stable_sorted(s.drop_last());
        r.insert(insertion_point(r, s.last()) as int, s.last())
    }
}

proof fn lemma_insertion_point<T: SortKey>(s: Seq<T>, x: T, j: int)
    requires
        0 <= j <= s.len(),
        forall|i: int| 0 <= i < j ==> !x.key_lt(#[trigger] s[i]),
        j == s.len() || x.key_lt(s[j]),
    ensures
        insertion_point(s, x) == j,
    decreases j,
{
    if j > 0 {
        lemma_insertion_point(s.drop_first(), x, j - 1);
    }
}

pub proof fn lemma_insertion_point_bound<T: SortKey>(s: Seq<T>, x: T)
    ensures
        insertion_point(s, x) <= s.len(),
    decreases s.len(),
{
    if s.len() > 0 {
        lemma_insertion_point_bound(s.drop_first(), x);
    }
}

/// Sorting keeps the length and the multiset of elements.
pub proof fn lemma_stable_sorted_multiset<T: SortKey>(s: Seq<T>)
    ensures
        stable_sorted(s).len() == s.len(),
        stable_sorted(s).to_multiset() =~= s.to_multiset(),
    decreases s.len(),
{
    broadcast use vstd::seq_lib::group_to_multiset_ensures;
    if s.len() > 0 {
        let r = stable_sorted(s.drop_last());
        lemma_stable_sorted_multiset(s.drop_last());
        let p = insertion_point(r, s.last()) as int;
        lemma_insertion_point_bound(r, s.last());
        let ins = r.insert(p, s.last());
        assert(ins =~= (r.subrange(0, p) + r.subrange(p, r.len() as int)).insert(p, s.last()));
        vstd::seq_lib::lemma_multiset_commutative(r.subrange(0, p).push(s.last()), r.subrange(p, r.len() as int));
        vstd::seq_lib::lemma_multiset_commutative(r.subrange(0, p), r.subrange(p, r.len() as int));
        assert(r =~= r.subrange(0, p) + r.subrange(p, r.len() as int));
        assert(s =~= s.drop_last().push(s.last()));
    }
}

/// `r` is `s` rearranged: `r[i]` is `s[perm[i]]`, and `perm` picks every
/// position of `s` exactly once.
pub open spec fn rearranged<T>(s: Seq<T>, r: Seq<T>, perm: Seq<int>) -> bool {
    &&& r.len() == s.len()
    &&& perm.len() == r.len()
    &&& perm.no_duplicates()
    &&& forall|i: int| 0 <= i < perm.len() ==> 0 <= #[trigger] perm[i] < s.len() && r[i] == s[perm[i]]
}

/// Sorting only rearranges: each element of the result comes from its own
/// position of the input.
pub proof fn lemma_stable_sorted_perm<T: SortKey>(s: Seq<T>) -> (perm: Seq<int>)
    ensures
        rearranged(s, stable_sorted(s), perm),
    decreases s.len(),
{
    if s.len() == 0 {
        Seq::empty()
    } else {
        let p0 = lemma_stable_sorted_perm(s.drop_last());
        let r = stable_sorted(s.drop_last());
        let x = s.last();
        let p = insertion_point(r, x) as int;
        lemma_insertion_point_bound(r, x);
        let n1 = s.len() - 1;
        let perm = p0.insert(p, n1);
        let out = r.insert(p, x);
        assert forall|i: int| 0 <= i < perm.len() implies 0 <= #[trigger] perm[i] < s.len() && out[i] == s[perm[i]] by {
            if i < p {
                assert(perm[i] == p0[i]);
            } else if i > p {
                assert(perm[i] == p0[i - 1]);
            }
        }
        assert forall|i: int, j: int| 0 <= i < j < perm.len() implies perm[i] != perm[j] by {
            if i != p && j != p {
                let a = if i < p { i } else { i - 1 };
                let b = if j < p { j } else { j - 1 };
                assert(perm[i] == p0[a]);
                assert(perm[j] == p0[b]);
            } else if i == p {
                let b = if j < p { j } else { j - 1 };
                assert(perm[j] == p0[b]);
            } else {
                let a = if i < p { i } else { i - 1 };
                assert(perm[i] == p0[a]);
            }
        }
        perm
    }
}

/// No element sorts strictly before an earlier one.
pub open spec fn is_key_sorted<T: SortKey>(s: Seq<T>) -> bool {
    forall|i: int, j: int| 0 <= i < j < s.len() ==> !(#[trigger] s[j]).key_lt(#[trigger] s[i])
}

/// `key_lt` is a strict order (irreflexive and transitive) on the elements
/// of `s`.
pub open spec fn key_transitive_on<T: SortKey>(s: Seq<T>) -> bool {
    &&& forall|a: T| s.contains(a) ==> !(#[trigger] a.key_lt(a))
    &&& forall|a: T, b: T, c: T| s.contains(a) && s.contains(b) && s.contains(c) && #[trigger] a.key_lt(b) && #[trigger] b.key_lt(c) ==> a.key_lt(c)
}

/// `key_lt` is a strict weak order on the elements of `s`: transitive,
/// irreflexive, and an element below another is below everything that is
/// not below that other.
pub open spec fn key_weak_on<T: SortKey>(s: Seq<T>) -> bool {
    &&& key_transitive_on(s)
    &&& forall|a: T, b: T, c: T| s.contains(a) && s.contains(b) && s.contains(c) && #[trigger] a.key_lt(b) && !c.key_lt(b) ==> #[trigger] a.key_lt(c)
}

/// The sort is stable: an element only comes before one that preceded it in
/// the input when it sorts strictly before it.
pub proof fn lemma_stable_sorted_stable<T: SortKey>(s: Seq<T>) -> (perm: Seq<int>)
    requires
        key_weak_on(s),
    ensures
        rearranged(s, stable_sorted(s), perm),
        forall|i: int, j: int| 0 <= i < j < perm.len() && perm[j] < perm[i]
            ==> (#[trigger] stable_sorted(s)[i]).key_lt(#[trigger] stable_sorted(s)[j]),
    decreases s.len(),
{
    if s.len() == 0 {
        Seq::empty()
    } else {
        let p0s = s.drop_last();
        assert forall|a: T| p0s.contains(a) implies s.contains(a) by {
            let ia = choose|i: int| 0 <= i < p0s.len() && p0s[i] == a;
            assert(s[ia] == a);
        }
        assert(key_weak_on(p0s));
        let p0 = lemma_stable_sorted_stable(p0s);
        lemma_stable_sorted_sorted(s);
        lemma_stable_sorted_sorted(p0s);
        let r = stable_sorted(p0s);
        let x = s.last();
        let p = insertion_point(r, x) as int;
        lemma_insertion_point_bound(r, x);
        lemma_insertion_point_facts(r, x);
        let n1 = s.len() - 1;
        let perm = p0.insert(p, n1);
        let out = r.insert(p, x);
        assert(out == stable_sorted(s));
        assert forall|i: int| 0 <= i < perm.len() implies 0 <= #[trigger] perm[i] < s.len() && out[i] == s[perm[i]] by {
            if i < p {
                assert(perm[i] == p0[i]);
            } else if i > p {
                assert(perm[i] == p0[i - 1]);
            }
        }
        assert forall|i: int, j: int| 0 <= i < j < perm.len() implies perm[i] != perm[j] by {
            if i != p && j != p {
                let a = if i < p { i } else { i - 1 };
                let b = if j < p { j } else { j - 1 };
                assert(perm[i] == p0[a]);
                assert(perm[j] == p0[b]);
            } else if i == p {
                let b = if j < p { j } else { j - 1 };
                assert(perm[j] == p0[b]);
            } else {
                let a = if i < p { i } else { i - 1 };
                assert(perm[i] == p0[a]);
            }
        }
        assert forall|i: int| 0 <= i < r.len() implies s.contains(#[trigger] r[i]) by {
            assert(r[i] == p0s[p0[i]]);
            assert(s[p0[i]] == r[i]);
        }
        assert(s.contains(x)) by {
            assert(s[s.len() - 1] == x);
        }
        assert forall|i: int, j: int| 0 <= i < j < perm.len() && perm[j] < perm[i]
            implies (#[trigger] out[i]).key_lt(#[trigger] out[j]) by {
            if i == p {
                assert(out[i] == x);
                assert(out[j] == r[j - 1]);
                if j - 1 > p {
                    assert(!r[j - 1].key_lt(r[p]));
                    assert(s.contains(r[p]) && s.contains(r[j - 1]));
                    assert(x.key_lt(r[p]));
                }
            } else if j == p {
                let a = if i < p { i } else { i - 1 };
                assert(perm[i] == p0[a]);
            } else {
                let a = if i < p { i } else { i - 1 };
                let b = if j < p { j } else { j - 1 };
                assert(perm[i] == p0[a]);
                assert(perm[j] == p0[b]);
                assert(out[i] == r[a]);
                assert(out[j] == r[b]);
            }
        }
        perm
    }
}

/// With a transitive key, the stable sort's result is sorted.
pub proof fn lemma_stable_sorted_sorted<T: SortKey>(s: Seq<T>)
    requires
        key_transitive_on(s),
    ensures
        is_key_sorted(stable_sorted(s)),
    decreases s.len(),
{
    if s.len() > 0 {
        let p0 = s.drop_last();
        assert forall|a: T, b: T, c: T| p0.contains(a) && p0.contains(b) && p0.contains(c) && #[trigger] a.key_lt(b) && #[trigger] b.key_lt(c) implies a.key_lt(c) by {
            let ia = choose|i: int| 0 <= i < p0.len() && p0[i] == a;
            let ib = choose|i: int| 0 <= i < p0.len() && p0[i] == b;
            let ic = choose|i: int| 0 <= i < p0.len() && p0[i] == c;
            assert(s[ia] == a && s[ib] == b && s[ic] == c);
            assert(s.contains(a) && s.contains(b) && s.contains(c));
        }
        assert forall|a: T| p0.contains(a) implies !(#[trigger] a.key_lt(a)) by {
            let ia = choose|i: int| 0 <= i < p0.len() && p0[i] == a;
            assert(s[ia] == a);
            assert(s.contains(a));
        }
        lemma_stable_sorted_sorted(p0);
        let r = stable_sorted(p0);
        let x = s.last();
        let p = insertion_point(r, x) as int;
        lemma_insertion_point_bound(r, x);
        lemma_insertion_point_facts(r, x);
        let perm = lemma_stable_sorted_perm(p0);
        let out = r.insert(p, x);
        assert forall|i: int| 0 <= i < r.len() implies s.contains(#[trigger] r[i]) by {
            assert(r[i] == p0[perm[i]]);
            assert(s[perm[i]] == r[i]);
        }
        assert(s.contains(x)) by {
            assert(s[s.len() - 1] == x);
        }
        assert forall|i: int, j: int| 0 <= i < j < out.len() implies !(#[trigger] out[j]).key_lt(#[trigger] out[i]) by {
            if j < p {
                assert(out[i] == r[i] && out[j] == r[j]);
                assert(!r[j].key_lt(r[i]));
            } else if j == p {
                assert(out[i] == r[i]);
                assert(out[j] == x);
            } else if i == p {
                assert(out[j] == r[j - 1]);
                assert(out[i] == x);
                if out[j].key_lt(x) {
                    assert(x.key_lt(r[p]));
                    assert(s.contains(r[j - 1]) && s.contains(r[p]));
                    assert(r[j - 1].key_lt(r[p]));
                    if j - 1 > p {
                        assert(!r[j - 1].key_lt(r[p]));
                    } else {
                        assert(!r[p].key_lt(r[p]));
                    }
                }
            } else if i < p {
                assert(out[i] == r[i] && out[j] == r[j - 1]);
                assert(!r[j - 1].key_lt(r[i]));
            } else {
                assert(out[i] == r[i - 1] && out[j] == r[j - 1]);
                assert(!r[j - 1].key_lt(r[i - 1]));
            }
        }
    }
}

/// The element at the insertion point is one `x` sorts before; all before
/// it are not.
proof fn lemma_insertion_point_facts<T: SortKey>(s: Seq<T>, x: T)
    ensures
        forall|i: int| 0 <= i < insertion_point(s, x) ==> !x.key_lt(#[trigger] s[i]),
        insertion_point(s, x) < s.len() ==> x.key_lt(s[insertion_point(s, x) as int]),
    decreases s.len(),
{
    lemma_insertion_point_bound(s, x);
    if s.len() > 0 && !x.key_lt(s[0]) {
        lemma_insertion_point_facts(s.drop_first(), x);
        assert forall|i: int| 0 <= i < insertion_point(s, x) implies !x.key_lt(#[trigger] s[i]) by {
            if i > 0 {
                assert(s[i] == s.drop_first()[i - 1]);
            }
        }
    }
}

/// Stable sort of `v` by `key_lt`.
pub fn stable_sort<T: SortKey>(v: Vec<T>) -> (r: Vec<T>)
    ensures
        r@ == stable_sorted(v@),
{
    let ghost orig = v@;
    let _n = v.len();
    let mut input = v;
    let mut out: Vec<T> = Vec::new();
    let mut k: usize = 0;
    while input.len() > 0
        invariant
            k + input@.len() == orig.len(),
            orig.len() <= usize::MAX,
            input@ == orig.skip(k as int),
            out@ == stable_sorted(orig.take(k as int)),
        decreases input@.len(),
    {
        let x = input.remove(0);
        assert(x == orig[k as int]);
        let mut j: usize = 0;
        while j < out.len() && !x.sorts_before(&out[j])
            invariant
                j <= out@.len(),
                forall|i: int| 0 <= i < j ==> !x.key_lt(#[trigger] out@[i]),
            decreases out@.len() - j,
        {
            j = j + 1;
        }
        proof {
            lemma_insertion_point(out@, x, j as int);
            let t = orig.take(k + 1);
            assert(t.drop_last() =~= orig.take(k as int));
            assert(t.last() == x);
        }
        out.insert(j, x);
        k = k + 1;
        proof {
            assert(input@ =~= orig.skip(k as int));
        }
    }
    proof {
        assert(orig.take(k as int) =~= orig);
    }
    out
}

/// `s` with consecutive repeated elements collapsed (std's `Vec::dedup`).
pub open spec fn dedup_seq<T>(s: Seq<T>) -> Seq<T>
    decreases s.len(),
{
    if s.len() <= 1 {
        s
    } else if s.last() == s[s.len() - 2] {
        dedup_seq(s.drop_last())
    } else {
        dedup_seq(s.drop_last()).push(s.last())
    }
}

/// Collapse consecutive equal strings.
pub fn dedup_strings(v: Vec<String>) -> (r: Vec<String>)
    ensures
        views(r@) == dedup_seq(views(v@)),
{
    let ghost vv = v@.map_values(|s: String| s@);
    let mut out: Vec<String> = Vec::new();
    let mut input = v;
    let ghost mut k: int = 0;
    let ghost orig = input@;
    while input.len() > 0
        invariant
            0 <= k,
            k + input@.len() == orig.len(),
            input@ == orig.skip(k),
            vv == orig.map_values(|s: String| s@),
            out@.map_values(|s: String| s@) == dedup_seq(vv.take(k)),
            k > 0 ==> out@.len() > 0 && out@.last()@ == vv[k - 1],
        decreases input@.len(),
    {
        let x = input.remove(0);
        proof {
            assert(x@ == vv[k]);
            let t = vv.take(k + 1);
            assert(t.drop_last() =~= vv.take(k));
            if k > 0 {
                assert(t[t.len() - 2] == vv[k - 1]);
            }
        }
        let n = out.len();
        if n == 0 || out[n - 1] != x {
            out.push(x);
            proof {
                assert(out@.map_values(|s: String| s@) =~= dedup_seq(vv.take(k)).push(vv[k]));
            }
        }
        proof {
            k = k + 1;
            assert(input@ =~= orig.skip(k));
        }
    }
    proof {
        assert(vv.take(k) =~= vv);
    }
    out
}

/// Position at which a stable insertion places `x` among sorted strings.
pub open spec fn seq_insertion_point(s: Seq<Seq<char>>, x: Seq<char>) -> nat
    decreases s.len(),
{
    if s.len() == 0 {
        0
    } else if seq_lt(x, s[0]) {
        0
    } else {
        1 + seq_insertion_point(s.drop_first(), x)
    }
}

/// Character sequences sorted by `seq_lt`, stably (by insertion).
pub open spec fn sorted_seqs(s: Seq<Seq<char>>) -> Seq<Seq<char>>
    decreases s.len(),
{
    if s.len() == 0 {
        s
    } else {
        let r = sorted_seqs(s.drop_last());
        r.insert(seq_insertion_point(r, s.last()) as int, s.last())
    }
}

proof fn lemma_insertion_point_views(s: Seq<String>, x: String)
    ensures
        insertion_point(s, x) == seq_insertion_point(views(s), x@),
    decreases s.len(),
{
    if s.len() > 0 {
        assert(views(s.drop_first()) =~= views(s).drop_first());
        lemma_insertion_point_views(s.drop_first(), x);
    }
}

/// Sorting strings and taking their views commute.
pub proof fn lemma_sorted_views(s: Seq<String>)
    ensures
        views(stable_sorted(s)) == sorted_seqs(views(s)),
    decreases s.len(),
{
    if s.len() > 0 {
        lemma_sorted_views(s.drop_last());
        assert(views(s.drop_last()) =~= views(s).drop_last());
        let r = stable_sorted(s.drop_last());
        lemma_insertion_point_views(r, s.last());
        lemma_insertion_point_bound(r, s.last());
        let p = insertion_point(r, s.last()) as int;
        assert(views(r.insert(p, s.last())) =~= views(r).insert(p, s.last()@));
    }
}

/// Sort strings by content (stable).
pub fn sort_strings(v: Vec<String>) -> (r: Vec<String>)
    ensures
        views(r@) == sorted_seqs(views(v@)),
        r@.len() == v@.len(),
{
    let ghost orig = v@;
    let r = stable_sort(v);
    proof {
        lemma_sorted_views(orig);
        lemma_stable_sorted_multiset(orig);
    }
    r
}


/// `s` is in non-decreasing `seq_lt` order.
pub open spec fn seqs_sorted(s: Seq<Seq<char>>) -> bool {
    forall|i: int, j: int| 0 <= i < j < s.len() ==> !seq_lt(#[trigger] s[j], #[trigger] s[i])
}

/// `s` is in strictly increasing `seq_lt` order.
pub open spec fn seqs_strictly_sorted(s: Seq<Seq<char>>) -> bool {
    forall|i: int, j: int| 0 <= i < j < s.len() ==> seq_lt(#[trigger] s[i], #[trigger] s[j])
}

proof fn lemma_seq_insertion_point(s: Seq<Seq<char>>, x: Seq<char>)
    ensures
        seq_insertion_point(s, x) <= s.len(),
        forall|i: int| 0 <= i < seq_insertion_point(s, x) ==> !seq_lt(x, #[trigger] s[i]),
        seq_insertion_point(s, x) < s.len() ==> seq_lt(x, s[seq_insertion_point(s, x) as int]),
    decreases s.len(),
{
    if s.len() > 0 && !seq_lt(x, s[0]) {
        lemma_seq_insertion_point(s.drop_first(), x);
        assert forall|i: int| 0 <= i < seq_insertion_point(s, x) implies !seq_lt(x, #[trigger] s[i]) by {
            if i > 0 {
                assert(s[i] == s.drop_first()[i - 1]);
            }
        }
    }
}

/// Sorting keeps exactly the elements and leaves them in order.
pub proof fn lemma_sorted_seqs(s: Seq<Seq<char>>)
    ensures
        seqs_sorted(sorted_seqs(s)),
        forall|x: Seq<char>| sorted_seqs(s).contains(x) <==> s.contains(x),
    decreases s.len(),
{
    if s.len() > 0 {
        let p0 = s.drop_last();
        lemma_sorted_seqs(p0);
        let r = sorted_seqs(p0);
        let x = s.last();
        lemma_seq_insertion_point(r, x);
        let p = seq_insertion_point(r, x) as int;
        let out = r.insert(p, x);
        assert forall|y: Seq<char>| out.contains(y) <==> s.contains(y) by {
            if out.contains(y) {
                let i = choose|i: int| 0 <= i < out.len() && out[i] == y;
                if i < p {
                    assert(r[i] == y);
                    assert(r.contains(y));
                } else if i > p {
                    assert(r[i - 1] == y);
                    assert(r.contains(y));
                }
                if y != x {
                    assert(p0.contains(y));
                    let j = choose|j: int| 0 <= j < p0.len() && p0[j] == y;
                    assert(s[j] == y);
                } else {
                    assert(s[s.len() - 1] == y);
                }
            }
            if s.contains(y) {
                let j = choose|j: int| 0 <= j < s.len() && s[j] == y;
                if j == s.len() - 1 {
                    assert(out[p] == y);
                } else {
                    assert(p0[j] == y);
                    assert(p0.contains(y));
                    assert(r.contains(y));
                    let i = choose|i: int| 0 <= i < r.len() && r[i] == y;
                    if i < p {
                        assert(out[i] == y);
                    } else {
                        assert(out[i + 1] == y);
                    }
                }
            }
        }
        assert forall|i: int, j: int| 0 <= i < j < out.len() implies !seq_lt(#[trigger] out[j], #[trigger] out[i]) by {
            if j < p {
                assert(out[i] == r[i] && out[j] == r[j]);
            } else if j == p {
                assert(out[i] == r[i]);
            } else if i == p {
                assert(out[j] == r[j - 1]);
                if seq_lt(out[j], x) {
                    if j - 1 > p {
                        assert(!seq_lt(r[j - 1], r[p]));
                        crate::text::lemma_seq_lt_transitive(r[j - 1], x, r[p]);
                    } else {
                        crate::text::lemma_seq_lt_transitive(x, r[p], x);
                        crate::text::lemma_seq_lt_irreflexive(x);
                    }
                }
            } else if i < p {
                assert(out[i] == r[i] && out[j] == r[j - 1]);
            } else {
                assert(out[i] == r[i - 1] && out[j] == r[j - 1]);
            }
        }
    }
}

/// Collapsing repeats of a sorted sequence leaves it strictly sorted with
/// the same elements, ending in the same element.
pub proof fn lemma_dedup_sorted(s: Seq<Seq<char>>)
    requires
        seqs_sorted(s),
    ensures
        seqs_strictly_sorted(dedup_seq(s)),
        forall|x: Seq<char>| dedup_seq(s).contains(x) <==> s.contains(x),
        s.len() > 0 ==> dedup_seq(s).len() > 0 && dedup_seq(s).last() == s.last(),
    decreases s.len(),
{
    if s.len() > 1 {
        let p0 = s.drop_last();
        assert(seqs_sorted(p0)) by {
            assert forall|i: int, j: int| 0 <= i < j < p0.len() implies !seq_lt(#[trigger] p0[j], #[trigger] p0[i]) by {
                assert(p0[i] == s[i] && p0[j] == s[j]);
            }
        }
        lemma_dedup_sorted(p0);
        let d0 = dedup_seq(p0);
        assert(p0.last() == s[s.len() - 2]);
        if s.last() == s[s.len() - 2] {
            assert forall|x: Seq<char>| dedup_seq(s).contains(x) <==> s.contains(x) by {
                if s.contains(x) {
                    let j = choose|j: int| 0 <= j < s.len() && s[j] == x;
                    if j == s.len() - 1 {
                        assert(p0[s.len() - 2] == x);
                    } else {
                        assert(p0[j] == x);
                    }
                }
                if p0.contains(x) {
                    let j = choose|j: int| 0 <= j < p0.len() && p0[j] == x;
                    assert(s[j] == x);
                }
            }
        } else {
            let x = s.last();
            let d = d0.push(x);
            assert(!seq_lt(x, s[s.len() - 2]));
            crate::text::lemma_seq_lt_total(x, s[s.len() - 2]);
            assert(seq_lt(d0.last(), x));
            assert forall|i: int, j: int| 0 <= i < j < d.len() implies seq_lt(#[trigger] d[i], #[trigger] d[j]) by {
                if j == d.len() - 1 {
                    if i < d0.len() - 1 {
                        assert(seq_lt(d0[i], d0[d0.len() - 1]));
                        crate::text::lemma_seq_lt_transitive(d0[i], d0.last(), x);
                    }
                } else {
                    assert(d[i] == d0[i] && d[j] == d0[j]);
                }
            }
            assert forall|y: Seq<char>| d.contains(y) <==> s.contains(y) by {
                if d.contains(y) {
                    let i = choose|i: int| 0 <= i < d.len() && d[i] == y;
                    if i < d0.len() {
                        assert(d0[i] == y);
                        assert(p0.contains(y));
                        let j = choose|j: int| 0 <= j < p0.len() && p0[j] == y;
                        assert(s[j] == y);
                    } else {
                        assert(s[s.len() - 1] == y);
                    }
                }
                if s.contains(y) {
                    let j = choose|j: int| 0 <= j < s.len() && s[j] == y;
                    if j == s.len() - 1 {
                        assert(d[d.len() - 1] == y);
                    } else {
                        assert(p0[j] == y);
                        assert(p0.contains(y));
                        assert(d0.contains(y));
                        let i = choose|i: int| 0 <= i < d0.len() && d0[i] == y;
                        assert(d[i] == y);
                    }
                }
            }
        }
    } else if s.len() == 1 {
        assert forall|x: Seq<char>| dedup_seq(s).contains(x) <==> s.contains(x) by {}
    }
}

/// Two strictly sorted sequences with the same elements are equal.
pub proof fn lemma_strictly_sorted_unique(a: Seq<Seq<char>>, b: Seq<Seq<char>>)
    requires
        seqs_strictly_sorted(a),
        seqs_strictly_sorted(b),
        forall|x: Seq<char>| a.contains(x) <==> b.contains(x),
    ensures
        a == b,
    decreases a.len() + b.len(),
{
    if a.len() == 0 {
        if b.len() > 0 {
            assert(b.contains(b[0]));
        }
        assert(a =~= b);
    } else if b.len() == 0 {
        assert(a.contains(a[0]));
    } else {
        let x = a.last();
        let y = b.last();
        assert(a.contains(x));
        assert(b.contains(y));
        if x != y {
            let i = choose|i: int| 0 <= i < a.len() && a[i] == y;
            let j = choose|j: int| 0 <= j < b.len() && b[j] == x;
            if i < a.len() - 1 {
                assert(seq_lt(y, x));
            }
            if j < b.len() - 1 {
                assert(seq_lt(x, y));
            }
            if i < a.len() - 1 && j < b.len() - 1 {
                crate::text::lemma_seq_lt_transitive(x, y, x);
                crate::text::lemma_seq_lt_irreflexive(x);
            }
        }
        let a0 = a.drop_last();
        let b0 = b.drop_last();
        assert(seqs_strictly_sorted(a0)) by {
            assert forall|i: int, j: int| 0 <= i < j < a0.len() implies seq_lt(#[trigger] a0[i], #[trigger] a0[j]) by {
                assert(a0[i] == a[i] && a0[j] == a[j]);
            }
        }
        assert(seqs_strictly_sorted(b0)) by {
            assert forall|i: int, j: int| 0 <= i < j < b0.len() implies seq_lt(#[trigger] b0[i], #[trigger] b0[j]) by {
                assert(b0[i] == b[i] && b0[j] == b[j]);
            }
        }
        assert forall|z: Seq<char>| a0.contains(z) <==> b0.contains(z) by {
            if a0.contains(z) {
                let i = choose|i: int| 0 <= i < a0.len() && a0[i] == z;
                assert(a[i] == z);
                assert(seq_lt(z, x));
                crate::text::lemma_seq_lt_irreflexive(x);
                assert(z != x);
                assert(b.contains(z));
                let j = choose|j: int| 0 <= j < b.len() && b[j] == z;
                assert(j != b.len() - 1);
                assert(b0[j] == z);
            }
            if b0.contains(z) {
                let j = choose|j: int| 0 <= j < b0.len() && b0[j] == z;
                assert(b[j] == z);
                assert(seq_lt(z, y));
                crate::text::lemma_seq_lt_irreflexive(y);
                assert(z != y);
                assert(a.contains(z));
                let i = choose|i: int| 0 <= i < a.len() && a[i] == z;
                assert(i != a.len() - 1);
                assert(a0[i] == z);
            }
        }
        lemma_strictly_sorted_unique(a0, b0);
        assert(a =~= a0.push(x));
        assert(b =~= b0.push(y));
    }
}

/// Sorting and collapsing repeats depends only on which elements occur.
pub proof fn lemma_sorted_distinct_by_elements(s1: Seq<Seq<char>>, s2: Seq<Seq<char>>)
    requires
        forall|x: Seq<char>| s1.contains(x) <==> s2.contains(x),
    ensures
        dedup_seq(sorted_seqs(s1)) == dedup_seq(sorted_seqs(s2)),
{
    lemma_sorted_seqs(s1);
    lemma_sorted_seqs(s2);
    lemma_dedup_sorted(sorted_seqs(s1));
    lemma_dedup_sorted(sorted_seqs(s2));
    assert forall|x: Seq<char>| dedup_seq(sorted_seqs(s1)).contains(x) <==> dedup_seq(sorted_seqs(s2)).contains(x) by {
        assert(dedup_seq(sorted_seqs(s1)).contains(x) <==> sorted_seqs(s1).contains(x));
        assert(sorted_seqs(s1).contains(x) <==> s1.contains(x));
        assert(dedup_seq(sorted_seqs(s2)).contains(x) <==> sorted_seqs(s2).contains(x));
        assert(sorted_seqs(s2).contains(x) <==> s2.contains(x));
    }
    lemma_strictly_sorted_unique(dedup_seq(sorted_seqs(s1)), dedup_seq(sorted_seqs(s2)));
}

} // verus!
