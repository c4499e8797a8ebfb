//! Parse a user-supplied `--respect-order` SPEC into an ordered module list.
//!
//! SPEC is a module order from foundation to top, separated by `,` or `<`
//! (whitespace around separators is ignored), e.g.
//! `models,queries,db,ai,handlers,app` or
//! `models < queries < db < ai < handlers < app`.
//!
//! Earlier modules are more foundational; later modules sit "higher" and may
//! depend downward on earlier ones. An edge `u -> v` *violates* the pinned
//! order when `v` is later than `u` (a module depending upward).

use vstd::prelude::*;
use crate::text::{views, chars_of, string_from_chars, trim_seq, join_seqs, is_white, all_white, is_trimmed, lemma_trim_padded, lemma_trim_shape};
use crate::analyze::has_label;

verus! {

/// Why a SPEC was rejected.
#[derive(Clone, Debug, PartialEq, Eq)]
pub enum RespectOrderError {
    /// No module names at all.
    Empty,
    /// This module is listed more than once.
    Duplicate(String),
}

impl RespectOrderError {
    /// The error message shown to the user.
    pub fn message(&self) -> (r: String)
        ensures
            r@ == match self {
                RespectOrderError::Empty => "--respect-order SPEC is empty; expected e.g. \"models,queries,handlers\""@,
                RespectOrderError::Duplicate(m) => "--respect-order lists module `"@ + m@ + "` more than once"@,
            },
    {
        match self {
            RespectOrderError::Empty => "--respect-order SPEC is empty; expected e.g. \"models,queries,handlers\"".to_owned(),
            RespectOrderError::Duplicate(m) => {
                let mut s = "--respect-order lists module `".to_owned();
                s.append(m.as_str());
                s.append("` more than once");
                s
            },
        }
    }
}

/// A SPEC separator.
pub open spec fn is_order_sep(c: char) -> bool {
    c == ',' || c == '<'
}

/// The pieces of `s` between separators (std's `split` on `[',', '<']`).
pub open spec fn order_pieces(s: Seq<char>) -> Seq<Seq<char>>
    decreases s.len(),
{
    if s.len() == 0 {
        seq![Seq::empty()]
    } else {
        let r = order_pieces(s.drop_last());
        if is_order_sep(s.last()) {
            r.push(Seq::empty())
        } else {
            r.drop_last().push(r.last().push(s.last()))
        }
    }
}

/// The trimmed, non-empty pieces, in order.
pub open spec fn nonempty_trimmed(pieces: Seq<Seq<char>>) -> Seq<Seq<char>>
    decreases pieces.len(),
{
    if pieces.len() == 0 {
        Seq::empty()
    } else {
        let r = nonempty_trimmed(pieces.drop_last());
        let t = trim_seq(pieces.last());
        if t.len() > 0 { r.push(t) } else { r }
    }
}

/// The module names a SPEC lists, foundation first.
pub open spec fn order_entries(spec: Seq<char>) -> Seq<Seq<char>> {
    nonempty_trimmed(order_pieces(spec))
}

/// Index of the first entry that repeats an earlier one, if any.
pub open spec fn first_repeat(s: Seq<Seq<char>>) -> Option<int>
    decreases s.len(),
{
    if s.len() == 0 {
        None
    } else {
        match first_repeat(s.drop_last()) {
            Some(j) => Some(j),
            None => if s.drop_last().contains(s.last()) { Some(s.len() - 1) } else { None },
        }
    }
}

proof fn lemma_first_repeat(s: Seq<Seq<char>>)
    ensures
        match first_repeat(s) {
            Some(j) => 0 <= j < s.len() && s.take(j).contains(s[j])
                && forall|i: int| 0 <= i < j ==> !s.take(i).contains(#[trigger] s[i]),
            None => forall|i: int| 0 <= i < s.len() ==> !s.take(i).contains(#[trigger] s[i]),
        },
    decreases s.len(),
{
    if s.len() > 0 {
        let p = s.drop_last();
        lemma_first_repeat(p);
        assert forall|i: int| 0 <= i < p.len() implies p.take(i) == s.take(i) && p[i] == s[i] by {
            assert(p.take(i) =~= s.take(i));
        }
        assert(s.take(s.len() - 1) =~= p);
    }
}

/// Split a SPEC into its raw pieces.
fn split_spec(v: &Vec<char>) -> (r: Vec<String>)
    ensures
        views(r@) == order_pieces(v@),
{
    let mut out: Vec<String> = Vec::new();
    let mut cur: Vec<char> = Vec::new();
    let mut i: usize = 0;
    proof {
        assert(views(out@).push(cur@) =~= order_pieces(v@.take(0)));
    }
    while i < v.len()
        invariant
            i <= v@.len(),
            views(out@).push(cur@) == order_pieces(v@.take(i as int)),
        decreases v@.len() - i,
    {
        let c = v[i];
        let ghost before = views(out@);
        let ghost old_cur = cur@;
        proof {
            assert(v@.take(i + 1).drop_last() =~= v@.take(i as int));
            assert(v@.take(i + 1).last() == c);
        }
        if c == ',' || c == '<' {
            out.push(string_from_chars(&cur));
            cur = Vec::new();
            proof {
                assert(views(out@) =~= before.push(old_cur));
                assert(views(out@).push(cur@) =~= before.push(old_cur).push(Seq::empty()));
            }
        } else {
            cur.push(c);
            proof {
                let r = before.push(old_cur);
                assert(r.drop_last() =~= before);
                assert(views(out@).push(cur@) =~= r.drop_last().push(r.last().push(c)));
            }
        }
        i = i + 1;
    }
    proof {
        assert(v@.take(v@.len() as int) =~= v@);
    }
    let ghost before = views(out@);
    out.push(string_from_chars(&cur));
    proof {
        assert(views(out@) =~= before.push(cur@));
    }
    out
}

/// Parse the SPEC string into an ordered list of module labels (foundation
/// first). Empty entries are dropped; an empty list or a repeated module is
/// rejected.
pub fn parse_respect_order(spec: &str) -> (r: Result<Vec<String>, RespectOrderError>)
    ensures
        match r {
            Ok(v) => views(v@) == order_entries(spec@) && order_entries(spec@).len() > 0
                && first_repeat(order_entries(spec@)) is None,
            Err(RespectOrderError::Empty) => order_entries(spec@).len() == 0,
            Err(RespectOrderError::Duplicate(m)) => order_entries(spec@).len() > 0
                && match first_repeat(order_entries(spec@)) {
                    Some(j) => order_entries(spec@)[j] == m@,
                    None => false,
                },
        },
{
    let v = chars_of(spec);
    let pieces = split_spec(&v);
    let mut modules: Vec<String> = Vec::new();
    let mut i: usize = 0;
    while i < pieces.len()
        invariant
            i <= pieces@.len(),
            views(pieces@) == order_pieces(spec@),
            views(modules@) == nonempty_trimmed(views(pieces@).take(i as int)),
        decreases pieces@.len() - i,
    {
        let t = crate::text::trim(pieces[i].as_str());
        proof {
            assert(views(pieces@).take(i + 1).drop_last() =~= views(pieces@).take(i as int));
            assert(views(pieces@).take(i + 1).last() == pieces@[i as int]@);
        }
        if t.as_str().unicode_len() > 0 {
            let ghost before = views(modules@);
            modules.push(t);
            proof {
                assert(views(modules@) =~= before.push(trim_seq(pieces@[i as int]@)));
            }
        }
        i = i + 1;
    }
    proof {
        assert(views(pieces@).take(pieces@.len() as int) =~= views(pieces@));
    }
    let ghost entries = views(modules@);
    if modules.len() == 0 {
        return Err(RespectOrderError::Empty);
    }
    let mut seen: Vec<String> = Vec::new();
    let mut j: usize = 0;
    proof {
        lemma_first_repeat(entries);
    }
    while j < modules.len()
        invariant
            entries == views(modules@),
            entries == order_entries(spec@),
            j <= modules@.len(),
            views(seen@) == entries.take(j as int),
            forall|i: int| 0 <= i < j ==> !entries.take(i).contains(#[trigger] entries[i]),
            match first_repeat(entries) {
                Some(jj) => 0 <= jj < entries.len() && entries.take(jj).contains(entries[jj])
                    && forall|i: int| 0 <= i < jj ==> !entries.take(i).contains(#[trigger] entries[i]),
                None => forall|i: int| 0 <= i < entries.len() ==> !entries.take(i).contains(#[trigger] entries[i]),
            },
        decreases modules@.len() - j,
    {
        if has_label(&seen, &modules[j]) {
            proof {
                assert(entries[j as int] == modules@[j as int]@);
                assert(entries.take(j as int).contains(entries[j as int]));
                match first_repeat(entries) {
                    Some(jj) => {
                        if jj < j {
                            assert(!entries.take(jj).contains(entries[jj]));
                        }
                        assert(jj == j);
                    },
                    None => {
                        assert(!entries.take(j as int).contains(entries[j as int]));
                    },
                }
            }
            let m = modules[j].clone();
            proof {
                assert(first_repeat(entries) == Some(j as int));
            }
            return Err(RespectOrderError::Duplicate(m));
        }
        let ghost before = views(seen@);
        seen.push(modules[j].clone());
        proof {
            assert(views(seen@) =~= before.push(modules@[j as int]@));
            assert(entries[j as int] == modules@[j as int]@);
            assert(entries.take(j + 1) =~= entries.take(j as int).push(entries[j as int]));
            assert(!entries.take(j as int).contains(entries[j as int]));
        }
        j = j + 1;
    }
    proof {
        match first_repeat(entries) {
            Some(jj) => {
                assert(!entries.take(jj).contains(entries[jj]));
            },
            None => {},
        }
    }
    Ok(modules)
}

/// An entry a SPEC can list: trimmed, non-empty and free of separators.
pub open spec fn plain_entry(e: Seq<char>) -> bool {
    is_trimmed(e) && forall|j: int| 0 <= j < e.len() ==> !is_order_sep(#[trigger] e[j])
}

/// No piece of `s` holds a separator.
pub open spec fn pieces_plain(p: Seq<Seq<char>>) -> bool {
    forall|i: int, j: int| 0 <= i < p.len() && 0 <= j < p[i].len() ==> !is_order_sep(#[trigger] p[i][j])
}

proof fn lemma_sep_not_white(c: char)
    requires
        is_order_sep(c),
    ensures
        !is_white(c),
{
}

proof fn lemma_pieces_plain(s: Seq<char>)
    ensures
        order_pieces(s).len() >= 1,
        pieces_plain(order_pieces(s)),
    decreases s.len(),
{
    if s.len() > 0 {
        lemma_pieces_plain(s.drop_last());
        let r = order_pieces(s.drop_last());
        let p = order_pieces(s);
        assert forall|i: int, j: int| 0 <= i < p.len() && 0 <= j < p[i].len() implies !is_order_sep(#[trigger] p[i][j]) by {
            if !is_order_sep(s.last()) && i == p.len() - 1 {
                if j < r.last().len() {
                    assert(p[i][j] == r[r.len() - 1][j]);
                }
            } else if i < r.len() {
                assert(p[i] == r[i]);
            }
        }
    }
}

proof fn lemma_entries_plain(p: Seq<Seq<char>>)
    requires
        pieces_plain(p),
    ensures
        forall|i: int| 0 <= i < nonempty_trimmed(p).len() ==> plain_entry(#[trigger] nonempty_trimmed(p)[i]),
    decreases p.len(),
{
    if p.len() > 0 {
        let q = p.drop_last();
        assert(pieces_plain(q)) by {
            assert forall|i: int, j: int| 0 <= i < q.len() && 0 <= j < q[i].len() implies !is_order_sep(#[trigger] q[i][j]) by {
                assert(q[i] == p[i]);
            }
        }
        lemma_entries_plain(q);
        let t = trim_seq(p.last());
        lemma_trim_shape(p.last());
        assert forall|j: int| 0 <= j < t.len() implies !is_order_sep(#[trigger] t[j]) by {
            assert(p.last().contains(t[j]));
            let k = choose|k: int| 0 <= k < p.last().len() && p.last()[k] == t[j];
            assert(p[p.len() - 1][k] == t[j]);
        }
        let r = nonempty_trimmed(q);
        let n = nonempty_trimmed(p);
        assert forall|i: int| 0 <= i < n.len() implies plain_entry(#[trigger] n[i]) by {
            if i < r.len() {
                assert(n[i] == r[i]);
            } else {
                assert(n[i] == t);
            }
        }
    }
}

proof fn lemma_pieces_append_plain(s: Seq<char>, t: Seq<char>)
    requires
        forall|j: int| 0 <= j < t.len() ==> !is_order_sep(#[trigger] t[j]),
    ensures
        order_pieces(s + t) == order_pieces(s).drop_last().push(order_pieces(s).last() + t),
    decreases t.len(),
{
    lemma_pieces_plain(s);
    if t.len() == 0 {
        assert(s + t =~= s);
        assert(order_pieces(s).last() + t =~= order_pieces(s).last());
        assert(order_pieces(s).drop_last().push(order_pieces(s).last()) =~= order_pieces(s));
    } else {
        let t0 = t.drop_last();
        lemma_pieces_append_plain(s, t0);
        assert(s + t =~= (s + t0).push(t.last()));
        assert((s + t).drop_last() =~= s + t0);
        let r = order_pieces(s + t0);
        assert(!is_order_sep(t[t.len() - 1]));
        assert(r.drop_last() =~= order_pieces(s).drop_last());
        assert(r.last() == order_pieces(s).last() + t0);
        assert(r.last().push(t.last()) =~= order_pieces(s).last() + t);
    }
}

/// The pieces of entries joined by `w1`, a separator `c` and `w2`.
pub open spec fn padded_piece(e: Seq<Seq<char>>, w1: Seq<char>, w2: Seq<char>, k: int, i: int) -> Seq<char> {
    (if i == 0 { Seq::empty() } else { w2 }) + e[i] + (if i == k - 1 { Seq::empty() } else { w1 })
}

proof fn lemma_join_pieces(e: Seq<Seq<char>>, w1: Seq<char>, c: char, w2: Seq<char>, k: int)
    requires
        1 <= k <= e.len(),
        forall|i: int| 0 <= i < e.len() ==> plain_entry(#[trigger] e[i]),
        all_white(w1),
        all_white(w2),
        is_order_sep(c),
    ensures
        order_pieces(join_seqs(e.take(k), w1.push(c) + w2)).len() == k,
        forall|i: int| 0 <= i < k ==> #[trigger] order_pieces(join_seqs(e.take(k), w1.push(c) + w2))[i] == padded_piece(e, w1, w2, k, i),
    decreases k,
{
    let sep = w1.push(c) + w2;
    assert(plain_entry(e[k - 1]));
    if k == 1 {
        assert(join_seqs(e.take(1), sep) == e[0]);
        lemma_pieces_append_plain(Seq::empty(), e[0]);
        assert(Seq::<char>::empty() + e[0] =~= e[0]);
        assert(order_pieces(Seq::<char>::empty()) == seq![Seq::<char>::empty()]);
        assert(padded_piece(e, w1, w2, 1, 0) =~= e[0]);
    } else {
        lemma_join_pieces(e, w1, c, w2, k - 1);
        let jk = join_seqs(e.take(k - 1), sep);
        assert(e.take(k).drop_last() =~= e.take(k - 1));
        assert(e.take(k).last() == e[k - 1]);
        assert(join_seqs(e.take(k), sep) == jk + sep + e[k - 1]);
        let p = order_pieces(jk);
        assert forall|j: int| 0 <= j < w1.len() implies !is_order_sep(#[trigger] w1[j]) by {
            if is_order_sep(w1[j]) {
                lemma_sep_not_white(w1[j]);
            }
        }
        assert forall|j: int| 0 <= j < (w2 + e[k - 1]).len() implies !is_order_sep(#[trigger] (w2 + e[k - 1])[j]) by {
            if j < w2.len() {
                if is_order_sep(w2[j]) {
                    lemma_sep_not_white(w2[j]);
                }
            } else {
                assert((w2 + e[k - 1])[j] == e[k - 1][j - w2.len()]);
            }
        }
        lemma_pieces_append_plain(jk, w1);
        let q = order_pieces(jk + w1);
        assert((jk + w1).push(c).drop_last() =~= jk + w1);
        assert(order_pieces((jk + w1).push(c)) == q.push(Seq::empty()));
        lemma_pieces_append_plain((jk + w1).push(c), w2 + e[k - 1]);
        assert(jk + sep + e[k - 1] =~= (jk + w1).push(c) + (w2 + e[k - 1]));
        let p2 = order_pieces(join_seqs(e.take(k), sep));
        assert(p2 == q.push(Seq::empty()).drop_last().push(Seq::<char>::empty() + (w2 + e[k - 1])));
        assert(q.push(Seq::<char>::empty()).drop_last() =~= q);
        assert forall|i: int| 0 <= i < k implies #[trigger] p2[i] == padded_piece(e, w1, w2, k, i) by {
            if i == k - 1 {
                assert(p2[i] =~= padded_piece(e, w1, w2, k, i));
            } else if i == k - 2 {
                assert(p[i] == padded_piece(e, w1, w2, k - 1, i));
                assert(p2[i] == q[i]);
                assert(q[i] == p.last() + w1);
                assert(p2[i] =~= padded_piece(e, w1, w2, k, i));
            } else {
                assert(p[i] == padded_piece(e, w1, w2, k - 1, i));
                assert(p2[i] == q[i]);
                assert(q[i] == p[i]);
                assert(p2[i] =~= padded_piece(e, w1, w2, k, i));
            }
        }
    }
}

proof fn lemma_trimmed_to(p: Seq<Seq<char>>, e: Seq<Seq<char>>)
    requires
        p.len() == e.len(),
        forall|i: int| 0 <= i < p.len() ==> trim_seq(#[trigger] p[i]) == e[i] && e[i].len() > 0,
    ensures
        nonempty_trimmed(p) == e,
    decreases p.len(),
{
    if p.len() > 0 {
        lemma_trimmed_to(p.drop_last(), e.drop_last());
        assert(trim_seq(p[p.len() - 1]) == e[e.len() - 1]);
        assert(e.drop_last().push(e.last()) =~= e);
    }
}

proof fn lemma_join_entries(e: Seq<Seq<char>>, w1: Seq<char>, c: char, w2: Seq<char>)
    requires
        forall|i: int| 0 <= i < e.len() ==> plain_entry(#[trigger] e[i]),
        all_white(w1),
        all_white(w2),
        is_order_sep(c),
    ensures
        order_entries(join_seqs(e, w1.push(c) + w2)) == e,
{
    if e.len() == 0 {
        assert(order_pieces(Seq::<char>::empty()) == seq![Seq::<char>::empty()]);
        assert(trim_seq(Seq::<char>::empty()).len() == 0);
        let one = seq![Seq::<char>::empty()];
        assert(one.drop_last() =~= Seq::<Seq<char>>::empty());
        assert(one.last() == Seq::<char>::empty());
        assert(nonempty_trimmed(one.drop_last()) == Seq::<Seq<char>>::empty());
        assert(trim_seq(one.last()).len() == 0);
        assert(nonempty_trimmed(one) == nonempty_trimmed(one.drop_last()));
    } else {
        let k = e.len() as int;
        lemma_join_pieces(e, w1, c, w2, k);
        assert(e.take(k) =~= e);
        let p = order_pieces(join_seqs(e, w1.push(c) + w2));
        assert forall|i: int| 0 <= i < p.len() implies trim_seq(#[trigger] p[i]) == e[i] && e[i].len() > 0 by {
            assert(p[i] == padded_piece(e, w1, w2, k, i));
            assert(plain_entry(e[i]));
            let a: Seq<char> = if i == 0 { Seq::empty() } else { w2 };
            let b: Seq<char> = if i == k - 1 { Seq::empty() } else { w1 };
            assert(all_white(a));
            assert(all_white(b));
            lemma_trim_padded(a, e[i], b);
        }
        lemma_trimmed_to(p, e);
    }
}

/// Law: the modules a SPEC lists, joined with `,` or with ` < `, make a SPEC
/// that lists the same modules; so a SPEC that parses parses again, to the
/// same list, once written back either way.
pub proof fn lemma_order_entries_round_trip(spec: Seq<char>)
    ensures
        order_entries(join_seqs(order_entries(spec), ","@)) == order_entries(spec),
        order_entries(join_seqs(order_entries(spec), " < "@)) == order_entries(spec),
{
    reveal_strlit(",");
    reveal_strlit(" < ");
    let e = order_entries(spec);
    lemma_pieces_plain(spec);
    lemma_entries_plain(order_pieces(spec));
    let none: Seq<char> = Seq::empty();
    let sp: Seq<char> = seq![' '];
    assert(all_white(none));
    assert(is_white(' '));
    assert(all_white(sp));
    assert(is_order_sep(','));
    assert(is_order_sep('<'));
    assert(none.push(',') + none =~= ","@);
    assert(sp.push('<') + sp =~= " < "@);
    lemma_join_entries(e, none, ',', none);
    lemma_join_entries(e, sp, '<', sp);
}

} // verus!
