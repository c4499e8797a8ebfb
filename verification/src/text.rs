//! Character-level string helpers shared by the analysis and the reports.
//!
//! Strings are reasoned about through their view, a `Seq<char>`.

use vstd::prelude::*;
use vstd::string::StrSliceExecFns;

verus! {

/// Lexicographic strict order on character sequences, by code point. For
/// well-formed strings this is the order of `String`'s `Ord` (UTF-8 preserves
/// code-point order).
pub open spec fn seq_lt(a: Seq<char>, b: Seq<char>) -> bool
    decreases a.len(),
{
    if a.len() == 0 {
        b.len() > 0
    } else if b.len() == 0 {
        false
    } else if a[0] != b[0] {
        (a[0] as u32) < (b[0] as u32)
    } else {
        seq_lt(a.drop_first(), b.drop_first())
    }
}

/// A character's code point fits `u32` unchanged.
proof fn lemma_char_code(c: char)
    ensures
        (c as u32) as int == c as int,
{
}

/// Two different sequences are ordered one way or the other.
pub proof fn lemma_seq_lt_total(a: Seq<char>, b: Seq<char>)
    requires
        a != b,
    ensures
        seq_lt(a, b) || seq_lt(b, a),
    decreases a.len(),
{
    if a.len() > 0 && b.len() > 0 && a[0] == b[0] {
        if a.drop_first() == b.drop_first() {
            assert(a =~= seq![a[0]] + a.drop_first());
            assert(b =~= seq![b[0]] + b.drop_first());
        }
        lemma_seq_lt_total(a.drop_first(), b.drop_first());
    } else if a.len() == 0 && b.len() == 0 {
        assert(a =~= b);
    } else if a.len() > 0 && b.len() > 0 {
        lemma_char_code(a[0]);
        lemma_char_code(b[0]);
    }
}

/// No sequence is below itself.
pub proof fn lemma_seq_lt_irreflexive(a: Seq<char>)
    ensures
        !seq_lt(a, a),
    decreases a.len(),
{
    if a.len() > 0 {
        lemma_seq_lt_irreflexive(a.drop_first());
    }
}

/// `seq_lt` is transitive.
pub proof fn lemma_seq_lt_transitive(a: Seq<char>, b: Seq<char>, c: Seq<char>)
    requires
        seq_lt(a, b),
        seq_lt(b, c),
    ensures
        seq_lt(a, c),
    decreases a.len(),
{
    if a.len() > 0 && b.len() > 0 && c.len() > 0 && a[0] == b[0] && b[0] == c[0] {
        lemma_seq_lt_transitive(a.drop_first(), b.drop_first(), c.drop_first());
    }
}

/// The characters of `s`, in order.
pub fn chars_of(s: &str) -> (v: Vec<char>)
    ensures
        v@ == s@,
{
    let n = s.unicode_len();
    let mut v: Vec<char> = Vec::new();
    let mut i: usize = 0;
    while i < n
        invariant
            n == s@.len(),
            i <= n,
            v@ == s@.subrange(0, i as int),
        decreases n - i,
    {
        v.push(s.get_char(i));
        i = i + 1;
    }
    v
}

/// Build a `String` holding exactly the given characters
/// (std's `FromIterator<&char>` for `String`).
#[verifier::external_body]
pub(crate) fn string_from_chars(v: &Vec<char>) -> (s: String)
    ensures
        s@ == v@,
{
    String::from_iter(v)
}


/// Concatenation of the parts, with `sep` between consecutive parts
/// (std's `join`).
pub open spec fn join_seqs(parts: Seq<Seq<char>>, sep: Seq<char>) -> Seq<char>
    decreases parts.len(),
{
    if parts.len() == 0 {
        Seq::empty()
    } else if parts.len() == 1 {
        parts[0]
    } else {
        join_seqs(parts.drop_last(), sep) + sep + parts.last()
    }
}

/// The views of a vector of strings.
pub open spec fn views(v: Seq<String>) -> Seq<Seq<char>> {
    v.map_values(|s: String| s@)
}

/// Join strings with a separator.
pub fn join(parts: &Vec<String>, sep: &str) -> (r: String)
    ensures
        r@ == join_seqs(views(parts@), sep@),
{
    let mut out = String::new();
    let mut i: usize = 0;
    while i < parts.len()
        invariant
            i <= parts.len(),
            out@ == join_seqs(views(parts@).subrange(0, i as int), sep@),
        decreases parts.len() - i,
    {
        let ghost before = views(parts@).subrange(0, i as int);
        if i > 0 {
            out.append(sep);
        }
        out.append(parts[i].as_str());
        proof {
            let after = views(parts@).subrange(0, i + 1);
            assert(after.drop_last() =~= before);
        }
        i = i + 1;
    }
    proof {
        assert(views(parts@).subrange(0, parts.len() as int) =~= views(parts@));
    }
    out
}

/// Characters `0-9`, `a-z`, `A-Z`.
pub open spec fn is_ascii_alnum(c: char) -> bool {
    ('0' <= c && c <= '9') || ('a' <= c && c <= 'z') || ('A' <= c && c <= 'Z')
}

pub open spec fn is_ascii_upper(c: char) -> bool {
    'A' <= c && c <= 'Z'
}

pub open spec fn is_ascii_lower(c: char) -> bool {
    'a' <= c && c <= 'z'
}

pub fn ascii_alnum(c: char) -> (b: bool)
    ensures
        b == is_ascii_alnum(c),
{
    ('0' <= c && c <= '9') || ('a' <= c && c <= 'z') || ('A' <= c && c <= 'Z')
}

pub fn ascii_upper(c: char) -> (b: bool)
    ensures
        b == is_ascii_upper(c),
{
    'A' <= c && c <= 'Z'
}

pub fn ascii_lower(c: char) -> (b: bool)
    ensures
        b == is_ascii_lower(c),
{
    'a' <= c && c <= 'z'
}

/// ASCII lowercase of `c` (other characters unchanged).
pub open spec fn lower_char(c: char) -> char {
    if is_ascii_upper(c) {
        ((c as u32) + 32) as char
    } else {
        c
    }
}

pub fn to_lower_char(c: char) -> (r: char)
    ensures
        r == lower_char(c),
{
    if 'A' <= c && c <= 'Z' {
        let x: u8 = ((c as u32) + 32) as u8;
        (x as char)
    } else {
        c
    }
}

/// Unicode `White_Space` characters, as `char::is_whitespace` documents them.
pub open spec fn is_white(c: char) -> bool {
    let u = c as u32;
    (0x09 <= u && u <= 0x0d) || u == 0x20 || u == 0x85 || u == 0xa0 || u == 0x1680
        || (0x2000 <= u && u <= 0x200a) || u == 0x2028 || u == 0x2029 || u == 0x202f
        || u == 0x205f || u == 0x3000
}

pub fn white(c: char) -> (b: bool)
    ensures
        b == is_white(c),
{
    let u = c as u32;
    (0x09 <= u && u <= 0x0d) || u == 0x20 || u == 0x85 || u == 0xa0 || u == 0x1680
        || (0x2000 <= u && u <= 0x200a) || u == 0x2028 || u == 0x2029 || u == 0x202f
        || u == 0x205f || u == 0x3000
}

/// Number of leading characters of `s` satisfying "is whitespace".
pub open spec fn lead_white(s: Seq<char>) -> nat
    decreases s.len(),
{
    if s.len() > 0 && is_white(s[0]) {
        1 + lead_white(s.drop_first())
    } else {
        0
    }
}

/// Number of trailing whitespace characters of `s`.
pub open spec fn trail_white(s: Seq<char>) -> nat
    decreases s.len(),
{
    if s.len() > 0 && is_white(s.last()) {
        1 + trail_white(s.drop_last())
    } else {
        0
    }
}

/// `s` with leading and trailing whitespace removed (std's `str::trim`).
pub open spec fn trim_seq(s: Seq<char>) -> Seq<char> {
    let a = s.skip(lead_white(s) as int);
    a.take(a.len() - trail_white(a))
}

/// Every character of `s` is whitespace.
pub open spec fn all_white(s: Seq<char>) -> bool {
    forall|j: int| 0 <= j < s.len() ==> is_white(#[trigger] s[j])
}

/// `s` is non-empty and neither starts nor ends with whitespace.
pub open spec fn is_trimmed(s: Seq<char>) -> bool {
    s.len() > 0 && !is_white(s[0]) && !is_white(s.last())
}

proof fn lemma_lead_white_facts(s: Seq<char>)
    ensures
        lead_white(s) <= s.len(),
        forall|j: int| 0 <= j < lead_white(s) ==> is_white(#[trigger] s[j]),
        lead_white(s) < s.len() ==> !is_white(s[lead_white(s) as int]),
    decreases s.len(),
{
    if s.len() > 0 && is_white(s[0]) {
        lemma_lead_white_facts(s.drop_first());
        assert forall|j: int| 0 <= j < lead_white(s) implies is_white(#[trigger] s[j]) by {
            if j > 0 {
                assert(s[j] == s.drop_first()[j - 1]);
            }
        }
    }
}

proof fn lemma_trail_white_facts(s: Seq<char>)
    ensures
        trail_white(s) <= s.len(),
        forall|j: int| s.len() - trail_white(s) <= j < s.len() ==> is_white(#[trigger] s[j]),
        trail_white(s) < s.len() ==> !is_white(s[s.len() - trail_white(s) - 1]),
    decreases s.len(),
{
    if s.len() > 0 && is_white(s.last()) {
        lemma_trail_white_facts(s.drop_last());
        assert forall|j: int| s.len() - trail_white(s) <= j < s.len() implies is_white(#[trigger] s[j]) by {
            if j < s.len() - 1 {
                assert(s[j] == s.drop_last()[j]);
            }
        }
    }
}

/// Whitespace around a trimmed sequence is all that trimming removes.
pub proof fn lemma_trim_padded(w1: Seq<char>, e: Seq<char>, w2: Seq<char>)
    requires
        all_white(w1),
        all_white(w2),
        is_trimmed(e),
    ensures
        trim_seq(w1 + e + w2) == e,
{
    let s = w1 + e + w2;
    assert(s[w1.len() as int] == e[0]);
    lemma_lead_white(s, w1.len() as int);
    let a = s.skip(w1.len() as int);
    assert(a =~= e + w2);
    assert(a[a.len() - w2.len() - 1] == e.last());
    lemma_trail_white(a, w2.len() as int);
    assert(a.take(a.len() - w2.len()) =~= e);
}

/// A non-empty trimmed result is trimmed, and consists of characters of
/// the input.
pub proof fn lemma_trim_shape(s: Seq<char>)
    ensures
        trim_seq(s).len() > 0 ==> is_trimmed(trim_seq(s)),
        forall|j: int| 0 <= j < trim_seq(s).len() ==> s.contains(#[trigger] trim_seq(s)[j]),
{
    lemma_lead_white_facts(s);
    let a = s.skip(lead_white(s) as int);
    lemma_trail_white_facts(a);
    let t = trim_seq(s);
    assert forall|j: int| 0 <= j < t.len() implies s.contains(#[trigger] t[j]) by {
        assert(t[j] == s[lead_white(s) + j]);
    }
    if t.len() > 0 {
        assert(t[0] == s[lead_white(s) as int]);
        assert(t.last() == a[a.len() - trail_white(a) - 1]);
    }
}

proof fn lemma_lead_white(s: Seq<char>, i: int)
    requires
        0 <= i <= s.len(),
        forall|j: int| 0 <= j < i ==> is_white(#[trigger] s[j]),
        i == s.len() || !is_white(s[i]),
    ensures
        lead_white(s) == i,
    decreases i,
{
    if i > 0 {
        lemma_lead_white(s.drop_first(), i - 1);
    }
}

proof fn lemma_trail_white(s: Seq<char>, k: int)
    requires
        0 <= k <= s.len(),
        forall|j: int| s.len() - k <= j < s.len() ==> is_white(#[trigger] s[j]),
        k == s.len() || !is_white(s[s.len() - k - 1]),
    ensures
        trail_white(s) == k,
    decreases k,
{
    if k > 0 {
        lemma_trail_white(s.drop_last(), k - 1);
    }
}

/// Whitespace-trimmed copy of a character slice.
pub fn trim_chars(v: &[char]) -> (r: Vec<char>)
    ensures
        r@ == trim_seq(v@),
{
    let n = v.len();
    let mut i: usize = 0;
    while i < n && white(v[i])
        invariant
            i <= n == v@.len(),
            forall|j: int| 0 <= j < i ==> is_white(#[trigger] v@[j]),
        decreases n - i,
    {
        i = i + 1;
    }
    proof {
        lemma_lead_white(v@, i as int);
    }
    let mut e: usize = n;
    while e > i && white(v[e - 1])
        invariant
            i <= e <= n == v@.len(),
            forall|j: int| e <= j < n ==> is_white(#[trigger] v@[j]),
        decreases e,
    {
        e = e - 1;
    }
    let ghost a = v@.skip(i as int);
    proof {
        assert forall|j: int| a.len() - (n - e) <= j < a.len() implies is_white(#[trigger] a[j]) by {
            assert(a[j] == v@[j + i]);
        }
        if e > i {
            assert(a[a.len() - (n - e) - 1] == v@[e - 1]);
        }
        lemma_trail_white(a, (n - e) as int);
    }
    let mut r: Vec<char> = Vec::new();
    let mut k: usize = i;
    while k < e
        invariant
            i <= k <= e <= n == v@.len(),
            r@ == v@.subrange(i as int, k as int),
        decreases e - k,
    {
        r.push(v[k]);
        k = k + 1;
    }
    proof {
        assert(r@ =~= trim_seq(v@));
    }
    r
}

/// Whitespace-trimmed copy of a string.
pub fn trim(s: &str) -> (r: String)
    ensures
        r@ == trim_seq(s@),
{
    let v = chars_of(s);
    let t = trim_chars(v.as_slice());
    string_from_chars(&t)
}

/// Decimal digit character for `d < 10`.
pub open spec fn digit_char(d: nat) -> char {
    ((d + 48) as u32) as char
}

/// Decimal representation of `n`, as `Display` prints an unsigned integer.
pub open spec fn decimal(n: nat) -> Seq<char>
    decreases n,
{
    if n < 10 {
        seq![digit_char(n)]
    } else {
        decimal(n / 10).push(digit_char(n % 10))
    }
}

/// Decimal representation of `n`.
pub fn usize_to_string(n: usize) -> (s: String)
    ensures
        s@ == decimal(n as nat),
{
    let mut digits: Vec<char> = Vec::new();
    let mut m: usize = n;
    // `digits` holds the low-order digits of `n`, least significant first.
    let ghost mut low: Seq<char> = Seq::empty();
    while m >= 10
        invariant
            digits@.len() == low.len(),
            forall|j: int| 0 <= j < low.len() ==> digits@[j] == low[low.len() - 1 - j],
            decimal(n as nat) == decimal(m as nat) + low,
        decreases m,
    {
        let d: usize = m % 10;
        let x: u8 = (d as u8) + 48;
        let c = x as char;
        proof {
            assert(decimal(m as nat) == decimal((m / 10) as nat).push(digit_char(d as nat)));
            low = seq![c] + low;
            assert(decimal(n as nat) =~= decimal((m / 10) as nat) + low);
        }
        digits.push(c);
        m = m / 10;
    }
    let x: u8 = (m as u8) + 48;
    let c = x as char;
    proof {
        low = seq![c] + low;
        assert(decimal(n as nat) =~= low);
    }
    digits.push(c);
    let mut out: Vec<char> = Vec::new();
    let mut k: usize = digits.len();
    while k > 0
        invariant
            k <= digits@.len() == low.len(),
            forall|j: int| 0 <= j < low.len() ==> digits@[j] == low[low.len() - 1 - j],
            out@ == low.subrange(0, (low.len() - k) as int),
        decreases k,
    {
        k = k - 1;
        out.push(digits[k]);
        proof {
            assert(out@ =~= low.subrange(0, (low.len() - k) as int));
        }
    }
    proof {
        assert(out@ =~= low);
        assert(decimal(n as nat) =~= low);
    }
    string_from_chars(&out)
}

/// Exec form of `seq_lt` on strings.
pub fn string_lt(a: &String, b: &String) -> (r: bool)
    ensures
        r == seq_lt(a@, b@),
{
    let x = chars_of(a.as_str());
    let y = chars_of(b.as_str());
    chars_lt(&x, &y)
}

proof fn lemma_seq_lt_skip(a: Seq<char>, b: Seq<char>, i: int)
    requires
        0 <= i <= a.len(),
        i <= b.len(),
        forall|j: int| 0 <= j < i ==> a[j] == b[j],
    ensures
        seq_lt(a, b) == seq_lt(a.skip(i), b.skip(i)),
    decreases i,
{
    if i > 0 {
        assert(a[0] == b[0]);
        lemma_seq_lt_skip(a.drop_first(), b.drop_first(), i - 1);
        assert(a.drop_first().skip(i - 1) =~= a.skip(i));
        assert(b.drop_first().skip(i - 1) =~= b.skip(i));
    } else {
        assert(a.skip(0) =~= a);
        assert(b.skip(0) =~= b);
    }
}

/// Exec form of `seq_lt` on character vectors.
pub fn chars_lt(a: &Vec<char>, b: &Vec<char>) -> (r: bool)
    ensures
        r == seq_lt(a@, b@),
{
    let mut i: usize = 0;
    while i < a.len() && i < b.len() && a[i] == b[i]
        invariant
            i <= a.len(),
            i <= b.len(),
            forall|j: int| 0 <= j < i ==> a@[j] == b@[j],
        decreases a.len() - i,
    {
        i = i + 1;
    }
    proof {
        lemma_seq_lt_skip(a@, b@, i as int);
    }
    if i == a.len() {
        i < b.len()
    } else if i == b.len() {
        false
    } else {
        (a[i] as u32) < (b[i] as u32)
    }
}

/// Exec equality of a string and a string slice, by content.
pub fn str_eq(a: &String, b: &str) -> (r: bool)
    ensures
        r == (a@ == b@),
{
    let x = chars_of(a.as_str());
    let y = chars_of(b);
    chars_eq(&x, &y)
}

/// Exec equality of character vectors.
pub fn chars_eq(a: &Vec<char>, b: &Vec<char>) -> (r: bool)
    ensures
        r == (a@ == b@),
{
    if a.len() != b.len() {
        return false;
    }
    let mut i: usize = 0;
    while i < a.len()
        invariant
            a@.len() == b@.len(),
            i <= a@.len(),
            forall|j: int| 0 <= j < i ==> a@[j] == b@[j],
        decreases a@.len() - i,
    {
        if a[i] != b[i] {
            return false;
        }
        i = i + 1;
    }
    proof {
        assert(a@ =~= b@);
    }
    true
}

/// `s` ends with `suf`.
pub open spec fn ends_with(s: Seq<char>, suf: Seq<char>) -> bool {
    s.len() >= suf.len() && s.skip(s.len() - suf.len()) == suf
}

/// `s` starts with `pre`.
pub open spec fn starts_with(s: Seq<char>, pre: Seq<char>) -> bool {
    s.len() >= pre.len() && s.take(pre.len() as int) == pre
}

/// `s` with every trailing repetition of `suf` removed (std's
/// `trim_end_matches` with a string pattern).
pub open spec fn trim_end_all(s: Seq<char>, suf: Seq<char>) -> Seq<char>
    decreases s.len(),
{
    if suf.len() > 0 && ends_with(s, suf) {
        trim_end_all(s.take(s.len() - suf.len()), suf)
    } else {
        s
    }
}

/// `s` with every leading repetition of `pre` removed (std's
/// `trim_start_matches` with a string pattern).
pub open spec fn trim_start_all(s: Seq<char>, pre: Seq<char>) -> Seq<char>
    decreases s.len(),
{
    if pre.len() > 0 && starts_with(s, pre) {
        trim_start_all(s.skip(pre.len() as int), pre)
    } else {
        s
    }
}

/// Exec `ends_with` on character vectors.
pub fn chars_ends_with(s: &Vec<char>, suf: &Vec<char>) -> (r: bool)
    ensures
        r == ends_with(s@, suf@),
{
    if s.len() < suf.len() {
        return false;
    }
    let off = s.len() - suf.len();
    let mut i: usize = 0;
    while i < suf.len()
        invariant
            off + suf@.len() == s@.len(),
            s@.len() <= usize::MAX,
            i <= suf@.len(),
            forall|j: int| 0 <= j < i ==> s@[off + j] == suf@[j],
        decreases suf@.len() - i,
    {
        if s[off + i] != suf[i] {
            proof {
                assert(s@.skip(off as int)[i as int] != suf@[i as int]);
            }
            return false;
        }
        i = i + 1;
    }
    proof {
        assert(s@.skip(off as int) =~= suf@);
    }
    true
}

/// Exec `starts_with` on character vectors, at offset `at`.
pub fn chars_starts_with_at(s: &Vec<char>, at: usize, pre: &Vec<char>) -> (r: bool)
    requires
        at <= s@.len(),
    ensures
        r == starts_with(s@.skip(at as int), pre@),
{
    if s.len() - at < pre.len() {
        return false;
    }
    let mut i: usize = 0;
    while i < pre.len()
        invariant
            at + pre@.len() <= s@.len(),
            s@.len() <= usize::MAX,
            i <= pre@.len(),
            forall|j: int| 0 <= j < i ==> s@[at + j] == pre@[j],
        decreases pre@.len() - i,
    {
        if s[at + i] != pre[i] {
            proof {
                assert(s@.skip(at as int).take(pre@.len() as int)[i as int] != pre@[i as int]);
            }
            return false;
        }
        i = i + 1;
    }
    proof {
        assert(s@.skip(at as int).take(pre@.len() as int) =~= pre@);
    }
    true
}

/// Copy of `s[lo..hi]`.
pub fn chars_slice(s: &Vec<char>, lo: usize, hi: usize) -> (r: Vec<char>)
    requires
        lo <= hi <= s@.len(),
    ensures
        r@ == s@.subrange(lo as int, hi as int),
{
    let mut r: Vec<char> = Vec::new();
    let mut i: usize = lo;
    while i < hi
        invariant
            lo <= i <= hi <= s@.len(),
            r@ == s@.subrange(lo as int, i as int),
        decreases hi - i,
    {
        r.push(s[i]);
        i = i + 1;
    }
    r
}

/// Exec `trim_end_all`.
pub fn chars_trim_end_all(s: &Vec<char>, suf: &Vec<char>) -> (r: Vec<char>)
    ensures
        r@ == trim_end_all(s@, suf@),
{
    let mut cur = chars_slice(s, 0, s.len());
    proof {
        assert(cur@ =~= s@);
    }
    if suf.len() == 0 {
        return cur;
    }
    while chars_ends_with(&cur, suf)
        invariant
            suf@.len() > 0,
            trim_end_all(cur@, suf@) == trim_end_all(s@, suf@),
        decreases cur@.len(),
    {
        let n = cur.len() - suf.len();
        cur = chars_slice(&cur, 0, n);
    }
    cur
}

/// Exec `trim_start_all`.
pub fn chars_trim_start_all(s: &Vec<char>, pre: &Vec<char>) -> (r: Vec<char>)
    ensures
        r@ == trim_start_all(s@, pre@),
{
    if pre.len() == 0 {
        return chars_slice(s, 0, s.len());
    }
    let mut at: usize = 0;
    proof {
        assert(s@.skip(0) =~= s@);
    }
    while pre.len() <= s.len() - at && chars_starts_with_at(s, at, pre)
        invariant
            pre@.len() > 0,
            at <= s@.len(),
            trim_start_all(s@.skip(at as int), pre@) == trim_start_all(s@, pre@),
        decreases s@.len() - at,
    {
        proof {
            assert(s@.skip(at as int).skip(pre@.len() as int) =~= s@.skip(at + pre@.len()));
        }
        at = at + pre.len();
    }
    proof {
        if at + pre@.len() > s@.len() {
            assert(!starts_with(s@.skip(at as int), pre@));
        }
    }
    chars_slice(s, at, s.len())
}

/// `s` with leading and trailing `c` removed (std's `trim_matches` with a char).
pub open spec fn trim_char(s: Seq<char>, c: char) -> Seq<char>
    decreases s.len(),
{
    if s.len() > 0 && s[0] == c {
        trim_char(s.drop_first(), c)
    } else if s.len() > 0 && s.last() == c {
        trim_char(s.drop_last(), c)
    } else {
        s
    }
}

/// Exec `trim_char`.
pub fn chars_trim_char(s: &Vec<char>, c: char) -> (r: Vec<char>)
    ensures
        r@ == trim_char(s@, c),
{
    let mut lo: usize = 0;
    let mut hi: usize = s.len();
    proof {
        assert(s@.subrange(0, s@.len() as int) =~= s@);
    }
    while lo < hi && (s[lo] == c || s[hi - 1] == c)
        invariant
            lo <= hi <= s@.len(),
            trim_char(s@.subrange(lo as int, hi as int), c) == trim_char(s@, c),
        decreases hi - lo,
    {
        if s[lo] == c {
            proof {
                assert(s@.subrange(lo as int, hi as int).drop_first() =~= s@.subrange(lo + 1, hi as int));
            }
            lo = lo + 1;
        } else {
            proof {
                assert(s@.subrange(lo as int, hi as int).drop_last() =~= s@.subrange(lo as int, hi - 1));
            }
            hi = hi - 1;
        }
    }
    proof {
        if lo == 0 && hi == s@.len() {
            assert(s@.subrange(0, s@.len() as int) =~= s@);
        }
    }
    let r = chars_slice(s, lo, hi);
    r
}

/// The pieces of `s` between non-overlapping occurrences of `sep`, scanning
/// left to right (std's `str::split` with a non-empty string pattern).
pub open spec fn split_seq(s: Seq<char>, sep: Seq<char>) -> Seq<Seq<char>>
    decreases s.len(),
{
    if sep.len() == 0 {
        seq![s]
    } else {
        match first_match(s, sep) {
            Some(i) => {
                proof {
                    lemma_first_match_bounds(s, sep, 0);
                }
                seq![s.take(i)] + split_seq(s.skip(i + sep.len()), sep)
            },
            None => seq![s],
        }
    }
}

/// First index at or after `i` at which `sep` occurs in `s`.
pub open spec fn first_match_from(s: Seq<char>, sep: Seq<char>, i: int) -> Option<int>
    decreases s.len() + 1 - i,
{
    if i < 0 || i + sep.len() > s.len() {
        None
    } else if s.subrange(i, i + sep.len()) == sep {
        Some(i)
    } else {
        first_match_from(s, sep, i + 1)
    }
}

/// First index at which `sep` occurs in `s`.
pub open spec fn first_match(s: Seq<char>, sep: Seq<char>) -> Option<int> {
    first_match_from(s, sep, 0)
}

pub proof fn lemma_first_match_bounds(s: Seq<char>, sep: Seq<char>, i: int)
    ensures
        first_match_from(s, sep, i) matches Some(j) ==> i <= j && 0 <= j && j + sep.len() <= s.len(),
    decreases s.len() + 1 - i,
{
    if !(i < 0 || i + sep.len() > s.len()) && s.subrange(i, i + sep.len()) != sep {
        lemma_first_match_bounds(s, sep, i + 1);
    }
}

/// Exec `first_match_from`.
pub fn find_from(s: &Vec<char>, sep: &Vec<char>, i: usize) -> (r: Option<usize>)
    requires
        i <= s@.len(),
    ensures
        match r {
            Some(j) => first_match_from(s@, sep@, i as int) == Some(j as int),
            None => first_match_from(s@, sep@, i as int) is None,
        },
{
    let mut j: usize = i;
    while sep.len() <= s.len() - j
        invariant
            i <= j <= s@.len(),
            first_match_from(s@, sep@, j as int) == first_match_from(s@, sep@, i as int),
        decreases s@.len() - j,
    {
        if chars_starts_with_at(s, j, sep) {
            proof {
                assert(s@.skip(j as int).take(sep@.len() as int) =~= s@.subrange(j as int, j + sep@.len()));
            }
            return Some(j);
        }
        proof {
            assert(s@.skip(j as int).take(sep@.len() as int) =~= s@.subrange(j as int, j + sep@.len()));
            if sep@.len() == 0 {
                assert(s@.skip(j as int).take(0) =~= sep@);
            }
        }
        j = j + 1;
    }
    None
}

/// Exec `split_seq`: the pieces as strings.
pub fn split_on(s: &Vec<char>, sep: &Vec<char>) -> (r: Vec<String>)
    requires
        sep@.len() > 0,
    ensures
        views(r@) == split_seq(s@, sep@),
{
    let mut out: Vec<String> = Vec::new();
    let mut start: usize = 0;
    proof {
        assert(s@.skip(0) =~= s@);
        assert(views(out@) =~= Seq::<Seq<char>>::empty());
        assert(views(out@) + split_seq(s@, sep@) =~= split_seq(s@, sep@));
    }
    loop
        invariant
            sep@.len() > 0,
            start <= s@.len(),
            views(out@) + split_seq(s@.skip(start as int), sep@) == split_seq(s@, sep@),
        decreases s@.len() - start,
    {
        let rest = chars_slice(s, start, s.len());
        proof {
            assert(rest@ =~= s@.skip(start as int));
        }
        match find_from(&rest, sep, 0) {
            Some(j) => {
                proof {
                    lemma_first_match_bounds(rest@, sep@, 0);
                }
                let piece = chars_slice(&rest, 0, j);
                let ps = string_from_chars(&piece);
                proof {
                    assert(piece@ =~= rest@.take(j as int));
                    assert(views(out@.push(ps)) =~= views(out@).push(ps@));
                    assert(s@.skip(start as int).skip(j + sep@.len()) =~= s@.skip(start + j + sep@.len()));
                    assert(split_seq(rest@, sep@) == seq![rest@.take(j as int)] + split_seq(rest@.skip(j + sep@.len()), sep@));
                    assert(views(out@.push(ps)) + split_seq(s@.skip(start + j + sep@.len()), sep@) =~= views(out@) + split_seq(s@.skip(start as int), sep@));
                }
                out.push(ps);
                start = start + j + sep.len();
            },
            None => {
                let ps = string_from_chars(&rest);
                proof {
                    assert(views(out@.push(ps)) =~= views(out@).push(ps@));
                    assert(split_seq(rest@, sep@) == seq![rest@]);
                    assert(views(out@.push(ps)) =~= views(out@) + split_seq(s@.skip(start as int), sep@));
                }
                out.push(ps);
                return out;
            },
        }
    }
}

/// Last index at which `sep` occurs in `s`, searching from the right.
pub open spec fn last_match_before(s: Seq<char>, sep: Seq<char>, e: int) -> Option<int>
    decreases e,
{
    if e <= 0 || e < sep.len() || e > s.len() {
        None
    } else if s.subrange(e - sep.len(), e) == sep {
        Some(e - sep.len())
    } else {
        last_match_before(s, sep, e - 1)
    }
}

/// The part of `s` after the last occurrence of `sep`, or all of `s`
/// (std's `rsplit(sep).next()`).
pub open spec fn after_last(s: Seq<char>, sep: Seq<char>) -> Seq<char> {
    match last_match_before(s, sep, s.len() as int) {
        Some(i) => s.skip(i + sep.len()),
        None => s,
    }
}

/// Exec `after_last`.
pub fn chars_after_last(s: &Vec<char>, sep: &Vec<char>) -> (r: Vec<char>)
    requires
        sep@.len() > 0,
    ensures
        r@ == after_last(s@, sep@),
{
    let mut e: usize = s.len();
    while e >= sep.len()
        invariant
            sep@.len() > 0,
            e <= s@.len(),
            last_match_before(s@, sep@, e as int) == last_match_before(s@, sep@, s@.len() as int),
        decreases e,
    {
        let b = e - sep.len();
        if chars_starts_with_at(s, b, sep) {
            proof {
                assert(s@.skip(b as int).take(sep@.len() as int) =~= s@.subrange(b as int, e as int));
            }
            return chars_slice(s, e, s.len());
        }
        proof {
            assert(s@.skip(b as int).take(sep@.len() as int) =~= s@.subrange(b as int, e as int));
        }
        e = e - 1;
    }
    chars_slice(s, 0, s.len())
}

} // verus!
