//! Report renderers and the text pieces they share.

pub mod check;
pub mod mermaid;
pub mod text;

use vstd::prelude::*;
use crate::text::{usize_to_string, decimal};

verus! {

/// `s` followed by a newline.
pub open spec fn nl(s: Seq<char>) -> Seq<char> {
    s + "\n"@
}

/// `n` copies of `c`.
pub open spec fn repeated(c: char, n: nat) -> Seq<char> {
    Seq::new(n, |i: int| c)
}

/// `s` right-aligned in a field of `w` characters.
pub open spec fn pad_left(s: Seq<char>, w: nat) -> Seq<char> {
    if s.len() < w { repeated(' ', (w - s.len()) as nat) + s } else { s }
}

/// `n` copies of `c` as a string.
pub fn repeat_char(c: char, n: usize) -> (r: String)
    ensures
        r@ == repeated(c, n as nat),
{
    let mut v: Vec<char> = Vec::new();
    let mut i: usize = 0;
    while i < n
        invariant
            i <= n,
            v@ == repeated(c, i as nat),
        decreases n - i,
    {
        v.push(c);
        proof {
            assert(v@ =~= repeated(c, (i + 1) as nat));
        }
        i = i + 1;
    }
    crate::text::string_from_chars(&v)
}

/// `s` right-aligned in a field of `w` characters.
pub fn pad_left_str(s: &str, w: usize) -> (r: String)
    ensures
        r@ == pad_left(s@, w as nat),
{
    let n = s.unicode_len();
    if n < w {
        let mut out = repeat_char(' ', w - n);
        out.append(s);
        out
    } else {
        s.to_owned()
    }
}

/// Append `s` and a newline.
pub fn push_line(out: &mut String, s: &str)
    ensures
        final(out)@ == old(out)@ + nl(s@),
{
    out.append(s);
    out.append("\n");
}

/// The decimal text of `n`.
pub fn num(n: usize) -> (r: String)
    ensures
        r@ == decimal(n as nat),
{
    usize_to_string(n)
}

} // verus!
