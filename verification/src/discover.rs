//! Map the target crate's source files to module paths, and read its package
//! name. Walking the directory and reading files is left to the caller; this
//! module decides what each file is.

use vstd::prelude::*;
use crate::modpath::{DiscoveredFile, ModuleKind, ModulePath, module_path_for_file, module_path_spec};
use crate::text::{
    views, chars_of, string_from_chars, trim_seq, trim_chars, trim_char, chars_trim_char, split_seq, split_on,
    starts_with, lead_white, trim_end_all, chars_trim_end_all,
};

verus! {

/// Metadata about the analyzed crate.
#[derive(Clone, Debug)]
pub struct CrateInfo {
    /// Cargo package name, used to derive crate-name prefixes.
    pub package_name: String,
}

/// Result of discovery: the crate metadata + every discovered file.
#[derive(Clone, Debug)]
pub struct Discovery {
    pub info: CrateInfo,
    pub files: Vec<DiscoveredFile>,
}

/// Number of `'\n'` characters in `s`.
pub open spec fn newline_count(s: Seq<char>) -> nat
    decreases s.len(),
{
    if s.len() == 0 {
        0
    } else {
        newline_count(s.drop_last()) + if s.last() == '\n' { 1nat } else { 0nat }
    }
}

/// Number of lines of a text, as `str::lines` counts them: a final line
/// without a terminator still counts, an empty text has none.
pub open spec fn line_count(s: Seq<char>) -> nat {
    newline_count(s) + if s.len() > 0 && s.last() != '\n' { 1nat } else { 0nat }
}

proof fn lemma_newline_count_bound(s: Seq<char>)
    ensures
        newline_count(s) <= s.len(),
    decreases s.len(),
{
    if s.len() > 0 {
        lemma_newline_count_bound(s.drop_last());
    }
}

/// Lines of code of a source text.
pub fn count_lines(text: &str) -> (r: usize)
    ensures
        r == line_count(text@),
{
    let v = chars_of(text);
    let mut n: usize = 0;
    let mut i: usize = 0;
    while i < v.len()
        invariant
            i <= v@.len(),
            n == newline_count(v@.take(i as int)),
        decreases v@.len() - i,
    {
        proof {
            assert(v@.take(i + 1).drop_last() =~= v@.take(i as int));
            lemma_newline_count_bound(v@.take(i as int));
        }
        if v[i] == '\n' {
            n = n + 1;
        }
        i = i + 1;
    }
    proof {
        assert(v@.take(v@.len() as int) =~= v@);
        lemma_newline_count_bound(v@);
        if v@.len() > 0 {
            lemma_newline_count_bound(v@.drop_last());
        }
    }
    if v.len() > 0 && v[v.len() - 1] != '\n' {
        n = n + 1;
    }
    n
}

/// The value of a `name = "..."` line (already trimmed), if it is one with a
/// non-empty value.
pub open spec fn name_value(t: Seq<char>) -> Option<Seq<char>> {
    if starts_with(t, "name"@) {
        let rest = t.skip(4);
        let rest = rest.skip(lead_white(rest) as int);
        if starts_with(rest, "="@) {
            let v = trim_char(trim_char(trim_seq(rest.skip(1)), '"'), '\'');
            if v.len() > 0 { Some(v) } else { None }
        } else {
            None
        }
    } else {
        None
    }
}

/// The package name found in the given manifest lines: the first `name`
/// entry inside a `[package]` table.
pub open spec fn manifest_name(lines: Seq<Seq<char>>, in_package: bool) -> Option<Seq<char>>
    decreases lines.len(),
{
    if lines.len() == 0 {
        None
    } else {
        let t = trim_seq(lines[0]);
        if starts_with(t, "["@) {
            manifest_name(lines.drop_first(), t == "[package]"@)
        } else if in_package && name_value(t) is Some {
            name_value(t)
        } else {
            manifest_name(lines.drop_first(), in_package)
        }
    }
}

/// Does `v` start with `pre`?
fn chars_start(v: &Vec<char>, pre: &str) -> (r: bool)
    ensures
        r == starts_with(v@, pre@),
{
    let p = chars_of(pre);
    if p.len() > v.len() {
        return false;
    }
    let mut i: usize = 0;
    while i < p.len()
        invariant
            p@ == pre@,
            p@.len() <= v@.len(),
            i <= p@.len(),
            forall|j: int| 0 <= j < i ==> v@[j] == p@[j],
        decreases p@.len() - i,
    {
        if v[i] != p[i] {
            proof {
                assert(v@.take(p@.len() as int)[i as int] == v@[i as int]);
                assert(v@.take(p@.len() as int) != p@);
            }
            return false;
        }
        i = i + 1;
    }
    proof {
        assert(v@.take(p@.len() as int) =~= p@);
    }
    true
}

/// `v` without its first `k` characters.
fn chars_skip(v: &Vec<char>, k: usize) -> (r: Vec<char>)
    requires
        k <= v@.len(),
    ensures
        r@ == v@.skip(k as int),
{
    let r = crate::text::chars_slice(v, k, v.len());
    proof {
        assert(r@ =~= v@.skip(k as int));
    }
    r
}

/// Leading whitespace removed (std's `trim_start`).
fn chars_trim_start(v: &Vec<char>) -> (r: Vec<char>)
    ensures
        r@ == v@.skip(lead_white(v@) as int),
{
    let mut i: usize = 0;
    proof {
        assert(v@.skip(0) =~= v@);
    }
    while i < v.len() && crate::text::white(v[i])
        invariant
            i <= v@.len(),
            lead_white(v@.skip(i as int)) + i == lead_white(v@),
        decreases v@.len() - i,
    {
        proof {
            assert(v@.skip(i as int).drop_first() =~= v@.skip(i + 1));
        }
        i = i + 1;
    }
    proof {
        if i < v@.len() {
            assert(v@.skip(i as int)[0] == v@[i as int]);
        }
        lemma_lead_white_bound(v@);
    }
    chars_skip(v, i)
}

proof fn lemma_lead_white_bound(s: Seq<char>)
    ensures
        lead_white(s) <= s.len(),
    decreases s.len(),
{
    if s.len() > 0 && crate::text::is_white(s[0]) {
        lemma_lead_white_bound(s.drop_first());
    }
}

/// The value of a trimmed `name = "..."` line.
fn line_name_value(t: &Vec<char>) -> (r: Option<Vec<char>>)
    ensures
        match r {
            Some(v) => name_value(t@) == Some(v@),
            None => name_value(t@) is None,
        },
{
    proof {
        reveal_strlit("name");
        reveal_strlit("=");
    }
    if !chars_start(t, "name") {
        return None;
    }
    let rest = chars_trim_start(&chars_skip(t, 4));
    if !chars_start(&rest, "=") {
        return None;
    }
    let after = chars_skip(&rest, 1);
    let v = chars_trim_char(&chars_trim_char(&trim_chars(after.as_slice()), '"'), '\'');
    if v.len() > 0 {
        Some(v)
    } else {
        None
    }
}

/// Parse the package name out of a crate's `Cargo.toml` text: the first
/// non-empty `name = "..."` inside the `[package]` table.
pub fn package_name_from_manifest(text: &str) -> (r: Option<String>)
    ensures
        match r {
            Some(s) => manifest_name(split_seq(text@, "\n"@), false) == Some(s@),
            None => manifest_name(split_seq(text@, "\n"@), false) is None,
        },
{
    let v = chars_of(text);
    let nl = chars_of("\n");
    proof {
        reveal_strlit("\n");
    }
    let lines = split_on(&v, &nl);
    let ghost lv = views(lines@);
    let mut in_package = false;
    let mut i: usize = 0;
    proof {
        assert(lv.skip(0) =~= lv);
    }
    while i < lines.len()
        invariant
            lv == views(lines@),
            lv == split_seq(text@, "\n"@),
            i <= lines@.len(),
            manifest_name(lv, false) == manifest_name(lv.skip(i as int), in_package),
        decreases lines@.len() - i,
    {
        let t = trim_chars(chars_of(lines[i].as_str()).as_slice());
        proof {
            assert(lv.skip(i as int)[0] == lines@[i as int]@);
            assert(lv.skip(i as int).drop_first() =~= lv.skip(i + 1));
            reveal_strlit("[");
            reveal_strlit("[package]");
        }
        if chars_start(&t, "[") {
            let pk = chars_of("[package]");
            in_package = crate::text::chars_eq(&t, &pk);
        } else if in_package {
            match line_name_value(&t) {
                Some(val) => {
                    return Some(string_from_chars(&val));
                },
                None => {},
            }
        }
        i = i + 1;
    }
    None
}

/// The package name: from the manifest text when it names one, else the
/// crate directory's name, else `crate`.
pub fn package_name_for(manifest: Option<&str>, dir_name: Option<&str>) -> (r: String)
    ensures
        r@ == match manifest {
            Some(text) if manifest_name(split_seq(text@, "\n"@), false) is Some => manifest_name(split_seq(text@, "\n"@), false)->0,
            _ => match dir_name {
                Some(d) => d@,
                None => "crate"@,
            },
        },
{
    match manifest {
        Some(text) => {
            match package_name_from_manifest(text) {
                Some(name) => {
                    return name;
                },
                None => {},
            }
        },
        None => {},
    }
    match dir_name {
        Some(d) => d.to_owned(),
        None => "crate".to_owned(),
    }
}

/// `dir` is a leading part of `file` (component-wise `Path::starts_with`).
pub open spec fn under(dir: Seq<Seq<char>>, file: Seq<Seq<char>>) -> bool {
    dir.len() <= file.len() && file.take(dir.len() as int) == dir
}

/// The binary a file under `bin_dir` belongs to: its first component below
/// `bin_dir` (`bin` if there is none), without trailing `.rs`.
pub open spec fn bin_name_of(bin_dir: Seq<Seq<char>>, file: Seq<Seq<char>>) -> Seq<char> {
    let rel = file.skip(bin_dir.len() as int);
    trim_end_all(if rel.len() > 0 { rel[0] } else { "bin"@ }, ".rs"@)
}

/// What a source file is: its module path and, for a file under `src/bin/`,
/// the binary it belongs to. `None` for a file outside the module tree.
pub open spec fn source_file_spec(src_dir: Seq<Seq<char>>, file: Seq<Seq<char>>) -> Option<(Seq<Seq<char>>, Option<Seq<char>>)> {
    let bin_dir = src_dir.push("bin"@);
    if under(bin_dir, file) {
        let module = match module_path_spec(bin_dir, file) {
            Some(m) => m,
            None => Seq::empty(),
        };
        Some((module, Some(bin_name_of(bin_dir, file))))
    } else {
        match module_path_spec(src_dir, file) {
            Some(m) => Some((m, None)),
            None => None,
        }
    }
}

/// Does the component list `file` start with `dir`?
fn starts_with_dir(dir: &Vec<String>, file: &[String]) -> (r: bool)
    ensures
        r == under(views(dir@), views(file@)),
{
    if dir.len() > file.len() {
        return false;
    }
    let mut i: usize = 0;
    while i < dir.len()
        invariant
            dir@.len() <= file@.len(),
            i <= dir@.len(),
            forall|j: int| 0 <= j < i ==> dir@[j]@ == file@[j]@,
        decreases dir@.len() - i,
    {
        if dir[i] != file[i] {
            proof {
                assert(views(file@).take(dir@.len() as int)[i as int] == file@[i as int]@);
                assert(views(dir@)[i as int] == dir@[i as int]@);
            }
            return false;
        }
        i = i + 1;
    }
    proof {
        assert(views(file@).take(dir@.len() as int) =~= views(dir@));
    }
    true
}

/// Map one source file (its path given as components, plus its display text
/// and line count) to its module. Files under `src/bin/` are binary roots
/// named by their first component there.
pub fn discovered_file(src_dir: &[String], file: &[String], display: &str, loc: usize) -> (r: Option<DiscoveredFile>)
    ensures
        match r {
            Some(d) => source_file_spec(views(src_dir@), views(file@)) matches Some((m, b))
                && d.module@ == m
                && (match b {
                    Some(name) => d.kind is Bin && d.kind->Bin_0@ == name,
                    None => d.kind is Lib,
                })
                && d.file@ == display@
                && d.loc == loc,
            None => source_file_spec(views(src_dir@), views(file@)) is None,
        },
{
    let mut bin_dir: Vec<String> = Vec::new();
    let mut i: usize = 0;
    while i < src_dir.len()
        invariant
            i <= src_dir@.len(),
            bin_dir@ == src_dir@.take(i as int),
        decreases src_dir@.len() - i,
    {
        bin_dir.push(src_dir[i].clone());
        proof {
            assert(bin_dir@ =~= src_dir@.take(i + 1));
        }
        i = i + 1;
    }
    proof {
        assert(src_dir@.take(src_dir@.len() as int) =~= src_dir@);
    }
    proof {
        reveal_strlit("bin");
    }
    bin_dir.push("bin".to_owned());
    proof {
        assert(views(bin_dir@) =~= views(src_dir@).push("bin"@));
    }
    if starts_with_dir(&bin_dir, file) {
        let k = bin_dir.len();
        let first: String = if k < file.len() { file[k].clone() } else { "bin".to_owned() };
        proof {
            let rel = views(file@).skip(k as int);
            if k < file@.len() {
                assert(rel[0] == file@[k as int]@);
            }
        }
        let name = string_from_chars(&chars_trim_end_all(&chars_of(first.as_str()), &chars_of(".rs")));
        let module = match module_path_for_file(bin_dir.as_slice(), file) {
            Some(m) => m,
            None => ModulePath::crate_root(),
        };
        return Some(DiscoveredFile { file: display.to_owned(), module, kind: ModuleKind::Bin(name), loc });
    }
    match module_path_for_file(src_dir, file) {
        Some(module) => Some(DiscoveredFile { file: display.to_owned(), module, kind: ModuleKind::Lib, loc }),
        None => None,
    }
}

} // verus!
