//! File path <-> Rust module path logic, and granularity truncation.

use vstd::prelude::*;
use crate::text::{views, join, join_seqs, str_eq, chars_of, chars_ends_with, chars_trim_end_all, string_from_chars, ends_with, trim_end_all};

verus! {

/// Copy of a vector of strings.
pub fn clone_strings(v: &Vec<String>) -> (r: Vec<String>)
    ensures
        r@ == v@,
{
    let mut r: Vec<String> = Vec::new();
    let mut i: usize = 0;
    while i < v.len()
        invariant
            i <= v@.len(),
            r@ == v@.take(i as int),
        decreases v@.len() - i,
    {
        r.push(v[i].clone());
        proof {
            assert(r@ =~= v@.take(i + 1));
        }
        i = i + 1;
    }
    proof {
        assert(v@.take(v@.len() as int) =~= v@);
    }
    r
}

/// A fully-qualified Rust module path, e.g. `["ai", "assistant", "tools"]`.
/// An empty segment list represents the crate root.
#[derive(Clone, Debug, PartialEq, Eq, Hash, PartialOrd, Ord)]
pub struct ModulePath {
    pub segments: Vec<String>,
}

impl View for ModulePath {
    type V = Seq<Seq<char>>;

    open spec fn view(&self) -> Seq<Seq<char>> {
        views(self.segments@)
    }
}

/// Human-readable label of a module path: `crate` for the root, otherwise
/// the segments joined with `::`.
pub open spec fn module_label(segs: Seq<Seq<char>>) -> Seq<char> {
    if segs.len() == 0 {
        "crate"@
    } else {
        join_seqs(segs, "::"@)
    }
}

/// The number of leading segments kept at a granularity (at least one).
pub open spec fn kept_segments(len: nat, granularity: nat) -> int {
    let g = if granularity < 1 { 1 } else { granularity };
    if g < len { g as int } else { len as int }
}

impl ModulePath {
    /// A copy of this path.
    pub fn clone_path(&self) -> (r: Self)
        ensures
            r@ == self@,
    {
        ModulePath { segments: clone_strings(&self.segments) }
    }

    pub fn crate_root() -> (r: Self)
        ensures
            r@ == Seq::<Seq<char>>::empty(),
    {
        let r = ModulePath { segments: Vec::new() };
        proof {
            assert(r@ =~= Seq::<Seq<char>>::empty());
        }
        r
    }

    /// Append a child module segment (e.g. for an inline `mod x {}`).
    pub fn child(&self, seg: &str) -> (r: Self)
        ensures
            r@ == self@.push(seg@),
    {
        let mut segments = clone_strings(&self.segments);
        segments.push(seg.to_owned());
        let r = ModulePath { segments };
        proof {
            assert(r@ =~= self@.push(seg@));
        }
        r
    }

    /// Truncate this path to at most `granularity` leading segments
    /// (a granularity below 1 counts as 1). The crate root truncates to
    /// the crate root.
    pub fn truncate(&self, granularity: usize) -> (r: ModulePath)
        ensures
            r@ == self@.take(kept_segments(self@.len(), granularity as nat)),
    {
        let g: usize = if granularity < 1 { 1 } else { granularity };
        let keep: usize = if g < self.segments.len() { g } else { self.segments.len() };
        let mut segments: Vec<String> = Vec::new();
        let mut i: usize = 0;
        while i < keep
            invariant
                keep <= self.segments@.len(),
                i <= keep,
                segments@ == self.segments@.take(i as int),
            decreases keep - i,
        {
            segments.push(self.segments[i].clone());
            proof {
                assert(segments@ =~= self.segments@.take(i + 1));
            }
            i = i + 1;
        }
        let r = ModulePath { segments };
        proof {
            assert(r@ =~= self@.take(keep as int));
        }
        r
    }

    /// Human-readable label.
    pub fn label(&self) -> (r: String)
        ensures
            r@ == module_label(self@),
    {
        if self.segments.len() == 0 {
            "crate".to_owned()
        } else {
            join(&self.segments, "::")
        }
    }

    /// Segment-wise equality.
    pub fn same_as(&self, other: &ModulePath) -> (r: bool)
        ensures
            r == (self@ == other@),
    {
        if self.segments.len() != other.segments.len() {
            proof {
                assert(self@.len() == self.segments@.len());
                assert(other@.len() == other.segments@.len());
            }
            return false;
        }
        let mut i: usize = 0;
        while i < self.segments.len()
            invariant
                self.segments@.len() == other.segments@.len(),
                i <= self.segments@.len(),
                forall|j: int| 0 <= j < i ==> self@[j] == other@[j],
                self@.len() == self.segments@.len(),
                other@.len() == other.segments@.len(),
            decreases self.segments@.len() - i,
        {
            if self.segments[i] != other.segments[i] {
                proof {
                    assert(self@[i as int] == self.segments@[i as int]@);
                    assert(other@[i as int] == other.segments@[i as int]@);
                }
                return false;
            }
            i = i + 1;
        }
        proof {
            assert(self@ =~= other@);
        }
        true
    }
}

/// Where a module's source comes from: the lib tree, or a separate binary root.
#[derive(Clone, Debug, PartialEq, Eq, Hash)]
pub enum ModuleKind {
    /// Part of the primary lib/main module tree.
    Lib,
    /// A binary root (src/bin/<name>.rs or a [[bin]] entry).
    Bin(String),
}

/// A discovered source file mapped to its module path.
#[derive(Clone, Debug)]
pub struct DiscoveredFile {
    pub file: String,
    pub module: ModulePath,
    pub kind: ModuleKind,
    pub loc: usize,
}

/// A path component as text: `/` for the root, `.` and `..` for the current
/// and parent directory, otherwise a normal name.
pub open spec fn is_normal_component(c: Seq<char>) -> bool {
    c != "/"@ && c != "."@ && c != ".."@
}

/// The normal components of a component list, in order.
pub open spec fn normal_components(s: Seq<Seq<char>>) -> Seq<Seq<char>>
    decreases s.len(),
{
    if s.len() == 0 {
        s
    } else {
        let r = normal_components(s.drop_last());
        if is_normal_component(s.last()) {
            r.push(s.last())
        } else {
            r
        }
    }
}

/// The module path of the file with components `file`, relative to the
/// source directory with components `src_dir`.
///
/// - `lib.rs` / `main.rs` directly in the source directory -> crate root.
/// - `foo.rs` or `foo/mod.rs` -> `foo`.
/// - `foo/bar.rs` -> `foo::bar`.
///
/// `None` when `src_dir` is not a prefix of `file`, when nothing is left, or
/// when the last component does not end in `.rs`.
pub open spec fn module_path_spec(src_dir: Seq<Seq<char>>, file: Seq<Seq<char>>) -> Option<Seq<Seq<char>>> {
    if !(src_dir.len() <= file.len() && file.take(src_dir.len() as int) == src_dir) {
        None
    } else {
        let comps = normal_components(file.skip(src_dir.len() as int));
        if comps.len() == 0 || !ends_with(comps.last(), ".rs"@) {
            None
        } else {
            let stem = trim_end_all(comps.last(), ".rs"@);
            let dirs = comps.drop_last();
            if (stem == "lib"@ || stem == "main"@) && dirs.len() == 0 {
                Some(dirs)
            } else if stem == "mod"@ {
                Some(dirs)
            } else {
                Some(dirs.push(stem))
            }
        }
    }
}

/// Compute the module path of a `.rs` file relative to the crate's `src/`
/// dir. Both paths are given as their components (see `module_path_spec`).
/// Files under `src/bin/` are handled by the caller as separate roots.
pub fn module_path_for_file(src_dir: &[String], file: &[String]) -> (r: Option<ModulePath>)
    ensures
        match r {
            Some(p) => module_path_spec(views(src_dir@), views(file@)) == Some(p@),
            None => module_path_spec(views(src_dir@), views(file@)) is None,
        },
{
    let ghost sv = views(src_dir@);
    let ghost fv = views(file@);
    // strip_prefix
    if src_dir.len() > file.len() {
        return None;
    }
    let mut i: usize = 0;
    while i < src_dir.len()
        invariant
            src_dir@.len() <= file@.len(),
            i <= src_dir@.len(),
            sv == views(src_dir@),
            fv == views(file@),
            forall|j: int| 0 <= j < i ==> sv[j] == fv[j],
        decreases src_dir@.len() - i,
    {
        if src_dir[i] != file[i] {
            proof {
                assert(fv.take(sv.len() as int)[i as int] != sv[i as int]);
            }
            return None;
        }
        i = i + 1;
    }
    proof {
        assert(fv.take(sv.len() as int) =~= sv);
    }
    // the normal components after the prefix
    let ghost rest = fv.skip(sv.len() as int);
    let mut comps: Vec<String> = Vec::new();
    let mut k: usize = src_dir.len();
    while k < file.len()
        invariant
            src_dir@.len() <= k <= file@.len(),
            rest == views(file@).skip(src_dir@.len() as int),
            views(comps@) == normal_components(rest.take(k - src_dir@.len())),
        decreases file@.len() - k,
    {
        let c = &file[k];
        proof {
            assert(rest.take(k + 1 - src_dir@.len()).drop_last() =~= rest.take(k - src_dir@.len()));
            assert(rest.take(k + 1 - src_dir@.len()).last() == c@);
        }
        if !str_eq(c, "/") && !str_eq(c, ".") && !str_eq(c, "..") {
            comps.push(c.clone());
            proof {
                assert(views(comps@) =~= normal_components(rest.take(k - src_dir@.len())).push(c@));
            }
        }
        k = k + 1;
    }
    proof {
        assert(rest.take(file@.len() - src_dir@.len()) =~= rest);
    }
    if comps.len() == 0 {
        return None;
    }
    let last = chars_of(comps[comps.len() - 1].as_str());
    let rs = chars_of(".rs");
    if !chars_ends_with(&last, &rs) {
        return None;
    }
    let stem_chars = chars_trim_end_all(&last, &rs);
    let stem = string_from_chars(&stem_chars);
    let mut segments: Vec<String> = Vec::new();
    let mut d: usize = 0;
    while d < comps.len() - 1
        invariant
            d < comps@.len(),
            segments@ == comps@.take(d as int),
        decreases comps@.len() - d,
    {
        segments.push(comps[d].clone());
        proof {
            assert(segments@ =~= comps@.take(d + 1));
        }
        d = d + 1;
    }
    proof {
        assert(views(segments@) =~= views(comps@).drop_last());
    }
    let is_root_file = (str_eq(&stem, "lib") || str_eq(&stem, "main")) && segments.len() == 0;
    if is_root_file {
        // crate root
    } else if str_eq(&stem, "mod") {
        // src/foo/mod.rs -> foo
    } else {
        segments.push(stem);
        proof {
            assert(views(segments@) =~= views(comps@).drop_last().push(stem_chars@));
        }
    }
    Some(ModulePath { segments })
}

proof fn lemma_root_file_name(name: Seq<char>, stem: Seq<char>)
    requires
        name == stem + ".rs"@,
        !ends_with(stem, ".rs"@),
        is_normal_component(name),
    ensures
        module_path_spec(Seq::empty(), seq![name]) == Some(Seq::<Seq<char>>::empty()) <==> (stem == "lib"@ || stem == "main"@ || stem == "mod"@),
{
    reveal_strlit(".rs");
    let comps = seq![name];
    assert(seq![name].skip(0) =~= seq![name]);
    assert(normal_components(comps.drop_last()) =~= Seq::<Seq<char>>::empty());
    assert(normal_components(comps) =~= seq![name]);
    assert(name.skip(name.len() - 3) =~= ".rs"@);
    assert(ends_with(name, ".rs"@));
    assert(name.take(name.len() - 3) =~= stem);
    assert(trim_end_all(name, ".rs"@) == trim_end_all(stem, ".rs"@));
    assert(trim_end_all(stem, ".rs"@) == stem);
    assert(seq![name].drop_last() =~= Seq::<Seq<char>>::empty());
    if stem != "lib"@ && stem != "main"@ && stem != "mod"@ {
        assert(Seq::<Seq<char>>::empty().push(stem).len() == 1);
    }
}

proof fn lemma_under_src(src_dir: Seq<Seq<char>>, rest: Seq<Seq<char>>)
    ensures
        module_path_spec(src_dir, src_dir + rest) == module_path_spec(Seq::empty(), rest),
{
    let file = src_dir + rest;
    assert(file.take(src_dir.len() as int) =~= src_dir);
    assert(file.skip(src_dir.len() as int) =~= rest);
    assert(rest.take(0) =~= Seq::<Seq<char>>::empty());
    assert(rest.skip(0) =~= rest);
}

/// Law: `lib.rs` and `main.rs` directly in the source directory are both the
/// crate root (an empty module path), whatever the source directory is.
pub proof fn lemma_root_files(src_dir: Seq<Seq<char>>)
    ensures
        module_path_spec(src_dir, src_dir.push("lib.rs"@)) == Some(Seq::<Seq<char>>::empty()),
        module_path_spec(src_dir, src_dir.push("main.rs"@)) == Some(Seq::<Seq<char>>::empty()),
{
    reveal_strlit("lib.rs");
    reveal_strlit("main.rs");
    reveal_strlit("lib");
    reveal_strlit("main");
    reveal_strlit(".rs");
    reveal_strlit("/");
    reveal_strlit(".");
    reveal_strlit("..");
    assert(src_dir.push("lib.rs"@) =~= src_dir + seq!["lib.rs"@]);
    assert(src_dir.push("main.rs"@) =~= src_dir + seq!["main.rs"@]);
    lemma_under_src(src_dir, seq!["lib.rs"@]);
    lemma_under_src(src_dir, seq!["main.rs"@]);
    assert("lib.rs"@ =~= "lib"@ + ".rs"@);
    assert("main.rs"@ =~= "main"@ + ".rs"@);
    assert("lib"@.skip(0)[0] != ".rs"@[0]);
    assert(!ends_with("lib"@, ".rs"@));
    assert("main"@.skip(1)[0] != ".rs"@[0]);
    assert(!ends_with("main"@, ".rs"@));
    assert(is_normal_component("lib.rs"@));
    assert(is_normal_component("main.rs"@));
    lemma_root_file_name("lib.rs"@, "lib"@);
    lemma_root_file_name("main.rs"@, "main"@);
}

proof fn lemma_all_normal(s: Seq<Seq<char>>)
    requires
        forall|i: int| 0 <= i < s.len() ==> is_normal_component(#[trigger] s[i]),
    ensures
        normal_components(s) == s,
    decreases s.len(),
{
    if s.len() > 0 {
        lemma_all_normal(s.drop_last());
        assert(s.drop_last().push(s.last()) =~= s);
    }
}

proof fn lemma_stem_of(stem: Seq<char>)
    requires
        !ends_with(stem, ".rs"@),
    ensures
        ends_with(stem + ".rs"@, ".rs"@),
        trim_end_all(stem + ".rs"@, ".rs"@) == stem,
        is_normal_component(stem + ".rs"@),
{
    reveal_strlit(".rs");
    reveal_strlit("/");
    reveal_strlit(".");
    reveal_strlit("..");
    let n = stem + ".rs"@;
    assert(n.skip(n.len() - 3) =~= ".rs"@);
    assert(n.take(n.len() - 3) =~= stem);
    assert(ends_with(n, ".rs"@));
    assert(trim_end_all(n, ".rs"@) == trim_end_all(n.take(n.len() - ".rs"@.len()), ".rs"@));
    assert(trim_end_all(stem, ".rs"@) == stem);
    assert(n.len() != "/"@.len() && n.len() != "."@.len() && n.len() != ".."@.len());
}

/// Law: a module `m` under directories `dirs` may live in `dirs/m.rs` or in
/// `dirs/m/mod.rs`; both give the module path `dirs::m`, below any source
/// directory.
pub proof fn lemma_module_files(src_dir: Seq<Seq<char>>, dirs: Seq<Seq<char>>, stem: Seq<char>)
    requires
        forall|i: int| 0 <= i < dirs.len() ==> is_normal_component(#[trigger] dirs[i]),
        is_normal_component(stem),
        !ends_with(stem, ".rs"@),
        stem != "mod"@,
        dirs.len() > 0 || (stem != "lib"@ && stem != "main"@),
    ensures
        module_path_spec(src_dir, src_dir + dirs.push(stem + ".rs"@)) == Some(dirs.push(stem)),
        module_path_spec(src_dir, src_dir + dirs.push(stem).push("mod.rs"@)) == Some(dirs.push(stem)),
{
    reveal_strlit("mod.rs");
    reveal_strlit("mod");
    reveal_strlit(".rs");
    lemma_stem_of(stem);
    assert("mod"@.skip(0)[0] != ".rs"@[0]);
    assert(!ends_with("mod"@, ".rs"@));
    lemma_stem_of("mod"@);
    assert("mod"@ + ".rs"@ =~= "mod.rs"@);
    let f1 = dirs.push(stem + ".rs"@);
    let f2 = dirs.push(stem).push("mod.rs"@);
    assert forall|i: int| 0 <= i < f1.len() implies is_normal_component(#[trigger] f1[i]) by {
        if i < dirs.len() {
            assert(f1[i] == dirs[i]);
        }
    }
    assert forall|i: int| 0 <= i < f2.len() implies is_normal_component(#[trigger] f2[i]) by {
        if i < dirs.len() {
            assert(f2[i] == dirs[i]);
        }
    }
    lemma_all_normal(f1);
    lemma_all_normal(f2);
    lemma_under_src(src_dir, f1);
    lemma_under_src(src_dir, f2);
    assert(f1.drop_last() =~= dirs);
    assert(f2.drop_last() =~= dirs.push(stem));
    assert(f1.skip(0) =~= f1);
    assert(f2.skip(0) =~= f2);
    let e = Seq::<Seq<char>>::empty();
    assert(f1.take(0) =~= e);
    assert(f2.take(0) =~= e);
    assert(f1.last() == stem + ".rs"@);
    assert(f2.last() == "mod.rs"@);
    reveal_strlit("lib");
    reveal_strlit("main");
    assert("mod"@[0] != "lib"@[0]);
    assert("mod"@ != "main"@);
    assert(module_path_spec(e, f1) == Some(dirs.push(stem)));
    assert(module_path_spec(e, f2) == Some(dirs.push(stem)));
}

} // verus!
