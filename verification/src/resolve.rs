//! Specifier classification and path resolution.
//!
//! Resolution is pure inspection of a filesystem snapshot: given a relative
//! specifier, the importing file's directory and the project root, it
//! applies a fixed fallback chain and yields the existing file the
//! specifier denotes, or nothing. Classification is coupled to resolution
//! success: a specifier is local exactly when it is syntactically relative
//! and the chain finds a file; everything else — package names, and
//! relative references whose target is missing — is external.

use vstd::prelude::*;

use crate::graph::DepKind;
use crate::paths::{join_path, join_spec, parent_dir, parent_of};

verus! {

/// A snapshot of which paths exist: the files and the directories of the
/// project tree, each as a normalized path string. Existence queries are
/// literal membership, so the snapshot and the resolver must agree on one
/// normalized spelling per path.
pub struct Fs {
    pub files: Vec<String>,
    pub dirs: Vec<String>,
}

impl Fs {
    pub open spec fn has_file(self, p: Seq<char>) -> bool {
        exists|i: int| 0 <= i < self.files@.len() && self.files@[i]@ == p
    }

    pub open spec fn has_dir(self, p: Seq<char>) -> bool {
        exists|i: int| 0 <= i < self.dirs@.len() && self.dirs@[i]@ == p
    }

    pub fn new() -> (r: Fs)
        ensures
            r.files@.len() == 0,
            r.dirs@.len() == 0,
    {
        Fs { files: Vec::new(), dirs: Vec::new() }
    }

    pub fn add_file(&mut self, p: String)
        ensures
            final(self).files@ == old(self).files@.push(p),
            final(self).dirs@ == old(self).dirs@,
            forall|q: Seq<char>| #[trigger]
                final(self).has_file(q) == (old(self).has_file(q) || q == p@),
            forall|q: Seq<char>| #[trigger] final(self).has_dir(q) == old(self).has_dir(q),
    {
        let ghost pre = *self;
        self.files.push(p);
        proof {
            assert forall|q: Seq<char>| #[trigger] self.has_file(q) == (pre.has_file(q) || q
                == p@) by {
                let n = pre.files@.len() as int;
                if self.has_file(q) {
                    let a = choose|a: int|
                        0 <= a < self.files@.len() && self.files@[a]@ == q;
                    if a < n {
                        assert(pre.has_file(q));
                    }
                }
                if pre.has_file(q) {
                    let a = choose|a: int|
                        0 <= a < pre.files@.len() && pre.files@[a]@ == q;
                    assert(self.files@[a]@ == q);
                }
                if q == p@ {
                    assert(self.files@[n]@ == q);
                }
            }
        }
    }

    pub fn add_dir(&mut self, p: String)
        ensures
            final(self).dirs@ == old(self).dirs@.push(p),
            final(self).files@ == old(self).files@,
            forall|q: Seq<char>| #[trigger]
                final(self).has_dir(q) == (old(self).has_dir(q) || q == p@),
            forall|q: Seq<char>| #[trigger] final(self).has_file(q) == old(self).has_file(q),
    {
        let ghost pre = *self;
        self.dirs.push(p);
        proof {
            assert forall|q: Seq<char>| #[trigger] self.has_dir(q) == (pre.has_dir(q) || q
                == p@) by {
                let n = pre.dirs@.len() as int;
                if self.has_dir(q) {
                    let a = choose|a: int| 0 <= a < self.dirs@.len() && self.dirs@[a]@ == q;
                    if a < n {
                        assert(pre.has_dir(q));
                    }
                }
                if pre.has_dir(q) {
                    let a = choose|a: int| 0 <= a < pre.dirs@.len() && pre.dirs@[a]@ == q;
                    assert(self.dirs@[a]@ == q);
                }
                if q == p@ {
                    assert(self.dirs@[n]@ == q);
                }
            }
        }
    }

    /// Whether a file with exactly this path is in the snapshot.
    pub fn is_file(&self, p: &String) -> (r: bool)
        ensures
            r == self.has_file(p@),
    {
        let mut i: usize = 0;
        while i < self.files.len()
            invariant
                i <= self.files@.len(),
                forall|j: int| 0 <= j < i ==> self.files@[j]@ != p@,
            decreases self.files@.len() - i,
        {
            if self.files[i] == *p {
                return true;
            }
            i = i + 1;
        }
        false
    }

    /// Whether a directory with exactly this path is in the snapshot.
    pub fn is_dir(&self, p: &String) -> (r: bool)
        ensures
            r == self.has_dir(p@),
    {
        let mut i: usize = 0;
        while i < self.dirs.len()
            invariant
                i <= self.dirs@.len(),
                forall|j: int| 0 <= j < i ==> self.dirs@[j]@ != p@,
            decreases self.dirs@.len() - i,
        {
            if self.dirs[i] == *p {
                return true;
            }
            i = i + 1;
        }
        false
    }
}

/// A specifier is syntactically relative when it starts with `.` (which
/// covers `./` and `../` references).
pub open spec fn is_relative(s: Seq<char>) -> bool {
    s.len() > 0 && s[0] == '.'
}

/// `s` ends with `suffix`.
pub open spec fn ends_with(s: Seq<char>, suffix: Seq<char>) -> bool {
    suffix.len() <= s.len() && s.subrange(s.len() - suffix.len(), s.len() as int) == suffix
}

/// The specifier itself already carries a recognized source extension.
pub open spec fn has_source_ext(s: Seq<char>) -> bool {
    ||| ends_with(s, (".js")@)
    ||| ends_with(s, (".ts")@)
    ||| ends_with(s, (".tsx")@)
    ||| ends_with(s, (".jsx")@)
}

/// Probe a directory for its index file: `index.tsx`, then `index.ts`,
/// then `index.js`, then `index.jsx`, in that fixed priority order.
pub open spec fn probe_index_spec(d: Seq<char>, fs: Fs) -> Option<Seq<char>> {
    if fs.has_file(d + ("/index.tsx")@) {
        Some(d + ("/index.tsx")@)
    } else if fs.has_file(d + ("/index.ts")@) {
        Some(d + ("/index.ts")@)
    } else if fs.has_file(d + ("/index.js")@) {
        Some(d + ("/index.js")@)
    } else if fs.has_file(d + ("/index.jsx")@) {
        Some(d + ("/index.jsx")@)
    } else {
        None
    }
}

/// The resolution fallback chain, applied in order, stopping at the first
/// step that yields an existing file:
/// 1. directory-with-index lookup under `dir/specifier`;
/// 2. the same probe under `parent(dir)/specifier`;
/// 3. extension probing `root/specifier` + `.js`, `.ts`, `.tsx` as a file;
/// 4. if the specifier itself carries a source extension, the literal
///    reference `dir/specifier` as a file.
/// A specifier that is not syntactically relative resolves to nothing.
pub open spec fn resolve_spec(s: Seq<char>, dir: Seq<char>, root: Seq<char>, fs: Fs) -> Option<
    Seq<char>,
> {
    if !is_relative(s) {
        None
    } else {
        let d1 = join_spec(dir, s);
        let d2 = join_spec(parent_of(dir), s);
        if fs.has_dir(d1) && probe_index_spec(d1, fs) is Some {
            probe_index_spec(d1, fs)
        } else if fs.has_dir(d2) && probe_index_spec(d2, fs) is Some {
            probe_index_spec(d2, fs)
        } else if fs.has_file(join_spec(root, s + (".js")@)) {
            Some(join_spec(root, s + (".js")@))
        } else if fs.has_file(join_spec(root, s + (".ts")@)) {
            Some(join_spec(root, s + (".ts")@))
        } else if fs.has_file(join_spec(root, s + (".tsx")@)) {
            Some(join_spec(root, s + (".tsx")@))
        } else if has_source_ext(s) && fs.has_file(join_spec(dir, s)) {
            Some(join_spec(dir, s))
        } else {
            None
        }
    }
}

/// The classification that resolution induces: local exactly on resolution
/// success.
pub open spec fn classify_spec(s: Seq<char>, dir: Seq<char>, root: Seq<char>, fs: Fs) -> DepKind {
    if resolve_spec(s, dir, root, fs) is Some {
        DepKind::Local
    } else {
        DepKind::External
    }
}

/// Resolution is deterministic: it depends only on the specifier, the two
/// directories and the snapshot, so resolving the same triple twice
/// against an unchanged snapshot yields the same result both times.
pub proof fn lemma_resolve_deterministic(
    s1: Seq<char>,
    dir1: Seq<char>,
    root1: Seq<char>,
    fs1: Fs,
    s2: Seq<char>,
    dir2: Seq<char>,
    root2: Seq<char>,
    fs2: Fs,
)
    requires
        s1 == s2,
        dir1 == dir2,
        root1 == root2,
        fs1.files@.map_values(|p: String| p@) == fs2.files@.map_values(|p: String| p@),
        fs1.dirs@.map_values(|p: String| p@) == fs2.dirs@.map_values(|p: String| p@),
    ensures
        resolve_spec(s1, dir1, root1, fs1) == resolve_spec(s2, dir2, root2, fs2),
{
    let m1 = fs1.files@.map_values(|p: String| p@);
    let m2 = fs2.files@.map_values(|p: String| p@);
    assert(m1.len() == fs1.files@.len());
    assert(m2.len() == fs2.files@.len());
    assert forall|q: Seq<char>| #[trigger] fs1.has_file(q) == fs2.has_file(q) by {
        if fs1.has_file(q) {
            let a = choose|a: int| 0 <= a < fs1.files@.len() && fs1.files@[a]@ == q;
            assert(m1[a] == fs1.files@[a]@);
            assert(m2[a] == fs2.files@[a]@);
            assert(fs2.files@[a]@ == q);
        }
        if fs2.has_file(q) {
            let a = choose|a: int| 0 <= a < fs2.files@.len() && fs2.files@[a]@ == q;
            assert(m1[a] == fs1.files@[a]@);
            assert(m2[a] == fs2.files@[a]@);
            assert(fs1.files@[a]@ == q);
        }
    }
    let n1 = fs1.dirs@.map_values(|p: String| p@);
    let n2 = fs2.dirs@.map_values(|p: String| p@);
    assert(n1.len() == fs1.dirs@.len());
    assert(n2.len() == fs2.dirs@.len());
    assert forall|q: Seq<char>| #[trigger] fs1.has_dir(q) == fs2.has_dir(q) by {
        if fs1.has_dir(q) {
            let a = choose|a: int| 0 <= a < fs1.dirs@.len() && fs1.dirs@[a]@ == q;
            assert(n1[a] == fs1.dirs@[a]@);
            assert(n2[a] == fs2.dirs@[a]@);
            assert(fs2.dirs@[a]@ == q);
        }
        if fs2.has_dir(q) {
            let a = choose|a: int| 0 <= a < fs2.dirs@.len() && fs2.dirs@[a]@ == q;
            assert(n1[a] == fs1.dirs@[a]@);
            assert(n2[a] == fs2.dirs@[a]@);
            assert(fs1.dirs@[a]@ == q);
        }
    }
}

/// Probe `d` for an index file, per `probe_index_spec`.
fn probe_index(d: &String, fs: &Fs) -> (r: Option<String>)
    ensures
        r.deep_view() == probe_index_spec(d@, *fs),
{
    let mut p = d.clone();
    p.append("/index.tsx");
    if fs.is_file(&p) {
        return Some(p);
    }
    let mut p = d.clone();
    p.append("/index.ts");
    if fs.is_file(&p) {
        return Some(p);
    }
    let mut p = d.clone();
    p.append("/index.js");
    if fs.is_file(&p) {
        return Some(p);
    }
    let mut p = d.clone();
    p.append("/index.jsx");
    if fs.is_file(&p) {
        return Some(p);
    }
    None
}

/// `s` ends with the characters of `suffix`.
fn str_ends_with(s: &String, suffix: &str) -> (r: bool)
    ensures
        r == ends_with(s@, suffix@),
{
    let n = s.as_str().unicode_len();
    let m = suffix.unicode_len();
    if m > n {
        return false;
    }
    let mut i: usize = 0;
    while i < m
        invariant
            m <= n,
            n == s@.len(),
            m == suffix@.len(),
            i <= m,
            forall|j: int| 0 <= j < i ==> s@[n - m + j] == suffix@[j],
        decreases m - i,
    {
        if s.as_str().get_char(n - m + i) != suffix.get_char(i) {
            proof {
                assert(s@.subrange(n - m, n as int)[i as int] != suffix@[i as int]);
            }
            return false;
        }
        i = i + 1;
    }
    proof {
        assert(s@.subrange(n - m, n as int) =~= suffix@);
    }
    true
}

/// Whether the specifier itself carries a recognized source extension.
fn specifier_has_source_ext(s: &String) -> (r: bool)
    ensures
        r == has_source_ext(s@),
{
    str_ends_with(s, ".js") || str_ends_with(s, ".ts") || str_ends_with(s, ".tsx")
        || str_ends_with(s, ".jsx")
}

/// Resolve `specifier` against the importing file's directory and the
/// project root, per the fallback chain of `resolve_spec`.
pub fn resolve(specifier: &String, dir: &String, root: &String, fs: &Fs) -> (r: Option<String>)
    ensures
        r.deep_view() == resolve_spec(specifier@, dir@, root@, *fs),
{
    let n = specifier.as_str().unicode_len();
    if n == 0 || specifier.as_str().get_char(0) != '.' {
        return None;
    }
    let d1 = join_path(dir, specifier);
    if fs.is_dir(&d1) {
        if let Some(p) = probe_index(&d1, fs) {
            return Some(p);
        }
    }
    let pd = parent_dir(dir);
    let d2 = join_path(&pd, specifier);
    if fs.is_dir(&d2) {
        if let Some(p) = probe_index(&d2, fs) {
            return Some(p);
        }
    }
    let mut withjs = specifier.clone();
    withjs.append(".js");
    let f1 = join_path(root, &withjs);
    if fs.is_file(&f1) {
        return Some(f1);
    }
    let mut withts = specifier.clone();
    withts.append(".ts");
    let f2 = join_path(root, &withts);
    if fs.is_file(&f2) {
        return Some(f2);
    }
    let mut withtsx = specifier.clone();
    withtsx.append(".tsx");
    let f3 = join_path(root, &withtsx);
    if fs.is_file(&f3) {
        return Some(f3);
    }
    if specifier_has_source_ext(specifier) {
        let lit = join_path(dir, specifier);
        if fs.is_file(&lit) {
            return Some(lit);
        }
    }
    None
}

/// Classify a specifier: `Local` exactly when resolution succeeds.
pub fn classify(specifier: &String, dir: &String, root: &String, fs: &Fs) -> (k: DepKind)
    ensures
        k == classify_spec(specifier@, dir@, root@, *fs),
{
    match resolve(specifier, dir, root, fs) {
        Some(_) => DepKind::Local,
        None => DepKind::External,
    }
}

} // verus!
