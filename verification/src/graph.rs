//! The dependency graph: an append-only store mapping a file's canonical
//! path to the ordered list of specifiers it references, each tagged local
//! or external.
//!
//! Invariant: keys are distinct, and a key exists only if its file has at
//! least one recorded specifier — no empty placeholder entries.

use vstd::prelude::*;

verus! {

/// Classification of a recorded specifier: resolvable to a project file
/// (`Local`) or a package reference (`External`).
#[derive(Clone, Copy, PartialEq, Eq, Structural, Debug)]
pub enum DepKind {
    Local,
    External,
}

/// One recorded specifier: the literal string written in the import
/// statement, with its classification.
#[derive(Debug)]
pub struct Dep {
    pub name: String,
    pub kind: DepKind,
}

/// One graph entry: a file and its recorded specifiers, in declaration
/// order.
#[derive(Debug)]
pub struct GraphEntry {
    pub file: String,
    pub deps: Vec<Dep>,
}

/// The dependency graph.
#[derive(Debug)]
pub struct Graph {
    pub entries: Vec<GraphEntry>,
}

impl Graph {
    /// Keys are distinct and every entry holds at least one specifier.
    pub open spec fn wf(self) -> bool {
        &&& forall|i: int, j: int|
            0 <= i < j < self.entries@.len() ==> self.entries@[i].file@ != self.entries@[j].file@
        &&& forall|i: int| 0 <= i < self.entries@.len() ==> self.entries@[i].deps@.len() >= 1
    }

    pub open spec fn contains_key(self, k: Seq<char>) -> bool {
        exists|i: int| 0 <= i < self.entries@.len() && self.entries@[i].file@ == k
    }

    pub open spec fn key_index(self, k: Seq<char>) -> int {
        choose|i: int| 0 <= i < self.entries@.len() && self.entries@[i].file@ == k
    }

    /// The recorded specifiers of key `k`, in insertion order.
    pub open spec fn deps_of(self, k: Seq<char>) -> Seq<Dep> {
        self.entries@[self.key_index(k)].deps@
    }

    pub fn new() -> (g: Graph)
        ensures
            g.wf(),
            g.entries@.len() == 0,
    {
        Graph { entries: Vec::new() }
    }

    /// Index of the entry whose file equals `file_name`, if any.
    fn find_index(&self, file_name: &String) -> (r: Option<usize>)
        ensures
            match r {
                Some(i) => i < self.entries@.len() && self.entries@[i as int].file@ == file_name@,
                None => !self.contains_key(file_name@),
            },
    {
        let mut i: usize = 0;
        while i < self.entries.len()
            invariant
                i <= self.entries@.len(),
                forall|j: int| 0 <= j < i ==> self.entries@[j].file@ != file_name@,
            decreases self.entries@.len() - i,
        {
            if self.entries[i].file == *file_name {
                return Some(i);
            }
            i = i + 1;
        }
        None
    }

    /// Whether `file_name` is a key of the graph. A file can have been
    /// visited by the traverser and still not be a key here: the visited
    /// set is the traverser's own.
    pub fn seen(&self, file_name: String) -> (r: bool)
        ensures
            r == self.contains_key(file_name@),
    {
        self.find_index(&file_name).is_some()
    }

    /// Record a specifier that resolved to a project file.
    pub fn push_local_dep(&mut self, file_name: String, dep: String)
        requires
            old(self).wf(),
        ensures
            final(self).wf(),
            Self::pushed(*old(self), *final(self), file_name@, dep@, DepKind::Local),
    {
        self._push(file_name, Dep { name: dep, kind: DepKind::Local });
    }

    /// Record a specifier that stays a package reference.
    pub fn push_library_dep(&mut self, file_name: String, dep: String)
        requires
            old(self).wf(),
        ensures
            final(self).wf(),
            Self::pushed(*old(self), *final(self), file_name@, dep@, DepKind::External),
    {
        self._push(file_name, Dep { name: dep, kind: DepKind::External });
    }

    /// How a graph after appending one tagged specifier relates to the
    /// graph before: the file's entry gains the specifier at its end
    /// (created on first use), every other entry is unchanged.
    pub open spec fn pushed(
        pre: Graph,
        post: Graph,
        file: Seq<char>,
        dep: Seq<char>,
        kind: DepKind,
    ) -> bool {
        &&& forall|k: Seq<char>|
            post.contains_key(k) == (pre.contains_key(k) || k == file)
        &&& post.deps_of(file).len() == (if pre.contains_key(file) {
            pre.deps_of(file).len() + 1
        } else {
            1
        })
        &&& (pre.contains_key(file) ==> post.deps_of(file).drop_last() == pre.deps_of(file))
        &&& post.deps_of(file).last().name@ == dep
        &&& post.deps_of(file).last().kind == kind
        &&& forall|k: Seq<char>|
            pre.contains_key(k) && k != file ==> post.deps_of(k) == pre.deps_of(k)
    }

    proof fn lemma_key_index_of(self, i: int)
        requires
            self.wf(),
            0 <= i < self.entries@.len(),
        ensures
            self.contains_key(self.entries@[i].file@),
            self.key_index(self.entries@[i].file@) == i,
    {
        let k = self.entries@[i].file@;
        assert(self.contains_key(k));
        let j = self.key_index(k);
        if i < j {
            assert(self.entries@[i].file@ != self.entries@[j].file@);
        } else if j < i {
            assert(self.entries@[j].file@ != self.entries@[i].file@);
        }
    }

    fn _push(&mut self, file_name: String, dep: Dep)
        requires
            old(self).wf(),
        ensures
            final(self).wf(),
            Self::pushed(*old(self), *final(self), file_name@, dep.name@, dep.kind),
    {
        let ghost pre = *self;
        let ghost d = dep;
        match self.find_index(&file_name) {
            Some(i) => {
                proof {
                    pre.lemma_key_index_of(i as int);
                }
                let mut e = self.entries.remove(i);
                e.deps.push(dep);
                let ghost enew = e;
                self.entries.insert(i, e);
                proof {
                    assert(enew.file == pre.entries@[i as int].file);
                    assert(enew.deps@ == pre.entries@[i as int].deps@.push(d));
                    assert(self.entries@ =~= pre.entries@.update(i as int, enew));
                    assert forall|k: Seq<char>| #[trigger] self.contains_key(k) == (
                    pre.contains_key(k) || k == file_name@) by {
                        if self.contains_key(k) {
                            let a = choose|a: int|
                                0 <= a < self.entries@.len() && self.entries@[a].file@ == k;
                            assert(pre.entries@[a].file@ == k);
                            assert(pre.contains_key(k));
                        }
                        if pre.contains_key(k) {
                            let a = choose|a: int|
                                0 <= a < pre.entries@.len() && pre.entries@[a].file@ == k;
                            assert(self.entries@[a].file@ == k);
                            assert(self.contains_key(k));
                        }
                    }
                    assert(self.wf());
                    self.lemma_key_index_of(i as int);
                    assert(self.deps_of(file_name@) =~= pre.deps_of(file_name@).push(d));
                    assert(self.deps_of(file_name@).drop_last() =~= pre.deps_of(file_name@));
                    assert forall|k: Seq<char>|
                        pre.contains_key(k) && k != file_name@ implies #[trigger] self.deps_of(k)
                        == pre.deps_of(k) by {
                        let a = pre.key_index(k);
                        pre.lemma_key_index_of(a);
                        self.lemma_key_index_of(a);
                    }
                }
            },
            None => {
                let mut v: Vec<Dep> = Vec::new();
                v.push(dep);
                self.entries.push(GraphEntry { file: file_name, deps: v });
                proof {
                    let n = pre.entries@.len() as int;
                    assert(self.entries@.len() == n + 1);
                    assert(forall|j: int| 0 <= j < n ==> self.entries@[j] == pre.entries@[j]);
                    assert forall|k: Seq<char>| #[trigger] self.contains_key(k) == (
                    pre.contains_key(k) || k == file_name@) by {
                        if self.contains_key(k) {
                            let a = choose|a: int|
                                0 <= a < self.entries@.len() && self.entries@[a].file@ == k;
                            if a < n {
                                assert(pre.contains_key(k));
                            } else {
                                assert(k == file_name@);
                            }
                        }
                        if pre.contains_key(k) {
                            let a = choose|a: int|
                                0 <= a < pre.entries@.len() && pre.entries@[a].file@ == k;
                            assert(self.entries@[a].file@ == k);
                        }
                        if k == file_name@ {
                            assert(self.entries@[n].file@ == k);
                        }
                    }
                    assert forall|i: int, j: int|
                        0 <= i < j < self.entries@.len() implies self.entries@[i].file@
                        != self.entries@[j].file@ by {
                        if j == n && i < n {
                            assert(pre.entries@[i].file@ == self.entries@[i].file@);
                            assert(!pre.contains_key(file_name@));
                        }
                    }
                    assert(self.wf());
                    self.lemma_key_index_of(n);
                    assert(self.deps_of(file_name@) =~= seq![d]);
                    assert forall|k: Seq<char>|
                        pre.contains_key(k) && k != file_name@ implies #[trigger] self.deps_of(k)
                        == pre.deps_of(k) by {
                        let a = pre.key_index(k);
                        pre.lemma_key_index_of(a);
                        self.lemma_key_index_of(a);
                    }
                }
            },
        }
    }
}

} // verus!
