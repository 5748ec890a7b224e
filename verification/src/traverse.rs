//! The traverser: recursive discovery of the dependency graph, driven as an
//! explicit work-stack state machine.
//!
//! A caller repeatedly takes the next unvisited file with `next_file`,
//! obtains that file's import list from whatever parser it uses, and hands
//! the list back through `supply_imports`, which classifies and records
//! every specifier and schedules the locally resolved targets. A file
//! enters the visited set exactly once, before its imports are processed,
//! which breaks cycles and bounds the run. `run` drives the same machine
//! over a pre-parsed import table and is proved to terminate.

use vstd::prelude::*;

use crate::graph::{Dep, DepKind, Graph};
use crate::paths::{parent_dir, parent_of};
use crate::resolve::{classify_spec, resolve, resolve_spec, Fs};

verus! {

/// The sequence in reverse order.
pub open spec fn rev<A>(s: Seq<A>) -> Seq<A> {
    Seq::new(s.len(), |i: int| s[s.len() - 1 - i])
}

/// The recorded specifier list `ds` is exactly `imports`, in order, each
/// tagged by the classification that resolution from `dir` induces.
pub open spec fn well_recorded(
    ds: Seq<Dep>,
    imports: Seq<Seq<char>>,
    dir: Seq<char>,
    root: Seq<char>,
    fs: Fs,
) -> bool {
    &&& ds.len() == imports.len()
    &&& forall|i: int|
        0 <= i < ds.len() ==> (#[trigger] ds[i]).name@ == imports[i] && ds[i].kind
            == classify_spec(imports[i], dir, root, fs)
}

/// Local/external partition: a well-recorded specifier is tagged external
/// exactly when resolution for it, from the recording file's directory,
/// fails.
pub proof fn lemma_local_external_partition(
    ds: Seq<Dep>,
    imports: Seq<Seq<char>>,
    dir: Seq<char>,
    root: Seq<char>,
    fs: Fs,
    i: int,
)
    requires
        well_recorded(ds, imports, dir, root, fs),
        0 <= i < ds.len(),
    ensures
        (ds[i].kind == DepKind::External) <==> (resolve_spec(imports[i], dir, root, fs) is None),
{
}

/// The files that the import list resolves to, in declaration order.
pub open spec fn local_targets(
    imports: Seq<Seq<char>>,
    dir: Seq<char>,
    root: Seq<char>,
    fs: Fs,
) -> Seq<Seq<char>>
    decreases imports.len(),
{
    if imports.len() == 0 {
        Seq::<Seq<char>>::empty()
    } else {
        let rest = local_targets(imports.drop_last(), dir, root, fs);
        match resolve_spec(imports.last(), dir, root, fs) {
            Some(t) => rest.push(t),
            None => rest,
        }
    }
}

/// A path is a local target of an import list iff some import of the list
/// resolves to it. Together with the traversal's contract this says that
/// every import of a visited file that resolves to a file is followed.
pub proof fn lemma_local_targets_mem(
    imports: Seq<Seq<char>>,
    dir: Seq<char>,
    root: Seq<char>,
    fs: Fs,
    t: Seq<char>,
)
    ensures
        local_targets(imports, dir, root, fs).contains(t) <==> exists|i: int|
            0 <= i < imports.len() && resolve_spec(imports[i], dir, root, fs) == Some(t),
    decreases imports.len(),
{
    if imports.len() > 0 {
        let prev = imports.drop_last();
        lemma_local_targets_mem(prev, dir, root, fs, t);
        let rest = local_targets(prev, dir, root, fs);
        let lt = local_targets(imports, dir, root, fs);
        let n = imports.len() as int;
        // each import of the prefix is an import of the whole list
        assert(forall|i: int| 0 <= i < n - 1 ==> prev[i] == imports[i]);
        if lt.contains(t) {
            let j = choose|j: int| 0 <= j < lt.len() && lt[j] == t;
            match resolve_spec(imports.last(), dir, root, fs) {
                Some(x) => {
                    if j < rest.len() {
                        assert(rest[j] == t);
                        assert(rest.contains(t));
                    } else {
                        assert(t == x);
                        assert(resolve_spec(imports[n - 1], dir, root, fs) == Some(t));
                    }
                },
                None => {
                    assert(rest[j] == t);
                    assert(rest.contains(t));
                },
            }
            if rest.contains(t) {
                let i = choose|i: int|
                    0 <= i < prev.len() && resolve_spec(prev[i], dir, root, fs) == Some(t);
                assert(resolve_spec(imports[i], dir, root, fs) == Some(t));
            }
        }
        if exists|i: int|
            0 <= i < imports.len() && resolve_spec(imports[i], dir, root, fs) == Some(t) {
            let i = choose|i: int|
                0 <= i < imports.len() && resolve_spec(imports[i], dir, root, fs) == Some(t);
            if i == n - 1 {
                match resolve_spec(imports.last(), dir, root, fs) {
                    Some(x) => {
                        assert(lt == rest.push(x));
                        assert(lt[rest.len() as int] == x);
                        assert(x == t);
                        assert(lt.contains(t));
                    },
                    None => {},
                }
            } else {
                assert(resolve_spec(prev[i], dir, root, fs) == Some(t));
                assert(rest.contains(t));
                let j = choose|j: int| 0 <= j < rest.len() && rest[j] == t;
                match resolve_spec(imports.last(), dir, root, fs) {
                    Some(x) => {
                        assert(lt[j] == t);
                        assert(lt.contains(t));
                    },
                    None => {
                        assert(lt.contains(t));
                    },
                }
            }
        }
    }
}

/// Membership in a pushed sequence: the old members and the new element.
proof fn lemma_contains_push<A>(s: Seq<A>, x: A, e: A)
    ensures
        s.push(x).contains(e) == (s.contains(e) || e == x),
{
    if s.contains(e) {
        let i = choose|i: int| 0 <= i < s.len() && s[i] == e;
        assert(s.push(x)[i] == e);
    }
    if e == x {
        assert(s.push(x)[s.len() as int] == e);
    }
    if s.push(x).contains(e) {
        let i = choose|i: int| 0 <= i < s.push(x).len() && s.push(x)[i] == e;
        if i < s.len() {
            assert(s[i] == e);
        }
    }
}

/// Reversal keeps membership.
proof fn lemma_rev_contains<A>(s: Seq<A>, x: A)
    ensures
        rev(s).contains(x) == s.contains(x),
{
    if s.contains(x) {
        let i = choose|i: int| 0 <= i < s.len() && s[i] == x;
        assert(rev(s)[s.len() - 1 - i] == x);
    }
    if rev(s).contains(x) {
        let i = choose|i: int| 0 <= i < rev(s).len() && rev(s)[i] == x;
        assert(s[s.len() - 1 - i] == x);
    }
}

/// How many of the keys are not yet visited: the traversal's termination
/// measure.
pub open spec fn count_unvisited(keys: Seq<Seq<char>>, visited: Seq<Seq<char>>) -> nat
    decreases keys.len(),
{
    if keys.len() == 0 {
        0
    } else {
        count_unvisited(keys.drop_last(), visited) + (if visited.contains(keys.last()) {
            0nat
        } else {
            1nat
        })
    }
}

proof fn lemma_count_push_le(keys: Seq<Seq<char>>, visited: Seq<Seq<char>>, x: Seq<char>)
    ensures
        count_unvisited(keys, visited.push(x)) <= count_unvisited(keys, visited),
    decreases keys.len(),
{
    if keys.len() > 0 {
        lemma_count_push_le(keys.drop_last(), visited, x);
        lemma_contains_push(visited, x, keys.last());
    }
}

/// Visiting an unvisited key strictly shrinks the measure.
proof fn lemma_count_push_lt(keys: Seq<Seq<char>>, visited: Seq<Seq<char>>, x: Seq<char>)
    requires
        keys.contains(x),
        !visited.contains(x),
    ensures
        count_unvisited(keys, visited.push(x)) < count_unvisited(keys, visited),
    decreases keys.len(),
{
    lemma_contains_push(visited, x, keys.last());
    if keys.last() == x {
        lemma_count_push_le(keys.drop_last(), visited, x);
        assert(visited.push(x).contains(keys.last()));
    } else {
        let i = choose|i: int| 0 <= i < keys.len() && keys[i] == x;
        assert(i < keys.len() - 1);
        assert(keys.drop_last()[i] == x);
        assert(keys.drop_last().contains(x));
        lemma_count_push_lt(keys.drop_last(), visited, x);
    }
}

/// Whether the vector holds a string with these characters.
fn contains_str(v: &Vec<String>, s: &String) -> (r: bool)
    ensures
        r == v.deep_view().contains(s@),
{
    let mut i: usize = 0;
    while i < v.len()
        invariant
            i <= v@.len(),
            forall|j: int| 0 <= j < i ==> v@[j]@ != s@,
        decreases v@.len() - i,
    {
        if v[i] == *s {
            proof {
                assert(v.deep_view()[i as int] == s@);
            }
            return true;
        }
        i = i + 1;
    }
    proof {
        if v.deep_view().contains(s@) {
            let j = choose|j: int| 0 <= j < v.deep_view().len() && v.deep_view()[j] == s@;
            assert(v@[j]@ == s@);
        }
    }
    false
}

/// One traversal run: the graph being built, the visited set, the work
/// stack of scheduled files, and the project root that extension probing
/// uses.
pub struct Traversal {
    pub graph: Graph,
    pub visited: Vec<String>,
    pub pending: Vec<String>,
    pub root: String,
}

impl Traversal {
    /// The graph is well formed and no file is visited twice.
    pub open spec fn wf(self) -> bool {
        &&& self.graph.wf()
        &&& forall|i: int, j: int|
            0 <= i < j < self.visited@.len() ==> self.visited@[i]@ != self.visited@[j]@
    }

    pub open spec fn visited_seq(self) -> Seq<Seq<char>> {
        self.visited.deep_view()
    }

    pub open spec fn pending_seq(self) -> Seq<Seq<char>> {
        self.pending.deep_view()
    }

    /// A fresh run: empty graph, empty visited set, the entry file as the
    /// only scheduled file.
    pub fn new(entry: String, root: String) -> (t: Traversal)
        ensures
            t.wf(),
            t.graph.entries@.len() == 0,
            t.visited_seq().len() == 0,
            t.pending_seq() =~= seq![entry@],
            t.root == root,
    {
        let mut pending: Vec<String> = Vec::new();
        pending.push(entry);
        let t = Traversal { graph: Graph::new(), visited: Vec::new(), pending, root };
        proof {
            assert(t.pending_seq() =~= seq![t.pending@[0]@]);
        }
        t
    }

    /// A file appears in the visited set at most once: two equal visited
    /// paths stand at the same position.
    pub proof fn lemma_visited_once(self, i: int, j: int)
        requires
            self.wf(),
            0 <= i < self.visited_seq().len(),
            0 <= j < self.visited_seq().len(),
            self.visited_seq()[i] == self.visited_seq()[j],
        ensures
            i == j,
    {
        assert(self.visited_seq()[i] == self.visited@[i]@);
        assert(self.visited_seq()[j] == self.visited@[j]@);
        if i < j {
            assert(self.visited@[i]@ != self.visited@[j]@);
        } else if j < i {
            assert(self.visited@[j]@ != self.visited@[i]@);
        }
    }

    /// Whether the file has already been dispatched for parsing.
    pub fn has_visited(&self, file: &String) -> (r: bool)
        ensures
            r == self.visited_seq().contains(file@),
    {
        contains_str(&self.visited, file)
    }

    /// Take the next scheduled file that has not been visited yet, marking
    /// it visited. Scheduled files that were already visited are discarded.
    /// Returns `None` when no unvisited work remains.
    pub fn next_file(&mut self) -> (r: Option<String>)
        requires
            old(self).wf(),
        ensures
            final(self).wf(),
            final(self).graph == old(self).graph,
            final(self).root == old(self).root,
            match r {
                None => {
                    &&& final(self).visited == old(self).visited
                    &&& final(self).pending_seq().len() == 0
                    &&& forall|j: int|
                        0 <= j < old(self).pending_seq().len() ==> old(
                            self,
                        ).visited_seq().contains(old(self).pending_seq()[j])
                },
                Some(f) => {
                    &&& !old(self).visited_seq().contains(f@)
                    &&& final(self).visited_seq() == old(self).visited_seq().push(f@)
                    &&& exists|k: int|
                        {
                            &&& 0 <= k < old(self).pending_seq().len()
                            &&& old(self).pending_seq()[k] == f@
                            &&& final(self).pending_seq() == old(self).pending_seq().take(k)
                            &&& forall|j: int|
                                k < j < old(self).pending_seq().len() ==> old(
                                    self,
                                ).visited_seq().contains(#[trigger] old(self).pending_seq()[j])
                        }
                },
            },
    {
        let ghost pre = *self;
        proof {
            let m0 = pre.pending_seq().len() as int;
            assert(pre.pending_seq().take(m0) =~= pre.pending_seq());
            assert({
                &&& 0 <= m0 <= pre.pending_seq().len()
                &&& self.pending_seq() == pre.pending_seq().take(m0)
                &&& forall|j: int|
                    m0 <= j < pre.pending_seq().len() ==> pre.visited_seq().contains(
                        #[trigger] pre.pending_seq()[j],
                    )
            });
        }
        #[verifier::loop_isolation(false)]
        loop
            invariant
                self.wf(),
                self.graph == pre.graph,
                self.root == pre.root,
                self.visited == pre.visited,
                exists|m: int|
                    {
                        &&& 0 <= m <= pre.pending_seq().len()
                        &&& self.pending_seq() == pre.pending_seq().take(m)
                        &&& forall|j: int|
                            m <= j < pre.pending_seq().len() ==> pre.visited_seq().contains(
                                #[trigger] pre.pending_seq()[j],
                            )
                    },
            decreases self.pending@.len(),
        {
            let ghost head = *self;
            let ghost m = choose|m: int|
                {
                    &&& 0 <= m <= pre.pending_seq().len()
                    &&& head.pending_seq() == pre.pending_seq().take(m)
                    &&& forall|j: int|
                        m <= j < pre.pending_seq().len() ==> pre.visited_seq().contains(
                            #[trigger] pre.pending_seq()[j],
                        )
                };
            proof {
                assert(head.pending_seq().len() == head.pending@.len());
                assert(head.pending_seq().len() == m);
            }
            match self.pending.pop() {
                None => {
                    proof {
                        assert(head.pending@.len() == 0);
                        assert(m == 0);
                    }
                    return None;
                },
                Some(f) => {
                    proof {
                        assert(head.pending@.len() > 0);
                        assert(m >= 1);
                        assert(self.pending@ == head.pending@.drop_last());
                        assert forall|i: int|
                            0 <= i < self.pending@.len() implies self.pending_seq()[i]
                            == head.pending_seq()[i] by {
                            assert(self.pending@[i] == head.pending@[i]);
                        }
                        assert(self.pending_seq() =~= pre.pending_seq().take(m - 1));
                        assert(f == head.pending@[m - 1]);
                        assert(f@ == head.pending_seq()[m - 1]);
                        assert(f@ == pre.pending_seq()[m - 1]);
                    }
                    if !contains_str(&self.visited, &f) {
                        proof {
                            assert forall|i: int|
                                0 <= i < pre.visited@.len() implies (#[trigger] pre.visited@[i])@
                                != f@ by {
                                if pre.visited@[i]@ == f@ {
                                    assert(pre.visited_seq()[i] == f@);
                                    assert(pre.visited_seq().contains(f@));
                                }
                            }
                        }
                        self.visited.push(f.clone());
                        proof {
                            assert(self.visited@ =~= pre.visited@.push(f));
                            assert(self.visited_seq() =~= pre.visited_seq().push(f@));
                            assert forall|i: int, j: int|
                                0 <= i < j < self.visited@.len() implies self.visited@[i]@
                                != self.visited@[j]@ by {
                                if j < pre.visited@.len() {
                                    assert(pre.visited@[i]@ != pre.visited@[j]@);
                                } else {
                                    assert(self.visited@[j]@ == f@);
                                    assert(self.visited@[i]@ == pre.visited@[i]@);
                                }
                            }
                            let k = m - 1;
                            assert({
                                &&& 0 <= k < pre.pending_seq().len()
                                &&& pre.pending_seq()[k] == f@
                                &&& self.pending_seq() == pre.pending_seq().take(k)
                                &&& forall|j: int|
                                    k < j < pre.pending_seq().len() ==> pre.visited_seq().contains(
                                        #[trigger] pre.pending_seq()[j],
                                    )
                            });
                        }
                        return Some(f);
                    }
                },
            }
        }
    }
    /// Record one visited file's import list: classify every specifier in
    /// declaration order, append the tagged edge to the file's entry, and
    /// schedule the locally resolved targets (first-declared topmost on the
    /// work stack, so traversal is depth-first in declaration order).
    pub fn supply_imports(&mut self, file: &String, imports: &Vec<String>, fs: &Fs)
        requires
            old(self).wf(),
        ensures
            final(self).wf(),
            final(self).visited == old(self).visited,
            final(self).root == old(self).root,
            forall|k: Seq<char>| #[trigger]
                final(self).graph.contains_key(k) == (old(self).graph.contains_key(k) || (k
                    == file@ && imports@.len() > 0)),
            forall|k: Seq<char>|
                old(self).graph.contains_key(k) && k != file@
                    ==> #[trigger] final(self).graph.deps_of(k) == old(self).graph.deps_of(k),
            (old(self).graph.contains_key(file@) || imports@.len() > 0) ==> {
                let ds = final(self).graph.deps_of(file@);
                let pre_ds = if old(self).graph.contains_key(file@) {
                    old(self).graph.deps_of(file@)
                } else {
                    Seq::<Dep>::empty()
                };
                &&& ds.len() == pre_ds.len() + imports@.len()
                &&& ds.take(pre_ds.len() as int) == pre_ds
                &&& well_recorded(
                    ds.skip(pre_ds.len() as int),
                    imports.deep_view(),
                    parent_of(file@),
                    old(self).root@,
                    *fs,
                )
            },
            final(self).pending_seq() == old(self).pending_seq() + rev(
                local_targets(imports.deep_view(), parent_of(file@), old(self).root@, *fs),
            ),
    {
        let ghost pre = *self;
        let ghost pre_ds = if pre.graph.contains_key(file@) {
            pre.graph.deps_of(file@)
        } else {
            Seq::<Dep>::empty()
        };
        let ghost pre_len = pre_ds.len() as int;
        let dir = parent_dir(file);
        let root = self.root.clone();
        let mut targets: Vec<String> = Vec::new();
        let mut i: usize = 0;
        proof {
            assert(imports.deep_view().take(0) =~= Seq::<Seq<char>>::empty());
            assert(targets.deep_view() =~= Seq::<Seq<char>>::empty());
        }
        #[verifier::loop_isolation(false)]
        while i < imports.len()
            invariant
                self.wf(),
                self.visited == pre.visited,
                self.pending == pre.pending,
                self.root == pre.root,
                i <= imports@.len(),
                forall|k: Seq<char>| #[trigger]
                    self.graph.contains_key(k) == (pre.graph.contains_key(k) || (k == file@ && i
                        > 0)),
                forall|k: Seq<char>|
                    pre.graph.contains_key(k) && k != file@ ==> #[trigger] self.graph.deps_of(k)
                        == pre.graph.deps_of(k),
                (pre.graph.contains_key(file@) || i > 0) ==> {
                    let ds = self.graph.deps_of(file@);
                    &&& ds.len() == pre_len + i
                    &&& ds.take(pre_len) == pre_ds
                    &&& well_recorded(
                        ds.skip(pre_len),
                        imports.deep_view().take(i as int),
                        parent_of(file@),
                        pre.root@,
                        *fs,
                    )
                },
                targets.deep_view() == local_targets(
                    imports.deep_view().take(i as int),
                    parent_of(file@),
                    pre.root@,
                    *fs,
                ),
            decreases imports@.len() - i,
        {
            let s = &imports[i];
            let ghost gpre = self.graph;
            let ghost tk = imports.deep_view().take(i as int);
            let ghost tk1 = imports.deep_view().take(i as int + 1);
            proof {
                assert(imports.deep_view()[i as int] == imports@[i as int]@);
                assert(tk1.drop_last() =~= tk);
                assert(tk1.last() == s@);
            }
            let r = resolve(s, &dir, &root, fs);
            match r {
                Some(t) => {
                    proof {
                        assert(resolve_spec(s@, parent_of(file@), pre.root@, *fs) == Some(t@));
                    }
                    self.graph.push_local_dep(file.clone(), s.clone());
                    let ghost told = targets.deep_view();
                    targets.push(t);
                    proof {
                        assert(targets.deep_view() =~= told.push(
                            local_targets(tk1, parent_of(file@), pre.root@, *fs).last(),
                        ));
                        assert(targets.deep_view() =~= local_targets(
                            tk1,
                            parent_of(file@),
                            pre.root@,
                            *fs,
                        ));
                    }
                },
                None => {
                    proof {
                        assert(resolve_spec(s@, parent_of(file@), pre.root@, *fs) is None);
                    }
                    self.graph.push_library_dep(file.clone(), s.clone());
                    proof {
                        assert(local_targets(tk1, parent_of(file@), pre.root@, *fs)
                            == local_targets(tk, parent_of(file@), pre.root@, *fs));
                    }
                },
            }
            proof {
                let ds = self.graph.deps_of(file@);
                let dsold = if gpre.contains_key(file@) {
                    gpre.deps_of(file@)
                } else {
                    Seq::<Dep>::empty()
                };
                assert(ds.drop_last() == dsold || (!gpre.contains_key(file@) && ds.len() == 1));
                if gpre.contains_key(file@) {
                    assert(ds.take(pre_len) =~= dsold.take(pre_len));
                } else {
                    assert(pre_len == 0 && i == 0);
                    assert(ds.take(pre_len) =~= pre_ds);
                }
                assert(ds.skip(pre_len).len() == i + 1);
                assert forall|j: int| 0 <= j < i + 1 implies {
                    &&& (#[trigger] ds.skip(pre_len)[j]).name@ == tk1[j]
                    &&& ds.skip(pre_len)[j].kind == classify_spec(
                        tk1[j],
                        parent_of(file@),
                        pre.root@,
                        *fs,
                    )
                } by {
                    if j < i {
                        assert(ds.skip(pre_len)[j] == ds.drop_last().skip(pre_len)[j]);
                        assert(dsold.skip(pre_len)[j].name@ == tk[j]);
                        assert(tk[j] == tk1[j]);
                    } else {
                        assert(ds.skip(pre_len)[j] == ds.last());
                    }
                }
            }
            i = i + 1;
        }
        proof {
            assert(imports.deep_view().take(imports@.len() as int) =~= imports.deep_view());
        }
        let ghost mid = *self;
        let ghost targets_full = targets.deep_view();
        let ghost lt = local_targets(imports.deep_view(), parent_of(file@), pre.root@, *fs);
        proof {
            assert(targets_full == lt);
            assert(targets_full.skip(targets_full.len() as int) =~= Seq::<Seq<char>>::empty());
            assert(rev(targets_full.skip(targets_full.len() as int)) =~= Seq::<Seq<char>>::empty());
            assert(self.pending_seq() =~= pre.pending_seq() + rev(
                targets_full.skip(targets_full.len() as int),
            ));
        }
        #[verifier::loop_isolation(false)]
        while targets.len() > 0
            invariant
                self.wf(),
                self.graph == mid.graph,
                self.visited == pre.visited,
                self.root == pre.root,
                targets@.len() <= targets_full.len(),
                targets.deep_view() == targets_full.take(targets@.len() as int),
                self.pending_seq() == pre.pending_seq() + rev(
                    targets_full.skip(targets@.len() as int),
                ),
            decreases targets@.len(),
        {
            let ghost m = targets@.len() as int;
            let ghost thead = targets@;
            let ghost dhead = targets.deep_view();
            let ghost pnd = self.pending_seq();
            proof {
                assert(dhead.len() == m);
                assert(m <= targets_full.len());
            }
            let t = targets.pop().unwrap();
            proof {
                assert(targets@ == thead.drop_last());
                assert forall|ii: int|
                    0 <= ii < targets@.len() implies (#[trigger] targets.deep_view()[ii])
                    == dhead[ii] by {
                    assert(targets@[ii] == thead[ii]);
                    assert(dhead[ii] == thead[ii]@);
                }
                assert(targets.deep_view() =~= dhead.drop_last());
                assert(dhead.drop_last() =~= targets_full.take(m - 1));
                assert(t == thead.last());
                assert(t@ == dhead[m - 1]);
                assert(t@ == targets_full[m - 1]);
            }
            self.pending.push(t);
            proof {
                assert(self.pending_seq() =~= pnd.push(targets_full[m - 1]));
                assert(rev(targets_full.skip(m - 1)) =~= rev(targets_full.skip(m)).push(
                    targets_full[m - 1],
                ));
                assert(self.pending_seq() =~= pre.pending_seq() + rev(targets_full.skip(m - 1)));
            }
        }
        proof {
            assert(targets_full.skip(0) =~= targets_full);
            assert(self.pending_seq() == pre.pending_seq() + rev(lt));
        }
    }
}

/// One pre-parsed file: its path and its import specifiers, in declaration
/// order.
pub struct ImportEntry {
    pub file: String,
    pub imports: Vec<String>,
}

/// A pre-parsed project: each file's import list, keyed by path.
pub struct ImportTable {
    pub entries: Vec<ImportEntry>,
}

impl ImportTable {
    /// Keys are distinct.
    pub open spec fn wf(self) -> bool {
        forall|i: int, j: int|
            0 <= i < j < self.entries@.len() ==> self.entries@[i].file@ != self.entries@[j].file@
    }

    pub open spec fn keys(self) -> Seq<Seq<char>> {
        self.entries@.map_values(|e: ImportEntry| e.file@)
    }

    pub open spec fn contains_key(self, k: Seq<char>) -> bool {
        exists|i: int| 0 <= i < self.entries@.len() && self.entries@[i].file@ == k
    }

    pub open spec fn key_index(self, k: Seq<char>) -> int {
        choose|i: int| 0 <= i < self.entries@.len() && self.entries@[i].file@ == k
    }

    /// The import list recorded for key `k`.
    pub open spec fn imports_of(self, k: Seq<char>) -> Seq<Seq<char>> {
        self.entries@[self.key_index(k)].imports.deep_view()
    }

    proof fn lemma_key_index_of(self, i: int)
        requires
            self.wf(),
            0 <= i < self.entries@.len(),
        ensures
            self.contains_key(self.entries@[i].file@),
            self.key_index(self.entries@[i].file@) == i,
    {
        let k = self.entries@[i].file@;
        assert(self.contains_key(k));
        let j = self.key_index(k);
        if i < j {
            assert(self.entries@[i].file@ != self.entries@[j].file@);
        } else if j < i {
            assert(self.entries@[j].file@ != self.entries@[i].file@);
        }
    }

    pub fn new() -> (t: ImportTable)
        ensures
            t.wf(),
            t.entries@.len() == 0,
    {
        ImportTable { entries: Vec::new() }
    }

    /// Record one file's import list. The file must not be present yet.
    pub fn add(&mut self, file: String, imports: Vec<String>)
        requires
            old(self).wf(),
            !old(self).contains_key(file@),
        ensures
            final(self).wf(),
            forall|k: Seq<char>| #[trigger]
                final(self).contains_key(k) == (old(self).contains_key(k) || k == file@),
            final(self).imports_of(file@) == imports.deep_view(),
            forall|k: Seq<char>|
                old(self).contains_key(k) ==> #[trigger] final(self).imports_of(k) == old(
                    self,
                ).imports_of(k),
    {
        let ghost pre = *self;
        let ghost imps = imports@;
        self.entries.push(ImportEntry { file, imports });
        proof {
            let n = pre.entries@.len() as int;
            assert(forall|j: int| 0 <= j < n ==> self.entries@[j] == pre.entries@[j]);
            assert forall|i: int, j: int|
                0 <= i < j < self.entries@.len() implies self.entries@[i].file@
                != self.entries@[j].file@ by {
                if j == n {
                    if self.entries@[i].file@ == self.entries@[n].file@ {
                        assert(pre.contains_key(self.entries@[n].file@));
                    }
                }
            }
            assert forall|k: Seq<char>| #[trigger] self.contains_key(k) == (pre.contains_key(k)
                || k == self.entries@[n].file@) by {
                if self.contains_key(k) {
                    let a = choose|a: int|
                        0 <= a < self.entries@.len() && self.entries@[a].file@ == k;
                    if a < n {
                        assert(pre.contains_key(k));
                    }
                }
                if pre.contains_key(k) {
                    let a = choose|a: int|
                        0 <= a < pre.entries@.len() && pre.entries@[a].file@ == k;
                    assert(self.entries@[a].file@ == k);
                }
            }
            self.lemma_key_index_of(n);
            assert forall|k: Seq<char>|
                pre.contains_key(k) implies #[trigger] self.imports_of(k) == pre.imports_of(
                k,
            ) by {
                let a = pre.key_index(k);
                pre.lemma_key_index_of(a);
                self.lemma_key_index_of(a);
            }
        }
    }

    /// The import list of a file, if the table holds one.
    pub fn lookup(&self, file: &String) -> (r: Option<&Vec<String>>)
        requires
            self.wf(),
        ensures
            r is Some <==> self.contains_key(file@),
            match r {
                Some(v) => self.contains_key(file@) && v.deep_view() == self.imports_of(file@),
                None => true,
            },
    {
        let mut i: usize = 0;
        while i < self.entries.len()
            invariant
                self.wf(),
                i <= self.entries@.len(),
                forall|j: int| 0 <= j < i ==> self.entries@[j].file@ != file@,
            decreases self.entries@.len() - i,
        {
            if self.entries[i].file == *file {
                proof {
                    self.lemma_key_index_of(i as int);
                }
                return Some(&self.entries[i].imports);
            }
            i = i + 1;
        }
        None
    }
}

/// Drive a whole traversal over a pre-parsed project, starting from the
/// entry file.
///
/// The run terminates on every input, cycles included: a file enters the
/// visited set at most once, and only files of the table are ever
/// dispatched. On success the final state holds the finished graph: its
/// keys are exactly the visited files with at least one import, each key's
/// recorded list is that file's imports with their resolution-induced
/// tags, every local target of a visited file is itself visited, and every
/// visited file except the entry is some visited file's local target. A
/// dispatched file that the table has no import list for — a file the
/// parser could not handle — aborts the run, naming the file.
#[verifier::rlimit(60)]
pub fn run(entry: String, root: String, table: &ImportTable, fs: &Fs) -> (res: Result<
    Traversal,
    String,
>)
    requires
        table.wf(),
    ensures
        match res {
            Ok(t) => {
                &&& t.wf()
                &&& t.root@ == root@
                &&& t.pending_seq().len() == 0
                &&& t.visited_seq().len() >= 1
                &&& t.visited_seq()[0] == entry@
                &&& forall|i: int|
                    0 <= i < t.visited_seq().len() ==> table.contains_key(
                        #[trigger] t.visited_seq()[i],
                    )
                &&& forall|k: Seq<char>| #[trigger]
                    t.graph.contains_key(k) ==> t.visited_seq().contains(k) && table.imports_of(
                        k,
                    ).len() > 0
                &&& forall|i: int|
                    0 <= i < t.visited_seq().len() && table.imports_of(
                        #[trigger] t.visited_seq()[i],
                    ).len() > 0 ==> t.graph.contains_key(t.visited_seq()[i])
                &&& forall|k: Seq<char>| #[trigger]
                    t.graph.contains_key(k) ==> well_recorded(
                        t.graph.deps_of(k),
                        table.imports_of(k),
                        parent_of(k),
                        root@,
                        *fs,
                    )
                &&& forall|i: int, tgt: Seq<char>|
                    0 <= i < t.visited_seq().len() && #[trigger] local_targets(
                        table.imports_of(t.visited_seq()[i]),
                        parent_of(t.visited_seq()[i]),
                        root@,
                        *fs,
                    ).contains(tgt) ==> t.visited_seq().contains(tgt)
                &&& forall|i: int|
                    #![trigger t.visited_seq()[i]]
                    1 <= i < t.visited_seq().len() ==> exists|j: int|
                        0 <= j < t.visited_seq().len() && local_targets(
                            table.imports_of(t.visited_seq()[j]),
                            parent_of(t.visited_seq()[j]),
                            root@,
                            *fs,
                        ).contains(t.visited_seq()[i])
            },
            Err(f) => {
                &&& !table.contains_key(f@)
                &&& (f@ == entry@ || exists|d: Seq<char>|
                    table.contains_key(d) && #[trigger] local_targets(
                        table.imports_of(d),
                        parent_of(d),
                        root@,
                        *fs,
                    ).contains(f@))
            },
        },
{
    let ghost entry0 = entry@;
    let ghost root0 = root@;
    let mut t = Traversal::new(entry, root);
    proof {
        assert(t.pending_seq() =~= seq![entry0]);
    }
    #[verifier::loop_isolation(false)]
    loop
        invariant
            t.wf(),
            t.root@ == root0,
            forall|i: int|
                0 <= i < t.visited_seq().len() ==> table.contains_key(
                    #[trigger] t.visited_seq()[i],
                ),
            (t.visited_seq().len() == 0 && t.pending_seq() == seq![entry0]) || (t.visited_seq().len()
                >= 1 && t.visited_seq()[0] == entry0),
            forall|k: Seq<char>| #[trigger]
                t.graph.contains_key(k) ==> t.visited_seq().contains(k) && table.imports_of(
                    k,
                ).len() > 0,
            forall|i: int|
                0 <= i < t.visited_seq().len() && table.imports_of(
                    #[trigger] t.visited_seq()[i],
                ).len() > 0 ==> t.graph.contains_key(t.visited_seq()[i]),
            forall|k: Seq<char>| #[trigger]
                t.graph.contains_key(k) ==> well_recorded(
                    t.graph.deps_of(k),
                    table.imports_of(k),
                    parent_of(k),
                    root0,
                    *fs,
                ),
            forall|i: int, tgt: Seq<char>|
                0 <= i < t.visited_seq().len() && #[trigger] local_targets(
                    table.imports_of(t.visited_seq()[i]),
                    parent_of(t.visited_seq()[i]),
                    root0,
                    *fs,
                ).contains(tgt) ==> t.visited_seq().contains(tgt) || t.pending_seq().contains(tgt),
            forall|i: int|
                #![trigger t.visited_seq()[i]]
                1 <= i < t.visited_seq().len() ==> exists|j: int|
                    0 <= j < t.visited_seq().len() && local_targets(
                        table.imports_of(t.visited_seq()[j]),
                        parent_of(t.visited_seq()[j]),
                        root0,
                        *fs,
                    ).contains(t.visited_seq()[i]),
            forall|p: Seq<char>| #[trigger]
                t.pending_seq().contains(p) ==> p == entry0 || exists|j: int|
                    0 <= j < t.visited_seq().len() && local_targets(
                        table.imports_of(t.visited_seq()[j]),
                        parent_of(t.visited_seq()[j]),
                        root0,
                        *fs,
                    ).contains(p),
        decreases count_unvisited(table.keys(), t.visited_seq()), t.pending_seq().len() + 1,
    {
        let ghost tpre = t;
        match t.next_file() {
            None => {
                proof {
                    assert(t.visited_seq().len() >= 1) by {
                        if t.visited_seq().len() == 0 {
                            assert(tpre.pending_seq()[0] == entry0);
                            assert(tpre.visited_seq().contains(entry0));
                        }
                    }
                    assert forall|i: int, tgt: Seq<char>|
                        0 <= i < t.visited_seq().len() && #[trigger] local_targets(
                            table.imports_of(t.visited_seq()[i]),
                            parent_of(t.visited_seq()[i]),
                            root0,
                            *fs,
                        ).contains(tgt) implies t.visited_seq().contains(tgt) by {
                        if tpre.pending_seq().contains(tgt) {
                            let j = choose|j: int|
                                0 <= j < tpre.pending_seq().len() && tpre.pending_seq()[j] == tgt;
                            assert(tpre.visited_seq().contains(tgt));
                        }
                    }
                }
                return Ok(t);
            },
            Some(f) => {
                proof {
                    assert(!tpre.visited_seq().contains(f@));
                }
                match table.lookup(&f) {
                    None => {
                        proof {
                            // f was scheduled, so it is the entry or a
                            // local target of some visited (table) file
                            let k = choose|k: int|
                                {
                                    &&& 0 <= k < tpre.pending_seq().len()
                                    &&& tpre.pending_seq()[k] == f@
                                    &&& t.pending_seq() == tpre.pending_seq().take(k)
                                    &&& forall|j: int|
                                        k < j < tpre.pending_seq().len() ==> tpre.visited_seq().contains(
                                            #[trigger] tpre.pending_seq()[j],
                                        )
                                };
                            assert(tpre.pending_seq().contains(f@)) by {
                                assert(tpre.pending_seq()[k] == f@);
                            }
                            if f@ != entry0 {
                                let j = choose|j: int|
                                    0 <= j < tpre.visited_seq().len() && local_targets(
                                        table.imports_of(tpre.visited_seq()[j]),
                                        parent_of(tpre.visited_seq()[j]),
                                        root0,
                                        *fs,
                                    ).contains(f@);
                                assert(table.contains_key(tpre.visited_seq()[j]));
                            }
                        }
                        return Err(f);
                    },
                    Some(imps) => {
                        let ghost tmid = t;
                        t.supply_imports(&f, imps, fs);
                        proof {
                            let vis = t.visited_seq();
                            let nold = tpre.visited_seq().len() as int;
                            assert(vis == tpre.visited_seq().push(f@));
                            assert(vis.len() == nold + 1);
                            assert(vis[nold] == f@);
                            assert(forall|i: int|
                                0 <= i < nold ==> vis[i] == #[trigger] tpre.visited_seq()[i]);
                            // f is a key of the table
                            assert(table.contains_key(f@));
                            let fi = table.key_index(f@);
                            assert(table.entries@[fi].file@ == f@);
                            assert(table.keys()[fi] == f@);
                            assert(table.keys().contains(f@));
                            assert(imps.deep_view() == table.imports_of(f@));
                            // the termination measure shrank
                            lemma_count_push_lt(table.keys(), tpre.visited_seq(), f@);
                            // f was scheduled: recover where it sat in the stack
                            let k = choose|k: int|
                                {
                                    &&& 0 <= k < tpre.pending_seq().len()
                                    &&& tpre.pending_seq()[k] == f@
                                    &&& tmid.pending_seq() == tpre.pending_seq().take(k)
                                    &&& forall|j: int|
                                        k < j < tpre.pending_seq().len() ==> tpre.visited_seq().contains(
                                            #[trigger] tpre.pending_seq()[j],
                                        )
                                };
                            let lt = local_targets(
                                table.imports_of(f@),
                                parent_of(f@),
                                root0,
                                *fs,
                            );
                            assert(t.pending_seq() == tmid.pending_seq() + rev(lt));
                            // membership in the new stack
                            assert forall|p: Seq<char>|
                                tmid.pending_seq().contains(p) implies #[trigger] t.pending_seq().contains(
                                p,
                            ) by {
                                let a = choose|a: int|
                                    0 <= a < tmid.pending_seq().len() && tmid.pending_seq()[a]
                                        == p;
                                assert(t.pending_seq()[a] == p);
                            }
                            assert forall|p: Seq<char>|
                                lt.contains(p) implies #[trigger] t.pending_seq().contains(p) by {
                                lemma_rev_contains(lt, p);
                                let a = choose|a: int| 0 <= a < rev(lt).len() && rev(lt)[a] == p;
                                assert(t.pending_seq()[tmid.pending_seq().len() + a] == p);
                            }
                            assert forall|p: Seq<char>| #[trigger]
                                t.pending_seq().contains(p) implies tmid.pending_seq().contains(p)
                                || lt.contains(p) by {
                                let a = choose|a: int|
                                    0 <= a < t.pending_seq().len() && t.pending_seq()[a] == p;
                                if a < tmid.pending_seq().len() {
                                    assert(tmid.pending_seq()[a] == p);
                                } else {
                                    let b = a - tmid.pending_seq().len();
                                    assert(rev(lt)[b] == p);
                                    lemma_rev_contains(lt, p);
                                }
                            }
                            // old stack members survive or were visited or are f
                            assert forall|p: Seq<char>| #[trigger]
                                tpre.pending_seq().contains(p) implies t.pending_seq().contains(p)
                                || tpre.visited_seq().contains(p) || p == f@ by {
                                let a = choose|a: int|
                                    0 <= a < tpre.pending_seq().len() && tpre.pending_seq()[a]
                                        == p;
                                if a < k {
                                    assert(tmid.pending_seq()[a] == p);
                                } else if a > k {
                                    assert(tpre.visited_seq().contains(p));
                                }
                            }
                            // visited membership after the push
                            assert forall|p: Seq<char>| #[trigger]
                                tpre.visited_seq().contains(p) implies vis.contains(p) by {
                                lemma_contains_push(tpre.visited_seq(), f@, p);
                            }
                            assert(vis.contains(f@)) by {
                                lemma_contains_push(tpre.visited_seq(), f@, f@);
                            }
                            // entry stays first
                            assert(vis.len() >= 1);
                            if nold == 0 {
                                assert(tpre.pending_seq() == seq![entry0]);
                                assert(k == 0);
                                assert(f@ == entry0);
                                assert(vis[0] == entry0);
                            } else {
                                assert(vis[0] == tpre.visited_seq()[0]);
                            }
                            // graph keys still point at visited files
                            assert forall|kk: Seq<char>| #[trigger]
                                t.graph.contains_key(kk) implies vis.contains(kk)
                                && table.imports_of(kk).len() > 0 by {
                                if tpre.graph.contains_key(kk) {
                                    assert(tpre.visited_seq().contains(kk));
                                    lemma_contains_push(tpre.visited_seq(), f@, kk);
                                } else {
                                    assert(kk == f@ && imps@.len() > 0);
                                    assert(imps.deep_view().len() == imps@.len());
                                }
                            }
                            // visited files with imports are keys
                            assert forall|i: int|
                                0 <= i < vis.len() && table.imports_of(
                                    #[trigger] vis[i],
                                ).len() > 0 implies t.graph.contains_key(vis[i]) by {
                                if i < nold {
                                    assert(tpre.graph.contains_key(vis[i]));
                                } else {
                                    assert(vis[i] == f@);
                                    assert(imps.deep_view().len() > 0);
                                }
                            }
                            // recorded content
                            assert forall|kk: Seq<char>| #[trigger]
                                t.graph.contains_key(kk) implies well_recorded(
                                t.graph.deps_of(kk),
                                table.imports_of(kk),
                                parent_of(kk),
                                root0,
                                *fs,
                            ) by {
                                if tpre.graph.contains_key(kk) {
                                    assert(tpre.visited_seq().contains(kk));
                                    assert(kk != f@);
                                    assert(t.graph.deps_of(kk) == tpre.graph.deps_of(kk));
                                } else {
                                    assert(kk == f@);
                                    assert(!tpre.graph.contains_key(f@));
                                    let ds = t.graph.deps_of(f@);
                                    assert(ds.skip(0) =~= ds);
                                }
                            }
                            // closure for every visited file
                            assert forall|i: int, tgt: Seq<char>|
                                0 <= i < vis.len() && #[trigger] local_targets(
                                    table.imports_of(vis[i]),
                                    parent_of(vis[i]),
                                    root0,
                                    *fs,
                                ).contains(tgt) implies vis.contains(tgt)
                                || t.pending_seq().contains(tgt) by {
                                if i < nold {
                                    assert(tpre.visited_seq()[i] == vis[i]);
                                    if tpre.visited_seq().contains(tgt) {
                                        lemma_contains_push(tpre.visited_seq(), f@, tgt);
                                    } else {
                                        assert(tpre.pending_seq().contains(tgt));
                                    }
                                } else {
                                    assert(vis[i] == f@);
                                }
                            }
                            // every visited file except the entry is a target
                            assert forall|i: int|
                                #![trigger vis[i]]
                                1 <= i < vis.len() implies exists|j: int|
                                    0 <= j < vis.len() && local_targets(
                                        table.imports_of(vis[j]),
                                        parent_of(vis[j]),
                                        root0,
                                        *fs,
                                    ).contains(vis[i]) by {
                                if i < nold {
                                    let j = choose|j: int|
                                        0 <= j < nold && local_targets(
                                            table.imports_of(tpre.visited_seq()[j]),
                                            parent_of(tpre.visited_seq()[j]),
                                            root0,
                                            *fs,
                                        ).contains(tpre.visited_seq()[i]);
                                    assert(vis[j] == tpre.visited_seq()[j]);
                                    assert(local_targets(
                                        table.imports_of(vis[j]),
                                        parent_of(vis[j]),
                                        root0,
                                        *fs,
                                    ).contains(vis[i]));
                                } else {
                                    assert(vis[i] == f@);
                                    assert(tpre.pending_seq().contains(f@)) by {
                                        assert(tpre.pending_seq()[k] == f@);
                                    }
                                    assert(f@ != entry0) by {
                                        if f@ == entry0 {
                                            assert(tpre.visited_seq()[0] == entry0);
                                            assert(tpre.visited_seq().contains(entry0));
                                        }
                                    }
                                    let j = choose|j: int|
                                        0 <= j < nold && local_targets(
                                            table.imports_of(tpre.visited_seq()[j]),
                                            parent_of(tpre.visited_seq()[j]),
                                            root0,
                                            *fs,
                                        ).contains(f@);
                                    assert(vis[j] == tpre.visited_seq()[j]);
                                    assert(local_targets(
                                        table.imports_of(vis[j]),
                                        parent_of(vis[j]),
                                        root0,
                                        *fs,
                                    ).contains(vis[i]));
                                }
                            }
                            // the stack still holds only the entry and targets
                            assert forall|p: Seq<char>| #[trigger]
                                t.pending_seq().contains(p) implies p == entry0 || exists|j: int|
                                0 <= j < vis.len() && local_targets(
                                    table.imports_of(vis[j]),
                                    parent_of(vis[j]),
                                    root0,
                                    *fs,
                                ).contains(p) by {
                                if tmid.pending_seq().contains(p) {
                                    assert(tpre.pending_seq().contains(p)) by {
                                        let a = choose|a: int|
                                            0 <= a < tmid.pending_seq().len()
                                                && tmid.pending_seq()[a] == p;
                                        assert(tpre.pending_seq()[a] == p);
                                    }
                                    if p != entry0 {
                                        let j = choose|j: int|
                                            0 <= j < nold && local_targets(
                                                table.imports_of(tpre.visited_seq()[j]),
                                                parent_of(tpre.visited_seq()[j]),
                                                root0,
                                                *fs,
                                            ).contains(p);
                                        assert(vis[j] == tpre.visited_seq()[j]);
                                        assert(local_targets(
                                            table.imports_of(vis[j]),
                                            parent_of(vis[j]),
                                            root0,
                                            *fs,
                                        ).contains(p));
                                    }
                                } else {
                                    assert(lt.contains(p));
                                    assert(vis[nold] == f@);
                                    assert(local_targets(
                                        table.imports_of(vis[nold]),
                                        parent_of(vis[nold]),
                                        root0,
                                        *fs,
                                    ).contains(p));
                                }
                            }
                        }
                    },
                }
            },
        }
    }
}

} // verus!
