//! Aggregate statistics over a finished graph: how often each distinct
//! specifier string is referenced, across every file's recorded list,
//! local and external specifiers counted in one pool. The report is sorted
//! by descending count; equal counts are ordered by ascending specifier
//! string, a deterministic tie-break.

use vstd::prelude::*;

use crate::graph::{Dep, Graph, GraphEntry};

verus! {

/// How many specifiers of the list have exactly this name.
pub open spec fn count_in_deps(ds: Seq<Dep>, n: Seq<char>) -> nat
    decreases ds.len(),
{
    if ds.len() == 0 {
        0
    } else {
        count_in_deps(ds.drop_last(), n) + (if ds.last().name@ == n {
            1nat
        } else {
            0nat
        })
    }
}

/// How many edges of the entries reference this specifier string.
pub open spec fn count_in_entries(es: Seq<GraphEntry>, n: Seq<char>) -> nat
    decreases es.len(),
{
    if es.len() == 0 {
        0
    } else {
        count_in_entries(es.drop_last(), n) + count_in_deps(es.last().deps@, n)
    }
}

/// The aggregated count of one specifier string over the whole graph.
pub open spec fn count_in_graph(g: Graph, n: Seq<char>) -> nat {
    count_in_entries(g.entries@, n)
}

/// The total number of recorded edges.
pub open spec fn total_deps(es: Seq<GraphEntry>) -> nat
    decreases es.len(),
{
    if es.len() == 0 {
        0
    } else {
        total_deps(es.drop_last()) + es.last().deps@.len()
    }
}

proof fn lemma_count_deps_le_len(ds: Seq<Dep>, n: Seq<char>)
    ensures
        count_in_deps(ds, n) <= ds.len(),
    decreases ds.len(),
{
    if ds.len() > 0 {
        lemma_count_deps_le_len(ds.drop_last(), n);
    }
}

proof fn lemma_count_entries_le_total(es: Seq<GraphEntry>, n: Seq<char>)
    ensures
        count_in_entries(es, n) <= total_deps(es),
    decreases es.len(),
{
    if es.len() > 0 {
        lemma_count_entries_le_total(es.drop_last(), n);
        lemma_count_deps_le_len(es.last().deps@, n);
    }
}

proof fn lemma_total_take_succ(es: Seq<GraphEntry>, m: int)
    requires
        0 <= m < es.len(),
    ensures
        total_deps(es.take(m + 1)) == total_deps(es.take(m)) + es[m].deps@.len(),
{
    assert(es.take(m + 1).drop_last() =~= es.take(m));
    assert(es.take(m + 1).last() == es[m]);
}

proof fn lemma_total_take_le(es: Seq<GraphEntry>, m: int)
    requires
        0 <= m <= es.len(),
    ensures
        total_deps(es.take(m)) <= total_deps(es),
    decreases es.len() - m,
{
    if m == es.len() {
        assert(es.take(m) =~= es);
    } else {
        lemma_total_take_succ(es, m);
        lemma_total_take_le(es, m + 1);
    }
}

/// One line of the report: a specifier string and its reference count.
#[derive(Debug)]
pub struct StatEntry {
    pub name: String,
    pub count: usize,
}

/// Whether some line carries this name.
pub open spec fn has_stat(s: Seq<StatEntry>, n: Seq<char>) -> bool {
    exists|i: int| 0 <= i < s.len() && s[i].name@ == n
}

/// Names are distinct.
pub open spec fn stats_wf(s: Seq<StatEntry>) -> bool {
    forall|i: int, j: int| 0 <= i < j < s.len() ==> s[i].name@ != s[j].name@
}

/// Every line's count is the true aggregate count in the graph, and is
/// positive.
pub open spec fn stats_counts_ok(s: Seq<StatEntry>, g: Graph) -> bool {
    forall|i: int|
        0 <= i < s.len() ==> (#[trigger] s[i]).count == count_in_graph(g, s[i].name@) && s[i].count
            > 0
}

/// Every referenced specifier string has a line.
pub open spec fn stats_complete(s: Seq<StatEntry>, g: Graph) -> bool {
    forall|n: Seq<char>| #[trigger] count_in_graph(g, n) > 0 ==> has_stat(s, n)
}

/// Lexicographic order on character sequences, by code point.
pub open spec fn lex_le(a: Seq<char>, b: Seq<char>) -> bool
    decreases a.len(),
{
    if a.len() == 0 {
        true
    } else if b.len() == 0 {
        false
    } else if a[0] == b[0] {
        lex_le(a.skip(1), b.skip(1))
    } else {
        (a[0] as u32) < (b[0] as u32)
    }
}

/// The report's order: descending count, then ascending name.
pub open spec fn stat_le(a: StatEntry, b: StatEntry) -> bool {
    a.count > b.count || (a.count == b.count && lex_le(a.name@, b.name@))
}

/// The order on names is total.
pub proof fn lemma_lex_total(a: Seq<char>, b: Seq<char>)
    ensures
        lex_le(a, b) || lex_le(b, a),
    decreases a.len(),
{
    if a.len() > 0 && b.len() > 0 {
        if a[0] == b[0] {
            lemma_lex_total(a.skip(1), b.skip(1));
        } else {
            vstd::utf8::char_u32_cast(a[0], a[0] as u32);
            vstd::utf8::char_u32_cast(b[0], b[0] as u32);
            assert((a[0] as u32) != (b[0] as u32));
        }
    }
}

/// The order on names is transitive.
pub proof fn lemma_lex_trans(a: Seq<char>, b: Seq<char>, c: Seq<char>)
    requires
        lex_le(a, b),
        lex_le(b, c),
    ensures
        lex_le(a, c),
    decreases a.len(),
{
    if a.len() > 0 {
        assert(b.len() > 0);
        assert(c.len() > 0);
        if a[0] == b[0] && b[0] == c[0] {
            lemma_lex_trans(a.skip(1), b.skip(1), c.skip(1));
        }
    }
}

/// The report's order is total.
pub proof fn lemma_stat_le_total(a: StatEntry, b: StatEntry)
    ensures
        stat_le(a, b) || stat_le(b, a),
{
    lemma_lex_total(a.name@, b.name@);
}

/// The report's order is transitive.
pub proof fn lemma_stat_le_trans(a: StatEntry, b: StatEntry, c: StatEntry)
    requires
        stat_le(a, b),
        stat_le(b, c),
    ensures
        stat_le(a, c),
{
    if a.count == b.count && b.count == c.count {
        lemma_lex_trans(a.name@, b.name@, c.name@);
    }
}

/// Compare two strings in the lexicographic order.
fn str_lex_le(a: &String, b: &String) -> (r: bool)
    ensures
        r == lex_le(a@, b@),
{
    let na = a.as_str().unicode_len();
    let nb = b.as_str().unicode_len();
    let mut i: usize = 0;
    proof {
        assert(a@.skip(0) =~= a@);
        assert(b@.skip(0) =~= b@);
    }
    #[verifier::loop_isolation(false)]
    loop
        invariant
            na == a@.len(),
            nb == b@.len(),
            i <= na,
            i <= nb,
            lex_le(a@, b@) == lex_le(a@.skip(i as int), b@.skip(i as int)),
        decreases na - i,
    {
        let ghost sa = a@.skip(i as int);
        let ghost sb = b@.skip(i as int);
        if i == na {
            proof {
                assert(sa.len() == 0);
            }
            return true;
        }
        if i == nb {
            proof {
                assert(sa.len() > 0 && sb.len() == 0);
            }
            return false;
        }
        let ca = a.as_str().get_char(i);
        let cb = b.as_str().get_char(i);
        proof {
            assert(sa.len() > 0 && sb.len() > 0);
            assert(sa[0] == a@[i as int]);
            assert(sb[0] == b@[i as int]);
        }
        if ca != cb {
            return (ca as u32) < (cb as u32);
        }
        proof {
            assert(sa.skip(1) =~= a@.skip(i as int + 1));
            assert(sb.skip(1) =~= b@.skip(i as int + 1));
        }
        i = i + 1;
    }
}

/// Compare two report lines in the report's order.
fn stat_le_exec(a: &StatEntry, b: &StatEntry) -> (r: bool)
    ensures
        r == stat_le(*a, *b),
{
    if a.count > b.count {
        true
    } else if a.count == b.count {
        str_lex_le(&a.name, &b.name)
    } else {
        false
    }
}

/// Index of the line carrying this name, if any.
fn find_stat(acc: &Vec<StatEntry>, name: &String) -> (r: Option<usize>)
    ensures
        match r {
            Some(i) => i < acc@.len() && acc@[i as int].name@ == name@,
            None => !has_stat(acc@, name@),
        },
{
    let mut i: usize = 0;
    while i < acc.len()
        invariant
            i <= acc@.len(),
            forall|j: int| 0 <= j < i ==> acc@[j].name@ != name@,
        decreases acc@.len() - i,
    {
        if acc[i].name == *name {
            return Some(i);
        }
        i = i + 1;
    }
    proof {
        if has_stat(acc@, name@) {
            let j = choose|j: int| 0 <= j < acc@.len() && acc@[j].name@ == name@;
            assert(acc@[j].name@ == name@);
        }
    }
    None
}

/// The total number of recorded edges, when it fits the machine.
pub fn total_dep_count(g: &Graph) -> (r: Option<usize>)
    ensures
        match r {
            Some(s) => s == total_deps(g.entries@),
            None => total_deps(g.entries@) > usize::MAX,
        },
{
    let mut sum: usize = 0;
    let mut m: usize = 0;
    proof {
        assert(g.entries@.take(0) =~= Seq::<GraphEntry>::empty());
    }
    #[verifier::loop_isolation(false)]
    while m < g.entries.len()
        invariant
            m <= g.entries@.len(),
            sum == total_deps(g.entries@.take(m as int)),
        decreases g.entries@.len() - m,
    {
        let d = g.entries[m].deps.len();
        proof {
            lemma_total_take_succ(g.entries@, m as int);
        }
        if d > usize::MAX - sum {
            proof {
                lemma_total_take_le(g.entries@, m as int + 1);
            }
            return None;
        }
        sum = sum + d;
        m = m + 1;
    }
    proof {
        assert(g.entries@.take(g.entries@.len() as int) =~= g.entries@);
    }
    Some(sum)
}

/// The order on names is reflexive.
pub proof fn lemma_lex_refl(a: Seq<char>)
    ensures
        lex_le(a, a),
    decreases a.len(),
{
    if a.len() > 0 {
        lemma_lex_refl(a.skip(1));
    }
}

/// Count every recorded specifier of the graph, one line per distinct
/// string.
fn count_stats(g: &Graph) -> (r: Vec<StatEntry>)
    requires
        total_deps(g.entries@) <= usize::MAX,
    ensures
        stats_wf(r@),
        stats_counts_ok(r@, *g),
        stats_complete(r@, *g),
{
    let ghost es = g.entries@;
    let mut acc: Vec<StatEntry> = Vec::new();
    let mut m: usize = 0;
    proof {
        assert(es.take(0) =~= Seq::<GraphEntry>::empty());
    }
    #[verifier::loop_isolation(false)]
    while m < g.entries.len()
        invariant
            m <= es.len(),
            stats_wf(acc@),
            forall|i2: int|
                0 <= i2 < acc@.len() ==> (#[trigger] acc@[i2]).count == count_in_entries(
                    es.take(m as int),
                    acc@[i2].name@,
                ) && acc@[i2].count > 0,
            forall|n: Seq<char>| #[trigger]
                count_in_entries(es.take(m as int), n) > 0 ==> has_stat(acc@, n),
        decreases es.len() - m,
    {
        let ghost ds = es[m as int].deps@;
        let mut j: usize = 0;
        proof {
            assert(ds.take(0) =~= Seq::<Dep>::empty());
        }
        #[verifier::loop_isolation(false)]
        while j < g.entries[m].deps.len()
            invariant
                m < es.len(),
                j <= ds.len(),
                stats_wf(acc@),
                forall|i2: int|
                    0 <= i2 < acc@.len() ==> (#[trigger] acc@[i2]).count == count_in_entries(
                        es.take(m as int),
                        acc@[i2].name@,
                    ) + count_in_deps(ds.take(j as int), acc@[i2].name@) && acc@[i2].count > 0,
                forall|n: Seq<char>|
                    count_in_entries(es.take(m as int), n) + #[trigger] count_in_deps(
                        ds.take(j as int),
                        n,
                    ) > 0 ==> has_stat(acc@, n),
            decreases ds.len() - j,
        {
            let name = &g.entries[m].deps[j].name;
            let ghost dj = ds.take(j as int);
            let ghost dj1 = ds.take(j as int + 1);
            proof {
                assert(dj1.drop_last() =~= dj);
                assert(dj1.last() == ds[j as int]);
                assert(ds[j as int].name@ == name@);
                // counting one more edge stays within the machine bound
                lemma_count_entries_le_total(es.take(m as int), name@);
                lemma_total_take_le(es, m as int + 1);
                lemma_total_take_succ(es, m as int);
                lemma_count_deps_le_len(dj, name@);
            }
            let ghost accpre = acc@;
            match find_stat(&acc, name) {
                Some(i) => {
                    let mut e = acc.remove(i);
                    e.count = e.count + 1;
                    let ghost enew = e;
                    acc.insert(i, e);
                    proof {
                        assert(acc@ =~= accpre.update(i as int, enew));
                        assert(enew.name@ == name@);
                        assert forall|i2: int, j2: int|
                            0 <= i2 < j2 < acc@.len() implies acc@[i2].name@
                            != acc@[j2].name@ by {
                            assert(acc@[i2].name@ == accpre[i2].name@);
                            assert(acc@[j2].name@ == accpre[j2].name@);
                        }
                        assert forall|i2: int|
                            0 <= i2 < acc@.len() implies (#[trigger] acc@[i2]).count
                            == count_in_entries(es.take(m as int), acc@[i2].name@)
                            + count_in_deps(dj1, acc@[i2].name@) && acc@[i2].count > 0 by {
                            if i2 == i {
                                assert(acc@[i2] == enew);
                            } else {
                                assert(acc@[i2] == accpre[i2]);
                                assert(accpre[i2].name@ != name@);
                            }
                        }
                        assert forall|n: Seq<char>|
                            count_in_entries(es.take(m as int), n) + #[trigger] count_in_deps(
                                dj1,
                                n,
                            ) > 0 implies has_stat(acc@, n) by {
                            if n == name@ {
                                assert(acc@[i as int].name@ == n);
                            } else {
                                assert(count_in_deps(dj1, n) == count_in_deps(dj, n));
                                if count_in_entries(es.take(m as int), n) + count_in_deps(dj, n)
                                    > 0 {
                                    let a = choose|a: int|
                                        0 <= a < accpre.len() && accpre[a].name@ == n;
                                    assert(acc@[a].name@ == n);
                                }
                            }
                        }
                    }
                },
                None => {
                    proof {
                        // an absent name has count zero so far
                        if count_in_entries(es.take(m as int), name@) + count_in_deps(dj, name@)
                            > 0 {
                            assert(has_stat(accpre, name@));
                        }
                    }
                    acc.push(StatEntry { name: name.clone(), count: 1 });
                    proof {
                        let ln = accpre.len() as int;
                        assert(acc@.len() == ln + 1);
                        assert(acc@[ln].name@ == name@);
                        assert(forall|i2: int| 0 <= i2 < ln ==> acc@[i2] == accpre[i2]);
                        assert forall|i2: int, j2: int|
                            0 <= i2 < j2 < acc@.len() implies acc@[i2].name@
                            != acc@[j2].name@ by {
                            if j2 == ln {
                                if acc@[i2].name@ == name@ {
                                    assert(has_stat(accpre, name@));
                                }
                            }
                        }
                        assert forall|i2: int|
                            0 <= i2 < acc@.len() implies (#[trigger] acc@[i2]).count
                            == count_in_entries(es.take(m as int), acc@[i2].name@)
                            + count_in_deps(dj1, acc@[i2].name@) && acc@[i2].count > 0 by {
                            if i2 == ln {
                                assert(count_in_entries(es.take(m as int), name@)
                                    + count_in_deps(dj, name@) == 0);
                            } else {
                                assert(acc@[i2] == accpre[i2]);
                                assert(accpre[i2].name@ != name@) by {
                                    if accpre[i2].name@ == name@ {
                                        assert(has_stat(accpre, name@));
                                    }
                                }
                            }
                        }
                        assert forall|n: Seq<char>|
                            count_in_entries(es.take(m as int), n) + #[trigger] count_in_deps(
                                dj1,
                                n,
                            ) > 0 implies has_stat(acc@, n) by {
                            if n == name@ {
                                assert(acc@[ln].name@ == n);
                            } else {
                                assert(count_in_deps(dj1, n) == count_in_deps(dj, n));
                                if count_in_entries(es.take(m as int), n) + count_in_deps(dj, n)
                                    > 0 {
                                    let a = choose|a: int|
                                        0 <= a < accpre.len() && accpre[a].name@ == n;
                                    assert(acc@[a].name@ == n);
                                }
                            }
                        }
                    }
                },
            }
            j = j + 1;
        }
        proof {
            assert(ds.take(ds.len() as int) =~= ds);
            assert forall|n: Seq<char>| #[trigger] count_in_entries(es.take(m as int + 1), n)
                == count_in_entries(es.take(m as int), n) + count_in_deps(ds, n) by {
                assert(es.take(m as int + 1).drop_last() =~= es.take(m as int));
                assert(es.take(m as int + 1).last() == es[m as int]);
            }
        }
        m = m + 1;
    }
    proof {
        assert(es.take(es.len() as int) =~= es);
    }
    acc
}

/// Order the report: descending count, ties by ascending name.
fn sort_stats(v: Vec<StatEntry>, Ghost(g): Ghost<Graph>) -> (r: Vec<StatEntry>)
    requires
        stats_wf(v@),
        stats_counts_ok(v@, g),
        stats_complete(v@, g),
    ensures
        stats_wf(r@),
        stats_counts_ok(r@, g),
        stats_complete(r@, g),
        forall|i: int, j: int| 0 <= i < j < r@.len() ==> stat_le(r@[i], r@[j]),
{
    let mut work = v;
    let mut out: Vec<StatEntry> = Vec::new();
    #[verifier::loop_isolation(false)]
    while work.len() > 0
        invariant
            stats_wf(work@),
            stats_wf(out@),
            forall|i: int, j: int|
                0 <= i < out@.len() && 0 <= j < work@.len() ==> (#[trigger] out@[i]).name@ != (
                #[trigger] work@[j]).name@,
            stats_counts_ok(work@, g),
            stats_counts_ok(out@, g),
            forall|n: Seq<char>| #[trigger]
                count_in_graph(g, n) > 0 ==> has_stat(out@, n) || has_stat(work@, n),
            forall|i: int, j: int| 0 <= i < j < out@.len() ==> stat_le(out@[i], out@[j]),
            forall|i: int, j: int|
                0 <= i < out@.len() && 0 <= j < work@.len() ==> stat_le(
                    #[trigger] out@[i],
                    #[trigger] work@[j],
                ),
        decreases work@.len(),
    {
        let mut best: usize = 0;
        let mut k: usize = 1;
        proof {
            lemma_lex_refl(work@[0].name@);
            assert(stat_le(work@[0], work@[0]));
        }
        #[verifier::loop_isolation(false)]
        while k < work.len()
            invariant
                work@.len() > 0,
                best < k,
                k <= work@.len(),
                forall|k2: int| 0 <= k2 < k ==> stat_le(work@[best as int], #[trigger] work@[k2]),
            decreases work@.len() - k,
        {
            if stat_le_exec(&work[k], &work[best]) {
                proof {
                    assert forall|k2: int|
                        0 <= k2 < k + 1 implies stat_le(work@[k as int], #[trigger] work@[k2]) by {
                        if k2 < k {
                            lemma_stat_le_trans(work@[k as int], work@[best as int], work@[k2]);
                        } else {
                            lemma_lex_refl(work@[k as int].name@);
                        }
                    }
                }
                best = k;
            } else {
                proof {
                    lemma_stat_le_total(work@[best as int], work@[k as int]);
                }
            }
            k = k + 1;
        }
        proof {
            lemma_lex_refl(work@[best as int].name@);
            assert(stat_le(work@[best as int], work@[best as int]));
        }
        let ghost wpre = work@;
        let ghost opre = out@;
        let e = work.remove(best);
        let ghost ev = e;
        out.push(e);
        proof {
            let b = best as int;
            assert(ev == wpre[b]);
            assert(out@ == opre.push(ev));
            assert(work@ == wpre.remove(b));
            assert(work@.len() == wpre.len() - 1);
            assert forall|j: int| 0 <= j < work@.len() implies #[trigger] work@[j] == (if j < b {
                wpre[j]
            } else {
                wpre[j + 1]
            }) by {}
            assert forall|i: int, j: int|
                0 <= i < j < work@.len() implies work@[i].name@ != work@[j].name@ by {
                let i0 = if i < b { i } else { i + 1 };
                let j0 = if j < b { j } else { j + 1 };
                assert(work@[i] == wpre[i0] && work@[j] == wpre[j0]);
            }
            assert forall|i: int, j: int|
                0 <= i < out@.len() && 0 <= j < work@.len() implies (#[trigger] out@[i]).name@
                != (#[trigger] work@[j]).name@ by {
                let j0 = if j < b { j } else { j + 1 };
                assert(work@[j] == wpre[j0]);
                if i < opre.len() {
                    assert(out@[i] == opre[i]);
                } else {
                    assert(out@[i] == ev);
                    assert(ev.name@ == wpre[b].name@);
                    if b < j0 {
                        assert(wpre[b].name@ != wpre[j0].name@);
                    } else {
                        assert(wpre[j0].name@ != wpre[b].name@);
                    }
                }
            }
            assert forall|n: Seq<char>| #[trigger] count_in_graph(g, n) > 0 implies has_stat(
                out@,
                n,
            ) || has_stat(work@, n) by {
                if has_stat(opre, n) {
                    let a = choose|a: int| 0 <= a < opre.len() && opre[a].name@ == n;
                    assert(out@[a].name@ == n);
                } else if has_stat(wpre, n) {
                    let a = choose|a: int| 0 <= a < wpre.len() && wpre[a].name@ == n;
                    if a == b {
                        assert(out@[opre.len() as int].name@ == n);
                    } else if a < b {
                        assert(work@[a].name@ == n);
                    } else {
                        assert(work@[a - 1].name@ == n);
                    }
                }
            }
            assert forall|i: int, j: int|
                0 <= i < j < out@.len() implies stat_le(out@[i], out@[j]) by {
                if j < opre.len() {
                    assert(out@[i] == opre[i] && out@[j] == opre[j]);
                } else {
                    assert(out@[j] == ev);
                    assert(out@[i] == opre[i]);
                    assert(stat_le(opre[i], wpre[b]));
                }
            }
            assert forall|i: int, j: int|
                0 <= i < out@.len() && 0 <= j < work@.len() implies stat_le(
                    #[trigger] out@[i],
                    #[trigger] work@[j],
                ) by {
                let j0 = if j < b { j } else { j + 1 };
                assert(work@[j] == wpre[j0]);
                if i < opre.len() {
                    assert(out@[i] == opre[i]);
                    assert(stat_le(opre[i], wpre[j0]));
                } else {
                    assert(out@[i] == ev);
                    assert(stat_le(wpre[b], wpre[j0]));
                }
            }
        }
    }
    out
}

/// The report over a finished graph: one line per distinct specifier
/// string with its total reference count, sorted by descending count,
/// ties by ascending name. The total number of recorded edges must fit
/// the machine; `aggregate_checked` tests that first.
pub fn aggregate(g: &Graph) -> (r: Vec<StatEntry>)
    requires
        total_deps(g.entries@) <= usize::MAX,
    ensures
        stats_wf(r@),
        stats_counts_ok(r@, *g),
        stats_complete(r@, *g),
        forall|i: int, j: int| 0 <= i < j < r@.len() ==> stat_le(r@[i], r@[j]),
{
    let c = count_stats(g);
    sort_stats(c, Ghost(*g))
}

/// The report, or nothing when the graph holds more edges than a machine
/// count can say.
pub fn aggregate_checked(g: &Graph) -> (r: Option<Vec<StatEntry>>)
    ensures
        match r {
            Some(v) => {
                &&& stats_wf(v@)
                &&& stats_counts_ok(v@, *g)
                &&& stats_complete(v@, *g)
                &&& forall|i: int, j: int| 0 <= i < j < v@.len() ==> stat_le(v@[i], v@[j])
            },
            None => total_deps(g.entries@) > usize::MAX,
        },
{
    match total_dep_count(g) {
        Some(_) => Some(aggregate(g)),
        None => None,
    }
}

} // verus!
