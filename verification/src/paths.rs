//! Lexical path manipulation.
//!
//! A path is a string; `/` separates segments. The canonical identity of a
//! file is its lexically normalized path: empty and `.` segments are
//! dropped, and `..` removes the preceding segment where one exists (on a
//! relative path, leading `..` segments are kept; on an absolute path they
//! are clamped at the root). Normalization is the pure stand-in for
//! filesystem canonicalization, so that two relative spellings of the same
//! target compare equal as graph keys.

use vstd::prelude::*;

verus! {

/// The one-character segment `.`.
pub open spec fn dot() -> Seq<char> {
    seq!['.']
}

/// The two-character segment `..`.
pub open spec fn dotdot() -> Seq<char> {
    seq!['.', '.']
}

/// A path is absolute when it starts with `/`.
pub open spec fn is_abs(s: Seq<char>) -> bool {
    s.len() > 0 && s[0] == '/'
}

/// Split a path into its `/`-separated segments. The result always has at
/// least one segment; empty segments stand for leading, trailing or doubled
/// separators.
pub open spec fn split_path(s: Seq<char>) -> Seq<Seq<char>>
    decreases s.len(),
{
    if s.len() == 0 {
        seq![Seq::<char>::empty()]
    } else if s.last() == '/' {
        split_path(s.drop_last()).push(Seq::<char>::empty())
    } else {
        let r = split_path(s.drop_last());
        r.update(r.len() - 1, r.last().push(s.last()))
    }
}

proof fn lemma_split_path_len(s: Seq<char>)
    ensures
        split_path(s).len() >= 1,
    decreases s.len(),
{
    if s.len() > 0 {
        lemma_split_path_len(s.drop_last());
    }
}

/// Fold one segment into a stack of already-normalized segments.
pub open spec fn step_seg(acc: Seq<Seq<char>>, seg: Seq<char>, abs: bool) -> Seq<Seq<char>> {
    if seg.len() == 0 || seg == dot() {
        acc
    } else if seg == dotdot() {
        if acc.len() > 0 && acc.last() != dotdot() {
            acc.drop_last()
        } else if abs {
            acc
        } else {
            acc.push(seg)
        }
    } else {
        acc.push(seg)
    }
}

/// Normalize a sequence of segments, left to right.
pub open spec fn norm_segs(segs: Seq<Seq<char>>, abs: bool) -> Seq<Seq<char>>
    decreases segs.len(),
{
    if segs.len() == 0 {
        Seq::<Seq<char>>::empty()
    } else {
        step_seg(norm_segs(segs.drop_last(), abs), segs.last(), abs)
    }
}

/// Reassemble segments into a path string, with a leading `/` when the path
/// is absolute. An empty segment list becomes `/` (absolute) or the empty
/// string (relative).
pub open spec fn unsplit(segs: Seq<Seq<char>>, abs: bool) -> Seq<char>
    decreases segs.len(),
{
    if segs.len() == 0 {
        if abs {
            seq!['/']
        } else {
            Seq::<char>::empty()
        }
    } else if segs.len() == 1 {
        (if abs {
            seq!['/']
        } else {
            Seq::<char>::empty()
        }) + segs[0]
    } else {
        unsplit(segs.drop_last(), abs) + seq!['/'] + segs.last()
    }
}

/// Lexically normalized form of a path string.
pub open spec fn normalize_spec(s: Seq<char>) -> Seq<char> {
    unsplit(norm_segs(split_path(s), is_abs(s)), is_abs(s))
}

/// Lexical join: `base`, a separator, `rel`, then normalization.
pub open spec fn join_spec(base: Seq<char>, rel: Seq<char>) -> Seq<char> {
    normalize_spec(base + seq!['/'] + rel)
}

/// Directory that contains the path: its join with `..`.
pub open spec fn parent_of(p: Seq<char>) -> Seq<char> {
    join_spec(p, dotdot())
}

/// Turn a string into the vector of its characters.
fn chars_of(s: &str) -> (r: Vec<char>)
    ensures
        r@ == s@,
{
    let n = s.unicode_len();
    let mut r: Vec<char> = Vec::new();
    let mut i: usize = 0;
    while i < n
        invariant
            n == s@.len(),
            i <= n,
            r@ == s@.take(i as int),
        decreases n - i,
    {
        let c = s.get_char(i);
        r.push(c);
        i = i + 1;
        proof {
            assert(r@ =~= s@.take(i as int));
        }
    }
    proof {
        assert(s@.take(n as int) =~= s@);
    }
    r
}

/// Relies on `core::iter::Iterator::collect` building a `String` from a
/// sequence of `char`s in order, so the result's characters are exactly the
/// input vector's.
#[verifier::external_body]
fn string_from_chars(cs: &Vec<char>) -> (r: String)
    ensures
        r@ == cs@,
{
    cs.iter().collect()
}

fn seg_is_empty_or_dot(v: &Vec<char>) -> (r: bool)
    ensures
        r == (v@.len() == 0 || v@ == dot()),
{
    if v.len() == 0 {
        true
    } else if v.len() == 1 && v[0] == '.' {
        proof {
            assert(v@ =~= dot());
        }
        true
    } else {
        proof {
            if v@ == dot() {
                assert(v@.len() == 1 && v@[0] == '.');
            }
        }
        false
    }
}

fn seg_is_dotdot(v: &Vec<char>) -> (r: bool)
    ensures
        r == (v@ == dotdot()),
{
    if v.len() == 2 && v[0] == '.' && v[1] == '.' {
        proof {
            assert(v@ =~= dotdot());
        }
        true
    } else {
        proof {
            if v@ == dotdot() {
                assert(v@.len() == 2 && v@[0] == '.' && v@[1] == '.');
            }
        }
        false
    }
}

/// Fold one finished segment into the segment stack, as `step_seg` does.
fn apply_seg(segs: &mut Vec<Vec<char>>, seg: Vec<char>, abs: bool)
    ensures
        final(segs).deep_view() == step_seg(old(segs).deep_view(), seg@, abs),
{
    if seg_is_empty_or_dot(&seg) {
    } else if seg_is_dotdot(&seg) {
        let n = segs.len();
        if n > 0 && !seg_is_dotdot(&segs[n - 1]) {
            proof {
                assert(old(segs).deep_view().len() == n);
                assert(old(segs).deep_view().last() =~= old(segs)@[n as int - 1]@);
            }
            segs.pop();
            proof {
                assert(segs.deep_view() =~= old(segs).deep_view().drop_last());
            }
        } else if abs {
            proof {
                if n > 0 {
                    assert(old(segs).deep_view().last() =~= old(segs)@[n as int - 1]@);
                }
            }
        } else {
            proof {
                if n > 0 {
                    assert(old(segs).deep_view().last() =~= old(segs)@[n as int - 1]@);
                }
            }
            segs.push(seg);
            proof {
                assert(segs.deep_view() =~~= old(segs).deep_view().push(seg@));
            }
        }
    } else {
        segs.push(seg);
        proof {
            assert(segs.deep_view() =~~= old(segs).deep_view().push(seg@));
        }
    }
}

/// Lexically normalize a path given as its character vector.
fn normalize_chars(v: &Vec<char>) -> (r: Vec<char>)
    ensures
        r@ == normalize_spec(v@),
{
    let abs = v.len() > 0 && v[0] == '/';
    proof {
        assert(abs == is_abs(v@));
    }
    let mut segs: Vec<Vec<char>> = Vec::new();
    let mut cur: Vec<char> = Vec::new();
    let mut i: usize = 0;
    proof {
        assert(v@.take(0) =~= Seq::<char>::empty());
        assert(split_path(v@.take(0)) =~= seq![Seq::<char>::empty()]);
        assert(split_path(v@.take(0)).drop_last() =~= Seq::<Seq<char>>::empty());
    }
    while i < v.len()
        invariant
            i <= v@.len(),
            abs == is_abs(v@),
            split_path(v@.take(i as int)).len() >= 1,
            segs.deep_view() == norm_segs(split_path(v@.take(i as int)).drop_last(), abs),
            cur@ == split_path(v@.take(i as int)).last(),
        decreases v@.len() - i,
    {
        let c = v[i];
        let ghost t = v@.take(i as int);
        let ghost t1 = v@.take(i as int + 1);
        proof {
            assert(t1 =~= t.push(c));
            assert(t1.drop_last() =~= t);
            assert(t1.last() == c);
            lemma_split_path_len(t1);
        }
        if c == '/' {
            proof {
                assert(split_path(t1) == split_path(t).push(Seq::<char>::empty()));
                assert(split_path(t1).drop_last() =~= split_path(t));
                // the completed segments gain `cur`:
                assert(split_path(t) =~= split_path(t).drop_last().push(cur@));
                assert(norm_segs(split_path(t), abs) == step_seg(
                    norm_segs(split_path(t).drop_last(), abs),
                    cur@,
                    abs,
                )) by {
                    assert(split_path(t).drop_last().push(cur@).drop_last() =~= split_path(
                        t,
                    ).drop_last());
                }
            }
            apply_seg(&mut segs, cur, abs);
            cur = Vec::new();
        } else {
            proof {
                let r = split_path(t);
                assert(split_path(t1) == r.update(r.len() - 1, r.last().push(c)));
                assert(split_path(t1).drop_last() =~= r.drop_last());
                assert(split_path(t1).last() == r.last().push(c));
            }
            cur.push(c);
        }
        i = i + 1;
    }
    proof {
        assert(v@.take(v@.len() as int) =~= v@);
        lemma_split_path_len(v@);
        assert(split_path(v@) =~= split_path(v@).drop_last().push(cur@));
        assert(norm_segs(split_path(v@), abs) == step_seg(
            norm_segs(split_path(v@).drop_last(), abs),
            cur@,
            abs,
        )) by {
            assert(split_path(v@).drop_last().push(cur@).drop_last() =~= split_path(
                v@,
            ).drop_last());
        }
    }
    apply_seg(&mut segs, cur, abs);
    let ghost ns = norm_segs(split_path(v@), abs);
    proof {
        assert(segs.deep_view() == ns);
    }
    let mut out: Vec<char> = Vec::new();
    if abs {
        out.push('/');
    }
    proof {
        assert(ns.take(0) =~= Seq::<Seq<char>>::empty());
        if abs {
            assert(out@ =~= seq!['/']);
        } else {
            assert(out@ =~= Seq::<char>::empty());
        }
    }
    let mut k: usize = 0;
    while k < segs.len()
        invariant
            k <= segs@.len(),
            segs.deep_view() == ns,
            out@ == unsplit(ns.take(k as int), abs),
        decreases segs@.len() - k,
    {
        if k > 0 {
            out.push('/');
        }
        let mut j: usize = 0;
        let ghost out0 = out@;
        while j < segs[k].len()
            invariant
                k < segs@.len(),
                segs.deep_view() == ns,
                j <= segs@[k as int]@.len(),
                out@ == out0 + segs@[k as int]@.take(j as int),
            decreases segs@[k as int]@.len() - j,
        {
            let c = segs[k][j];
            out.push(c);
            j = j + 1;
            proof {
                assert(out@ =~= out0 + segs@[k as int]@.take(j as int));
            }
        }
        proof {
            assert(segs@[k as int]@.take(segs@[k as int]@.len() as int) =~= segs@[k as int]@);
            assert(segs@[k as int]@ =~= ns[k as int]);
            let t1 = ns.take(k as int + 1);
            assert(t1.drop_last() =~= ns.take(k as int));
            assert(t1.last() == ns[k as int]);
            if k == 0 {
                assert(out@ =~= unsplit(t1, abs));
            } else {
                assert(out@ =~= unsplit(ns.take(k as int), abs) + seq!['/'] + ns[k as int]);
                assert(out@ =~= unsplit(t1, abs));
            }
        }
        k = k + 1;
    }
    proof {
        assert(ns.take(ns.len() as int) =~= ns);
    }
    out
}

/// Lexically normalize a path string.
pub fn normalize_path(s: &String) -> (r: String)
    ensures
        r@ == normalize_spec(s@),
{
    let cs = chars_of(s.as_str());
    let n = normalize_chars(&cs);
    string_from_chars(&n)
}

/// Join a base path and a relative reference, normalizing the result.
pub fn join_path(base: &String, rel: &String) -> (r: String)
    ensures
        r@ == join_spec(base@, rel@),
{
    let mut v = chars_of(base.as_str());
    v.push('/');
    let mut w = chars_of(rel.as_str());
    v.append(&mut w);
    proof {
        assert(v@ =~= base@ + seq!['/'] + rel@);
    }
    let n = normalize_chars(&v);
    string_from_chars(&n)
}

/// Directory containing the given path: its join with `..`.
pub fn parent_dir(p: &String) -> (r: String)
    ensures
        r@ == parent_of(p@),
{
    let up = String::from_str("..");
    proof {
        reveal_strlit("..");
        assert(up@ =~= dotdot());
    }
    join_path(p, &up)
}

} // verus!
