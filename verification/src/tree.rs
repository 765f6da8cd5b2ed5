//! Trees: mappings from repository paths to merge values.
//!
//! A tree is a list of entries sorted by path, each carrying a possibly
//! conflicted merge value. Paths that carry the resolved absent value are not
//! stored, so lookup of any unmentioned path yields resolved absence. The
//! three-way tree merge applies the per-path value merge over the union of the
//! operands' paths.

use vstd::prelude::*;

use crate::merge::clone_merge_value;
use crate::merge::merge_absent;
use crate::merge::merge_val;
use crate::merge::merge_values;
use crate::merge::mv_absent;
use crate::merge::mv_eq;
use crate::merge::mv_wf;
use crate::merge::EntryVal;
use crate::merge::EntryValue;
use crate::merge::MergeVal;
use crate::merge::MergeValue;

verus! {

/// One path of a tree with its merge value.
#[derive(Debug)]
pub struct TreeEntry {
    pub path: usize,
    pub value: MergeValue,
}

/// A tree: entries sorted strictly by path.
pub struct Tree {
    pub entries: Vec<TreeEntry>,
}

impl View for Tree {
    type V = Seq<(usize, MergeVal)>;

    open spec fn view(&self) -> Seq<(usize, MergeVal)> {
        Seq::new(self.entries@.len(), |i: int| (self.entries@[i].path, self.entries@[i].value@))
    }
}

/// Entries stand in strictly increasing path order.
pub open spec fn paths_sorted(tv: Seq<(usize, MergeVal)>) -> bool {
    forall|i: int, j: int| 0 <= i < j < tv.len() ==> tv[i].0 < tv[j].0
}

/// Sorted, every value well-formed, and no stored resolved absence.
pub open spec fn tree_wf(tv: Seq<(usize, MergeVal)>) -> bool {
    &&& paths_sorted(tv)
    &&& forall|i: int| 0 <= i < tv.len() ==> mv_wf(#[trigger] tv[i].1)
    &&& forall|i: int| 0 <= i < tv.len() ==> (#[trigger] tv[i].1) != mv_absent()
}

/// The merge value of a path: the stored entry, or resolved absence.
pub open spec fn tv_get(tv: Seq<(usize, MergeVal)>, p: usize) -> MergeVal
    decreases tv.len(),
{
    if tv.len() == 0 {
        mv_absent()
    } else if tv[0].0 == p {
        tv[0].1
    } else {
        tv_get(tv.drop_first(), p)
    }
}

pub proof fn lemma_tv_get_missing(tv: Seq<(usize, MergeVal)>, p: usize)
    requires
        forall|i: int| 0 <= i < tv.len() ==> (#[trigger] tv[i].0) != p,
    ensures
        tv_get(tv, p) == mv_absent(),
    decreases tv.len(),
{
    if tv.len() > 0 {
        assert(tv[0].0 != p);
        assert(forall|i: int|
            0 <= i < tv.drop_first().len() ==> (#[trigger] tv.drop_first()[i].0) != p);
        lemma_tv_get_missing(tv.drop_first(), p);
    }
}

pub proof fn lemma_tv_get_found(tv: Seq<(usize, MergeVal)>, p: usize, i: int)
    requires
        0 <= i < tv.len(),
        tv[i].0 == p,
        forall|j: int| 0 <= j < i ==> (#[trigger] tv[j].0) != p,
    ensures
        tv_get(tv, p) == tv[i].1,
    decreases tv.len(),
{
    if i > 0 {
        assert(forall|j: int| 0 <= j < i - 1 ==> (#[trigger] tv.drop_first()[j].0) != p);
        lemma_tv_get_found(tv.drop_first(), p, i - 1);
    }
}

/// Look up the merge value of one path.
pub fn tree_get(t: &Tree, p: usize) -> (r: MergeValue)
    ensures
        r@ == tv_get(t@, p),
{
    let ghost tv = t@;
    let n = t.entries.len();
    let mut i: usize = 0;
    proof {
        assert(tv.skip(0) =~= tv);
    }
    while i < n
        invariant
            n == t.entries.len(),
            i <= n,
            tv == t@,
            tv_get(tv, p) == tv_get(tv.skip(i as int), p),
        decreases n - i,
    {
        proof {
            assert(tv.skip(i as int)[0] == tv[i as int]);
            assert(tv.skip(i as int).drop_first() =~= tv.skip(i + 1 as int));
        }
        if t.entries[i].path == p {
            let r = clone_merge_value(&t.entries[i].value);
            assert(tv_get(tv.skip(i as int), p) == tv[i as int].1);
            return r;
        }
        i += 1;
    }
    proof {
        assert(tv.skip(n as int) =~= Seq::<(usize, MergeVal)>::empty());
    }
    merge_absent()
}

/// Structural equality of two trees.
pub fn tree_eq(a: &Tree, b: &Tree) -> (r: bool)
    ensures
        r == (a@ == b@),
{
    if a.entries.len() != b.entries.len() {
        proof {
            assert(a@.len() == a.entries@.len() && b@.len() == b.entries@.len());
        }
        return false;
    }
    let n = a.entries.len();
    let mut i: usize = 0;
    while i < n
        invariant
            n == a.entries.len() == b.entries.len(),
            i <= n,
            forall|k: int| 0 <= k < i ==> a@[k] == b@[k],
        decreases n - i,
    {
        if a.entries[i].path != b.entries[i].path {
            assert(a@[i as int].0 != b@[i as int].0);
            return false;
        }
        if !mv_eq(&a.entries[i].value, &b.entries[i].value) {
            assert(a@[i as int].1 != b@[i as int].1);
            return false;
        }
        assert(a@[i as int] == b@[i as int]);
        i += 1;
    }
    assert(a@ =~= b@);
    true
}

pub fn clone_tree(t: &Tree) -> (r: Tree)
    ensures
        r@ == t@,
{
    let mut entries: Vec<TreeEntry> = Vec::new();
    let n = t.entries.len();
    let mut i: usize = 0;
    while i < n
        invariant
            n == t.entries.len(),
            i <= n,
            entries@.len() == i,
            forall|k: int|
                0 <= k < i ==> entries@[k].path == t.entries@[k].path && entries@[k].value@
                    == t.entries@[k].value@,
        decreases n - i,
    {
        entries.push(
            TreeEntry { path: t.entries[i].path, value: clone_merge_value(&t.entries[i].value) },
        );
        i += 1;
    }
    let r = Tree { entries };
    assert(r@ =~= t@);
    r
}

/// An empty tree: every path resolves to absence.
pub fn empty_tree() -> (r: Tree)
    ensures
        r@ =~= Seq::<(usize, MergeVal)>::empty(),
        tree_wf(r@),
{
    Tree { entries: Vec::new() }
}

/// Whether a merge value is the resolved absent value.
pub fn is_absent_value(m: &MergeValue) -> (r: bool)
    ensures
        r == (m@ == mv_absent()),
{
    if m.removes.len() != 0 || m.adds.len() != 1 {
        proof {
            assert(m@.removes.len() == m.removes@.len() && m@.adds.len() == m.adds@.len());
        }
        return false;
    }
    match &m.adds[0] {
        EntryValue::Absent => {
            assert(m@.adds =~= mv_absent().adds);
            assert(m@.removes =~= mv_absent().removes);
            assert(m@ =~= mv_absent());
            true
        },
        _ => {
            assert(m@.adds[0] != mv_absent().adds[0]);
            false
        },
    }
}

/// The sorted list of paths a tree mentions.
fn tree_paths(t: &Tree) -> (r: Vec<usize>)
    ensures
        r@.len() == t@.len(),
        forall|i: int| 0 <= i < r@.len() ==> r@[i] == t@[i].0,
    decreases t.entries.len(),
{
    let mut out: Vec<usize> = Vec::new();
    let n = t.entries.len();
    let mut i: usize = 0;
    while i < n
        invariant
            n == t.entries.len(),
            i <= n,
            out@.len() == i,
            forall|k: int| 0 <= k < i ==> out@[k] == t@[k].0,
        decreases n - i,
    {
        out.push(t.entries[i].path);
        i += 1;
    }
    out
}

pub open spec fn ids_sorted(s: Seq<usize>) -> bool {
    forall|i: int, j: int| 0 <= i < j < s.len() ==> s[i] < s[j]
}

/// Merge two strictly sorted id lists into their sorted union.
pub fn union_sorted(a: &Vec<usize>, b: &Vec<usize>) -> (r: Vec<usize>)
    requires
        ids_sorted(a@),
        ids_sorted(b@),
    ensures
        ids_sorted(r@),
        forall|p: usize| r@.contains(p) <==> a@.contains(p) || b@.contains(p),
{
    let na = a.len();
    let nb = b.len();
    let mut out: Vec<usize> = Vec::new();
    let mut i: usize = 0;
    let mut j: usize = 0;
    while i < na || j < nb
        invariant
            na == a.len(),
            nb == b.len(),
            ids_sorted(a@),
            ids_sorted(b@),
            i <= na,
            j <= nb,
            ids_sorted(out@),
            i < na ==> forall|k: int| 0 <= k < out@.len() ==> out@[k] < a@[i as int],
            j < nb ==> forall|k: int| 0 <= k < out@.len() ==> out@[k] < b@[j as int],
            forall|p: usize|
                out@.contains(p) <==> a@.subrange(0, i as int).contains(p) || b@.subrange(
                    0,
                    j as int,
                ).contains(p),
        decreases na - i + nb - j,
    {
        let ghost out0 = out@;
        let ghost i0 = i as int;
        let ghost j0 = j as int;
        if i < na && (j >= nb || a[i] <= b[j]) {
            let x = a[i];
            if j < nb && b[j] == x {
                j += 1;
            }
            out.push(x);
            i += 1;
            proof {
                assert forall|p: usize|
                    out@.contains(p) <==> (a@.subrange(0, i as int).contains(p) || b@.subrange(
                        0,
                        j as int,
                    ).contains(p)) by {
                    assert(a@.subrange(0, i as int) =~= a@.subrange(0, i0).push(x));
                    if j as int != j0 {
                        assert(b@.subrange(0, j as int) =~= b@.subrange(0, j0).push(x));
                    }
                    assert(out@ =~= out0.push(x));
                    if out@.contains(p) {
                        if p == x {
                            assert(a@.subrange(0, i as int)[i0] == x);
                        } else {
                            assert(out0.contains(p));
                        }
                    }
                    if a@.subrange(0, i as int).contains(p) && p != x {
                        let k = choose|k: int|
                            0 <= k < i as int && a@.subrange(0, i as int)[k] == p;
                        assert(a@.subrange(0, i0)[k] == p);
                    }
                    if b@.subrange(0, j as int).contains(p) && p != x {
                        let k = choose|k: int|
                            0 <= k < j as int && b@.subrange(0, j as int)[k] == p;
                        assert(b@.subrange(0, j0)[k] == p);
                    }
                    if out0.contains(p) || p == x {
                        assert(out@.contains(p)) by {
                            if p == x {
                                assert(out@[out@.len() - 1] == x);
                            } else {
                                let k = choose|k: int| 0 <= k < out0.len() && out0[k] == p;
                                assert(out@[k] == p);
                            }
                        }
                    }
                }
            }
        } else {
            let x = b[j];
            out.push(x);
            j += 1;
            proof {
                assert forall|p: usize|
                    out@.contains(p) <==> (a@.subrange(0, i as int).contains(p) || b@.subrange(
                        0,
                        j as int,
                    ).contains(p)) by {
                    assert(b@.subrange(0, j as int) =~= b@.subrange(0, j0).push(x));
                    assert(out@ =~= out0.push(x));
                    if out@.contains(p) {
                        if p == x {
                            assert(b@.subrange(0, j as int)[j0] == x);
                        } else {
                            assert(out0.contains(p));
                        }
                    }
                    if b@.subrange(0, j as int).contains(p) && p != x {
                        let k = choose|k: int|
                            0 <= k < j as int && b@.subrange(0, j as int)[k] == p;
                        assert(b@.subrange(0, j0)[k] == p);
                    }
                    if out0.contains(p) || p == x {
                        assert(out@.contains(p)) by {
                            if p == x {
                                assert(out@[out@.len() - 1] == x);
                            } else {
                                let k = choose|k: int| 0 <= k < out0.len() && out0[k] == p;
                                assert(out@[k] == p);
                            }
                        }
                    }
                }
            }
        }
    }
    proof {
        assert(a@.subrange(0, na as int) =~= a@);
        assert(b@.subrange(0, nb as int) =~= b@);
    }
    out
}

/// Whether a tree mentions a path.
pub open spec fn tv_has(tv: Seq<(usize, MergeVal)>, p: usize) -> bool {
    exists|i: int| 0 <= i < tv.len() && (#[trigger] tv[i].0) == p
}

pub proof fn lemma_tv_get_wf(tv: Seq<(usize, MergeVal)>, p: usize)
    requires
        tree_wf(tv),
    ensures
        mv_wf(tv_get(tv, p)),
    decreases tv.len(),
{
    if tv.len() > 0 && tv[0].0 != p {
        assert(tree_wf(tv.drop_first())) by {
            assert(forall|i: int|
                0 <= i < tv.drop_first().len() ==> #[trigger] tv.drop_first()[i] == tv[i + 1]);
        }
        lemma_tv_get_wf(tv.drop_first(), p);
    }
}

/// In a sorted tree, lookup of a mentioned path returns that entry's value.
pub proof fn lemma_tv_get_at(tv: Seq<(usize, MergeVal)>, i: int)
    requires
        paths_sorted(tv),
        0 <= i < tv.len(),
    ensures
        tv_get(tv, tv[i].0) == tv[i].1,
{
    assert(forall|j: int| 0 <= j < i ==> (#[trigger] tv[j].0) < tv[i].0);
    lemma_tv_get_found(tv, tv[i].0, i);
}

/// Three-way merge of two side trees against a base tree, path by path.
pub fn merge_trees(base: &Tree, a: &Tree, b: &Tree) -> (r: Tree)
    requires
        tree_wf(base@),
        tree_wf(a@),
        tree_wf(b@),
    ensures
        tree_wf(r@),
        forall|p: usize|
            tv_get(r@, p) == merge_val(tv_get(base@, p), tv_get(a@, p), tv_get(b@, p)),
{
    let pb = tree_paths(base);
    let pa = tree_paths(a);
    let pc = tree_paths(b);
    proof {
        assert(ids_sorted(pb@));
        assert(ids_sorted(pa@));
        assert(ids_sorted(pc@));
    }
    let u1 = union_sorted(&pb, &pa);
    let u = union_sorted(&u1, &pc);
    proof {
        assert forall|p: usize|
            u@.contains(p) <==> (tv_has(base@, p) || tv_has(a@, p) || tv_has(b@, p)) by {
            assert(pb@.contains(p) <==> tv_has(base@, p)) by {
                if pb@.contains(p) {
                    let k = choose|k: int| 0 <= k < pb@.len() && pb@[k] == p;
                    assert(base@[k].0 == p);
                }
                if tv_has(base@, p) {
                    let k = choose|k: int| 0 <= k < base@.len() && (#[trigger] base@[k].0) == p;
                    assert(pb@[k] == p);
                }
            }
            assert(pa@.contains(p) <==> tv_has(a@, p)) by {
                if pa@.contains(p) {
                    let k = choose|k: int| 0 <= k < pa@.len() && pa@[k] == p;
                    assert(a@[k].0 == p);
                }
                if tv_has(a@, p) {
                    let k = choose|k: int| 0 <= k < a@.len() && (#[trigger] a@[k].0) == p;
                    assert(pa@[k] == p);
                }
            }
            assert(pc@.contains(p) <==> tv_has(b@, p)) by {
                if pc@.contains(p) {
                    let k = choose|k: int| 0 <= k < pc@.len() && pc@[k] == p;
                    assert(b@[k].0 == p);
                }
                if tv_has(b@, p) {
                    let k = choose|k: int| 0 <= k < b@.len() && (#[trigger] b@[k].0) == p;
                    assert(pc@[k] == p);
                }
            }
        }
    }
    let nu = u.len();
    let mut entries: Vec<TreeEntry> = Vec::new();
    let mut k: usize = 0;
    while k < nu
        invariant
            nu == u.len(),
            k <= nu,
            ids_sorted(u@),
            tree_wf(base@),
            tree_wf(a@),
            tree_wf(b@),
            forall|e: int|
                0 <= e < entries@.len() ==> exists|m: int|
                    0 <= m < k && (#[trigger] entries@[e].path) == u@[m],
            forall|e1: int, e2: int|
                0 <= e1 < e2 < entries@.len() ==> entries@[e1].path < entries@[e2].path,
            forall|e: int|
                0 <= e < entries@.len() ==> (#[trigger] entries@[e].value@) == merge_val(
                    tv_get(base@, entries@[e].path),
                    tv_get(a@, entries@[e].path),
                    tv_get(b@, entries@[e].path),
                ) && entries@[e].value@ != mv_absent() && mv_wf(entries@[e].value@),
            forall|m: int|
                0 <= m < k && merge_val(
                    tv_get(base@, u@[m]),
                    tv_get(a@, u@[m]),
                    tv_get(b@, u@[m]),
                ) != mv_absent() ==> exists|e: int|
                    0 <= e < entries@.len() && (#[trigger] entries@[e].path) == u@[m],
        decreases nu - k,
    {
        let p = u[k];
        proof {
            lemma_tv_get_wf(base@, p);
            lemma_tv_get_wf(a@, p);
            lemma_tv_get_wf(b@, p);
        }
        let vb = tree_get(base, p);
        let va = tree_get(a, p);
        let vc = tree_get(b, p);
        let v = merge_values(&vb, &va, &vc);
        if !is_absent_value(&v) {
            let ghost entries0 = entries@;
            entries.push(TreeEntry { path: p, value: v });
            proof {
                assert(forall|e: int|
                    0 <= e < entries0.len() ==> entries@[e].path == entries0[e].path
                        && entries@[e].value@ == entries0[e].value@);
                assert(entries@[entries0.len() as int].path == p);
                assert forall|e1: int, e2: int|
                    0 <= e1 < e2 < entries@.len() implies entries@[e1].path
                    < entries@[e2].path by {
                    if e2 == entries0.len() as int {
                        let m = choose|m: int|
                            0 <= m < k && (#[trigger] entries0[e1].path) == u@[m];
                        assert(u@[m] < u@[k as int]);
                    }
                }
            }
        }
        k += 1;
    }
    let r = Tree { entries };
    proof {
        assert forall|p: usize|
            tv_get(r@, p) == merge_val(tv_get(base@, p), tv_get(a@, p), tv_get(b@, p)) by {
            if exists|e: int| 0 <= e < r@.len() && (#[trigger] r@[e].0) == p {
                let e = choose|e: int| 0 <= e < r@.len() && (#[trigger] r@[e].0) == p;
                lemma_tv_get_at(r@, e);
            } else {
                assert(forall|i: int| 0 <= i < r@.len() ==> (#[trigger] r@[i].0) != p);
                lemma_tv_get_missing(r@, p);
                if u@.contains(p) {
                    let m = choose|m: int| 0 <= m < u@.len() && u@[m] == p;
                    if merge_val(tv_get(base@, p), tv_get(a@, p), tv_get(b@, p)) != mv_absent() {
                        let e = choose|e: int|
                            0 <= e < entries@.len() && (#[trigger] entries@[e].path) == u@[m];
                        assert(r@[e].0 == p);
                    }
                } else {
                    assert(forall|i: int| 0 <= i < base@.len() ==> (#[trigger] base@[i].0) != p);
                    assert(forall|i: int| 0 <= i < a@.len() ==> (#[trigger] a@[i].0) != p);
                    assert(forall|i: int| 0 <= i < b@.len() ==> (#[trigger] b@[i].0) != p);
                    lemma_tv_get_missing(base@, p);
                    lemma_tv_get_missing(a@, p);
                    lemma_tv_get_missing(b@, p);
                }
            }
        }
    }
    r
}

/// Well-formed trees are determined by their lookup function: sorted entries
/// without stored absence form a normal form.
pub proof fn lemma_tree_determined(t1: Seq<(usize, MergeVal)>, t2: Seq<(usize, MergeVal)>)
    requires
        tree_wf(t1),
        tree_wf(t2),
        forall|p: usize| #[trigger] tv_get(t1, p) == tv_get(t2, p),
    ensures
        t1 == t2,
    decreases t1.len() + t2.len(),
{
    if t1.len() == 0 && t2.len() == 0 {
        assert(t1 =~= t2);
    } else if t1.len() == 0 {
        lemma_tv_get_at(t2, 0);
        assert(forall|i: int| 0 <= i < t1.len() ==> (#[trigger] t1[i].0) != t2[0].0);
        lemma_tv_get_missing(t1, t2[0].0);
        assert(false);
    } else if t2.len() == 0 {
        lemma_tv_get_at(t1, 0);
        assert(forall|i: int| 0 <= i < t2.len() ==> (#[trigger] t2[i].0) != t1[0].0);
        lemma_tv_get_missing(t2, t1[0].0);
        assert(false);
    } else {
        let p1 = t1[0].0;
        let p2 = t2[0].0;
        if p1 < p2 {
            lemma_tv_get_at(t1, 0);
            assert(forall|i: int| 0 <= i < t2.len() ==> (#[trigger] t2[i].0) != p1) by {
                assert(forall|i: int| 0 < i < t2.len() ==> t2[0].0 < (#[trigger] t2[i].0));
            }
            lemma_tv_get_missing(t2, p1);
            assert(false);
        } else if p2 < p1 {
            lemma_tv_get_at(t2, 0);
            assert(forall|i: int| 0 <= i < t1.len() ==> (#[trigger] t1[i].0) != p2) by {
                assert(forall|i: int| 0 < i < t1.len() ==> t1[0].0 < (#[trigger] t1[i].0));
            }
            lemma_tv_get_missing(t1, p2);
            assert(false);
        } else {
            lemma_tv_get_at(t1, 0);
            lemma_tv_get_at(t2, 0);
            assert(t1[0].1 == t2[0].1);
            let r1 = t1.drop_first();
            let r2 = t2.drop_first();
            assert(tree_wf(r1)) by {
                assert(forall|i: int| 0 <= i < r1.len() ==> (#[trigger] r1[i]) == t1[i + 1]);
            }
            assert(tree_wf(r2)) by {
                assert(forall|i: int| 0 <= i < r2.len() ==> (#[trigger] r2[i]) == t2[i + 1]);
            }
            assert forall|p: usize| #[trigger] tv_get(r1, p) == tv_get(r2, p) by {
                if p == p1 {
                    assert(forall|i: int| 0 <= i < r1.len() ==> (#[trigger] r1[i].0) != p) by {
                        assert(forall|i: int|
                            0 <= i < r1.len() ==> (#[trigger] r1[i]) == t1[i + 1] && t1[0].0 < t1[
                                i + 1
                            ].0);
                    }
                    assert(forall|i: int| 0 <= i < r2.len() ==> (#[trigger] r2[i].0) != p) by {
                        assert(forall|i: int|
                            0 <= i < r2.len() ==> (#[trigger] r2[i]) == t2[i + 1] && t2[0].0 < t2[
                                i + 1
                            ].0);
                    }
                    lemma_tv_get_missing(r1, p);
                    lemma_tv_get_missing(r2, p);
                } else {
                    assert(tv_get(t1, p) == tv_get(r1, p));
                    assert(tv_get(t2, p) == tv_get(r2, p));
                }
            }
            lemma_tree_determined(r1, r2);
            assert(t1.len() == t2.len());
            assert forall|i: int| 0 <= i < t1.len() implies #[trigger] t1[i] == t2[i] by {
                if i > 0 {
                    assert(t1[i] == r1[i - 1]);
                    assert(t2[i] == r2[i - 1]);
                } else {
                    assert(t1[0].0 == t2[0].0 && t1[0].1 == t2[0].1);
                }
            }
            assert(t1 =~= t2);
        }
    }
}

/// If a side left a path at the base value, the merged tree carries the other
/// side's value there: rebasing propagates an ancestor's change to every
/// descendant that did not touch the path itself.
/// A value with the executable bit forced on every file term.
pub open spec fn set_exec_val(v: EntryVal, bit: bool) -> EntryVal {
    match v {
        EntryVal::File { content, executable } => EntryVal::File { content, executable: bit },
        other => other,
    }
}

/// Every positive term is a file or an absent side of a conflict.
pub open spec fn adds_all_files(m: MergeVal) -> bool {
    forall|i: int|
        0 <= i < m.adds.len() ==> ((#[trigger] m.adds[i]) is File || m.adds[i] is Absent)
}

/// The merge value with the executable bit forced on every term.
pub open spec fn chmod_val(m: MergeVal, bit: bool) -> MergeVal {
    MergeVal {
        adds: Seq::new(m.adds.len(), |i: int| set_exec_val(m.adds[i], bit)),
        removes: Seq::new(m.removes.len(), |i: int| set_exec_val(m.removes[i], bit)),
    }
}

/// Force the executable bit on every file term of one value. Fails when some
/// positive term is neither a file nor absent.
fn chmod_value(m: &MergeValue, bit: bool) -> (r: Result<MergeValue, ()>)
    ensures
        match r {
            Ok(v) => adds_all_files(m@) && v@ == chmod_val(m@, bit),
            Err(()) => !adds_all_files(m@),
        },
{
    let na = m.adds.len();
    let mut adds: Vec<EntryValue> = Vec::new();
    let mut i: usize = 0;
    while i < na
        invariant
            na == m.adds.len(),
            i <= na,
            adds@.len() == i,
            forall|k: int| 0 <= k < i ==> ((#[trigger] m@.adds[k]) is File || m@.adds[k] is Absent),
            forall|k: int| 0 <= k < i ==> (#[trigger] adds@[k]@) == set_exec_val(m@.adds[k], bit),
        decreases na - i,
    {
        match &m.adds[i] {
            EntryValue::File { content, executable } => {
                adds.push(EntryValue::File { content: crate::merge::clone_bytes(content), executable: bit });
            },
            EntryValue::Absent => {
                adds.push(EntryValue::Absent);
            },
            EntryValue::Symlink { target } => {
                assert(m@.adds[i as int] is Symlink);
                return Err(());
            },
        }
        i += 1;
    }
    let nr = m.removes.len();
    let mut removes: Vec<EntryValue> = Vec::new();
    let mut j: usize = 0;
    while j < nr
        invariant
            nr == m.removes.len(),
            j <= nr,
            removes@.len() == j,
            forall|k: int|
                0 <= k < j ==> (#[trigger] removes@[k]@) == set_exec_val(m@.removes[k], bit),
        decreases nr - j,
    {
        match &m.removes[j] {
            EntryValue::File { content, executable } => {
                removes.push(EntryValue::File { content: crate::merge::clone_bytes(content), executable: bit });
            },
            other => {
                removes.push(crate::merge::clone_value(other));
                assert(removes@[j as int]@ == set_exec_val(m@.removes[j as int], bit));
            },
        }
        j += 1;
    }
    let r = MergeValue { adds, removes };
    assert(r@.adds =~= chmod_val(m@, bit).adds);
    assert(r@.removes =~= chmod_val(m@, bit).removes);
    assert(r@ =~= chmod_val(m@, bit));
    Ok(r)
}

/// Force the executable bit for the given paths of a tree. Fails on the first
/// matched path whose entry holds something besides files.
pub fn chmod_tree(t: &Tree, paths: &Vec<usize>, executable: bool) -> (r: Result<Tree, usize>)
    requires
        tree_wf(t@),
    ensures
        match r {
            Ok(rt) => {
                &&& tree_wf(rt@)
                &&& rt@.len() == t@.len()
                &&& forall|i: int|
                    0 <= i < t@.len() ==> (#[trigger] rt@[i]).0 == t@[i].0 && rt@[i].1 == (
                    if paths@.contains(t@[i].0) {
                        chmod_val(t@[i].1, executable)
                    } else {
                        t@[i].1
                    })
                &&& forall|i: int|
                    0 <= i < t@.len() && paths@.contains(#[trigger] t@[i].0) ==> adds_all_files(
                        t@[i].1,
                    )
            },
            Err(p) => exists|i: int|
                {
                    &&& 0 <= i < t@.len()
                    &&& (#[trigger] t@[i].0) == p
                    &&& paths@.contains(p)
                    &&& !adds_all_files(t@[i].1)
                    &&& forall|j: int|
                        0 <= j < i && paths@.contains(#[trigger] t@[j].0) ==> adds_all_files(
                            t@[j].1,
                        )
                },
        },
{
    let n = t.entries.len();
    let mut entries: Vec<TreeEntry> = Vec::new();
    let mut i: usize = 0;
    while i < n
        invariant
            n == t.entries.len(),
            tree_wf(t@),
            i <= n,
            entries@.len() == i,
            forall|k: int|
                0 <= k < i ==> (#[trigger] entries@[k].path) == t@[k].0 && entries@[k].value@ == (
                if paths@.contains(t@[k].0) {
                    chmod_val(t@[k].1, executable)
                } else {
                    t@[k].1
                }),
            forall|k: int|
                0 <= k < i && paths@.contains(#[trigger] t@[k].0) ==> adds_all_files(t@[k].1),
        decreases n - i,
    {
        let p = t.entries[i].path;
        if crate::ids::ids_contains(paths, p) {
            match chmod_value(&t.entries[i].value, executable) {
                Ok(v) => {
                    entries.push(TreeEntry { path: p, value: v });
                },
                Err(()) => {
                    proof {
                        let gi = i as int;
                        assert(0 <= gi < t@.len() && t@[gi].0 == p && paths@.contains(p)
                            && !adds_all_files(t@[gi].1) && (forall|j: int|
                            0 <= j < gi && paths@.contains(#[trigger] t@[j].0) ==> adds_all_files(
                                t@[j].1,
                            )));
                    }
                    return Err(p);
                },
            }
        } else {
            entries.push(
                TreeEntry { path: p, value: clone_merge_value(&t.entries[i].value) },
            );
        }
        i += 1;
    }
    let r = Tree { entries };
    proof {
        assert forall|k: int| 0 <= k < t@.len() implies mv_wf(#[trigger] r@[k].1) && r@[k].1
            != mv_absent() by {
            if paths@.contains(t@[k].0) {
                let m = t@[k].1;
                let c = chmod_val(m, executable);
                assert(c.adds.len() == m.adds.len() && c.removes.len() == m.removes.len());
                if c == mv_absent() {
                    assert(c.adds[0] == set_exec_val(m.adds[0], executable));
                    assert(m.adds[0] is Absent);
                    assert(m.adds =~= mv_absent().adds);
                    assert(m.removes =~= mv_absent().removes);
                    assert(m =~= mv_absent());
                }
            }
        }
    }
    Ok(r)
}

pub proof fn lemma_merge_trees_propagates(
    base: Seq<(usize, MergeVal)>,
    a: Seq<(usize, MergeVal)>,
    b: Seq<(usize, MergeVal)>,
    r: Seq<(usize, MergeVal)>,
    p: usize,
)
    requires
        forall|q: usize| tv_get(r, q) == merge_val(tv_get(base, q), tv_get(a, q), tv_get(b, q)),
        tv_get(b, p) == tv_get(base, p),
    ensures
        tv_get(r, p) == tv_get(a, p),
{
}

} // verus!
