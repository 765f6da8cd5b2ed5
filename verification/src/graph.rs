//! Ancestry and descendant closure over the commit graph.
//!
//! Parents always point strictly below their commit, so reachability can be
//! defined by recursion on ids and computed by one marking pass in id order.

use vstd::prelude::*;

use crate::ids::ids_contains;
use crate::store::store_wf;
use crate::store::Store;
use crate::store::StoreV;

verus! {

/// `a` is an ancestor of `b` (reflexively: every commit is its own ancestor).
pub open spec fn reachable(sv: StoreV, a: usize, b: usize) -> bool
    decreases b, 1int, 0int
        when store_wf(sv) && b < sv.commits.len()
{
    a == b || parent_reaches(sv, a, b, sv.commits[b as int].parents.len() as int)
}

/// `a` is reachable from one of the first `n` parents of `b`.
pub open spec fn parent_reaches(sv: StoreV, a: usize, b: usize, n: int) -> bool
    decreases b, 0int, n
        when store_wf(sv) && b < sv.commits.len() && 0 <= n <= sv.commits[b as int].parents.len()
{
    if n <= 0 {
        false
    } else {
        reachable(sv, a, sv.commits[b as int].parents[n - 1] as usize) || parent_reaches(
            sv,
            a,
            b,
            n - 1,
        )
    }
}

pub proof fn lemma_parent_reaches_exists(sv: StoreV, a: usize, b: usize, n: int)
    requires
        store_wf(sv),
        b < sv.commits.len(),
        0 <= n <= sv.commits[b as int].parents.len(),
    ensures
        parent_reaches(sv, a, b, n) <==> exists|k: int|
            0 <= k < n && reachable(sv, a, sv.commits[b as int].parents[k] as usize),
    decreases n,
{
    if n > 0 {
        lemma_parent_reaches_exists(sv, a, b, n - 1);
        if reachable(sv, a, sv.commits[b as int].parents[n - 1] as usize) {
            assert(0 <= n - 1 < n && reachable(
                sv,
                a,
                sv.commits[b as int].parents[n - 1] as usize,
            ));
        }
    }
}

/// An ancestor's id never exceeds the descendant's.
pub proof fn lemma_reachable_le(sv: StoreV, a: usize, b: usize)
    requires
        store_wf(sv),
        b < sv.commits.len(),
        reachable(sv, a, b),
    ensures
        a <= b,
    decreases b,
{
    if a != b {
        let n = sv.commits[b as int].parents.len() as int;
        lemma_parent_reaches_exists(sv, a, b, n);
        let k = choose|k: int|
            0 <= k < n && reachable(sv, a, sv.commits[b as int].parents[k] as usize);
        lemma_reachable_le(sv, a, sv.commits[b as int].parents[k] as usize);
    }
}

/// A parent is an ancestor.
pub proof fn lemma_parent_reachable(sv: StoreV, b: usize, k: int)
    requires
        store_wf(sv),
        b < sv.commits.len(),
        0 <= k < sv.commits[b as int].parents.len(),
    ensures
        reachable(sv, sv.commits[b as int].parents[k] as usize, b),
{
    let p = sv.commits[b as int].parents[k] as usize;
    assert(reachable(sv, p, p));
    lemma_parent_reaches_exists(sv, p, b, sv.commits[b as int].parents.len() as int);
}

/// Ancestry is transitive.
pub proof fn lemma_reachable_trans(sv: StoreV, a: usize, m: usize, b: usize)
    requires
        store_wf(sv),
        m < sv.commits.len(),
        b < sv.commits.len(),
        reachable(sv, a, m),
        reachable(sv, m, b),
    ensures
        reachable(sv, a, b),
    decreases b,
{
    if m != b {
        let n = sv.commits[b as int].parents.len() as int;
        lemma_parent_reaches_exists(sv, m, b, n);
        let k = choose|k: int|
            0 <= k < n && reachable(sv, m, sv.commits[b as int].parents[k] as usize);
        let p = sv.commits[b as int].parents[k] as usize;
        lemma_reachable_trans(sv, a, m, p);
        lemma_parent_reaches_exists(sv, a, b, n);
        assert(0 <= k < n && reachable(sv, a, sv.commits[b as int].parents[k] as usize));
    }
}

/// Bottom-up characterization: `a` reaches `b` exactly when `a` is `b` or the
/// parent of some commit that reaches `b`.
pub proof fn lemma_reachable_step(sv: StoreV, a: usize, b: usize)
    requires
        store_wf(sv),
        b < sv.commits.len(),
    ensures
        reachable(sv, a, b) <==> (a == b || exists|k: usize|
            k < sv.commits.len() && #[trigger] reachable(sv, k, b) && sv.commits[
                k as int
            ].parents.contains(a as usize)),
    decreases b,
{
    let n = sv.commits[b as int].parents.len() as int;
    lemma_parent_reaches_exists(sv, a, b, n);
    if reachable(sv, a, b) && a != b {
        let k = choose|k: int|
            0 <= k < n && reachable(sv, a, sv.commits[b as int].parents[k] as usize);
        let p = sv.commits[b as int].parents[k] as usize;
        if a == p {
            assert(reachable(sv, b, b));
            assert(sv.commits[b as int].parents[k] == a);
            assert(sv.commits[b as int].parents.contains(a as usize));
        } else {
            lemma_reachable_step(sv, a, p);
            let m = choose|m: usize|
                m < sv.commits.len() && #[trigger] reachable(sv, m, p) && sv.commits[
                    m as int
                ].parents.contains(a as usize);
            lemma_parent_reachable(sv, b, k);
            lemma_reachable_trans(sv, m, p, b);
        }
    }
    if a != b && exists|k: usize|
        k < sv.commits.len() && #[trigger] reachable(sv, k, b) && sv.commits[
            k as int
        ].parents.contains(a as usize) {
        let k = choose|k: usize|
            k < sv.commits.len() && #[trigger] reachable(sv, k, b) && sv.commits[
                k as int
            ].parents.contains(a as usize);
        let j = choose|j: int|
            0 <= j < sv.commits[k as int].parents.len() && sv.commits[k as int].parents[j] == a;
        lemma_parent_reachable(sv, k, j);
        lemma_reachable_trans(sv, a, k, b);
    }
}

/// Appending commits never changes ancestry between existing ones.
pub proof fn lemma_reachable_stable(sv1: StoreV, sv2: StoreV, a: usize, b: usize)
    requires
        store_wf(sv1),
        store_wf(sv2),
        sv1.commits.len() <= sv2.commits.len(),
        forall|i: int| 0 <= i < sv1.commits.len() ==> sv2.commits[i] == sv1.commits[i],
        b < sv1.commits.len(),
    ensures
        reachable(sv1, a, b) == reachable(sv2, a, b),
    decreases b,
{
    let n = sv1.commits[b as int].parents.len() as int;
    assert(sv2.commits[b as int] == sv1.commits[b as int]);
    lemma_parent_reaches_exists(sv1, a, b, n);
    lemma_parent_reaches_exists(sv2, a, b, n);
    assert forall|k: int| 0 <= k < n implies (reachable(
        sv1,
        a,
        sv1.commits[b as int].parents[k] as usize,
    ) == reachable(sv2, a, sv2.commits[b as int].parents[k] as usize)) by {
        lemma_reachable_stable(sv1, sv2, a, sv1.commits[b as int].parents[k] as usize);
    }
}

/// Whether `a` is an ancestor of `b` (so a move from `a` to `b` is a
/// fast-forward in the graph).
pub fn is_ancestor(s: &Store, a: usize, b: usize) -> (r: bool)
    requires
        store_wf(s@),
        a < s@.commits.len(),
        b < s@.commits.len(),
    ensures
        r == reachable(s@, a, b),
{
    let ghost sv = s@;
    if a == b {
        return true;
    }
    if a > b {
        proof {
            if reachable(sv, a, b) {
                lemma_reachable_le(sv, a, b);
            }
        }
        return false;
    }
    let mut anc: Vec<bool> = Vec::new();
    let mut t: usize = 0;
    while t < b
        invariant
            t <= b,
            anc@.len() == t,
            forall|j: int| 0 <= j < t ==> !anc@[j],
        decreases b - t,
    {
        anc.push(false);
        t += 1;
    }
    anc.push(true);
    let n_commits = s.commits.len();
    assert(b < n_commits);
    let mut id: usize = b + 1;
    proof {
        assert forall|j: usize| j < id implies anc@[j as int] == (j == b || exists|k: usize|
            id <= k < sv.commits.len() && #[trigger] reachable(sv, k, b) && sv.commits[
                k as int
            ].parents.contains(j)) by {
            if exists|k: usize|
                id <= k < sv.commits.len() && #[trigger] reachable(sv, k, b) && sv.commits[
                    k as int
                ].parents.contains(j) {
                let k = choose|k: usize|
                    id <= k < sv.commits.len() && #[trigger] reachable(sv, k, b) && sv.commits[
                        k as int
                    ].parents.contains(j);
                lemma_reachable_le(sv, k, b);
            }
        }
    }
    while id > 0
        invariant
            store_wf(sv),
            sv == s@,
            b < sv.commits.len(),
            id <= b + 1,
            anc@.len() == b + 1,
            forall|j: usize|
                id <= j <= b ==> (#[trigger] anc@[j as int]) == reachable(sv, j, b),
            forall|j: usize|
                j < id ==> (#[trigger] anc@[j as int]) == (j == b || exists|k: usize|
                    id <= k < sv.commits.len() && #[trigger] reachable(sv, k, b) && sv.commits[
                        k as int
                    ].parents.contains(j)),
        decreases id,
    {
        id -= 1;
        let c = id;
        let ghost anc0 = anc@;
        proof {
            lemma_reachable_step(sv, c, b);
            assert(anc0[c as int] == reachable(sv, c, b)) by {
                if exists|k: usize|
                    k < sv.commits.len() && #[trigger] reachable(sv, k, b) && sv.commits[
                        k as int
                    ].parents.contains(c) {
                    let k = choose|k: usize|
                        k < sv.commits.len() && #[trigger] reachable(sv, k, b) && sv.commits[
                            k as int
                        ].parents.contains(c);
                    assert(c < k) by {
                        let j = choose|j: int|
                            0 <= j < sv.commits[k as int].parents.len() && sv.commits[
                                k as int
                            ].parents[j] == c;
                    }
                }
            }
        }
        if anc[c] {
            let np = s.commits[c].parents.len();
            let mut k: usize = 0;
            while k < np
                invariant
                    store_wf(sv),
                    sv == s@,
                    c < sv.commits.len(),
                    np == sv.commits[c as int].parents.len(),
                    k <= np,
                    anc@.len() == b + 1,
                    forall|m: int| 0 <= m < np ==> (#[trigger] sv.commits[c as int].parents[m]) < c,
                    c <= b,
                    forall|j: int|
                        0 <= j < anc@.len() ==> (#[trigger] anc@[j]) == (anc0[j] || exists|m: int|
                            0 <= m < k && sv.commits[c as int].parents[m] == j),
                decreases np - k,
            {
                let p = s.commits[c].parents[k];
                let ghost anc1 = anc@;
                anc.set(p, true);
                proof {
                    assert forall|j: int| 0 <= j < anc@.len() implies (#[trigger] anc@[j]) == (
                    anc0[j] || exists|m: int|
                        0 <= m < k + 1 && sv.commits[c as int].parents[m] == j) by {
                        if j == p as int {
                            assert(sv.commits[c as int].parents[k as int] == j);
                        } else {
                            assert(anc@[j] == anc1[j]);
                            if exists|m: int|
                                0 <= m < k + 1 && sv.commits[c as int].parents[m] == j {
                                let m = choose|m: int|
                                    0 <= m < k + 1 && sv.commits[c as int].parents[m] == j;
                                assert(m < k);
                            }
                        }
                    }
                }
                k += 1;
            }
            proof {
                lemma_restore_invariants(sv, anc0, anc@, c, b, id as usize, true);
            }
        } else {
            proof {
                lemma_restore_invariants(sv, anc0, anc@, c, b, id as usize, false);
            }
        }
    }
    anc[a]
}

/// `id` is at or below one of the targets: a member of the target set, or a
/// commit with a parent that descends from one.
pub open spec fn descends(sv: StoreV, id: usize, targets: Seq<usize>) -> bool
    decreases id, 1int, 0int
        when store_wf(sv) && id < sv.commits.len()
{
    targets.contains(id) || parent_descends(sv, id, targets, sv.commits[
        id as int
    ].parents.len() as int)
}

/// One of the first `n` parents of `id` descends from a target.
pub open spec fn parent_descends(sv: StoreV, id: usize, targets: Seq<usize>, n: int) -> bool
    decreases id, 0int, n
        when store_wf(sv) && id < sv.commits.len() && 0 <= n <= sv.commits[
            id as int
        ].parents.len()
{
    if n <= 0 {
        false
    } else {
        descends(sv, sv.commits[id as int].parents[n - 1] as usize, targets) || parent_descends(
            sv,
            id,
            targets,
            n - 1,
        )
    }
}

pub proof fn lemma_parent_descends_exists(sv: StoreV, id: usize, targets: Seq<usize>, n: int)
    requires
        store_wf(sv),
        id < sv.commits.len(),
        0 <= n <= sv.commits[id as int].parents.len(),
    ensures
        parent_descends(sv, id, targets, n) <==> exists|k: int|
            0 <= k < n && descends(sv, sv.commits[id as int].parents[k] as usize, targets),
    decreases n,
{
    if n > 0 {
        lemma_parent_descends_exists(sv, id, targets, n - 1);
        if descends(sv, sv.commits[id as int].parents[n - 1] as usize, targets) {
            assert(0 <= n - 1 < n && descends(
                sv,
                sv.commits[id as int].parents[n - 1] as usize,
                targets,
            ));
        }
    }
}

/// Descent depends on the commits alone: extra commits appended later, or
/// extra trees, never change whether an existing commit descends from a set.
pub proof fn lemma_descends_stable(sv1: StoreV, sv2: StoreV, id: usize, targets: Seq<usize>)
    requires
        store_wf(sv1),
        store_wf(sv2),
        sv1.commits.len() <= sv2.commits.len(),
        forall|i: int| 0 <= i < sv1.commits.len() ==> sv2.commits[i] == sv1.commits[i],
        id < sv1.commits.len(),
    ensures
        descends(sv1, id, targets) == descends(sv2, id, targets),
    decreases id,
{
    let n = sv1.commits[id as int].parents.len() as int;
    assert(sv2.commits[id as int] == sv1.commits[id as int]);
    lemma_parent_descends_exists(sv1, id, targets, n);
    lemma_parent_descends_exists(sv2, id, targets, n);
    assert forall|k: int| 0 <= k < n implies (descends(
        sv1,
        sv1.commits[id as int].parents[k] as usize,
        targets,
    ) == descends(sv2, sv2.commits[id as int].parents[k] as usize, targets)) by {
        lemma_descends_stable(sv1, sv2, sv1.commits[id as int].parents[k] as usize, targets);
    }
}

/// With no targets, nothing descends: an empty instruction set maps nothing.
pub proof fn lemma_no_targets_no_descent(sv: StoreV, id: usize, targets: Seq<usize>)
    requires
        store_wf(sv),
        id < sv.commits.len(),
        targets.len() == 0,
    ensures
        !descends(sv, id, targets),
    decreases id,
{
    let n = sv.commits[id as int].parents.len() as int;
    lemma_parent_descends_exists(sv, id, targets, n);
    assert forall|k: int| 0 <= k < n implies !descends(
        sv,
        sv.commits[id as int].parents[k] as usize,
        targets,
    ) by {
        lemma_no_targets_no_descent(sv, sv.commits[id as int].parents[k] as usize, targets);
    }
}

/// A commit outside the descendant closure has no parent inside it; in
/// particular none of its parents is a target.
pub proof fn lemma_non_descendant_parents(sv: StoreV, id: usize, targets: Seq<usize>, k: int)
    requires
        store_wf(sv),
        id < sv.commits.len(),
        !descends(sv, id, targets),
        0 <= k < sv.commits[id as int].parents.len(),
    ensures
        !descends(sv, sv.commits[id as int].parents[k] as usize, targets),
        !targets.contains(sv.commits[id as int].parents[k] as usize),
{
    lemma_parent_descends_exists(sv, id, targets, sv.commits[id as int].parents.len() as int);
}

/// Mark every commit that is a target or a transitive descendant of one.
pub fn mark_descendants(s: &Store, targets: &Vec<usize>) -> (d: Vec<bool>)
    requires
        store_wf(s@),
    ensures
        d@.len() == s@.commits.len(),
        forall|j: usize|
            j < s@.commits.len() ==> (#[trigger] d@[j as int]) == descends(s@, j, targets@),
{
    let ghost sv = s@;
    let n = s.commits.len();
    let mut d: Vec<bool> = Vec::new();
    let mut id: usize = 0;
    while id < n
        invariant
            store_wf(sv),
            sv == s@,
            n == s@.commits.len(),
            id <= n,
            d@.len() == id,
            forall|j: usize| j < id ==> (#[trigger] d@[j as int]) == descends(sv, j, targets@),
        decreases n - id,
    {
        let mut flag = ids_contains(targets, id);
        let np = s.commits[id].parents.len();
        let mut k: usize = 0;
        while k < np
            invariant
                store_wf(sv),
                sv == s@,
                n == s@.commits.len(),
                id < n,
                np == sv.commits[id as int].parents.len(),
                k <= np,
                d@.len() == id,
                forall|j: usize| j < id ==> (#[trigger] d@[j as int]) == descends(sv, j, targets@),
                flag == (targets@.contains(id) || exists|m: int|
                    0 <= m < k && descends(sv, sv.commits[id as int].parents[m] as usize, targets@)),
            decreases np - k,
        {
            let p = s.commits[id].parents[k];
            assert(p < id);
            if d[p] {
                flag = true;
                proof {
                    assert(0 <= k < k + 1 && descends(
                        sv,
                        sv.commits[id as int].parents[k as int] as usize,
                        targets@,
                    ));
                }
            } else {
                proof {
                    if exists|m: int|
                        0 <= m < k + 1 && descends(
                            sv,
                            sv.commits[id as int].parents[m] as usize,
                            targets@,
                        ) {
                        let m = choose|m: int|
                            0 <= m < k + 1 && descends(
                                sv,
                                sv.commits[id as int].parents[m] as usize,
                                targets@,
                            );
                        if m == k {
                            assert(d@[p as int]);
                        }
                    }
                }
            }
            k += 1;
        }
        proof {
            lemma_parent_descends_exists(sv, id, targets@, np as int);
        }
        d.push(flag);
        id += 1;
    }
    d
}

/// Whether the parent at index `i` survives deduplication: it is not a
/// repetition of an earlier entry, and not an ancestor of any other entry.
pub open spec fn parent_kept(sv: StoreV, ids: Seq<usize>, i: int) -> bool {
    &&& forall|j: int| 0 <= j < i ==> ids[j] != ids[i]
    &&& forall|j: int|
        0 <= j < ids.len() && ids[j] != ids[i] ==> !reachable(sv, ids[i], ids[j] as usize)
}

/// The deduplicated parent list from index `i` on, in order.
pub open spec fn kept_parents(sv: StoreV, ids: Seq<usize>, i: int) -> Seq<usize>
    decreases ids.len() - i
        when 0 <= i <= ids.len()
{
    if i >= ids.len() {
        Seq::<usize>::empty()
    } else if parent_kept(sv, ids, i) {
        seq![ids[i]] + kept_parents(sv, ids, i + 1)
    } else {
        kept_parents(sv, ids, i + 1)
    }
}

pub proof fn lemma_kept_parents_membership(sv: StoreV, ids: Seq<usize>, i: int)
    requires
        0 <= i <= ids.len(),
    ensures
        forall|x: usize|
            kept_parents(sv, ids, i).contains(x) <==> exists|k: int|
                i <= k < ids.len() && ids[k] == x && #[trigger] parent_kept(sv, ids, k),
        kept_parents(sv, ids, i).no_duplicates(),
    decreases ids.len() - i,
{
    if i < ids.len() {
        lemma_kept_parents_membership(sv, ids, i + 1);
        let rest = kept_parents(sv, ids, i + 1);
        if parent_kept(sv, ids, i) {
            let whole = seq![ids[i]] + rest;
            assert forall|x: usize| whole.contains(x) <==> (exists|k: int|
                i <= k < ids.len() && ids[k] == x && #[trigger] parent_kept(sv, ids, k)) by {
                if whole.contains(x) {
                    let m = choose|m: int| 0 <= m < whole.len() && whole[m] == x;
                    if m == 0 {
                        assert(ids[i] == x && parent_kept(sv, ids, i));
                    } else {
                        assert(rest[m - 1] == x);
                        assert(rest.contains(x));
                    }
                }
                if exists|k: int|
                    i <= k < ids.len() && ids[k] == x && #[trigger] parent_kept(sv, ids, k) {
                    let k = choose|k: int|
                        i <= k < ids.len() && ids[k] == x && #[trigger] parent_kept(sv, ids, k);
                    if k == i {
                        assert(whole[0] == x);
                    } else {
                        assert(rest.contains(x));
                        let m = choose|m: int| 0 <= m < rest.len() && rest[m] == x;
                        assert(whole[m + 1] == x);
                    }
                }
            }
            assert(whole.no_duplicates()) by {
                assert(!rest.contains(ids[i])) by {
                    if rest.contains(ids[i]) {
                        let k = choose|k: int|
                            i + 1 <= k < ids.len() && ids[k] == ids[i] && #[trigger] parent_kept(
                                sv,
                                ids,
                                k,
                            );
                        assert(ids[i as int] == ids[k]);
                    }
                }
                assert forall|m1: int, m2: int|
                    0 <= m1 < m2 < whole.len() implies whole[m1] != whole[m2] by {
                    if m1 == 0 {
                        assert(whole[m2] == rest[m2 - 1]);
                        assert(rest.contains(rest[m2 - 1]));
                    } else {
                        assert(whole[m1] == rest[m1 - 1] && whole[m2] == rest[m2 - 1]);
                    }
                }
            }
        }
    }
}

/// Deduplicate a parent list: remove repeated ids and ids that are ancestors
/// of other listed ids, keeping first occurrences in order.
pub fn simplify_parents(s: &Store, ids: &Vec<usize>) -> (r: Vec<usize>)
    requires
        store_wf(s@),
        forall|k: int| 0 <= k < ids@.len() ==> (#[trigger] ids@[k]) < s@.commits.len(),
    ensures
        r@ == kept_parents(s@, ids@, 0),
        r@.no_duplicates(),
        forall|m: int| 0 <= m < r@.len() ==> ids@.contains(#[trigger] r@[m]),
{
    let ghost sv = s@;
    let n = ids.len();
    let mut out: Vec<usize> = Vec::new();
    let mut i: usize = 0;
    proof {
        assert(kept_parents(sv, ids@, 0) =~= out@ + kept_parents(sv, ids@, 0));
    }
    while i < n
        invariant
            store_wf(sv),
            sv == s@,
            n == ids@.len(),
            i <= n,
            forall|k: int| 0 <= k < ids@.len() ==> (#[trigger] ids@[k]) < sv.commits.len(),
            kept_parents(sv, ids@, 0) == out@ + kept_parents(sv, ids@, i as int),
        decreases n - i,
    {
        let x = ids[i];
        let mut keep = true;
        let mut j: usize = 0;
        while j < i
            invariant
                n == ids@.len(),
                i < n,
                j <= i,
                x == ids@[i as int],
                keep == (forall|m: int| 0 <= m < j ==> ids@[m] != x),
            decreases i - j,
        {
            if ids[j] == x {
                keep = false;
            }
            j += 1;
        }
        if keep {
            let mut j2: usize = 0;
            while j2 < n
                invariant
                    store_wf(sv),
                    sv == s@,
                    n == ids@.len(),
                    i < n,
                    j2 <= n,
                    x == ids@[i as int],
                    x < sv.commits.len(),
                    forall|k: int| 0 <= k < ids@.len() ==> (#[trigger] ids@[k]) < sv.commits.len(),
                    keep == (forall|m: int|
                        0 <= m < j2 && ids@[m] != x ==> !reachable(sv, x, #[trigger] ids@[m])),
                decreases n - j2,
            {
                if ids[j2] != x && is_ancestor(s, x, ids[j2]) {
                    keep = false;
                }
                j2 += 1;
            }
        }
        proof {
            if keep {
                assert(parent_kept(sv, ids@, i as int));
            } else {
                assert(!parent_kept(sv, ids@, i as int));
            }
        }
        if keep {
            out.push(x);
            proof {
                assert(kept_parents(sv, ids@, i as int) == seq![ids@[i as int]] + kept_parents(
                    sv,
                    ids@,
                    i + 1,
                ));
                assert(out@ + kept_parents(sv, ids@, i + 1) =~= out@.drop_last() + kept_parents(
                    sv,
                    ids@,
                    i as int,
                ));
            }
        }
        i += 1;
    }
    proof {
        assert(kept_parents(sv, ids@, n as int) =~= Seq::<usize>::empty());
        assert(out@ =~= out@ + kept_parents(sv, ids@, n as int));
        lemma_kept_parents_membership(sv, ids@, 0);
        assert forall|m: int| 0 <= m < out@.len() implies ids@.contains(#[trigger] out@[m]) by {
            assert(out@.contains(out@[m]));
            let k = choose|k: int|
                0 <= k < ids@.len() && ids@[k] == out@[m] && #[trigger] parent_kept(sv, ids@, k);
            assert(ids@[k] == out@[m]);
        }
    }
    out
}

/// Abandoning a merge whose second parent is an ancestor of the first leaves
/// only the first: redundant parents never survive deduplication.
pub proof fn lemma_redundant_parent_dropped(sv: StoreV, a: usize, b: usize)
    requires
        store_wf(sv),
        a < sv.commits.len(),
        b < sv.commits.len(),
        a != b,
        reachable(sv, b, a),
    ensures
        kept_parents(sv, seq![a, b], 0) == seq![a],
{
    let ids: Seq<usize> = seq![a, b];
    assert(parent_kept(sv, ids, 0)) by {
        assert forall|j: int| 0 <= j < ids.len() && (#[trigger] ids[j]) != ids[0] implies
            !reachable(sv, ids[0] as usize, ids[j] as usize) by {
            if j == 1 && reachable(sv, a, b) {
                lemma_reachable_le(sv, a, b);
                lemma_reachable_le(sv, b, a);
            }
        }
    }
    assert(!parent_kept(sv, ids, 1)) by {
        assert(ids[0] != ids[1] && reachable(sv, ids[1] as usize, ids[0] as usize));
    }
    assert(kept_parents(sv, ids, 2) =~= Seq::<usize>::empty());
    assert(kept_parents(sv, ids, 1) =~= Seq::<usize>::empty());
    assert(kept_parents(sv, ids, 0) =~= seq![a]);
}

/// Re-establish the marking invariants after one commit is processed.
proof fn lemma_restore_invariants(
    sv: StoreV,
    anc0: Seq<bool>,
    anc1: Seq<bool>,
    c: usize,
    b: usize,
    id: usize,
    marked: bool,
)
    requires
        store_wf(sv),
        b < sv.commits.len(),
        id == c,
        c <= b,
        anc0.len() == b + 1,
        anc1.len() == b + 1,
        anc0[c as int] == reachable(sv, c, b),
        marked == reachable(sv, c, b),
        marked ==> forall|j: int|
            0 <= j < anc1.len() ==> (#[trigger] anc1[j]) == (anc0[j] || sv.commits[
                c as int
            ].parents.contains(j as usize)),
        !marked ==> anc1 == anc0,
        forall|j: usize|
            id + 1 <= j <= b ==> (#[trigger] anc0[j as int]) == reachable(sv, j, b),
        forall|j: usize|
            j < id + 1 ==> (#[trigger] anc0[j as int]) == (j == b || exists|k: usize|
                id + 1 <= k < sv.commits.len() && #[trigger] reachable(sv, k, b) && sv.commits[
                    k as int
                ].parents.contains(j)),
    ensures
        forall|j: usize| id <= j <= b ==> (#[trigger] anc1[j as int]) == reachable(sv, j, b),
        forall|j: usize|
            j < id ==> (#[trigger] anc1[j as int]) == (j == b || exists|k: usize|
                id <= k < sv.commits.len() && #[trigger] reachable(sv, k, b) && sv.commits[
                    k as int
                ].parents.contains(j)),
{
    assert forall|j: usize| id <= j <= b implies (#[trigger] anc1[j as int]) == reachable(
        sv,
        j,
        b,
    ) by {
        if j == c {
            if marked {
                assert(anc1[j as int] == (anc0[j as int] || sv.commits[
                    c as int
                ].parents.contains(j)));
                if sv.commits[c as int].parents.contains(j) {
                    let m = choose|m: int|
                        0 <= m < sv.commits[c as int].parents.len() && sv.commits[
                            c as int
                        ].parents[m] == j;
                    assert(sv.commits[c as int].parents[m] < c);
                }
            }
        } else {
            if marked && sv.commits[c as int].parents.contains(j) {
                let m = choose|m: int|
                    0 <= m < sv.commits[c as int].parents.len() && sv.commits[c as int].parents[m]
                        == j;
                assert(sv.commits[c as int].parents[m] < c);
            }
        }
    }
    assert forall|j: usize| j < id implies (#[trigger] anc1[j as int]) == (j == b || exists|
        k: usize,
    |
        id <= k < sv.commits.len() && #[trigger] reachable(sv, k, b) && sv.commits[
            k as int
        ].parents.contains(j)) by {
        if anc1[j as int] {
            if marked && sv.commits[c as int].parents.contains(j) {
                assert(id <= c < sv.commits.len() && reachable(sv, c, b) && sv.commits[
                    c as int
                ].parents.contains(j));
            } else {
                assert(anc0[j as int]);
                assert(j != b) by {
                    assert(j < id <= b);
                }
                let k = choose|k: usize|
                    id + 1 <= k < sv.commits.len() && #[trigger] reachable(sv, k, b) && sv.commits[
                        k as int
                    ].parents.contains(j);
                assert(id <= k < sv.commits.len() && reachable(sv, k, b) && sv.commits[
                    k as int
                ].parents.contains(j));
            }
        } else {
            if j == b {
                assert(anc0[j as int]);
                assert(false);
            }
            if exists|k: usize|
                id <= k < sv.commits.len() && #[trigger] reachable(sv, k, b) && sv.commits[
                    k as int
                ].parents.contains(j) {
                let k = choose|k: usize|
                    id <= k < sv.commits.len() && #[trigger] reachable(sv, k, b) && sv.commits[
                        k as int
                    ].parents.contains(j);
                if k == c {
                    assert(marked);
                    assert(anc1[j as int]);
                    assert(false);
                } else {
                    assert(anc0[j as int]);
                    assert(false);
                }
            }
        }
    }
}

} // verus!
