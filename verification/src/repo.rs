//! The mutable repository: a store together with a view, and the full
//! descendant transformation — the rewrite walk followed by the view fix-up
//! that retargets bookmarks and working copies.

use vstd::prelude::*;

use crate::errors::BackendError;
use crate::errors::EngineError;
use crate::ids::clone_ids;
use crate::merge::clone_bytes;
use crate::rewrite::instr_ids;
use crate::rewrite::instrs_valid;
use crate::rewrite::is_abandoned;
use crate::rewrite::lemma_entry_ok_stable;
use crate::rewrite::lemma_find_instr_spec;
use crate::rewrite::mapping_entry_ok;
use crate::rewrite::mapping_values_valid;
use crate::rewrite::merged_parents_get;
use crate::rewrite::rewrite_walk;
use crate::rewrite::walk_post;
use crate::rewrite::Instruction;
use crate::rewrite::RewriteAction;
use crate::rewrite::TransformOptions;
use crate::store::store_wf;
use crate::store::CommitV;
use crate::store::Store;
use crate::store::StoreV;
use crate::tree::tv_get;
use crate::view::view_ids_valid;
use crate::view::view_wf;
use crate::view::BookmarkV;
use crate::view::RepoView;
use crate::view::RepoViewV;
use crate::view::WorkspaceV;

verus! {

/// A store and a view that agree: the transaction's mutable overlay.
pub struct MutRepo {
    pub store: Store,
    pub view: RepoView,
}

#[verifier::ext_equal]
pub struct MutRepoV {
    pub store: StoreV,
    pub view: RepoViewV,
}

impl View for MutRepo {
    type V = MutRepoV;

    open spec fn view(&self) -> MutRepoV {
        MutRepoV { store: self.store@, view: self.view@ }
    }
}

pub open spec fn repo_wf(rv: MutRepoV) -> bool {
    &&& store_wf(rv.store)
    &&& view_wf(rv.view)
    &&& view_ids_valid(rv.view, rv.store.commits.len() as int)
}

/// What one old target id contributes to a bookmark after the walk: itself if
/// untouched, its replacement if rewritten, and its parent set — or nothing,
/// when abandoned bookmarks are deleted — if abandoned.
pub open spec fn target_contribution(
    instrs: Seq<Instruction>,
    mapping: Seq<Option<Vec<usize>>>,
    delete_abandoned: bool,
    t: usize,
) -> Seq<usize> {
    if t < mapping.len() && mapping[t as int] is Some {
        if is_abandoned(instrs, t) && delete_abandoned {
            Seq::<usize>::empty()
        } else {
            mapping[t as int].unwrap()@
        }
    } else {
        seq![t]
    }
}

/// A bookmark's target list resolved through the mapping.
pub open spec fn targets_after(
    instrs: Seq<Instruction>,
    mapping: Seq<Option<Vec<usize>>>,
    delete_abandoned: bool,
    ts: Seq<usize>,
) -> Seq<usize>
    decreases ts.len(),
{
    if ts.len() == 0 {
        Seq::<usize>::empty()
    } else {
        target_contribution(instrs, mapping, delete_abandoned, ts[0]) + targets_after(
            instrs,
            mapping,
            delete_abandoned,
            ts.drop_first(),
        )
    }
}

/// Whether `s[i]` is the first occurrence of its value.
pub open spec fn first_occurrence(s: Seq<usize>, i: int) -> bool {
    forall|j: int| 0 <= j < i ==> s[j] != s[i]
}

/// The subsequence of first occurrences: order-preserving deduplication.
pub open spec fn dedup_first(s: Seq<usize>, i: int) -> Seq<usize>
    decreases s.len() - i
        when 0 <= i <= s.len()
{
    if i >= s.len() {
        Seq::<usize>::empty()
    } else if first_occurrence(s, i) {
        seq![s[i]] + dedup_first(s, i + 1)
    } else {
        dedup_first(s, i + 1)
    }
}

/// The bookmark list after the walk: targets resolved and deduplicated,
/// bookmarks whose targets all vanished removed.
pub open spec fn bookmarks_after(
    instrs: Seq<Instruction>,
    mapping: Seq<Option<Vec<usize>>>,
    delete_abandoned: bool,
    bs: Seq<BookmarkV>,
) -> Seq<BookmarkV>
    decreases bs.len(),
{
    if bs.len() == 0 {
        Seq::<BookmarkV>::empty()
    } else {
        let nts = dedup_first(
            targets_after(instrs, mapping, delete_abandoned, bs[0].targets),
            0,
        );
        let rest = bookmarks_after(instrs, mapping, delete_abandoned, bs.drop_first());
        if nts.len() == 0 {
            rest
        } else {
            seq![BookmarkV { name: bs[0].name, targets: nts }] + rest
        }
    }
}

/// Every name the updated bookmark list carries comes from the old list, and
/// distinct old names stay distinct.
pub proof fn lemma_bookmarks_after_names(
    instrs: Seq<Instruction>,
    mapping: Seq<Option<Vec<usize>>>,
    delete_abandoned: bool,
    bs: Seq<BookmarkV>,
)
    ensures
        forall|k: int|
            0 <= k < bookmarks_after(instrs, mapping, delete_abandoned, bs).len() ==> exists|i: int|
                0 <= i < bs.len() && (#[trigger] bookmarks_after(
                    instrs,
                    mapping,
                    delete_abandoned,
                    bs,
                )[k]).name == bs[i].name,
        (forall|i: int, j: int|
            0 <= i < j < bs.len() ==> (#[trigger] bs[i].name) != (#[trigger] bs[j].name))
            ==> (forall|i: int, j: int|
            0 <= i < j < bookmarks_after(instrs, mapping, delete_abandoned, bs).len() ==> (
            #[trigger] bookmarks_after(instrs, mapping, delete_abandoned, bs)[i].name) != (
            #[trigger] bookmarks_after(instrs, mapping, delete_abandoned, bs)[j].name)),
    decreases bs.len(),
{
    if bs.len() > 0 {
        let tail = bs.drop_first();
        lemma_bookmarks_after_names(instrs, mapping, delete_abandoned, tail);
        let nts = dedup_first(
            targets_after(instrs, mapping, delete_abandoned, bs[0].targets),
            0,
        );
        let rest = bookmarks_after(instrs, mapping, delete_abandoned, tail);
        let whole = bookmarks_after(instrs, mapping, delete_abandoned, bs);
        assert forall|k: int| 0 <= k < whole.len() implies exists|i: int|
            0 <= i < bs.len() && (#[trigger] whole[k]).name == bs[i].name by {
            if nts.len() == 0 {
                let i = choose|i: int| 0 <= i < tail.len() && rest[k].name == tail[i].name;
                assert(whole[k].name == bs[i + 1].name);
            } else {
                if k == 0 {
                    assert(whole[0].name == bs[0].name);
                } else {
                    let i = choose|i: int|
                        0 <= i < tail.len() && rest[k - 1].name == tail[i].name;
                    assert(whole[k].name == bs[i + 1].name);
                }
            }
        }
        if forall|i: int, j: int|
            0 <= i < j < bs.len() ==> (#[trigger] bs[i].name) != (#[trigger] bs[j].name) {
            assert(forall|i: int, j: int|
                0 <= i < j < tail.len() ==> (#[trigger] tail[i].name) != (
                #[trigger] tail[j].name));
            assert forall|i: int, j: int| 0 <= i < j < whole.len() implies (
            #[trigger] whole[i].name) != (#[trigger] whole[j].name) by {
                if nts.len() == 0 {
                    assert(whole[i] == rest[i] && whole[j] == rest[j]);
                } else {
                    if i == 0 {
                        let m = choose|m: int|
                            0 <= m < tail.len() && rest[j - 1].name == tail[m].name;
                        assert(bs[0].name != bs[m + 1].name);
                        assert(whole[j] == rest[j - 1]);
                    } else {
                        assert(whole[i] == rest[i - 1] && whole[j] == rest[j - 1]);
                    }
                }
            }
        }
    }
}

/// Order-preserving deduplication of an id list.
pub fn dedup_ids(v: &Vec<usize>) -> (r: Vec<usize>)
    ensures
        r@ == dedup_first(v@, 0),
        r@.no_duplicates(),
        forall|k: int| 0 <= k < r@.len() ==> v@.contains(#[trigger] r@[k]),
        forall|k: int| 0 <= k < v@.len() ==> r@.contains(#[trigger] v@[k]),
{
    proof {
        lemma_dedup_first_props(v@, 0);
    }
    let n = v.len();
    let mut out: Vec<usize> = Vec::new();
    let mut i: usize = 0;
    proof {
        assert(dedup_first(v@, 0) =~= out@ + dedup_first(v@, 0));
    }
    while i < n
        invariant
            n == v@.len(),
            i <= n,
            dedup_first(v@, 0) == out@ + dedup_first(v@, i as int),
        decreases n - i,
    {
        let x = v[i];
        let mut fresh = true;
        let mut j: usize = 0;
        while j < i
            invariant
                n == v@.len(),
                i < n,
                j <= i,
                x == v@[i as int],
                fresh == (forall|m: int| 0 <= m < j ==> v@[m] != x),
            decreases i - j,
        {
            if v[j] == x {
                fresh = false;
            }
            j += 1;
        }
        if fresh {
            out.push(x);
            proof {
                assert(first_occurrence(v@, i as int));
                assert(out@ + dedup_first(v@, i + 1) =~= out@.drop_last() + dedup_first(
                    v@,
                    i as int,
                ));
            }
        } else {
            proof {
                assert(!first_occurrence(v@, i as int));
            }
        }
        i += 1;
    }
    proof {
        assert(dedup_first(v@, n as int) =~= Seq::<usize>::empty());
        assert(out@ =~= out@ + dedup_first(v@, n as int));
        assert forall|k: int| 0 <= k < v@.len() implies out@.contains(#[trigger] v@[k]) by {
            lemma_first_occurrence_exists(v@, k);
            let k2 = choose|k2: int|
                0 <= k2 <= k && v@[k2] == v@[k] && #[trigger] first_occurrence(v@, k2);
            assert(dedup_first(v@, 0).contains(v@[k2]));
        }
    }
    out
}

/// Appending a value extends the deduplicated list exactly when the value is
/// new.
pub proof fn lemma_dedup_first_push(s: Seq<usize>, x: usize, i: int)
    requires
        0 <= i <= s.len(),
    ensures
        dedup_first(s.push(x), i) == dedup_first(s, i) + (if s.contains(x) {
            Seq::<usize>::empty()
        } else {
            seq![x]
        }),
    decreases s.len() - i,
{
    let sp = s.push(x);
    if i == s.len() {
        assert(dedup_first(s, i) =~= Seq::<usize>::empty());
        assert(sp[i] == x);
        assert(dedup_first(sp, i + 1) =~= Seq::<usize>::empty());
        if s.contains(x) {
            let j = choose|j: int| 0 <= j < s.len() && s[j] == x;
            assert(sp[j] == x);
            assert(!first_occurrence(sp, i));
            assert(dedup_first(sp, i) =~= Seq::<usize>::empty() + Seq::<usize>::empty());
        } else {
            assert(first_occurrence(sp, i)) by {
                assert forall|j: int| 0 <= j < i implies sp[j] != sp[i] by {
                    assert(sp[j] == s[j]);
                }
            }
            assert(dedup_first(sp, i) =~= seq![x]);
            assert(dedup_first(s, i) + seq![x] =~= seq![x]);
        }
    } else {
        lemma_dedup_first_push(s, x, i + 1);
        assert(sp[i] == s[i]);
        assert(first_occurrence(sp, i) == first_occurrence(s, i)) by {
            assert(forall|j: int| 0 <= j < i ==> sp[j] == s[j]);
        }
        if first_occurrence(s, i) {
            assert(dedup_first(sp, i) =~= seq![s[i]] + dedup_first(sp, i + 1));
            assert(seq![s[i]] + (dedup_first(s, i + 1) + (if s.contains(x) {
                Seq::<usize>::empty()
            } else {
                seq![x]
            })) =~= dedup_first(s, i) + (if s.contains(x) {
                Seq::<usize>::empty()
            } else {
                seq![x]
            }));
        }
    }
}

/// The deduplicated list holds exactly the values of the source.
pub proof fn lemma_dedup_contains(s: Seq<usize>, x: usize)
    ensures
        dedup_first(s, 0).contains(x) <==> s.contains(x),
{
    lemma_dedup_first_props(s, 0);
    if s.contains(x) {
        let k = choose|k: int| 0 <= k < s.len() && s[k] == x;
        lemma_first_occurrence_exists(s, k);
        let k2 = choose|k2: int|
            0 <= k2 <= k && s[k2] == s[k] && #[trigger] first_occurrence(s, k2);
        assert(dedup_first(s, 0).contains(s[k2]));
    }
}

/// Deduplicating a list that has no repetitions returns it unchanged.
pub proof fn lemma_dedup_first_identity(s: Seq<usize>, i: int)
    requires
        0 <= i <= s.len(),
        s.no_duplicates(),
    ensures
        dedup_first(s, i) == s.skip(i),
    decreases s.len() - i,
{
    if i < s.len() {
        assert(first_occurrence(s, i));
        lemma_dedup_first_identity(s, i + 1);
        assert(seq![s[i]] + s.skip(i + 1) =~= s.skip(i));
    } else {
        assert(s.skip(i) =~= Seq::<usize>::empty());
    }
}

/// When the pass rewrote nothing, every bookmark target resolves to itself.
pub proof fn lemma_identity_targets_after(
    instrs: Seq<Instruction>,
    mapping: Seq<Option<Vec<usize>>>,
    delete_abandoned: bool,
    ts: Seq<usize>,
)
    requires
        forall|j: int| 0 <= j < mapping.len() ==> (#[trigger] mapping[j]) is None,
    ensures
        targets_after(instrs, mapping, delete_abandoned, ts) == ts,
    decreases ts.len(),
{
    if ts.len() > 0 {
        assert(target_contribution(instrs, mapping, delete_abandoned, ts[0]) =~= seq![ts[0]]);
        lemma_identity_targets_after(instrs, mapping, delete_abandoned, ts.drop_first());
        assert(seq![ts[0]] + ts.drop_first() =~= ts);
    }
}

/// When the pass rewrote nothing, the bookmark list stays as it was.
pub proof fn lemma_identity_bookmarks_after(
    instrs: Seq<Instruction>,
    mapping: Seq<Option<Vec<usize>>>,
    delete_abandoned: bool,
    bs: Seq<BookmarkV>,
)
    requires
        forall|j: int| 0 <= j < mapping.len() ==> (#[trigger] mapping[j]) is None,
        forall|i: int| 0 <= i < bs.len() ==> (#[trigger] bs[i].targets).len() > 0,
        forall|i: int| 0 <= i < bs.len() ==> (#[trigger] bs[i].targets).no_duplicates(),
    ensures
        bookmarks_after(instrs, mapping, delete_abandoned, bs) == bs,
    decreases bs.len(),
{
    if bs.len() > 0 {
        lemma_identity_targets_after(instrs, mapping, delete_abandoned, bs[0].targets);
        lemma_dedup_first_identity(bs[0].targets, 0);
        assert(bs[0].targets.skip(0) =~= bs[0].targets);
        let nts = dedup_first(
            targets_after(instrs, mapping, delete_abandoned, bs[0].targets),
            0,
        );
        assert(nts == bs[0].targets);
        let tail = bs.drop_first();
        assert(forall|i: int| 0 <= i < tail.len() ==> (#[trigger] tail[i]) == bs[i + 1]);
        lemma_identity_bookmarks_after(instrs, mapping, delete_abandoned, tail);
        assert(BookmarkV { name: bs[0].name, targets: nts } == bs[0]);
        assert(seq![bs[0]] + tail =~= bs);
    }
}

/// A pass that rewrote nothing leaves the commits and the entire view as they
/// were: only the operation recording it is new. In particular, describing
/// every commit with its current field values changes nothing.
pub proof fn law_unchanged_pass_preserves_repo(
    rv0: MutRepoV,
    rv: MutRepoV,
    instrs: Seq<Instruction>,
    options: TransformOptions,
    mapping: Seq<Option<Vec<usize>>>,
)
    requires
        view_wf(rv0.view),
        rv0.store.commits.len() < usize::MAX,
        transform_post(rv0, rv, instrs, options, mapping),
        forall|j: int| 0 <= j < mapping.len() ==> (#[trigger] mapping[j]) is None,
    ensures
        rv.store.commits == rv0.store.commits,
        rv.view.bookmarks == rv0.view.bookmarks,
        rv.view.workspaces == rv0.view.workspaces,
        rv.view.tracked_remotes == rv0.view.tracked_remotes,
{
    // nothing was appended: every appended commit would be some entry's
    // replacement, and there are none
    assert(rv.store.commits.len() == rv0.store.commits.len()) by {
        if rv.store.commits.len() > rv0.store.commits.len() {
            let c = rv0.store.commits.len() as usize;
            assert(crate::rewrite::commit_mapped(instrs, mapping, c) || wc_replacement_for(
                rv.store,
                instrs,
                mapping,
                rv0.view.workspaces,
                c,
            ));
            if crate::rewrite::commit_mapped(instrs, mapping, c) {
                let j = choose|j: int| #[trigger] crate::rewrite::mapped_to(instrs, mapping, j, c);
                assert(mapping[j] is Some);
            } else {
                let iw = choose|iw: int|
                    0 <= iw < rv0.view.workspaces.len() && {
                        let wc = (#[trigger] rv0.view.workspaces[iw]).wc;
                        &&& wc < mapping.len()
                        &&& mapping[wc as int] is Some
                        &&& is_abandoned(instrs, wc)
                        &&& wc_replacement_ok(
                            rv.store,
                            rv.store.commits[wc as int],
                            mapping[wc as int].unwrap()@,
                            c,
                        )
                    };
                assert(mapping[rv0.view.workspaces[iw].wc as int] is Some);
            }
        }
    }
    assert(rv.store.commits =~= rv0.store.commits);
    lemma_identity_bookmarks_after(
        instrs,
        mapping,
        options.delete_abandoned_bookmarks,
        rv0.view.bookmarks,
    );
    assert(rv.view.workspaces =~= rv0.view.workspaces) by {
        assert forall|i: int|
            0 <= i < rv0.view.workspaces.len() implies #[trigger] rv.view.workspaces[i]
            == rv0.view.workspaces[i] by {
            let owc = rv0.view.workspaces[i].wc;
            assert(ws_entry_ok(rv.store, instrs, mapping, owc, rv.view.workspaces[i].wc));
            if owc < mapping.len() {
                assert(mapping[owc as int] is None);
            }
        }
    }
}

/// Every value has a first occurrence at or before any of its occurrences.
pub proof fn lemma_first_occurrence_exists(s: Seq<usize>, k: int)
    requires
        0 <= k < s.len(),
    ensures
        exists|k2: int|
            0 <= k2 <= k && s[k2] == s[k] && #[trigger] first_occurrence(s, k2),
    decreases k,
{
    if first_occurrence(s, k) {
        assert(0 <= k <= k && s[k] == s[k] && first_occurrence(s, k));
    } else {
        let j = choose|j: int| 0 <= j < k && s[j] == s[k];
        lemma_first_occurrence_exists(s, j);
        let k2 = choose|k2: int|
            0 <= k2 <= j && s[k2] == s[j] && #[trigger] first_occurrence(s, k2);
        assert(0 <= k2 <= k && s[k2] == s[k] && first_occurrence(s, k2));
    }
}

/// First-occurrence deduplication keeps exactly the set of values, without
/// repetition.
pub proof fn lemma_dedup_first_props(s: Seq<usize>, i: int)
    requires
        0 <= i <= s.len(),
    ensures
        dedup_first(s, i).no_duplicates(),
        forall|k: int|
            0 <= k < dedup_first(s, i).len() ==> s.contains(#[trigger] dedup_first(s, i)[k]),
        forall|x: usize|
            dedup_first(s, i).contains(x) <==> (s.contains(x) && exists|k: int|
                i <= k < s.len() && s[k] == x && #[trigger] first_occurrence(s, k)),
        forall|k: int|
            i <= k < s.len() && #[trigger] first_occurrence(s, k) ==> dedup_first(s, i).contains(
                s[k],
            ),
    decreases s.len() - i,
{
    if i < s.len() {
        lemma_dedup_first_props(s, i + 1);
        let rest = dedup_first(s, i + 1);
        if first_occurrence(s, i) {
            let whole = seq![s[i]] + rest;
            assert(!rest.contains(s[i])) by {
                if rest.contains(s[i]) {
                    let k = choose|k: int|
                        i + 1 <= k < s.len() && s[k] == s[i] && #[trigger] first_occurrence(s, k);
                    assert(s[i] == s[k]);
                }
            }
            assert forall|m1: int, m2: int| 0 <= m1 < m2 < whole.len() implies whole[m1]
                != whole[m2] by {
                if m1 == 0 {
                    assert(whole[m2] == rest[m2 - 1]);
                    assert(rest.contains(rest[m2 - 1]));
                } else {
                    assert(whole[m1] == rest[m1 - 1] && whole[m2] == rest[m2 - 1]);
                }
            }
            assert forall|x: usize| whole.contains(x) implies (s.contains(x) && exists|k: int|
                i <= k < s.len() && s[k] == x && #[trigger] first_occurrence(s, k)) by {
                let m = choose|m: int| 0 <= m < whole.len() && whole[m] == x;
                if m == 0 {
                    assert(s[i] == x && first_occurrence(s, i));
                } else {
                    assert(rest[m - 1] == x);
                    assert(rest.contains(x));
                }
            }
            assert forall|x: usize|
                (s.contains(x) && exists|k: int|
                    i <= k < s.len() && s[k] == x && #[trigger] first_occurrence(s, k)) implies
                whole.contains(x) by {
                let k = choose|k: int|
                    i <= k < s.len() && s[k] == x && #[trigger] first_occurrence(s, k);
                if k == i {
                    assert(whole[0] == x);
                } else {
                    assert(rest.contains(x));
                    let m = choose|m: int| 0 <= m < rest.len() && rest[m] == x;
                    assert(whole[m + 1] == x);
                }
            }
            assert forall|k: int| 0 <= k < whole.len() implies s.contains(#[trigger] whole[k]) by {
                if k == 0 {
                    assert(s[i] == whole[0]);
                } else {
                    assert(rest.contains(rest[k - 1]));
                }
            }
        } else {
            assert forall|x: usize| rest.contains(x) implies (s.contains(x) && exists|k: int|
                i <= k < s.len() && s[k] == x && #[trigger] first_occurrence(s, k)) by {}
            assert forall|x: usize|
                (s.contains(x) && exists|k: int|
                    i <= k < s.len() && s[k] == x && #[trigger] first_occurrence(s, k)) implies
                rest.contains(x) by {
                let k = choose|k: int|
                    i <= k < s.len() && s[k] == x && #[trigger] first_occurrence(s, k);
                assert(k != i);
            }
        }
    }
}

/// Whether the instruction set abandons this id.
pub fn instr_abandons(instrs: &Vec<Instruction>, id: usize) -> (r: bool)
    ensures
        r == is_abandoned(instrs@, id),
{
    let f = crate::rewrite::find_instruction(instrs, id);
    match f {
        Option::Some(fi) => match &instrs[fi].action {
            RewriteAction::Abandon => true,
            RewriteAction::Rewrite(_) => false,
        },
        Option::None => false,
    }
}

/// Every id a resolved bookmark target list mentions is a mapping value or an
/// untouched id from the original list.
pub proof fn lemma_targets_after_valid(
    instrs: Seq<Instruction>,
    mapping: Seq<Option<Vec<usize>>>,
    delete_abandoned: bool,
    ts: Seq<usize>,
    n: int,
)
    requires
        mapping_values_valid(mapping, n),
        mapping.len() <= n,
        forall|k: int| 0 <= k < ts.len() ==> (#[trigger] ts[k]) < n,
    ensures
        forall|k: int|
            0 <= k < targets_after(instrs, mapping, delete_abandoned, ts).len() ==> (
            #[trigger] targets_after(instrs, mapping, delete_abandoned, ts)[k]) < n,
    decreases ts.len(),
{
    if ts.len() > 0 {
        lemma_targets_after_valid(instrs, mapping, delete_abandoned, ts.drop_first(), n);
        let head = target_contribution(instrs, mapping, delete_abandoned, ts[0]);
        let tail = targets_after(instrs, mapping, delete_abandoned, ts.drop_first());
        assert forall|k: int| 0 <= k < head.len() implies (#[trigger] head[k]) < n by {
            if ts[0] < mapping.len() && mapping[ts[0] as int] is Some {
                if !(is_abandoned(instrs, ts[0]) && delete_abandoned) {
                }
            } else {
                assert(head[k] == ts[0]);
            }
        }
        assert forall|k: int|
            0 <= k < targets_after(instrs, mapping, delete_abandoned, ts).len() implies (
        #[trigger] targets_after(instrs, mapping, delete_abandoned, ts)[k]) < n by {
            if k < head.len() {
                assert(targets_after(instrs, mapping, delete_abandoned, ts)[k] == head[k]);
            } else {
                assert(targets_after(instrs, mapping, delete_abandoned, ts)[k] == tail[k
                    - head.len()]);
            }
        }
    }
}

/// Retarget every bookmark through the mapping, dropping bookmarks whose
/// targets all pointed at abandoned commits when deletion is asked for.
fn update_bookmarks(
    v: &mut RepoView,
    instrs: &Vec<Instruction>,
    mapping: &Vec<Option<Vec<usize>>>,
    delete_abandoned: bool,
    Ghost(n): Ghost<int>,
)
    requires
        view_wf(old(v)@),
        mapping_values_valid(mapping@, n),
        mapping@.len() <= n,
        view_ids_valid(old(v)@, n),
    ensures
        view_wf(final(v)@),
        final(v)@.workspaces == old(v)@.workspaces,
        final(v)@.tracked_remotes == old(v)@.tracked_remotes,
        final(v)@.bookmarks == bookmarks_after(
            instrs@,
            mapping@,
            delete_abandoned,
            old(v)@.bookmarks,
        ),
        view_ids_valid(final(v)@, n),
{
    let ghost bs0 = v@.bookmarks;
    let nb = v.bookmarks.len();
    let mut out: Vec<crate::view::Bookmark> = Vec::new();
    let mut i: usize = 0;
    proof {
        assert(bs0.skip(0) =~= bs0);
        assert(bookmarks_after(instrs@, mapping@, delete_abandoned, bs0) =~= Seq::<
            BookmarkV,
        >::empty() + bookmarks_after(instrs@, mapping@, delete_abandoned, bs0));
    }
    while i < nb
        invariant
            nb == v.bookmarks.len(),
            i <= nb,
            bs0 == v@.bookmarks,
            v@ == old(v)@,
            view_wf(old(v)@),
            mapping_values_valid(mapping@, n),
            mapping@.len() <= n,
            view_ids_valid(old(v)@, n),
            bookmarks_after(instrs@, mapping@, delete_abandoned, bs0) == Seq::new(
                out@.len(),
                |k: int| out@[k]@,
            ) + bookmarks_after(instrs@, mapping@, delete_abandoned, bs0.skip(i as int)),
            forall|k: int, m: int|
                0 <= k < out@.len() && 0 <= m < out@[k]@.targets.len() ==> (
                #[trigger] out@[k]@.targets[m]) < n,
        decreases nb - i,
    {
        let ghost rest = bs0.skip(i as int);
        proof {
            assert(rest[0] == bs0[i as int]);
            assert(rest.drop_first() =~= bs0.skip(i + 1 as int));
        }
        let nt = v.bookmarks[i].targets.len();
        let mut raw: Vec<usize> = Vec::new();
        let mut k: usize = 0;
        let ghost ts = bs0[i as int].targets;
        proof {
            assert(ts.skip(0) =~= ts);
            assert(targets_after(instrs@, mapping@, delete_abandoned, ts) =~= raw@ + targets_after(
                instrs@,
                mapping@,
                delete_abandoned,
                ts,
            ));
        }
        while k < nt
            invariant
                nb == v.bookmarks.len(),
                i < nb,
                bs0 == v@.bookmarks,
                v@ == old(v)@,
                view_ids_valid(old(v)@, n),
                mapping_values_valid(mapping@, n),
                mapping@.len() <= n,
                nt == v.bookmarks@[i as int].targets@.len(),
                ts == bs0[i as int].targets,
                ts.len() == nt,
                k <= nt,
                targets_after(instrs@, mapping@, delete_abandoned, ts) == raw@ + targets_after(
                    instrs@,
                    mapping@,
                    delete_abandoned,
                    ts.skip(k as int),
                ),
            decreases nt - k,
        {
            let t = v.bookmarks[i].targets[k];
            proof {
                assert(t == ts[k as int]);
                assert(ts.skip(k as int)[0] == ts[k as int]);
                assert(ts.skip(k as int).drop_first() =~= ts.skip(k + 1 as int));
            }
            let ghost raw0 = raw@;
            let mut contributed = false;
            if t < mapping.len() {
                match &mapping[t] {
                    Option::Some(l) => {
                        contributed = true;
                        if instr_abandons(instrs, t) && delete_abandoned {
                            proof {
                                assert(target_contribution(
                                    instrs@,
                                    mapping@,
                                    delete_abandoned,
                                    t,
                                ) =~= Seq::<usize>::empty());
                                assert(raw@ =~= raw0 + target_contribution(
                                    instrs@,
                                    mapping@,
                                    delete_abandoned,
                                    t,
                                ));
                            }
                        } else {
                            let mut cl = clone_ids(l);
                            raw.append(&mut cl);
                            proof {
                                assert(raw@ =~= raw0 + target_contribution(
                                    instrs@,
                                    mapping@,
                                    delete_abandoned,
                                    t,
                                ));
                            }
                        }
                    },
                    Option::None => {},
                }
            }
            if !contributed {
                raw.push(t);
                proof {
                    assert(target_contribution(instrs@, mapping@, delete_abandoned, t) =~= seq![t]);
                    assert(raw@ =~= raw0 + target_contribution(
                        instrs@,
                        mapping@,
                        delete_abandoned,
                        t,
                    ));
                }
            }
            proof {
                assert(raw0 + (target_contribution(instrs@, mapping@, delete_abandoned, t)
                    + targets_after(instrs@, mapping@, delete_abandoned, ts.skip(k + 1 as int)))
                    =~= raw@ + targets_after(
                    instrs@,
                    mapping@,
                    delete_abandoned,
                    ts.skip(k + 1 as int),
                ));
            }
            k += 1;
        }
        proof {
            assert(ts.skip(nt as int) =~= Seq::<usize>::empty());
            assert(raw@ =~= targets_after(instrs@, mapping@, delete_abandoned, ts));
        }
        let nts = dedup_ids(&raw);
        let ghost out0 = out@;
        if nts.len() > 0 {
            let nm = clone_bytes(&v.bookmarks[i].name);
            proof {
                lemma_targets_after_valid(instrs@, mapping@, delete_abandoned, ts, n);
                assert(forall|m: int| 0 <= m < nts@.len() ==> (#[trigger] nts@[m]) < n) by {
                    assert(forall|m: int|
                        0 <= m < nts@.len() ==> raw@.contains(#[trigger] nts@[m]));
                }
            }
            out.push(crate::view::Bookmark { name: nm, targets: nts });
            proof {
                assert(out@[out0.len() as int]@ == (BookmarkV {
                    name: bs0[i as int].name,
                    targets: dedup_first(
                        targets_after(instrs@, mapping@, delete_abandoned, ts),
                        0,
                    ),
                }));
                assert(Seq::new(out@.len(), |m: int| out@[m]@) =~= Seq::new(
                    out0.len(),
                    |m: int| out0[m]@,
                ) + seq![
                    BookmarkV {
                        name: bs0[i as int].name,
                        targets: dedup_first(
                            targets_after(instrs@, mapping@, delete_abandoned, ts),
                            0,
                        ),
                    },
                ]);
                assert(bookmarks_after(instrs@, mapping@, delete_abandoned, bs0) =~= Seq::new(
                    out@.len(),
                    |m: int| out@[m]@,
                ) + bookmarks_after(instrs@, mapping@, delete_abandoned, bs0.skip(i + 1 as int)));
            }
        } else {
            proof {
                assert(bookmarks_after(instrs@, mapping@, delete_abandoned, bs0) =~= Seq::new(
                    out@.len(),
                    |m: int| out@[m]@,
                ) + bookmarks_after(instrs@, mapping@, delete_abandoned, bs0.skip(i + 1 as int)));
            }
        }
        i += 1;
    }
    proof {
        assert(bs0.skip(nb as int) =~= Seq::<BookmarkV>::empty());
        assert(bookmarks_after(instrs@, mapping@, delete_abandoned, bs0.skip(nb as int)) =~= Seq::<
            BookmarkV,
        >::empty());
    }
    v.bookmarks = out;
    proof {
        assert(v@.bookmarks =~= bookmarks_after(instrs@, mapping@, delete_abandoned, bs0));
        assert(v@.workspaces =~= old(v)@.workspaces);
        assert(v@.tracked_remotes =~= old(v)@.tracked_remotes);
        lemma_bookmarks_after_names(instrs@, mapping@, delete_abandoned, bs0);
        lemma_dedup_nonempty(instrs@, mapping@, delete_abandoned, bs0);
    }
}

/// The working-copy replacement of an abandoned commit: an empty commit on
/// the abandoned commit's resulting parents, carrying its author and
/// committer.
pub open spec fn wc_replacement_ok(sv: StoreV, old_wc: CommitV, l: Seq<usize>, nid: usize) -> bool {
    &&& nid < sv.commits.len()
    &&& {
        let nv = sv.commits[nid as int];
        &&& nv.parents == l
        &&& nv.description == Seq::<u8>::empty()
        &&& nv.signature is None
        &&& nv.author == old_wc.author
        &&& nv.committer == old_wc.committer
        &&& nv.tree < sv.trees.len()
        &&& forall|p: usize| tv_get(sv.trees[nv.tree as int], p) == merged_parents_get(sv, l, p)
    }
}

/// How one workspace pointer relates to its old value after the fix-up.
pub open spec fn ws_entry_ok(
    sv: StoreV,
    instrs: Seq<Instruction>,
    mapping: Seq<Option<Vec<usize>>>,
    old_wc: usize,
    new_wc: usize,
) -> bool {
    if old_wc < mapping.len() && mapping[old_wc as int] is Some {
        let l = mapping[old_wc as int].unwrap()@;
        if is_abandoned(instrs, old_wc) {
            wc_replacement_ok(sv, sv.commits[old_wc as int], l, new_wc)
        } else {
            l.len() == 1 && new_wc == l[0]
        }
    } else {
        new_wc == old_wc
    }
}

/// Retarget every workspace's working-copy pointer: a rewritten commit's
/// pointer follows the replacement; an abandoned commit's workspace receives
/// a fresh empty commit on the abandoned commit's resulting parents, so no
/// workspace is ever left pointing at a dead commit.
fn update_workspaces(
    s: &mut Store,
    v: &mut RepoView,
    instrs: &Vec<Instruction>,
    mapping: &Vec<Option<Vec<usize>>>,
)
    requires
        store_wf(old(s)@),
        view_wf(old(v)@),
        mapping@.len() <= old(s)@.commits.len(),
        forall|i: int|
            0 <= i < old(v)@.workspaces.len() ==> (#[trigger] old(v)@.workspaces[i]).wc
                < mapping@.len(),
        forall|i: int, k: int|
            0 <= i < old(v)@.bookmarks.len() && 0 <= k < old(v)@.bookmarks[i].targets.len() ==> (
            #[trigger] old(v)@.bookmarks[i].targets[k]) < old(s)@.commits.len(),
        mapping_values_valid(mapping@, old(s)@.commits.len() as int),
        forall|j: int|
            0 <= j < mapping@.len() && !is_abandoned(instrs@, j as usize) ==> match #[trigger] mapping@[j] {
                Option::Some(l) => l@.len() == 1,
                Option::None => true,
            },
    ensures
        store_wf(final(s)@),
        final(s)@.commits.len() >= old(s)@.commits.len(),
        final(s)@.trees.len() >= old(s)@.trees.len(),
        forall|i: int| 0 <= i < old(s)@.commits.len() ==> final(s)@.commits[i] == old(s)@.commits[i],
        forall|i: int| 0 <= i < old(s)@.trees.len() ==> final(s)@.trees[i] == old(s)@.trees[i],
        view_wf(final(v)@),
        final(v)@.bookmarks == old(v)@.bookmarks,
        final(v)@.tracked_remotes == old(v)@.tracked_remotes,
        final(v)@.workspaces.len() == old(v)@.workspaces.len(),
        forall|i: int|
            0 <= i < old(v)@.workspaces.len() ==> (#[trigger] final(v)@.workspaces[i]).name == old(
                v,
            )@.workspaces[i].name && ws_entry_ok(
                final(s)@,
                instrs@,
                mapping@,
                old(v)@.workspaces[i].wc,
                final(v)@.workspaces[i].wc,
            ),
        view_ids_valid(final(v)@, final(s)@.commits.len() as int),
        forall|c: usize|
            old(s)@.commits.len() <= c < final(s)@.commits.len()
                ==> #[trigger] wc_replacement_for(
                final(s)@,
                instrs@,
                mapping@,
                old(v)@.workspaces,
                c,
            ),
{
    let ghost sv0 = s@;
    let ghost ws0 = v@.workspaces;
    let nw = v.workspaces.len();
    let mut i: usize = 0;
    while i < nw
        invariant
            store_wf(s@),
            store_wf(sv0),
            s@.commits.len() >= sv0.commits.len(),
            s@.trees.len() >= sv0.trees.len(),
            forall|k: int| 0 <= k < sv0.commits.len() ==> s@.commits[k] == sv0.commits[k],
            forall|k: int| 0 <= k < sv0.trees.len() ==> s@.trees[k] == sv0.trees[k],
            view_wf(v@),
            nw == v.workspaces.len(),
            i <= nw,
            ws0 == old(v)@.workspaces,
            v@.bookmarks == old(v)@.bookmarks,
            v@.tracked_remotes == old(v)@.tracked_remotes,
            v@.workspaces.len() == ws0.len(),
            mapping@.len() <= sv0.commits.len(),
            forall|k: int|
                0 <= k < old(v)@.workspaces.len() ==> (#[trigger] old(v)@.workspaces[k]).wc
                    < mapping@.len(),
            forall|i2: int, k2: int|
                0 <= i2 < old(v)@.bookmarks.len() && 0 <= k2 < old(
                    v,
                )@.bookmarks[i2].targets.len() ==> (#[trigger] old(v)@.bookmarks[i2].targets[k2])
                    < sv0.commits.len(),
            mapping_values_valid(mapping@, sv0.commits.len() as int),
            forall|j: int|
                0 <= j < mapping@.len() && !is_abandoned(instrs@, j as usize)
                    ==> match #[trigger] mapping@[j] {
                    Option::Some(l) => l@.len() == 1,
                    Option::None => true,
                },
            forall|k: int|
                0 <= k < ws0.len() ==> (#[trigger] v@.workspaces[k]).name == ws0[k].name,
            forall|k: int| i <= k < ws0.len() ==> (#[trigger] v@.workspaces[k]).wc == ws0[k].wc,
            forall|k: int|
                0 <= k < i ==> ws_entry_ok(
                    s@,
                    instrs@,
                    mapping@,
                    ws0[k].wc,
                    (#[trigger] v@.workspaces[k]).wc,
                ) && v@.workspaces[k].wc < s@.commits.len(),
            forall|c: usize|
                sv0.commits.len() <= c < s@.commits.len() ==> #[trigger] wc_replacement_for(
                    s@,
                    instrs@,
                    mapping@,
                    ws0,
                    c,
                ),
        decreases nw - i,
    {
        let ghost sv_begin = s@;
        let wc = v.workspaces[i].wc;
        proof {
            assert(v@.workspaces[i as int].wc == v.workspaces@[i as int]@.wc);
            assert(wc == ws0[i as int].wc);
            assert(ws0[i as int].wc == old(v)@.workspaces[i as int].wc);
            assert(old(v)@.workspaces[i as int].wc < mapping@.len());
        }
        let mut new_wc = wc;
        if wc < mapping.len() {
            match &mapping[wc] {
                Option::Some(l) => {
                    if instr_abandons(instrs, wc) {
                        // replace the lost working copy by a fresh empty commit
                        let parents = clone_ids(l);
                        let merged = crate::rewrite::merge_parent_trees(s, &parents);
                        let tid = crate::store::write_tree(s, merged);
                        let oldc = crate::store::get_commit(s, wc);
                        let new_c = crate::store::CommitData {
                            parents,
                            tree: tid,
                            author: oldc.author,
                            committer: oldc.committer,
                            description: Vec::new(),
                            signature: Option::None,
                        };
                        let ghost sv_tree = s@;
                        let ghost ncv = new_c@;
                        proof {
                            assert(ncv.parents == l@);
                        }
                        let nid = crate::store::write_commit(s, new_c);
                        new_wc = nid;
                        proof {
                            assert(s@.commits[nid as int] == ncv);
                            assert forall|p: usize|
                                tv_get(s@.trees[ncv.tree as int], p) == merged_parents_get(
                                s@,
                                l@,
                                p,
                            ) by {
                                crate::rewrite::lemma_merged_parents_get_stable(
                                    sv_begin,
                                    sv_tree,
                                    l@,
                                    p,
                                );
                                crate::rewrite::lemma_merged_parents_get_stable(
                                    sv_tree,
                                    s@,
                                    l@,
                                    p,
                                );
                            }
                            assert(wc_replacement_ok(s@, s@.commits[wc as int], l@, nid));
                            lemma_values_valid_mono(
                                mapping@,
                                sv0.commits.len() as int,
                                sv_begin.commits.len() as int,
                            );
                            assert forall|c: usize|
                                sv0.commits.len() <= c < s@.commits.len() implies
                                #[trigger] wc_replacement_for(s@, instrs@, mapping@, ws0, c) by {
                                if c < sv_begin.commits.len() {
                                    lemma_wc_for_stable(
                                        sv_begin,
                                        s@,
                                        instrs@,
                                        mapping@,
                                        ws0,
                                        c,
                                    );
                                } else {
                                    assert(c == nid);
                                    assert(ws0[i as int].wc == wc);
                                    assert(0 <= (i as int) && (i as int) < ws0.len() && {
                                        let wcx = ws0[i as int].wc;
                                        &&& wcx < mapping@.len()
                                        &&& mapping@[wcx as int] is Some
                                        &&& is_abandoned(instrs@, wcx)
                                        &&& wc_replacement_ok(
                                            s@,
                                            s@.commits[wcx as int],
                                            mapping@[wcx as int].unwrap()@,
                                            c,
                                        )
                                    });
                                }
                            }
                        }
                    } else {
                        new_wc = l[0];
                    }
                },
                Option::None => {},
            }
        }
        let ghost wsb = v@.workspaces;
        let nm = clone_bytes(&v.workspaces[i].name);
        v.workspaces.set(i, crate::view::Workspace { name: nm, wc: new_wc });
        proof {
            let svc = s@;
            assert forall|k: int|
                0 <= k < v@.workspaces.len() implies (#[trigger] v@.workspaces[k]) == (if k
                == i as int {
                WorkspaceV { name: ws0[i as int].name, wc: new_wc }
            } else {
                wsb[k]
            }) by {}
            lemma_values_valid_mono(mapping@, sv0.commits.len() as int, sv_begin.commits.len() as int);
            assert forall|k: int|
                0 <= k < i + 1 implies ws_entry_ok(
                svc,
                instrs@,
                mapping@,
                ws0[k].wc,
                (#[trigger] v@.workspaces[k]).wc,
            ) && v@.workspaces[k].wc < svc.commits.len() by {
                if k < i {
                    assert(v@.workspaces[k] == wsb[k]);
                    assert(ws0[k].wc == old(v)@.workspaces[k].wc);
                    assert(old(v)@.workspaces[k].wc < mapping@.len());
                    lemma_ws_entry_ok_stable(
                        sv_begin,
                        svc,
                        instrs@,
                        mapping@,
                        ws0[k].wc,
                        wsb[k].wc,
                    );
                } else {
                    assert(v@.workspaces[k].wc == new_wc);
                }
            }
            assert forall|k: int|
                0 <= k < ws0.len() implies (#[trigger] v@.workspaces[k]).name == ws0[k].name by {
                if k != i as int {
                    assert(v@.workspaces[k] == wsb[k]);
                }
            }
            assert(v@.bookmarks =~= old(v)@.bookmarks);
            assert(v@.tracked_remotes =~= old(v)@.tracked_remotes);
        }
        i += 1;
    }
    proof {
        assert forall|i2: int, k2: int|
            0 <= i2 < v@.bookmarks.len() && 0 <= k2 < v@.bookmarks[i2].targets.len() implies (
        #[trigger] v@.bookmarks[i2].targets[k2]) < s@.commits.len() by {
            assert(old(v)@.bookmarks[i2].targets[k2] < sv0.commits.len());
        }
    }
}

/// A workspace-replacement fact is unaffected by commits appended later.
proof fn lemma_wc_replacement_stable(
    sv1: StoreV,
    sv2: StoreV,
    oc: CommitV,
    l: Seq<usize>,
    c: usize,
)
    requires
        store_wf(sv1),
        store_wf(sv2),
        sv1.commits.len() <= sv2.commits.len(),
        sv1.trees.len() <= sv2.trees.len(),
        forall|k: int| 0 <= k < sv1.commits.len() ==> sv2.commits[k] == sv1.commits[k],
        forall|k: int| 0 <= k < sv1.trees.len() ==> sv2.trees[k] == sv1.trees[k],
        forall|x: int| 0 <= x < l.len() ==> (#[trigger] l[x]) < sv1.commits.len(),
        c < sv1.commits.len(),
        wc_replacement_ok(sv1, oc, l, c),
    ensures
        wc_replacement_ok(sv2, oc, l, c),
{
    let nv = sv1.commits[c as int];
    assert(sv2.commits[c as int] == nv);
    assert(nv.tree < sv1.trees.len());
    assert(sv2.trees[nv.tree as int] == sv1.trees[nv.tree as int]);
    assert forall|p: usize|
        tv_get(sv2.trees[nv.tree as int], p) == merged_parents_get(sv2, l, p) by {
        crate::rewrite::lemma_merged_parents_get_stable(sv1, sv2, l, p);
    }
}

/// The accounted-for status of one appended commit is unaffected by later
/// appends.
proof fn lemma_wc_for_stable(
    sv1: StoreV,
    sv2: StoreV,
    instrs: Seq<Instruction>,
    mapping: Seq<Option<Vec<usize>>>,
    ws0: Seq<WorkspaceV>,
    c: usize,
)
    requires
        store_wf(sv1),
        store_wf(sv2),
        sv1.commits.len() <= sv2.commits.len(),
        sv1.trees.len() <= sv2.trees.len(),
        forall|k: int| 0 <= k < sv1.commits.len() ==> sv2.commits[k] == sv1.commits[k],
        forall|k: int| 0 <= k < sv1.trees.len() ==> sv2.trees[k] == sv1.trees[k],
        mapping.len() <= sv1.commits.len(),
        mapping_values_valid(mapping, sv1.commits.len() as int),
        c < sv1.commits.len(),
        wc_replacement_for(sv1, instrs, mapping, ws0, c),
    ensures
        wc_replacement_for(sv2, instrs, mapping, ws0, c),
{
    let iw = choose|iw: int|
        0 <= iw < ws0.len() && {
            let wc = (#[trigger] ws0[iw]).wc;
            &&& wc < mapping.len()
            &&& mapping[wc as int] is Some
            &&& is_abandoned(instrs, wc)
            &&& wc_replacement_ok(sv1, sv1.commits[wc as int], mapping[wc as int].unwrap()@, c)
        };
    let wcx = ws0[iw].wc;
    let lx = mapping[wcx as int].unwrap()@;
    assert(forall|x: int| 0 <= x < lx.len() ==> (#[trigger] lx[x]) < sv1.commits.len());
    lemma_wc_replacement_stable(sv1, sv2, sv1.commits[wcx as int], lx, c);
    assert(sv2.commits[wcx as int] == sv1.commits[wcx as int]);
    assert(0 <= iw < ws0.len() && {
        let wc = ws0[iw].wc;
        &&& wc < mapping.len()
        &&& mapping[wc as int] is Some
        &&& is_abandoned(instrs, wc)
        &&& wc_replacement_ok(sv2, sv2.commits[wc as int], mapping[wc as int].unwrap()@, c)
    });
}

proof fn lemma_values_valid_mono(mapping: Seq<Option<Vec<usize>>>, n1: int, n2: int)
    requires
        mapping_values_valid(mapping, n1),
        n1 <= n2,
    ensures
        mapping_values_valid(mapping, n2),
{
    assert forall|j: int|
        0 <= j < mapping.len() implies match #[trigger] mapping[j] {
        Option::Some(l) => l@.no_duplicates() && forall|x: int|
            0 <= x < l@.len() ==> (#[trigger] l@[x]) < n2,
        Option::None => true,
    } by {
        match mapping[j] {
            Option::Some(l) => {
                assert(forall|x: int| 0 <= x < l@.len() ==> (#[trigger] l@[x]) < n1);
            },
            Option::None => {},
        }
    }
}

/// A workspace fact is unaffected by commits appended later.
pub(crate) proof fn lemma_ws_entry_ok_stable(
    sv1: StoreV,
    sv2: StoreV,
    instrs: Seq<Instruction>,
    mapping: Seq<Option<Vec<usize>>>,
    old_wc: usize,
    new_wc: usize,
)
    requires
        store_wf(sv1),
        store_wf(sv2),
        sv1.commits.len() <= sv2.commits.len(),
        sv1.trees.len() <= sv2.trees.len(),
        forall|k: int| 0 <= k < sv1.commits.len() ==> sv2.commits[k] == sv1.commits[k],
        forall|k: int| 0 <= k < sv1.trees.len() ==> sv2.trees[k] == sv1.trees[k],
        mapping.len() <= sv1.commits.len(),
        mapping_values_valid(mapping, sv1.commits.len() as int),
        old_wc < mapping.len(),
        new_wc < sv1.commits.len(),
        ws_entry_ok(sv1, instrs, mapping, old_wc, new_wc),
    ensures
        ws_entry_ok(sv2, instrs, mapping, old_wc, new_wc),
{
    if old_wc < mapping.len() && mapping[old_wc as int] is Some {
        let l = mapping[old_wc as int].unwrap()@;
        if is_abandoned(instrs, old_wc) {
            let nv = sv1.commits[new_wc as int];
            assert(sv2.commits[new_wc as int] == nv);
            assert(sv2.commits[old_wc as int] == sv1.commits[old_wc as int]);
            assert(sv2.trees[nv.tree as int] == sv1.trees[nv.tree as int]);
            assert forall|p: usize|
                tv_get(sv2.trees[nv.tree as int], p) == merged_parents_get(sv2, l, p) by {
                crate::rewrite::lemma_merged_parents_get_stable(sv1, sv2, l, p);
            }
        }
    }
}

/// The store-side facts of a finished transformation: prefix preserved, the
/// mapping's length and values valid, and every entry's facts carried to this
/// store. Commands that write further commits after the walk keep exactly
/// these clauses.
pub open spec fn transform_store_post(
    sv0: StoreV,
    sv: StoreV,
    instrs: Seq<Instruction>,
    options: TransformOptions,
    mapping: Seq<Option<Vec<usize>>>,
) -> bool {
    &&& store_wf(sv)
    &&& sv.commits.len() >= sv0.commits.len()
    &&& sv.trees.len() >= sv0.trees.len()
    &&& forall|i: int| 0 <= i < sv0.commits.len() ==> sv.commits[i] == sv0.commits[i]
    &&& forall|i: int| 0 <= i < sv0.trees.len() ==> sv.trees[i] == sv0.trees[i]
    &&& mapping.len() == sv0.commits.len()
    &&& mapping_values_valid(mapping, sv.commits.len() as int)
    &&& forall|j: int|
        0 <= j < mapping.len() ==> mapping_entry_ok(sv0, sv, instrs, options, mapping, j)
}

/// `c` is the fresh empty commit that replaced some workspace's abandoned
/// working copy.
pub open spec fn wc_replacement_for(
    sv: StoreV,
    instrs: Seq<Instruction>,
    mapping: Seq<Option<Vec<usize>>>,
    ws0: Seq<WorkspaceV>,
    c: usize,
) -> bool {
    exists|i: int|
        0 <= i < ws0.len() && {
            let wc = (#[trigger] ws0[i]).wc;
            &&& wc < mapping.len()
            &&& mapping[wc as int] is Some
            &&& is_abandoned(instrs, wc)
            &&& wc_replacement_ok(sv, sv.commits[wc as int], mapping[wc as int].unwrap()@, c)
        }
}

/// Every commit the transformation appended is either some rewritten entry's
/// replacement or a workspace replacement: nothing else is written.
pub open spec fn new_commits_accounted(
    rv0: MutRepoV,
    rv: MutRepoV,
    instrs: Seq<Instruction>,
    mapping: Seq<Option<Vec<usize>>>,
) -> bool {
    forall|c: usize|
        rv0.store.commits.len() <= c < rv.store.commits.len() ==> (
        #[trigger] crate::rewrite::commit_mapped(instrs, mapping, c)) || wc_replacement_for(
            rv.store,
            instrs,
            mapping,
            rv0.view.workspaces,
            c,
        )
}

/// Everything the full transformation guarantees: the walk facts, carried to
/// the final store, the bound on what was written, plus the bookmark and
/// workspace fix-up.
pub open spec fn transform_post(
    rv0: MutRepoV,
    rv: MutRepoV,
    instrs: Seq<Instruction>,
    options: TransformOptions,
    mapping: Seq<Option<Vec<usize>>>,
) -> bool {
    &&& repo_wf(rv)
    &&& transform_store_post(rv0.store, rv.store, instrs, options, mapping)
    &&& new_commits_accounted(rv0, rv, instrs, mapping)
    &&& rv.view.bookmarks == bookmarks_after(
        instrs,
        mapping,
        options.delete_abandoned_bookmarks,
        rv0.view.bookmarks,
    )
    &&& rv.view.tracked_remotes == rv0.view.tracked_remotes
    &&& rv.view.workspaces.len() == rv0.view.workspaces.len()
    &&& forall|i: int|
        0 <= i < rv0.view.workspaces.len() ==> (#[trigger] rv.view.workspaces[i]).name
            == rv0.view.workspaces[i].name && ws_entry_ok(
            rv.store,
            instrs,
            mapping,
            rv0.view.workspaces[i].wc,
            rv.view.workspaces[i].wc,
        )
}

/// Rewrite every descendant of the targets exactly once and fix the view up:
/// bookmarks follow the mapping (or are deleted when they pointed at an
/// abandoned commit and deletion was asked for), and a workspace whose
/// working copy was abandoned receives a fresh empty commit.
pub fn transform_descendants(
    repo: &mut MutRepo,
    instrs: &Vec<Instruction>,
    options: TransformOptions,
) -> (res: Result<Vec<Option<Vec<usize>>>, EngineError>)
    requires
        repo_wf(old(repo)@),
        forall|k1: int, k2: int|
            0 <= k1 < k2 < instrs@.len() ==> (#[trigger] instrs@[k1].id) != (
            #[trigger] instrs@[k2].id),
    ensures
        match res {
            Result::Err(e) => final(repo)@ == old(repo)@ && !instrs_valid(
                instrs@,
                old(repo)@.store.commits.len() as int,
                old(repo)@.store.trees.len() as int,
            ) && (match e {
                EngineError::ImmutableCommit { id } => id == 0 && instr_ids(instrs@).contains(0),
                EngineError::Backend(BackendError::MissingCommit { id }) => id >= old(
                    repo,
                )@.store.commits.len() && (instr_ids(instrs@).contains(id) || exists|k2: int|
                    0 <= k2 < instrs@.len() && (match #[trigger] instrs@[k2].action {
                        RewriteAction::Rewrite(e2) => match e2.new_parents {
                            Option::Some(ov2) => ov2@.contains(id),
                            Option::None => false,
                        },
                        RewriteAction::Abandon => false,
                    })),
                EngineError::Backend(BackendError::MissingTree { id }) => id >= old(
                    repo,
                )@.store.trees.len() && exists|k2: int|
                    0 <= k2 < instrs@.len() && (match #[trigger] instrs@[k2].action {
                        RewriteAction::Rewrite(e2) => match e2.new_tree {
                            Option::Some(t2) => t2 == id,
                            Option::None => false,
                        },
                        RewriteAction::Abandon => false,
                    }),
                _ => false,
            }),
            Result::Ok(mapping) => instrs_valid(
                instrs@,
                old(repo)@.store.commits.len() as int,
                old(repo)@.store.trees.len() as int,
            ) && transform_post(old(repo)@, final(repo)@, instrs@, options, mapping@),
        },
{
    let ghost rv0 = repo@;
    let n_commits = repo.store.commits.len();
    let n_trees = repo.store.trees.len();
    // validate the instruction set before touching anything
    let ni = instrs.len();
    let mut k: usize = 0;
    while k < ni
        invariant
            ni == instrs@.len(),
            k <= ni,
            n_commits == repo@.store.commits.len(),
            n_trees == repo@.store.trees.len(),
            repo@ == old(repo)@,
            forall|m: int| 0 <= m < k ==> 0 < (#[trigger] instrs@[m].id) < n_commits,
            forall|m: int|
                0 <= m < k ==> match #[trigger] instrs@[m].action {
                    RewriteAction::Rewrite(edit) => {
                        &&& match edit.new_parents {
                            Option::Some(ov) => forall|x: int|
                                0 <= x < ov@.len() ==> (#[trigger] ov@[x]) < n_commits,
                            Option::None => true,
                        }
                        &&& match edit.new_tree {
                            Option::Some(t) => t < n_trees,
                            Option::None => true,
                        }
                    },
                    RewriteAction::Abandon => true,
                },
        decreases ni - k,
    {
        let id = instrs[k].id;
        if id >= n_commits {
            proof {
                assert(!(0 < instrs@[k as int].id < n_commits));
                assert(instr_ids(instrs@)[k as int] == id);
                assert(instr_ids(instrs@).contains(id));
            }
            return Result::Err(EngineError::Backend(BackendError::MissingCommit { id }));
        }
        if id == 0 {
            proof {
                assert(instr_ids(instrs@)[k as int] == 0);
            }
            return Result::Err(EngineError::ImmutableCommit { id });
        }
        match &instrs[k].action {
            RewriteAction::Abandon => {},
            RewriteAction::Rewrite(edit) => {
                match &edit.new_parents {
                    Option::Some(ov) => {
                        let no = ov.len();
                        let mut m: usize = 0;
                        while m < no
                            invariant
                                no == ov@.len(),
                                m <= no,
                                k < ni,
                                ni == instrs@.len(),
                                n_commits == repo@.store.commits.len(),
                                n_trees == repo@.store.trees.len(),
                                repo@ == old(repo)@,
                                (match instrs@[k as int].action {
                                    RewriteAction::Rewrite(e2) => match e2.new_parents {
                                        Option::Some(ov2) => ov2@ == ov@,
                                        Option::None => false,
                                    },
                                    RewriteAction::Abandon => false,
                                }),
                                forall|x: int| 0 <= x < m ==> (#[trigger] ov@[x]) < n_commits,
                            decreases no - m,
                        {
                            if ov[m] >= n_commits {
                                proof {
                                    if instrs_valid(instrs@, n_commits as int, n_trees as int) {
                                        assert(match instrs@[k as int].action {
                                            RewriteAction::Rewrite(e2) => match e2.new_parents {
                                                Option::Some(ov2) => forall|x: int|
                                                    0 <= x < ov2@.len() ==> (#[trigger] ov2@[x])
                                                        < n_commits,
                                                Option::None => true,
                                            },
                                            RewriteAction::Abandon => true,
                                        });
                                        assert(ov@[m as int] < n_commits);
                                    }
                                }
                                proof {
                                    assert(ov@.contains(ov@[m as int]));
                                    assert(0 <= (k as int) && (k as int) < instrs@.len() && (
                                    match instrs@[k as int].action {
                                        RewriteAction::Rewrite(e2) => match e2.new_parents {
                                            Option::Some(ov2) => ov2@.contains(ov@[m as int]),
                                            Option::None => false,
                                        },
                                        RewriteAction::Abandon => false,
                                    }));
                                }
                                return Result::Err(
                                    EngineError::Backend(BackendError::MissingCommit { id: ov[m] }),
                                );
                            }
                            m += 1;
                        }
                    },
                    Option::None => {},
                }
                match &edit.new_tree {
                    Option::Some(t) => {
                        if *t >= n_trees {
                            proof {
                                if instrs_valid(instrs@, n_commits as int, n_trees as int) {
                                    assert(match instrs@[k as int].action {
                                        RewriteAction::Rewrite(e2) => match e2.new_tree {
                                            Option::Some(t2) => t2 < n_trees,
                                            Option::None => true,
                                        },
                                        RewriteAction::Abandon => true,
                                    });
                                }
                            }
                            proof {
                                assert(0 <= (k as int) && (k as int) < instrs@.len() && (
                                match instrs@[k as int].action {
                                    RewriteAction::Rewrite(e2) => match e2.new_tree {
                                        Option::Some(t2) => t2 == *t,
                                        Option::None => false,
                                    },
                                    RewriteAction::Abandon => false,
                                }));
                            }
                            return Result::Err(
                                EngineError::Backend(BackendError::MissingTree { id: *t }),
                            );
                        }
                    },
                    Option::None => {},
                }
            },
        }
        k += 1;
    }
    proof {
        assert(instrs_valid(instrs@, n_commits as int, n_trees as int));
    }
    // the walk
    let mapping = rewrite_walk(&mut repo.store, instrs, options);
    let ghost sv_walk = repo.store@;
    proof {
        assert(walk_post(rv0.store, sv_walk, instrs@, options, mapping@));
        assert forall|j: int|
            0 <= j < mapping@.len() && !is_abandoned(instrs@, j as usize)
                implies match #[trigger] mapping@[j] {
            Option::Some(l) => l@.len() == 1,
            Option::None => true,
        } by {
            assert(mapping_entry_ok(rv0.store, sv_walk, instrs@, options, mapping@, j));
            match mapping@[j] {
                Option::Some(l) => {
                    lemma_find_instr_spec(instrs@, j as usize, 0);
                },
                Option::None => {},
            }
        }
    }
    // view fix-up
    update_bookmarks(
        &mut repo.view,
        instrs,
        &mapping,
        options.delete_abandoned_bookmarks,
        Ghost(sv_walk.commits.len() as int),
    );
    proof {
        assert(view_ids_valid(rv0.view, rv0.store.commits.len() as int));
        assert forall|i: int|
            0 <= i < repo@.view.workspaces.len() implies (#[trigger] repo@.view.workspaces[i]).wc
            < mapping@.len() by {
            assert(rv0.view.workspaces[i].wc < rv0.store.commits.len());
        }
        assert forall|i2: int, k2: int|
            0 <= i2 < repo@.view.bookmarks.len() && 0 <= k2
            < repo@.view.bookmarks[i2].targets.len() implies (
        #[trigger] repo@.view.bookmarks[i2].targets[k2])
            < repo@.store.commits.len() by {}
    }
    let ghost ws_before_fixup = repo.view@.workspaces;
    update_workspaces(&mut repo.store, &mut repo.view, instrs, &mapping);
    proof {
        let rv = repo@;
        lemma_values_valid_mono(
            mapping@,
            sv_walk.commits.len() as int,
            rv.store.commits.len() as int,
        );
        assert(ws_before_fixup == rv0.view.workspaces);
        assert(new_commits_accounted(rv0, rv, instrs@, mapping@)) by {
            assert forall|c: usize|
                rv0.store.commits.len() <= c < rv.store.commits.len() implies (
            #[trigger] crate::rewrite::commit_mapped(instrs@, mapping@, c)) || wc_replacement_for(
                rv.store,
                instrs@,
                mapping@,
                rv0.view.workspaces,
                c,
            ) by {
                if c < sv_walk.commits.len() {
                    assert(crate::rewrite::commit_mapped(instrs@, mapping@, c));
                } else {
                    assert(wc_replacement_for(
                        rv.store,
                        instrs@,
                        mapping@,
                        ws_before_fixup,
                        c,
                    ));
                }
            }
        }
        assert forall|j: int|
            0 <= j < mapping@.len() implies mapping_entry_ok(
            rv0.store,
            rv.store,
            instrs@,
            options,
            mapping@,
            j,
        ) by {
            lemma_entry_ok_stable(
                rv0.store,
                sv_walk,
                rv.store,
                instrs@,
                options,
                mapping@,
                mapping@,
                j,
            );
        }
        assert(transform_post(rv0, rv, instrs@, options, mapping@));
    }
    Result::Ok(mapping)
}

/// After a full transformation that abandons a target set, no surviving
/// commit has an abandoned target among its parents: not a rewritten
/// replacement, not a fresh working-copy commit, and not a commit the pass
/// left untouched. Content addressing makes one exception necessary: the
/// hypotheses exclude a replacement whose fields coincide exactly with an
/// abandoned commit's, and parent overrides naming abandoned ids.
pub proof fn law_survivors_unlink_abandoned(
    rv0: MutRepoV,
    rv: MutRepoV,
    instrs: Seq<Instruction>,
    options: TransformOptions,
    mapping: Seq<Option<Vec<usize>>>,
    c: usize,
)
    requires
        store_wf(rv0.store),
        instrs_valid(instrs, rv0.store.commits.len() as int, rv0.store.trees.len() as int),
        transform_post(rv0, rv, instrs, options, mapping),
        crate::rewrite::no_replacement_is_abandoned(instrs, mapping),
        crate::rewrite::overrides_avoid_abandoned(instrs),
        (rv0.store.commits.len() <= c < rv.store.commits.len()) || (c
            < rv0.store.commits.len() && !crate::graph::descends(
            rv0.store,
            c,
            instr_ids(instrs),
        )),
    ensures
        forall|k: int|
            0 <= k < rv.store.commits[c as int].parents.len() ==> !is_abandoned(
                instrs,
                #[trigger] rv.store.commits[c as int].parents[k],
            ),
{
    if c < rv0.store.commits.len() && !crate::graph::descends(rv0.store, c, instr_ids(instrs)) {
        crate::rewrite::law_no_surviving_parent_abandoned(
            rv0.store,
            rv.store,
            instrs,
            options,
            mapping,
            c,
        );
    } else {
        assert(rv0.store.commits.len() <= c < rv.store.commits.len());
        assert(crate::rewrite::commit_mapped(instrs, mapping, c) || wc_replacement_for(
            rv.store,
            instrs,
            mapping,
            rv0.view.workspaces,
            c,
        ));
        if crate::rewrite::commit_mapped(instrs, mapping, c) {
            crate::rewrite::law_no_surviving_parent_abandoned(
                rv0.store,
                rv.store,
                instrs,
                options,
                mapping,
                c,
            );
        } else {
            // a fresh working-copy commit: its parents are the abandoned
            // working copy's replacement list, which never names an
            // abandoned target
            let iw = choose|iw: int|
                0 <= iw < rv0.view.workspaces.len() && {
                    let wc = (#[trigger] rv0.view.workspaces[iw]).wc;
                    &&& wc < mapping.len()
                    &&& mapping[wc as int] is Some
                    &&& is_abandoned(instrs, wc)
                    &&& wc_replacement_ok(
                        rv.store,
                        rv.store.commits[wc as int],
                        mapping[wc as int].unwrap()@,
                        c,
                    )
                };
            let wc = rv0.view.workspaces[iw].wc;
            let l = mapping[wc as int].unwrap();
            assert(rv.store.commits[c as int].parents == l@);
            crate::rewrite::law_abandoned_unreferenced(
                rv0.store,
                rv.store,
                instrs,
                options,
                mapping,
                wc as int,
            );
        }
    }
}

/// Every bookmark the fix-up keeps points somewhere, without repeating a
/// target.
proof fn lemma_dedup_nonempty(
    instrs: Seq<Instruction>,
    mapping: Seq<Option<Vec<usize>>>,
    delete_abandoned: bool,
    bs: Seq<BookmarkV>,
)
    ensures
        forall|k: int|
            0 <= k < bookmarks_after(instrs, mapping, delete_abandoned, bs).len() ==> (
            #[trigger] bookmarks_after(instrs, mapping, delete_abandoned, bs)[k]).targets.len()
                > 0,
        forall|k: int|
            0 <= k < bookmarks_after(instrs, mapping, delete_abandoned, bs).len() ==> (
            #[trigger] bookmarks_after(
                instrs,
                mapping,
                delete_abandoned,
                bs,
            )[k]).targets.no_duplicates(),
    decreases bs.len(),
{
    if bs.len() > 0 {
        lemma_dedup_nonempty(instrs, mapping, delete_abandoned, bs.drop_first());
        let nts = dedup_first(
            targets_after(instrs, mapping, delete_abandoned, bs[0].targets),
            0,
        );
        lemma_dedup_first_props(targets_after(instrs, mapping, delete_abandoned, bs[0].targets), 0);
        let rest = bookmarks_after(instrs, mapping, delete_abandoned, bs.drop_first());
        let whole = bookmarks_after(instrs, mapping, delete_abandoned, bs);
        assert forall|k: int| 0 <= k < whole.len() implies (#[trigger] whole[k]).targets.len() > 0
            && (#[trigger] whole[k]).targets.no_duplicates() by {
            if nts.len() == 0 {
                assert(whole[k] == rest[k]);
            } else {
                if k > 0 {
                    assert(whole[k] == rest[k - 1]);
                }
            }
        }
    }
}

} // verus!
