//! The descendant rewriter.
//!
//! Given instructions for a set of target commits (abandon, or rewrite with
//! field edits), the walk visits every commit at or below a target exactly
//! once, in increasing id order — a topological order, since parents point
//! strictly below their commit. It resolves each commit's parents through the
//! mapping built so far, deduplicates them, and either records the abandoned
//! commit's parent set or writes the replacement commit.

use vstd::prelude::*;

use crate::graph::descends;
use crate::graph::kept_parents;
use crate::graph::lemma_reachable_stable;
use crate::graph::parent_kept;
use crate::graph::reachable;
use crate::graph::simplify_parents;
use crate::store::store_wf;
use crate::store::CommitV;
use crate::store::Store;
use crate::store::StoreV;
use crate::tree::tv_get;
use crate::merge::merge_val;
use crate::merge::mv_absent;
use crate::merge::MergeVal;

verus! {

/// Field edits one rewritten commit should receive.
#[derive(Debug)]
pub struct CommitEdit {
    /// Replace the description.
    pub new_description: Option<Vec<u8>>,
    /// Reset the author to the committer.
    pub set_author_to_committer: bool,
    /// Replace the author's name and email, keeping the author timestamp.
    pub new_author: Option<(Vec<u8>, Vec<u8>)>,
    /// Replace the committer stamp. The engine has no clock or configured
    /// user: a caller that wants the committer refreshed supplies it here.
    pub new_committer: Option<crate::store::Signature>,
    /// Drop any cryptographic signature.
    pub drop_signature: bool,
    /// Replace the tree outright.
    pub new_tree: Option<usize>,
    /// Override the resolved parents before deduplication.
    pub new_parents: Option<Vec<usize>>,
    /// Recompute the tree by the three-way merge instead of keeping it.
    pub rebase_tree: bool,
}

/// What to do with one target commit.
#[derive(Debug)]
pub enum RewriteAction {
    /// Emit no replacement: descendants adopt the resolved parent set.
    Abandon,
    /// Write a replacement commit with these edits.
    Rewrite(CommitEdit),
}

/// One target commit with its action.
#[derive(Debug)]
pub struct Instruction {
    pub id: usize,
    pub action: RewriteAction,
}

/// How commits that are not targets themselves are treated.
#[derive(Clone, Copy)]
pub struct TransformOptions {
    /// Recompute descendant trees by the three-way merge (rebase) instead of
    /// keeping them unchanged (reparent).
    pub rebase_descendants: bool,
    /// Delete bookmarks that point at abandoned commits instead of moving
    /// them to the abandoned commit's parents.
    pub delete_abandoned_bookmarks: bool,
}

/// Index of the instruction for `id`, or `-1`.
pub open spec fn find_instr(instrs: Seq<Instruction>, id: usize, i: int) -> int
    decreases instrs.len() - i
        when 0 <= i <= instrs.len()
{
    if i >= instrs.len() {
        -1
    } else if instrs[i].id == id {
        i
    } else {
        find_instr(instrs, id, i + 1)
    }
}

/// The ids the instructions name: the rewrite targets.
pub open spec fn instr_ids(instrs: Seq<Instruction>) -> Seq<usize> {
    Seq::new(instrs.len(), |i: int| instrs[i].id)
}

/// Whether `id` is a target to be abandoned.
pub open spec fn is_abandoned(instrs: Seq<Instruction>, id: usize) -> bool {
    let f = find_instr(instrs, id, 0);
    f >= 0 && instrs[f].action is Abandon
}

pub proof fn lemma_find_instr_spec(instrs: Seq<Instruction>, id: usize, i: int)
    requires
        0 <= i <= instrs.len(),
    ensures
        find_instr(instrs, id, i) == -1 ==> forall|k: int| i <= k < instrs.len() ==> instrs[k].id
            != id,
        find_instr(instrs, id, i) != -1 ==> i <= find_instr(instrs, id, i) < instrs.len() && instrs[
            find_instr(instrs, id, i)
        ].id == id,
    decreases instrs.len() - i,
{
    if i < instrs.len() && instrs[i].id != id {
        lemma_find_instr_spec(instrs, id, i + 1);
    }
}

pub proof fn lemma_find_instr_member(instrs: Seq<Instruction>, id: usize)
    ensures
        (find_instr(instrs, id, 0) >= 0) == instr_ids(instrs).contains(id),
{
    lemma_find_instr_spec(instrs, id, 0);
    if find_instr(instrs, id, 0) >= 0 {
        assert(instr_ids(instrs)[find_instr(instrs, id, 0)] == id);
    }
    if instr_ids(instrs).contains(id) {
        let k = choose|k: int| 0 <= k < instr_ids(instrs).len() && instr_ids(instrs)[k] == id;
        assert(instrs[k].id == id);
        if find_instr(instrs, id, 0) == -1 {
            assert(instrs[k].id != id);
        }
    }
}

/// What one old id stands for after the walk: the replacement list for a
/// mapped commit, or the id itself.
pub open spec fn resolve_id(mapping: Seq<Option<Vec<usize>>>, p: usize) -> Seq<usize> {
    if p < mapping.len() && mapping[p as int] is Some {
        mapping[p as int].unwrap()@
    } else {
        seq![p]
    }
}

/// A parent list resolved through the mapping, in order, flattened.
pub open spec fn resolved_parents(parents: Seq<usize>, mapping: Seq<Option<Vec<usize>>>) -> Seq<
    usize,
>
    decreases parents.len(),
{
    if parents.len() == 0 {
        Seq::<usize>::empty()
    } else {
        resolve_id(mapping, parents[0]) + resolved_parents(parents.drop_first(), mapping)
    }
}

pub proof fn lemma_resolved_parents_membership(
    parents: Seq<usize>,
    mapping: Seq<Option<Vec<usize>>>,
    x: usize,
)
    ensures
        resolved_parents(parents, mapping).contains(x) <==> exists|k: int|
            0 <= k < parents.len() && resolve_id(mapping, #[trigger] parents[k]).contains(x),
    decreases parents.len(),
{
    if parents.len() > 0 {
        lemma_resolved_parents_membership(parents.drop_first(), mapping, x);
        let head = resolve_id(mapping, parents[0]);
        let tail = resolved_parents(parents.drop_first(), mapping);
        let whole = head + tail;
        if whole.contains(x) {
            let m = choose|m: int| 0 <= m < whole.len() && whole[m] == x;
            if m < head.len() {
                assert(head[m] == x);
                assert(head.contains(x));
            } else {
                assert(tail[m - head.len()] == x);
                assert(tail.contains(x));
                let k = choose|k: int|
                    0 <= k < parents.drop_first().len() && resolve_id(
                        mapping,
                        #[trigger] parents.drop_first()[k],
                    ).contains(x);
                assert(parents[k + 1] == parents.drop_first()[k]);
            }
        }
        if exists|k: int|
            0 <= k < parents.len() && resolve_id(mapping, #[trigger] parents[k]).contains(x) {
            let k = choose|k: int|
                0 <= k < parents.len() && resolve_id(mapping, #[trigger] parents[k]).contains(x);
            if k == 0 {
                let m = choose|m: int| 0 <= m < head.len() && head[m] == x;
                assert(whole[m] == x);
            } else {
                assert(parents.drop_first()[k - 1] == parents[k]);
                assert(tail.contains(x));
                let m = choose|m: int| 0 <= m < tail.len() && tail[m] == x;
                assert(whole[head.len() + m] == x);
            }
        }
    }
}

/// Resolved parents stay the same when the mapping only grows past the ids a
/// parent list mentions.
pub proof fn lemma_resolved_parents_stable(
    parents: Seq<usize>,
    m1: Seq<Option<Vec<usize>>>,
    m2: Seq<Option<Vec<usize>>>,
)
    requires
        m1.len() <= m2.len(),
        forall|i: int| 0 <= i < m1.len() ==> m2[i] == m1[i],
        forall|k: int| 0 <= k < parents.len() ==> (#[trigger] parents[k]) < m1.len(),
    ensures
        resolved_parents(parents, m2) == resolved_parents(parents, m1),
    decreases parents.len(),
{
    if parents.len() > 0 {
        assert(resolve_id(m2, parents[0]) == resolve_id(m1, parents[0]));
        assert(forall|k: int|
            0 <= k < parents.drop_first().len() ==> (#[trigger] parents.drop_first()[k])
                < m1.len());
        lemma_resolved_parents_stable(parents.drop_first(), m1, m2);
    }
}

/// Deduplication is unaffected by commits appended later.
pub proof fn lemma_kept_parents_stable(sv1: StoreV, sv2: StoreV, ids: Seq<usize>, i: int)
    requires
        store_wf(sv1),
        store_wf(sv2),
        sv1.commits.len() <= sv2.commits.len(),
        forall|k: int| 0 <= k < sv1.commits.len() ==> sv2.commits[k] == sv1.commits[k],
        forall|k: int| 0 <= k < ids.len() ==> (#[trigger] ids[k]) < sv1.commits.len(),
        0 <= i <= ids.len(),
    ensures
        kept_parents(sv2, ids, i) == kept_parents(sv1, ids, i),
    decreases ids.len() - i,
{
    if i < ids.len() {
        assert(parent_kept(sv2, ids, i) == parent_kept(sv1, ids, i)) by {
            assert forall|j: int|
                0 <= j < ids.len() && ids[j] != ids[i] implies (reachable(
                sv1,
                ids[i],
                #[trigger] ids[j],
            ) == reachable(sv2, ids[i], ids[j])) by {
                lemma_reachable_stable(sv1, sv2, ids[i], ids[j]);
            }
        }
        lemma_kept_parents_stable(sv1, sv2, ids, i + 1);
    }
}

/// The tree a set of parents presents, path by path: nothing for no parents,
/// the parent's own tree for one, and the value-level merge against an empty
/// base folded over the list for several.
pub open spec fn merged_parents_get(sv: StoreV, parents: Seq<usize>, p: usize) -> MergeVal
    decreases parents.len(),
{
    if parents.len() == 0 {
        mv_absent()
    } else if parents.len() == 1 {
        tv_get(sv.trees[sv.commits[parents[0] as int].tree as int], p)
    } else {
        merge_val(
            mv_absent(),
            merged_parents_get(sv, parents.drop_last(), p),
            tv_get(sv.trees[sv.commits[parents.last() as int].tree as int], p),
        )
    }
}

/// How a replacement commit's tree is chosen.
pub enum TreeRule {
    /// Keep the old tree: reparent only.
    Keep,
    /// Recompute by the three-way merge of old parent view, new parent view
    /// and the old tree: rebase.
    Rebase,
    /// Take this tree id outright.
    SetTo(usize),
}

/// The description a rewritten commit receives.
pub open spec fn edited_description(edit: CommitEdit, old_c: CommitV) -> Seq<u8> {
    match edit.new_description {
        Option::Some(d) => d@,
        Option::None => old_c.description,
    }
}

/// The committer a rewritten commit receives: the supplied stamp, or the old
/// one unchanged.
pub open spec fn edited_committer(edit: CommitEdit, old_c: CommitV) -> crate::store::SigV {
    match edit.new_committer {
        Option::Some(s) => s@,
        Option::None => old_c.committer,
    }
}

/// The author a rewritten commit receives: reset to the (possibly refreshed)
/// committer, or a new name and email that keep the author timestamp, or
/// unchanged.
pub open spec fn edited_author(edit: CommitEdit, old_c: CommitV) -> crate::store::SigV {
    if edit.set_author_to_committer {
        edited_committer(edit, old_c)
    } else {
        match edit.new_author {
            Option::Some(ne) => crate::store::SigV {
                name: ne.0@,
                email: ne.1@,
                timestamp: old_c.author.timestamp,
            },
            Option::None => old_c.author,
        }
    }
}

/// The signature a rewritten commit receives.
pub open spec fn edited_signature(edit: CommitEdit, old_c: CommitV) -> Option<Seq<u8>> {
    if edit.drop_signature {
        Option::None
    } else {
        old_c.signature
    }
}

/// The tree rule an instruction's edit asks for.
pub open spec fn edit_tree_rule(edit: CommitEdit) -> TreeRule {
    match edit.new_tree {
        Option::Some(t) => TreeRule::SetTo(t),
        Option::None => if edit.rebase_tree {
            TreeRule::Rebase
        } else {
            TreeRule::Keep
        },
    }
}

/// The parent list an edit submits for deduplication: an override, or the
/// parents resolved through the mapping.
pub open spec fn edit_parent_input(edit: CommitEdit, rp: Seq<usize>) -> Seq<usize> {
    match edit.new_parents {
        Option::Some(ov) => ov@,
        Option::None => rp,
    }
}

/// The replacement commit's tree satisfies its rule.
pub open spec fn tree_ok(sv: StoreV, old_c: CommitV, np: Seq<usize>, nv: CommitV, rule: TreeRule) -> bool {
    match rule {
        TreeRule::SetTo(t) => nv.tree == t,
        TreeRule::Keep => nv.tree == old_c.tree,
        TreeRule::Rebase => nv.tree < sv.trees.len() && forall|p: usize|
            tv_get(sv.trees[nv.tree as int], p) == merge_val(
                merged_parents_get(sv, old_c.parents, p),
                merged_parents_get(sv, np, p),
                tv_get(sv.trees[old_c.tree as int], p),
            ),
    }
}

/// The replacement commit written for old commit `id`: parents deduplicated,
/// fields per the edit, committer kept, tree per the rule.
pub open spec fn replacement_ok(
    sv: StoreV,
    old_c: CommitV,
    pin: Seq<usize>,
    l: Seq<usize>,
    desc: Seq<u8>,
    author: crate::store::SigV,
    committer: crate::store::SigV,
    sig: Option<Seq<u8>>,
    rule: TreeRule,
) -> bool {
    &&& l.len() == 1
    &&& l[0] < sv.commits.len()
    &&& {
        let nv = sv.commits[l[0] as int];
        &&& nv.parents == kept_parents(sv, pin, 0)
        &&& nv.description == desc
        &&& nv.author == author
        &&& nv.committer == committer
        &&& nv.signature == sig
        &&& tree_ok(sv, old_c, kept_parents(sv, pin, 0), nv, rule)
    }
}

/// What one mapping entry says, and that it says the truth: unmapped commits
/// are the non-descendants; an abandoned target maps to its deduplicated
/// resolved parents; everything else maps to exactly one replacement commit
/// with the right fields.
pub open spec fn mapping_entry_ok(
    sv0: StoreV,
    sv: StoreV,
    instrs: Seq<Instruction>,
    options: TransformOptions,
    mapping: Seq<Option<Vec<usize>>>,
    id: int,
) -> bool {
    match mapping[id] {
        Option::None => !descends(sv0, id as usize, instr_ids(instrs)),
        Option::Some(l) => {
            &&& descends(sv0, id as usize, instr_ids(instrs))
            &&& {
                let old_c = sv0.commits[id];
                let rp = resolved_parents(old_c.parents, mapping);
                let f = find_instr(instrs, id as usize, 0);
                if f >= 0 {
                    match instrs[f].action {
                        RewriteAction::Abandon => l@ == kept_parents(sv, rp, 0),
                        RewriteAction::Rewrite(edit) => replacement_ok(
                            sv,
                            old_c,
                            edit_parent_input(edit, rp),
                            l@,
                            edited_description(edit, old_c),
                            edited_author(edit, old_c),
                            edited_committer(edit, old_c),
                            edited_signature(edit, old_c),
                            edit_tree_rule(edit),
                        ),
                    }
                } else {
                    replacement_ok(
                        sv,
                        old_c,
                        rp,
                        l@,
                        old_c.description,
                        old_c.author,
                        old_c.committer,
                        old_c.signature,
                        if options.rebase_descendants {
                            TreeRule::Rebase
                        } else {
                            TreeRule::Keep
                        },
                    )
                }
            }
        },
    }
}

/// Mapping targets are distinct ids of existing commits.
pub open spec fn mapping_values_valid(mapping: Seq<Option<Vec<usize>>>, n: int) -> bool {
    forall|j: int|
        0 <= j < mapping.len() ==> match #[trigger] mapping[j] {
            Option::Some(l) => l@.no_duplicates() && forall|x: int|
                0 <= x < l@.len() ==> (#[trigger] l@[x]) < n,
            Option::None => true,
        }
}

/// Everything a resolved parent list mentions is a valid commit id.
pub proof fn lemma_resolved_parents_valid(
    parents: Seq<usize>,
    mapping: Seq<Option<Vec<usize>>>,
    n: int,
)
    requires
        mapping_values_valid(mapping, n),
        forall|k: int| 0 <= k < parents.len() ==> (#[trigger] parents[k]) < n,
    ensures
        forall|x: int|
            0 <= x < resolved_parents(parents, mapping).len() ==> (#[trigger] resolved_parents(
                parents,
                mapping,
            )[x]) < n,
    decreases parents.len(),
{
    if parents.len() > 0 {
        lemma_resolved_parents_valid(parents.drop_first(), mapping, n);
        let head = resolve_id(mapping, parents[0]);
        let tail = resolved_parents(parents.drop_first(), mapping);
        assert forall|x: int| 0 <= x < head.len() implies (#[trigger] head[x]) < n by {
            if parents[0] < mapping.len() && mapping[parents[0] as int] is Some {
            } else {
                assert(head[x] == parents[0]);
            }
        }
        assert forall|x: int|
            0 <= x < resolved_parents(parents, mapping).len() implies (
        #[trigger] resolved_parents(parents, mapping)[x]) < n by {
            if x < head.len() {
                assert(resolved_parents(parents, mapping)[x] == head[x]);
            } else {
                assert(resolved_parents(parents, mapping)[x] == tail[x - head.len()]);
            }
        }
    }
}

/// Every kept parent comes from the input list.
pub proof fn lemma_kept_parents_valid(sv: StoreV, ids: Seq<usize>, n: int)
    requires
        forall|k: int| 0 <= k < ids.len() ==> (#[trigger] ids[k]) < n,
    ensures
        forall|x: int|
            0 <= x < kept_parents(sv, ids, 0).len() ==> (#[trigger] kept_parents(sv, ids, 0)[x])
                < n,
        kept_parents(sv, ids, 0).no_duplicates(),
{
    crate::graph::lemma_kept_parents_membership(sv, ids, 0);
    let kp = kept_parents(sv, ids, 0);
    assert forall|x: int| 0 <= x < kp.len() implies (#[trigger] kp[x]) < n by {
        assert(kp.contains(kp[x]));
        let k = choose|k: int|
            0 <= k < ids.len() && ids[k] == kp[x] && #[trigger] parent_kept(sv, ids, k);
        assert(ids[k] < n);
    }
}

/// An entry's facts survive later writes and later mapping entries.
pub proof fn lemma_entry_ok_stable(
    sv0: StoreV,
    sv1: StoreV,
    sv2: StoreV,
    instrs: Seq<Instruction>,
    options: TransformOptions,
    m1: Seq<Option<Vec<usize>>>,
    m2: Seq<Option<Vec<usize>>>,
    j: int,
)
    requires
        store_wf(sv0),
        store_wf(sv1),
        store_wf(sv2),
        0 <= j < sv0.commits.len(),
        j < m1.len(),
        sv0.commits.len() <= sv1.commits.len() <= sv2.commits.len(),
        sv0.trees.len() <= sv1.trees.len() <= sv2.trees.len(),
        forall|i: int| 0 <= i < sv1.commits.len() ==> sv2.commits[i] == sv1.commits[i],
        forall|i: int| 0 <= i < sv1.trees.len() ==> sv2.trees[i] == sv1.trees[i],
        forall|i: int| 0 <= i < sv0.commits.len() ==> sv1.commits[i] == sv0.commits[i],
        forall|i: int| 0 <= i < sv0.trees.len() ==> sv1.trees[i] == sv0.trees[i],
        m1.len() <= m2.len(),
        forall|i: int| 0 <= i < m1.len() ==> m2[i] == m1[i],
        mapping_values_valid(m1, sv1.commits.len() as int),
        forall|k: int|
            0 <= k < instrs.len() ==> match #[trigger] instrs[k].action {
                RewriteAction::Rewrite(edit) => match edit.new_parents {
                    Option::Some(ov) => forall|x: int|
                        0 <= x < ov@.len() ==> (#[trigger] ov@[x]) < sv0.commits.len(),
                    Option::None => true,
                },
                RewriteAction::Abandon => true,
            },
        mapping_entry_ok(sv0, sv1, instrs, options, m1, j),
    ensures
        mapping_entry_ok(sv0, sv2, instrs, options, m2, j),
{
    assert(m2[j] == m1[j]);
    match m1[j] {
        Option::None => {},
        Option::Some(l) => {
            let old_c = sv0.commits[j];
            assert(forall|k: int|
                0 <= k < old_c.parents.len() ==> (#[trigger] old_c.parents[k]) < j);
            let rp1 = resolved_parents(old_c.parents, m1);
            lemma_resolved_parents_stable(old_c.parents, m1, m2);
            lemma_resolved_parents_valid(old_c.parents, m1, sv1.commits.len() as int);
            let f = find_instr(instrs, j as usize, 0);
            lemma_find_instr_spec(instrs, j as usize, 0);
            let pin: Seq<usize> = if f >= 0 {
                match instrs[f].action {
                    RewriteAction::Abandon => rp1,
                    RewriteAction::Rewrite(edit) => edit_parent_input(edit, rp1),
                }
            } else {
                rp1
            };
            assert(forall|x: int| 0 <= x < pin.len() ==> (#[trigger] pin[x]) < sv1.commits.len());
            lemma_kept_parents_stable(sv1, sv2, pin, 0);
            lemma_kept_parents_valid(sv1, pin, sv1.commits.len() as int);
            let np = kept_parents(sv1, pin, 0);
            if f >= 0 && instrs[f].action is Abandon {
            } else {
                assert(l@.len() == 1 && l@[0] < sv1.commits.len());
                let nid = l@[0];
                assert(sv2.commits[nid as int] == sv1.commits[nid as int]);
                let nv = sv1.commits[nid as int];
                let rule: TreeRule = if f >= 0 {
                    match instrs[f].action {
                        RewriteAction::Abandon => TreeRule::Keep,
                        RewriteAction::Rewrite(edit) => edit_tree_rule(edit),
                    }
                } else {
                    if options.rebase_descendants {
                        TreeRule::Rebase
                    } else {
                        TreeRule::Keep
                    }
                };
                match rule {
                    TreeRule::SetTo(t) => {},
                    TreeRule::Keep => {},
                    TreeRule::Rebase => {
                        assert(nv.tree < sv1.trees.len());
                        assert(sv2.trees[nv.tree as int] == sv1.trees[nv.tree as int]);
                        assert(old_c.tree < sv0.trees.len());
                        assert(sv2.trees[old_c.tree as int] == sv1.trees[old_c.tree as int]);
                        assert forall|p: usize|
                            tv_get(sv2.trees[nv.tree as int], p) == merge_val(
                                merged_parents_get(sv2, old_c.parents, p),
                                merged_parents_get(sv2, np, p),
                                tv_get(sv2.trees[old_c.tree as int], p),
                            ) by {
                            lemma_merged_parents_get_stable(sv1, sv2, old_c.parents, p);
                            lemma_merged_parents_get_stable(sv1, sv2, np, p);
                        }
                    },
                }
            }
        },
    }
}

/// A merged parent view is unaffected by commits appended later.
pub proof fn lemma_merged_parents_get_stable(
    sv1: StoreV,
    sv2: StoreV,
    parents: Seq<usize>,
    p: usize,
)
    requires
        store_wf(sv1),
        store_wf(sv2),
        sv1.commits.len() <= sv2.commits.len(),
        sv1.trees.len() <= sv2.trees.len(),
        forall|k: int| 0 <= k < sv1.commits.len() ==> sv2.commits[k] == sv1.commits[k],
        forall|k: int| 0 <= k < sv1.trees.len() ==> sv2.trees[k] == sv1.trees[k],
        forall|k: int| 0 <= k < parents.len() ==> (#[trigger] parents[k]) < sv1.commits.len(),
    ensures
        merged_parents_get(sv2, parents, p) == merged_parents_get(sv1, parents, p),
    decreases parents.len(),
{
    if parents.len() == 1 {
        assert(parents[0] < sv1.commits.len());
        assert(sv2.commits[parents[0] as int] == sv1.commits[parents[0] as int]);
    } else if parents.len() > 1 {
        assert(forall|k: int|
            0 <= k < parents.drop_last().len() ==> (#[trigger] parents.drop_last()[k])
                < sv1.commits.len());
        lemma_merged_parents_get_stable(sv1, sv2, parents.drop_last(), p);
        assert(parents.last() < sv1.commits.len());
    }
}

/// Merge the trees of a parent list, path by path, against an empty base.
pub fn merge_parent_trees(s: &Store, parents: &Vec<usize>) -> (t: crate::tree::Tree)
    requires
        store_wf(s@),
        forall|k: int| 0 <= k < parents@.len() ==> (#[trigger] parents@[k]) < s@.commits.len(),
    ensures
        crate::tree::tree_wf(t@),
        forall|p: usize| tv_get(t@, p) == merged_parents_get(s@, parents@, p),
{
    let ghost sv = s@;
    let n = parents.len();
    if n == 0 {
        let t = crate::tree::empty_tree();
        proof {
            assert forall|p: usize| tv_get(t@, p) == merged_parents_get(sv, parents@, p) by {}
        }
        return t;
    }
    let first = parents[0];
    let tid0 = s.commits[first].tree;
    proof {
        assert(tid0 == sv.commits[first as int].tree);
        assert(sv.commits[first as int].tree < sv.trees.len());
    }
    let mut t = crate::store::get_tree(s, tid0);
    proof {
        assert(crate::tree::tree_wf(t@));
        assert(parents@.subrange(0, 1) =~= seq![parents@[0]]);
        assert forall|p: usize|
            tv_get(t@, p) == merged_parents_get(sv, parents@.subrange(0, 1), p) by {}
    }
    let mut k: usize = 1;
    while k < n
        invariant
            store_wf(sv),
            sv == s@,
            n == parents@.len(),
            1 <= k <= n,
            forall|m: int| 0 <= m < parents@.len() ==> (#[trigger] parents@[m]) < sv.commits.len(),
            crate::tree::tree_wf(t@),
            forall|p: usize| tv_get(t@, p) == merged_parents_get(sv, parents@.subrange(0, k as int), p),
        decreases n - k,
    {
        let base = crate::tree::empty_tree();
        let ntid = s.commits[parents[k]].tree;
        proof {
            assert(ntid == sv.commits[parents@[k as int] as int].tree);
            assert(sv.commits[parents@[k as int] as int].tree < sv.trees.len());
        }
        let next = crate::store::get_tree(s, ntid);
        proof {
            assert(crate::tree::tree_wf(next@));
        }
        let merged = crate::tree::merge_trees(&base, &t, &next);
        proof {
            let pre = parents@.subrange(0, k as int);
            let cur = parents@.subrange(0, k + 1 as int);
            assert(cur.drop_last() =~= pre);
            assert(cur.last() == parents@[k as int]);
            assert(cur.len() >= 2);
            assert forall|p: usize| tv_get(merged@, p) == merged_parents_get(sv, cur, p) by {
                assert(tv_get(base@, p) == mv_absent());
                assert(tv_get(merged@, p) == merge_val(tv_get(base@, p), tv_get(t@, p), tv_get(next@, p)));
            }
        }
        t = merged;
        k += 1;
    }
    proof {
        assert(parents@.subrange(0, n as int) =~= parents@);
    }
    t
}

/// Compute and store the rebased tree of one commit: the three-way merge of
/// its old parent view, its new parent view, and its old tree.
fn write_rebased_tree(s: &mut Store, old_parents: &Vec<usize>, np: &Vec<usize>, old_tree: usize)
    -> (tid: usize)
    requires
        store_wf(old(s)@),
        forall|k: int|
            0 <= k < old_parents@.len() ==> (#[trigger] old_parents@[k]) < old(s)@.commits.len(),
        forall|k: int| 0 <= k < np@.len() ==> (#[trigger] np@[k]) < old(s)@.commits.len(),
        old_tree < old(s)@.trees.len(),
    ensures
        store_wf(final(s)@),
        final(s)@.commits == old(s)@.commits,
        final(s)@.trees.len() >= old(s)@.trees.len(),
        forall|i: int| 0 <= i < old(s)@.trees.len() ==> final(s)@.trees[i] == old(s)@.trees[i],
        tid < final(s)@.trees.len(),
        forall|p: usize|
            tv_get(final(s)@.trees[tid as int], p) == merge_val(
                merged_parents_get(final(s)@, old_parents@, p),
                merged_parents_get(final(s)@, np@, p),
                tv_get(final(s)@.trees[old_tree as int], p),
            ),
{
    let ghost sv1 = s@;
    let opt = merge_parent_trees(s, old_parents);
    let npt = merge_parent_trees(s, np);
    let ot = crate::store::get_tree(s, old_tree);
    proof {
        assert(crate::tree::tree_wf(ot@));
    }
    let merged = crate::tree::merge_trees(&opt, &npt, &ot);
    let tid = crate::store::write_tree(s, merged);
    proof {
        let sv2 = s@;
        assert(sv2.commits =~= sv1.commits);
        assert forall|p: usize|
            tv_get(sv2.trees[tid as int], p) == merge_val(
                merged_parents_get(sv2, old_parents@, p),
                merged_parents_get(sv2, np@, p),
                tv_get(sv2.trees[old_tree as int], p),
            ) by {
            lemma_merged_parents_get_stable(sv1, sv2, old_parents@, p);
            lemma_merged_parents_get_stable(sv1, sv2, np@, p);
        }
    }
    tid
}

/// Index of the instruction for `id`, if any.
pub(crate) fn find_instruction(instrs: &Vec<Instruction>, id: usize) -> (r: Option<usize>)
    ensures
        match r {
            Option::Some(f) => f < instrs@.len() && find_instr(instrs@, id, 0) == f,
            Option::None => find_instr(instrs@, id, 0) == -1,
        },
{
    let ghost iv = instrs@;
    let n = instrs.len();
    let mut i: usize = 0;
    while i < n
        invariant
            n == instrs@.len(),
            i <= n,
            iv == instrs@,
            find_instr(iv, id, 0) == find_instr(iv, id, i as int),
        decreases n - i,
    {
        if instrs[i].id == id {
            assert(find_instr(iv, id, i as int) == i);
            return Option::Some(i);
        }
        assert(find_instr(iv, id, i as int) == find_instr(iv, id, i + 1 as int));
        i += 1;
    }
    assert(find_instr(iv, id, n as int) == -1);
    Option::None
}

/// Resolve a parent list through the mapping, flattening replacement lists.
fn resolve_parent_list(parents: &Vec<usize>, mapping: &Vec<Option<Vec<usize>>>) -> (r: Vec<usize>)
    requires
        forall|k: int| 0 <= k < parents@.len() ==> (#[trigger] parents@[k]) < mapping@.len(),
    ensures
        r@ == resolved_parents(parents@, mapping@),
{
    let n = parents.len();
    let mut out: Vec<usize> = Vec::new();
    let mut k: usize = 0;
    proof {
        assert(parents@.skip(0) =~= parents@);
        assert(out@ + resolved_parents(parents@, mapping@) =~= resolved_parents(
            parents@,
            mapping@,
        ));
    }
    while k < n
        invariant
            n == parents@.len(),
            k <= n,
            forall|m: int| 0 <= m < parents@.len() ==> (#[trigger] parents@[m]) < mapping@.len(),
            resolved_parents(parents@, mapping@) == out@ + resolved_parents(
                parents@.skip(k as int),
                mapping@,
            ),
        decreases n - k,
    {
        let p = parents[k];
        let ghost rest = parents@.skip(k as int);
        proof {
            assert(rest[0] == parents@[k as int]);
            assert(rest.drop_first() =~= parents@.skip(k + 1 as int));
        }
        let ghost out0 = out@;
        match &mapping[p] {
            Option::Some(l) => {
                let mut cl = crate::ids::clone_ids(l);
                out.append(&mut cl);
                proof {
                    assert(resolve_id(mapping@, p) == l@);
                    assert(out@ =~= out0 + resolve_id(mapping@, p));
                }
            },
            Option::None => {
                out.push(p);
                proof {
                    assert(resolve_id(mapping@, p) =~= seq![p]);
                    assert(out@ =~= out0 + resolve_id(mapping@, p));
                }
            },
        }
        proof {
            assert(out0 + (resolve_id(mapping@, p) + resolved_parents(
                parents@.skip(k + 1 as int),
                mapping@,
            )) =~= out@ + resolved_parents(parents@.skip(k + 1 as int), mapping@));
        }
        k += 1;
    }
    proof {
        assert(parents@.skip(n as int) =~= Seq::<usize>::empty());
        assert(out@ =~= out@ + resolved_parents(parents@.skip(n as int), mapping@));
    }
    out
}

/// The instruction list is valid against a store of `n` commits and `nt`
/// trees: target ids are existing, non-root, and distinct; parent overrides
/// and tree replacements point at existing objects.
pub open spec fn instrs_valid(instrs: Seq<Instruction>, n: int, nt: int) -> bool {
    &&& forall|k: int| 0 <= k < instrs.len() ==> 0 < (#[trigger] instrs[k].id) < n
    &&& forall|k1: int, k2: int|
        0 <= k1 < k2 < instrs.len() ==> (#[trigger] instrs[k1].id) != (#[trigger] instrs[k2].id)
    &&& forall|k: int|
        0 <= k < instrs.len() ==> match #[trigger] instrs[k].action {
            RewriteAction::Rewrite(edit) => {
                &&& match edit.new_parents {
                    Option::Some(ov) => forall|x: int|
                        0 <= x < ov@.len() ==> (#[trigger] ov@[x]) < n,
                    Option::None => true,
                }
                &&& match edit.new_tree {
                    Option::Some(t) => t < nt,
                    Option::None => true,
                }
            },
            RewriteAction::Abandon => true,
        }
}

/// Entry `j` of the mapping is a rewritten (not abandoned) commit whose
/// replacement is exactly `c`.
pub open spec fn mapped_to(
    instrs: Seq<Instruction>,
    mapping: Seq<Option<Vec<usize>>>,
    j: int,
    c: usize,
) -> bool {
    0 <= j < mapping.len() && !is_abandoned(instrs, j as usize) && match mapping[j] {
        Option::Some(l) => l@ == seq![c],
        Option::None => false,
    }
}

/// Some rewritten entry of the mapping names `c` as its replacement commit.
pub open spec fn commit_mapped(
    instrs: Seq<Instruction>,
    mapping: Seq<Option<Vec<usize>>>,
    c: usize,
) -> bool {
    exists|j: int| #[trigger] mapped_to(instrs, mapping, j, c)
}

/// Every commit the walk appended is some rewritten entry's replacement:
/// nothing is written twice, and nothing appears from nowhere.
pub open spec fn new_commits_mapped(
    sv0: StoreV,
    sv: StoreV,
    instrs: Seq<Instruction>,
    mapping: Seq<Option<Vec<usize>>>,
) -> bool {
    forall|c: usize|
        sv0.commits.len() <= c < sv.commits.len() ==> #[trigger] commit_mapped(instrs, mapping, c)
}

pub proof fn lemma_mapped_push(
    instrs: Seq<Instruction>,
    m1: Seq<Option<Vec<usize>>>,
    m2: Seq<Option<Vec<usize>>>,
    c: usize,
)
    requires
        commit_mapped(instrs, m1, c),
        m1.len() <= m2.len(),
        forall|i: int| 0 <= i < m1.len() ==> m2[i] == m1[i],
    ensures
        commit_mapped(instrs, m2, c),
{
    let j = choose|j: int| #[trigger] mapped_to(instrs, m1, j, c);
    assert(mapped_to(instrs, m2, j, c));
}

/// Everything the walk guarantees about its result.
pub open spec fn walk_post(
    sv0: StoreV,
    sv: StoreV,
    instrs: Seq<Instruction>,
    options: TransformOptions,
    mapping: Seq<Option<Vec<usize>>>,
) -> bool {
    &&& store_wf(sv)
    &&& sv.commits.len() >= sv0.commits.len()
    &&& sv.trees.len() >= sv0.trees.len()
    &&& forall|i: int| 0 <= i < sv0.commits.len() ==> sv.commits[i] == sv0.commits[i]
    &&& forall|i: int| 0 <= i < sv0.trees.len() ==> sv.trees[i] == sv0.trees[i]
    &&& mapping.len() == sv0.commits.len()
    &&& mapping_values_valid(mapping, sv.commits.len() as int)
    &&& forall|j: int|
        0 <= j < mapping.len() ==> mapping_entry_ok(sv0, sv, instrs, options, mapping, j)
    &&& new_commits_mapped(sv0, sv, instrs, mapping)
}

/// Rewrite every descendant of the targets exactly once, in topological
/// order. Returns the mapping from old ids to their replacements: `None` for
/// commits the pass did not touch, the deduplicated new parent set for
/// abandoned targets, and the one replacement id for everything else.
pub fn rewrite_walk(s: &mut Store, instrs: &Vec<Instruction>, options: TransformOptions) -> (mapping:
    Vec<Option<Vec<usize>>>)
    requires
        store_wf(old(s)@),
        instrs_valid(instrs@, old(s)@.commits.len() as int, old(s)@.trees.len() as int),
    ensures
        walk_post(old(s)@, final(s)@, instrs@, options, mapping@),
{
    let ghost sv0 = s@;
    let old_len = s.commits.len();
    let mut targets: Vec<usize> = Vec::new();
    let ni = instrs.len();
    let mut ti: usize = 0;
    while ti < ni
        invariant
            ni == instrs@.len(),
            ti <= ni,
            targets@.len() == ti,
            forall|k: int| 0 <= k < ti ==> targets@[k] == instrs@[k].id,
        decreases ni - ti,
    {
        targets.push(instrs[ti].id);
        ti += 1;
    }
    proof {
        assert(targets@ =~= instr_ids(instrs@));
    }
    let in_d = crate::graph::mark_descendants(s, &targets);
    let mut mapping: Vec<Option<Vec<usize>>> = Vec::new();
    let mut id: usize = 0;
    while id < old_len
        invariant
            store_wf(s@),
            store_wf(sv0),
            sv0 == old(s)@,
            old_len == sv0.commits.len(),
            instrs_valid(instrs@, sv0.commits.len() as int, sv0.trees.len() as int),
            s@.commits.len() >= old_len,
            s@.trees.len() >= sv0.trees.len(),
            forall|i: int| 0 <= i < old_len ==> s@.commits[i] == sv0.commits[i],
            forall|i: int| 0 <= i < sv0.trees.len() ==> s@.trees[i] == sv0.trees[i],
            id <= old_len,
            mapping@.len() == id,
            in_d@.len() == old_len,
            forall|j: usize|
                j < old_len ==> (#[trigger] in_d@[j as int]) == descends(
                    sv0,
                    j,
                    instr_ids(instrs@),
                ),
            mapping_values_valid(mapping@, s@.commits.len() as int),
            forall|j: int|
                0 <= j < id ==> mapping_entry_ok(sv0, s@, instrs@, options, mapping@, j),
            new_commits_mapped(sv0, s@, instrs@, mapping@),
        decreases old_len - id,
    {
        let ghost sv_begin = s@;
        let ghost m_begin = mapping@;
        if !in_d[id] {
            mapping.push(Option::None);
            proof {
                assert forall|cc: usize|
                    old_len <= cc < s@.commits.len() implies #[trigger] commit_mapped(
                    instrs@,
                    mapping@,
                    cc,
                ) by {
                    lemma_mapped_push(instrs@, m_begin, mapping@, cc);
                }
                assert forall|j: int|
                    0 <= j < mapping@.len() implies mapping_entry_ok(
                    sv0,
                    s@,
                    instrs@,
                    options,
                    mapping@,
                    j,
                ) by {
                    if j < id {
                        lemma_entry_ok_stable(
                            sv0,
                            sv_begin,
                            s@,
                            instrs@,
                            options,
                            m_begin,
                            mapping@,
                            j,
                        );
                    } else {
                        assert(mapping@[j] is None);
                        assert(!descends(sv0, id, instr_ids(instrs@)));
                    }
                }
            }
        } else {
            let c = crate::store::get_commit(s, id);
            proof {
                assert(c@ == sv0.commits[id as int]);
                assert(forall|k: int|
                    0 <= k < c@.parents.len() ==> (#[trigger] c@.parents[k]) < id);
            }
            proof {
                assert(mapping@.len() == id as int);
                assert forall|k: int|
                    0 <= k < c.parents@.len() implies (#[trigger] c.parents@[k])
                    < mapping@.len() by {
                    assert(c@.parents[k] == sv0.commits[id as int].parents[k]);
                    assert(sv0.commits[id as int].parents[k] < id as int);
                }
            }
            let rp = resolve_parent_list(&c.parents, &mapping);
            proof {
                lemma_resolved_parents_valid(c@.parents, mapping@, s@.commits.len() as int);
            }
            let fi = find_instruction(instrs, id);
            let mut abandon = false;
            match fi {
                Option::Some(f) => {
                    match &instrs[f].action {
                        RewriteAction::Abandon => {
                            abandon = true;
                        },
                        RewriteAction::Rewrite(_) => {},
                    }
                },
                Option::None => {},
            }
            if abandon {
                let sp = simplify_parents(s, &rp);
                let ghost spv = sp@;
                mapping.push(Option::Some(sp));
                proof {
                    assert forall|cc: usize|
                        old_len <= cc < s@.commits.len() implies #[trigger] commit_mapped(
                        instrs@,
                        mapping@,
                        cc,
                    ) by {
                        lemma_mapped_push(instrs@, m_begin, mapping@, cc);
                    }
                    crate::graph::lemma_kept_parents_membership(sv_begin, rp@, 0);
                    assert forall|x: int| 0 <= x < spv.len() implies (#[trigger] spv[x])
                        < s@.commits.len() by {
                        assert(spv.contains(spv[x]));
                        let k = choose|k: int|
                            0 <= k < rp@.len() && rp@[k] == spv[x] && #[trigger] parent_kept(
                                sv_begin,
                                rp@,
                                k,
                            );
                        assert(rp@[k] < s@.commits.len());
                    }
                    assert forall|j: int|
                        0 <= j < mapping@.len() implies mapping_entry_ok(
                        sv0,
                        s@,
                        instrs@,
                        options,
                        mapping@,
                        j,
                    ) by {
                        if j < id {
                            lemma_entry_ok_stable(
                                sv0,
                                sv_begin,
                                s@,
                                instrs@,
                                options,
                                m_begin,
                                mapping@,
                                j,
                            );
                        } else {
                            lemma_resolved_parents_stable(c@.parents, m_begin, mapping@);
                            let f = find_instr(instrs@, id, 0);
                            lemma_find_instr_spec(instrs@, id, 0);
                            assert(f >= 0 && instrs@[f].action is Abandon);
                        }
                    }
                }
            } else {
                // Work out the deduplicated parents and the tree, then write
                // the replacement commit.
                let mut pin: Vec<usize> = rp;
                let mut rebase = options.rebase_descendants;
                let mut new_tree_id: Option<usize> = Option::None;
                let mut desc: Vec<u8> = crate::merge::clone_bytes(&c.description);
                let mut committer = crate::store::clone_sig(&c.committer);
                let mut author = crate::store::clone_sig(&c.author);
                let mut sig = crate::store::clone_opt_bytes(&c.signature);
                match fi {
                    Option::Some(f) => {
                        match &instrs[f].action {
                            RewriteAction::Abandon => {
                                assert(false);
                            },
                            RewriteAction::Rewrite(edit) => {
                                match &edit.new_parents {
                                    Option::Some(ov) => {
                                        pin = crate::ids::clone_ids(ov);
                                    },
                                    Option::None => {},
                                }
                                rebase = edit.rebase_tree;
                                match &edit.new_tree {
                                    Option::Some(t) => {
                                        new_tree_id = Option::Some(*t);
                                    },
                                    Option::None => {},
                                }
                                match &edit.new_description {
                                    Option::Some(d) => {
                                        desc = crate::merge::clone_bytes(d);
                                    },
                                    Option::None => {},
                                }
                                match &edit.new_committer {
                                    Option::Some(nc) => {
                                        committer = crate::store::clone_sig(nc);
                                    },
                                    Option::None => {},
                                }
                                if edit.set_author_to_committer {
                                    author = crate::store::clone_sig(&committer);
                                } else {
                                    match &edit.new_author {
                                        Option::Some(ne) => {
                                            author = crate::store::Signature {
                                                name: crate::merge::clone_bytes(&ne.0),
                                                email: crate::merge::clone_bytes(&ne.1),
                                                timestamp: c.author.timestamp,
                                            };
                                        },
                                        Option::None => {},
                                    }
                                }
                                if edit.drop_signature {
                                    sig = Option::None;
                                }
                            },
                        }
                    },
                    Option::None => {},
                }
                proof {
                    assert(forall|x: int|
                        0 <= x < pin@.len() ==> (#[trigger] pin@[x]) < s@.commits.len());
                }
                let np = simplify_parents(s, &pin);
                let ghost pinv = pin@;
                let ghost npv = np@;
                proof {
                    lemma_kept_parents_valid(sv_begin, pinv, s@.commits.len() as int);
                    assert(c@.tree == sv0.commits[id as int].tree);
                    assert(sv0.commits[id as int].tree < sv0.trees.len());
                    assert forall|k: int|
                        0 <= k < c.parents@.len() implies (#[trigger] c.parents@[k])
                        < s@.commits.len() by {
                        assert(c@.parents[k] == sv0.commits[id as int].parents[k]);
                        assert(sv0.commits[id as int].parents[k] < id as int);
                    }
                }
                let tid: usize = match new_tree_id {
                    Option::Some(t) => t,
                    Option::None => {
                        if rebase {
                            write_rebased_tree(s, &c.parents, &np, c.tree)
                        } else {
                            c.tree
                        }
                    },
                };
                let ghost sv_tree = s@;
                proof {
                    assert(tid < s@.trees.len()) by {
                        match new_tree_id {
                            Option::Some(t) => {
                                let f = find_instr(instrs@, id, 0);
                                lemma_find_instr_spec(instrs@, id, 0);
                                assert(t < sv0.trees.len());
                            },
                            Option::None => {},
                        }
                    }
                }
                let new_c = crate::store::CommitData {
                    parents: np,
                    tree: tid,
                    author,
                    committer,
                    description: desc,
                    signature: sig,
                };
                let ghost ncv = new_c@;
                proof {
                    assert(ncv.parents == npv);
                    assert(forall|k: int|
                        0 <= k < ncv.parents.len() ==> (#[trigger] ncv.parents[k])
                            < s@.commits.len());
                }
                let nid = crate::store::write_commit(s, new_c);
                let mut l: Vec<usize> = Vec::new();
                l.push(nid);
                let ghost lv = l@;
                mapping.push(Option::Some(l));
                proof {
                    let sv_end = s@;
                    assert(lv =~= seq![nid]);
                    assert(sv_end.commits[nid as int] == ncv);
                    // deduplicated parents are stable across this iteration's writes
                    lemma_kept_parents_stable(sv_begin, sv_tree, pinv, 0);
                    lemma_kept_parents_stable(sv_tree, sv_end, pinv, 0);
                    assert(npv == kept_parents(sv_end, pinv, 0));
                    assert forall|j: int|
                        0 <= j < mapping@.len() implies mapping_entry_ok(
                        sv0,
                        sv_end,
                        instrs@,
                        options,
                        mapping@,
                        j,
                    ) by {
                        if j < id {
                            lemma_entry_ok_stable(
                                sv0,
                                sv_begin,
                                sv_end,
                                instrs@,
                                options,
                                m_begin,
                                mapping@,
                                j,
                            );
                        } else {
                            lemma_resolved_parents_stable(c@.parents, m_begin, mapping@);
                            let rpv = resolved_parents(c@.parents, mapping@);
                            assert(rpv == rp@);
                            lemma_find_instr_spec(instrs@, id, 0);
                            let f = find_instr(instrs@, id, 0);
                            if f >= 0 {
                                match instrs@[f].action {
                                    RewriteAction::Abandon => {
                                        assert(false);
                                    },
                                    RewriteAction::Rewrite(edit) => {
                                        assert(edit_parent_input(edit, rpv) == pinv);
                                        assert(ncv.description == edited_description(
                                            edit,
                                            c@,
                                        ));
                                        assert(ncv.author == edited_author(edit, c@));
                                        assert(ncv.committer == edited_committer(edit, c@));
                                        assert(ncv.signature == edited_signature(edit, c@));
                                        match edit_tree_rule(edit) {
                                            TreeRule::SetTo(t) => {
                                                assert(ncv.tree == t);
                                            },
                                            TreeRule::Keep => {
                                                assert(ncv.tree == c@.tree);
                                            },
                                            TreeRule::Rebase => {
                                                assert(tree_ok(
                                                    sv_end,
                                                    c@,
                                                    kept_parents(sv_end, pinv, 0),
                                                    ncv,
                                                    TreeRule::Rebase,
                                                )) by {
                                                    assert forall|p: usize|
                                                        tv_get(sv_end.trees[ncv.tree as int], p)
                                                            == merge_val(
                                                            merged_parents_get(
                                                                sv_end,
                                                                c@.parents,
                                                                p,
                                                            ),
                                                            merged_parents_get(sv_end, npv, p),
                                                            tv_get(
                                                                sv_end.trees[c@.tree as int],
                                                                p,
                                                            ),
                                                        ) by {
                                                        lemma_merged_parents_get_stable(
                                                            sv_tree,
                                                            sv_end,
                                                            c@.parents,
                                                            p,
                                                        );
                                                        lemma_merged_parents_get_stable(
                                                            sv_tree,
                                                            sv_end,
                                                            npv,
                                                            p,
                                                        );
                                                    }
                                                }
                                            },
                                        }
                                    },
                                }
                            } else {
                                let ghost drule: TreeRule = if options.rebase_descendants {
                                    TreeRule::Rebase
                                } else {
                                    TreeRule::Keep
                                };
                                match drule {
                                    TreeRule::SetTo(t) => {},
                                    TreeRule::Keep => {
                                        assert(ncv.tree == c@.tree);
                                    },
                                    TreeRule::Rebase => {
                                        assert forall|p: usize|
                                            tv_get(sv_end.trees[ncv.tree as int], p) == merge_val(
                                                merged_parents_get(sv_end, c@.parents, p),
                                                merged_parents_get(sv_end, npv, p),
                                                tv_get(sv_end.trees[c@.tree as int], p),
                                            ) by {
                                            lemma_merged_parents_get_stable(
                                                sv_tree,
                                                sv_end,
                                                c@.parents,
                                                p,
                                            );
                                            lemma_merged_parents_get_stable(sv_tree, sv_end, npv, p);
                                        }
                                    },
                                }
                            }
                        }
                    }
                    // provenance of appended commits
                    assert forall|cc: usize|
                        old_len <= cc < sv_end.commits.len() implies #[trigger] commit_mapped(
                        instrs@,
                        mapping@,
                        cc,
                    ) by {
                        if cc < sv_begin.commits.len() {
                            lemma_mapped_push(instrs@, m_begin, mapping@, cc);
                        } else {
                            assert(cc == nid);
                            lemma_find_instr_spec(instrs@, id, 0);
                            assert(!is_abandoned(instrs@, id));
                            assert(mapped_to(instrs@, mapping@, id as int, cc));
                        }
                    }
                }
            }
        }
        id += 1;
    }
    mapping
}

/// An abandoned target is a target, so it descends from the target set.
pub proof fn lemma_abandoned_descends(sv0: StoreV, instrs: Seq<Instruction>, x: usize)
    requires
        store_wf(sv0),
        x < sv0.commits.len(),
        is_abandoned(instrs, x),
    ensures
        descends(sv0, x, instr_ids(instrs)),
{
    lemma_find_instr_member(instrs, x);
}

/// No rewritten replacement coincides, by content address, with an abandoned
/// target. Content addressing makes such a collision possible in principle: a
/// replacement whose fields exactly equal an abandoned commit's is that
/// commit.
pub open spec fn no_replacement_is_abandoned(
    instrs: Seq<Instruction>,
    mapping: Seq<Option<Vec<usize>>>,
) -> bool {
    forall|j: int|
        0 <= j < mapping.len() && !is_abandoned(instrs, j as usize) ==> match #[trigger] mapping[j] {
            Option::Some(l) => forall|x: int|
                0 <= x < l@.len() ==> !is_abandoned(instrs, #[trigger] l@[x]),
            Option::None => true,
        }
}

/// No caller-supplied parent override names an abandoned target.
pub open spec fn overrides_avoid_abandoned(instrs: Seq<Instruction>) -> bool {
    forall|k: int|
        0 <= k < instrs.len() ==> match #[trigger] instrs[k].action {
            RewriteAction::Rewrite(edit) => match edit.new_parents {
                Option::Some(ov) => forall|x: int|
                    0 <= x < ov@.len() ==> !is_abandoned(instrs, #[trigger] ov@[x]),
                Option::None => true,
            },
            RewriteAction::Abandon => true,
        }
}

/// After the walk, no mapping value names an abandoned target: what an old id
/// stands for never points back into the abandoned set.
pub proof fn law_abandoned_unreferenced(
    sv0: StoreV,
    sv: StoreV,
    instrs: Seq<Instruction>,
    options: TransformOptions,
    mapping: Seq<Option<Vec<usize>>>,
    j: int,
)
    requires
        store_wf(sv0),
        store_wf(sv),
        instrs_valid(instrs, sv0.commits.len() as int, sv0.trees.len() as int),
        mapping.len() == sv0.commits.len(),
        forall|j2: int|
            0 <= j2 < mapping.len() ==> mapping_entry_ok(sv0, sv, instrs, options, mapping, j2),
        no_replacement_is_abandoned(instrs, mapping),
        overrides_avoid_abandoned(instrs),
        0 <= j < mapping.len(),
    ensures
        match mapping[j] {
            Option::Some(l) => forall|x: int|
                0 <= x < l@.len() ==> !is_abandoned(instrs, #[trigger] l@[x]),
            Option::None => true,
        },
    decreases j,
{
    assert(mapping_entry_ok(sv0, sv, instrs, options, mapping, j));
    match mapping[j] {
        Option::None => {},
        Option::Some(l) => {
            if !is_abandoned(instrs, j as usize) {
                assert(match mapping[j] {
                    Option::Some(l2) => forall|x: int|
                        0 <= x < l2@.len() ==> !is_abandoned(instrs, #[trigger] l2@[x]),
                    Option::None => true,
                });
            } else {
                let old_c = sv0.commits[j];
                let rp = resolved_parents(old_c.parents, mapping);
                lemma_find_instr_spec(instrs, j as usize, 0);
                assert(l@ == kept_parents(sv, rp, 0));
                crate::graph::lemma_kept_parents_membership(sv, rp, 0);
                assert forall|x: int|
                    0 <= x < l@.len() implies !is_abandoned(instrs, #[trigger] l@[x]) by {
                    let v = l@[x];
                    assert(l@.contains(v));
                    let k = choose|k: int|
                        0 <= k < rp.len() && rp[k] == v && #[trigger] parent_kept(sv, rp, k);
                    assert(rp.contains(v));
                    lemma_resolved_parents_membership(old_c.parents, mapping, v);
                    let pk = choose|pk: int|
                        0 <= pk < old_c.parents.len() && resolve_id(
                            mapping,
                            #[trigger] old_c.parents[pk],
                        ).contains(v);
                    let p = old_c.parents[pk];
                    assert(p < j);
                    if p < mapping.len() && mapping[p as int] is Some {
                        law_abandoned_unreferenced(sv0, sv, instrs, options, mapping, p as int);
                        let lp = mapping[p as int].unwrap();
                        let m = choose|m: int| 0 <= m < lp@.len() && lp@[m] == v;
                        assert(!is_abandoned(instrs, lp@[m]));
                    } else {
                        assert(v == p);
                        assert(mapping_entry_ok(sv0, sv, instrs, options, mapping, p as int));
                        assert(!descends(sv0, p, instr_ids(instrs)));
                        if is_abandoned(instrs, p) {
                            lemma_abandoned_descends(sv0, instrs, p);
                        }
                    }
                }
            }
        },
    }
}

/// After abandoning a target set, no surviving commit has an abandoned target
/// among its parents. A commit survives the pass when the pass wrote it, or
/// when the pass did not touch it (it descends from no target).
pub proof fn law_no_surviving_parent_abandoned(
    sv0: StoreV,
    sv: StoreV,
    instrs: Seq<Instruction>,
    options: TransformOptions,
    mapping: Seq<Option<Vec<usize>>>,
    c: usize,
)
    requires
        store_wf(sv0),
        store_wf(sv),
        instrs_valid(instrs, sv0.commits.len() as int, sv0.trees.len() as int),
        mapping.len() == sv0.commits.len(),
        sv0.commits.len() <= sv.commits.len(),
        forall|i: int| 0 <= i < sv0.commits.len() ==> sv.commits[i] == sv0.commits[i],
        forall|j2: int|
            0 <= j2 < mapping.len() ==> mapping_entry_ok(sv0, sv, instrs, options, mapping, j2),
        no_replacement_is_abandoned(instrs, mapping),
        overrides_avoid_abandoned(instrs),
        commit_mapped(instrs, mapping, c) || (c < sv0.commits.len() && !descends(
            sv0,
            c,
            instr_ids(instrs),
        )),
    ensures
        forall|k: int|
            0 <= k < sv.commits[c as int].parents.len() ==> !is_abandoned(
                instrs,
                #[trigger] sv.commits[c as int].parents[k],
            ),
{
    if c < sv0.commits.len() && !descends(sv0, c, instr_ids(instrs)) {
        // untouched: all its parents are non-descendants, hence not targets
        assert(sv.commits[c as int] == sv0.commits[c as int]);
        assert forall|k: int|
            0 <= k < sv.commits[c as int].parents.len() implies !is_abandoned(
            instrs,
            #[trigger] sv.commits[c as int].parents[k],
        ) by {
            crate::graph::lemma_non_descendant_parents(sv0, c, instr_ids(instrs), k);
            let pv = sv0.commits[c as int].parents[k];
            if is_abandoned(instrs, pv) {
                lemma_find_instr_member(instrs, pv);
                assert(instr_ids(instrs).contains(pv));
                assert(false);
            }
        }
    } else {
        // a rewritten replacement: its parents are a deduplicated resolved list
        assert(commit_mapped(instrs, mapping, c));
        let j = choose|j: int| #[trigger] mapped_to(instrs, mapping, j, c);
        assert(mapping_entry_ok(sv0, sv, instrs, options, mapping, j));
        let l = mapping[j].unwrap();
        assert(l@ == seq![c]);
        assert(l@[0] == c);
        let old_c = sv0.commits[j];
        let rp = resolved_parents(old_c.parents, mapping);
        let f = find_instr(instrs, j as usize, 0);
        lemma_find_instr_spec(instrs, j as usize, 0);
        let pin: Seq<usize> = if f >= 0 {
            match instrs[f].action {
                RewriteAction::Abandon => rp,
                RewriteAction::Rewrite(edit) => edit_parent_input(edit, rp),
            }
        } else {
            rp
        };
        assert(sv.commits[c as int].parents == kept_parents(sv, pin, 0));
        crate::graph::lemma_kept_parents_membership(sv, pin, 0);
        assert forall|k: int|
            0 <= k < sv.commits[c as int].parents.len() implies !is_abandoned(
            instrs,
            #[trigger] sv.commits[c as int].parents[k],
        ) by {
            let v = sv.commits[c as int].parents[k];
            assert(kept_parents(sv, pin, 0).contains(v));
            let ki = choose|ki: int|
                0 <= ki < pin.len() && pin[ki] == v && #[trigger] parent_kept(sv, pin, ki);
            assert(pin.contains(v));
            let from_override: bool = f >= 0 && match instrs[f].action {
                RewriteAction::Rewrite(edit) => edit.new_parents is Some,
                RewriteAction::Abandon => false,
            };
            if from_override {
                match instrs[f].action {
                    RewriteAction::Rewrite(edit) => {
                        match edit.new_parents {
                            Option::Some(ov) => {
                                assert(pin == ov@);
                                let m = choose|m: int| 0 <= m < ov@.len() && ov@[m] == v;
                                assert(!is_abandoned(instrs, ov@[m]));
                            },
                            Option::None => {
                                assert(false);
                            },
                        }
                    },
                    RewriteAction::Abandon => {
                        assert(false);
                    },
                }
            } else {
                assert(pin == rp);
                lemma_resolved_parents_membership(old_c.parents, mapping, v);
                let pk = choose|pk: int|
                    0 <= pk < old_c.parents.len() && resolve_id(
                        mapping,
                        #[trigger] old_c.parents[pk],
                    ).contains(v);
                let p = old_c.parents[pk];
                assert(p < j);
                if p < mapping.len() && mapping[p as int] is Some {
                    law_abandoned_unreferenced(sv0, sv, instrs, options, mapping, p as int);
                    let lp = mapping[p as int].unwrap();
                    let m = choose|m: int| 0 <= m < lp@.len() && lp@[m] == v;
                    assert(!is_abandoned(instrs, lp@[m]));
                } else {
                    assert(v == p);
                    assert(mapping_entry_ok(sv0, sv, instrs, options, mapping, p as int));
                    assert(!descends(sv0, p, instr_ids(instrs)));
                    if is_abandoned(instrs, p) {
                        lemma_abandoned_descends(sv0, instrs, p);
                    }
                }
            }
        }
    }
}

/// Mapping facts survive commits and trees appended after the walk, as long
/// as any parent overrides named existing commits.
pub proof fn lemma_mapping_facts_extend(
    sv0: StoreV,
    sv1: StoreV,
    sv2: StoreV,
    instrs: Seq<Instruction>,
    options: TransformOptions,
    mapping: Seq<Option<Vec<usize>>>,
)
    requires
        store_wf(sv0),
        store_wf(sv1),
        store_wf(sv2),
        sv0.commits.len() <= sv1.commits.len() <= sv2.commits.len(),
        sv0.trees.len() <= sv1.trees.len() <= sv2.trees.len(),
        forall|i: int| 0 <= i < sv1.commits.len() ==> sv2.commits[i] == sv1.commits[i],
        forall|i: int| 0 <= i < sv1.trees.len() ==> sv2.trees[i] == sv1.trees[i],
        forall|i: int| 0 <= i < sv0.commits.len() ==> sv1.commits[i] == sv0.commits[i],
        forall|i: int| 0 <= i < sv0.trees.len() ==> sv1.trees[i] == sv0.trees[i],
        mapping.len() == sv0.commits.len(),
        mapping_values_valid(mapping, sv1.commits.len() as int),
        forall|j: int|
            0 <= j < mapping.len() ==> mapping_entry_ok(sv0, sv1, instrs, options, mapping, j),
        forall|k: int|
            0 <= k < instrs.len() ==> match #[trigger] instrs[k].action {
                RewriteAction::Rewrite(edit) => match edit.new_parents {
                    Option::Some(ov) => forall|x: int|
                        0 <= x < ov@.len() ==> (#[trigger] ov@[x]) < sv0.commits.len(),
                    Option::None => true,
                },
                RewriteAction::Abandon => true,
            },
    ensures
        mapping_values_valid(mapping, sv2.commits.len() as int),
        forall|j: int|
            0 <= j < mapping.len() ==> mapping_entry_ok(sv0, sv2, instrs, options, mapping, j),
{
    assert forall|j: int|
        0 <= j < mapping.len() implies match #[trigger] mapping[j] {
        Option::Some(l) => l@.no_duplicates() && forall|x: int|
            0 <= x < l@.len() ==> (#[trigger] l@[x]) < sv2.commits.len() as int,
        Option::None => true,
    } by {
        match mapping[j] {
            Option::Some(l) => {
                assert(forall|x: int|
                    0 <= x < l@.len() ==> (#[trigger] l@[x]) < sv1.commits.len() as int);
            },
            Option::None => {},
        }
    }
    assert forall|j: int|
        0 <= j < mapping.len() implies mapping_entry_ok(sv0, sv2, instrs, options, mapping, j) by {
        lemma_entry_ok_stable(sv0, sv1, sv2, instrs, options, mapping, mapping, j);
    }
}

/// Clean rebase propagation, end to end: a rebased descendant that did not
/// change a path relative to its old parents adopts its new parents' value
/// there — an ancestor's edit flows down without clobbering the descendant.
pub proof fn law_rebase_propagates_unchanged(
    sv0: StoreV,
    sv: StoreV,
    instrs: Seq<Instruction>,
    options: TransformOptions,
    mapping: Seq<Option<Vec<usize>>>,
    j: usize,
    p: usize,
)
    requires
        store_wf(sv0),
        store_wf(sv),
        mapping.len() == sv0.commits.len(),
        j < mapping.len(),
        mapping_entry_ok(sv0, sv, instrs, options, mapping, j as int),
        mapping[j as int] is Some,
        find_instr(instrs, j, 0) == -1,
        options.rebase_descendants,
        sv0.commits[j as int].tree < sv.trees.len(),
        // the descendant left the path at its old parents' merged value
        tv_get(sv.trees[sv0.commits[j as int].tree as int], p) == merged_parents_get(
            sv,
            sv0.commits[j as int].parents,
            p,
        ),
    ensures
        ({
            let l = mapping[j as int].unwrap();
            let nv = sv.commits[l@[0] as int];
            &&& l@.len() == 1
            &&& l@[0] < sv.commits.len()
            &&& tv_get(sv.trees[nv.tree as int], p) == merged_parents_get(sv, nv.parents, p)
        }),
{
    let old_c = sv0.commits[j as int];
    let rp = resolved_parents(old_c.parents, mapping);
    let np = kept_parents(sv, rp, 0);
    let l = mapping[j as int].unwrap();
    let nv = sv.commits[l@[0] as int];
    assert(nv.parents == np);
    crate::merge::lemma_merge_unchanged_side(
        merged_parents_get(sv, old_c.parents, p),
        merged_parents_get(sv, np, p),
        tv_get(sv.trees[old_c.tree as int], p),
    );
}

/// Exactly-once visitation: the mapping holds one entry per commit, defined
/// exactly for the commits at or below the target set, and a replacement's
/// parent set carries no duplicate lineage.
pub proof fn law_exactly_once_visitation(
    sv0: StoreV,
    sv: StoreV,
    instrs: Seq<Instruction>,
    options: TransformOptions,
    mapping: Seq<Option<Vec<usize>>>,
    d: int,
)
    requires
        walk_post(sv0, sv, instrs, options, mapping),
        0 <= d < mapping.len(),
    ensures
        mapping.len() == sv0.commits.len(),
        (mapping[d] is Some) == descends(sv0, d as usize, instr_ids(instrs)),
        match mapping[d] {
            Option::Some(l) => l@.no_duplicates(),
            Option::None => true,
        },
{
    assert(mapping_entry_ok(sv0, sv, instrs, options, mapping, d));
    assert(mapping_values_valid(mapping, sv.commits.len() as int));
}

} // verus!
