//! The command cores: each takes a repository state and already-resolved
//! plain values (commit ids, bookmark names, byte strings), opens a
//! transaction, drives the engine, and finishes atomically. Revision text,
//! path patterns, editors and presentation live outside the engine.

use vstd::prelude::*;

use crate::errors::BackendError;
use crate::errors::EngineError;
use crate::errors::UserError;
use crate::ids::clone_ids;
use crate::merge::clone_bytes;
use crate::repo::bookmarks_after;
use crate::repo::dedup_first;
use crate::repo::dedup_ids;
use crate::repo::repo_wf;
use crate::repo::transform_descendants;
use crate::repo::transform_post;
use crate::repo::MutRepoV;
use crate::rewrite::find_instr;
use crate::rewrite::instr_ids;
use crate::rewrite::instrs_valid;
use crate::rewrite::CommitEdit;
use crate::rewrite::Instruction;
use crate::rewrite::RewriteAction;
use crate::rewrite::TransformOptions;
use crate::store::store_wf;
use crate::transaction::finish_transaction;
use crate::transaction::start_transaction;
use crate::transaction::state_wf;
use crate::transaction::RepoState;
use crate::view::bm_find;
use crate::view::view_ids_valid;
use crate::view::view_wf;
use crate::view::BookmarkV;

verus! {

/// Instructions that abandon every listed id.
pub open spec fn abandon_instrs(ids: Seq<usize>) -> Seq<Instruction> {
    Seq::new(ids.len(), |i: int| Instruction { id: ids[i], action: RewriteAction::Abandon })
}

/// How many commits the pass rewrote that were not targets themselves: the
/// rebased or reparented descendants.
pub open spec fn count_nontarget_mapped(
    instrs: Seq<Instruction>,
    mapping: Seq<Option<Vec<usize>>>,
    i: int,
) -> int
    decreases mapping.len() - i
        when 0 <= i <= mapping.len()
{
    if i >= mapping.len() {
        0
    } else {
        (if mapping[i] is Some && find_instr(instrs, i as usize, 0) == -1 {
            1int
        } else {
            0int
        }) + count_nontarget_mapped(instrs, mapping, i + 1)
    }
}

/// How many commits the pass rewrote in all: the rebased targets and their
/// rebased or reparented descendants (abandoned targets emit no commit and
/// are not counted here when the instruction set abandons them).
pub open spec fn count_mapped(mapping: Seq<Option<Vec<usize>>>, i: int) -> int
    decreases mapping.len() - i
        when 0 <= i <= mapping.len()
{
    if i >= mapping.len() {
        0
    } else {
        (if mapping[i] is Some {
            1int
        } else {
            0int
        }) + count_mapped(mapping, i + 1)
    }
}

pub proof fn lemma_count_mapped_bounds(mapping: Seq<Option<Vec<usize>>>, i: int)
    requires
        0 <= i <= mapping.len(),
    ensures
        0 <= count_mapped(mapping, i) <= mapping.len() - i,
    decreases mapping.len() - i,
{
    if i < mapping.len() {
        lemma_count_mapped_bounds(mapping, i + 1);
    }
}

/// Count every rewritten commit of a finished mapping.
fn count_all_mapped(mapping: &Vec<Option<Vec<usize>>>) -> (r: usize)
    ensures
        r == count_mapped(mapping@, 0),
{
    let n = mapping.len();
    let mut cnt: usize = 0;
    let mut i: usize = 0;
    proof {
        lemma_count_mapped_bounds(mapping@, 0);
    }
    while i < n
        invariant
            n == mapping@.len(),
            i <= n,
            cnt <= i,
            count_mapped(mapping@, 0) == cnt + count_mapped(mapping@, i as int),
        decreases n - i,
    {
        proof {
            lemma_count_mapped_bounds(mapping@, i + 1);
        }
        match &mapping[i] {
            Option::Some(_) => {
                cnt += 1;
            },
            Option::None => {},
        }
        i += 1;
    }
    cnt
}

pub proof fn lemma_count_bounds(instrs: Seq<Instruction>, mapping: Seq<Option<Vec<usize>>>, i: int)
    requires
        0 <= i <= mapping.len(),
    ensures
        0 <= count_nontarget_mapped(instrs, mapping, i) <= mapping.len() - i,
    decreases mapping.len() - i,
{
    if i < mapping.len() {
        lemma_count_bounds(instrs, mapping, i + 1);
    }
}

/// Count the rewritten non-target commits of a finished mapping.
fn count_rebased(instrs: &Vec<Instruction>, mapping: &Vec<Option<Vec<usize>>>) -> (r: usize)
    ensures
        r == count_nontarget_mapped(instrs@, mapping@, 0),
{
    let n = mapping.len();
    let mut cnt: usize = 0;
    let mut i: usize = 0;
    proof {
        lemma_count_bounds(instrs@, mapping@, 0);
    }
    while i < n
        invariant
            n == mapping@.len(),
            i <= n,
            cnt <= i,
            count_nontarget_mapped(instrs@, mapping@, 0) == cnt + count_nontarget_mapped(
                instrs@,
                mapping@,
                i as int,
            ),
        decreases n - i,
    {
        proof {
            lemma_count_bounds(instrs@, mapping@, i + 1);
        }
        let mut hit = false;
        match &mapping[i] {
            Option::Some(_) => {
                match crate::rewrite::find_instruction(instrs, i) {
                    Option::Some(_) => {},
                    Option::None => {
                        hit = true;
                    },
                }
            },
            Option::None => {},
        }
        if hit {
            cnt += 1;
        }
        i += 1;
    }
    cnt
}

/// Names present in the old bookmark list and gone from the new one.
pub open spec fn deleted_names(old_bs: Seq<BookmarkV>, new_bs: Seq<BookmarkV>, i: int) -> Seq<
    Seq<u8>,
>
    decreases old_bs.len() - i
        when 0 <= i <= old_bs.len()
{
    if i >= old_bs.len() {
        Seq::<Seq<u8>>::empty()
    } else if bm_find(new_bs, old_bs[i].name, 0) == -1 {
        seq![old_bs[i].name] + deleted_names(old_bs, new_bs, i + 1)
    } else {
        deleted_names(old_bs, new_bs, i + 1)
    }
}

/// Collect the names of bookmarks that the transformation deleted.
fn collect_deleted_names(
    old_v: &crate::view::RepoView,
    new_v: &crate::view::RepoView,
) -> (r: Vec<Vec<u8>>)
    ensures
        Seq::new(r@.len(), |k: int| r@[k]@) == deleted_names(old_v@.bookmarks, new_v@.bookmarks, 0),
{
    let n = old_v.bookmarks.len();
    let mut out: Vec<Vec<u8>> = Vec::new();
    let mut i: usize = 0;
    proof {
        assert(deleted_names(old_v@.bookmarks, new_v@.bookmarks, 0) =~= Seq::new(
            out@.len(),
            |k: int| out@[k]@,
        ) + deleted_names(old_v@.bookmarks, new_v@.bookmarks, 0));
    }
    while i < n
        invariant
            n == old_v.bookmarks.len(),
            i <= n,
            deleted_names(old_v@.bookmarks, new_v@.bookmarks, 0) == Seq::new(
                out@.len(),
                |k: int| out@[k]@,
            ) + deleted_names(old_v@.bookmarks, new_v@.bookmarks, i as int),
        decreases n - i,
    {
        let ghost out0 = out@;
        let found = crate::view::get_local_bookmark(new_v, &old_v.bookmarks[i].name);
        match found {
            Option::None => {
                out.push(clone_bytes(&old_v.bookmarks[i].name));
                proof {
                    assert(Seq::new(out@.len(), |k: int| out@[k]@) =~= Seq::new(
                        out0.len(),
                        |k: int| out0[k]@,
                    ) + seq![old_v@.bookmarks[i as int].name]);
                    assert(Seq::new(out@.len(), |k: int| out@[k]@) + deleted_names(
                        old_v@.bookmarks,
                        new_v@.bookmarks,
                        i + 1,
                    ) =~= Seq::new(out0.len(), |k: int| out0[k]@) + deleted_names(
                        old_v@.bookmarks,
                        new_v@.bookmarks,
                        i as int,
                    ));
                }
            },
            Option::Some(_) => {},
        }
        i += 1;
    }
    proof {
        assert(deleted_names(old_v@.bookmarks, new_v@.bookmarks, n as int) =~= Seq::<
            Seq<u8>,
        >::empty());
        assert(Seq::new(out@.len(), |k: int| out@[k]@) =~= Seq::new(out@.len(), |k: int| out@[k]@)
            + deleted_names(old_v@.bookmarks, new_v@.bookmarks, n as int));
    }
    out
}

/// What `cmd_abandon` reports: the rewrite mapping, the number of abandoned
/// targets, the number of rebased descendants, and the bookmarks deleted.
#[derive(Debug)]
pub struct AbandonStats {
    pub mapping: Vec<Option<Vec<usize>>>,
    pub num_abandoned: usize,
    pub num_rebased: usize,
    pub deleted_bookmarks: Vec<Vec<u8>>,
}

/// Abandon the given revisions, rebasing descendants onto their parents. With
/// `restore_descendants` the descendants keep their content and are only
/// reparented; with `retain_bookmarks` bookmarks move to the abandoned
/// commit's parents instead of being deleted.
pub fn cmd_abandon(
    rs: &mut RepoState,
    targets: &Vec<usize>,
    retain_bookmarks: bool,
    restore_descendants: bool,
    description: Vec<u8>,
) -> (res: Result<AbandonStats, EngineError>)
    requires
        state_wf(old(rs)@),
    ensures
        match res {
            Result::Ok(st) => {
                &&& state_wf(final(rs)@)
                &&& (targets@.len() == 0 ==> final(rs)@ == old(rs)@ && st.mapping@.len() == 0)
                &&& (targets@.len() > 0 ==> {
                    let instrs = abandon_instrs(dedup_first(targets@, 0));
                    let opts = TransformOptions {
                        rebase_descendants: !restore_descendants,
                        delete_abandoned_bookmarks: !retain_bookmarks,
                    };
                    let rv0 = MutRepoV {
                        store: old(rs)@.store,
                        view: old(rs)@.ops[old(rs)@.head as int].view,
                    };
                    let rv1 = MutRepoV {
                        store: final(rs)@.store,
                        view: final(rs)@.ops[final(rs)@.head as int].view,
                    };
                    &&& transform_post(rv0, rv1, instrs, opts, st.mapping@)
                    &&& final(rs)@.ops.len() == old(rs)@.ops.len() + 1
                    &&& final(rs)@.head == old(rs)@.ops.len()
                    &&& final(rs)@.ops[final(rs)@.head as int].description == description@
                    &&& st.num_abandoned == dedup_first(targets@, 0).len()
                    &&& st.num_rebased == count_nontarget_mapped(instrs, st.mapping@, 0)
                    &&& Seq::new(st.deleted_bookmarks@.len(), |k: int| st.deleted_bookmarks@[k]@)
                        == deleted_names(rv0.view.bookmarks, rv1.view.bookmarks, 0)
                })
            },
            Result::Err(e) => final(rs)@ == old(rs)@ && (match e {
                EngineError::ImmutableCommit { id } => id == 0 && targets@.contains(0),
                EngineError::Backend(BackendError::MissingCommit { id }) => id >= old(
                    rs,
                )@.store.commits.len() && targets@.contains(id),
                _ => false,
            }),
        },
{
    if targets.len() == 0 {
        return Result::Ok(
            AbandonStats {
                mapping: Vec::new(),
                num_abandoned: 0,
                num_rebased: 0,
                deleted_bookmarks: Vec::new(),
            },
        );
    }
    let ids = dedup_ids(targets);
    let ni = ids.len();
    let mut instrs: Vec<Instruction> = Vec::new();
    let mut k: usize = 0;
    while k < ni
        invariant
            ni == ids@.len(),
            k <= ni,
            instrs@.len() == k,
            forall|m: int|
                0 <= m < k ==> (#[trigger] instrs@[m]).id == ids@[m] && instrs@[m].action
                    is Abandon,
        decreases ni - k,
    {
        instrs.push(Instruction { id: ids[k], action: RewriteAction::Abandon });
        k += 1;
    }
    proof {
        assert(instrs@ =~= abandon_instrs(dedup_first(targets@, 0)));
        assert forall|k1: int, k2: int|
            0 <= k1 < k2 < instrs@.len() implies (#[trigger] instrs@[k1].id) != (
        #[trigger] instrs@[k2].id) by {
            assert(ids@[k1] != ids@[k2]);
        }
    }
    let mut tx = start_transaction(rs);
    let options = TransformOptions {
        rebase_descendants: !restore_descendants,
        delete_abandoned_bookmarks: !retain_bookmarks,
    };
    let mapping = match transform_descendants(&mut tx.repo, &instrs, options) {
        Result::Ok(m) => m,
        Result::Err(e) => {
            proof {
                match e {
                    EngineError::ImmutableCommit { id } => {
                        assert(instr_ids(instrs@).contains(0));
                        let m = choose|m: int|
                            0 <= m < instr_ids(instrs@).len() && instr_ids(instrs@)[m] == 0;
                        assert(ids@[m] == 0);
                        assert(ids@.contains(0usize));
                        assert(targets@.contains(0usize));
                    },
                    EngineError::Backend(BackendError::MissingCommit { id }) => {
                        if instr_ids(instrs@).contains(id) {
                            let m = choose|m: int|
                                0 <= m < instr_ids(instrs@).len() && instr_ids(instrs@)[m] == id;
                            assert(ids@[m] == id);
                            assert(ids@.contains(id));
                            assert(targets@.contains(id));
                        } else {
                            let k2 = choose|k2: int|
                                0 <= k2 < instrs@.len() && (match #[trigger] instrs@[k2].action {
                                    RewriteAction::Rewrite(e2) => match e2.new_parents {
                                        Option::Some(ov2) => ov2@.contains(id),
                                        Option::None => false,
                                    },
                                    RewriteAction::Abandon => false,
                                });
                            assert(instrs@[k2].action is Abandon);
                            assert(false);
                        }
                    },
                    EngineError::Backend(BackendError::MissingTree { id }) => {
                        let k2 = choose|k2: int|
                            0 <= k2 < instrs@.len() && (match #[trigger] instrs@[k2].action {
                                RewriteAction::Rewrite(e2) => match e2.new_tree {
                                    Option::Some(t2) => t2 == id,
                                    Option::None => false,
                                },
                                RewriteAction::Abandon => false,
                            });
                        assert(instrs@[k2].action is Abandon);
                        assert(false);
                    },
                    _ => {},
                }
            }
            return Result::Err(e);
        },
    };
    let num_rebased = count_rebased(&instrs, &mapping);
    let deleted_bookmarks = collect_deleted_names(&rs.ops[rs.head].view, &tx.repo.view);
    let num_abandoned = ids.len();
    match finish_transaction(rs, tx, description) {
        Result::Ok(_) => Result::Ok(
            AbandonStats { mapping, num_abandoned, num_rebased, deleted_bookmarks },
        ),
        Result::Err(e) => {
            proof {
                assert(false);
            }
            Result::Err(e)
        },
    }
}

/// The edit an unsign pass applies: drop the signature, keep everything else.
pub open spec fn unsign_edit() -> CommitEdit {
    CommitEdit {
        new_description: Option::None,
        set_author_to_committer: false,
        new_author: Option::None,
        new_committer: Option::None,
        drop_signature: true,
        new_tree: Option::None,
        new_parents: Option::None,
        rebase_tree: false,
    }
}

pub open spec fn unsign_instrs(ids: Seq<usize>) -> Seq<Instruction> {
    Seq::new(
        ids.len(),
        |i: int| Instruction { id: ids[i], action: RewriteAction::Rewrite(unsign_edit()) },
    )
}

/// The subsequence of ids whose commits carry a signature.
pub open spec fn signed_only(sv: crate::store::StoreV, ids: Seq<usize>) -> Seq<usize>
    decreases ids.len(),
{
    if ids.len() == 0 {
        Seq::<usize>::empty()
    } else {
        let rest = signed_only(sv, ids.drop_first());
        if ids[0] < sv.commits.len() && sv.commits[ids[0] as int].signature is Some {
            seq![ids[0]] + rest
        } else {
            rest
        }
    }
}

/// What revisions to unsign.
pub struct UnsignArgs {
    pub revisions: Vec<usize>,
}

/// What `cmd_unsign` reports.
#[derive(Debug)]
pub struct UnsignStats {
    pub mapping: Vec<Option<Vec<usize>>>,
    pub num_unsigned: usize,
    pub num_reparented: usize,
}

/// Drop the cryptographic signature of every signed commit among the given
/// revisions, reparenting descendants without touching their content.
pub fn cmd_unsign(rs: &mut RepoState, args: &UnsignArgs, description: Vec<u8>) -> (res: Result<
    UnsignStats,
    EngineError,
>)
    requires
        state_wf(old(rs)@),
    ensures
        match res {
            Result::Ok(st) => {
                let to_unsign = signed_only(old(rs)@.store, dedup_first(args.revisions@, 0));
                let instrs = unsign_instrs(to_unsign);
                let opts = TransformOptions {
                    rebase_descendants: false,
                    delete_abandoned_bookmarks: false,
                };
                let rv0 = MutRepoV {
                    store: old(rs)@.store,
                    view: old(rs)@.ops[old(rs)@.head as int].view,
                };
                let rv1 = MutRepoV {
                    store: final(rs)@.store,
                    view: final(rs)@.ops[final(rs)@.head as int].view,
                };
                &&& state_wf(final(rs)@)
                &&& transform_post(rv0, rv1, instrs, opts, st.mapping@)
                &&& final(rs)@.ops.len() == old(rs)@.ops.len() + 1
                &&& final(rs)@.head == old(rs)@.ops.len()
                &&& st.num_unsigned == to_unsign.len()
                &&& st.num_reparented == count_nontarget_mapped(instrs, st.mapping@, 0)
            },
            Result::Err(e) => final(rs)@ == old(rs)@ && (match e {
                EngineError::Backend(BackendError::MissingCommit { id }) => id >= old(
                    rs,
                )@.store.commits.len() && args.revisions@.contains(id),
                EngineError::ImmutableCommit { id } => id == 0 && args.revisions@.contains(0),
                _ => false,
            }),
        },
{
    let ids = dedup_ids(&args.revisions);
    // validate before reading signatures
    let n_commits = rs.store.commits.len();
    let ni = ids.len();
    let mut k: usize = 0;
    while k < ni
        invariant
            ni == ids@.len(),
            k <= ni,
            rs@ == old(rs)@,
            n_commits == rs@.store.commits.len(),
            forall|m: int| 0 <= m < ids@.len() ==> args.revisions@.contains(#[trigger] ids@[m]),
            forall|m: int| 0 <= m < k ==> 0 < (#[trigger] ids@[m]) < n_commits,
        decreases ni - k,
    {
        if ids[k] >= n_commits {
            proof {
                assert(ids@.contains(ids@[k as int]));
                assert(args.revisions@.contains(ids@[k as int]));
            }
            return Result::Err(
                EngineError::Backend(BackendError::MissingCommit { id: ids[k] }),
            );
        }
        if ids[k] == 0 {
            proof {
                assert(ids@.contains(ids@[k as int]));
                assert(args.revisions@.contains(0usize));
            }
            return Result::Err(EngineError::ImmutableCommit { id: 0 });
        }
        k += 1;
    }
    // keep only the signed ones
    let ghost sv0 = rs@.store;
    let mut to_unsign: Vec<usize> = Vec::new();
    let mut instrs: Vec<Instruction> = Vec::new();
    let mut i: usize = 0;
    proof {
        assert(ids@.skip(0) =~= ids@);
        assert(signed_only(sv0, ids@) =~= to_unsign@ + signed_only(sv0, ids@));
    }
    while i < ni
        invariant
            ni == ids@.len(),
            i <= ni,
            rs@ == old(rs)@,
            sv0 == rs@.store,
            n_commits == rs@.store.commits.len(),
            forall|m: int| 0 <= m < ni ==> 0 < (#[trigger] ids@[m]) < n_commits,
            ids@.no_duplicates(),
            signed_only(sv0, ids@) == to_unsign@ + signed_only(sv0, ids@.skip(i as int)),
            instrs@.len() == to_unsign@.len(),
            forall|m: int|
                0 <= m < instrs@.len() ==> (#[trigger] instrs@[m]) == (Instruction {
                    id: to_unsign@[m],
                    action: RewriteAction::Rewrite(unsign_edit()),
                }),
            forall|m1: int, m2: int|
                0 <= m1 < m2 < to_unsign@.len() ==> (#[trigger] to_unsign@[m1]) != (
                #[trigger] to_unsign@[m2]),
            forall|m: int|
                0 <= m < to_unsign@.len() ==> exists|q: int|
                    0 <= q < i && ids@[q] == (#[trigger] to_unsign@[m]),
        decreases ni - i,
    {
        let ghost rest = ids@.skip(i as int);
        proof {
            assert(rest[0] == ids@[i as int]);
            assert(rest.drop_first() =~= ids@.skip(i + 1 as int));
        }
        let id = ids[i];
        let mut signed = false;
        match &rs.store.commits[id].signature {
            Option::Some(_) => {
                signed = true;
            },
            Option::None => {},
        }
        proof {
            assert(signed == (sv0.commits[id as int].signature is Some));
        }
        if signed {
            let ghost tu0 = to_unsign@;
            to_unsign.push(id);
            let edit = CommitEdit {
                new_description: Option::None,
                set_author_to_committer: false,
                new_author: Option::None,
                new_committer: Option::None,
                drop_signature: true,
                new_tree: Option::None,
                new_parents: Option::None,
                rebase_tree: false,
            };
            proof {
                assert(edit == unsign_edit());
            }
            instrs.push(Instruction { id, action: RewriteAction::Rewrite(edit) });
            proof {
                assert(to_unsign@ + signed_only(sv0, ids@.skip(i + 1 as int)) =~= tu0
                    + signed_only(sv0, rest));
                assert forall|m1: int, m2: int|
                    0 <= m1 < m2 < to_unsign@.len() implies (#[trigger] to_unsign@[m1]) != (
                #[trigger] to_unsign@[m2]) by {
                    if m2 == to_unsign@.len() - 1 {
                        let q = choose|q: int| 0 <= q < i && ids@[q] == tu0[m1];
                        assert(ids@[q] != ids@[i as int]);
                    }
                }
                assert forall|m: int| 0 <= m < to_unsign@.len() implies exists|q: int|
                    0 <= q < i + 1 && ids@[q] == (#[trigger] to_unsign@[m]) by {
                    if m < tu0.len() {
                        let q = choose|q: int| 0 <= q < i && ids@[q] == tu0[m];
                        assert(0 <= q < i + 1 && ids@[q] == to_unsign@[m]);
                    } else {
                        assert(ids@[i as int] == to_unsign@[m]);
                    }
                }
            }
        }
        i += 1;
    }
    proof {
        assert(ids@.skip(ni as int) =~= Seq::<usize>::empty());
        assert(to_unsign@ =~= signed_only(sv0, ids@));
        assert(instrs@ =~= unsign_instrs(signed_only(sv0, dedup_first(args.revisions@, 0))));
    }
    let mut tx = start_transaction(rs);
    let options = TransformOptions { rebase_descendants: false, delete_abandoned_bookmarks: false };
    let mapping = match transform_descendants(&mut tx.repo, &instrs, options) {
        Result::Ok(m) => m,
        Result::Err(e) => {
            proof {
                lemma_unsign_err(instrs@, sv0, e);
                match e {
                    EngineError::Backend(BackendError::MissingCommit { id }) => {
                        assert(false);
                    },
                    EngineError::Backend(BackendError::MissingTree { id }) => {
                        assert(false);
                    },
                    EngineError::ImmutableCommit { id } => {
                        // no target can be the root: the signed subset draws
                        // from validated, non-root ids
                        assert(instr_ids(instrs@).contains(0));
                        let q = choose|q: int|
                            0 <= q < instr_ids(instrs@).len() && instr_ids(instrs@)[q] == 0;
                        assert(to_unsign@[q] == 0);
                        let p = choose|p: int| 0 <= p < ni && ids@[p] == (to_unsign@[q]);
                        assert(false);
                    },
                    _ => {},
                }
            }
            return Result::Err(e);
        },
    };
    let num_reparented = count_rebased(&instrs, &mapping);
    let num_unsigned = to_unsign.len();
    match finish_transaction(rs, tx, description) {
        Result::Ok(_) => Result::Ok(UnsignStats { mapping, num_unsigned, num_reparented }),
        Result::Err(e) => {
            proof {
                assert(false);
            }
            Result::Err(e)
        },
    }
}

/// Whether a description update actually changes the commit: a different
/// description, an author reset, or a new author name or email.
pub open spec fn describe_changes(
    sv: crate::store::StoreV,
    id: usize,
    desc: Seq<u8>,
    reset_author: bool,
    new_author: Option<(Seq<u8>, Seq<u8>)>,
) -> bool {
    ||| desc != sv.commits[id as int].description
    ||| reset_author
    ||| match new_author {
        Option::Some(ne) => ne.0 != sv.commits[id as int].author.name || ne.1 != sv.commits[
            id as int
        ].author.email,
        Option::None => false,
    }
}

/// What `cmd_describe` reports: the instructions it issued (one per commit
/// whose fields actually change) and the rewrite mapping.
#[derive(Debug)]
pub struct DescribeStats {
    pub instrs: Vec<Instruction>,
    pub mapping: Vec<Option<Vec<usize>>>,
    pub num_described: usize,
    pub num_reparented: usize,
}

/// Update the descriptions (and optionally the author) of the given commits,
/// reparenting descendants. Commits whose fields would not change are left
/// alone, so their descendants are not rewritten needlessly.
pub fn cmd_describe(
    rs: &mut RepoState,
    updates: Vec<(usize, Vec<u8>)>,
    reset_author: bool,
    new_author: &Option<(Vec<u8>, Vec<u8>)>,
    description: Vec<u8>,
) -> (res: Result<DescribeStats, EngineError>)
    requires
        state_wf(old(rs)@),
        forall|k1: int, k2: int|
            0 <= k1 < k2 < updates@.len() ==> (#[trigger] updates@[k1].0) != (
            #[trigger] updates@[k2].0),
    ensures
        match res {
            Result::Ok(st) => {
                let opts = TransformOptions {
                    rebase_descendants: false,
                    delete_abandoned_bookmarks: false,
                };
                let rv0 = MutRepoV {
                    store: old(rs)@.store,
                    view: old(rs)@.ops[old(rs)@.head as int].view,
                };
                let rv1 = MutRepoV {
                    store: final(rs)@.store,
                    view: final(rs)@.ops[final(rs)@.head as int].view,
                };
                let na = (match new_author {
                    Option::Some(ne) => Option::Some((ne.0@, ne.1@)),
                    Option::None => Option::<(Seq<u8>, Seq<u8>)>::None,
                });
                &&& state_wf(final(rs)@)
                &&& (updates@.len() == 0 ==> final(rs)@ == old(rs)@ && st.instrs@.len() == 0
                    && st.mapping@.len() == 0)
                &&& (updates@.len() > 0 ==> transform_post(rv0, rv1, st.instrs@, opts, st.mapping@)
                    && final(rs)@.ops.len() == old(rs)@.ops.len() + 1 && final(rs)@.head == old(
                    rs,
                )@.ops.len())
                // the root is never selected on success
                &&& forall|m: int| 0 <= m < updates@.len() ==> (#[trigger] updates@[m].0) != 0
                // one instruction per update that changes its commit, in order
                &&& forall|k: int|
                    0 <= k < st.instrs@.len() ==> (match (#[trigger] st.instrs@[k]).action {
                        RewriteAction::Rewrite(e) => {
                            &&& (exists|m: int|
                                0 <= m < updates@.len() && (#[trigger] updates@[m]).0
                                    == st.instrs@[k].id && match e.new_description {
                                    Option::Some(d) => d@ == updates@[m].1@,
                                    Option::None => false,
                                })
                            &&& e.set_author_to_committer == reset_author
                            &&& (match (e.new_author, na) {
                                (Option::Some(a), Option::Some(b)) => a.0@ == b.0 && a.1@ == b.1,
                                (Option::None, Option::None) => true,
                                _ => false,
                            })
                            &&& e.drop_signature == false
                            &&& e.new_tree is None
                            &&& e.new_parents is None
                            &&& e.rebase_tree == false
                        },
                        RewriteAction::Abandon => false,
                    })
                // exactly the changing updates are instructed
                &&& forall|m: int|
                    0 <= m < updates@.len() ==> (instr_ids(st.instrs@).contains(
                        #[trigger] updates@[m].0,
                    ) <==> describe_changes(
                        old(rs)@.store,
                        updates@[m].0,
                        updates@[m].1@,
                        reset_author,
                        na,
                    ))
                &&& st.num_described == st.instrs@.len()
                &&& st.num_reparented == count_nontarget_mapped(st.instrs@, st.mapping@, 0)
            },
            Result::Err(e) => final(rs)@ == old(rs)@ && (match e {
                EngineError::Backend(BackendError::MissingCommit { id }) => id >= old(
                    rs,
                )@.store.commits.len() && (exists|m: int|
                    0 <= m < updates@.len() && (#[trigger] updates@[m]).0 == id),
                EngineError::ImmutableCommit { id } => id == 0 && (exists|m: int|
                    0 <= m < updates@.len() && (#[trigger] updates@[m]).0 == 0),
                _ => false,
            }),
        },
{
    if updates.len() == 0 {
        return Result::Ok(
            DescribeStats {
                instrs: Vec::new(),
                mapping: Vec::new(),
                num_described: 0,
                num_reparented: 0,
            },
        );
    }
    let ghost u0 = updates@;
    let ghost sv0 = rs@.store;
    let ghost na_spec = (match new_author {
        Option::Some(ne) => Option::Some((ne.0@, ne.1@)),
        Option::None => Option::<(Seq<u8>, Seq<u8>)>::None,
    });
    let n_commits = rs.store.commits.len();
    // validate ids
    let nu = updates.len();
    let mut k: usize = 0;
    while k < nu
        invariant
            nu == updates@.len(),
            k <= nu,
            rs@ == old(rs)@,
            n_commits == rs@.store.commits.len(),
            forall|m: int| 0 <= m < k ==> 0 < (#[trigger] updates@[m].0) < n_commits,
        decreases nu - k,
    {
        if updates[k].0 >= n_commits {
            proof {
                assert(updates@[k as int].0 >= n_commits);
            }
            return Result::Err(
                EngineError::Backend(BackendError::MissingCommit { id: updates[k].0 }),
            );
        }
        if updates[k].0 == 0 {
            proof {
                assert(updates@[k as int].0 == 0);
            }
            return Result::Err(EngineError::ImmutableCommit { id: 0 });
        }
        k += 1;
    }
    // keep only updates that change their commit, moving the new text in
    let mut updates = updates;
    let mut instrs: Vec<Instruction> = Vec::new();
    let mut i: usize = 0;
    while i < nu
        invariant
            nu == u0.len(),
            i <= nu,
            rs@ == old(rs)@,
            sv0 == rs@.store,
            n_commits == rs@.store.commits.len(),
            na_spec == (match new_author {
                Option::Some(ne) => Option::Some((ne.0@, ne.1@)),
                Option::None => Option::<(Seq<u8>, Seq<u8>)>::None,
            }),
            forall|m: int| 0 <= m < nu ==> 0 < (#[trigger] u0[m].0) < n_commits,
            forall|k1: int, k2: int|
                0 <= k1 < k2 < u0.len() ==> (#[trigger] u0[k1].0) != (#[trigger] u0[k2].0),
            updates@ == u0.skip(i as int),
            forall|k2: int|
                0 <= k2 < instrs@.len() ==> (match (#[trigger] instrs@[k2]).action {
                    RewriteAction::Rewrite(e) => {
                        &&& (exists|m: int|
                            0 <= m < i && (#[trigger] u0[m]).0 == instrs@[k2].id && match e
                                .new_description {
                                Option::Some(d) => d@ == u0[m].1@,
                                Option::None => false,
                            })
                        &&& e.set_author_to_committer == reset_author
                        &&& (match (e.new_author, na_spec) {
                            (Option::Some(a), Option::Some(b)) => a.0@ == b.0 && a.1@ == b.1,
                            (Option::None, Option::None) => true,
                            _ => false,
                        })
                        &&& e.drop_signature == false
                        &&& e.new_tree is None
                        &&& e.new_parents is None
                        &&& e.rebase_tree == false
                    },
                    RewriteAction::Abandon => false,
                }),
            forall|m: int|
                0 <= m < i ==> (instr_ids(instrs@).contains(#[trigger] u0[m].0)
                    <==> describe_changes(sv0, u0[m].0, u0[m].1@, reset_author, na_spec)),
            forall|k2: int|
                0 <= k2 < instrs@.len() ==> exists|m: int|
                    0 <= m < i && (#[trigger] instrs@[k2]).id == u0[m].0,
            forall|k1: int, k2: int|
                0 <= k1 < k2 < instrs@.len() ==> (#[trigger] instrs@[k1].id) != (
                #[trigger] instrs@[k2].id),
        decreases nu - i,
    {
        proof {
            assert(u0.skip(i as int)[0] == u0[i as int]);
            assert(u0.skip(i as int).drop_first() =~= u0.skip(i + 1 as int));
        }
        let pair = updates.remove(0);
        let ghost iid = pair.0;
        proof {
            assert(pair == u0[i as int]);
        }
        let id = pair.0;
        let changes: bool = {
            let desc_differs = !crate::bytes::bytes_eq(&pair.1, &rs.store.commits[id].description);
            let author_differs = match new_author {
                Option::Some(ne) => !crate::bytes::bytes_eq(&ne.0, &rs.store.commits[id].author.name)
                    || !crate::bytes::bytes_eq(&ne.1, &rs.store.commits[id].author.email),
                Option::None => false,
            };
            desc_differs || reset_author || author_differs
        };
        proof {
            assert(changes == describe_changes(sv0, id, u0[i as int].1@, reset_author, na_spec));
        }
        let ghost instrs0 = instrs@;
        if changes {
            let na_clone: Option<(Vec<u8>, Vec<u8>)> = match new_author {
                Option::Some(ne) => Option::Some((clone_bytes(&ne.0), clone_bytes(&ne.1))),
                Option::None => Option::None,
            };
            let edit = CommitEdit {
                new_description: Option::Some(pair.1),
                set_author_to_committer: reset_author,
                new_author: na_clone,
                new_committer: Option::None,
                drop_signature: false,
                new_tree: Option::None,
                new_parents: Option::None,
                rebase_tree: false,
            };
            instrs.push(Instruction { id, action: RewriteAction::Rewrite(edit) });
            proof {
                assert forall|k1: int, k2: int|
                    0 <= k1 < k2 < instrs@.len() implies (#[trigger] instrs@[k1].id) != (
                #[trigger] instrs@[k2].id) by {
                    if k2 == instrs0.len() as int {
                        let m = choose|m: int|
                            0 <= m < i && (#[trigger] instrs0[k1]).id == u0[m].0;
                        assert(instrs@[k1].id == u0[m].0);
                        assert(instrs@[k2].id == u0[i as int].0);
                        assert(u0[m].0 != u0[i as int].0);
                    }
                }
            }
        }
        proof {
            assert forall|m: int|
                0 <= m < i + 1 implies (instr_ids(instrs@).contains(#[trigger] u0[m].0)
                <==> describe_changes(sv0, u0[m].0, u0[m].1@, reset_author, na_spec)) by {
                if changes {
                    assert(instrs@.len() == instrs0.len() + 1);
                    assert(forall|k2: int|
                        0 <= k2 < instrs0.len() ==> instrs@[k2] == instrs0[k2]);
                    if m == i {
                        assert(instr_ids(instrs@)[instrs0.len() as int] == u0[m].0);
                        assert(instr_ids(instrs@).contains(u0[m].0));
                    } else {
                        if instr_ids(instrs@).contains(u0[m].0) {
                            let q = choose|q: int|
                                0 <= q < instr_ids(instrs@).len() && instr_ids(instrs@)[q]
                                    == u0[m].0;
                            if q == instrs0.len() as int {
                                assert(u0[m].0 == u0[i as int].0);
                                assert(false);
                            } else {
                                assert(instr_ids(instrs0)[q] == u0[m].0);
                                assert(instr_ids(instrs0).contains(u0[m].0));
                            }
                        }
                        if instr_ids(instrs0).contains(u0[m].0) {
                            let q = choose|q: int|
                                0 <= q < instr_ids(instrs0).len() && instr_ids(instrs0)[q]
                                    == u0[m].0;
                            assert(instr_ids(instrs@)[q] == u0[m].0);
                        }
                    }
                } else {
                    assert(instrs@ == instrs0);
                    if m == i {
                        if instr_ids(instrs@).contains(u0[m].0) {
                            let q = choose|q: int|
                                0 <= q < instr_ids(instrs@).len() && instr_ids(instrs@)[q]
                                    == u0[m].0;
                            let m2 = choose|m2: int|
                                0 <= m2 < i && (#[trigger] instrs@[q]).id == u0[m2].0;
                            assert(u0[m2].0 == u0[i as int].0);
                            assert(false);
                        }
                    }
                }
            }
        }
        i += 1;
    }
    let mut tx = start_transaction(rs);
    let options = TransformOptions { rebase_descendants: false, delete_abandoned_bookmarks: false };
    let mapping = match transform_descendants(&mut tx.repo, &instrs, options) {
        Result::Ok(m) => m,
        Result::Err(e) => {
            proof {
                match e {
                    EngineError::ImmutableCommit { id } => {
                        assert(instr_ids(instrs@).contains(0));
                        let q = choose|q: int|
                            0 <= q < instr_ids(instrs@).len() && instr_ids(instrs@)[q] == 0;
                        let m = choose|m: int|
                            0 <= m < nu && (#[trigger] instrs@[q]).id == u0[m].0;
                        assert(u0[m].0 == 0);
                        assert(false);
                    },
                    EngineError::Backend(BackendError::MissingCommit { id }) => {
                        assert(false) by {
                            if instr_ids(instrs@).contains(id) {
                                let q = choose|q: int|
                                    0 <= q < instr_ids(instrs@).len() && instr_ids(instrs@)[q]
                                        == id;
                                let m = choose|m: int|
                                    0 <= m < nu && (#[trigger] instrs@[q]).id == u0[m].0;
                                assert(u0[m].0 < n_commits);
                            } else {
                                let k2 = choose|k2: int|
                                    0 <= k2 < instrs@.len() && (
                                    match #[trigger] instrs@[k2].action {
                                        RewriteAction::Rewrite(e2) => match e2.new_parents {
                                            Option::Some(ov2) => ov2@.contains(id),
                                            Option::None => false,
                                        },
                                        RewriteAction::Abandon => false,
                                    });
                                assert(match instrs@[k2].action {
                                    RewriteAction::Rewrite(e2) => e2.new_parents is None,
                                    RewriteAction::Abandon => false,
                                });
                            }
                        }
                    },
                    EngineError::Backend(BackendError::MissingTree { id }) => {
                        assert(false) by {
                            let k2 = choose|k2: int|
                                0 <= k2 < instrs@.len() && (match #[trigger] instrs@[k2].action {
                                    RewriteAction::Rewrite(e2) => match e2.new_tree {
                                        Option::Some(t2) => t2 == id,
                                        Option::None => false,
                                    },
                                    RewriteAction::Abandon => false,
                                });
                            assert(match instrs@[k2].action {
                                RewriteAction::Rewrite(e2) => e2.new_tree is None,
                                RewriteAction::Abandon => false,
                            });
                        }
                    },
                    _ => {},
                }
            }
            return Result::Err(e);
        },
    };
    let num_reparented = count_rebased(&instrs, &mapping);
    let num_described = instrs.len();
    match finish_transaction(rs, tx, description) {
        Result::Ok(_) => Result::Ok(
            DescribeStats { instrs, mapping, num_described, num_reparented },
        ),
        Result::Err(e) => {
            proof {
                assert(false);
            }
            Result::Err(e)
        },
    }
}

/// Set the given revision as the working-copy revision of a workspace. When
/// the workspace already edits that revision nothing happens and `true` comes
/// back; otherwise the pointer moves in one new operation.
pub fn cmd_edit(
    rs: &mut RepoState,
    workspace: &Vec<u8>,
    revision: usize,
    description: Vec<u8>,
) -> (res: Result<bool, EngineError>)
    requires
        state_wf(old(rs)@),
    ensures
        match res {
            Result::Ok(already) => {
                let old_ws = old(rs)@.ops[old(rs)@.head as int].view.workspaces;
                &&& state_wf(final(rs)@)
                &&& revision < old(rs)@.store.commits.len()
                &&& revision != 0
                &&& (already <==> (crate::view::ws_find(old_ws, workspace@, 0) >= 0 && old_ws[
                    crate::view::ws_find(old_ws, workspace@, 0)
                ].wc == revision))
                &&& (already ==> final(rs)@ == old(rs)@)
                &&& (!already ==> {
                    let new_view = final(rs)@.ops[final(rs)@.head as int].view;
                    let new_ws = new_view.workspaces;
                    &&& final(rs)@.store == old(rs)@.store
                    &&& final(rs)@.ops.len() == old(rs)@.ops.len() + 1
                    &&& final(rs)@.head == old(rs)@.ops.len()
                    &&& new_view.bookmarks == old(rs)@.ops[old(rs)@.head as int].view.bookmarks
                    &&& new_view.tracked_remotes == old(rs)@.ops[
                        old(rs)@.head as int
                    ].view.tracked_remotes
                    &&& (crate::view::ws_find(old_ws, workspace@, 0) >= 0 ==> new_ws == old_ws.update(
                        crate::view::ws_find(old_ws, workspace@, 0),
                        crate::view::WorkspaceV { name: workspace@, wc: revision },
                    ))
                    &&& (crate::view::ws_find(old_ws, workspace@, 0) == -1 ==> new_ws == old_ws.push(
                        crate::view::WorkspaceV { name: workspace@, wc: revision },
                    ))
                })
            },
            Result::Err(e) => final(rs)@ == old(rs)@ && (match e {
                EngineError::Backend(BackendError::MissingCommit { id }) => id == revision && id
                    >= old(rs)@.store.commits.len(),
                EngineError::ImmutableCommit { id } => id == revision && id == 0,
                _ => false,
            }),
        },
{
    if revision >= rs.store.commits.len() {
        return Result::Err(EngineError::Backend(BackendError::MissingCommit { id: revision }));
    }
    if revision == 0 {
        return Result::Err(EngineError::ImmutableCommit { id: revision });
    }
    let cur = crate::view::get_wc_commit(&rs.ops[rs.head].view, workspace);
    match cur {
        Option::Some(id) => {
            if id == revision {
                return Result::Ok(true);
            }
        },
        Option::None => {},
    }
    proof {
        crate::view::lemma_ws_find_spec(
            old(rs)@.ops[old(rs)@.head as int].view.workspaces,
            workspace@,
            0,
        );
    }
    let mut tx = start_transaction(rs);
    crate::view::set_wc_commit(&mut tx.repo.view, workspace, revision);
    proof {
        assert(view_ids_valid(
            old(rs)@.ops[old(rs)@.head as int].view,
            old(rs)@.store.commits.len() as int,
        ));
        assert(repo_wf(tx.repo@)) by {
            let vv = tx.repo@.view;
            let n = tx.repo@.store.commits.len() as int;
            let old_ws = old(rs)@.ops[old(rs)@.head as int].view.workspaces;
            let f = crate::view::ws_find(old_ws, workspace@, 0);
            crate::view::lemma_ws_find_spec(old_ws, workspace@, 0);
            assert forall|i: int| 0 <= i < vv.workspaces.len() implies (
            #[trigger] vv.workspaces[i]).wc < n by {
                if f >= 0 {
                    if i != f {
                        assert(vv.workspaces == old_ws.update(
                            f,
                            crate::view::WorkspaceV { name: workspace@, wc: revision },
                        ));
                        assert(vv.workspaces[i] == old_ws[i]);
                        assert(old_ws[i].wc < n);
                    } else {
                        assert(vv.workspaces[i].wc == revision);
                    }
                } else {
                    assert(vv.workspaces == old_ws.push(
                        crate::view::WorkspaceV { name: workspace@, wc: revision },
                    ));
                    if i < old_ws.len() {
                        assert(vv.workspaces[i] == old_ws[i]);
                        assert(old_ws[i].wc < n);
                    } else {
                        assert(vv.workspaces[i].wc == revision);
                    }
                }
            }
        }
    }
    match finish_transaction(rs, tx, description) {
        Result::Ok(_) => Result::Ok(false),
        Result::Err(e) => {
            proof {
                assert(false);
            }
            Result::Err(e)
        },
    }
}

/// The entries of a tree restricted to a path selection, in tree order; no
/// selection means every entry.
pub open spec fn listing(
    tv: Seq<(usize, crate::merge::MergeVal)>,
    sel: Option<Seq<usize>>,
    i: int,
) -> Seq<(usize, crate::merge::MergeVal)>
    decreases tv.len() - i
        when 0 <= i <= tv.len()
{
    if i >= tv.len() {
        Seq::<(usize, crate::merge::MergeVal)>::empty()
    } else {
        let keep = match sel {
            Option::Some(ps) => ps.contains(tv[i].0),
            Option::None => true,
        };
        if keep {
            seq![tv[i]] + listing(tv, sel, i + 1)
        } else {
            listing(tv, sel, i + 1)
        }
    }
}

/// List the files of a revision, optionally restricted to the given paths.
pub fn cmd_file_list(
    rs: &RepoState,
    revision: usize,
    paths: &Option<Vec<usize>>,
) -> (res: Result<Vec<crate::tree::TreeEntry>, EngineError>)
    requires
        state_wf(rs@),
    ensures
        match res {
            Result::Ok(entries) => {
                let tv = rs@.store.trees[rs@.store.commits[revision as int].tree as int];
                let sel = (match paths {
                    Option::Some(ps) => Option::Some(ps@),
                    Option::None => Option::<Seq<usize>>::None,
                });
                &&& revision < rs@.store.commits.len()
                &&& Seq::new(entries@.len(), |k: int| (entries@[k].path, entries@[k].value@))
                    == listing(tv, sel, 0)
            },
            Result::Err(e) => match e {
                EngineError::Backend(BackendError::MissingCommit { id }) => id == revision && id
                    >= rs@.store.commits.len(),
                _ => false,
            },
        },
{
    if revision >= rs.store.commits.len() {
        return Result::Err(EngineError::Backend(BackendError::MissingCommit { id: revision }));
    }
    let tid = rs.store.commits[revision].tree;
    proof {
        assert(rs@.store.commits[revision as int].tree < rs@.store.trees.len());
    }
    let tree = crate::store::get_tree(&rs.store, tid);
    let ghost tv = tree@;
    let ghost sel = (match paths {
        Option::Some(ps) => Option::Some(ps@),
        Option::None => Option::<Seq<usize>>::None,
    });
    let n = tree.entries.len();
    let mut out: Vec<crate::tree::TreeEntry> = Vec::new();
    let mut i: usize = 0;
    proof {
        assert(listing(tv, sel, 0) =~= Seq::new(out@.len(), |k: int| (out@[k].path, out@[k].value@))
            + listing(tv, sel, 0));
    }
    while i < n
        invariant
            n == tree.entries.len(),
            i <= n,
            tv == tree@,
            sel == (match paths {
                Option::Some(ps) => Option::Some(ps@),
                Option::None => Option::<Seq<usize>>::None,
            }),
            listing(tv, sel, 0) == Seq::new(
                out@.len(),
                |k: int| (out@[k].path, out@[k].value@),
            ) + listing(tv, sel, i as int),
        decreases n - i,
    {
        let p = tree.entries[i].path;
        proof {
            assert(tv[i as int].0 == p);
        }
        let keep = match paths {
            Option::Some(ps) => crate::ids::ids_contains(ps, p),
            Option::None => true,
        };
        let ghost out0 = out@;
        if keep {
            out.push(
                crate::tree::TreeEntry {
                    path: p,
                    value: crate::merge::clone_merge_value(&tree.entries[i].value),
                },
            );
            proof {
                assert(Seq::new(out@.len(), |k: int| (out@[k].path, out@[k].value@)) =~= Seq::new(
                    out0.len(),
                    |k: int| (out0[k].path, out0[k].value@),
                ) + seq![tv[i as int]]);
                assert(Seq::new(out@.len(), |k: int| (out@[k].path, out@[k].value@)) + listing(
                    tv,
                    sel,
                    i + 1,
                ) =~= Seq::new(out0.len(), |k: int| (out0[k].path, out0[k].value@)) + listing(
                    tv,
                    sel,
                    i as int,
                ));
            }
        }
        i += 1;
    }
    proof {
        assert(listing(tv, sel, n as int) =~= Seq::<(usize, crate::merge::MergeVal)>::empty());
        assert(Seq::new(out@.len(), |k: int| (out@[k].path, out@[k].value@)) =~= Seq::new(
            out@.len(),
            |k: int| (out@[k].path, out@[k].value@),
        ) + listing(tv, sel, n as int));
    }
    Result::Ok(out)
}

/// Arguments of `cmd_bookmark_create`: the target revision (absent means the
/// working copy) and the bookmark names to create.
pub struct BookmarkCreateArgs {
    pub revision: Option<usize>,
    pub names: Vec<Vec<u8>>,
}

/// After a successful create or set, every named bookmark points at exactly
/// the target, and every other bookmark keeps its old target.
pub open spec fn bookmarks_all_set(
    bs_old: Seq<BookmarkV>,
    bs_new: Seq<BookmarkV>,
    names: Seq<Vec<u8>>,
    target: usize,
) -> bool {
    &&& forall|k: int|
        0 <= k < names.len() ==> {
            let f = bm_find(bs_new, (#[trigger] names[k])@, 0);
            0 <= f < bs_new.len() && bs_new[f].targets == seq![target]
        }
    &&& forall|nm: Seq<u8>|
        (forall|k: int| 0 <= k < names.len() ==> (#[trigger] names[k])@ != nm) ==> ((bm_find(
            bs_old,
            nm,
            0,
        ) >= 0 <==> #[trigger] bm_find(bs_new, nm, 0) >= 0) && (bm_find(bs_old, nm, 0) >= 0
            ==> bs_new[bm_find(bs_new, nm, 0)].targets == bs_old[bm_find(bs_old, nm, 0)].targets))
}

/// Point each named bookmark at the target, in one transaction.
fn set_bookmarks_to(
    v: &mut crate::view::RepoView,
    names: &Vec<Vec<u8>>,
    target: usize,
)
    requires
        view_wf(old(v)@),
    ensures
        view_wf(final(v)@),
        final(v)@.workspaces == old(v)@.workspaces,
        final(v)@.tracked_remotes == old(v)@.tracked_remotes,
        bookmarks_all_set(old(v)@.bookmarks, final(v)@.bookmarks, names@, target),
        forall|i: int, k: int|
            0 <= i < final(v)@.bookmarks.len() && 0 <= k < final(v)@.bookmarks[i].targets.len()
                ==> ((#[trigger] final(v)@.bookmarks[i].targets[k]) == target || exists|i2: int,
            k2: int|
                0 <= i2 < old(v)@.bookmarks.len() && 0 <= k2
                    < old(v)@.bookmarks[i2].targets.len() && old(v)@.bookmarks[i2].targets[k2]
                    == final(v)@.bookmarks[i].targets[k]),
{
    let ghost bs0 = v@.bookmarks;
    let n = names.len();
    let mut i: usize = 0;
    while i < n
        invariant
            n == names@.len(),
            i <= n,
            view_wf(v@),
            v@.workspaces == old(v)@.workspaces,
            v@.tracked_remotes == old(v)@.tracked_remotes,
            bs0 == old(v)@.bookmarks,
            forall|k: int|
                0 <= k < i ==> {
                    let f = bm_find(v@.bookmarks, (#[trigger] names@[k])@, 0);
                    0 <= f < v@.bookmarks.len() && v@.bookmarks[f].targets == seq![target]
                },
            forall|nm: Seq<u8>|
                (forall|k: int| 0 <= k < i ==> (#[trigger] names@[k])@ != nm) ==> ((bm_find(
                    bs0,
                    nm,
                    0,
                ) >= 0 <==> #[trigger] bm_find(v@.bookmarks, nm, 0) >= 0) && (bm_find(bs0, nm, 0)
                    >= 0 ==> v@.bookmarks[bm_find(v@.bookmarks, nm, 0)].targets == bs0[bm_find(
                    bs0,
                    nm,
                    0,
                )].targets)),
            forall|i2: int, k2: int|
                0 <= i2 < v@.bookmarks.len() && 0 <= k2 < v@.bookmarks[i2].targets.len() ==> ((
                #[trigger] v@.bookmarks[i2].targets[k2]) == target || exists|i3: int, k3: int|
                    0 <= i3 < bs0.len() && 0 <= k3 < bs0[i3].targets.len() && bs0[i3].targets[k3]
                        == v@.bookmarks[i2].targets[k2]),
        decreases n - i,
    {
        let ghost bs_before = v@.bookmarks;
        let mut ts: Vec<usize> = Vec::new();
        ts.push(target);
        proof {
            assert(ts@ =~= seq![target]);
        }
        crate::view::set_local_bookmark(v, &names[i], ts);
        proof {
            let setname = names@[i as int]@;
            assert forall|k: int| 0 <= k < i + 1 implies {
                let f = bm_find(v@.bookmarks, (#[trigger] names@[k])@, 0);
                0 <= f < v@.bookmarks.len() && v@.bookmarks[f].targets == seq![target]
            } by {
                crate::view::lemma_set_bookmark_lookup(
                    bs_before,
                    v@.bookmarks,
                    setname,
                    seq![target],
                    names@[k]@,
                );
            }
            assert forall|nm: Seq<u8>|
                (forall|k: int| 0 <= k < i + 1 ==> (#[trigger] names@[k])@ != nm) implies ((bm_find(
                bs0,
                nm,
                0,
            ) >= 0 <==> #[trigger] bm_find(v@.bookmarks, nm, 0) >= 0) && (bm_find(bs0, nm, 0) >= 0
                ==> v@.bookmarks[bm_find(v@.bookmarks, nm, 0)].targets == bs0[bm_find(
                bs0,
                nm,
                0,
            )].targets)) by {
                assert(names@[i as int]@ != nm);
                crate::view::lemma_set_bookmark_lookup(
                    bs_before,
                    v@.bookmarks,
                    setname,
                    seq![target],
                    nm,
                );
            }
            assert forall|i2: int, k2: int|
                0 <= i2 < v@.bookmarks.len() && 0 <= k2 < v@.bookmarks[i2].targets.len() implies ((
            #[trigger] v@.bookmarks[i2].targets[k2]) == target || exists|i3: int, k3: int|
                0 <= i3 < bs0.len() && 0 <= k3 < bs0[i3].targets.len() && bs0[i3].targets[k3]
                    == v@.bookmarks[i2].targets[k2]) by {
                let f0 = bm_find(bs_before, setname, 0);
                crate::view::lemma_bm_find_spec(bs_before, setname, 0);
                if f0 >= 0 {
                    if i2 != f0 {
                        assert(v@.bookmarks[i2] == bs_before[i2]);
                    } else {
                        assert(v@.bookmarks[i2].targets == seq![target]);
                    }
                } else {
                    if i2 < bs_before.len() {
                        assert(v@.bookmarks[i2] == bs_before[i2]);
                    } else {
                        assert(v@.bookmarks[i2].targets == seq![target]);
                    }
                }
            }
        }
        i += 1;
    }
}

/// Create new bookmarks pointing at a revision. Fails when a named bookmark
/// already exists, or when tracked remote counterparts of a deleted bookmark
/// remain; an absent revision means the workspace's working copy.
pub fn cmd_bookmark_create(
    rs: &mut RepoState,
    workspace: &Vec<u8>,
    args: &BookmarkCreateArgs,
    description: Vec<u8>,
) -> (res: Result<usize, EngineError>)
    requires
        state_wf(old(rs)@),
    ensures
        match res {
            Result::Ok(target) => {
                let old_view = old(rs)@.ops[old(rs)@.head as int].view;
                let new_view = final(rs)@.ops[final(rs)@.head as int].view;
                &&& state_wf(final(rs)@)
                &&& target < old(rs)@.store.commits.len()
                &&& (match args.revision {
                    Option::Some(t) => target == t,
                    Option::None => crate::view::ws_find(old_view.workspaces, workspace@, 0) >= 0
                        && target == old_view.workspaces[crate::view::ws_find(
                        old_view.workspaces,
                        workspace@,
                        0,
                    )].wc,
                })
                &&& final(rs)@.store == old(rs)@.store
                &&& final(rs)@.ops.len() == old(rs)@.ops.len() + 1
                &&& final(rs)@.head == old(rs)@.ops.len()
                &&& bookmarks_all_set(old_view.bookmarks, new_view.bookmarks, args.names@, target)
                // workspaces and remote-tracking state are untouched
                &&& new_view.workspaces == old_view.workspaces
                &&& new_view.tracked_remotes == old_view.tracked_remotes
                // every name was new: neither present nor shadowed by tracked remotes
                &&& forall|k: int|
                    0 <= k < args.names@.len() ==> bm_find(
                        old_view.bookmarks,
                        (#[trigger] args.names@[k])@,
                        0,
                    ) == -1 && !old_view.tracked_remotes.contains(args.names@[k]@)
            },
            Result::Err(e) => final(rs)@ == old(rs)@ && (match e {
                EngineError::User(UserError::NoWorkingCopy) => args.revision is None
                    && crate::view::ws_find(
                    old(rs)@.ops[old(rs)@.head as int].view.workspaces,
                    workspace@,
                    0,
                ) == -1,
                EngineError::Backend(BackendError::MissingCommit { id }) => id >= old(
                    rs,
                )@.store.commits.len() && (match args.revision {
                    Option::Some(t) => id == t,
                    Option::None => true,
                }),
                EngineError::User(UserError::BookmarkAlreadyExists { name }) => exists|k: int|
                    {
                        let bs = old(rs)@.ops[old(rs)@.head as int].view.bookmarks;
                        let tr = old(rs)@.ops[old(rs)@.head as int].view.tracked_remotes;
                        &&& 0 <= k < args.names@.len()
                        &&& (#[trigger] args.names@[k])@ == name@
                        &&& bm_find(bs, name@, 0) >= 0
                        // it is the first failing name
                        &&& forall|m: int|
                            0 <= m < k ==> bm_find(bs, (#[trigger] args.names@[m])@, 0) == -1
                                && !tr.contains(args.names@[m]@)
                    },
                EngineError::User(UserError::TrackedRemoteExists { name }) => exists|k: int|
                    {
                        let bs = old(rs)@.ops[old(rs)@.head as int].view.bookmarks;
                        let tr = old(rs)@.ops[old(rs)@.head as int].view.tracked_remotes;
                        &&& 0 <= k < args.names@.len()
                        &&& (#[trigger] args.names@[k])@ == name@
                        &&& tr.contains(name@)
                        // locally absent, and the first failing name
                        &&& bm_find(bs, name@, 0) == -1
                        &&& forall|m: int|
                            0 <= m < k ==> bm_find(bs, (#[trigger] args.names@[m])@, 0) == -1
                                && !tr.contains(args.names@[m]@)
                    },
                _ => false,
            }),
        },
{
    let target: usize = match args.revision {
        Option::Some(t) => t,
        Option::None => {
            match crate::view::get_wc_commit(&rs.ops[rs.head].view, workspace) {
                Option::Some(wc) => wc,
                Option::None => {
                    return Result::Err(EngineError::User(UserError::NoWorkingCopy));
                },
            }
        },
    };
    if target >= rs.store.commits.len() {
        return Result::Err(EngineError::Backend(BackendError::MissingCommit { id: target }));
    }
    proof {
        match args.revision {
            Option::Some(t) => {},
            Option::None => {
                crate::view::lemma_ws_find_spec(
                    old(rs)@.ops[old(rs)@.head as int].view.workspaces,
                    workspace@,
                    0,
                );
                assert(view_ids_valid(
                    old(rs)@.ops[old(rs)@.head as int].view,
                    old(rs)@.store.commits.len() as int,
                ));
            },
        }
    }
    // reject names that exist or are still tracked remotely
    let nn = args.names.len();
    let mut k: usize = 0;
    while k < nn
        invariant
            nn == args.names@.len(),
            k <= nn,
            rs@ == old(rs)@,
            state_wf(rs@),
            forall|m: int|
                0 <= m < k ==> bm_find(
                    rs@.ops[rs@.head as int].view.bookmarks,
                    (#[trigger] args.names@[m])@,
                    0,
                ) == -1 && !rs@.ops[rs@.head as int].view.tracked_remotes.contains(
                    args.names@[m]@,
                ),
        decreases nn - k,
    {
        let existing = crate::view::get_local_bookmark(&rs.ops[rs.head].view, &args.names[k]);
        match existing {
            Option::Some(_) => {
                return Result::Err(
                    EngineError::User(
                        UserError::BookmarkAlreadyExists { name: clone_bytes(&args.names[k]) },
                    ),
                );
            },
            Option::None => {},
        }
        if crate::view::has_tracked_remote_bookmarks(&rs.ops[rs.head].view, &args.names[k]) {
            return Result::Err(
                EngineError::User(
                    UserError::TrackedRemoteExists { name: clone_bytes(&args.names[k]) },
                ),
            );
        }
        k += 1;
    }
    let mut tx = start_transaction(rs);
    set_bookmarks_to(&mut tx.repo.view, &args.names, target);
    proof {
        assert(view_ids_valid(
            old(rs)@.ops[old(rs)@.head as int].view,
            old(rs)@.store.commits.len() as int,
        ));
        assert(repo_wf(tx.repo@)) by {
            let vv = tx.repo@.view;
            let n = tx.repo@.store.commits.len() as int;
            assert forall|i2: int, k2: int|
                0 <= i2 < vv.bookmarks.len() && 0 <= k2 < vv.bookmarks[i2].targets.len() implies (
            #[trigger] vv.bookmarks[i2].targets[k2]) < n by {
                if vv.bookmarks[i2].targets[k2] != target {
                    let old_view = old(rs)@.ops[old(rs)@.head as int].view;
                    let (i3, k3) = choose|i3: int, k3: int|
                        0 <= i3 < old_view.bookmarks.len() && 0 <= k3
                            < old_view.bookmarks[i3].targets.len()
                            && old_view.bookmarks[i3].targets[k3] == vv.bookmarks[i2].targets[k2];
                    assert(old_view.bookmarks[i3].targets[k3] < n);
                }
            }
        }
    }
    match finish_transaction(rs, tx, description) {
        Result::Ok(_) => Result::Ok(target),
        Result::Err(e) => {
            proof {
                assert(false);
            }
            Result::Err(e)
        },
    }
}

/// Arguments of `cmd_bookmark_set`: the target revision (absent means the
/// working copy), whether backward or sideways moves are allowed, and the
/// bookmark names to update.
pub struct BookmarkSetArgs {
    pub revision: Option<usize>,
    pub allow_backwards: bool,
    pub names: Vec<Vec<u8>>,
}

/// The local target of a bookmark as an option over the view.
pub open spec fn bookmark_target(bs: Seq<BookmarkV>, name: Seq<u8>) -> Option<Seq<usize>> {
    if bm_find(bs, name, 0) >= 0 {
        Option::Some(bs[bm_find(bs, name, 0)].targets)
    } else {
        Option::None
    }
}

/// Setting this name creates a bookmark: it is locally absent and no tracked
/// remote counterpart remains (otherwise the local bookmark is resurrected,
/// which counts as a move).
pub open spec fn set_creates(bs: Seq<BookmarkV>, tr: Seq<Seq<u8>>, name: Seq<u8>) -> bool {
    bm_find(bs, name, 0) == -1 && !tr.contains(name)
}

/// Setting this name moves a bookmark: it is not created, and it did not
/// already point exactly at the target.
pub open spec fn set_moves(
    bs: Seq<BookmarkV>,
    tr: Seq<Seq<u8>>,
    name: Seq<u8>,
    target: usize,
) -> bool {
    !set_creates(bs, tr, name) && !(bm_find(bs, name, 0) >= 0 && bs[bm_find(
        bs,
        name,
        0,
    )].targets == seq![target])
}

/// How many of the names a set operation creates.
pub open spec fn count_created(
    bs: Seq<BookmarkV>,
    tr: Seq<Seq<u8>>,
    names: Seq<Vec<u8>>,
    i: int,
) -> int
    decreases names.len() - i
        when 0 <= i <= names.len()
{
    if i >= names.len() {
        0
    } else {
        (if set_creates(bs, tr, names[i]@) {
            1int
        } else {
            0int
        }) + count_created(bs, tr, names, i + 1)
    }
}

/// How many of the names a set operation moves.
pub open spec fn count_moved(
    bs: Seq<BookmarkV>,
    tr: Seq<Seq<u8>>,
    names: Seq<Vec<u8>>,
    target: usize,
    i: int,
) -> int
    decreases names.len() - i
        when 0 <= i <= names.len()
{
    if i >= names.len() {
        0
    } else {
        (if set_moves(bs, tr, names[i]@, target) {
            1int
        } else {
            0int
        }) + count_moved(bs, tr, names, target, i + 1)
    }
}

proof fn lemma_set_count_bounds(
    bs: Seq<BookmarkV>,
    tr: Seq<Seq<u8>>,
    names: Seq<Vec<u8>>,
    target: usize,
    i: int,
)
    requires
        0 <= i <= names.len(),
    ensures
        0 <= count_created(bs, tr, names, i) <= names.len() - i,
        0 <= count_moved(bs, tr, names, target, i) <= names.len() - i,
    decreases names.len() - i,
{
    if i < names.len() {
        lemma_set_count_bounds(bs, tr, names, target, i + 1);
    }
}

/// What `cmd_bookmark_set` reports: the resolved target and how many names
/// were created (locally absent, nothing tracked remotely) versus moved.
#[derive(Debug)]
pub struct BookmarkSetStats {
    pub target: usize,
    pub num_created: usize,
    pub num_moved: usize,
}

/// Create or update bookmarks to point at a revision. Without
/// `allow_backwards`, a move whose old target is not an ancestor of the new
/// one is refused.
pub fn cmd_bookmark_set(
    rs: &mut RepoState,
    workspace: &Vec<u8>,
    args: &BookmarkSetArgs,
    description: Vec<u8>,
) -> (res: Result<BookmarkSetStats, EngineError>)
    requires
        state_wf(old(rs)@),
    ensures
        match res {
            Result::Ok(st) => {
                let target = st.target;
                let old_view = old(rs)@.ops[old(rs)@.head as int].view;
                let new_view = final(rs)@.ops[final(rs)@.head as int].view;
                &&& state_wf(final(rs)@)
                &&& target < old(rs)@.store.commits.len()
                &&& (match args.revision {
                    Option::Some(t) => target == t,
                    Option::None => crate::view::ws_find(old_view.workspaces, workspace@, 0) >= 0
                        && target == old_view.workspaces[crate::view::ws_find(
                        old_view.workspaces,
                        workspace@,
                        0,
                    )].wc,
                })
                &&& final(rs)@.store == old(rs)@.store
                &&& final(rs)@.ops.len() == old(rs)@.ops.len() + 1
                &&& final(rs)@.head == old(rs)@.ops.len()
                &&& bookmarks_all_set(old_view.bookmarks, new_view.bookmarks, args.names@, target)
                // workspaces and remote-tracking state are untouched
                &&& new_view.workspaces == old_view.workspaces
                &&& new_view.tracked_remotes == old_view.tracked_remotes
                // creations are told apart from moves via the tracked remotes
                &&& st.num_created == count_created(
                    old_view.bookmarks,
                    old_view.tracked_remotes,
                    args.names@,
                    0,
                )
                &&& st.num_moved == count_moved(
                    old_view.bookmarks,
                    old_view.tracked_remotes,
                    args.names@,
                    target,
                    0,
                )
                // every move was a fast-forward unless explicitly allowed
                &&& (!args.allow_backwards ==> forall|k: int|
                    0 <= k < args.names@.len() ==> crate::view::fast_forward(
                        old(rs)@.store,
                        bookmark_target(old_view.bookmarks, (#[trigger] args.names@[k])@),
                        target,
                    ))
            },
            Result::Err(e) => final(rs)@ == old(rs)@ && (match e {
                EngineError::User(UserError::NoWorkingCopy) => args.revision is None
                    && crate::view::ws_find(
                    old(rs)@.ops[old(rs)@.head as int].view.workspaces,
                    workspace@,
                    0,
                ) == -1,
                EngineError::Backend(BackendError::MissingCommit { id }) => id >= old(
                    rs,
                )@.store.commits.len() && (match args.revision {
                    Option::Some(t) => id == t,
                    Option::None => true,
                }),
                EngineError::User(UserError::NonFastForward { name }) => {
                    let bs = old(rs)@.ops[old(rs)@.head as int].view.bookmarks;
                    let tgt = (match args.revision {
                        Option::Some(t) => t,
                        Option::None => old(rs)@.ops[old(rs)@.head as int].view.workspaces[
                            crate::view::ws_find(
                                old(rs)@.ops[old(rs)@.head as int].view.workspaces,
                                workspace@,
                                0,
                            )
                        ].wc,
                    });
                    &&& !args.allow_backwards
                    &&& exists|k: int|
                        {
                            &&& 0 <= k < args.names@.len()
                            &&& (#[trigger] args.names@[k])@ == name@
                            // it is the first non-fast-forward name
                            &&& forall|m: int|
                                0 <= m < k ==> crate::view::fast_forward(
                                    old(rs)@.store,
                                    bookmark_target(bs, (#[trigger] args.names@[m])@),
                                    tgt,
                                )
                        }
                    &&& !crate::view::fast_forward(
                        old(rs)@.store,
                        bookmark_target(bs, name@),
                        tgt,
                    )
                },
                _ => false,
            }),
        },
{
    let target: usize = match args.revision {
        Option::Some(t) => t,
        Option::None => {
            match crate::view::get_wc_commit(&rs.ops[rs.head].view, workspace) {
                Option::Some(wc) => wc,
                Option::None => {
                    return Result::Err(EngineError::User(UserError::NoWorkingCopy));
                },
            }
        },
    };
    if target >= rs.store.commits.len() {
        return Result::Err(EngineError::Backend(BackendError::MissingCommit { id: target }));
    }
    proof {
        match args.revision {
            Option::Some(t) => {},
            Option::None => {
                crate::view::lemma_ws_find_spec(
                    old(rs)@.ops[old(rs)@.head as int].view.workspaces,
                    workspace@,
                    0,
                );
                assert(view_ids_valid(
                    old(rs)@.ops[old(rs)@.head as int].view,
                    old(rs)@.store.commits.len() as int,
                ));
            },
        }
    }
    // gate non-fast-forward moves
    if !args.allow_backwards {
        let nn = args.names.len();
        let mut k: usize = 0;
        while k < nn
            invariant
                nn == args.names@.len(),
                k <= nn,
                rs@ == old(rs)@,
                state_wf(rs@),
                target < rs@.store.commits.len(),
                !args.allow_backwards,
                (match args.revision {
                    Option::Some(t) => target == t,
                    Option::None => crate::view::ws_find(
                        old(rs)@.ops[old(rs)@.head as int].view.workspaces,
                        workspace@,
                        0,
                    ) >= 0 && target == old(rs)@.ops[old(rs)@.head as int].view.workspaces[
                        crate::view::ws_find(
                            old(rs)@.ops[old(rs)@.head as int].view.workspaces,
                            workspace@,
                            0,
                        )
                    ].wc,
                }),
                forall|m: int|
                    0 <= m < k ==> crate::view::fast_forward(
                        rs@.store,
                        bookmark_target(
                            rs@.ops[rs@.head as int].view.bookmarks,
                            (#[trigger] args.names@[m])@,
                        ),
                        target,
                    ),
            decreases nn - k,
        {
            let old_target = crate::view::get_local_bookmark(&rs.ops[rs.head].view, &args.names[k]);
            proof {
                assert(view_ids_valid(
                    rs@.ops[rs@.head as int].view,
                    rs@.store.commits.len() as int,
                ));
                match &old_target {
                    Option::Some(ts) => {
                        let bs = rs@.ops[rs@.head as int].view.bookmarks;
                        let f = bm_find(bs, args.names@[k as int]@, 0);
                        crate::view::lemma_bm_find_spec(bs, args.names@[k as int]@, 0);
                        assert forall|m: int|
                            0 <= m < ts@.len() implies (#[trigger] ts@[m])
                            < rs@.store.commits.len() by {
                            assert(ts@[m] == bs[f].targets[m]);
                            assert(bs[f].targets[m] < rs@.store.commits.len());
                        }
                    },
                    Option::None => {},
                }
            }
            if !crate::view::is_fast_forward(&rs.store, &old_target, target) {
                proof {
                    let bs = rs@.ops[rs@.head as int].view.bookmarks;
                    match &old_target {
                        Option::Some(ts) => {
                            assert(ts@ =~= bs[bm_find(bs, args.names@[k as int]@, 0)].targets);
                            assert(bookmark_target(bs, args.names@[k as int]@)
                                == Option::Some(ts@));
                        },
                        Option::None => {
                            assert(bookmark_target(bs, args.names@[k as int]@) is None);
                        },
                    }
                    assert(!crate::view::fast_forward(
                        rs@.store,
                        bookmark_target(bs, args.names@[k as int]@),
                        target,
                    ));
                }
                return Result::Err(
                    EngineError::User(
                        UserError::NonFastForward { name: clone_bytes(&args.names[k]) },
                    ),
                );
            }
            proof {
                let bs = rs@.ops[rs@.head as int].view.bookmarks;
                match &old_target {
                    Option::Some(ts) => {
                        assert(ts@ =~= bs[bm_find(bs, args.names@[k as int]@, 0)].targets);
                        assert(bookmark_target(bs, args.names@[k as int]@) == Option::Some(ts@));
                    },
                    Option::None => {
                        assert(bookmark_target(bs, args.names@[k as int]@) is None);
                    },
                }
            }
            k += 1;
        }
    }
    // tell creations apart from moves before anything changes
    let ghost bs_head = rs@.ops[rs@.head as int].view.bookmarks;
    let ghost tr_head = rs@.ops[rs@.head as int].view.tracked_remotes;
    let head_view = &rs.ops[rs.head].view;
    let nn2 = args.names.len();
    let mut num_created: usize = 0;
    let mut num_moved: usize = 0;
    let mut ci: usize = 0;
    proof {
        lemma_set_count_bounds(bs_head, tr_head, args.names@, target, 0);
    }
    while ci < nn2
        invariant
            nn2 == args.names@.len(),
            ci <= nn2,
            bs_head == head_view@.bookmarks,
            tr_head == head_view@.tracked_remotes,
            num_created <= ci,
            num_moved <= ci,
            count_created(bs_head, tr_head, args.names@, 0) == num_created + count_created(
                bs_head,
                tr_head,
                args.names@,
                ci as int,
            ),
            count_moved(bs_head, tr_head, args.names@, target, 0) == num_moved + count_moved(
                bs_head,
                tr_head,
                args.names@,
                target,
                ci as int,
            ),
        decreases nn2 - ci,
    {
        proof {
            lemma_set_count_bounds(bs_head, tr_head, args.names@, target, ci + 1);
        }
        let existing = crate::view::get_local_bookmark(head_view, &args.names[ci]);
        let has_remote = crate::view::has_tracked_remote_bookmarks(head_view, &args.names[ci]);
        let creates: bool = match &existing {
            Option::None => !has_remote,
            Option::Some(_) => false,
        };
        let moves: bool = if creates {
            false
        } else {
            match &existing {
                Option::Some(ts) => !(ts.len() == 1 && ts[0] == target),
                Option::None => true,
            }
        };
        proof {
            assert(creates == set_creates(bs_head, tr_head, args.names@[ci as int]@));
            match &existing {
                Option::Some(ts) => {
                    let f = bm_find(bs_head, args.names@[ci as int]@, 0);
                    if ts@.len() == 1 && ts@[0] == target {
                        assert(bs_head[f].targets =~= seq![target]);
                    } else {
                        if bs_head[f].targets == seq![target] {
                            assert(ts@[0] == target);
                        }
                    }
                },
                Option::None => {},
            }
            assert(moves == set_moves(bs_head, tr_head, args.names@[ci as int]@, target));
        }
        if creates {
            num_created += 1;
        }
        if moves {
            num_moved += 1;
        }
        ci += 1;
    }
    let mut tx = start_transaction(rs);
    set_bookmarks_to(&mut tx.repo.view, &args.names, target);
    proof {
        assert(view_ids_valid(
            old(rs)@.ops[old(rs)@.head as int].view,
            old(rs)@.store.commits.len() as int,
        ));
        assert(repo_wf(tx.repo@)) by {
            let vv = tx.repo@.view;
            let n = tx.repo@.store.commits.len() as int;
            assert forall|i2: int, k2: int|
                0 <= i2 < vv.bookmarks.len() && 0 <= k2 < vv.bookmarks[i2].targets.len() implies (
            #[trigger] vv.bookmarks[i2].targets[k2]) < n by {
                if vv.bookmarks[i2].targets[k2] != target {
                    let old_view = old(rs)@.ops[old(rs)@.head as int].view;
                    let (i3, k3) = choose|i3: int, k3: int|
                        0 <= i3 < old_view.bookmarks.len() && 0 <= k3
                            < old_view.bookmarks[i3].targets.len()
                            && old_view.bookmarks[i3].targets[k3] == vv.bookmarks[i2].targets[k2];
                    assert(old_view.bookmarks[i3].targets[k3] < n);
                }
            }
        }
    }
    match finish_transaction(rs, tx, description) {
        Result::Ok(_) => Result::Ok(BookmarkSetStats { target, num_created, num_moved }),
        Result::Err(e) => {
            proof {
                assert(false);
            }
            Result::Err(e)
        },
    }
}

/// A child's parents after a commit is inserted before it: the old parents
/// that are not parents of the new commit, in order, then the new commit.
pub open spec fn inserted_child_parents(oldp: Seq<usize>, given: Seq<usize>, nid: usize) -> Seq<
    usize,
>
    decreases oldp.len(),
{
    if oldp.len() == 0 {
        seq![nid]
    } else if given.contains(oldp[0]) {
        inserted_child_parents(oldp.drop_first(), given, nid)
    } else {
        seq![oldp[0]] + inserted_child_parents(oldp.drop_first(), given, nid)
    }
}

/// What `cmd_new` reports: the id of the created commit, the rebase
/// instructions for the inserted-before children, the rewrite mapping, and
/// how many commits were rebased in all — the children and their
/// descendants.
#[derive(Debug)]
pub struct NewStats {
    pub new_commit: usize,
    pub instrs: Vec<Instruction>,
    pub mapping: Vec<Option<Vec<usize>>>,
    pub num_rebased: usize,
}

/// Create a new, empty change on the given parents, optionally inserting it
/// before the given children (which are then rebased onto it), and optionally
/// editing it in the workspace.
pub fn cmd_new(
    rs: &mut RepoState,
    workspace: &Vec<u8>,
    parents: &Vec<usize>,
    children: &Vec<usize>,
    message: Vec<u8>,
    author: crate::store::Signature,
    edit: bool,
    description: Vec<u8>,
) -> (res: Result<NewStats, EngineError>)
    requires
        state_wf(old(rs)@),
        parents@.len() > 0,
    ensures
        match res {
            Result::Ok(st) => {
                let opts = TransformOptions {
                    rebase_descendants: true,
                    delete_abandoned_bookmarks: false,
                };
                let old_view = old(rs)@.ops[old(rs)@.head as int].view;
                let rv1 = MutRepoV {
                    store: final(rs)@.store,
                    view: final(rs)@.ops[final(rs)@.head as int].view,
                };
                &&& state_wf(final(rs)@)
                &&& final(rs)@.ops.len() == old(rs)@.ops.len() + 1
                &&& final(rs)@.head == old(rs)@.ops.len()
                &&& st.new_commit < final(rs)@.store.commits.len()
                // the created commit: deduplicated parents, the given
                // message and author, no signature, and the merged parent tree
                &&& {
                    let nv = final(rs)@.store.commits[st.new_commit as int];
                    &&& nv.parents == dedup_first(parents@, 0)
                    &&& nv.description == message@
                    &&& nv.author == author@
                    &&& nv.committer == author@
                    &&& nv.signature is None
                    &&& nv.tree < final(rs)@.store.trees.len()
                    &&& forall|p: usize|
                        crate::tree::tv_get(final(rs)@.store.trees[nv.tree as int], p)
                            == crate::rewrite::merged_parents_get(
                            final(rs)@.store,
                            dedup_first(parents@, 0),
                            p,
                        )
                }
                // one rebase instruction per distinct child, splicing the new
                // commit into its parent list
                &&& instr_ids(st.instrs@) == dedup_first(children@, 0)
                &&& forall|k: int|
                    0 <= k < st.instrs@.len() ==> (match (#[trigger] st.instrs@[k]).action {
                        RewriteAction::Rewrite(e) => (match e.new_parents {
                            Option::Some(ov) => ov@ == inserted_child_parents(
                                old(rs)@.store.commits[st.instrs@[k].id as int].parents,
                                parents@,
                                st.new_commit,
                            ),
                            Option::None => false,
                        }) && e.new_tree is None && e.rebase_tree && e.new_description is None
                            && e.drop_signature == false,
                        RewriteAction::Abandon => false,
                    })
                // the walk's facts tie the mapping to the final store for
                // every pre-existing commit
                &&& st.mapping@.len() >= old(rs)@.store.commits.len()
                &&& crate::rewrite::mapping_values_valid(
                    st.mapping@,
                    final(rs)@.store.commits.len() as int,
                )
                &&& forall|j: int|
                    0 <= j < old(rs)@.store.commits.len()
                        ==> crate::rewrite::mapping_entry_ok(
                        old(rs)@.store,
                        rv1.store,
                        st.instrs@,
                        opts,
                        st.mapping@,
                        j,
                    )
                // the view: bookmarks follow the mapping, tracking untouched,
                // and with `edit` the workspace points at the new commit
                &&& rv1.view.bookmarks == bookmarks_after(
                    st.instrs@,
                    st.mapping@,
                    false,
                    old_view.bookmarks,
                )
                &&& rv1.view.tracked_remotes == old_view.tracked_remotes
                &&& (edit ==> crate::view::ws_find(rv1.view.workspaces, workspace@, 0) >= 0
                    && rv1.view.workspaces[crate::view::ws_find(
                    rv1.view.workspaces,
                    workspace@,
                    0,
                )].wc == st.new_commit)
                // the children themselves count as rebased, like the
                // descendants the walk carried along
                &&& st.num_rebased == count_mapped(st.mapping@, 0)
            },
            Result::Err(e) => final(rs)@ == old(rs)@ && (match e {
                EngineError::Backend(BackendError::MissingCommit { id }) => id >= old(
                    rs,
                )@.store.commits.len() && (parents@.contains(id) || children@.contains(id)),
                EngineError::ImmutableCommit { id } => id == 0 && children@.contains(id),
                _ => false,
            }),
        },
{
    // validate
    let n_commits = rs.store.commits.len();
    let np = parents.len();
    let mut k: usize = 0;
    while k < np
        invariant
            np == parents@.len(),
            k <= np,
            rs@ == old(rs)@,
            n_commits == rs@.store.commits.len(),
            forall|m: int| 0 <= m < k ==> (#[trigger] parents@[m]) < n_commits,
        decreases np - k,
    {
        if parents[k] >= n_commits {
            proof {
                assert(parents@.contains(parents@[k as int]));
            }
            return Result::Err(
                EngineError::Backend(BackendError::MissingCommit { id: parents[k] }),
            );
        }
        k += 1;
    }
    let nc = children.len();
    let mut k2: usize = 0;
    while k2 < nc
        invariant
            nc == children@.len(),
            k2 <= nc,
            rs@ == old(rs)@,
            n_commits == rs@.store.commits.len(),
            forall|m: int| 0 <= m < k2 ==> 0 < (#[trigger] children@[m]) < n_commits,
        decreases nc - k2,
    {
        if children[k2] >= n_commits {
            proof {
                assert(children@.contains(children@[k2 as int]));
            }
            return Result::Err(
                EngineError::Backend(BackendError::MissingCommit { id: children[k2] }),
            );
        }
        if children[k2] == 0 {
            proof {
                assert(children@.contains(children@[k2 as int]));
            }
            return Result::Err(EngineError::ImmutableCommit { id: 0 });
        }
        k2 += 1;
    }
    let mut tx = start_transaction(rs);
    // the new commit: deduplicated parents on their merged tree
    let ghost sv_a = tx.repo@.store;
    let dparents = crate::repo::dedup_ids(parents);
    let merged = crate::rewrite::merge_parent_trees(&tx.repo.store, &dparents);
    let ghost mergedv = merged@;
    let tid = crate::store::write_tree(&mut tx.repo.store, merged);
    let ghost sv_b = tx.repo@.store;
    let committer = crate::store::clone_sig(&author);
    let new_c = crate::store::CommitData {
        parents: dparents,
        tree: tid,
        author,
        committer,
        description: message,
        signature: Option::None,
    };
    let ghost ncv = new_c@;
    let nid = crate::store::write_commit(&mut tx.repo.store, new_c);
    let ghost sv_new = tx.repo@.store;
    // rebase the children onto the new commit
    let dchildren = crate::repo::dedup_ids(children);
    let ndc = dchildren.len();
    let mut instrs: Vec<Instruction> = Vec::new();
    let mut c: usize = 0;
    while c < ndc
        invariant
            ndc == dchildren@.len(),
            c <= ndc,
            tx.repo@.store == sv_new,
            nid < sv_new.commits.len(),
            n_commits <= sv_new.commits.len(),
            store_wf(sv_new),
            forall|m: int| 0 <= m < ndc ==> 0 < (#[trigger] dchildren@[m]) < n_commits,
            forall|m1: int, m2: int|
                0 <= m1 < m2 < ndc ==> (#[trigger] dchildren@[m1]) != (#[trigger] dchildren@[m2]),
            instrs@.len() == c,
            forall|m: int|
                0 <= m < c ==> (#[trigger] instrs@[m]).id == dchildren@[m] && (
                match instrs@[m].action {
                    RewriteAction::Rewrite(e) => e.new_parents is Some && (
                    match e.new_parents {
                        Option::Some(ov) => (forall|x: int|
                            0 <= x < ov@.len() ==> (#[trigger] ov@[x]) < sv_new.commits.len())
                            && ov@ == inserted_child_parents(
                            sv_new.commits[dchildren@[m] as int].parents,
                            parents@,
                            nid,
                        ),
                        Option::None => false,
                    }) && e.new_tree is None && e.rebase_tree && e.new_description is None
                        && e.drop_signature == false,
                    RewriteAction::Abandon => false,
                }),
        decreases ndc - c,
    {
        let child = dchildren[c];
        // keep the child's parents that are not parents of the new commit,
        // then add the new commit
        let cc = crate::store::get_commit(&tx.repo.store, child);
        let ncp = cc.parents.len();
        let mut ov: Vec<usize> = Vec::new();
        let mut m: usize = 0;
        proof {
            assert(cc.parents@.skip(0) =~= cc.parents@);
            assert(inserted_child_parents(cc.parents@, parents@, nid) =~= ov@
                + inserted_child_parents(cc.parents@, parents@, nid));
        }
        while m < ncp
            invariant
                ncp == cc.parents@.len(),
                m <= ncp,
                cc@ == sv_new.commits[child as int],
                child < sv_new.commits.len(),
                nid < sv_new.commits.len(),
                store_wf(sv_new),
                forall|x: int| 0 <= x < ov@.len() ==> (#[trigger] ov@[x]) < sv_new.commits.len(),
                inserted_child_parents(cc.parents@, parents@, nid) == ov@
                    + inserted_child_parents(cc.parents@.skip(m as int), parents@, nid),
            decreases ncp - m,
        {
            let p = cc.parents[m];
            proof {
                assert(cc.parents@[m as int] == sv_new.commits[child as int].parents[m as int]);
                assert(sv_new.commits[child as int].parents[m as int] < child);
                assert(cc.parents@.skip(m as int)[0] == cc.parents@[m as int]);
                assert(cc.parents@.skip(m as int).drop_first() =~= cc.parents@.skip(m + 1 as int));
            }
            let ghost ov0 = ov@;
            if !crate::ids::ids_contains(parents, p) {
                ov.push(p);
                proof {
                    assert(ov0 + (seq![p] + inserted_child_parents(
                        cc.parents@.skip(m + 1 as int),
                        parents@,
                        nid,
                    )) =~= ov@ + inserted_child_parents(
                        cc.parents@.skip(m + 1 as int),
                        parents@,
                        nid,
                    ));
                }
            }
            m += 1;
        }
        proof {
            assert(cc.parents@.skip(ncp as int) =~= Seq::<usize>::empty());
        }
        ov.push(nid);
        proof {
            assert(ov@ =~= inserted_child_parents(cc.parents@, parents@, nid));
        }
        let edit_i = CommitEdit {
            new_description: Option::None,
            set_author_to_committer: false,
            new_author: Option::None,
            new_committer: Option::None,
            drop_signature: false,
            new_tree: Option::None,
            new_parents: Option::Some(ov),
            rebase_tree: true,
        };
        instrs.push(Instruction { id: child, action: RewriteAction::Rewrite(edit_i) });
        c += 1;
    }
    proof {
        assert(instr_ids(instrs@) =~= dedup_first(children@, 0));
    }
    let mapping = match transform_descendants(&mut tx.repo, &instrs, TransformOptions {
        rebase_descendants: true,
        delete_abandoned_bookmarks: false,
    }) {
        Result::Ok(m) => m,
        Result::Err(e) => {
            proof {
                assert(instrs_valid(
                    instrs@,
                    sv_new.commits.len() as int,
                    sv_new.trees.len() as int,
                )) by {
                    assert forall|m: int| 0 <= m < instrs@.len() implies 0 < (
                    #[trigger] instrs@[m].id) < sv_new.commits.len() by {}
                }
                assert(false);
            }
            return Result::Err(e);
        },
    };
    if edit {
        let ghost pre_v = tx.repo@.view;
        crate::view::set_wc_commit(&mut tx.repo.view, workspace, nid);
        proof {
            let vv = tx.repo@.view;
            let n = tx.repo@.store.commits.len() as int;
            let f = crate::view::ws_find(pre_v.workspaces, workspace@, 0);
            crate::view::lemma_ws_find_spec(pre_v.workspaces, workspace@, 0);
            assert(repo_wf(tx.repo@)) by {
                assert forall|i: int| 0 <= i < vv.workspaces.len() implies (
                #[trigger] vv.workspaces[i]).wc < n by {
                    if f >= 0 {
                        if i != f {
                            assert(vv.workspaces[i] == pre_v.workspaces[i]);
                            assert(pre_v.workspaces[i].wc < n);
                        } else {
                            assert(vv.workspaces[i].wc == nid);
                        }
                    } else {
                        if i < pre_v.workspaces.len() {
                            assert(vv.workspaces[i] == pre_v.workspaces[i]);
                            assert(pre_v.workspaces[i].wc < n);
                        } else {
                            assert(vv.workspaces[i].wc == nid);
                        }
                    }
                }
            }
            // the workspace now finds the new commit
            if f >= 0 {
                assert(vv.workspaces == pre_v.workspaces.update(
                    f,
                    crate::view::WorkspaceV { name: workspace@, wc: nid },
                ));
                assert forall|k: int|
                    0 <= k < vv.workspaces.len() implies (#[trigger] vv.workspaces[k]).name
                    == pre_v.workspaces[k].name by {}
                crate::view::lemma_ws_find_same_names_wk(
                    pre_v.workspaces,
                    vv.workspaces,
                    workspace@,
                    0,
                );
                assert(vv.workspaces[crate::view::ws_find(vv.workspaces, workspace@, 0)].wc
                    == nid);
            } else {
                assert(vv.workspaces == pre_v.workspaces.push(
                    crate::view::WorkspaceV { name: workspace@, wc: nid },
                ));
                crate::view::lemma_ws_find_push(
                    pre_v.workspaces,
                    crate::view::WorkspaceV { name: workspace@, wc: nid },
                    workspace@,
                    0,
                );
                assert(vv.workspaces[crate::view::ws_find(vv.workspaces, workspace@, 0)].wc
                    == nid);
            }
        }
    }
    let ghost sv_done = tx.repo@.store;
    proof {
        // the walk ran on the store holding the new commit; for pre-existing
        // commits its facts hold against the entry store too
        let opts = TransformOptions {
            rebase_descendants: true,
            delete_abandoned_bookmarks: false,
        };
        let sv0 = old(rs)@.store;
        assert forall|j: int|
            0 <= j < sv0.commits.len() implies crate::rewrite::mapping_entry_ok(
            sv0,
            sv_done,
            instrs@,
            opts,
            mapping@,
            j,
        ) by {
            assert(crate::rewrite::mapping_entry_ok(sv_new, sv_done, instrs@, opts, mapping@, j));
            crate::graph::lemma_descends_stable(sv0, sv_new, j as usize, instr_ids(instrs@));
            assert(sv0.commits[j] == sv_new.commits[j]);
        }
        assert forall|k: int|
            0 <= k < instrs@.len() implies sv0.commits[(#[trigger] instrs@[k]).id as int]
            == sv_new.commits[instrs@[k].id as int] by {
            assert(instrs@[k].id == dchildren@[k]);
        }
        assert(sv_done.commits[nid as int] == ncv);
        assert(ncv.tree < sv_new.trees.len());
        assert forall|p: usize|
            crate::tree::tv_get(sv_done.trees[ncv.tree as int], p)
                == crate::rewrite::merged_parents_get(sv_done, ncv.parents, p) by {
            assert(sv_b.trees[tid as int] == mergedv);
            assert(crate::tree::tv_get(mergedv, p) == crate::rewrite::merged_parents_get(
                sv_a,
                ncv.parents,
                p,
            ));
            crate::rewrite::lemma_merged_parents_get_stable(sv_a, sv_b, ncv.parents, p);
            crate::rewrite::lemma_merged_parents_get_stable(sv_b, sv_new, ncv.parents, p);
            crate::rewrite::lemma_merged_parents_get_stable(sv_new, sv_done, ncv.parents, p);
            assert(sv_done.trees[tid as int] == mergedv);
        }
    }
    let num_rebased = count_all_mapped(&mapping);
    match finish_transaction(rs, tx, description) {
        Result::Ok(_) => Result::Ok(
            NewStats { new_commit: nid, instrs, mapping, num_rebased },
        ),
        Result::Err(e) => {
            proof {
                assert(false);
            }
            Result::Err(e)
        },
    }
}

/// What `cmd_commit` reports: the rewritten working-copy commit, the fresh
/// empty commit that replaces it in the working copy, and the mapping.
#[derive(Debug)]
pub struct CommitStats {
    pub new_commit: usize,
    pub new_wc: usize,
    pub instrs: Vec<Instruction>,
    pub mapping: Vec<Option<Vec<usize>>>,
}

/// Seal the working-copy commit with the selected tree and description, then
/// put a fresh empty change carrying the remaining content on top of it and
/// make it the working copy. Descendants are rebased.
pub fn cmd_commit(
    rs: &mut RepoState,
    workspace: &Vec<u8>,
    tree_id: usize,
    message: Vec<u8>,
    reset_author: bool,
    new_author: &Option<(Vec<u8>, Vec<u8>)>,
    description: Vec<u8>,
) -> (res: Result<CommitStats, EngineError>)
    requires
        state_wf(old(rs)@),
    ensures
        match res {
            Result::Ok(st) => {
                let opts = TransformOptions {
                    rebase_descendants: true,
                    delete_abandoned_bookmarks: false,
                };
                let rv0 = MutRepoV {
                    store: old(rs)@.store,
                    view: old(rs)@.ops[old(rs)@.head as int].view,
                };
                &&& state_wf(final(rs)@)
                &&& final(rs)@.ops.len() == old(rs)@.ops.len() + 1
                &&& final(rs)@.head == old(rs)@.ops.len()
                // one rewrite instruction for the old working-copy commit,
                // setting the selected tree and the new description
                &&& st.instrs@.len() == 1
                &&& crate::view::ws_find(rv0.view.workspaces, workspace@, 0) >= 0
                &&& st.instrs@[0].id == rv0.view.workspaces[crate::view::ws_find(
                    rv0.view.workspaces,
                    workspace@,
                    0,
                )].wc
                &&& (match st.instrs@[0].action {
                    RewriteAction::Rewrite(e) => (match e.new_tree {
                        Option::Some(t) => t == tree_id,
                        Option::None => false,
                    }) && (match e.new_description {
                        Option::Some(d) => d@ == message@,
                        Option::None => false,
                    }) && e.set_author_to_committer == reset_author,
                    RewriteAction::Abandon => false,
                })
                // the walk's facts carried to the final store: the sealed
                // commit is the one replacement of the old working copy
                &&& crate::repo::transform_store_post(
                    rv0.store,
                    final(rs)@.store,
                    st.instrs@,
                    opts,
                    st.mapping@,
                )
                &&& (match st.mapping@[st.instrs@[0].id as int] {
                    Option::Some(l) => l@ == seq![st.new_commit],
                    Option::None => false,
                })
                // the sealed commit and the fresh working copy on top of it
                &&& st.new_commit < final(rs)@.store.commits.len()
                &&& st.new_wc < final(rs)@.store.commits.len()
                &&& {
                    let wcv = final(rs)@.store.commits[st.new_wc as int];
                    &&& wcv.parents == seq![st.new_commit]
                    &&& wcv.description == Seq::<u8>::empty()
                    &&& wcv.signature is None
                    &&& wcv.tree == old(rs)@.store.commits[st.instrs@[0].id as int].tree
                }
                // every workspace that edited the old working copy now edits
                // the fresh commit; other workspaces follow the rewrite
                &&& {
                    let old_ws = rv0.view.workspaces;
                    let new_ws = final(rs)@.ops[final(rs)@.head as int].view.workspaces;
                    &&& new_ws.len() == old_ws.len()
                    &&& forall|i: int|
                        0 <= i < old_ws.len() ==> (#[trigger] new_ws[i]).name == old_ws[i].name
                    &&& forall|i: int|
                        0 <= i < old_ws.len() && (#[trigger] old_ws[i]).wc == st.instrs@[0].id
                            ==> new_ws[i].wc == st.new_wc
                    &&& forall|i: int|
                        0 <= i < old_ws.len() && (#[trigger] old_ws[i]).wc != st.instrs@[0].id
                            ==> crate::repo::ws_entry_ok(
                            final(rs)@.store,
                            st.instrs@,
                            st.mapping@,
                            old_ws[i].wc,
                            new_ws[i].wc,
                        )
                }
            },
            Result::Err(e) => final(rs)@ == old(rs)@ && (match e {
                EngineError::User(UserError::NoWorkingCopy) => crate::view::ws_find(
                    old(rs)@.ops[old(rs)@.head as int].view.workspaces,
                    workspace@,
                    0,
                ) == -1,
                EngineError::Backend(BackendError::MissingTree { id }) => id == tree_id && id
                    >= old(rs)@.store.trees.len(),
                EngineError::ImmutableCommit { id } => {
                    let ws = old(rs)@.ops[old(rs)@.head as int].view.workspaces;
                    id == 0 && crate::view::ws_find(ws, workspace@, 0) >= 0 && ws[
                        crate::view::ws_find(ws, workspace@, 0)
                    ].wc == 0
                },
                _ => false,
            }),
        },
{
    let wc: usize = match crate::view::get_wc_commit(&rs.ops[rs.head].view, workspace) {
        Option::Some(w) => w,
        Option::None => {
            return Result::Err(EngineError::User(UserError::NoWorkingCopy));
        },
    };
    if tree_id >= rs.store.trees.len() {
        return Result::Err(EngineError::Backend(BackendError::MissingTree { id: tree_id }));
    }
    if wc == 0 {
        return Result::Err(EngineError::ImmutableCommit { id: 0 });
    }
    proof {
        crate::view::lemma_ws_find_spec(
            old(rs)@.ops[old(rs)@.head as int].view.workspaces,
            workspace@,
            0,
        );
        assert(view_ids_valid(
            old(rs)@.ops[old(rs)@.head as int].view,
            old(rs)@.store.commits.len() as int,
        ));
    }
    let mut tx = start_transaction(rs);
    let old_wc_commit = crate::store::get_commit(&tx.repo.store, wc);
    let old_tree_id = old_wc_commit.tree;
    let na_clone: Option<(Vec<u8>, Vec<u8>)> = match new_author {
        Option::Some(ne) => Option::Some((clone_bytes(&ne.0), clone_bytes(&ne.1))),
        Option::None => Option::None,
    };
    let edit = CommitEdit {
        new_description: Option::Some(message),
        set_author_to_committer: reset_author,
        new_author: na_clone,
        new_committer: Option::None,
        drop_signature: false,
        new_tree: Option::Some(tree_id),
        new_parents: Option::None,
        rebase_tree: false,
    };
    let mut instrs: Vec<Instruction> = Vec::new();
    instrs.push(Instruction { id: wc, action: RewriteAction::Rewrite(edit) });
    let mapping = match transform_descendants(&mut tx.repo, &instrs, TransformOptions {
        rebase_descendants: true,
        delete_abandoned_bookmarks: false,
    }) {
        Result::Ok(m) => m,
        Result::Err(e) => {
            proof {
                assert(false);
            }
            return Result::Err(e);
        },
    };
    // the rewritten working-copy commit
    proof {
        assert(crate::graph::descends(old(rs)@.store, wc, instr_ids(instrs@))) by {
            assert(instr_ids(instrs@)[0] == wc);
            assert(instr_ids(instrs@).contains(wc));
        }
        assert(crate::rewrite::mapping_entry_ok(
            old(rs)@.store,
            tx.repo@.store,
            instrs@,
            TransformOptions { rebase_descendants: true, delete_abandoned_bookmarks: false },
            mapping@,
            wc as int,
        ));
        crate::rewrite::lemma_find_instr_spec(instrs@, wc, 0);
    }
    let new_commit: usize = match &mapping[wc] {
        Option::Some(l) => l[0],
        Option::None => {
            proof {
                assert(false);
            }
            0
        },
    };
    // a fresh empty change carrying the remaining content
    let ghost sv_mid = tx.repo@.store;
    let wc_commit = crate::store::CommitData {
        parents: {
            let mut ps: Vec<usize> = Vec::new();
            ps.push(new_commit);
            ps
        },
        tree: old_tree_id,
        author: old_wc_commit.author,
        committer: old_wc_commit.committer,
        description: Vec::new(),
        signature: Option::None,
    };
    let ghost wcv = wc_commit@;
    proof {
        assert(wcv.parents =~= seq![new_commit]);
        assert(old_tree_id == old(rs)@.store.commits[wc as int].tree);
        assert(old(rs)@.store.commits[wc as int].tree < old(rs)@.store.trees.len());
    }
    let new_wc = crate::store::write_commit(&mut tx.repo.store, wc_commit);
    proof {
        // the walk's per-entry facts survive the extra working-copy write
        let opts = TransformOptions {
            rebase_descendants: true,
            delete_abandoned_bookmarks: false,
        };
        crate::rewrite::lemma_mapping_facts_extend(
            old(rs)@.store,
            sv_mid,
            tx.repo@.store,
            instrs@,
            opts,
            mapping@,
        );
    }
    // every workspace that edited the old working copy moves to the fresh
    // commit (the walk has already retargeted them to the sealed commit)
    let ghost pre_v = tx.repo@.view;
    let ghost old_ws = old(rs)@.ops[old(rs)@.head as int].view.workspaces;
    let ghost sv_final = tx.repo@.store;
    let nw = tx.repo.view.workspaces.len();
    proof {
        assert(pre_v.workspaces.len() == old_ws.len());
    }
    let mut wi: usize = 0;
    while wi < nw
        invariant
            nw == tx.repo.view.workspaces.len(),
            wi <= nw,
            rs@ == old(rs)@,
            state_wf(rs@),
            tx.base_op == old(rs)@.head,
            tx.repo@.store == sv_final,
            store_wf(sv_final),
            new_wc < sv_final.commits.len(),
            wc == instrs@[0].id,
            instrs@.len() == 1,
            old_ws == old(rs)@.ops[old(rs)@.head as int].view.workspaces,
            pre_v.workspaces.len() == nw,
            old_ws.len() == nw,
            tx.repo@.view.workspaces.len() == nw,
            tx.repo@.view.bookmarks == pre_v.bookmarks,
            tx.repo@.view.tracked_remotes == pre_v.tracked_remotes,
            view_wf(pre_v),
            view_ids_valid(pre_v, sv_final.commits.len() as int),
            forall|k: int|
                0 <= k < nw ==> (#[trigger] tx.repo@.view.workspaces[k]).name
                    == pre_v.workspaces[k].name,
            forall|k: int|
                wi <= k < nw ==> (#[trigger] tx.repo@.view.workspaces[k]) == pre_v.workspaces[k],
            forall|k: int|
                0 <= k < wi ==> (#[trigger] tx.repo@.view.workspaces[k]).wc == (if old_ws[k].wc
                    == wc {
                    new_wc
                } else {
                    pre_v.workspaces[k].wc
                }),
        decreases nw - wi,
    {
        let old_wc_i = rs.ops[rs.head].view.workspaces[wi].wc;
        proof {
            assert(rs@.ops[rs@.head as int].view.workspaces[wi as int].wc == old_ws[wi as int].wc);
        }
        if old_wc_i == wc {
            let ghost wsb = tx.repo@.view.workspaces;
            let nm = clone_bytes(&tx.repo.view.workspaces[wi].name);
            proof {
                assert(nm@ == tx.repo@.view.workspaces[wi as int].name);
                assert(nm@ == pre_v.workspaces[wi as int].name);
            }
            tx.repo.view.workspaces.set(wi, crate::view::Workspace { name: nm, wc: new_wc });
            proof {
                assert forall|k: int|
                    0 <= k < nw implies (#[trigger] tx.repo@.view.workspaces[k]) == (if k
                    == wi as int {
                    crate::view::WorkspaceV { name: pre_v.workspaces[wi as int].name, wc: new_wc }
                } else {
                    wsb[k]
                }) by {}
                assert(tx.repo@.view.bookmarks =~= pre_v.bookmarks);
                assert(tx.repo@.view.tracked_remotes =~= pre_v.tracked_remotes);
            }
        }
        wi += 1;
    }
    proof {
        assert(repo_wf(tx.repo@)) by {
            let vv = tx.repo@.view;
            assert(view_wf(vv)) by {
                assert forall|a: int, b: int|
                    0 <= a < b < vv.workspaces.len() implies (#[trigger] vv.workspaces[a].name)
                    != (#[trigger] vv.workspaces[b].name) by {
                    assert(vv.workspaces[a].name == pre_v.workspaces[a].name);
                    assert(vv.workspaces[b].name == pre_v.workspaces[b].name);
                }
            }
            assert forall|k: int|
                0 <= k < tx.repo@.view.workspaces.len() implies (
            #[trigger] tx.repo@.view.workspaces[k]).wc < sv_final.commits.len() by {
                if old_ws[k].wc == wc {
                } else {
                    assert(tx.repo@.view.workspaces[k].wc == pre_v.workspaces[k].wc);
                }
            }
        }
        // workspaces untouched by the seal keep the walk's retargeting
        assert forall|k: int|
            0 <= k < old_ws.len() && (#[trigger] old_ws[k]).wc != wc implies crate::repo::ws_entry_ok(
            sv_final,
            instrs@,
            mapping@,
            old_ws[k].wc,
            tx.repo@.view.workspaces[k].wc,
        ) by {
            assert(tx.repo@.view.workspaces[k].wc == pre_v.workspaces[k].wc);
            assert(crate::repo::ws_entry_ok(
                sv_mid,
                instrs@,
                mapping@,
                old_ws[k].wc,
                pre_v.workspaces[k].wc,
            ));
            assert(view_ids_valid(
                old(rs)@.ops[old(rs)@.head as int].view,
                old(rs)@.store.commits.len() as int,
            ));
            assert(old_ws[k].wc < mapping@.len());
            assert(pre_v.workspaces[k].wc < sv_mid.commits.len());
            crate::repo::lemma_ws_entry_ok_stable(
                sv_mid,
                sv_final,
                instrs@,
                mapping@,
                old_ws[k].wc,
                pre_v.workspaces[k].wc,
            );
        }
    }
    match finish_transaction(rs, tx, description) {
        Result::Ok(_) => Result::Ok(CommitStats { new_commit, new_wc, instrs, mapping }),
        Result::Err(e) => {
            proof {
                assert(false);
            }
            Result::Err(e)
        },
    }
}

/// What `cmd_file_chmod` reports.
#[derive(Debug)]
pub struct ChmodStats {
    pub new_tree: usize,
    pub instrs: Vec<Instruction>,
    pub mapping: Vec<Option<Vec<usize>>>,
}

/// Force the executable bit for the given paths of one revision, rewriting it
/// with the changed tree and rebasing its descendants. Fails on the first
/// matched path that holds anything besides files.
pub fn cmd_file_chmod(
    rs: &mut RepoState,
    revision: usize,
    paths: &Vec<usize>,
    executable: bool,
    description: Vec<u8>,
) -> (res: Result<ChmodStats, EngineError>)
    requires
        state_wf(old(rs)@),
    ensures
        match res {
            Result::Ok(st) => {
                let old_tv = old(rs)@.store.trees[old(rs)@.store.commits[
                    revision as int
                ].tree as int];
                let opts = TransformOptions {
                    rebase_descendants: true,
                    delete_abandoned_bookmarks: false,
                };
                let rv0 = MutRepoV {
                    store: old(rs)@.store,
                    view: old(rs)@.ops[old(rs)@.head as int].view,
                };
                let rv1 = MutRepoV {
                    store: final(rs)@.store,
                    view: final(rs)@.ops[final(rs)@.head as int].view,
                };
                &&& state_wf(final(rs)@)
                &&& final(rs)@.ops.len() == old(rs)@.ops.len() + 1
                &&& final(rs)@.head == old(rs)@.ops.len()
                &&& revision < old(rs)@.store.commits.len()
                // the walk's facts, including every rebased descendant, hold
                // of the final store and view
                &&& transform_post(rv0, rv1, st.instrs@, opts, st.mapping@)
                // every matched entry held only files (or absent sides)
                &&& forall|i: int|
                    0 <= i < old_tv.len() && paths@.contains(#[trigger] old_tv[i].0)
                        ==> crate::tree::adds_all_files(old_tv[i].1)
                // the rewritten tree: the same entries, with the bit forced on
                // every matched path
                &&& st.new_tree < final(rs)@.store.trees.len()
                &&& {
                    let ntv = final(rs)@.store.trees[st.new_tree as int];
                    &&& ntv.len() == old_tv.len()
                    &&& forall|i: int|
                        0 <= i < old_tv.len() ==> (#[trigger] ntv[i]).0 == old_tv[i].0 && ntv[i].1
                            == (if paths@.contains(old_tv[i].0) {
                            crate::tree::chmod_val(old_tv[i].1, executable)
                        } else {
                            old_tv[i].1
                        })
                }
                // one rewrite instruction carrying the new tree
                &&& st.instrs@.len() == 1
                &&& st.instrs@[0].id == revision
                &&& (match st.instrs@[0].action {
                    RewriteAction::Rewrite(e) => e.new_tree == Option::Some(st.new_tree),
                    RewriteAction::Abandon => false,
                })
            },
            Result::Err(e) => final(rs)@ == old(rs)@ && (match e {
                EngineError::Backend(BackendError::MissingCommit { id }) => id == revision && id
                    >= old(rs)@.store.commits.len(),
                EngineError::ImmutableCommit { id } => id == revision && id == 0,
                EngineError::User(UserError::NotAFile { path }) => revision < old(
                    rs,
                )@.store.commits.len() && paths@.contains(path) && (exists|i: int|
                    0 <= i < old(rs)@.store.trees[old(rs)@.store.commits[
                        revision as int
                    ].tree as int].len() && (#[trigger] old(rs)@.store.trees[old(
                        rs,
                    )@.store.commits[revision as int].tree as int][i]).0 == path
                        && !crate::tree::adds_all_files(
                        old(rs)@.store.trees[old(rs)@.store.commits[
                            revision as int
                        ].tree as int][i].1,
                    )),
                _ => false,
            }),
        },
{
    if revision >= rs.store.commits.len() {
        return Result::Err(EngineError::Backend(BackendError::MissingCommit { id: revision }));
    }
    if revision == 0 {
        return Result::Err(EngineError::ImmutableCommit { id: revision });
    }
    let old_tid = rs.store.commits[revision].tree;
    proof {
        assert(old_tid == rs@.store.commits[revision as int].tree);
        assert(rs@.store.commits[revision as int].tree < rs@.store.trees.len());
    }
    let tree = crate::store::get_tree(&rs.store, old_tid);
    let new_tree = match crate::tree::chmod_tree(&tree, paths, executable) {
        Result::Ok(t) => t,
        Result::Err(p) => {
            return Result::Err(EngineError::User(UserError::NotAFile { path: p }));
        },
    };
    let ghost ntv = new_tree@;
    let mut tx = start_transaction(rs);
    let tid = crate::store::write_tree(&mut tx.repo.store, new_tree);
    let edit = CommitEdit {
        new_description: Option::None,
        set_author_to_committer: false,
        new_author: Option::None,
        new_committer: Option::None,
        drop_signature: false,
        new_tree: Option::Some(tid),
        new_parents: Option::None,
        rebase_tree: false,
    };
    let mut instrs: Vec<Instruction> = Vec::new();
    instrs.push(Instruction { id: revision, action: RewriteAction::Rewrite(edit) });
    let ghost sv_pre = tx.repo@.store;
    let mapping = match transform_descendants(&mut tx.repo, &instrs, TransformOptions {
        rebase_descendants: true,
        delete_abandoned_bookmarks: false,
    }) {
        Result::Ok(m) => m,
        Result::Err(e) => {
            proof {
                assert(false);
            }
            return Result::Err(e);
        },
    };
    proof {
        // the walk ran on the store holding the freshly written tree; its
        // facts hold against the entry store too, since descent and commit
        // fields never read the tree list
        let opts = TransformOptions {
            rebase_descendants: true,
            delete_abandoned_bookmarks: false,
        };
        let sv0 = old(rs)@.store;
        let rvs = tx.repo@.store;
        assert(sv0.commits =~= sv_pre.commits);
        assert forall|j: int|
            0 <= j < mapping@.len() implies crate::rewrite::mapping_entry_ok(
            sv0,
            rvs,
            instrs@,
            opts,
            mapping@,
            j,
        ) by {
            assert(crate::rewrite::mapping_entry_ok(sv_pre, rvs, instrs@, opts, mapping@, j));
            crate::graph::lemma_descends_stable(
                sv0,
                sv_pre,
                j as usize,
                instr_ids(instrs@),
            );
            assert(sv0.commits[j] == sv_pre.commits[j]);
        }
        assert(crate::repo::new_commits_accounted(
            MutRepoV { store: sv0, view: old(rs)@.ops[old(rs)@.head as int].view },
            tx.repo@,
            instrs@,
            mapping@,
        )) by {
            assert forall|c: usize|
                sv0.commits.len() <= c < rvs.commits.len() implies (
            #[trigger] crate::rewrite::commit_mapped(instrs@, mapping@, c))
                || crate::repo::wc_replacement_for(
                rvs,
                instrs@,
                mapping@,
                old(rs)@.ops[old(rs)@.head as int].view.workspaces,
                c,
            ) by {
                assert(sv_pre.commits.len() == sv0.commits.len());
            }
        }
    }
    match finish_transaction(rs, tx, description) {
        Result::Ok(_) => Result::Ok(ChmodStats { new_tree: tid, instrs, mapping }),
        Result::Err(e) => {
            proof {
                assert(false);
            }
            Result::Err(e)
        },
    }
}

/// One changed path: its value in the merged source tree and in the merged
/// target tree.
pub struct DiffEntry {
    pub path: usize,
    pub before: crate::merge::MergeValue,
    pub after: crate::merge::MergeValue,
}

/// Whether a path passes the selection.
pub open spec fn path_selected(sel: Option<Seq<usize>>, p: usize) -> bool {
    match sel {
        Option::Some(ps) => ps.contains(p),
        Option::None => true,
    }
}

/// Compare the merged tree of the `from` commits with the merged tree of the
/// `to` commits, listing every selected path whose merge values differ.
pub fn cmd_diff(
    rs: &RepoState,
    from_ids: &Vec<usize>,
    to_ids: &Vec<usize>,
    paths: &Option<Vec<usize>>,
) -> (res: Result<Vec<DiffEntry>, EngineError>)
    requires
        state_wf(rs@),
    ensures
        match res {
            Result::Ok(entries) => {
                let sel = (match paths {
                    Option::Some(ps) => Option::Some(ps@),
                    Option::None => Option::<Seq<usize>>::None,
                });
                &&& forall|k: int|
                    0 <= k < entries@.len() ==> {
                        let e = #[trigger] entries@[k];
                        &&& path_selected(sel, e.path)
                        &&& e.before@ == crate::rewrite::merged_parents_get(
                            rs@.store,
                            from_ids@,
                            e.path,
                        )
                        &&& e.after@ == crate::rewrite::merged_parents_get(
                            rs@.store,
                            to_ids@,
                            e.path,
                        )
                        &&& e.before@ != e.after@
                    }
                &&& forall|p: usize|
                    path_selected(sel, p) && crate::rewrite::merged_parents_get(
                        rs@.store,
                        from_ids@,
                        p,
                    ) != crate::rewrite::merged_parents_get(rs@.store, to_ids@, p)
                        ==> exists|k: int|
                        0 <= k < entries@.len() && (#[trigger] entries@[k]).path == p
            },
            Result::Err(e) => match e {
                EngineError::Backend(BackendError::MissingCommit { id }) => id
                    >= rs@.store.commits.len() && (from_ids@.contains(id) || to_ids@.contains(id)),
                _ => false,
            },
        },
{
    let ghost sv = rs@.store;
    let n_commits = rs.store.commits.len();
    let nf = from_ids.len();
    let mut k: usize = 0;
    while k < nf
        invariant
            nf == from_ids@.len(),
            k <= nf,
            n_commits == rs@.store.commits.len(),
            forall|m: int| 0 <= m < k ==> (#[trigger] from_ids@[m]) < n_commits,
        decreases nf - k,
    {
        if from_ids[k] >= n_commits {
            proof {
                assert(from_ids@.contains(from_ids@[k as int]));
            }
            return Result::Err(
                EngineError::Backend(BackendError::MissingCommit { id: from_ids[k] }),
            );
        }
        k += 1;
    }
    let nt = to_ids.len();
    let mut k2: usize = 0;
    while k2 < nt
        invariant
            nt == to_ids@.len(),
            k2 <= nt,
            n_commits == rs@.store.commits.len(),
            forall|m: int| 0 <= m < k2 ==> (#[trigger] to_ids@[m]) < n_commits,
        decreases nt - k2,
    {
        if to_ids[k2] >= n_commits {
            proof {
                assert(to_ids@.contains(to_ids@[k2 as int]));
            }
            return Result::Err(
                EngineError::Backend(BackendError::MissingCommit { id: to_ids[k2] }),
            );
        }
        k2 += 1;
    }
    let ft = crate::rewrite::merge_parent_trees(&rs.store, from_ids);
    let tt = crate::rewrite::merge_parent_trees(&rs.store, to_ids);
    let ghost ftv = ft@;
    let ghost ttv = tt@;
    // walk the union of mentioned paths
    let fp = tree_paths_of(&ft);
    let tp = tree_paths_of(&tt);
    let u = crate::tree::union_sorted(&fp, &tp);
    let ghost sel = (match paths {
        Option::Some(ps) => Option::Some(ps@),
        Option::None => Option::<Seq<usize>>::None,
    });
    let nu = u.len();
    let mut out: Vec<DiffEntry> = Vec::new();
    let mut i: usize = 0;
    while i < nu
        invariant
            nu == u@.len(),
            i <= nu,
            sv == rs@.store,
            ftv == ft@,
            ttv == tt@,
            sel == (match paths {
                Option::Some(ps) => Option::Some(ps@),
                Option::None => Option::<Seq<usize>>::None,
            }),
            forall|p: usize| crate::tree::tv_get(ftv, p) == crate::rewrite::merged_parents_get(sv, from_ids@, p),
            forall|p: usize| crate::tree::tv_get(ttv, p) == crate::rewrite::merged_parents_get(sv, to_ids@, p),
            forall|p: usize| u@.contains(p) <==> (crate::tree::tv_has(ftv, p) || crate::tree::tv_has(ttv, p)),
            forall|k3: int|
                0 <= k3 < out@.len() ==> {
                    let e = #[trigger] out@[k3];
                    &&& path_selected(sel, e.path)
                    &&& e.before@ == crate::tree::tv_get(ftv, e.path)
                    &&& e.after@ == crate::tree::tv_get(ttv, e.path)
                    &&& e.before@ != e.after@
                },
            forall|m: int|
                0 <= m < i && path_selected(sel, #[trigger] u@[m]) && crate::tree::tv_get(
                    ftv,
                    u@[m],
                ) != crate::tree::tv_get(ttv, u@[m]) ==> exists|k3: int|
                    0 <= k3 < out@.len() && (#[trigger] out@[k3]).path == u@[m],
        decreases nu - i,
    {
        let p = u[i];
        let vf = crate::tree::tree_get(&ft, p);
        let vt = crate::tree::tree_get(&tt, p);
        let selected = match paths {
            Option::Some(ps) => crate::ids::ids_contains(ps, p),
            Option::None => true,
        };
        let ghost out0 = out@;
        if selected && !crate::merge::mv_eq(&vf, &vt) {
            out.push(DiffEntry { path: p, before: vf, after: vt });
            proof {
                assert(forall|k3: int| 0 <= k3 < out0.len() ==> out@[k3] == out0[k3]);
                assert(out@[out0.len() as int].path == u@[i as int]);
            }
        }
        proof {
            assert forall|m: int|
                0 <= m < i + 1 && path_selected(sel, #[trigger] u@[m]) && crate::tree::tv_get(
                    ftv,
                    u@[m],
                ) != crate::tree::tv_get(ttv, u@[m]) implies exists|k3: int|
                0 <= k3 < out@.len() && (#[trigger] out@[k3]).path == u@[m] by {
                if m < i {
                    let k3 = choose|k3: int|
                        0 <= k3 < out0.len() && (#[trigger] out0[k3]).path == u@[m];
                    assert(out@[k3].path == u@[m]);
                } else {
                    assert(out@[out@.len() - 1].path == u@[m]);
                }
            }
        }
        i += 1;
    }
    proof {
        assert forall|p: usize|
            path_selected(sel, p) && crate::rewrite::merged_parents_get(sv, from_ids@, p)
                != crate::rewrite::merged_parents_get(sv, to_ids@, p) implies exists|k3: int|
            0 <= k3 < out@.len() && (#[trigger] out@[k3]).path == p by {
            if u@.contains(p) {
                let m = choose|m: int| 0 <= m < u@.len() && u@[m] == p;
            } else {
                assert(!crate::tree::tv_has(ftv, p) && !crate::tree::tv_has(ttv, p));
                assert(forall|q: int| 0 <= q < ftv.len() ==> (#[trigger] ftv[q].0) != p);
                assert(forall|q: int| 0 <= q < ttv.len() ==> (#[trigger] ttv[q].0) != p);
                crate::tree::lemma_tv_get_missing(ftv, p);
                crate::tree::lemma_tv_get_missing(ttv, p);
            }
        }
    }
    Result::Ok(out)
}

/// The sorted path list of a tree.
fn tree_paths_of(t: &crate::tree::Tree) -> (r: Vec<usize>)
    requires
        crate::tree::tree_wf(t@),
    ensures
        crate::tree::ids_sorted(r@),
        forall|p: usize| r@.contains(p) <==> crate::tree::tv_has(t@, p),
{
    let n = t.entries.len();
    let mut out: Vec<usize> = Vec::new();
    let mut i: usize = 0;
    while i < n
        invariant
            n == t.entries.len(),
            crate::tree::tree_wf(t@),
            i <= n,
            out@.len() == i,
            forall|k: int| 0 <= k < i ==> out@[k] == t@[k].0,
        decreases n - i,
    {
        out.push(t.entries[i].path);
        i += 1;
    }
    proof {
        assert forall|p: usize| out@.contains(p) <==> crate::tree::tv_has(t@, p) by {
            if out@.contains(p) {
                let k = choose|k: int| 0 <= k < out@.len() && out@[k] == p;
                assert(t@[k].0 == p);
            }
            if crate::tree::tv_has(t@, p) {
                let k = choose|k: int| 0 <= k < t@.len() && (#[trigger] t@[k].0) == p;
                assert(out@[k] == p);
            }
        }
    }
    out
}

/// Index of the first copy pair for original `p`, or `-1`.
pub open spec fn dup_find(pairs: Seq<(usize, usize)>, p: usize, i: int) -> int
    decreases pairs.len() - i
        when 0 <= i <= pairs.len()
{
    if i >= pairs.len() {
        -1
    } else if pairs[i].0 == p {
        i
    } else {
        dup_find(pairs, p, i + 1)
    }
}

/// What an original parent stands for among the copies made so far: its own
/// copy if one exists, else itself.
pub open spec fn dup_resolve(pairs: Seq<(usize, usize)>, p: usize) -> usize {
    if dup_find(pairs, p, 0) >= 0 {
        pairs[dup_find(pairs, p, 0)].1
    } else {
        p
    }
}

/// A target none of whose parents was copied is a root of the duplicated set:
/// with a location it sits on the location's parents.
pub open spec fn dup_is_root(pairs: Seq<(usize, usize)>, parents: Seq<usize>) -> bool {
    forall|j: int| 0 <= j < parents.len() ==> dup_find(pairs, #[trigger] parents[j], 0) == -1
}

/// A rebased child's parent override: its old parents followed by every copy.
pub open spec fn dup_child_override(oldp: Seq<usize>, pairs: Seq<(usize, usize)>) -> Seq<usize> {
    oldp + Seq::new(pairs.len(), |m: int| pairs[m].1)
}

/// What `cmd_duplicate` reports: each target paired with its copy, the rebase
/// instructions for inserted-before children, the mapping, and advisory flags
/// for a commit duplicated as its own descendant or ancestor.
#[derive(Debug)]
pub struct DuplicateStats {
    pub duplicated: Vec<(usize, usize)>,
    pub instrs: Vec<Instruction>,
    pub mapping: Vec<Option<Vec<usize>>>,
    pub onto_own_descendant: bool,
    pub onto_own_ancestor: bool,
}

/// Create new changes with the same content as the targets. Without a
/// location each copy sits on its original parents (resolved through earlier
/// copies); with a location the root targets sit on the given parents and the
/// given children are rebased onto the copies. A copy whose fields end up
/// identical to an existing commit is that commit, by content addressing.
pub fn cmd_duplicate(
    rs: &mut RepoState,
    targets: &Vec<usize>,
    location: &Option<(Vec<usize>, Vec<usize>)>,
    description: Vec<u8>,
) -> (res: Result<DuplicateStats, EngineError>)
    requires
        state_wf(old(rs)@),
        forall|k1: int, k2: int|
            0 <= k1 < k2 < targets@.len() ==> (#[trigger] targets@[k1]) < (
            #[trigger] targets@[k2]),
    ensures
        match res {
            Result::Ok(st) => {
                &&& state_wf(final(rs)@)
                &&& final(rs)@.ops.len() == old(rs)@.ops.len() + 1
                &&& final(rs)@.head == old(rs)@.ops.len()
                &&& st.duplicated@.len() == targets@.len()
                // the root is never among the duplicated targets on success
                &&& forall|k: int| 0 <= k < targets@.len() ==> 0 < (#[trigger] targets@[k])
                // old commits are preserved untouched
                &&& final(rs)@.store.commits.len() >= old(rs)@.store.commits.len()
                &&& forall|i: int|
                    0 <= i < old(rs)@.store.commits.len() ==> final(rs)@.store.commits[i] == old(
                        rs,
                    )@.store.commits[i]
                // each copy keeps the original's content and identity fields,
                // on parents resolved through the earlier copies — or on the
                // location's parents for a root of the duplicated set
                &&& forall|k: int|
                    0 <= k < targets@.len() ==> {
                        let pair = #[trigger] st.duplicated@[k];
                        let orig = old(rs)@.store.commits[targets@[k] as int];
                        let copy = final(rs)@.store.commits[pair.1 as int];
                        &&& pair.0 == targets@[k]
                        &&& pair.1 < final(rs)@.store.commits.len()
                        &&& copy.tree == orig.tree
                        &&& copy.description == orig.description
                        &&& copy.author == orig.author
                        &&& copy.committer == orig.committer
                        &&& copy.signature == orig.signature
                        &&& copy.parents == (if location is Some && dup_is_root(
                            st.duplicated@.take(k),
                            orig.parents,
                        ) {
                            (match location {
                                Option::Some(loc) => loc.0@,
                                Option::None => orig.parents,
                            })
                        } else {
                            Seq::new(
                                orig.parents.len(),
                                |j: int| dup_resolve(st.duplicated@.take(k), orig.parents[j]),
                            )
                        })
                    }
                // the location's children were rebased onto the copies
                &&& (match location {
                    Option::Some(loc) => {
                        &&& instr_ids(st.instrs@) == dedup_first(loc.1@, 0)
                        &&& forall|k: int|
                            0 <= k < st.instrs@.len() ==> (match (#[trigger] st.instrs@[k]).action {
                                RewriteAction::Rewrite(e) => (match e.new_parents {
                                    Option::Some(ov) => ov@ == dup_child_override(
                                        old(rs)@.store.commits[st.instrs@[k].id as int].parents,
                                        st.duplicated@,
                                    ),
                                    Option::None => false,
                                }) && e.new_tree is None && e.rebase_tree,
                                RewriteAction::Abandon => false,
                            })
                    },
                    Option::None => st.instrs@.len() == 0,
                })
                &&& forall|j: int|
                    0 <= j < old(rs)@.store.commits.len()
                        ==> crate::rewrite::mapping_entry_ok(
                        old(rs)@.store,
                        final(rs)@.store,
                        st.instrs@,
                        TransformOptions {
                            rebase_descendants: true,
                            delete_abandoned_bookmarks: false,
                        },
                        st.mapping@,
                        j,
                    )
                // advisory flags: a copy placed below itself or above a child
                &&& st.onto_own_descendant == (match location {
                    Option::Some(loc) => exists|t: int, m: int|
                        0 <= t < targets@.len() && 0 <= m < loc.0@.len()
                            && crate::graph::reachable(
                            old(rs)@.store,
                            #[trigger] targets@[t],
                            #[trigger] loc.0@[m],
                        ),
                    Option::None => false,
                })
                &&& st.onto_own_ancestor == (match location {
                    Option::Some(loc) => exists|t: int, m: int|
                        0 <= t < targets@.len() && 0 <= m < loc.1@.len()
                            && crate::graph::reachable(
                            old(rs)@.store,
                            #[trigger] loc.1@[m],
                            #[trigger] targets@[t],
                        ),
                    Option::None => false,
                })
            },
            Result::Err(e) => final(rs)@ == old(rs)@ && (match e {
                EngineError::User(UserError::CannotDuplicateRoot) => targets@.contains(0),
                EngineError::Backend(BackendError::MissingCommit { id }) => id >= old(
                    rs,
                )@.store.commits.len() && (targets@.contains(id) || (match location {
                    Option::Some(loc) => loc.0@.contains(id) || loc.1@.contains(id),
                    Option::None => false,
                })),
                EngineError::ImmutableCommit { id } => id == 0 && (match location {
                    Option::Some(loc) => loc.1@.contains(0),
                    Option::None => false,
                }),
                _ => false,
            }),
        },
{
    let n_commits = rs.store.commits.len();
    let nt = targets.len();
    let mut k: usize = 0;
    while k < nt
        invariant
            nt == targets@.len(),
            k <= nt,
            rs@ == old(rs)@,
            n_commits == rs@.store.commits.len(),
            forall|m: int| 0 <= m < k ==> 0 < (#[trigger] targets@[m]) < n_commits,
        decreases nt - k,
    {
        if targets[k] == 0 {
            proof {
                assert(targets@.contains(targets@[k as int]));
            }
            return Result::Err(EngineError::User(UserError::CannotDuplicateRoot));
        }
        if targets[k] >= n_commits {
            proof {
                assert(targets@.contains(targets@[k as int]));
            }
            return Result::Err(
                EngineError::Backend(BackendError::MissingCommit { id: targets[k] }),
            );
        }
        k += 1;
    }
    // validate the location
    match location {
        Option::Some(loc) => {
            let np = loc.0.len();
            let mut m: usize = 0;
            while m < np
                invariant
                    np == loc.0@.len(),
                    m <= np,
                    rs@ == old(rs)@,
                    n_commits == rs@.store.commits.len(),
                    (match location {
                        Option::Some(l2) => l2.0@ == loc.0@ && l2.1@ == loc.1@,
                        Option::None => false,
                    }),
                    forall|x: int| 0 <= x < m ==> (#[trigger] loc.0@[x]) < n_commits,
                decreases np - m,
            {
                if loc.0[m] >= n_commits {
                    proof {
                        assert(loc.0@.contains(loc.0@[m as int]));
                    }
                    return Result::Err(
                        EngineError::Backend(BackendError::MissingCommit { id: loc.0[m] }),
                    );
                }
                m += 1;
            }
            let nc = loc.1.len();
            let mut m2: usize = 0;
            while m2 < nc
                invariant
                    nc == loc.1@.len(),
                    m2 <= nc,
                    rs@ == old(rs)@,
                    n_commits == rs@.store.commits.len(),
                    (match location {
                        Option::Some(l2) => l2.0@ == loc.0@ && l2.1@ == loc.1@,
                        Option::None => false,
                    }),
                    forall|x: int| 0 <= x < m2 ==> 0 < (#[trigger] loc.1@[x]) < n_commits,
                decreases nc - m2,
            {
                if loc.1[m2] >= n_commits {
                    proof {
                        assert(loc.1@.contains(loc.1@[m2 as int]));
                    }
                    return Result::Err(
                        EngineError::Backend(BackendError::MissingCommit { id: loc.1[m2] }),
                    );
                }
                if loc.1[m2] == 0 {
                    proof {
                        assert(loc.1@.contains(loc.1@[m2 as int]));
                    }
                    return Result::Err(EngineError::ImmutableCommit { id: 0 });
                }
                m2 += 1;
            }
        },
        Option::None => {},
    }
    // advisory checks: a target duplicated below itself or above a child
    let mut onto_own_descendant = false;
    let mut onto_own_ancestor = false;
    match location {
        Option::Some(loc) => {
            let mut t: usize = 0;
            while t < nt
                invariant
                    nt == targets@.len(),
                    t <= nt,
                    rs@ == old(rs)@,
                    state_wf(rs@),
                    n_commits == rs@.store.commits.len(),
                    forall|m: int| 0 <= m < nt ==> 0 < (#[trigger] targets@[m]) < n_commits,
                    forall|x: int| 0 <= x < loc.0@.len() ==> (#[trigger] loc.0@[x]) < n_commits,
                    forall|x: int| 0 <= x < loc.1@.len() ==> 0 < (#[trigger] loc.1@[x]) < n_commits,
                    onto_own_descendant == (exists|t2: int, m: int|
                        0 <= t2 < t && 0 <= m < loc.0@.len() && crate::graph::reachable(
                            rs@.store,
                            #[trigger] targets@[t2],
                            #[trigger] loc.0@[m],
                        )),
                    onto_own_ancestor == (exists|t2: int, m: int|
                        0 <= t2 < t && 0 <= m < loc.1@.len() && crate::graph::reachable(
                            rs@.store,
                            #[trigger] loc.1@[m],
                            #[trigger] targets@[t2],
                        )),
                decreases nt - t,
            {
                let np2 = loc.0.len();
                let mut m3: usize = 0;
                while m3 < np2
                    invariant
                        np2 == loc.0@.len(),
                        m3 <= np2,
                        rs@ == old(rs)@,
                        state_wf(rs@),
                        n_commits == rs@.store.commits.len(),
                        t < nt,
                        nt == targets@.len(),
                        forall|m: int| 0 <= m < nt ==> 0 < (#[trigger] targets@[m]) < n_commits,
                        forall|x: int|
                            0 <= x < loc.0@.len() ==> (#[trigger] loc.0@[x]) < n_commits,
                        onto_own_descendant == (exists|t2: int, m: int|
                            (0 <= t2 < t && 0 <= m < loc.0@.len() || t2 == t && 0 <= m < m3)
                                && crate::graph::reachable(
                                rs@.store,
                                #[trigger] targets@[t2],
                                #[trigger] loc.0@[m],
                            )),
                    decreases np2 - m3,
                {
                    let ghost d0 = onto_own_descendant;
                    if crate::graph::is_ancestor(&rs.store, targets[t], loc.0[m3]) {
                        onto_own_descendant = true;
                    }
                    proof {
                        if crate::graph::reachable(
                            rs@.store,
                            targets@[t as int],
                            loc.0@[m3 as int],
                        ) {
                            assert((0 <= t < t || t == t && 0 <= m3 < m3 + 1)
                                && crate::graph::reachable(
                                rs@.store,
                                targets@[t as int],
                                loc.0@[m3 as int],
                            ));
                        } else {
                            if exists|t2: int, m: int|
                                (0 <= t2 < t as int && 0 <= m < loc.0@.len() || t2 == t as int && 0
                                    <= m < m3 + 1) && crate::graph::reachable(
                                    rs@.store,
                                    #[trigger] targets@[t2],
                                    #[trigger] loc.0@[m],
                                ) {
                                let (t2, m) = choose|t2: int, m: int|
                                    (0 <= t2 < t as int && 0 <= m < loc.0@.len() || t2 == t as int
                                        && 0 <= m < m3 + 1) && crate::graph::reachable(
                                        rs@.store,
                                        #[trigger] targets@[t2],
                                        #[trigger] loc.0@[m],
                                    );
                                if t2 == t as int && m == m3 as int {
                                    assert(false);
                                }
                            }
                        }
                    }
                    m3 += 1;
                }
                let nc2 = loc.1.len();
                let mut m4: usize = 0;
                while m4 < nc2
                    invariant
                        nc2 == loc.1@.len(),
                        m4 <= nc2,
                        rs@ == old(rs)@,
                        state_wf(rs@),
                        n_commits == rs@.store.commits.len(),
                        t < nt,
                        nt == targets@.len(),
                        forall|m: int| 0 <= m < nt ==> 0 < (#[trigger] targets@[m]) < n_commits,
                        forall|x: int|
                            0 <= x < loc.1@.len() ==> 0 < (#[trigger] loc.1@[x]) < n_commits,
                        onto_own_ancestor == (exists|t2: int, m: int|
                            (0 <= t2 < t && 0 <= m < loc.1@.len() || t2 == t && 0 <= m < m4)
                                && crate::graph::reachable(
                                rs@.store,
                                #[trigger] loc.1@[m],
                                #[trigger] targets@[t2],
                            )),
                    decreases nc2 - m4,
                {
                    if crate::graph::is_ancestor(&rs.store, loc.1[m4], targets[t]) {
                        onto_own_ancestor = true;
                    }
                    proof {
                        if crate::graph::reachable(
                            rs@.store,
                            loc.1@[m4 as int],
                            targets@[t as int],
                        ) {
                            assert((0 <= t < t || t == t && 0 <= m4 < m4 + 1)
                                && crate::graph::reachable(
                                rs@.store,
                                loc.1@[m4 as int],
                                targets@[t as int],
                            ));
                        } else {
                            if exists|t2: int, m: int|
                                (0 <= t2 < t as int && 0 <= m < loc.1@.len() || t2 == t as int && 0
                                    <= m < m4 + 1) && crate::graph::reachable(
                                    rs@.store,
                                    #[trigger] loc.1@[m],
                                    #[trigger] targets@[t2],
                                ) {
                                let (t2, m) = choose|t2: int, m: int|
                                    (0 <= t2 < t as int && 0 <= m < loc.1@.len() || t2 == t as int
                                        && 0 <= m < m4 + 1) && crate::graph::reachable(
                                        rs@.store,
                                        #[trigger] loc.1@[m],
                                        #[trigger] targets@[t2],
                                    );
                                if t2 == t as int && m == m4 as int {
                                    assert(false);
                                }
                            }
                        }
                    }
                    m4 += 1;
                }
                t += 1;
            }
        },
        Option::None => {},
    }
    let mut tx = start_transaction(rs);
    // copy the targets in ascending (topological) order
    let mut duplicated: Vec<(usize, usize)> = Vec::new();
    let mut t2: usize = 0;
    let ghost sv0 = old(rs)@.store;
    while t2 < nt
        invariant
            nt == targets@.len(),
            t2 <= nt,
            sv0 == old(rs)@.store,
            rs@ == old(rs)@,
            state_wf(rs@),
            tx.base_op == old(rs)@.head,
            store_wf(tx.repo@.store),
            view_wf(tx.repo@.view),
            view_ids_valid(tx.repo@.view, tx.repo@.store.commits.len() as int),
            tx.repo@.store.commits.len() >= sv0.commits.len(),
            tx.repo@.store.trees.len() >= sv0.trees.len(),
            forall|i: int| 0 <= i < sv0.commits.len() ==> tx.repo@.store.commits[i] == sv0.commits[i],
            forall|i: int| 0 <= i < sv0.trees.len() ==> tx.repo@.store.trees[i] == sv0.trees[i],
            n_commits == sv0.commits.len(),
            forall|m: int| 0 <= m < nt ==> 0 < (#[trigger] targets@[m]) < n_commits,
            (match location {
                Option::Some(loc) => forall|x: int|
                    0 <= x < loc.0@.len() ==> (#[trigger] loc.0@[x]) < n_commits,
                Option::None => true,
            }),
            duplicated@.len() == t2,
            forall|m: int|
                0 <= m < t2 ==> {
                    let pair = #[trigger] duplicated@[m];
                    let orig = sv0.commits[targets@[m] as int];
                    let copy = tx.repo@.store.commits[pair.1 as int];
                    &&& pair.0 == targets@[m]
                    &&& pair.1 < tx.repo@.store.commits.len()
                    &&& copy.tree == orig.tree
                    &&& copy.description == orig.description
                    &&& copy.author == orig.author
                    &&& copy.committer == orig.committer
                    &&& copy.signature == orig.signature
                    &&& copy.parents == (if location is Some && dup_is_root(
                        duplicated@.take(m),
                        orig.parents,
                    ) {
                        (match location {
                            Option::Some(loc) => loc.0@,
                            Option::None => orig.parents,
                        })
                    } else {
                        Seq::new(
                            orig.parents.len(),
                            |j: int| dup_resolve(duplicated@.take(m), orig.parents[j]),
                        )
                    })
                },
        decreases nt - t2,
    {
        let ghost sv_before = tx.repo@.store;
        let target = targets[t2];
        let orig = crate::store::get_commit(&tx.repo.store, target);
        // resolve parents through the copies made so far; a root target takes
        // the location parents instead
        let mut new_parents: Vec<usize> = Vec::new();
        let mut any_target_parent = false;
        let npar = orig.parents.len();
        let mut m5: usize = 0;
        while m5 < npar
            invariant
                npar == orig.parents@.len(),
                m5 <= npar,
                orig@ == sv_before.commits[target as int],
                target < sv_before.commits.len(),
                store_wf(sv_before),
                duplicated@.len() == t2,
                forall|m: int|
                    0 <= m < t2 ==> (#[trigger] duplicated@[m]).1 < sv_before.commits.len(),
                new_parents@.len() == m5,
                forall|j: int|
                    0 <= j < m5 ==> (#[trigger] new_parents@[j]) == dup_resolve(
                        duplicated@,
                        orig.parents@[j],
                    ),
                any_target_parent == !(forall|j: int|
                    0 <= j < m5 ==> dup_find(duplicated@, #[trigger] orig.parents@[j], 0) == -1),
                forall|x: int|
                    0 <= x < new_parents@.len() ==> (#[trigger] new_parents@[x])
                        < sv_before.commits.len(),
            decreases npar - m5,
        {
            let p = orig.parents[m5];
            proof {
                assert(orig.parents@[m5 as int] == sv_before.commits[target as int].parents[
                    m5 as int
                ]);
                assert(sv_before.commits[target as int].parents[m5 as int] < target);
            }
            // find the first copy of this parent
            let ghost dups = duplicated@;
            let mut found: Option<usize> = Option::None;
            let nd = duplicated.len();
            let mut m6: usize = 0;
            while m6 < nd
                invariant
                    nd == duplicated@.len(),
                    m6 <= nd,
                    dups == duplicated@,
                    forall|m: int|
                        0 <= m < nd ==> (#[trigger] duplicated@[m]).1 < sv_before.commits.len(),
                    (match found {
                        Option::None => dup_find(dups, p, 0) == dup_find(dups, p, m6 as int),
                        Option::Some(f) => dup_find(dups, p, 0) >= 0 && f == dups[dup_find(
                            dups,
                            p,
                            0,
                        )].1 && f < sv_before.commits.len(),
                    }),
                decreases nd - m6,
            {
                let still_missing = match &found {
                    Option::None => true,
                    Option::Some(_) => false,
                };
                if still_missing && duplicated[m6].0 == p {
                    proof {
                        assert(dup_find(dups, p, m6 as int) == m6);
                    }
                    found = Option::Some(duplicated[m6].1);
                } else {
                    proof {
                        match found {
                            Option::None => {
                                assert(dup_find(dups, p, m6 as int) == dup_find(
                                    dups,
                                    p,
                                    m6 + 1 as int,
                                ));
                            },
                            Option::Some(_) => {},
                        }
                    }
                }
                m6 += 1;
            }
            match found {
                Option::Some(f) => {
                    proof {
                        assert(f == dup_resolve(dups, p));
                    }
                    any_target_parent = true;
                    new_parents.push(f);
                },
                Option::None => {
                    proof {
                        assert(dup_find(dups, p, nd as int) == -1);
                        assert(dup_resolve(dups, p) == p);
                    }
                    new_parents.push(p);
                },
            }
            proof {
                assert(new_parents@[m5 as int] == dup_resolve(dups, orig.parents@[m5 as int]));
            }
            m5 += 1;
        }
        let use_location: bool = match location {
            Option::Some(_) => !any_target_parent,
            Option::None => false,
        };
        proof {
            assert(any_target_parent == !dup_is_root(duplicated@, orig.parents@));
        }
        let final_parents: Vec<usize> = if use_location {
            match location {
                Option::Some(loc) => crate::ids::clone_ids(&loc.0),
                Option::None => new_parents,
            }
        } else {
            new_parents
        };
        proof {
            assert(forall|x: int|
                0 <= x < final_parents@.len() ==> (#[trigger] final_parents@[x])
                    < sv_before.commits.len());
        }
        let copy = crate::store::CommitData {
            parents: final_parents,
            tree: orig.tree,
            author: orig.author,
            committer: orig.committer,
            description: orig.description,
            signature: orig.signature,
        };
        let ghost cv = copy@;
        proof {
            assert(orig@.tree == sv0.commits[target as int].tree);
            assert(sv_before.commits[target as int].tree < sv_before.trees.len());
        }
        let nid = crate::store::write_commit(&mut tx.repo.store, copy);
        let ghost dup_before = duplicated@;
        duplicated.push((target, nid));
        proof {
            let sv_after = tx.repo@.store;
            assert(sv_after.commits[nid as int] == cv);
            assert(duplicated@.take(t2 as int) =~= dup_before);
            assert forall|m: int|
                0 <= m < t2 + 1 implies {
                let pair = #[trigger] duplicated@[m];
                let orig2 = sv0.commits[targets@[m] as int];
                let copy2 = sv_after.commits[pair.1 as int];
                &&& pair.0 == targets@[m]
                &&& pair.1 < sv_after.commits.len()
                &&& copy2.tree == orig2.tree
                &&& copy2.description == orig2.description
                &&& copy2.author == orig2.author
                &&& copy2.committer == orig2.committer
                &&& copy2.signature == orig2.signature
                &&& copy2.parents == (if location is Some && dup_is_root(
                    duplicated@.take(m),
                    orig2.parents,
                ) {
                    (match location {
                        Option::Some(loc) => loc.0@,
                        Option::None => orig2.parents,
                    })
                } else {
                    Seq::new(
                        orig2.parents.len(),
                        |j: int| dup_resolve(duplicated@.take(m), orig2.parents[j]),
                    )
                })
            } by {
                if m < t2 {
                    assert(duplicated@[m].1 < sv_before.commits.len());
                    assert(sv_after.commits[duplicated@[m].1 as int] == sv_before.commits[
                        duplicated@[m].1 as int
                    ]);
                    assert(duplicated@.take(m) =~= dup_before.take(m));
                } else {
                    assert(duplicated@[m] == (target, nid));
                    let orig2 = sv0.commits[targets@[m] as int];
                    assert(orig2 == orig@);
                    if use_location {
                        assert(cv.parents == (match location {
                            Option::Some(loc) => loc.0@,
                            Option::None => orig2.parents,
                        }));
                        assert(dup_is_root(duplicated@.take(m), orig2.parents));
                    } else {
                        assert(cv.parents =~= Seq::new(
                            orig2.parents.len(),
                            |j: int| dup_resolve(dup_before, orig2.parents[j]),
                        ));
                        if location is Some {
                            assert(!dup_is_root(duplicated@.take(m), orig2.parents));
                        }
                    }
                }
            }
        }
        t2 += 1;
    }
    // rebase the location's children onto the copies
    let mut instrs: Vec<Instruction> = Vec::new();
    match location {
        Option::Some(loc) => {
            let ghost sv_dup = tx.repo@.store;
            let dchildren = crate::repo::dedup_ids(&loc.1);
            let ndc = dchildren.len();
            let mut c: usize = 0;
            while c < ndc
                invariant
                    ndc == dchildren@.len(),
                    c <= ndc,
                    tx.repo@.store == sv_dup,
                    sv0 == old(rs)@.store,
                    store_wf(sv_dup),
                    n_commits <= sv_dup.commits.len(),
                    n_commits == sv0.commits.len(),
                    forall|q: int| 0 <= q < n_commits ==> sv_dup.commits[q] == sv0.commits[q],
                    forall|m: int| 0 <= m < ndc ==> 0 < (#[trigger] dchildren@[m]) < n_commits,
                    forall|m1: int, m2: int|
                        0 <= m1 < m2 < ndc ==> (#[trigger] dchildren@[m1]) != (
                        #[trigger] dchildren@[m2]),
                    duplicated@.len() == nt,
                    forall|m: int|
                        0 <= m < nt ==> (#[trigger] duplicated@[m]).1 < sv_dup.commits.len(),
                    instrs@.len() == c,
                    forall|m: int|
                        0 <= m < c ==> (#[trigger] instrs@[m]).id == dchildren@[m] && (
                        match instrs@[m].action {
                            RewriteAction::Rewrite(e) => (match e.new_parents {
                                Option::Some(ov) => (forall|x: int|
                                    0 <= x < ov@.len() ==> (#[trigger] ov@[x])
                                        < sv_dup.commits.len()) && ov@ == dup_child_override(
                                    sv0.commits[dchildren@[m] as int].parents,
                                    duplicated@,
                                ),
                                Option::None => false,
                            }) && e.new_tree is None && e.rebase_tree,
                            RewriteAction::Abandon => false,
                        }),
                decreases ndc - c,
            {
                let child = dchildren[c];
                let cc = crate::store::get_commit(&tx.repo.store, child);
                let ncp = cc.parents.len();
                let mut ov: Vec<usize> = Vec::new();
                let mut m7: usize = 0;
                while m7 < ncp
                    invariant
                        ncp == cc.parents@.len(),
                        m7 <= ncp,
                        cc@ == sv_dup.commits[child as int],
                        child < sv_dup.commits.len(),
                        store_wf(sv_dup),
                        ov@ == cc.parents@.subrange(0, m7 as int),
                        forall|x: int|
                            0 <= x < ov@.len() ==> (#[trigger] ov@[x]) < sv_dup.commits.len(),
                    decreases ncp - m7,
                {
                    let p = cc.parents[m7];
                    proof {
                        assert(cc.parents@[m7 as int] == sv_dup.commits[child as int].parents[
                            m7 as int
                        ]);
                        assert(sv_dup.commits[child as int].parents[m7 as int] < child);
                    }
                    ov.push(p);
                    proof {
                        assert(ov@ =~= cc.parents@.subrange(0, m7 + 1 as int));
                    }
                    m7 += 1;
                }
                proof {
                    assert(ov@ =~= cc.parents@);
                }
                // add the duplicated heads
                let ndp = duplicated.len();
                let mut m8: usize = 0;
                while m8 < ndp
                    invariant
                        ndp == duplicated@.len(),
                        m8 <= ndp,
                        cc@ == sv_dup.commits[child as int],
                        ov@ == cc.parents@ + Seq::new(m8 as nat, |m: int| duplicated@[m].1),
                        forall|m: int|
                            0 <= m < ndp ==> (#[trigger] duplicated@[m]).1 < sv_dup.commits.len(),
                        forall|x: int|
                            0 <= x < ov@.len() ==> (#[trigger] ov@[x]) < sv_dup.commits.len(),
                    decreases ndp - m8,
                {
                    ov.push(duplicated[m8].1);
                    proof {
                        assert(ov@ =~= cc.parents@ + Seq::new(
                            (m8 + 1) as nat,
                            |m: int| duplicated@[m].1,
                        ));
                    }
                    m8 += 1;
                }
                proof {
                    assert(ov@ =~= dup_child_override(cc.parents@, duplicated@));
                    assert(cc.parents@ == sv0.commits[child as int].parents);
                }
                let edit_i = CommitEdit {
                    new_description: Option::None,
                    set_author_to_committer: false,
                    new_author: Option::None,
                    new_committer: Option::None,
                    drop_signature: false,
                    new_tree: Option::None,
                    new_parents: Option::Some(ov),
                    rebase_tree: true,
                };
                instrs.push(Instruction { id: child, action: RewriteAction::Rewrite(edit_i) });
                c += 1;
            }
            proof {
                assert(instr_ids(instrs@) =~= dedup_first(loc.1@, 0));
            }
            proof {
                assert(instrs_valid(
                    instrs@,
                    tx.repo@.store.commits.len() as int,
                    tx.repo@.store.trees.len() as int,
                ));
            }
        },
        Option::None => {
            proof {
                assert(instrs@.len() == 0);
                assert(instrs_valid(
                    instrs@,
                    tx.repo@.store.commits.len() as int,
                    tx.repo@.store.trees.len() as int,
                ));
            }
        },
    }
    let ghost sv_walkbase = tx.repo@.store;
    let mapping = match transform_descendants(&mut tx.repo, &instrs, TransformOptions {
        rebase_descendants: true,
        delete_abandoned_bookmarks: false,
    }) {
        Result::Ok(m) => m,
        Result::Err(e) => {
            proof {
                assert(false);
            }
            return Result::Err(e);
        },
    };
    proof {
        // the walk ran on the store holding the copies; for pre-existing
        // commits its facts hold against the entry store too
        let opts = TransformOptions {
            rebase_descendants: true,
            delete_abandoned_bookmarks: false,
        };
        let rvs = tx.repo@.store;
        assert forall|j: int|
            0 <= j < sv0.commits.len() implies crate::rewrite::mapping_entry_ok(
            sv0,
            rvs,
            instrs@,
            opts,
            mapping@,
            j,
        ) by {
            assert(crate::rewrite::mapping_entry_ok(
                sv_walkbase,
                rvs,
                instrs@,
                opts,
                mapping@,
                j,
            ));
            crate::graph::lemma_descends_stable(sv0, sv_walkbase, j as usize, instr_ids(instrs@));
            assert(sv0.commits[j] == sv_walkbase.commits[j]);
        }
    }
    match finish_transaction(rs, tx, description) {
        Result::Ok(_) => Result::Ok(
            DuplicateStats { duplicated, instrs, mapping, onto_own_descendant, onto_own_ancestor },
        ),
        Result::Err(e) => {
            proof {
                assert(false);
            }
            Result::Err(e)
        },
    }
}

/// A child's parent list mapped through the insertion: members of the
/// destination parent set become the reverted head, other parents stay.
pub open spec fn splice_map(oldp: Seq<usize>, given: Seq<usize>, head: usize) -> Seq<usize> {
    Seq::new(
        oldp.len(),
        |j: int| if given.contains(oldp[j]) {
            head
        } else {
            oldp[j]
        },
    )
}

/// A rebased child's parents after the reverse chain is spliced in: the
/// mapped old parents followed by the head, first occurrences only.
pub open spec fn spliced_child_parents(
    oldp: Seq<usize>,
    given: Seq<usize>,
    head: usize,
) -> Seq<usize> {
    dedup_first(splice_map(oldp, given, head).push(head), 0)
}

/// One reverse commit is right: it carries the asked-for description and
/// author, sits on the chain (the given parents for the first, the previous
/// reverse commit for the rest), and its tree is the three-way merge that
/// subtracts the reverted commit's own change from the chain's content.
pub open spec fn revert_entry_ok(
    sv: crate::store::StoreV,
    sv0: crate::store::StoreV,
    target: usize,
    desc: Seq<u8>,
    prev: Option<usize>,
    given: Seq<usize>,
    rid: usize,
    author: crate::store::SigV,
) -> bool {
    &&& rid < sv.commits.len()
    &&& target < sv0.commits.len()
    &&& {
        let rv = sv.commits[rid as int];
        let oc = sv0.commits[target as int];
        &&& rv.description == desc
        &&& rv.signature is None
        &&& rv.author == author
        &&& rv.committer == author
        &&& rv.parents == (match prev {
            Option::Some(pr) => seq![pr],
            Option::None => given,
        })
        &&& rv.tree < sv.trees.len()
        &&& oc.tree < sv.trees.len()
        &&& forall|p: usize|
            crate::tree::tv_get(sv.trees[rv.tree as int], p) == crate::merge::merge_val(
                crate::tree::tv_get(sv.trees[oc.tree as int], p),
                (match prev {
                    Option::Some(pr) => crate::tree::tv_get(
                        sv.trees[sv.commits[pr as int].tree as int],
                        p,
                    ),
                    Option::None => crate::rewrite::merged_parents_get(sv, given, p),
                }),
                crate::rewrite::merged_parents_get(sv, oc.parents, p),
            )
    }
}

/// A reverse commit's facts survive later writes.
proof fn lemma_revert_entry_stable(
    sv1: crate::store::StoreV,
    sv2: crate::store::StoreV,
    sv0: crate::store::StoreV,
    target: usize,
    desc: Seq<u8>,
    prev: Option<usize>,
    given: Seq<usize>,
    rid: usize,
    author: crate::store::SigV,
)
    requires
        store_wf(sv0),
        store_wf(sv1),
        store_wf(sv2),
        sv0.commits.len() <= sv1.commits.len() <= sv2.commits.len(),
        sv0.trees.len() <= sv1.trees.len() <= sv2.trees.len(),
        forall|i: int| 0 <= i < sv1.commits.len() ==> sv2.commits[i] == sv1.commits[i],
        forall|i: int| 0 <= i < sv1.trees.len() ==> sv2.trees[i] == sv1.trees[i],
        forall|i: int| 0 <= i < sv0.commits.len() ==> sv1.commits[i] == sv0.commits[i],
        forall|i: int| 0 <= i < sv0.trees.len() ==> sv1.trees[i] == sv0.trees[i],
        forall|m: int| 0 <= m < given.len() ==> (#[trigger] given[m]) < sv0.commits.len(),
        (match prev {
            Option::Some(pr) => pr < sv1.commits.len(),
            Option::None => true,
        }),
        revert_entry_ok(sv1, sv0, target, desc, prev, given, rid, author),
    ensures
        revert_entry_ok(sv2, sv0, target, desc, prev, given, rid, author),
{
    let rv = sv1.commits[rid as int];
    let oc = sv0.commits[target as int];
    assert(sv2.commits[rid as int] == rv);
    assert(sv2.trees[rv.tree as int] == sv1.trees[rv.tree as int]);
    assert(sv2.trees[oc.tree as int] == sv1.trees[oc.tree as int]);
    assert(forall|m: int| 0 <= m < oc.parents.len() ==> (#[trigger] oc.parents[m]) < target);
    assert forall|p: usize|
        crate::tree::tv_get(sv2.trees[rv.tree as int], p) == crate::merge::merge_val(
            crate::tree::tv_get(sv2.trees[oc.tree as int], p),
            (match prev {
                Option::Some(pr) => crate::tree::tv_get(
                    sv2.trees[sv2.commits[pr as int].tree as int],
                    p,
                ),
                Option::None => crate::rewrite::merged_parents_get(sv2, given, p),
            }),
            crate::rewrite::merged_parents_get(sv2, oc.parents, p),
        ) by {
        crate::rewrite::lemma_merged_parents_get_stable(sv1, sv2, oc.parents, p);
        match prev {
            Option::Some(pr) => {
                assert(sv2.commits[pr as int] == sv1.commits[pr as int]);
                assert(sv1.commits[pr as int].tree < sv1.trees.len());
                assert(sv2.trees[sv1.commits[pr as int].tree as int] == sv1.trees[sv1.commits[
                    pr as int
                ].tree as int]);
            },
            Option::None => {
                crate::rewrite::lemma_merged_parents_get_stable(sv1, sv2, given, p);
            },
        }
    }
}

/// What `cmd_revert` reports: the new commits applying the reverses, one per
/// reverted revision, newest first.
#[derive(Debug)]
pub struct RevertStats {
    pub reverted: Vec<usize>,
    pub instrs: Vec<Instruction>,
    pub mapping: Vec<Option<Vec<usize>>>,
}

/// Apply the reverse of the given revisions (newest first) as a chain of new
/// commits on the given parents, then rebase the given children onto the end
/// of the chain. Each reverse tree is the three-way merge that subtracts a
/// revision's own change from the chain's current content.
#[verifier::rlimit(100)]
pub fn cmd_revert(
    rs: &mut RepoState,
    to_revert: Vec<(usize, Vec<u8>)>,
    new_parent_ids: &Vec<usize>,
    new_child_ids: &Vec<usize>,
    author: crate::store::Signature,
    description: Vec<u8>,
) -> (res: Result<RevertStats, EngineError>)
    requires
        state_wf(old(rs)@),
    ensures
        match res {
            Result::Ok(st) => {
                &&& state_wf(final(rs)@)
                &&& (to_revert@.len() == 0 ==> final(rs)@ == old(rs)@)
                &&& (to_revert@.len() > 0 ==> final(rs)@.ops.len() == old(rs)@.ops.len() + 1
                    && final(rs)@.head == old(rs)@.ops.len())
                &&& st.reverted@.len() == to_revert@.len()
                // old commits and trees are preserved untouched
                &&& final(rs)@.store.commits.len() >= old(rs)@.store.commits.len()
                &&& final(rs)@.store.trees.len() >= old(rs)@.store.trees.len()
                &&& forall|i: int|
                    0 <= i < old(rs)@.store.commits.len() ==> final(rs)@.store.commits[i] == old(
                        rs,
                    )@.store.commits[i]
                &&& forall|i: int|
                    0 <= i < old(rs)@.store.trees.len() ==> final(rs)@.store.trees[i] == old(
                        rs,
                    )@.store.trees[i]
                // each reverse commit: the asked-for description, the chain
                // of parents, and the reverse three-way-merge tree
                &&& forall|k: int|
                    0 <= k < st.reverted@.len() ==> revert_entry_ok(
                        final(rs)@.store,
                        old(rs)@.store,
                        (#[trigger] to_revert@[k]).0,
                        to_revert@[k].1@,
                        (if k == 0 {
                            Option::<usize>::None
                        } else {
                            Option::Some(st.reverted@[k - 1])
                        }),
                        new_parent_ids@,
                        st.reverted@[k],
                        author@,
                    )
                // the children were rebased onto the end of the chain, their
                // parent lists spliced in order without duplicates
                &&& (to_revert@.len() > 0 ==> {
                    let head = st.reverted@[st.reverted@.len() - 1];
                    &&& instr_ids(st.instrs@) == dedup_first(new_child_ids@, 0)
                    &&& forall|k: int|
                        0 <= k < st.instrs@.len() ==> (match (#[trigger] st.instrs@[k]).action {
                            RewriteAction::Rewrite(e) => (match e.new_parents {
                                Option::Some(ov) => ov@ == spliced_child_parents(
                                    old(rs)@.store.commits[st.instrs@[k].id as int].parents,
                                    new_parent_ids@,
                                    head,
                                ),
                                Option::None => false,
                            }) && e.new_tree is None && e.rebase_tree,
                            RewriteAction::Abandon => false,
                        })
                    &&& forall|j: int|
                        0 <= j < old(rs)@.store.commits.len()
                            ==> crate::rewrite::mapping_entry_ok(
                            old(rs)@.store,
                            final(rs)@.store,
                            st.instrs@,
                            TransformOptions {
                                rebase_descendants: true,
                                delete_abandoned_bookmarks: false,
                            },
                            st.mapping@,
                            j,
                        )
                })
            },
            Result::Err(e) => final(rs)@ == old(rs)@ && (match e {
                EngineError::Backend(BackendError::MissingCommit { id }) => id >= old(
                    rs,
                )@.store.commits.len() && ((exists|k: int|
                    0 <= k < to_revert@.len() && (#[trigger] to_revert@[k]).0 == id)
                    || new_parent_ids@.contains(id) || new_child_ids@.contains(id)),
                EngineError::ImmutableCommit { id } => id == 0 && new_child_ids@.contains(id),
                _ => false,
            }),
        },
{
    if to_revert.len() == 0 {
        return Result::Ok(
            RevertStats { reverted: Vec::new(), instrs: Vec::new(), mapping: Vec::new() },
        );
    }
    // validate
    let n_commits = rs.store.commits.len();
    let nr = to_revert.len();
    let mut k: usize = 0;
    while k < nr
        invariant
            nr == to_revert@.len(),
            k <= nr,
            rs@ == old(rs)@,
            n_commits == rs@.store.commits.len(),
            forall|m: int| 0 <= m < k ==> (#[trigger] to_revert@[m].0) < n_commits,
        decreases nr - k,
    {
        if to_revert[k].0 >= n_commits {
            proof {
                assert(to_revert@[k as int].0 >= n_commits);
            }
            return Result::Err(
                EngineError::Backend(BackendError::MissingCommit { id: to_revert[k].0 }),
            );
        }
        k += 1;
    }
    let np = new_parent_ids.len();
    let mut k2: usize = 0;
    while k2 < np
        invariant
            np == new_parent_ids@.len(),
            k2 <= np,
            rs@ == old(rs)@,
            n_commits == rs@.store.commits.len(),
            forall|m: int| 0 <= m < k2 ==> (#[trigger] new_parent_ids@[m]) < n_commits,
        decreases np - k2,
    {
        if new_parent_ids[k2] >= n_commits {
            proof {
                assert(new_parent_ids@.contains(new_parent_ids@[k2 as int]));
            }
            return Result::Err(
                EngineError::Backend(BackendError::MissingCommit { id: new_parent_ids[k2] }),
            );
        }
        k2 += 1;
    }
    let nc = new_child_ids.len();
    let mut k3: usize = 0;
    while k3 < nc
        invariant
            nc == new_child_ids@.len(),
            k3 <= nc,
            rs@ == old(rs)@,
            n_commits == rs@.store.commits.len(),
            forall|m: int| 0 <= m < k3 ==> 0 < (#[trigger] new_child_ids@[m]) < n_commits,
        decreases nc - k3,
    {
        if new_child_ids[k3] >= n_commits {
            proof {
                assert(new_child_ids@.contains(new_child_ids@[k3 as int]));
            }
            return Result::Err(
                EngineError::Backend(BackendError::MissingCommit { id: new_child_ids[k3] }),
            );
        }
        if new_child_ids[k3] == 0 {
            proof {
                assert(new_child_ids@.contains(new_child_ids@[k3 as int]));
            }
            return Result::Err(EngineError::ImmutableCommit { id: 0 });
        }
        k3 += 1;
    }
    let mut tx = start_transaction(rs);
    // build the reverse chain, newest target first
    let mut to_revert = to_revert;
    let mut parent_ids: Vec<usize> = crate::ids::clone_ids(new_parent_ids);
    let mut new_base = crate::rewrite::merge_parent_trees(&tx.repo.store, &parent_ids);
    let mut reverted: Vec<usize> = Vec::new();
    let ghost tr0 = to_revert@;
    let ghost sv0 = old(rs)@.store;
    let mut i: usize = 0;
    while i < nr
        invariant
            nr == tr0.len(),
            i <= nr,
            rs@ == old(rs)@,
            state_wf(rs@),
            tx.base_op == old(rs)@.head,
            n_commits == old(rs)@.store.commits.len(),
            to_revert@ == tr0.skip(i as int),
            forall|m: int| 0 <= m < nr ==> (#[trigger] tr0[m].0) < n_commits,
            forall|m: int| 0 <= m < new_parent_ids@.len() ==> (#[trigger] new_parent_ids@[m]) < n_commits,
            store_wf(tx.repo@.store),
            view_wf(tx.repo@.view),
            view_ids_valid(tx.repo@.view, tx.repo@.store.commits.len() as int),
            tx.repo@.store.commits.len() >= n_commits,
            tx.repo@.store.trees.len() >= old(rs)@.store.trees.len(),
            forall|q: int|
                0 <= q < n_commits ==> tx.repo@.store.commits[q] == old(rs)@.store.commits[q],
            forall|q: int|
                0 <= q < old(rs)@.store.trees.len() ==> tx.repo@.store.trees[q] == old(
                    rs,
                )@.store.trees[q],
            crate::tree::tree_wf(new_base@),
            reverted@.len() == i,
            sv0 == old(rs)@.store,
            i > 0 ==> parent_ids@ == seq![reverted@[i - 1]],
            i == 0 ==> parent_ids@ == new_parent_ids@,
            forall|m: int| 0 <= m < parent_ids@.len() ==> (#[trigger] parent_ids@[m]) < tx.repo@.store.commits.len(),
            i == 0 ==> forall|p: usize|
                crate::tree::tv_get(new_base@, p) == crate::rewrite::merged_parents_get(
                    tx.repo@.store,
                    new_parent_ids@,
                    p,
                ),
            i > 0 ==> reverted@[i - 1] < tx.repo@.store.commits.len() && new_base@
                == tx.repo@.store.trees[tx.repo@.store.commits[
                reverted@[i - 1] as int
            ].tree as int],
            forall|m: int|
                0 <= m < i ==> revert_entry_ok(
                    tx.repo@.store,
                    sv0,
                    (#[trigger] tr0[m]).0,
                    tr0[m].1@,
                    (if m == 0 {
                        Option::<usize>::None
                    } else {
                        Option::Some(reverted@[m - 1])
                    }),
                    new_parent_ids@,
                    reverted@[m],
                    author@,
                ),
        decreases nr - i,
    {
        let ghost sv_before = tx.repo@.store;
        proof {
            assert(tr0.skip(i as int)[0] == tr0[i as int]);
            assert(tr0.skip(i as int).drop_first() =~= tr0.skip(i + 1 as int));
        }
        let pair = to_revert.remove(0);
        proof {
            assert(pair == tr0[i as int]);
        }
        let target = pair.0;
        let orig = crate::store::get_commit(&tx.repo.store, target);
        proof {
            assert(orig@ == sv_before.commits[target as int]);
            assert forall|m: int|
                0 <= m < orig.parents@.len() implies (#[trigger] orig.parents@[m]) < target by {
                assert(orig.parents@[m] == sv_before.commits[target as int].parents[m]);
                assert(sv_before.commits[target as int].parents[m] < target);
            }
            assert(orig@.tree < sv_before.trees.len());
        }
        let old_base = crate::rewrite::merge_parent_trees(&tx.repo.store, &orig.parents);
        let old_tree = crate::store::get_tree(&tx.repo.store, orig.tree);
        proof {
            assert(crate::tree::tree_wf(old_tree@));
        }
        // subtract the revision's own change from the chain's content
        let reversed = crate::tree::merge_trees(&old_tree, &new_base, &old_base);
        let tid = crate::store::write_tree(&mut tx.repo.store, crate::tree::clone_tree(&reversed));
        let new_c = crate::store::CommitData {
            parents: parent_ids,
            tree: tid,
            author: crate::store::clone_sig(&author),
            committer: crate::store::clone_sig(&author),
            description: pair.1,
            signature: Option::None,
        };
        let ghost ncv = new_c@;
        let nid = crate::store::write_commit(&mut tx.repo.store, new_c);
        let ghost rv_before = reverted@;
        let ghost parent_ids0 = parent_ids@;
        let ghost sv_tree = tx.repo@.store;
        let ghost nb0 = new_base@;
        reverted.push(nid);
        let mut next_parents: Vec<usize> = Vec::new();
        next_parents.push(nid);
        parent_ids = next_parents;
        new_base = reversed;
        proof {
            let sv_after = tx.repo@.store;
            assert(sv_after.commits[nid as int] == ncv);
            assert(parent_ids@ =~= seq![reverted@[i as int]]);
            assert(sv_after.trees[tid as int] == new_base@);
            // the fresh reverse commit satisfies its per-entry facts
            assert(revert_entry_ok(
                sv_after,
                sv0,
                tr0[i as int].0,
                tr0[i as int].1@,
                (if i == 0 {
                    Option::<usize>::None
                } else {
                    Option::Some(reverted@[i - 1])
                }),
                new_parent_ids@,
                nid,
                author@,
            )) by {
                let oc = sv0.commits[target as int];
                assert(oc == sv_before.commits[target as int]);
                assert(old_tree@ == sv_before.trees[oc.tree as int]);
                assert(sv_after.trees[oc.tree as int] == sv_before.trees[oc.tree as int]);
                assert(ncv.parents == parent_ids0);
                assert forall|p: usize|
                    crate::tree::tv_get(sv_after.trees[ncv.tree as int], p)
                        == crate::merge::merge_val(
                        crate::tree::tv_get(sv_after.trees[oc.tree as int], p),
                        (if i == 0 {
                            crate::rewrite::merged_parents_get(sv_after, new_parent_ids@, p)
                        } else {
                            crate::tree::tv_get(
                                sv_after.trees[sv_after.commits[
                                    reverted@[i - 1] as int
                                ].tree as int],
                                p,
                            )
                        }),
                        crate::rewrite::merged_parents_get(sv_after, oc.parents, p),
                    ) by {
                    assert(crate::tree::tv_get(reversed@, p) == crate::merge::merge_val(
                        crate::tree::tv_get(old_tree@, p),
                        crate::tree::tv_get(nb0, p),
                        crate::tree::tv_get(old_base@, p),
                    ));
                    assert(crate::tree::tv_get(old_base@, p)
                        == crate::rewrite::merged_parents_get(sv_before, oc.parents, p));
                    crate::rewrite::lemma_merged_parents_get_stable(
                        sv_before,
                        sv_tree,
                        oc.parents,
                        p,
                    );
                    crate::rewrite::lemma_merged_parents_get_stable(
                        sv_tree,
                        sv_after,
                        oc.parents,
                        p,
                    );
                    if i == 0 {
                        crate::rewrite::lemma_merged_parents_get_stable(
                            sv_before,
                            sv_tree,
                            new_parent_ids@,
                            p,
                        );
                        crate::rewrite::lemma_merged_parents_get_stable(
                            sv_tree,
                            sv_after,
                            new_parent_ids@,
                            p,
                        );
                    } else {
                        assert(sv_after.commits[reverted@[i - 1] as int] == sv_before.commits[
                            reverted@[i - 1] as int
                        ]);
                    }
                }
            }
            // earlier entries survive this iteration's writes
            assert forall|m: int|
                0 <= m < i + 1 implies revert_entry_ok(
                sv_after,
                sv0,
                (#[trigger] tr0[m]).0,
                tr0[m].1@,
                (if m == 0 {
                    Option::<usize>::None
                } else {
                    Option::Some(reverted@[m - 1])
                }),
                new_parent_ids@,
                reverted@[m],
                author@,
            ) by {
                if m < i {
                    assert(reverted@[m] == rv_before[m]);
                    if m > 0 {
                        assert(reverted@[m - 1] == rv_before[m - 1]);
                        assert(revert_entry_ok(
                            sv_before,
                            sv0,
                            (tr0[m - 1]).0,
                            tr0[m - 1].1@,
                            (if m - 1 == 0 {
                                Option::<usize>::None
                            } else {
                                Option::Some(rv_before[m - 2])
                            }),
                            new_parent_ids@,
                            rv_before[m - 1],
                            author@,
                        ));
                    }
                    lemma_revert_entry_stable(
                        sv_before,
                        sv_after,
                        sv0,
                        tr0[m].0,
                        tr0[m].1@,
                        (if m == 0 {
                            Option::<usize>::None
                        } else {
                            Option::Some(rv_before[m - 1])
                        }),
                        new_parent_ids@,
                        rv_before[m],
                        author@,
                    );
                }
            }
        }
        i += 1;
    }
    // rebase the children onto the end of the chain
    let ghost sv_chain = tx.repo@.store;
    proof {
        assert forall|m: int|
            0 <= m < nr implies (#[trigger] reverted@[m]) < sv_chain.commits.len() by {
            assert(revert_entry_ok(
                sv_chain,
                sv0,
                (#[trigger] tr0[m]).0,
                tr0[m].1@,
                (if m == 0 {
                    Option::<usize>::None
                } else {
                    Option::Some(reverted@[m - 1])
                }),
                new_parent_ids@,
                reverted@[m],
                author@,
            ));
        }
    }
    let dchildren = crate::repo::dedup_ids(new_child_ids);
    let ndc = dchildren.len();
    let mut instrs: Vec<Instruction> = Vec::new();
    let mut c: usize = 0;
    while c < ndc
        invariant
            ndc == dchildren@.len(),
            c <= ndc,
            tx.repo@.store == sv_chain,
            store_wf(sv_chain),
            n_commits <= sv_chain.commits.len(),
            1 <= nr,
            reverted@.len() == nr,
            forall|m: int| 0 <= m < nr ==> (#[trigger] reverted@[m]) < sv_chain.commits.len(),
            forall|m: int| 0 <= m < new_parent_ids@.len() ==> (#[trigger] new_parent_ids@[m]) < n_commits,
            forall|m: int| 0 <= m < ndc ==> 0 < (#[trigger] dchildren@[m]) < n_commits,
            forall|m1: int, m2: int|
                0 <= m1 < m2 < ndc ==> (#[trigger] dchildren@[m1]) != (#[trigger] dchildren@[m2]),
            sv0 == old(rs)@.store,
            n_commits == sv0.commits.len(),
            forall|q: int| 0 <= q < n_commits ==> sv_chain.commits[q] == sv0.commits[q],
            instrs@.len() == c,
            forall|m: int|
                0 <= m < c ==> (#[trigger] instrs@[m]).id == dchildren@[m] && (
                match instrs@[m].action {
                    RewriteAction::Rewrite(e) => (match e.new_parents {
                        Option::Some(ov) => (forall|x: int|
                            0 <= x < ov@.len() ==> (#[trigger] ov@[x]) < sv_chain.commits.len())
                            && ov@ == spliced_child_parents(
                            sv0.commits[dchildren@[m] as int].parents,
                            new_parent_ids@,
                            reverted@[nr - 1],
                        ),
                        Option::None => false,
                    }) && e.new_tree is None && e.rebase_tree,
                    RewriteAction::Abandon => false,
                }),
        decreases ndc - c,
    {
        let child = dchildren[c];
        let cc = crate::store::get_commit(&tx.repo.store, child);
        let head_id = reverted[reverted.len() - 1];
        // assemble the child's new parents in order without duplicates,
        // splicing the chain in place of the original location parents
        let mut acc = crate::extern_set::idxset_new();
        let ncp = cc.parents.len();
        let ghost smap = splice_map(cc.parents@, new_parent_ids@, head_id);
        let mut m: usize = 0;
        proof {
            assert(crate::extern_set::idxset_elems(acc) =~= dedup_first(smap.take(0), 0));
        }
        while m < ncp
            invariant
                ncp == cc.parents@.len(),
                m <= ncp,
                cc@ == sv_chain.commits[child as int],
                child < sv_chain.commits.len(),
                store_wf(sv_chain),
                head_id < sv_chain.commits.len(),
                smap == splice_map(cc.parents@, new_parent_ids@, head_id),
                crate::extern_set::idxset_elems(acc) == dedup_first(smap.take(m as int), 0),
                forall|x: int|
                    0 <= x < crate::extern_set::idxset_elems(acc).len() ==> (
                    #[trigger] crate::extern_set::idxset_elems(acc)[x]) < sv_chain.commits.len(),
            decreases ncp - m,
        {
            let p = cc.parents[m];
            proof {
                assert(cc.parents@[m as int] == sv_chain.commits[child as int].parents[m as int]);
                assert(sv_chain.commits[child as int].parents[m as int] < child);
                crate::repo::lemma_dedup_first_push(smap.take(m as int), smap[m as int], 0);
                crate::repo::lemma_dedup_contains(smap.take(m as int), smap[m as int]);
                assert(smap.take(m + 1 as int) =~= smap.take(m as int).push(smap[m as int]));
            }
            if crate::ids::ids_contains(new_parent_ids, p) {
                // the chain replaces the original location parents
                crate::extern_set::idxset_insert(&mut acc, head_id);
                proof {
                    assert(smap[m as int] == head_id);
                    assert(crate::extern_set::idxset_elems(acc) =~= dedup_first(
                        smap.take(m + 1 as int),
                        0,
                    ));
                }
            } else {
                crate::extern_set::idxset_insert(&mut acc, p);
                proof {
                    assert(smap[m as int] == p);
                    assert(crate::extern_set::idxset_elems(acc) =~= dedup_first(
                        smap.take(m + 1 as int),
                        0,
                    ));
                }
            }
            m += 1;
        }
        proof {
            assert(smap.take(ncp as int) =~= smap);
            crate::repo::lemma_dedup_first_push(smap, head_id, 0);
            crate::repo::lemma_dedup_contains(smap, head_id);
        }
        crate::extern_set::idxset_insert(&mut acc, head_id);
        proof {
            assert(crate::extern_set::idxset_elems(acc) =~= spliced_child_parents(
                cc.parents@,
                new_parent_ids@,
                head_id,
            ));
        }
        let na = crate::extern_set::idxset_len(&acc);
        let mut ov: Vec<usize> = Vec::new();
        let mut m2: usize = 0;
        while m2 < na
            invariant
                na == crate::extern_set::idxset_elems(acc).len(),
                m2 <= na,
                ov@.len() == m2,
                forall|x: int|
                    0 <= x < m2 ==> (#[trigger] ov@[x]) == crate::extern_set::idxset_elems(acc)[x],
                forall|x: int|
                    0 <= x < crate::extern_set::idxset_elems(acc).len() ==> (
                    #[trigger] crate::extern_set::idxset_elems(acc)[x]) < sv_chain.commits.len(),
                forall|x: int| 0 <= x < m2 ==> (#[trigger] ov@[x]) < sv_chain.commits.len(),
            decreases na - m2,
        {
            ov.push(crate::extern_set::idxset_get(&acc, m2));
            m2 += 1;
        }
        proof {
            assert(ov@ =~= crate::extern_set::idxset_elems(acc));
            assert(reverted@[nr - 1] == head_id);
            assert(cc.parents@ == sv0.commits[child as int].parents);
        }
        let edit_i = CommitEdit {
            new_description: Option::None,
            set_author_to_committer: false,
            new_author: Option::None,
            new_committer: Option::None,
            drop_signature: false,
            new_tree: Option::None,
            new_parents: Option::Some(ov),
            rebase_tree: true,
        };
        instrs.push(Instruction { id: child, action: RewriteAction::Rewrite(edit_i) });
        c += 1;
    }
    proof {
        assert(instrs_valid(
            instrs@,
            tx.repo@.store.commits.len() as int,
            tx.repo@.store.trees.len() as int,
        ));
    }
    let mapping = match transform_descendants(&mut tx.repo, &instrs, TransformOptions {
        rebase_descendants: true,
        delete_abandoned_bookmarks: false,
    }) {
        Result::Ok(m) => m,
        Result::Err(e) => {
            proof {
                assert(false);
            }
            return Result::Err(e);
        },
    };
    proof {
        // the walk ran on the store holding the chain; for pre-existing
        // commits its facts hold against the entry store too
        let opts = TransformOptions {
            rebase_descendants: true,
            delete_abandoned_bookmarks: false,
        };
        let rvs = tx.repo@.store;
        assert forall|j: int|
            0 <= j < sv0.commits.len() implies crate::rewrite::mapping_entry_ok(
            sv0,
            rvs,
            instrs@,
            opts,
            mapping@,
            j,
        ) by {
            assert(crate::rewrite::mapping_entry_ok(sv_chain, rvs, instrs@, opts, mapping@, j));
            crate::graph::lemma_descends_stable(sv0, sv_chain, j as usize, instr_ids(instrs@));
            assert(sv0.commits[j] == sv_chain.commits[j]);
        }
        // the chain's facts survive the children rebase
        let sv_fin = tx.repo@.store;
        assert forall|m: int|
            0 <= m < nr implies revert_entry_ok(
            sv_fin,
            sv0,
            (#[trigger] tr0[m]).0,
            tr0[m].1@,
            (if m == 0 {
                Option::<usize>::None
            } else {
                Option::Some(reverted@[m - 1])
            }),
            new_parent_ids@,
            reverted@[m],
            author@,
        ) by {
            lemma_revert_entry_stable(
                sv_chain,
                sv_fin,
                sv0,
                tr0[m].0,
                tr0[m].1@,
                (if m == 0 {
                    Option::<usize>::None
                } else {
                    Option::Some(reverted@[m - 1])
                }),
                new_parent_ids@,
                reverted@[m],
                author@,
            );
        }
    }
    match finish_transaction(rs, tx, description) {
        Result::Ok(_) => Result::Ok(RevertStats { reverted, instrs, mapping }),
        Result::Err(e) => {
            proof {
                assert(false);
            }
            Result::Err(e)
        },
    }
}

/// What the source stands for after the destinations pass: its single
/// replacement when it was rewritten, else itself.
pub open spec fn absorb_source_new(
    instrs: Seq<Instruction>,
    mapping: Seq<Option<Vec<usize>>>,
    source: usize,
) -> usize {
    if source < mapping.len() && mapping[source as int] is Some && !crate::rewrite::is_abandoned(
        instrs,
        source,
    ) && mapping[source as int].unwrap()@.len() == 1 {
        mapping[source as int].unwrap()@[0]
    } else {
        source
    }
}

/// The rebased source became empty: it is a real commit with no description
/// whose tree equals its merged parent view, so it carries no change of its
/// own any more.
pub open spec fn absorb_source_emptied(
    sv: crate::store::StoreV,
    instrs: Seq<Instruction>,
    mapping: Seq<Option<Vec<usize>>>,
    source: usize,
) -> bool {
    let nid = absorb_source_new(instrs, mapping, source);
    &&& nid != 0
    &&& nid < sv.commits.len()
    &&& sv.commits[nid as int].description == Seq::<u8>::empty()
    &&& forall|p: usize|
        crate::tree::tv_get(sv.trees[sv.commits[nid as int].tree as int], p)
            == crate::rewrite::merged_parents_get(sv, sv.commits[nid as int].parents, p)
}

/// What `cmd_absorb` reports: the rewrite mapping of the destinations pass,
/// and the rebased source's abandonment, if it became empty.
#[derive(Debug)]
pub struct AbsorbStats {
    pub instrs: Vec<Instruction>,
    pub mapping: Vec<Option<Vec<usize>>>,
    pub abandoned_source: Option<usize>,
    pub second_mapping: Option<Vec<Option<Vec<usize>>>>,
}

/// Rewrite each destination commit with its selected tree (the tree that
/// absorbs the source's hunks into it), rebasing descendants — the source
/// among them. When the rebased source carries no change of its own any more
/// and its description is empty, abandon it.
pub fn cmd_absorb(
    rs: &mut RepoState,
    source: usize,
    selections: &Vec<(usize, usize)>,
    description: Vec<u8>,
) -> (res: Result<AbsorbStats, EngineError>)
    requires
        state_wf(old(rs)@),
        forall|k1: int, k2: int|
            0 <= k1 < k2 < selections@.len() ==> (#[trigger] selections@[k1].0) != (
            #[trigger] selections@[k2].0),
    ensures
        match res {
            Result::Ok(st) => {
                let opts = TransformOptions {
                    rebase_descendants: true,
                    delete_abandoned_bookmarks: false,
                };
                &&& state_wf(final(rs)@)
                &&& final(rs)@.ops.len() == old(rs)@.ops.len() + 1
                &&& final(rs)@.head == old(rs)@.ops.len()
                // one rewrite instruction per selection, carrying its tree
                &&& st.instrs@.len() == selections@.len()
                &&& forall|k: int|
                    0 <= k < selections@.len() ==> (#[trigger] st.instrs@[k]).id
                        == selections@[k].0 && (match st.instrs@[k].action {
                        RewriteAction::Rewrite(e) => e.new_tree == Option::Some(
                            selections@[k].1,
                        ) && e.new_parents is None && e.new_description is None
                            && e.drop_signature == false && e.rebase_tree == false,
                        RewriteAction::Abandon => false,
                    })
                // the destinations pass ties the mapping to the final store
                &&& crate::repo::transform_store_post(
                    old(rs)@.store,
                    final(rs)@.store,
                    st.instrs@,
                    opts,
                    st.mapping@,
                )
                // the source is abandoned exactly when its rebased form became
                // empty: no description and a tree equal to its merged parent
                // view
                &&& (st.abandoned_source is Some <==> st.second_mapping is Some)
                &&& (st.abandoned_source is Some <==> absorb_source_emptied(
                    final(rs)@.store,
                    st.instrs@,
                    st.mapping@,
                    source,
                ))
                &&& (match st.abandoned_source {
                    Option::Some(nid) => {
                        &&& nid == absorb_source_new(st.instrs@, st.mapping@, source)
                        &&& (match st.second_mapping {
                            Option::Some(m2) => nid < m2@.len() && m2@[nid as int] is Some,
                            Option::None => false,
                        })
                    },
                    Option::None => true,
                })
            },
            Result::Err(e) => final(rs)@ == old(rs)@ && (match e {
                EngineError::Backend(BackendError::MissingCommit { id }) => id >= old(
                    rs,
                )@.store.commits.len() && (id == source || exists|k: int|
                    0 <= k < selections@.len() && (#[trigger] selections@[k]).0 == id),
                EngineError::Backend(BackendError::MissingTree { id }) => id >= old(
                    rs,
                )@.store.trees.len() && (exists|k: int|
                    0 <= k < selections@.len() && (#[trigger] selections@[k]).1 == id),
                EngineError::ImmutableCommit { id } => id == 0 && (source == 0 || exists|k: int|
                    0 <= k < selections@.len() && (#[trigger] selections@[k]).0 == 0),
                _ => false,
            }),
        },
{
    let n_commits = rs.store.commits.len();
    let n_trees = rs.store.trees.len();
    if source >= n_commits {
        return Result::Err(EngineError::Backend(BackendError::MissingCommit { id: source }));
    }
    if source == 0 {
        return Result::Err(EngineError::ImmutableCommit { id: 0 });
    }
    let ns = selections.len();
    let mut k: usize = 0;
    while k < ns
        invariant
            ns == selections@.len(),
            k <= ns,
            rs@ == old(rs)@,
            n_commits == rs@.store.commits.len(),
            n_trees == rs@.store.trees.len(),
            forall|m: int|
                0 <= m < k ==> 0 < (#[trigger] selections@[m].0) < n_commits && selections@[m].1
                    < n_trees,
        decreases ns - k,
    {
        if selections[k].0 >= n_commits {
            proof {
                assert(selections@[k as int].0 >= n_commits);
            }
            return Result::Err(
                EngineError::Backend(BackendError::MissingCommit { id: selections[k].0 }),
            );
        }
        if selections[k].0 == 0 {
            proof {
                assert(selections@[k as int].0 == 0);
            }
            return Result::Err(EngineError::ImmutableCommit { id: 0 });
        }
        if selections[k].1 >= n_trees {
            proof {
                assert(selections@[k as int].1 >= n_trees);
            }
            return Result::Err(
                EngineError::Backend(BackendError::MissingTree { id: selections[k].1 }),
            );
        }
        k += 1;
    }
    let mut tx = start_transaction(rs);
    let mut instrs: Vec<Instruction> = Vec::new();
    let mut i: usize = 0;
    while i < ns
        invariant
            ns == selections@.len(),
            i <= ns,
            rs@ == old(rs)@,
            state_wf(rs@),
            tx.base_op == old(rs)@.head,
            repo_wf(tx.repo@),
            tx.repo@.store == old(rs)@.store,
            tx.repo@.view == old(rs)@.ops[old(rs)@.head as int].view,
            n_commits == rs@.store.commits.len(),
            n_trees == rs@.store.trees.len(),
            forall|m: int|
                0 <= m < ns ==> 0 < (#[trigger] selections@[m].0) < n_commits && selections@[m].1
                    < n_trees,
            forall|m1: int, m2: int|
                0 <= m1 < m2 < ns ==> (#[trigger] selections@[m1].0) != (
                #[trigger] selections@[m2].0),
            instrs@.len() == i,
            forall|m: int|
                0 <= m < i ==> (#[trigger] instrs@[m]).id == selections@[m].0 && (
                match instrs@[m].action {
                    RewriteAction::Rewrite(e) => e.new_tree == Option::Some(selections@[m].1)
                        && e.new_parents is None && e.new_description is None
                        && e.drop_signature == false && e.rebase_tree == false,
                    RewriteAction::Abandon => false,
                }),
        decreases ns - i,
    {
        let edit = CommitEdit {
            new_description: Option::None,
            set_author_to_committer: false,
            new_author: Option::None,
            new_committer: Option::None,
            drop_signature: false,
            new_tree: Option::Some(selections[i].1),
            new_parents: Option::None,
            rebase_tree: false,
        };
        instrs.push(Instruction { id: selections[i].0, action: RewriteAction::Rewrite(edit) });
        i += 1;
    }
    let mapping = match transform_descendants(&mut tx.repo, &instrs, TransformOptions {
        rebase_descendants: true,
        delete_abandoned_bookmarks: false,
    }) {
        Result::Ok(m) => m,
        Result::Err(e) => {
            proof {
                assert(false);
            }
            return Result::Err(e);
        },
    };
    let ghost sv_first = tx.repo@.store;
    // when the rebased source carries no change any more and has no
    // description, abandon it
    let mut abandoned_source: Option<usize> = Option::None;
    let mut second_mapping: Option<Vec<Option<Vec<usize>>>> = Option::None;
    let mut source_new: usize = source;
    if source < mapping.len() {
        match &mapping[source] {
            Option::Some(l) => {
                if !crate::repo::instr_abandons(&instrs, source) {
                    if l.len() == 1 {
                        source_new = l[0];
                    }
                }
            },
            Option::None => {},
        }
    }
    proof {
        assert(source_new == absorb_source_new(instrs@, mapping@, source));
    }
    if source_new != 0 && source_new < tx.repo.store.commits.len() {
        let sc = crate::store::get_commit(&tx.repo.store, source_new);
        if sc.description.len() != 0 {
            proof {
                assert(sc@.description != Seq::<u8>::empty());
                assert(!absorb_source_emptied(tx.repo@.store, instrs@, mapping@, source));
            }
        }
        if sc.description.len() == 0 {
            proof {
                assert forall|m: int|
                    0 <= m < sc.parents@.len() implies (#[trigger] sc.parents@[m])
                    < tx.repo@.store.commits.len() by {
                    assert(sc.parents@[m] == tx.repo@.store.commits[source_new as int].parents[m]);
                    assert(tx.repo@.store.commits[source_new as int].parents[m]
                        < source_new as int);
                }
            }
            let merged = crate::rewrite::merge_parent_trees(&tx.repo.store, &sc.parents);
            proof {
                assert(sc@.tree == tx.repo@.store.commits[source_new as int].tree);
                assert(tx.repo@.store.commits[source_new as int].tree
                    < tx.repo@.store.trees.len());
            }
            let own = crate::store::get_tree(&tx.repo.store, sc.tree);
            let trees_match = crate::tree::tree_eq(&own, &merged);
            if !trees_match {
                proof {
                    // were the rebased source's tree pointwise equal to its
                    // merged parent view, the two normalized trees would be
                    // identical
                    let svc = tx.repo@.store;
                    if absorb_source_emptied(svc, instrs@, mapping@, source) {
                        assert(crate::tree::tree_wf(own@));
                        assert forall|p: usize| #[trigger] crate::tree::tv_get(own@, p)
                            == crate::tree::tv_get(merged@, p) by {
                            assert(crate::tree::tv_get(
                                svc.trees[svc.commits[source_new as int].tree as int],
                                p,
                            ) == crate::rewrite::merged_parents_get(
                                svc,
                                svc.commits[source_new as int].parents,
                                p,
                            ));
                        }
                        crate::tree::lemma_tree_determined(own@, merged@);
                        assert(false);
                    }
                }
            }
            if trees_match {
                let ghost sv_check = tx.repo@.store;
                proof {
                    assert(forall|p: usize|
                        crate::tree::tv_get(
                            sv_check.trees[sv_check.commits[source_new as int].tree as int],
                            p,
                        ) == crate::rewrite::merged_parents_get(
                            sv_check,
                            sv_check.commits[source_new as int].parents,
                            p,
                        ));
                }
                let mut ab_instrs: Vec<Instruction> = Vec::new();
                ab_instrs.push(Instruction { id: source_new, action: RewriteAction::Abandon });
                match transform_descendants(&mut tx.repo, &ab_instrs, TransformOptions {
                    rebase_descendants: true,
                    delete_abandoned_bookmarks: false,
                }) {
                    Result::Ok(m2) => {
                        proof {
                            // the abandoned source has a mapping entry
                            assert(instr_ids(ab_instrs@)[0] == source_new);
                            assert(instr_ids(ab_instrs@).contains(source_new));
                            assert(crate::graph::descends(
                                sv_check,
                                source_new,
                                instr_ids(ab_instrs@),
                            ));
                            assert(m2@.len() == sv_check.commits.len());
                            assert(sc@.description =~= Seq::<u8>::empty());
                            assert(crate::rewrite::mapping_entry_ok(
                                sv_check,
                                tx.repo@.store,
                                ab_instrs@,
                                TransformOptions {
                                    rebase_descendants: true,
                                    delete_abandoned_bookmarks: false,
                                },
                                m2@,
                                source_new as int,
                            ));
                            assert(m2@[source_new as int] is Some);
                            // its emptiness survives the second pass's writes
                            let svn = tx.repo@.store;
                            assert(svn.commits[source_new as int] == sv_check.commits[
                                source_new as int
                            ]);
                            assert forall|p: usize|
                                crate::tree::tv_get(
                                    svn.trees[svn.commits[source_new as int].tree as int],
                                    p,
                                ) == crate::rewrite::merged_parents_get(
                                    svn,
                                    svn.commits[source_new as int].parents,
                                    p,
                                ) by {
                                crate::rewrite::lemma_merged_parents_get_stable(
                                    sv_check,
                                    svn,
                                    svn.commits[source_new as int].parents,
                                    p,
                                );
                            }
                        }
                        abandoned_source = Option::Some(source_new);
                        second_mapping = Option::Some(m2);
                    },
                    Result::Err(_) => {
                        proof {
                            assert(false);
                        }
                    },
                }
            }
        }
    } else {
        proof {
            // the source's replacement always exists, so only the root case
            // reaches here, and the root is never an emptied source
            assert(source_new < tx.repo@.store.commits.len());
            assert(source_new == 0);
            assert(!absorb_source_emptied(tx.repo@.store, instrs@, mapping@, source));
        }
    }
    proof {
        // the destinations pass's facts carried to the final store
        let opts = TransformOptions {
            rebase_descendants: true,
            delete_abandoned_bookmarks: false,
        };
        crate::rewrite::lemma_mapping_facts_extend(
            old(rs)@.store,
            sv_first,
            tx.repo@.store,
            instrs@,
            opts,
            mapping@,
        );
    }
    match finish_transaction(rs, tx, description) {
        Result::Ok(_) => Result::Ok(
            AbsorbStats { instrs, mapping, abandoned_source, second_mapping },
        ),
        Result::Err(e) => {
            proof {
                assert(false);
            }
            Result::Err(e)
        },
    }
}

/// An unsign instruction list asks for no parent overrides and no trees, so
/// the only errors a transform of it can raise concern the target ids.
proof fn lemma_unsign_err(instrs: Seq<Instruction>, sv: crate::store::StoreV, e: EngineError)
    requires
        forall|m: int|
            0 <= m < instrs.len() ==> (#[trigger] instrs[m]).action == RewriteAction::Rewrite(
                unsign_edit(),
            ),
        match e {
            EngineError::Backend(BackendError::MissingCommit { id }) => instr_ids(instrs).contains(
                id,
            ) || exists|k2: int|
                0 <= k2 < instrs.len() && (match #[trigger] instrs[k2].action {
                    RewriteAction::Rewrite(e2) => match e2.new_parents {
                        Option::Some(ov2) => ov2@.contains(id),
                        Option::None => false,
                    },
                    RewriteAction::Abandon => false,
                }),
            EngineError::Backend(BackendError::MissingTree { id }) => exists|k2: int|
                0 <= k2 < instrs.len() && (match #[trigger] instrs[k2].action {
                    RewriteAction::Rewrite(e2) => match e2.new_tree {
                        Option::Some(t2) => t2 == id,
                        Option::None => false,
                    },
                    RewriteAction::Abandon => false,
                }),
            _ => true,
        },
    ensures
        match e {
            EngineError::Backend(BackendError::MissingCommit { id }) => instr_ids(instrs).contains(
                id,
            ),
            EngineError::Backend(BackendError::MissingTree { id }) => false,
            _ => true,
        },
{
    match e {
        EngineError::Backend(BackendError::MissingCommit { id }) => {
            if !instr_ids(instrs).contains(id) {
                let k2 = choose|k2: int|
                    0 <= k2 < instrs.len() && (match #[trigger] instrs[k2].action {
                        RewriteAction::Rewrite(e2) => match e2.new_parents {
                            Option::Some(ov2) => ov2@.contains(id),
                            Option::None => false,
                        },
                        RewriteAction::Abandon => false,
                    });
                assert(instrs[k2].action == RewriteAction::Rewrite(unsign_edit()));
            }
        },
        EngineError::Backend(BackendError::MissingTree { id }) => {
            let k2 = choose|k2: int|
                0 <= k2 < instrs.len() && (match #[trigger] instrs[k2].action {
                    RewriteAction::Rewrite(e2) => match e2.new_tree {
                        Option::Some(t2) => t2 == id,
                        Option::None => false,
                    },
                    RewriteAction::Abandon => false,
                });
            assert(instrs[k2].action == RewriteAction::Rewrite(unsign_edit()));
        },
        _ => {},
    }
}

} // verus!
