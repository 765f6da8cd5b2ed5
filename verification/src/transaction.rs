//! Transactions and the operation log.
//!
//! A transaction owns a mutable copy of the store and the current view. It is
//! not durable: finishing it installs the whole overlay and appends exactly
//! one operation, atomically; discarding it leaves no trace. A finish whose
//! base operation is no longer the head fails with a concurrent-modification
//! error and changes nothing, implementing optimistic concurrency.

use vstd::prelude::*;

use crate::errors::EngineError;
use crate::ids::clone_ids;
use crate::merge::clone_bytes;
use crate::repo::repo_wf;
use crate::repo::MutRepo;
use crate::store::new_store;
use crate::store::store_wf;
use crate::store::Store;
use crate::store::StoreV;
use crate::view::new_view;
use crate::view::view_ids_valid;
use crate::view::view_wf;
use crate::view::RepoView;
use crate::view::RepoViewV;

verus! {

/// One atomic, recorded transition of the view: the parent operation, the
/// description, and the view snapshot it produced.
pub struct Operation {
    pub parent: usize,
    pub description: Vec<u8>,
    pub view: RepoView,
}

#[verifier::ext_equal]
pub struct OperationV {
    pub parent: usize,
    pub description: Seq<u8>,
    pub view: RepoViewV,
}

impl View for Operation {
    type V = OperationV;

    open spec fn view(&self) -> OperationV {
        OperationV { parent: self.parent, description: self.description@, view: self.view@ }
    }
}

/// The durable repository: the store and the append-only operation log with
/// its single head pointer.
pub struct RepoState {
    pub store: Store,
    pub ops: Vec<Operation>,
    pub head: usize,
}

#[verifier::ext_equal]
pub struct RepoStateV {
    pub store: StoreV,
    pub ops: Seq<OperationV>,
    pub head: usize,
}

impl View for RepoState {
    type V = RepoStateV;

    open spec fn view(&self) -> RepoStateV {
        RepoStateV {
            store: self.store@,
            ops: Seq::new(self.ops@.len(), |i: int| self.ops@[i]@),
            head: self.head,
        }
    }
}

pub open spec fn state_wf(sv: RepoStateV) -> bool {
    &&& store_wf(sv.store)
    &&& sv.ops.len() >= 1
    &&& sv.head < sv.ops.len()
    &&& forall|i: int| 0 <= i < sv.ops.len() ==> view_wf((#[trigger] sv.ops[i]).view)
    &&& forall|i: int|
        0 <= i < sv.ops.len() ==> view_ids_valid(
            (#[trigger] sv.ops[i]).view,
            sv.store.commits.len() as int,
        )
    &&& forall|i: int| 0 <= i < sv.ops.len() ==> (#[trigger] sv.ops[i]).parent <= i
}

/// A fresh repository: the root commit and one initial operation with an
/// empty view.
pub fn new_repo_state() -> (rs: RepoState)
    ensures
        state_wf(rs@),
        rs@.ops.len() == 1,
        rs@.head == 0,
        rs@.store.commits.len() == 1,
        rs@.ops[0].view.bookmarks.len() == 0,
        rs@.ops[0].view.workspaces.len() == 0,
{
    let store = new_store();
    let mut ops: Vec<Operation> = Vec::new();
    ops.push(Operation { parent: 0, description: Vec::new(), view: new_view() });
    RepoState { store, ops, head: 0 }
}

pub fn clone_view(v: &RepoView) -> (r: RepoView)
    ensures
        r@ == v@,
{
    let mut bookmarks: Vec<crate::view::Bookmark> = Vec::new();
    let nb = v.bookmarks.len();
    let mut i: usize = 0;
    while i < nb
        invariant
            nb == v.bookmarks.len(),
            i <= nb,
            bookmarks@.len() == i,
            forall|k: int| 0 <= k < i ==> (#[trigger] bookmarks@[k]@) == v@.bookmarks[k],
        decreases nb - i,
    {
        bookmarks.push(
            crate::view::Bookmark {
                name: clone_bytes(&v.bookmarks[i].name),
                targets: clone_ids(&v.bookmarks[i].targets),
            },
        );
        proof {
            assert(bookmarks@[i as int]@ =~= v@.bookmarks[i as int]);
        }
        i += 1;
    }
    let mut workspaces: Vec<crate::view::Workspace> = Vec::new();
    let nw = v.workspaces.len();
    let mut j: usize = 0;
    while j < nw
        invariant
            nw == v.workspaces.len(),
            j <= nw,
            workspaces@.len() == j,
            forall|k: int| 0 <= k < j ==> (#[trigger] workspaces@[k]@) == v@.workspaces[k],
        decreases nw - j,
    {
        workspaces.push(
            crate::view::Workspace {
                name: clone_bytes(&v.workspaces[j].name),
                wc: v.workspaces[j].wc,
            },
        );
        proof {
            assert(workspaces@[j as int]@ =~= v@.workspaces[j as int]);
        }
        j += 1;
    }
    let mut remotes: Vec<Vec<u8>> = Vec::new();
    let nt = v.tracked_remotes.len();
    let mut k: usize = 0;
    while k < nt
        invariant
            nt == v.tracked_remotes.len(),
            k <= nt,
            remotes@.len() == k,
            forall|m: int| 0 <= m < k ==> (#[trigger] remotes@[m]@) == v@.tracked_remotes[m],
        decreases nt - k,
    {
        remotes.push(clone_bytes(&v.tracked_remotes[k]));
        k += 1;
    }
    let r = RepoView { bookmarks, workspaces, tracked_remotes: remotes };
    proof {
        assert(r@.bookmarks =~= v@.bookmarks);
        assert(r@.workspaces =~= v@.workspaces);
        assert(r@.tracked_remotes =~= v@.tracked_remotes);
        assert(r@ =~= v@);
    }
    r
}

pub fn clone_store(s: &Store) -> (r: Store)
    ensures
        r@ == s@,
{
    let mut commits: Vec<crate::store::CommitData> = Vec::new();
    let nc = s.commits.len();
    let mut i: usize = 0;
    while i < nc
        invariant
            nc == s.commits.len(),
            i <= nc,
            commits@.len() == i,
            forall|k: int| 0 <= k < i ==> (#[trigger] commits@[k]@) == s@.commits[k],
        decreases nc - i,
    {
        commits.push(crate::store::clone_commit(&s.commits[i]));
        i += 1;
    }
    let mut trees: Vec<crate::tree::Tree> = Vec::new();
    let nt = s.trees.len();
    let mut j: usize = 0;
    while j < nt
        invariant
            nt == s.trees.len(),
            j <= nt,
            trees@.len() == j,
            forall|k: int| 0 <= k < j ==> (#[trigger] trees@[k]@) == s@.trees[k],
        decreases nt - j,
    {
        trees.push(crate::tree::clone_tree(&s.trees[j]));
        j += 1;
    }
    let r = Store { commits, trees };
    proof {
        assert(r@.commits =~= s@.commits);
        assert(r@.trees =~= s@.trees);
        assert(r@ =~= s@);
    }
    r
}

/// A mutable working overlay over one base operation: not durable until
/// finished, safely discarded before that.
pub struct Transaction {
    pub base_op: usize,
    pub repo: MutRepo,
}

/// Open a transaction over the current head: a private copy of the store and
/// the head operation's view.
pub fn start_transaction(rs: &RepoState) -> (tx: Transaction)
    requires
        state_wf(rs@),
    ensures
        tx.base_op == rs@.head,
        tx.repo@.store == rs@.store,
        tx.repo@.view == rs@.ops[rs@.head as int].view,
        repo_wf(tx.repo@),
{
    let store = clone_store(&rs.store);
    let view = clone_view(&rs.ops[rs.head].view);
    proof {
        assert(view_wf(rs@.ops[rs@.head as int].view));
        assert(view_ids_valid(rs@.ops[rs@.head as int].view, rs@.store.commits.len() as int));
        assert(view@ == rs@.ops[rs@.head as int].view);
    }
    Transaction { base_op: rs.head, repo: MutRepo { store, view } }
}

/// Atomically install a finished transaction as one new operation, or fail
/// with a concurrent-modification error — exactly when the head moved since
/// the transaction began — without any visible effect.
pub fn finish_transaction(rs: &mut RepoState, tx: Transaction, description: Vec<u8>) -> (res:
    Result<usize, EngineError>)
    requires
        state_wf(old(rs)@),
        repo_wf(tx.repo@),
        tx.repo@.store.commits.len() >= old(rs)@.store.commits.len(),
        forall|i: int|
            0 <= i < old(rs)@.store.commits.len() ==> tx.repo@.store.commits[i] == old(
                rs,
            )@.store.commits[i],
    ensures
        match res {
            Result::Ok(opid) => {
                &&& tx.base_op == old(rs)@.head
                &&& state_wf(final(rs)@)
                &&& final(rs)@.store == tx.repo@.store
                &&& final(rs)@.ops == old(rs)@.ops.push(
                    OperationV {
                        parent: old(rs)@.head,
                        description: description@,
                        view: tx.repo@.view,
                    },
                )
                &&& final(rs)@.head == opid == old(rs)@.ops.len()
            },
            Result::Err(e) => {
                &&& e is ConcurrentModification
                &&& tx.base_op != old(rs)@.head
                &&& final(rs)@ == old(rs)@
            },
        },
{
    if tx.base_op != rs.head {
        return Result::Err(EngineError::ConcurrentModification);
    }
    let ghost ops0 = rs@.ops;
    let ghost txv = tx.repo@;
    let opid = rs.ops.len();
    let parent = rs.head;
    let Transaction { base_op, repo } = tx;
    let MutRepo { store, view } = repo;
    rs.store = store;
    rs.ops.push(Operation { parent, description, view });
    rs.head = opid;
    proof {
        assert(rs@.ops =~= ops0.push(
            OperationV { parent: old(rs)@.head, description: description@, view: txv.view },
        ));
        assert(rs@.store == txv.store);
        assert(state_wf(rs@)) by {
            assert forall|i: int| 0 <= i < rs@.ops.len() implies view_wf((#[trigger] rs@.ops[i]).view)
                && view_ids_valid(rs@.ops[i].view, rs@.store.commits.len() as int)
                && rs@.ops[i].parent <= i by {
                if i < ops0.len() {
                    assert(rs@.ops[i] == ops0[i]);
                    assert(view_ids_valid(ops0[i].view, old(rs)@.store.commits.len() as int));
                    assert forall|b: int, t: int|
                        0 <= b < rs@.ops[i].view.bookmarks.len() && 0 <= t
                        < rs@.ops[i].view.bookmarks[b].targets.len() implies (
                    #[trigger] rs@.ops[i].view.bookmarks[b].targets[t])
                        < rs@.store.commits.len() by {
                        assert(ops0[i].view.bookmarks[b].targets[t] < old(
                            rs,
                        )@.store.commits.len());
                    }
                    assert forall|w: int|
                        0 <= w < rs@.ops[i].view.workspaces.len() implies (
                    #[trigger] rs@.ops[i].view.workspaces[w]).wc < rs@.store.commits.len() by {
                        assert(ops0[i].view.workspaces[w].wc < old(rs)@.store.commits.len());
                    }
                }
            }
        }
    }
    Result::Ok(opid)
}

} // verus!