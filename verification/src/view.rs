//! The view: every named pointer of the repository at one point in history.
//!
//! Bookmarks map names to commit targets (one id normally, several when the
//! ref itself is conflicted); workspaces map names to their working-copy
//! commit. Names with tracked remote counterparts are listed so that creating
//! and resurrecting a bookmark can be told apart.

use vstd::prelude::*;

use crate::bytes::bytes_eq;
use crate::graph::reachable;
use crate::ids::clone_ids;
use crate::merge::clone_bytes;
use crate::store::store_wf;
use crate::store::Store;
use crate::store::StoreV;

verus! {

/// A named, user-movable pointer to one or more commits.
pub struct Bookmark {
    pub name: Vec<u8>,
    pub targets: Vec<usize>,
}

#[verifier::ext_equal]
pub struct BookmarkV {
    pub name: Seq<u8>,
    pub targets: Seq<usize>,
}

impl View for Bookmark {
    type V = BookmarkV;

    open spec fn view(&self) -> BookmarkV {
        BookmarkV { name: self.name@, targets: self.targets@ }
    }
}

/// A workspace and its current working-copy commit.
pub struct Workspace {
    pub name: Vec<u8>,
    pub wc: usize,
}

#[verifier::ext_equal]
pub struct WorkspaceV {
    pub name: Seq<u8>,
    pub wc: usize,
}

impl View for Workspace {
    type V = WorkspaceV;

    open spec fn view(&self) -> WorkspaceV {
        WorkspaceV { name: self.name@, wc: self.wc }
    }
}

/// The mutable pointer set of the repository.
pub struct RepoView {
    pub bookmarks: Vec<Bookmark>,
    pub workspaces: Vec<Workspace>,
    pub tracked_remotes: Vec<Vec<u8>>,
}

#[verifier::ext_equal]
pub struct RepoViewV {
    pub bookmarks: Seq<BookmarkV>,
    pub workspaces: Seq<WorkspaceV>,
    pub tracked_remotes: Seq<Seq<u8>>,
}

impl View for RepoView {
    type V = RepoViewV;

    open spec fn view(&self) -> RepoViewV {
        RepoViewV {
            bookmarks: Seq::new(self.bookmarks@.len(), |i: int| self.bookmarks@[i]@),
            workspaces: Seq::new(self.workspaces@.len(), |i: int| self.workspaces@[i]@),
            tracked_remotes: Seq::new(self.tracked_remotes@.len(), |i: int| self.tracked_remotes@[i]@),
        }
    }
}

/// Unique names, and every bookmark pointing somewhere, without repeating a
/// target.
pub open spec fn view_wf(vv: RepoViewV) -> bool {
    &&& forall|i: int, j: int|
        0 <= i < j < vv.bookmarks.len() ==> (#[trigger] vv.bookmarks[i].name) != (
        #[trigger] vv.bookmarks[j].name)
    &&& forall|i: int, j: int|
        0 <= i < j < vv.workspaces.len() ==> (#[trigger] vv.workspaces[i].name) != (
        #[trigger] vv.workspaces[j].name)
    &&& forall|i: int| 0 <= i < vv.bookmarks.len() ==> (#[trigger] vv.bookmarks[i].targets).len() > 0
    &&& forall|i: int|
        0 <= i < vv.bookmarks.len() ==> (#[trigger] vv.bookmarks[i].targets).no_duplicates()
}

/// Every referenced commit id exists in a store of `n` commits.
pub open spec fn view_ids_valid(vv: RepoViewV, n: int) -> bool {
    &&& forall|i: int, k: int|
        0 <= i < vv.bookmarks.len() && 0 <= k < vv.bookmarks[i].targets.len() ==> (
        #[trigger] vv.bookmarks[i].targets[k]) < n
    &&& forall|i: int| 0 <= i < vv.workspaces.len() ==> (#[trigger] vv.workspaces[i].wc) < n
}

/// An empty view.
pub fn new_view() -> (v: RepoView)
    ensures
        v@.bookmarks.len() == 0,
        v@.workspaces.len() == 0,
        v@.tracked_remotes.len() == 0,
        view_wf(v@),
{
    RepoView { bookmarks: Vec::new(), workspaces: Vec::new(), tracked_remotes: Vec::new() }
}

/// Index of the bookmark with this name, or `-1`.
pub open spec fn bm_find(bs: Seq<BookmarkV>, name: Seq<u8>, i: int) -> int
    decreases bs.len() - i
        when 0 <= i <= bs.len()
{
    if i >= bs.len() {
        -1
    } else if bs[i].name == name {
        i
    } else {
        bm_find(bs, name, i + 1)
    }
}

pub proof fn lemma_bm_find_spec(bs: Seq<BookmarkV>, name: Seq<u8>, i: int)
    requires
        0 <= i <= bs.len(),
    ensures
        bm_find(bs, name, i) == -1 ==> forall|k: int| i <= k < bs.len() ==> bs[k].name != name,
        bm_find(bs, name, i) != -1 ==> i <= bm_find(bs, name, i) < bs.len() && bs[bm_find(
            bs,
            name,
            i,
        )].name == name,
    decreases bs.len() - i,
{
    if i < bs.len() && bs[i].name != name {
        lemma_bm_find_spec(bs, name, i + 1);
    }
}

/// The local target of a named bookmark, absent when the name is unknown.
pub fn get_local_bookmark(v: &RepoView, name: &Vec<u8>) -> (r: Option<Vec<usize>>)
    ensures
        match r {
            Option::Some(ts) => bm_find(v@.bookmarks, name@, 0) >= 0 && ts@ == v@.bookmarks[bm_find(
                v@.bookmarks,
                name@,
                0,
            )].targets,
            Option::None => bm_find(v@.bookmarks, name@, 0) == -1,
        },
{
    let ghost bs = v@.bookmarks;
    let n = v.bookmarks.len();
    let mut i: usize = 0;
    while i < n
        invariant
            n == v.bookmarks.len(),
            i <= n,
            bs == v@.bookmarks,
            bm_find(bs, name@, 0) == bm_find(bs, name@, i as int),
        decreases n - i,
    {
        if bytes_eq(&v.bookmarks[i].name, name) {
            assert(bm_find(bs, name@, i as int) == i);
            return Option::Some(clone_ids(&v.bookmarks[i].targets));
        }
        assert(bm_find(bs, name@, i as int) == bm_find(bs, name@, i + 1 as int));
        i += 1;
    }
    assert(bm_find(bs, name@, n as int) == -1);
    Option::None
}

/// Point the named bookmark at the given targets, creating it if absent.
pub fn set_local_bookmark(v: &mut RepoView, name: &Vec<u8>, targets: Vec<usize>)
    requires
        view_wf(old(v)@),
        targets@.len() > 0,
        targets@.no_duplicates(),
    ensures
        view_wf(final(v)@),
        final(v)@.workspaces == old(v)@.workspaces,
        final(v)@.tracked_remotes == old(v)@.tracked_remotes,
        bm_find(old(v)@.bookmarks, name@, 0) >= 0 ==> final(v)@.bookmarks == old(
            v,
        )@.bookmarks.update(
            bm_find(old(v)@.bookmarks, name@, 0),
            BookmarkV { name: name@, targets: targets@ },
        ),
        bm_find(old(v)@.bookmarks, name@, 0) == -1 ==> final(v)@.bookmarks == old(
            v,
        )@.bookmarks.push(BookmarkV { name: name@, targets: targets@ }),
{
    let ghost bs = v@.bookmarks;
    let n = v.bookmarks.len();
    let mut i: usize = 0;
    while i < n
        invariant
            n == v.bookmarks.len(),
            i <= n,
            bs == v@.bookmarks,
            v@ == old(v)@,
            view_wf(old(v)@),
            targets@.len() > 0,
            targets@.no_duplicates(),
            bm_find(bs, name@, 0) == bm_find(bs, name@, i as int),
        decreases n - i,
    {
        if bytes_eq(&v.bookmarks[i].name, name) {
            assert(bm_find(bs, name@, i as int) == i);
            let nm = clone_bytes(name);
            v.bookmarks.set(i, Bookmark { name: nm, targets });
            proof {
                assert(v@.bookmarks =~= bs.update(
                    i as int,
                    BookmarkV { name: name@, targets: targets@ },
                ));
                assert(v@.workspaces =~= old(v)@.workspaces);
                assert(v@.tracked_remotes =~= old(v)@.tracked_remotes);
                lemma_bm_find_spec(bs, name@, 0);
                assert(bs[i as int].name == name@);
                assert forall|a: int|
                    0 <= a < v@.bookmarks.len() implies (#[trigger] v@.bookmarks[a].name)
                    == bs[a].name by {}
                assert forall|a: int, b: int|
                    0 <= a < b < v@.bookmarks.len() implies (#[trigger] v@.bookmarks[a].name) != (
                #[trigger] v@.bookmarks[b].name) by {
                    assert(bs[a].name != bs[b].name);
                }
            }
            return ;
        }
        assert(bm_find(bs, name@, i as int) == bm_find(bs, name@, i + 1 as int));
        i += 1;
    }
    assert(bm_find(bs, name@, n as int) == -1);
    let nm = clone_bytes(name);
    v.bookmarks.push(Bookmark { name: nm, targets });
    proof {
        assert(v@.bookmarks =~= bs.push(BookmarkV { name: name@, targets: targets@ }));
        assert(v@.workspaces =~= old(v)@.workspaces);
        assert(v@.tracked_remotes =~= old(v)@.tracked_remotes);
        lemma_bm_find_spec(bs, name@, 0);
        assert forall|a: int, b: int|
            0 <= a < b < v@.bookmarks.len() implies (#[trigger] v@.bookmarks[a].name) != (
        #[trigger] v@.bookmarks[b].name) by {
            if b == bs.len() as int {
                assert(v@.bookmarks[a] == bs[a]);
            }
        }
    }
}

/// Delete the named bookmark if present.
pub fn remove_local_bookmark(v: &mut RepoView, name: &Vec<u8>)
    requires
        view_wf(old(v)@),
    ensures
        view_wf(final(v)@),
        final(v)@.workspaces == old(v)@.workspaces,
        final(v)@.tracked_remotes == old(v)@.tracked_remotes,
        bm_find(old(v)@.bookmarks, name@, 0) >= 0 ==> final(v)@.bookmarks == old(
            v,
        )@.bookmarks.remove(bm_find(old(v)@.bookmarks, name@, 0)),
        bm_find(old(v)@.bookmarks, name@, 0) == -1 ==> final(v)@.bookmarks == old(v)@.bookmarks,
{
    let ghost bs = v@.bookmarks;
    let n = v.bookmarks.len();
    let mut i: usize = 0;
    while i < n
        invariant
            n == v.bookmarks.len(),
            i <= n,
            bs == v@.bookmarks,
            v@ == old(v)@,
            view_wf(old(v)@),
            bm_find(bs, name@, 0) == bm_find(bs, name@, i as int),
        decreases n - i,
    {
        if bytes_eq(&v.bookmarks[i].name, name) {
            assert(bm_find(bs, name@, i as int) == i);
            v.bookmarks.remove(i);
            proof {
                assert(v@.bookmarks =~= bs.remove(i as int));
                assert(v@.workspaces =~= old(v)@.workspaces);
                assert(v@.tracked_remotes =~= old(v)@.tracked_remotes);
                assert forall|a: int|
                    0 <= a < v@.bookmarks.len() implies (#[trigger] v@.bookmarks[a]) == (if a
                    < i as int {
                    bs[a]
                } else {
                    bs[a + 1]
                }) by {}
                assert forall|a: int, b: int|
                    0 <= a < b < v@.bookmarks.len() implies (#[trigger] v@.bookmarks[a].name) != (
                #[trigger] v@.bookmarks[b].name) by {
                    let a0: int = if a < i as int { a } else { a + 1 };
                    let b0: int = if b < i as int { b } else { b + 1 };
                    assert(a0 < b0);
                    assert(bs[a0].name != bs[b0].name);
                }
                assert forall|a: int|
                    0 <= a < v@.bookmarks.len() implies (#[trigger] v@.bookmarks[a].targets).len()
                    > 0 by {
                    let a0: int = if a < i as int { a } else { a + 1 };
                    assert(bs[a0].targets.len() > 0);
                }
            }
            return ;
        }
        assert(bm_find(bs, name@, i as int) == bm_find(bs, name@, i + 1 as int));
        i += 1;
    }
    assert(bm_find(bs, name@, n as int) == -1);
}

/// Whether remote-tracking counterparts of this bookmark name remain.
pub fn has_tracked_remote_bookmarks(v: &RepoView, name: &Vec<u8>) -> (r: bool)
    ensures
        r == v@.tracked_remotes.contains(name@),
{
    let n = v.tracked_remotes.len();
    let mut i: usize = 0;
    while i < n
        invariant
            n == v.tracked_remotes.len(),
            i <= n,
            forall|k: int| 0 <= k < i ==> v@.tracked_remotes[k] != name@,
        decreases n - i,
    {
        if bytes_eq(&v.tracked_remotes[i], name) {
            assert(v@.tracked_remotes[i as int] == name@);
            return true;
        }
        i += 1;
    }
    false
}

/// Index of the workspace with this name, or `-1`.
pub open spec fn ws_find(ws: Seq<WorkspaceV>, name: Seq<u8>, i: int) -> int
    decreases ws.len() - i
        when 0 <= i <= ws.len()
{
    if i >= ws.len() {
        -1
    } else if ws[i].name == name {
        i
    } else {
        ws_find(ws, name, i + 1)
    }
}

pub proof fn lemma_ws_find_spec(ws: Seq<WorkspaceV>, name: Seq<u8>, i: int)
    requires
        0 <= i <= ws.len(),
    ensures
        ws_find(ws, name, i) == -1 ==> forall|k: int| i <= k < ws.len() ==> ws[k].name != name,
        ws_find(ws, name, i) != -1 ==> i <= ws_find(ws, name, i) < ws.len() && ws[ws_find(
            ws,
            name,
            i,
        )].name == name,
    decreases ws.len() - i,
{
    if i < ws.len() && ws[i].name != name {
        lemma_ws_find_spec(ws, name, i + 1);
    }
}

/// Workspace lookup matches positionally when names match positionally.
pub proof fn lemma_ws_find_same_names_wk(
    ws1: Seq<WorkspaceV>,
    ws2: Seq<WorkspaceV>,
    name: Seq<u8>,
    i: int,
)
    requires
        ws1.len() == ws2.len(),
        forall|k: int| 0 <= k < ws1.len() ==> (#[trigger] ws1[k].name) == ws2[k].name,
        0 <= i <= ws1.len(),
    ensures
        ws_find(ws1, name, i) == ws_find(ws2, name, i),
    decreases ws1.len() - i,
{
    if i < ws1.len() && ws1[i].name != name {
        lemma_ws_find_same_names_wk(ws1, ws2, name, i + 1);
    }
}

/// Appending a workspace leaves lookups of other names alone and makes its
/// own name found at the end.
pub proof fn lemma_ws_find_push(ws: Seq<WorkspaceV>, w: WorkspaceV, name: Seq<u8>, i: int)
    requires
        0 <= i <= ws.len(),
    ensures
        ws_find(ws, name, i) >= 0 ==> ws_find(ws.push(w), name, i) == ws_find(ws, name, i),
        ws_find(ws, name, i) == -1 && w.name == name ==> ws_find(ws.push(w), name, i) == ws.len(),
        ws_find(ws, name, i) == -1 && w.name != name ==> ws_find(ws.push(w), name, i) == -1,
    decreases ws.len() - i,
{
    if i < ws.len() {
        lemma_ws_find_push(ws, w, name, i + 1);
        assert(ws.push(w)[i] == ws[i]);
    } else {
        assert(ws.push(w)[i] == w);
        if w.name != name {
            assert(ws_find(ws.push(w), name, i + 1) == -1);
        }
    }
}

/// The working-copy commit of the named workspace.
pub fn get_wc_commit(v: &RepoView, name: &Vec<u8>) -> (r: Option<usize>)
    ensures
        match r {
            Option::Some(id) => ws_find(v@.workspaces, name@, 0) >= 0 && id == v@.workspaces[ws_find(
                v@.workspaces,
                name@,
                0,
            )].wc,
            Option::None => ws_find(v@.workspaces, name@, 0) == -1,
        },
{
    let ghost ws = v@.workspaces;
    let n = v.workspaces.len();
    let mut i: usize = 0;
    while i < n
        invariant
            n == v.workspaces.len(),
            i <= n,
            ws == v@.workspaces,
            ws_find(ws, name@, 0) == ws_find(ws, name@, i as int),
        decreases n - i,
    {
        if bytes_eq(&v.workspaces[i].name, name) {
            assert(ws_find(ws, name@, i as int) == i);
            return Option::Some(v.workspaces[i].wc);
        }
        assert(ws_find(ws, name@, i as int) == ws_find(ws, name@, i + 1 as int));
        i += 1;
    }
    assert(ws_find(ws, name@, n as int) == -1);
    Option::None
}

/// Point the named workspace at a working-copy commit, creating it if absent.
pub fn set_wc_commit(v: &mut RepoView, name: &Vec<u8>, wc: usize)
    requires
        view_wf(old(v)@),
    ensures
        view_wf(final(v)@),
        final(v)@.bookmarks == old(v)@.bookmarks,
        final(v)@.tracked_remotes == old(v)@.tracked_remotes,
        ws_find(old(v)@.workspaces, name@, 0) >= 0 ==> final(v)@.workspaces == old(
            v,
        )@.workspaces.update(
            ws_find(old(v)@.workspaces, name@, 0),
            WorkspaceV { name: name@, wc: wc },
        ),
        ws_find(old(v)@.workspaces, name@, 0) == -1 ==> final(v)@.workspaces == old(
            v,
        )@.workspaces.push(WorkspaceV { name: name@, wc: wc }),
{
    let ghost ws = v@.workspaces;
    let n = v.workspaces.len();
    let mut i: usize = 0;
    while i < n
        invariant
            n == v.workspaces.len(),
            i <= n,
            ws == v@.workspaces,
            v@ == old(v)@,
            view_wf(old(v)@),
            ws_find(ws, name@, 0) == ws_find(ws, name@, i as int),
        decreases n - i,
    {
        if bytes_eq(&v.workspaces[i].name, name) {
            assert(ws_find(ws, name@, i as int) == i);
            let nm = clone_bytes(name);
            v.workspaces.set(i, Workspace { name: nm, wc });
            proof {
                assert(v@.workspaces =~= ws.update(i as int, WorkspaceV { name: name@, wc: wc }));
                assert(v@.bookmarks =~= old(v)@.bookmarks);
                assert(v@.tracked_remotes =~= old(v)@.tracked_remotes);
                assert(ws[i as int].name == name@);
                assert forall|a: int|
                    0 <= a < v@.workspaces.len() implies (#[trigger] v@.workspaces[a].name)
                    == ws[a].name by {}
                assert forall|a: int, b: int|
                    0 <= a < b < v@.workspaces.len() implies (#[trigger] v@.workspaces[a].name) != (
                #[trigger] v@.workspaces[b].name) by {
                    assert(ws[a].name != ws[b].name);
                }
            }
            return ;
        }
        assert(ws_find(ws, name@, i as int) == ws_find(ws, name@, i + 1 as int));
        i += 1;
    }
    assert(ws_find(ws, name@, n as int) == -1);
    let nm = clone_bytes(name);
    v.workspaces.push(Workspace { name: nm, wc });
    proof {
        assert(v@.workspaces =~= ws.push(WorkspaceV { name: name@, wc: wc }));
        assert(v@.bookmarks =~= old(v)@.bookmarks);
        assert(v@.tracked_remotes =~= old(v)@.tracked_remotes);
        assert forall|k: int| 0 <= k < ws.len() implies ws[k].name != name@ by {
            lemma_ws_find_none(ws, name@, 0, k);
        }
        assert forall|a: int, b: int|
            0 <= a < b < v@.workspaces.len() implies (#[trigger] v@.workspaces[a].name) != (
        #[trigger] v@.workspaces[b].name) by {
            if b == ws.len() as int {
                assert(v@.workspaces[a] == ws[a]);
            }
        }
    }
}

proof fn lemma_ws_find_none(ws: Seq<WorkspaceV>, name: Seq<u8>, i: int, k: int)
    requires
        0 <= i <= k < ws.len(),
        ws_find(ws, name, i) == -1,
    ensures
        ws[k].name != name,
    decreases k - i,
{
    if i < k {
        lemma_ws_find_none(ws, name, i + 1, k);
    }
}

/// Lookup is insensitive to target changes: two lists with the same names in
/// the same places find every name at the same index.
pub proof fn lemma_bm_find_same_names(bs1: Seq<BookmarkV>, bs2: Seq<BookmarkV>, name: Seq<u8>, i: int)
    requires
        bs1.len() == bs2.len(),
        forall|k: int| 0 <= k < bs1.len() ==> (#[trigger] bs1[k].name) == bs2[k].name,
        0 <= i <= bs1.len(),
    ensures
        bm_find(bs1, name, i) == bm_find(bs2, name, i),
    decreases bs1.len() - i,
{
    if i < bs1.len() && bs1[i].name != name {
        lemma_bm_find_same_names(bs1, bs2, name, i + 1);
    }
}

/// Appending a bookmark leaves lookups of other names alone and makes its own
/// name found at the end.
pub proof fn lemma_bm_find_push(bs: Seq<BookmarkV>, b: BookmarkV, name: Seq<u8>, i: int)
    requires
        0 <= i <= bs.len(),
    ensures
        bm_find(bs, name, i) >= 0 ==> bm_find(bs.push(b), name, i) == bm_find(bs, name, i),
        bm_find(bs, name, i) == -1 && b.name == name ==> bm_find(bs.push(b), name, i) == bs.len(),
        bm_find(bs, name, i) == -1 && b.name != name ==> bm_find(bs.push(b), name, i) == -1,
    decreases bs.len() - i,
{
    if i < bs.len() {
        lemma_bm_find_push(bs, b, name, i + 1);
        assert(bs.push(b)[i] == bs[i]);
    } else {
        assert(bs.push(b)[i] == b);
        if b.name != name {
            assert(bm_find(bs.push(b), name, i + 1) == -1);
        }
    }
}

/// What `set_local_bookmark` did to every name: the set name is found with
/// the new targets; every other name finds what it found before.
pub proof fn lemma_set_bookmark_lookup(
    bs1: Seq<BookmarkV>,
    bs2: Seq<BookmarkV>,
    setname: Seq<u8>,
    targets: Seq<usize>,
    nm: Seq<u8>,
)
    requires
        bm_find(bs1, setname, 0) >= 0 ==> bs2 == bs1.update(
            bm_find(bs1, setname, 0),
            BookmarkV { name: setname, targets: targets },
        ),
        bm_find(bs1, setname, 0) == -1 ==> bs2 == bs1.push(
            BookmarkV { name: setname, targets: targets },
        ),
    ensures
        nm == setname ==> {
            let f = bm_find(bs2, nm, 0);
            0 <= f < bs2.len() && bs2[f].targets == targets && bs2[f].name == nm
        },
        nm != setname ==> {
            let f1 = bm_find(bs1, nm, 0);
            let f2 = bm_find(bs2, nm, 0);
            &&& (f1 >= 0 <==> f2 >= 0)
            &&& (f1 >= 0 ==> 0 <= f1 < bs1.len() && 0 <= f2 < bs2.len() && bs2[f2].targets
                == bs1[f1].targets)
        },
{
    let f0 = bm_find(bs1, setname, 0);
    lemma_bm_find_spec(bs1, setname, 0);
    if f0 >= 0 {
        assert(bs1[f0].name == setname);
        assert(bs2.len() == bs1.len());
        assert(forall|k: int| 0 <= k < bs1.len() ==> (#[trigger] bs1[k].name) == bs2[k].name);
        lemma_bm_find_same_names(bs1, bs2, nm, 0);
        lemma_bm_find_spec(bs2, nm, 0);
        lemma_bm_find_spec(bs1, nm, 0);
        if nm == setname {
            assert(bm_find(bs2, nm, 0) == f0);
        } else {
            let f1 = bm_find(bs1, nm, 0);
            if f1 >= 0 {
                assert(bs1[f1].name == nm);
                assert(f1 != f0);
                assert(bs2[f1].targets == bs1[f1].targets);
            }
        }
    } else {
        lemma_bm_find_push(bs1, BookmarkV { name: setname, targets: targets }, nm, 0);
        lemma_bm_find_spec(bs2, nm, 0);
        lemma_bm_find_spec(bs1, nm, 0);
        if nm == setname {
            assert(bm_find(bs2, nm, 0) == bs1.len());
            assert(bs2[bs1.len() as int].targets == targets);
        }
    }
}

/// Every target id from index `i` on is an ancestor of `new_id`.
pub open spec fn targets_reach(sv: StoreV, ts: Seq<usize>, new_id: usize, i: int) -> bool
    decreases ts.len() - i
        when 0 <= i <= ts.len()
{
    if i >= ts.len() {
        true
    } else {
        reachable(sv, ts[i], new_id) && targets_reach(sv, ts, new_id, i + 1)
    }
}

/// A move is a fast-forward when the old target is absent or every old target
/// id is an ancestor of the new target.
pub open spec fn fast_forward(sv: StoreV, old_target: Option<Seq<usize>>, new_id: usize) -> bool {
    match old_target {
        Option::None => true,
        Option::Some(ts) => targets_reach(sv, ts, new_id, 0),
    }
}

/// A present old target fast-forwards exactly when each of its ids is an
/// ancestor of the new target.
pub proof fn lemma_fast_forward_forall(sv: StoreV, ts: Seq<usize>, new_id: usize, i: int)
    requires
        0 <= i <= ts.len(),
    ensures
        targets_reach(sv, ts, new_id, i) <==> forall|k: int|
            i <= k < ts.len() ==> reachable(sv, #[trigger] ts[k], new_id),
    decreases ts.len() - i,
{
    if i < ts.len() {
        lemma_fast_forward_forall(sv, ts, new_id, i + 1);
        if targets_reach(sv, ts, new_id, i) {
            assert forall|k: int| i <= k < ts.len() implies reachable(
                sv,
                #[trigger] ts[k],
                new_id,
            ) by {
                if k > i {
                    assert(targets_reach(sv, ts, new_id, i + 1));
                }
            }
        }
        if forall|k: int| i <= k < ts.len() ==> reachable(sv, #[trigger] ts[k], new_id) {
            assert(reachable(sv, ts[i], new_id));
            assert forall|k: int| i + 1 <= k < ts.len() implies reachable(
                sv,
                #[trigger] ts[k],
                new_id,
            ) by {}
        }
    }
}

/// Whether moving a bookmark from `old_target` to `new_id` only moves forward.
pub fn is_fast_forward(s: &Store, old_target: &Option<Vec<usize>>, new_id: usize) -> (r: bool)
    requires
        store_wf(s@),
        new_id < s@.commits.len(),
        match old_target {
            Option::Some(ts) => forall|k: int|
                0 <= k < ts@.len() ==> (#[trigger] ts@[k]) < s@.commits.len(),
            Option::None => true,
        },
    ensures
        r == fast_forward(
            s@,
            match old_target {
                Option::Some(ts) => Option::Some(ts@),
                Option::None => Option::None,
            },
            new_id,
        ),
{
    match old_target {
        Option::None => true,
        Option::Some(ts) => {
            let n = ts.len();
            let mut i: usize = 0;
            while i < n
                invariant
                    store_wf(s@),
                    new_id < s@.commits.len(),
                    n == ts@.len(),
                    i <= n,
                    forall|k: int| 0 <= k < ts@.len() ==> (#[trigger] ts@[k]) < s@.commits.len(),
                    (match old_target {
                        Option::Some(ts2) => ts2@ == ts@,
                        Option::None => false,
                    }),
                    targets_reach(s@, ts@, new_id, 0) == targets_reach(s@, ts@, new_id, i as int),
                decreases n - i,
            {
                if !crate::graph::is_ancestor(s, ts[i], new_id) {
                    proof {
                        assert(!targets_reach(s@, ts@, new_id, i as int));
                    }
                    return false;
                }
                proof {
                    assert(targets_reach(s@, ts@, new_id, i as int) == targets_reach(
                        s@,
                        ts@,
                        new_id,
                        i + 1 as int,
                    ));
                }
                i += 1;
            }
            proof {
                assert(targets_reach(s@, ts@, new_id, n as int));
            }
            true
        },
    }
}

} // verus!
