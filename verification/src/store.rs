//! The content-addressable object store.
//!
//! Commits and trees are immutable and deduplicated: an object's id is its
//! index in the store, and writing an object whose fields equal an existing
//! object's returns the existing id without touching the store. Every commit's
//! parents point strictly below it, so increasing id order is a topological
//! order of the graph.

use vstd::prelude::*;

use crate::bytes::bytes_eq;
use crate::ids::clone_ids;
use crate::ids::ids_eq;
use crate::merge::clone_bytes;
use crate::merge::MergeVal;
use crate::tree::clone_tree;
use crate::tree::empty_tree;
use crate::tree::tree_eq;
use crate::tree::tree_wf;
use crate::tree::Tree;

verus! {

/// An author or committer stamp.
#[derive(Debug)]
pub struct Signature {
    pub name: Vec<u8>,
    pub email: Vec<u8>,
    pub timestamp: i64,
}

/// Mathematical image of a `Signature`.
#[verifier::ext_equal]
pub struct SigV {
    pub name: Seq<u8>,
    pub email: Seq<u8>,
    pub timestamp: i64,
}

impl View for Signature {
    type V = SigV;

    open spec fn view(&self) -> SigV {
        SigV { name: self.name@, email: self.email@, timestamp: self.timestamp }
    }
}

pub fn sig_eq(a: &Signature, b: &Signature) -> (r: bool)
    ensures
        r == (a@ == b@),
{
    let r = bytes_eq(&a.name, &b.name) && bytes_eq(&a.email, &b.email) && a.timestamp
        == b.timestamp;
    proof {
        if a@.name == b@.name && a@.email == b@.email && a@.timestamp == b@.timestamp {
            assert(a@ =~= b@);
        }
    }
    r
}

pub fn clone_sig(a: &Signature) -> (r: Signature)
    ensures
        r@ == a@,
{
    Signature { name: clone_bytes(&a.name), email: clone_bytes(&a.email), timestamp: a.timestamp }
}

/// The full field set of a commit. The id is not a field: it is the commit's
/// index in the store, a pure function of the fields through deduplication.
pub struct CommitData {
    pub parents: Vec<usize>,
    pub tree: usize,
    pub author: Signature,
    pub committer: Signature,
    pub description: Vec<u8>,
    pub signature: Option<Vec<u8>>,
}

/// Mathematical image of a commit's fields.
#[verifier::ext_equal]
pub struct CommitV {
    pub parents: Seq<usize>,
    pub tree: usize,
    pub author: SigV,
    pub committer: SigV,
    pub description: Seq<u8>,
    pub signature: Option<Seq<u8>>,
}

impl View for CommitData {
    type V = CommitV;

    open spec fn view(&self) -> CommitV {
        CommitV {
            parents: self.parents@,
            tree: self.tree,
            author: self.author@,
            committer: self.committer@,
            description: self.description@,
            signature: match self.signature {
                Option::None => Option::None,
                Option::Some(s) => Option::Some(s@),
            },
        }
    }
}

fn opt_bytes_eq(a: &Option<Vec<u8>>, b: &Option<Vec<u8>>) -> (r: bool)
    ensures
        r == (match (a, b) {
            (Option::None, Option::None) => true,
            (Option::Some(x), Option::Some(y)) => x@ == y@,
            _ => false,
        }),
{
    match (a, b) {
        (Option::None, Option::None) => true,
        (Option::Some(x), Option::Some(y)) => bytes_eq(x, y),
        _ => false,
    }
}

pub fn clone_opt_bytes(a: &Option<Vec<u8>>) -> (r: Option<Vec<u8>>)
    ensures
        match (a, r) {
            (Option::None, Option::None) => true,
            (Option::Some(x), Option::Some(y)) => x@ == y@,
            _ => false,
        },
{
    match a {
        Option::None => Option::None,
        Option::Some(x) => Option::Some(clone_bytes(x)),
    }
}

/// Structural equality of two commits' fields.
pub fn commit_eq(a: &CommitData, b: &CommitData) -> (r: bool)
    ensures
        r == (a@ == b@),
{
    let r = ids_eq(&a.parents, &b.parents) && a.tree == b.tree && sig_eq(&a.author, &b.author)
        && sig_eq(&a.committer, &b.committer) && bytes_eq(&a.description, &b.description)
        && opt_bytes_eq(&a.signature, &b.signature);
    proof {
        if r {
            assert(a@ =~= b@);
        }
    }
    r
}

pub fn clone_commit(a: &CommitData) -> (r: CommitData)
    ensures
        r@ == a@,
{
    let r = CommitData {
        parents: clone_ids(&a.parents),
        tree: a.tree,
        author: clone_sig(&a.author),
        committer: clone_sig(&a.committer),
        description: clone_bytes(&a.description),
        signature: clone_opt_bytes(&a.signature),
    };
    assert(r@ =~= a@);
    r
}

/// The append-only store of commits and trees, ids being indices.
pub struct Store {
    pub commits: Vec<CommitData>,
    pub trees: Vec<Tree>,
}

/// Mathematical image of the store.
#[verifier::ext_equal]
pub struct StoreV {
    pub commits: Seq<CommitV>,
    pub trees: Seq<Seq<(usize, MergeVal)>>,
}

impl View for Store {
    type V = StoreV;

    open spec fn view(&self) -> StoreV {
        StoreV {
            commits: Seq::new(self.commits@.len(), |i: int| self.commits@[i]@),
            trees: Seq::new(self.trees@.len(), |i: int| self.trees@[i]@),
        }
    }
}

/// The id of the root commit and of the empty tree.
pub open spec fn root_id() -> usize {
    0
}

/// Store well-formedness: the root commit and the empty tree exist, parents
/// point strictly below their commit, referenced trees exist, trees are
/// well-formed, and no two stored objects have equal fields.
pub open spec fn store_wf(sv: StoreV) -> bool {
    &&& sv.commits.len() >= 1
    &&& sv.trees.len() >= 1
    &&& sv.trees[0] == Seq::<(usize, MergeVal)>::empty()
    &&& sv.commits[0].parents.len() == 0
    &&& sv.commits[0].tree == 0
    &&& forall|i: int, j: int|
        0 <= i < sv.commits.len() && 0 <= j < sv.commits[i].parents.len()
            ==> (#[trigger] sv.commits[i].parents[j]) < i
    &&& forall|i: int| 0 <= i < sv.commits.len() ==> (#[trigger] sv.commits[i].tree) < sv.trees.len()
    &&& forall|i: int, j: int|
        0 <= i < j < sv.commits.len() ==> (#[trigger] sv.commits[i]) != (#[trigger] sv.commits[j])
    &&& forall|i: int| 0 <= i < sv.trees.len() ==> tree_wf(#[trigger] sv.trees[i])
    &&& forall|i: int, j: int|
        0 <= i < j < sv.trees.len() ==> (#[trigger] sv.trees[i]) != (#[trigger] sv.trees[j])
}

/// A fresh store: the root commit on the empty tree, nothing else.
pub fn new_store() -> (s: Store)
    ensures
        store_wf(s@),
        s@.commits.len() == 1,
        s@.trees.len() == 1,
        s@.commits[0].description == Seq::<u8>::empty(),
        s@.commits[0].signature is None,
{
    let root = CommitData {
        parents: Vec::new(),
        tree: 0,
        author: Signature { name: Vec::new(), email: Vec::new(), timestamp: 0 },
        committer: Signature { name: Vec::new(), email: Vec::new(), timestamp: 0 },
        description: Vec::new(),
        signature: Option::None,
    };
    let mut commits: Vec<CommitData> = Vec::new();
    commits.push(root);
    let mut trees: Vec<Tree> = Vec::new();
    trees.push(empty_tree());
    let s = Store { commits, trees };
    assert(s@.trees[0] =~= Seq::<(usize, MergeVal)>::empty());
    s
}

/// Read a commit's fields by id.
pub fn get_commit(s: &Store, id: usize) -> (r: CommitData)
    requires
        id < s@.commits.len(),
    ensures
        r@ == s@.commits[id as int],
{
    clone_commit(&s.commits[id])
}

/// Read a tree by id.
pub fn get_tree(s: &Store, id: usize) -> (r: Tree)
    requires
        id < s@.trees.len(),
    ensures
        r@ == s@.trees[id as int],
{
    clone_tree(&s.trees[id])
}

/// Index of the first stored commit with these fields, or `-1`.
pub open spec fn find_commit(cs: Seq<CommitV>, c: CommitV, i: int) -> int
    decreases cs.len() - i
        when 0 <= i <= cs.len()
{
    if i >= cs.len() {
        -1
    } else if cs[i] == c {
        i
    } else {
        find_commit(cs, c, i + 1)
    }
}

pub proof fn lemma_find_commit_spec(cs: Seq<CommitV>, c: CommitV, i: int)
    requires
        0 <= i <= cs.len(),
    ensures
        find_commit(cs, c, i) == -1 ==> forall|k: int| i <= k < cs.len() ==> cs[k] != c,
        find_commit(cs, c, i) != -1 ==> i <= find_commit(cs, c, i) < cs.len() && cs[find_commit(
            cs,
            c,
            i,
        )] == c,
    decreases cs.len() - i,
{
    if i < cs.len() && cs[i] != c {
        lemma_find_commit_spec(cs, c, i + 1);
    }
}

/// In a deduplicated store, a stored commit's fields find their own index.
pub proof fn lemma_find_commit_self(cs: Seq<CommitV>, i: int)
    requires
        0 <= i < cs.len(),
        forall|a: int, b: int| 0 <= a < b < cs.len() ==> (#[trigger] cs[a]) != (#[trigger] cs[b]),
    ensures
        find_commit(cs, cs[i], 0) == i,
{
    lemma_find_commit_prefix(cs, cs[i], 0, i);
}

proof fn lemma_find_commit_prefix(cs: Seq<CommitV>, c: CommitV, k: int, i: int)
    requires
        0 <= k <= i < cs.len(),
        cs[i] == c,
        forall|a: int, b: int| 0 <= a < b < cs.len() ==> (#[trigger] cs[a]) != (#[trigger] cs[b]),
    ensures
        find_commit(cs, c, k) == i,
    decreases i - k,
{
    if k < i {
        assert(cs[k] != cs[i]);
        lemma_find_commit_prefix(cs, c, k + 1, i);
    }
}

/// Write a commit: return the existing id when the fields are already stored,
/// else append. Writing identical field values twice yields the same id and
/// leaves the store unchanged.
pub fn write_commit(s: &mut Store, c: CommitData) -> (r: usize)
    requires
        store_wf(old(s)@),
        forall|j: int| 0 <= j < c@.parents.len() ==> (#[trigger] c@.parents[j]) < old(
            s,
        )@.commits.len(),
        c@.tree < old(s)@.trees.len(),
    ensures
        store_wf(final(s)@),
        final(s)@.trees == old(s)@.trees,
        r < final(s)@.commits.len(),
        final(s)@.commits.len() >= old(s)@.commits.len(),
        forall|i: int|
            0 <= i < old(s)@.commits.len() ==> final(s)@.commits[i] == old(s)@.commits[i],
        final(s)@.commits.len() == old(s)@.commits.len() || (final(s)@.commits.len() == old(
            s,
        )@.commits.len() + 1 && r == old(s)@.commits.len()),
        final(s)@.commits[r as int] == c@,
        find_commit(old(s)@.commits, c@, 0) >= 0 ==> final(s)@.commits == old(s)@.commits && r
            == find_commit(old(s)@.commits, c@, 0),
        find_commit(old(s)@.commits, c@, 0) == -1 ==> final(s)@.commits == old(s)@.commits.push(c@)
            && r == old(s)@.commits.len(),
{
    let ghost cs0 = s@.commits;
    let n = s.commits.len();
    let mut i: usize = 0;
    while i < n
        invariant
            n == s.commits.len(),
            i <= n,
            cs0 == s@.commits,
            s@ == old(s)@,
            store_wf(s@),
            find_commit(cs0, c@, 0) == find_commit(cs0, c@, i as int),
        decreases n - i,
    {
        if commit_eq(&s.commits[i], &c) {
            assert(find_commit(cs0, c@, i as int) == i);
            return i;
        }
        assert(find_commit(cs0, c@, i as int) == find_commit(cs0, c@, i + 1 as int));
        i += 1;
    }
    assert(find_commit(cs0, c@, n as int) == -1);
    let ghost cv = c@;
    s.commits.push(c);
    proof {
        assert(s@.commits =~= cs0.push(cv));
        assert(s@.trees =~= old(s)@.trees);
        lemma_find_commit_spec(cs0, cv, 0);
        assert forall|a: int, b: int| 0 <= a < b < s@.commits.len() implies (
        #[trigger] s@.commits[a]) != (#[trigger] s@.commits[b]) by {
            if b == cs0.len() as int {
                assert(s@.commits[a] == cs0[a]);
            }
        }
    }
    n
}

/// Index of the first stored tree equal to this one, or `-1`.
pub open spec fn find_tree(ts: Seq<Seq<(usize, MergeVal)>>, t: Seq<(usize, MergeVal)>, i: int) -> int
    decreases ts.len() - i
        when 0 <= i <= ts.len()
{
    if i >= ts.len() {
        -1
    } else if ts[i] == t {
        i
    } else {
        find_tree(ts, t, i + 1)
    }
}

pub proof fn lemma_find_tree_spec(ts: Seq<Seq<(usize, MergeVal)>>, t: Seq<(usize, MergeVal)>, i: int)
    requires
        0 <= i <= ts.len(),
    ensures
        find_tree(ts, t, i) == -1 ==> forall|k: int| i <= k < ts.len() ==> ts[k] != t,
        find_tree(ts, t, i) != -1 ==> i <= find_tree(ts, t, i) < ts.len() && ts[find_tree(ts, t, i)]
            == t,
    decreases ts.len() - i,
{
    if i < ts.len() && ts[i] != t {
        lemma_find_tree_spec(ts, t, i + 1);
    }
}

/// Write a tree, deduplicated like commits.
pub fn write_tree(s: &mut Store, t: Tree) -> (r: usize)
    requires
        store_wf(old(s)@),
        tree_wf(t@),
    ensures
        store_wf(final(s)@),
        final(s)@.commits == old(s)@.commits,
        r < final(s)@.trees.len(),
        final(s)@.trees.len() >= old(s)@.trees.len(),
        forall|i: int| 0 <= i < old(s)@.trees.len() ==> final(s)@.trees[i] == old(s)@.trees[i],
        final(s)@.trees[r as int] == t@,
        find_tree(old(s)@.trees, t@, 0) >= 0 ==> final(s)@.trees == old(s)@.trees && r == find_tree(
            old(s)@.trees,
            t@,
            0,
        ),
        find_tree(old(s)@.trees, t@, 0) == -1 ==> final(s)@.trees == old(s)@.trees.push(t@) && r
            == old(s)@.trees.len(),
{
    let ghost ts0 = s@.trees;
    let n = s.trees.len();
    let mut i: usize = 0;
    while i < n
        invariant
            n == s.trees.len(),
            i <= n,
            ts0 == s@.trees,
            s@ == old(s)@,
            store_wf(s@),
            find_tree(ts0, t@, 0) == find_tree(ts0, t@, i as int),
        decreases n - i,
    {
        if tree_eq(&s.trees[i], &t) {
            assert(find_tree(ts0, t@, i as int) == i);
            return i;
        }
        assert(find_tree(ts0, t@, i as int) == find_tree(ts0, t@, i + 1 as int));
        i += 1;
    }
    assert(find_tree(ts0, t@, n as int) == -1);
    let ghost tv = t@;
    s.trees.push(t);
    proof {
        assert(s@.trees =~= ts0.push(tv));
        assert(s@.commits =~= old(s)@.commits);
        lemma_find_tree_spec(ts0, tv, 0);
        assert forall|a: int, b: int| 0 <= a < b < s@.trees.len() implies (#[trigger] s@.trees[a])
            != (#[trigger] s@.trees[b]) by {
            if b == ts0.len() as int {
                assert(s@.trees[a] == ts0[a]);
            }
        }
    }
    n
}

/// Rewriting a commit with field values identical to its current values is a
/// no-op: the write returns the same id and the store is untouched.
pub proof fn lemma_identical_rewrite_is_noop(sv: StoreV, i: int)
    requires
        store_wf(sv),
        0 <= i < sv.commits.len(),
    ensures
        find_commit(sv.commits, sv.commits[i], 0) == i,
{
    lemma_find_commit_self(sv.commits, i);
}

} // verus!
