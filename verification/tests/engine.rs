//! End-to-end tests of the rewrite engine over an in-memory repository.

use rewrite_engine::commands::{
    cmd_abandon, cmd_absorb, cmd_bookmark_create, cmd_bookmark_set, cmd_commit, cmd_describe,
    cmd_diff, cmd_duplicate, cmd_edit, cmd_file_chmod, cmd_file_list, cmd_new, cmd_revert,
    cmd_unsign, BookmarkCreateArgs, BookmarkSetArgs, UnsignArgs,
};
use rewrite_engine::errors::{BackendError, EngineError, UserError};
use rewrite_engine::merge::{
    materialize, merge_absent, merge_resolved, merge_values, mv_eq, EntryValue, MergeValue,
};
use rewrite_engine::store::{get_commit, write_commit, write_tree, CommitData, Signature};
use rewrite_engine::transaction::{finish_transaction, new_repo_state, start_transaction, RepoState};
use rewrite_engine::repo::transform_descendants;
use rewrite_engine::rewrite::{CommitEdit, Instruction, RewriteAction, TransformOptions};
use rewrite_engine::tree::{tree_get, Tree, TreeEntry};

fn sig(name: &str) -> Signature {
    Signature { name: name.as_bytes().to_vec(), email: b"t@example.net".to_vec(), timestamp: 7 }
}

fn file(content: &[u8]) -> EntryValue {
    EntryValue::File { content: content.to_vec(), executable: false }
}

fn resolved(content: &[u8]) -> MergeValue {
    merge_resolved(file(content))
}

fn tree_of(entries: Vec<(usize, MergeValue)>) -> Tree {
    Tree { entries: entries.into_iter().map(|(path, value)| TreeEntry { path, value }).collect() }
}

/// Write a commit with one file per (path, content) pair.
fn commit_with_tree(
    rs: &mut RepoState,
    parents: Vec<usize>,
    entries: Vec<(usize, &[u8])>,
    desc: &str,
) -> usize {
    let t = tree_of(entries.into_iter().map(|(p, c)| (p, resolved(c))).collect());
    let tid = write_tree(&mut rs.store, t);
    write_commit(
        &mut rs.store,
        CommitData {
            parents,
            tree: tid,
            author: sig("a"),
            committer: sig("a"),
            description: desc.as_bytes().to_vec(),
            signature: None,
        },
    )
}

fn value_at(rs: &RepoState, commit: usize, path: usize) -> MergeValue {
    let c = get_commit(&rs.store, commit);
    tree_get(&rs.store.trees[c.tree], path)
}

#[test]
fn merge_values_takes_changed_side() {
    // only one side differs from the base: the changed value wins
    let base = resolved(b"base");
    let a = resolved(b"changed");
    let b = resolved(b"base");
    let m = merge_values(&base, &a, &b);
    assert!(mv_eq(&m, &a));
    // both sides agree: the agreed value wins
    let m2 = merge_values(&base, &b, &b);
    assert!(mv_eq(&m2, &b));
}

#[test]
fn merge_values_conflict_keeps_both_sides() {
    let base = resolved(b"base");
    let a = resolved(b"left");
    let b = resolved(b"right");
    let m = merge_values(&base, &a, &b);
    assert_eq!(m.adds.len(), 2);
    assert_eq!(m.removes.len(), 1);
    let out = materialize(&m);
    let text = String::from_utf8_lossy(&out);
    assert!(text.contains("left"));
    assert!(text.contains("right"));
    assert!(text.contains("base"));
    assert!(text.contains("<<<<<<<"));
    assert!(text.contains(">>>>>>>"));
}

#[test]
fn merge_values_cancellation_resolves() {
    // a conflict whose sides cancel degenerates to a resolved value
    let base = resolved(b"v");
    let a = resolved(b"v");
    let b = resolved(b"w");
    let m = merge_values(&base, &a, &b);
    assert!(mv_eq(&m, &b));
    assert_eq!(m.removes.len(), 0);
}

#[test]
fn materialize_resolved_is_plain_content() {
    let v = resolved(b"hello");
    assert_eq!(materialize(&v), b"hello".to_vec());
    let absent = merge_absent();
    assert_eq!(materialize(&absent), Vec::<u8>::new());
}

#[test]
fn abandon_middle_commit_rebases_descendants() {
    // root -> a -> b -> c, bookmark "main" at c; abandoning b reparents c
    // onto a and carries c's content along
    let mut rs = new_repo_state();
    let a = commit_with_tree(&mut rs, vec![0], vec![(1, b"a1")], "a");
    let b = commit_with_tree(&mut rs, vec![a], vec![(1, b"a1"), (2, b"b2")], "b");
    let c = commit_with_tree(&mut rs, vec![b], vec![(1, b"a1"), (2, b"b2"), (3, b"c3")], "c");
    cmd_bookmark_create(
        &mut rs,
        &b"ws".to_vec(),
        &BookmarkCreateArgs { revision: Some(c), names: vec![b"main".to_vec()] },
        b"create main".to_vec(),
    )
    .unwrap();
    let st = cmd_abandon(&mut rs, &vec![b], false, false, b"abandon b".to_vec()).unwrap();
    assert_eq!(st.num_abandoned, 1);
    assert_eq!(st.num_rebased, 1);
    // the mapping sends b to its parent set [a] and c to a replacement
    assert_eq!(st.mapping[b], Some(vec![a]));
    let c2 = match &st.mapping[c] {
        Some(l) => {
            assert_eq!(l.len(), 1);
            l[0]
        },
        None => panic!("c was not rewritten"),
    };
    let c2_data = get_commit(&rs.store, c2);
    assert_eq!(c2_data.parents, vec![a]);
    // the rebased tree keeps c's own addition and drops b's
    assert!(mv_eq(&value_at(&rs, c2, 3), &resolved(b"c3")));
    assert!(mv_eq(&value_at(&rs, c2, 1), &resolved(b"a1")));
    assert!(mv_eq(&value_at(&rs, c2, 2), &merge_absent()));
    // the bookmark followed the rewrite
    let view = &rs.ops[rs.head].view;
    let target = rewrite_engine::view::get_local_bookmark(view, &b"main".to_vec());
    assert_eq!(target, Some(vec![c2]));
    // no surviving commit keeps b as a parent
    for id in 0..rs.store.commits.len() {
        if id != b && id != c {
            let data = get_commit(&rs.store, id);
            assert!(!data.parents.contains(&b));
        }
    }
}

#[test]
fn abandon_nothing_is_a_quiet_no_op() {
    let mut rs = new_repo_state();
    let ops_before = rs.ops.len();
    let st = cmd_abandon(&mut rs, &vec![], false, false, b"noop".to_vec()).unwrap();
    assert_eq!(st.num_abandoned, 0);
    assert_eq!(rs.ops.len(), ops_before);
}

#[test]
fn abandon_root_is_immutable() {
    let mut rs = new_repo_state();
    let err = cmd_abandon(&mut rs, &vec![0], false, false, b"no".to_vec()).unwrap_err();
    assert!(matches!(err, EngineError::ImmutableCommit { id: 0 }));
}

#[test]
fn abandon_missing_commit_is_a_backend_error() {
    let mut rs = new_repo_state();
    let err = cmd_abandon(&mut rs, &vec![99], false, false, b"no".to_vec()).unwrap_err();
    assert!(matches!(err, EngineError::Backend(BackendError::MissingCommit { id: 99 })));
}

#[test]
fn abandon_merge_drops_redundant_parent() {
    // root -> b -> a, merge m with parents [a, b]: b is an ancestor of a, so
    // abandoning m leaves the child with only [a]
    let mut rs = new_repo_state();
    let b = commit_with_tree(&mut rs, vec![0], vec![(1, b"b")], "b");
    let a = commit_with_tree(&mut rs, vec![b], vec![(1, b"b"), (2, b"a")], "a");
    let m = commit_with_tree(&mut rs, vec![a, b], vec![(1, b"b"), (2, b"a")], "m");
    let child = commit_with_tree(&mut rs, vec![m], vec![(1, b"b"), (2, b"a"), (3, b"c")], "child");
    let st = cmd_abandon(&mut rs, &vec![m], false, false, b"abandon m".to_vec()).unwrap();
    assert_eq!(st.mapping[m], Some(vec![a]));
    let child2 = st.mapping[child].as_ref().unwrap()[0];
    assert_eq!(get_commit(&rs.store, child2).parents, vec![a]);
}

#[test]
fn diamond_descendant_is_rewritten_once() {
    // x with children l and r, d a merge of both: abandoning x maps every
    // descendant exactly once and d keeps two distinct parents
    let mut rs = new_repo_state();
    let x = commit_with_tree(&mut rs, vec![0], vec![(1, b"x")], "x");
    let l = commit_with_tree(&mut rs, vec![x], vec![(1, b"x"), (2, b"l")], "l");
    let r = commit_with_tree(&mut rs, vec![x], vec![(1, b"x"), (3, b"r")], "r");
    let d = commit_with_tree(&mut rs, vec![l, r], vec![(1, b"x"), (2, b"l"), (3, b"r")], "d");
    let st = cmd_abandon(&mut rs, &vec![x], false, false, b"abandon x".to_vec()).unwrap();
    let l2 = st.mapping[l].as_ref().unwrap()[0];
    let r2 = st.mapping[r].as_ref().unwrap()[0];
    let d2 = st.mapping[d].as_ref().unwrap();
    assert_eq!(d2.len(), 1);
    let d2_parents = get_commit(&rs.store, d2[0]).parents;
    assert_eq!(d2_parents, vec![l2, r2]);
    assert_ne!(l2, r2);
    // one mapping entry per commit: none appears twice
    assert_eq!(st.mapping.len(), x + 4);
}

#[test]
fn absorb_keeps_a_source_with_remaining_changes() {
    // the source still differs from its parents after the rebase: it stays
    let mut rs = new_repo_state();
    let a = commit_with_tree(&mut rs, vec![0], vec![(1, b"v1")], "a");
    let src = commit_with_tree(&mut rs, vec![a], vec![(1, b"v2"), (2, b"extra")], "");
    // only the change at path 1 is absorbed into a
    let absorbed = tree_of(vec![(1, resolved(b"v2"))]);
    let absorbed_tid = write_tree(&mut rs.store, absorbed);
    let st = cmd_absorb(&mut rs, src, &vec![(a, absorbed_tid)], b"absorb".to_vec()).unwrap();
    assert!(st.abandoned_source.is_none());
    // the rebased source still carries its extra file
    let s2 = st.mapping[src].as_ref().unwrap()[0];
    assert!(mv_eq(&value_at(&rs, s2, 2), &resolved(b"extra")));
}

#[test]
fn describe_with_identical_values_rewrites_nothing() {
    // every selected commit keeps its id and the store gains no commit; one
    // operation still records the attempt
    let mut rs = new_repo_state();
    let a = commit_with_tree(&mut rs, vec![0], vec![(1, b"a")], "same");
    let commits_before = rs.store.commits.len();
    let ops_before = rs.ops.len();
    let st = cmd_describe(
        &mut rs,
        vec![(a, b"same".to_vec())],
        false,
        &None,
        b"describe".to_vec(),
    )
    .unwrap();
    assert_eq!(st.num_described, 0);
    assert_eq!(st.mapping[a], None);
    assert_eq!(rs.store.commits.len(), commits_before);
    assert_eq!(rs.ops.len(), ops_before + 1);
}

#[test]
fn rebase_propagates_unchanged_paths() {
    // a child that did not touch a path adopts the ancestor's new value there
    let mut rs = new_repo_state();
    let a = commit_with_tree(&mut rs, vec![0], vec![(1, b"v1")], "a");
    let b = commit_with_tree(&mut rs, vec![a], vec![(1, b"v1"), (2, b"own")], "b");
    // absorb a selection that rewrites a's tree, changing path 1
    let t2 = tree_of(vec![(1, resolved(b"v2"))]);
    let tid2 = write_tree(&mut rs.store, t2);
    let st = cmd_absorb(&mut rs, b, &vec![(a, tid2)], b"absorb".to_vec()).unwrap();
    let b2 = st.mapping[b].as_ref().unwrap()[0];
    assert!(mv_eq(&value_at(&rs, b2, 1), &resolved(b"v2")));
    assert!(mv_eq(&value_at(&rs, b2, 2), &resolved(b"own")));
}

#[test]
fn rebase_conflicting_paths_keeps_both_candidates() {
    // the ancestor and the child changed the same path differently: the
    // rebased child holds a conflict and materializing shows both sides
    let mut rs = new_repo_state();
    let a = commit_with_tree(&mut rs, vec![0], vec![(1, b"v1")], "a");
    let b = commit_with_tree(&mut rs, vec![a], vec![(1, b"childv")], "b");
    let t2 = tree_of(vec![(1, resolved(b"newv"))]);
    let tid2 = write_tree(&mut rs.store, t2);
    let st = cmd_absorb(&mut rs, b, &vec![(a, tid2)], b"absorb".to_vec()).unwrap();
    let b2 = st.mapping[b].as_ref().unwrap()[0];
    let v = value_at(&rs, b2, 1);
    assert_eq!(v.adds.len(), 2);
    assert_eq!(v.removes.len(), 1);
    let text = String::from_utf8_lossy(&materialize(&v)).to_string();
    assert!(text.contains("newv"));
    assert!(text.contains("childv"));
    assert!(text.contains("v1"));
}

#[test]
fn identical_fields_share_one_id() {
    // content addressing: writing identical field values twice is a no-op
    let mut rs = new_repo_state();
    let a1 = commit_with_tree(&mut rs, vec![0], vec![(1, b"same")], "same msg");
    let len_before = rs.store.commits.len();
    let a2 = commit_with_tree(&mut rs, vec![0], vec![(1, b"same")], "same msg");
    assert_eq!(a1, a2);
    assert_eq!(rs.store.commits.len(), len_before);
}

#[test]
fn bookmark_create_rejects_existing_and_tracked() {
    let mut rs = new_repo_state();
    let a = commit_with_tree(&mut rs, vec![0], vec![(1, b"a")], "a");
    cmd_bookmark_create(
        &mut rs,
        &b"ws".to_vec(),
        &BookmarkCreateArgs { revision: Some(a), names: vec![b"one".to_vec()] },
        b"create".to_vec(),
    )
    .unwrap();
    let err = cmd_bookmark_create(
        &mut rs,
        &b"ws".to_vec(),
        &BookmarkCreateArgs { revision: Some(a), names: vec![b"one".to_vec()] },
        b"again".to_vec(),
    )
    .unwrap_err();
    assert!(matches!(err, EngineError::User(UserError::BookmarkAlreadyExists { .. })));
    // a deleted bookmark with tracked remote counterparts cannot be recreated
    rs.ops[rs.head].view.tracked_remotes.push(b"two".to_vec());
    let err2 = cmd_bookmark_create(
        &mut rs,
        &b"ws".to_vec(),
        &BookmarkCreateArgs { revision: Some(a), names: vec![b"two".to_vec()] },
        b"tracked".to_vec(),
    )
    .unwrap_err();
    assert!(matches!(err2, EngineError::User(UserError::TrackedRemoteExists { .. })));
}

#[test]
fn bookmark_set_refuses_backwards_without_flag() {
    // bookmark at x; y is not a descendant of x: the move needs the flag
    let mut rs = new_repo_state();
    let x = commit_with_tree(&mut rs, vec![0], vec![(1, b"x")], "x");
    let y = commit_with_tree(&mut rs, vec![0], vec![(2, b"y")], "y");
    cmd_bookmark_create(
        &mut rs,
        &b"ws".to_vec(),
        &BookmarkCreateArgs { revision: Some(x), names: vec![b"b".to_vec()] },
        b"create".to_vec(),
    )
    .unwrap();
    let err = cmd_bookmark_set(
        &mut rs,
        &b"ws".to_vec(),
        &BookmarkSetArgs {
            revision: Some(y),
            allow_backwards: false,
            names: vec![b"b".to_vec()],
        },
        b"set".to_vec(),
    )
    .unwrap_err();
    assert!(matches!(err, EngineError::User(UserError::NonFastForward { .. })));
    // with the flag the move succeeds and the bookmark lands on y
    cmd_bookmark_set(
        &mut rs,
        &b"ws".to_vec(),
        &BookmarkSetArgs { revision: Some(y), allow_backwards: true, names: vec![b"b".to_vec()] },
        b"set".to_vec(),
    )
    .unwrap();
    let view = &rs.ops[rs.head].view;
    let target = rewrite_engine::view::get_local_bookmark(view, &b"b".to_vec());
    assert_eq!(target, Some(vec![y]));
}

#[test]
fn bookmark_set_counts_creations_and_moves() {
    // an absent untracked name counts as created; a name parked elsewhere
    // counts as moved; a resurrected name (absent but still tracked) counts
    // as moved, not created
    let mut rs = new_repo_state();
    let x = commit_with_tree(&mut rs, vec![0], vec![(1, b"x")], "x");
    let y = commit_with_tree(&mut rs, vec![x], vec![(1, b"x"), (2, b"y")], "y");
    cmd_bookmark_create(
        &mut rs,
        &b"ws".to_vec(),
        &BookmarkCreateArgs { revision: Some(x), names: vec![b"parked".to_vec()] },
        b"create".to_vec(),
    )
    .unwrap();
    rs.ops[rs.head].view.tracked_remotes.push(b"revived".to_vec());
    let st = cmd_bookmark_set(
        &mut rs,
        &b"ws".to_vec(),
        &BookmarkSetArgs {
            revision: Some(y),
            allow_backwards: false,
            names: vec![b"fresh".to_vec(), b"parked".to_vec(), b"revived".to_vec()],
        },
        b"set".to_vec(),
    )
    .unwrap();
    assert_eq!(st.target, y);
    assert_eq!(st.num_created, 1);
    assert_eq!(st.num_moved, 2);
}

#[test]
fn bookmark_set_forward_needs_no_flag() {
    let mut rs = new_repo_state();
    let x = commit_with_tree(&mut rs, vec![0], vec![(1, b"x")], "x");
    let y = commit_with_tree(&mut rs, vec![x], vec![(1, b"x"), (2, b"y")], "y");
    cmd_bookmark_create(
        &mut rs,
        &b"ws".to_vec(),
        &BookmarkCreateArgs { revision: Some(x), names: vec![b"b".to_vec()] },
        b"create".to_vec(),
    )
    .unwrap();
    cmd_bookmark_set(
        &mut rs,
        &b"ws".to_vec(),
        &BookmarkSetArgs { revision: Some(y), allow_backwards: false, names: vec![b"b".to_vec()] },
        b"set".to_vec(),
    )
    .unwrap();
    let view = &rs.ops[rs.head].view;
    let target = rewrite_engine::view::get_local_bookmark(view, &b"b".to_vec());
    assert_eq!(target, Some(vec![y]));
}

#[test]
fn describe_updates_only_changed_commits() {
    let mut rs = new_repo_state();
    let a = commit_with_tree(&mut rs, vec![0], vec![(1, b"a")], "old text");
    let b = commit_with_tree(&mut rs, vec![a], vec![(1, b"a"), (2, b"b")], "keep");
    let st = cmd_describe(
        &mut rs,
        vec![(a, b"new text".to_vec()), (b, b"keep".to_vec())],
        false,
        &None,
        b"describe".to_vec(),
    )
    .unwrap();
    // only a changes; b is left alone as a target but is rebased as a child
    assert_eq!(st.num_described, 1);
    assert_eq!(st.num_reparented, 1);
    let a2 = st.mapping[a].as_ref().unwrap()[0];
    assert_eq!(get_commit(&rs.store, a2).description, b"new text".to_vec());
    // the reparented child keeps its tree id
    let b2 = st.mapping[b].as_ref().unwrap()[0];
    assert_eq!(get_commit(&rs.store, b2).tree, get_commit(&rs.store, b).tree);
}

#[test]
fn describe_nothing_is_a_quiet_no_op() {
    let mut rs = new_repo_state();
    let ops_before = rs.ops.len();
    let st = cmd_describe(&mut rs, vec![], false, &None, b"noop".to_vec()).unwrap();
    assert_eq!(st.num_described, 0);
    assert_eq!(rs.ops.len(), ops_before);
}

#[test]
fn describe_root_is_immutable() {
    let mut rs = new_repo_state();
    let err = cmd_describe(
        &mut rs,
        vec![(0, b"text".to_vec())],
        false,
        &None,
        b"describe".to_vec(),
    )
    .unwrap_err();
    assert!(matches!(err, EngineError::ImmutableCommit { id: 0 }));
}

#[test]
fn unsign_root_is_immutable() {
    let mut rs = new_repo_state();
    let err = cmd_unsign(&mut rs, &UnsignArgs { revisions: vec![0] }, b"unsign".to_vec())
        .unwrap_err();
    assert!(matches!(err, EngineError::ImmutableCommit { id: 0 }));
}

#[test]
fn chmod_propagates_to_unchanged_descendants() {
    // a descendant that did not touch the path adopts the ancestor's new
    // executable bit through the automatic rebase
    let mut rs = new_repo_state();
    let x = commit_with_tree(&mut rs, vec![0], vec![(1, b"f")], "x");
    let c = commit_with_tree(&mut rs, vec![x], vec![(1, b"f"), (2, b"own")], "c");
    let st = cmd_file_chmod(&mut rs, x, &vec![1], true, b"chmod".to_vec()).unwrap();
    let c2 = st.mapping[c].as_ref().unwrap()[0];
    match &value_at(&rs, c2, 1).adds[0] {
        EntryValue::File { executable, .. } => assert!(*executable),
        _ => panic!("expected a file"),
    }
    assert!(mv_eq(&value_at(&rs, c2, 2), &resolved(b"own")));
}

#[test]
fn unsign_drops_signatures_and_reparents() {
    let mut rs = new_repo_state();
    let t = write_tree(&mut rs.store, tree_of(vec![(1, resolved(b"s"))]));
    let signed = write_commit(
        &mut rs.store,
        CommitData {
            parents: vec![0],
            tree: t,
            author: sig("a"),
            committer: sig("a"),
            description: b"signed".to_vec(),
            signature: Some(b"sig-bytes".to_vec()),
        },
    );
    let child = commit_with_tree(&mut rs, vec![signed], vec![(1, b"s"), (2, b"c")], "child");
    let st = cmd_unsign(
        &mut rs,
        &UnsignArgs { revisions: vec![signed, child] },
        b"unsign".to_vec(),
    )
    .unwrap();
    // the unsigned child is filtered out: only the signed commit is a target
    assert_eq!(st.num_unsigned, 1);
    let s2 = st.mapping[signed].as_ref().unwrap()[0];
    assert!(get_commit(&rs.store, s2).signature.is_none());
    assert_eq!(st.num_reparented, 1);
}

#[test]
fn edit_moves_the_working_copy() {
    let mut rs = new_repo_state();
    let a = commit_with_tree(&mut rs, vec![0], vec![(1, b"a")], "a");
    let already = cmd_edit(&mut rs, &b"ws".to_vec(), a, b"edit".to_vec()).unwrap();
    assert!(!already);
    let view = &rs.ops[rs.head].view;
    assert_eq!(rewrite_engine::view::get_wc_commit(view, &b"ws".to_vec()), Some(a));
    // editing the same commit again reports it and appends no operation
    let ops_before = rs.ops.len();
    let again = cmd_edit(&mut rs, &b"ws".to_vec(), a, b"edit".to_vec()).unwrap();
    assert!(again);
    assert_eq!(rs.ops.len(), ops_before);
}

#[test]
fn abandoned_working_copy_gets_a_fresh_empty_commit() {
    let mut rs = new_repo_state();
    let a = commit_with_tree(&mut rs, vec![0], vec![(1, b"a")], "a");
    let b = commit_with_tree(&mut rs, vec![a], vec![(1, b"a"), (2, b"b")], "b");
    cmd_edit(&mut rs, &b"ws".to_vec(), b, b"edit".to_vec()).unwrap();
    cmd_abandon(&mut rs, &vec![b], false, false, b"abandon".to_vec()).unwrap();
    let view = &rs.ops[rs.head].view;
    let wc = rewrite_engine::view::get_wc_commit(view, &b"ws".to_vec()).unwrap();
    let wc_data = get_commit(&rs.store, wc);
    assert_eq!(wc_data.parents, vec![a]);
    assert_eq!(wc_data.description, Vec::<u8>::new());
}

#[test]
fn file_list_filters_by_path() {
    let mut rs = new_repo_state();
    let a = commit_with_tree(&mut rs, vec![0], vec![(1, b"one"), (2, b"two"), (3, b"three")], "a");
    let all = cmd_file_list(&rs, a, &None).unwrap();
    assert_eq!(all.len(), 3);
    let some = cmd_file_list(&rs, a, &Some(vec![1, 3])).unwrap();
    assert_eq!(some.len(), 2);
    assert_eq!(some[0].path, 1);
    assert_eq!(some[1].path, 3);
    let err = cmd_file_list(&rs, 99, &None).unwrap_err();
    assert!(matches!(err, EngineError::Backend(BackendError::MissingCommit { id: 99 })));
}

#[test]
fn chmod_flips_the_bit_and_rejects_non_files() {
    let mut rs = new_repo_state();
    let t = tree_of(vec![
        (1, resolved(b"f")),
        (2, merge_resolved(EntryValue::Symlink { target: b"elsewhere".to_vec() })),
    ]);
    let tid = write_tree(&mut rs.store, t);
    let a = write_commit(
        &mut rs.store,
        CommitData {
            parents: vec![0],
            tree: tid,
            author: sig("a"),
            committer: sig("a"),
            description: b"a".to_vec(),
            signature: None,
        },
    );
    let st = cmd_file_chmod(&mut rs, a, &vec![1], true, b"chmod".to_vec()).unwrap();
    let a2 = st.mapping[a].as_ref().unwrap()[0];
    match &value_at(&rs, a2, 1).adds[0] {
        EntryValue::File { executable, .. } => assert!(*executable),
        _ => panic!("expected a file"),
    }
    // a symlink path is refused
    let err = cmd_file_chmod(&mut rs, a, &vec![2], true, b"chmod".to_vec()).unwrap_err();
    assert!(matches!(err, EngineError::User(UserError::NotAFile { path: 2 })));
}

#[test]
fn diff_lists_changed_paths() {
    let mut rs = new_repo_state();
    let a = commit_with_tree(&mut rs, vec![0], vec![(1, b"same"), (2, b"old")], "a");
    let b = commit_with_tree(&mut rs, vec![a], vec![(1, b"same"), (2, b"new"), (3, b"add")], "b");
    let d = cmd_diff(&rs, &vec![a], &vec![b], &None).unwrap();
    assert_eq!(d.len(), 2);
    assert_eq!(d[0].path, 2);
    assert!(mv_eq(&d[0].before, &resolved(b"old")));
    assert!(mv_eq(&d[0].after, &resolved(b"new")));
    assert_eq!(d[1].path, 3);
    assert!(mv_eq(&d[1].before, &merge_absent()));
    let filtered = cmd_diff(&rs, &vec![a], &vec![b], &Some(vec![3])).unwrap();
    assert_eq!(filtered.len(), 1);
}

#[test]
fn new_commit_merges_parent_trees() {
    let mut rs = new_repo_state();
    let a = commit_with_tree(&mut rs, vec![0], vec![(1, b"a")], "a");
    let b = commit_with_tree(&mut rs, vec![0], vec![(2, b"b")], "b");
    let st = cmd_new(
        &mut rs,
        &b"ws".to_vec(),
        &vec![a, b],
        &vec![],
        b"merge of a and b".to_vec(),
        sig("a"),
        true,
        b"new".to_vec(),
    )
    .unwrap();
    let n = get_commit(&rs.store, st.new_commit);
    assert_eq!(n.parents, vec![a, b]);
    assert_eq!(n.description, b"merge of a and b".to_vec());
    assert!(mv_eq(&value_at(&rs, st.new_commit, 1), &resolved(b"a")));
    assert!(mv_eq(&value_at(&rs, st.new_commit, 2), &resolved(b"b")));
    let view = &rs.ops[rs.head].view;
    assert_eq!(
        rewrite_engine::view::get_wc_commit(view, &b"ws".to_vec()),
        Some(st.new_commit)
    );
}

#[test]
fn new_insert_before_rebases_the_child() {
    let mut rs = new_repo_state();
    let a = commit_with_tree(&mut rs, vec![0], vec![(1, b"a")], "a");
    let c = commit_with_tree(&mut rs, vec![a], vec![(1, b"a"), (2, b"c")], "c");
    let st = cmd_new(
        &mut rs,
        &b"ws".to_vec(),
        &vec![a],
        &vec![c],
        b"inserted".to_vec(),
        sig("a"),
        false,
        b"new".to_vec(),
    )
    .unwrap();
    let c2 = st.mapping[c].as_ref().unwrap()[0];
    assert_eq!(get_commit(&rs.store, c2).parents, vec![st.new_commit]);
    assert!(mv_eq(&value_at(&rs, c2, 2), &resolved(b"c")));
    // the child itself counts as rebased
    assert_eq!(st.num_rebased, 1);
}

#[test]
fn commit_seals_the_working_copy() {
    let mut rs = new_repo_state();
    let a = commit_with_tree(&mut rs, vec![0], vec![(1, b"work")], "");
    cmd_edit(&mut rs, &b"ws".to_vec(), a, b"edit".to_vec()).unwrap();
    // seal everything (the selected tree is the whole working tree)
    let sealed_tree = get_commit(&rs.store, a).tree;
    let st = cmd_commit(
        &mut rs,
        &b"ws".to_vec(),
        sealed_tree,
        b"sealed message".to_vec(),
        false,
        &None,
        b"commit".to_vec(),
    )
    .unwrap();
    let sealed = get_commit(&rs.store, st.new_commit);
    assert_eq!(sealed.description, b"sealed message".to_vec());
    let wc = get_commit(&rs.store, st.new_wc);
    assert_eq!(wc.parents, vec![st.new_commit]);
    assert_eq!(wc.description, Vec::<u8>::new());
    let view = &rs.ops[rs.head].view;
    assert_eq!(rewrite_engine::view::get_wc_commit(view, &b"ws".to_vec()), Some(st.new_wc));
}

#[test]
fn commit_retargets_every_workspace_on_the_old_working_copy() {
    let mut rs = new_repo_state();
    let w = commit_with_tree(&mut rs, vec![0], vec![(1, b"work")], "");
    cmd_edit(&mut rs, &b"one".to_vec(), w, b"edit one".to_vec()).unwrap();
    cmd_edit(&mut rs, &b"two".to_vec(), w, b"edit two".to_vec()).unwrap();
    let sealed_tree = get_commit(&rs.store, w).tree;
    let st = cmd_commit(
        &mut rs,
        &b"one".to_vec(),
        sealed_tree,
        b"sealed".to_vec(),
        false,
        &None,
        b"commit".to_vec(),
    )
    .unwrap();
    let view = &rs.ops[rs.head].view;
    assert_eq!(rewrite_engine::view::get_wc_commit(view, &b"one".to_vec()), Some(st.new_wc));
    assert_eq!(rewrite_engine::view::get_wc_commit(view, &b"two".to_vec()), Some(st.new_wc));
}

#[test]
fn duplicate_onto_new_parents_copies_content() {
    let mut rs = new_repo_state();
    let a = commit_with_tree(&mut rs, vec![0], vec![(1, b"a")], "a");
    let b = commit_with_tree(&mut rs, vec![0], vec![(2, b"b")], "b");
    let st = cmd_duplicate(
        &mut rs,
        &vec![a],
        &Some((vec![b], vec![])),
        b"duplicate".to_vec(),
    )
    .unwrap();
    assert_eq!(st.duplicated.len(), 1);
    let (orig, copy) = st.duplicated[0];
    assert_eq!(orig, a);
    let cd = get_commit(&rs.store, copy);
    assert_eq!(cd.parents, vec![b]);
    assert_eq!(cd.tree, get_commit(&rs.store, a).tree);
    assert_eq!(cd.description, b"a".to_vec());
    // duplicating onto the unchanged parents dedupes to the same commit
    let st2 =
        cmd_duplicate(&mut rs, &vec![a], &None, b"duplicate again".to_vec()).unwrap();
    assert_eq!(st2.duplicated[0].1, a);
}

#[test]
fn duplicate_root_is_refused() {
    let mut rs = new_repo_state();
    let err = cmd_duplicate(&mut rs, &vec![0], &None, b"no".to_vec()).unwrap_err();
    assert!(matches!(err, EngineError::User(UserError::CannotDuplicateRoot)));
}

#[test]
fn revert_subtracts_a_change() {
    let mut rs = new_repo_state();
    let a = commit_with_tree(&mut rs, vec![0], vec![(1, b"base")], "a");
    let b = commit_with_tree(&mut rs, vec![a], vec![(1, b"base"), (2, b"added")], "b");
    let st = cmd_revert(
        &mut rs,
        vec![(b, b"revert of b".to_vec())],
        &vec![b],
        &vec![],
        sig("a"),
        b"revert".to_vec(),
    )
    .unwrap();
    assert_eq!(st.reverted.len(), 1);
    let r = st.reverted[0];
    let rd = get_commit(&rs.store, r);
    assert_eq!(rd.description, b"revert of b".to_vec());
    assert_eq!(rd.parents, vec![b]);
    // the reverse of "add path 2" removes path 2 and keeps path 1
    assert!(mv_eq(&value_at(&rs, r, 2), &merge_absent()));
    assert!(mv_eq(&value_at(&rs, r, 1), &resolved(b"base")));
}

#[test]
fn revert_splices_children_onto_the_chain() {
    // a child inserted after the reverted commit is rebased onto the chain,
    // its parent list rebuilt in order without duplicates
    let mut rs = new_repo_state();
    let a = commit_with_tree(&mut rs, vec![0], vec![(1, b"base")], "a");
    let b = commit_with_tree(&mut rs, vec![a], vec![(1, b"base"), (2, b"added")], "b");
    let child = commit_with_tree(&mut rs, vec![b], vec![(1, b"base"), (2, b"added"), (3, b"k")], "k");
    let st = cmd_revert(
        &mut rs,
        vec![(b, b"revert of b".to_vec())],
        &vec![b],
        &vec![child],
        sig("a"),
        b"revert".to_vec(),
    )
    .unwrap();
    let r = st.reverted[0];
    let child2 = st.mapping[child].as_ref().unwrap()[0];
    assert_eq!(get_commit(&rs.store, child2).parents, vec![r]);
    assert!(mv_eq(&value_at(&rs, child2, 3), &resolved(b"k")));
}

#[test]
fn absorb_abandons_an_emptied_source() {
    // the whole selection moves the source's only change into its parent;
    // the rebased source becomes empty and is abandoned
    let mut rs = new_repo_state();
    let a = commit_with_tree(&mut rs, vec![0], vec![(1, b"v1")], "a");
    let src = commit_with_tree(&mut rs, vec![a], vec![(1, b"v2")], "");
    let absorbed = tree_of(vec![(1, resolved(b"v2"))]);
    let absorbed_tid = write_tree(&mut rs.store, absorbed);
    let st = cmd_absorb(&mut rs, src, &vec![(a, absorbed_tid)], b"absorb".to_vec()).unwrap();
    assert!(st.abandoned_source.is_some());
    let a2 = st.mapping[a].as_ref().unwrap()[0];
    assert!(mv_eq(&value_at(&rs, a2, 1), &resolved(b"v2")));
}

#[test]
fn bookmark_create_without_working_copy_fails() {
    let mut rs = new_repo_state();
    let err = cmd_bookmark_create(
        &mut rs,
        &b"nowhere".to_vec(),
        &BookmarkCreateArgs { revision: None, names: vec![b"b".to_vec()] },
        b"create".to_vec(),
    )
    .unwrap_err();
    assert!(matches!(err, EngineError::User(UserError::NoWorkingCopy)));
}

#[test]
fn commit_with_missing_tree_fails() {
    let mut rs = new_repo_state();
    let a = commit_with_tree(&mut rs, vec![0], vec![(1, b"w")], "");
    cmd_edit(&mut rs, &b"ws".to_vec(), a, b"edit".to_vec()).unwrap();
    let err = cmd_commit(
        &mut rs,
        &b"ws".to_vec(),
        1234,
        b"msg".to_vec(),
        false,
        &None,
        b"commit".to_vec(),
    )
    .unwrap_err();
    assert!(matches!(err, EngineError::Backend(BackendError::MissingTree { id: 1234 })));
}

#[test]
fn transform_can_refresh_the_committer() {
    // a rewrite edit may carry a fresh committer stamp; the author follows it
    // when reset is asked for
    let mut rs = new_repo_state();
    let a = commit_with_tree(&mut rs, vec![0], vec![(1, b"a")], "a");
    let mut tx = start_transaction(&rs);
    let edit = CommitEdit {
        new_description: None,
        set_author_to_committer: true,
        new_author: None,
        new_committer: Some(Signature {
            name: b"fresh".to_vec(),
            email: b"fresh@example.net".to_vec(),
            timestamp: 99,
        }),
        drop_signature: false,
        new_tree: None,
        new_parents: None,
        rebase_tree: false,
    };
    let instrs = vec![Instruction { id: a, action: RewriteAction::Rewrite(edit) }];
    let mapping = transform_descendants(
        &mut tx.repo,
        &instrs,
        TransformOptions { rebase_descendants: false, delete_abandoned_bookmarks: false },
    )
    .unwrap();
    finish_transaction(&mut rs, tx, b"restamp".to_vec()).unwrap();
    let a2 = mapping[a].as_ref().unwrap()[0];
    let c = get_commit(&rs.store, a2);
    assert_eq!(c.committer.name, b"fresh".to_vec());
    assert_eq!(c.committer.timestamp, 99);
    assert_eq!(c.author.name, b"fresh".to_vec());
}

#[test]
fn concurrent_finish_is_refused() {
    let mut rs = new_repo_state();
    let tx1 = start_transaction(&rs);
    let tx2 = start_transaction(&rs);
    finish_transaction(&mut rs, tx1, b"first".to_vec()).unwrap();
    let err = finish_transaction(&mut rs, tx2, b"second".to_vec()).unwrap_err();
    assert!(matches!(err, EngineError::ConcurrentModification));
}
