use jj_repo::backend::{ChangeId, Commit, CommitId, Store, TreeId};
use jj_repo::branch::{branch_set, BranchSetError};
use jj_repo::ref_target::{merge_ref_targets, simplify, RefTarget};
use jj_repo::repo::{MutableRepo, ReadonlyRepo, RefName, RepoLoader};
use jj_repo::op_store::OperationId;

fn write(tx: &mut MutableRepo, store: &mut Store, parents: &[CommitId], description: &str) -> CommitId {
    let next = store.num_commits() as u64;
    let commit = Commit {
        parents: parents.to_vec(),
        predecessors: vec![],
        root_tree: TreeId(next),
        change_id: ChangeId(next),
        description: description.to_string(),
        is_open: false,
    };
    tx.write_commit(store, commit)
}

fn targets_equal(a: &Option<RefTarget>, b: &Option<RefTarget>) -> bool {
    match (a, b) {
        (None, None) => true,
        (Some(RefTarget::Normal(x)), Some(RefTarget::Normal(y))) => x == y,
        (
            Some(RefTarget::Conflict { removes: r1, adds: a1 }),
            Some(RefTarget::Conflict { removes: r2, adds: a2 }),
        ) => r1 == r2 && a1 == a2,
        _ => false,
    }
}

fn sorted(mut v: Vec<CommitId>) -> Vec<CommitId> {
    v.sort_by_key(|c| c.0);
    v
}

#[test]
fn init_view_has_checkout_and_root() {
    let (loader, repo) = ReadonlyRepo::init_local("repo".to_string());
    assert_eq!(repo.op_id(), OperationId(0));
    let view = repo.view();
    assert_eq!(view.heads(), vec![CommitId(1)]);
    assert_eq!(view.public_heads(), vec![CommitId(0)]);
    assert_eq!(view.get_checkout("default"), Some(CommitId(1)));
    let checkout = loader.store().get_commit(CommitId(1));
    assert!(checkout.is_open);
    assert_eq!(checkout.parents, vec![CommitId(0)]);
    assert!(loader.store().is_empty(CommitId(1)));
    assert_eq!(repo.repo_path(), "repo");
}

#[test]
fn merge_of_two_moves_is_a_conflict() {
    let base = RefTarget::normal(CommitId(1));
    let left = RefTarget::normal(CommitId(2));
    let right = RefTarget::normal(CommitId(3));
    let merged = merge_ref_targets(Some(&base), Some(&left), Some(&right));
    let expected = Some(RefTarget::Conflict { removes: vec![CommitId(1)], adds: vec![CommitId(2), CommitId(3)] });
    assert!(targets_equal(&merged, &expected));
}

#[test]
fn merge_takes_the_changed_side() {
    let base = RefTarget::normal(CommitId(1));
    let right = RefTarget::normal(CommitId(3));
    let merged = merge_ref_targets(Some(&base), Some(&base), Some(&right));
    assert!(targets_equal(&merged, &Some(RefTarget::normal(CommitId(3)))));
    let merged = merge_ref_targets(Some(&base), Some(&right), Some(&base));
    assert!(targets_equal(&merged, &Some(RefTarget::normal(CommitId(3)))));
    let merged = merge_ref_targets(Some(&base), None, Some(&base));
    assert!(targets_equal(&merged, &None));
}

#[test]
fn merge_of_equal_moves_cancels() {
    let base = RefTarget::normal(CommitId(1));
    let side = RefTarget::normal(CommitId(2));
    let other = RefTarget::Conflict { removes: vec![CommitId(2)], adds: vec![CommitId(2), CommitId(2)] };
    let merged = merge_ref_targets(Some(&base), Some(&side), Some(&other));
    let expected = Some(RefTarget::Conflict { removes: vec![CommitId(1)], adds: vec![CommitId(2), CommitId(2)] });
    assert!(targets_equal(&merged, &expected));
}

#[test]
fn simplify_collapses_and_cancels() {
    assert!(targets_equal(&simplify(&vec![CommitId(4)], &vec![]), &Some(RefTarget::normal(CommitId(4)))));
    assert!(targets_equal(&simplify(&vec![CommitId(4)], &vec![CommitId(4)]), &None));
    assert!(targets_equal(
        &simplify(&vec![CommitId(5), CommitId(4), CommitId(6)], &vec![CommitId(4), CommitId(7)]),
        &Some(RefTarget::Conflict { removes: vec![CommitId(7)], adds: vec![CommitId(5), CommitId(6)] })
    ));
}

#[test]
fn ancestry_and_heads() {
    let (mut loader, repo) = ReadonlyRepo::init_local("repo".to_string());
    let mut tx = repo.start_transaction();
    let store = loader.store_mut();
    let a = write(&mut tx, store, &[CommitId(0)], "a");
    let b = write(&mut tx, store, &[a], "b");
    let c = write(&mut tx, store, &[a], "c");
    let d = write(&mut tx, store, &[b, c], "d");
    assert!(store.is_ancestor(a, d));
    assert!(store.is_ancestor(d, d));
    assert!(!store.is_ancestor(b, c));
    assert!(!store.is_ancestor(d, a));
    assert!(!store.is_ancestor(CommitId(99), a));
    assert!(store.is_ancestor(CommitId(99), CommitId(99)));
    let heads = store.heads(&vec![a, b, c, b]);
    assert_eq!(heads, vec![b, c]);
    assert_eq!(store.heads(&heads), heads);
    assert_eq!(store.heads(&vec![a, d, c]), vec![d]);
    assert_eq!(store.heads(&vec![]), vec![]);
}

#[test]
fn setting_a_branch_twice_equals_setting_it_once() {
    let (mut loader, repo) = ReadonlyRepo::init_local("repo".to_string());
    let mut tx = repo.start_transaction();
    let a = write(&mut tx, loader.store_mut(), &[CommitId(0)], "a");
    let b = write(&mut tx, loader.store_mut(), &[a], "b");
    let mut once = repo.start_transaction();
    tx.set_remote_branch("main".to_string(), "origin".to_string(), RefTarget::normal(a));
    once.set_remote_branch("main".to_string(), "origin".to_string(), RefTarget::normal(a));
    tx.set_local_branch("main".to_string(), RefTarget::normal(a));
    tx.set_local_branch("main".to_string(), RefTarget::normal(b));
    once.set_local_branch("main".to_string(), RefTarget::normal(b));
    assert!(targets_equal(&tx.get_local_branch("main"), &once.get_local_branch("main")));
    assert!(targets_equal(&tx.get_local_branch("main"), &Some(RefTarget::normal(b))));
    assert!(targets_equal(&tx.get_remote_branch("main", "origin"), &once.get_remote_branch("main", "origin")));
    assert!(targets_equal(&tx.get_remote_branch("main", "origin"), &Some(RefTarget::normal(a))));
}

#[test]
fn branch_set_refuses_sideways() {
    let (mut loader, repo) = ReadonlyRepo::init_local("repo".to_string());
    let mut tx = repo.start_transaction();
    let x = write(&mut tx, loader.store_mut(), &[CommitId(0)], "x");
    let y = write(&mut tx, loader.store_mut(), &[CommitId(0)], "y");
    tx.set_local_branch("b".to_string(), RefTarget::normal(x));
    let names = vec!["b".to_string()];
    let result = branch_set(&mut tx, loader.store(), y, &names, false);
    assert_eq!(result, Err(BranchSetError::RefusingBackwards("b".to_string())));
    assert!(targets_equal(&tx.get_local_branch("b"), &Some(RefTarget::normal(x))));
    let result = branch_set(&mut tx, loader.store(), y, &names, true);
    assert_eq!(result, Ok(()));
    assert!(targets_equal(&tx.get_local_branch("b"), &Some(RefTarget::normal(y))));
}

#[test]
fn branch_set_moves_forward() {
    let (mut loader, repo) = ReadonlyRepo::init_local("repo".to_string());
    let mut tx = repo.start_transaction();
    let x = write(&mut tx, loader.store_mut(), &[CommitId(0)], "x");
    let y = write(&mut tx, loader.store_mut(), &[x], "y");
    tx.set_local_branch("b".to_string(), RefTarget::normal(x));
    tx.set_local_branch("c".to_string(), RefTarget::normal(x));
    let names = vec!["b".to_string(), "c".to_string()];
    assert_eq!(branch_set(&mut tx, loader.store(), y, &names, false), Ok(()));
    assert!(targets_equal(&tx.get_local_branch("b"), &Some(RefTarget::normal(y))));
    assert!(targets_equal(&tx.get_local_branch("c"), &Some(RefTarget::normal(y))));
}

#[test]
fn branch_set_needs_an_existing_branch() {
    let (mut loader, repo) = ReadonlyRepo::init_local("repo".to_string());
    let mut tx = repo.start_transaction();
    let x = write(&mut tx, loader.store_mut(), &[CommitId(0)], "x");
    tx.set_local_branch("b".to_string(), RefTarget::normal(x));
    let names = vec!["b".to_string(), "nope".to_string()];
    let result = branch_set(&mut tx, loader.store(), x, &names, true);
    assert_eq!(result, Err(BranchSetError::NoSuchBranch("nope".to_string())));
}

#[test]
fn concurrent_operations_are_merged() {
    let (mut loader, repo) = ReadonlyRepo::init_local("repo".to_string());
    let mut setup = repo.start_transaction();
    let x = write(&mut setup, loader.store_mut(), &[CommitId(0)], "x");
    let y = write(&mut setup, loader.store_mut(), &[CommitId(0)], "y");
    setup.set_local_branch("left".to_string(), RefTarget::normal(x));
    setup.set_local_branch("right".to_string(), RefTarget::normal(x));
    let o = setup.commit(&mut loader, "setup".to_string());
    let mut tx1 = o.start_transaction();
    let mut tx2 = o.start_transaction();
    tx1.set_local_branch("left".to_string(), RefTarget::normal(y));
    tx2.set_local_branch("right".to_string(), RefTarget::normal(y));
    let a = tx1.commit(&mut loader, "move left".to_string());
    let b = tx2.commit(&mut loader, "move right".to_string());
    let mut heads = loader.op_heads_store().get_heads();
    heads.sort_by_key(|h| h.0);
    assert_eq!(heads, vec![CommitId(a.op_id().0), CommitId(b.op_id().0)]);
    let merged = loader.load_at_head();
    let m = merged.op_id();
    assert_eq!(loader.op_heads_store().get_heads(), vec![CommitId(m.0)]);
    assert_eq!(loader.op_store().parents(m), vec![a.op_id(), b.op_id()]);
    assert!(targets_equal(&merged.view().get_local_branch("left"), &Some(RefTarget::normal(y))));
    assert!(targets_equal(&merged.view().get_local_branch("right"), &Some(RefTarget::normal(y))));
    let again = loader.load_at_head();
    assert_eq!(again.op_id(), m);
}

#[test]
fn committed_heads_are_dag_heads() {
    let (mut loader, repo) = ReadonlyRepo::init_local("repo".to_string());
    let mut tx = repo.start_transaction();
    let a = write(&mut tx, loader.store_mut(), &[CommitId(0)], "a");
    let b = write(&mut tx, loader.store_mut(), &[a], "b");
    tx.add_head(loader.store(), a);
    tx.set_tag("t".to_string(), RefTarget::normal(a));
    let done = tx.commit(&mut loader, "heads".to_string());
    assert_eq!(sorted(done.view().heads()), vec![CommitId(1), b]);
    assert_eq!(done.view().public_heads(), vec![CommitId(0)]);
}

#[test]
fn rebase_moves_descendants_of_rewritten_commit() {
    let (mut loader, repo) = ReadonlyRepo::init_local("repo".to_string());
    let mut tx = repo.start_transaction();
    let a = write(&mut tx, loader.store_mut(), &[CommitId(0)], "a");
    let b = write(&mut tx, loader.store_mut(), &[a], "b");
    let c = write(&mut tx, loader.store_mut(), &[b], "c");
    let b2 = write(&mut tx, loader.store_mut(), &[a], "b2");
    tx.set_local_branch("main".to_string(), RefTarget::normal(c));
    tx.record_rewritten_commit(b, b2);
    let rebased = tx.rebase_descendants(loader.store_mut());
    assert_eq!(rebased, 1);
    let c2 = CommitId(b2.0 + 1);
    let store = loader.store();
    let new_c = store.get_commit(c2);
    assert_eq!(new_c.parents, vec![b2]);
    assert_eq!(new_c.predecessors, vec![c]);
    assert_eq!(new_c.change_id, store.get_commit(c).change_id);
    assert_eq!(new_c.description, "c");
    assert!(targets_equal(&tx.get_local_branch("main"), &Some(RefTarget::normal(c2))));
    assert_eq!(store.get_commit(a).parents, vec![CommitId(0)]);
    assert_eq!(store.num_commits() as u64, c2.0 + 1);
}

#[test]
fn rebase_skips_abandoned_commit() {
    let (mut loader, repo) = ReadonlyRepo::init_local("repo".to_string());
    let mut tx = repo.start_transaction();
    let a = write(&mut tx, loader.store_mut(), &[CommitId(0)], "a");
    let b = write(&mut tx, loader.store_mut(), &[a], "b");
    let c = write(&mut tx, loader.store_mut(), &[b], "c");
    tx.set_local_branch("on-b".to_string(), RefTarget::normal(b));
    tx.record_abandoned_commit(b);
    let rebased = tx.rebase_descendants(loader.store_mut());
    assert_eq!(rebased, 1);
    let store = loader.store();
    let c2 = CommitId(c.0 + 1);
    assert_eq!(store.get_commit(c2).parents, vec![a]);
    assert!(targets_equal(&tx.get_local_branch("on-b"), &Some(RefTarget::normal(a))));
    let done = tx.commit(&mut loader, "abandon".to_string());
    assert_eq!(sorted(done.view().heads()), vec![CommitId(1), c2]);
}

#[test]
fn divergent_rewrite_makes_a_conflict() {
    let (mut loader, repo) = ReadonlyRepo::init_local("repo".to_string());
    let mut tx = repo.start_transaction();
    let a = write(&mut tx, loader.store_mut(), &[CommitId(0)], "a");
    let a1 = write(&mut tx, loader.store_mut(), &[CommitId(0)], "a1");
    let a2 = write(&mut tx, loader.store_mut(), &[CommitId(0)], "a2");
    tx.set_local_branch("main".to_string(), RefTarget::normal(a));
    tx.record_rewritten_commit(a, a1);
    tx.record_rewritten_commit(a, a2);
    assert_eq!(tx.rebase_descendants(loader.store_mut()), 0);
    let expected = Some(RefTarget::Conflict { removes: vec![], adds: vec![a1, a2] });
    assert!(targets_equal(&tx.get_local_branch("main"), &expected));
}

#[test]
fn check_out_closed_commit_writes_open_commit() {
    let (mut loader, repo) = ReadonlyRepo::init_local("repo".to_string());
    let mut tx = repo.start_transaction();
    let a = write(&mut tx, loader.store_mut(), &[CommitId(0)], "a");
    let wc = tx.check_out(loader.store_mut(), a);
    assert_ne!(wc, a);
    assert!(tx.working_view().heads().contains(&wc));
    let store = loader.store();
    assert!(store.get_commit(wc).is_open);
    assert_eq!(store.get_commit(wc).parents, vec![a]);
    assert_eq!(store.get_commit(wc).root_tree, store.get_commit(a).root_tree);
    assert_eq!(tx.get_checkout(), Some(wc));
    let done = tx.commit(&mut loader, "checkout".to_string());
    assert_eq!(done.view().get_checkout("default"), Some(wc));
}

#[test]
fn check_out_open_commit_abandons_empty_checkout() {
    let (mut loader, repo) = ReadonlyRepo::init_local("repo".to_string());
    let mut tx = repo.start_transaction();
    let next = loader.store().num_commits() as u64;
    let open = Commit {
        parents: vec![CommitId(0)],
        predecessors: vec![],
        root_tree: TreeId(5),
        change_id: ChangeId(next),
        description: "open".to_string(),
        is_open: true,
    };
    let o = tx.write_commit(loader.store_mut(), open);
    let wc = tx.check_out(loader.store_mut(), o);
    assert_eq!(wc, o);
    assert_eq!(tx.get_checkout(), Some(o));
    tx.rebase_descendants(loader.store_mut());
    let done = tx.commit(&mut loader, "checkout".to_string());
    assert_eq!(done.view().heads(), vec![o]);
}

#[test]
fn view_merge_combines_tags() {
    let (mut loader, repo) = ReadonlyRepo::init_local("repo".to_string());
    let mut setup = repo.start_transaction();
    let x = write(&mut setup, loader.store_mut(), &[CommitId(0)], "x");
    let y = write(&mut setup, loader.store_mut(), &[CommitId(0)], "y");
    let base = setup.commit(&mut loader, "setup".to_string());
    let mut left = base.start_transaction();
    left.set_tag("t".to_string(), RefTarget::normal(x));
    left.set_tag("only-left".to_string(), RefTarget::normal(x));
    let left = left.commit(&mut loader, "left".to_string());
    let mut right = base.start_transaction();
    right.set_tag("t".to_string(), RefTarget::normal(y));
    let right = right.commit(&mut loader, "right".to_string());
    let mut tx = left.start_transaction();
    tx.merge(loader.store(), &base, &right);
    let expected = Some(RefTarget::Conflict { removes: vec![], adds: vec![x, y] });
    assert!(targets_equal(&tx.get_tag("t"), &expected));
    assert!(targets_equal(&tx.get_tag("only-left"), &Some(RefTarget::normal(x))));
}

#[test]
fn merge_single_ref_merges_one_branch() {
    let (mut loader, repo) = ReadonlyRepo::init_local("repo".to_string());
    let mut tx = repo.start_transaction();
    let x = write(&mut tx, loader.store_mut(), &[CommitId(0)], "x");
    let y = write(&mut tx, loader.store_mut(), &[CommitId(0)], "y");
    tx.set_local_branch("b".to_string(), RefTarget::normal(x));
    let base = RefTarget::normal(x);
    let other = RefTarget::normal(y);
    tx.merge_single_ref(&RefName::LocalBranch("b".to_string()), Some(&base), Some(&other));
    assert!(targets_equal(&tx.get_local_branch("b"), &Some(RefTarget::normal(y))));
    tx.merge_single_ref(&RefName::Tag("t".to_string()), None, Some(&other));
    assert!(targets_equal(&tx.get_tag("t"), &Some(RefTarget::normal(y))));
}

#[test]
fn loader_reloads_at_operation() {
    let (mut loader, repo) = ReadonlyRepo::init_local("repo".to_string());
    let mut tx = repo.start_transaction();
    let x = write(&mut tx, loader.store_mut(), &[CommitId(0)], "x");
    tx.set_tag("t".to_string(), RefTarget::normal(x));
    let after = tx.commit(&mut loader, "tag".to_string());
    let back = after.reload_at(&loader, OperationId(0));
    assert!(targets_equal(&back.view().get_tag("t"), &None));
    let head = after.reload(&mut loader);
    assert_eq!(head.op_id(), after.op_id());
    assert!(targets_equal(&head.view().get_tag("t"), &Some(RefTarget::normal(x))));
    let loaded = ReadonlyRepo::load(&mut loader);
    assert_eq!(loaded.op_id(), after.op_id());
    let _unused: &RepoLoader = &loader;
}

#[test]
fn has_changes_compares_with_the_base_view() {
    let (mut loader, repo) = ReadonlyRepo::init_local("repo".to_string());
    let mut tx = repo.start_transaction();
    assert!(!tx.has_changes(loader.store()));
    let a = write(&mut tx, loader.store_mut(), &[CommitId(0)], "a");
    assert!(tx.has_changes(loader.store()));
    let mut other = repo.start_transaction();
    other.set_tag("t".to_string(), RefTarget::normal(a));
    assert!(other.has_changes(loader.store()));
    other.remove_tag("t");
    assert!(!other.has_changes(loader.store()));
}

#[test]
fn set_view_replaces_the_working_view() {
    let (mut loader, repo) = ReadonlyRepo::init_local("repo".to_string());
    let mut tx = repo.start_transaction();
    let a = write(&mut tx, loader.store_mut(), &[CommitId(0)], "a");
    tx.set_git_head(a);
    let snapshot = tx.commit(&mut loader, "git head".to_string());
    let mut tx = repo.start_transaction();
    assert_eq!(tx.working_view().git_head(), None);
    tx.set_view(snapshot.view().duplicate());
    assert_eq!(tx.working_view().git_head(), Some(a));
    tx.clear_git_head();
    assert_eq!(tx.working_view().git_head(), None);
    let copy = loader.create_from(snapshot.op_id(), snapshot.view().duplicate());
    assert_eq!(copy.op_id(), snapshot.op_id());
    assert_eq!(copy.view().git_head(), Some(a));
}

#[test]
fn records_can_be_cleared() {
    let (mut loader, repo) = ReadonlyRepo::init_local("repo".to_string());
    let mut tx = repo.start_transaction();
    let a = write(&mut tx, loader.store_mut(), &[CommitId(0)], "a");
    let b = write(&mut tx, loader.store_mut(), &[a], "b");
    let a2 = write(&mut tx, loader.store_mut(), &[CommitId(0)], "a2");
    tx.record_rewritten_commit(a, a2);
    tx.record_abandoned_commit(b);
    tx.clear_rewritten_commits();
    tx.clear_abandoned_commits();
    assert_eq!(tx.rebase_descendants(loader.store_mut()), 0);
    assert_eq!(loader.store().num_commits() as u64, a2.0 + 1);
}

#[test]
fn repo_refs_see_their_views() {
    let (mut loader, repo) = ReadonlyRepo::init_local("repo".to_string());
    let mut tx = repo.start_transaction();
    let a = write(&mut tx, loader.store_mut(), &[CommitId(0)], "a");
    tx.set_tag("t".to_string(), RefTarget::normal(a));
    let readonly = repo.as_repo_ref();
    assert!(targets_equal(&readonly.view().get_tag("t"), &None));
    assert_eq!(readonly.base_repo().op_id(), repo.op_id());
    let mutable = tx.as_repo_ref();
    assert!(targets_equal(&mutable.view().get_tag("t"), &Some(RefTarget::normal(a))));
    assert_eq!(mutable.base_repo().op_id(), repo.op_id());
    assert!(targets_equal(&mutable.base_repo().view().get_tag("t"), &None));
}

#[test]
fn remote_branches_and_git_refs() {
    let (mut loader, repo) = ReadonlyRepo::init_local("repo".to_string());
    let mut tx = repo.start_transaction();
    let a = write(&mut tx, loader.store_mut(), &[CommitId(0)], "a");
    tx.set_remote_branch("main".to_string(), "origin".to_string(), RefTarget::normal(a));
    assert!(targets_equal(&tx.get_local_branch("main"), &None));
    assert!(tx.get_branch("main").is_some());
    tx.remove_remote_branch("main", "origin");
    assert!(tx.get_branch("main").is_none());
    tx.set_git_ref("refs/heads/main".to_string(), RefTarget::normal(a));
    assert!(targets_equal(&tx.working_view().get_git_ref("refs/heads/main"), &Some(RefTarget::normal(a))));
    tx.remove_git_ref("refs/heads/main");
    assert!(targets_equal(&tx.working_view().get_git_ref("refs/heads/main"), &None));
    tx.set_local_branch("b".to_string(), RefTarget::normal(a));
    tx.remove_local_branch("b");
    assert!(tx.get_branch("b").is_none());
    tx.set_local_branch("b".to_string(), RefTarget::normal(a));
    tx.remove_branch("b");
    assert!(tx.get_branch("b").is_none());
    tx.add_public_head(a);
    tx.remove_public_head(a);
    tx.remove_head(a);
    let done = tx.commit(&mut loader, "refs".to_string());
    assert_eq!(done.view().public_heads(), vec![CommitId(0)]);
}

#[test]
fn rebase_moves_tags_git_refs_and_remote_targets() {
    let (mut loader, repo) = ReadonlyRepo::init_local("repo".to_string());
    let mut tx = repo.start_transaction();
    let a = write(&mut tx, loader.store_mut(), &[CommitId(0)], "a");
    let b = write(&mut tx, loader.store_mut(), &[a], "b");
    let a2 = write(&mut tx, loader.store_mut(), &[CommitId(0)], "a2");
    tx.set_tag("v1".to_string(), RefTarget::normal(a));
    tx.set_git_ref("refs/heads/x".to_string(), RefTarget::normal(b));
    tx.set_remote_branch("main".to_string(), "origin".to_string(), RefTarget::normal(a));
    tx.set_tag("old".to_string(), RefTarget::normal(b));
    tx.record_rewritten_commit(a, a2);
    assert_eq!(tx.rebase_descendants(loader.store_mut()), 1);
    let b2 = CommitId(a2.0 + 1);
    assert_eq!(loader.store().get_commit(b2).parents, vec![a2]);
    assert!(targets_equal(&tx.get_tag("v1"), &Some(RefTarget::normal(a2))));
    assert!(targets_equal(&tx.get_tag("old"), &Some(RefTarget::normal(b2))));
    assert!(targets_equal(&tx.working_view().get_git_ref("refs/heads/x"), &Some(RefTarget::normal(b2))));
    assert!(targets_equal(&tx.get_remote_branch("main", "origin"), &Some(RefTarget::normal(a2))));
}

#[test]
fn view_recomputes_dirty_heads() {
    let (mut loader, repo) = ReadonlyRepo::init_local("repo".to_string());
    let mut tx = repo.start_transaction();
    let a = write(&mut tx, loader.store_mut(), &[CommitId(0)], "a");
    let b = write(&mut tx, loader.store_mut(), &[a], "b");
    tx.add_public_head(a);
    assert!(tx.working_view().heads().contains(&b));
    assert_eq!(sorted(tx.view(loader.store()).heads()), vec![CommitId(1), b]);
    assert_eq!(tx.view(loader.store()).public_heads(), vec![a]);
}

#[test]
fn load_after_init_is_the_initial_operation() {
    let (mut loader, repo) = ReadonlyRepo::init_local("repo".to_string());
    let loaded = ReadonlyRepo::load(&mut loader);
    assert_eq!(loaded.op_id(), repo.op_id());
    assert_eq!(loaded.view().heads(), repo.view().heads());
    assert_eq!(loaded.repo_path(), "repo");
    assert_eq!(loader.op_store().num_operations(), 1);
    let store = loader.store();
    assert_eq!(store.get_commit(CommitId(1)).root_tree, TreeId(0));
    assert_eq!(store.get_commit(CommitId(1)).description, "");
}

#[test]
fn legacy_store_file_names_the_git_repo() {
    let contents: Vec<char> = "git: /home/user/repo/.git".chars().collect();
    let target: String = RepoLoader::legacy_git_target(&contents).unwrap().into_iter().collect();
    assert_eq!(target, "/home/user/repo/.git");
    let other: Vec<char> = "local".chars().collect();
    assert!(RepoLoader::legacy_git_target(&other).is_none());
}
