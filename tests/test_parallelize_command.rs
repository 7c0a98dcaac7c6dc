use jj_repo::backend::{ChangeId, Commit, CommitId, Store, TreeId};
use jj_repo::parallelize::ParallelizeError;
use jj_repo::repo::{MutableRepo, ReadonlyRepo, RepoLoader};

fn write(tx: &mut MutableRepo, store: &mut Store, parents: &[CommitId], description: &str) -> CommitId {
    let next = store.num_commits() as u64;
    let commit = Commit {
        parents: parents.to_vec(),
        predecessors: vec![],
        root_tree: TreeId(0),
        change_id: ChangeId(next),
        description: description.to_string(),
        is_open: false,
    };
    tx.write_commit(store, commit)
}

fn visible(store: &Store, heads: &[CommitId]) -> Vec<CommitId> {
    let mut seen: Vec<CommitId> = vec![];
    let mut pending: Vec<CommitId> = heads.to_vec();
    while let Some(id) = pending.pop() {
        if seen.contains(&id) {
            continue;
        }
        seen.push(id);
        for p in &store.get_commit(id).parents {
            pending.push(*p);
        }
    }
    seen
}

fn find(loader: &RepoLoader, repo: &ReadonlyRepo, description: &str) -> CommitId {
    let store = loader.store();
    let heads = repo.view().heads();
    let found: Vec<CommitId> = visible(store, &heads)
        .into_iter()
        .filter(|id| store.get_commit(*id).description == description)
        .collect();
    assert_eq!(found.len(), 1, "visible commits described {description}");
    found[0]
}

fn parents_of(loader: &RepoLoader, repo: &ReadonlyRepo, description: &str) -> Vec<String> {
    let store = loader.store();
    let id = find(loader, repo, description);
    store
        .get_commit(id)
        .parents
        .iter()
        .filter(|p| p.0 != 0)
        .map(|p| store.get_commit(*p).description.clone())
        .collect()
}

fn start() -> (RepoLoader, MutableRepo) {
    let (loader, repo) = ReadonlyRepo::init_local("repo".to_string());
    let tx = repo.start_transaction();
    (loader, tx)
}

fn finish(mut loader: RepoLoader, tx: MutableRepo) -> (RepoLoader, ReadonlyRepo) {
    let repo = tx.commit(&mut loader, "test".to_string());
    (loader, repo)
}

fn chain(tx: &mut MutableRepo, store: &mut Store, n: usize) -> Vec<CommitId> {
    let mut ids = vec![];
    let mut parent = CommitId(0);
    for i in 1..=n {
        let id = write(tx, store, &[parent], &i.to_string());
        ids.push(id);
        parent = id;
    }
    ids
}

#[test]
fn test_parallelize_no_descendants() {
    let (mut loader, mut tx) = start();
    let ids = chain(&mut tx, loader.store_mut(), 6);
    tx.set_checkout(ids[5]);
    let targets = ids.clone();
    let rewrites = tx.parallelize(loader.store_mut(), &targets).unwrap();
    assert!(!rewrites.is_empty());
    let (loader, repo) = finish(loader, tx);
    for n in 1..=6 {
        assert_eq!(parents_of(&loader, &repo, &n.to_string()), Vec::<String>::new());
    }
    let wc = repo.view().get_checkout("default").unwrap();
    assert_eq!(loader.store().get_commit(wc).description, "6");
}

#[test]
fn test_parallelize_with_descendants_simple() {
    let (mut loader, mut tx) = start();
    let ids = chain(&mut tx, loader.store_mut(), 6);
    tx.set_checkout(ids[5]);
    let change_of_4 = loader.store().get_commit(ids[3]).change_id;
    tx.parallelize(loader.store_mut(), &ids[0..4].to_vec()).unwrap();
    let (loader, repo) = finish(loader, tx);
    for n in 1..=4 {
        assert_eq!(parents_of(&loader, &repo, &n.to_string()), Vec::<String>::new());
    }
    assert_eq!(parents_of(&loader, &repo, "5"), vec!["1", "2", "3", "4"]);
    assert_eq!(parents_of(&loader, &repo, "6"), vec!["5"]);
    let new_4 = find(&loader, &repo, "4");
    assert_eq!(loader.store().get_commit(new_4).change_id, change_of_4);
    let wc = repo.view().get_checkout("default").unwrap();
    assert_eq!(loader.store().get_commit(wc).description, "6");
}

#[test]
fn test_parallelize_where_interior_has_non_target_children() {
    let (mut loader, mut tx) = start();
    let ids = chain(&mut tx, loader.store_mut(), 5);
    let c2 = write(&mut tx, loader.store_mut(), &[ids[1]], "2c");
    let wc = write(&mut tx, loader.store_mut(), &[ids[4]], "6");
    tx.set_checkout(wc);
    assert!(c2.0 > ids[4].0);
    tx.parallelize(loader.store_mut(), &ids[0..4].to_vec()).unwrap();
    let (loader, repo) = finish(loader, tx);
    for n in 1..=4 {
        assert_eq!(parents_of(&loader, &repo, &n.to_string()), Vec::<String>::new());
    }
    assert_eq!(parents_of(&loader, &repo, "5"), vec!["1", "2", "3", "4"]);
    assert_eq!(parents_of(&loader, &repo, "2c"), vec!["1", "2"]);
    assert_eq!(parents_of(&loader, &repo, "6"), vec!["5"]);
}

#[test]
fn test_parallelize_where_root_has_non_target_children() {
    let (mut loader, mut tx) = start();
    let ids = chain(&mut tx, loader.store_mut(), 3);
    let c1 = write(&mut tx, loader.store_mut(), &[ids[0]], "1c");
    let wc = write(&mut tx, loader.store_mut(), &[ids[2]], "4");
    tx.set_checkout(wc);
    tx.parallelize(loader.store_mut(), &ids[0..3].to_vec()).unwrap();
    let (loader, repo) = finish(loader, tx);
    assert_eq!(parents_of(&loader, &repo, "4"), vec!["1", "2", "3"]);
    assert_eq!(parents_of(&loader, &repo, "3"), Vec::<String>::new());
    assert_eq!(parents_of(&loader, &repo, "2"), Vec::<String>::new());
    assert_eq!(parents_of(&loader, &repo, "1c"), vec!["1"]);
    assert_eq!(find(&loader, &repo, "1c"), c1);
    assert_eq!(find(&loader, &repo, "1"), ids[0]);
}

#[test]
fn test_parallelize_with_merge_commit_child() {
    let (mut loader, mut tx) = start();
    let ids = chain(&mut tx, loader.store_mut(), 3);
    let a = write(&mut tx, loader.store_mut(), &[CommitId(0)], "a");
    write(&mut tx, loader.store_mut(), &[ids[1], a], "2a-c");
    let wc = write(&mut tx, loader.store_mut(), &[ids[2]], "4");
    tx.set_checkout(wc);
    tx.parallelize(loader.store_mut(), &ids[0..3].to_vec()).unwrap();
    let (loader, repo) = finish(loader, tx);
    assert_eq!(parents_of(&loader, &repo, "4"), vec!["1", "2", "3"]);
    assert_eq!(parents_of(&loader, &repo, "3"), Vec::<String>::new());
    assert_eq!(parents_of(&loader, &repo, "2a-c"), vec!["1", "2", "a"]);
    assert_eq!(parents_of(&loader, &repo, "a"), Vec::<String>::new());
    assert_eq!(parents_of(&loader, &repo, "2"), Vec::<String>::new());
}

#[test]
fn test_parallelize_disconnected_target_commits() {
    let (mut loader, mut tx) = start();
    let ids = chain(&mut tx, loader.store_mut(), 3);
    tx.set_checkout(ids[2]);
    let before = loader.store().num_commits();
    let rewrites = tx.parallelize(loader.store_mut(), &vec![ids[0], ids[2]]).unwrap();
    assert!(rewrites.is_empty());
    assert_eq!(loader.store().num_commits(), before);
    let (loader, repo) = finish(loader, tx);
    assert_eq!(parents_of(&loader, &repo, "3"), vec!["2"]);
    assert_eq!(parents_of(&loader, &repo, "2"), vec!["1"]);
    assert_eq!(parents_of(&loader, &repo, "1"), Vec::<String>::new());
}

// The roots' external parent is 0, so every target, the merge included,
// moves onto 0 alone.
#[test]
fn test_parallelize_head_is_a_merge() {
    let (mut loader, mut tx) = start();
    let c0 = write(&mut tx, loader.store_mut(), &[CommitId(0)], "0");
    let c1 = write(&mut tx, loader.store_mut(), &[c0], "1");
    let c2 = write(&mut tx, loader.store_mut(), &[c1], "2");
    let a = write(&mut tx, loader.store_mut(), &[CommitId(0)], "a");
    let b = write(&mut tx, loader.store_mut(), &[a], "b");
    let m = write(&mut tx, loader.store_mut(), &[c2, b], "merged-head");
    tx.set_checkout(m);
    tx.parallelize(loader.store_mut(), &vec![c1, c2, m]).unwrap();
    let (loader, repo) = finish(loader, tx);
    assert_eq!(parents_of(&loader, &repo, "merged-head"), vec!["0"]);
    assert_eq!(parents_of(&loader, &repo, "2"), vec!["0"]);
    assert_eq!(parents_of(&loader, &repo, "1"), vec!["0"]);
    assert_eq!(parents_of(&loader, &repo, "0"), Vec::<String>::new());
}

// The roots' external parent is 0, so 2 and 3 move onto 0 alone, and a is
// no longer an ancestor of a head.
#[test]
fn test_parallelize_interior_target_is_a_merge() {
    let (mut loader, mut tx) = start();
    let c0 = write(&mut tx, loader.store_mut(), &[CommitId(0)], "0");
    let c1 = write(&mut tx, loader.store_mut(), &[c0], "1");
    let a = write(&mut tx, loader.store_mut(), &[CommitId(0)], "a");
    let c2 = write(&mut tx, loader.store_mut(), &[c1, a], "2");
    let c3 = write(&mut tx, loader.store_mut(), &[c2], "3");
    tx.set_checkout(c3);
    tx.parallelize(loader.store_mut(), &vec![c1, c2, c3]).unwrap();
    let (loader, repo) = finish(loader, tx);
    assert_eq!(parents_of(&loader, &repo, "3"), vec!["0"]);
    assert_eq!(parents_of(&loader, &repo, "2"), vec!["0"]);
    assert_eq!(parents_of(&loader, &repo, "1"), vec!["0"]);
    assert_eq!(parents_of(&loader, &repo, "0"), Vec::<String>::new());
}

#[test]
fn test_parallelize_root_is_a_merge() {
    let (mut loader, mut tx) = start();
    let y = write(&mut tx, loader.store_mut(), &[CommitId(0)], "y");
    let x = write(&mut tx, loader.store_mut(), &[CommitId(0)], "x");
    let c1 = write(&mut tx, loader.store_mut(), &[y, x], "1");
    let c2 = write(&mut tx, loader.store_mut(), &[c1], "2");
    let c3 = write(&mut tx, loader.store_mut(), &[c2], "3");
    tx.set_checkout(c3);
    tx.parallelize(loader.store_mut(), &vec![c1, c2]).unwrap();
    let (loader, repo) = finish(loader, tx);
    assert_eq!(parents_of(&loader, &repo, "3"), vec!["1", "2"]);
    assert_eq!(parents_of(&loader, &repo, "2"), vec!["y", "x"]);
    assert_eq!(parents_of(&loader, &repo, "1"), vec!["y", "x"]);
}

#[test]
fn test_parallelize_multiple_heads() {
    let (mut loader, mut tx) = start();
    let c0 = write(&mut tx, loader.store_mut(), &[CommitId(0)], "0");
    let c1 = write(&mut tx, loader.store_mut(), &[c0], "1");
    let c2 = write(&mut tx, loader.store_mut(), &[c0], "2");
    tx.set_checkout(c2);
    tx.parallelize(loader.store_mut(), &vec![c0, c1, c2]).unwrap();
    let (loader, repo) = finish(loader, tx);
    assert_eq!(parents_of(&loader, &repo, "2"), Vec::<String>::new());
    assert_eq!(parents_of(&loader, &repo, "1"), Vec::<String>::new());
    assert_eq!(parents_of(&loader, &repo, "0"), Vec::<String>::new());
}

// All heads must have the same children as the other heads, but only if they
// have children. In this test only one head has children, so the command
// succeeds.
#[test]
fn test_parallelize_multiple_heads_with_and_without_children() {
    let (mut loader, mut tx) = start();
    let c0 = write(&mut tx, loader.store_mut(), &[CommitId(0)], "0");
    let c1 = write(&mut tx, loader.store_mut(), &[c0], "1");
    let c2 = write(&mut tx, loader.store_mut(), &[c0], "2");
    tx.set_checkout(c2);
    tx.parallelize(loader.store_mut(), &vec![c0, c1]).unwrap();
    let (loader, repo) = finish(loader, tx);
    assert_eq!(parents_of(&loader, &repo, "2"), vec!["0"]);
    assert_eq!(parents_of(&loader, &repo, "0"), Vec::<String>::new());
    assert_eq!(parents_of(&loader, &repo, "1"), Vec::<String>::new());
}

#[test]
fn test_parallelize_multiple_roots() {
    let (mut loader, mut tx) = start();
    let c1 = write(&mut tx, loader.store_mut(), &[CommitId(0)], "1");
    let a = write(&mut tx, loader.store_mut(), &[CommitId(0)], "a");
    let c2 = write(&mut tx, loader.store_mut(), &[c1, a], "2");
    let c3 = write(&mut tx, loader.store_mut(), &[c2], "3");
    tx.set_checkout(c3);
    tx.parallelize(loader.store_mut(), &vec![c1, a, c2, c3]).unwrap();
    let (loader, repo) = finish(loader, tx);
    assert_eq!(parents_of(&loader, &repo, "3"), Vec::<String>::new());
    assert_eq!(parents_of(&loader, &repo, "2"), Vec::<String>::new());
    assert_eq!(parents_of(&loader, &repo, "a"), Vec::<String>::new());
    assert_eq!(parents_of(&loader, &repo, "1"), Vec::<String>::new());
}

// The heads 2 and b each have a child outside the targets that the other
// head lacks, which is refused.
#[test]
fn test_parallelize_multiple_heads_with_different_children() {
    let (mut loader, mut tx) = start();
    let ids = chain(&mut tx, loader.store_mut(), 3);
    let a = write(&mut tx, loader.store_mut(), &[CommitId(0)], "a");
    let b = write(&mut tx, loader.store_mut(), &[a], "b");
    let c = write(&mut tx, loader.store_mut(), &[b], "c");
    tx.set_checkout(c);
    let before = loader.store().num_commits();
    let result = tx.parallelize(loader.store_mut(), &vec![ids[0], ids[1], a, b]);
    assert_eq!(result, Err(ParallelizeError::HeadsHaveDifferentChildren));
    assert_eq!(loader.store().num_commits(), before);
}

// The roots' external parents are 1 and a, so every target moves onto both.
#[test]
fn test_parallelize_multiple_roots_with_different_parents() {
    let (mut loader, mut tx) = start();
    let c1 = write(&mut tx, loader.store_mut(), &[CommitId(0)], "1");
    let c2 = write(&mut tx, loader.store_mut(), &[c1], "2");
    let a = write(&mut tx, loader.store_mut(), &[CommitId(0)], "a");
    let b = write(&mut tx, loader.store_mut(), &[a], "b");
    let m = write(&mut tx, loader.store_mut(), &[c2, b], "merged-head");
    tx.set_checkout(m);
    tx.parallelize(loader.store_mut(), &vec![c2, b, m]).unwrap();
    let (loader, repo) = finish(loader, tx);
    assert_eq!(parents_of(&loader, &repo, "merged-head"), vec!["1", "a"]);
    assert_eq!(parents_of(&loader, &repo, "2"), vec!["1", "a"]);
    assert_eq!(parents_of(&loader, &repo, "b"), vec!["1", "a"]);
}

#[test]
fn test_parallelize_complex_nonlinear_target() {
    let (mut loader, mut tx) = start();
    let c0 = write(&mut tx, loader.store_mut(), &[CommitId(0)], "0");
    let c1 = write(&mut tx, loader.store_mut(), &[c0], "1");
    let c2 = write(&mut tx, loader.store_mut(), &[c0], "2");
    let c3 = write(&mut tx, loader.store_mut(), &[c0], "3");
    let c4 = write(&mut tx, loader.store_mut(), &[c3, c2, c1], "4");
    write(&mut tx, loader.store_mut(), &[c1], "1c");
    write(&mut tx, loader.store_mut(), &[c2], "2c");
    let c3c = write(&mut tx, loader.store_mut(), &[c3], "3c");
    tx.set_checkout(c3c);
    tx.parallelize(loader.store_mut(), &vec![c0, c1, c2, c3, c4]).unwrap();
    let (loader, repo) = finish(loader, tx);
    assert_eq!(parents_of(&loader, &repo, "3c"), vec!["0", "3"]);
    assert_eq!(parents_of(&loader, &repo, "2c"), vec!["0", "2"]);
    assert_eq!(parents_of(&loader, &repo, "1c"), vec!["0", "1"]);
    for n in 0..=4 {
        assert_eq!(parents_of(&loader, &repo, &n.to_string()), Vec::<String>::new());
    }
    let wc = repo.view().get_checkout("default").unwrap();
    assert_eq!(loader.store().get_commit(wc).description, "3c");
}
