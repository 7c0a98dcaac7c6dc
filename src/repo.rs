//! Repositories: a read-only snapshot at one operation, and the mutable
//! repository of a transaction that stages changes to the view.

use vstd::prelude::*;
use crate::backend::{CommitId, Commit, Store, ChangeId, TreeId, set_of, contains_id, copy_ids, lemma_set_of_prefix, ROOT_COMMIT, EMPTY_TREE};
use crate::rebase::{rebase_commits, image_ok, img_model, images_below, is_rebased_copy, image_vec, lemma_image_ok_extend_pub};
use crate::view::{image_set, branch_rebased, branch_opt, maps_rebased, views_merged, target_opt, with_local_branch};
use crate::ref_target::{merge_ref_targets, merge_model_holds, lemma_merge_model, deref};
use crate::index::heads_of;
use crate::name_map::NameMap;
use crate::op_store::{OperationId, OpStore, OpHeadsStore, node};
use crate::index::is_ancestor_spec;
use crate::ref_target::{RefTarget, opt_model};
use crate::view::{RepoView, ViewModel, BranchTarget, BranchModel, TargetModel, referenced, remove_id, insert_id, append_ids, default_workspace};

verus! {

/// The errors of repository operations.
#[derive(Debug, PartialEq, Eq)]
pub enum RepoError {
    /// A requested object is absent.
    NotFound,
    /// Any other failure, with its description.
    Other(String),
}

/// An immutable snapshot of a repository at one operation.
pub struct ReadonlyRepo {
    repo_path: String,
    op_id: OperationId,
    view: RepoView,
}

impl ReadonlyRepo {
    pub closed spec fn wf(&self) -> bool {
        self.view.wf()
    }

    pub closed spec fn view_model(&self) -> ViewModel {
        self.view@
    }

    pub closed spec fn op_id_spec(&self) -> OperationId {
        self.op_id
    }

    pub closed spec fn path(&self) -> Seq<char> {
        self.repo_path@
    }

    /// The snapshot of `view` at the operation.
    pub fn new(repo_path: String, op_id: OperationId, view: RepoView) -> (r: ReadonlyRepo)
        requires
            view.wf(),
        ensures
            r.wf(),
            r.view_model() == view@,
            r.op_id_spec() == op_id,
            r.path() == repo_path@,
    {
        ReadonlyRepo { repo_path, op_id, view }
    }

    pub fn repo_path(&self) -> (r: &String)
        ensures
            r@ == self.path(),
    {
        &self.repo_path
    }

    pub fn op_id(&self) -> (r: OperationId)
        ensures
            r == self.op_id_spec(),
    {
        self.op_id
    }

    pub fn view(&self) -> (r: &RepoView)
        requires
            self.wf(),
        ensures
            r.wf(),
            r@ == self.view_model(),
    {
        &self.view
    }

    /// Starts a transaction on this snapshot.
    pub fn start_transaction(&self) -> (r: MutableRepo)
        requires
            self.wf(),
        ensures
            r.wf(),
            r.view_model() == self.view_model(),
            r.base_model() == self.view_model(),
            r.base_op() == self.op_id_spec(),
            r.rewritten_spec().len() == 0,
            r.abandoned_spec().len() == 0,
            !r.dirty(),
    {
        MutableRepo::new(self.duplicate(), &self.view)
    }

    /// A copy of the snapshot.
    pub fn duplicate(&self) -> (r: ReadonlyRepo)
        requires
            self.wf(),
        ensures
            r.wf(),
            r.view_model() == self.view_model(),
            r.op_id_spec() == self.op_id_spec(),
            r.path() == self.path(),
    {
        ReadonlyRepo { repo_path: self.repo_path.clone(), op_id: self.op_id, view: self.view.duplicate() }
    }
}

/// The repository of a transaction: a working view, and the commits that the
/// transaction rewrote or abandoned.
pub struct MutableRepo {
    base_repo: ReadonlyRepo,
    view: RepoView,
    view_dirty: bool,
    rewritten_commits: Vec<(CommitId, CommitId)>,
    abandoned_commits: Vec<CommitId>,
}

/// The heads invariant of a view: its heads are the DAG heads of all the
/// commits it holds as heads, public heads, checkouts or refs.
pub open spec fn heads_invariant(g: Seq<Seq<CommitId>>, v: ViewModel) -> bool {
    v.heads == heads_of(g, v.heads + v.public_heads + referenced(v))
}

impl MutableRepo {
    pub closed spec fn wf(&self) -> bool {
        &&& self.view.wf()
        &&& self.base_repo.wf()
        &&& self.abandoned_commits@.no_duplicates()
    }

    pub closed spec fn view_model(&self) -> ViewModel {
        self.view@
    }

    pub closed spec fn base_model(&self) -> ViewModel {
        self.base_repo.view_model()
    }

    pub closed spec fn base_op(&self) -> OperationId {
        self.base_repo.op_id_spec()
    }

    /// Whether heads may have to be recomputed before the view is read.
    pub closed spec fn dirty(&self) -> bool {
        self.view_dirty
    }

    /// The recorded rewrites, as (old commit, new commit) pairs in order.
    pub closed spec fn rewritten_spec(&self) -> Seq<(CommitId, CommitId)> {
        self.rewritten_commits@
    }

    /// The recorded abandoned commits.
    pub closed spec fn abandoned_spec(&self) -> Set<CommitId> {
        set_of(self.abandoned_commits@)
    }

    /// A transaction on `base_repo` whose working view starts as `view`.
    pub fn new(base_repo: ReadonlyRepo, view: &RepoView) -> (r: MutableRepo)
        requires
            base_repo.wf(),
            view.wf(),
        ensures
            r.wf(),
            r.view_model() == view@,
            r.base_model() == base_repo.view_model(),
            r.base_op() == base_repo.op_id_spec(),
            r.rewritten_spec().len() == 0,
            r.abandoned_spec().len() == 0,
            !r.dirty(),
    {
        let r = MutableRepo {
            base_repo,
            view: view.duplicate(),
            view_dirty: false,
            rewritten_commits: Vec::new(),
            abandoned_commits: Vec::new(),
        };
        assert(set_of(r.abandoned_commits@) =~= Set::empty());
        r
    }

    pub fn base_repo(&self) -> (r: &ReadonlyRepo)
        requires
            self.wf(),
        ensures
            r.wf(),
            r.view_model() == self.base_model(),
            r.op_id_spec() == self.base_op(),
    {
        &self.base_repo
    }

    /// The working view as it stands: where the view is dirty its heads are
    /// not recomputed yet.
    pub fn working_view(&self) -> (r: &RepoView)
        requires
            self.wf(),
        ensures
            r.wf(),
            r@ == self.view_model(),
    {
        &self.view
    }

    /// The working view, its heads recomputed first where it is dirty.
    pub fn view(&mut self, store: &Store) -> (r: &RepoView)
        requires
            old(self).wf(),
            store.wf(),
        ensures
            r.wf(),
            r@ == if old(self).dirty() {
                enforced(store.graph(), old(self).view_model())
            } else {
                old(self).view_model()
            },
    {
        self.enforce_view_invariants(store);
        &self.view
    }

    /// Recomputes the heads where the view is dirty: the public heads become
    /// their own DAG heads, and the heads become the DAG heads of all the
    /// commits the view holds.
    pub fn enforce_view_invariants(&mut self, store: &Store)
        requires
            old(self).wf(),
            store.wf(),
        ensures
            final(self).wf(),
            !final(self).dirty(),
            final(self).base_model() == old(self).base_model(),
            final(self).base_op() == old(self).base_op(),
            final(self).rewritten_spec() == old(self).rewritten_spec(),
            final(self).abandoned_spec() == old(self).abandoned_spec(),
            old(self).dirty() ==> final(self).view_model() == enforced(store.graph(), old(self).view_model()),
            !old(self).dirty() ==> final(self).view_model() == old(self).view_model(),
    {
        if self.view_dirty {
            self.recompute_heads(store);
        }
        self.view_dirty = false;
    }

    fn recompute_heads(&mut self, store: &Store)
        requires
            old(self).wf(),
            store.wf(),
        ensures
            final(self).wf(),
            final(self).view_dirty == old(self).view_dirty,
            final(self).base_repo == old(self).base_repo,
            final(self).rewritten_commits == old(self).rewritten_commits,
            final(self).abandoned_commits == old(self).abandoned_commits,
            final(self).view_model() == enforced(store.graph(), old(self).view_model()),
    {
        let public = store.heads(&self.view.public_heads());
        let mut all = self.view.heads();
        append_ids(&mut all, &public);
        let refs = self.view.referenced_ids();
        append_ids(&mut all, &refs);
        let heads = store.heads(&all);
        proof {
            crate::index::lemma_heads_subset(store.graph(), self.view@.public_heads);
        }
        self.view.set_heads(heads, public);
    }

    /// Whether the transaction keeps its base, records and dirtiness from `o`.
    pub closed spec fn same_records(&self, o: &MutableRepo) -> bool {
        &&& self.base_repo == o.base_repo
        &&& self.rewritten_commits == o.rewritten_commits
        &&& self.abandoned_commits == o.abandoned_commits
    }

    pub proof fn lemma_same_records_refl(&self)
        ensures
            self.same_records(self),
    {
    }

    pub proof fn lemma_same_records_trans(&self, b: &MutableRepo, a: &MutableRepo)
        requires
            self.same_records(b),
            b.same_records(a),
        ensures
            self.same_records(a),
    {
    }

    pub proof fn lemma_same_records(&self, o: &MutableRepo)
        requires
            self.same_records(o),
        ensures
            self.base_model() == o.base_model(),
            self.base_op() == o.base_op(),
            self.rewritten_spec() == o.rewritten_spec(),
            self.abandoned_spec() == o.abandoned_spec(),
    {
    }

    /// Ends the transaction: recomputes the heads and hands out the view.
    pub fn consume(self, store: &Store) -> (r: RepoView)
        requires
            self.wf(),
            store.wf(),
        ensures
            r.wf(),
            r@ == enforced(store.graph(), self.view_model()),
            heads_invariant(store.graph(), r@),
    {
        let mut this = self;
        this.recompute_heads(store);
        proof {
            lemma_enforced_invariant(store.graph(), self.view_model());
        }
        this.view
    }

    /// Writes the commit through the store and records it as a head.
    pub fn write_commit(&mut self, store: &mut Store, commit: Commit) -> (r: CommitId)
        requires
            old(self).wf(),
            old(store).wf(),
            old(store).len() + 1 < u64::MAX,
            forall|k: int| 0 <= k < commit.parents@.len() ==> old(store).has(#[trigger] commit.parents@[k]),
        ensures
            final(self).wf(),
            final(store).wf(),
            r.0 == old(store).len(),
            final(store).graph() == old(store).graph().push(commit.parents@),
            final(store).commit_at(r.0 as int) == commit,
            forall|i: int| 0 <= i < old(store).len() ==> #[trigger] final(store).commit_at(i) == old(store).commit_at(i),
            final(self).same_records(old(self)),
            final(self).view_model() == added_head(old(self).view_model(), r, commit.parents@),
            final(self).dirty() == (old(self).dirty() || !set_of(commit.parents@).subset_of(old(self).view_model().heads)),
    {
        let id = store.write_commit(commit);
        self.add_head(store, id);
        id
    }

    /// Records the commit as a head. Where all its parents are heads, they
    /// stop being heads; otherwise the heads are recomputed later.
    pub fn add_head(&mut self, store: &Store, head: CommitId)
        requires
            old(self).wf(),
            store.wf(),
            store.has(head),
        ensures
            final(self).wf(),
            final(self).same_records(old(self)),
            final(self).view_model() == added_head(old(self).view_model(), head, store.commit_at(head.0 as int).parents@),
            final(self).dirty() == (old(self).dirty()
                || !set_of(store.commit_at(head.0 as int).parents@).subset_of(old(self).view_model().heads)),
    {
        let parents = &store.get_commit(head).parents;
        let current = self.view.heads();
        let mut all_heads = true;
        let mut i: usize = 0;
        while i < parents.len()
            invariant
                i <= parents@.len(),
                all_heads == set_of(parents@.subrange(0, i as int)).subset_of(set_of(current@)),
            decreases parents@.len() - i,
        {
            let p = parents[i];
            let here = contains_id(&current, p);
            proof {
                lemma_set_of_prefix(parents@, i as int);
                let a = set_of(parents@.subrange(0, i as int));
                let c = set_of(current@);
                assert(a.insert(p).subset_of(c) == (a.subset_of(c) && c.contains(p)));
            }
            all_heads = all_heads && here;
            i = i + 1;
        }
        assert(parents@.subrange(0, i as int) == parents@);
        self.view.add_head(head);
        if all_heads {
            let ghost h1 = self.view@.heads;
            assert(set_of(parents@.subrange(0, 0)) =~= Set::empty());
            assert(h1.difference(set_of(parents@.subrange(0, 0))) =~= h1);
            let mut j: usize = 0;
            while j < parents.len()
                invariant
                    self.view.wf(),
                    self.base_repo.wf(),
                    self.abandoned_commits@.no_duplicates(),
                    self.same_records(old(self)),
                    self.view_dirty == old(self).view_dirty,
                    j <= parents@.len(),
                    self.view@ == (ViewModel { heads: h1.difference(set_of(parents@.subrange(0, j as int))), ..old(self).view@ }),
                decreases parents@.len() - j,
            {
                let p = parents[j];
                self.view.remove_head(p);
                proof {
                    lemma_set_of_prefix(parents@, j as int);
                    assert(h1.difference(set_of(parents@.subrange(0, j + 1))) =~= h1.difference(set_of(parents@.subrange(0, j as int))).remove(p));
                }
                j = j + 1;
            }
            assert(parents@.subrange(0, j as int) == parents@);
        } else {
            self.view_dirty = true;
        }
    }

    pub fn remove_head(&mut self, head: CommitId)
        requires
            old(self).wf(),
        ensures
            final(self).wf(),
            final(self).same_records(old(self)),
            final(self).view_model() == (ViewModel { heads: old(self).view_model().heads.remove(head), ..old(self).view_model() }),
            final(self).dirty(),
    {
        self.view.remove_head(head);
        self.view_dirty = true;
    }

    pub fn add_public_head(&mut self, head: CommitId)
        requires
            old(self).wf(),
        ensures
            final(self).wf(),
            final(self).same_records(old(self)),
            final(self).view_model() == (ViewModel { public_heads: old(self).view_model().public_heads.insert(head), ..old(self).view_model() }),
            final(self).dirty(),
    {
        self.view.add_public_head(head);
        self.view_dirty = true;
    }

    pub fn remove_public_head(&mut self, head: CommitId)
        requires
            old(self).wf(),
        ensures
            final(self).wf(),
            final(self).same_records(old(self)),
            final(self).view_model() == (ViewModel { public_heads: old(self).view_model().public_heads.remove(head), ..old(self).view_model() }),
            final(self).dirty(),
    {
        self.view.remove_public_head(head);
        self.view_dirty = true;
    }

    /// Records that the transaction rewrote `old_id` into `new_id`.
    pub fn record_rewritten_commit(&mut self, old_id: CommitId, new_id: CommitId)
        requires
            old(self).wf(),
        ensures
            final(self).wf(),
            final(self).view_model() == old(self).view_model(),
            final(self).base_model() == old(self).base_model(),
            final(self).base_op() == old(self).base_op(),
            final(self).dirty() == old(self).dirty(),
            final(self).abandoned_spec() == old(self).abandoned_spec(),
            final(self).rewritten_spec() == old(self).rewritten_spec().push((old_id, new_id)),
    {
        self.rewritten_commits.push((old_id, new_id));
    }

    pub fn clear_rewritten_commits(&mut self)
        requires
            old(self).wf(),
        ensures
            final(self).wf(),
            final(self).view_model() == old(self).view_model(),
            final(self).base_model() == old(self).base_model(),
            final(self).base_op() == old(self).base_op(),
            final(self).dirty() == old(self).dirty(),
            final(self).abandoned_spec() == old(self).abandoned_spec(),
            final(self).rewritten_spec().len() == 0,
    {
        self.rewritten_commits = Vec::new();
    }

    /// Records that the transaction abandoned the commit.
    pub fn record_abandoned_commit(&mut self, old_id: CommitId)
        requires
            old(self).wf(),
        ensures
            final(self).wf(),
            final(self).view_model() == old(self).view_model(),
            final(self).base_model() == old(self).base_model(),
            final(self).base_op() == old(self).base_op(),
            final(self).dirty() == old(self).dirty(),
            final(self).rewritten_spec() == old(self).rewritten_spec(),
            final(self).abandoned_spec() == old(self).abandoned_spec().insert(old_id),
    {
        insert_id(&mut self.abandoned_commits, old_id);
    }

    pub fn clear_abandoned_commits(&mut self)
        requires
            old(self).wf(),
        ensures
            final(self).wf(),
            final(self).view_model() == old(self).view_model(),
            final(self).base_model() == old(self).base_model(),
            final(self).base_op() == old(self).base_op(),
            final(self).dirty() == old(self).dirty(),
            final(self).rewritten_spec() == old(self).rewritten_spec(),
            final(self).abandoned_spec() == Set::<CommitId>::empty(),
    {
        self.abandoned_commits = Vec::new();
        assert(set_of(self.abandoned_commits@) =~= Set::empty());
    }

    /// The commit checked out in the default workspace, if any.
    pub fn get_checkout(&self) -> (r: Option<CommitId>)
        requires
            self.wf(),
        ensures
            r == (if self.view_model().checkouts.contains_key(default_workspace()) {
                Some(self.view_model().checkouts[default_workspace()])
            } else {
                None
            }),
    {
        self.view.get_checkout(&default_workspace_name())
    }

    /// Checks out the commit in the default workspace.
    pub fn set_checkout(&mut self, id: CommitId)
        requires
            old(self).wf(),
        ensures
            final(self).wf(),
            final(self).same_records(old(self)),
            final(self).dirty() == old(self).dirty(),
            final(self).view_model() == (ViewModel {
                checkouts: old(self).view_model().checkouts.insert(default_workspace(), id),
                ..old(self).view_model()
            }),
    {
        self.view.set_checkout(default_workspace_name(), id);
    }

    /// Replaces the working view.
    pub fn set_view(&mut self, view: RepoView)
        requires
            old(self).wf(),
            view.wf(),
        ensures
            final(self).wf(),
            final(self).same_records(old(self)),
            final(self).dirty(),
            final(self).view_model() == view@,
    {
        self.view = view;
        self.view_dirty = true;
    }

    pub fn get_branch(&self, name: &str) -> (r: Option<BranchTarget>)
        requires
            self.wf(),
        ensures
            match r {
                Some(b) => self.view_model().branches.contains_key(name@) && b@ == self.view_model().branches[name@]
                    && b.remote_targets.wf(),
                None => !self.view_model().branches.contains_key(name@),
            },
    {
        self.view.get_branch(name)
    }

    pub fn set_branch(&mut self, name: String, target: BranchTarget)
        requires
            old(self).wf(),
            target.remote_targets.wf(),
        ensures
            final(self).wf(),
            final(self).same_records(old(self)),
            final(self).dirty() == old(self).dirty(),
            final(self).view_model() == (ViewModel { branches: old(self).view_model().branches.insert(name@, target@), ..old(self).view_model() }),
    {
        self.view.set_branch(name, target);
    }

    pub fn remove_branch(&mut self, name: &str)
        requires
            old(self).wf(),
        ensures
            final(self).wf(),
            final(self).same_records(old(self)),
            final(self).dirty() == old(self).dirty(),
            final(self).view_model() == (ViewModel { branches: old(self).view_model().branches.remove(name@), ..old(self).view_model() }),
    {
        self.view.remove_branch(name);
    }

    /// The branch's local target, if the branch exists and has one.
    pub fn get_local_branch(&self, name: &str) -> (r: Option<RefTarget>)
        requires
            self.wf(),
        ensures
            opt_model(r) == (if self.view_model().branches.contains_key(name@) { self.view_model().branches[name@].0 } else { None }),
    {
        self.view.get_local_branch(name)
    }

    /// Points the branch locally at the target.
    pub fn set_local_branch(&mut self, name: String, target: RefTarget)
        requires
            old(self).wf(),
        ensures
            final(self).wf(),
            final(self).same_records(old(self)),
            final(self).dirty() == old(self).dirty(),
            final(self).view_model() == with_local_branch(old(self).view_model(), name@, target@),
    {
        self.view.set_local_branch(name, target);
    }

    pub fn remove_local_branch(&mut self, name: &str)
        requires
            old(self).wf(),
        ensures
            final(self).wf(),
            final(self).same_records(old(self)),
            final(self).dirty() == old(self).dirty(),
            final(self).view_model() == (ViewModel {
                branches: if !old(self).view_model().branches.contains_key(name@) {
                    old(self).view_model().branches
                } else if old(self).view_model().branches[name@].1.is_empty() {
                    old(self).view_model().branches.remove(name@)
                } else {
                    old(self).view_model().branches.insert(name@, (None, old(self).view_model().branches[name@].1))
                },
                ..old(self).view_model()
            }),
    {
        self.view.remove_local_branch(name);
    }

    pub fn get_remote_branch(&self, name: &str, remote_name: &str) -> (r: Option<RefTarget>)
        requires
            self.wf(),
        ensures
            opt_model(r) == (if self.view_model().branches.contains_key(name@)
                && self.view_model().branches[name@].1.contains_key(remote_name@) {
                Some(self.view_model().branches[name@].1[remote_name@])
            } else {
                None
            }),
    {
        self.view.get_remote_branch(name, remote_name)
    }

    pub fn set_remote_branch(&mut self, name: String, remote_name: String, target: RefTarget)
        requires
            old(self).wf(),
        ensures
            final(self).wf(),
            final(self).same_records(old(self)),
            final(self).dirty() == old(self).dirty(),
            final(self).view_model() == (ViewModel {
                branches: old(self).view_model().branches.insert(name@, if old(self).view_model().branches.contains_key(name@) {
                    (old(self).view_model().branches[name@].0, old(self).view_model().branches[name@].1.insert(remote_name@, target@))
                } else {
                    (None, Map::empty().insert(remote_name@, target@))
                }),
                ..old(self).view_model()
            }),
    {
        self.view.set_remote_branch(name, remote_name, target);
    }

    pub fn remove_remote_branch(&mut self, name: &str, remote_name: &str)
        requires
            old(self).wf(),
        ensures
            final(self).wf(),
            final(self).same_records(old(self)),
            final(self).dirty() == old(self).dirty(),
            final(self).view_model() == (ViewModel {
                branches: if !old(self).view_model().branches.contains_key(name@) {
                    old(self).view_model().branches
                } else if old(self).view_model().branches[name@].0 is None
                    && old(self).view_model().branches[name@].1.remove(remote_name@).is_empty() {
                    old(self).view_model().branches.remove(name@)
                } else {
                    old(self).view_model().branches.insert(name@, (old(self).view_model().branches[name@].0, old(self).view_model().branches[name@].1.remove(remote_name@)))
                },
                ..old(self).view_model()
            }),
    {
        self.view.remove_remote_branch(name, remote_name);
    }

    pub fn get_tag(&self, name: &str) -> (r: Option<RefTarget>)
        requires
            self.wf(),
        ensures
            opt_model(r) == (if self.view_model().tags.contains_key(name@) { Some(self.view_model().tags[name@]) } else { None }),
    {
        self.view.get_tag(name)
    }

    pub fn set_tag(&mut self, name: String, target: RefTarget)
        requires
            old(self).wf(),
        ensures
            final(self).wf(),
            final(self).same_records(old(self)),
            final(self).dirty() == old(self).dirty(),
            final(self).view_model() == (ViewModel { tags: old(self).view_model().tags.insert(name@, target@), ..old(self).view_model() }),
    {
        self.view.set_tag(name, target);
    }

    pub fn remove_tag(&mut self, name: &str)
        requires
            old(self).wf(),
        ensures
            final(self).wf(),
            final(self).same_records(old(self)),
            final(self).dirty() == old(self).dirty(),
            final(self).view_model() == (ViewModel { tags: old(self).view_model().tags.remove(name@), ..old(self).view_model() }),
    {
        self.view.remove_tag(name);
    }

    pub fn set_git_ref(&mut self, name: String, target: RefTarget)
        requires
            old(self).wf(),
        ensures
            final(self).wf(),
            final(self).same_records(old(self)),
            final(self).dirty() == old(self).dirty(),
            final(self).view_model() == (ViewModel { git_refs: old(self).view_model().git_refs.insert(name@, target@), ..old(self).view_model() }),
    {
        self.view.set_git_ref(name, target);
    }

    pub fn remove_git_ref(&mut self, name: &str)
        requires
            old(self).wf(),
        ensures
            final(self).wf(),
            final(self).same_records(old(self)),
            final(self).dirty() == old(self).dirty(),
            final(self).view_model() == (ViewModel { git_refs: old(self).view_model().git_refs.remove(name@), ..old(self).view_model() }),
    {
        self.view.remove_git_ref(name);
    }

    pub fn set_git_head(&mut self, head_id: CommitId)
        requires
            old(self).wf(),
        ensures
            final(self).wf(),
            final(self).same_records(old(self)),
            final(self).dirty() == old(self).dirty(),
            final(self).view_model() == (ViewModel { git_head: Some(head_id), ..old(self).view_model() }),
    {
        self.view.set_git_head(head_id);
    }

    pub fn clear_git_head(&mut self)
        requires
            old(self).wf(),
        ensures
            final(self).wf(),
            final(self).same_records(old(self)),
            final(self).dirty() == old(self).dirty(),
            final(self).view_model() == (ViewModel { git_head: None, ..old(self).view_model() }),
    {
        self.view.clear_git_head();
    }

    /// Whether the working view, heads recomputed, differs from the base view.
    pub fn has_changes(&mut self, store: &Store) -> (r: bool)
        requires
            old(self).wf(),
            store.wf(),
        ensures
            final(self).wf(),
            !final(self).dirty(),
            final(self).rewritten_spec() == old(self).rewritten_spec(),
            final(self).abandoned_spec() == old(self).abandoned_spec(),
            final(self).base_model() == old(self).base_model(),
            final(self).view_model() == if old(self).dirty() {
                enforced(store.graph(), old(self).view_model())
            } else {
                old(self).view_model()
            },
            r == (final(self).view_model() != final(self).base_model()),
    {
        self.enforce_view_invariants(store);
        !self.view.same_as(&self.base_repo.view)
    }

    /// Records the commits as heads; the heads are recomputed later.
    pub fn add_heads(&mut self, ids: &Vec<CommitId>)
        requires
            old(self).wf(),
        ensures
            final(self).wf(),
            final(self).same_records(old(self)),
            final(self).dirty(),
            final(self).view_model() == (ViewModel { heads: old(self).view_model().heads + set_of(ids@), ..old(self).view_model() }),
    {
        assert(set_of(ids@.subrange(0, 0)) =~= Set::empty());
        assert(old(self).view@.heads + set_of(ids@.subrange(0, 0)) =~= old(self).view@.heads);
        let mut k: usize = 0;
        while k < ids.len()
            invariant
                k <= ids@.len(),
                self.view.wf(),
                self.base_repo.wf(),
                self.abandoned_commits@.no_duplicates(),
                self.same_records(old(self)),
                self.view@ == (ViewModel { heads: old(self).view@.heads + set_of(ids@.subrange(0, k as int)), ..old(self).view@ }),
            decreases ids@.len() - k,
        {
            self.view.add_head(ids[k]);
            proof {
                lemma_set_of_prefix(ids@, k as int);
                assert(old(self).view@.heads + set_of(ids@.subrange(0, k + 1)) =~= (old(self).view@.heads
                    + set_of(ids@.subrange(0, k as int))).insert(ids@[k as int]));
            }
            k = k + 1;
        }
        assert(ids@.subrange(0, k as int) == ids@);
        self.view_dirty = true;
    }

    /// Rebases the descendants of the recorded rewritten and abandoned
    /// commits, moves heads, local branches and checkouts onto what stands for
    /// their commits, and clears the records. Returns the images and the
    /// number of commits rebased.
    pub fn rebase_all(&mut self, store: &mut Store) -> (r: (Vec<Option<Vec<CommitId>>>, usize))
        requires
            old(self).wf(),
            old(store).wf(),
            2 * old(store).len() + old(self).view_model().checkouts.dom().len() + 2 < u64::MAX,
            forall|k: int| 0 <= k < old(self).rewritten_spec().len() ==> old(store).has(#[trigger] old(self).rewritten_spec()[k].1),
        ensures
            final(self).wf(),
            final(store).wf(),
            rebase_done(*old(self), *final(self), *old(store), *final(store), img_model(r.0@), r.1 as int),
    {
        let ghost s0 = *store;
        let ghost n0 = store.len() as int;
        let ghost ab = set_of(self.abandoned_commits@);
        let before = store.num_commits();
        assert forall|k: int| 0 <= k < self.rewritten_commits@.len() implies store.has(#[trigger] self.rewritten_commits@[k].1) by {
            assert(self.rewritten_spec()[k] == self.rewritten_commits@[k]);
        }
        let images = rebase_commits(store, &self.rewritten_commits, &self.abandoned_commits);
        let num_rebased = store.num_commits() - before;
        let ghost mid = *store;
        let ghost img = img_model(images@);
        let ghost v0 = self.view@;
        self.view.rebase_heads(&images);
        let ghost vh = self.view@;
        self.view.rebase_branches(&images);
        let ghost vb = self.view@;
        self.view.rebase_tags_and_git_refs(&images);
        let ghost v1 = self.view@;
        assert(vh.branches == v0.branches);
        assert(vb.branches == v1.branches);
        assert forall|b: Seq<char>| #[trigger] v0.branches.contains_key(b) implies branch_rebased(img, v0.branches[b], branch_opt(v1.branches, b)) by {
            assert(vh.branches.contains_key(b));
        }
        let names = self.view.workspace_names();
        assert(v1.checkouts == v0.checkouts);
        let mut i: usize = 0;
        while i < names.len()
            invariant
                self.view.wf(),
                self.base_repo.wf(),
                self.abandoned_commits@.no_duplicates(),
                self.base_repo == old(self).base_repo,
                ab == set_of(self.abandoned_commits@),
                store.wf(),
                mid.wf(),
                mid.len() <= store.len() <= mid.len() + i,
                mid.len() <= 2 * s0.len(),
                s0.len() <= mid.len(),
                img.len() == s0.len(),
                names@.len() == v0.checkouts.dom().len(),
                2 * s0.len() + v0.checkouts.dom().len() + 2 < u64::MAX,
                store.graph().subrange(0, mid.len() as int) == mid.graph(),
                forall|j: int| 0 <= j < mid.len() ==> #[trigger] store.commit_at(j) == mid.commit_at(j),
                images@.len() == n0,
                img == img_model(images@),
                i <= names@.len(),
                self.view@ == (ViewModel { checkouts: self.view@.checkouts, ..v1 }),
                self.view@.checkouts.dom() == v1.checkouts.dom(),
                forall|k: Seq<char>| v1.checkouts.contains_key(k) <==> exists|j: int| 0 <= j < names@.len() && #[trigger] names@[j]@ == k,
                forall|a: int, b: int| 0 <= a < names@.len() && 0 <= b < names@.len() && #[trigger] names@[a]@ == #[trigger] names@[b]@ ==> a == b,
                forall|j: int| 0 <= j < i ==> #[trigger] checkout_rebased(*store, img, ab,
                    v1.checkouts[names@[j]@], self.view@.checkouts[names@[j]@]),
                forall|j: int| i <= j < names@.len() ==> #[trigger] self.view@.checkouts[names@[j]@] == v1.checkouts[names@[j]@],
            decreases names@.len() - i,
        {
            let name = &names[i];
            let ghost w = name@;
            assert(v1.checkouts.contains_key(w));
            let c = match self.view.get_checkout(name.as_str()) {
                Some(c) => c,
                None => CommitId(ROOT_COMMIT),
            };
            assert(c == v1.checkouts[w]);
            let ghost sb = *store;
            let ghost vb = self.view@;
            if c.0 < images.len() as u64 && images[c.0 as usize].is_some() {
                let im = image_vec(&images, c);
                if im.len() > 0 {
                    let t = im[0];
                    if contains_id(&self.abandoned_commits, c) && t.0 == ROOT_COMMIT {
                        let mut parents: Vec<CommitId> = Vec::new();
                        parents.push(t);
                        let next = store.num_commits() as u64;
                        let open_commit = Commit {
                            parents,
                            predecessors: Vec::new(),
                            root_tree: TreeId(EMPTY_TREE),
                            change_id: ChangeId(next),
                            description: String::new(),
                            is_open: true,
                        };
                        proof {
                            store.lemma_wf();
                            assert(open_commit.parents@ =~= seq![t]);
                            assert(store.has(open_commit.parents@[0]));
                        }
                        let nid = store.write_commit(open_commit);
                        self.view.set_checkout(name.clone(), nid);
                        proof {
                            assert(store.graph().subrange(0, mid.len() as int) =~= mid.graph()) by {
                                assert(store.graph().subrange(0, mid.len() as int) =~= sb.graph().subrange(0, mid.len() as int));
                            }
                            assert(t == CommitId(ROOT_COMMIT));
                            assert(nid.0 >= img.len());
                            assert(img[c.0 as int] == Some(im@));
                            assert(checkout_rebased(*store, img, ab, c, nid));
                        }
                    } else {
                        self.view.set_checkout(name.clone(), t);
                        proof {
                            assert(img[c.0 as int] == Some(im@));
                            assert(checkout_rebased(*store, img, ab, c, t));
                        }
                    }
                } else {
                    proof {
                        assert(img[c.0 as int] == Some(im@));
                    }
                }
            } else {
                proof {
                    if (c.0 as int) < img.len() {
                        assert(img[c.0 as int] is None);
                    }
                }
            }
            proof {
                assert forall|j: int| 0 <= j < i + 1 implies #[trigger] checkout_rebased(*store, img, ab,
                    v1.checkouts[names@[j]@], self.view@.checkouts[names@[j]@]) by {
                    if j < i {
                        assert(names@[j]@ != w);
                        assert(checkout_rebased(sb, img, ab, v1.checkouts[names@[j]@], vb.checkouts[names@[j]@]));
                        lemma_checkout_rebased_extend(sb, *store, img, ab, v1.checkouts[names@[j]@], vb.checkouts[names@[j]@]);
                    } else {
                        assert(names@[j]@ == w);
                    }
                }
                assert forall|j: int| i + 1 <= j < names@.len() implies #[trigger] self.view@.checkouts[names@[j]@] == v1.checkouts[names@[j]@] by {
                    assert(names@[j]@ != w);
                }
                assert(self.view@.checkouts.dom() =~= v1.checkouts.dom());
            }
            i = i + 1;
        }
        self.view_dirty = true;
        self.rewritten_commits = Vec::new();
        self.abandoned_commits = Vec::new();
        proof {
            assert(set_of(self.abandoned_commits@) =~= Set::empty());
            assert forall|c: int| 0 <= c < n0 implies #[trigger] image_ok(*store, n0, old(self).rewritten_spec(), ab, img, c) by {
                assert(img.subrange(0, img.len() as int) =~= img);
                lemma_image_ok_extend_pub(&mid, &*store, n0, old(self).rewritten_spec(), ab, img, c);
            }
            assert(store.graph().subrange(0, n0) =~= s0.graph()) by {
                assert(store.graph().subrange(0, n0) =~= mid.graph().subrange(0, n0));
            }
            assert forall|w: Seq<char>| #[trigger] v0.checkouts.contains_key(w) implies
                checkout_rebased(*store, img, ab, v0.checkouts[w], self.view@.checkouts[w]) by {
                let j = choose|j: int| 0 <= j < names@.len() && #[trigger] names@[j]@ == w;
                assert(checkout_rebased(*store, img, ab, v1.checkouts[names@[j]@], self.view@.checkouts[names@[j]@]));
            }
            let m0 = *old(self);
            let m1 = *self;
            let s1 = *store;
            let n = num_rebased as int;
            assert(n0 <= n0 + n <= s1.len());
            assert(s1.graph().subrange(0, n0) == s0.graph());
            assert(forall|i: int| 0 <= i < n0 ==> #[trigger] s1.commit_at(i) == s0.commit_at(i));
            assert(img.len() == n0);
            assert(forall|c: int| 0 <= c < n0 ==> #[trigger] image_ok(s1, n0, m0.rewritten_spec(), m0.abandoned_spec(), img, c));
            assert forall|i: int| n0 <= i < n0 + n implies {
                let p = (#[trigger] s1.commit_at(i)).predecessors@[0];
                &&& p.0 < n0
                &&& is_rebased_copy(s1.commit_at(i), s1.commit_at(p.0 as int), p)
            } by {
                assert(s1.commit_at(i) == mid.commit_at(i));
                let p = mid.commit_at(i).predecessors@[0];
                assert(s1.commit_at(p.0 as int) == mid.commit_at(p.0 as int));
            }
            assert(m1.view_model().heads == image_set(img, m0.view_model().heads));
            assert(m1.view_model().checkouts.dom() == m0.view_model().checkouts.dom());
            assert(m1.abandoned_spec().is_empty());
            let vv0 = m0.view_model();
            let vv1 = m1.view_model();
            assert(vv0 == v0);
            assert(vv1.branches == v1.branches);
            assert(forall|b: Seq<char>| #[trigger] vv0.branches.contains_key(b) ==> branch_rebased(img, vv0.branches[b], branch_opt(vv1.branches, b)));
            assert(forall|b: Seq<char>| #[trigger] vv1.branches.contains_key(b) ==> vv0.branches.contains_key(b));
            assert(vv1.public_heads == vv0.public_heads);
            assert(maps_rebased(img, vv0.tags, vv1.tags));
            assert(maps_rebased(img, vv0.git_refs, vv1.git_refs));
            assert(vv1.git_head == vv0.git_head);
            assert(m1.base_model() == m0.base_model());
            assert(m1.base_op() == m0.base_op());
            assert(m1.rewritten_spec().len() == 0);
            assert(m1.dirty());
            assert(forall|w: Seq<char>| #[trigger] vv0.checkouts.contains_key(w) ==> checkout_rebased(s1, img, m0.abandoned_spec(), vv0.checkouts[w], vv1.checkouts[w]));
        }
        (images, num_rebased)
    }

    /// Rebases the descendants of the recorded rewritten and abandoned
    /// commits (see `rebase_all`) and returns the number of commits rebased.
    pub fn rebase_descendants(&mut self, store: &mut Store) -> (r: usize)
        requires
            old(self).wf(),
            old(store).wf(),
            2 * old(store).len() + old(self).view_model().checkouts.dom().len() + 2 < u64::MAX,
            forall|k: int| 0 <= k < old(self).rewritten_spec().len() ==> old(store).has(#[trigger] old(self).rewritten_spec()[k].1),
        ensures
            final(self).wf(),
            final(store).wf(),
            exists|img: Seq<Option<Seq<CommitId>>>| rebase_done(*old(self), *final(self), *old(store), *final(store), img, r as int),
    {
        let (_, n) = self.rebase_all(store);
        n
    }

    /// Checks out the commit in the default workspace. An open commit is
    /// checked out as it is; on a closed one a new open commit with the same
    /// tree is written. The checkout left behind is abandoned where it is open
    /// and empty.
    pub fn check_out(&mut self, store: &mut Store, commit: CommitId) -> (r: CommitId)
        requires
            old(self).wf(),
            old(store).wf(),
            old(store).has(commit),
            old(store).len() + 2 < u64::MAX,
        ensures
            final(self).wf(),
            final(store).wf(),
            forall|i: int| 0 <= i < old(store).len() ==> #[trigger] final(store).commit_at(i) == old(store).commit_at(i),
            old(store).commit_at(commit.0 as int).is_open ==> r == commit && final(store).len() == old(store).len(),
            !old(store).commit_at(commit.0 as int).is_open ==> {
                &&& r.0 == old(store).len()
                &&& final(store).len() == old(store).len() + 1
                &&& final(store).commit_at(r.0 as int).parents@ == seq![commit]
                &&& final(store).commit_at(r.0 as int).root_tree == old(store).commit_at(commit.0 as int).root_tree
                &&& final(store).commit_at(r.0 as int).is_open
                &&& final(store).commit_at(r.0 as int).change_id == ChangeId(r.0)
                &&& final(store).commit_at(r.0 as int).description@ == Seq::<char>::empty()
                &&& final(store).commit_at(r.0 as int).predecessors@ == Seq::<CommitId>::empty()
            },
            final(self).view_model() == (ViewModel {
                heads: old(self).view_model().heads.insert(r),
                checkouts: old(self).view_model().checkouts.insert(default_workspace(), r),
                ..old(self).view_model()
            }),
            final(self).dirty(),
            final(self).abandoned_spec() == if checkout_is_disposable(*old(store), old(self).view_model()) {
                old(self).abandoned_spec().insert(old(self).view_model().checkouts[default_workspace()])
            } else {
                old(self).abandoned_spec()
            },
            final(self).rewritten_spec() == old(self).rewritten_spec(),
            final(self).base_model() == old(self).base_model(),
    {
        let current = self.get_checkout();
        match current {
            Some(cur) => {
                if store.has_id(cur) && store.get_commit(cur).is_open && store.is_empty(cur) {
                    self.record_abandoned_commit(cur);
                }
            },
            None => {},
        }
        let c = store.get_commit(commit);
        let id = if c.is_open {
            commit
        } else {
            let mut parents: Vec<CommitId> = Vec::new();
            parents.push(commit);
            let next = store.num_commits() as u64;
            let open_commit = Commit {
                parents,
                predecessors: Vec::new(),
                root_tree: c.root_tree,
                change_id: ChangeId(next),
                description: String::new(),
                is_open: true,
            };
            assert(open_commit.parents@ =~= seq![commit]);
            store.write_commit(open_commit)
        };
        let mut one: Vec<CommitId> = Vec::new();
        one.push(id);
        proof {
            crate::backend::lemma_set_of_push(Seq::empty(), id);
            assert(Seq::<CommitId>::empty().push(id) == one@);
            assert(set_of(Seq::<CommitId>::empty()) =~= Set::empty());
            assert(self.view_model().heads + set_of(one@) =~= self.view_model().heads.insert(id));
        }
        self.add_heads(&one);
        self.set_checkout(id);
        id
    }

    /// Merges the view of `other_repo` into the working view against the view
    /// of `base_repo`; the heads are recomputed later.
    pub fn merge(&mut self, store: &Store, base_repo: &ReadonlyRepo, other_repo: &ReadonlyRepo)
        requires
            old(self).wf(),
            store.wf(),
            base_repo.wf(),
            other_repo.wf(),
        ensures
            final(self).wf(),
            final(self).dirty(),
            final(self).rewritten_spec() == old(self).rewritten_spec(),
            final(self).abandoned_spec() == old(self).abandoned_spec(),
            final(self).base_model() == old(self).base_model(),
            views_merged(base_repo.view_model(), if old(self).dirty() {
                enforced(store.graph(), old(self).view_model())
            } else {
                old(self).view_model()
            }, other_repo.view_model(), final(self).view_model()),
    {
        self.enforce_view_invariants(store);
        self.view.merge(base_repo.view(), other_repo.view());
        self.view_dirty = true;
    }

    /// Merges `other_target` into the ref against `base_target`.
    pub fn merge_single_ref(&mut self, ref_name: &RefName, base_target: Option<&RefTarget>, other_target: Option<&RefTarget>)
        requires
            old(self).wf(),
        ensures
            final(self).wf(),
            final(self).same_records(old(self)),
            final(self).dirty() == old(self).dirty(),
            final(self).view_model() == with_ref(old(self).view_model(), *ref_name, ref_value(final(self).view_model(), *ref_name)),
            merge_model_holds(opt_model(deref(base_target)), ref_value(old(self).view_model(), *ref_name),
                opt_model(deref(other_target)), ref_value(final(self).view_model(), *ref_name)),
    {
        let current = match ref_name {
            RefName::LocalBranch(name) => self.view.get_local_branch(name.as_str()),
            RefName::RemoteBranch { branch, remote } => self.view.get_remote_branch(branch.as_str(), remote.as_str()),
            RefName::Tag(name) => self.view.get_tag(name.as_str()),
            RefName::GitRef(name) => self.view.get_git_ref(name.as_str()),
        };
        let merged = match &current {
            Some(t) => merge_ref_targets(base_target, Some(t), other_target),
            None => merge_ref_targets(base_target, None, other_target),
        };
        proof {
            lemma_merge_model(deref(base_target), current, deref(other_target), merged);
        }
        match (ref_name, merged) {
            (RefName::LocalBranch(name), Some(t)) => self.view.set_local_branch(name.clone(), t),
            (RefName::LocalBranch(name), None) => self.view.remove_local_branch(name.as_str()),
            (RefName::RemoteBranch { branch, remote }, Some(t)) => self.view.set_remote_branch(branch.clone(), remote.clone(), t),
            (RefName::RemoteBranch { branch, remote }, None) => self.view.remove_remote_branch(branch.as_str(), remote.as_str()),
            (RefName::Tag(name), Some(t)) => self.view.set_tag(name.clone(), t),
            (RefName::Tag(name), None) => self.view.remove_tag(name.as_str()),
            (RefName::GitRef(name), Some(t)) => self.view.set_git_ref(name.clone(), t),
            (RefName::GitRef(name), None) => self.view.remove_git_ref(name.as_str()),
        }
    }
}

/// The name of a ref.
pub enum RefName {
    LocalBranch(String),
    RemoteBranch { branch: String, remote: String },
    Tag(String),
    GitRef(String),
}

/// The view with the ref pointing at `val`, or without the ref where `val`
/// is none; a branch left with no target at all is gone.
pub open spec fn with_ref(v: ViewModel, r: RefName, val: Option<TargetModel>) -> ViewModel {
    match r {
        RefName::LocalBranch(name) => match val {
            Some(t) => with_local_branch(v, name@, t),
            None => ViewModel {
                branches: if !v.branches.contains_key(name@) {
                    v.branches
                } else if v.branches[name@].1.is_empty() {
                    v.branches.remove(name@)
                } else {
                    v.branches.insert(name@, (None, v.branches[name@].1))
                },
                ..v
            },
        },
        RefName::RemoteBranch { branch, remote } => match val {
            Some(t) => ViewModel {
                branches: v.branches.insert(branch@, if v.branches.contains_key(branch@) {
                    (v.branches[branch@].0, v.branches[branch@].1.insert(remote@, t))
                } else {
                    (None, Map::empty().insert(remote@, t))
                }),
                ..v
            },
            None => ViewModel {
                branches: if !v.branches.contains_key(branch@) {
                    v.branches
                } else if v.branches[branch@].0 is None && v.branches[branch@].1.remove(remote@).is_empty() {
                    v.branches.remove(branch@)
                } else {
                    v.branches.insert(branch@, (v.branches[branch@].0, v.branches[branch@].1.remove(remote@)))
                },
                ..v
            },
        },
        RefName::Tag(name) => ViewModel {
            tags: match val {
                Some(t) => v.tags.insert(name@, t),
                None => v.tags.remove(name@),
            },
            ..v
        },
        RefName::GitRef(name) => ViewModel {
            git_refs: match val {
                Some(t) => v.git_refs.insert(name@, t),
                None => v.git_refs.remove(name@),
            },
            ..v
        },
    }
}

/// The target of the ref in the view, if it has one.
pub open spec fn ref_value(v: ViewModel, r: RefName) -> Option<TargetModel> {
    match r {
        RefName::LocalBranch(name) => if v.branches.contains_key(name@) { v.branches[name@].0 } else { None },
        RefName::RemoteBranch { branch, remote } => if v.branches.contains_key(branch@) {
            target_opt(v.branches[branch@].1, remote@)
        } else {
            None
        },
        RefName::Tag(name) => target_opt(v.tags, name@),
        RefName::GitRef(name) => target_opt(v.git_refs, name@),
    }
}

/// The default workspace's checkout is an open, empty commit of the store.
pub open spec fn checkout_is_disposable(s: Store, v: ViewModel) -> bool {
    &&& v.checkouts.contains_key(default_workspace())
    &&& s.has(v.checkouts[default_workspace()])
    &&& s.commit_at(v.checkouts[default_workspace()].0 as int).is_open
    &&& s.is_empty_spec(v.checkouts[default_workspace()])
}

/// Where a rebase moved a workspace's checkout `old_c`: onto the first
/// commit that stands for it; for an abandoned checkout whose parent is the
/// root, onto a new open commit on the root.
pub open spec fn checkout_rebased(s: Store, img: Seq<Option<Seq<CommitId>>>, ab: Set<CommitId>, old_c: CommitId, new_c: CommitId) -> bool {
    if (old_c.0 as int) < img.len() && img[old_c.0 as int] is Some && img[old_c.0 as int]->Some_0.len() > 0 {
        let t = img[old_c.0 as int]->Some_0[0];
        if ab.contains(old_c) && t == CommitId(ROOT_COMMIT) {
            &&& s.has(new_c)
            &&& new_c.0 >= img.len()
            &&& s.commit_at(new_c.0 as int).parents@ == seq![t]
            &&& s.commit_at(new_c.0 as int).is_open
            &&& s.commit_at(new_c.0 as int).root_tree == TreeId(EMPTY_TREE)
        } else {
            new_c == t
        }
    } else {
        new_c == old_c
    }
}

proof fn lemma_checkout_rebased_extend(s1: Store, s2: Store, img: Seq<Option<Seq<CommitId>>>, ab: Set<CommitId>, old_c: CommitId, new_c: CommitId)
    requires
        checkout_rebased(s1, img, ab, old_c, new_c),
        s1.len() <= s2.len(),
        forall|j: int| 0 <= j < s1.len() ==> #[trigger] s2.commit_at(j) == s1.commit_at(j),
    ensures
        checkout_rebased(s2, img, ab, old_c, new_c),
{
    if s1.has(new_c) {
        assert(s2.commit_at(new_c.0 as int) == s1.commit_at(new_c.0 as int));
    }
}

/// What `rebase_all` did: rebased the descendants (each image as
/// `image_ok` says, the `n` new commits copies of old ones), moved heads,
/// local branches and checkouts, and cleared the records.
pub open spec fn rebase_done(m0: MutableRepo, m1: MutableRepo, s0: Store, s1: Store, img: Seq<Option<Seq<CommitId>>>, n: int) -> bool {
    let n0 = s0.len() as int;
    let ab = m0.abandoned_spec();
    let v0 = m0.view_model();
    let v1 = m1.view_model();
    &&& n0 <= n0 + n <= s1.len()
    &&& s1.graph().subrange(0, n0) == s0.graph()
    &&& forall|i: int| 0 <= i < n0 ==> #[trigger] s1.commit_at(i) == s0.commit_at(i)
    &&& img.len() == n0
    &&& images_below(img, n0 + n)
    &&& forall|c: int| 0 <= c < n0 ==> #[trigger] image_ok(s1, n0, m0.rewritten_spec(), ab, img, c)
    &&& forall|i: int| n0 <= i < n0 + n ==> {
        let p = (#[trigger] s1.commit_at(i)).predecessors@[0];
        &&& p.0 < n0
        &&& is_rebased_copy(s1.commit_at(i), s1.commit_at(p.0 as int), p)
        &&& img[p.0 as int] == Some(seq![CommitId(i as u64)])
    }
    &&& v1.heads == image_set(img, v0.heads)
    &&& v1.public_heads == v0.public_heads
    &&& maps_rebased(img, v0.tags, v1.tags)
    &&& maps_rebased(img, v0.git_refs, v1.git_refs)
    &&& v1.git_head == v0.git_head
    &&& forall|b: Seq<char>| #[trigger] v0.branches.contains_key(b) ==> branch_rebased(img, v0.branches[b], branch_opt(v1.branches, b))
    &&& forall|b: Seq<char>| #[trigger] v1.branches.contains_key(b) ==> v0.branches.contains_key(b)
    &&& v1.checkouts.dom() == v0.checkouts.dom()
    &&& forall|w: Seq<char>| #[trigger] v0.checkouts.contains_key(w) ==> checkout_rebased(s1, img, ab, v0.checkouts[w], v1.checkouts[w])
    &&& m1.base_model() == m0.base_model()
    &&& m1.base_op() == m0.base_op()
    &&& m1.rewritten_spec().len() == 0
    &&& m1.abandoned_spec().is_empty()
    &&& m1.dirty()
}

/// The name of the default workspace.
pub fn default_workspace_name() -> (r: String)
    ensures
        r@ == default_workspace(),
{
    let r = "default".to_owned();
    proof {
        reveal_strlit("default");
    }
    assert(r@ =~= default_workspace());
    r
}

/// The heads after `id`, whose parents are `parents`, is added: where all
/// parents were heads they are replaced by `id`.
pub open spec fn added_head(v: ViewModel, id: CommitId, parents: Seq<CommitId>) -> ViewModel {
    if set_of(parents).subset_of(v.heads) {
        ViewModel { heads: v.heads.insert(id).difference(set_of(parents)), ..v }
    } else {
        ViewModel { heads: v.heads.insert(id), ..v }
    }
}

/// The view with its heads recomputed.
pub open spec fn enforced(g: Seq<Seq<CommitId>>, v: ViewModel) -> ViewModel {
    let public = heads_of(g, v.public_heads);
    ViewModel {
        public_heads: public,
        heads: heads_of(g, v.heads + public + referenced(v)),
        ..v
    }
}

/// Recomputing the heads establishes the heads invariant.
pub proof fn lemma_enforced_invariant(g: Seq<Seq<CommitId>>, v: ViewModel)
    ensures
        heads_invariant(g, enforced(g, v)),
{
    let e = enforced(g, v);
    let u = v.heads + e.public_heads + referenced(v);
    let w = e.heads + e.public_heads + referenced(e);
    assert(referenced(e) == referenced(v));
    crate::index::lemma_heads_subset(g, u);
    crate::index::lemma_heads_between(g, u, w);
}

/// The storage of a repository: its commits, its operations with their views,
/// and its operation heads. Snapshots are loaded from it and transactions
/// are finished into it.
pub struct RepoLoader {
    repo_path: String,
    store: Store,
    op_store: OpStore,
    op_heads_store: OpHeadsStore,
}

impl RepoLoader {
    pub closed spec fn wf(&self) -> bool {
        &&& self.store.wf()
        &&& self.op_store.wf()
        &&& self.op_heads_store.wf()
        &&& forall|h: CommitId| #[trigger] self.op_heads_store.heads_spec().contains(h) ==> h.0 < self.op_store.len()
    }

    pub closed spec fn store_spec(&self) -> Store {
        self.store
    }

    pub closed spec fn ops(&self) -> OpStore {
        self.op_store
    }

    /// The current operation heads, as nodes of the operation DAG.
    pub closed spec fn op_heads(&self) -> Set<CommitId> {
        self.op_heads_store.heads_spec()
    }

    pub closed spec fn path(&self) -> Seq<char> {
        self.repo_path@
    }

    pub proof fn lemma_wf(&self)
        requires
            self.wf(),
        ensures
            self.store_spec().wf(),
            self.ops().wf(),
            forall|h: CommitId| #[trigger] self.op_heads().contains(h) ==> h.0 < self.ops().len(),
    {
    }

    pub fn repo_path(&self) -> (r: &String)
        ensures
            r@ == self.path(),
    {
        &self.repo_path
    }

    pub fn store(&self) -> (r: &Store)
        ensures
            *r == self.store_spec(),
    {
        &self.store
    }

    /// The commit store, for writing commits.
    pub fn store_mut(&mut self) -> (r: &mut Store)
        ensures
            *r == old(self).store_spec(),
    {
        &mut self.store
    }

    pub fn op_store(&self) -> (r: &OpStore)
        ensures
            *r == self.ops(),
    {
        &self.op_store
    }

    pub fn op_heads_store(&self) -> (r: &OpHeadsStore)
        ensures
            r.heads_spec() == self.op_heads(),
    {
        &self.op_heads_store
    }

    /// The path of the git repository that a store file of the legacy format
    /// names: its contents after the prefix `git: `, where they have it.
    pub fn legacy_git_target(contents: &Vec<char>) -> (r: Option<Vec<char>>)
        ensures
            match r {
                Some(path) => contents@.len() >= 5 && contents@.subrange(0, 5) == "git: "@
                    && path@ == contents@.subrange(5, contents@.len() as int),
                None => !(contents@.len() >= 5 && contents@.subrange(0, 5) == "git: "@),
            },
    {
        let prefix: Vec<char> = vec!['g', 'i', 't', ':', ' '];
        proof {
            reveal_strlit("git: ");
            assert(prefix@ =~= "git: "@);
            assert(prefix@.len() == 5);
        }
        if contents.len() < 5 {
            return None;
        }
        let mut k: usize = 0;
        while k < 5
            invariant
                k <= 5 <= contents@.len(),
                prefix@ == "git: "@,
                prefix@.len() == 5,
                forall|j: int| 0 <= j < k ==> contents@[j] == prefix@[j],
            decreases 5 - k,
        {
            if contents[k] != prefix[k] {
                proof {
                    assert(contents@.subrange(0, 5)[k as int] != "git: "@[k as int]);
                }
                return None;
            }
            k = k + 1;
        }
        assert(contents@.subrange(0, 5) =~= "git: "@);
        let mut path: Vec<char> = Vec::new();
        let mut i: usize = 5;
        while i < contents.len()
            invariant
                5 <= i <= contents@.len(),
                path@ == contents@.subrange(5, i as int),
            decreases contents@.len() - i,
        {
            path.push(contents[i]);
            i = i + 1;
            assert(path@ =~= contents@.subrange(5, i as int));
        }
        Some(path)
    }

    /// The snapshot at the single operation head, merging concurrent heads first.
    pub fn load_at_head(&mut self) -> (r: ReadonlyRepo)
        requires
            old(self).wf(),
            old(self).ops().len() + 2 < u64::MAX,
            2 * old(self).store_spec().len() + 2 < u64::MAX,
        ensures
            final(self).wf(),
            r.wf(),
            op_heads_resolved(*old(self), *final(self), r.op_id_spec()),
            r.view_model() == final(self).ops().view_at(r.op_id_spec().0 as int),
            r.path() == final(self).path(),
    {
        let op = self.get_single_op_head();
        self.load_at(op)
    }

    /// The snapshot at the operation.
    pub fn load_at(&self, op: OperationId) -> (r: ReadonlyRepo)
        requires
            self.wf(),
            op.0 < self.ops().len(),
        ensures
            r.wf(),
            r.op_id_spec() == op,
            r.view_model() == self.ops().view_at(op.0 as int),
            r.path() == self.path(),
    {
        let view = self.op_store.read_view(op).duplicate();
        self._finish_load(op, view)
    }

    /// The snapshot of `view` at the operation.
    pub fn create_from(&self, operation: OperationId, view: RepoView) -> (r: ReadonlyRepo)
        requires
            view.wf(),
        ensures
            r.wf(),
            r.op_id_spec() == operation,
            r.view_model() == view@,
            r.path() == self.path(),
    {
        self._finish_load(operation, view)
    }

    fn _finish_load(&self, operation: OperationId, view: RepoView) -> (r: ReadonlyRepo)
        requires
            view.wf(),
        ensures
            r.wf(),
            r.op_id_spec() == operation,
            r.view_model() == view@,
            r.path() == self.path(),
    {
        ReadonlyRepo::new(self.repo_path.clone(), operation, view)
    }

    /// Resolves the operation heads to a single operation: heads that are
    /// ancestors of other heads are dropped; where several remain, their
    /// views are merged against their latest common ancestor into a new
    /// operation whose parents they are. The heads become that one operation.
    pub fn get_single_op_head(&mut self) -> (r: OperationId)
        requires
            old(self).wf(),
            old(self).ops().len() + 2 < u64::MAX,
            2 * old(self).store_spec().len() + 2 < u64::MAX,
        ensures
            final(self).wf(),
            op_heads_resolved(*old(self), *final(self), r),
    {
        let heads = self.op_heads_store.get_heads();
        let trimmed = self.op_store.heads(&heads);
        proof {
            crate::backend::lemma_set_of_len(trimmed@);
        }
        if trimmed.len() <= 1 {
            let r = if trimmed.len() == 1 { OperationId(trimmed[0].0) } else { OperationId(0) };
            proof {
                self.op_store.lemma_wf();
                crate::index::lemma_heads_subset(self.op_store.graph(), set_of(heads@));
                if trimmed.len() == 1 {
                    assert(set_of(trimmed@).contains(trimmed@[0]));
                }
            }
            self.op_heads_store = OpHeadsStore::init(r);
            proof {
                assert(self.op_store.graph().subrange(0, old(self).op_store.len() as int) =~= old(self).op_store.graph());
                if trimmed.len() == 0 {
                    assert(crate::index::heads_of(old(self).ops().graph(), old(self).op_heads()).len() == 0);
                }
            }
            return r;
        }
        proof {
            self.op_store.lemma_wf();
            crate::index::lemma_heads_subset(self.op_store.graph(), set_of(heads@));
            assert forall|k: int| 0 <= k < trimmed@.len() implies (#[trigger] trimmed@[k]).0 < self.ops().len() by {
                assert(set_of(trimmed@).contains(trimmed@[k]));
            }
        }
        let base = self.common_ancestor(&trimmed);
        let first = OperationId(trimmed[0].0);
        let second = OperationId(trimmed[1].0);
        proof {
            self.op_store.lemma_wf();
            crate::index::lemma_heads_subset(self.op_store.graph(), set_of(heads@));
            assert(set_of(trimmed@).contains(trimmed@[0]));
            assert(set_of(trimmed@).contains(trimmed@[1]));
        }
        let base_repo = self.load_at(base);
        let first_repo = self.load_at(first);
        let second_repo = self.load_at(second);
        let mut tx = first_repo.start_transaction();
        tx.merge(&self.store, &base_repo, &second_repo);
        let ghost merged = tx.view_model();
        let mut i: usize = 2;
        while i < trimmed.len()
            invariant
                2 <= i <= trimmed@.len(),
                tx.wf(),
                self.wf(),
                self == old(self),
                base_repo.wf(),
                set_of(trimmed@).subset_of(set_of(heads@)),
                set_of(heads@) == self.op_heads(),
                trimmed@.len() == 2 ==> tx.view_model() == merged,
            decreases trimmed@.len() - i,
        {
            proof {
                assert(set_of(trimmed@).contains(trimmed@[i as int]));
            }
            let other = self.load_at(OperationId(trimmed[i].0));
            tx.merge(&self.store, &base_repo, &other);
            i = i + 1;
        }
        let view = tx.consume(&self.store);
        let mut parents: Vec<OperationId> = Vec::new();
        let mut k: usize = 0;
        while k < trimmed.len()
            invariant
                k <= trimmed@.len(),
                parents@.len() == k,
                forall|j: int| 0 <= j < k ==> #[trigger] node(parents@[j]) == trimmed@[j],
            decreases trimmed@.len() - k,
        {
            parents.push(OperationId(trimmed[k].0));
            k = k + 1;
        }
        proof {
            assert forall|j: int| 0 <= j < parents@.len() implies (#[trigger] parents@[j]).0 < self.op_store.len() by {
                assert(set_of(trimmed@).contains(trimmed@[j]));
                assert(node(parents@[j]) == trimmed@[j]);
            }
        }
        let id = self.op_store.write_operation(&parents, view, "merge operations".to_owned());
        self.op_heads_store = OpHeadsStore::init(id);
        proof {
            assert(parents@.map_values(|p: OperationId| node(p)) =~= trimmed@);
            assert(self.op_store.graph().subrange(0, old(self).op_store.len() as int) =~= old(self).op_store.graph());
            assert(self.ops().graph()[id.0 as int] == trimmed@);
            if trimmed@.len() == 2 {
                assert(old(self).ops().view_at(first.0 as int) == first_repo.view_model());
                assert(merged_from(*old(self), *self, id, base, merged));
                assert(op_heads_merged(*old(self), *self, id));
            }
        }
        id
    }

    /// The latest operation that is an ancestor of all of `ops` (the root
    /// operation where none is).
    fn common_ancestor(&self, ops: &Vec<CommitId>) -> (r: OperationId)
        requires
            self.wf(),
            forall|k: int| 0 <= k < ops@.len() ==> (#[trigger] ops@[k]).0 < self.ops().len(),
        ensures
            r.0 < self.ops().len(),
            is_common_ancestor(self.ops().graph(), set_of(ops@), r),
            forall|c: OperationId| r.0 < c.0 < self.ops().len() ==> !#[trigger] is_common_ancestor(self.ops().graph(), set_of(ops@), c),
    {
        let n = self.op_store.num_operations();
        proof {
            self.op_store.lemma_wf();
        }
        let ghost g = self.ops().graph();
        let mut c: usize = n;
        while c > 1
            invariant
                1 <= c <= n == self.ops().len(),
                self.wf(),
                g == self.ops().graph(),
                forall|k: int| 0 <= k < ops@.len() ==> (#[trigger] ops@[k]).0 < self.ops().len(),
                forall|d: OperationId| c <= d.0 < n ==> !#[trigger] is_common_ancestor(g, set_of(ops@), d),
            decreases c,
        {
            c = c - 1;
            let cand = OperationId(c as u64);
            let mut all = true;
            let mut k: usize = 0;
            while k < ops.len()
                invariant
                    k <= ops@.len(),
                    self.wf(),
                    all == forall|j: int| 0 <= j < k ==> #[trigger] is_ancestor_spec(self.ops().graph(), node(cand), ops@[j]),
                decreases ops@.len() - k,
            {
                let is_anc = self.op_store.is_ancestor(cand, OperationId(ops[k].0));
                proof {
                    assert(node(OperationId(ops@[k as int].0)) == ops@[k as int]);
                    assert(is_anc == is_ancestor_spec(self.ops().graph(), node(cand), ops@[k as int]));
                }
                if !is_anc {
                    all = false;
                }
                k = k + 1;
            }
            proof {
                if all {
                    assert forall|x: CommitId| #[trigger] set_of(ops@).contains(x) implies is_ancestor_spec(g, node(cand), x) by {
                        let j = choose|j: int| 0 <= j < ops@.len() && ops@[j] == x;
                    }
                } else {
                    let j = choose|j: int| 0 <= j < ops@.len() && !#[trigger] is_ancestor_spec(g, node(cand), ops@[j]);
                    assert(set_of(ops@).contains(ops@[j]));
                }
                assert forall|d: OperationId| c <= d.0 < n && !all implies !#[trigger] is_common_ancestor(g, set_of(ops@), d) by {
                    if d.0 == c {
                        assert(d == cand);
                    }
                }
            }
            if all {
                return cand;
            }
        }
        proof {
            assert forall|x: CommitId| #[trigger] set_of(ops@).contains(x) implies is_ancestor_spec(g, node(OperationId(0)), x) by {
                let j = choose|j: int| 0 <= j < ops@.len() && ops@[j] == x;
                self.op_store.lemma_root_is_ancestor(x.0 as int);
                assert(CommitId((x.0 as int) as u64) == x);
            }
        }
        OperationId(0)
    }
}

/// `b` is an ancestor of every operation of `ops` (or one of them).
pub open spec fn is_common_ancestor(g: Seq<Seq<CommitId>>, ops: Set<CommitId>, b: OperationId) -> bool {
    forall|x: CommitId| #[trigger] ops.contains(x) ==> is_ancestor_spec(g, node(b), x)
}

/// What resolving the operation heads of `before` to the operation `r` did:
/// the heads become `r`; earlier operations stay; where one head remains
/// after dropping ancestors of others it is `r` and nothing is written;
/// where several remain, `r` is a new operation whose parents they are, and
/// with two its view is their merge.
pub open spec fn op_heads_resolved(before: RepoLoader, after: RepoLoader, r: OperationId) -> bool {
    let hs = crate::index::heads_of(before.ops().graph(), before.op_heads());
    &&& after.store_spec() == before.store_spec()
    &&& after.op_heads() == Set::empty().insert(node(r))
    &&& r.0 < after.ops().len()
    &&& forall|i: int| 0 <= i < before.ops().len() ==> #[trigger] after.ops().view_at(i) == before.ops().view_at(i)
    &&& after.ops().graph().subrange(0, before.ops().len() as int) == before.ops().graph()
    &&& hs.len() <= 1 ==> {
        &&& after.ops() == before.ops()
        &&& hs.len() == 1 ==> hs.contains(node(r))
    }
    &&& hs.len() >= 2 ==> {
        &&& r.0 == before.ops().len()
        &&& after.ops().len() == before.ops().len() + 1
        &&& set_of(after.ops().graph()[r.0 as int]) == hs
    }
    &&& hs.len() == 2 ==> op_heads_merged(before, after, r)
}

impl ReadonlyRepo {
    /// A new repository: the root commit; an open, empty checkout commit on
    /// it in the default workspace; and the root operation, whose view has the
    /// checkout as its head and the root commit as its public head.
    pub fn init_local(repo_path: String) -> (r: (RepoLoader, ReadonlyRepo))
        ensures
            r.0.wf(),
            r.1.wf(),
            r.0.path() == repo_path@,
            r.1.op_id_spec() == OperationId(0),
            r.0.op_heads() == Set::empty().insert(node(OperationId(0))),
            r.0.ops().len() == 1,
            r.0.store_spec().len() == 2,
            r.0.store_spec().graph()[1] == seq![CommitId(ROOT_COMMIT)],
            r.0.store_spec().commit_at(1).is_open,
            r.0.store_spec().commit_at(1).root_tree == TreeId(EMPTY_TREE),
            r.0.store_spec().commit_at(1).description@ == Seq::<char>::empty(),
            r.0.store_spec().commit_at(1).predecessors@ == Seq::<CommitId>::empty(),
            r.1.path() == repo_path@,
            r.0.ops().graph()[0].len() == 0,
            r.1.view_model() == r.0.ops().view_at(0),
            r.1.view_model().heads == Set::empty().insert(CommitId(1)),
            r.1.view_model().public_heads == Set::empty().insert(CommitId(ROOT_COMMIT)),
            r.1.view_model().checkouts == Map::<Seq<char>, CommitId>::empty().insert(default_workspace(), CommitId(1)),
            r.1.view_model().branches.is_empty(),
            r.1.view_model().tags.is_empty(),
            r.1.view_model().git_refs.is_empty(),
            r.1.view_model().git_head is None,
    {
        let mut store = Store::new();
        let mut parents: Vec<CommitId> = Vec::new();
        parents.push(store.root_commit_id());
        let checkout_commit = Commit {
            parents,
            predecessors: Vec::new(),
            root_tree: store.empty_tree_id(),
            change_id: ChangeId(1),
            description: String::new(),
            is_open: true,
        };
        assert(checkout_commit.parents@ =~= seq![CommitId(ROOT_COMMIT)]);
        let checkout = store.write_commit(checkout_commit);
        let mut root_view = RepoView::new();
        root_view.set_checkout(default_workspace_name(), checkout);
        root_view.add_head(checkout);
        root_view.add_public_head(store.root_commit_id());
        let view = root_view.duplicate();
        let op_store = OpStore::init(root_view);
        let op_heads_store = OpHeadsStore::init(OperationId(0));
        let loader = RepoLoader { repo_path: repo_path.clone(), store, op_store, op_heads_store };
        let repo = ReadonlyRepo::new(repo_path, OperationId(0), view);
        proof {
            assert forall|h: CommitId| #[trigger] loader.op_heads_store.heads_spec().contains(h) implies h.0 < loader.op_store.len() by {
                assert(h == node(OperationId(0)));
            }
            assert(Set::<CommitId>::empty().insert(CommitId(1)) =~= Set::empty().insert(checkout));
        }
        (loader, repo)
    }

    /// The snapshot at the repository's single operation head.
    pub fn load(loader: &mut RepoLoader) -> (r: ReadonlyRepo)
        requires
            old(loader).wf(),
            old(loader).ops().len() + 2 < u64::MAX,
            2 * old(loader).store_spec().len() + 2 < u64::MAX,
        ensures
            final(loader).wf(),
            r.wf(),
            op_heads_resolved(*old(loader), *final(loader), r.op_id_spec()),
            r.path() == final(loader).path(),
            r.view_model() == final(loader).ops().view_at(r.op_id_spec().0 as int),
    {
        loader.load_at_head()
    }

    /// A fresh snapshot at the repository's single operation head.
    pub fn reload(&self, loader: &mut RepoLoader) -> (r: ReadonlyRepo)
        requires
            old(loader).wf(),
            old(loader).ops().len() + 2 < u64::MAX,
            2 * old(loader).store_spec().len() + 2 < u64::MAX,
        ensures
            final(loader).wf(),
            r.wf(),
            op_heads_resolved(*old(loader), *final(loader), r.op_id_spec()),
            r.path() == final(loader).path(),
            r.view_model() == final(loader).ops().view_at(r.op_id_spec().0 as int),
    {
        loader.load_at_head()
    }

    /// The snapshot at the operation.
    pub fn reload_at(&self, loader: &RepoLoader, operation: OperationId) -> (r: ReadonlyRepo)
        requires
            loader.wf(),
            operation.0 < loader.ops().len(),
        ensures
            r.wf(),
            r.op_id_spec() == operation,
            r.view_model() == loader.ops().view_at(operation.0 as int),
            r.path() == loader.path(),
    {
        loader.load_at(operation)
    }

    /// Refers to this snapshot as a repository.
    pub fn as_repo_ref(&self) -> (r: RepoRef<'_>)
        ensures
            r == RepoRef::Readonly(self),
    {
        RepoRef::Readonly(self)
    }
}

/// A repository, read-only or in a transaction.
pub enum RepoRef<'a> {
    Readonly(&'a ReadonlyRepo),
    Mutable(&'a MutableRepo),
}

impl<'a> RepoRef<'a> {
    /// The snapshot the repository is, or that its transaction started from.
    pub fn base_repo(&self) -> (r: &ReadonlyRepo)
        requires
            match *self {
                RepoRef::Readonly(repo) => repo.wf(),
                RepoRef::Mutable(repo) => repo.wf(),
            },
        ensures
            r.wf(),
            match *self {
                RepoRef::Readonly(repo) => r == repo,
                RepoRef::Mutable(repo) => r.view_model() == repo.base_model() && r.op_id_spec() == repo.base_op(),
            },
    {
        match self {
            RepoRef::Readonly(repo) => repo,
            RepoRef::Mutable(repo) => repo.base_repo(),
        }
    }

    /// The repository's view; a transaction's working view as it stands.
    pub fn view(&self) -> (r: &RepoView)
        requires
            match *self {
                RepoRef::Readonly(repo) => repo.wf(),
                RepoRef::Mutable(repo) => repo.wf(),
            },
        ensures
            r.wf(),
            r@ == match *self {
                RepoRef::Readonly(repo) => repo.view_model(),
                RepoRef::Mutable(repo) => repo.view_model(),
            },
    {
        match self {
            RepoRef::Readonly(repo) => repo.view(),
            RepoRef::Mutable(repo) => repo.working_view(),
        }
    }
}

impl MutableRepo {
    /// Refers to this transaction's repository.
    pub fn as_repo_ref(&self) -> (r: RepoRef<'_>)
        ensures
            r == RepoRef::Mutable(self),
    {
        RepoRef::Mutable(self)
    }

    /// Finishes the transaction: recomputes the heads, writes an operation
    /// whose parent is the base operation and whose view is the working view,
    /// and makes it an operation head in place of its parent.
    pub fn commit(self, loader: &mut RepoLoader, description: String) -> (r: ReadonlyRepo)
        requires
            self.wf(),
            old(loader).wf(),
            self.base_op().0 < old(loader).ops().len(),
            old(loader).ops().len() + 2 < u64::MAX,
        ensures
            final(loader).wf(),
            r.wf(),
            r.op_id_spec().0 == old(loader).ops().len(),
            final(loader).ops().len() == old(loader).ops().len() + 1,
            final(loader).ops().graph() == old(loader).ops().graph().push(seq![node(self.base_op())]),
            r.view_model() == enforced(old(loader).store_spec().graph(), self.view_model()),
            final(loader).ops().view_at(r.op_id_spec().0 as int) == r.view_model(),
            heads_invariant(old(loader).store_spec().graph(), r.view_model()),
            final(loader).op_heads() == old(loader).op_heads().remove(node(self.base_op())).insert(node(r.op_id_spec())),
            final(loader).store_spec() == old(loader).store_spec(),
            forall|i: int| 0 <= i < old(loader).ops().len() ==> #[trigger] final(loader).ops().view_at(i) == old(loader).ops().view_at(i),
    {
        let base_op = self.base_repo.op_id;
        let view = self.consume(&loader.store);
        let snapshot = view.duplicate();
        let mut parents: Vec<OperationId> = Vec::new();
        parents.push(base_op);
        let id = loader.op_store.write_operation(&parents, view, description);
        loader.op_heads_store.remove_op_head(base_op);
        loader.op_heads_store.add_op_head(id);
        proof {
            assert(parents@.map_values(|p: OperationId| node(p)) =~= seq![node(base_op)]);
            assert forall|h: CommitId| #[trigger] loader.op_heads_store.heads_spec().contains(h) implies h.0 < loader.op_store.len() by {
                if h != node(id) {
                    assert(old(loader).op_heads_store.heads_spec().contains(h));
                }
            }
        }
        loader._finish_load(id, snapshot)
    }
}

/// The operation `r` merges the two operation heads of `before`: its parents
/// are those heads, and its view is the merge of their views against a common
/// ancestor, heads recomputed.
pub open spec fn op_heads_merged(before: RepoLoader, after: RepoLoader, r: OperationId) -> bool {
    let g = before.ops().graph();
    let hs = crate::index::heads_of(g, before.op_heads());
    &&& r.0 == before.ops().len()
    &&& after.ops().len() == before.ops().len() + 1
    &&& after.ops().graph()[r.0 as int].len() == 2
    &&& set_of(after.ops().graph()[r.0 as int]) == hs
    &&& exists|b: OperationId, merged: ViewModel| #[trigger] merged_from(before, after, r, b, merged)
}

/// The view of `r` is `merged` with its heads recomputed, and `merged` is the
/// merge of the views of the parents of `r` against the view of `b`, a common
/// ancestor of them, the latest such.
pub open spec fn merged_from(before: RepoLoader, after: RepoLoader, r: OperationId, b: OperationId, merged: ViewModel) -> bool {
    let g = before.ops().graph();
    let h1 = after.ops().graph()[r.0 as int][0];
    let h2 = after.ops().graph()[r.0 as int][1];
    &&& b.0 < before.ops().len()
    &&& is_common_ancestor(g, set_of(after.ops().graph()[r.0 as int]), b)
    &&& forall|c: OperationId| b.0 < c.0 < before.ops().len() ==> !#[trigger] is_common_ancestor(g, set_of(after.ops().graph()[r.0 as int]), c)
    &&& crate::view::views_merged(before.ops().view_at(b.0 as int), before.ops().view_at(h1.0 as int),
        before.ops().view_at(h2.0 as int), merged)
    &&& after.ops().view_at(r.0 as int) == enforced(before.store_spec().graph(), merged)
}

} // verus!
