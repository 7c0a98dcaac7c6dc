//! Moving existing branches to a commit: `branch set`.

use vstd::prelude::*;
use crate::backend::{CommitId, Store};
use crate::index::is_ancestor_spec;
use crate::ref_target::RefTarget;
use crate::repo::MutableRepo;
use crate::view::{ViewModel, TargetModel};

verus! {

/// The arguments of `branch set`: the target revision (the working-copy
/// commit where absent), whether to allow moving backwards or sideways, and
/// the branches to move.
pub struct BranchSetArgs {
    pub revision: Option<String>,
    pub allow_backwards: bool,
    pub names: Vec<String>,
}

/// Why a branch was not moved.
#[derive(Debug, PartialEq, Eq)]
pub enum BranchSetError {
    /// The branch has no local target.
    NoSuchBranch(String),
    /// The move is not a fast-forward and was not allowed.
    RefusingBackwards(String),
}

/// Moving from `old` to `new` is a fast-forward: every commit the old target
/// adds is an ancestor of `new`.
pub open spec fn is_fast_forward_spec(g: Seq<Seq<CommitId>>, old: TargetModel, new: CommitId) -> bool {
    forall|k: int| 0 <= k < old.2.len() ==> #[trigger] is_ancestor_spec(g, old.2[k], new)
}

/// The local target of the branch, where it has one.
pub open spec fn local_of(v: ViewModel, name: Seq<char>) -> Option<TargetModel> {
    if v.branches.contains_key(name) { v.branches[name].0 } else { None }
}

/// The branch can be moved to `new`.
pub open spec fn can_move(g: Seq<Seq<CommitId>>, v: ViewModel, name: Seq<char>, new: CommitId, allow_backwards: bool) -> bool {
    local_of(v, name) is Some && (allow_backwards || is_fast_forward_spec(g, local_of(v, name)->Some_0, new))
}

/// Whether moving the target to `new` is a fast-forward.
pub fn is_fast_forward(store: &Store, old: &RefTarget, new: CommitId) -> (r: bool)
    requires
        store.wf(),
    ensures
        r == is_fast_forward_spec(store.graph(), old@, new),
{
    let adds = old.add_ids();
    let mut k: usize = 0;
    while k < adds.len()
        invariant
            k <= adds@.len(),
            adds@ == old@.2,
            store.wf(),
            forall|j: int| 0 <= j < k ==> #[trigger] is_ancestor_spec(store.graph(), adds@[j], new),
        decreases adds@.len() - k,
    {
        if !store.is_ancestor(adds[k], new) {
            return false;
        }
        k = k + 1;
    }
    true
}

/// The branches after each of `names` points locally at `new`.
pub open spec fn branches_set(b: Map<Seq<char>, (Option<TargetModel>, Map<Seq<char>, TargetModel>)>, names: Seq<Seq<char>>, new: CommitId)
    -> Map<Seq<char>, (Option<TargetModel>, Map<Seq<char>, TargetModel>)>
    decreases names.len(),
{
    if names.len() == 0 {
        b
    } else {
        let prev = branches_set(b, names.drop_last(), new);
        let n = names.last();
        prev.insert(n, (Some((false, Seq::empty(), seq![new])), if prev.contains_key(n) { prev[n].1 } else { Map::empty() }))
    }
}

/// Points each of the named branches at the commit. Every branch must exist
/// and, unless `allow_backwards`, move forward; otherwise nothing changes and
/// the first offending branch is named in the error.
pub fn branch_set(repo: &mut MutableRepo, store: &Store, target: CommitId, names: &Vec<String>, allow_backwards: bool)
    -> (r: Result<(), BranchSetError>)
    requires
        old(repo).wf(),
        store.wf(),
    ensures
        final(repo).wf(),
        match r {
            Ok(()) => {
                &&& forall|i: int| 0 <= i < names@.len() ==>
                    #[trigger] can_move(store.graph(), old(repo).view_model(), names@[i]@, target, allow_backwards)
                &&& final(repo).view_model() == (ViewModel {
                    branches: branches_set(old(repo).view_model().branches, names@.map_values(|s: String| s@), target),
                    ..old(repo).view_model()
                })
                &&& final(repo).same_records(old(repo))
                &&& final(repo).dirty() == old(repo).dirty()
            },
            Err(e) => {
                &&& *final(repo) == *old(repo)
                &&& exists|i: int| 0 <= i < names@.len() && {
                    &&& forall|j: int| 0 <= j < i ==> #[trigger] can_move(store.graph(), old(repo).view_model(), names@[j]@, target, allow_backwards)
                    &&& !can_move(store.graph(), old(repo).view_model(), names@[i]@, target, allow_backwards)
                    &&& e == if local_of(old(repo).view_model(), names@[i]@) is None {
                        BranchSetError::NoSuchBranch(names@[i])
                    } else {
                        BranchSetError::RefusingBackwards(names@[i])
                    }
                }
            },
        },
{
    let ghost v0 = repo.view_model();
    let ghost g = store.graph();
    let mut i: usize = 0;
    while i < names.len()
        invariant
            i <= names@.len(),
            repo == old(repo),
            repo.wf(),
            store.wf(),
            g == store.graph(),
            v0 == repo.view_model(),
            forall|j: int| 0 <= j < i ==> #[trigger] can_move(g, v0, names@[j]@, target, allow_backwards),
        decreases names@.len() - i,
    {
        match repo.get_local_branch(names[i].as_str()) {
            None => {
                assert(!can_move(g, v0, names@[i as int]@, target, allow_backwards));
                return Err(BranchSetError::NoSuchBranch(names[i].clone()));
            },
            Some(old_target) => {
                if !allow_backwards && !is_fast_forward(store, &old_target, target) {
                    assert(!can_move(g, v0, names@[i as int]@, target, allow_backwards));
                    return Err(BranchSetError::RefusingBackwards(names[i].clone()));
                }
            },
        }
        i = i + 1;
    }
    let ghost all = names@.map_values(|s: String| s@);
    proof {
        repo.lemma_same_records_refl();
        assert(all.subrange(0, 0) =~= Seq::<Seq<char>>::empty());
    }
    let mut k: usize = 0;
    while k < names.len()
        invariant
            k <= names@.len(),
            repo.wf(),
            all == names@.map_values(|s: String| s@),
            repo.view_model() == (ViewModel {
                branches: branches_set(v0.branches, all.subrange(0, k as int), target),
                ..v0
            }),
            repo.same_records(old(repo)),
            repo.dirty() == old(repo).dirty(),
        decreases names@.len() - k,
    {
        let ghost before = *repo;
        repo.set_local_branch(names[k].clone(), RefTarget::normal(target));
        proof {
            repo.lemma_same_records_trans(&before, old(repo));
            assert(all.subrange(0, k + 1).drop_last() == all.subrange(0, k as int));
            assert(all.subrange(0, k + 1).last() == names@[k as int]@);
            assert(RefTarget::Normal(target)@ == (false, Seq::<CommitId>::empty(), seq![target]));
        }
        k = k + 1;
    }
    assert(all.subrange(0, k as int) == all);
    Ok(())
}

} // verus!
