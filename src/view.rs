//! The view of a repository: heads, workspace checkouts and refs.

use vstd::prelude::*;
use crate::backend::{CommitId, set_of, contains_id, copy_ids};
use crate::name_map::NameMap;
use crate::ref_target::{RefTarget, opt_model, net_model, canonical_model, occ, lemma_canonical_model, merge_ref_targets, merge_model_holds, lemma_merge_model, deref};
use crate::rebase::{img_model, image_of, subst_parents, image_vec, rebase_target};

verus! {

/// The value of a ref target: whether it is a conflict, its removes, its adds.
pub type TargetModel = (bool, Seq<CommitId>, Seq<CommitId>);

/// The value of a branch: its local target, and its target on each remote.
pub type BranchModel = (Option<TargetModel>, Map<Seq<char>, TargetModel>);

/// The name of the workspace that every repository starts with.
pub open spec fn default_workspace() -> Seq<char> {
    seq!['d', 'e', 'f', 'a', 'u', 'l', 't']
}

/// A branch: where it points locally and on each remote.
pub struct BranchTarget {
    pub local_target: Option<RefTarget>,
    pub remote_targets: NameMap<RefTarget>,
}

impl View for BranchTarget {
    type V = BranchModel;

    open spec fn view(&self) -> BranchModel {
        (opt_model(self.local_target), self.remote_targets@)
    }
}

impl BranchTarget {
    /// A branch with no local target and no remote ones.
    pub fn new() -> (r: BranchTarget)
        ensures
            r.remote_targets.wf(),
            r@ == (None::<TargetModel>, Map::<Seq<char>, TargetModel>::empty()),
    {
        BranchTarget { local_target: None, remote_targets: NameMap::new() }
    }

    /// A copy of the branch.
    pub fn duplicate(&self) -> (r: BranchTarget)
        requires
            self.remote_targets.wf(),
        ensures
            r.remote_targets.wf(),
            r@ == self@,
    {
        let local_target = match &self.local_target {
            Some(t) => Some(t.duplicate()),
            None => None,
        };
        BranchTarget { local_target, remote_targets: copy_target_map(&self.remote_targets) }
    }
}

/// A copy of a map of targets.
pub fn copy_target_map(m: &NameMap<RefTarget>) -> (r: NameMap<RefTarget>)
    requires
        m.wf(),
    ensures
        r.wf(),
        r@ == m@,
{
    let mut r: NameMap<RefTarget> = NameMap::new();
    let mut i: usize = 0;
    proof {
        m.lemma_names();
    }
    while i < m.len()
        invariant
            m.wf(),
            r.wf(),
            i <= m.names_seq().len(),
            forall|k: Seq<char>| m@.contains_key(k) <==> #[trigger] m.names_seq().contains(k),
            forall|k: Seq<char>| #[trigger] r@.contains_key(k) <==> m.names_seq().subrange(0, i as int).contains(k),
            forall|k: Seq<char>| #[trigger] r@.contains_key(k) ==> r@[k] == m@[k],
        decreases m.names_seq().len() - i,
    {
        let name = m.name_at(i).clone();
        let v = m.value_at(i).duplicate();
        let ghost r0 = r@;
        r.insert(name, v);
        proof {
            let pre = m.names_seq().subrange(0, i as int);
            let post = m.names_seq().subrange(0, i + 1);
            assert(post == pre.push(m.names_seq()[i as int]));
            assert forall|k: Seq<char>| #[trigger] r@.contains_key(k) <==> post.contains(k) by {
                if post.contains(k) && k != name@ {
                    let j = choose|j: int| 0 <= j < post.len() && post[j] == k;
                    assert(pre[j] == k);
                }
                if r0.contains_key(k) {
                    let j = choose|j: int| 0 <= j < pre.len() && pre[j] == k;
                    assert(post[j] == k);
                }
                if k == name@ {
                    assert(post[i as int] == k);
                }
            }
        }
        i = i + 1;
    }
    proof {
        assert(m.names_seq().subrange(0, i as int) == m.names_seq());
        assert(r@ =~= m@);
    }
    r
}

/// A copy of a map of commit ids.
pub fn copy_id_map(m: &NameMap<CommitId>) -> (r: NameMap<CommitId>)
    requires
        m.wf(),
    ensures
        r.wf(),
        r@ == m@,
{
    let mut r: NameMap<CommitId> = NameMap::new();
    let mut i: usize = 0;
    proof {
        m.lemma_names();
    }
    while i < m.len()
        invariant
            m.wf(),
            r.wf(),
            i <= m.names_seq().len(),
            forall|k: Seq<char>| m@.contains_key(k) <==> #[trigger] m.names_seq().contains(k),
            forall|k: Seq<char>| #[trigger] r@.contains_key(k) <==> m.names_seq().subrange(0, i as int).contains(k),
            forall|k: Seq<char>| #[trigger] r@.contains_key(k) ==> r@[k] == m@[k],
        decreases m.names_seq().len() - i,
    {
        let name = m.name_at(i).clone();
        let v = *m.value_at(i);
        let ghost r0 = r@;
        r.insert(name, v);
        proof {
            let pre = m.names_seq().subrange(0, i as int);
            let post = m.names_seq().subrange(0, i + 1);
            assert(post == pre.push(m.names_seq()[i as int]));
            assert forall|k: Seq<char>| #[trigger] r@.contains_key(k) <==> post.contains(k) by {
                if post.contains(k) && k != name@ {
                    let j = choose|j: int| 0 <= j < post.len() && post[j] == k;
                    assert(pre[j] == k);
                }
                if r0.contains_key(k) {
                    let j = choose|j: int| 0 <= j < pre.len() && pre[j] == k;
                    assert(post[j] == k);
                }
                if k == name@ {
                    assert(post[i as int] == k);
                }
            }
        }
        i = i + 1;
    }
    proof {
        assert(m.names_seq().subrange(0, i as int) == m.names_seq());
        assert(r@ =~= m@);
    }
    r
}

/// Adds `x` to a list of distinct ids, unless it is there already.
pub fn insert_id(v: &mut Vec<CommitId>, x: CommitId)
    requires
        old(v)@.no_duplicates(),
    ensures
        final(v)@.no_duplicates(),
        set_of(final(v)@) == set_of(old(v)@).insert(x),
{
    if !contains_id(v, x) {
        v.push(x);
        proof {
            assert forall|a: int, b: int| 0 <= a < b < v@.len() implies v@[a] != v@[b] by {
                if b == v@.len() - 1 {
                    assert(old(v)@[a] == v@[a]);
                }
            }
            assert forall|y: CommitId| set_of(v@).contains(y) <==> set_of(old(v)@).insert(x).contains(y) by {
                if old(v)@.contains(y) {
                    let k = choose|k: int| 0 <= k < old(v)@.len() && old(v)@[k] == y;
                    assert(v@[k] == y);
                }
                if v@.contains(y) && y != x {
                    let k = choose|k: int| 0 <= k < v@.len() && v@[k] == y;
                    assert(old(v)@[k] == y);
                }
                if y == x {
                    assert(v@[v@.len() - 1] == x);
                }
            }
            assert(set_of(v@) =~= set_of(old(v)@).insert(x));
        }
    } else {
        assert(set_of(v@) =~= set_of(old(v)@).insert(x));
    }
}

/// Removes `x` from a list of distinct ids.
pub fn remove_id(v: &mut Vec<CommitId>, x: CommitId)
    requires
        old(v)@.no_duplicates(),
    ensures
        final(v)@.no_duplicates(),
        set_of(final(v)@) == set_of(old(v)@).remove(x),
{
    let mut r: Vec<CommitId> = Vec::new();
    let mut i: usize = 0;
    while i < v.len()
        invariant
            i <= v@.len(),
            v@ == old(v)@,
            v@.no_duplicates(),
            r@.no_duplicates(),
            forall|y: CommitId| #[trigger] r@.contains(y) <==> (v@.subrange(0, i as int).contains(y) && y != x),
        decreases v@.len() - i,
    {
        let y = v[i];
        let ghost r0 = r@;
        let ghost pre = v@.subrange(0, i as int);
        assert(v@.subrange(0, i + 1) == pre.push(y));
        if y != x {
            proof {
                if r0.contains(y) {
                    let k = choose|k: int| 0 <= k < pre.len() && pre[k] == y;
                    assert(v@[k] == v@[i as int]);
                }
            }
            r.push(y);
            proof {
                assert forall|a: int, b: int| 0 <= a < b < r@.len() implies r@[a] != r@[b] by {
                    if b == r@.len() - 1 {
                        assert(r0[a] == r@[a]);
                        assert(r0.contains(r@[a]));
                    } else {
                        assert(r0[a] == r@[a] && r0[b] == r@[b]);
                    }
                }
            }
        }
        proof {
            let post = v@.subrange(0, i + 1);
            assert forall|z: CommitId| #[trigger] r@.contains(z) <==> (post.contains(z) && z != x) by {
                if post.contains(z) && z != y {
                    let k = choose|k: int| 0 <= k < post.len() && post[k] == z;
                    assert(pre[k] == z);
                }
                if pre.contains(z) {
                    let k = choose|k: int| 0 <= k < pre.len() && pre[k] == z;
                    assert(post[k] == z);
                }
                if z == y {
                    assert(post[i as int] == y);
                    if y != x {
                        assert(r@[r@.len() - 1] == y);
                    }
                }
                if r@.contains(z) && z != y {
                    let k = choose|k: int| 0 <= k < r@.len() && r@[k] == z;
                    if y != x {
                        assert(k < r0.len());
                        assert(r0[k] == z);
                    }
                    assert(r0.contains(z));
                }
                if r0.contains(z) {
                    let k = choose|k: int| 0 <= k < r0.len() && r0[k] == z;
                    assert(r@[k] == z);
                }
            }
        }
        i = i + 1;
    }
    proof {
        assert(v@.subrange(0, i as int) == v@);
        assert(set_of(r@) =~= set_of(old(v)@).remove(x));
    }
    *v = r;
}

/// The view after the branch points locally at `t`; a new branch has no
/// remote targets.
pub open spec fn with_local_branch(v: ViewModel, name: Seq<char>, t: TargetModel) -> ViewModel {
    ViewModel {
        branches: v.branches.insert(name, (Some(t), if v.branches.contains_key(name) {
            v.branches[name].1
        } else {
            Map::empty()
        })),
        ..v
    }
}

/// Pointing a branch at one target and then at another leaves the same view
/// as pointing it at the second target alone.
pub proof fn lemma_set_local_branch_twice(v: ViewModel, name: Seq<char>, t1: TargetModel, t2: TargetModel)
    ensures
        with_local_branch(with_local_branch(v, name, t1), name, t2) == with_local_branch(v, name, t2),
{
    assert(with_local_branch(with_local_branch(v, name, t1), name, t2).branches =~= with_local_branch(v, name, t2).branches);
}

/// The value of a view.
pub struct ViewModel {
    pub heads: Set<CommitId>,
    pub public_heads: Set<CommitId>,
    pub checkouts: Map<Seq<char>, CommitId>,
    pub branches: Map<Seq<char>, BranchModel>,
    pub tags: Map<Seq<char>, TargetModel>,
    pub git_refs: Map<Seq<char>, TargetModel>,
    pub git_head: Option<CommitId>,
}

/// The heads, checkouts and refs of a repository at one operation.
pub struct RepoView {
    head_ids: Vec<CommitId>,
    public_head_ids: Vec<CommitId>,
    checkouts: NameMap<CommitId>,
    branches: NameMap<BranchTarget>,
    tags: NameMap<RefTarget>,
    git_refs: NameMap<RefTarget>,
    git_head: Option<CommitId>,
}

impl View for RepoView {
    type V = ViewModel;

    closed spec fn view(&self) -> ViewModel {
        ViewModel {
            heads: set_of(self.head_ids@),
            public_heads: set_of(self.public_head_ids@),
            checkouts: self.checkouts@,
            branches: self.branches@,
            tags: self.tags@,
            git_refs: self.git_refs@,
            git_head: self.git_head,
        }
    }
}

impl RepoView {
    /// Each map is well formed, the branches' remote maps too, and the head
    /// lists hold no id twice.
    pub closed spec fn wf(&self) -> bool {
        &&& self.head_ids@.no_duplicates()
        &&& self.public_head_ids@.no_duplicates()
        &&& self.checkouts.wf()
        &&& self.branches.wf()
        &&& self.branches.wf_values()
        &&& self.tags.wf()
        &&& self.git_refs.wf()
    }

    /// An empty view: no heads, checkouts or refs.
    pub fn new() -> (r: RepoView)
        ensures
            r.wf(),
            r@ == (ViewModel {
                heads: Set::empty(),
                public_heads: Set::empty(),
                checkouts: Map::empty(),
                branches: Map::empty(),
                tags: Map::empty(),
                git_refs: Map::empty(),
                git_head: None,
            }),
    {
        let r = RepoView {
            head_ids: Vec::new(),
            public_head_ids: Vec::new(),
            checkouts: NameMap::new(),
            branches: NameMap::new_branches(),
            tags: NameMap::new(),
            git_refs: NameMap::new(),
            git_head: None,
        };
        assert(set_of(r.head_ids@) =~= Set::empty());
        assert(set_of(r.public_head_ids@) =~= Set::empty());
        r
    }

    /// A copy of the view.
    pub fn duplicate(&self) -> (r: RepoView)
        requires
            self.wf(),
        ensures
            r.wf(),
            r@ == self@,
    {
        RepoView {
            head_ids: copy_ids(&self.head_ids),
            public_head_ids: copy_ids(&self.public_head_ids),
            checkouts: copy_id_map(&self.checkouts),
            branches: copy_branch_map(&self.branches),
            tags: copy_target_map(&self.tags),
            git_refs: copy_target_map(&self.git_refs),
            git_head: self.git_head,
        }
    }

    /// The heads, each once.
    pub fn heads(&self) -> (r: Vec<CommitId>)
        requires
            self.wf(),
        ensures
            set_of(r@) == self@.heads,
            r@.no_duplicates(),
    {
        copy_ids(&self.head_ids)
    }

    /// The public heads, each once.
    pub fn public_heads(&self) -> (r: Vec<CommitId>)
        requires
            self.wf(),
        ensures
            set_of(r@) == self@.public_heads,
            r@.no_duplicates(),
    {
        copy_ids(&self.public_head_ids)
    }

    pub fn add_head(&mut self, id: CommitId)
        requires
            old(self).wf(),
        ensures
            final(self).wf(),
            final(self)@ == (ViewModel { heads: old(self)@.heads.insert(id), ..old(self)@ }),
    {
        insert_id(&mut self.head_ids, id);
    }

    pub fn remove_head(&mut self, id: CommitId)
        requires
            old(self).wf(),
        ensures
            final(self).wf(),
            final(self)@ == (ViewModel { heads: old(self)@.heads.remove(id), ..old(self)@ }),
    {
        remove_id(&mut self.head_ids, id);
    }

    pub fn add_public_head(&mut self, id: CommitId)
        requires
            old(self).wf(),
        ensures
            final(self).wf(),
            final(self)@ == (ViewModel { public_heads: old(self)@.public_heads.insert(id), ..old(self)@ }),
    {
        insert_id(&mut self.public_head_ids, id);
    }

    pub fn remove_public_head(&mut self, id: CommitId)
        requires
            old(self).wf(),
        ensures
            final(self).wf(),
            final(self)@ == (ViewModel { public_heads: old(self)@.public_heads.remove(id), ..old(self)@ }),
    {
        remove_id(&mut self.public_head_ids, id);
    }

    /// Replaces the heads and the public heads.
    pub fn set_heads(&mut self, heads: Vec<CommitId>, public_heads: Vec<CommitId>)
        requires
            old(self).wf(),
            heads@.no_duplicates(),
            public_heads@.no_duplicates(),
        ensures
            final(self).wf(),
            final(self)@ == (ViewModel { heads: set_of(heads@), public_heads: set_of(public_heads@), ..old(self)@ }),
    {
        self.head_ids = heads;
        self.public_head_ids = public_heads;
    }

    /// The commit checked out in the workspace, if it has one.
    pub fn get_checkout(&self, workspace: &str) -> (r: Option<CommitId>)
        requires
            self.wf(),
        ensures
            r == (if self@.checkouts.contains_key(workspace@) { Some(self@.checkouts[workspace@]) } else { None }),
    {
        match self.checkouts.get(workspace) {
            Some(id) => Some(*id),
            None => None,
        }
    }

    pub fn set_checkout(&mut self, workspace: String, id: CommitId)
        requires
            old(self).wf(),
        ensures
            final(self).wf(),
            final(self)@ == (ViewModel { checkouts: old(self)@.checkouts.insert(workspace@, id), ..old(self)@ }),
    {
        self.checkouts.insert(workspace, id);
    }

    pub fn get_branch(&self, name: &str) -> (r: Option<BranchTarget>)
        requires
            self.wf(),
        ensures
            match r {
                Some(b) => self@.branches.contains_key(name@) && b@ == self@.branches[name@] && b.remote_targets.wf(),
                None => !self@.branches.contains_key(name@),
            },
    {
        match self.branches.get_wf(name) {
            Some(b) => {
                Some(b.duplicate())
            },
            None => None,
        }
    }

    pub fn set_branch(&mut self, name: String, target: BranchTarget)
        requires
            old(self).wf(),
            target.remote_targets.wf(),
        ensures
            final(self).wf(),
            final(self)@ == (ViewModel { branches: old(self)@.branches.insert(name@, target@), ..old(self)@ }),
    {
        self.branches.insert_wf(name, target);
    }

    pub fn remove_branch(&mut self, name: &str)
        requires
            old(self).wf(),
        ensures
            final(self).wf(),
            final(self)@ == (ViewModel { branches: old(self)@.branches.remove(name@), ..old(self)@ }),
    {
        self.branches.remove_wf(name);
    }

    /// The branch's local target, if the branch exists and has one.
    pub fn get_local_branch(&self, name: &str) -> (r: Option<RefTarget>)
        requires
            self.wf(),
        ensures
            opt_model(r) == (if self@.branches.contains_key(name@) { self@.branches[name@].0 } else { None }),
    {
        match self.branches.get_wf(name) {
            Some(b) => match &b.local_target {
                Some(t) => Some(t.duplicate()),
                None => None,
            },
            None => None,
        }
    }

    /// Points the branch locally at the target; a new branch has no remote targets.
    pub fn set_local_branch(&mut self, name: String, target: RefTarget)
        requires
            old(self).wf(),
        ensures
            final(self).wf(),
            final(self)@ == with_local_branch(old(self)@, name@, target@),
    {
        let mut b = match self.branches.get_wf(name.as_str()) {
            Some(b) => {
                b.duplicate()
            },
            None => BranchTarget::new(),
        };
        b.local_target = Some(target);
        self.branches.insert_wf(name, b);
    }

    /// Removes the branch's local target; a branch left with no target at all is removed.
    pub fn remove_local_branch(&mut self, name: &str)
        requires
            old(self).wf(),
        ensures
            final(self).wf(),
            final(self)@ == (ViewModel {
                branches: if !old(self)@.branches.contains_key(name@) {
                    old(self)@.branches
                } else if old(self)@.branches[name@].1.is_empty() {
                    old(self)@.branches.remove(name@)
                } else {
                    old(self)@.branches.insert(name@, (None, old(self)@.branches[name@].1))
                },
                ..old(self)@
            }),
    {
        match self.branches.get_wf(name) {
            Some(b) => {
                if b.remote_targets.len() == 0 {
                    proof {
                        b.remote_targets.lemma_names();
                        assert(b.remote_targets@ =~= Map::empty());
                    }
                    self.branches.remove_wf(name);
                } else {
                    proof {
                        b.remote_targets.lemma_names();
                        let k = b.remote_targets.names_seq()[0];
                        assert(b.remote_targets@.contains_key(k));
                    }
                    let mut nb = b.duplicate();
                    nb.local_target = None;
                    self.branches.insert_wf(name.to_owned(), nb);
                }
            },
            None => {},
        }
    }

    /// The branch's target on the remote, if there is one.
    pub fn get_remote_branch(&self, name: &str, remote_name: &str) -> (r: Option<RefTarget>)
        requires
            self.wf(),
        ensures
            opt_model(r) == (if self@.branches.contains_key(name@) && self@.branches[name@].1.contains_key(remote_name@) {
                Some(self@.branches[name@].1[remote_name@])
            } else {
                None
            }),
    {
        match self.branches.get_wf(name) {
            Some(b) => {
                match b.remote_targets.get(remote_name) {
                    Some(t) => Some(t.duplicate()),
                    None => None,
                }
            },
            None => None,
        }
    }

    /// Points the branch on the remote at the target; a new branch has no local target.
    pub fn set_remote_branch(&mut self, name: String, remote_name: String, target: RefTarget)
        requires
            old(self).wf(),
        ensures
            final(self).wf(),
            final(self)@ == (ViewModel {
                branches: old(self)@.branches.insert(name@, if old(self)@.branches.contains_key(name@) {
                    (old(self)@.branches[name@].0, old(self)@.branches[name@].1.insert(remote_name@, target@))
                } else {
                    (None, Map::empty().insert(remote_name@, target@))
                }),
                ..old(self)@
            }),
    {
        let mut b = match self.branches.get_wf(name.as_str()) {
            Some(b) => {
                b.duplicate()
            },
            None => BranchTarget::new(),
        };
        b.remote_targets.insert(remote_name, target);
        self.branches.insert_wf(name, b);
    }

    /// Removes the branch's target on the remote; a branch left with no target
    /// at all is removed.
    pub fn remove_remote_branch(&mut self, name: &str, remote_name: &str)
        requires
            old(self).wf(),
        ensures
            final(self).wf(),
            final(self)@ == (ViewModel {
                branches: if !old(self)@.branches.contains_key(name@) {
                    old(self)@.branches
                } else if old(self)@.branches[name@].0 is None
                    && old(self)@.branches[name@].1.remove(remote_name@).is_empty() {
                    old(self)@.branches.remove(name@)
                } else {
                    old(self)@.branches.insert(name@, (old(self)@.branches[name@].0, old(self)@.branches[name@].1.remove(remote_name@)))
                },
                ..old(self)@
            }),
    {
        match self.branches.get_wf(name) {
            Some(b) => {
                let mut nb = b.duplicate();
                nb.remote_targets.remove(remote_name);
                if nb.local_target.is_none() && nb.remote_targets.len() == 0 {
                    proof {
                        nb.remote_targets.lemma_names();
                        assert(nb.remote_targets@ =~= Map::empty());
                    }
                    self.branches.remove_wf(name);
                } else {
                    proof {
                        nb.remote_targets.lemma_names();
                        if nb.local_target.is_none() {
                            let k = nb.remote_targets.names_seq()[0];
                            assert(nb.remote_targets@.contains_key(k));
                        }
                    }
                    self.branches.insert_wf(name.to_owned(), nb);
                }
            },
            None => {},
        }
    }

    pub fn get_tag(&self, name: &str) -> (r: Option<RefTarget>)
        requires
            self.wf(),
        ensures
            opt_model(r) == (if self@.tags.contains_key(name@) { Some(self@.tags[name@]) } else { None }),
    {
        match self.tags.get(name) {
            Some(t) => Some(t.duplicate()),
            None => None,
        }
    }

    pub fn set_tag(&mut self, name: String, target: RefTarget)
        requires
            old(self).wf(),
        ensures
            final(self).wf(),
            final(self)@ == (ViewModel { tags: old(self)@.tags.insert(name@, target@), ..old(self)@ }),
    {
        self.tags.insert(name, target);
    }

    pub fn remove_tag(&mut self, name: &str)
        requires
            old(self).wf(),
        ensures
            final(self).wf(),
            final(self)@ == (ViewModel { tags: old(self)@.tags.remove(name@), ..old(self)@ }),
    {
        self.tags.remove(name);
    }

    pub fn get_git_ref(&self, name: &str) -> (r: Option<RefTarget>)
        requires
            self.wf(),
        ensures
            opt_model(r) == (if self@.git_refs.contains_key(name@) { Some(self@.git_refs[name@]) } else { None }),
    {
        match self.git_refs.get(name) {
            Some(t) => Some(t.duplicate()),
            None => None,
        }
    }

    pub fn set_git_ref(&mut self, name: String, target: RefTarget)
        requires
            old(self).wf(),
        ensures
            final(self).wf(),
            final(self)@ == (ViewModel { git_refs: old(self)@.git_refs.insert(name@, target@), ..old(self)@ }),
    {
        self.git_refs.insert(name, target);
    }

    pub fn remove_git_ref(&mut self, name: &str)
        requires
            old(self).wf(),
        ensures
            final(self).wf(),
            final(self)@ == (ViewModel { git_refs: old(self)@.git_refs.remove(name@), ..old(self)@ }),
    {
        self.git_refs.remove(name);
    }

    pub fn git_head(&self) -> (r: Option<CommitId>)
        ensures
            r == self@.git_head,
    {
        self.git_head
    }

    pub fn set_git_head(&mut self, id: CommitId)
        requires
            old(self).wf(),
        ensures
            final(self).wf(),
            final(self)@ == (ViewModel { git_head: Some(id), ..old(self)@ }),
    {
        self.git_head = Some(id);
    }

    pub fn clear_git_head(&mut self)
        requires
            old(self).wf(),
        ensures
            final(self).wf(),
            final(self)@ == (ViewModel { git_head: None, ..old(self)@ }),
    {
        self.git_head = None;
    }
}

/// A copy of a map of branches.
pub fn copy_branch_map(m: &NameMap<BranchTarget>) -> (r: NameMap<BranchTarget>)
    requires
        m.wf(),
        m.wf_values(),
    ensures
        r.wf(),
        r.wf_values(),
        r@ == m@,
{
    let mut r: NameMap<BranchTarget> = NameMap::new_branches();
    let mut i: usize = 0;
    proof {
        m.lemma_names();
    }
    while i < m.len()
        invariant
            m.wf(),
            m.wf_values(),
            r.wf(),
            r.wf_values(),
            i <= m.names_seq().len(),
            forall|k: Seq<char>| m@.contains_key(k) <==> #[trigger] m.names_seq().contains(k),
            forall|k: Seq<char>| #[trigger] r@.contains_key(k) <==> m.names_seq().subrange(0, i as int).contains(k),
            forall|k: Seq<char>| #[trigger] r@.contains_key(k) ==> r@[k] == m@[k],
        decreases m.names_seq().len() - i,
    {
        let name = m.name_at(i).clone();
        let v = m.branch_at(i).duplicate();
        let ghost r0 = r@;
        r.insert_wf(name, v);
        proof {
            let pre = m.names_seq().subrange(0, i as int);
            let post = m.names_seq().subrange(0, i + 1);
            assert(post == pre.push(m.names_seq()[i as int]));
            assert forall|k: Seq<char>| #[trigger] r@.contains_key(k) <==> post.contains(k) by {
                if post.contains(k) && k != name@ {
                    let j = choose|j: int| 0 <= j < post.len() && post[j] == k;
                    assert(pre[j] == k);
                }
                if r0.contains_key(k) {
                    let j = choose|j: int| 0 <= j < pre.len() && pre[j] == k;
                    assert(post[j] == k);
                }
                if k == name@ {
                    assert(post[i as int] == k);
                }
            }
        }
        i = i + 1;
    }
    proof {
        assert(m.names_seq().subrange(0, i as int) == m.names_seq());
        assert(r@ =~= m@);
    }
    r
}

/// The commits that the targets of a map add.
pub open spec fn adds_in(m: Map<Seq<char>, TargetModel>) -> Set<CommitId> {
    Set::new(|c: CommitId| exists|n: Seq<char>| #[trigger] m.contains_key(n) && m[n].2.contains(c))
}

/// The commits that the branches add, locally or on a remote.
pub open spec fn branch_adds(m: Map<Seq<char>, BranchModel>) -> Set<CommitId> {
    Set::new(|c: CommitId| exists|n: Seq<char>| #[trigger] m.contains_key(n) && branch_has(m[n], c))
}

/// The commits that the checkouts and the targets of refs point to.
pub open spec fn referenced(v: ViewModel) -> Set<CommitId> {
    Set::new(|c: CommitId| exists|w: Seq<char>| #[trigger] v.checkouts.contains_key(w) && v.checkouts[w] == c)
        + branch_adds(v.branches) + adds_in(v.tags) + adds_in(v.git_refs)
}

/// Appends the ids of `v` to `out`.
pub fn append_ids(out: &mut Vec<CommitId>, v: &Vec<CommitId>)
    ensures
        set_of(final(out)@) == set_of(old(out)@) + set_of(v@),
{
    let ghost o = out@;
    let mut i: usize = 0;
    while i < v.len()
        invariant
            i <= v@.len(),
            out@ == o + v@.subrange(0, i as int),
        decreases v@.len() - i,
    {
        out.push(v[i]);
        i = i + 1;
        assert(out@ =~= o + v@.subrange(0, i as int));
    }
    assert(v@.subrange(0, i as int) == v@);
    assert forall|c: CommitId| set_of(out@).contains(c) <==> (set_of(o) + set_of(v@)).contains(c) by {
        if out@.contains(c) {
            let k = choose|k: int| 0 <= k < out@.len() && out@[k] == c;
            if k < o.len() {
                assert(o[k] == c);
            } else {
                assert(v@[k - o.len()] == c);
            }
        }
        if o.contains(c) {
            let k = choose|k: int| 0 <= k < o.len() && o[k] == c;
            assert(out@[k] == c);
        }
        if v@.contains(c) {
            let k = choose|k: int| 0 <= k < v@.len() && v@[k] == c;
            assert(out@[o.len() + k] == c);
        }
    }
    assert(set_of(out@) =~= set_of(o) + set_of(v@));
}

/// Appends to `out` the commits that the targets of the map add.
pub fn collect_adds(m: &NameMap<RefTarget>, out: &mut Vec<CommitId>)
    requires
        m.wf(),
    ensures
        set_of(final(out)@) == set_of(old(out)@) + adds_in(m@),
{
    proof {
        m.lemma_names();
    }
    let ghost o = set_of(out@);
    let mut i: usize = 0;
    while i < m.len()
        invariant
            m.wf(),
            i <= m.names_seq().len(),
            forall|k: Seq<char>| #![trigger m@.contains_key(k)] #![trigger m.names_seq().contains(k)]
                m@.contains_key(k) <==> m.names_seq().contains(k),
            set_of(out@) == o + Set::new(|c: CommitId| exists|j: int| 0 <= j < i && #[trigger] m@[m.names_seq()[j]].2.contains(c)),
        decreases m.names_seq().len() - i,
    {
        let t = m.value_at(i);
        let adds = t.add_ids();
        let ghost before = set_of(out@);
        append_ids(out, &adds);
        proof {
            assert(set_of(out@) =~= o + Set::new(|c: CommitId| exists|j: int| 0 <= j < i + 1 && #[trigger] m@[m.names_seq()[j]].2.contains(c))) by {
                assert forall|c: CommitId| #[trigger] set_of(adds@).contains(c) == m@[m.names_seq()[i as int]].2.contains(c) by {
                }
            }
        }
        i = i + 1;
    }
    proof {
        assert forall|c: CommitId| (exists|j: int| 0 <= j < i && #[trigger] m@[m.names_seq()[j]].2.contains(c)) == adds_in(m@).contains(c) by {
            if exists|j: int| 0 <= j < i && #[trigger] m@[m.names_seq()[j]].2.contains(c) {
                let j = choose|j: int| 0 <= j < i && #[trigger] m@[m.names_seq()[j]].2.contains(c);
                assert(m.names_seq().contains(m.names_seq()[j]));
                assert(m@.contains_key(m.names_seq()[j]));
            }
            if adds_in(m@).contains(c) {
                let n = choose|n: Seq<char>| #[trigger] m@.contains_key(n) && m@[n].2.contains(c);
                assert(m.names_seq().contains(n));
                let j = choose|j: int| 0 <= j < m.names_seq().len() && m.names_seq()[j] == n;
                assert(m@[m.names_seq()[j]].2.contains(c));
            }
        }
        assert(set_of(out@) =~= o + adds_in(m@));
    }
}

/// Appends to `out` the commits that the branches add.
pub fn collect_branch_adds(m: &NameMap<BranchTarget>, out: &mut Vec<CommitId>)
    requires
        m.wf(),
        m.wf_values(),
    ensures
        set_of(final(out)@) == set_of(old(out)@) + branch_adds(m@),
{
    proof {
        m.lemma_names();
    }
    let ghost o = set_of(out@);
    let mut i: usize = 0;
    while i < m.len()
        invariant
            m.wf(),
            m.wf_values(),
            i <= m.names_seq().len(),
            forall|k: Seq<char>| #![trigger m@.contains_key(k)] #![trigger m.names_seq().contains(k)]
                m@.contains_key(k) <==> m.names_seq().contains(k),
            set_of(out@) == o + Set::new(|c: CommitId| exists|j: int| 0 <= j < i && #[trigger] branch_has(m@[m.names_seq()[j]], c)),
        decreases m.names_seq().len() - i,
    {
        let b = m.branch_at(i);
        let ghost before = set_of(out@);
        match &b.local_target {
            Some(t) => {
                let adds = t.add_ids();
                append_ids(out, &adds);
            },
            None => {},
        }
        collect_adds(&b.remote_targets, out);
        proof {
            let ghost bm = m@[m.names_seq()[i as int]];
            assert forall|c: CommitId| set_of(out@).contains(c) == (before.contains(c) || #[trigger] branch_has(bm, c)) by {
                match b.local_target {
                    Some(t) => {
                        assert(bm.0 == Some(t.model()));
                    },
                    None => {},
                }
            }
            assert forall|c: CommitId| #[trigger] set_of(out@).contains(c) == (o + Set::new(|c: CommitId| exists|j: int| 0 <= j < i + 1 && #[trigger] branch_has(m@[m.names_seq()[j]], c))).contains(c) by {
                if branch_has(bm, c) {
                    assert(branch_has(m@[m.names_seq()[i as int]], c));
                }
                if exists|j: int| 0 <= j < i + 1 && #[trigger] branch_has(m@[m.names_seq()[j]], c) {
                    let j = choose|j: int| 0 <= j < i + 1 && #[trigger] branch_has(m@[m.names_seq()[j]], c);
                    if j < i {
                        assert(before.contains(c));
                    }
                }
            }
            assert(set_of(out@) =~= o + Set::new(|c: CommitId| exists|j: int| 0 <= j < i + 1 && #[trigger] branch_has(m@[m.names_seq()[j]], c)));
        }
        i = i + 1;
    }
    proof {
        assert forall|c: CommitId| (exists|j: int| 0 <= j < i && #[trigger] branch_has(m@[m.names_seq()[j]], c)) == branch_adds(m@).contains(c) by {
            if exists|j: int| 0 <= j < i && #[trigger] branch_has(m@[m.names_seq()[j]], c) {
                let j = choose|j: int| 0 <= j < i && #[trigger] branch_has(m@[m.names_seq()[j]], c);
                assert(m.names_seq().contains(m.names_seq()[j]));
                assert(m@.contains_key(m.names_seq()[j]));
            }
            if branch_adds(m@).contains(c) {
                let n = choose|n: Seq<char>| #[trigger] m@.contains_key(n) && branch_has(m@[n], c);
                assert(m.names_seq().contains(n));
                let j = choose|j: int| 0 <= j < m.names_seq().len() && m.names_seq()[j] == n;
                assert(branch_has(m@[m.names_seq()[j]], c));
            }
        }
        assert(set_of(out@) =~= o + branch_adds(m@));
    }
}

/// The branch adds the commit, locally or on a remote.
pub open spec fn branch_has(b: BranchModel, c: CommitId) -> bool {
    (b.0 is Some && b.0->Some_0.2.contains(c)) || adds_in(b.1).contains(c)
}

/// Appends to `out` the commits that the workspaces have checked out.
pub fn collect_checkouts(m: &NameMap<CommitId>, out: &mut Vec<CommitId>)
    requires
        m.wf(),
    ensures
        set_of(final(out)@) == set_of(old(out)@)
            + Set::new(|c: CommitId| exists|w: Seq<char>| #[trigger] m@.contains_key(w) && m@[w] == c),
{
    proof {
        m.lemma_names();
    }
    let ghost o = set_of(out@);
    let mut i: usize = 0;
    while i < m.len()
        invariant
            m.wf(),
            i <= m.names_seq().len(),
            forall|k: Seq<char>| #![trigger m@.contains_key(k)] #![trigger m.names_seq().contains(k)]
                m@.contains_key(k) <==> m.names_seq().contains(k),
            set_of(out@) == o + Set::new(|c: CommitId| exists|j: int| 0 <= j < i && #[trigger] m@[m.names_seq()[j]] == c),
        decreases m.names_seq().len() - i,
    {
        let id = *m.value_at(i);
        let ghost before = out@;
        out.push(id);
        proof {
            assert forall|c: CommitId| set_of(out@).contains(c) == (set_of(before).contains(c) || c == id) by {
                if out@.contains(c) {
                    let k = choose|k: int| 0 <= k < out@.len() && out@[k] == c;
                    if k < before.len() {
                        assert(before[k] == c);
                    }
                }
                if before.contains(c) {
                    let k = choose|k: int| 0 <= k < before.len() && before[k] == c;
                    assert(out@[k] == c);
                }
                if c == id {
                    assert(out@[before.len() as int] == c);
                }
            }
            assert forall|c: CommitId| #[trigger] set_of(out@).contains(c) == (o + Set::new(|c: CommitId| exists|j: int| 0 <= j < i + 1 && #[trigger] m@[m.names_seq()[j]] == c)).contains(c) by {
                if c == id {
                    assert(m@[m.names_seq()[i as int]] == c);
                }
                if set_of(before).contains(c) && !o.contains(c) {
                    let j = choose|j: int| 0 <= j < i && #[trigger] m@[m.names_seq()[j]] == c;
                    assert(0 <= j < i + 1 && m@[m.names_seq()[j]] == c);
                }
                if exists|j: int| 0 <= j < i + 1 && #[trigger] m@[m.names_seq()[j]] == c {
                    let j = choose|j: int| 0 <= j < i + 1 && #[trigger] m@[m.names_seq()[j]] == c;
                    if j < i {
                        assert(set_of(before).contains(c));
                    }
                }
            }
            assert(set_of(out@) =~= o + Set::new(|c: CommitId| exists|j: int| 0 <= j < i + 1 && #[trigger] m@[m.names_seq()[j]] == c));
        }
        i = i + 1;
    }
    proof {
        let target = Set::new(|c: CommitId| exists|w: Seq<char>| #[trigger] m@.contains_key(w) && m@[w] == c);
        assert forall|c: CommitId| (exists|j: int| 0 <= j < i && #[trigger] m@[m.names_seq()[j]] == c) == target.contains(c) by {
            if exists|j: int| 0 <= j < i && #[trigger] m@[m.names_seq()[j]] == c {
                let j = choose|j: int| 0 <= j < i && #[trigger] m@[m.names_seq()[j]] == c;
                assert(m.names_seq().contains(m.names_seq()[j]));
                assert(m@.contains_key(m.names_seq()[j]));
            }
            if target.contains(c) {
                let n = choose|n: Seq<char>| #[trigger] m@.contains_key(n) && m@[n] == c;
                assert(m.names_seq().contains(n));
                let j = choose|j: int| 0 <= j < m.names_seq().len() && m.names_seq()[j] == n;
                assert(m@[m.names_seq()[j]] == c);
            }
        }
        assert(set_of(out@) =~= o + target);
    }
}

impl RepoView {
    /// The commits that the checkouts and the targets of refs point to.
    pub fn referenced_ids(&self) -> (r: Vec<CommitId>)
        requires
            self.wf(),
        ensures
            set_of(r@) == referenced(self@),
    {
        let mut out: Vec<CommitId> = Vec::new();
        let ghost e = set_of(out@);
        assert(e =~= Set::empty());
        collect_checkouts(&self.checkouts, &mut out);
        collect_branch_adds(&self.branches, &mut out);
        collect_adds(&self.tags, &mut out);
        collect_adds(&self.git_refs, &mut out);
        assert(set_of(out@) =~= referenced(self@)) by {
            assert(branch_adds(self@.branches) =~= Set::new(|c: CommitId| exists|n: Seq<char>| #[trigger] self@.branches.contains_key(n) && branch_has(self@.branches[n], c)));
        }
        out
    }
}

/// The commits that stand for the commits of `s`.
pub open spec fn image_set(img: Seq<Option<Seq<CommitId>>>, s: Set<CommitId>) -> Set<CommitId> {
    Set::new(|x: CommitId| exists|h: CommitId| #[trigger] s.contains(h) && image_of(img, h).contains(x))
}

/// `r` is the target `t` with each commit replaced by what stands for it, in
/// simplest form.
pub open spec fn target_rebased(img: Seq<Option<Seq<CommitId>>>, t: TargetModel, r: Option<TargetModel>) -> bool {
    &&& canonical_model(r)
    &&& forall|x: CommitId| #[trigger] net_model(r, x) == occ(subst_parents(img, t.2), x) - occ(subst_parents(img, t.1), x)
}

/// `new` is the branch `old` with its local target rebased; a branch left
/// with no target at all is gone.
pub open spec fn branch_rebased(img: Seq<Option<Seq<CommitId>>>, old: BranchModel, new: Option<BranchModel>) -> bool {
    &&& match old.0 {
        None => local_opt(new) is None,
        Some(t) => target_rebased(img, t, local_opt(new)),
    }
    &&& maps_rebased(img, old.1, remotes_opt(new))
    &&& (new is None <==> (local_opt(new) is None && remotes_opt(new).is_empty()))
}

/// `new` is the map `old` with each target rebased; a target left with no
/// commit is gone.
pub open spec fn maps_rebased(img: Seq<Option<Seq<CommitId>>>, old: Map<Seq<char>, TargetModel>, new: Map<Seq<char>, TargetModel>) -> bool {
    &&& forall|n: Seq<char>| #[trigger] old.contains_key(n) ==> target_rebased(img, old[n], target_opt(new, n))
    &&& forall|n: Seq<char>| #[trigger] new.contains_key(n) ==> old.contains_key(n)
}

/// Rebases each target of the map.
pub fn rebase_target_map(m: &mut NameMap<RefTarget>, images: &Vec<Option<Vec<CommitId>>>)
    requires
        old(m).wf(),
    ensures
        final(m).wf(),
        maps_rebased(img_model(images@), old(m)@, final(m)@),
{
    let ghost img = img_model(images@);
    let names = m.names();
    proof {
        m.lemma_names();
    }
    let ghost ns = m.names_seq();
    let ghost m0 = m@;
    let mut i: usize = 0;
    while i < names.len()
        invariant
            m.wf(),
            img == img_model(images@),
            i <= names@.len() == ns.len(),
            forall|j: int| 0 <= j < names@.len() ==> #[trigger] names@[j]@ == ns[j],
            ns.no_duplicates(),
            forall|k: Seq<char>| #![trigger m0.contains_key(k)] #![trigger ns.contains(k)] m0.contains_key(k) <==> ns.contains(k),
            forall|j: int| 0 <= j < i ==> #[trigger] target_rebased(img, m0[ns[j]], target_opt(m@, ns[j])),
            forall|j: int| i <= j < ns.len() ==> #[trigger] target_opt(m@, ns[j]) == Some(m0[ns[j]]),
            forall|n: Seq<char>| #[trigger] m@.contains_key(n) ==> m0.contains_key(n),
        decreases names@.len() - i,
    {
        let name = &names[i];
        let ghost n = name@;
        assert(ns[i as int] == n);
        assert(m0.contains_key(n)) by {
            assert(ns.contains(n));
        }
        let ghost before = m@;
        assert(target_opt(before, n) == Some(m0[n]));
        let nt = match m.get(name.as_str()) {
            Some(t) => rebase_target(images, t),
            None => None,
        };
        proof {
            lemma_canonical_model(nt);
        }
        match nt {
            Some(x) => m.insert(name.clone(), x),
            None => m.remove(name.as_str()),
        }
        proof {
            assert(target_opt(m@, n) == opt_model(nt));
            assert forall|j: int| 0 <= j < ns.len() && j != i implies #[trigger] target_opt(m@, ns[j]) == target_opt(before, ns[j]) by {
                assert(ns[j] != n);
            }
            assert forall|j: int| 0 <= j < i + 1 implies #[trigger] target_rebased(img, m0[ns[j]], target_opt(m@, ns[j])) by {
                if j < i {
                    assert(target_opt(m@, ns[j]) == target_opt(before, ns[j]));
                }
            }
            assert forall|j: int| i + 1 <= j < ns.len() implies #[trigger] target_opt(m@, ns[j]) == Some(m0[ns[j]]) by {
                assert(target_opt(m@, ns[j]) == target_opt(before, ns[j]));
            }
        }
        i = i + 1;
    }
    proof {
        assert forall|n: Seq<char>| #[trigger] m0.contains_key(n) implies target_rebased(img, m0[n], target_opt(m@, n)) by {
            assert(ns.contains(n));
            let j = choose|j: int| 0 <= j < ns.len() && ns[j] == n;
            assert(target_rebased(img, m0[ns[j]], target_opt(m@, ns[j])));
        }
    }
}

/// The branch under the name, if any.
pub open spec fn branch_opt(m: Map<Seq<char>, BranchModel>, n: Seq<char>) -> Option<BranchModel> {
    if m.contains_key(n) { Some(m[n]) } else { None }
}

impl RepoView {
    /// Replaces each head by what stands for it.
    pub fn rebase_heads(&mut self, images: &Vec<Option<Vec<CommitId>>>)
        requires
            old(self).wf(),
        ensures
            final(self).wf(),
            final(self)@ == (ViewModel { heads: image_set(img_model(images@), old(self)@.heads), ..old(self)@ }),
    {
        let ghost img = img_model(images@);
        let ghost hs = self.head_ids@;
        let mut new_heads: Vec<CommitId> = Vec::new();
        let mut i: usize = 0;
        while i < self.head_ids.len()
            invariant
                self == old(self),
                hs == self.head_ids@,
                img == img_model(images@),
                i <= hs.len(),
                new_heads@.no_duplicates(),
                set_of(new_heads@) == Set::new(|x: CommitId| exists|j: int| 0 <= j < i && #[trigger] image_of(img, hs[j]).contains(x)),
            decreases hs.len() - i,
        {
            let im = image_vec(images, self.head_ids[i]);
            let ghost before = set_of(new_heads@);
            let mut k: usize = 0;
            while k < im.len()
                invariant
                    k <= im@.len(),
                    new_heads@.no_duplicates(),
                    set_of(new_heads@) == before + set_of(im@.subrange(0, k as int)),
                decreases im@.len() - k,
            {
                insert_id(&mut new_heads, im[k]);
                proof {
                    crate::backend::lemma_set_of_prefix(im@, k as int);
                    assert(set_of(new_heads@) =~= before + set_of(im@.subrange(0, k + 1)));
                }
                k = k + 1;
            }
            proof {
                assert(im@.subrange(0, k as int) == im@);
                assert(set_of(new_heads@) =~= Set::new(|x: CommitId| exists|j: int| 0 <= j < i + 1 && #[trigger] image_of(img, hs[j]).contains(x))) by {
                    assert forall|x: CommitId| set_of(new_heads@).contains(x) == (exists|j: int| 0 <= j < i + 1 && #[trigger] image_of(img, hs[j]).contains(x)) by {
                        if set_of(im@).contains(x) {
                            assert(image_of(img, hs[i as int]).contains(x));
                        }
                        if exists|j: int| 0 <= j < i + 1 && #[trigger] image_of(img, hs[j]).contains(x) {
                            let j = choose|j: int| 0 <= j < i + 1 && #[trigger] image_of(img, hs[j]).contains(x);
                            if j == i {
                                assert(set_of(im@).contains(x));
                            } else {
                                assert(before.contains(x));
                            }
                        }
                    }
                }
            }
            i = i + 1;
        }
        proof {
            assert(set_of(new_heads@) =~= image_set(img, old(self)@.heads)) by {
                assert forall|x: CommitId| set_of(new_heads@).contains(x) == image_set(img, old(self)@.heads).contains(x) by {
                    if set_of(new_heads@).contains(x) {
                        let j = choose|j: int| 0 <= j < i && #[trigger] image_of(img, hs[j]).contains(x);
                        assert(set_of(hs).contains(hs[j]));
                    }
                    if image_set(img, old(self)@.heads).contains(x) {
                        let h = choose|h: CommitId| #[trigger] old(self)@.heads.contains(h) && image_of(img, h).contains(x);
                        assert(hs.contains(h));
                        let j = choose|j: int| 0 <= j < hs.len() && hs[j] == h;
                        assert(image_of(img, hs[j]).contains(x));
                    }
                }
            }
        }
        self.head_ids = new_heads;
    }

    /// Rebases each tag and git ref.
    pub fn rebase_tags_and_git_refs(&mut self, images: &Vec<Option<Vec<CommitId>>>)
        requires
            old(self).wf(),
        ensures
            final(self).wf(),
            final(self)@ == (ViewModel { tags: final(self)@.tags, git_refs: final(self)@.git_refs, ..old(self)@ }),
            maps_rebased(img_model(images@), old(self)@.tags, final(self)@.tags),
            maps_rebased(img_model(images@), old(self)@.git_refs, final(self)@.git_refs),
    {
        rebase_target_map(&mut self.tags, images);
        rebase_target_map(&mut self.git_refs, images);
    }

    /// Rebases the targets of each branch, local and remote.
    pub fn rebase_branches(&mut self, images: &Vec<Option<Vec<CommitId>>>)
        requires
            old(self).wf(),
        ensures
            final(self).wf(),
            final(self)@ == (ViewModel { branches: final(self)@.branches, ..old(self)@ }),
            forall|n: Seq<char>| #[trigger] old(self)@.branches.contains_key(n) ==>
                branch_rebased(img_model(images@), old(self)@.branches[n], branch_opt(final(self)@.branches, n)),
            forall|n: Seq<char>| #[trigger] final(self)@.branches.contains_key(n) ==> old(self)@.branches.contains_key(n),
    {
        let ghost img = img_model(images@);
        let names = self.branches.names();
        proof {
            self.branches.lemma_names();
        }
        let ghost ns = self.branches.names_seq();
        let ghost ob = old(self)@.branches;
        let mut i: usize = 0;
        while i < names.len()
            invariant
                self.wf(),
                img == img_model(images@),
                i <= names@.len() == ns.len(),
                forall|j: int| 0 <= j < names@.len() ==> #[trigger] names@[j]@ == ns[j],
                ns.no_duplicates(),
                forall|k: Seq<char>| #![trigger ob.contains_key(k)] #![trigger ns.contains(k)] ob.contains_key(k) <==> ns.contains(k),
                self@ == (ViewModel { branches: self@.branches, ..old(self)@ }),
                forall|j: int| 0 <= j < i ==> #[trigger] branch_rebased(img, ob[ns[j]], branch_opt(self@.branches, ns[j])),
                forall|j: int| i <= j < ns.len() ==> #[trigger] branch_opt(self@.branches, ns[j]) == Some(ob[ns[j]]),
                forall|n: Seq<char>| #[trigger] self@.branches.contains_key(n) ==> ob.contains_key(n),
            decreases names@.len() - i,
        {
            let name = &names[i];
            let ghost n = name@;
            assert(ns[i as int] == n);
            assert(ob.contains_key(n)) by {
                assert(ns.contains(n));
            }
            let ghost before = self@.branches;
            assert(branch_opt(before, n) == Some(ob[n]));
            let b = self.branches.get_wf(name.as_str());
            match b {
                Some(b) => {
                    let local = match &b.local_target {
                        Some(t) => rebase_target(images, t),
                        None => None,
                    };
                    proof {
                        lemma_canonical_model(local);
                    }
                    let mut remotes = copy_target_map(&b.remote_targets);
                    rebase_target_map(&mut remotes, images);
                    let empty = remotes.len() == 0;
                    proof {
                        remotes.lemma_names();
                        if !empty {
                            let kk = remotes.names_seq()[0];
                            assert(remotes@.contains_key(kk));
                        } else {
                            assert(remotes@ =~= Map::empty());
                        }
                    }
                    if local.is_none() && empty {
                        self.branches.remove_wf(name.as_str());
                    } else {
                        self.branches.insert_wf(name.clone(), BranchTarget { local_target: local, remote_targets: remotes });
                    }
                    proof {
                        assert(branch_rebased(img, ob[n], branch_opt(self@.branches, n)));
                    }
                },
                None => {},
            }
            proof {
                assert forall|j: int| 0 <= j < ns.len() && j != i implies
                    #[trigger] branch_opt(self@.branches, ns[j]) == branch_opt(before, ns[j]) by {
                    assert(ns[j] != n);
                }
                assert forall|j: int| 0 <= j < i + 1 implies #[trigger] branch_rebased(img, ob[ns[j]], branch_opt(self@.branches, ns[j])) by {
                    if j < i {
                        assert(branch_opt(self@.branches, ns[j]) == branch_opt(before, ns[j]));
                    }
                }
                assert forall|j: int| i + 1 <= j < ns.len() implies #[trigger] branch_opt(self@.branches, ns[j]) == Some(ob[ns[j]]) by {
                    assert(branch_opt(self@.branches, ns[j]) == branch_opt(before, ns[j]));
                }
            }
            i = i + 1;
        }
        proof {
            assert forall|n: Seq<char>| #[trigger] ob.contains_key(n) implies
                branch_rebased(img, ob[n], branch_opt(self@.branches, n)) by {
                assert(ns.contains(n));
                let j = choose|j: int| 0 <= j < ns.len() && ns[j] == n;
                assert(branch_rebased(img, ob[ns[j]], branch_opt(self@.branches, ns[j])));
            }
        }
    }

    /// The names of the workspaces that have a checkout.
    pub fn workspace_names(&self) -> (r: Vec<String>)
        requires
            self.wf(),
        ensures
            forall|k: Seq<char>| self@.checkouts.contains_key(k) <==> exists|i: int| 0 <= i < r@.len() && #[trigger] r@[i]@ == k,
            forall|i: int, j: int| 0 <= i < r@.len() && 0 <= j < r@.len() && #[trigger] r@[i]@ == #[trigger] r@[j]@ ==> i == j,
            r@.len() == self@.checkouts.dom().len(),
    {
        let r = self.checkouts.names();
        proof {
            self.checkouts.lemma_names();
            assert(self@.checkouts.dom() =~= self.checkouts.names_seq().to_set());
            self.checkouts.names_seq().unique_seq_to_set();
            assert forall|k: Seq<char>| self@.checkouts.contains_key(k) <==> exists|i: int| 0 <= i < r@.len() && #[trigger] r@[i]@ == k by {
                if self@.checkouts.contains_key(k) {
                    assert(self.checkouts.names_seq().contains(k));
                    let i = choose|i: int| 0 <= i < self.checkouts.names_seq().len() && self.checkouts.names_seq()[i] == k;
                    assert(r@[i]@ == k);
                }
                if exists|i: int| 0 <= i < r@.len() && #[trigger] r@[i]@ == k {
                    let i = choose|i: int| 0 <= i < r@.len() && #[trigger] r@[i]@ == k;
                    assert(self.checkouts.names_seq()[i] == k);
                    assert(self.checkouts.names_seq().contains(k));
                }
            }
        }
        r
    }
}

/// The value under the name, if any.
pub open spec fn target_opt(m: Map<Seq<char>, TargetModel>, n: Seq<char>) -> Option<TargetModel> {
    if m.contains_key(n) { Some(m[n]) } else { None }
}

/// `merged` is the three-way merge of `mine` and `other` against `base`, name by name.
pub open spec fn maps_merged(
    base: Map<Seq<char>, TargetModel>,
    mine: Map<Seq<char>, TargetModel>,
    other: Map<Seq<char>, TargetModel>,
    merged: Map<Seq<char>, TargetModel>,
) -> bool {
    forall|n: Seq<char>| #[trigger] merge_model_holds(target_opt(base, n), target_opt(mine, n), target_opt(other, n), target_opt(merged, n))
}

/// The list holds a string with the view `k`.
pub open spec fn holds_name(s: Seq<String>, k: Seq<char>) -> bool {
    exists|a: int| 0 <= a < s.len() && #[trigger] s[a]@ == k
}

/// No two strings of the list have the same view.
pub open spec fn distinct_names(s: Seq<String>) -> bool {
    forall|a: int, b: int| 0 <= a < b < s.len() ==> (#[trigger] s[a])@ != (#[trigger] s[b])@
}

/// Appends to `out` the names of `m` that `out` does not hold yet.
fn add_names<V: View>(out: &mut Vec<String>, m: &NameMap<V>)
    requires
        m.wf(),
        distinct_names(old(out)@),
    ensures
        distinct_names(final(out)@),
        forall|k: Seq<char>| #[trigger] holds_name(final(out)@, k) <==> (holds_name(old(out)@, k) || m@.contains_key(k)),
{
    let names = m.names();
    proof {
        m.lemma_names();
    }
    let ghost o = out@;
    let mut i: usize = 0;
    while i < names.len()
        invariant
            i <= names@.len() == m.names_seq().len(),
            forall|j: int| 0 <= j < names@.len() ==> #[trigger] names@[j]@ == m.names_seq()[j],
            forall|k: Seq<char>| #![trigger m@.contains_key(k)] #![trigger m.names_seq().contains(k)]
                m@.contains_key(k) <==> m.names_seq().contains(k),
            distinct_names(out@),
            forall|k: Seq<char>| #[trigger] holds_name(out@, k) <==> (holds_name(o, k) || holds_name(names@.subrange(0, i as int), k)),
        decreases names@.len() - i,
    {
        let name = &names[i];
        let mut seen = false;
        let mut j: usize = 0;
        while j < out.len()
            invariant
                j <= out@.len(),
                seen == exists|a: int| 0 <= a < j && #[trigger] out@[a]@ == name@,
            decreases out@.len() - j,
        {
            if out[j] == *name {
                seen = true;
            }
            j = j + 1;
        }
        let ghost before = out@;
        if !seen {
            out.push(name.clone());
        }
        proof {
            let pre = names@.subrange(0, i as int);
            let post = names@.subrange(0, i + 1);
            assert forall|a: int| 0 <= a < before.len() implies #[trigger] out@[a] == before[a] by {}
            if !seen {
                assert(out@[before.len() as int]@ == name@);
                assert forall|a: int, b: int| 0 <= a < b < out@.len() implies (#[trigger] out@[a])@ != (#[trigger] out@[b])@ by {
                    if b == before.len() {
                        assert(before[a]@ != name@);
                    }
                }
            }
            assert forall|k: Seq<char>| #[trigger] holds_name(out@, k) <==> (holds_name(o, k) || holds_name(post, k)) by {
                if holds_name(out@, k) {
                    let a = choose|a: int| 0 <= a < out@.len() && #[trigger] out@[a]@ == k;
                    if a < before.len() {
                        assert(before[a]@ == k);
                        assert(holds_name(before, k));
                        if holds_name(pre, k) {
                            let jj = choose|jj: int| 0 <= jj < pre.len() && #[trigger] pre[jj]@ == k;
                            assert(post[jj]@ == k);
                        }
                    } else {
                        assert(post[i as int]@ == k);
                    }
                }
                if holds_name(post, k) {
                    let jj = choose|jj: int| 0 <= jj < post.len() && #[trigger] post[jj]@ == k;
                    if jj == i {
                        if seen {
                            let a = choose|a: int| 0 <= a < before.len() && #[trigger] before[a]@ == name@;
                            assert(out@[a]@ == k);
                        } else {
                            assert(out@[before.len() as int]@ == k);
                        }
                    } else {
                        assert(pre[jj]@ == k);
                        assert(holds_name(before, k));
                        let a = choose|a: int| 0 <= a < before.len() && #[trigger] before[a]@ == k;
                        assert(out@[a]@ == k);
                    }
                }
                if holds_name(o, k) {
                    assert(holds_name(before, k));
                    let a = choose|a: int| 0 <= a < before.len() && #[trigger] before[a]@ == k;
                    assert(out@[a]@ == k);
                }
            }
        }
        i = i + 1;
    }
    proof {
        assert(names@.subrange(0, i as int) == names@);
        assert forall|k: Seq<char>| #[trigger] holds_name(names@, k) <==> m@.contains_key(k) by {
            if m@.contains_key(k) {
                assert(m.names_seq().contains(k));
                let j = choose|j: int| 0 <= j < m.names_seq().len() && m.names_seq()[j] == k;
                assert(names@[j]@ == k);
            }
            if holds_name(names@, k) {
                let j = choose|j: int| 0 <= j < names@.len() && #[trigger] names@[j]@ == k;
                assert(m.names_seq()[j] == k);
                assert(m.names_seq().contains(k));
            }
        }
    }
}

/// Merges `other` into `mine` against `base`, name by name.
pub fn merge_target_maps(mine: &mut NameMap<RefTarget>, base: &NameMap<RefTarget>, other: &NameMap<RefTarget>)
    requires
        old(mine).wf(),
        base.wf(),
        other.wf(),
    ensures
        final(mine).wf(),
        maps_merged(base@, old(mine)@, other@, final(mine)@),
{
    let mut names: Vec<String> = Vec::new();
    add_names(&mut names, mine);
    add_names(&mut names, base);
    add_names(&mut names, other);
    let ghost m0 = mine@;
    let mut i: usize = 0;
    while i < names.len()
        invariant
            i <= names@.len(),
            mine.wf(),
            base.wf(),
            other.wf(),
            distinct_names(names@),
            forall|k: Seq<char>| #[trigger] holds_name(names@, k) <==> (m0.contains_key(k) || base@.contains_key(k) || other@.contains_key(k)),
            forall|k: Seq<char>| #[trigger] holds_name(names@.subrange(0, i as int), k) ==>
                merge_model_holds(target_opt(base@, k), target_opt(m0, k), target_opt(other@, k), target_opt(mine@, k)),
            forall|k: Seq<char>| !holds_name(names@.subrange(0, i as int), k) ==> #[trigger] target_opt(mine@, k) == target_opt(m0, k),
        decreases names@.len() - i,
    {
        let name = &names[i];
        let ghost k = name@;
        let ghost before = mine@;
        let ghost pre = names@.subrange(0, i as int);
        let ghost post = names@.subrange(0, i + 1);
        proof {
            if holds_name(pre, k) {
                let a = choose|a: int| 0 <= a < pre.len() && #[trigger] pre[a]@ == k;
                assert(names@[a]@ == names@[i as int]@);
            }
            assert(target_opt(before, k) == target_opt(m0, k));
        }
        let b = base.get(name.as_str());
        let l = mine.get(name.as_str());
        let o = other.get(name.as_str());
        let merged = merge_ref_targets(b, l, o);
        proof {
            lemma_merge_model(deref(b), deref(l), deref(o), merged);
            assert(opt_model(deref(b)) == target_opt(base@, k));
            assert(opt_model(deref(l)) == target_opt(before, k));
            assert(opt_model(deref(o)) == target_opt(other@, k));
        }
        match merged {
            Some(t) => {
                mine.insert(name.clone(), t);
            },
            None => {
                mine.remove(name.as_str());
            },
        }
        proof {
            assert(opt_model(merged) == target_opt(mine@, k));
            assert forall|kk: Seq<char>| kk != k implies #[trigger] target_opt(mine@, kk) == target_opt(before, kk) by {}
            assert forall|kk: Seq<char>| #[trigger] holds_name(post, kk) <==> (holds_name(pre, kk) || kk == k) by {
                if holds_name(post, kk) {
                    let a = choose|a: int| 0 <= a < post.len() && #[trigger] post[a]@ == kk;
                    if a < i {
                        assert(pre[a]@ == kk);
                    }
                }
                if holds_name(pre, kk) {
                    let a = choose|a: int| 0 <= a < pre.len() && #[trigger] pre[a]@ == kk;
                    assert(post[a]@ == kk);
                }
                if kk == k {
                    assert(post[i as int]@ == kk);
                }
            }
        }
        i = i + 1;
    }
    proof {
        assert(names@.subrange(0, i as int) == names@);
        assert forall|k: Seq<char>| #[trigger] merge_model_holds(target_opt(base@, k), target_opt(m0, k), target_opt(other@, k), target_opt(mine@, k)) by {
            if !holds_name(names@, k) {
                assert(target_opt(base@, k) is None);
                assert(target_opt(other@, k) is None);
            }
        }
    }
}

/// The three-way merge of set-valued heads: what either side has, less what
/// the base had and one side dropped.
pub open spec fn merge_sets(base: Set<CommitId>, mine: Set<CommitId>, other: Set<CommitId>) -> Set<CommitId> {
    (mine + other) - (base - mine.intersect(other))
}

/// The three-way merge of single values: where one side kept the base, the
/// other side's value; where both changed, ours.
pub open spec fn merge_values<T>(base: Option<T>, mine: Option<T>, other: Option<T>) -> Option<T> {
    if mine == base { other } else { mine }
}

/// The value under the name, if any.
pub open spec fn id_opt(m: Map<Seq<char>, CommitId>, n: Seq<char>) -> Option<CommitId> {
    if m.contains_key(n) { Some(m[n]) } else { None }
}

fn merge_id_lists(base: &Vec<CommitId>, mine: &Vec<CommitId>, other: &Vec<CommitId>) -> (r: Vec<CommitId>)
    requires
        mine@.no_duplicates(),
    ensures
        r@.no_duplicates(),
        set_of(r@) == merge_sets(set_of(base@), set_of(mine@), set_of(other@)),
{
    let mut r: Vec<CommitId> = Vec::new();
    let mut both = copy_ids(mine);
    append_ids(&mut both, other);
    let ghost target = merge_sets(set_of(base@), set_of(mine@), set_of(other@));
    let mut i: usize = 0;
    while i < both.len()
        invariant
            i <= both@.len(),
            set_of(both@) == set_of(mine@) + set_of(other@),
            target == merge_sets(set_of(base@), set_of(mine@), set_of(other@)),
            r@.no_duplicates(),
            forall|x: CommitId| #[trigger] set_of(r@).contains(x) <==> (set_of(both@.subrange(0, i as int)).contains(x) && target.contains(x)),
        decreases both@.len() - i,
    {
        let x = both[i];
        let keep = !contains_id(base, x) || (contains_id(mine, x) && contains_id(other, x));
        proof {
            assert(set_of(both@).contains(x));
            crate::backend::lemma_set_of_prefix(both@, i as int);
        }
        if keep {
            insert_id(&mut r, x);
        }
        i = i + 1;
    }
    assert(both@.subrange(0, i as int) == both@);
    assert(set_of(r@) =~= target);
    r
}

/// `r` is the three-way merge of the views `mine` and `other` against `base`.
pub open spec fn views_merged(base: ViewModel, mine: ViewModel, other: ViewModel, r: ViewModel) -> bool {
    &&& r.heads == merge_sets(base.heads, mine.heads, other.heads)
    &&& r.public_heads == merge_sets(base.public_heads, mine.public_heads, other.public_heads)
    &&& r.git_head == merge_values(base.git_head, mine.git_head, other.git_head)
    &&& forall|w: Seq<char>| #[trigger] id_opt(r.checkouts, w)
        == merge_values(id_opt(base.checkouts, w), id_opt(mine.checkouts, w), id_opt(other.checkouts, w))
    &&& maps_merged(base.tags, mine.tags, other.tags, r.tags)
    &&& maps_merged(base.git_refs, mine.git_refs, other.git_refs, r.git_refs)
    &&& forall|n: Seq<char>| #[trigger] branch_merged(
        branch_opt(base.branches, n), branch_opt(mine.branches, n), branch_opt(other.branches, n), branch_opt(r.branches, n))
}

impl RepoView {
    /// Merges `other` into this view against `base`: heads and public heads
    /// as sets, checkouts and the git head value by value, branches, tags and
    /// git refs target by target.
    pub fn merge(&mut self, base: &RepoView, other: &RepoView)
        requires
            old(self).wf(),
            base.wf(),
            other.wf(),
        ensures
            final(self).wf(),
            views_merged(base@, old(self)@, other@, final(self)@),
    {
        self.head_ids = merge_id_lists(&base.head_ids, &self.head_ids, &other.head_ids);
        self.public_head_ids = merge_id_lists(&base.public_head_ids, &self.public_head_ids, &other.public_head_ids);
        if self.git_head == base.git_head {
            self.git_head = other.git_head;
        }
        merge_target_maps(&mut self.tags, &base.tags, &other.tags);
        merge_target_maps(&mut self.git_refs, &base.git_refs, &other.git_refs);
        merge_id_maps(&mut self.checkouts, &base.checkouts, &other.checkouts);
        merge_branch_maps(&mut self.branches, &base.branches, &other.branches);
    }
}

/// Merges `other` into `mine` against `base`, name by name, value by value.
fn merge_id_maps(mine: &mut NameMap<CommitId>, base: &NameMap<CommitId>, other: &NameMap<CommitId>)
    requires
        old(mine).wf(),
        base.wf(),
        other.wf(),
    ensures
        final(mine).wf(),
        forall|w: Seq<char>| #[trigger] id_opt(final(mine)@, w) == merge_values(id_opt(base@, w), id_opt(old(mine)@, w), id_opt(other@, w)),
{
    let mut names: Vec<String> = Vec::new();
    add_names(&mut names, mine);
    add_names(&mut names, base);
    add_names(&mut names, other);
    let ghost m0 = mine@;
    let mut i: usize = 0;
    while i < names.len()
        invariant
            i <= names@.len(),
            mine.wf(),
            base.wf(),
            other.wf(),
            distinct_names(names@),
            forall|k: Seq<char>| #[trigger] holds_name(names@, k) <==> (m0.contains_key(k) || base@.contains_key(k) || other@.contains_key(k)),
            forall|k: Seq<char>| #[trigger] holds_name(names@.subrange(0, i as int), k) ==>
                id_opt(mine@, k) == merge_values(id_opt(base@, k), id_opt(m0, k), id_opt(other@, k)),
            forall|k: Seq<char>| !holds_name(names@.subrange(0, i as int), k) ==> #[trigger] id_opt(mine@, k) == id_opt(m0, k),
        decreases names@.len() - i,
    {
        let name = &names[i];
        let ghost k = name@;
        let ghost before = mine@;
        let ghost pre = names@.subrange(0, i as int);
        let ghost post = names@.subrange(0, i + 1);
        proof {
            if holds_name(pre, k) {
                let a = choose|a: int| 0 <= a < pre.len() && #[trigger] pre[a]@ == k;
                assert(names@[a]@ == names@[i as int]@);
            }
        }
        let b = match base.get(name.as_str()) { Some(x) => Some(*x), None => None };
        let l = match mine.get(name.as_str()) { Some(x) => Some(*x), None => None };
        let o = match other.get(name.as_str()) { Some(x) => Some(*x), None => None };
        let merged = if l == b { o } else { l };
        match merged {
            Some(t) => {
                mine.insert(name.clone(), t);
            },
            None => {
                mine.remove(name.as_str());
            },
        }
        proof {
            assert(id_opt(mine@, k) == merged);
            assert forall|kk: Seq<char>| kk != k implies #[trigger] id_opt(mine@, kk) == id_opt(before, kk) by {}
            assert forall|kk: Seq<char>| #[trigger] holds_name(post, kk) <==> (holds_name(pre, kk) || kk == k) by {
                if holds_name(post, kk) {
                    let a = choose|a: int| 0 <= a < post.len() && #[trigger] post[a]@ == kk;
                    if a < i {
                        assert(pre[a]@ == kk);
                    }
                }
                if holds_name(pre, kk) {
                    let a = choose|a: int| 0 <= a < pre.len() && #[trigger] pre[a]@ == kk;
                    assert(post[a]@ == kk);
                }
                if kk == k {
                    assert(post[i as int]@ == kk);
                }
            }
        }
        i = i + 1;
    }
    proof {
        assert(names@.subrange(0, i as int) == names@);
        assert forall|k: Seq<char>| #[trigger] id_opt(mine@, k) == merge_values(id_opt(base@, k), id_opt(m0, k), id_opt(other@, k)) by {
            if !holds_name(names@, k) {
                assert(id_opt(base@, k) is None);
                assert(id_opt(other@, k) is None);
            }
        }
    }
}

/// The local target of a branch that may be absent.
pub open spec fn local_opt(b: Option<BranchModel>) -> Option<TargetModel> {
    match b {
        Some(b) => b.0,
        None => None,
    }
}

/// The remote targets of a branch that may be absent.
pub open spec fn remotes_opt(b: Option<BranchModel>) -> Map<Seq<char>, TargetModel> {
    match b {
        Some(b) => b.1,
        None => Map::empty(),
    }
}

/// `merged` is the merge of the branch: its local target, and its target on
/// each remote; a branch left with no target at all is gone.
pub open spec fn branch_merged(base: Option<BranchModel>, mine: Option<BranchModel>, other: Option<BranchModel>, merged: Option<BranchModel>) -> bool {
    &&& merge_model_holds(local_opt(base), local_opt(mine), local_opt(other), local_opt(merged))
    &&& maps_merged(remotes_opt(base), remotes_opt(mine), remotes_opt(other), remotes_opt(merged))
    &&& (merged is None <==> (local_opt(merged) is None && remotes_opt(merged).is_empty()))
}

/// A copy of the branch's remote targets, empty where the branch is absent.
fn remotes_copy(b: Option<&BranchTarget>) -> (r: NameMap<RefTarget>)
    requires
        b matches Some(x) ==> x.remote_targets.wf(),
    ensures
        r.wf(),
        r@ == remotes_opt(match b { Some(x) => Some(x@), None => None }),
{
    match b {
        Some(x) => copy_target_map(&x.remote_targets),
        None => NameMap::new(),
    }
}

/// Merges `other` into `mine` against `base`, branch by branch.
fn merge_branch_maps(mine: &mut NameMap<BranchTarget>, base: &NameMap<BranchTarget>, other: &NameMap<BranchTarget>)
    requires
        old(mine).wf(),
        old(mine).wf_values(),
        base.wf(),
        base.wf_values(),
        other.wf(),
        other.wf_values(),
    ensures
        final(mine).wf(),
        final(mine).wf_values(),
        forall|n: Seq<char>| #[trigger] branch_merged(branch_opt(base@, n), branch_opt(old(mine)@, n), branch_opt(other@, n), branch_opt(final(mine)@, n)),
{
    let mut names: Vec<String> = Vec::new();
    add_names(&mut names, mine);
    add_names(&mut names, base);
    add_names(&mut names, other);
    let ghost m0 = mine@;
    let mut i: usize = 0;
    while i < names.len()
        invariant
            i <= names@.len(),
            mine.wf(),
            mine.wf_values(),
            base.wf(),
            base.wf_values(),
            other.wf(),
            other.wf_values(),
            distinct_names(names@),
            forall|k: Seq<char>| #[trigger] holds_name(names@, k) <==> (m0.contains_key(k) || base@.contains_key(k) || other@.contains_key(k)),
            forall|k: Seq<char>| #[trigger] holds_name(names@.subrange(0, i as int), k) ==>
                branch_merged(branch_opt(base@, k), branch_opt(m0, k), branch_opt(other@, k), branch_opt(mine@, k)),
            forall|k: Seq<char>| !holds_name(names@.subrange(0, i as int), k) ==> #[trigger] branch_opt(mine@, k) == branch_opt(m0, k),
        decreases names@.len() - i,
    {
        let name = &names[i];
        let ghost k = name@;
        let ghost before = mine@;
        let ghost pre = names@.subrange(0, i as int);
        let ghost post = names@.subrange(0, i + 1);
        proof {
            if holds_name(pre, k) {
                let a = choose|a: int| 0 <= a < pre.len() && #[trigger] pre[a]@ == k;
                assert(names@[a]@ == names@[i as int]@);
            }
        }
        let b = base.get_wf(name.as_str());
        let l = mine.get_wf(name.as_str());
        let o = other.get_wf(name.as_str());
        let bl = match b { Some(x) => match &x.local_target { Some(t) => Some(t), None => None }, None => None };
        let ll = match l { Some(x) => match &x.local_target { Some(t) => Some(t), None => None }, None => None };
        let ol = match o { Some(x) => match &x.local_target { Some(t) => Some(t), None => None }, None => None };
        let local = merge_ref_targets(bl, ll, ol);
        proof {
            lemma_merge_model(deref(bl), deref(ll), deref(ol), local);
            assert(opt_model(deref(bl)) == local_opt(branch_opt(base@, k)));
            assert(opt_model(deref(ll)) == local_opt(branch_opt(before, k)));
            assert(opt_model(deref(ol)) == local_opt(branch_opt(other@, k)));
        }
        let mut remotes = remotes_copy(l);
        let base_remotes = remotes_copy(b);
        let other_remotes = remotes_copy(o);
        let ghost mine_remotes = remotes@;
        merge_target_maps(&mut remotes, &base_remotes, &other_remotes);
        let no_local = local.is_none();
        let empty = remotes.len() == 0;
        proof {
            remotes.lemma_names();
            if !empty {
                let kk = remotes.names_seq()[0];
                assert(remotes@.contains_key(kk));
            } else {
                assert(remotes@ =~= Map::empty());
            }
        }
        if no_local && empty {
            mine.remove_wf(name.as_str());
        } else {
            let nb = BranchTarget { local_target: local, remote_targets: remotes };
            mine.insert_wf(name.clone(), nb);
        }
        proof {
            assert forall|kk: Seq<char>| kk != k implies #[trigger] branch_opt(mine@, kk) == branch_opt(before, kk) by {}
            assert(branch_merged(branch_opt(base@, k), branch_opt(m0, k), branch_opt(other@, k), branch_opt(mine@, k)));
            assert forall|kk: Seq<char>| #[trigger] holds_name(post, kk) <==> (holds_name(pre, kk) || kk == k) by {
                if holds_name(post, kk) {
                    let a = choose|a: int| 0 <= a < post.len() && #[trigger] post[a]@ == kk;
                    if a < i {
                        assert(pre[a]@ == kk);
                    }
                }
                if holds_name(pre, kk) {
                    let a = choose|a: int| 0 <= a < pre.len() && #[trigger] pre[a]@ == kk;
                    assert(post[a]@ == kk);
                }
                if kk == k {
                    assert(post[i as int]@ == kk);
                }
            }
        }
        i = i + 1;
    }
    proof {
        assert(names@.subrange(0, i as int) == names@);
        assert forall|k: Seq<char>| #[trigger] branch_merged(branch_opt(base@, k), branch_opt(m0, k), branch_opt(other@, k), branch_opt(mine@, k)) by {
            if !holds_name(names@, k) {
                assert(branch_opt(base@, k) is None);
                assert(branch_opt(other@, k) is None);
                assert(branch_opt(m0, k) is None);
                assert(remotes_opt(None) =~= Map::<Seq<char>, TargetModel>::empty());
                assert forall|r: Seq<char>| #[trigger] merge_model_holds(target_opt(remotes_opt(branch_opt(base@, k)), r),
                    target_opt(remotes_opt(branch_opt(m0, k)), r), target_opt(remotes_opt(branch_opt(other@, k)), r),
                    target_opt(remotes_opt(branch_opt(mine@, k)), r)) by {}
            }
        }
    }
}

/// Whether two id lists hold the same ids.
pub fn same_ids(a: &Vec<CommitId>, b: &Vec<CommitId>) -> (r: bool)
    ensures
        r == (set_of(a@) == set_of(b@)),
{
    let mut i: usize = 0;
    while i < a.len()
        invariant
            i <= a@.len(),
            forall|j: int| 0 <= j < i ==> b@.contains(#[trigger] a@[j]),
        decreases a@.len() - i,
    {
        if !contains_id(b, a[i]) {
            assert(set_of(a@).contains(a@[i as int]) && !set_of(b@).contains(a@[i as int]));
            return false;
        }
        i = i + 1;
    }
    let mut k: usize = 0;
    while k < b.len()
        invariant
            k <= b@.len(),
            forall|j: int| 0 <= j < a@.len() ==> b@.contains(#[trigger] a@[j]),
            forall|j: int| 0 <= j < k ==> a@.contains(#[trigger] b@[j]),
        decreases b@.len() - k,
    {
        if !contains_id(a, b[k]) {
            assert(set_of(b@).contains(b@[k as int]) && !set_of(a@).contains(b@[k as int]));
            return false;
        }
        k = k + 1;
    }
    assert forall|x: CommitId| set_of(a@).contains(x) == set_of(b@).contains(x) by {
        if a@.contains(x) {
            let j = choose|j: int| 0 <= j < a@.len() && a@[j] == x;
            assert(b@.contains(a@[j]));
        }
        if b@.contains(x) {
            let j = choose|j: int| 0 <= j < b@.len() && b@[j] == x;
            assert(a@.contains(b@[j]));
        }
    }
    assert(set_of(a@) =~= set_of(b@));
    true
}

/// Whether every name of `a` is in `b` with an equal value.
fn id_map_within(a: &NameMap<CommitId>, b: &NameMap<CommitId>) -> (r: bool)
    requires
        a.wf(),
        b.wf(),
    ensures
        r == forall|k: Seq<char>| #[trigger] a@.contains_key(k) ==> b@.contains_key(k) && b@[k] == a@[k],
{
    proof {
        a.lemma_names();
    }
    let mut i: usize = 0;
    while i < a.len()
        invariant
            a.wf(),
            b.wf(),
            i <= a.names_seq().len(),
            forall|k: Seq<char>| #![trigger a@.contains_key(k)] #![trigger a.names_seq().contains(k)]
                a@.contains_key(k) <==> a.names_seq().contains(k),
            forall|j: int| 0 <= j < i ==> b@.contains_key(#[trigger] a.names_seq()[j]) && b@[a.names_seq()[j]] == a@[a.names_seq()[j]],
        decreases a.names_seq().len() - i,
    {
        let name = a.name_at(i);
        let v = *a.value_at(i);
        match b.get(name.as_str()) {
            Some(w) => {
                if *w != v {
                    return false;
                }
            },
            None => {
                return false;
            },
        }
        i = i + 1;
    }
    assert forall|k: Seq<char>| #[trigger] a@.contains_key(k) implies b@.contains_key(k) && b@[k] == a@[k] by {
        assert(a.names_seq().contains(k));
        let j = choose|j: int| 0 <= j < a.names_seq().len() && a.names_seq()[j] == k;
        assert(b@.contains_key(a.names_seq()[j]));
    }
    true
}

/// Whether every name of `a` is in `b` with an equal target.
fn target_map_within(a: &NameMap<RefTarget>, b: &NameMap<RefTarget>) -> (r: bool)
    requires
        a.wf(),
        b.wf(),
    ensures
        r == forall|k: Seq<char>| #[trigger] a@.contains_key(k) ==> b@.contains_key(k) && b@[k] == a@[k],
{
    proof {
        a.lemma_names();
    }
    let mut i: usize = 0;
    while i < a.len()
        invariant
            a.wf(),
            b.wf(),
            i <= a.names_seq().len(),
            forall|k: Seq<char>| #![trigger a@.contains_key(k)] #![trigger a.names_seq().contains(k)]
                a@.contains_key(k) <==> a.names_seq().contains(k),
            forall|j: int| 0 <= j < i ==> b@.contains_key(#[trigger] a.names_seq()[j]) && b@[a.names_seq()[j]] == a@[a.names_seq()[j]],
        decreases a.names_seq().len() - i,
    {
        let name = a.name_at(i);
        let v = a.value_at(i);
        match b.get(name.as_str()) {
            Some(w) => {
                if !crate::ref_target::targets_equal(Some(v), Some(w)) {
                    return false;
                }
            },
            None => {
                return false;
            },
        }
        i = i + 1;
    }
    assert forall|k: Seq<char>| #[trigger] a@.contains_key(k) implies b@.contains_key(k) && b@[k] == a@[k] by {
        assert(a.names_seq().contains(k));
        let j = choose|j: int| 0 <= j < a.names_seq().len() && a.names_seq()[j] == k;
        assert(b@.contains_key(a.names_seq()[j]));
    }
    true
}

/// Whether two maps of targets are equal.
pub fn target_maps_equal(a: &NameMap<RefTarget>, b: &NameMap<RefTarget>) -> (r: bool)
    requires
        a.wf(),
        b.wf(),
    ensures
        r == (a@ == b@),
{
    let r = target_map_within(a, b) && target_map_within(b, a);
    if r {
        assert(a@ =~= b@);
    }
    r
}

/// Whether every branch of `a` is in `b` with an equal value.
fn branch_map_within(a: &NameMap<BranchTarget>, b: &NameMap<BranchTarget>) -> (r: bool)
    requires
        a.wf(),
        a.wf_values(),
        b.wf(),
        b.wf_values(),
    ensures
        r == forall|k: Seq<char>| #[trigger] a@.contains_key(k) ==> b@.contains_key(k) && b@[k] == a@[k],
{
    proof {
        a.lemma_names();
    }
    let mut i: usize = 0;
    while i < a.len()
        invariant
            a.wf(),
            a.wf_values(),
            b.wf(),
            b.wf_values(),
            i <= a.names_seq().len(),
            forall|k: Seq<char>| #![trigger a@.contains_key(k)] #![trigger a.names_seq().contains(k)]
                a@.contains_key(k) <==> a.names_seq().contains(k),
            forall|j: int| 0 <= j < i ==> b@.contains_key(#[trigger] a.names_seq()[j]) && b@[a.names_seq()[j]] == a@[a.names_seq()[j]],
        decreases a.names_seq().len() - i,
    {
        let name = a.name_at(i);
        let v = a.branch_at(i);
        match b.get_wf(name.as_str()) {
            Some(w) => {
                let local_same = match (&v.local_target, &w.local_target) {
                    (Some(x), Some(y)) => crate::ref_target::targets_equal(Some(x), Some(y)),
                    (None, None) => true,
                    _ => false,
                };
                if !local_same || !target_maps_equal(&v.remote_targets, &w.remote_targets) {
                    return false;
                }
            },
            None => {
                return false;
            },
        }
        i = i + 1;
    }
    assert forall|k: Seq<char>| #[trigger] a@.contains_key(k) implies b@.contains_key(k) && b@[k] == a@[k] by {
        assert(a.names_seq().contains(k));
        let j = choose|j: int| 0 <= j < a.names_seq().len() && a.names_seq()[j] == k;
        assert(b@.contains_key(a.names_seq()[j]));
    }
    true
}

impl RepoView {
    /// Whether two views are equal.
    pub fn same_as(&self, other: &RepoView) -> (r: bool)
        requires
            self.wf(),
            other.wf(),
        ensures
            r == (self@ == other@),
    {
        let r = same_ids(&self.head_ids, &other.head_ids)
            && same_ids(&self.public_head_ids, &other.public_head_ids)
            && self.git_head == other.git_head
            && id_map_within(&self.checkouts, &other.checkouts)
            && id_map_within(&other.checkouts, &self.checkouts)
            && target_map_within(&self.tags, &other.tags)
            && target_map_within(&other.tags, &self.tags)
            && target_map_within(&self.git_refs, &other.git_refs)
            && target_map_within(&other.git_refs, &self.git_refs)
            && branch_map_within(&self.branches, &other.branches)
            && branch_map_within(&other.branches, &self.branches);
        if r {
            assert(self@.checkouts =~= other@.checkouts);
            assert(self@.tags =~= other@.tags);
            assert(self@.git_refs =~= other@.git_refs);
            assert(self@.branches =~= other@.branches);
        }
        r
    }
}

} // verus!
