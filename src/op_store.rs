//! Operations: the log of every change to a repository's view, and the set of
//! current operation heads.
//!
//! Operations are kept like commits: operation `i` is the `i`-th one written,
//! its parents precede it, and the ancestry index of the commit DAG serves
//! the operation DAG too.

use vstd::prelude::*;
use crate::backend::{Commit, CommitId, Store, ChangeId, TreeId, EMPTY_TREE, set_of};
use crate::view::{RepoView, ViewModel, insert_id, remove_id};

verus! {

/// Identifies an operation.
#[derive(Clone, Copy, PartialEq, Eq, Structural, Debug, Hash)]
pub struct OperationId(pub u64);

/// The node of the operation DAG that stands for the operation.
pub open spec fn node(id: OperationId) -> CommitId {
    CommitId(id.0)
}

/// An append-only store of operations, each with the view it produced.
pub struct OpStore {
    dag: Store,
    views: Vec<RepoView>,
}

impl OpStore {
    /// The parent lists of all operations, as nodes.
    pub closed spec fn graph(&self) -> Seq<Seq<CommitId>> {
        self.dag.graph()
    }

    pub closed spec fn len(&self) -> nat {
        self.dag.len()
    }

    /// The view the operation produced.
    pub closed spec fn view_at(&self, i: int) -> ViewModel {
        self.views@[i]@
    }

    /// The description of the operation.
    pub closed spec fn description_at(&self, i: int) -> Seq<char> {
        self.dag.commit_at(i).description@
    }

    pub closed spec fn wf(&self) -> bool {
        &&& self.dag.wf()
        &&& forall|i: int| 1 <= i < self.dag.len() ==> #[trigger] self.dag.graph()[i].len() > 0
        &&& self.views@.len() == self.dag.len()
        &&& forall|i: int| 0 <= i < self.views@.len() ==> (#[trigger] self.views@[i]).wf()
    }

    pub proof fn lemma_wf(&self)
        requires
            self.wf(),
        ensures
            self.len() >= 1,
            self.len() < u64::MAX,
            self.graph().len() == self.len(),
            crate::backend::graph_wf(self.graph()),
            self.graph()[0].len() == 0,
            forall|i: int| 1 <= i < self.len() ==> #[trigger] self.graph()[i].len() > 0,
    {
        self.dag.lemma_wf();
    }

    /// Every operation descends from the root operation.
    pub proof fn lemma_root_is_ancestor(&self, i: int)
        requires
            self.wf(),
            0 <= i < self.len(),
        ensures
            crate::index::is_ancestor_spec(self.graph(), CommitId(0), CommitId(i as u64)),
        decreases i,
    {
        self.lemma_wf();
        let g = self.graph();
        if i > 0 {
            let p = g[i][0];
            assert(p.0 < i);
            self.lemma_root_is_ancestor(p.0 as int);
            assert(CommitId((p.0 as int) as u64) == p);
            assert(g[i].contains(CommitId((p.0 as int) as u64)));
            assert(crate::index::reaches(g, i, i));
            assert(crate::index::reaches(g, i, p.0 as int));
            crate::index::lemma_reaches_trans(g, i, p.0 as int, 0);
        }
    }

    /// A store holding the root operation, with no parents, whose view is `root_view`.
    pub fn init(root_view: RepoView) -> (r: OpStore)
        requires
            root_view.wf(),
        ensures
            r.wf(),
            r.len() == 1,
            r.view_at(0) == root_view@,
            r.graph()[0].len() == 0,
    {
        let mut views: Vec<RepoView> = Vec::new();
        views.push(root_view);
        let r = OpStore { dag: Store::new(), views };
        proof {
            r.dag.lemma_wf();
        }
        r
    }

    pub fn num_operations(&self) -> (r: usize)
        requires
            self.wf(),
        ensures
            r == self.len(),
    {
        self.dag.num_commits()
    }

    /// The view the operation produced.
    pub fn read_view(&self, id: OperationId) -> (r: &RepoView)
        requires
            self.wf(),
            id.0 < self.len(),
        ensures
            r.wf(),
            r@ == self.view_at(id.0 as int),
    {
        let n = self.views.len();
        &self.views[id.0 as usize]
    }

    /// The parents of the operation.
    pub fn parents(&self, id: OperationId) -> (r: Vec<OperationId>)
        requires
            self.wf(),
            id.0 < self.len(),
        ensures
            r@.len() == self.graph()[id.0 as int].len(),
            forall|k: int| 0 <= k < r@.len() ==> #[trigger] node(r@[k]) == self.graph()[id.0 as int][k],
    {
        proof {
            self.dag.lemma_graph();
        }
        let ps = &self.dag.get_commit(CommitId(id.0)).parents;
        let mut r: Vec<OperationId> = Vec::new();
        let mut k: usize = 0;
        while k < ps.len()
            invariant
                k <= ps@.len(),
                r@.len() == k,
                forall|j: int| 0 <= j < k ==> #[trigger] node(r@[j]) == ps@[j],
            decreases ps@.len() - k,
        {
            r.push(OperationId(ps[k].0));
            k = k + 1;
        }
        r
    }

    /// Whether `a` is an ancestor of `b` (or `b` itself).
    pub fn is_ancestor(&self, a: OperationId, b: OperationId) -> (r: bool)
        requires
            self.wf(),
        ensures
            r == crate::index::is_ancestor_spec(self.graph(), node(a), node(b)),
    {
        self.dag.is_ancestor(CommitId(a.0), CommitId(b.0))
    }

    /// The nodes of `ids` that are not a proper ancestor of another of them.
    pub fn heads(&self, ids: &Vec<CommitId>) -> (r: Vec<CommitId>)
        requires
            self.wf(),
        ensures
            set_of(r@) == crate::index::heads_of(self.graph(), set_of(ids@)),
            r@.no_duplicates(),
    {
        self.dag.heads(ids)
    }

    /// Writes an operation with the given parents and view; it gets the next id.
    pub fn write_operation(&mut self, parents: &Vec<OperationId>, view: RepoView, description: String) -> (r: OperationId)
        requires
            old(self).wf(),
            view.wf(),
            old(self).len() + 1 < u64::MAX,
            parents@.len() > 0,
            forall|k: int| 0 <= k < parents@.len() ==> (#[trigger] parents@[k]).0 < old(self).len(),
        ensures
            final(self).wf(),
            r.0 == old(self).len(),
            final(self).len() == old(self).len() + 1,
            final(self).graph() == old(self).graph().push(parents@.map_values(|p: OperationId| node(p))),
            final(self).view_at(r.0 as int) == view@,
            final(self).description_at(r.0 as int) == description@,
            forall|i: int| 0 <= i < old(self).len() ==> #[trigger] final(self).view_at(i) == old(self).view_at(i),
    {
        let mut ps: Vec<CommitId> = Vec::new();
        let mut k: usize = 0;
        while k < parents.len()
            invariant
                k <= parents@.len(),
                ps@ == parents@.subrange(0, k as int).map_values(|p: OperationId| node(p)),
            decreases parents@.len() - k,
        {
            ps.push(CommitId(parents[k].0));
            k = k + 1;
            assert(ps@ =~= parents@.subrange(0, k as int).map_values(|p: OperationId| node(p)));
        }
        assert(parents@.subrange(0, k as int) == parents@);
        let node_commit = Commit {
            parents: ps,
            predecessors: Vec::new(),
            root_tree: TreeId(EMPTY_TREE),
            change_id: ChangeId(0),
            description,
            is_open: false,
        };
        let ghost g0 = self.dag.graph();
        let id = self.dag.write_commit(node_commit);
        self.views.push(view);
        proof {
            assert forall|i: int| 1 <= i < self.dag.len() implies #[trigger] self.dag.graph()[i].len() > 0 by {
                if i < g0.len() {
                    assert(self.dag.graph()[i] == g0[i]);
                }
            }
        }
        OperationId(id.0)
    }
}

/// The set of current operation heads.
pub struct OpHeadsStore {
    heads: Vec<CommitId>,
}

impl OpHeadsStore {
    /// The heads, as nodes of the operation DAG.
    pub closed spec fn heads_spec(&self) -> Set<CommitId> {
        set_of(self.heads@)
    }

    pub closed spec fn wf(&self) -> bool {
        self.heads@.no_duplicates()
    }

    /// A set holding the one head.
    pub fn init(id: OperationId) -> (r: OpHeadsStore)
        ensures
            r.wf(),
            r.heads_spec() == Set::empty().insert(node(id)),
    {
        let mut heads: Vec<CommitId> = Vec::new();
        heads.push(CommitId(id.0));
        proof {
            crate::backend::lemma_set_of_push(Seq::empty(), CommitId(id.0));
            assert(Seq::<CommitId>::empty().push(CommitId(id.0)) == heads@);
            assert(set_of(Seq::<CommitId>::empty()) =~= Set::empty());
        }
        OpHeadsStore { heads }
    }

    /// The heads, each once.
    pub fn get_heads(&self) -> (r: Vec<CommitId>)
        requires
            self.wf(),
        ensures
            set_of(r@) == self.heads_spec(),
            r@.no_duplicates(),
    {
        crate::backend::copy_ids(&self.heads)
    }

    pub fn add_op_head(&mut self, id: OperationId)
        requires
            old(self).wf(),
        ensures
            final(self).wf(),
            final(self).heads_spec() == old(self).heads_spec().insert(node(id)),
    {
        insert_id(&mut self.heads, CommitId(id.0));
    }

    pub fn remove_op_head(&mut self, id: OperationId)
        requires
            old(self).wf(),
        ensures
            final(self).wf(),
            final(self).heads_spec() == old(self).heads_spec().remove(node(id)),
    {
        remove_id(&mut self.heads, CommitId(id.0));
    }
}

} // verus!
