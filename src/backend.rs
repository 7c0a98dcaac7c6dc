//! Identifiers and the in-memory commit backend.
//!
//! The backend stores commits in the order they were written. A commit's id is
//! its position in that order, so every parent of a commit has a smaller id
//! than the commit itself and the id order is a topological order of the DAG.

use vstd::prelude::*;

verus! {

/// Identifies a commit. Ids are totally ordered by their number.
#[derive(Clone, Copy, PartialEq, Eq, Structural, Debug, Hash)]
pub struct CommitId(pub u64);

impl View for CommitId {
    type V = CommitId;

    open spec fn view(&self) -> CommitId {
        *self
    }
}

/// Identifies a change: a commit and all of its rewrites share one.
#[derive(Clone, Copy, PartialEq, Eq, Structural, Debug, Hash)]
pub struct ChangeId(pub u64);

/// Identifies a tree (the snapshot of the files of a commit).
#[derive(Clone, Copy, PartialEq, Eq, Structural, Debug, Hash)]
pub struct TreeId(pub u64);

/// The tree of the root commit, which holds no files.
pub const EMPTY_TREE: u64 = 0;

/// The id of the root commit, which every repository has.
pub const ROOT_COMMIT: u64 = 0;

/// The data of a commit as written to the backend.
#[derive(Debug)]
pub struct Commit {
    pub parents: Vec<CommitId>,
    pub predecessors: Vec<CommitId>,
    pub root_tree: TreeId,
    pub change_id: ChangeId,
    pub description: String,
    pub is_open: bool,
}

/// The ids that a list holds.
pub open spec fn set_of(s: Seq<CommitId>) -> Set<CommitId> {
    Set::new(|x: CommitId| s.contains(x))
}

pub proof fn lemma_set_of_push(s: Seq<CommitId>, x: CommitId)
    ensures
        set_of(s.push(x)) == set_of(s).insert(x),
{
    assert forall|y: CommitId| #[trigger] set_of(s.push(x)).contains(y) == set_of(s).insert(x).contains(y) by {
        if s.push(x).contains(y) && y != x {
            let k = choose|k: int| 0 <= k < s.push(x).len() && #[trigger] s.push(x)[k] == y;
            assert(s[k] == y);
        }
        if s.contains(y) {
            let k = choose|k: int| 0 <= k < s.len() && #[trigger] s[k] == y;
            assert(s.push(x)[k] == y);
        }
        if y == x {
            assert(s.push(x)[s.len() as int] == y);
        }
    }
    assert(set_of(s.push(x)) =~= set_of(s).insert(x));
}

pub proof fn lemma_set_of_prefix(s: Seq<CommitId>, i: int)
    requires
        0 <= i < s.len(),
    ensures
        set_of(s.subrange(0, i + 1)) == set_of(s.subrange(0, i)).insert(s[i]),
{
    assert(s.subrange(0, i + 1) == s.subrange(0, i).push(s[i]));
    lemma_set_of_push(s.subrange(0, i), s[i]);
}

pub proof fn lemma_set_of_len(s: Seq<CommitId>)
    requires
        s.no_duplicates(),
    ensures
        set_of(s).len() == s.len(),
        set_of(s).finite(),
    decreases s.len(),
{
    if s.len() == 0 {
        assert(set_of(s) =~= Set::empty());
    } else {
        let t = s.drop_last();
        lemma_set_of_len(t);
        assert(s == t.push(s.last()));
        lemma_set_of_push(t, s.last());
        assert(!t.contains(s.last())) by {
            if t.contains(s.last()) {
                let k = choose|k: int| 0 <= k < t.len() && t[k] == s.last();
                assert(s[k] == s[s.len() - 1]);
            }
        }
    }
}

/// Whether the list holds the id.
pub fn contains_id(v: &Vec<CommitId>, x: CommitId) -> (r: bool)
    ensures
        r == v@.contains(x),
{
    let mut i: usize = 0;
    while i < v.len()
        invariant
            i <= v.len(),
            !v@.subrange(0, i as int).contains(x),
        decreases v.len() - i,
    {
        if v[i] == x {
            assert(v@[i as int] == x);
            return true;
        }
        assert(v@.subrange(0, i + 1) == v@.subrange(0, i as int).push(v@[i as int]));
        i = i + 1;
    }
    assert(v@.subrange(0, i as int) == v@);
    false
}

/// Copies a list of ids.
pub fn copy_ids(v: &Vec<CommitId>) -> (r: Vec<CommitId>)
    ensures
        r@ == v@,
{
    let mut r: Vec<CommitId> = Vec::new();
    let mut i: usize = 0;
    while i < v.len()
        invariant
            i <= v.len(),
            r@ == v@.subrange(0, i as int),
        decreases v.len() - i,
    {
        r.push(v[i]);
        i = i + 1;
        assert(r@ =~= v@.subrange(0, i as int));
    }
    assert(r@ =~= v@);
    r
}

impl Commit {
    /// Copies the commit.
    pub fn duplicate(&self) -> (r: Commit)
        ensures
            r.parents@ == self.parents@,
            r.predecessors@ == self.predecessors@,
            r.root_tree == self.root_tree,
            r.change_id == self.change_id,
            r.description@ == self.description@,
            r.is_open == self.is_open,
    {
        Commit {
            parents: copy_ids(&self.parents),
            predecessors: copy_ids(&self.predecessors),
            root_tree: self.root_tree,
            change_id: self.change_id,
            description: self.description.clone(),
            is_open: self.is_open,
        }
    }
}

/// The parent lists of the commits `0 .. g.len()`, by id, are a DAG in which
/// every parent precedes its child.
pub open spec fn graph_wf(g: Seq<Seq<CommitId>>) -> bool {
    forall|i: int, k: int|
        0 <= i < g.len() && 0 <= k < g[i].len() ==> (#[trigger] g[i][k]).0 < i
}

/// An append-only store of commits. The commit with id `i` is the `i`-th one
/// written; the root commit, with id 0, is written when the store is made.
pub struct Store {
    commits: Vec<Commit>,
}

impl Store {
    /// The parent lists of all commits, by id.
    pub closed spec fn graph(&self) -> Seq<Seq<CommitId>> {
        Seq::new(self.commits@.len(), |i: int| self.commits@[i].parents@)
    }

    /// The commit with the given id.
    pub closed spec fn commit_at(&self, i: int) -> Commit {
        self.commits@[i]
    }

    pub open spec fn len(&self) -> nat {
        self.graph().len()
    }

    pub open spec fn has(&self, id: CommitId) -> bool {
        (id.0 as int) < self.len()
    }

    /// The store holds the root commit, and every parent precedes its child.
    pub closed spec fn wf(&self) -> bool {
        &&& self.commits@.len() >= 1
        &&& self.commits@.len() < u64::MAX
        &&& self.commits@[0].parents@.len() == 0
        &&& graph_wf(self.graph())
    }

    pub proof fn lemma_graph(&self)
        ensures
            forall|i: int| 0 <= i < self.len() ==> #[trigger] self.graph()[i] == self.commit_at(i).parents@,
    {
    }

    pub proof fn lemma_wf(&self)
        requires
            self.wf(),
        ensures
            self.len() >= 1,
            self.len() < u64::MAX,
            self.graph()[0].len() == 0,
            graph_wf(self.graph()),
    {
    }

    /// A store that holds the root commit only: no parents, the empty tree,
    /// change id 0, no description, closed.
    pub fn new() -> (s: Store)
        ensures
            s.wf(),
            s.len() == 1,
            s.commit_at(0).root_tree == TreeId(EMPTY_TREE),
            s.commit_at(0).change_id == ChangeId(0),
            !s.commit_at(0).is_open,
    {
        let root = Commit {
            parents: Vec::new(),
            predecessors: Vec::new(),
            root_tree: TreeId(EMPTY_TREE),
            change_id: ChangeId(0),
            description: String::new(),
            is_open: false,
        };
        let mut commits: Vec<Commit> = Vec::new();
        commits.push(root);
        let s = Store { commits };
        assert(graph_wf(s.graph()));
        s
    }

    /// The id of the root commit.
    pub fn root_commit_id(&self) -> (r: CommitId)
        ensures
            r == CommitId(ROOT_COMMIT),
    {
        CommitId(ROOT_COMMIT)
    }

    /// The id of the empty tree.
    pub fn empty_tree_id(&self) -> (r: TreeId)
        ensures
            r == TreeId(EMPTY_TREE),
    {
        TreeId(EMPTY_TREE)
    }

    /// The number of commits written, the root included.
    pub fn num_commits(&self) -> (r: usize)
        requires
            self.wf(),
        ensures
            r == self.len(),
    {
        self.commits.len()
    }

    pub fn has_id(&self, id: CommitId) -> (r: bool)
        requires
            self.wf(),
        ensures
            r == self.has(id),
    {
        id.0 < self.commits.len() as u64
    }

    /// The commit with the given id.
    pub fn get_commit(&self, id: CommitId) -> (r: &Commit)
        requires
            self.wf(),
            self.has(id),
        ensures
            *r == self.commit_at(id.0 as int),
    {
        let total = self.commits.len();
        assert(id.0 < total);
        &self.commits[id.0 as usize]
    }

    /// Writes a commit whose parents are all in the store; it gets the next id.
    pub fn write_commit(&mut self, commit: Commit) -> (r: CommitId)
        requires
            old(self).wf(),
            old(self).len() + 1 < u64::MAX,
            forall|k: int| 0 <= k < commit.parents@.len() ==> old(self).has(#[trigger] commit.parents@[k]),
        ensures
            final(self).wf(),
            r.0 == old(self).len(),
            final(self).len() == old(self).len() + 1,
            final(self).graph() == old(self).graph().push(commit.parents@),
            final(self).commit_at(r.0 as int) == commit,
            forall|i: int| 0 <= i < old(self).len() ==> #[trigger] final(self).commit_at(i) == old(self).commit_at(i),
    {
        let id = CommitId(self.commits.len() as u64);
        self.commits.push(commit);
        assert(self.graph() =~= old(self).graph().push(self.commits@[id.0 as int].parents@));
        id
    }

    /// Whether the commit is empty: it is not a merge, and its tree is that of
    /// its parent (the empty tree where it has no parent).
    pub fn is_empty(&self, id: CommitId) -> (r: bool)
        requires
            self.wf(),
            self.has(id),
        ensures
            r == self.is_empty_spec(id),
    {
        let total = self.commits.len();
        let c = &self.commits[id.0 as usize];
        if c.parents.len() == 0 {
            c.root_tree.0 == EMPTY_TREE
        } else if c.parents.len() == 1 {
            let p = c.parents[0];
            proof {
                assert(self.graph()[id.0 as int] == c.parents@);
                assert(graph_wf(self.graph()));
                assert(self.graph()[id.0 as int][0] == p);
                assert(p.0 < id.0);
            }
            c.root_tree == self.commits[p.0 as usize].root_tree
        } else {
            false
        }
    }

    pub open spec fn is_empty_spec(&self, id: CommitId) -> bool {
        let c = self.commit_at(id.0 as int);
        if c.parents@.len() == 0 {
            c.root_tree == TreeId(EMPTY_TREE)
        } else if c.parents@.len() == 1 {
            c.root_tree == self.commit_at(c.parents@[0].0 as int).root_tree
        } else {
            false
        }
    }
}

} // verus!
