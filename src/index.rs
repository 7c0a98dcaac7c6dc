//! Ancestry over the commit DAG: `is_ancestor`, `heads` and their laws.

use vstd::prelude::*;
use crate::backend::{CommitId, Store, graph_wf, set_of, contains_id};

verus! {

/// `a` is `b` or an ancestor of `b` in the DAG given by the parent lists `g`.
pub open spec fn reaches(g: Seq<Seq<CommitId>>, b: int, a: int) -> bool
    decreases b - a,
{
    a == b || (a < b && exists|j: int|
        a < j <= b && reaches(g, b, j) && 0 <= j < g.len() && #[trigger] g[j].contains(CommitId(a as u64)))
}

/// `a` is an ancestor of `b` (or `b` itself).
pub open spec fn is_ancestor_spec(g: Seq<Seq<CommitId>>, a: CommitId, b: CommitId) -> bool {
    reaches(g, b.0 as int, a.0 as int)
}

/// `a` is a proper ancestor of `b`.
pub open spec fn is_proper_ancestor(g: Seq<Seq<CommitId>>, a: CommitId, b: CommitId) -> bool {
    a != b && is_ancestor_spec(g, a, b)
}

/// The elements of `s` that are not a proper ancestor of another element of `s`.
pub open spec fn heads_of(g: Seq<Seq<CommitId>>, s: Set<CommitId>) -> Set<CommitId> {
    s.filter(|x: CommitId| !exists|y: CommitId| #[trigger] s.contains(y) && is_proper_ancestor(g, x, y))
}

/// A commit outside the DAG has no ancestor but itself.
pub proof fn lemma_reaches_outside(g: Seq<Seq<CommitId>>, b: int, a: int)
    requires
        b >= g.len(),
        reaches(g, b, a),
    ensures
        a == b,
    decreases b - a,
{
    if a != b {
        let j = choose|j: int|
            a < j <= b && reaches(g, b, j) && 0 <= j < g.len() && #[trigger] g[j].contains(CommitId(a as u64));
        lemma_reaches_outside(g, b, j);
    }
}

pub proof fn lemma_reaches_le(g: Seq<Seq<CommitId>>, b: int, a: int)
    requires
        reaches(g, b, a),
    ensures
        a <= b,
{
}

/// Ancestry is transitive.
pub proof fn lemma_reaches_trans(g: Seq<Seq<CommitId>>, c: int, b: int, a: int)
    requires
        reaches(g, c, b),
        reaches(g, b, a),
    ensures
        reaches(g, c, a),
    decreases b - a,
{
    if a != b {
        let j = choose|j: int|
            a < j <= b && reaches(g, b, j) && 0 <= j < g.len() && #[trigger] g[j].contains(CommitId(a as u64));
        lemma_reaches_trans(g, c, b, j);
        lemma_reaches_le(g, c, j);
        lemma_reaches_le(g, c, b);
        assert(a < j <= c && reaches(g, c, j) && 0 <= j < g.len() && g[j].contains(CommitId(a as u64)));
    }
}

/// `is_ancestor` is transitive and antisymmetric.
pub proof fn lemma_ancestor_order(g: Seq<Seq<CommitId>>, a: CommitId, b: CommitId, c: CommitId)
    ensures
        is_ancestor_spec(g, a, b) && is_ancestor_spec(g, b, c) ==> is_ancestor_spec(g, a, c),
        is_ancestor_spec(g, a, b) && is_ancestor_spec(g, b, a) ==> a == b,
{
    if is_ancestor_spec(g, a, b) && is_ancestor_spec(g, b, c) {
        lemma_reaches_trans(g, c.0 as int, b.0 as int, a.0 as int);
    }
}

/// Taking the heads of a set of heads changes nothing.
pub proof fn lemma_heads_idempotent(g: Seq<Seq<CommitId>>, s: Set<CommitId>)
    ensures
        heads_of(g, heads_of(g, s)) == heads_of(g, s),
{
    let h = heads_of(g, s);
    assert forall|x: CommitId| h.contains(x) implies heads_of(g, h).contains(x) by {
        assert forall|y: CommitId| h.contains(y) implies !is_proper_ancestor(g, x, y) by {
            assert(s.contains(y));
        }
    }
    assert(heads_of(g, h) =~= h);
}

/// The heads of a set are a subset of it.
pub proof fn lemma_heads_subset(g: Seq<Seq<CommitId>>, s: Set<CommitId>)
    ensures
        heads_of(g, s).subset_of(s),
{
}

/// Every element of `u` is a head of `u` or a proper ancestor of one.
pub proof fn lemma_below_head(g: Seq<Seq<CommitId>>, u: Set<CommitId>, x: CommitId)
    requires
        u.contains(x),
    ensures
        heads_of(g, u).contains(x) || exists|h: CommitId| #[trigger] heads_of(g, u).contains(h) && is_proper_ancestor(g, x, h),
    decreases g.len() - x.0,
{
    if !heads_of(g, u).contains(x) {
        let y = choose|y: CommitId| #[trigger] u.contains(y) && is_proper_ancestor(g, x, y);
        if y.0 as int >= g.len() {
            lemma_reaches_outside(g, y.0 as int, x.0 as int);
            assert(x.0 == y.0);
        }
        lemma_reaches_le(g, y.0 as int, x.0 as int);
        assert(x.0 < y.0);
        lemma_below_head(g, u, y);
        if !heads_of(g, u).contains(y) {
            let h = choose|h: CommitId| #[trigger] heads_of(g, u).contains(h) && is_proper_ancestor(g, y, h);
            lemma_reaches_trans(g, h.0 as int, y.0 as int, x.0 as int);
            lemma_reaches_le(g, h.0 as int, y.0 as int);
            assert(is_proper_ancestor(g, x, h));
        }
    }
}

/// Any set between the heads of `u` and `u` has the same heads as `u`.
pub proof fn lemma_heads_between(g: Seq<Seq<CommitId>>, u: Set<CommitId>, v: Set<CommitId>)
    requires
        heads_of(g, u).subset_of(v),
        v.subset_of(u),
    ensures
        heads_of(g, v) == heads_of(g, u),
{
    assert forall|x: CommitId| heads_of(g, v).contains(x) implies heads_of(g, u).contains(x) by {
        if !heads_of(g, u).contains(x) {
            lemma_below_head(g, u, x);
            let h = choose|h: CommitId| #[trigger] heads_of(g, u).contains(h) && is_proper_ancestor(g, x, h);
            assert(v.contains(h));
        }
    }
    assert forall|x: CommitId| heads_of(g, u).contains(x) implies heads_of(g, v).contains(x) by {
        assert forall|y: CommitId| v.contains(y) implies !is_proper_ancestor(g, x, y) by {
            assert(u.contains(y));
        }
    }
    assert(heads_of(g, v) =~= heads_of(g, u));
}

/// Ancestry among the first commits does not change as commits are appended.
pub proof fn lemma_reaches_prefix(g1: Seq<Seq<CommitId>>, g2: Seq<Seq<CommitId>>, b: int, a: int)
    requires
        0 <= b < g1.len() <= g2.len(),
        g2.subrange(0, g1.len() as int) == g1,
    ensures
        reaches(g1, b, a) == reaches(g2, b, a),
    decreases b - a,
{
    if a < b {
        if reaches(g1, b, a) {
            let j = choose|j: int| a < j <= b && reaches(g1, b, j) && 0 <= j < g1.len() && #[trigger] g1[j].contains(CommitId(a as u64));
            lemma_reaches_prefix(g1, g2, b, j);
            assert(g2[j] == g1[j]);
        }
        if reaches(g2, b, a) {
            let j = choose|j: int| a < j <= b && reaches(g2, b, j) && 0 <= j < g2.len() && #[trigger] g2[j].contains(CommitId(a as u64));
            lemma_reaches_prefix(g1, g2, b, j);
            assert(g2[j] == g1[j]);
        }
    }
}

/// Heads of a set of commits of the first part of the DAG do not change as
/// commits are appended.
pub proof fn lemma_heads_prefix(g1: Seq<Seq<CommitId>>, g2: Seq<Seq<CommitId>>, s: Set<CommitId>)
    requires
        g1.len() <= g2.len(),
        g2.subrange(0, g1.len() as int) == g1,
        forall|x: CommitId| #[trigger] s.contains(x) ==> x.0 < g1.len(),
    ensures
        heads_of(g1, s) == heads_of(g2, s),
{
    assert forall|x: CommitId, y: CommitId| s.contains(x) && s.contains(y) implies
        #[trigger] is_proper_ancestor(g1, x, y) == #[trigger] is_proper_ancestor(g2, x, y) by {
        lemma_reaches_prefix(g1, g2, y.0 as int, x.0 as int);
    }
    assert(heads_of(g1, s) =~= heads_of(g2, s));
}

/// The positions `i` of the commits that reach `n` through an edge from a
/// commit above `lo`: `n` itself and the parents of marked commits in `(lo, n]`.
pub open spec fn marked(g: Seq<Seq<CommitId>>, n: int, lo: int, i: int) -> bool {
    i == n || exists|k: int| lo < k <= n && reaches(g, n, k) && 0 <= k < g.len() && #[trigger] g[k].contains(CommitId(i as u64))
}

proof fn lemma_marked_done(g: Seq<Seq<CommitId>>, n: int, lo: int, i: int)
    requires
        graph_wf(g),
        0 <= lo <= i <= n < g.len(),
        n < u64::MAX,
    ensures
        marked(g, n, lo, i) == reaches(g, n, i),
{
    if marked(g, n, lo, i) && i != n {
        let k = choose|k: int| lo < k <= n && reaches(g, n, k) && 0 <= k < g.len() && #[trigger] g[k].contains(CommitId(i as u64));
        let q = choose|q: int| 0 <= q < g[k].len() && g[k][q] == CommitId(i as u64);
        assert(g[k][q].0 < k);
        assert(i < k);
    }
    if reaches(g, n, i) && i != n {
        let k = choose|k: int| i < k <= n && reaches(g, n, k) && 0 <= k < g.len() && #[trigger] g[k].contains(CommitId(i as u64));
        assert(lo < k);
    }
}

impl Store {
    /// Whether `a` is an ancestor of `b` (or `b` itself).
    pub fn is_ancestor(&self, a: CommitId, b: CommitId) -> (r: bool)
        requires
            self.wf(),
        ensures
            r == is_ancestor_spec(self.graph(), a, b),
    {
        proof {
            self.lemma_wf();
            self.lemma_graph();
        }
        if a.0 > b.0 {
            return false;
        }
        let ghost g = self.graph();
        let total = self.num_commits();
        if b.0 >= total as u64 {
            proof {
                if reaches(g, b.0 as int, a.0 as int) {
                    lemma_reaches_outside(g, b.0 as int, a.0 as int);
                }
            }
            return a == b;
        }
        let n = b.0 as usize;
        let lo = a.0 as usize;
        let mut mark: Vec<bool> = Vec::new();
        let mut t: usize = 0;
        while t <= n
            invariant
                t <= n + 1,
                n < total,
                mark@.len() == t,
                forall|i: int| 0 <= i < t ==> !#[trigger] mark@[i] || i == n,
                forall|i: int| 0 <= i < t ==> #[trigger] mark@[i] == (i == n),
            decreases n + 1 - t,
        {
            mark.push(t == n);
            t = t + 1;
        }
        let mut j: usize = n;
        while j > lo
            invariant
                lo <= j <= n,
                n < self.len(),
                g == self.graph(),
                graph_wf(g),
                g.len() == self.len(),
                self.len() < u64::MAX,
                self.wf(),
                mark@.len() == n + 1,
                forall|i: int| 0 <= i <= n ==> #[trigger] mark@[i] == marked(g, n as int, j as int, i),
            decreases j,
        {
            proof {
                lemma_marked_done(g, n as int, j as int, j as int);
            }
            let here = mark[j];
            if here {
                let ps = &self.get_commit(CommitId(j as u64)).parents;
                proof {
                    self.lemma_graph();
                    assert(self.graph()[j as int] == self.commit_at(j as int).parents@);
                }
                assert(ps@ == g[j as int]);
                let mut q: usize = 0;
                while q < ps.len()
                    invariant
                        q <= ps@.len(),
                        ps@ == g[j as int],
                        lo < j <= n,
                        n < g.len(),
                        graph_wf(g),
                        reaches(g, n as int, j as int),
                        mark@.len() == n + 1,
                        forall|i: int| 0 <= i <= n ==> #[trigger] mark@[i] == (marked(g, n as int, j as int, i)
                            || ps@.subrange(0, q as int).contains(CommitId(i as u64))),
                    decreases ps@.len() - q,
                {
                    let p = ps[q];
                    assert(g[j as int][q as int] == p);
                    assert(p.0 < j);
                    mark.set(p.0 as usize, true);
                    proof {
                        assert forall|i: int| 0 <= i <= n implies #[trigger] mark@[i] == (marked(g, n as int, j as int, i)
                            || ps@.subrange(0, q + 1).contains(CommitId(i as u64))) by {
                            assert(ps@.subrange(0, q + 1) == ps@.subrange(0, q as int).push(p));
                            if i == p.0 as int {
                                assert(ps@.subrange(0, q + 1)[q as int] == p);
                            }
                        }
                    }
                    q = q + 1;
                }
                proof {
                    assert(ps@.subrange(0, q as int) == ps@);
                    assert forall|i: int| 0 <= i <= n implies #[trigger] mark@[i] == marked(g, n as int, j - 1, i) by {
                        if ps@.contains(CommitId(i as u64)) {
                            assert(j - 1 < j <= n && reaches(g, n as int, j as int) && g[j as int].contains(CommitId(i as u64)));
                        }
                        if marked(g, n as int, j - 1, i) && i != n && !marked(g, n as int, j as int, i) {
                            let k = choose|k: int| j - 1 < k <= n && reaches(g, n as int, k) && 0 <= k < g.len() && #[trigger] g[k].contains(CommitId(i as u64));
                            assert(k == j);
                        }
                    }
                }
            } else {
                proof {
                    assert(!reaches(g, n as int, j as int));
                    assert forall|i: int| 0 <= i <= n implies #[trigger] mark@[i] == marked(g, n as int, j - 1, i) by {
                        if marked(g, n as int, j - 1, i) && i != n && !marked(g, n as int, j as int, i) {
                            let k = choose|k: int| j - 1 < k <= n && reaches(g, n as int, k) && 0 <= k < g.len() && #[trigger] g[k].contains(CommitId(i as u64));
                            assert(k == j);
                        }
                    }
                }
            }
            j = j - 1;
        }
        proof {
            lemma_marked_done(g, n as int, lo as int, lo as int);
        }
        mark[lo]
    }

    /// The ids of `ids` that are not a proper ancestor of another of them,
    /// each once, in the order of their first occurrence.
    pub fn heads(&self, ids: &Vec<CommitId>) -> (r: Vec<CommitId>)
        requires
            self.wf(),
        ensures
            set_of(r@) == heads_of(self.graph(), set_of(ids@)),
            r@.no_duplicates(),
    {
        let ghost g = self.graph();
        let ghost s = set_of(ids@);
        let mut r: Vec<CommitId> = Vec::new();
        let mut i: usize = 0;
        while i < ids.len()
            invariant
                i <= ids@.len(),
                g == self.graph(),
                s == set_of(ids@),
                self.wf(),
                r@.no_duplicates(),
                forall|x: CommitId| #[trigger] r@.contains(x) <==>
                    (ids@.subrange(0, i as int).contains(x) && heads_of(g, s).contains(x)),
            decreases ids@.len() - i,
        {
            let x = ids[i];
            let mut found = false;
            let mut j: usize = 0;
            while j < ids.len()
                invariant
                    i < ids@.len(),
                    x == ids@[i as int],
                    j <= ids@.len(),
                    g == self.graph(),
                    self.wf(),
                        found == exists|k: int| 0 <= k < j && #[trigger] is_proper_ancestor(g, x, ids@[k]),
                decreases ids@.len() - j,
            {
                let y = ids[j];
                if y != x && self.is_ancestor(x, y) {
                    found = true;
                }
                assert(is_proper_ancestor(g, x, ids@[j as int]) == (y != x && is_ancestor_spec(g, x, y)));
                j = j + 1;
            }
            proof {
                assert(s.contains(x));
                if found {
                    let k = choose|k: int| 0 <= k < j && #[trigger] is_proper_ancestor(g, x, ids@[k]);
                    assert(s.contains(ids@[k]));
                    assert(!heads_of(g, s).contains(x));
                } else {
                    assert forall|y: CommitId| s.contains(y) implies !is_proper_ancestor(g, x, y) by {
                        let k = choose|k: int| 0 <= k < ids@.len() && ids@[k] == y;
                        assert(!is_proper_ancestor(g, x, ids@[k]));
                    }
                    assert(heads_of(g, s).contains(x));
                }
            }
            let dup = contains_id(&r, x);
            let ghost r0 = r@;
            if !found && !dup {
                r.push(x);
            }
            proof {
                let ghost pre = ids@.subrange(0, i as int);
                let ghost post = ids@.subrange(0, i + 1);
                assert(post == pre.push(x));
                assert forall|z: CommitId| #[trigger] r@.contains(z) <==>
                    (post.contains(z) && heads_of(g, s).contains(z)) by {
                    if post.contains(z) && z != x {
                        let k = choose|k: int| 0 <= k < post.len() && #[trigger] post[k] == z;
                        assert(pre[k] == z);
                    }
                    if r@.contains(z) && z != x {
                        if !found && !dup {
                            let k = choose|k: int| 0 <= k < r@.len() && #[trigger] r@[k] == z;
                            assert(r0[k] == z);
                        }
                        assert(r0.contains(z));
                        assert(pre.contains(z));
                        let k = choose|k: int| 0 <= k < pre.len() && #[trigger] pre[k] == z;
                        assert(post[k] == z);
                    }
                    if z == x {
                        assert(post[i as int] == x);
                        if !found && !dup {
                            assert(r@[r0.len() as int] == x);
                        }
                    }
                    if r0.contains(z) {
                        let k = choose|k: int| 0 <= k < r0.len() && #[trigger] r0[k] == z;
                        assert(r@[k] == z);
                    }
                }
            }
            i = i + 1;
        }
        proof {
            assert(ids@.subrange(0, i as int) == ids@);
            assert(set_of(r@) =~= heads_of(g, s));
        }
        r
    }
}

} // verus!
