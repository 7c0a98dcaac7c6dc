//! Parallelizing a set of target commits: the targets become siblings that
//! share the external parents of the set's roots.

use vstd::prelude::*;
use crate::backend::{CommitId, Commit, Store, set_of, contains_id, copy_ids};
use crate::rebase::{is_rebased_copy, img_model};
use crate::repo::{MutableRepo, rebase_done};
use crate::view::ViewModel;
use crate::ref_target::ids_equal;
use crate::index::{is_ancestor_spec, heads_of};

verus! {

/// Why a set of targets cannot be parallelized.
#[derive(Debug, PartialEq, Eq, Structural)]
pub enum ParallelizeError {
    /// The heads of the targets that have children outside the targets do not
    /// all share those children.
    HeadsHaveDifferentChildren,
}

/// `p` is a parent of `c`.
pub open spec fn is_parent(g: Seq<Seq<CommitId>>, p: CommitId, c: CommitId) -> bool {
    (c.0 as int) < g.len() && g[c.0 as int].contains(p)
}

/// `r` is a target none of whose parents is a target.
pub open spec fn is_root_of(g: Seq<Seq<CommitId>>, t: Set<CommitId>, r: CommitId) -> bool {
    t.contains(r) && forall|p: CommitId| #[trigger] is_parent(g, p, r) ==> !t.contains(p)
}

/// `h` is a target that is no parent of a target.
pub open spec fn is_head_of(g: Seq<Seq<CommitId>>, t: Set<CommitId>, h: CommitId) -> bool {
    t.contains(h) && forall|c: CommitId| #[trigger] t.contains(c) ==> !is_parent(g, h, c)
}

/// The parents of the roots that are not targets.
pub open spec fn ext_parents(g: Seq<Seq<CommitId>>, t: Set<CommitId>) -> Set<CommitId> {
    Set::new(|p: CommitId| !t.contains(p) && exists|r: CommitId| #[trigger] is_root_of(g, t, r) && is_parent(g, p, r))
}

/// No target is an ancestor of another.
pub open spec fn is_antichain(g: Seq<Seq<CommitId>>, t: Set<CommitId>) -> bool {
    forall|a: CommitId, b: CommitId| t.contains(a) && t.contains(b) && a != b ==> !#[trigger] is_ancestor_spec(g, a, b)
}

/// Some external parent of a root descends from a target.
pub open spec fn parents_descend(g: Seq<Seq<CommitId>>, t: Set<CommitId>) -> bool {
    exists|p: CommitId, x: CommitId| ext_parents(g, t).contains(p) && t.contains(x) && #[trigger] is_ancestor_spec(g, x, p)
}

/// The targets do not form one contiguous piece of history: parallelizing
/// them changes nothing.
pub open spec fn is_disconnected(g: Seq<Seq<CommitId>>, t: Set<CommitId>) -> bool {
    is_antichain(g, t) || parents_descend(g, t)
}

/// A head `h1` of the targets has a child outside the targets that is not a
/// child of another head `h2` that has such children.
pub open spec fn heads_differ(g: Seq<Seq<CommitId>>, t: Set<CommitId>) -> bool {
    exists|h1: CommitId, h2: CommitId, c: CommitId, c2: CommitId|
        is_head_of(g, t, h1) && is_head_of(g, t, h2)
        && !t.contains(c) && #[trigger] is_parent(g, h1, c) && !is_parent(g, h2, c)
        && !t.contains(c2) && #[trigger] is_parent(g, h2, c2)
}

/// Ids in strictly increasing order.
pub open spec fn is_increasing(s: Seq<CommitId>) -> bool {
    forall|i: int, j: int| 0 <= i < j < s.len() ==> (#[trigger] s[i]).0 < (#[trigger] s[j]).0
}

/// Whether `p` is a parent of `c`.
fn parent_of(store: &Store, p: CommitId, c: CommitId) -> (r: bool)
    requires
        store.wf(),
    ensures
        r == is_parent(store.graph(), p, c),
{
    if store.has_id(c) {
        proof {
            store.lemma_graph();
        }
        contains_id(&store.get_commit(c).parents, p)
    } else {
        false
    }
}

/// Whether the target `r` has no parent among the targets.
fn is_root(store: &Store, targets: &Vec<CommitId>, r: CommitId) -> (b: bool)
    requires
        store.wf(),
        set_of(targets@).contains(r),
    ensures
        b == is_root_of(store.graph(), set_of(targets@), r),
{
    let ghost g = store.graph();
    let ghost t = set_of(targets@);
    if !store.has_id(r) {
        assert forall|p: CommitId| #[trigger] is_parent(g, p, r) implies !t.contains(p) by {}
        return true;
    }
    proof {
        store.lemma_graph();
    }
    let ps = &store.get_commit(r).parents;
    let mut k: usize = 0;
    while k < ps.len()
        invariant
            k <= ps@.len(),
            ps@ == g[r.0 as int],
            g == store.graph(),
            (r.0 as int) < g.len(),
            t == set_of(targets@),
            forall|j: int| 0 <= j < k ==> !t.contains(#[trigger] ps@[j]),
        decreases ps@.len() - k,
    {
        if contains_id(targets, ps[k]) {
            assert(is_parent(g, ps@[k as int], r));
            assert(t.contains(ps@[k as int]));
            assert(!is_root_of(g, t, r));
            return false;
        }
        k = k + 1;
    }
    assert forall|p: CommitId| #[trigger] is_parent(g, p, r) implies !t.contains(p) by {
        let j = choose|j: int| 0 <= j < ps@.len() && ps@[j] == p;
    }
    true
}

/// The parents of the roots that are not targets, in increasing order.
pub fn external_parents(store: &Store, targets: &Vec<CommitId>) -> (r: Vec<CommitId>)
    requires
        store.wf(),
    ensures
        set_of(r@) == ext_parents(store.graph(), set_of(targets@)),
        is_increasing(r@),
{
    let ghost g = store.graph();
    let ghost t = set_of(targets@);
    let n = store.num_commits();
    let mut r: Vec<CommitId> = Vec::new();
    let mut x: usize = 0;
    while x < n
        invariant
            x <= n == store.len(),
            store.wf(),
            g == store.graph(),
            t == set_of(targets@),
            is_increasing(r@),
            forall|i: int| 0 <= i < r@.len() ==> (#[trigger] r@[i]).0 < x,
            forall|p: CommitId| #[trigger] set_of(r@).contains(p) <==> (p.0 < x && ext_parents(g, t).contains(p)),
        decreases n - x,
    {
        let p = CommitId(x as u64);
        let mut found = false;
        if !contains_id(targets, p) {
            let mut j: usize = 0;
            while j < targets.len()
                invariant
                    j <= targets@.len(),
                    store.wf(),
                    g == store.graph(),
                    t == set_of(targets@),
                    !t.contains(p),
                    found == exists|k: int| 0 <= k < j && #[trigger] is_root_of(g, t, targets@[k]) && is_parent(g, p, targets@[k]),
                decreases targets@.len() - j,
            {
                let tj = targets[j];
                assert(t.contains(tj));
                if is_root(store, targets, tj) && parent_of(store, p, tj) {
                    found = true;
                }
                j = j + 1;
            }
            proof {
                if found {
                    let k = choose|k: int| 0 <= k < j && #[trigger] is_root_of(g, t, targets@[k]) && is_parent(g, p, targets@[k]);
                    assert(ext_parents(g, t).contains(p));
                } else if ext_parents(g, t).contains(p) {
                    let rr = choose|rr: CommitId| #[trigger] is_root_of(g, t, rr) && is_parent(g, p, rr);
                    let k = choose|k: int| 0 <= k < targets@.len() && targets@[k] == rr;
                    assert(is_root_of(g, t, targets@[k]) && is_parent(g, p, targets@[k]));
                }
            }
        }
        let ghost before = r@;
        if found {
            r.push(p);
            proof {
                crate::backend::lemma_set_of_push(before, p);
            }
        }
        proof {
            assert forall|q: CommitId| #[trigger] set_of(r@).contains(q) <==> (q.0 < x + 1 && ext_parents(g, t).contains(q)) by {
                if q.0 == x {
                    assert(q == p);
                    if set_of(before).contains(q) {
                        let i = choose|i: int| 0 <= i < before.len() && before[i] == q;
                        assert(before[i].0 < x);
                    }
                }
            }
        }
        x = x + 1;
    }
    proof {
        assert forall|p: CommitId| #[trigger] ext_parents(g, t).contains(p) implies p.0 < n by {
            let rr = choose|rr: CommitId| #[trigger] is_root_of(g, t, rr) && is_parent(g, p, rr);
            store.lemma_wf();
            let k = choose|k: int| 0 <= k < g[rr.0 as int].len() && g[rr.0 as int][k] == p;
            assert(g[rr.0 as int][k].0 < rr.0);
        }
        assert(set_of(r@) =~= ext_parents(g, t));
    }
    r
}

/// Whether no target is an ancestor of another.
fn check_antichain(store: &Store, targets: &Vec<CommitId>) -> (r: bool)
    requires
        store.wf(),
    ensures
        r == is_antichain(store.graph(), set_of(targets@)),
{
    let ghost g = store.graph();
    let ghost t = set_of(targets@);
    let mut i: usize = 0;
    while i < targets.len()
        invariant
            i <= targets@.len(),
            store.wf(),
            g == store.graph(),
            t == set_of(targets@),
            forall|a: int, b: int| 0 <= a < i && 0 <= b < targets@.len() && targets@[a] != targets@[b]
                ==> !#[trigger] is_ancestor_spec(g, targets@[a], targets@[b]),
        decreases targets@.len() - i,
    {
        let mut j: usize = 0;
        while j < targets.len()
            invariant
                i < targets@.len(),
                j <= targets@.len(),
                store.wf(),
                g == store.graph(),
                t == set_of(targets@),
                forall|a: int, b: int| 0 <= a < i && 0 <= b < targets@.len() && targets@[a] != targets@[b]
                    ==> !#[trigger] is_ancestor_spec(g, targets@[a], targets@[b]),
                forall|b: int| 0 <= b < j && targets@[i as int] != targets@[b]
                    ==> !#[trigger] is_ancestor_spec(g, targets@[i as int], targets@[b]),
            decreases targets@.len() - j,
        {
            if targets[i] != targets[j] && store.is_ancestor(targets[i], targets[j]) {
                assert(targets@.contains(targets@[i as int]) && targets@.contains(targets@[j as int]));
                assert(t.contains(targets@[i as int]) && t.contains(targets@[j as int]));
                return false;
            }
            j = j + 1;
        }
        i = i + 1;
    }
    assert forall|a: CommitId, b: CommitId| t.contains(a) && t.contains(b) && a != b implies !#[trigger] is_ancestor_spec(g, a, b) by {
        let ia = choose|ia: int| 0 <= ia < targets@.len() && targets@[ia] == a;
        let ib = choose|ib: int| 0 <= ib < targets@.len() && targets@[ib] == b;
        assert(!is_ancestor_spec(g, targets@[ia], targets@[ib]));
    }
    true
}

/// Whether some external parent of a root descends from a target.
fn check_parents_descend(store: &Store, targets: &Vec<CommitId>, ext: &Vec<CommitId>) -> (r: bool)
    requires
        store.wf(),
        set_of(ext@) == ext_parents(store.graph(), set_of(targets@)),
    ensures
        r == parents_descend(store.graph(), set_of(targets@)),
{
    let ghost g = store.graph();
    let ghost t = set_of(targets@);
    let mut i: usize = 0;
    while i < ext.len()
        invariant
            i <= ext@.len(),
            store.wf(),
            g == store.graph(),
            t == set_of(targets@),
            set_of(ext@) == ext_parents(g, t),
            forall|a: int, b: int| 0 <= a < i && 0 <= b < targets@.len() ==> !#[trigger] is_ancestor_spec(g, targets@[b], ext@[a]),
        decreases ext@.len() - i,
    {
        let mut j: usize = 0;
        while j < targets.len()
            invariant
                i < ext@.len(),
                j <= targets@.len(),
                store.wf(),
                g == store.graph(),
                t == set_of(targets@),
                set_of(ext@) == ext_parents(g, t),
                forall|a: int, b: int| 0 <= a < i && 0 <= b < targets@.len() ==> !#[trigger] is_ancestor_spec(g, targets@[b], ext@[a]),
                forall|b: int| 0 <= b < j ==> !#[trigger] is_ancestor_spec(g, targets@[b], ext@[i as int]),
            decreases targets@.len() - j,
        {
            if store.is_ancestor(targets[j], ext[i]) {
                assert(ext@.contains(ext@[i as int]));
                assert(set_of(ext@).contains(ext@[i as int]));
                assert(targets@.contains(targets@[j as int]));
                assert(t.contains(targets@[j as int]));
                assert(ext_parents(g, t).contains(ext@[i as int]) && t.contains(targets@[j as int])
                    && is_ancestor_spec(g, targets@[j as int], ext@[i as int]));
                return true;
            }
            j = j + 1;
        }
        i = i + 1;
    }
    assert forall|p: CommitId, x: CommitId| ext_parents(g, t).contains(p) && t.contains(x) implies !#[trigger] is_ancestor_spec(g, x, p) by {
        assert(set_of(ext@).contains(p));
        let ia = choose|ia: int| 0 <= ia < ext@.len() && ext@[ia] == p;
        let ib = choose|ib: int| 0 <= ib < targets@.len() && targets@[ib] == x;
        assert(!is_ancestor_spec(g, targets@[ib], ext@[ia]));
    }
    false
}

/// The heads of the targets.
fn head_list(store: &Store, targets: &Vec<CommitId>) -> (r: Vec<CommitId>)
    requires
        store.wf(),
    ensures
        forall|x: CommitId| #[trigger] set_of(r@).contains(x) <==> is_head_of(store.graph(), set_of(targets@), x),
{
    let ghost g = store.graph();
    let ghost t = set_of(targets@);
    let mut r: Vec<CommitId> = Vec::new();
    let mut i: usize = 0;
    while i < targets.len()
        invariant
            i <= targets@.len(),
            store.wf(),
            g == store.graph(),
            t == set_of(targets@),
            forall|x: CommitId| #[trigger] set_of(r@).contains(x) <==> (targets@.subrange(0, i as int).contains(x) && is_head_of(g, t, x)),
        decreases targets@.len() - i,
    {
        let h = targets[i];
        let mut head = true;
        let mut j: usize = 0;
        while j < targets.len()
            invariant
                i < targets@.len(),
                h == targets@[i as int],
                j <= targets@.len(),
                store.wf(),
                g == store.graph(),
                t == set_of(targets@),
                head == forall|k: int| 0 <= k < j ==> !#[trigger] is_parent(g, h, targets@[k]),
            decreases targets@.len() - j,
        {
            if parent_of(store, h, targets[j]) {
                head = false;
            }
            j = j + 1;
        }
        proof {
            assert(targets@.contains(h));
            if head {
                assert forall|c: CommitId| #[trigger] t.contains(c) implies !is_parent(g, h, c) by {
                    let k = choose|k: int| 0 <= k < targets@.len() && targets@[k] == c;
                    assert(!is_parent(g, h, targets@[k]));
                }
            } else {
                let k = choose|k: int| 0 <= k < j && #[trigger] is_parent(g, h, targets@[k]);
                assert(targets@.contains(targets@[k]));
                assert(t.contains(targets@[k]));
            }
        }
        let ghost before = r@;
        if head {
            r.push(h);
            proof {
                crate::backend::lemma_set_of_push(before, h);
            }
        }
        proof {
            crate::backend::lemma_set_of_prefix(targets@, i as int);
            assert forall|x: CommitId| #[trigger] set_of(r@).contains(x) <==> (targets@.subrange(0, i + 1).contains(x) && is_head_of(g, t, x)) by {
                assert(set_of(targets@.subrange(0, i + 1)).contains(x) == targets@.subrange(0, i + 1).contains(x));
                assert(set_of(targets@.subrange(0, i as int)).contains(x) == targets@.subrange(0, i as int).contains(x));
            }
        }
        i = i + 1;
    }
    assert(targets@.subrange(0, i as int) == targets@);
    r
}

/// Whether the commit has a child outside the targets.
fn has_outside_child(store: &Store, targets: &Vec<CommitId>, h: CommitId) -> (r: bool)
    requires
        store.wf(),
    ensures
        r == exists|c: CommitId| !set_of(targets@).contains(c) && #[trigger] is_parent(store.graph(), h, c),
{
    let ghost g = store.graph();
    let ghost t = set_of(targets@);
    let n = store.num_commits();
    let mut x: usize = 0;
    while x < n
        invariant
            x <= n == store.len() == g.len(),
            store.wf(),
            g == store.graph(),
            t == set_of(targets@),
            forall|c: CommitId| c.0 < x && !t.contains(c) ==> !#[trigger] is_parent(g, h, c),
        decreases n - x,
    {
        let c = CommitId(x as u64);
        if !contains_id(targets, c) && parent_of(store, h, c) {
            return true;
        }
        x = x + 1;
    }
    proof {
        assert forall|c: CommitId| !t.contains(c) implies !#[trigger] is_parent(g, h, c) by {
            if c.0 >= n {
                assert(!is_parent(g, h, c));
            }
        }
    }
    false
}

/// Whether some commit of `hs` is a parent of `c` (`want`), or is not (`!want`).
fn some_parent_is(store: &Store, hs: &Vec<CommitId>, c: CommitId, want: bool) -> (r: bool)
    requires
        store.wf(),
    ensures
        r == exists|k: int| 0 <= k < hs@.len() && #[trigger] is_parent(store.graph(), hs@[k], c) == want,
{
    let mut k: usize = 0;
    while k < hs.len()
        invariant
            k <= hs@.len(),
            store.wf(),
            forall|a: int| 0 <= a < k ==> #[trigger] is_parent(store.graph(), hs@[a], c) != want,
        decreases hs@.len() - k,
    {
        if parent_of(store, hs[k], c) == want {
            return true;
        }
        k = k + 1;
    }
    false
}

/// Whether the heads of the targets that have children outside the targets
/// differ in those children.
pub fn check_heads_differ(store: &Store, targets: &Vec<CommitId>) -> (r: bool)
    requires
        store.wf(),
    ensures
        r == heads_differ(store.graph(), set_of(targets@)),
{
    let ghost g = store.graph();
    let ghost t = set_of(targets@);
    let hs = head_list(store, targets);
    let mut hc: Vec<CommitId> = Vec::new();
    let mut i: usize = 0;
    while i < hs.len()
        invariant
            i <= hs@.len(),
            store.wf(),
            g == store.graph(),
            t == set_of(targets@),
            forall|x: CommitId| #[trigger] set_of(hs@).contains(x) <==> is_head_of(g, t, x),
            forall|x: CommitId| #[trigger] set_of(hc@).contains(x) <==> (hs@.subrange(0, i as int).contains(x)
                && exists|c2: CommitId| !t.contains(c2) && #[trigger] is_parent(g, x, c2)),
        decreases hs@.len() - i,
    {
        let h = hs[i];
        let ghost before = hc@;
        if has_outside_child(store, targets, h) {
            hc.push(h);
            proof {
                crate::backend::lemma_set_of_push(before, h);
            }
        }
        proof {
            crate::backend::lemma_set_of_prefix(hs@, i as int);
            assert forall|x: CommitId| #[trigger] set_of(hc@).contains(x) <==> (hs@.subrange(0, i + 1).contains(x)
                && exists|c2: CommitId| !t.contains(c2) && #[trigger] is_parent(g, x, c2)) by {
                assert(set_of(hs@.subrange(0, i + 1)).contains(x) == hs@.subrange(0, i + 1).contains(x));
                assert(set_of(hs@.subrange(0, i as int)).contains(x) == hs@.subrange(0, i as int).contains(x));
            }
        }
        i = i + 1;
    }
    assert(hs@.subrange(0, i as int) == hs@);
    let n = store.num_commits();
    let mut x: usize = 0;
    while x < n
        invariant
            x <= n == store.len() == g.len(),
            store.wf(),
            g == store.graph(),
            t == set_of(targets@),
            forall|y: CommitId| #[trigger] set_of(hs@).contains(y) <==> is_head_of(g, t, y),
            forall|y: CommitId| #[trigger] set_of(hc@).contains(y) <==> (set_of(hs@).contains(y)
                && exists|c2: CommitId| !t.contains(c2) && #[trigger] is_parent(g, y, c2)),
            forall|h1: CommitId, h2: CommitId, c: CommitId| c.0 < x && set_of(hs@).contains(h1) && set_of(hc@).contains(h2)
                && !t.contains(c) && #[trigger] is_parent(g, h1, c) ==> #[trigger] is_parent(g, h2, c),
        decreases n - x,
    {
        let c = CommitId(x as u64);
        if !contains_id(targets, c) && some_parent_is(store, &hs, c, true) && some_parent_is(store, &hc, c, false) {
            proof {
                let a = choose|a: int| 0 <= a < hs@.len() && #[trigger] is_parent(g, hs@[a], c) == true;
                let b = choose|b: int| 0 <= b < hc@.len() && #[trigger] is_parent(g, hc@[b], c) == false;
                assert(set_of(hs@).contains(hs@[a]));
                assert(set_of(hc@).contains(hc@[b]));
                let c2 = choose|c2: CommitId| !t.contains(c2) && #[trigger] is_parent(g, hc@[b], c2);
                assert(is_head_of(g, t, hs@[a]) && is_head_of(g, t, hc@[b])
                    && !t.contains(c) && is_parent(g, hs@[a], c) && !is_parent(g, hc@[b], c)
                    && !t.contains(c2) && is_parent(g, hc@[b], c2));
            }
            return true;
        }
        proof {
            assert forall|h1: CommitId, h2: CommitId, cc: CommitId| cc.0 < x + 1 && set_of(hs@).contains(h1) && set_of(hc@).contains(h2)
                && !t.contains(cc) && #[trigger] is_parent(g, h1, cc) implies #[trigger] is_parent(g, h2, cc) by {
                if cc.0 == x {
                    assert(cc == c);
                    let a = choose|a: int| 0 <= a < hs@.len() && hs@[a] == h1;
                    let b = choose|b: int| 0 <= b < hc@.len() && hc@[b] == h2;
                    assert(is_parent(g, hs@[a], c) == true);
                    assert(is_parent(g, hc@[b], c) != false);
                }
            }
        }
        x = x + 1;
    }
    proof {
        if heads_differ(g, t) {
            let (h1, h2, c, c2) = choose|h1: CommitId, h2: CommitId, c: CommitId, c2: CommitId|
                is_head_of(g, t, h1) && is_head_of(g, t, h2)
                && !t.contains(c) && #[trigger] is_parent(g, h1, c) && !is_parent(g, h2, c)
                && !t.contains(c2) && #[trigger] is_parent(g, h2, c2);
            assert(set_of(hs@).contains(h1));
            assert(set_of(hc@).contains(h2));
            assert(c.0 < n);
        }
    }
    false
}

/// What stands for `t` after the rewrites `pairs`: the last commit it was
/// rewritten into, or itself.
pub open spec fn stand_in(pairs: Seq<(CommitId, CommitId)>, t: CommitId) -> CommitId
    decreases pairs.len(),
{
    if pairs.len() == 0 {
        t
    } else if pairs.last().0 == t {
        pairs.last().1
    } else {
        stand_in(pairs.drop_last(), t)
    }
}

/// The commit `n` is the target `t` moved onto the parents `ext`.
pub open spec fn target_pair_ok(s: Store, s0: Store, ext: Seq<CommitId>, t: CommitId, n: CommitId) -> bool {
    &&& s0.len() <= n.0 < s.len()
    &&& s.graph()[n.0 as int] == ext
    &&& t.0 < s0.len()
    &&& is_rebased_copy(s.commit_at(n.0 as int), s0.commit_at(t.0 as int), t)
}

/// Each pair rewrites a target, in increasing order of targets; the first
/// commits of the store are those of `s0`.
pub open spec fn phase_one_ok(s: Store, s0: Store, t: Set<CommitId>, ext: Seq<CommitId>, pairs: Seq<(CommitId, CommitId)>) -> bool {
    &&& s0.len() <= s.len()
    &&& s.graph().subrange(0, s0.len() as int) == s0.graph()
    &&& forall|i: int| 0 <= i < s0.len() ==> #[trigger] s.commit_at(i) == s0.commit_at(i)
    &&& forall|k: int| 0 <= k < pairs.len() ==> t.contains(#[trigger] pairs[k].0)
        && target_pair_ok(s, s0, ext, pairs[k].0, pairs[k].1)
    &&& forall|a: int, b: int| 0 <= a < b < pairs.len() ==> (#[trigger] pairs[a]).0.0 < (#[trigger] pairs[b]).0.0
}

/// Moves each target whose parents are not `ext` onto `ext`; returns the rewrites.
fn rewrite_targets(store: &mut Store, targets: &Vec<CommitId>, ext: &Vec<CommitId>) -> (pairs: Vec<(CommitId, CommitId)>)
    requires
        old(store).wf(),
        2 * old(store).len() + 2 < u64::MAX,
        forall|k: int| 0 <= k < ext@.len() ==> old(store).has(#[trigger] ext@[k]),
    ensures
        final(store).wf(),
        final(store).len() <= 2 * old(store).len(),
        phase_one_ok(*final(store), *old(store), set_of(targets@), ext@, pairs@),
        forall|t: CommitId| #[trigger] set_of(targets@).contains(t) && t.0 < old(store).len() ==>
            (exists|k: int| 0 <= k < pairs@.len() && pairs@[k].0 == t) || old(store).graph()[t.0 as int] == ext@,
{
    let ghost s0 = *store;
    let ghost tset = set_of(targets@);
    let n0 = store.num_commits();
    let mut pairs: Vec<(CommitId, CommitId)> = Vec::new();
    assert(store.graph().subrange(0, s0.len() as int) =~= s0.graph());
    let mut x: usize = 0;
    while x < n0
        invariant
            x <= n0 == s0.len(),
            2 * s0.len() + 2 < u64::MAX,
            store.wf(),
            store.len() <= s0.len() + x,
            tset == set_of(targets@),
            forall|k: int| 0 <= k < ext@.len() ==> s0.has(#[trigger] ext@[k]),
            phase_one_ok(*store, s0, tset, ext@, pairs@),
            forall|k: int| 0 <= k < pairs@.len() ==> (#[trigger] pairs@[k]).0.0 < x,
            forall|t: CommitId| #[trigger] tset.contains(t) && t.0 < x ==>
                (exists|k: int| 0 <= k < pairs@.len() && pairs@[k].0 == t) || s0.graph()[t.0 as int] == ext@,
        decreases n0 - x,
    {
        let c = CommitId(x as u64);
        proof {
            s0.lemma_graph();
            store.lemma_graph();
            assert(store.graph()[x as int] == s0.graph()[x as int]);
        }
        if contains_id(targets, c) {
            let old_commit = store.get_commit(c);
            if !ids_equal(&old_commit.parents, ext) {
                let mut preds: Vec<CommitId> = Vec::new();
                preds.push(c);
                let new_commit = Commit {
                    parents: copy_ids(ext),
                    predecessors: preds,
                    root_tree: old_commit.root_tree,
                    change_id: old_commit.change_id,
                    description: old_commit.description.clone(),
                    is_open: old_commit.is_open,
                };
                assert(new_commit.predecessors@ =~= seq![c]);
                let ghost sb = *store;
                let nid = store.write_commit(new_commit);
                let ghost before = pairs@;
                pairs.push((c, nid));
                proof {
                    assert(store.graph().subrange(0, s0.len() as int) =~= s0.graph()) by {
                        assert(store.graph().subrange(0, s0.len() as int) =~= sb.graph().subrange(0, s0.len() as int));
                    }
                    assert forall|k: int| 0 <= k < pairs@.len() implies tset.contains(#[trigger] pairs@[k].0)
                        && target_pair_ok(*store, s0, ext@, pairs@[k].0, pairs@[k].1) by {
                        if k < before.len() {
                            assert(pairs@[k] == before[k]);
                            assert(sb.graph()[pairs@[k].1.0 as int] == store.graph()[pairs@[k].1.0 as int]);
                        }
                    }
                    assert forall|t: CommitId| #[trigger] tset.contains(t) && t.0 < x + 1 implies
                        (exists|k: int| 0 <= k < pairs@.len() && pairs@[k].0 == t) || s0.graph()[t.0 as int] == ext@ by {
                        if t.0 == x {
                            assert(pairs@[before.len() as int].0 == t);
                        } else if exists|k: int| 0 <= k < before.len() && before[k].0 == t {
                            let k = choose|k: int| 0 <= k < before.len() && before[k].0 == t;
                            assert(pairs@[k].0 == t);
                        }
                    }
                }
            } else {
                proof {
                    assert forall|t: CommitId| #[trigger] tset.contains(t) && t.0 < x + 1 implies
                        (exists|k: int| 0 <= k < pairs@.len() && pairs@[k].0 == t) || s0.graph()[t.0 as int] == ext@ by {
                        if t.0 == x {
                            assert(t == c);
                        }
                    }
                }
            }
        } else {
            proof {
                assert forall|t: CommitId| #[trigger] tset.contains(t) && t.0 < x + 1 implies
                    (exists|k: int| 0 <= k < pairs@.len() && pairs@[k].0 == t) || s0.graph()[t.0 as int] == ext@ by {
                    if t.0 == x {
                        assert(t == c);
                        assert(targets@.contains(t));
                    }
                }
            }
        }
        x = x + 1;
    }
    pairs
}

/// What stands for `t` after the rewrites `pairs`.
fn stand_in_of(pairs: &Vec<(CommitId, CommitId)>, t: CommitId) -> (r: CommitId)
    ensures
        r == stand_in(pairs@, t),
{
    let mut r = t;
    let mut i: usize = 0;
    while i < pairs.len()
        invariant
            i <= pairs@.len(),
            r == stand_in(pairs@.subrange(0, i as int), t),
        decreases pairs@.len() - i,
    {
        assert(pairs@.subrange(0, i + 1).drop_last() == pairs@.subrange(0, i as int));
        if pairs[i].0 == t {
            r = pairs[i].1;
        }
        i = i + 1;
    }
    assert(pairs@.subrange(0, i as int) == pairs@);
    r
}

/// The parents a child `c` of the targets gets: what stands for each target
/// that is an ancestor of it, and its parents that are not targets.
pub open spec fn child_set(g: Seq<Seq<CommitId>>, n0: int, t: Set<CommitId>, pairs: Seq<(CommitId, CommitId)>, c: CommitId) -> Set<CommitId> {
    Set::new(|x: CommitId|
        (exists|y: CommitId| #[trigger] t.contains(y) && y.0 < n0 && is_ancestor_spec(g, y, c) && x == stand_in(pairs, y))
        || (is_parent(g, x, c) && !t.contains(x)))
}

/// `c` is not a target and has a target as a parent.
pub open spec fn is_child_of_targets(g: Seq<Seq<CommitId>>, t: Set<CommitId>, c: CommitId) -> bool {
    !t.contains(c) && exists|p: CommitId| #[trigger] is_parent(g, p, c) && t.contains(p)
}

/// The parents a child `c` of the targets gets, as a list.
fn child_parent_list(store: &Store, targets: &Vec<CommitId>, pairs: &Vec<(CommitId, CommitId)>, n0: usize, c: CommitId) -> (r: Vec<CommitId>)
    requires
        store.wf(),
        n0 <= store.len(),
        c.0 < n0,
    ensures
        set_of(r@) == child_set(store.graph(), n0 as int, set_of(targets@), pairs@, c),
{
    let ghost g = store.graph();
    let ghost t = set_of(targets@);
    let mut r: Vec<CommitId> = Vec::new();
    let mut y: usize = 0;
    while y < n0
        invariant
            y <= n0 <= store.len(),
            store.wf(),
            g == store.graph(),
            t == set_of(targets@),
            forall|x: CommitId| #[trigger] set_of(r@).contains(x) <==>
                exists|z: CommitId| #[trigger] t.contains(z) && z.0 < y && is_ancestor_spec(g, z, c) && x == stand_in(pairs@, z),
        decreases n0 - y,
    {
        let z = CommitId(y as u64);
        let ghost before = r@;
        let ghost mut added = false;
        if contains_id(targets, z) && store.is_ancestor(z, c) {
            let si = stand_in_of(pairs, z);
            r.push(si);
            proof {
                crate::backend::lemma_set_of_push(before, si);
                added = true;
                assert(targets@.contains(z));
            }
        }
        proof {
            if !added {
                assert(r@ == before);
            }
            assert forall|x: CommitId| #[trigger] set_of(r@).contains(x) <==>
                exists|w: CommitId| #[trigger] t.contains(w) && w.0 < y + 1 && is_ancestor_spec(g, w, c) && x == stand_in(pairs@, w) by {
                if set_of(before).contains(x) {
                    let w = choose|w: CommitId| #[trigger] t.contains(w) && w.0 < y && is_ancestor_spec(g, w, c) && x == stand_in(pairs@, w);
                    assert(t.contains(w) && w.0 < y + 1 && is_ancestor_spec(g, w, c) && x == stand_in(pairs@, w));
                } else if set_of(r@).contains(x) {
                    assert(added);
                    assert(t.contains(z) && z.0 < y + 1 && is_ancestor_spec(g, z, c) && x == stand_in(pairs@, z));
                }
                if exists|w: CommitId| #[trigger] t.contains(w) && w.0 < y + 1 && is_ancestor_spec(g, w, c) && x == stand_in(pairs@, w) {
                    let w = choose|w: CommitId| #[trigger] t.contains(w) && w.0 < y + 1 && is_ancestor_spec(g, w, c) && x == stand_in(pairs@, w);
                    if w.0 == y {
                        assert(w == z);
                        assert(targets@.contains(w));
                    } else {
                        assert(set_of(before).contains(x));
                    }
                }
            }
        }
        y = y + 1;
    }
    proof {
        store.lemma_graph();
    }
    let ps = &store.get_commit(c).parents;
    let ghost first = set_of(r@);
    let mut k: usize = 0;
    while k < ps.len()
        invariant
            k <= ps@.len(),
            ps@ == g[c.0 as int],
            (c.0 as int) < g.len(),
            t == set_of(targets@),
            forall|x: CommitId| #[trigger] set_of(r@).contains(x) <==>
                (first.contains(x) || (ps@.subrange(0, k as int).contains(x) && !t.contains(x))),
        decreases ps@.len() - k,
    {
        let p = ps[k];
        let ghost before = r@;
        if !contains_id(targets, p) {
            r.push(p);
            proof {
                crate::backend::lemma_set_of_push(before, p);
            }
        }
        proof {
            crate::backend::lemma_set_of_prefix(ps@, k as int);
            assert forall|x: CommitId| #[trigger] set_of(r@).contains(x) <==>
                (first.contains(x) || (ps@.subrange(0, k + 1).contains(x) && !t.contains(x))) by {
                assert(set_of(ps@.subrange(0, k + 1)).contains(x) == ps@.subrange(0, k + 1).contains(x));
                assert(set_of(ps@.subrange(0, k as int)).contains(x) == ps@.subrange(0, k as int).contains(x));
            }
        }
        k = k + 1;
    }
    proof {
        assert(ps@.subrange(0, k as int) == ps@);
        assert forall|x: CommitId| set_of(r@).contains(x) == child_set(g, n0 as int, t, pairs@, c).contains(x) by {
            if first.contains(x) {
                let w = choose|w: CommitId| #[trigger] t.contains(w) && w.0 < n0 && is_ancestor_spec(g, w, c) && x == stand_in(pairs@, w);
            }
            if exists|w: CommitId| #[trigger] t.contains(w) && w.0 < n0 && is_ancestor_spec(g, w, c) && x == stand_in(pairs@, w) {
                let w = choose|w: CommitId| #[trigger] t.contains(w) && w.0 < n0 && is_ancestor_spec(g, w, c) && x == stand_in(pairs@, w);
                assert(first.contains(x));
            }
        }
        assert(set_of(r@) =~= child_set(g, n0 as int, t, pairs@, c));
    }
    r
}

/// Every rewrite in `pairs` yields a commit below `n`.
pub open spec fn pairs_below(pairs: Seq<(CommitId, CommitId)>, n: int) -> bool {
    forall|k: int| 0 <= k < pairs.len() ==> (#[trigger] pairs[k]).1.0 < n
}

proof fn lemma_stand_in_below(pairs: Seq<(CommitId, CommitId)>, y: CommitId, n: int)
    requires
        pairs_below(pairs, n),
        y.0 < n,
    ensures
        stand_in(pairs, y).0 < n,
    decreases pairs.len(),
{
    if pairs.len() > 0 && pairs.last().0 != y {
        assert(pairs_below(pairs.drop_last(), n)) by {
            assert forall|k: int| 0 <= k < pairs.drop_last().len() implies (#[trigger] pairs.drop_last()[k]).1.0 < n by {
                assert(pairs.drop_last()[k] == pairs[k]);
            }
        }
        lemma_stand_in_below(pairs.drop_last(), y, n);
    }
}

/// The parents a child of the targets gets do not change as commits are
/// appended, and are all below the first store's size.
proof fn lemma_child_set_extend(sa: Store, sb: Store, n0: int, t: Set<CommitId>, p1: Seq<(CommitId, CommitId)>, c: CommitId)
    requires
        sa.wf(),
        sa.len() <= sb.len(),
        sb.graph().subrange(0, sa.len() as int) == sa.graph(),
        0 <= c.0 < n0 <= sa.len(),
        pairs_below(p1, sa.len() as int),
    ensures
        child_set(sa.graph(), n0, t, p1, c) == child_set(sb.graph(), n0, t, p1, c),
        forall|x: CommitId| #[trigger] child_set(sa.graph(), n0, t, p1, c).contains(x) ==> x.0 < sa.len(),
        heads_of(sa.graph(), child_set(sa.graph(), n0, t, p1, c)) == heads_of(sb.graph(), child_set(sa.graph(), n0, t, p1, c)),
{
    let ga = sa.graph();
    let gb = sb.graph();
    sa.lemma_wf();
    assert(gb[c.0 as int] == ga[c.0 as int]);
    assert forall|y: CommitId| y.0 < n0 implies #[trigger] is_ancestor_spec(ga, y, c) == is_ancestor_spec(gb, y, c) by {
        crate::index::lemma_reaches_prefix(ga, gb, c.0 as int, y.0 as int);
    }
    assert(child_set(ga, n0, t, p1, c) =~= child_set(gb, n0, t, p1, c));
    assert forall|x: CommitId| #[trigger] child_set(ga, n0, t, p1, c).contains(x) implies x.0 < sa.len() by {
        if is_parent(ga, x, c) && !t.contains(x) {
            let k = choose|k: int| 0 <= k < ga[c.0 as int].len() && ga[c.0 as int][k] == x;
            assert(ga[c.0 as int][k].0 < c.0);
        } else {
            let y = choose|y: CommitId| #[trigger] t.contains(y) && y.0 < n0 && is_ancestor_spec(ga, y, c) && x == stand_in(p1, y);
            lemma_stand_in_below(p1, y, sa.len() as int);
        }
    }
    crate::index::lemma_heads_prefix(ga, gb, child_set(ga, n0, t, p1, c));
}

/// The commit `n` is the child `c` of the targets moved onto the heads of
/// its new parents.
pub open spec fn child_pair_ok(s: Store, n0: int, t: Set<CommitId>, p1: Seq<(CommitId, CommitId)>, c: CommitId, n: CommitId) -> bool {
    &&& n0 <= n.0 < s.len()
    &&& c.0 < n0
    &&& is_child_of_targets(s.graph(), t, c)
    &&& s.graph()[n.0 as int].no_duplicates()
    &&& set_of(s.graph()[n.0 as int]) == heads_of(s.graph(), child_set(s.graph(), n0, t, p1, c))
    &&& is_rebased_copy(s.commit_at(n.0 as int), s.commit_at(c.0 as int), c)
}

/// The child `c` of the targets already has the parents it should get.
pub open spec fn child_kept_ok(s: Store, n0: int, t: Set<CommitId>, p1: Seq<(CommitId, CommitId)>, c: CommitId) -> bool {
    &&& s.graph()[c.0 as int].no_duplicates()
    &&& set_of(s.graph()[c.0 as int]) == heads_of(s.graph(), child_set(s.graph(), n0, t, p1, c))
}

proof fn lemma_child_pair_extend(sa: Store, sb: Store, n0: int, t: Set<CommitId>, p1: Seq<(CommitId, CommitId)>, c: CommitId, n: CommitId)
    requires
        sa.wf(),
        sa.len() <= sb.len(),
        sb.graph().subrange(0, sa.len() as int) == sa.graph(),
        forall|i: int| 0 <= i < sa.len() ==> #[trigger] sb.commit_at(i) == sa.commit_at(i),
        n0 <= sa.len(),
        pairs_below(p1, sa.len() as int),
        child_pair_ok(sa, n0, t, p1, c, n),
    ensures
        child_pair_ok(sb, n0, t, p1, c, n),
{
    lemma_child_set_extend(sa, sb, n0, t, p1, c);
    assert(sb.graph()[n.0 as int] == sa.graph()[n.0 as int]);
    assert(sb.graph()[c.0 as int] == sa.graph()[c.0 as int]);
    let p = choose|p: CommitId| #[trigger] is_parent(sa.graph(), p, c) && t.contains(p);
    assert(is_parent(sb.graph(), p, c));
    assert(sb.commit_at(n.0 as int) == sa.commit_at(n.0 as int));
    assert(sb.commit_at(c.0 as int) == sa.commit_at(c.0 as int));
}

proof fn lemma_child_kept_extend(sa: Store, sb: Store, n0: int, t: Set<CommitId>, p1: Seq<(CommitId, CommitId)>, c: CommitId)
    requires
        sa.wf(),
        sa.len() <= sb.len(),
        sb.graph().subrange(0, sa.len() as int) == sa.graph(),
        0 <= c.0 < n0 <= sa.len(),
        pairs_below(p1, sa.len() as int),
        child_kept_ok(sa, n0, t, p1, c),
    ensures
        child_kept_ok(sb, n0, t, p1, c),
{
    lemma_child_set_extend(sa, sb, n0, t, p1, c);
    assert(sb.graph()[c.0 as int] == sa.graph()[c.0 as int]);
}

/// Moves each child of the targets onto the heads of its new parents, where
/// they differ from its parents; returns the rewrites.
fn rewrite_children(store: &mut Store, targets: &Vec<CommitId>, p1: &Vec<(CommitId, CommitId)>, n0: usize) -> (p2: Vec<(CommitId, CommitId)>)
    requires
        old(store).wf(),
        n0 <= old(store).len(),
        old(store).len() + n0 + 2 < u64::MAX,
        pairs_below(p1@, old(store).len() as int),
    ensures
        final(store).wf(),
        old(store).len() <= final(store).len() <= old(store).len() + n0,
        final(store).graph().subrange(0, old(store).len() as int) == old(store).graph(),
        forall|i: int| 0 <= i < old(store).len() ==> #[trigger] final(store).commit_at(i) == old(store).commit_at(i),
        forall|k: int| 0 <= k < p2@.len() ==>
            #[trigger] child_pair_ok(*final(store), n0 as int, set_of(targets@), p1@, p2@[k].0, p2@[k].1),
        forall|a: int, b: int| 0 <= a < b < p2@.len() ==> (#[trigger] p2@[a]).0.0 < (#[trigger] p2@[b]).0.0,
        forall|c: CommitId| c.0 < n0 && #[trigger] is_child_of_targets(final(store).graph(), set_of(targets@), c) ==>
            (exists|k: int| 0 <= k < p2@.len() && p2@[k].0 == c) || child_kept_ok(*final(store), n0 as int, set_of(targets@), p1@, c),
{
    let ghost s0 = *store;
    let ghost t = set_of(targets@);
    let mut p2: Vec<(CommitId, CommitId)> = Vec::new();
    assert(store.graph().subrange(0, s0.len() as int) =~= s0.graph());
    let mut x: usize = 0;
    while x < n0
        invariant
            x <= n0 <= s0.len(),
            s0.len() + n0 + 2 < u64::MAX,
            pairs_below(p1@, s0.len() as int),
            t == set_of(targets@),
            store.wf(),
            s0.wf(),
            s0.len() <= store.len() <= s0.len() + x,
            store.graph().subrange(0, s0.len() as int) == s0.graph(),
            forall|i: int| 0 <= i < s0.len() ==> #[trigger] store.commit_at(i) == s0.commit_at(i),
            forall|k: int| 0 <= k < p2@.len() ==>
                #[trigger] child_pair_ok(*store, n0 as int, t, p1@, p2@[k].0, p2@[k].1),
            forall|k: int| 0 <= k < p2@.len() ==> (#[trigger] p2@[k]).0.0 < x,
            forall|a: int, b: int| 0 <= a < b < p2@.len() ==> (#[trigger] p2@[a]).0.0 < (#[trigger] p2@[b]).0.0,
            forall|c: CommitId| c.0 < x && #[trigger] is_child_of_targets(store.graph(), t, c) ==>
                (exists|k: int| 0 <= k < p2@.len() && p2@[k].0 == c) || child_kept_ok(*store, n0 as int, t, p1@, c),
        decreases n0 - x,
    {
        let c = CommitId(x as u64);
        let ghost sb = *store;
        let ghost p2_start = p2@;
        let ghost mut kept = false;
        proof {
            store.lemma_wf();
        }
        let is_child = !contains_id(targets, c) && some_parent_is(store, targets, c, true);
        proof {
            if is_child {
                let k = choose|k: int| 0 <= k < targets@.len() && #[trigger] is_parent(store.graph(), targets@[k], c) == true;
                assert(targets@.contains(targets@[k]));
                assert(is_child_of_targets(store.graph(), t, c));
            } else if is_child_of_targets(store.graph(), t, c) {
                let p = choose|p: CommitId| #[trigger] is_parent(store.graph(), p, c) && t.contains(p);
                let k = choose|k: int| 0 <= k < targets@.len() && targets@[k] == p;
                assert(is_parent(store.graph(), targets@[k], c) == true);
            }
        }
        if is_child {
            let list = child_parent_list(store, targets, p1, n0, c);
            let l = store.heads(&list);
            proof {
                store.lemma_graph();
                assert(store.graph().subrange(0, store.len() as int) =~= store.graph());
                assert(pairs_below(p1@, store.len() as int)) by {
                    assert forall|k: int| 0 <= k < p1@.len() implies (#[trigger] p1@[k]).1.0 < store.len() by {
                        assert(p1@[k].1.0 < s0.len());
                    }
                }
                lemma_child_set_extend(*store, *store, n0 as int, t, p1@, c);
            }
            let old_commit = store.get_commit(c);
            if ids_equal(&l, &old_commit.parents) {
                proof {
                    assert(child_kept_ok(*store, n0 as int, t, p1@, c));
                    kept = true;
                }
            } else {
                let mut preds: Vec<CommitId> = Vec::new();
                preds.push(c);
                let ghost lv = l@;
                let new_commit = Commit {
                    parents: l,
                    predecessors: preds,
                    root_tree: old_commit.root_tree,
                    change_id: old_commit.change_id,
                    description: old_commit.description.clone(),
                    is_open: old_commit.is_open,
                };
                assert(new_commit.predecessors@ =~= seq![c]);
                proof {
                    crate::index::lemma_heads_subset(store.graph(), set_of(list@));
                    assert forall|k: int| 0 <= k < new_commit.parents@.len() implies store.has(#[trigger] new_commit.parents@[k]) by {
                        assert(set_of(lv).contains(lv[k]));
                    }
                }
                let nid = store.write_commit(new_commit);
                let ghost before = p2@;
                p2.push((c, nid));
                proof {
                    let sa = *store;
                    assert(sa.graph().subrange(0, sb.len() as int) == sb.graph());
                    lemma_child_set_extend(sb, sa, n0 as int, t, p1@, c);
                    assert(sa.graph()[nid.0 as int] == lv);
                    assert(sa.graph()[c.0 as int] == sb.graph()[c.0 as int]);
                    let p = choose|p: CommitId| #[trigger] is_parent(sb.graph(), p, c) && t.contains(p);
                    assert(is_parent(sa.graph(), p, c));
                    assert(is_child_of_targets(sa.graph(), t, c));
                    assert(sa.commit_at(c.0 as int) == sb.commit_at(c.0 as int));
                    assert(child_pair_ok(sa, n0 as int, t, p1@, c, nid));
                }
            }
        }
        proof {
            let sa = *store;
            if sa.len() > sb.len() {
                assert(sa.graph().subrange(0, sb.len() as int) == sb.graph());
            } else {
                assert(sa == sb);
                assert(sa.graph().subrange(0, sb.len() as int) =~= sb.graph());
            }
            assert(sa.graph().subrange(0, s0.len() as int) =~= s0.graph()) by {
                assert(sa.graph().subrange(0, s0.len() as int) =~= sb.graph().subrange(0, s0.len() as int));
            }
            assert(pairs_below(p1@, sb.len() as int));
            assert forall|k: int| 0 <= k < p2@.len() implies
                #[trigger] child_pair_ok(sa, n0 as int, t, p1@, p2@[k].0, p2@[k].1) by {
                if k < p2@.len() - 1 || sa.len() == sb.len() {
                    if !(sa.len() == sb.len() && k == p2@.len() - 1 && p2@.len() > 0 && p2@[k].0 == c) {
                        lemma_child_pair_extend(sb, sa, n0 as int, t, p1@, p2@[k].0, p2@[k].1);
                    }
                }
            }
            assert forall|cc: CommitId| cc.0 < x + 1 && #[trigger] is_child_of_targets(sa.graph(), t, cc) implies
                (exists|k: int| 0 <= k < p2@.len() && p2@[k].0 == cc) || child_kept_ok(sa, n0 as int, t, p1@, cc) by {
                assert(sa.graph()[cc.0 as int] == sb.graph()[cc.0 as int]);
                assert forall|p: CommitId| #[trigger] is_parent(sa.graph(), p, cc) == is_parent(sb.graph(), p, cc) by {}
                assert(is_child_of_targets(sb.graph(), t, cc)) by {
                    let p = choose|p: CommitId| #[trigger] is_parent(sa.graph(), p, cc) && t.contains(p);
                    assert(is_parent(sb.graph(), p, cc));
                }
                if cc.0 < x {
                    if child_kept_ok(sb, n0 as int, t, p1@, cc) {
                        lemma_child_kept_extend(sb, sa, n0 as int, t, p1@, cc);
                    } else {
                        let k = choose|k: int| 0 <= k < p2_start.len() && p2_start[k].0 == cc;
                        assert(p2@[k] == p2_start[k]);
                    }
                } else {
                    assert(cc == c);
                    if sa.len() > sb.len() {
                        assert(p2@[p2@.len() - 1].0 == cc);
                    } else {
                        assert(kept);
                    }
                }
            }
        }
        x = x + 1;
    }
    p2
}

proof fn lemma_stand_in_concat(p1: Seq<(CommitId, CommitId)>, p2: Seq<(CommitId, CommitId)>, y: CommitId)
    requires
        forall|k: int| 0 <= k < p2.len() ==> (#[trigger] p2[k]).0 != y,
    ensures
        stand_in(p1 + p2, y) == stand_in(p1, y),
    decreases p2.len(),
{
    if p2.len() == 0 {
        assert(p1 + p2 == p1);
    } else {
        assert((p1 + p2).drop_last() == p1 + p2.drop_last());
        assert(p2.last() == p2[p2.len() - 1]);
        assert forall|k: int| 0 <= k < p2.drop_last().len() implies (#[trigger] p2.drop_last()[k]).0 != y by {
            assert(p2.drop_last()[k] == p2[k]);
        }
        lemma_stand_in_concat(p1, p2.drop_last(), y);
    }
}

proof fn lemma_child_set_pairs(g: Seq<Seq<CommitId>>, n0: int, t: Set<CommitId>, p1: Seq<(CommitId, CommitId)>, p2: Seq<(CommitId, CommitId)>, c: CommitId)
    requires
        forall|k: int| 0 <= k < p2.len() ==> !t.contains(#[trigger] p2[k].0),
    ensures
        child_set(g, n0, t, p1 + p2, c) == child_set(g, n0, t, p1, c),
{
    assert forall|y: CommitId| #[trigger] t.contains(y) implies stand_in(p1 + p2, y) == stand_in(p1, y) by {
        assert forall|k: int| 0 <= k < p2.len() implies (#[trigger] p2[k]).0 != y by {
            assert(!t.contains(p2[k].0));
        }
        lemma_stand_in_concat(p1, p2, y);
    }
    assert(child_set(g, n0, t, p1 + p2, c) =~= child_set(g, n0, t, p1, c));
}

/// What parallelizing the targets `t` of the store `s0` did, with the
/// rewrites `pairs`: each target now stands on the external parents of the
/// roots, in increasing order; each child of the targets on the heads of what
/// stands for its target ancestors and its other parents.
pub open spec fn parallelized(s0: Store, s1: Store, t: Set<CommitId>, pairs: Seq<(CommitId, CommitId)>) -> bool {
    let g0 = s0.graph();
    let n0 = s0.len() as int;
    let ext = ext_parents(g0, t);
    &&& forall|x: CommitId| #[trigger] t.contains(x) && x.0 < n0 ==>
        (exists|k: int| 0 <= k < pairs.len() && pairs[k].0 == x) || (set_of(g0[x.0 as int]) == ext && is_increasing(g0[x.0 as int]))
    &&& forall|k: int| 0 <= k < pairs.len() && t.contains(#[trigger] pairs[k].0) ==> {
        let n = pairs[k].1;
        &&& n0 <= n.0 < s1.len()
        &&& set_of(s1.graph()[n.0 as int]) == ext
        &&& is_increasing(s1.graph()[n.0 as int])
        &&& is_rebased_copy(s1.commit_at(n.0 as int), s0.commit_at(pairs[k].0.0 as int), pairs[k].0)
    }
    &&& forall|k: int| 0 <= k < pairs.len() && !t.contains(#[trigger] pairs[k].0) ==>
        child_pair_ok(s1, n0, t, pairs, pairs[k].0, pairs[k].1)
    &&& forall|c: CommitId| c.0 < n0 && #[trigger] is_child_of_targets(g0, t, c) ==>
        (exists|k: int| 0 <= k < pairs.len() && pairs[k].0 == c) || child_kept_ok(s1, n0, t, pairs, c)
}

impl MutableRepo {
    /// Parallelizes the targets: each becomes a sibling of the others on the
    /// parents of the targets' roots that are not targets, each child of a
    /// target moves onto what stands for its target ancestors and its other
    /// parents, and their descendants are rebased. Returns the rewrites of
    /// targets and children; none where the targets are disconnected, which
    /// changes nothing.
    pub fn parallelize(&mut self, store: &mut Store, targets: &Vec<CommitId>) -> (r: Result<Vec<(CommitId, CommitId)>, ParallelizeError>)
        requires
            old(self).wf(),
            old(store).wf(),
            8 * old(store).len() + old(self).view_model().checkouts.dom().len() + 8 < u64::MAX,
            forall|k: int| 0 <= k < targets@.len() ==> old(store).has(#[trigger] targets@[k]),
            forall|k: int| 0 <= k < old(self).rewritten_spec().len() ==> old(store).has(#[trigger] old(self).rewritten_spec()[k].1),
        ensures
            final(self).wf(),
            final(store).wf(),
            is_disconnected(old(store).graph(), set_of(targets@)) ==> {
                &&& r is Ok
                &&& r->Ok_0@.len() == 0
                &&& *final(self) == *old(self)
                &&& *final(store) == *old(store)
            },
            !is_disconnected(old(store).graph(), set_of(targets@)) && heads_differ(old(store).graph(), set_of(targets@)) ==> {
                &&& r == Err::<Vec<(CommitId, CommitId)>, ParallelizeError>(ParallelizeError::HeadsHaveDifferentChildren)
                &&& *final(self) == *old(self)
                &&& *final(store) == *old(store)
            },
            !is_disconnected(old(store).graph(), set_of(targets@)) && !heads_differ(old(store).graph(), set_of(targets@)) ==> {
                &&& r is Ok
                &&& parallelized(*old(store), *final(store), set_of(targets@), r->Ok_0@)
                &&& exists|m: MutableRepo, sm: Store, img: Seq<Option<Seq<CommitId>>>, n: int| {
                    &&& m.rewritten_spec() == old(self).rewritten_spec() + r->Ok_0@
                    &&& m.view_model() == (ViewModel {
                        heads: old(self).view_model().heads + Set::new(|x: CommitId|
                            exists|y: CommitId| #[trigger] set_of(targets@).contains(y) && x == stand_in(r->Ok_0@, y)),
                        ..old(self).view_model()
                    })
                    &&& m.abandoned_spec() == old(self).abandoned_spec()
                    &&& m.base_model() == old(self).base_model()
                    &&& m.base_op() == old(self).base_op()
                    &&& rebase_done(m, *final(self), sm, *final(store), img, n)
                }
            },
    {
        let ghost s0 = *store;
        let ghost g0 = store.graph();
        let ghost t = set_of(targets@);
        let ext = external_parents(store, targets);
        if check_antichain(store, targets) || check_parents_descend(store, targets, &ext) {
            return Ok(Vec::new());
        }
        if check_heads_differ(store, targets) {
            return Err(ParallelizeError::HeadsHaveDifferentChildren);
        }
        let n0 = store.num_commits();
        proof {
            assert forall|k: int| 0 <= k < ext@.len() implies store.has(#[trigger] ext@[k]) by {
                assert(set_of(ext@).contains(ext@[k]));
                let rr = choose|rr: CommitId| #[trigger] is_root_of(g0, t, rr) && is_parent(g0, ext@[k], rr);
                store.lemma_wf();
                let j = choose|j: int| 0 <= j < g0[rr.0 as int].len() && g0[rr.0 as int][j] == ext@[k];
                assert(g0[rr.0 as int][j].0 < rr.0);
            }
        }
        let p1 = rewrite_targets(store, targets, &ext);
        let ghost s1 = *store;
        proof {
            assert(pairs_below(p1@, s1.len() as int)) by {
                assert forall|k: int| 0 <= k < p1@.len() implies (#[trigger] p1@[k]).1.0 < s1.len() by {
                    assert(target_pair_ok(s1, s0, ext@, p1@[k].0, p1@[k].1));
                }
            }
        }
        let p2 = rewrite_children(store, targets, &p1, n0);
        let ghost s2 = *store;
        let mut pairs: Vec<(CommitId, CommitId)> = Vec::new();
        let mut k: usize = 0;
        while k < p1.len()
            invariant
                k <= p1@.len(),
                pairs@ == p1@.subrange(0, k as int),
            decreases p1@.len() - k,
        {
            pairs.push(p1[k]);
            k = k + 1;
            assert(pairs@ =~= p1@.subrange(0, k as int));
        }
        k = 0;
        while k < p2.len()
            invariant
                k <= p2@.len(),
                p1@.len() <= p1@.len(),
                pairs@ == p1@ + p2@.subrange(0, k as int),
            decreases p2@.len() - k,
        {
            pairs.push(p2[k]);
            k = k + 1;
            assert(pairs@ =~= p1@ + p2@.subrange(0, k as int));
        }
        assert(p1@.subrange(0, p1@.len() as int) == p1@);
        assert(p2@.subrange(0, p2@.len() as int) == p2@);
        assert(pairs@ == p1@ + p2@);
        let ghost r0 = self.rewritten_spec();
        k = 0;
        while k < pairs.len()
            invariant
                k <= pairs@.len(),
                self.wf(),
                self.rewritten_spec() == r0 + pairs@.subrange(0, k as int),
                self.view_model() == old(self).view_model(),
                self.abandoned_spec() == old(self).abandoned_spec(),
                self.base_model() == old(self).base_model(),
                self.base_op() == old(self).base_op(),
                r0 == old(self).rewritten_spec(),
            decreases pairs@.len() - k,
        {
            self.record_rewritten_commit(pairs[k].0, pairs[k].1);
            k = k + 1;
            assert(self.rewritten_spec() =~= r0 + pairs@.subrange(0, k as int));
        }
        assert(pairs@.subrange(0, k as int) == pairs@);
        assert(self.rewritten_spec() == r0 + pairs@);
        let mut tops: Vec<CommitId> = Vec::new();
        k = 0;
        while k < targets.len()
            invariant
                k <= targets@.len(),
                forall|x: CommitId| #[trigger] set_of(tops@).contains(x) <==>
                    exists|y: CommitId| #[trigger] set_of(targets@.subrange(0, k as int)).contains(y) && x == stand_in(pairs@, y),
            decreases targets@.len() - k,
        {
            let y = targets[k];
            let si = stand_in_of(&pairs, y);
            let ghost before = tops@;
            tops.push(si);
            proof {
                crate::backend::lemma_set_of_push(before, si);
                crate::backend::lemma_set_of_prefix(targets@, k as int);
                assert forall|x: CommitId| #[trigger] set_of(tops@).contains(x) <==>
                    exists|w: CommitId| #[trigger] set_of(targets@.subrange(0, k + 1)).contains(w) && x == stand_in(pairs@, w) by {
                    if set_of(tops@).contains(x) && x != si {
                        let w = choose|w: CommitId| #[trigger] set_of(targets@.subrange(0, k as int)).contains(w) && x == stand_in(pairs@, w);
                        assert(set_of(targets@.subrange(0, k + 1)).contains(w));
                    }
                    if x == si {
                        assert(set_of(targets@.subrange(0, k + 1)).contains(y));
                    }
                }
            }
            k = k + 1;
        }
        assert(targets@.subrange(0, k as int) == targets@);
        let ghost view_before = self.view_model();
        let ghost before_heads = *self;
        self.add_heads(&tops);
        proof {
            self.lemma_same_records(&before_heads);
            assert(set_of(tops@) =~= Set::new(|x: CommitId| exists|y: CommitId| #[trigger] set_of(targets@).contains(y) && x == stand_in(pairs@, y)));
        }
        let ghost m = *self;
        proof {
            assert forall|j: int| 0 <= j < self.rewritten_spec().len() implies store.has(#[trigger] self.rewritten_spec()[j].1) by {
                if j < r0.len() {
                    assert(self.rewritten_spec()[j] == r0[j]);
                } else {
                    let q = j - r0.len();
                    assert(self.rewritten_spec()[j] == pairs@[q]);
                    if q < p1@.len() {
                        assert(pairs@[q] == p1@[q]);
                        assert(target_pair_ok(s1, s0, ext@, p1@[q].0, p1@[q].1));
                    } else {
                        assert(pairs@[q] == p2@[q - p1@.len()]);
                        assert(child_pair_ok(s2, n0 as int, t, p1@, p2@[q - p1@.len()].0, p2@[q - p1@.len()].1));
                    }
                }
            }
        }
        let res = self.rebase_all(store);
        proof {
            let s3 = *store;
            let img = img_model(res.0@);
            assert(rebase_done(m, *self, s2, s3, img, res.1 as int));
            assert(s3.graph().subrange(0, s2.len() as int) == s2.graph());
            assert(s3.graph().subrange(0, s1.len() as int) =~= s1.graph()) by {
                assert(s3.graph().subrange(0, s1.len() as int) =~= s2.graph().subrange(0, s1.len() as int));
            }
            assert(forall|k: int| 0 <= k < p2@.len() ==> !t.contains(#[trigger] p2@[k].0)) by {
                assert forall|k: int| 0 <= k < p2@.len() implies !t.contains(#[trigger] p2@[k].0) by {
                    assert(child_pair_ok(s2, n0 as int, t, p1@, p2@[k].0, p2@[k].1));
                }
            }
            assert(pairs_below(p1@, s2.len() as int)) by {
                assert forall|k: int| 0 <= k < p1@.len() implies (#[trigger] p1@[k]).1.0 < s2.len() by {
                    assert(target_pair_ok(s1, s0, ext@, p1@[k].0, p1@[k].1));
                }
            }
            assert forall|x: CommitId| #[trigger] t.contains(x) && x.0 < n0 implies
                (exists|k: int| 0 <= k < pairs@.len() && pairs@[k].0 == x) || (set_of(g0[x.0 as int]) == ext_parents(g0, t) && is_increasing(g0[x.0 as int])) by {
                if exists|k: int| 0 <= k < p1@.len() && p1@[k].0 == x {
                    let k = choose|k: int| 0 <= k < p1@.len() && p1@[k].0 == x;
                    assert(pairs@[k] == p1@[k]);
                }
            }
            assert forall|k: int| 0 <= k < pairs@.len() && t.contains(#[trigger] pairs@[k].0) implies {
                let n = pairs@[k].1;
                &&& n0 <= n.0 < s3.len()
                &&& set_of(s3.graph()[n.0 as int]) == ext_parents(g0, t)
                &&& is_increasing(s3.graph()[n.0 as int])
                &&& is_rebased_copy(s3.commit_at(n.0 as int), s0.commit_at(pairs@[k].0.0 as int), pairs@[k].0)
            } by {
                if k >= p1@.len() {
                    assert(pairs@[k] == p2@[k - p1@.len()]);
                    assert(!t.contains(p2@[k - p1@.len()].0));
                }
                assert(pairs@[k] == p1@[k]);
                assert(target_pair_ok(s1, s0, ext@, p1@[k].0, p1@[k].1));
                let n = p1@[k].1;
                assert(s3.graph()[n.0 as int] == s1.graph()[n.0 as int]);
                assert(s3.commit_at(n.0 as int) == s1.commit_at(n.0 as int));
            }
            assert forall|k: int| 0 <= k < pairs@.len() && !t.contains(#[trigger] pairs@[k].0) implies
                child_pair_ok(s3, n0 as int, t, pairs@, pairs@[k].0, pairs@[k].1) by {
                if k < p1@.len() {
                    assert(pairs@[k] == p1@[k]);
                    assert(target_pair_ok(s1, s0, ext@, p1@[k].0, p1@[k].1));
                }
                let q = k - p1@.len();
                assert(pairs@[k] == p2@[q]);
                assert(child_pair_ok(s2, n0 as int, t, p1@, p2@[q].0, p2@[q].1));
                lemma_child_pair_extend(s2, s3, n0 as int, t, p1@, p2@[q].0, p2@[q].1);
                lemma_child_set_pairs(s3.graph(), n0 as int, t, p1@, p2@, p2@[q].0);
            }
            assert forall|c: CommitId| c.0 < n0 && #[trigger] is_child_of_targets(g0, t, c) implies
                (exists|k: int| 0 <= k < pairs@.len() && pairs@[k].0 == c) || child_kept_ok(s3, n0 as int, t, pairs@, c) by {
                s0.lemma_graph();
                assert(s2.graph()[c.0 as int] == g0[c.0 as int]);
                let p = choose|p: CommitId| #[trigger] is_parent(g0, p, c) && t.contains(p);
                assert(is_parent(s2.graph(), p, c));
                assert(is_child_of_targets(s2.graph(), t, c));
                if exists|k: int| 0 <= k < p2@.len() && p2@[k].0 == c {
                    let k = choose|k: int| 0 <= k < p2@.len() && p2@[k].0 == c;
                    assert(pairs@[p1@.len() + k] == p2@[k]);
                } else {
                    assert(child_kept_ok(s2, n0 as int, t, p1@, c));
                    lemma_child_kept_extend(s2, s3, n0 as int, t, p1@, c);
                    lemma_child_set_pairs(s3.graph(), n0 as int, t, p1@, p2@, c);
                }
            }
            assert(parallelized(s0, s3, t, pairs@));
        }
        Ok(pairs)
    }
}

} // verus!
