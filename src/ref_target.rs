//! Ref targets, possibly conflicted, and their three-way merge.
//!
//! A target is read as a formal sum of commits: its adds count positively, its
//! removes negatively. Merging `left` and `right` against `base` yields the
//! canonical target of `left + right - base`.

use vstd::prelude::*;
use crate::backend::{CommitId, copy_ids};

verus! {

/// What a ref points to: one commit, or a conflict between several.
#[derive(Debug)]
pub enum RefTarget {
    Normal(CommitId),
    Conflict { removes: Vec<CommitId>, adds: Vec<CommitId> },
}

impl View for RefTarget {
    /// Whether it is a conflict, its removes, its adds.
    type V = (bool, Seq<CommitId>, Seq<CommitId>);

    open spec fn view(&self) -> (bool, Seq<CommitId>, Seq<CommitId>) {
        self.model()
    }
}

/// How many times `x` occurs in `s`.
pub open spec fn occ(s: Seq<CommitId>, x: CommitId) -> nat
    decreases s.len(),
{
    if s.len() == 0 {
        0
    } else {
        occ(s.drop_last(), x) + if s.last() == x { 1nat } else { 0nat }
    }
}

pub proof fn lemma_occ_push(s: Seq<CommitId>, y: CommitId, x: CommitId)
    ensures
        occ(s.push(y), x) == occ(s, x) + if y == x { 1nat } else { 0nat },
{
    assert(s.push(y).drop_last() == s);
}

pub proof fn lemma_occ_concat(a: Seq<CommitId>, b: Seq<CommitId>, x: CommitId)
    ensures
        occ(a + b, x) == occ(a, x) + occ(b, x),
    decreases b.len(),
{
    if b.len() > 0 {
        assert((a + b).drop_last() == a + b.drop_last());
        lemma_occ_concat(a, b.drop_last(), x);
    } else {
        assert(a + b == a);
    }
}

pub proof fn lemma_occ_contains(s: Seq<CommitId>, x: CommitId)
    ensures
        occ(s, x) > 0 <==> s.contains(x),
    decreases s.len(),
{
    if s.len() > 0 {
        lemma_occ_contains(s.drop_last(), x);
        if s.drop_last().contains(x) {
            let k = choose|k: int| 0 <= k < s.drop_last().len() && s.drop_last()[k] == x;
            assert(s[k] == x);
        }
        if s.contains(x) && s.last() != x {
            let k = choose|k: int| 0 <= k < s.len() && s[k] == x;
            assert(s.drop_last()[k] == x);
        }
    }
}

impl RefTarget {
    /// The commits the target adds.
    pub open spec fn adds(&self) -> Seq<CommitId> {
        match self {
            RefTarget::Normal(c) => seq![*c],
            RefTarget::Conflict { adds, .. } => adds@,
        }
    }

    /// The commits the target removes.
    pub open spec fn removes(&self) -> Seq<CommitId> {
        match self {
            RefTarget::Normal(_) => Seq::empty(),
            RefTarget::Conflict { removes, .. } => removes@,
        }
    }

    /// The value of the target: whether it is a conflict, its removes, its adds.
    pub open spec fn model(&self) -> (bool, Seq<CommitId>, Seq<CommitId>) {
        (self is Conflict, self.removes(), self.adds())
    }

    /// A copy of the target.
    pub fn duplicate(&self) -> (r: RefTarget)
        ensures
            r.model() == self.model(),
    {
        match self {
            RefTarget::Normal(c) => RefTarget::Normal(*c),
            RefTarget::Conflict { removes, adds } => RefTarget::Conflict {
                removes: copy_ids(removes),
                adds: copy_ids(adds),
            },
        }
    }

    /// A target that points to one commit.
    pub fn normal(id: CommitId) -> (r: RefTarget)
        ensures
            r == RefTarget::Normal(id),
    {
        RefTarget::Normal(id)
    }

    /// The commits the target adds.
    pub fn add_ids(&self) -> (r: Vec<CommitId>)
        ensures
            r@ == self.adds(),
    {
        match self {
            RefTarget::Normal(c) => {
                let mut v: Vec<CommitId> = Vec::new();
                v.push(*c);
                assert(v@ =~= seq![*c]);
                v
            },
            RefTarget::Conflict { adds, .. } => copy_ids(adds),
        }
    }

    /// The commits the target removes.
    pub fn remove_ids(&self) -> (r: Vec<CommitId>)
        ensures
            r@ == self.removes(),
    {
        match self {
            RefTarget::Normal(_) => Vec::new(),
            RefTarget::Conflict { removes, .. } => copy_ids(removes),
        }
    }
}

/// The target that a borrowed option refers to.
pub open spec fn deref(t: Option<&RefTarget>) -> Option<RefTarget> {
    match t {
        Some(t) => Some(*t),
        None => None,
    }
}

/// The value of a target that may be absent.
pub open spec fn opt_model(t: Option<RefTarget>) -> Option<(bool, Seq<CommitId>, Seq<CommitId>)> {
    match t {
        Some(t) => Some(t.model()),
        None => None,
    }
}

/// The count of `x` in a target read as a formal sum (zero where absent).
pub open spec fn net(t: Option<RefTarget>, x: CommitId) -> int {
    match t {
        Some(t) => occ(t.adds(), x) - occ(t.removes(), x),
        None => 0,
    }
}

/// The target is in simplest form: no commit is both added and removed, and a
/// target with no removes and at most one add is absent or normal.
pub open spec fn is_canonical(t: Option<RefTarget>) -> bool {
    match t {
        None => true,
        Some(RefTarget::Normal(_)) => true,
        Some(RefTarget::Conflict { removes, adds }) => {
            &&& forall|x: CommitId| occ(adds@, x) == 0 || occ(removes@, x) == 0
            &&& !(removes@.len() == 0 && adds@.len() <= 1)
        },
    }
}

/// Whether two id lists are equal.
pub fn ids_equal(a: &Vec<CommitId>, b: &Vec<CommitId>) -> (r: bool)
    ensures
        r == (a@ == b@),
{
    if a.len() != b.len() {
        return false;
    }
    let mut i: usize = 0;
    while i < a.len()
        invariant
            i <= a@.len(),
            a@.len() == b@.len(),
            a@.subrange(0, i as int) == b@.subrange(0, i as int),
        decreases a@.len() - i,
    {
        if a[i] != b[i] {
            return false;
        }
        assert(a@.subrange(0, i + 1) == a@.subrange(0, i as int).push(a@[i as int]));
        assert(b@.subrange(0, i + 1) == b@.subrange(0, i as int).push(b@[i as int]));
        i = i + 1;
    }
    assert(a@ == a@.subrange(0, i as int));
    assert(b@ == b@.subrange(0, i as int));
    true
}

/// Whether two targets, each possibly absent, are equal.
pub fn targets_equal(a: Option<&RefTarget>, b: Option<&RefTarget>) -> (r: bool)
    ensures
        r == (opt_model(deref(a)) == opt_model(deref(b))),
{
    match (a, b) {
        (None, None) => true,
        (Some(RefTarget::Normal(x)), Some(RefTarget::Normal(y))) => {
            proof {
                if x != y {
                    assert(seq![*x][0] != seq![*y][0]);
                }
            }
            *x == *y
        },
        (Some(RefTarget::Conflict { removes: r1, adds: a1 }), Some(RefTarget::Conflict { removes: r2, adds: a2 })) => {
            ids_equal(r1, r2) && ids_equal(a1, a2)
        },
        _ => false,
    }
}

/// How many times `x` occurs in `v`.
pub fn count_id(v: &Vec<CommitId>, x: CommitId) -> (r: usize)
    ensures
        r == occ(v@, x),
{
    let mut n: usize = 0;
    let mut i: usize = 0;
    while i < v.len()
        invariant
            i <= v@.len(),
            n == occ(v@.subrange(0, i as int), x),
            n <= i,
        decreases v@.len() - i,
    {
        proof {
            assert(v@.subrange(0, i + 1) == v@.subrange(0, i as int).push(v@[i as int]));
            lemma_occ_push(v@.subrange(0, i as int), v@[i as int], x);
        }
        if v[i] == x {
            n = n + 1;
        }
        i = i + 1;
    }
    assert(v@ == v@.subrange(0, i as int));
    n
}

/// The elements of `a` left after taking away, for each `x`, as many
/// occurrences as `b` has, from the front; the rest keep their order.
pub fn subtract_ids(a: &Vec<CommitId>, b: &Vec<CommitId>) -> (r: Vec<CommitId>)
    ensures
        forall|x: CommitId| #[trigger] occ(r@, x) == if occ(a@, x) >= occ(b@, x) {
            occ(a@, x) - occ(b@, x)
        } else {
            0
        },
{
    let mut r: Vec<CommitId> = Vec::new();
    let mut i: usize = 0;
    while i < a.len()
        invariant
            i <= a@.len(),
            forall|x: CommitId| #[trigger] occ(r@, x) == if occ(a@.subrange(0, i as int), x) >= occ(b@, x) {
                occ(a@.subrange(0, i as int), x) - occ(b@, x)
            } else {
                0
            },
        decreases a@.len() - i,
    {
        let y = a[i];
        let seen = count_id_prefix(a, i, y);
        let owed = count_id(b, y);
        let ghost r0 = r@;
        if seen >= owed {
            r.push(y);
        }
        proof {
            let pre = a@.subrange(0, i as int);
            assert(a@.subrange(0, i + 1) == pre.push(y));
            assert forall|x: CommitId| #[trigger] occ(r@, x) == if occ(a@.subrange(0, i + 1), x) >= occ(b@, x) {
                occ(a@.subrange(0, i + 1), x) - occ(b@, x)
            } else {
                0
            } by {
                lemma_occ_push(pre, y, x);
                if seen >= owed {
                    lemma_occ_push(r0, y, x);
                }
            }
        }
        i = i + 1;
    }
    assert(a@ == a@.subrange(0, i as int));
    r
}

/// How many times `x` occurs in the first `end` elements of `v`.
fn count_id_prefix(v: &Vec<CommitId>, end: usize, x: CommitId) -> (r: usize)
    requires
        end <= v@.len(),
    ensures
        r == occ(v@.subrange(0, end as int), x),
{
    let mut n: usize = 0;
    let mut i: usize = 0;
    while i < end
        invariant
            i <= end <= v@.len(),
            n == occ(v@.subrange(0, i as int), x),
            n <= i,
        decreases end - i,
    {
        proof {
            assert(v@.subrange(0, i + 1) == v@.subrange(0, i as int).push(v@[i as int]));
            lemma_occ_push(v@.subrange(0, i as int), v@[i as int], x);
        }
        if v[i] == x {
            n = n + 1;
        }
        i = i + 1;
    }
    n
}

/// Appends `b` to a copy of `a`.
pub fn concat_ids(a: &Vec<CommitId>, b: &Vec<CommitId>) -> (r: Vec<CommitId>)
    ensures
        r@ == a@ + b@,
{
    let mut r = copy_ids(a);
    let mut i: usize = 0;
    while i < b.len()
        invariant
            i <= b@.len(),
            r@ == a@ + b@.subrange(0, i as int),
        decreases b@.len() - i,
    {
        r.push(b[i]);
        i = i + 1;
        assert(r@ =~= a@ + b@.subrange(0, i as int));
    }
    assert(b@ == b@.subrange(0, i as int));
    r
}

/// The canonical target with the given adds and removes: commits on both
/// sides cancel; no commit at all is an absent target, a single add a normal one.
pub fn simplify(adds: &Vec<CommitId>, removes: &Vec<CommitId>) -> (r: Option<RefTarget>)
    ensures
        is_canonical(r),
        forall|x: CommitId| #[trigger] net(r, x) == occ(adds@, x) - occ(removes@, x),
{
    let new_adds = subtract_ids(adds, removes);
    let new_removes = subtract_ids(removes, adds);
    if new_removes.len() == 0 && new_adds.len() == 0 {
        proof {
            assert forall|x: CommitId| #[trigger] net(None, x) == occ(adds@, x) - occ(removes@, x) by {
                assert(new_adds@ == Seq::<CommitId>::empty());
                assert(new_removes@ == Seq::<CommitId>::empty());
                assert(occ(new_adds@, x) == 0);
                assert(occ(new_removes@, x) == 0);
            }
        }
        None
    } else if new_removes.len() == 0 && new_adds.len() == 1 {
        let c = new_adds[0];
        proof {
            assert(new_adds@ == seq![c]);
            assert forall|x: CommitId| #[trigger] net(Some(RefTarget::Normal(c)), x) == occ(adds@, x) - occ(removes@, x) by {
                assert(new_removes@ == Seq::<CommitId>::empty());
                assert(occ(new_removes@, x) == 0);
                assert(occ(new_adds@, x) == occ(new_adds@, x));
                assert(occ(Seq::<CommitId>::empty(), x) == 0);
            }
        }
        Some(RefTarget::Normal(c))
    } else {
        let r = RefTarget::Conflict { removes: new_removes, adds: new_adds };
        proof {
            assert forall|x: CommitId| #[trigger] net(Some(r), x) == occ(adds@, x) - occ(removes@, x) by {
                assert(occ(new_adds@, x) == occ(new_adds@, x));
                assert(occ(new_removes@, x) == occ(new_removes@, x));
            }
            assert forall|x: CommitId| occ(new_adds@, x) == 0 || occ(new_removes@, x) == 0 by {
                assert(occ(new_adds@, x) == occ(new_adds@, x));
                assert(occ(new_removes@, x) == occ(new_removes@, x));
            }
        }
        Some(r)
    }
}

/// The adds of a target that may be absent.
pub open spec fn opt_adds(t: Option<RefTarget>) -> Seq<CommitId> {
    match t {
        Some(t) => t.adds(),
        None => Seq::empty(),
    }
}

/// The removes of a target that may be absent.
pub open spec fn opt_removes(t: Option<RefTarget>) -> Seq<CommitId> {
    match t {
        Some(t) => t.removes(),
        None => Seq::empty(),
    }
}

fn opt_add_ids(t: Option<&RefTarget>) -> (r: Vec<CommitId>)
    ensures
        r@ == opt_adds(deref(t)),
{
    match t {
        Some(t) => t.add_ids(),
        None => Vec::new(),
    }
}

fn opt_remove_ids(t: Option<&RefTarget>) -> (r: Vec<CommitId>)
    ensures
        r@ == opt_removes(deref(t)),
{
    match t {
        Some(t) => t.remove_ids(),
        None => Vec::new(),
    }
}

/// A copy of a target that may be absent.
pub fn copy_target(t: Option<&RefTarget>) -> (r: Option<RefTarget>)
    ensures
        opt_model(r) == opt_model(deref(t)),
{
    match t {
        Some(t) => Some(t.duplicate()),
        None => None,
    }
}

/// The three-way merge of targets: where one side equals the base the other
/// side wins; otherwise the canonical target of `left + right - base`.
pub open spec fn merge_spec_holds(
    base: Option<RefTarget>,
    left: Option<RefTarget>,
    right: Option<RefTarget>,
    r: Option<RefTarget>,
) -> bool {
    if opt_model(left) == opt_model(base) {
        opt_model(r) == opt_model(right)
    } else if opt_model(right) == opt_model(base) {
        opt_model(r) == opt_model(left)
    } else {
        &&& is_canonical(r)
        &&& forall|x: CommitId| #[trigger] net(r, x) == net(left, x) + net(right, x) - net(base, x)
    }
}

/// Merges `left` and `right`, which both descend from `base`.
pub fn merge_ref_targets(
    base: Option<&RefTarget>,
    left: Option<&RefTarget>,
    right: Option<&RefTarget>,
) -> (r: Option<RefTarget>)
    ensures
        merge_spec_holds(deref(base), deref(left), deref(right), r),
{
    if targets_equal(left, base) {
        copy_target(right)
    } else if targets_equal(right, base) {
        copy_target(left)
    } else {
        let la = opt_add_ids(left);
        let ra = opt_add_ids(right);
        let br = opt_remove_ids(base);
        let lr = opt_remove_ids(left);
        let rr = opt_remove_ids(right);
        let ba = opt_add_ids(base);
        let adds = concat_ids(&concat_ids(&la, &ra), &br);
        let removes = concat_ids(&concat_ids(&lr, &rr), &ba);
        let r = simplify(&adds, &removes);
        proof {
            assert forall|x: CommitId| #[trigger] net(r, x) == net(deref(left), x) + net(deref(right), x) - net(deref(base), x) by {
                lemma_occ_concat(la@ + ra@, br@, x);
                lemma_occ_concat(la@, ra@, x);
                lemma_occ_concat(lr@ + rr@, ba@, x);
                lemma_occ_concat(lr@, rr@, x);
                assert(occ(Seq::<CommitId>::empty(), x) == 0);
            }
        }
        r
    }
}

/// The count of `x` in the value of a target that may be absent.
pub open spec fn net_model(t: Option<(bool, Seq<CommitId>, Seq<CommitId>)>, x: CommitId) -> int {
    match t {
        Some(m) => occ(m.2, x) - occ(m.1, x),
        None => 0,
    }
}

/// The value of a target in simplest form (see `is_canonical`).
pub open spec fn canonical_model(t: Option<(bool, Seq<CommitId>, Seq<CommitId>)>) -> bool {
    match t {
        None => true,
        Some(m) => if !m.0 {
            m.1.len() == 0 && m.2.len() == 1
        } else {
            &&& forall|x: CommitId| occ(m.2, x) == 0 || occ(m.1, x) == 0
            &&& !(m.1.len() == 0 && m.2.len() <= 1)
        },
    }
}

pub proof fn lemma_canonical_model(t: Option<RefTarget>)
    requires
        is_canonical(t),
    ensures
        canonical_model(opt_model(t)),
        forall|x: CommitId| #[trigger] net_model(opt_model(t), x) == net(t, x),
{
}

/// The three-way merge of target values (see `merge_spec_holds`).
pub open spec fn merge_model_holds(
    base: Option<(bool, Seq<CommitId>, Seq<CommitId>)>,
    left: Option<(bool, Seq<CommitId>, Seq<CommitId>)>,
    right: Option<(bool, Seq<CommitId>, Seq<CommitId>)>,
    r: Option<(bool, Seq<CommitId>, Seq<CommitId>)>,
) -> bool {
    if left == base {
        r == right
    } else if right == base {
        r == left
    } else {
        &&& canonical_model(r)
        &&& forall|x: CommitId| #[trigger] net_model(r, x) == net_model(left, x) + net_model(right, x) - net_model(base, x)
    }
}

pub proof fn lemma_merge_model(base: Option<RefTarget>, left: Option<RefTarget>, right: Option<RefTarget>, r: Option<RefTarget>)
    requires
        merge_spec_holds(base, left, right, r),
    ensures
        merge_model_holds(opt_model(base), opt_model(left), opt_model(right), opt_model(r)),
{
    if opt_model(left) != opt_model(base) && opt_model(right) != opt_model(base) {
        lemma_canonical_model(r);
        assert forall|x: CommitId| #[trigger] net_model(opt_model(r), x) == net_model(opt_model(left), x)
            + net_model(opt_model(right), x) - net_model(opt_model(base), x) by {
            assert(net_model(opt_model(left), x) == net(left, x));
            assert(net_model(opt_model(right), x) == net(right, x));
            assert(net_model(opt_model(base), x) == net(base, x));
        }
    }
}

} // verus!
