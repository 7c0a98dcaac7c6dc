//! Rebasing the descendants of rewritten and abandoned commits.
//!
//! Commits are visited in id order, which puts parents before children. Each
//! visited commit gets an image: the commits that stand for it afterwards. A
//! rewritten commit's image is what it was rewritten into; an abandoned
//! commit's image is the image of its parents; a commit with a parent that has
//! an image is copied onto the images of its parents.

use vstd::prelude::*;
use crate::backend::{CommitId, Commit, Store, TreeId, ChangeId, set_of, contains_id, copy_ids, graph_wf};
use crate::index::heads_of;
use crate::ref_target::{ids_equal, RefTarget, simplify, is_canonical, net, occ};

verus! {

/// The image of each commit, by id; `None` where the commit stands for itself.
pub open spec fn img_model(v: Seq<Option<Vec<CommitId>>>) -> Seq<Option<Seq<CommitId>>> {
    v.map_values(|o: Option<Vec<CommitId>>| match o {
        Some(w) => Some(w@),
        None => None,
    })
}

/// What stands for `p`: its image where it has one, `p` itself otherwise.
pub open spec fn image_of(img: Seq<Option<Seq<CommitId>>>, p: CommitId) -> Seq<CommitId> {
    if (p.0 as int) < img.len() && img[p.0 as int] is Some {
        img[p.0 as int]->Some_0
    } else {
        seq![p]
    }
}

/// The parents `ps` with each replaced by what stands for it.
pub open spec fn subst_parents(img: Seq<Option<Seq<CommitId>>>, ps: Seq<CommitId>) -> Seq<CommitId>
    decreases ps.len(),
{
    if ps.len() == 0 {
        Seq::empty()
    } else {
        subst_parents(img, ps.drop_last()) + image_of(img, ps.last())
    }
}

/// Some parent in `ps` has an image.
pub open spec fn has_image(img: Seq<Option<Seq<CommitId>>>, ps: Seq<CommitId>) -> bool {
    exists|k: int| 0 <= k < ps.len() && (ps[k].0 as int) < img.len() && #[trigger] img[ps[k].0 as int] is Some
}

/// The commits that `c` was recorded as rewritten into, in order.
pub open spec fn rewrite_images(rw: Seq<(CommitId, CommitId)>, c: CommitId) -> Seq<CommitId>
    decreases rw.len(),
{
    if rw.len() == 0 {
        Seq::empty()
    } else {
        rewrite_images(rw.drop_last(), c) + if rw.last().0 == c { seq![rw.last().1] } else { Seq::empty() }
    }
}

/// `new` is `old` (the commit with id `c`) moved onto other parents: same
/// change, tree, description and openness, with `c` as its predecessor.
pub open spec fn is_rebased_copy(new: Commit, old: Commit, c: CommitId) -> bool {
    &&& new.predecessors@ == seq![c]
    &&& new.change_id == old.change_id
    &&& new.root_tree == old.root_tree
    &&& new.description@ == old.description@
    &&& new.is_open == old.is_open
}

/// The parent list is the DAG heads of what stands for the parents `ps`.
pub open spec fn heads_of_images(g: Seq<Seq<CommitId>>, img: Seq<Option<Seq<CommitId>>>, ps: Seq<CommitId>, l: Seq<CommitId>) -> bool {
    l.no_duplicates() && set_of(l) == heads_of(g, set_of(subst_parents(img, ps)))
}

/// What a rebase made of the commit with id `c`, one of the first `n0` commits
/// of the store `s`.
pub open spec fn image_ok(
    s: Store,
    n0: int,
    rw: Seq<(CommitId, CommitId)>,
    ab: Set<CommitId>,
    img: Seq<Option<Seq<CommitId>>>,
    c: int,
) -> bool {
    let cid = CommitId(c as u64);
    let g = s.graph();
    let ps = g[c];
    if rewrite_images(rw, cid).len() > 0 {
        img[c] == Some(rewrite_images(rw, cid))
    } else if ab.contains(cid) {
        img[c] is Some && heads_of_images(g, img, ps, img[c]->Some_0)
    } else if !has_image(img, ps) {
        img[c] is None
    } else {
        (img[c] is None && heads_of_images(g, img, ps, ps)) || (img[c] is Some && img[c]->Some_0.len() == 1 && {
            let n = img[c]->Some_0[0];
            &&& n0 <= n.0 < g.len()
            &&& g[n.0 as int] != ps
            &&& heads_of_images(g, img, ps, g[n.0 as int])
            &&& is_rebased_copy(s.commit_at(n.0 as int), s.commit_at(c), cid)
        })
    }
}

/// The commits that `c` was recorded as rewritten into.
pub fn rewrite_images_of(rw: &Vec<(CommitId, CommitId)>, c: CommitId) -> (r: Vec<CommitId>)
    ensures
        r@ == rewrite_images(rw@, c),
{
    let mut r: Vec<CommitId> = Vec::new();
    let mut i: usize = 0;
    while i < rw.len()
        invariant
            i <= rw@.len(),
            r@ == rewrite_images(rw@.subrange(0, i as int), c),
        decreases rw@.len() - i,
    {
        let pair = rw[i];
        assert(rw@.subrange(0, i + 1).drop_last() == rw@.subrange(0, i as int));
        if pair.0 == c {
            r.push(pair.1);
        }
        assert(r@ =~= rewrite_images(rw@.subrange(0, i + 1), c));
        i = i + 1;
    }
    assert(rw@.subrange(0, i as int) == rw@);
    r
}

/// The parents with each replaced by what stands for it, and whether any
/// parent has an image.
pub fn substitute(images: &Vec<Option<Vec<CommitId>>>, ps: &Vec<CommitId>) -> (r: (Vec<CommitId>, bool))
    ensures
        r.0@ == subst_parents(img_model(images@), ps@),
        r.1 == has_image(img_model(images@), ps@),
{
    let ghost img = img_model(images@);
    let mut out: Vec<CommitId> = Vec::new();
    let mut any = false;
    let mut i: usize = 0;
    while i < ps.len()
        invariant
            i <= ps@.len(),
            img == img_model(images@),
            out@ == subst_parents(img, ps@.subrange(0, i as int)),
            any == has_image(img, ps@.subrange(0, i as int)),
        decreases ps@.len() - i,
    {
        let p = ps[i];
        let ghost pre = ps@.subrange(0, i as int);
        let ghost post = ps@.subrange(0, i + 1);
        assert(post.drop_last() == pre);
        assert(post.last() == p);
        let ghost before = out@;
        let mut found: Option<&Vec<CommitId>> = None;
        if p.0 < images.len() as u64 {
            let idx = p.0 as usize;
            match &images[idx] {
                Some(v) => {
                    assert(img[idx as int] == Some(v@));
                    found = Some(v);
                },
                None => {
                    assert(img[idx as int] is None);
                },
            }
        }
        match found {
            Some(v) => {
                let mut k: usize = 0;
                while k < v.len()
                    invariant
                        k <= v@.len(),
                        out@ == before + v@.subrange(0, k as int),
                    decreases v@.len() - k,
                {
                    out.push(v[k]);
                    k = k + 1;
                    assert(out@ =~= before + v@.subrange(0, k as int));
                }
                assert(v@.subrange(0, k as int) == v@);
                proof {
                    assert(post[i as int] == p);
                    assert(image_of(img, p) == v@);
                }
                any = true;
            },
            None => {
                out.push(p);
                assert(out@ =~= before + seq![p]);
                proof {
                    assert(image_of(img, p) == seq![p]);
                    if has_image(img, post) && !has_image(img, pre) {
                        let k = choose|k: int| 0 <= k < post.len() && (post[k].0 as int) < img.len() && #[trigger] img[post[k].0 as int] is Some;
                        if k < i {
                            assert(pre[k] == post[k]);
                        }
                    }
                }
            },
        }
        proof {
            if has_image(img, pre) {
                let k = choose|k: int| 0 <= k < pre.len() && (pre[k].0 as int) < img.len() && #[trigger] img[pre[k].0 as int] is Some;
                assert(post[k] == pre[k]);
            }
        }
        i = i + 1;
    }
    assert(ps@.subrange(0, i as int) == ps@);
    (out, any)
}

/// Every id that an image holds is below `n`.
pub open spec fn images_below(img: Seq<Option<Seq<CommitId>>>, n: int) -> bool {
    forall|i: int, k: int| 0 <= i < img.len() && #[trigger] img[i] is Some && 0 <= k < img[i]->Some_0.len()
        ==> (#[trigger] img[i]->Some_0[k]).0 < n
}

proof fn lemma_subst_prefix(img1: Seq<Option<Seq<CommitId>>>, img2: Seq<Option<Seq<CommitId>>>, ps: Seq<CommitId>)
    requires
        img1.len() <= img2.len(),
        img2.subrange(0, img1.len() as int) == img1,
        forall|k: int| 0 <= k < ps.len() ==> (#[trigger] ps[k]).0 < img1.len(),
    ensures
        subst_parents(img1, ps) == subst_parents(img2, ps),
        has_image(img1, ps) == has_image(img2, ps),
    decreases ps.len(),
{
    if ps.len() > 0 {
        lemma_subst_prefix(img1, img2, ps.drop_last());
        assert(img2[ps.last().0 as int] == img1[ps.last().0 as int]);
        if has_image(img2, ps) {
            let k = choose|k: int| 0 <= k < ps.len() && (ps[k].0 as int) < img2.len() && #[trigger] img2[ps[k].0 as int] is Some;
            assert(img1[ps[k].0 as int] == img2[ps[k].0 as int]);
        }
        if has_image(img1, ps) {
            let k = choose|k: int| 0 <= k < ps.len() && (ps[k].0 as int) < img1.len() && #[trigger] img1[ps[k].0 as int] is Some;
            assert(img1[ps[k].0 as int] == img2[ps[k].0 as int]);
        }
    }
}

proof fn lemma_subst_below(img: Seq<Option<Seq<CommitId>>>, ps: Seq<CommitId>, n: int)
    requires
        images_below(img, n),
        forall|k: int| 0 <= k < ps.len() ==> (#[trigger] ps[k]).0 < n,
    ensures
        forall|x: CommitId| #[trigger] set_of(subst_parents(img, ps)).contains(x) ==> x.0 < n,
    decreases ps.len(),
{
    if ps.len() > 0 {
        lemma_subst_below(img, ps.drop_last(), n);
        let a = subst_parents(img, ps.drop_last());
        let b = image_of(img, ps.last());
        assert forall|x: CommitId| #[trigger] set_of(a + b).contains(x) implies x.0 < n by {
            let k = choose|k: int| 0 <= k < (a + b).len() && (a + b)[k] == x;
            if k < a.len() {
                assert(a[k] == x);
                assert(set_of(a).contains(x));
            } else {
                assert(b[k - a.len()] == x);
                if (ps.last().0 as int) < img.len() && img[ps.last().0 as int] is Some {
                    assert(img[ps.last().0 as int]->Some_0[k - a.len()] == x);
                }
            }
        }
    }
}

proof fn lemma_image_ok_extend(
    s1: &Store,
    s2: &Store,
    n0: int,
    rw: Seq<(CommitId, CommitId)>,
    ab: Set<CommitId>,
    img1: Seq<Option<Seq<CommitId>>>,
    img2: Seq<Option<Seq<CommitId>>>,
    i: int,
)
    requires
        s1.wf(),
        s1.len() <= s2.len(),
        s2.graph().subrange(0, s1.len() as int) == s1.graph(),
        forall|j: int| 0 <= j < s1.len() ==> #[trigger] s2.commit_at(j) == s1.commit_at(j),
        img1.len() <= img2.len(),
        img2.subrange(0, img1.len() as int) == img1,
        images_below(img1, s1.len() as int),
        0 <= i < img1.len(),
        i < s1.len(),
        image_ok(*s1, n0, rw, ab, img1, i),
    ensures
        image_ok(*s2, n0, rw, ab, img2, i),
{
    s1.lemma_wf();
    let g1 = s1.graph();
    let g2 = s2.graph();
    assert(g2[i] == g1[i]);
    let ps = g1[i];
    assert forall|k: int| 0 <= k < ps.len() implies (#[trigger] ps[k]).0 < img1.len() by {
        assert(ps[k].0 < i);
    }
    lemma_subst_prefix(img1, img2, ps);
    assert(img2[i] == img1[i]);
    assert forall|k: int| 0 <= k < ps.len() implies (#[trigger] ps[k]).0 < s1.len() by {
        assert(ps[k].0 < i);
    }
    lemma_subst_below(img1, ps, s1.len() as int);
    crate::index::lemma_heads_prefix(g1, g2, set_of(subst_parents(img1, ps)));
    if img1[i] is Some && img1[i]->Some_0.len() == 1 {
        let n = img1[i]->Some_0[0];
        assert(n.0 < s1.len());
        if n.0 < g1.len() {
            assert(g2[n.0 as int] == g1[n.0 as int]);
        }
    }
}

/// Rebases the descendants of the rewritten and abandoned commits among the
/// commits of the store, and returns the image of each of them.
pub fn rebase_commits(store: &mut Store, rewritten: &Vec<(CommitId, CommitId)>, abandoned: &Vec<CommitId>) -> (r: Vec<Option<Vec<CommitId>>>)
    requires
        old(store).wf(),
        2 * old(store).len() + 2 < u64::MAX,
        forall|k: int| 0 <= k < rewritten@.len() ==> old(store).has(#[trigger] rewritten@[k].1),
    ensures
        final(store).wf(),
        old(store).len() <= final(store).len() <= 2 * old(store).len(),
        final(store).graph().subrange(0, old(store).len() as int) == old(store).graph(),
        forall|i: int| 0 <= i < old(store).len() ==> #[trigger] final(store).commit_at(i) == old(store).commit_at(i),
        r@.len() == old(store).len(),
        images_below(img_model(r@), final(store).len() as int),
        forall|c: int| 0 <= c < old(store).len() ==>
            #[trigger] image_ok(*final(store), old(store).len() as int, rewritten@, set_of(abandoned@), img_model(r@), c),
        forall|i: int| old(store).len() <= i < final(store).len() ==> {
            let p = (#[trigger] final(store).commit_at(i)).predecessors@[0];
            &&& p.0 < old(store).len()
            &&& is_rebased_copy(final(store).commit_at(i), final(store).commit_at(p.0 as int), p)
            &&& img_model(r@)[p.0 as int] == Some(seq![CommitId(i as u64)])
        },
{
    let ghost s0 = *store;
    let ghost ab = set_of(abandoned@);
    let n0 = store.num_commits();
    let mut images: Vec<Option<Vec<CommitId>>> = Vec::new();
    let mut c: usize = 0;
    while c < n0
        invariant
            c <= n0 == s0.len(),
            2 * s0.len() + 2 < u64::MAX,
            forall|k: int| 0 <= k < rewritten@.len() ==> s0.has(#[trigger] rewritten@[k].1),
            ab == set_of(abandoned@),
            store.wf(),
            s0.len() <= store.len() <= s0.len() + c,
            store.graph().subrange(0, s0.len() as int) == s0.graph(),
            forall|i: int| 0 <= i < s0.len() ==> #[trigger] store.commit_at(i) == s0.commit_at(i),
            images@.len() == c,
            images_below(img_model(images@), store.len() as int),
            forall|i: int| 0 <= i < c ==> #[trigger] image_ok(*store, n0 as int, rewritten@, ab, img_model(images@), i),
            forall|i: int| s0.len() <= i < store.len() ==> {
                let p = (#[trigger] store.commit_at(i)).predecessors@[0];
                &&& p.0 < c
                &&& is_rebased_copy(store.commit_at(i), store.commit_at(p.0 as int), p)
                &&& img_model(images@)[p.0 as int] == Some(seq![CommitId(i as u64)])
            },
        decreases n0 - c,
    {
        let ghost s1 = *store;
        let ghost img1 = img_model(images@);
        let cid = CommitId(c as u64);
        proof {
            store.lemma_wf();
            store.lemma_graph();
            s0.lemma_graph();
            assert(store.graph()[c as int] == s0.graph()[c as int]);
        }
        let rw_imgs = rewrite_images_of(rewritten, cid);
        let ghost ps = store.graph()[c as int];
        if rw_imgs.len() > 0 {
            proof {
                assert forall|k: int| 0 <= k < rw_imgs@.len() implies (#[trigger] rw_imgs@[k]).0 < store.len() by {
                    lemma_rewrite_images_in(rewritten@, cid, k, s0.len() as int);
                }
            }
            images.push(Some(rw_imgs));
        } else {
            let old_commit = store.get_commit(cid);
            let ps_v = copy_ids(&old_commit.parents);
            let root_tree = old_commit.root_tree;
            let change_id = old_commit.change_id;
            let description = old_commit.description.clone();
            let is_open = old_commit.is_open;
            assert(ps_v@ == ps);
            let (flat, any) = substitute(&images, &ps_v);
            proof {
                assert forall|k: int| 0 <= k < ps.len() implies (#[trigger] ps[k]).0 < store.len() by {
                    assert(ps[k].0 < c);
                }
                lemma_subst_below(img1, ps, store.len() as int);
            }
            let is_abandoned = contains_id(abandoned, cid);
            if is_abandoned {
                let l = store.heads(&flat);
                proof {
                    assert forall|k: int| 0 <= k < l@.len() implies (#[trigger] l@[k]).0 < store.len() by {
                        assert(set_of(l@).contains(l@[k]));
                        crate::index::lemma_heads_subset(store.graph(), set_of(flat@));
                    }
                }
                images.push(Some(l));
            } else if !any {
                images.push(None);
            } else {
                let l = store.heads(&flat);
                proof {
                    crate::index::lemma_heads_subset(store.graph(), set_of(flat@));
                }
                if ids_equal(&l, &ps_v) {
                    images.push(None);
                } else {
                    let mut preds: Vec<CommitId> = Vec::new();
                    preds.push(cid);
                    let ghost lv = l@;
                    let new_commit = Commit {
                        parents: l,
                        predecessors: preds,
                        root_tree,
                        change_id,
                        description,
                        is_open,
                    };
                    proof {
                        assert forall|k: int| 0 <= k < new_commit.parents@.len() implies store.has(#[trigger] new_commit.parents@[k]) by {
                            assert(set_of(lv).contains(lv[k]));
                        }
                        assert(new_commit.predecessors@ =~= seq![cid]);
                    }
                    let nid = store.write_commit(new_commit);
                    let mut one: Vec<CommitId> = Vec::new();
                    one.push(nid);
                    proof {
                        let s2 = *store;
                        assert(s2.graph().subrange(0, s1.len() as int) == s1.graph());
                        assert(s2.graph().subrange(0, s0.len() as int) =~= s0.graph()) by {
                            assert(s2.graph().subrange(0, s0.len() as int) =~= s1.graph().subrange(0, s0.len() as int));
                        }
                        assert forall|i: int| 0 <= i < c implies #[trigger] image_ok(s2, n0 as int, rewritten@, ab, img1, i) by {
                            assert(image_ok(s1, n0 as int, rewritten@, ab, img1, i));
                            assert(img1.subrange(0, img1.len() as int) =~= img1);
                            lemma_image_ok_extend(&s1, &s2, n0 as int, rewritten@, ab, img1, img1, i);
                        }
                        crate::index::lemma_heads_prefix(s1.graph(), s2.graph(), set_of(flat@));
                        assert(s2.graph()[nid.0 as int] == lv);
                    }
                    proof {
                        assert(one@ == seq![nid]);
                        assert(lv != ps_v@);
                    }
                    images.push(Some(one));
                }
            }
        }
        proof {
            let s2 = *store;
            let img2 = img_model(images@);
            assert(img2.subrange(0, img1.len() as int) =~= img1);
            assert forall|k: int| 0 <= k < ps.len() implies (#[trigger] ps[k]).0 < img1.len() by {
                assert(ps[k].0 < c);
            }
            lemma_subst_prefix(img1, img2, ps);
            assert(s2.graph()[c as int] == ps);
            if s2.len() > s1.len() {
                assert(forall|i: int| 0 <= i < c ==> #[trigger] image_ok(s2, n0 as int, rewritten@, ab, img1, i));
            } else {
                assert(s2 == s1);
            }
            assert forall|i: int| 0 <= i < c + 1 implies #[trigger] image_ok(s2, n0 as int, rewritten@, ab, img2, i) by {
                if i < c {
                    assert(image_ok(s2, n0 as int, rewritten@, ab, img1, i));
                    assert(images_below(img1, s2.len() as int));
                    assert(s2.graph().subrange(0, s2.len() as int) =~= s2.graph());
                    lemma_image_ok_extend(&s2, &s2, n0 as int, rewritten@, ab, img1, img2, i);
                }
            }
            assert forall|i: int| s0.len() <= i < s2.len() implies {
                let p = (#[trigger] s2.commit_at(i)).predecessors@[0];
                &&& p.0 < c + 1
                &&& is_rebased_copy(s2.commit_at(i), s2.commit_at(p.0 as int), p)
                &&& img2[p.0 as int] == Some(seq![CommitId(i as u64)])
            } by {
                if i < s1.len() {
                    assert(s2.commit_at(i) == s1.commit_at(i));
                    let p = s1.commit_at(i).predecessors@[0];
                    assert(img2[p.0 as int] == img1[p.0 as int]);
                } else {
                    assert(s2.commit_at(i).predecessors@ == seq![cid]);
                    assert(i == s1.len());
                }
            }
            assert(images_below(img2, s2.len() as int)) by {
                assert forall|i: int, k: int| 0 <= i < img2.len() && #[trigger] img2[i] is Some && 0 <= k < img2[i]->Some_0.len()
                    implies (#[trigger] img2[i]->Some_0[k]).0 < s2.len() by {
                    if i < c {
                        assert(img2[i] == img1[i]);
                    }
                }
            }
        }
        c = c + 1;
    }
    images
}

proof fn lemma_rewrite_images_in(rw: Seq<(CommitId, CommitId)>, c: CommitId, k: int, n: int)
    requires
        forall|j: int| 0 <= j < rw.len() ==> (#[trigger] rw[j].1).0 < n,
        0 <= k < rewrite_images(rw, c).len(),
    ensures
        rewrite_images(rw, c)[k].0 < n,
    decreases rw.len(),
{
    if rw.len() > 0 {
        let a = rewrite_images(rw.drop_last(), c);
        if k < a.len() {
            assert forall|j: int| 0 <= j < rw.drop_last().len() implies (#[trigger] rw.drop_last()[j].1).0 < n by {
                assert(rw.drop_last()[j] == rw[j]);
            }
            lemma_rewrite_images_in(rw.drop_last(), c, k, n);
        } else {
            assert(rw[rw.len() - 1].1.0 < n);
        }
    }
}

/// What stands for `p`.
pub fn image_vec(images: &Vec<Option<Vec<CommitId>>>, p: CommitId) -> (r: Vec<CommitId>)
    ensures
        r@ == image_of(img_model(images@), p),
{
    let mut one: Vec<CommitId> = Vec::new();
    one.push(p);
    let (r, _) = substitute(images, &one);
    proof {
        let ps = one@;
        assert(ps.drop_last() =~= Seq::<CommitId>::empty());
        assert(subst_parents(img_model(images@), ps.drop_last()) == Seq::<CommitId>::empty());
        assert(subst_parents(img_model(images@), ps) =~= image_of(img_model(images@), p));
    }
    r
}

/// The target with each commit replaced by what stands for it, simplified.
pub fn rebase_target(images: &Vec<Option<Vec<CommitId>>>, t: &RefTarget) -> (r: Option<RefTarget>)
    ensures
        is_canonical(r),
        forall|x: CommitId| #[trigger] net(r, x) == occ(subst_parents(img_model(images@), t.adds()), x)
            - occ(subst_parents(img_model(images@), t.removes()), x),
{
    let (adds, _) = substitute(images, &t.add_ids());
    let (removes, _) = substitute(images, &t.remove_ids());
    simplify(&adds, &removes)
}

/// A commit outside the DAG, or with no rewritten or abandoned commit among
/// itself and its ancestors, keeps its id: its image is none.
pub proof fn lemma_untouched_keep_ids(
    s: Store,
    n0: int,
    rw: Seq<(CommitId, CommitId)>,
    ab: Set<CommitId>,
    img: Seq<Option<Seq<CommitId>>>,
    c: int,
)
    requires
        s.wf(),
        n0 <= s.len(),
        img.len() == n0,
        forall|i: int| 0 <= i < n0 ==> #[trigger] image_ok(s, n0, rw, ab, img, i),
        0 <= c < n0,
        forall|a: CommitId| #[trigger] crate::index::reaches(s.graph(), c, a.0 as int)
            ==> rewrite_images(rw, a).len() == 0 && !ab.contains(a),
    ensures
        img[c] is None,
    decreases c,
{
    s.lemma_wf();
    let g = s.graph();
    let ps = g[c];
    assert(image_ok(s, n0, rw, ab, img, c));
    assert(crate::index::reaches(g, c, c));
    assert(CommitId(c as u64).0 == c);
    if has_image(img, ps) {
        let k = choose|k: int| 0 <= k < ps.len() && (ps[k].0 as int) < img.len() && #[trigger] img[ps[k].0 as int] is Some;
        let p = ps[k];
        assert(p.0 < c);
        assert(ps[k] == p);
        assert(CommitId((p.0 as int) as u64) == p);
        assert(g[c].contains(CommitId((p.0 as int) as u64)));
        assert(crate::index::reaches(g, c, p.0 as int));
        assert forall|a: CommitId| #[trigger] crate::index::reaches(s.graph(), p.0 as int, a.0 as int)
            implies rewrite_images(rw, a).len() == 0 && !ab.contains(a) by {
            crate::index::lemma_reaches_trans(g, c, p.0 as int, a.0 as int);
            assert(crate::index::reaches(s.graph(), c, a.0 as int));
        }
        lemma_untouched_keep_ids(s, n0, rw, ab, img, p.0 as int);
    }
}

/// What a rebase made of a commit stays true as commits are appended.
pub proof fn lemma_image_ok_extend_pub(
    s1: &Store,
    s2: &Store,
    n0: int,
    rw: Seq<(CommitId, CommitId)>,
    ab: Set<CommitId>,
    img: Seq<Option<Seq<CommitId>>>,
    i: int,
)
    requires
        s1.wf(),
        s1.len() <= s2.len(),
        s2.graph().subrange(0, s1.len() as int) == s1.graph(),
        forall|j: int| 0 <= j < s1.len() ==> #[trigger] s2.commit_at(j) == s1.commit_at(j),
        images_below(img, s1.len() as int),
        0 <= i < img.len(),
        i < s1.len(),
        image_ok(*s1, n0, rw, ab, img, i),
    ensures
        image_ok(*s2, n0, rw, ab, img, i),
{
    assert(img.subrange(0, img.len() as int) =~= img);
    lemma_image_ok_extend(s1, s2, n0, rw, ab, img, img, i);
}

} // verus!
