//! The interest scorer: the pairwise score between two slides, defined as
//! the minimum of the number of shared tags and the number of tags each
//! side shows beyond the shared ones. Shared tags are counted as a set:
//! a tag on both photos of a `Dual` slide counts once.

use vstd::prelude::*;
use vstd::set_lib::lemma_len_intersect;
use vstd::set_lib::lemma_set_disjoint_lens;
use vstd::set_lib::lemma_set_intersect_union_lens;
use crate::photos::Photos;
use crate::photos::TagId;
use crate::photos::lemma_prefix_step;
use crate::photos::lemma_sorted_len_is_card;
use crate::photos::lemma_sorted_prefix_fresh;
use crate::photos::tag_set;
use crate::slide::Slide;
use crate::slide::contains_tag;

verus! {

pub open spec fn min3(a: int, b: int, c: int) -> int {
    if a <= b && a <= c {
        a
    } else if b <= c {
        b
    } else {
        c
    }
}

/// The number of tags the two slides share, as a set.
pub open spec fn spec_common(photos: Photos, x: Slide, y: Slide) -> int {
    x.spec_tags(photos).intersect(y.spec_tags(photos)).len() as int
}

/// The interest score between two slides: with `c` the number of shared
/// tags, the minimum of `c`, what `x` shows beyond the shared tags, and
/// what `y` shows beyond them.
pub open spec fn spec_score(photos: Photos, x: Slide, y: Slide) -> int {
    min3(
        spec_common(photos, x, y),
        x.spec_len(photos) - spec_common(photos, x, y),
        y.spec_len(photos) - spec_common(photos, x, y),
    )
}

/// Counts the tags of `tags` that slide `y` shows and that are not in
/// `excl`: the size of `(tags \ excl) ∩ tags(y)`.
fn count_new_common(
    tags: &Vec<TagId>,
    excl: Option<&Vec<TagId>>,
    y: &Slide,
    photos: &Photos,
) -> (r: usize)
    requires
        photos.wf(),
        y.wf(*photos),
        crate::photos::strictly_sorted(tags@),
    ensures
        r == tag_set(tags@).difference(spec_excl_set(excl)).intersect(y.spec_tags(*photos)).len(),
{
    let ghost ex = spec_excl_set(excl);
    let ghost ys = y.spec_tags(*photos);
    let mut same: usize = 0;
    proof {
        assert(tag_set(tags@.subrange(0, 0)).difference(ex).intersect(ys) =~= Set::<
            usize,
        >::empty());
        assert(Set::<usize>::empty().len() == 0);
    }
    let mut k: usize = 0;
    while k < tags.len()
        invariant
            photos.wf(),
            y.wf(*photos),
            crate::photos::strictly_sorted(tags@),
            ex == spec_excl_set(excl),
            ys == y.spec_tags(*photos),
            k <= tags@.len(),
            same == tag_set(tags@.subrange(0, k as int)).difference(ex).intersect(ys).len(),
            same <= k,
        decreases tags@.len() - k,
    {
        let ghost p = tag_set(tags@.subrange(0, k as int)).difference(ex).intersect(ys);
        let t = tags[k];
        proof {
            lemma_prefix_step(tags@, k as int);
            lemma_sorted_prefix_fresh(tags@, k as int);
        }
        let in_excl = match excl {
            None => false,
            Some(e) => contains_tag(e, t),
        };
        if !in_excl && y.contains(photos, &t) {
            proof {
                assert(tag_set(tags@.subrange(0, k + 1)).difference(ex).intersect(ys) =~= p.insert(
                    t,
                ));
                assert(!p.contains(t));
                lemma_len_intersect(tag_set(tags@.subrange(0, k as int)).difference(ex), ys);
            }
            same = same + 1;
        } else {
            proof {
                assert(tag_set(tags@.subrange(0, k + 1)).difference(ex).intersect(ys) =~= p);
            }
        }
        k = k + 1;
    }
    proof {
        assert(tags@.subrange(0, tags@.len() as int) =~= tags@);
    }
    same
}

/// The tag set an optional exclusion list denotes: empty when absent.
pub open spec fn spec_excl_set(excl: Option<&Vec<TagId>>) -> Set<TagId> {
    match excl {
        None => Set::empty(),
        Some(e) => tag_set(e@),
    }
}

/// The interest score between two slides.
pub fn subscore(x: &Slide, y: &Slide, photos: &Photos) -> (r: usize)
    requires
        photos.wf(),
        x.wf(*photos),
        y.wf(*photos),
    ensures
        r == spec_score(*photos, *x, *y),
{
    let ghost xs = x.spec_tags(*photos);
    let ghost ys = y.spec_tags(*photos);
    let same: usize = match x {
        Slide::Single(xh) => {
            let r = count_new_common(&photos.hs[*xh].tags, None, y, photos);
            proof {
                assert(tag_set(photos.hs@[*xh as int].tags@).difference(Set::empty()) =~= xs);
            }
            r
        },
        Slide::Dual(xa, xb) => {
            match y {
                Slide::Single(yh) => {
                    let r = count_new_common(&photos.hs[*yh].tags, None, x, photos);
                    proof {
                        assert(tag_set(photos.hs@[*yh as int].tags@).difference(Set::empty())
                            =~= ys);
                        assert(ys.intersect(xs) =~= xs.intersect(ys));
                    }
                    r
                },
                Slide::Dual(_, _) => {
                    let ta = &photos.vs[*xa].tags;
                    let tb = &photos.vs[*xb].tags;
                    let ghost sa = tag_set(ta@);
                    let ghost sb = tag_set(tb@);
                    let r1 = count_new_common(ta, None, y, photos);
                    let r2 = count_new_common(tb, Some(ta), y, photos);
                    proof {
                        lemma_sorted_len_is_card(ta@);
                        lemma_sorted_len_is_card(tb@);
                        lemma_len_intersect(sa.difference(Set::empty()), ys);
                        lemma_len_intersect(sb.difference(sa), ys);
                        lemma_len_intersect(sa, Set::empty());
                        assert(sa.difference(Set::<usize>::empty()) =~= sa);
                        let p1 = sa.intersect(ys);
                        let p2 = sb.difference(sa).intersect(ys);
                        assert(p1.disjoint(p2));
                        lemma_set_disjoint_lens(p1, p2);
                        assert(p1 + p2 =~= sa.union(sb).intersect(ys));
                        assert(sb.difference(sa).len() <= sb.len()) by {
                            vstd::set_lib::lemma_len_subset(sb.difference(sa), sb);
                        }
                    }
                    r1 + r2
                },
            }
        },
    };
    proof {
        lemma_tags_finite(*photos, *x);
        lemma_tags_finite(*photos, *y);
        lemma_len_intersect(xs, ys);
        assert(xs.intersect(ys).len() <= ys.len()) by {
            lemma_len_intersect(ys, xs);
            assert(ys.intersect(xs) =~= xs.intersect(ys));
        }
    }
    let lx = x.len(photos);
    let ly = y.len(photos);
    let a = lx - same;
    let b = ly - same;
    if same <= a && same <= b {
        same
    } else if a <= b {
        a
    } else {
        b
    }
}

/// A slide's tag set is finite, and no larger than its photos' tag lists.
pub proof fn lemma_tags_finite(photos: Photos, x: Slide)
    requires
        photos.wf(),
        x.wf(photos),
    ensures
        x.spec_tags(photos).finite(),
{
    broadcast use vstd::seq_lib::seq_to_set_is_finite;

    match x {
        Slide::Single(h) => {
        },
        Slide::Dual(a, b) => {
            vstd::set_lib::lemma_set_union_finite_iff(
                tag_set(photos.vs@[a as int].tags@),
                tag_set(photos.vs@[b as int].tags@),
            );
        },
    }
}

/// The score is symmetric: `score(x, y) == score(y, x)` for all slides.
pub proof fn lemma_score_symmetric(photos: Photos, x: Slide, y: Slide)
    requires
        photos.wf(),
        x.wf(photos),
        y.wf(photos),
    ensures
        spec_score(photos, x, y) == spec_score(photos, y, x),
{
    assert(x.spec_tags(photos).intersect(y.spec_tags(photos)) =~= y.spec_tags(
        photos,
    ).intersect(x.spec_tags(photos)));
}

/// The score is non-negative and never exceeds either slide's effective
/// length.
pub proof fn lemma_score_bounds(photos: Photos, x: Slide, y: Slide)
    requires
        photos.wf(),
        x.wf(photos),
        y.wf(photos),
    ensures
        0 <= spec_score(photos, x, y),
        spec_score(photos, x, y) <= x.spec_len(photos),
        spec_score(photos, x, y) <= y.spec_len(photos),
{
    lemma_tags_finite(photos, x);
    lemma_tags_finite(photos, y);
    let xs = x.spec_tags(photos);
    let ys = y.spec_tags(photos);
    lemma_len_intersect(xs, ys);
    lemma_len_intersect(ys, xs);
    assert(ys.intersect(xs) =~= xs.intersect(ys));
}

/// A `Dual` slide's effective length never exceeds the sum of its two
/// photos' tag counts, and equals that sum exactly when the photos share
/// no tag.
pub proof fn lemma_dual_len(photos: Photos, a: usize, b: usize)
    requires
        photos.wf(),
        a < photos.vs@.len(),
        b < photos.vs@.len(),
        a != b,
    ensures
        Slide::Dual(a, b).spec_len(photos) <= photos.vs@[a as int].tags@.len()
            + photos.vs@[b as int].tags@.len(),
        tag_set(photos.vs@[a as int].tags@).disjoint(tag_set(photos.vs@[b as int].tags@))
            ==> Slide::Dual(a, b).spec_len(photos) == photos.vs@[a as int].tags@.len()
            + photos.vs@[b as int].tags@.len(),
{
    let sa = tag_set(photos.vs@[a as int].tags@);
    let sb = tag_set(photos.vs@[b as int].tags@);
    lemma_sorted_len_is_card(photos.vs@[a as int].tags@);
    lemma_sorted_len_is_card(photos.vs@[b as int].tags@);
    lemma_set_intersect_union_lens(sa, sb);
    assert(sa + sb =~= sa.union(sb));
    if sa.disjoint(sb) {
        assert(sa.intersect(sb) =~= Set::<usize>::empty());
        assert(Set::<usize>::empty().len() == 0);
    }
}

} // verus!
