//! A slide: one horizontal photo, or two vertical photos shown together.
//! A slide refers to photos by their index in the arena and never owns
//! them. Its effective tag set is the union of its photos' tag sets; all
//! size and membership operations de-duplicate tags shared by the two
//! photos of a `Dual` slide.

use vstd::prelude::*;
use vstd::set_lib::lemma_len_intersect;
use vstd::set_lib::lemma_set_intersect_union_lens;
use crate::photos::Photos;
use crate::photos::TagId;
use crate::photos::lemma_prefix_step;
use crate::photos::lemma_sorted_len_is_card;
use crate::photos::lemma_sorted_prefix_fresh;
use crate::photos::strictly_sorted;
use crate::photos::tag_set;

verus! {

/// One display unit: a single horizontal photo (by index into `Photos::hs`)
/// or a pair of distinct vertical photos (by index into `Photos::vs`).
#[derive(Clone, Copy, PartialEq, Eq, Structural)]
pub enum Slide {
    Single(usize),
    Dual(usize, usize),
}

impl Slide {
    /// The slide's indices are in range; a pair shows two distinct photos.
    pub open spec fn wf(self, photos: Photos) -> bool {
        match self {
            Slide::Single(h) => h < photos.hs@.len(),
            Slide::Dual(a, b) => a < photos.vs@.len() && b < photos.vs@.len() && a != b,
        }
    }

    /// The tag set the slide shows: its photo's tags, or the union of its
    /// two photos' tags.
    pub open spec fn spec_tags(self, photos: Photos) -> Set<TagId> {
        match self {
            Slide::Single(h) => tag_set(photos.hs@[h as int].tags@),
            Slide::Dual(a, b) => tag_set(photos.vs@[a as int].tags@).union(
                tag_set(photos.vs@[b as int].tags@),
            ),
        }
    }

    /// The slide's effective tag length: the size of its tag set.
    pub open spec fn spec_len(self, photos: Photos) -> nat {
        self.spec_tags(photos).len()
    }

    /// The number of distinct tags the slide shows. For a pair, a tag
    /// carried by both photos counts once.
    pub fn len(&self, photos: &Photos) -> (r: usize)
        requires
            photos.wf(),
            self.wf(*photos),
        ensures
            r == self.spec_len(*photos),
    {
        match self {
            Slide::Single(h) => {
                let r = photos.hs[*h].tags.len();
                proof {
                    lemma_sorted_len_is_card(photos.hs@[*h as int].tags@);
                }
                r
            },
            Slide::Dual(a, b) => {
                let t1 = &photos.vs[*a].tags;
                let t2 = &photos.vs[*b].tags;
                let ghost s1 = tag_set(t1@);
                let ghost s2 = tag_set(t2@);
                proof {
                    lemma_sorted_len_is_card(t1@);
                    lemma_sorted_len_is_card(t2@);
                }
                let mut len: usize = t1.len() + t2.len();
                proof {
                    assert(tag_set(t1@.subrange(0, 0)).intersect(s2) =~= Set::<usize>::empty());
                    assert(Set::<usize>::empty().len() == 0);
                }
                let mut k: usize = 0;
                while k < t1.len()
                    invariant
                        photos.wf(),
                        self.wf(*photos),
                        *self is Dual,
                        self->Dual_0 == *a,
                        self->Dual_1 == *b,
                        t1 == &photos.vs@[*a as int].tags,
                        t2 == &photos.vs@[*b as int].tags,
                        s1 == tag_set(t1@),
                        s2 == tag_set(t2@),
                        k <= t1@.len(),
                        len + tag_set(t1@.subrange(0, k as int)).intersect(s2).len() == t1@.len()
                            + t2@.len(),
                    decreases t1@.len() - k,
                {
                    let ghost p = tag_set(t1@.subrange(0, k as int));
                    let t = t1[k];
                    proof {
                        lemma_prefix_step(t1@, k as int);
                        lemma_sorted_prefix_fresh(t1@, k as int);
                        lemma_sorted_len_is_card(t1@.subrange(0, k as int));
                    }
                    if contains_tag(t2, t) {
                        proof {
                            assert(p.insert(t).intersect(s2) =~= p.intersect(s2).insert(t));
                            assert(!p.intersect(s2).contains(t));
                            lemma_len_intersect(p, s2);
                        }
                        len = len - 1;
                    } else {
                        proof {
                            assert(p.insert(t).intersect(s2) =~= p.intersect(s2));
                        }
                    }
                    k = k + 1;
                }
                proof {
                    assert(t1@.subrange(0, t1@.len() as int) =~= t1@);
                    lemma_set_intersect_union_lens(s1, s2);
                    assert(s1 + s2 =~= s1.union(s2));
                }
                len
            },
        }
    }

    /// Whether either constituent photo carries the tag.
    pub fn contains(&self, photos: &Photos, t: &TagId) -> (r: bool)
        requires
            self.wf(*photos),
        ensures
            r == self.spec_tags(*photos).contains(*t),
    {
        match self {
            Slide::Single(h) => contains_tag(&photos.hs[*h].tags, *t),
            Slide::Dual(a, b) => contains_tag(&photos.vs[*a].tags, *t) || contains_tag(
                &photos.vs[*b].tags,
                *t,
            ),
        }
    }
}

/// Whether a tag-identifier list carries the given tag.
pub fn contains_tag(tags: &Vec<TagId>, t: TagId) -> (r: bool)
    ensures
        r == tag_set(tags@).contains(t),
{
    let mut k: usize = 0;
    while k < tags.len()
        invariant
            k <= tags@.len(),
            forall|i: int| 0 <= i < k ==> tags@[i] != t,
        decreases tags@.len() - k,
    {
        if tags[k] == t {
            assert(tags@.to_set().contains(t));
            return true;
        }
        k = k + 1;
    }
    assert(!tags@.contains(t));
    false
}

} // verus!
