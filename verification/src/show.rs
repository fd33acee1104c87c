//! The finished slideshow: the ordered slide sequence, its total score
//! (the sum of the interest scores of every consecutive slide pair), and
//! its serialized form: a line with the slide count, then one line per
//! slide holding the photo id, or the two photo ids separated by a space,
//! in slide order.

use vstd::prelude::*;
use crate::photos::Photos;
use crate::score::lemma_score_bounds;
use crate::score::spec_score;
use crate::score::subscore;
use crate::slide::Slide;

verus! {

/// The finished ordered slide sequence of one input set.
pub struct Slideshow {
    pub slides: Vec<Slide>,
}

/// Every slide of the sequence refers to photos the arena holds.
pub open spec fn slides_wf(slides: Seq<Slide>, photos: Photos) -> bool {
    forall|i: int| 0 <= i < slides.len() ==> (#[trigger] slides[i]).wf(photos)
}

/// The sum of the scores of every consecutive slide pair; 0 for an empty
/// or single-slide sequence.
pub open spec fn spec_total_score(photos: Photos, slides: Seq<Slide>) -> int
    decreases slides.len(),
{
    if slides.len() <= 1 {
        0
    } else {
        spec_total_score(photos, slides.drop_last()) + spec_score(
            photos,
            slides[slides.len() - 2],
            slides.last(),
        )
    }
}

/// The total score is a sum of non-negative terms: it is non-negative,
/// and every prefix's total is at most the whole sequence's.
pub proof fn lemma_total_prefix_le(photos: Photos, slides: Seq<Slide>, i: int)
    requires
        photos.wf(),
        slides_wf(slides, photos),
        0 <= i <= slides.len(),
    ensures
        0 <= spec_total_score(photos, slides.subrange(0, i)),
        spec_total_score(photos, slides.subrange(0, i)) <= spec_total_score(photos, slides),
        i == slides.len() ==> spec_total_score(photos, slides.subrange(0, i))
            == spec_total_score(photos, slides),
    decreases slides.len() - i, slides.len() + 1,
{
    if i == slides.len() {
        assert(slides.subrange(0, i) =~= slides);
        lemma_total_nonneg(photos, slides);
    } else {
        let p1 = slides.subrange(0, i + 1);
        assert(p1.drop_last() =~= slides.subrange(0, i));
        if i + 1 >= 2 {
            assert(p1.last() == slides[i]);
            assert(p1[p1.len() - 2] == slides[i - 1]);
            lemma_score_bounds(photos, slides[i - 1], slides[i]);
        }
        lemma_total_prefix_le(photos, slides, i + 1);
        lemma_total_nonneg(photos, slides.subrange(0, i));
    }
}

pub proof fn lemma_total_nonneg(photos: Photos, slides: Seq<Slide>)
    requires
        photos.wf(),
        slides_wf(slides, photos),
    ensures
        0 <= spec_total_score(photos, slides),
    decreases slides.len(),
{
    if slides.len() > 1 {
        assert(slides_wf(slides.drop_last(), photos)) by {
            assert forall|i: int|
                0 <= i < slides.drop_last().len() implies (#[trigger] slides.drop_last()[i]).wf(
                photos,
            ) by {
                assert(slides.drop_last()[i] == slides[i]);
            }
        }
        lemma_total_nonneg(photos, slides.drop_last());
        lemma_score_bounds(photos, slides[slides.len() - 2], slides.last());
    }
}

impl Slideshow {
    /// The slideshow's total score: the sum of the interest scores of
    /// every consecutive slide pair, 0 when fewer than two slides exist.
    /// The bound on the mathematical total is a machine limit: the sum
    /// must fit the return type.
    pub fn score(&self, photos: &Photos) -> (r: usize)
        requires
            photos.wf(),
            slides_wf(self.slides@, *photos),
            spec_total_score(*photos, self.slides@) <= usize::MAX,
        ensures
            r == spec_total_score(*photos, self.slides@),
            self.slides@.len() <= 1 ==> r == 0,
    {
        let ghost all = self.slides@;
        if self.slides.len() == 0 {
            return 0;
        }
        let mut total: usize = 0;
        let mut i: usize = 1;
        proof {
            assert(spec_total_score(*photos, all.subrange(0, 1)) == 0);
        }
        while i < self.slides.len()
            invariant
                photos.wf(),
                all == self.slides@,
                slides_wf(all, *photos),
                spec_total_score(*photos, all) <= usize::MAX,
                1 <= i <= all.len(),
                total == spec_total_score(*photos, all.subrange(0, i as int)),
            decreases all.len() - i,
        {
            let s = subscore(&self.slides[i - 1], &self.slides[i], photos);
            proof {
                let p1 = all.subrange(0, i + 1);
                assert(p1.drop_last() =~= all.subrange(0, i as int));
                assert(p1.last() == all[i as int]);
                assert(p1[p1.len() - 2] == all[i - 1]);
                lemma_total_prefix_le(*photos, all, i + 1);
                lemma_total_prefix_le(*photos, all, i as int);
            }
            total = total + s;
            i = i + 1;
        }
        proof {
            assert(all.subrange(0, all.len() as int) =~= all);
        }
        total
    }
}

/// The decimal digits of `n`, most significant first, as ASCII bytes.
pub open spec fn dec_digits(n: nat) -> Seq<u8>
    decreases n,
{
    if n < 10 {
        seq![(48 + n) as u8]
    } else {
        dec_digits(n / 10).push((48 + n % 10) as u8)
    }
}

/// The output line of one slide: its photo id, or its two photo ids
/// separated by a space, ending in a newline.
pub open spec fn spec_line(photos: Photos, s: Slide) -> Seq<u8> {
    match s {
        Slide::Single(h) => dec_digits(photos.hs@[h as int].id as nat).push(10),
        Slide::Dual(a, b) => dec_digits(photos.vs@[a as int].id as nat) + seq![32u8] + dec_digits(
            photos.vs@[b as int].id as nat,
        ).push(10),
    }
}

pub open spec fn spec_lines(photos: Photos, slides: Seq<Slide>) -> Seq<u8>
    decreases slides.len(),
{
    if slides.len() == 0 {
        Seq::empty()
    } else {
        spec_lines(photos, slides.drop_last()) + spec_line(photos, slides.last())
    }
}

/// The serialized slideshow: the slide count on the first line, then one
/// line per slide, in slide order.
pub open spec fn spec_serialize(photos: Photos, slides: Seq<Slide>) -> Seq<u8> {
    dec_digits(slides.len()).push(10) + spec_lines(photos, slides)
}

/// Appends the decimal digits of `n`.
pub fn push_dec(out: &mut Vec<u8>, n: usize)
    ensures
        final(out)@ == old(out)@ + dec_digits(n as nat),
    decreases n,
{
    if n >= 10 {
        proof {
            assert(n / 10 < n) by (nonlinear_arith)
                requires
                    n >= 10,
            ;
        }
        let ghost before = out@;
        push_dec(out, n / 10);
        let d: u8 = (n % 10) as u8 + 48;
        out.push(d);
        proof {
            assert(out@ =~= before + dec_digits(n as nat));
        }
    } else {
        let d: u8 = n as u8 + 48;
        out.push(d);
        proof {
            assert(out@ =~= old(out)@ + dec_digits(n as nat));
        }
    }
}

impl Slideshow {
    /// Serializes the slideshow for the output file.
    pub fn serialize(&self, photos: &Photos) -> (out: Vec<u8>)
        requires
            photos.wf(),
            slides_wf(self.slides@, *photos),
        ensures
            out@ == spec_serialize(*photos, self.slides@),
    {
        let ghost all = self.slides@;
        let mut out: Vec<u8> = Vec::new();
        push_dec(&mut out, self.slides.len());
        out.push(10);
        proof {
            assert(spec_lines(*photos, all.subrange(0, 0)) =~= Seq::<u8>::empty());
            assert(out@ =~= dec_digits(all.len()).push(10) + spec_lines(
                *photos,
                all.subrange(0, 0),
            ));
        }
        let mut i: usize = 0;
        while i < self.slides.len()
            invariant
                photos.wf(),
                all == self.slides@,
                slides_wf(all, *photos),
                i <= all.len(),
                out@ == dec_digits(all.len()).push(10) + spec_lines(
                    *photos,
                    all.subrange(0, i as int),
                ),
            decreases all.len() - i,
        {
            let ghost before = out@;
            match self.slides[i] {
                Slide::Single(h) => {
                    push_dec(&mut out, photos.hs[h].id);
                    out.push(10);
                },
                Slide::Dual(a, b) => {
                    push_dec(&mut out, photos.vs[a].id);
                    out.push(32);
                    push_dec(&mut out, photos.vs[b].id);
                    out.push(10);
                },
            }
            proof {
                let p1 = all.subrange(0, i + 1);
                assert(p1.drop_last() =~= all.subrange(0, i as int));
                assert(p1.last() == all[i as int]);
                assert(out@ =~= before + spec_line(*photos, all[i as int]));
                assert(out@ =~= dec_digits(all.len()).push(10) + spec_lines(*photos, p1));
            }
            i = i + 1;
        }
        proof {
            assert(all.subrange(0, all.len() as int) =~= all);
        }
        out
    }
}

} // verus!
