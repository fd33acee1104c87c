//! The greedy sequencer: builds the slide order one slide at a time. Each
//! step scans a bounded prefix of the remaining-horizontal pool and a
//! bounded window of pairs from the remaining-vertical pool, scores every
//! candidate against the last emitted slide, and commits the best one.
//! The window bounds trade solution quality for running time and are
//! exposed as configuration rather than hardcoded.

use vstd::prelude::*;
use crate::photos::Photos;
use crate::pool::count_in;
use crate::pool::init_pool;
use crate::pool::lemma_count_remove;
use crate::pool::remove_pair;
use crate::pool::spec_remove_both;
use crate::score::spec_score;
use crate::score::subscore;
use crate::slide::Slide;

verus! {

/// The sequencer's search bounds: how many leading pool entries each scan
/// may look at. The vertical-pair search is quadratic in its windows, so
/// its bounds are kept deliberately narrow.
pub struct Windows {
    pub horizontal_window: usize,
    pub vertical_outer_window: usize,
    pub vertical_inner_window: usize,
}

impl Windows {
    /// Every window admits at least one candidate: the horizontal scan and
    /// the outer vertical scan see at least one entry, and the inner
    /// vertical scan at least two, so that a distinct pair exists.
    pub open spec fn wf(self) -> bool {
        self.horizontal_window >= 1 && self.vertical_outer_window >= 1
            && self.vertical_inner_window >= 2
    }

    /// The stock configuration: a broad horizontal scan, a narrow
    /// vertical-pair window.
    pub fn defaults() -> (w: Windows)
        ensures
            w.wf(),
            w == (Windows {
                horizontal_window: 40000,
                vertical_outer_window: 1000,
                vertical_inner_window: 10,
            }),
    {
        Windows { horizontal_window: 40000, vertical_outer_window: 1000, vertical_inner_window: 10 }
    }
}

/// How many slides of the sequence show horizontal photo `k`.
pub open spec fn count_h(slides: Seq<Slide>, k: usize) -> nat
    decreases slides.len(),
{
    if slides.len() == 0 {
        0
    } else {
        count_h(slides.drop_last(), k) + match slides.last() {
            Slide::Single(h) => if h == k {
                1nat
            } else {
                0nat
            },
            Slide::Dual(_, _) => 0nat,
        }
    }
}

/// How many slots of the sequence's `Dual` slides show vertical photo `k`.
pub open spec fn count_v(slides: Seq<Slide>, k: usize) -> nat
    decreases slides.len(),
{
    if slides.len() == 0 {
        0
    } else {
        count_v(slides.drop_last(), k) + match slides.last() {
            Slide::Single(_) => 0nat,
            Slide::Dual(a, b) => (if a == k {
                1nat
            } else {
                0nat
            }) + (if b == k {
                1nat
            } else {
                0nat
            }),
        }
    }
}

pub proof fn lemma_count_h_push(slides: Seq<Slide>, s: Slide, k: usize)
    ensures
        count_h(slides.push(s), k) == count_h(slides, k) + match s {
            Slide::Single(h) => if h == k {
                1nat
            } else {
                0nat
            },
            Slide::Dual(_, _) => 0nat,
        },
{
    assert(slides.push(s).drop_last() =~= slides);
}

pub proof fn lemma_count_v_push(slides: Seq<Slide>, s: Slide, k: usize)
    ensures
        count_v(slides.push(s), k) == count_v(slides, k) + match s {
            Slide::Single(_) => 0nat,
            Slide::Dual(a, b) => (if a == k {
                1nat
            } else {
                0nat
            }) + (if b == k {
                1nat
            } else {
                0nat
            }),
        },
{
    assert(slides.push(s).drop_last() =~= slides);
}

/// The best `Single` candidate among the first `k` entries of the
/// horizontal pool: its pool position and its score against `last`.
/// Ties keep the earliest candidate.
pub open spec fn spec_best_single(photos: Photos, last: Slide, pool: Seq<usize>, k: int) -> Option<
    (int, int),
>
    decreases k,
{
    if k <= 0 {
        None
    } else {
        let sc = spec_score(photos, last, Slide::Single(pool[k - 1]));
        match spec_best_single(photos, last, pool, k - 1) {
            None => Some((k - 1, sc)),
            Some((bi, bs)) => if sc > bs {
                Some((k - 1, sc))
            } else {
                Some((bi, bs))
            },
        }
    }
}

pub proof fn lemma_best_single_props(photos: Photos, last: Slide, pool: Seq<usize>, k: int)
    requires
        0 <= k <= pool.len(),
    ensures
        spec_best_single(photos, last, pool, k) is None <==> k == 0,
        match spec_best_single(photos, last, pool, k) {
            None => true,
            Some((bi, bs)) => 0 <= bi < k && bs == spec_score(photos, last, Slide::Single(pool[bi])),
        },
    decreases k,
{
    if k > 0 {
        lemma_best_single_props(photos, last, pool, k - 1);
    }
}

/// The exec view of a best-candidate result, for comparison against the
/// spec-level search.
pub open spec fn lift_single(r: Option<(usize, usize)>) -> Option<(int, int)> {
    match r {
        None => None,
        Some((i, s)) => Some((i as int, s as int)),
    }
}

/// Scans at most the first `window` entries of the horizontal pool and
/// returns the pool position and score of the best-scoring `Single`
/// candidate against `last`; ties keep the first candidate encountered.
pub fn best_single(photos: &Photos, last: &Slide, pool: &Vec<usize>, window: usize) -> (r: Option<
    (usize, usize),
>)
    requires
        photos.wf(),
        last.wf(*photos),
        forall|p: int| 0 <= p < pool@.len() ==> #[trigger] pool@[p] < photos.hs@.len(),
    ensures
        lift_single(r) == spec_best_single(
            *photos,
            *last,
            pool@,
            if window < pool@.len() {
                window as int
            } else {
                pool@.len() as int
            },
        ),
{
    let bound = if window < pool.len() {
        window
    } else {
        pool.len()
    };
    let mut best: Option<(usize, usize)> = None;
    let mut i: usize = 0;
    while i < bound
        invariant
            photos.wf(),
            last.wf(*photos),
            forall|p: int| 0 <= p < pool@.len() ==> #[trigger] pool@[p] < photos.hs@.len(),
            i <= bound <= pool@.len(),
            lift_single(best) == spec_best_single(*photos, *last, pool@, i as int),
        decreases bound - i,
    {
        let cand = Slide::Single(pool[i]);
        let sc = subscore(last, &cand, photos);
        match best {
            None => {
                best = Some((i, sc));
            },
            Some((_, bs)) => {
                if sc > bs {
                    best = Some((i, sc));
                }
            },
        }
        i = i + 1;
    }
    best
}

/// The best `Dual` candidate with outer pool position `i` and inner pool
/// position `j < jk`, `j != i`: the pair of pool positions and its score
/// against `last`. Ties keep the earliest `j`.
pub open spec fn spec_best_in_row(
    photos: Photos,
    last: Slide,
    pool: Seq<usize>,
    i: int,
    jk: int,
) -> Option<(int, int, int)>
    decreases jk,
{
    if jk <= 0 {
        None
    } else {
        let prev = spec_best_in_row(photos, last, pool, i, jk - 1);
        if jk - 1 == i {
            prev
        } else {
            let sc = spec_score(photos, last, Slide::Dual(pool[i], pool[jk - 1]));
            match prev {
                None => Some((i, jk - 1, sc)),
                Some((bi, bj, bs)) => if sc > bs {
                    Some((i, jk - 1, sc))
                } else {
                    Some((bi, bj, bs))
                },
            }
        }
    }
}

/// A later candidate replaces the best so far only when it scores strictly
/// higher, so the first best encountered wins ties.
pub open spec fn combine(
    prev: Option<(int, int, int)>,
    row: Option<(int, int, int)>,
) -> Option<(int, int, int)> {
    match (prev, row) {
        (None, r) => r,
        (p, None) => p,
        (Some((pi, pj, ps)), Some((ri, rj, rs))) => if rs > ps {
            Some((ri, rj, rs))
        } else {
            Some((pi, pj, ps))
        },
    }
}

/// The best `Dual` candidate over outer positions `i < ik` and inner
/// positions `j < jk`, `i != j`; earlier candidates (in `i`-major order)
/// win ties.
pub open spec fn spec_best_dual(
    photos: Photos,
    last: Slide,
    pool: Seq<usize>,
    ik: int,
    jk: int,
) -> Option<(int, int, int)>
    decreases ik,
{
    if ik <= 0 {
        None
    } else {
        combine(
            spec_best_dual(photos, last, pool, ik - 1, jk),
            spec_best_in_row(photos, last, pool, ik - 1, jk),
        )
    }
}

pub proof fn lemma_best_in_row_props(photos: Photos, last: Slide, pool: Seq<usize>, i: int, jk: int)
    requires
        0 <= i < pool.len(),
        0 <= jk <= pool.len(),
    ensures
        match spec_best_in_row(photos, last, pool, i, jk) {
            None => true,
            Some((bi, bj, bs)) => bi == i && 0 <= bj < jk && bj != i && bs == spec_score(
                photos,
                last,
                Slide::Dual(pool[i], pool[bj]),
            ),
        },
    decreases jk,
{
    if jk > 0 {
        lemma_best_in_row_props(photos, last, pool, i, jk - 1);
    }
}

pub proof fn lemma_best_dual_props(photos: Photos, last: Slide, pool: Seq<usize>, ik: int, jk: int)
    requires
        0 <= ik <= pool.len(),
        0 <= jk <= pool.len(),
    ensures
        match spec_best_dual(photos, last, pool, ik, jk) {
            None => true,
            Some((bi, bj, bs)) => 0 <= bi < ik && 0 <= bj < jk && bj != bi && bs == spec_score(
                photos,
                last,
                Slide::Dual(pool[bi], pool[bj]),
            ),
        },
    decreases ik,
{
    if ik > 0 {
        lemma_best_dual_props(photos, last, pool, ik - 1, jk);
        lemma_best_in_row_props(photos, last, pool, ik - 1, jk);
    }
}

/// As long as the windows admit a distinct pair of pool positions, the
/// pair search finds a candidate.
pub proof fn lemma_best_dual_is_some(photos: Photos, last: Slide, pool: Seq<usize>, ik: int, jk: int)
    requires
        1 <= ik <= pool.len(),
        2 <= jk <= pool.len(),
    ensures
        spec_best_dual(photos, last, pool, ik, jk) is Some,
{
    lemma_best_in_row_some_witness(photos, last, pool, 0, jk, 1);
    lemma_best_dual_row_included(photos, last, pool, 1, jk);
    if ik > 1 {
        lemma_best_dual_some_monotone(photos, last, pool, 1, ik, jk);
    }
}

pub proof fn lemma_best_in_row_some_witness(
    photos: Photos,
    last: Slide,
    pool: Seq<usize>,
    i: int,
    jk: int,
    j: int,
)
    requires
        0 <= j < jk,
        j != i,
    ensures
        spec_best_in_row(photos, last, pool, i, jk) is Some,
    decreases jk,
{
    if j < jk - 1 {
        lemma_best_in_row_some_witness(photos, last, pool, i, jk - 1, j);
    }
}

pub proof fn lemma_best_dual_row_included(
    photos: Photos,
    last: Slide,
    pool: Seq<usize>,
    ik: int,
    jk: int,
)
    requires
        ik >= 1,
    ensures
        spec_best_in_row(photos, last, pool, ik - 1, jk) is Some ==> spec_best_dual(
            photos,
            last,
            pool,
            ik,
            jk,
        ) is Some,
{
}

pub proof fn lemma_best_dual_some_monotone(
    photos: Photos,
    last: Slide,
    pool: Seq<usize>,
    ik0: int,
    ik: int,
    jk: int,
)
    requires
        1 <= ik0 <= ik,
        spec_best_dual(photos, last, pool, ik0, jk) is Some,
    ensures
        spec_best_dual(photos, last, pool, ik, jk) is Some,
    decreases ik - ik0,
{
    if ik0 < ik {
        lemma_best_dual_some_monotone(photos, last, pool, ik0 + 1, ik, jk);
    }
}

pub open spec fn lift_dual(r: Option<(usize, usize, usize)>) -> Option<(int, int, int)> {
    match r {
        None => None,
        Some((i, j, s)) => Some((i as int, j as int, s as int)),
    }
}

/// Scans pairs of vertical-pool positions, the outer position over at most
/// the first `outer_window` entries and the inner position over at most
/// the first `inner_window`, skipping equal positions, and returns the
/// best-scoring pair and its score against `last`; the first candidate
/// encountered wins ties.
pub fn best_dual(
    photos: &Photos,
    last: &Slide,
    pool: &Vec<usize>,
    outer_window: usize,
    inner_window: usize,
) -> (r: Option<(usize, usize, usize)>)
    requires
        photos.wf(),
        last.wf(*photos),
        forall|p: int| 0 <= p < pool@.len() ==> #[trigger] pool@[p] < photos.vs@.len(),
        forall|p: int, q: int| 0 <= p < q < pool@.len() ==> pool@[p] != pool@[q],
    ensures
        lift_dual(r) == spec_best_dual(
            *photos,
            *last,
            pool@,
            if outer_window < pool@.len() {
                outer_window as int
            } else {
                pool@.len() as int
            },
            if inner_window < pool@.len() {
                inner_window as int
            } else {
                pool@.len() as int
            },
        ),
{
    let obound = if outer_window < pool.len() {
        outer_window
    } else {
        pool.len()
    };
    let ibound = if inner_window < pool.len() {
        inner_window
    } else {
        pool.len()
    };
    let mut best: Option<(usize, usize, usize)> = None;
    let mut i: usize = 0;
    while i < obound
        invariant
            photos.wf(),
            last.wf(*photos),
            forall|p: int| 0 <= p < pool@.len() ==> #[trigger] pool@[p] < photos.vs@.len(),
            forall|p: int, q: int| 0 <= p < q < pool@.len() ==> pool@[p] != pool@[q],
            i <= obound <= pool@.len(),
            ibound <= pool@.len(),
            ibound == if inner_window < pool@.len() {
                inner_window as int
            } else {
                pool@.len() as int
            },
            lift_dual(best) == spec_best_dual(*photos, *last, pool@, i as int, ibound as int),
        decreases obound - i,
    {
        let mut j: usize = 0;
        while j < ibound
            invariant
                photos.wf(),
                last.wf(*photos),
                forall|p: int| 0 <= p < pool@.len() ==> #[trigger] pool@[p] < photos.vs@.len(),
                forall|p: int, q: int| 0 <= p < q < pool@.len() ==> pool@[p] != pool@[q],
                i < obound <= pool@.len(),
                j <= ibound <= pool@.len(),
                lift_dual(best) == combine(
                    spec_best_dual(*photos, *last, pool@, i as int, ibound as int),
                    spec_best_in_row(*photos, *last, pool@, i as int, j as int),
                ),
            decreases ibound - j,
        {
            if i != j {
                let cand = Slide::Dual(pool[i], pool[j]);
                proof {
                    if i < j {
                        assert(pool@[i as int] != pool@[j as int]);
                    } else {
                        assert(pool@[j as int] != pool@[i as int]);
                    }
                }
                let sc = subscore(last, &cand, photos);
                match best {
                    None => {
                        best = Some((i, j, sc));
                    },
                    Some((_, _, bs)) => {
                        if sc > bs {
                            best = Some((i, j, sc));
                        }
                    },
                }
            }
            j = j + 1;
        }
        proof {
            assert(spec_best_dual(*photos, *last, pool@, i + 1, ibound as int) == combine(
                spec_best_dual(*photos, *last, pool@, i as int, ibound as int),
                spec_best_in_row(*photos, *last, pool@, i as int, ibound as int),
            ));
        }
        i = i + 1;
    }
    best
}

/// The rest of the greedy sequence, from the given pools and the last
/// emitted slide: the best `Single` candidate is committed when it
/// scores at least as much as the best pair (a missing pair counts as
/// score 0); otherwise the best pair is; the sequence ends when neither
/// window offers a candidate. The bounds guards mirror what the
/// candidate searches guarantee and never fail.
pub open spec fn spec_greedy(
    photos: Photos,
    w: Windows,
    hpool: Seq<usize>,
    vpool: Seq<usize>,
    last: Slide,
) -> Seq<Slide>
    decreases hpool.len() + vpool.len(),
{
    let kh = if w.horizontal_window < hpool.len() {
        w.horizontal_window as int
    } else {
        hpool.len() as int
    };
    let ko = if w.vertical_outer_window < vpool.len() {
        w.vertical_outer_window as int
    } else {
        vpool.len() as int
    };
    let ki = if w.vertical_inner_window < vpool.len() {
        w.vertical_inner_window as int
    } else {
        vpool.len() as int
    };
    let bh = spec_best_single(photos, last, hpool, kh);
    let bv = spec_best_dual(photos, last, vpool, ko, ki);
    let bvs: int = match bv {
        None => 0,
        Some(t) => t.2,
    };
    let commit_h = match bh {
        None => false,
        Some(t) => t.1 >= bvs,
    };
    if commit_h {
        let bi = match bh {
            None => 0int,
            Some(t) => t.0,
        };
        if 0 <= bi < hpool.len() {
            let s = Slide::Single(hpool[bi]);
            seq![s] + spec_greedy(photos, w, hpool.remove(bi), vpool, s)
        } else {
            Seq::empty()
        }
    } else {
        match bv {
            None => Seq::empty(),
            Some(t) => {
                let (i, j, _sc) = t;
                if 0 <= i < vpool.len() && 0 <= j < vpool.len() && i != j {
                    let s = Slide::Dual(vpool[i], vpool[j]);
                    seq![s] + spec_greedy(photos, w, hpool, spec_remove_both(vpool, i, j), s)
                } else {
                    Seq::empty()
                }
            },
        }
    }
}

/// The whole greedy sequence: the pools start holding every photo
/// position of their orientation in parse order; the first slide is the
/// first horizontal photo, or the first two vertical photos when no
/// horizontal exists, or nothing at all when neither is possible.
pub open spec fn spec_sequence(photos: Photos, w: Windows) -> Seq<Slide> {
    let nh = photos.hs@.len();
    let nv = photos.vs@.len();
    let hp = Seq::new(nh, |i: int| i as usize);
    let vp = Seq::new(nv, |i: int| i as usize);
    if nh == 0 && nv < 2 {
        Seq::empty()
    } else if nh > 0 {
        let s = Slide::Single(hp[0]);
        seq![s] + spec_greedy(photos, w, hp.remove(0), vp, s)
    } else {
        let s = Slide::Dual(vp[0], vp[1]);
        seq![s] + spec_greedy(photos, w, hp, spec_remove_both(vp, 0, 1), s)
    }
}

/// How the counts change when a `Single` slide is committed: the chosen
/// entry moves from the horizontal pool into the slide sequence.
pub proof fn lemma_counts_after_single(sl0: Seq<Slide>, s0: Seq<usize>, bi: int)
    requires
        0 <= bi < s0.len(),
    ensures
        forall|k: usize| #![trigger count_h(sl0.push(Slide::Single(s0[bi])), k)]
            count_h(sl0.push(Slide::Single(s0[bi])), k) == count_h(sl0, k) + (if s0[bi] == k {
                1nat
            } else {
                0nat
            }),
        forall|k: usize| #![trigger count_v(sl0.push(Slide::Single(s0[bi])), k)]
            count_v(sl0.push(Slide::Single(s0[bi])), k) == count_v(sl0, k),
        forall|k: usize| #![trigger count_in(s0.remove(bi), k)]
            count_in(s0, k) == count_in(s0.remove(bi), k) + (if s0[bi] == k {
                1nat
            } else {
                0nat
            }),
        forall|p: int| 0 <= p < bi ==> #[trigger] s0.remove(bi)[p] == s0[p],
        forall|p: int| bi <= p < s0.len() - 1 ==> #[trigger] s0.remove(bi)[p] == s0[p + 1],
{
    s0.remove_ensures(bi);
    assert forall|k: usize| #![trigger count_h(sl0.push(Slide::Single(s0[bi])), k)]
        count_h(sl0.push(Slide::Single(s0[bi])), k) == count_h(sl0, k) + (if s0[bi] == k {
            1nat
        } else {
            0nat
        }) by {
        lemma_count_h_push(sl0, Slide::Single(s0[bi]), k);
    }
    assert forall|k: usize| #![trigger count_v(sl0.push(Slide::Single(s0[bi])), k)]
        count_v(sl0.push(Slide::Single(s0[bi])), k) == count_v(sl0, k) by {
        lemma_count_v_push(sl0, Slide::Single(s0[bi]), k);
    }
    assert forall|k: usize| #![trigger count_in(s0.remove(bi), k)]
        count_in(s0, k) == count_in(s0.remove(bi), k) + (if s0[bi] == k {
            1nat
        } else {
            0nat
        }) by {
        lemma_count_remove(s0, bi, k);
    }
}

/// How the counts change when a `Dual` slide is committed: both chosen
/// entries move from the vertical pool into the slide sequence, and the
/// pool keeps its entries distinct and in range.
pub proof fn lemma_counts_after_dual(sl0: Seq<Slide>, s0: Seq<usize>, i: int, j: int, bound: usize)
    requires
        0 <= i < s0.len(),
        0 <= j < s0.len(),
        i != j,
        forall|p: int| 0 <= p < s0.len() ==> #[trigger] s0[p] < bound,
        forall|p: int, q: int| 0 <= p < q < s0.len() ==> s0[p] != s0[q],
    ensures
        forall|k: usize| #![trigger count_h(sl0.push(Slide::Dual(s0[i], s0[j])), k)]
            count_h(sl0.push(Slide::Dual(s0[i], s0[j])), k) == count_h(sl0, k),
        forall|k: usize| #![trigger count_v(sl0.push(Slide::Dual(s0[i], s0[j])), k)]
            count_v(sl0.push(Slide::Dual(s0[i], s0[j])), k) == count_v(sl0, k) + (if s0[i] == k {
                1nat
            } else {
                0nat
            }) + (if s0[j] == k {
                1nat
            } else {
                0nat
            }),
        forall|p: int|
            0 <= p < spec_remove_both(s0, i, j).len() ==> #[trigger] spec_remove_both(s0, i, j)[p]
                < bound,
        forall|p: int, q: int|
            0 <= p < q < spec_remove_both(s0, i, j).len() ==> spec_remove_both(s0, i, j)[p]
                != spec_remove_both(s0, i, j)[q],
{
    let lo = if i < j {
        i
    } else {
        j
    };
    let hi = if i < j {
        j
    } else {
        i
    };
    let rb = spec_remove_both(s0, i, j);
    s0.remove_ensures(hi);
    s0.remove(hi).remove_ensures(lo);
    assert(rb == s0.remove(hi).remove(lo));
    assert forall|k: usize| #![trigger count_h(sl0.push(Slide::Dual(s0[i], s0[j])), k)]
        count_h(sl0.push(Slide::Dual(s0[i], s0[j])), k) == count_h(sl0, k) by {
        lemma_count_h_push(sl0, Slide::Dual(s0[i], s0[j]), k);
    }
    assert forall|k: usize| #![trigger count_v(sl0.push(Slide::Dual(s0[i], s0[j])), k)]
        count_v(sl0.push(Slide::Dual(s0[i], s0[j])), k) == count_v(sl0, k) + (if s0[i] == k {
            1nat
        } else {
            0nat
        }) + (if s0[j] == k {
            1nat
        } else {
            0nat
        }) by {
        lemma_count_v_push(sl0, Slide::Dual(s0[i], s0[j]), k);
    }
    assert forall|p: int| 0 <= p < rb.len() implies #[trigger] rb[p] < bound by {
        if p < lo {
            assert(rb[p] == s0.remove(hi)[p]);
        } else {
            assert(rb[p] == s0.remove(hi)[p + 1]);
        }
    }
    assert forall|p: int, q: int| 0 <= p < q < rb.len() implies rb[p] != rb[q] by {
        let p2 = if p < lo {
            p
        } else {
            p + 1
        };
        let q2 = if q < lo {
            q
        } else {
            q + 1
        };
        assert(rb[p] == s0.remove(hi)[p2]);
        assert(rb[q] == s0.remove(hi)[q2]);
        let p3 = if p2 < hi {
            p2
        } else {
            p2 + 1
        };
        let q3 = if q2 < hi {
            q2
        } else {
            q2 + 1
        };
        assert(s0.remove(hi)[p2] == s0[p3]);
        assert(s0.remove(hi)[q2] == s0[q3]);
    }
}

/// One unfolding of the greedy step when the `Single` candidate wins.
pub proof fn lemma_greedy_step_single(
    photos: Photos,
    w: Windows,
    hpool: Seq<usize>,
    vpool: Seq<usize>,
    last: Slide,
    bi: int,
    bs: int,
)
    requires
        spec_best_single(
            photos,
            last,
            hpool,
            if w.horizontal_window < hpool.len() {
                w.horizontal_window as int
            } else {
                hpool.len() as int
            },
        ) == Some((bi, bs)),
        bs >= (match spec_best_dual(
            photos,
            last,
            vpool,
            if w.vertical_outer_window < vpool.len() {
                w.vertical_outer_window as int
            } else {
                vpool.len() as int
            },
            if w.vertical_inner_window < vpool.len() {
                w.vertical_inner_window as int
            } else {
                vpool.len() as int
            },
        ) {
            None => 0int,
            Some(t) => t.2,
        }),
        0 <= bi < hpool.len(),
    ensures
        spec_greedy(photos, w, hpool, vpool, last) == seq![Slide::Single(hpool[bi])]
            + spec_greedy(photos, w, hpool.remove(bi), vpool, Slide::Single(hpool[bi])),
{
}

/// One unfolding of the greedy step when the pair candidate wins.
pub proof fn lemma_greedy_step_dual(
    photos: Photos,
    w: Windows,
    hpool: Seq<usize>,
    vpool: Seq<usize>,
    last: Slide,
    i: int,
    j: int,
    sc: int,
)
    requires
        spec_best_dual(
            photos,
            last,
            vpool,
            if w.vertical_outer_window < vpool.len() {
                w.vertical_outer_window as int
            } else {
                vpool.len() as int
            },
            if w.vertical_inner_window < vpool.len() {
                w.vertical_inner_window as int
            } else {
                vpool.len() as int
            },
        ) == Some((i, j, sc)),
        (match spec_best_single(
            photos,
            last,
            hpool,
            if w.horizontal_window < hpool.len() {
                w.horizontal_window as int
            } else {
                hpool.len() as int
            },
        ) {
            None => true,
            Some(t) => !(t.1 >= sc),
        }),
        0 <= i < vpool.len(),
        0 <= j < vpool.len(),
        i != j,
    ensures
        spec_greedy(photos, w, hpool, vpool, last) == seq![Slide::Dual(vpool[i], vpool[j])]
            + spec_greedy(
            photos,
            w,
            hpool,
            spec_remove_both(vpool, i, j),
            Slide::Dual(vpool[i], vpool[j]),
        ),
{
}

/// The greedy step ends the sequence when neither window offers a
/// candidate.
pub proof fn lemma_greedy_step_stop(
    photos: Photos,
    w: Windows,
    hpool: Seq<usize>,
    vpool: Seq<usize>,
    last: Slide,
)
    requires
        spec_best_single(
            photos,
            last,
            hpool,
            if w.horizontal_window < hpool.len() {
                w.horizontal_window as int
            } else {
                hpool.len() as int
            },
        ) is None,
        spec_best_dual(
            photos,
            last,
            vpool,
            if w.vertical_outer_window < vpool.len() {
                w.vertical_outer_window as int
            } else {
                vpool.len() as int
            },
            if w.vertical_inner_window < vpool.len() {
                w.vertical_inner_window as int
            } else {
                vpool.len() as int
            },
        ) is None,
    ensures
        spec_greedy(photos, w, hpool, vpool, last) == Seq::<Slide>::empty(),
{
}

/// How many photo slots of the slide sequence carry the photo id `i`.
pub open spec fn count_id(slides: Seq<Slide>, photos: Photos, i: usize) -> nat
    decreases slides.len(),
{
    if slides.len() == 0 {
        0
    } else {
        count_id(slides.drop_last(), photos, i) + match slides.last() {
            Slide::Single(h) => if photos.hs@[h as int].id == i {
                1nat
            } else {
                0nat
            },
            Slide::Dual(a, b) => (if photos.vs@[a as int].id == i {
                1nat
            } else {
                0nat
            }) + (if photos.vs@[b as int].id == i {
                1nat
            } else {
                0nat
            }),
        }
    }
}

/// When exactly one horizontal photo carries the id `i` and no vertical
/// one does, the id is shown exactly as often as that photo.
proof fn lemma_count_id_single(slides: Seq<Slide>, photos: Photos, x: usize, i: usize)
    requires
        forall|idx: int| 0 <= idx < slides.len() ==> (#[trigger] slides[idx]).wf(photos),
        x < photos.hs@.len(),
        photos.hs@[x as int].id == i,
        forall|y: int| 0 <= y < photos.hs@.len() && y != x ==> (#[trigger] photos.hs@[y]).id != i,
        forall|y: int| 0 <= y < photos.vs@.len() ==> (#[trigger] photos.vs@[y]).id != i,
    ensures
        count_id(slides, photos, i) == count_h(slides, x),
    decreases slides.len(),
{
    if slides.len() > 0 {
        assert forall|idx: int|
            0 <= idx < slides.drop_last().len() implies (#[trigger] slides.drop_last()[idx]).wf(
            photos,
        ) by {
            assert(slides.drop_last()[idx] == slides[idx]);
        }
        lemma_count_id_single(slides.drop_last(), photos, x, i);
        assert(slides[slides.len() - 1].wf(photos));
    }
}

/// When exactly one vertical photo carries the id `i` and no horizontal
/// one does, the id is shown exactly as often as that photo.
proof fn lemma_count_id_dual(slides: Seq<Slide>, photos: Photos, x: usize, i: usize)
    requires
        forall|idx: int| 0 <= idx < slides.len() ==> (#[trigger] slides[idx]).wf(photos),
        x < photos.vs@.len(),
        photos.vs@[x as int].id == i,
        forall|y: int| 0 <= y < photos.vs@.len() && y != x ==> (#[trigger] photos.vs@[y]).id != i,
        forall|y: int| 0 <= y < photos.hs@.len() ==> (#[trigger] photos.hs@[y]).id != i,
    ensures
        count_id(slides, photos, i) == count_v(slides, x),
    decreases slides.len(),
{
    if slides.len() > 0 {
        assert forall|idx: int|
            0 <= idx < slides.drop_last().len() implies (#[trigger] slides.drop_last()[idx]).wf(
            photos,
        ) by {
            assert(slides.drop_last()[idx] == slides[idx]);
        }
        lemma_count_id_dual(slides.drop_last(), photos, x, i);
        assert(slides[slides.len() - 1].wf(photos));
    }
}

/// Every photo id present in the input appears in exactly one emitted
/// slide, exactly once, when sequencing an arena the builder produced:
/// unconditionally for horizontal photos, and for vertical photos
/// whenever their number is even (with an odd count, one vertical photo
/// must stay unplaced, since slides show them only in pairs).
pub proof fn lemma_every_input_photo_placed_once(
    records: Seq<crate::records::PhotoRecord>,
    m: crate::vocab::TagMap,
    photos: Photos,
    slides: Seq<Slide>,
)
    requires
        crate::records::build_ok(records, m, photos),
        forall|idx: int| 0 <= idx < slides.len() ==> (#[trigger] slides[idx]).wf(photos),
        forall|k: usize| k < photos.hs@.len() ==> count_h(slides, k) == 1,
        photos.vs@.len() % 2 == 0 ==> forall|k: usize|
            k < photos.vs@.len() ==> count_v(slides, k) == 1,
    ensures
        forall|i: usize|
            i < records.len() && !records[i as int].vertical ==> count_id(slides, photos, i) == 1,
        photos.vs@.len() % 2 == 0 ==> forall|i: usize|
            i < records.len() && records[i as int].vertical ==> count_id(slides, photos, i) == 1,
{
    assert forall|i: usize|
        i < records.len() && !records[i as int].vertical implies count_id(slides, photos, i)
        == 1 by {
        let x = choose|x: int| 0 <= x < photos.hs@.len() && (#[trigger] photos.hs@[x]).id == i;
        vstd::std_specs::vec::axiom_spec_len(&photos.hs);
        assert((x as usize) as int == x);
        lemma_count_id_single(slides, photos, x as usize, i);
    }
    if photos.vs@.len() % 2 == 0 {
        assert forall|i: usize|
            i < records.len() && records[i as int].vertical implies count_id(slides, photos, i)
            == 1 by {
            let x = choose|x: int| 0 <= x < photos.vs@.len() && (#[trigger] photos.vs@[x]).id == i;
            vstd::std_specs::vec::axiom_spec_len(&photos.vs);
            assert((x as usize) as int == x);
            lemma_count_id_dual(slides, photos, x as usize, i);
        }
    }
}

/// Builds the slide order greedily. The first slide is the first remaining
/// horizontal photo, or the first two vertical photos when no horizontal
/// exists; every later slide is the best-scoring candidate from the
/// bounded windows, a `Single` winning ties against the best pair. With
/// no horizontal photo and fewer than two vertical ones the slideshow is
/// empty. The result is exactly `spec_sequence`.
///
/// Every horizontal photo is placed exactly once. Vertical photos are
/// placed at most once each, and exactly once each when their number is
/// even; an odd count leaves one vertical photo unplaced, since a slide
/// can only show them in pairs.
#[verifier::rlimit(100)]
pub fn sequence(photos: &Photos, w: &Windows) -> (slides: Vec<Slide>)
    requires
        photos.wf(),
        w.wf(),
    ensures
        forall|idx: int| 0 <= idx < slides@.len() ==> (#[trigger] slides@[idx]).wf(*photos),
        forall|k: usize| k < photos.hs@.len() ==> count_h(slides@, k) == 1,
        forall|k: usize| k >= photos.hs@.len() ==> count_h(slides@, k) == 0,
        forall|k: usize| #![auto] k < photos.vs@.len() ==> count_v(slides@, k) <= 1,
        forall|k: usize| k >= photos.vs@.len() ==> count_v(slides@, k) == 0,
        photos.vs@.len() % 2 == 0 ==> forall|k: usize|
            k < photos.vs@.len() ==> count_v(slides@, k) == 1,
        slides@.len() == 0 <==> photos.hs@.len() == 0 && photos.vs@.len() < 2,
        photos.hs@.len() > 0 ==> slides@[0] == Slide::Single(0usize),
        photos.hs@.len() == 0 && photos.vs@.len() >= 2 ==> slides@[0] == Slide::Dual(0usize, 1usize),
        slides@ == spec_sequence(*photos, *w),
{
    let nh = photos.hs.len();
    let nv = photos.vs.len();
    let mut slides: Vec<Slide> = Vec::new();
    if nh == 0 && nv < 2 {
        proof {
            assert forall|k: usize| count_h(slides@, k) == 0 && count_v(slides@, k) == 0 by {}
            assert(slides@ =~= spec_sequence(*photos, *w));
        }
        return slides;
    }
    let mut hpool = init_pool(nh);
    let mut vpool = init_pool(nv);
    if nh > 0 {
        let ghost s0 = hpool@;
        let first = hpool.remove(0);
        let ghost sl0 = slides@;
        slides.push(Slide::Single(first));
        proof {
            s0.remove_ensures(0);
            assert(slides@ == sl0.push(Slide::Single(first)));
            assert forall|k: usize| #![trigger count_h(slides@, k)]
                count_h(slides@, k) == (if first == k {
                    1nat
                } else {
                    0nat
                }) by {
                lemma_count_h_push(sl0, Slide::Single(first), k);
                assert(count_h(sl0, k) == 0);
            }
            assert forall|k: usize| #![trigger count_v(slides@, k)] count_v(slides@, k) == 0 by {
                lemma_count_v_push(sl0, Slide::Single(first), k);
                assert(count_v(sl0, k) == 0);
            }
            assert forall|k: usize| #![trigger count_in(hpool@, k)]
                count_in(s0, k) == count_in(hpool@, k) + (if first == k {
                    1nat
                } else {
                    0nat
                }) by {
                lemma_count_remove(s0, 0, k);
            }
            let hp = Seq::new(nh as nat, |i: int| i as usize);
            let vp = Seq::new(nv as nat, |i: int| i as usize);
            assert(s0 =~= hp);
            assert(vpool@ =~= vp);
            assert(slides@ =~= seq![Slide::Single(first)]);
            assert(spec_sequence(*photos, *w) == seq![Slide::Single(first)] + spec_greedy(
                *photos,
                *w,
                hp.remove(0),
                vp,
                Slide::Single(first),
            ));
            assert(slides@ + spec_greedy(*photos, *w, hpool@, vpool@, slides@.last())
                == spec_sequence(*photos, *w));
        }
    } else {
        let ghost s0 = vpool@;
        let (a, b) = remove_pair(&mut vpool, 0, 1);
        let ghost sl0 = slides@;
        slides.push(Slide::Dual(a, b));
        proof {
            assert(slides@ == sl0.push(Slide::Dual(a, b)));
            assert forall|k: usize| #![trigger count_h(slides@, k)] count_h(slides@, k) == 0 by {
                lemma_count_h_push(sl0, Slide::Dual(a, b), k);
                assert(count_h(sl0, k) == 0);
            }
            assert forall|k: usize| #![trigger count_v(slides@, k)]
                count_v(slides@, k) == (if a == k {
                    1nat
                } else {
                    0nat
                }) + (if b == k {
                    1nat
                } else {
                    0nat
                }) by {
                lemma_count_v_push(sl0, Slide::Dual(a, b), k);
                assert(count_v(sl0, k) == 0);
            }
            let hp = Seq::new(nh as nat, |i: int| i as usize);
            let vp = Seq::new(nv as nat, |i: int| i as usize);
            assert(hpool@ =~= hp);
            assert(s0 =~= vp);
            assert(slides@ =~= seq![Slide::Dual(a, b)]);
            assert(spec_sequence(*photos, *w) == seq![Slide::Dual(a, b)] + spec_greedy(
                *photos,
                *w,
                hp,
                spec_remove_both(vp, 0, 1),
                Slide::Dual(a, b),
            ));
            assert(slides@ + spec_greedy(*photos, *w, hpool@, vpool@, slides@.last())
                == spec_sequence(*photos, *w));
        }
    }
    loop
        invariant
            photos.wf(),
            w.wf(),
            nh == photos.hs@.len(),
            nv == photos.vs@.len(),
            slides@.len() >= 1,
            forall|idx: int| 0 <= idx < slides@.len() ==> (#[trigger] slides@[idx]).wf(*photos),
            forall|p: int| 0 <= p < hpool@.len() ==> #[trigger] hpool@[p] < nh,
            forall|p: int| 0 <= p < vpool@.len() ==> #[trigger] vpool@[p] < nv,
            forall|p: int, q: int| 0 <= p < q < vpool@.len() ==> vpool@[p] != vpool@[q],
            forall|k: usize|
                k < nh ==> #[trigger] count_h(slides@, k) + count_in(hpool@, k) == 1,
            forall|k: usize| k >= nh ==> #[trigger] count_h(slides@, k) == 0,
            forall|k: usize|
                k < nv ==> #[trigger] count_v(slides@, k) + count_in(vpool@, k) == 1,
            forall|k: usize| k >= nv ==> #[trigger] count_v(slides@, k) == 0,
            vpool@.len() % 2 == nv % 2,
            nh > 0 ==> slides@[0] == Slide::Single(0usize),
            nh == 0 ==> slides@[0] == Slide::Dual(0usize, 1usize),
            slides@ + spec_greedy(*photos, *w, hpool@, vpool@, slides@.last()) == spec_sequence(
                *photos,
                *w,
            ),
        ensures
            slides@ == spec_sequence(*photos, *w),
            hpool@.len() == 0,
            vpool@.len() % 2 == nv % 2,
            vpool@.len() <= 1,
            slides@.len() >= 1,
            forall|idx: int| 0 <= idx < slides@.len() ==> (#[trigger] slides@[idx]).wf(*photos),
            forall|k: usize|
                k < nh ==> #[trigger] count_h(slides@, k) + count_in(hpool@, k) == 1,
            forall|k: usize| k >= nh ==> #[trigger] count_h(slides@, k) == 0,
            forall|k: usize|
                k < nv ==> #[trigger] count_v(slides@, k) + count_in(vpool@, k) == 1,
            forall|k: usize| k >= nv ==> #[trigger] count_v(slides@, k) == 0,
            nh > 0 ==> slides@[0] == Slide::Single(0usize),
            nh == 0 ==> slides@[0] == Slide::Dual(0usize, 1usize),
        decreases hpool@.len() + vpool@.len(),
    {
        let last = slides[slides.len() - 1];
        let bh = best_single(photos, &last, &hpool, w.horizontal_window);
        let bv = best_dual(
            photos,
            &last,
            &vpool,
            w.vertical_outer_window,
            w.vertical_inner_window,
        );
        proof {
            lemma_best_single_props(
                *photos,
                last,
                hpool@,
                if w.horizontal_window < hpool@.len() {
                    w.horizontal_window as int
                } else {
                    hpool@.len() as int
                },
            );
            lemma_best_dual_props(
                *photos,
                last,
                vpool@,
                if w.vertical_outer_window < vpool@.len() {
                    w.vertical_outer_window as int
                } else {
                    vpool@.len() as int
                },
                if w.vertical_inner_window < vpool@.len() {
                    w.vertical_inner_window as int
                } else {
                    vpool@.len() as int
                },
            );
        }
        let bv_score: usize = match &bv {
            None => 0,
            Some(t) => t.2,
        };
        let commit_h = match &bh {
            None => false,
            Some(t) => t.1 >= bv_score,
        };
        if commit_h {
            let (bi, _bs) = bh.unwrap();
            let ghost s0 = hpool@;
            let chosen = hpool.remove(bi);
            let ghost sl0 = slides@;
            slides.push(Slide::Single(chosen));
            proof {
                assert(slides@ == sl0.push(Slide::Single(chosen)));
                assert(hpool@ == s0.remove(bi as int));
                lemma_counts_after_single(sl0, s0, bi as int);
                // The committed slide is exactly what the specification's
                // greedy step picks from the old state.
                lemma_greedy_step_single(*photos, *w, s0, vpool@, last, bi as int, _bs as int);
                assert(slides@ + spec_greedy(*photos, *w, hpool@, vpool@, Slide::Single(chosen))
                    =~= sl0 + spec_greedy(*photos, *w, s0, vpool@, last));
            }
        } else {
            match bv {
                None => {
                    proof {
                        // No pair candidate: the vertical pool holds fewer
                        // than two entries. The horizontal pool is empty
                        // too: a `Single` candidate always wins against an
                        // absent pair, so one would have been committed.
                        if hpool@.len() > 0 {
                            assert(false);
                        }
                        if vpool@.len() >= 2 {
                            lemma_best_dual_is_some(
                                *photos,
                                last,
                                vpool@,
                                if w.vertical_outer_window < vpool@.len() {
                                    w.vertical_outer_window as int
                                } else {
                                    vpool@.len() as int
                                },
                                if w.vertical_inner_window < vpool@.len() {
                                    w.vertical_inner_window as int
                                } else {
                                    vpool@.len() as int
                                },
                            );
                        }
                        lemma_greedy_step_stop(*photos, *w, hpool@, vpool@, last);
                        assert(slides@ + spec_greedy(*photos, *w, hpool@, vpool@, last)
                            =~= slides@);
                    }
                    break ;
                },
                Some((vi, vj, _vs)) => {
                    let ghost s0 = vpool@;
                    let (a, b) = remove_pair(&mut vpool, vi, vj);
                    let ghost sl0 = slides@;
                    slides.push(Slide::Dual(a, b));
                    proof {
                        assert(a != b);
                        assert(slides@ == sl0.push(Slide::Dual(a, b)));
                        assert(vpool@ == spec_remove_both(s0, vi as int, vj as int));
                        lemma_counts_after_dual(sl0, s0, vi as int, vj as int, nv);
                        // The committed pair is exactly what the
                        // specification's greedy step picks.
                        lemma_greedy_step_dual(
                            *photos,
                            *w,
                            hpool@,
                            s0,
                            last,
                            vi as int,
                            vj as int,
                            _vs as int,
                        );
                        assert(slides@ + spec_greedy(*photos, *w, hpool@, vpool@, Slide::Dual(a, b))
                            =~= sl0 + spec_greedy(*photos, *w, hpool@, s0, last));
                    }
                },
            }
        }
    }
    proof {
        assert(hpool@.len() == 0);
        assert(vpool@.len() <= 1);
        assert forall|k: usize| k < nh implies count_h(slides@, k) == 1 by {
            assert(count_in(hpool@, k) == 0) by {
                assert(hpool@ =~= Seq::<usize>::empty());
            }
        }
        if nv % 2 == 0 {
            assert(vpool@.len() == 0);
            assert forall|k: usize| k < nv implies count_v(slides@, k) == 1 by {
                assert(count_in(vpool@, k) == 0) by {
                    assert(vpool@ =~= Seq::<usize>::empty());
                }
            }
        }
    }
    slides
}

} // verus!
