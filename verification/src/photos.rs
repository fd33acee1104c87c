//! The photo data model: horizontal and vertical photo records, and the
//! arena that owns every record of one input set. Each record carries the
//! photo's position in the original input listing and its tag identifiers,
//! kept strictly ascending (so duplicated tags are impossible).

use vstd::prelude::*;

verus! {

/// Dense identifier of a tag text within one input set's vocabulary.
pub type TagId = usize;

/// Position of a photo within the original input listing (0-based).
pub type PhotoId = usize;

/// A horizontally-oriented photo: shown alone on a slide.
pub struct HorizontalPhoto {
    pub id: PhotoId,
    pub tags: Vec<TagId>,
}

/// A vertically-oriented photo: shown together with a second vertical photo.
pub struct VerticalPhoto {
    pub id: PhotoId,
    pub tags: Vec<TagId>,
}

/// A sequence is strictly ascending: sorted, with no duplicates.
pub open spec fn strictly_sorted(s: Seq<usize>) -> bool {
    forall|i: int, j: int| 0 <= i < j < s.len() ==> s[i] < s[j]
}

/// The tag set a tag-identifier sequence denotes.
pub open spec fn tag_set(s: Seq<usize>) -> Set<usize> {
    s.to_set()
}

/// The arena owning every photo record of one input set. Slides refer to
/// photos by their index in `hs` or `vs`; they never own a photo.
pub struct Photos {
    pub hs: Vec<HorizontalPhoto>,
    pub vs: Vec<VerticalPhoto>,
}

impl Photos {
    /// Well-formedness: every record's tag list is strictly ascending, and
    /// the tag counts of any two distinct vertical photos can be added
    /// without overflowing `usize` (a machine limit; pairing two vertical
    /// photos on a slide adds their tag counts).
    pub open spec fn wf(self) -> bool {
        &&& forall|i: int|
            0 <= i < self.hs@.len() ==> strictly_sorted(#[trigger] self.hs@[i].tags@)
        &&& forall|i: int|
            0 <= i < self.vs@.len() ==> strictly_sorted(#[trigger] self.vs@[i].tags@)
        &&& forall|i: int, j: int|
            0 <= i < self.vs@.len() && 0 <= j < self.vs@.len() && i != j
                ==> #[trigger] self.vs@[i].tags@.len() + #[trigger] self.vs@[j].tags@.len()
                    <= usize::MAX
    }
}

/// A strictly ascending sequence has no duplicates, so it has exactly as
/// many distinct elements as entries.
pub proof fn lemma_sorted_len_is_card(s: Seq<usize>)
    requires
        strictly_sorted(s),
    ensures
        s.no_duplicates(),
        tag_set(s).len() == s.len(),
        tag_set(s).finite(),
{
    assert(s.no_duplicates());
    s.unique_seq_to_set();
    broadcast use vstd::seq_lib::seq_to_set_is_finite;

}

/// Extending a sequence by one element inserts that element into its set.
pub proof fn lemma_to_set_push(s: Seq<usize>, x: usize)
    ensures
        s.push(x).to_set() == s.to_set().insert(x),
{
    assert(s.push(x).to_set() =~= s.to_set().insert(x)) by {
        assert forall|y: usize| s.push(x).to_set().contains(y)
            implies s.to_set().insert(x).contains(y) by {
            let i = choose|i: int| 0 <= i < s.push(x).len() && s.push(x)[i] == y;
            if i < s.len() {
                assert(s[i] == y);
            }
        }
        assert forall|y: usize| s.to_set().insert(x).contains(y)
            implies s.push(x).to_set().contains(y) by {
            if y == x {
                assert(s.push(x)[s.len() as int] == x);
            } else {
                let i = choose|i: int| 0 <= i < s.len() && s[i] == y;
                assert(s.push(x)[i] == y);
            }
        }
    }
}

/// The prefix of length `k + 1` is the prefix of length `k` plus `s[k]`.
pub proof fn lemma_prefix_step(s: Seq<usize>, k: int)
    requires
        0 <= k < s.len(),
    ensures
        s.subrange(0, k + 1).to_set() == s.subrange(0, k).to_set().insert(s[k]),
{
    assert(s.subrange(0, k + 1) =~= s.subrange(0, k).push(s[k]));
    lemma_to_set_push(s.subrange(0, k), s[k]);
}

/// In a strictly ascending sequence, `s[k]` is larger than everything in the
/// prefix before it, so it is not in that prefix's set.
pub proof fn lemma_sorted_prefix_fresh(s: Seq<usize>, k: int)
    requires
        strictly_sorted(s),
        0 <= k < s.len(),
    ensures
        !s.subrange(0, k).to_set().contains(s[k]),
{
    let p = s.subrange(0, k);
    if p.to_set().contains(s[k]) {
        let i = choose|i: int| 0 <= i < p.len() && p[i] == s[k];
        assert(s[i] < s[k]);
    }
}

} // verus!
