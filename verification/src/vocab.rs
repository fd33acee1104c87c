//! The tag vocabulary: interns tag texts (byte strings) into small dense
//! identifiers, per input set. The first occurrence of a text is given the
//! next unused identifier, starting at 0; later occurrences return the
//! identifier already allocated. There is no removal, so an identifier,
//! once assigned, never changes: assignment order equals first-occurrence
//! order while scanning the input top to bottom.

use vstd::prelude::*;
use crate::photos::TagId;

verus! {

/// The interning table. The identifier of a text is its index here, so
/// the next unused identifier is the current entry count.
pub struct TagMap {
    pub inner: Vec<Vec<u8>>,
}

/// The first index at which `t` occurs in `m`, or `m.len()` when absent.
pub open spec fn spec_find(m: Seq<Seq<u8>>, t: Seq<u8>) -> int
    decreases m.len(),
{
    if m.len() == 0 {
        0
    } else if m[0] == t {
        0
    } else {
        1 + spec_find(m.drop_first(), t)
    }
}

pub proof fn lemma_find_props(m: Seq<Seq<u8>>, t: Seq<u8>)
    ensures
        0 <= spec_find(m, t) <= m.len(),
        spec_find(m, t) < m.len() ==> m[spec_find(m, t)] == t,
        forall|i: int| 0 <= i < spec_find(m, t) ==> m[i] != t,
        spec_find(m, t) == m.len() ==> !m.contains(t),
    decreases m.len(),
{
    if m.len() > 0 && m[0] != t {
        lemma_find_props(m.drop_first(), t);
        assert forall|i: int| 0 <= i < spec_find(m, t) implies m[i] != t by {
            if i > 0 {
                assert(m.drop_first()[i - 1] == m[i]);
            }
        }
        if spec_find(m, t) == m.len() && m.contains(t) {
            let w = choose|w: int| 0 <= w < m.len() && m[w] == t;
            assert(m.drop_first()[w - 1] == t);
        }
    }
}

/// Whether two byte strings hold the same bytes.
pub fn bytes_eq(a: &Vec<u8>, b: &Vec<u8>) -> (r: bool)
    ensures
        r == (a@ == b@),
{
    if a.len() != b.len() {
        return false;
    }
    let mut k: usize = 0;
    while k < a.len()
        invariant
            a@.len() == b@.len(),
            k <= a@.len(),
            forall|i: int| 0 <= i < k ==> a@[i] == b@[i],
        decreases a@.len() - k,
    {
        if a[k] != b[k] {
            return false;
        }
        k = k + 1;
    }
    proof {
        assert(a@ =~= b@);
    }
    true
}

impl TagMap {
    /// The texts interned so far, in identifier order.
    pub open spec fn view_texts(self) -> Seq<Seq<u8>> {
        Seq::new(self.inner@.len(), |i: int| self.inner@[i]@)
    }

    /// An empty vocabulary: no text interned, the next identifier is 0.
    pub fn new() -> (m: TagMap)
        ensures
            m.view_texts() =~= Seq::<Seq<u8>>::empty(),
    {
        TagMap { inner: Vec::new() }
    }

    /// Interns one text: returns the identifier already allocated to it,
    /// or allocates the next unused one. The vocabulary changes exactly
    /// when the text is new, and only by appending it.
    pub fn add(&mut self, tag: Vec<u8>) -> (id: TagId)
        ensures
            id == spec_find(old(self).view_texts(), tag@),
            id <= old(self).view_texts().len(),
            id < old(self).view_texts().len() ==> final(self).view_texts() == old(
                self,
            ).view_texts(),
            id == old(self).view_texts().len() ==> final(self).view_texts() == old(
                self,
            ).view_texts().push(tag@),
            final(self).view_texts()[id as int] == tag@,
            id < final(self).view_texts().len(),
    {
        let ghost m = self.view_texts();
        proof {
            lemma_find_props(m, tag@);
        }
        let mut k: usize = 0;
        while k < self.inner.len()
            invariant
                m == self.view_texts(),
                k <= m.len(),
                forall|i: int| 0 <= i < k ==> m[i] != tag@,
            decreases m.len() - k,
        {
            if bytes_eq(&self.inner[k], &tag) {
                proof {
                    lemma_find_props(m, tag@);
                    assert(m[k as int] == tag@);
                    if spec_find(m, tag@) < k {
                        assert(m[spec_find(m, tag@)] == tag@);
                    }
                    if spec_find(m, tag@) > k {
                        assert(m[k as int] != tag@);
                    }
                }
                return k;
            }
            k = k + 1;
        }
        proof {
            if spec_find(m, tag@) < m.len() {
                assert(m[spec_find(m, tag@)] == tag@);
            }
        }
        let id = self.inner.len();
        self.inner.push(tag);
        proof {
            assert(self.view_texts() =~= m.push(tag@)) by {
                assert(self.inner@ =~= old(self).inner@.push(tag));
            }
        }
        id
    }
}

/// Appending a fresh text allocates the next identifier for it.
pub proof fn lemma_find_push_fresh(m: Seq<Seq<u8>>, t: Seq<u8>)
    requires
        !m.contains(t),
    ensures
        spec_find(m.push(t), t) == m.len(),
    decreases m.len(),
{
    if m.len() > 0 {
        assert(m[0] != t);
        assert(m.push(t).drop_first() =~= m.drop_first().push(t));
        assert forall|i: int| 0 <= i < m.drop_first().len() implies m.drop_first()[i] != t by {
            assert(m.drop_first()[i] == m[i + 1]);
        }
        lemma_find_push_fresh(m.drop_first(), t);
    } else {
        assert(m.push(t)[0] == t);
    }
}

/// Interning is idempotent: once a text holds an identifier, interning it
/// again returns that identifier and leaves the vocabulary unchanged.
/// `after` is the vocabulary a first interning of `t` into `m` leaves.
pub proof fn lemma_intern_idempotent(m: Seq<Seq<u8>>, t: Seq<u8>)
    ensures
        ({
            let id = spec_find(m, t);
            let after = if id < m.len() {
                m
            } else {
                m.push(t)
            };
            spec_find(after, t) == id && id < after.len() && after[id] == t
        }),
    decreases m.len(),
{
    lemma_find_props(m, t);
    let id = spec_find(m, t);
    if id == m.len() {
        lemma_find_push_fresh(m, t);
        lemma_find_props(m.push(t), t);
    }
}

} // verus!
