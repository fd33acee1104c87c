//! Working pools for the sequencer: the not-yet-placed photo positions of
//! one orientation, in original parse order. Removal of a pair of pool
//! positions must account for the index shift after the first removal;
//! `remove_pair` encapsulates that rule.

use vstd::prelude::*;

verus! {

/// How often `k` occurs in a pool.
pub open spec fn count_in(s: Seq<usize>, k: usize) -> nat
    decreases s.len(),
{
    if s.len() == 0 {
        0
    } else {
        count_in(s.drop_last(), k) + if s.last() == k {
            1nat
        } else {
            0nat
        }
    }
}

pub proof fn lemma_count_concat(a: Seq<usize>, b: Seq<usize>, k: usize)
    ensures
        count_in(a + b, k) == count_in(a, k) + count_in(b, k),
    decreases b.len(),
{
    if b.len() == 0 {
        assert(a + b =~= a);
    } else {
        assert((a + b).drop_last() =~= a + b.drop_last());
        assert((a + b).last() == b.last());
        lemma_count_concat(a, b.drop_last(), k);
    }
}

pub proof fn lemma_count_push(s: Seq<usize>, x: usize, k: usize)
    ensures
        count_in(s.push(x), k) == count_in(s, k) + if x == k {
            1nat
        } else {
            0nat
        },
{
    assert(s.push(x).drop_last() =~= s);
}

/// Removing position `i` lowers the count of the element that stood there
/// by one, and leaves every other count alone.
pub proof fn lemma_count_remove(s: Seq<usize>, i: int, k: usize)
    requires
        0 <= i < s.len(),
    ensures
        count_in(s, k) == count_in(s.remove(i), k) + if s[i] == k {
            1nat
        } else {
            0nat
        },
{
    let front = s.subrange(0, i);
    let mid = seq![s[i]];
    let back = s.subrange(i + 1, s.len() as int);
    assert(s =~= front + mid + back);
    assert(s.remove(i) =~= front + back);
    lemma_count_concat(front + mid, back, k);
    lemma_count_concat(front, mid, k);
    lemma_count_concat(front, back, k);
    assert(count_in(mid, k) == if s[i] == k {
        1nat
    } else {
        0nat
    }) by {
        assert(mid.drop_last() =~= Seq::<usize>::empty());
        assert(count_in(Seq::<usize>::empty(), k) == 0);
        assert(mid.last() == s[i]);
    }
}

/// The pool of all positions `0, 1, ..., n - 1`, in order.
pub fn init_pool(n: usize) -> (p: Vec<usize>)
    ensures
        p@.len() == n,
        forall|i: int| 0 <= i < n ==> p@[i] == i,
        forall|k: usize| k < n ==> count_in(p@, k) == 1,
        forall|k: usize| k >= n ==> count_in(p@, k) == 0,
{
    let mut p: Vec<usize> = Vec::new();
    let mut i: usize = 0;
    while i < n
        invariant
            i <= n,
            p@.len() == i,
            forall|x: int| 0 <= x < i ==> p@[x] == x,
            forall|k: usize| k < i ==> count_in(p@, k) == 1,
            forall|k: usize| k >= i ==> count_in(p@, k) == 0,
        decreases n - i,
    {
        proof {
            assert forall|k: usize| count_in(p@.push(i), k) == count_in(p@, k) + (if i == k {
                1nat
            } else {
                0nat
            }) by {
                lemma_count_push(p@, i, k);
            }
        }
        p.push(i);
        i = i + 1;
    }
    p
}

/// The pool after removing positions `i` and `j` (presented in any order):
/// both entries leave, everything else keeps its relative order.
pub open spec fn spec_remove_both(s: Seq<usize>, i: int, j: int) -> Seq<usize> {
    if i < j {
        s.remove(j).remove(i)
    } else {
        s.remove(i).remove(j)
    }
}

/// Removing the smaller position first shifts the larger one down by one;
/// compensating for the shift removes exactly the originally chosen
/// entries, whichever position is presented first.
pub proof fn lemma_remove_pair_order_irrelevant(s: Seq<usize>, i: int, j: int)
    requires
        0 <= i < s.len(),
        0 <= j < s.len(),
        i != j,
    ensures
        spec_remove_both(s, i, j) == spec_remove_both(s, j, i),
        seq![s[i], s[j]].to_multiset() == seq![s[j], s[i]].to_multiset(),
{
    broadcast use vstd::seq_lib::group_to_multiset_ensures;

    let a = seq![s[i]];
    let b = seq![s[j]];
    vstd::seq_lib::lemma_seq_union_to_multiset_commutative(a, b);
    assert(a + b =~= seq![s[i], s[j]]);
    assert(b + a =~= seq![s[j], s[i]]);
}

/// Removes pool positions `i` and `j`, in the shift-correct order, and
/// returns the two pool entries that stood there.
pub fn remove_pair(pool: &mut Vec<usize>, i: usize, j: usize) -> (r: (usize, usize))
    requires
        i < old(pool)@.len(),
        j < old(pool)@.len(),
        i != j,
    ensures
        r.0 == old(pool)@[i as int],
        r.1 == old(pool)@[j as int],
        final(pool)@ == spec_remove_both(old(pool)@, i as int, j as int),
        final(pool)@.len() + 2 == old(pool)@.len(),
        forall|k: usize| #![trigger count_in(final(pool)@, k)]
            count_in(old(pool)@, k) == count_in(final(pool)@, k) + (if old(pool)@[i as int] == k {
                1nat
            } else {
                0nat
            }) + (if old(pool)@[j as int] == k {
                1nat
            } else {
                0nat
            }),
{
    let ghost s = pool@;
    let r;
    if i < j {
        let a = pool.remove(i);
        let b = pool.remove(j - 1);
        proof {
            assert(s.remove(i as int)[j - 1] == s[j as int]);
            assert(s.remove(i as int).remove(j - 1) =~= s.remove(j as int).remove(i as int));
        }
        r = (a, b);
    } else {
        let a = pool.remove(i);
        let b = pool.remove(j);
        proof {
            assert(s.remove(i as int)[j as int] == s[j as int]);
        }
        r = (a, b);
    }
    proof {
        let lo = if i < j {
            i as int
        } else {
            j as int
        };
        let hi = if i < j {
            j as int
        } else {
            i as int
        };
        assert forall|k: usize|
            count_in(s, k) == count_in(pool@, k) + (if s[i as int] == k {
                1nat
            } else {
                0nat
            }) + (if s[j as int] == k {
                1nat
            } else {
                0nat
            }) by {
            lemma_count_remove(s, hi, k);
            lemma_count_remove(s.remove(hi), lo, k);
            assert(s.remove(hi)[lo] == s[lo]);
        }
    }
    r
}

} // verus!
