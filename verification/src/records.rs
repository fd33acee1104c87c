//! Builds the photo arena and the tag vocabulary from parsed input
//! records, one record per photo-description line: the orientation flag
//! and the photo's tag texts. Tags are interned in first-occurrence order
//! while scanning the records top to bottom, and each photo's identifier
//! list is kept strictly ascending with duplicates dropped.

use vstd::prelude::*;
use crate::photos::HorizontalPhoto;
use crate::photos::Photos;
use crate::photos::TagId;
use crate::photos::VerticalPhoto;
use crate::photos::strictly_sorted;
use crate::photos::tag_set;
use crate::vocab::TagMap;
use crate::vocab::lemma_find_props;
use crate::vocab::spec_find;

verus! {

/// One parsed photo-description line: its orientation and its tag texts,
/// as byte strings, in input order.
pub struct PhotoRecord {
    pub vertical: bool,
    pub tags: Vec<Vec<u8>>,
}

/// The tag texts of a record.
pub open spec fn rec_tags(r: PhotoRecord) -> Seq<Seq<u8>> {
    Seq::new(r.tags@.len(), |i: int| r.tags@[i]@)
}

/// Interning a run of texts into a vocabulary: each text already present
/// leaves the vocabulary alone, each new text is appended.
pub open spec fn spec_vocab_tags(m: Seq<Seq<u8>>, tags: Seq<Seq<u8>>) -> Seq<Seq<u8>>
    decreases tags.len(),
{
    if tags.len() == 0 {
        m
    } else {
        let m1 = spec_vocab_tags(m, tags.drop_last());
        if m1.contains(tags.last()) {
            m1
        } else {
            m1.push(tags.last())
        }
    }
}

/// The vocabulary after interning every record's tags, in input order.
pub open spec fn spec_vocab_records(recs: Seq<PhotoRecord>) -> Seq<Seq<u8>>
    decreases recs.len(),
{
    if recs.len() == 0 {
        Seq::empty()
    } else {
        spec_vocab_tags(spec_vocab_records(recs.drop_last()), rec_tags(recs.last()))
    }
}

/// The identifiers a vocabulary assigns to a run of texts.
pub open spec fn ids_of(m: Seq<Seq<u8>>, tags: Seq<Seq<u8>>) -> Set<TagId> {
    Set::new(|id: TagId| id < m.len() && tags.contains(m[id as int]))
}

/// Two distinct vertical records whose tag counts cannot be added in a
/// `usize`: the one input shape the builder must refuse, since pairing
/// the two photos would overflow the effective-length arithmetic.
pub open spec fn bad_pair(recs: Seq<PhotoRecord>) -> bool {
    exists|i: int, j: int|
        0 <= i < j < recs.len() && (#[trigger] recs[i]).vertical && (#[trigger] recs[j]).vertical
            && recs[i].tags@.len() + recs[j].tags@.len() > usize::MAX
}

/// A vocabulary extension (append-only growth) assigns the same
/// identifiers to texts the old vocabulary already held.
pub proof fn lemma_ids_of_stable(m1: Seq<Seq<u8>>, m2: Seq<Seq<u8>>, tags: Seq<Seq<u8>>)
    requires
        m1.len() <= m2.len(),
        forall|i: int| 0 <= i < m1.len() ==> m2[i] == m1[i],
        m2.no_duplicates(),
        forall|k: int| 0 <= k < tags.len() ==> m1.contains(#[trigger] tags[k]),
    ensures
        ids_of(m1, tags) == ids_of(m2, tags),
{
    assert(ids_of(m1, tags) =~= ids_of(m2, tags)) by {
        assert forall|id: TagId| ids_of(m2, tags).contains(id) implies ids_of(m1, tags).contains(
            id,
        ) by {
            let k = choose|k: int| 0 <= k < tags.len() && tags[k] == m2[id as int];
            let j = choose|j: int| 0 <= j < m1.len() && m1[j] == tags[k];
            assert(m2[j] == m2[id as int]);
            assert(j == id as int);
        }
        assert forall|id: TagId| ids_of(m1, tags).contains(id) implies ids_of(m2, tags).contains(
            id,
        ) by {
            assert(m2[id as int] == m1[id as int]);
        }
    }
}

/// A copy of a byte string.
pub fn copy_bytes(v: &Vec<u8>) -> (r: Vec<u8>)
    ensures
        r@ == v@,
{
    let mut r: Vec<u8> = Vec::new();
    let mut k: usize = 0;
    while k < v.len()
        invariant
            k <= v@.len(),
            r@.len() == k,
            forall|i: int| 0 <= i < k ==> r@[i] == v@[i],
        decreases v@.len() - k,
    {
        r.push(v[k]);
        k = k + 1;
    }
    proof {
        assert(r@ =~= v@);
    }
    r
}

/// Inserts a tag identifier into a strictly ascending list, keeping the
/// list strictly ascending; an identifier already present is dropped.
pub fn insert_sorted(v: &mut Vec<TagId>, x: TagId)
    requires
        strictly_sorted(old(v)@),
    ensures
        strictly_sorted(final(v)@),
        tag_set(final(v)@) == tag_set(old(v)@).insert(x),
        old(v)@.len() <= final(v)@.len() <= old(v)@.len() + 1,
{
    let ghost s = v@;
    let mut k: usize = 0;
    while k < v.len() && v[k] < x
        invariant
            s == v@,
            k <= s.len(),
            forall|i: int| 0 <= i < k ==> s[i] < x,
        decreases s.len() - k,
    {
        k = k + 1;
    }
    if k < v.len() {
        let here = v[k];
        if here == x {
            proof {
                assert(tag_set(s).contains(x));
                assert(tag_set(s) =~= tag_set(s).insert(x));
            }
            return ;
        }
        proof {
            assert(here > x);
        }
    }
    v.insert(k, x);
    proof {
        s.insert_ensures(k as int, x);
        assert(v@ == s.insert(k as int, x));
        assert forall|i: int, j: int| 0 <= i < j < v@.len() implies v@[i] < v@[j] by {
            if j < k {
            } else if i < k && j == k {
            } else if i == k {
            } else if i < k {
            } else {
            }
        }
        assert(tag_set(v@) =~= tag_set(s).insert(x)) by {
            assert forall|y: TagId| tag_set(v@).contains(y) implies tag_set(s).insert(x).contains(
                y,
            ) by {
                let i = choose|i: int| 0 <= i < v@.len() && v@[i] == y;
                if i < k {
                    assert(s[i] == y);
                } else if i > k {
                    assert(s[i - 1] == y);
                }
            }
            assert forall|y: TagId| tag_set(s).insert(x).contains(y) implies tag_set(v@).contains(
                y,
            ) by {
                if y == x {
                    assert(v@[k as int] == x);
                } else {
                    let i = choose|i: int| 0 <= i < s.len() && s[i] == y;
                    if i < k {
                        assert(v@[i] == y);
                    } else {
                        assert(v@[i + 1] == y);
                    }
                }
            }
        }
    }
}

/// What a successful build promises: the arena is well-formed; the
/// vocabulary is exactly the first-occurrence interning of every record's
/// tags in input order; each photo carries its record's position as its
/// identifier, sits in the list of its orientation in input order, and
/// its tag list denotes exactly the identifiers the vocabulary assigns to
/// its record's tag texts; and every record has its photo.
pub open spec fn build_ok(records: Seq<PhotoRecord>, m: TagMap, photos: Photos) -> bool {
    &&& photos.wf()
    &&& m.view_texts() == spec_vocab_records(records)
    &&& m.view_texts().no_duplicates()
    &&& forall|x: int|
        0 <= x < photos.hs@.len() ==> (#[trigger] photos.hs@[x]).id < records.len() && !records[
            photos.hs@[x].id as int
        ].vertical && tag_set(photos.hs@[x].tags@) == ids_of(
            m.view_texts(),
            rec_tags(records[photos.hs@[x].id as int]),
        )
    &&& forall|x: int, y: int|
        0 <= x < y < photos.hs@.len() ==> photos.hs@[x].id < photos.hs@[y].id
    &&& forall|i: int|
        0 <= i < records.len() && !(#[trigger] records[i]).vertical ==> exists|x: int|
            0 <= x < photos.hs@.len() && (#[trigger] photos.hs@[x]).id == i
    &&& forall|x: int|
        0 <= x < photos.vs@.len() ==> (#[trigger] photos.vs@[x]).id < records.len() && records[
            photos.vs@[x].id as int
        ].vertical && tag_set(photos.vs@[x].tags@) == ids_of(
            m.view_texts(),
            rec_tags(records[photos.vs@[x].id as int]),
        )
    &&& forall|x: int, y: int|
        0 <= x < y < photos.vs@.len() ==> photos.vs@[x].id < photos.vs@[y].id
    &&& forall|i: int|
        0 <= i < records.len() && (#[trigger] records[i]).vertical ==> exists|x: int|
            0 <= x < photos.vs@.len() && (#[trigger] photos.vs@[x]).id == i
}

/// Building from the same records always assigns the same identifiers:
/// the vocabulary is a function of the record sequence alone, so two
/// builds of one input agree whatever else runs beside them.
pub proof fn lemma_build_deterministic(
    records: Seq<PhotoRecord>,
    m1: TagMap,
    p1: Photos,
    m2: TagMap,
    p2: Photos,
)
    requires
        build_ok(records, m1, p1),
        build_ok(records, m2, p2),
    ensures
        m1.view_texts() == m2.view_texts(),
        forall|t: Seq<u8>| spec_find(m1.view_texts(), t) == spec_find(m2.view_texts(), t),
{
}

/// Builds the vocabulary and the photo arena from the parsed records.
/// Fails exactly when two distinct vertical records' tag counts cannot be
/// added in a `usize`; any real input is far below that limit.
#[verifier::rlimit(60)]
pub fn build(records: Vec<PhotoRecord>) -> (r: Option<(TagMap, Photos)>)
    ensures
        r is None <==> bad_pair(records@),
        r matches Some(p) ==> build_ok(records@, p.0, p.1),
{
    let mut m = TagMap::new();
    let mut hs: Vec<HorizontalPhoto> = Vec::new();
    let mut vs: Vec<VerticalPhoto> = Vec::new();
    let mut vmax: usize = 0;
    let n = records.len();
    let mut ri: usize = 0;
    proof {
        assert(records@.subrange(0, 0) =~= Seq::<PhotoRecord>::empty());
    }
    while ri < n
        invariant
            n == records@.len(),
            ri <= n,
            m.view_texts() == spec_vocab_records(records@.subrange(0, ri as int)),
            m.view_texts().no_duplicates(),
            forall|i: int, kk: int|
                0 <= i < ri && 0 <= kk < records@[i].tags@.len() ==> m.view_texts().contains(
                    #[trigger] records@[i].tags@[kk]@,
                ),
            forall|x: int|
                0 <= x < hs@.len() ==> (#[trigger] hs@[x]).id < ri && !records@[hs@[x].id as int].vertical
                    && strictly_sorted(hs@[x].tags@) && tag_set(hs@[x].tags@) == ids_of(
                    m.view_texts(),
                    rec_tags(records@[hs@[x].id as int]),
                ),
            forall|x: int, y: int| 0 <= x < y < hs@.len() ==> hs@[x].id < hs@[y].id,
            forall|i: int|
                0 <= i < ri && !(#[trigger] records@[i]).vertical ==> exists|x: int|
                    0 <= x < hs@.len() && (#[trigger] hs@[x]).id == i,
            forall|x: int|
                0 <= x < vs@.len() ==> (#[trigger] vs@[x]).id < ri && records@[vs@[x].id as int].vertical
                    && strictly_sorted(vs@[x].tags@) && tag_set(vs@[x].tags@) == ids_of(
                    m.view_texts(),
                    rec_tags(records@[vs@[x].id as int]),
                ) && vs@[x].tags@.len() <= records@[vs@[x].id as int].tags@.len(),
            forall|x: int, y: int| 0 <= x < y < vs@.len() ==> vs@[x].id < vs@[y].id,
            forall|i: int|
                0 <= i < ri && (#[trigger] records@[i]).vertical ==> exists|x: int|
                    0 <= x < vs@.len() && (#[trigger] vs@[x]).id == i,
            forall|i: int|
                0 <= i < ri && (#[trigger] records@[i]).vertical ==> records@[i].tags@.len()
                    <= vmax,
            vmax > 0 ==> exists|i: int|
                0 <= i < ri && (#[trigger] records@[i]).vertical && records@[i].tags@.len()
                    == vmax,
            forall|i: int, j: int|
                0 <= i < j < ri && (#[trigger] records@[i]).vertical && (#[trigger] records@[j]).vertical
                    ==> records@[i].tags@.len() + records@[j].tags@.len() <= usize::MAX,
        decreases n - ri,
    {
        let rec = &records[ri];
        let rl = rec.tags.len();
        if rec.vertical && rl > usize::MAX - vmax {
            proof {
                // The running maximum is positive, so some earlier
                // vertical record reaches it; together with this record
                // it forms the refused pair.
                let i = choose|i: int|
                    0 <= i < ri && (#[trigger] records@[i]).vertical && records@[i].tags@.len()
                        == vmax;
                assert(records@[i].vertical && records@[ri as int].vertical && records@[
                    i
                ].tags@.len() + records@[ri as int].tags@.len() > usize::MAX);
                assert(bad_pair(records@));
            }
            return None;
        }
        let ghost m0 = m.view_texts();
        let ghost rtags = rec_tags(records@[ri as int]);
        let mut tags: Vec<TagId> = Vec::new();
        let mut tk: usize = 0;
        proof {
            assert(rtags.subrange(0, 0) =~= Seq::<Seq<u8>>::empty());
            assert(ids_of(m.view_texts(), rtags.subrange(0, 0)) =~= Set::<TagId>::empty());
            assert(tag_set(tags@) =~= Set::<TagId>::empty());
        }
        while tk < rec.tags.len()
            invariant
                n == records@.len(),
                ri < n,
                rec == &records@[ri as int],
                rtags == rec_tags(records@[ri as int]),
                tk <= rtags.len(),
                rtags.len() == rec.tags@.len(),
                strictly_sorted(tags@),
                tags@.len() <= tk,
                tag_set(tags@) == ids_of(m.view_texts(), rtags.subrange(0, tk as int)),
                m.view_texts() == spec_vocab_tags(m0, rtags.subrange(0, tk as int)),
                m.view_texts().no_duplicates(),
                m0.len() <= m.view_texts().len(),
                forall|i: int| 0 <= i < m0.len() ==> m.view_texts()[i] == m0[i],
                forall|kk: int|
                    0 <= kk < tk ==> m.view_texts().contains(#[trigger] rtags[kk]),
                forall|i: int, kk: int|
                    0 <= i < ri && 0 <= kk < records@[i].tags@.len() ==> m0.contains(
                        #[trigger] records@[i].tags@[kk]@,
                    ),
            decreases rtags.len() - tk,
        {
            let t = copy_bytes(&rec.tags[tk]);
            let ghost mprev = m.view_texts();
            let ghost prefix = rtags.subrange(0, tk as int);
            let id = m.add(t);
            proof {
                lemma_find_props(mprev, t@);
                assert(rtags[tk as int] == t@);
                assert(rtags.subrange(0, tk + 1) =~= prefix.push(t@));
                assert(rtags.subrange(0, tk + 1).drop_last() =~= prefix);
                assert(rtags.subrange(0, tk + 1).last() == t@);
                // The interning step is exactly the specification fold's
                // step: kept when present, appended when fresh.
                if spec_find(mprev, t@) < mprev.len() {
                    assert(mprev.contains(t@));
                    assert(m.view_texts() == mprev);
                } else {
                    assert(!mprev.contains(t@));
                    assert(m.view_texts() == mprev.push(t@));
                    assert forall|a: int, b: int|
                        0 <= a < b < m.view_texts().len() implies m.view_texts()[a]
                        != m.view_texts()[b] by {
                        if b < mprev.len() {
                        } else {
                            assert(mprev.contains(mprev[a]));
                        }
                    }
                }
                assert(m.view_texts() == spec_vocab_tags(m0, rtags.subrange(0, tk + 1)));
                assert forall|kk: int|
                    0 <= kk < tk + 1 implies m.view_texts().contains(#[trigger] rtags[kk]) by {
                    if kk == tk {
                        assert(m.view_texts()[id as int] == t@);
                    } else {
                        let j = choose|j: int| 0 <= j < mprev.len() && mprev[j] == rtags[kk];
                        assert(m.view_texts()[j] == rtags[kk]);
                    }
                }
                lemma_ids_of_stable(mprev, m.view_texts(), prefix);
                assert(ids_of(m.view_texts(), rtags.subrange(0, tk + 1)) =~= ids_of(
                    m.view_texts(),
                    prefix,
                ).insert(id)) by {
                    let mm = m.view_texts();
                    let p1 = rtags.subrange(0, tk + 1);
                    assert(mm[id as int] == t@);
                    assert(p1.last() == t@);
                    assert forall|y: TagId| ids_of(mm, p1).contains(y) implies ids_of(
                        mm,
                        prefix,
                    ).insert(id).contains(y) by {
                        let k = choose|k: int| 0 <= k < p1.len() && p1[k] == mm[y as int];
                        if k < tk {
                            assert(prefix[k] == mm[y as int]);
                        } else {
                            assert(mm[y as int] == mm[id as int]);
                            assert(y == id);
                        }
                    }
                    assert forall|y: TagId| ids_of(mm, prefix).insert(id).contains(y) implies ids_of(
                        mm,
                        p1,
                    ).contains(y) by {
                        if y == id {
                            assert(p1[tk as int] == mm[id as int]);
                        } else {
                            let k = choose|k: int| 0 <= k < prefix.len() && prefix[k] == mm[y as int];
                            assert(p1[k] == mm[y as int]);
                        }
                    }
                }
            }
            insert_sorted(&mut tags, id);
            tk = tk + 1;
        }
        proof {
            assert(rtags.subrange(0, rtags.len() as int) =~= rtags);
            assert(records@.subrange(0, ri + 1).drop_last() =~= records@.subrange(0, ri as int));
            assert(records@.subrange(0, ri + 1).last() == records@[ri as int]);
            assert(spec_vocab_records(records@.subrange(0, ri + 1)) == spec_vocab_tags(
                m0,
                rtags,
            ));
            // Identifiers the old vocabulary assigned are unchanged by
            // this record's interning, so earlier photos' tag sets still
            // denote their records' texts.
            assert forall|rid: int|
                0 <= rid < ri implies ids_of(m.view_texts(), rec_tags(records@[rid])) == ids_of(
                m0,
                rec_tags(records@[rid]),
            ) by {
                assert forall|k: int|
                    0 <= k < rec_tags(records@[rid]).len() implies m0.contains(
                    #[trigger] rec_tags(records@[rid])[k],
                ) by {
                    assert(rec_tags(records@[rid])[k] == records@[rid].tags@[k]@);
                }
                lemma_ids_of_stable(m0, m.view_texts(), rec_tags(records@[rid]));
            }
        }
        proof {
            assert forall|i: int, kk: int|
                0 <= i < ri + 1 && 0 <= kk < records@[i].tags@.len() implies m.view_texts().contains(
                #[trigger] records@[i].tags@[kk]@,
            ) by {
                if i < ri {
                    let j = choose|j: int|
                        0 <= j < m0.len() && m0[j] == records@[i].tags@[kk]@;
                    assert(m.view_texts()[j] == records@[i].tags@[kk]@);
                } else {
                    assert(rtags[kk] == records@[i].tags@[kk]@);
                }
            }
        }
        let ghost vmax0 = vmax;
        let ghost hs0 = hs@;
        let ghost vs0 = vs@;
        if rec.vertical {
            if rl > vmax {
                vmax = rl;
            }
            let photo = VerticalPhoto { id: ri, tags };
            vs.push(photo);
            proof {
                assert(vs@ == vs0.push(photo));
                assert forall|i: int|
                    0 <= i < ri + 1 && (#[trigger] records@[i]).vertical implies exists|x: int|
                    0 <= x < vs@.len() && (#[trigger] vs@[x]).id == i by {
                    if i < ri {
                        let x = choose|x: int| 0 <= x < vs0.len() && (#[trigger] vs0[x]).id == i;
                        assert(vs@[x].id == i);
                    } else {
                        assert(vs@[vs@.len() - 1].id == i);
                    }
                }
                assert forall|i: int, j: int|
                    0 <= i < j < ri + 1 && (#[trigger] records@[i]).vertical && (
                #[trigger] records@[j]).vertical implies records@[i].tags@.len() + records@[
                    j
                ].tags@.len() <= usize::MAX by {
                    if j < ri {
                    } else {
                        assert(records@[i].tags@.len() <= vmax0);
                        assert(records@[j].tags@.len() == rl);
                    }
                }
            }
        } else {
            let photo = HorizontalPhoto { id: ri, tags };
            hs.push(photo);
            proof {
                assert(hs@ == hs0.push(photo));
                assert forall|i: int|
                    0 <= i < ri + 1 && !(#[trigger] records@[i]).vertical implies exists|x: int|
                    0 <= x < hs@.len() && (#[trigger] hs@[x]).id == i by {
                    if i < ri {
                        let x = choose|x: int| 0 <= x < hs0.len() && (#[trigger] hs0[x]).id == i;
                        assert(hs@[x].id == i);
                    } else {
                        assert(hs@[hs@.len() - 1].id == i);
                    }
                }
            }
        }
        ri = ri + 1;
    }
    proof {
        assert(records@.subrange(0, n as int) =~= records@);
        assert(!bad_pair(records@)) by {
            if bad_pair(records@) {
                let (i, j): (int, int) = choose|i: int, j: int|
                    0 <= i < j < records@.len() && (#[trigger] records@[i]).vertical && (
                    #[trigger] records@[j]).vertical && records@[i].tags@.len() + records@[
                        j
                    ].tags@.len() > usize::MAX;
                assert(records@[i].tags@.len() + records@[j].tags@.len() <= usize::MAX);
            }
        }
        let photos = (Photos { hs, vs });
        assert(photos.wf()) by {
            assert forall|x: int, y: int|
                0 <= x < photos.vs@.len() && 0 <= y < photos.vs@.len() && x != y implies #[trigger] photos.vs@[x].tags@.len()
                + #[trigger] photos.vs@[y].tags@.len() <= usize::MAX by {
                let i = photos.vs@[x].id as int;
                let j = photos.vs@[y].id as int;
                if x < y {
                    assert(records@[i].vertical && records@[j].vertical && i < j);
                } else {
                    assert(records@[j].vertical && records@[i].vertical && j < i);
                }
            }
        }
    }
    Some((m, Photos { hs, vs }))
}

} // verus!
