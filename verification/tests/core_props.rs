use slideshow::HorizontalPhoto;
use slideshow::PhotoRecord;
use slideshow::Photos;
use slideshow::Slide;
use slideshow::Slideshow;
use slideshow::TagMap;
use slideshow::VerticalPhoto;
use slideshow::Windows;
use slideshow::build;
use slideshow::pool::remove_pair;
use slideshow::sequence;
use slideshow::subscore;

fn arena(hs: Vec<Vec<usize>>, vs: Vec<Vec<usize>>) -> Photos {
    let hs: Vec<HorizontalPhoto> = hs
        .into_iter()
        .enumerate()
        .map(|(id, tags)| HorizontalPhoto { id, tags })
        .collect();
    let vs: Vec<VerticalPhoto> = vs
        .into_iter()
        .enumerate()
        .map(|(id, tags)| VerticalPhoto { id, tags })
        .collect();
    Photos { hs, vs }
}

fn record(vertical: bool, tags: &[&str]) -> PhotoRecord {
    PhotoRecord {
        vertical,
        tags: tags.iter().map(|t| t.as_bytes().to_vec()).collect(),
    }
}

#[test]
fn score_is_symmetric() {
    let photos = arena(
        vec![vec![0, 1, 2], vec![1, 2, 3]],
        vec![vec![0, 4], vec![2, 5]],
    );
    let x = Slide::Single(0);
    let y = Slide::Single(1);
    let d = Slide::Dual(0, 1);
    assert_eq!(subscore(&x, &y, &photos), subscore(&y, &x, &photos));
    assert_eq!(subscore(&x, &d, &photos), subscore(&d, &x, &photos));
    assert_eq!(subscore(&d, &d, &photos), subscore(&d, &d, &photos));
}

#[test]
fn score_bounded_by_effective_lengths() {
    let photos = arena(
        vec![vec![0, 1, 2, 3], vec![2, 3]],
        vec![vec![0, 1], vec![1, 2, 3]],
    );
    let x = Slide::Single(0);
    let y = Slide::Single(1);
    let d = Slide::Dual(0, 1);
    for (a, b) in [(x, y), (x, d), (y, d)] {
        let s = subscore(&a, &b, &photos);
        let la = a.len(&photos);
        let lb = b.len(&photos);
        assert!(s <= la.min(lb));
    }
}

#[test]
fn score_of_disjoint_and_identical_slides_is_zero() {
    let photos = arena(vec![vec![0, 1], vec![2, 3], vec![0, 1]], vec![]);
    // no shared tag: common is 0
    assert_eq!(subscore(&Slide::Single(0), &Slide::Single(1), &photos), 0);
    // identical tag sets: nothing new on either side
    assert_eq!(subscore(&Slide::Single(0), &Slide::Single(2), &photos), 0);
}

#[test]
fn dual_against_dual_counts_shared_tags_once() {
    // x shows {0,1,2} (tag 1 on both photos), y shows {0,2,3}:
    // common {0,2} = 2, so the score is min(2, 3-2, 3-2) = 1
    let photos = arena(vec![], vec![vec![0, 1], vec![1, 2], vec![0, 2], vec![3]]);
    let x = Slide::Dual(0, 1);
    let y = Slide::Dual(2, 3);
    assert_eq!(x.len(&photos), 3);
    assert_eq!(y.len(&photos), 3);
    assert_eq!(subscore(&x, &y, &photos), 1);
    assert_eq!(subscore(&y, &x, &photos), 1);
}

#[test]
fn tag_on_both_dual_photos_counts_once_toward_common() {
    // both photos of the pair carry tag 0; against {0,1} the common
    // count is 1, and the pair shows nothing beyond it: score 0
    let photos = arena(vec![vec![0, 1]], vec![vec![0], vec![0]]);
    let d = Slide::Dual(0, 1);
    assert_eq!(d.len(&photos), 1);
    assert_eq!(subscore(&d, &Slide::Single(0), &photos), 0);
}

#[test]
fn scenario_c_score_value() {
    // first photo {a,b,c}, second {b,c,d}: min(2, 1, 1) == 1
    let photos = arena(vec![vec![0, 1, 2], vec![1, 2, 3]], vec![]);
    assert_eq!(subscore(&Slide::Single(0), &Slide::Single(1), &photos), 1);
    assert_eq!(subscore(&Slide::Single(1), &Slide::Single(0), &photos), 1);
}

#[test]
fn dual_length_deduplicates_shared_tags() {
    let photos = arena(vec![], vec![vec![1, 2], vec![2, 3], vec![4, 5]]);
    // shared tag 2 counts once: 2 + 2 - 1
    assert_eq!(Slide::Dual(0, 1).len(&photos), 3);
    // disjoint tag sets: exactly the sum of the two tag counts
    assert_eq!(Slide::Dual(0, 2).len(&photos), 4);
    assert_eq!(Slide::Dual(1, 2).len(&photos), 4);
}

#[test]
fn slide_contains_checks_both_photos() {
    let photos = arena(vec![vec![7]], vec![vec![1, 2], vec![3]]);
    let s = Slide::Single(0);
    assert!(s.contains(&photos, &7));
    assert!(!s.contains(&photos, &1));
    let d = Slide::Dual(0, 1);
    assert!(d.contains(&photos, &1));
    assert!(d.contains(&photos, &3));
    assert!(!d.contains(&photos, &7));
}

#[test]
fn remove_pair_presentation_order_is_irrelevant() {
    let mut a: Vec<usize> = vec![10, 20, 30, 40];
    let mut b: Vec<usize> = vec![10, 20, 30, 40];
    let (x1, y1) = remove_pair(&mut a, 1, 3);
    let (x2, y2) = remove_pair(&mut b, 3, 1);
    // the same two pool entries leave, whichever position is named first
    assert_eq!((x1, y1), (20, 40));
    assert_eq!((x2, y2), (40, 20));
    assert_eq!(a, b);
    assert_eq!(a, vec![10, 30]);
}

#[test]
fn remove_pair_adjacent_positions() {
    let mut a: Vec<usize> = vec![5, 6, 7];
    let (x, y) = remove_pair(&mut a, 0, 1);
    assert_eq!((x, y), (5, 6));
    assert_eq!(a, vec![7]);
}

#[test]
fn total_score_sums_consecutive_pairs() {
    let photos = arena(
        vec![vec![0, 1, 2], vec![1, 2, 3], vec![2, 3, 4]],
        vec![],
    );
    let slides = vec![Slide::Single(0), Slide::Single(1), Slide::Single(2)];
    let expected = subscore(&slides[0], &slides[1], &photos)
        + subscore(&slides[1], &slides[2], &photos);
    let show = Slideshow { slides };
    assert_eq!(show.score(&photos), expected);
}

#[test]
fn total_score_of_empty_and_single_is_zero() {
    let photos = arena(vec![vec![0, 1]], vec![]);
    let empty = Slideshow { slides: vec![] };
    assert_eq!(empty.score(&photos), 0);
    let single = Slideshow { slides: vec![Slide::Single(0)] };
    assert_eq!(single.score(&photos), 0);
}

#[test]
fn tagmap_interns_in_first_occurrence_order() {
    let mut m = TagMap::new();
    assert_eq!(m.add(b"cat".to_vec()), 0);
    assert_eq!(m.add(b"dog".to_vec()), 1);
    assert_eq!(m.add(b"cat".to_vec()), 0);
    assert_eq!(m.add(b"bird".to_vec()), 2);
    assert_eq!(m.add(b"dog".to_vec()), 1);
    assert_eq!(m.inner, vec![b"cat".to_vec(), b"dog".to_vec(), b"bird".to_vec()]);
}

#[test]
fn vocabulary_assignment_is_deterministic() {
    let recs = || {
        vec![
            record(false, &["sun", "sea"]),
            record(true, &["sea", "sand"]),
            record(true, &["sun", "sky"]),
        ]
    };
    let (m1, _) = build(recs()).unwrap();
    // an unrelated input set in between must not disturb the assignment
    let _ = build(vec![record(false, &["zebra", "sun"])]).unwrap();
    let (m2, _) = build(recs()).unwrap();
    assert_eq!(m1.inner, m2.inner);
    assert_eq!(m1.inner, vec![b"sun".to_vec(), b"sea".to_vec(), b"sand".to_vec(), b"sky".to_vec()]);
}

#[test]
fn builder_assigns_positions_and_deduplicates() {
    let recs = vec![
        record(false, &["a", "a", "b"]),
        record(true, &["b", "c"]),
        record(false, &["c"]),
    ];
    let (_, photos) = build(recs).unwrap();
    assert_eq!(photos.hs.len(), 2);
    assert_eq!(photos.vs.len(), 1);
    assert_eq!(photos.hs[0].id, 0);
    assert_eq!(photos.hs[1].id, 2);
    assert_eq!(photos.vs[0].id, 1);
    // duplicated text "a" interned once: ids {0, 1}, kept sorted
    assert_eq!(photos.hs[0].tags, vec![0, 1]);
    assert_eq!(photos.vs[0].tags, vec![1, 2]);
    assert_eq!(photos.hs[1].tags, vec![2]);
}

#[test]
fn windows_defaults_match_stock_bounds() {
    let w = Windows::defaults();
    assert_eq!(w.horizontal_window, 40000);
    assert_eq!(w.vertical_outer_window, 1000);
    assert_eq!(w.vertical_inner_window, 10);
}

#[test]
fn every_photo_lands_in_exactly_one_slide() {
    let recs = vec![
        record(false, &["a", "b"]),
        record(true, &["b", "c"]),
        record(false, &["c", "d"]),
        record(true, &["d", "e"]),
        record(true, &["a"]),
        record(true, &["e", "f"]),
        record(false, &["f"]),
    ];
    let (_, photos) = build(recs).unwrap();
    let slides = sequence(&photos, &Windows::defaults());
    let mut seen: Vec<usize> = Vec::new();
    for s in &slides {
        match s {
            Slide::Single(h) => seen.push(photos.hs[*h].id),
            Slide::Dual(a, b) => {
                seen.push(photos.vs[*a].id);
                seen.push(photos.vs[*b].id);
            }
        }
    }
    seen.sort();
    assert_eq!(seen, vec![0, 1, 2, 3, 4, 5, 6]);
}

#[test]
fn odd_vertical_count_leaves_one_unplaced() {
    let recs = vec![
        record(true, &["a"]),
        record(true, &["b"]),
        record(true, &["c"]),
    ];
    let (_, photos) = build(recs).unwrap();
    let slides = sequence(&photos, &Windows::defaults());
    let placed: usize = slides
        .iter()
        .map(|s| match s {
            Slide::Single(_) => 1,
            Slide::Dual(_, _) => 2,
        })
        .sum();
    assert_eq!(placed, 2);
}
