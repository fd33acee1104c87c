use slideshow::PhotoRecord;
use slideshow::Slide;
use slideshow::Slideshow;
use slideshow::Windows;
use slideshow::build;
use slideshow::sequence;

fn record(vertical: bool, tags: &[&str]) -> PhotoRecord {
    PhotoRecord {
        vertical,
        tags: tags.iter().map(|t| t.as_bytes().to_vec()).collect(),
    }
}

#[test]
fn single_horizontal_photo_makes_one_slide() {
    let recs = vec![record(false, &["x", "y"])];
    let (_, photos) = build(recs).unwrap();
    let slides = sequence(&photos, &Windows::defaults());
    assert_eq!(slides.len(), 1);
    assert!(matches!(slides[0], Slide::Single(0)));
    let show = Slideshow { slides };
    assert_eq!(show.score(&photos), 0);
    assert_eq!(show.serialize(&photos), b"1\n0\n".to_vec());
}

#[test]
fn two_disjoint_verticals_make_one_dual_slide() {
    let recs = vec![record(true, &["a"]), record(true, &["b"])];
    let (_, photos) = build(recs).unwrap();
    let slides = sequence(&photos, &Windows::defaults());
    assert_eq!(slides.len(), 1);
    match slides[0] {
        Slide::Dual(a, b) => {
            let mut ids = vec![photos.vs[a].id, photos.vs[b].id];
            ids.sort();
            assert_eq!(ids, vec![0, 1]);
        }
        Slide::Single(_) => panic!("expected a dual slide"),
    }
    let show = Slideshow { slides };
    assert_eq!(show.score(&photos), 0);
    assert_eq!(show.serialize(&photos), b"1\n0 1\n".to_vec());
}

#[test]
fn two_overlapping_horizontals_score_one() {
    let recs = vec![record(false, &["a", "b", "c"]), record(false, &["b", "c", "d"])];
    let (_, photos) = build(recs).unwrap();
    let slides = sequence(&photos, &Windows::defaults());
    assert_eq!(slides.len(), 2);
    assert!(matches!(slides[0], Slide::Single(0)));
    assert!(matches!(slides[1], Slide::Single(1)));
    let show = Slideshow { slides };
    assert_eq!(show.score(&photos), 1);
}

#[test]
fn empty_input_makes_empty_slideshow() {
    let (_, photos) = build(vec![]).unwrap();
    let slides = sequence(&photos, &Windows::defaults());
    assert!(slides.is_empty());
    let show = Slideshow { slides };
    assert_eq!(show.score(&photos), 0);
    assert_eq!(show.serialize(&photos), b"0\n".to_vec());
}

#[test]
fn lone_vertical_makes_empty_slideshow() {
    let recs = vec![record(true, &["a"])];
    let (_, photos) = build(recs).unwrap();
    let slides = sequence(&photos, &Windows::defaults());
    assert!(slides.is_empty());
}

#[test]
fn serialize_writes_multi_digit_ids() {
    // eleven pairwise-disjoint horizontal photos: all candidate scores are
    // zero, so ties keep pool order and the slides appear as parsed
    let mut recs = Vec::new();
    let names = ["t0", "t1", "t2", "t3", "t4", "t5", "t6", "t7", "t8", "t9", "t10"];
    for n in names {
        recs.push(record(false, &[n]));
    }
    let (_, photos) = build(recs).unwrap();
    let slides = sequence(&photos, &Windows::defaults());
    assert_eq!(slides.len(), 11);
    let show = Slideshow { slides };
    let text = show.serialize(&photos);
    assert_eq!(
        String::from_utf8(text).unwrap(),
        "11\n0\n1\n2\n3\n4\n5\n6\n7\n8\n9\n10\n"
    );
}

#[test]
fn mixed_input_prefers_higher_scoring_continuation() {
    // after the first horizontal slide {a,b}, the vertical pair {a},{c}
    // scores 1 against it while the remaining horizontal {z} scores 0,
    // so the pair is committed first
    let recs = vec![
        record(false, &["a", "b"]),
        record(false, &["z"]),
        record(true, &["a"]),
        record(true, &["c"]),
    ];
    let (_, photos) = build(recs).unwrap();
    let slides = sequence(&photos, &Windows::defaults());
    assert_eq!(slides.len(), 3);
    assert!(matches!(slides[0], Slide::Single(0)));
    assert!(matches!(slides[1], Slide::Dual(_, _)));
    assert!(matches!(slides[2], Slide::Single(1)));
    let show = Slideshow { slides };
    assert_eq!(show.score(&photos), 1);
}
