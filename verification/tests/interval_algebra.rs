use orrery::interval::AllenRelation::{
    After, Before, Contains, During, Equals, FinishedBy, Finishes, Meets, MetBy, OverlappedBy, Overlaps, StartedBy,
    Starts,
};
use orrery::interval::{AllenRelation, Interval, Timestamp};

fn iv(s: i64, e: i64) -> Interval {
    Interval::new(Timestamp(s), Timestamp(e)).unwrap()
}

#[test]
fn inverted_rejected_zero_length_explicit() {
    assert!(Interval::new(Timestamp(5), Timestamp(5)).is_err());
    assert!(Interval::new(Timestamp(5), Timestamp(4)).is_err());
    let p = Interval::at_point(Timestamp(5));
    assert!(p.is_empty());
    assert!(!p.overlaps(&iv(0, 10)));
}

#[test]
fn half_open_adjacent_do_not_overlap() {
    let a = iv(0, 10);
    let b = iv(10, 20);
    assert!(!a.overlaps(&b));
    assert!(a.meets(&b));
    assert_eq!(a.allen(&b), AllenRelation::Meets);
    assert_eq!(b.allen(&a), AllenRelation::MetBy);
}

#[test]
fn allen_thirteen_examples() {
    let cases = [
        (iv(0, 2), iv(5, 8), Before),
        (iv(0, 5), iv(5, 8), Meets),
        (iv(0, 6), iv(5, 8), Overlaps),
        (iv(0, 8), iv(5, 8), FinishedBy),
        (iv(0, 9), iv(5, 8), Contains),
        (iv(5, 6), iv(5, 8), Starts),
        (iv(5, 8), iv(5, 8), Equals),
        (iv(5, 9), iv(5, 8), StartedBy),
        (iv(6, 7), iv(5, 8), During),
        (iv(6, 8), iv(5, 8), Finishes),
        (iv(6, 9), iv(5, 8), OverlappedBy),
        (iv(8, 9), iv(5, 8), MetBy),
        (iv(9, 12), iv(5, 8), After),
    ];
    for (a, b, want) in cases {
        assert_eq!(a.allen(&b), want, "{a:?} vs {b:?}");
        assert_eq!(b.allen(&a), want.converse(), "converse of {want:?}");
    }
}

#[test]
fn merge_only_when_touching() {
    assert_eq!(iv(0, 5).merge(&iv(5, 9)), Some(iv(0, 9)));
    assert_eq!(iv(0, 6).merge(&iv(5, 9)), Some(iv(0, 9)));
    assert_eq!(iv(0, 4).merge(&iv(5, 9)), None);
}

#[test]
fn converse_is_an_involution_on_every_relation() {
    for r in [
        Before, Meets, Overlaps, FinishedBy, Contains, Starts, Equals, StartedBy, During, Finishes, OverlappedBy,
        MetBy, After,
    ] {
        assert_eq!(r.converse().converse(), r);
    }
}

#[test]
fn allen_agrees_with_overlap_on_concrete_pairs() {
    let pairs = [(iv(0, 5), iv(3, 8)), (iv(0, 5), iv(5, 8)), (iv(2, 3), iv(0, 10)), (iv(0, 1), iv(4, 6))];
    for (a, b) in pairs {
        assert_eq!(a.allen(&b).implies_overlap(), a.overlaps(&b));
        assert_eq!(a.overlaps(&b), b.overlaps(&a));
    }
}

#[test]
fn duration_and_containment() {
    let a = iv(3, 10);
    assert_eq!(a.duration_micros(), 7);
    assert!(a.contains_point(Timestamp(3)));
    assert!(!a.contains_point(Timestamp(10)));
    assert!(a.contains_interval(&iv(4, 10)));
    assert!(!a.contains_interval(&iv(2, 5)));
    assert_eq!(a.start(), Timestamp(3));
    assert_eq!(a.end(), Timestamp(10));
    assert_eq!(Timestamp(42).micros(), 42);
}
