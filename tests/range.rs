use rq::range::Range;

#[test]
fn normalize_full() {
    assert_eq!(1..3, Range::new((1, 3)).normalize(10));
    assert_eq!(1..3, Range::new((1, 10)).normalize(3));
    assert_eq!(0..3, Range::new((-100, 3)).normalize(10));
    assert_eq!(1..8, Range::new((1, -2)).normalize(10));
    assert_eq!(0..10, Range::new((-100, 100)).normalize(10));
    assert_eq!(3..2, Range::new((3, 2)).normalize(10));
    assert_eq!(7..8, Range::new((-3, -2)).normalize(10));
}

#[test]
fn normalize_lower() {
    assert_eq!(1..10, Range::lower(1).normalize(10));
    assert_eq!(9..10, Range::lower(-1).normalize(10));
    assert_eq!(10..10, Range::lower(100).normalize(10));
    assert_eq!(0..10, Range::lower(-100).normalize(10));
}

#[test]
fn normalize_upper() {
    assert_eq!(0..1, Range::upper(1).normalize(10));
    assert_eq!(0..9, Range::upper(-1).normalize(10));
    assert_eq!(0..10, Range::upper(100).normalize(10));
    assert_eq!(0..0, Range::upper(-100).normalize(10));
}

#[test]
fn normalize_empty_length() {
    assert_eq!(0..0, Range::new((-1, 1)).normalize(0));
    assert_eq!(0..0, Range::lower(5).normalize(0));
}

#[test]
fn normalize_extreme_bounds() {
    assert_eq!(0..10, Range::new((i32::MIN, i32::MAX)).normalize(10));
    assert_eq!(10..0, Range::new((i32::MAX, i32::MIN)).normalize(10));
}
