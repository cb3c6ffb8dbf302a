use raytracer::interval::Interval;

#[test]
fn new_keeps_both_endpoints() {
    let range = Interval::new(3, 9);
    assert_eq!(range.min, 3);
    assert_eq!(range.max, 9);
}

#[test]
fn contains_includes_the_endpoints() {
    let range = Interval::new(3, 9);
    assert!(range.contains(3));
    assert!(range.contains(9));
    assert!(range.contains(5));
    assert!(!range.contains(2));
    assert!(!range.contains(10));
}

#[test]
fn surrounds_excludes_the_endpoints() {
    let range = Interval::new(3, 9);
    assert!(!range.surrounds(3));
    assert!(!range.surrounds(9));
    assert!(range.surrounds(4));
    assert!(range.surrounds(8));
    assert!(!range.surrounds(0));
}

#[test]
fn a_single_point_range_contains_but_does_not_surround_it() {
    let range = Interval::new(7, 7);
    assert!(range.contains(7));
    assert!(!range.surrounds(7));
}

#[test]
fn size_is_the_signed_width() {
    assert_eq!(Interval::new(3, 9).size(), 6);
    assert_eq!(Interval::new(9, 3).size(), -6);
    assert_eq!(Interval::new(0, u32::MAX).size(), 4294967295);
    assert_eq!(Interval::new(u32::MAX, 0).size(), -4294967295);
}

#[test]
fn clamp_saturates_at_both_ends() {
    let range = Interval::new(3, 9);
    assert_eq!(range.clamp(0), 3);
    assert_eq!(range.clamp(3), 3);
    assert_eq!(range.clamp(6), 6);
    assert_eq!(range.clamp(9), 9);
    assert_eq!(range.clamp(1000), 9);
}

#[test]
fn clamp_twice_is_clamp_once() {
    let ranges = [Interval::new(3, 9), Interval::new(0, 255), Interval::new(9, 3), Interval::default()];
    let values = [0u32, 1, 3, 4, 8, 9, 10, 255, 256, u32::MAX];
    for range in ranges {
        for x in values {
            let once = range.clamp(x);
            assert_eq!(range.clamp(once), once);
        }
    }
}

#[test]
fn clamp_lands_inside_a_range_that_is_not_empty() {
    let range = Interval::new(10, 20);
    for x in [0u32, 10, 15, 20, 21, u32::MAX] {
        assert!(range.contains(range.clamp(x)));
    }
}

#[test]
fn the_default_range_is_empty() {
    let range = Interval::default();
    assert_eq!(range.min, u32::MAX);
    assert_eq!(range.max, 0);
    assert!(!range.contains(0));
    assert!(!range.contains(1));
    assert!(!range.contains(u32::MAX));
    assert!(!range.surrounds(5));
    assert!(range.size() < 0);
}

#[test]
fn an_inverted_range_clamps_everything_to_its_upper_end() {
    let range = Interval::new(9, 3);
    assert_eq!(range.clamp(0), 3);
    assert_eq!(range.clamp(5), 3);
    assert_eq!(range.clamp(100), 3);
}
