use astar_lib::line::Line;
use astar_lib::vector::Vec2;

#[test]
fn line_line_test() {
    let line_a = Line::new(Vec2::new(0, 0), Vec2::new(1, 1));
    let line_b = Line::new(Vec2::new(0, 1), Vec2::new(1, 0));
    let line_c = Line::new(Vec2::new(1, 0), Vec2::new(1, 1));
    let intersect = line_a.intersects_with(&line_b);
    assert!(intersect);
    let intersect = line_c.intersects_with(&line_b);
    assert!(!intersect);
}

#[test]
fn math_helper_line_test() {
    let line_a = Line::new(Vec2::new(0, 0), Vec2::new(1000, 1000));
    let line_b = Line::new(Vec2::new(0, 1000), Vec2::new(1000, 0));
    let line_c = Line::new(Vec2::new(1000, 0), Vec2::new(1000, 1000));
    assert!(line_a.intersects_with(&line_b));
    assert!(!line_c.intersects_with(&line_b));
}

#[test]
fn touching_at_an_end_is_no_crossing() {
    let line_a = Line::new(Vec2::new(0, 0), Vec2::new(1, 1));
    let line_b = Line::new(Vec2::new(0, 1), Vec2::new(1, 0));
    let line_c = Line::new(Vec2::new(1, 0), Vec2::new(1, 1));
    assert!(line_a.intersects_with(&line_b));
    assert!(line_b.intersects_with(&line_a));
    assert!(!line_a.intersects_with(&line_c));
    assert!(!line_c.intersects_with(&line_a));
}

#[test]
fn parallel_and_distant_segments() {
    let a = Line::new(Vec2::new(0, 0), Vec2::new(10, 0));
    let b = Line::new(Vec2::new(0, 1), Vec2::new(10, 1));
    let c = Line::new(Vec2::new(2, 0), Vec2::new(8, 0));
    let d = Line::new(Vec2::new(20, -5), Vec2::new(20, 5));
    assert!(!a.intersects_with(&b));
    assert!(!a.intersects_with(&c));
    assert!(!a.intersects_with(&d));
    assert!(!a.intersects_with(&a));
}

#[test]
fn crossing_near_an_end_is_within_tolerance() {
    // The crossing lies 1/200000 of the way along the long segment: inside the
    // tolerance, so it does not count.
    let long = Line::new(Vec2::new(0, 0), Vec2::new(200_000, 0));
    let short = Line::new(Vec2::new(1, -1), Vec2::new(1, 1));
    assert!(!long.intersects_with(&short));
    let short = Line::new(Vec2::new(4, -1), Vec2::new(4, 1));
    assert!(long.intersects_with(&short));
}

#[test]
fn critical_range() {
    let line_a = Line::new(Vec2::new(0, 0), Vec2::new(1000, 1000));
    assert!(line_a.is_in_critical_range(Vec2::new(500, 500), 1));
    assert!(line_a.is_in_critical_range(Vec2::new(500, 510), 8));
    assert!(!line_a.is_in_critical_range(Vec2::new(500, 510), 7));
    // Beyond the ends, or at them, a point is never beside the segment.
    assert!(!line_a.is_in_critical_range(Vec2::new(0, 0), 100));
    assert!(!line_a.is_in_critical_range(Vec2::new(1000, 1000), 100));
    assert!(!line_a.is_in_critical_range(Vec2::new(-10, -10), 100));
    assert!(!line_a.is_in_critical_range(Vec2::new(1010, 1010), 100));
    let flat = Line::new(Vec2::new(0, 0), Vec2::new(10, 0));
    assert!(flat.is_in_critical_range(Vec2::new(5, 3), 3));
    assert!(!flat.is_in_critical_range(Vec2::new(5, -4), 3));
    let dot = Line::new(Vec2::new(3, 3), Vec2::new(3, 3));
    assert!(!dot.is_in_critical_range(Vec2::new(3, 3), 100));
}

#[test]
fn length_and_ends() {
    let line = Line::new(Vec2::new(1, 1), Vec2::new(4, 5));
    assert_eq!(line.length(), 5);
    assert_eq!(line.get_start_end(), (Vec2::new(1, 1), Vec2::new(4, 5)));
    assert_eq!(Line::new(Vec2::new(0, 0), Vec2::new(1, 1)).length(), 2);
}

#[test]
fn shortening_test() {
    let line_a = Line::new(Vec2::new(0, 0), Vec2::new(1000, 0));
    let new_line = line_a.get_shortened_version(100);
    assert_eq!(new_line.get_start_end(), (Vec2::new(100, 0), Vec2::new(900, 0)));
}

#[test]
fn shortening_rounds_toward_the_ends() {
    // Length 5 (a 3-4-5 triangle, scaled by 100): cutting 100 moves each end by
    // 3/5 and 4/5 of 100 along the axes.
    let line = Line::new(Vec2::new(0, 0), Vec2::new(-300, 400));
    let short = line.get_shortened_version(100);
    assert_eq!(short.get_start_end(), (Vec2::new(-60, 80), Vec2::new(-240, 320)));
    // 1 * 1 / 2 rounds to 0 on the short axis.
    let line = Line::new(Vec2::new(0, 0), Vec2::new(10, 1));
    let short = line.get_shortened_version(1);
    assert_eq!(short.get_start_end(), (Vec2::new(0, 0), Vec2::new(10, 1)));
}

#[test]
fn critical_range_keeps_a_margin_at_the_ends() {
    // The projection of (0,1) onto this segment is about 5e-6 units from its
    // start: within the margin, so the point is not beside the segment.
    let line = Line::new(Vec2::new(0, 0), Vec2::new(200_000, 1));
    assert!(!line.is_in_critical_range(Vec2::new(0, 1), 1));
    // One unit along, the projection is clear of the margin.
    assert!(line.is_in_critical_range(Vec2::new(1, 1), 1));
    // Likewise at the far end.
    assert!(!line.is_in_critical_range(Vec2::new(200_000, 0), 1));
    assert!(line.is_in_critical_range(Vec2::new(199_999, 0), 1));
}
