use nfl2mac::line::Line;
use nfl2mac::point::Point;

/// Fixed-point units per drawing unit.
const U: i32 = 1_000_000;

fn pt(x: f64, y: f64) -> Point {
    Point::new((x * U as f64).round() as i32, (y * U as f64).round() as i32)
}

fn line(x1: f64, y1: f64, x2: f64, y2: f64) -> Line {
    Line::from_points(pt(x1, y1), pt(x2, y2))
}

fn tol(t: f64) -> i32 {
    (t * U as f64).round() as i32
}

#[test]
fn nfl() {
    let line = Line::from_nfl(String::from("L00017=LINE/1,1,2,2").as_str()).unwrap();

    assert_eq!(line.p1, Point::new(U, U));
    assert_eq!(line.p2, Point::new(2 * U, 2 * U));

    assert_eq!(line.to_nfl(101), String::from("L00101=LINE/1,1,2,2"));
}

#[test]
fn contains() {
    let l = line(0., 0., 2., 2.);

    assert!(!l.contains(&pt(0., 0.), tol(0.00001)));
    assert!(l.contains(&pt(1., 1.), tol(0.00001)));
    assert!(l.contains(&pt(0.5, 0.5), tol(0.00001)));
    assert!(!l.contains(&pt(2., 2.), tol(0.00001)));

    assert!(!l.contains(&pt(0., 2.), tol(0.00001)));
    assert!(!l.contains(&pt(2., 0.), tol(0.00001)));
}

#[test]
fn overlaps() {
    let l = line(0., 0., 2., 2.);

    assert!(l.overlaps(&pt(0., 0.), tol(0.00001)));
    assert!(l.overlaps(&pt(1., 1.), tol(0.00001)));
    assert!(l.overlaps(&pt(2., 2.), tol(0.00001)));

    assert!(!l.overlaps(&pt(0., 2.), tol(0.00001)));
    assert!(!l.overlaps(&pt(2., 0.), tol(0.00001)));
    assert!(l.overlaps(&pt(0., 2.), tol(1.5)));
}

#[test]
fn find_overlaps() {
    let l1 = line(0.7577722283114, 0.4375, 1.0798533496234, 0.2515463779096);
    let l2 = line(0.7577722283114, 0.4375, 1.5155444566228, 0.);

    assert!(Line::find_overlaps(&l1, &l2, tol(0.000001)).is_some());
}

#[test]
fn endpoints_overlap_for_any_tolerance() {
    let l = line(-3., 1., 4., 2.5);
    for t in [0, 1, 7, 1000, U] {
        assert!(l.overlaps(&l.p1, t));
        assert!(l.overlaps(&l.p2, t));
    }
}

#[test]
fn negative_tolerance_never_overlaps() {
    let l = line(0., 0., 2., 2.);
    assert!(!l.overlaps(&pt(0., 0.), -1));
    assert!(!l.overlaps(&pt(1., 1.), -1));
    assert!(!l.contains(&pt(1., 1.), -1));
}

#[test]
fn interior_point_contained_endpoint_not() {
    let l = Line::new(0, 0, 10, 5);
    let p = Point::new(4, 2);
    assert!(l.contains(&p, 0));
    assert!(l.contains(&p, 1));
    assert!(!l.contains(&l.p1, 0));
    assert!(!l.contains(&l.p2, 0));
    assert!(!l.contains(&l.p1, 3));
}

#[test]
fn overlaps_beyond_span_is_false() {
    let l = Line::new(0, 0, 10, 0);
    assert!(!l.overlaps(&Point::new(11, 0), 5));
    assert!(!l.overlaps(&Point::new(-1, 0), 5));
    assert!(l.overlaps(&Point::new(5, 3), 3));
    assert!(!l.overlaps(&Point::new(5, 4), 3));
}

#[test]
fn to_vector_points_upward() {
    let l = Line::new(0, 5, 3, 1);
    let v = l.to_vector();
    assert_eq!((v.x, v.y), (-3, 4));
    let l = Line::new(3, 1, 0, 5);
    let v = l.to_vector();
    assert_eq!((v.x, v.y), (-3, 4));
    let l = Line::new(0, 0, 7, 0);
    let v = l.to_vector();
    assert_eq!((v.x, v.y), (-7, 0));
}

#[test]
fn shifted_copies_share_their_middle() {
    let a = line(0., 0., 2., 2.);
    let b = line(1., 1., 3., 3.);
    let found = Line::find_overlaps(&a, &b, tol(1e-6)).unwrap();
    assert_eq!(found, (pt(1., 1.), pt(2., 2.)));

    let pieces = a.split(vec![pt(1., 1.)], tol(1e-6));
    assert_eq!(pieces, vec![line(0., 0., 1., 1.), line(1., 1., 2., 2.)]);

    let pieces = b.split(vec![pt(2., 2.)], tol(1e-6));
    assert_eq!(pieces, vec![line(1., 1., 2., 2.), line(2., 2., 3., 3.)]);
}

#[test]
fn segments_sharing_one_endpoint() {
    // Only the shared vertex qualifies, once from each side: no span is
    // shared, so nothing is to be split.
    let a = line(0., 0., 1., 1.);
    let b = line(1., 1., 2., 2.);
    assert_eq!(Line::find_overlaps(&a, &b, tol(1e-6)), None);
    assert_eq!(Line::find_overlaps(&b, &a, tol(1e-6)), None);
}

#[test]
fn resolved_pieces_no_longer_overlap() {
    let a = line(0., 0., 2., 2.);
    let b = line(1., 1., 3., 3.);
    let (p, q) = Line::find_overlaps(&a, &b, tol(1e-6)).unwrap();
    let pieces_a = a.split(vec![p, q], tol(1e-6));
    let pieces_b = b.split(vec![p, q], tol(1e-6));
    for x in &pieces_a {
        for y in &pieces_b {
            assert_eq!(Line::find_overlaps(x, y, tol(1e-6)), None);
        }
    }
}

#[test]
fn identical_segments_have_no_overlap() {
    let a = line(0., 0., 1., 1.);
    let b = line(0., 0., 1., 1.);
    assert_eq!(Line::find_overlaps(&a, &b, tol(1e-6)), None);
}

#[test]
fn skew_segments_have_no_overlap() {
    let a = line(0., 0., 2., 0.);
    let b = line(1., -1., 1., 1.);
    assert_eq!(Line::find_overlaps(&a, &b, tol(1e-6)), None);
}

#[test]
fn three_candidates_pick_by_distance() {
    // Candidates b.p1, b.p2 (on a), then a.p1 (on b): the first two are far
    // apart, so they are the span.
    let a = Line::new(0, 0, 10, 0);
    let b = Line::new(0, 0, 4, 0);
    assert_eq!(
        Line::find_overlaps(&a, &b, 0),
        Some((Point::new(0, 0), Point::new(4, 0)))
    );
    // Candidates b.p1, b.p2 (on a), then a.p2 (on b).
    let b = Line::new(10, 0, 6, 0);
    assert_eq!(
        Line::find_overlaps(&a, &b, 0),
        Some((Point::new(10, 0), Point::new(6, 0)))
    );
}

#[test]
fn three_candidates_close_first_pair() {
    // Only b's endpoints qualify: two candidates.
    let a = Line::new(0, 0, 100, 0);
    let b = Line::new(1, 0, 3, 0);
    assert_eq!(
        Line::find_overlaps(&a, &b, 1),
        Some((Point::new(1, 0), Point::new(3, 0)))
    );
    // b.p1 = (0,1) lies outside a's span; the candidates are b.p2 (on a)
    // and a.p1 (on b).
    let b = Line::new(0, 1, 2, 0);
    assert_eq!(
        Line::find_overlaps(&a, &b, 1),
        Some((Point::new(2, 0), Point::new(0, 0)))
    );
    // Candidates b.p1, b.p2 (on a) and a.p1 (on b): b.p1 and b.p2 lie within
    // a tolerance of 2 of each other, so the last two are returned; with a
    // tolerance of 0 the first two are.
    let a = Line::new(0, 0, 10, 0);
    let b = Line::new(0, 0, 1, 0);
    assert_eq!(
        Line::find_overlaps(&a, &b, 2),
        Some((Point::new(1, 0), Point::new(0, 0)))
    );
    assert_eq!(
        Line::find_overlaps(&a, &b, 0),
        Some((Point::new(0, 0), Point::new(1, 0)))
    );
}

#[test]
fn split_orders_along_main_axis_and_merges_exact_repeats() {
    let l = Line::new(0, 0, 10, 1);
    let pieces = l.split(vec![Point::new(7, 1), Point::new(3, 0), Point::new(7, 1)], 0);
    assert_eq!(
        pieces,
        vec![
            Line::new(0, 0, 3, 0),
            Line::new(3, 0, 7, 1),
            Line::new(7, 1, 10, 1)
        ]
    );
    let l = Line::new(0, 10, 1, 0);
    let pieces = l.split(vec![Point::new(0, 4)], 0);
    assert_eq!(pieces, vec![Line::new(1, 0, 0, 4), Line::new(0, 4, 0, 10)]);
}

#[test]
fn split_at_own_endpoints_gives_the_segment() {
    let l = Line::new(0, 0, 5, 5);
    assert_eq!(l.split(vec![l.p1, l.p2, l.p1], 0), vec![l]);
    assert_eq!(l.split(vec![], 0), vec![l]);
}

#[test]
fn split_keeps_near_duplicates() {
    let l = Line::new(0, 0, 100, 0);
    let pieces = l.split(vec![Point::new(50, 0), Point::new(51, 0)], 5);
    assert_eq!(pieces.len(), 3);
    assert_eq!(pieces[1], Line::new(50, 0, 51, 0));
}

#[test]
fn index_reads_and_writes_endpoints() {
    let mut l = Line::new(1, 2, 3, 4);
    assert_eq!(*l.index(0), Point::new(1, 2));
    assert_eq!(*l.index(1), Point::new(3, 4));
    *l.index_mut(1) = Point::new(9, 9);
    assert_eq!(l, Line::new(1, 2, 9, 9));
}

#[test]
fn line_record_round_trip() {
    let l = Line::new(-757772, 437500, 1079853, -2);
    let text = l.to_nfl(7);
    assert_eq!(text, "L00007=LINE/-0.757772,0.4375,1.079853,-0.000002");
    assert_eq!(Line::from_nfl(&text), Some(l));
    assert_eq!(l.to_nfl(1234567), "L1234567=LINE/-0.757772,0.4375,1.079853,-0.000002");
}

#[test]
fn line_record_rejects_bad_fields() {
    assert_eq!(Line::from_nfl("L00001=LINE/1,2,3"), None);
    assert_eq!(Line::from_nfl("L00001=LINE/1,2,x,4"), None);
    assert_eq!(
        Line::from_nfl("L00001=LINE/1,2,3,4,"),
        Some(Line::new(U, 2 * U, 3 * U, 4 * U))
    );
    assert_eq!(
        Line::from_nfl("L00001=LINE/0.7577722283114,0.4375,1.5,0"),
        Some(Line::new(757772, 437500, 1500000, 0))
    );
}
