use nfl2mac::assembly::Assembly;
use nfl2mac::line::Line;
use nfl2mac::part::Part;

fn part(level: u64, lines: Vec<Line>) -> Part {
    Part { level, data: Vec::new(), lines, arcs: Vec::new() }
}

#[test]
fn resolving_two_parts_splits_both_at_the_shared_span() {
    let mut a = part(1, vec![Line::new(0, 0, 2, 2), Line::new(10, 0, 10, 5)]);
    let mut b = part(2, vec![Line::new(1, 1, 3, 3)]);
    Part::resolve_overlaps(&mut a, &mut b, 0);
    assert_eq!(
        a.lines,
        vec![Line::new(10, 0, 10, 5), Line::new(0, 0, 1, 1), Line::new(1, 1, 2, 2)]
    );
    assert_eq!(b.lines, vec![Line::new(1, 1, 2, 2), Line::new(2, 2, 3, 3)]);
}

#[test]
fn split_points_gather_from_several_partners() {
    let mut a = part(1, vec![Line::new(0, 0, 10, 0)]);
    let mut b = part(2, vec![Line::new(2, 0, 3, 0), Line::new(6, 0, 7, 0)]);
    Part::resolve_overlaps(&mut a, &mut b, 0);
    assert_eq!(
        a.lines,
        vec![
            Line::new(0, 0, 2, 0),
            Line::new(2, 0, 3, 0),
            Line::new(3, 0, 6, 0),
            Line::new(6, 0, 7, 0),
            Line::new(7, 0, 10, 0)
        ]
    );
    assert_eq!(b.lines, vec![Line::new(2, 0, 3, 0), Line::new(6, 0, 7, 0)]);
}

#[test]
fn resolving_disjoint_parts_changes_nothing() {
    let mut drawing = Assembly {
        header: vec![String::from("HEAD")],
        footer: vec![],
        parts: vec![
            part(1, vec![Line::new(0, 0, 2, 2), Line::new(5, 5, 6, 9)]),
            part(2, vec![Line::new(0, 1, 2, 3)]),
            part(3, vec![Line::new(-4, 0, -4, 8)]),
        ],
    };
    let before: Vec<Vec<Line>> = drawing.parts.iter().map(|p| p.lines.clone()).collect();
    drawing.split(0);
    let after: Vec<Vec<Line>> = drawing.parts.iter().map(|p| p.lines.clone()).collect();
    assert_eq!(before, after);
    assert_eq!(drawing.header, vec![String::from("HEAD")]);
}

#[test]
fn all_pairs_resolution_over_three_parts() {
    let mut drawing = Assembly {
        header: vec![],
        footer: vec![],
        parts: vec![
            part(1, vec![Line::new(0, 0, 4, 0)]),
            part(2, vec![Line::new(2, 0, 6, 0)]),
            part(3, vec![Line::new(100, 100, 101, 100)]),
        ],
    };
    drawing.split(0);
    assert_eq!(drawing.parts[0].lines, vec![Line::new(0, 0, 2, 0), Line::new(2, 0, 4, 0)]);
    assert_eq!(drawing.parts[1].lines, vec![Line::new(2, 0, 4, 0), Line::new(4, 0, 6, 0)]);
    assert_eq!(drawing.parts[2].lines, vec![Line::new(100, 100, 101, 100)]);
    assert_eq!(drawing.parts.iter().map(|p| p.level).collect::<Vec<_>>(), vec![1, 2, 3]);
}

#[test]
fn negative_tolerance_disables_splitting() {
    let mut a = part(1, vec![Line::new(0, 0, 2, 2)]);
    let mut b = part(2, vec![Line::new(1, 1, 3, 3)]);
    Part::resolve_overlaps(&mut a, &mut b, -1);
    assert_eq!(a.lines, vec![Line::new(0, 0, 2, 2)]);
    assert_eq!(b.lines, vec![Line::new(1, 1, 3, 3)]);
}
