use nfl2mac::arc::Arc;
use nfl2mac::assembly::Assembly;
use nfl2mac::line::Line;
use nfl2mac::part::Part;

const U: i32 = 1_000_000;

fn strings(v: &[&str]) -> Vec<String> {
    v.iter().map(|s| String::from(*s)).collect()
}

#[test]
fn arc_record_reads_keyed_fields() {
    let a = Arc::new("C00023=CIRCLE/CENTER,0.8,1.5,RADIUS,0.25,GOANG,90,ENDANG,256.5").unwrap();
    assert_eq!(
        a,
        Arc { x: 800_000, y: 1_500_000, radius: 250_000, go_angle: 90 * U, end_angle: 256_500_000 }
    );
    let full = Arc::new("C00001=CIRCLE/CENTER,1,2,RADIUS,3").unwrap();
    assert_eq!(full.go_angle, 0);
    assert_eq!(full.end_angle, 360 * U);
    assert_eq!(Arc::new("C00001=CIRCLE/CENTER,1"), None);
    assert_eq!(Arc::new("C00001=CIRCLE/RADIUS,x"), None);
}

#[test]
fn arc_record_writes_angles_only_when_not_a_full_turn() {
    let full = Arc { x: U, y: 2 * U, radius: 3 * U, go_angle: 0, end_angle: 360 * U };
    assert_eq!(full.to_nfl(5), "C00005=CIRCLE/CENTER,1,2,RADIUS,3");
    let part = Arc { x: U, y: 2 * U, radius: 500_000, go_angle: 90 * U, end_angle: 180 * U };
    assert_eq!(part.to_nfl(12), "C00012=CIRCLE/CENTER,1,2,RADIUS,0.5,GOANG,90,ENDANG,180");
    assert_eq!(Arc::new(&part.to_nfl(12)), Some(part));
}

#[test]
fn part_reads_records_and_joins_continued_lines() {
    let p = Part::new(
        3,
        strings(&[
            "L00001=LINE/0,0,$",
            "   1,1  ",
            "C00002=CIRCLE/CENTER,0,0,RADIUS,1",
            "COLOR/RED",
            "NAME/a/b",
            "COLOR/BLUE",
        ]),
    )
    .unwrap();
    assert_eq!(p.level, 3);
    assert_eq!(p.lines, vec![Line::new(0, 0, U, U)]);
    assert_eq!(p.arcs.len(), 1);
    assert_eq!(
        p.data,
        vec![
            (String::from("COLOR"), String::from("BLUE")),
            (String::from("NAME"), String::from("a/b"))
        ]
    );
}

#[test]
fn part_rejects_unreadable_records() {
    assert!(Part::new(1, strings(&["L00001=LINE/0,0,$"])).is_none());
    assert!(Part::new(1, strings(&["NO SEPARATOR"])).is_none());
    assert!(Part::new(1, strings(&["L00001=LINE/0,0,1"])).is_none());
    assert!(Part::new(1, strings(&[])).is_some());
}

#[test]
fn part_text_numbers_segments_then_arcs() {
    let p = Part {
        level: 7,
        data: vec![(String::from("COLOR"), String::from("RED"))],
        lines: vec![Line::new(0, 0, U, U), Line::new(U, U, 2 * U, 0)],
        arcs: vec![Arc { x: 0, y: 0, radius: U, go_angle: 0, end_angle: 360 * U }],
    };
    let mut id: u64 = 4;
    let text = p.to_nfl(&mut id);
    assert_eq!(
        text,
        "LEVEL/7\nCOLOR/RED\nL00004=LINE/0,0,1,1\nL00005=LINE/1,1,2,0\nC00006=CIRCLE/CENTER,0,0,RADIUS,1\n"
    );
    assert_eq!(id, 7);
}

#[test]
fn assembly_reads_header_parts_and_footer() {
    let lines = strings(&[
        "HEADER ONE",
        "",
        "LEVEL/2",
        "L00001=LINE/0,0,1,0",
        "LEVEL/1",
        "L00002=LINE/5,5,6,6",
        "LEVEL/2",
        "L00003=LINE/0,1,1,1",
        "FINI/",
        "TAIL",
        "\u{1a}",
    ]);
    let a = Assembly::from_lines(lines).unwrap();
    assert_eq!(a.header, strings(&["HEADER ONE"]));
    assert_eq!(a.footer, strings(&["FINI/", "TAIL"]));
    assert_eq!(a.parts.len(), 2);
    assert_eq!(a.parts[0].level, 1);
    assert_eq!(a.parts[0].lines, vec![Line::new(5 * U, 5 * U, 6 * U, 6 * U)]);
    assert_eq!(a.parts[1].level, 2);
    assert_eq!(a.parts[1].lines, vec![Line::new(0, 0, U, 0), Line::new(0, U, U, U)]);
}

#[test]
fn assembly_level_that_is_not_a_number_is_zero() {
    let a = Assembly::from_lines(strings(&["LEVEL/x", "K/V"])).unwrap();
    assert_eq!(a.parts.len(), 1);
    assert_eq!(a.parts[0].level, 0);
    assert!(Assembly::from_lines(strings(&["LEVEL/1", "BROKEN"])).is_none());
}

#[test]
fn assembly_text_numbers_across_parts_and_drops_last_newline() {
    let a = Assembly::from_lines(strings(&[
        "HEAD",
        "LEVEL/1",
        "L00009=LINE/0,0,1,0",
        "LEVEL/2",
        "L00010=LINE/0,1,1,1",
        "C00011=CIRCLE/CENTER,0,0,RADIUS,2",
        "FINI/",
    ]))
    .unwrap();
    assert_eq!(
        a.to_nfl(),
        "HEAD\nLEVEL/1\nL00001=LINE/0,0,1,0\nLEVEL/2\nL00002=LINE/0,1,1,1\nC00003=CIRCLE/CENTER,0,0,RADIUS,2\nFINI/"
    );
    let empty = Assembly { header: vec![], footer: vec![], parts: vec![] };
    assert_eq!(empty.to_nfl(), "");
}

#[test]
fn split_then_write_aligns_shared_spans() {
    let mut a = Assembly::from_lines(strings(&[
        "LEVEL/1",
        "L00001=LINE/0,0,2,2",
        "LEVEL/2",
        "L00002=LINE/1,1,3,3",
        "FINI/",
    ]))
    .unwrap();
    a.split(1);
    assert_eq!(
        a.to_nfl(),
        "LEVEL/1\nL00001=LINE/0,0,1,1\nL00002=LINE/1,1,2,2\nLEVEL/2\nL00003=LINE/1,1,2,2\nL00004=LINE/2,2,3,3\nFINI/"
    );
}

#[test]
fn part_segments_survive_writing_and_reading() {
    let p = Part {
        level: 2,
        data: vec![],
        lines: vec![
            Line::new(-1_250_000, 3, 7 * U, 0),
            Line::new(7 * U, 0, 2_147_483_647, -2_147_483_648),
        ],
        arcs: vec![],
    };
    let mut id: u64 = 98;
    let text = p.to_nfl(&mut id);
    let records: Vec<String> = text.lines().skip(1).map(String::from).collect();
    let back = Part::new(2, records).unwrap();
    assert_eq!(back.lines, p.lines);
    assert!(back.arcs.is_empty() && back.data.is_empty());
}

#[test]
fn whole_part_survives_writing_and_reading() {
    let p = Part {
        level: 5,
        data: vec![
            (String::from("COLOR"), String::from("RED")),
            (String::from("NAME"), String::from("plate/2")),
        ],
        lines: vec![Line::new(0, 0, U, U), Line::new(-3, 7, 2 * U, 1)],
        arcs: vec![
            Arc { x: U, y: -U, radius: 250_000, go_angle: 0, end_angle: 360 * U },
            Arc { x: 0, y: 0, radius: U, go_angle: 45 * U, end_angle: 90 * U },
        ],
    };
    let mut id: u64 = 1;
    let text = p.to_nfl(&mut id);
    let records: Vec<String> = text.lines().skip(1).map(String::from).collect();
    let back = Part::new(5, records).unwrap();
    assert_eq!(back.data, p.data);
    assert_eq!(back.lines, p.lines);
    assert_eq!(back.arcs, p.arcs);
}

#[test]
fn tag_ends_at_last_slash_of_first_line() {
    assert_eq!(Line::from_nfl("A/B\nL/1,2,3,4"), None);
    assert_eq!(Line::from_nfl("1,2,3,4"), Some(Line::new(U, 2 * U, 3 * U, 4 * U)));
    assert_eq!(Line::from_nfl("x/y/1,2,3,4"), Some(Line::new(U, 2 * U, 3 * U, 4 * U)));
}
