use relative_placement::{CompetitorID, JudgeID, LoadError, Sheet};

fn strings(fields: &[&str]) -> Vec<String> {
    fields.iter().map(|f| f.to_string()).collect()
}

#[test]
fn text_gives_judges_competitors_and_scores() {
    let sheet = Sheet::from_str("name, j1 ,j2\n Ann ,1, 2 \nBob, 2,1").unwrap();
    assert_eq!(sheet.n_judges(), 2);
    assert_eq!(sheet.n_competitors(), 2);
    let judges: Vec<(usize, &str)> =
        sheet.judges().iter().map(|j| (j.id.0, j.name.as_str())).collect();
    assert_eq!(judges, vec![(0, "j1"), (1, "j2")]);
    let names: Vec<(usize, &str, bool)> =
        sheet.competitors().iter().map(|c| (c.id.0, c.name.as_str(), c.marked)).collect();
    assert_eq!(names, vec![(0, "Ann", false), (1, "Bob", false)]);
    assert_eq!(sheet.score(JudgeID(0), CompetitorID(0)), 1);
    assert_eq!(sheet.score(JudgeID(1), CompetitorID(0)), 2);
    assert_eq!(sheet.score(JudgeID(0), CompetitorID(1)), 2);
    assert_eq!(sheet.score(JudgeID(1), CompetitorID(1)), 1);
}

#[test]
fn bytes_and_text_load_alike() {
    let text = "name,a\nAnn,3\n";
    let from_text = Sheet::from_str(text).unwrap();
    let from_bytes = Sheet::from_bytes(text.as_bytes()).unwrap();
    assert_eq!(from_text.n_competitors(), from_bytes.n_competitors());
    assert_eq!(from_bytes.score(JudgeID(0), CompetitorID(0)), 3);
}

#[test]
fn quoted_fields_are_read_by_the_reader() {
    let sheet = Sheet::from_str("name,a\n\"Doe, Jane\",1\n").unwrap();
    assert_eq!(sheet.competitors()[0].name, "Doe, Jane");
}

#[test]
fn white_space_of_every_kind_is_trimmed() {
    let header = strings(&["name", "\u{3000}first\t"]);
    let rows = vec![strings(&["\u{a0}Ann\u{2003}\n", " \u{85}7\r"])];
    let sheet = Sheet::from_records(&header, &rows).unwrap();
    assert_eq!(sheet.judges()[0].name, "first");
    assert_eq!(sheet.competitors()[0].name, "Ann");
    assert_eq!(sheet.score(JudgeID(0), CompetitorID(0)), 7);
}

#[test]
fn inner_white_space_and_other_marks_stay() {
    let header = strings(&["name", "a"]);
    let rows = vec![strings(&["  Jim  Bob\u{200b} ", "1"])];
    let sheet = Sheet::from_records(&header, &rows).unwrap();
    assert_eq!(sheet.competitors()[0].name, "Jim  Bob\u{200b}");
}

#[test]
fn placements_are_decimal_with_an_optional_plus() {
    let header = strings(&["name", "a", "b", "c"]);
    let rows = vec![
        strings(&["Ann", "+3", "007", "4294967295"]),
        strings(&["Bob", "+0", "0000000000000000000012", "+4294967295"]),
    ];
    let sheet = Sheet::from_records(&header, &rows).unwrap();
    assert_eq!(sheet.score(JudgeID(0), CompetitorID(0)), 3);
    assert_eq!(sheet.score(JudgeID(1), CompetitorID(0)), 7);
    assert_eq!(sheet.score(JudgeID(2), CompetitorID(0)), 4294967295);
    assert_eq!(sheet.score(JudgeID(0), CompetitorID(1)), 0);
    assert_eq!(sheet.score(JudgeID(1), CompetitorID(1)), 12);
    assert_eq!(sheet.score(JudgeID(2), CompetitorID(1)), 4294967295);
}

fn score_error(field: &str) -> (usize, usize) {
    let header = strings(&["name", "a", "b"]);
    let rows = vec![strings(&["Ann", "1", "2"]), strings(&["Bob", "1", field])];
    match Sheet::from_records(&header, &rows) {
        Err(LoadError::Score { row, judge }) => (row, judge),
        other => panic!("expected a score error, got {:?}", other.map(|s| s.n_competitors())),
    }
}

#[test]
fn fields_that_are_no_placement_are_refused() {
    assert_eq!(score_error(""), (1, 1));
    assert_eq!(score_error("+"), (1, 1));
    assert_eq!(score_error("-1"), (1, 1));
    assert_eq!(score_error("1.5"), (1, 1));
    assert_eq!(score_error("1 2"), (1, 1));
    assert_eq!(score_error("x"), (1, 1));
    assert_eq!(score_error("++1"), (1, 1));
    assert_eq!(score_error("4294967296"), (1, 1));
    assert_eq!(score_error("1_000"), (1, 1));
    assert_eq!(score_error("\u{661}"), (1, 1));
    assert_eq!(score_error("0x10"), (1, 1));
    assert_eq!(score_error("1e3"), (1, 1));
    assert_eq!(score_error("+ 1"), (1, 1));
}

#[test]
fn first_bad_field_of_first_bad_row_is_reported() {
    let header = strings(&["name", "a", "b"]);
    let rows = vec![
        strings(&["Ann", "1", "2"]),
        strings(&["Bob", "x", "y"]),
        strings(&["Cy", "1"]),
    ];
    match Sheet::from_records(&header, &rows) {
        Err(LoadError::Score { row, judge }) => assert_eq!((row, judge), (1, 0)),
        other => panic!("expected a score error, got {:?}", other.map(|s| s.n_competitors())),
    }
}

#[test]
fn row_of_wrong_width_is_refused() {
    let header = strings(&["name", "a", "b"]);
    let rows = vec![strings(&["Ann", "1", "2"]), strings(&["Bob", "1"])];
    match Sheet::from_records(&header, &rows) {
        Err(LoadError::FieldCount { row, expected, found }) => {
            assert_eq!((row, expected, found), (1, 3, 2))
        }
        other => panic!("expected a width error, got {:?}", other.map(|s| s.n_competitors())),
    }
    let no_fields: Vec<Vec<String>> = vec![vec![]];
    match Sheet::from_records(&[], &no_fields) {
        Err(LoadError::FieldCount { row, expected, found }) => {
            assert_eq!((row, expected, found), (0, 1, 0))
        }
        other => panic!("expected a width error, got {:?}", other.map(|s| s.n_competitors())),
    }
}

#[test]
fn reader_reports_rows_of_unequal_length() {
    match Sheet::from_str("name,a,b\nAnn,1,2\nBob,1\n") {
        Err(LoadError::Csv(_)) => {}
        other => panic!("expected a reader error, got {:?}", other.map(|s| s.n_competitors())),
    }
}

#[test]
fn reader_reports_a_header_that_is_no_text() {
    match Sheet::from_bytes(b"name,\xff\nAnn,1\n") {
        Err(LoadError::Csv(_)) => {}
        other => panic!("expected a reader error, got {:?}", other.map(|s| s.n_competitors())),
    }
}

#[test]
fn error_of_an_earlier_row_comes_first() {
    match Sheet::from_str("name,a\nAnn,x\nBob,1,2\n") {
        Err(LoadError::Score { row, judge }) => assert_eq!((row, judge), (0, 0)),
        other => panic!("expected a score error, got {:?}", other.map(|s| s.n_competitors())),
    }
}

#[test]
fn faulty_row_leaves_the_sheet_as_it_was() {
    let mut sheet = Sheet::from_str("name,a\nAnn,1\n").unwrap();
    assert!(sheet.add_row(&strings(&["Bob", "x"])).is_err());
    assert!(sheet.add_row(&strings(&["Bob"])).is_err());
    assert_eq!(sheet.n_competitors(), 1);
    assert!(sheet.add_row(&strings(&[" Bob ", " 2 "])).is_ok());
    assert_eq!(sheet.n_competitors(), 2);
    assert_eq!(sheet.competitors()[1].name, "Bob");
    assert_eq!(sheet.score(JudgeID(0), CompetitorID(1)), 2);
}

#[test]
fn sheets_can_be_built_by_hand() {
    let mut sheet = Sheet::new();
    sheet.add_judge("a".to_string());
    sheet.add_judge("b".to_string());
    sheet.add_judge("c".to_string());
    sheet.add_competitor("Ann".to_string(), &[2, 2, 1]);
    sheet.add_competitor("Bob".to_string(), &[1, 1, 2]);
    assert_eq!(sheet.n_judges(), 3);
    assert_eq!(sheet.score(JudgeID(2), CompetitorID(1)), 2);
    sheet.add_competitor("Cy".to_string(), &[3, 3, 3]);
    let rank = sheet.rank();
    assert_eq!(rank.len(), 3);
    assert_eq!(rank[0].as_one().unwrap().name, "Bob");
    assert_eq!(rank[1].as_one().unwrap().name, "Ann");
    assert!(rank[2].as_one().is_none());
    assert_eq!(rank[2].competitors()[0].name, "Cy");
}

#[test]
fn trimming_takes_exactly_the_white_space_characters() {
    let header = strings(&["name"]);
    let mut rows = Vec::new();
    let mut expected = Vec::new();
    let mut code: u32 = 0;
    while code <= 0x10ffff {
        if let Some(c) = char::from_u32(code) {
            let white = matches!(
                code,
                0x09..=0x0d
                    | 0x20
                    | 0x85
                    | 0xa0
                    | 0x1680
                    | 0x2000..=0x200a
                    | 0x2028
                    | 0x2029
                    | 0x202f
                    | 0x205f
                    | 0x3000
            );
            let field = format!("{}x{}", c, c);
            expected.push(if white { "x".to_string() } else { field.clone() });
            rows.push(vec![field]);
        }
        code += if code < 0x1_0000 { 1 } else { 0x101 };
    }
    let sheet = Sheet::from_records(&header, &rows).unwrap();
    assert_eq!(sheet.n_competitors(), expected.len());
    for (competitor, name) in sheet.competitors().iter().zip(expected.iter()) {
        assert_eq!(&competitor.name, name);
    }
}

#[test]
fn text_of_white_space_only_trims_to_nothing() {
    let header = strings(&[" \t", "\n"]);
    let rows = vec![strings(&["  \u{2028} ", "5"])];
    let sheet = Sheet::from_records(&header, &rows).unwrap();
    assert_eq!(sheet.judges()[0].name, "");
    assert_eq!(sheet.competitors()[0].name, "");
}

#[test]
fn every_small_number_reads_as_itself() {
    let header = strings(&["name", "a"]);
    let rows: Vec<Vec<String>> =
        (0..2000u32).map(|n| vec![format!("c{}", n), format!(" {} ", n)]).collect();
    let sheet = Sheet::from_records(&header, &rows).unwrap();
    for n in 0..2000usize {
        assert_eq!(sheet.score(JudgeID(0), CompetitorID(n)), n as u32);
    }
    assert_eq!(sheet.worst_placement(), 1999);
}
