use wks::bacon::{parse_current_index, parse_locations, targeted_index, Action, DiagError, DiagInfo};

#[test]
fn reads_a_location() {
    let d = DiagInfo::try_from("src/main.rs:12:5").unwrap();
    assert_eq!(d.path, "src/main.rs");
    assert_eq!(d.line, 12);
    assert_eq!(d.column, 5);
}

#[test]
fn extra_pieces_are_ignored() {
    let d = DiagInfo::try_from("a.rs:1:2:warning").unwrap();
    assert_eq!((d.path.as_str(), d.line, d.column), ("a.rs", 1, 2));
}

#[test]
fn each_error_has_its_input() {
    assert_eq!(DiagInfo::try_from("a.rs"), Err(DiagError::LineMissing));
    assert_eq!(DiagInfo::try_from("a.rs:x:1"), Err(DiagError::LineInvalid));
    assert_eq!(DiagInfo::try_from("a.rs:3"), Err(DiagError::ColumnMissing));
    assert_eq!(DiagInfo::try_from("a.rs:3:"), Err(DiagError::ColumnInvalid));
    assert_eq!(DiagInfo::try_from("a.rs:99999999999999999999999:1"), Err(DiagError::LineInvalid));
}

#[test]
fn plus_sign_numbers_read() {
    let d = DiagInfo::try_from("a.rs:+3:+4").unwrap();
    assert_eq!((d.line, d.column), (3, 4));
}

#[test]
fn writes_back_what_it_reads() {
    let d = DiagInfo { path: "src/lib.rs".to_string(), line: 1207, column: 0 };
    let s = d.to_string();
    assert_eq!(s, "src/lib.rs:1207:0");
    assert_eq!(DiagInfo::try_from(s.as_str()).unwrap(), d);
}

#[test]
fn locations_file_keeps_readable_lines() {
    let text = "a.rs:1:2\nnot a location\nb.rs:3:4\r\n\n";
    let locs = parse_locations(text);
    assert_eq!(locs.len(), 2);
    assert_eq!(locs[0].to_string(), "a.rs:1:2");
    assert_eq!(locs[1].to_string(), "b.rs:3:4");
}

#[test]
fn current_index_is_trimmed_and_bounded() {
    assert_eq!(parse_current_index(" 2\n", 3), Some(2));
    assert_eq!(parse_current_index("\u{a0}1\u{3000}", 3), Some(1));
    assert_eq!(parse_current_index("3", 3), None);
    assert_eq!(parse_current_index("x", 3), None);
}

#[test]
fn moving_between_locations() {
    assert_eq!(targeted_index(Action::Next, Some(0), 3), 1);
    assert_eq!(targeted_index(Action::Next, Some(2), 3), 2);
    assert_eq!(targeted_index(Action::Prev, Some(0), 3), 0);
    assert_eq!(targeted_index(Action::Prev, Some(2), 3), 1);
    assert_eq!(targeted_index(Action::First, Some(2), 3), 0);
    assert_eq!(targeted_index(Action::Next, None, 3), 0);
    assert_eq!(targeted_index(Action::Prev, None, 3), 0);
}
