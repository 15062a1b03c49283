use wks::qrtool::qrtool_args;
use wks::shift::{parse_count, shift_lines};
use wks::velvidek::letters_to_digits;

#[test]
fn letters_become_digits() {
    assert_eq!(letters_to_digits("fdsrewvcxa"), "1234567890");
    assert_eq!(letters_to_digits("f-d.9"), "1-2.9");
}

fn strings(v: &[&str]) -> Vec<String> {
    v.iter().map(|s| s.to_string()).collect()
}

#[test]
fn qrtool_commands() {
    assert_eq!(
        qrtool_args(&strings(&["c", "text"])),
        strings(&["encode", "-m", "1", "--optimize-png", "4", "text"])
    );
    assert_eq!(
        qrtool_args(&strings(&["t", "a", "b"])),
        strings(&["encode", "-m", "1", "-t", "terminal", "a", "b"])
    );
    assert_eq!(qrtool_args(&strings(&["decode", "x.png"])), strings(&["decode", "x.png"]));
    assert_eq!(qrtool_args(&strings(&[])), strings(&[]));
}

#[test]
fn shifting_lines_off_a_file() {
    let s = shift_lines("one\ntwo\nthree\n", 2);
    assert_eq!(s.taken, strings(&["one", "two"]));
    assert_eq!(s.rest, Some("three".to_string()));
    let all = shift_lines("one\ntwo", 5);
    assert_eq!(all.taken, strings(&["one", "two"]));
    assert_eq!(all.rest, None);
}

#[test]
fn count_defaults_to_one() {
    assert_eq!(parse_count(Some("3".to_string())), 3);
    assert_eq!(parse_count(Some("x".to_string())), 1);
    assert_eq!(parse_count(None), 1);
}
