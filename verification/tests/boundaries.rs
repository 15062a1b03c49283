use wks::{alias_boundary_left, boundary_left_to_right, CharExt};

#[test]
fn aliases_name_their_delimiters() {
    assert_eq!(alias_boundary_left("b"), "(");
    assert_eq!(alias_boundary_left("B"), "{");
    assert_eq!(alias_boundary_left("t"), "<");
    assert_eq!(alias_boundary_left("s"), "[");
    assert_eq!(alias_boundary_left("p"), "|");
    assert_eq!(alias_boundary_left("b\u{2192}"), ")");
    assert_eq!(alias_boundary_left("s\u{2192}"), "]");
    assert_eq!(alias_boundary_left("backtick"), "`");
    assert_eq!(alias_boundary_left("doublequote"), "\"");
    assert_eq!(alias_boundary_left("triple-doublequote"), "\"\"\"");
    assert_eq!(alias_boundary_left("triple-singlequote"), "'''");
}

#[test]
fn other_text_is_its_own_delimiter() {
    assert_eq!(alias_boundary_left("<!--"), "<!--");
    assert_eq!(alias_boundary_left(""), "");
}

#[test]
fn brackets_pair_up() {
    assert_eq!(boundary_left_to_right("("), ")");
    assert_eq!(boundary_left_to_right(")"), "(");
    assert_eq!(boundary_left_to_right("{"), "}");
    assert_eq!(boundary_left_to_right("<"), ">");
    assert_eq!(boundary_left_to_right("]"), "[");
    assert_eq!(boundary_left_to_right("begin"), "end");
    assert_eq!(boundary_left_to_right("\""), "\"");
}

#[test]
fn pairing_undoes_itself() {
    for d in ["(", ")", "{", "}", "<", ">", "[", "]", "end", "`", "**"] {
        assert_eq!(boundary_left_to_right(boundary_left_to_right(d)), d);
    }
    assert_eq!(boundary_left_to_right(boundary_left_to_right("begin")), "end");
}

#[test]
fn indentation_is_space_or_tab() {
    assert!(' '.is_indentation());
    assert!('\t'.is_indentation());
    assert!(!'\n'.is_indentation());
    assert!(!'x'.is_indentation());
}
