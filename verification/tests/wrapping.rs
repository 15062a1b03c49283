use wks::strip_wrapper::strip_wrapper;
use wks::wrap_block::wrap_block;

fn strings(v: &[&str]) -> Vec<String> {
    v.iter().map(|s| s.to_string()).collect()
}

#[test]
fn wraps_indented_lines() {
    let out = wrap_block("    ", "  ", "B", &strings(&["  a", "  b"]));
    assert_eq!(out, "  {\n      a\n      b\n  }\n");
}

#[test]
fn wraps_inline_selection() {
    let out = wrap_block("    ", "  ", "b", &strings(&["x"]));
    assert_eq!(out, "(\n      x\n  )\n");
}

#[test]
fn quote_like_delimiters_keep_innards() {
    let out = wrap_block("    ", "", "triple-backtick", &strings(&["code"]));
    assert_eq!(out, "```\ncode\n```\n");
}

#[test]
fn wrapping_nothing_closes_only() {
    let out = wrap_block("    ", "  ", "s", &strings(&[]));
    assert_eq!(out, "  ]\n");
}

#[test]
fn strips_inline_wrapper() {
    assert_eq!(strip_wrapper("(abc)", "b"), "abc");
    assert_eq!(strip_wrapper("Vec<u8>", "t"), "u8");
}

#[test]
fn strips_block_wrapper_and_inner_whitespace() {
    assert_eq!(strip_wrapper("{\n    body\n}", "B"), "    body\n");
}

#[test]
fn missing_delimiters_keep_the_ends() {
    assert_eq!(strip_wrapper("abc", "b"), "abc");
}
