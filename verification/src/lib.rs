use vstd::prelude::*;

pub mod anki;
pub mod bacon;
pub mod brath;
pub mod confirm;
pub mod github_url;
pub mod links;
pub mod partialsort;
pub mod propose;
pub mod qrtool;
pub mod shift;
pub mod strip_wrapper;
pub mod termdown;
pub mod text;
pub mod velvidek;
pub mod walk;
pub mod wrap_block;

use crate::text::str_eq;

verus! {

/// Indentation characters: a space or a tab.
pub open spec fn spec_is_indentation(c: char) -> bool {
    c == ' ' || c == '\t'
}

/// Character classification used when trimming indentation around a wrapped block.
pub trait CharExt {
    fn is_indentation(&self) -> bool;
}

impl CharExt for char {
    fn is_indentation(&self) -> (res: bool)
        ensures
            res == spec_is_indentation(*self),
    {
        *self == ' ' || *self == '\t'
    }
}

/// The left delimiter that a short alias names (`b` for `(`, `B` for `{`,
/// ...); any other text is its own left delimiter.
pub open spec fn spec_alias_boundary_left(d: Seq<char>) -> Seq<char> {
    if d == "b"@ {
        "("@
    } else if d == "B"@ {
        "{"@
    } else if d == "t"@ {
        "<"@
    } else if d == "s"@ {
        "["@
    } else if d == "p"@ {
        "|"@
    } else if d == "b\u{2192}"@ {
        ")"@
    } else if d == "B\u{2192}"@ {
        "}"@
    } else if d == "t\u{2192}"@ {
        ">"@
    } else if d == "s\u{2192}"@ {
        "]"@
    } else if d == "backtick"@ {
        "`"@
    } else if d == "doublequote"@ {
        "\""@
    } else if d == "singlequote"@ {
        "'"@
    } else if d == "triple-backtick"@ {
        "```"@
    } else if d == "triple-doublequote"@ {
        "\"\"\""@
    } else if d == "triple-singlequote"@ {
        "'''"@
    } else {
        d
    }
}

/// The right delimiter that closes a left one: brackets swap with their
/// partners, `begin` is closed by `end`, and anything else closes itself.
pub open spec fn spec_boundary_left_to_right(d: Seq<char>) -> Seq<char> {
    if d == "("@ {
        ")"@
    } else if d == "{"@ {
        "}"@
    } else if d == "<"@ {
        ">"@
    } else if d == "["@ {
        "]"@
    } else if d == ")"@ {
        "("@
    } else if d == "}"@ {
        "{"@
    } else if d == ">"@ {
        "<"@
    } else if d == "]"@ {
        "["@
    } else if d == "begin"@ {
        "end"@
    } else {
        d
    }
}

/// Expands a delimiter alias into the delimiter it names.
pub fn alias_boundary_left(delimiter: &str) -> (res: &str)
    ensures
        res@ == spec_alias_boundary_left(delimiter@),
{
    if str_eq(delimiter, "b") {
        "("
    } else if str_eq(delimiter, "B") {
        "{"
    } else if str_eq(delimiter, "t") {
        "<"
    } else if str_eq(delimiter, "s") {
        "["
    } else if str_eq(delimiter, "p") {
        "|"
    } else if str_eq(delimiter, "b\u{2192}") {
        ")"
    } else if str_eq(delimiter, "B\u{2192}") {
        "}"
    } else if str_eq(delimiter, "t\u{2192}") {
        ">"
    } else if str_eq(delimiter, "s\u{2192}") {
        "]"
    } else if str_eq(delimiter, "backtick") {
        "`"
    } else if str_eq(delimiter, "doublequote") {
        "\""
    } else if str_eq(delimiter, "singlequote") {
        "'"
    } else if str_eq(delimiter, "triple-backtick") {
        "```"
    } else if str_eq(delimiter, "triple-doublequote") {
        "\"\"\""
    } else if str_eq(delimiter, "triple-singlequote") {
        "'''"
    } else {
        delimiter
    }
}

/// The right delimiter that pairs with a left one.
pub fn boundary_left_to_right(delimiter: &str) -> (res: &str)
    ensures
        res@ == spec_boundary_left_to_right(delimiter@),
{
    if str_eq(delimiter, "(") {
        ")"
    } else if str_eq(delimiter, "{") {
        "}"
    } else if str_eq(delimiter, "<") {
        ">"
    } else if str_eq(delimiter, "[") {
        "]"
    } else if str_eq(delimiter, ")") {
        "("
    } else if str_eq(delimiter, "}") {
        "{"
    } else if str_eq(delimiter, ">") {
        "<"
    } else if str_eq(delimiter, "]") {
        "["
    } else if str_eq(delimiter, "begin") {
        "end"
    } else {
        delimiter
    }
}

/// Closing the delimiter that closes a bracket gives the bracket back, and
/// every other delimiter but `begin` closes itself: the pairing undoes itself.
pub proof fn lemma_boundary_pairing_undoes_itself(d: Seq<char>)
    requires
        d != "begin"@,
    ensures
        spec_boundary_left_to_right(spec_boundary_left_to_right(d)) == d,
{
    reveal_strlit("(");
    reveal_strlit(")");
    reveal_strlit("{");
    reveal_strlit("}");
    reveal_strlit("<");
    reveal_strlit(">");
    reveal_strlit("[");
    reveal_strlit("]");
    reveal_strlit("begin");
    reveal_strlit("end");
    let lits = seq!["("@, ")"@, "{"@, "}"@, "<"@, ">"@, "["@, "]"@, "begin"@, "end"@];
    assert forall|i: int, j: int| 0 <= i < j < lits.len() implies lits[i] != lits[j] by {
        if lits[i].len() == lits[j].len() {
            assert(lits[i][0] != lits[j][0]);
        }
    }
}

} // verus!
