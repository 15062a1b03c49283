use vstd::prelude::*;

use crate::text::{chars_of, is_unicode_ws, is_unicode_ws_char, push_char, push_chars, str_eq, string_views};
use crate::{
    alias_boundary_left, boundary_left_to_right, spec_alias_boundary_left,
    spec_boundary_left_to_right,
};

verus! {

broadcast use vstd::string::group_string_axioms;

/// A line that starts with whitespace carries its own indentation.
pub open spec fn has_own_indent(line: Seq<char>) -> bool {
    line.len() > 0 && is_unicode_ws(line[0])
}

/// Quote-like delimiters whose contents are not indented further.
pub open spec fn keeps_innards(left: Seq<char>) -> bool {
    left == "\"\"\""@ || left == "```"@ || left == "'''"@
}

/// One wrapped line: the line indentation unless the line has its own, the
/// buffer indentation unless the delimiter is quote-like, then the line.
pub open spec fn wrapped_line(
    line: Seq<char>,
    buffer_indentation: Seq<char>,
    line_indentation: Seq<char>,
    left: Seq<char>,
) -> Seq<char> {
    (if has_own_indent(line) {
        Seq::empty()
    } else {
        line_indentation
    }) + (if keeps_innards(left) {
        Seq::empty()
    } else {
        buffer_indentation
    }) + line + seq!['\n']
}

pub open spec fn wrapped_lines(
    lines: Seq<Seq<char>>,
    buffer_indentation: Seq<char>,
    line_indentation: Seq<char>,
    left: Seq<char>,
) -> Seq<char>
    decreases lines.len(),
{
    if lines.len() == 0 {
        Seq::empty()
    } else {
        wrapped_lines(lines.drop_last(), buffer_indentation, line_indentation, left)
            + wrapped_line(lines.last(), buffer_indentation, line_indentation, left)
    }
}

/// The opening delimiter on a line of its own, before the first line;
/// indented where the first line carries its own indentation.
pub open spec fn opening(lines: Seq<Seq<char>>, line_indentation: Seq<char>, left: Seq<char>) -> Seq<
    char,
> {
    if lines.len() == 0 {
        Seq::empty()
    } else {
        (if has_own_indent(lines[0]) {
            line_indentation
        } else {
            Seq::empty()
        }) + left + seq!['\n']
    }
}

/// The lines wrapped in a pair of delimiters, the closing one indented on a
/// line of its own.
pub open spec fn spec_wrap_block(
    buffer_indentation: Seq<char>,
    line_indentation: Seq<char>,
    surrounding: Seq<char>,
    lines: Seq<Seq<char>>,
) -> Seq<char> {
    let left = spec_alias_boundary_left(surrounding);
    let right = spec_boundary_left_to_right(left);
    opening(lines, line_indentation, left) + wrapped_lines(
        lines,
        buffer_indentation,
        line_indentation,
        left,
    ) + line_indentation + right + seq!['\n']
}

/// Wraps lines of text in a pair of delimiters named by `surrounding` (an
/// alias such as `b` or a delimiter itself).
pub fn wrap_block(
    buffer_indentation: &str,
    line_indentation: &str,
    surrounding: &str,
    lines: &Vec<String>,
) -> (res: String)
    ensures
        res@ == spec_wrap_block(
            buffer_indentation@,
            line_indentation@,
            surrounding@,
            string_views(lines@),
        ),
{
    let left = alias_boundary_left(surrounding);
    let right = boundary_left_to_right(left);
    let keep = str_eq(left, "\"\"\"") || str_eq(left, "```") || str_eq(left, "'''");
    let buf_ind = chars_of(buffer_indentation);
    let line_ind = chars_of(line_indentation);
    let left_cs = chars_of(left);
    let ghost ls = string_views(lines@);
    let mut out = String::new();
    if lines.len() > 0 {
        let first = chars_of(lines[0].as_str());
        assert(first@ == ls[0]);
        if first.len() > 0 && is_unicode_ws_char(first[0]) {
            push_chars(&mut out, line_ind.as_slice());
        }
        push_chars(&mut out, left_cs.as_slice());
        push_char(&mut out, '\n');
    }
    assert(out@ =~= opening(ls, line_indentation@, left@));
    let ghost head = out@;
    let mut i: usize = 0;
    assert(ls.take(0) =~= Seq::<Seq<char>>::empty());
    while i < lines.len()
        invariant
            i <= lines@.len(),
            ls == string_views(lines@),
            keep == keeps_innards(left@),
            buf_ind@ == buffer_indentation@,
            line_ind@ == line_indentation@,
            out@ == head + wrapped_lines(ls.take(i as int), buffer_indentation@, line_indentation@, left@),
        decreases lines@.len() - i,
    {
        assert(ls.take(i as int + 1).drop_last() =~= ls.take(i as int));
        let line = chars_of(lines[i].as_str());
        assert(line@ == ls.take(i as int + 1).last());
        let ghost before = out@;
        let own = line.len() > 0 && is_unicode_ws_char(line[0]);
        if !own {
            push_chars(&mut out, line_ind.as_slice());
        }
        if !keep {
            push_chars(&mut out, buf_ind.as_slice());
        }
        push_chars(&mut out, line.as_slice());
        push_char(&mut out, '\n');
        assert(out@ =~= before + wrapped_line(line@, buffer_indentation@, line_indentation@, left@));
        i = i + 1;
    }
    assert(ls.take(lines@.len() as int) =~= ls);
    push_chars(&mut out, line_ind.as_slice());
    push_chars(&mut out, chars_of(right).as_slice());
    push_char(&mut out, '\n');
    out
}

/// Quote-like delimiters (`"""`, ```` ``` ````, `'''`, and the aliases that
/// name them) leave their contents unindented: the buffer indentation makes
/// no difference to what is written.
pub proof fn lemma_quote_blocks_ignore_buffer_indentation(
    buffer_indentation: Seq<char>,
    line_indentation: Seq<char>,
    surrounding: Seq<char>,
    lines: Seq<Seq<char>>,
)
    requires
        spec_alias_boundary_left(surrounding) == "\"\"\""@ || spec_alias_boundary_left(surrounding)
            == "```"@ || spec_alias_boundary_left(surrounding) == "'''"@,
    ensures
        spec_wrap_block(buffer_indentation, line_indentation, surrounding, lines)
            == spec_wrap_block(Seq::empty(), line_indentation, surrounding, lines),
{
    lemma_quote_lines_ignore_buffer(
        lines,
        buffer_indentation,
        line_indentation,
        spec_alias_boundary_left(surrounding),
    );
}

proof fn lemma_quote_lines_ignore_buffer(
    lines: Seq<Seq<char>>,
    buffer_indentation: Seq<char>,
    line_indentation: Seq<char>,
    left: Seq<char>,
)
    requires
        left == "\"\"\""@ || left == "```"@ || left == "'''"@,
    ensures
        wrapped_lines(lines, buffer_indentation, line_indentation, left) == wrapped_lines(
            lines,
            Seq::empty(),
            line_indentation,
            left,
        ),
    decreases lines.len(),
{
    if lines.len() > 0 {
        lemma_quote_lines_ignore_buffer(lines.drop_last(), buffer_indentation, line_indentation, left);
    }
}

/// Each wrapped line inside a quote-like block is the line indentation
/// (where the line has none of its own) followed directly by the line.
pub proof fn lemma_quote_block_lines(
    buffer_indentation: Seq<char>,
    line_indentation: Seq<char>,
    surrounding: Seq<char>,
    line: Seq<char>,
)
    requires
        spec_alias_boundary_left(surrounding) == "\"\"\""@ || spec_alias_boundary_left(surrounding)
            == "```"@ || spec_alias_boundary_left(surrounding) == "'''"@,
    ensures
        spec_wrap_block(buffer_indentation, line_indentation, surrounding, seq![line])
            == (if line.len() > 0 && is_unicode_ws(line[0]) {
            line_indentation
        } else {
            Seq::empty()
        }) + spec_alias_boundary_left(surrounding) + seq!['\n'] + (if line.len() > 0 && is_unicode_ws(line[0]) {
            Seq::empty()
        } else {
            line_indentation
        }) + line + seq!['\n'] + line_indentation + spec_boundary_left_to_right(
            spec_alias_boundary_left(surrounding),
        ) + seq!['\n'],
{
    let left = spec_alias_boundary_left(surrounding);
    let ls = seq![line];
    assert(ls.drop_last() =~= Seq::<Seq<char>>::empty());
    assert(ls[0] == line);
    assert(ls.last() == line);
    assert(keeps_innards(left));
    assert(wrapped_lines(ls.drop_last(), buffer_indentation, line_indentation, left) =~= Seq::<
        char,
    >::empty());
    let w = wrapped_lines(ls, buffer_indentation, line_indentation, left);
    assert(w =~= (if has_own_indent(line) {
        Seq::empty()
    } else {
        line_indentation
    }) + line + seq!['\n']);
    assert(spec_wrap_block(buffer_indentation, line_indentation, surrounding, ls) =~= opening(
        ls,
        line_indentation,
        left,
    ) + w + line_indentation + spec_boundary_left_to_right(left) + seq!['\n']);
}

/// The aliases of the quote-like delimiters name them.
pub proof fn lemma_quote_aliases()
    ensures
        spec_alias_boundary_left("triple-doublequote"@) == "\"\"\""@,
        spec_alias_boundary_left("triple-backtick"@) == "```"@,
        spec_alias_boundary_left("triple-singlequote"@) == "'''"@,
{
    reveal_strlit("triple-doublequote");
    reveal_strlit("triple-backtick");
    reveal_strlit("triple-singlequote");
    reveal_strlit("b");
    reveal_strlit("B");
    reveal_strlit("t");
    reveal_strlit("s");
    reveal_strlit("p");
    reveal_strlit("b\u{2192}");
    reveal_strlit("B\u{2192}");
    reveal_strlit("t\u{2192}");
    reveal_strlit("s\u{2192}");
    reveal_strlit("backtick");
    reveal_strlit("doublequote");
    reveal_strlit("singlequote");
    assert("triple-doublequote"@.len() == 18);
    assert("triple-backtick"@.len() == 15);
    assert("triple-singlequote"@.len() == 18);
    assert("triple-doublequote"@[7] != "triple-singlequote"@[7]);
}

} // verus!
