use vstd::prelude::*;

use crate::text::{
    chars_of, join_strings, join_with, parse_usize, spec_lines, spec_parse_usize, split_lines,
    string_views,
};

verus! {

broadcast use vstd::string::group_string_axioms;

/// How many lines to take: the argument where it reads as a count, else one.
pub open spec fn spec_count(arg: Option<Seq<char>>) -> usize {
    match arg {
        Some(a) => match spec_parse_usize(a) {
            Some(n) => n,
            None => 1,
        },
        None => 1,
    }
}

/// Reads the count argument, one where it is missing or unreadable.
pub fn parse_count(arg: Option<String>) -> (res: usize)
    ensures
        res == spec_count(
            match arg {
                Some(a) => Some(a@),
                None => None,
            },
        ),
{
    match arg {
        Some(a) => {
            let cs = chars_of(a.as_str());
            match parse_usize(cs.as_slice()) {
                Some(n) => n,
                None => 1,
            }
        },
        None => 1,
    }
}

/// The lines taken off the front of a file, and what is written back (`None`
/// where no line is left and the file stays empty).
pub struct Shifted {
    pub taken: Vec<String>,
    pub rest: Option<String>,
}

/// How many lines are taken: `count`, or all there are.
pub open spec fn taken_count(lines: Seq<Seq<char>>, count: usize) -> int {
    if count < lines.len() {
        count as int
    } else {
        lines.len() as int
    }
}

/// Takes the first `count` lines of a file's contents; the rest, joined with
/// line breaks, is what remains.
pub fn shift_lines(contents: &str, count: usize) -> (res: Shifted)
    ensures
        string_views(res.taken@) == spec_lines(contents@).take(
            taken_count(spec_lines(contents@), count),
        ),
        res.rest matches Some(r) ==> r@ == join_with(
            spec_lines(contents@).skip(taken_count(spec_lines(contents@), count)),
            "\n"@,
        ),
        res.rest is None <==> taken_count(spec_lines(contents@), count) == spec_lines(
            contents@,
        ).len(),
{
    let lines = split_lines(contents);
    let ghost ls = spec_lines(contents@);
    let k: usize = if count < lines.len() { count } else { lines.len() };
    let mut taken: Vec<String> = Vec::new();
    let mut i: usize = 0;
    while i < k
        invariant
            k <= lines@.len(),
            i <= k,
            string_views(lines@) == ls,
            string_views(taken@) == ls.take(i as int),
        decreases k - i,
    {
        let ghost before = taken@;
        taken.push(lines[i].clone());
        assert(string_views(taken@) =~= string_views(before).push(lines@[i as int]@));
        assert(string_views(taken@) =~= ls.take(i as int + 1));
        i = i + 1;
    }
    if k == lines.len() {
        return Shifted { taken, rest: None };
    }
    let rest_lines = vstd::slice::slice_subrange(lines.as_slice(), k, lines.len());
    assert(string_views(rest_lines@) =~= ls.skip(k as int));
    let rest = join_strings(rest_lines, "\n");
    Shifted { taken, rest: Some(rest) }
}

} // verus!
