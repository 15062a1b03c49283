use vstd::prelude::*;
use vstd::relations::{sorted_by, total_ordering};

use crate::text::{
    chars_of, find_chars, find_from, join_strings, join_with, lemma_find_from_bounds,
    lemma_find_from_finds, occurs_at, string_views,
};

verus! {

broadcast use vstd::string::group_string_axioms;

// ---------------------------------------------------------------------------
// The order of strings
// ---------------------------------------------------------------------------

/// `a` comes no later than `b` in the order of `String`: character by
/// character (UTF-8 bytes compare as code points do), a prefix first.
pub open spec fn lex_le(a: Seq<char>, b: Seq<char>) -> bool
    decreases a.len(),
{
    if a.len() == 0 {
        true
    } else if b.len() == 0 {
        false
    } else if a[0] != b[0] {
        a[0] < b[0]
    } else {
        lex_le(a.drop_first(), b.drop_first())
    }
}

pub open spec fn lex_order() -> spec_fn(Seq<char>, Seq<char>) -> bool {
    |a: Seq<char>, b: Seq<char>| lex_le(a, b)
}

proof fn lemma_lex_reflexive(a: Seq<char>)
    ensures
        lex_le(a, a),
    decreases a.len(),
{
    if a.len() > 0 {
        lemma_lex_reflexive(a.drop_first());
    }
}

proof fn lemma_lex_antisymmetric(a: Seq<char>, b: Seq<char>)
    requires
        lex_le(a, b),
        lex_le(b, a),
    ensures
        a == b,
    decreases a.len(),
{
    if a.len() > 0 && b.len() > 0 {
        lemma_lex_antisymmetric(a.drop_first(), b.drop_first());
        assert(a =~= seq![a[0]] + a.drop_first());
        assert(b =~= seq![b[0]] + b.drop_first());
    } else {
        assert(a =~= b);
    }
}

proof fn lemma_lex_transitive(a: Seq<char>, b: Seq<char>, c: Seq<char>)
    requires
        lex_le(a, b),
        lex_le(b, c),
    ensures
        lex_le(a, c),
    decreases a.len(),
{
    if a.len() > 0 && b.len() > 0 && c.len() > 0 && a[0] == b[0] && b[0] == c[0] {
        lemma_lex_transitive(a.drop_first(), b.drop_first(), c.drop_first());
    }
}

proof fn lemma_lex_connected(a: Seq<char>, b: Seq<char>)
    ensures
        lex_le(a, b) || lex_le(b, a),
    decreases a.len(),
{
    if a.len() > 0 && b.len() > 0 && a[0] == b[0] {
        lemma_lex_connected(a.drop_first(), b.drop_first());
    }
}

/// The order of strings is a total order.
pub proof fn lemma_lex_total()
    ensures
        total_ordering(lex_order()),
{
    let r = lex_order();
    assert forall|x: Seq<char>| #[trigger] r(x, x) by {
        lemma_lex_reflexive(x);
    }
    assert forall|x: Seq<char>, y: Seq<char>| #[trigger] r(x, y) && #[trigger] r(y, x) implies x
        == y by {
        lemma_lex_antisymmetric(x, y);
    }
    assert forall|x: Seq<char>, y: Seq<char>, z: Seq<char>| #[trigger] r(x, y) && #[trigger] r(
        y,
        z,
    ) implies r(x, z) by {
        lemma_lex_transitive(x, y, z);
    }
    assert forall|x: Seq<char>, y: Seq<char>| #[trigger] r(x, y) || #[trigger] r(y, x) by {
        lemma_lex_connected(x, y);
    }
}

/// `slice::sort` on strings: the same strings, in ascending order.
#[verifier::external_body]
fn sort_strings(v: &mut Vec<String>)
    ensures
        string_views(final(v)@).to_multiset() == string_views(old(v)@).to_multiset(),
        sorted_by(string_views(final(v)@), lex_order()),
{
    v.sort();
}

/// The lines in ascending order.
pub open spec fn sorted_lines(s: Seq<Seq<char>>) -> Seq<Seq<char>> {
    s.sort_by(lex_order())
}

fn sort_lines(v: &mut Vec<String>)
    ensures
        string_views(final(v)@) == sorted_lines(string_views(old(v)@)),
{
    sort_strings(v);
    proof {
        lemma_lex_total();
        string_views(old(v)@).lemma_sort_by_ensures(lex_order());
        vstd::seq_lib::lemma_sorted_unique(
            string_views(v@),
            sorted_lines(string_views(old(v)@)),
            lex_order(),
        );
    }
}

// ---------------------------------------------------------------------------
// Sorting between markers
// ---------------------------------------------------------------------------

/// The state of the pass: whether lines are being collected, the lines
/// collected, and what has been written.
pub struct SortPass {
    pub sorting: bool,
    pub collected: Seq<Seq<char>>,
    pub out: Seq<Seq<char>>,
}

pub open spec fn has_text(line: Seq<char>, marker: Seq<char>) -> bool {
    find_from(line, marker, 0) is Some
}

/// Goes over the lines: a line with `[[sort on]]` is written and starts
/// collecting; a line with `[[sort off]]` writes the collected lines sorted
/// (as one block, possibly empty), then itself; collected lines are held
/// back; all other lines are written as they are.
pub open spec fn sort_pass(lines: Seq<Seq<char>>) -> SortPass
    decreases lines.len(),
{
    if lines.len() == 0 {
        SortPass { sorting: false, collected: Seq::empty(), out: Seq::empty() }
    } else {
        let st = sort_pass(lines.drop_last());
        let l = lines.last();
        if has_text(l, "[[sort on]]"@) {
            SortPass { sorting: true, out: st.out.push(l), ..st }
        } else if has_text(l, "[[sort off]]"@) {
            SortPass {
                sorting: false,
                collected: Seq::empty(),
                out: st.out.push(join_with(sorted_lines(st.collected), "\n"@)).push(l),
            }
        } else if st.sorting {
            SortPass { collected: st.collected.push(l), ..st }
        } else {
            SortPass { out: st.out.push(l), ..st }
        }
    }
}

/// What is written for a run of lines: each written item on a line of its
/// own, and at the end whatever is still collected, sorted.
pub open spec fn spec_partial_sort(lines: Seq<Seq<char>>) -> Seq<Seq<char>> {
    let st = sort_pass(lines);
    if st.collected.len() > 0 {
        st.out.push(join_with(sorted_lines(st.collected), "\n"@))
    } else {
        st.out
    }
}

/// Sorts the blocks of lines between `[[sort on]]` and `[[sort off]]`,
/// giving what is written, one item per line.
pub fn partial_sort(lines: Vec<String>) -> (res: Vec<String>)
    ensures
        string_views(res@) == spec_partial_sort(string_views(lines@)),
{
    let ghost ls = string_views(lines@);
    let on = chars_of("[[sort on]]");
    let off = chars_of("[[sort off]]");
    let mut sorting = false;
    let mut collected: Vec<String> = Vec::new();
    let mut out: Vec<String> = Vec::new();
    let mut i: usize = 0;
    assert(ls.take(0) =~= Seq::<Seq<char>>::empty());
    assert(string_views(collected@) =~= Seq::<Seq<char>>::empty());
    assert(string_views(out@) =~= Seq::<Seq<char>>::empty());
    while i < lines.len()
        invariant
            i <= lines@.len(),
            ls == string_views(lines@),
            on@ == "[[sort on]]"@,
            off@ == "[[sort off]]"@,
            sort_pass(ls.take(i as int)) == (SortPass {
                sorting,
                collected: string_views(collected@),
                out: string_views(out@),
            }),
        decreases lines@.len() - i,
    {
        assert(ls.take(i as int + 1).drop_last() =~= ls.take(i as int));
        let line = &lines[i];
        assert(ls.take(i as int + 1).last() == line@);
        let cs = chars_of(line.as_str());
        let ghost out_before = string_views(out@);
        let ghost col_before = string_views(collected@);
        if find_chars(cs.as_slice(), on.as_slice(), 0).is_some() {
            out.push(line.clone());
            sorting = true;
            assert(string_views(out@) =~= out_before.push(line@));
        } else if find_chars(cs.as_slice(), off.as_slice(), 0).is_some() {
            sorting = false;
            sort_lines(&mut collected);
            let block = join_strings(collected.as_slice(), "\n");
            out.push(block);
            out.push(line.clone());
            collected = Vec::new();
            assert(string_views(out@) =~= out_before.push(
                join_with(sorted_lines(col_before), "\n"@),
            ).push(line@));
            assert(string_views(collected@) =~= Seq::<Seq<char>>::empty());
        } else if sorting {
            collected.push(line.clone());
            assert(string_views(collected@) =~= col_before.push(line@));
        } else {
            out.push(line.clone());
            assert(string_views(out@) =~= out_before.push(line@));
        }
        i = i + 1;
    }
    assert(ls.take(lines@.len() as int) =~= ls);
    if collected.len() > 0 {
        let ghost out_before = string_views(out@);
        let ghost col_before = string_views(collected@);
        sort_lines(&mut collected);
        let block = join_strings(collected.as_slice(), "\n");
        out.push(block);
        assert(string_views(out@) =~= out_before.push(join_with(sorted_lines(col_before), "\n"@)));
    }
    out
}

/// Text without markers is written as it is, line for line.
pub proof fn lemma_no_markers_unchanged(lines: Seq<Seq<char>>)
    requires
        forall|i: int|
            0 <= i < lines.len() ==> !has_text(#[trigger] lines[i], "[[sort on]]"@) && !has_text(
                lines[i],
                "[[sort off]]"@,
            ),
    ensures
        spec_partial_sort(lines) == lines,
{
    lemma_no_markers_pass(lines);
}

proof fn lemma_no_markers_pass(lines: Seq<Seq<char>>)
    requires
        forall|i: int|
            0 <= i < lines.len() ==> !has_text(#[trigger] lines[i], "[[sort on]]"@) && !has_text(
                lines[i],
                "[[sort off]]"@,
            ),
    ensures
        sort_pass(lines) == (SortPass {
            sorting: false,
            collected: Seq::<Seq<char>>::empty(),
            out: lines,
        }),
    decreases lines.len(),
{
    if lines.len() > 0 {
        assert(forall|i: int| 0 <= i < lines.drop_last().len() ==> lines.drop_last()[i] == lines[i]);
        lemma_no_markers_pass(lines.drop_last());
        assert(lines[lines.len() - 1] == lines.last());
        assert(lines.drop_last().push(lines.last()) =~= lines);
    } else {
        assert(lines =~= Seq::<Seq<char>>::empty());
    }
}

/// A line is a marker line exactly when the marker occurs anywhere in it.
pub proof fn lemma_marker_anywhere(line: Seq<char>, marker: Seq<char>)
    ensures
        has_text(line, marker) <==> exists|i: int| #[trigger] occurs_at(line, marker, i),
{
    lemma_find_from_bounds(line, marker, 0);
    if exists|i: int| #[trigger] occurs_at(line, marker, i) {
        let i = choose|i: int| #[trigger] occurs_at(line, marker, i);
        lemma_find_from_finds(line, marker, 0, i);
    }
}

/// The marker with any text before and after it makes a marker line.
pub proof fn lemma_marker_inside(x: Seq<char>, marker: Seq<char>, y: Seq<char>)
    ensures
        has_text(x + marker + y, marker),
{
    let line = x + marker + y;
    assert(line.subrange(x.len() as int, (x.len() + marker.len()) as int) =~= marker);
    lemma_find_from_finds(line, marker, 0, x.len() as int);
}

proof fn lemma_collect_pass(a: Seq<Seq<char>>, body: Seq<Seq<char>>)
    requires
        sort_pass(a).sorting,
        forall|i: int|
            0 <= i < body.len() ==> !has_text(#[trigger] body[i], "[[sort on]]"@) && !has_text(
                body[i],
                "[[sort off]]"@,
            ),
    ensures
        sort_pass(a + body) == (SortPass {
            sorting: true,
            collected: sort_pass(a).collected + body,
            out: sort_pass(a).out,
        }),
    decreases body.len(),
{
    if body.len() == 0 {
        assert(a + body =~= a);
        assert(sort_pass(a).collected + body =~= sort_pass(a).collected);
    } else {
        lemma_collect_pass(a, body.drop_last());
        assert((a + body).drop_last() =~= a + body.drop_last());
        assert((a + body).last() == body[body.len() - 1]);
        assert(sort_pass(a).collected + body.drop_last() + seq![body.last()] =~= sort_pass(
            a,
        ).collected + body);
        assert((sort_pass(a).collected + body.drop_last()).push(body.last()) =~= sort_pass(
            a,
        ).collected + body);
    }
}

/// A block of lines between a line holding `[[sort on]]` and one holding
/// `[[sort off]]` (the marker anywhere in either line) is written sorted as
/// one item between the two marker lines; the lines before are written as
/// they are.
pub proof fn lemma_marked_block_sorted(
    before: Seq<Seq<char>>,
    x: Seq<char>,
    y: Seq<char>,
    body: Seq<Seq<char>>,
    x2: Seq<char>,
    y2: Seq<char>,
)
    requires
        forall|i: int|
            0 <= i < before.len() ==> !has_text(#[trigger] before[i], "[[sort on]]"@) && !has_text(
                before[i],
                "[[sort off]]"@,
            ),
        forall|i: int|
            0 <= i < body.len() ==> !has_text(#[trigger] body[i], "[[sort on]]"@) && !has_text(
                body[i],
                "[[sort off]]"@,
            ),
        !has_text(x2 + "[[sort off]]"@ + y2, "[[sort on]]"@),
    ensures
        spec_partial_sort(
            before + seq![x + "[[sort on]]"@ + y] + body + seq![x2 + "[[sort off]]"@ + y2],
        ) == before + seq![
            x + "[[sort on]]"@ + y,
            join_with(sorted_lines(body), "\n"@),
            x2 + "[[sort off]]"@ + y2,
        ],
{
    let on_line = x + "[[sort on]]"@ + y;
    let off_line = x2 + "[[sort off]]"@ + y2;
    lemma_marker_inside(x, "[[sort on]]"@, y);
    lemma_marker_inside(x2, "[[sort off]]"@, y2);
    lemma_no_markers_pass(before);
    let a = before + seq![on_line];
    assert(a.drop_last() =~= before);
    assert(a.last() == on_line);
    assert(sort_pass(a) == (SortPass {
        sorting: true,
        collected: Seq::<Seq<char>>::empty(),
        out: before.push(on_line),
    }));
    lemma_collect_pass(a, body);
    assert(Seq::<Seq<char>>::empty() + body =~= body);
    let all = a + body + seq![off_line];
    assert(all.drop_last() =~= a + body);
    assert(all.last() == off_line);
    assert(before + seq![on_line] + body + seq![off_line] =~= all);
    assert(before.push(on_line).push(join_with(sorted_lines(body), "\n"@)).push(off_line)
        =~= before + seq![on_line, join_with(sorted_lines(body), "\n"@), off_line]);
}

} // verus!
