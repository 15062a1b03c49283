use vstd::prelude::*;

use crate::text::{
    chars_of, find_chars, find_from, lemma_find_from_bounds, lemma_find_from_first, occurs_at,
    starts_with_at, string_of,
};
use crate::{
    alias_boundary_left, boundary_left_to_right, spec_alias_boundary_left,
    spec_boundary_left_to_right,
};

verus! {

broadcast use vstd::string::group_string_axioms;

/// The number of bytes that UTF-8 spends on a character.
pub open spec fn char_width(c: char) -> int {
    if (c as u32) < 0x80 {
        1
    } else if (c as u32) < 0x800 {
        2
    } else if (c as u32) < 0x10000 {
        3
    } else {
        4
    }
}

/// The number of bytes that UTF-8 spends on a text.
pub open spec fn bytes_len(s: Seq<char>) -> int
    decreases s.len(),
{
    if s.len() == 0 {
        0
    } else {
        bytes_len(s.drop_last()) + char_width(s.last())
    }
}

/// The character index that lies `need` bytes before index `k`, where one does.
pub open spec fn back_by_bytes(s: Seq<char>, k: int, need: int) -> Option<int>
    decreases k,
{
    if need == 0 {
        Some(k)
    } else if k <= 0 || need < 0 || k > s.len() {
        None
    } else {
        back_by_bytes(s, k - 1, need - char_width(s[k - 1]))
    }
}

/// The last index at or before `i` where `p` occurs in `s`.
pub open spec fn rfind_before(s: Seq<char>, p: Seq<char>, i: int) -> Option<int>
    decreases i + 1,
{
    if i < 0 {
        None
    } else if occurs_at(s, p, i) {
        Some(i)
    } else {
        rfind_before(s, p, i - 1)
    }
}

/// The last index where `p` occurs in `s` (`str::rfind`).
pub open spec fn rfind(s: Seq<char>, p: Seq<char>) -> Option<int> {
    rfind_before(s, p, s.len() - p.len())
}

pub open spec fn is_indent(c: char) -> bool {
    c == ' ' || c == '\t'
}

/// Indentation characters at the start of `s`.
pub open spec fn lead_indent(s: Seq<char>) -> int
    decreases s.len(),
{
    if s.len() > 0 && is_indent(s[0]) {
        1 + lead_indent(s.drop_first())
    } else {
        0
    }
}

/// Line breaks at the start of `s`.
pub open spec fn lead_newlines(s: Seq<char>) -> int
    decreases s.len(),
{
    if s.len() > 0 && s[0] == '\n' {
        1 + lead_newlines(s.drop_first())
    } else {
        0
    }
}

/// Indentation characters at the end of `s`.
pub open spec fn trail_indent(s: Seq<char>) -> int
    decreases s.len(),
{
    if s.len() > 0 && is_indent(s.last()) {
        1 + trail_indent(s.drop_last())
    } else {
        0
    }
}

/// Line breaks at the end of `s`.
pub open spec fn trail_newlines(s: Seq<char>) -> int
    decreases s.len(),
{
    if s.len() > 0 && s.last() == '\n' {
        1 + trail_newlines(s.drop_last())
    } else {
        0
    }
}

/// Where the kept text starts: after the first left delimiter, the
/// indentation that follows it and then the line breaks; at the start where
/// there is no left delimiter.
pub open spec fn keep_start(s: Seq<char>, left: Seq<char>) -> int {
    match find_from(s, left, 0) {
        Some(k) => {
            let a = k + left.len();
            let w = lead_indent(s.skip(a));
            a + w + lead_newlines(s.skip(a + w))
        },
        None => 0,
    }
}

/// Where the kept text ends, read the way the tool reads it: from the last
/// right delimiter, step back as many bytes as the delimiter has, then over
/// indentation and line breaks, and keep one byte more. `None` where a step
/// lands inside a character or before the text (where the tool fails).
pub open spec fn keep_end(s: Seq<char>, right: Seq<char>) -> Option<int> {
    match rfind(s, right) {
        None => Some(s.len() as int),
        Some(k) => match back_by_bytes(s, k, bytes_len(right)) {
            None => None,
            Some(q) => {
                let w = trail_indent(s.take(q));
                let e = q - w - trail_newlines(s.take(q - w));
                if 0 <= e < s.len() && char_width(s[e]) == 1 {
                    Some(e + 1)
                } else {
                    None
                }
            },
        },
    }
}

/// The texts that the tool strips without failing, for the given pair.
pub open spec fn strip_ok(s: Seq<char>, left: Seq<char>, right: Seq<char>) -> bool {
    keep_end(s, right) matches Some(e) && keep_start(s, left) <= e
}

/// What is left of a text with its wrapping delimiters and the whitespace
/// inside them stripped.
pub open spec fn spec_strip(s: Seq<char>, surrounding: Seq<char>) -> Seq<char> {
    let left = spec_alias_boundary_left(surrounding);
    let right = spec_boundary_left_to_right(left);
    s.subrange(keep_start(s, left), keep_end(s, right).unwrap())
}

pub open spec fn strip_accepts(s: Seq<char>, surrounding: Seq<char>) -> bool {
    let left = spec_alias_boundary_left(surrounding);
    strip_ok(s, left, spec_boundary_left_to_right(left))
}

fn width(c: char) -> (w: usize)
    ensures
        w == char_width(c),
{
    let u = c as u32;
    if u < 0x80 {
        1
    } else if u < 0x800 {
        2
    } else if u < 0x10000 {
        3
    } else {
        4
    }
}

fn bytes_count(s: &[char]) -> (n: u128)
    ensures
        n == bytes_len(s@),
{
    let mut n: u128 = 0;
    let mut i: usize = 0;
    while i < s.len()
        invariant
            i <= s@.len(),
            n == bytes_len(s@.take(i as int)),
            n <= 4 * i,
        decreases s@.len() - i,
    {
        assert(s@.take(i as int + 1).drop_last() =~= s@.take(i as int));
        n = n + width(s[i]) as u128;
        i = i + 1;
    }
    assert(s@.take(s@.len() as int) =~= s@);
    n
}

fn rfind_chars(s: &[char], p: &[char]) -> (res: Option<usize>)
    ensures
        match res {
            Some(k) => rfind(s@, p@) == Some(k as int),
            None => rfind(s@, p@) is None,
        },
{
    if p.len() > s.len() {
        return None;
    }
    let mut i: usize = s.len() - p.len();
    loop
        invariant
            p@.len() <= s@.len(),
            i <= s@.len() - p@.len(),
            rfind(s@, p@) == rfind_before(s@, p@, i as int),
        decreases i,
    {
        assert(s@.skip(i as int).take(p@.len() as int) =~= s@.subrange(i as int, i + p@.len()));
        if starts_with_at(s, i, p) {
            return Some(i);
        }
        if i == 0 {
            assert(rfind_before(s@, p@, -1) is None);
            return None;
        }
        i = i - 1;
    }
}

pub proof fn lemma_rfind_before_bounds(s: Seq<char>, p: Seq<char>, i: int)
    ensures
        rfind_before(s, p, i) matches Some(k) ==> k <= i && occurs_at(s, p, k),
    decreases i + 1,
{
    if i >= 0 && !occurs_at(s, p, i) {
        lemma_rfind_before_bounds(s, p, i - 1);
    }
}

fn in_class(c: char, newlines: bool) -> (res: bool)
    ensures
        res == (if newlines {
            c == '\n'
        } else {
            is_indent(c)
        }),
{
    if newlines {
        c == '\n'
    } else {
        c == ' ' || c == '\t'
    }
}

fn lead_count(s: &[char], from: usize, newlines: bool) -> (n: usize)
    requires
        from <= s@.len(),
    ensures
        n == (if newlines {
            lead_newlines(s@.skip(from as int))
        } else {
            lead_indent(s@.skip(from as int))
        }),
        from + n <= s@.len(),
{
    let mut i: usize = from;
    while i < s.len() && in_class(s[i], newlines)
        invariant
            from <= i <= s@.len(),
            (if newlines {
                lead_newlines(s@.skip(from as int))
            } else {
                lead_indent(s@.skip(from as int))
            }) == (i - from) + (if newlines {
                lead_newlines(s@.skip(i as int))
            } else {
                lead_indent(s@.skip(i as int))
            }),
        decreases s@.len() - i,
    {
        assert(s@.skip(i as int).drop_first() =~= s@.skip(i as int + 1));
        i = i + 1;
    }
    i - from
}

fn trail_count(s: &[char], to: usize, newlines: bool) -> (n: usize)
    requires
        to <= s@.len(),
    ensures
        n == (if newlines {
            trail_newlines(s@.take(to as int))
        } else {
            trail_indent(s@.take(to as int))
        }),
        n <= to,
{
    let mut j: usize = to;
    while j > 0 && in_class(s[j - 1], newlines)
        invariant
            j <= to <= s@.len(),
            (if newlines {
                trail_newlines(s@.take(to as int))
            } else {
                trail_indent(s@.take(to as int))
            }) == (to - j) + (if newlines {
                trail_newlines(s@.take(j as int))
            } else {
                trail_indent(s@.take(j as int))
            }),
        decreases j,
    {
        assert(s@.take(j as int).drop_last() =~= s@.take(j - 1));
        j = j - 1;
    }
    to - j
}

fn back_bytes(s: &[char], k: usize, need: u128) -> (res: Option<usize>)
    requires
        k <= s@.len(),
    ensures
        match res {
            Some(q) => back_by_bytes(s@, k as int, need as int) == Some(q as int) && q <= k,
            None => back_by_bytes(s@, k as int, need as int) is None,
        },
{
    let mut q: usize = k;
    let mut left: u128 = need;
    while left > 0
        invariant
            q <= k <= s@.len(),
            back_by_bytes(s@, k as int, need as int) == back_by_bytes(s@, q as int, left as int),
        decreases q,
    {
        if q == 0 {
            return None;
        }
        let w = width(s[q - 1]) as u128;
        if w > left {
            assert(back_by_bytes(s@, q - 1, left - w) is None);
            return None;
        }
        left = left - w;
        q = q - 1;
    }
    Some(q)
}

/// Strips a wrapping pair of delimiters (named by `surrounding`, an alias
/// or a delimiter) from a text, with the whitespace just inside them;
/// `None` for the texts on which the tool fails.
pub fn try_strip_wrapper(the: &str, surrounding: &str) -> (res: Option<String>)
    ensures
        res is Some <==> strip_accepts(the@, surrounding@),
        res matches Some(r) ==> r@ == spec_strip(the@, surrounding@),
{
    let left = alias_boundary_left(surrounding);
    let right = boundary_left_to_right(left);
    let s = chars_of(the);
    let l = chars_of(left);
    let r = chars_of(right);
    let sl = s.len();
    let start: usize = match find_chars(s.as_slice(), l.as_slice(), 0) {
        Some(k) => {
            proof {
                lemma_find_from_bounds(s@, l@, 0);
            }
            assert(k + l@.len() <= sl);
            let a = k + l.len();
            let w = lead_count(s.as_slice(), a, false);
            assert(a + w <= sl);
            let n = lead_count(s.as_slice(), a + w, true);
            a + w + n
        },
        None => 0,
    };
    assert(start == keep_start(s@, l@));
    let end: usize = match rfind_chars(s.as_slice(), r.as_slice()) {
        None => s.len(),
        Some(k) => {
            proof {
                lemma_rfind_before_bounds(s@, r@, s@.len() - r@.len());
            }
            let need = bytes_count(r.as_slice());
            let q = match back_bytes(s.as_slice(), k, need) {
                Some(q) => q,
                None => {
                    return None;
                },
            };
            let w = trail_count(s.as_slice(), q, false);
            let n = trail_count(s.as_slice(), q - w, true);
            let e = q - w - n;
            if e < s.len() && width(s[e]) == 1 {
                e + 1
            } else {
                return None;
            }
        },
    };
    assert(Some(end as int) == keep_end(s@, r@));
    if start > end {
        return None;
    }
    let kept = vstd::slice::slice_subrange(s.as_slice(), start, end);
    Some(string_of(kept))
}

/// Strips a wrapping pair of delimiters, where the text allows it.
pub fn strip_wrapper(the: &str, surrounding: &str) -> (res: String)
    requires
        strip_accepts(the@, surrounding@),
    ensures
        res@ == spec_strip(the@, surrounding@),
{
    try_strip_wrapper(the, surrounding).unwrap()
}

proof fn lemma_lead_bounds(s: Seq<char>)
    ensures
        0 <= lead_indent(s) <= s.len(),
        0 <= lead_newlines(s) <= s.len(),
    decreases s.len(),
{
    if s.len() > 0 {
        lemma_lead_bounds(s.drop_first());
    }
}

/// The kept text starts right after the first left delimiter, past the
/// indentation and line breaks that follow it: where `x` holds no left
/// delimiter, stripping `x + left + y` gives a prefix of what `y` holds after
/// its leading indentation and line breaks.
pub proof fn lemma_strip_starts_after_first_left(
    x: Seq<char>,
    y: Seq<char>,
    surrounding: Seq<char>,
)
    requires
        forall|j: int|
            0 <= j < x.len() ==> !occurs_at(
                x + spec_alias_boundary_left(surrounding) + y,
                spec_alias_boundary_left(surrounding),
                j,
            ),
        strip_accepts(x + spec_alias_boundary_left(surrounding) + y, surrounding),
    ensures
        ({
            let r = spec_strip(x + spec_alias_boundary_left(surrounding) + y, surrounding);
            let w = lead_indent(y);
            let n = lead_newlines(y.skip(w));
            r == y.skip(w + n).take(r.len() as int)
        }),
{
    let left = spec_alias_boundary_left(surrounding);
    let right = spec_boundary_left_to_right(left);
    let s = x + left + y;
    let k = x.len() as int;
    assert(s.subrange(k, k + left.len()) =~= left);
    lemma_find_from_first(s, left, 0, k);
    let a = k + left.len();
    assert(s.skip(a) =~= y);
    let w = lead_indent(y);
    lemma_lead_bounds(y);
    lemma_lead_bounds(y.skip(w));
    let n = lead_newlines(y.skip(w));
    assert(s.skip(a + w) =~= y.skip(w));
    let start = keep_start(s, left);
    assert(start == a + w + n);
    let e = keep_end(s, right).unwrap();
    assert(e <= s.len());
    let r = spec_strip(s, surrounding);
    assert(r =~= y.skip(w + n).take(r.len() as int)) by {
        assert forall|i: int| 0 <= i < r.len() implies r[i] == y.skip(w + n).take(
            r.len() as int,
        )[i] by {
            assert(r[i] == s[start + i]);
            assert(s[a + w + n + i] == y[w + n + i]);
        }
    }
}

} // verus!
