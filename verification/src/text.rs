use vstd::prelude::*;

verus! {

broadcast use vstd::string::group_string_axioms;

// ---------------------------------------------------------------------------
// Moving between strings and character vectors
// ---------------------------------------------------------------------------

/// The characters of a string slice, in order.
pub fn chars_of(s: &str) -> (v: Vec<char>)
    ensures
        v@ == s@,
{
    let mut v: Vec<char> = Vec::new();
    for c in it: s.chars()
        invariant
            v@ == it.history(),
    {
        v.push(c);
    }
    v
}

/// `String::push`: appends one character at the end.
#[verifier::external_body]
pub(crate) fn push_char(s: &mut String, c: char)
    ensures
        final(s)@ == old(s)@.push(c),
{
    s.push(c);
}

/// Appends a run of characters to a string.
pub fn push_chars(s: &mut String, cs: &[char])
    ensures
        final(s)@ == old(s)@ + cs@,
{
    let mut i: usize = 0;
    while i < cs.len()
        invariant
            i <= cs@.len(),
            s@ == old(s)@ + cs@.take(i as int),
        decreases cs@.len() - i,
    {
        push_char(s, cs[i]);
        i = i + 1;
        assert(cs@.take(i as int) =~= cs@.take((i - 1) as int).push(cs@[i - 1]));
    }
    assert(cs@.take(cs@.len() as int) =~= cs@);
}

/// A new string holding exactly the given characters.
pub fn string_of(cs: &[char]) -> (s: String)
    ensures
        s@ == cs@,
{
    let mut s = String::new();
    push_chars(&mut s, cs);
    s
}

/// Whether two character runs are equal.
pub fn chars_eq(a: &[char], b: &[char]) -> (res: bool)
    ensures
        res == (a@ == b@),
{
    if a.len() != b.len() {
        return false;
    }
    let mut i: usize = 0;
    while i < a.len()
        invariant
            a@.len() == b@.len(),
            i <= a@.len(),
            forall|j: int| 0 <= j < i ==> a@[j] == b@[j],
        decreases a@.len() - i,
    {
        if a[i] != b[i] {
            return false;
        }
        i = i + 1;
    }
    assert(a@ =~= b@);
    true
}

/// Whether two string slices hold the same characters.
pub fn str_eq(a: &str, b: &str) -> (res: bool)
    ensures
        res == (a@ == b@),
{
    let va = chars_of(a);
    let vb = chars_of(b);
    chars_eq(va.as_slice(), vb.as_slice())
}

// ---------------------------------------------------------------------------
// Decimal numbers
// ---------------------------------------------------------------------------

pub open spec fn is_digit(c: char) -> bool {
    '0' <= c && c <= '9'
}

pub open spec fn all_digits(s: Seq<char>) -> bool {
    forall|i: int| 0 <= i < s.len() ==> is_digit(#[trigger] s[i])
}

pub open spec fn digit_value(c: char) -> nat {
    (c as int - '0' as int) as nat
}

/// The number written by a run of decimal digits (most significant first).
pub open spec fn digits_value(s: Seq<char>) -> nat
    decreases s.len(),
{
    if s.len() == 0 {
        0
    } else {
        digits_value(s.drop_last()) * 10 + digit_value(s.last())
    }
}

/// What `usize::from_str` gives: an optional `+`, then at least one decimal
/// digit, and a value that fits.
pub open spec fn spec_parse_usize(s: Seq<char>) -> Option<usize> {
    let d = if s.len() > 0 && s[0] == '+' { s.drop_first() } else { s };
    if d.len() == 0 || !all_digits(d) || digits_value(d) > usize::MAX {
        None
    } else {
        Some(digits_value(d) as usize)
    }
}

/// What `u8::from_str` gives: an optional `+`, then at least one decimal
/// digit, and a value that fits.
pub open spec fn spec_parse_u8(s: Seq<char>) -> Option<u8> {
    let d = if s.len() > 0 && s[0] == '+' { s.drop_first() } else { s };
    if d.len() == 0 || !all_digits(d) || digits_value(d) > u8::MAX {
        None
    } else {
        Some(digits_value(d) as u8)
    }
}

/// What `u32::from_str` gives: an optional `+`, then at least one decimal
/// digit, and a value that fits.
pub open spec fn spec_parse_u32(s: Seq<char>) -> Option<u32> {
    let d = if s.len() > 0 && s[0] == '+' { s.drop_first() } else { s };
    if d.len() == 0 || !all_digits(d) || digits_value(d) > u32::MAX {
        None
    } else {
        Some(digits_value(d) as u32)
    }
}

/// What `i64::from_str` gives: an optional sign, then at least one decimal
/// digit, and a value in range.
pub open spec fn spec_parse_i64(s: Seq<char>) -> Option<i64> {
    let neg = s.len() > 0 && s[0] == '-';
    let d = if s.len() > 0 && (s[0] == '+' || s[0] == '-') { s.drop_first() } else { s };
    let v: int = if neg { -digits_value(d) } else { digits_value(d) as int };
    if d.len() == 0 || !all_digits(d) || v > i64::MAX || v < i64::MIN {
        None
    } else {
        Some(v as i64)
    }
}

/// A prefix of a digit run never writes a larger number than the run.
pub proof fn lemma_digits_value_prefix(s: Seq<char>, k: int)
    requires
        0 <= k <= s.len(),
        all_digits(s),
    ensures
        digits_value(s.take(k)) <= digits_value(s),
    decreases s.len() - k,
{
    if k < s.len() {
        lemma_digits_value_prefix(s, k + 1);
        assert(s.take(k + 1).drop_last() =~= s.take(k));
    } else {
        assert(s.take(k) =~= s);
    }
}

proof fn lemma_digits_value_step(s: Seq<char>, i: int)
    requires
        0 <= i < s.len(),
    ensures
        digits_value(s.take(i + 1)) == digits_value(s.take(i)) * 10 + digit_value(s[i]),
{
    assert(s.take(i + 1).drop_last() =~= s.take(i));
}

/// Reads a run of decimal digits, or `None` where the run is empty, holds
/// another character, or writes a number above `u128::MAX`.
pub fn digits_to_u128(d: &[char]) -> (res: Option<u128>)
    ensures
        res == (if d@.len() == 0 || !all_digits(d@) || digits_value(d@) > u128::MAX {
            None::<u128>
        } else {
            Some(digits_value(d@) as u128)
        }),
{
    if d.len() == 0 {
        return None;
    }
    let mut acc: u128 = 0;
    let mut i: usize = 0;
    while i < d.len()
        invariant
            i <= d@.len(),
            all_digits(d@.take(i as int)),
            acc == digits_value(d@.take(i as int)),
        decreases d@.len() - i,
    {
        let c = d[i];
        if !('0' <= c && c <= '9') {
            return None;
        }
        proof {
            lemma_digits_value_step(d@, i as int);
        }
        let dv: u128 = (c as u128) - ('0' as u128);
        let next = match acc.checked_mul(10) {
            None => None,
            Some(m) => m.checked_add(dv),
        };
        match next {
            None => {
                proof {
                    if all_digits(d@) {
                        lemma_digits_value_prefix(d@, i as int + 1);
                    }
                }
                return None;
            },
            Some(a) => {
                acc = a;
            },
        }
        i = i + 1;
        assert(all_digits(d@.take(i as int)));
    }
    assert(d@.take(d@.len() as int) =~= d@);
    Some(acc)
}

/// `usize::from_str` on a run of characters.
pub fn parse_usize(s: &[char]) -> (res: Option<usize>)
    ensures
        res == spec_parse_usize(s@),
{
    let start: usize = if s.len() > 0 && s[0] == '+' { 1 } else { 0 };
    let d = slice_from(s, start);
    proof {
        if start == 1 {
            assert(d@ =~= s@.drop_first());
        } else {
            assert(d@ =~= s@);
        }
    }
    match digits_to_u128(d) {
        None => None,
        Some(v) => {
            if v > usize::MAX as u128 {
                None
            } else {
                Some(v as usize)
            }
        },
    }
}

/// `u8::from_str` on a run of characters.
pub fn parse_u8(s: &[char]) -> (res: Option<u8>)
    ensures
        res == spec_parse_u8(s@),
{
    match parse_u32(s) {
        None => None,
        Some(v) => {
            if v > 255 {
                None
            } else {
                Some(v as u8)
            }
        },
    }
}

/// `u32::from_str` on a run of characters.
pub fn parse_u32(s: &[char]) -> (res: Option<u32>)
    ensures
        res == spec_parse_u32(s@),
{
    let start: usize = if s.len() > 0 && s[0] == '+' { 1 } else { 0 };
    let d = slice_from(s, start);
    proof {
        if start == 1 {
            assert(d@ =~= s@.drop_first());
        } else {
            assert(d@ =~= s@);
        }
    }
    match digits_to_u128(d) {
        None => None,
        Some(v) => {
            if v > u32::MAX as u128 {
                None
            } else {
                Some(v as u32)
            }
        },
    }
}

/// `i64::from_str` on a run of characters.
pub fn parse_i64(s: &[char]) -> (res: Option<i64>)
    ensures
        res == spec_parse_i64(s@),
{
    let signed = s.len() > 0 && (s[0] == '+' || s[0] == '-');
    let neg = s.len() > 0 && s[0] == '-';
    let start: usize = if signed { 1 } else { 0 };
    let d = slice_from(s, start);
    proof {
        if start == 1 {
            assert(d@ =~= s@.drop_first());
        } else {
            assert(d@ =~= s@);
        }
    }
    match digits_to_u128(d) {
        None => None,
        Some(v) => {
            if neg {
                if v > 9223372036854775808u128 {
                    None
                } else if v == 9223372036854775808u128 {
                    Some(i64::MIN)
                } else {
                    Some(-(v as i64))
                }
            } else {
                if v > i64::MAX as u128 {
                    None
                } else {
                    Some(v as i64)
                }
            }
        },
    }
}

/// The characters of `s` from index `start` on.
pub fn slice_from(s: &[char], start: usize) -> (res: &[char])
    requires
        start <= s@.len(),
    ensures
        res@ == s@.skip(start as int),
{
    vstd::slice::slice_subrange(s, start, s.len())
}

// ---------------------------------------------------------------------------
// Splitting and joining
// ---------------------------------------------------------------------------

/// The views of a run of character vectors.
pub open spec fn views(v: Seq<Vec<char>>) -> Seq<Seq<char>> {
    Seq::new(v.len(), |i: int| v[i]@)
}

/// The views of a run of strings.
pub open spec fn string_views(v: Seq<String>) -> Seq<Seq<char>> {
    Seq::new(v.len(), |i: int| v[i]@)
}

/// The pieces that `str::split` with a single character gives: the maximal
/// runs between separators, at least one of them.
pub open spec fn split_on(s: Seq<char>, sep: char) -> Seq<Seq<char>>
    decreases s.len(),
{
    if s.len() == 0 {
        seq![Seq::<char>::empty()]
    } else {
        let p = split_on(s.drop_last(), sep);
        if s.last() == sep {
            p.push(Seq::<char>::empty())
        } else {
            p.update(p.len() - 1, p.last().push(s.last()))
        }
    }
}

pub proof fn lemma_split_on_len(s: Seq<char>, sep: char)
    ensures
        split_on(s, sep).len() >= 1,
    decreases s.len(),
{
    if s.len() > 0 {
        lemma_split_on_len(s.drop_last(), sep);
    }
}

/// The pieces of `s` between occurrences of `sep`.
pub fn split_chars(s: &[char], sep: char) -> (res: Vec<Vec<char>>)
    ensures
        views(res@) == split_on(s@, sep),
{
    let mut out: Vec<Vec<char>> = Vec::new();
    let mut cur: Vec<char> = Vec::new();
    let mut i: usize = 0;
    assert(s@.take(0) =~= Seq::<char>::empty());
    assert(views(out@).push(cur@) =~= split_on(s@.take(0), sep));
    while i < s.len()
        invariant
            i <= s@.len(),
            views(out@).push(cur@) == split_on(s@.take(i as int), sep),
        decreases s@.len() - i,
    {
        let c = s[i];
        let ghost before = s@.take(i as int);
        proof {
            assert(s@.take(i as int + 1).drop_last() =~= before);
            lemma_split_on_len(before, sep);
        }
        if c == sep {
            let done = cur;
            out.push(done);
            cur = Vec::new();
            assert(views(out@).push(cur@) =~= split_on(s@.take(i as int + 1), sep));
        } else {
            let ghost old_out = out@;
            cur.push(c);
            assert(views(out@).push(cur@) =~= split_on(s@.take(i as int + 1), sep));
        }
        i = i + 1;
    }
    assert(s@.take(s@.len() as int) =~= s@);
    out.push(cur);
    out
}

/// The pieces joined with `sep` between consecutive ones (`[T]::join`).
pub open spec fn join_with(parts: Seq<Seq<char>>, sep: Seq<char>) -> Seq<char>
    decreases parts.len(),
{
    if parts.len() == 0 {
        Seq::<char>::empty()
    } else if parts.len() == 1 {
        parts[0]
    } else {
        join_with(parts.drop_last(), sep) + sep + parts.last()
    }
}

/// Joins character runs with a separator, as `[T]::join` does.
pub fn join_chars(parts: &[Vec<char>], sep: &[char]) -> (res: String)
    ensures
        res@ == join_with(views(parts@), sep@),
{
    let mut out = String::new();
    let mut i: usize = 0;
    while i < parts.len()
        invariant
            i <= parts@.len(),
            out@ == join_with(views(parts@.take(i as int)), sep@),
        decreases parts@.len() - i,
    {
        proof {
            assert(views(parts@.take(i as int + 1)).drop_last() =~= views(parts@.take(i as int)));
        }
        if i > 0 {
            push_chars(&mut out, sep);
        } else {
            assert(out@ =~= Seq::<char>::empty());
        }
        push_chars(&mut out, parts[i].as_slice());
        i = i + 1;
        proof {
            let v = views(parts@.take(i as int));
            if i == 1 {
                assert(v.len() == 1);
                assert(out@ =~= v[0]);
            } else {
                assert(out@ =~= join_with(v.drop_last(), sep@) + sep@ + v.last());
            }
        }
    }
    assert(parts@.take(parts@.len() as int) =~= parts@);
    out
}

/// Whether `c` occurs among the characters.
pub fn contains_char(cs: &[char], c: char) -> (res: bool)
    ensures
        res == cs@.contains(c),
{
    let mut i: usize = 0;
    while i < cs.len()
        invariant
            i <= cs@.len(),
            forall|k: int| 0 <= k < i ==> cs@[k] != c,
        decreases cs@.len() - i,
    {
        if cs[i] == c {
            assert(cs@[i as int] == c);
            return true;
        }
        i = i + 1;
    }
    false
}

// ---------------------------------------------------------------------------
// Lines and trimming
// ---------------------------------------------------------------------------

/// A line as `str::lines` hands it out: one `\r` before the `\n` dropped.
pub open spec fn strip_cr(l: Seq<char>) -> Seq<char> {
    if l.len() > 0 && l.last() == '\r' {
        l.drop_last()
    } else {
        l
    }
}

/// The lines of a text as `str::lines` gives them: split at `\n`, one `\r`
/// before each `\n` dropped, and no empty line after a final `\n`.
pub open spec fn spec_lines(s: Seq<char>) -> Seq<Seq<char>> {
    let p = split_on(s, '\n');
    let body = Seq::new((p.len() - 1) as nat, |i: int| strip_cr(p[i]));
    if p.last().len() == 0 {
        body
    } else {
        body.push(p.last())
    }
}

/// The lines of a text, as `str::lines` gives them.
pub fn lines_of(s: &[char]) -> (res: Vec<Vec<char>>)
    ensures
        views(res@) == spec_lines(s@),
{
    let pieces = split_chars(s, '\n');
    proof {
        lemma_split_on_len(s@, '\n');
    }
    let ghost p = split_on(s@, '\n');
    let n = pieces.len();
    let mut out: Vec<Vec<char>> = Vec::new();
    let mut i: usize = 0;
    while i + 1 < n
        invariant
            n == pieces@.len(),
            n >= 1,
            i < n,
            views(pieces@) == p,
            views(out@) =~= Seq::new(i as nat, |k: int| strip_cr(p[k])),
        decreases n - i,
    {
        let l = &pieces[i];
        assert(p[i as int] == l@);
        let line: Vec<char> = if l.len() > 0 && l[l.len() - 1] == '\r' {
            vstd::slice::slice_to_vec(vstd::slice::slice_subrange(l.as_slice(), 0, l.len() - 1))
        } else {
            l.clone()
        };
        assert(line@ =~= strip_cr(p[i as int]));
        let ghost before = out@;
        out.push(line);
        assert(views(out@) =~= views(before).push(line@));
        i = i + 1;
    }
    let last = &pieces[n - 1];
    assert(p.last() == last@);
    if last.len() > 0 {
        out.push(last.clone());
    }
    out
}

/// ASCII whitespace, as `u8::is_ascii_whitespace` counts it.
pub open spec fn is_ascii_ws(c: char) -> bool {
    c == ' ' || c == '\t' || c == '\n' || c == '\x0C' || c == '\r'
}

pub open spec fn trim_start_ws(s: Seq<char>) -> Seq<char>
    decreases s.len(),
{
    if s.len() > 0 && is_ascii_ws(s[0]) {
        trim_start_ws(s.drop_first())
    } else {
        s
    }
}

pub open spec fn trim_end_ws(s: Seq<char>) -> Seq<char>
    decreases s.len(),
{
    if s.len() > 0 && is_ascii_ws(s.last()) {
        trim_end_ws(s.drop_last())
    } else {
        s
    }
}

/// `str::trim_ascii`: ASCII whitespace dropped at both ends.
pub open spec fn trim_ascii(s: Seq<char>) -> Seq<char> {
    trim_end_ws(trim_start_ws(s))
}

/// The run without ASCII whitespace at either end.
pub fn trim_ascii_chars(s: &[char]) -> (res: Vec<char>)
    ensures
        res@ == trim_ascii(s@),
{
    let mut a: usize = 0;
    assert(s@.skip(0) =~= s@);
    while a < s.len() && (s[a] == ' ' || s[a] == '\t' || s[a] == '\n' || s[a] == '\x0C' || s[a]
        == '\r')
        invariant
            a <= s@.len(),
            trim_start_ws(s@) == trim_start_ws(s@.skip(a as int)),
        decreases s@.len() - a,
    {
        assert(s@.skip(a as int).drop_first() =~= s@.skip(a as int + 1));
        a = a + 1;
    }
    let mut b: usize = s.len();
    assert(s@.subrange(a as int, b as int) =~= s@.skip(a as int));
    while b > a && (s[b - 1] == ' ' || s[b - 1] == '\t' || s[b - 1] == '\n' || s[b - 1] == '\x0C'
        || s[b - 1] == '\r')
        invariant
            a <= b <= s@.len(),
            trim_ascii(s@) == trim_end_ws(s@.subrange(a as int, b as int)),
        decreases b,
    {
        assert(s@.subrange(a as int, b as int).drop_last() =~= s@.subrange(a as int, b - 1));
        b = b - 1;
    }
    vstd::slice::slice_to_vec(vstd::slice::slice_subrange(s, a, b))
}

/// `s` begins with `p`.
pub open spec fn starts_with(s: Seq<char>, p: Seq<char>) -> bool {
    p.len() <= s.len() && s.take(p.len() as int) == p
}

/// `str::trim_start_matches` with a text pattern: every leading copy of `p`
/// removed.
pub open spec fn trim_start_matches(s: Seq<char>, p: Seq<char>) -> Seq<char>
    decreases s.len(),
{
    if p.len() > 0 && starts_with(s, p) {
        trim_start_matches(s.skip(p.len() as int), p)
    } else {
        s
    }
}

/// Whether `s` begins with `p` at index `at`.
pub fn starts_with_at(s: &[char], at: usize, p: &[char]) -> (res: bool)
    requires
        at <= s@.len(),
    ensures
        res == starts_with(s@.skip(at as int), p@),
{
    let sl = s.len();
    if p.len() > sl - at {
        return false;
    }
    let mut i: usize = 0;
    while i < p.len()
        invariant
            sl == s@.len(),
            at + p@.len() <= sl,
            i <= p@.len(),
            forall|k: int| 0 <= k < i ==> s@[at + k] == p@[k],
        decreases p@.len() - i,
    {
        if s[at + i] != p[i] {
            assert(s@.skip(at as int).take(p@.len() as int)[i as int] != p@[i as int]);
            return false;
        }
        i = i + 1;
    }
    assert(s@.skip(at as int).take(p@.len() as int) =~= p@);
    true
}

/// The run with every leading copy of `p` removed.
pub fn trim_start_matches_chars(s: &[char], p: &[char]) -> (res: Vec<char>)
    ensures
        res@ == trim_start_matches(s@, p@),
{
    let mut a: usize = 0;
    assert(s@.skip(0) =~= s@);
    if p.len() == 0 {
        return vstd::slice::slice_to_vec(s);
    }
    while a < s.len() && starts_with_at(s, a, p)
        invariant
            a <= s@.len(),
            p@.len() > 0,
            trim_start_matches(s@, p@) == trim_start_matches(s@.skip(a as int), p@),
        decreases s@.len() - a,
    {
        assert(s@.skip(a as int).skip(p@.len() as int) =~= s@.skip(a + p@.len()));
        a = a + p.len();
    }
    proof {
        if a == s@.len() {
            assert(s@.skip(a as int).len() == 0);
        }
    }
    vstd::slice::slice_to_vec(vstd::slice::slice_subrange(s, a, s.len()))
}

// ---------------------------------------------------------------------------
// Writing numbers
// ---------------------------------------------------------------------------

pub open spec fn digit_char(d: nat) -> char {
    ('0' as u32 + d) as char
}

/// The decimal writing of a number, without leading zeros.
pub open spec fn dec(n: nat) -> Seq<char>
    decreases n,
{
    if n < 10 {
        seq![digit_char(n)]
    } else {
        dec(n / 10).push(digit_char(n % 10))
    }
}

/// The decimal writing of a number, as `Display` gives it.
pub fn usize_to_chars(n: usize) -> (res: Vec<char>)
    ensures
        res@ == dec(n as nat),
    decreases n,
{
    if n < 10 {
        let c = char_of_digit(n as u32);
        let mut v: Vec<char> = Vec::new();
        v.push(c);
        assert(v@ =~= seq![digit_char(n as nat)]);
        v
    } else {
        let mut v = usize_to_chars(n / 10);
        v.push(char_of_digit((n % 10) as u32));
        v
    }
}

fn char_of_digit(d: u32) -> (c: char)
    requires
        d < 10,
    ensures
        c == digit_char(d as nat),
{
    if d == 0 {
        '0'
    } else if d == 1 {
        '1'
    } else if d == 2 {
        '2'
    } else if d == 3 {
        '3'
    } else if d == 4 {
        '4'
    } else if d == 5 {
        '5'
    } else if d == 6 {
        '6'
    } else if d == 7 {
        '7'
    } else if d == 8 {
        '8'
    } else {
        '9'
    }
}

/// Reading back a written number gives the number.
pub proof fn lemma_dec_reads_back(n: nat)
    ensures
        dec(n).len() > 0,
        all_digits(dec(n)),
        digits_value(dec(n)) == n,
        dec(n)[0] != '+',
        !dec(n).contains(':'),
    decreases n,
{
    if n >= 10 {
        lemma_dec_reads_back(n / 10);
        let d = dec(n);
        assert(d.drop_last() =~= dec(n / 10));
        lemma_digit_char(n % 10);
        assert(n == (n / 10) * 10 + n % 10);
        assert(d.last() == digit_char(n % 10));
        assert(digits_value(d) == digits_value(d.drop_last()) * 10 + digit_value(d.last()));
        assert(digits_value(d) == n);
        assert(d[0] == dec(n / 10)[0]);
        assert forall|i: int| 0 <= i < d.len() implies is_digit(#[trigger] d[i]) by {
            if i < d.len() - 1 {
                assert(d[i] == dec(n / 10)[i]);
            }
        }
        if d.contains(':') {
            let i = choose|i: int| 0 <= i < d.len() && d[i] == ':';
            if i < d.len() - 1 {
                assert(dec(n / 10)[i] == ':');
                assert(dec(n / 10).contains(':'));
            }
        }
    } else {
        assert(dec(n) =~= seq![digit_char(n)]);
        assert(dec(n).drop_last() =~= Seq::<char>::empty());
        lemma_digit_char(n);
        assert(digits_value(dec(n)) == digits_value(dec(n).drop_last()) * 10 + digit_value(dec(n).last()));
        assert(digits_value(Seq::<char>::empty()) == 0);
    }
}

proof fn lemma_digit_char(k: nat)
    requires
        k < 10,
    ensures
        is_digit(digit_char(k)),
        digit_value(digit_char(k)) == k,
        digit_char(k) != '+',
        digit_char(k) != ':',
{
    assert(digit_char(k) as int == '0' as int + k);
}

/// A usize written out parses back as itself.
pub proof fn lemma_parse_usize_dec(n: usize)
    ensures
        spec_parse_usize(dec(n as nat)) == Some(n),
{
    lemma_dec_reads_back(n as nat);
}

// ---------------------------------------------------------------------------
// More about splitting
// ---------------------------------------------------------------------------

/// Text without the separator is one piece.
pub proof fn lemma_split_on_single(s: Seq<char>, sep: char)
    requires
        !s.contains(sep),
    ensures
        split_on(s, sep) == seq![s],
    decreases s.len(),
{
    if s.len() > 0 {
        assert(!s.drop_last().contains(sep)) by {
            if s.drop_last().contains(sep) {
                let i = choose|i: int| 0 <= i < s.drop_last().len() && s.drop_last()[i] == sep;
                assert(s[i] == sep);
            }
        }
        lemma_split_on_single(s.drop_last(), sep);
        assert(s.last() != sep) by {
            if s.last() == sep {
                assert(s[s.len() - 1] == sep);
            }
        }
        assert(s.drop_last().push(s.last()) =~= s);
    } else {
        assert(s =~= Seq::<char>::empty());
    }
}

/// Splitting `a`, a separator and `b` gives the pieces of `a` then those of `b`.
pub proof fn lemma_split_on_concat(a: Seq<char>, b: Seq<char>, sep: char)
    ensures
        split_on(a + seq![sep] + b, sep) == split_on(a, sep) + split_on(b, sep),
    decreases b.len(),
{
    lemma_split_on_len(a, sep);
    if b.len() == 0 {
        assert((a + seq![sep] + b).drop_last() =~= a);
        assert(split_on(b, sep) =~= seq![Seq::<char>::empty()]);
        assert(split_on(a, sep).push(Seq::<char>::empty()) =~= split_on(a, sep) + seq![
            Seq::<char>::empty(),
        ]);
    } else {
        lemma_split_on_concat(a, b.drop_last(), sep);
        lemma_split_on_len(b.drop_last(), sep);
        assert((a + seq![sep] + b).drop_last() =~= a + seq![sep] + b.drop_last());
        assert((a + seq![sep] + b).last() == b.last());
        let pa = split_on(a, sep);
        let pb = split_on(b.drop_last(), sep);
        if b.last() == sep {
            assert((pa + pb).push(Seq::<char>::empty()) =~= pa + pb.push(Seq::<char>::empty()));
        } else {
            assert((pa + pb).update((pa + pb).len() - 1, (pa + pb).last().push(b.last())) =~= pa
                + pb.update(pb.len() - 1, pb.last().push(b.last())));
        }
    }
}

/// The lines of a text as owned strings, as `str::lines` gives them.
pub fn split_lines(text: &str) -> (res: Vec<String>)
    ensures
        string_views(res@) == spec_lines(text@),
{
    let cs = chars_of(text);
    let ls = lines_of(cs.as_slice());
    let mut out: Vec<String> = Vec::new();
    let mut i: usize = 0;
    while i < ls.len()
        invariant
            i <= ls@.len(),
            string_views(out@) == views(ls@).take(i as int),
        decreases ls@.len() - i,
    {
        let ghost before = out@;
        let line = string_of(ls[i].as_slice());
        assert(line@ == views(ls@)[i as int]);
        out.push(line);
        assert(string_views(out@) =~= string_views(before).push(line@));
        assert(string_views(out@) =~= views(ls@).take(i as int + 1));
        i = i + 1;
    }
    assert(views(ls@).take(ls@.len() as int) =~= views(ls@));
    out
}

// ---------------------------------------------------------------------------
// Unicode whitespace
// ---------------------------------------------------------------------------

/// `char::is_whitespace`: the characters with the Unicode White_Space property.
pub open spec fn is_unicode_ws(c: char) -> bool {
    ('\u{9}' <= c && c <= '\u{d}') || c == ' ' || c == '\u{85}' || c == '\u{a0}' || c
        == '\u{1680}' || ('\u{2000}' <= c && c <= '\u{200a}') || c == '\u{2028}' || c
        == '\u{2029}' || c == '\u{202f}' || c == '\u{205f}' || c == '\u{3000}'
}

/// `char::is_whitespace`.
pub fn is_unicode_ws_char(c: char) -> (res: bool)
    ensures
        res == is_unicode_ws(c),
{
    ('\u{9}' <= c && c <= '\u{d}') || c == ' ' || c == '\u{85}' || c == '\u{a0}' || c
        == '\u{1680}' || ('\u{2000}' <= c && c <= '\u{200a}') || c == '\u{2028}' || c
        == '\u{2029}' || c == '\u{202f}' || c == '\u{205f}' || c == '\u{3000}'
}

pub open spec fn trim_ws_start(s: Seq<char>) -> Seq<char>
    decreases s.len(),
{
    if s.len() > 0 && is_unicode_ws(s[0]) {
        trim_ws_start(s.drop_first())
    } else {
        s
    }
}

pub open spec fn trim_ws_end(s: Seq<char>) -> Seq<char>
    decreases s.len(),
{
    if s.len() > 0 && is_unicode_ws(s.last()) {
        trim_ws_end(s.drop_last())
    } else {
        s
    }
}

/// `str::trim`: whitespace dropped at both ends.
pub open spec fn trim_ws(s: Seq<char>) -> Seq<char> {
    trim_ws_end(trim_ws_start(s))
}

/// The run without whitespace at either end.
pub fn trim_ws_chars(s: &[char]) -> (res: &[char])
    ensures
        res@ == trim_ws(s@),
{
    let mut a: usize = 0;
    assert(s@.skip(0) =~= s@);
    while a < s.len() && is_unicode_ws_char(s[a])
        invariant
            a <= s@.len(),
            trim_ws_start(s@) == trim_ws_start(s@.skip(a as int)),
        decreases s@.len() - a,
    {
        assert(s@.skip(a as int).drop_first() =~= s@.skip(a as int + 1));
        a = a + 1;
    }
    let mut b: usize = s.len();
    assert(s@.subrange(a as int, b as int) =~= s@.skip(a as int));
    while b > a && is_unicode_ws_char(s[b - 1])
        invariant
            a <= b <= s@.len(),
            trim_ws(s@) == trim_ws_end(s@.subrange(a as int, b as int)),
        decreases b,
    {
        assert(s@.subrange(a as int, b as int).drop_last() =~= s@.subrange(a as int, b - 1));
        b = b - 1;
    }
    vstd::slice::slice_subrange(s, a, b)
}

/// Joins strings with a separator, as `[String]::join` does.
pub fn join_strings(parts: &[String], sep: &str) -> (res: String)
    ensures
        res@ == join_with(string_views(parts@), sep@),
{
    let mut cs: Vec<Vec<char>> = Vec::new();
    let mut i: usize = 0;
    while i < parts.len()
        invariant
            i <= parts@.len(),
            views(cs@) == string_views(parts@).take(i as int),
        decreases parts@.len() - i,
    {
        let ghost before = cs@;
        let piece = chars_of(parts[i].as_str());
        cs.push(piece);
        assert(views(cs@) =~= views(before).push(parts@[i as int]@));
        assert(views(cs@) =~= string_views(parts@).take(i as int + 1));
        i = i + 1;
    }
    assert(string_views(parts@).take(parts@.len() as int) =~= string_views(parts@));
    let sc = chars_of(sep);
    join_chars(cs.as_slice(), sc.as_slice())
}

// ---------------------------------------------------------------------------
// Searching for a text
// ---------------------------------------------------------------------------

/// `p` occurs in `s` at index `i`.
pub open spec fn occurs_at(s: Seq<char>, p: Seq<char>, i: int) -> bool {
    0 <= i && i + p.len() <= s.len() && s.subrange(i, i + p.len()) == p
}

/// The first index from `i` on where `p` occurs in `s`.
pub open spec fn find_from(s: Seq<char>, p: Seq<char>, i: int) -> Option<int>
    decreases s.len() - i,
{
    if i < 0 || i + p.len() > s.len() {
        None
    } else if occurs_at(s, p, i) {
        Some(i)
    } else if p.len() == 0 {
        None
    } else {
        find_from(s, p, i + 1)
    }
}

/// The first index from `from` on where `p` occurs in `s`.
pub fn find_chars(s: &[char], p: &[char], from: usize) -> (res: Option<usize>)
    requires
        from <= s@.len(),
    ensures
        res matches Some(k) ==> find_from(s@, p@, from as int) == Some(k as int),
        res is None ==> find_from(s@, p@, from as int) is None,
{
    let mut i: usize = from;
    let sl = s.len();
    while i <= sl && p.len() <= sl - i
        invariant
            from <= i,
            sl == s@.len(),
            i <= sl + 1,
            find_from(s@, p@, from as int) == find_from(s@, p@, i as int),
        decreases sl + 1 - i,
    {
        if starts_with_at(s, i, p) {
            assert(s@.skip(i as int).take(p@.len() as int) =~= s@.subrange(i as int, i + p@.len()));
            return Some(i);
        }
        assert(s@.skip(i as int).take(p@.len() as int) =~= s@.subrange(i as int, i + p@.len()));
        if p.len() == 0 {
            return None;
        }
        i = i + 1;
    }
    None
}

/// The text before the first occurrence of `p` (all of it where `p` does
/// not occur): the first piece that `str::split` gives.
pub open spec fn piece_before(s: Seq<char>, p: Seq<char>) -> Seq<char> {
    match find_from(s, p, 0) {
        Some(k) => s.take(k),
        None => s,
    }
}

/// The second piece that `str::split` gives, where `p` occurs at all.
pub open spec fn second_piece(s: Seq<char>, p: Seq<char>) -> Option<Seq<char>> {
    match find_from(s, p, 0) {
        Some(k) => Some(piece_before(s.skip(k + p.len()), p)),
        None => None,
    }
}

pub proof fn lemma_find_from_bounds(s: Seq<char>, p: Seq<char>, i: int)
    ensures
        find_from(s, p, i) matches Some(k) ==> i <= k && occurs_at(s, p, k),
    decreases s.len() - i,
{
    if !(i < 0 || i + p.len() > s.len()) && !occurs_at(s, p, i) && p.len() != 0 {
        lemma_find_from_bounds(s, p, i + 1);
    }
}

/// Where `p` occurs at `k`, a search from any earlier index finds it (or an
/// earlier occurrence).
pub proof fn lemma_find_from_finds(s: Seq<char>, p: Seq<char>, i: int, k: int)
    requires
        0 <= i <= k,
        occurs_at(s, p, k),
    ensures
        find_from(s, p, i) is Some,
    decreases k - i,
{
    if p.len() == 0 {
        assert(s.subrange(i, i) =~= p);
    } else if !occurs_at(s, p, i) {
        lemma_find_from_finds(s, p, i + 1, k);
    }
}

/// Where `p` occurs at `k` and nowhere from `i` up to `k`, a search from
/// `i` finds `k`.
pub proof fn lemma_find_from_first(s: Seq<char>, p: Seq<char>, i: int, k: int)
    requires
        0 <= i <= k,
        occurs_at(s, p, k),
        forall|j: int| i <= j < k ==> !occurs_at(s, p, j),
    ensures
        find_from(s, p, i) == Some(k),
    decreases k - i,
{
    if i < k {
        assert(!occurs_at(s, p, i));
        if p.len() == 0 {
            assert(occurs_at(s, p, i)) by {
                assert(s.subrange(i, i) =~= p);
            }
        }
        lemma_find_from_first(s, p, i + 1, k);
    }
}

/// The first piece of `s` split at `p`.
pub fn first_piece_chars(s: &[char], p: &[char]) -> (res: Vec<char>)
    ensures
        res@ == piece_before(s@, p@),
{
    match find_chars(s, p, 0) {
        Some(k) => {
            proof {
                lemma_find_from_bounds(s@, p@, 0);
            }
            vstd::slice::slice_to_vec(vstd::slice::slice_subrange(s, 0, k))
        },
        None => vstd::slice::slice_to_vec(s),
    }
}

/// The second piece of `s` split at `p`, where there is one.
pub fn second_piece_chars(s: &[char], p: &[char]) -> (res: Option<Vec<char>>)
    ensures
        match res {
            Some(r) => second_piece(s@, p@) == Some(r@),
            None => second_piece(s@, p@) is None,
        },
{
    match find_chars(s, p, 0) {
        Some(k) => {
            proof {
                lemma_find_from_bounds(s@, p@, 0);
            }
            let sl = s.len();
            assert(k + p@.len() <= sl);
            let rest = vstd::slice::slice_subrange(s, k + p.len(), sl);
            assert(rest@ =~= s@.skip(k + p@.len()));
            Some(first_piece_chars(rest, p))
        },
        None => None,
    }
}

// ---------------------------------------------------------------------------
// Splitting and joining undo each other
// ---------------------------------------------------------------------------

proof fn lemma_join_with_push(p: Seq<Seq<char>>, x: Seq<char>, sep: Seq<char>)
    requires
        p.len() >= 1,
    ensures
        join_with(p.push(x), sep) == join_with(p, sep) + sep + x,
{
    assert(p.push(x).drop_last() =~= p);
}

/// Joining the pieces of a split with the separator gives the text back.
pub proof fn lemma_join_split(s: Seq<char>, sep: char)
    ensures
        join_with(split_on(s, sep), seq![sep]) == s,
    decreases s.len(),
{
    if s.len() == 0 {
        assert(split_on(s, sep) =~= seq![Seq::<char>::empty()]);
        assert(s =~= Seq::<char>::empty());
    } else {
        let p = split_on(s.drop_last(), sep);
        lemma_join_split(s.drop_last(), sep);
        lemma_split_on_len(s.drop_last(), sep);
        if s.last() == sep {
            lemma_join_with_push(p, Seq::<char>::empty(), seq![sep]);
            assert(s.drop_last() + seq![sep] + Seq::<char>::empty() =~= s);
        } else {
            let q = p.update(p.len() - 1, p.last().push(s.last()));
            if p.len() == 1 {
                assert(join_with(q, seq![sep]) == q[0]);
                assert(join_with(p, seq![sep]) == p[0]);
                assert(q[0] =~= p[0].push(s.last()));
                assert(s.drop_last().push(s.last()) =~= s);
            } else {
                assert(q.drop_last() =~= p.drop_last());
                assert(join_with(q, seq![sep]) == join_with(p.drop_last(), seq![sep]) + seq![sep]
                    + q.last());
                assert(join_with(q, seq![sep]) =~= join_with(p, seq![sep]).push(s.last()));
                assert(s.drop_last().push(s.last()) =~= s);
            }
        }
    }
}

} // verus!
