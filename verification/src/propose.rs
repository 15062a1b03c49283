use vstd::prelude::*;

use crate::text::{chars_of, parse_u8, parse_usize, spec_parse_u8, spec_parse_usize, string_views};

verus! {

broadcast use vstd::string::group_string_axioms;

/// How many lines to consider: a count, or a percentage such as `30%`.
#[derive(Debug, Clone, Copy, PartialEq, Eq, Structural)]
pub enum Consideration {
    Number(usize),
    Percentage(u8),
}

/// Why a count or percentage could not be read.
#[derive(Debug, Clone, Copy, PartialEq, Eq, Structural)]
pub enum ConsiderationError {
    InvalidPercentage,
}

/// The texts that `Consideration::from_str` reads without failing: a count,
/// or text whose last character is a single byte (the `%`).
pub open spec fn consideration_readable(s: Seq<char>) -> bool {
    spec_parse_usize(s) is Some || (s.len() > 0 && (s.last() as u32) < 128)
}

/// A count where the text reads as one; else everything but the last
/// character read as a percentage.
pub open spec fn spec_consideration(s: Seq<char>) -> Result<Consideration, ConsiderationError> {
    match spec_parse_usize(s) {
        Some(n) => Ok(Consideration::Number(n)),
        None => match spec_parse_u8(s.drop_last()) {
            Some(p) => Ok(Consideration::Percentage(p)),
            None => Err(ConsiderationError::InvalidPercentage),
        },
    }
}

impl Consideration {
    /// Whether `from_str` reads a text without failing.
    pub fn readable(s: &str) -> (res: bool)
        ensures
            res == consideration_readable(s@),
    {
        let cs = chars_of(s);
        parse_usize(cs.as_slice()).is_some() || (cs.len() > 0 && (cs[cs.len() - 1] as u32) < 128)
    }

    /// Reads `N` as a count and `N%` (any last character) as a percentage.
    pub fn from_str(s: &str) -> (res: Result<Self, ConsiderationError>)
        requires
            consideration_readable(s@),
        ensures
            res == spec_consideration(s@),
    {
        let cs = chars_of(s);
        match parse_usize(cs.as_slice()) {
            Some(n) => Ok(Consideration::Number(n)),
            None => {
                let body = vstd::slice::slice_subrange(cs.as_slice(), 0, cs.len() - 1);
                assert(body@ =~= s@.drop_last());
                match parse_u8(body) {
                    Some(p) => Ok(Consideration::Percentage(p)),
                    None => Err(ConsiderationError::InvalidPercentage),
                }
            },
        }
    }
}

/// How far back the remembered picks are avoided: all but the last `n`
/// remembered lines, or all but the given percentage of the input's lines.
pub open spec fn spec_starting_index(
    consider: Consideration,
    remembered: usize,
    line_count: usize,
) -> int {
    let back: int = match consider {
        Consideration::Number(n) => n as int,
        Consideration::Percentage(p) => (line_count * p) / 100,
    };
    if remembered >= back {
        remembered - back
    } else {
        0
    }
}

/// Where in the remembered picks the ones to avoid start.
pub fn starting_index(consider: Consideration, remembered: usize, line_count: usize) -> (res: usize)
    requires
        consider matches Consideration::Percentage(p) ==> line_count * p <= usize::MAX,
    ensures
        res == spec_starting_index(consider, remembered, line_count),
{
    let back = match consider {
        Consideration::Number(n) => n,
        Consideration::Percentage(p) => line_count * (p as usize) / 100,
    };
    if remembered >= back {
        remembered - back
    } else {
        0
    }
}

/// The lines not among the recent picks, in order.
pub open spec fn pickable_of(lines: Seq<Seq<char>>, recent: Seq<Seq<char>>) -> Seq<Seq<char>>
    decreases lines.len(),
{
    if lines.len() == 0 {
        Seq::empty()
    } else {
        let out = pickable_of(lines.drop_last(), recent);
        if recent.contains(lines.last()) {
            out
        } else {
            out.push(lines.last())
        }
    }
}

fn contains_string(v: &Vec<String>, from: usize, x: &String) -> (res: bool)
    requires
        from <= v@.len(),
    ensures
        res == string_views(v@).skip(from as int).contains(x@),
{
    let mut i: usize = from;
    while i < v.len()
        invariant
            from <= i <= v@.len(),
            forall|k: int| from <= k < i ==> v@[k]@ != x@,
        decreases v@.len() - i,
    {
        if v[i] == *x {
            assert(string_views(v@).skip(from as int)[i - from] == x@);
            return true;
        }
        i = i + 1;
    }
    proof {
        if string_views(v@).skip(from as int).contains(x@) {
            let k = choose|k: int|
                0 <= k < string_views(v@).skip(from as int).len() && string_views(v@).skip(
                    from as int,
                )[k] == x@;
            assert(v@[from + k]@ == x@);
        }
    }
    false
}

/// The input lines that may be picked: those not among the remembered picks
/// from `start` on.
pub fn pickable_lines(lines: &Vec<String>, remembered: &Vec<String>, start: usize) -> (res: Vec<
    String,
>)
    requires
        start <= remembered@.len(),
    ensures
        string_views(res@) == pickable_of(
            string_views(lines@),
            string_views(remembered@).skip(start as int),
        ),
{
    let ghost ls = string_views(lines@);
    let ghost recent = string_views(remembered@).skip(start as int);
    let mut out: Vec<String> = Vec::new();
    let mut i: usize = 0;
    assert(ls.take(0) =~= Seq::<Seq<char>>::empty());
    while i < lines.len()
        invariant
            i <= lines@.len(),
            start <= remembered@.len(),
            ls == string_views(lines@),
            recent == string_views(remembered@).skip(start as int),
            string_views(out@) == pickable_of(ls.take(i as int), recent),
        decreases lines@.len() - i,
    {
        assert(ls.take(i as int + 1).drop_last() =~= ls.take(i as int));
        assert(ls.take(i as int + 1).last() == lines@[i as int]@);
        if !contains_string(remembered, start, &lines[i]) {
            let ghost before = out@;
            out.push(lines[i].clone());
            assert(string_views(out@) =~= string_views(before).push(lines@[i as int]@));
        }
        i = i + 1;
    }
    assert(ls.take(lines@.len() as int) =~= ls);
    out
}

/// How many lines to pick: a count (one where none is given), or a
/// percentage of the pickable lines.
pub open spec fn spec_sample_amount(lines: Option<Consideration>, pickable: usize) -> int {
    match lines {
        None => 1,
        Some(Consideration::Number(n)) => n as int,
        Some(Consideration::Percentage(p)) => (pickable * p) / 100,
    }
}

/// Works out how many lines to pick.
pub fn sample_amount(lines: Option<Consideration>, pickable: usize) -> (res: usize)
    requires
        lines matches Some(Consideration::Percentage(p)) ==> pickable * p <= usize::MAX,
    ensures
        res == spec_sample_amount(lines, pickable),
{
    match lines {
        None => 1,
        Some(Consideration::Number(n)) => n,
        Some(Consideration::Percentage(p)) => pickable * (p as usize) / 100,
    }
}

/// The remembered picks after new ones: the new picks added at the end, and
/// the oldest dropped so that no more are kept than the input has lines.
pub open spec fn spec_remember(
    remembered: Seq<Seq<char>>,
    picked: Seq<Seq<char>>,
    line_count: usize,
) -> Seq<Seq<char>> {
    let all = remembered + picked;
    if all.len() > line_count {
        all.skip(all.len() - line_count)
    } else {
        all
    }
}

/// Adds the new picks to the remembered ones and forgets the oldest.
pub fn remember(remembered: &mut Vec<String>, picked: Vec<String>, line_count: usize)
    ensures
        string_views(final(remembered)@) == spec_remember(
            string_views(old(remembered)@),
            string_views(picked@),
            line_count,
        ),
{
    let ghost all = string_views(old(remembered)@) + string_views(picked@);
    let mut picked = picked;
    remembered.append(&mut picked);
    assert(string_views(remembered@) =~= all);
    let len = remembered.len();
    if len > line_count {
        let drop = len - line_count;
        let mut kept: Vec<String> = Vec::new();
        let mut i: usize = drop;
        while i < remembered.len()
            invariant
                drop <= i <= remembered@.len(),
                string_views(kept@) == string_views(remembered@).subrange(drop as int, i as int),
            decreases remembered@.len() - i,
        {
            let ghost before = kept@;
            kept.push(remembered[i].clone());
            assert(string_views(kept@) =~= string_views(before).push(remembered@[i as int]@));
            assert(string_views(kept@) =~= string_views(remembered@).subrange(
                drop as int,
                i as int + 1,
            ));
            i = i + 1;
        }
        assert(string_views(remembered@).subrange(drop as int, len as int) =~= all.skip(
            drop as int,
        ));
        *remembered = kept;
    }
}

/// `IteratorRandom::choose_multiple` over the lines, with the thread's
/// random number generator: `amount` of them, each taken from a different
/// place, so that no line comes out more often than it went in. Which ones,
/// and in what order, rests on chance and is left unsaid.
#[verifier::external_body]
fn choose_lines(pickable: Vec<String>, amount: usize) -> (picked: Vec<String>)
    requires
        amount <= pickable@.len(),
    ensures
        picked@.len() == amount,
        string_views(picked@).to_multiset().subset_of(string_views(pickable@).to_multiset()),
{
    rand::seq::IteratorRandom::choose_multiple(pickable.into_iter(), &mut rand::rng(), amount)
}

/// The lines that may be proposed, given the remembered picks.
pub open spec fn proposal_pickable(
    lines: Seq<Seq<char>>,
    remembered: Seq<Seq<char>>,
    consider: Consideration,
) -> Seq<Seq<char>> {
    let start = spec_starting_index(consider, remembered.len() as usize, lines.len() as usize);
    pickable_of(lines, remembered.skip(start))
}

/// The inputs on which `propose` works out its counts without overflowing.
pub open spec fn proposal_fits(
    lines: Seq<Seq<char>>,
    remembered: Seq<Seq<char>>,
    consider: Consideration,
    amount_of: Option<Consideration>,
) -> bool {
    &&& consider matches Consideration::Percentage(p) ==> lines.len() * p <= usize::MAX
    &&& amount_of matches Some(Consideration::Percentage(p)) ==> proposal_pickable(
        lines,
        remembered,
        consider,
    ).len() * p <= usize::MAX
}

/// What one proposal does: `picked` holds as many of the pickable lines as
/// `sample_amount` asks for (all of them where there are fewer), none more
/// often than it is pickable, and `after` is what `remember` makes of the
/// remembered picks and `picked`.
pub open spec fn proposal_ok(
    lines: Seq<Seq<char>>,
    before: Seq<Seq<char>>,
    consider: Consideration,
    amount_of: Option<Consideration>,
    picked: Seq<Seq<char>>,
    after: Seq<Seq<char>>,
) -> bool {
    let pickable = proposal_pickable(lines, before, consider);
    let amount = spec_sample_amount(amount_of, pickable.len() as usize);
    &&& picked.len() == if amount <= pickable.len() {
        amount
    } else {
        pickable.len() as int
    }
    &&& picked.to_multiset().subset_of(pickable.to_multiset())
    &&& after == spec_remember(before, picked, lines.len() as usize)
}

/// Whether `propose` works out its counts without overflowing.
pub fn can_propose(
    lines: &Vec<String>,
    remembered: &Vec<String>,
    consider: Consideration,
    amount_of: Option<Consideration>,
) -> (res: bool)
    ensures
        res == proposal_fits(string_views(lines@), string_views(remembered@), consider, amount_of),
{
    if let Consideration::Percentage(p) = consider {
        if lines.len().checked_mul(p as usize).is_none() {
            return false;
        }
    }
    if let Some(Consideration::Percentage(p)) = amount_of {
        let start = starting_index(consider, remembered.len(), lines.len());
        let pickable = pickable_lines(lines, remembered, start);
        return pickable.len().checked_mul(p as usize).is_some();
    }
    true
}

fn copy_lines(v: &Vec<String>) -> (res: Vec<String>)
    ensures
        string_views(res@) == string_views(v@),
{
    let mut out: Vec<String> = Vec::new();
    let mut i: usize = 0;
    while i < v.len()
        invariant
            i <= v@.len(),
            string_views(out@) == string_views(v@).take(i as int),
        decreases v@.len() - i,
    {
        let ghost before = out@;
        out.push(v[i].clone());
        assert(string_views(out@) =~= string_views(before).push(v@[i as int]@));
        assert(string_views(out@) =~= string_views(v@).take(i as int + 1));
        i = i + 1;
    }
    assert(string_views(v@).take(v@.len() as int) =~= string_views(v@));
    out
}

/// Proposes lines that were not picked recently: works out where the
/// remembered picks to avoid start, which lines may be picked, and how many
/// to pick, picks them at random, and remembers them.
pub fn propose(
    lines: &Vec<String>,
    remembered: &mut Vec<String>,
    consider: Consideration,
    amount_of: Option<Consideration>,
) -> (picked: Vec<String>)
    requires
        proposal_fits(string_views(lines@), string_views(old(remembered)@), consider, amount_of),
    ensures
        proposal_ok(
            string_views(lines@),
            string_views(old(remembered)@),
            consider,
            amount_of,
            string_views(picked@),
            string_views(final(remembered)@),
        ),
{
    let ghost ls = string_views(lines@);
    let ghost before = string_views(remembered@);
    assert(remembered@.len() == before.len() && lines@.len() == ls.len());
    let start = starting_index(consider, remembered.len(), lines.len());
    let pickable = pickable_lines(lines, remembered, start);
    assert(string_views(pickable@) == proposal_pickable(ls, before, consider));
    let amount = sample_amount(amount_of, pickable.len());
    let take = if amount <= pickable.len() {
        amount
    } else {
        pickable.len()
    };
    let picked = choose_lines(pickable, take);
    let kept = copy_lines(&picked);
    remember(remembered, kept, lines.len());
    picked
}

/// The remembered picks kept under one cache name.
pub struct CacheEntry {
    pub name: String,
    pub remembered: Vec<String>,
}

/// The remembered picks of every cache name.
pub struct Cache {
    pub entries: Vec<CacheEntry>,
}

impl View for Cache {
    type V = Seq<(Seq<char>, Seq<Seq<char>>)>;

    open spec fn view(&self) -> Seq<(Seq<char>, Seq<Seq<char>>)> {
        Seq::new(
            self.entries@.len(),
            |i: int| (self.entries@[i].name@, string_views(self.entries@[i].remembered@)),
        )
    }
}

/// Where `name` is kept: its first entry, or one past the end where it has
/// none.
pub open spec fn name_index(c: Seq<(Seq<char>, Seq<Seq<char>>)>, name: Seq<char>) -> int {
    if exists|i: int| 0 <= i < c.len() && (#[trigger] c[i]).0 == name {
        choose|i: int|
            0 <= i < c.len() && (#[trigger] c[i]).0 == name && forall|j: int|
                0 <= j < i ==> c[j].0 != name
    } else {
        c.len() as int
    }
}

/// The cache with an empty entry for `name` at the end where it has none.
pub open spec fn with_name(c: Seq<(Seq<char>, Seq<Seq<char>>)>, name: Seq<char>) -> Seq<
    (Seq<char>, Seq<Seq<char>>),
> {
    if name_index(c, name) < c.len() {
        c
    } else {
        c.push((name, Seq::empty()))
    }
}

fn find_name(cache: &Cache, name: &String) -> (res: usize)
    ensures
        res == name_index(cache@, name@),
        res <= cache@.len(),
        res < cache@.len() ==> cache@[res as int].0 == name@,
{
    let ghost c = cache@;
    let mut i: usize = 0;
    while i < cache.entries.len()
        invariant
            i <= cache.entries@.len(),
            c == cache@,
            forall|j: int| 0 <= j < i ==> c[j].0 != name@,
        decreases cache.entries@.len() - i,
    {
        if cache.entries[i].name == *name {
            assert(c[i as int].0 == name@);
            proof {
                let k = choose|k: int|
                    0 <= k < c.len() && (#[trigger] c[k]).0 == name@ && forall|j: int|
                        0 <= j < k ==> c[j].0 != name@;
                assert(c[i as int].0 == name@ && forall|j: int| 0 <= j < i ==> c[j].0 != name@);
                if k < i {
                    assert(c[k].0 != name@);
                }
                if i < k {
                    assert(c[i as int].0 != name@);
                }
            }
            return i;
        }
        i = i + 1;
    }
    i
}

/// Whether `propose_cached` works out its counts without overflowing.
pub fn can_propose_cached(
    cache: &Cache,
    name: &String,
    lines: &Vec<String>,
    consider: Consideration,
    amount_of: Option<Consideration>,
) -> (res: bool)
    ensures
        res == proposal_fits(
            string_views(lines@),
            with_name(cache@, name@)[name_index(cache@, name@)].1,
            consider,
            amount_of,
        ),
{
    let i = find_name(cache, name);
    if i < cache.entries.len() {
        can_propose(lines, &cache.entries[i].remembered, consider, amount_of)
    } else {
        let empty: Vec<String> = Vec::new();
        assert(string_views(empty@) =~= Seq::<Seq<char>>::empty());
        can_propose(lines, &empty, consider, amount_of)
    }
}

/// Proposes lines as `propose` does, with the remembered picks kept in the
/// cache under `name` (an empty entry is added where there is none).
#[verifier::spinoff_prover]
#[verifier::rlimit(60)]
pub fn propose_cached(
    cache: &mut Cache,
    name: &String,
    lines: &Vec<String>,
    consider: Consideration,
    amount_of: Option<Consideration>,
) -> (picked: Vec<String>)
    requires
        proposal_fits(
            string_views(lines@),
            with_name(old(cache)@, name@)[name_index(old(cache)@, name@)].1,
            consider,
            amount_of,
        ),
    ensures
        final(cache)@ == with_name(old(cache)@, name@).update(
            name_index(old(cache)@, name@),
            (name@, final(cache)@[name_index(old(cache)@, name@)].1),
        ),
        proposal_ok(
            string_views(lines@),
            with_name(old(cache)@, name@)[name_index(old(cache)@, name@)].1,
            consider,
            amount_of,
            string_views(picked@),
            final(cache)@[name_index(old(cache)@, name@)].1,
        ),
{
    let ghost c0 = cache@;
    let i = find_name(cache, name);
    if i == cache.entries.len() {
        let empty: Vec<String> = Vec::new();
        assert(string_views(empty@) =~= Seq::<Seq<char>>::empty());
        cache.entries.push(CacheEntry { name: name.clone(), remembered: empty });
        assert(cache@ =~= c0.push((name@, Seq::<Seq<char>>::empty())));
    }
    let ghost c1 = cache@;
    let ghost entries1 = cache.entries@;
    assert(c1 =~= with_name(c0, name@));
    assert(c1[i as int].0 == name@);
    let mut entry = cache.entries.remove(i);
    let picked = propose(lines, &mut entry.remembered, consider, amount_of);
    cache.entries.insert(i, entry);
    assert(cache.entries@ =~= entries1.update(i as int, cache.entries@[i as int]));
    assert(cache@ =~= c1.update(i as int, (name@, cache@[i as int].1)));
    picked
}

/// No more picks are remembered than the input has lines, and none that
/// fit are forgotten.
pub proof fn lemma_remember_len(remembered: Seq<Seq<char>>, picked: Seq<Seq<char>>, line_count: usize)
    ensures
        spec_remember(remembered, picked, line_count).len() == (if remembered.len() + picked.len()
            > line_count {
            line_count as int
        } else {
            (remembered.len() + picked.len()) as int
        }),
{
}

} // verus!
