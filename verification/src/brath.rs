use vstd::prelude::*;

use crate::text::{
    lemma_join_split, starts_with, chars_eq, chars_of, contains_char, join_chars, join_with, lemma_split_on_len, lines_of,
    spec_lines, split_chars, split_on, string_of, string_views, trim_ascii, trim_ascii_chars,
    trim_start_matches, trim_start_matches_chars, views,
};

verus! {

broadcast use vstd::string::group_string_axioms;

// ---------------------------------------------------------------------------
// Branch-like names from `git for-each-ref`
// ---------------------------------------------------------------------------

/// Refs that name no branch of their own.
pub open spec fn is_blocked_ref(l: Seq<char>) -> bool {
    l == "refs/remotes/origin/HEAD"@ || l == "refs/remotes/upstream/HEAD"@ || l == "refs/stash"@
}

/// A ref with the namespaces in front of its name removed, in the order
/// `refs/remotes/upstream/`, `refs/remotes/origin/`, `refs/tags/`, `refs/heads/`.
pub open spec fn ref_short_name(l: Seq<char>) -> Seq<char> {
    trim_start_matches(
        trim_start_matches(
            trim_start_matches(trim_start_matches(l, "refs/remotes/upstream/"@), "refs/remotes/origin/"@),
            "refs/tags/"@,
        ),
        "refs/heads/"@,
    )
}

/// The branch-like names that a run of ref lines gives: each line trimmed of
/// ASCII whitespace, empty and blocked lines dropped, the rest shortened.
pub open spec fn branchlikes_of(ls: Seq<Seq<char>>) -> Seq<Seq<char>>
    decreases ls.len(),
{
    if ls.len() == 0 {
        Seq::empty()
    } else {
        let out = branchlikes_of(ls.drop_last());
        let t = trim_ascii(ls.last());
        if t.len() == 0 || is_blocked_ref(t) {
            out
        } else {
            out.push(ref_short_name(t))
        }
    }
}

fn is_blocked_ref_chars(l: &[char]) -> (res: bool)
    ensures
        res == is_blocked_ref(l@),
{
    let a = chars_of("refs/remotes/origin/HEAD");
    let b = chars_of("refs/remotes/upstream/HEAD");
    let c = chars_of("refs/stash");
    chars_eq(l, a.as_slice()) || chars_eq(l, b.as_slice()) || chars_eq(l, c.as_slice())
}

fn ref_short_name_chars(l: &[char]) -> (res: Vec<char>)
    ensures
        res@ == ref_short_name(l@),
{
    let upstream = chars_of("refs/remotes/upstream/");
    let origin = chars_of("refs/remotes/origin/");
    let tags = chars_of("refs/tags/");
    let heads = chars_of("refs/heads/");
    let s1 = trim_start_matches_chars(l, upstream.as_slice());
    let s2 = trim_start_matches_chars(s1.as_slice(), origin.as_slice());
    let s3 = trim_start_matches_chars(s2.as_slice(), tags.as_slice());
    trim_start_matches_chars(s3.as_slice(), heads.as_slice())
}

/// The branch-like names (local and remote branches, tags) in the output of
/// `git for-each-ref`, one per ref line, in order.
pub fn refs_into_branchlikes(refile: &str) -> (res: Vec<String>)
    ensures
        string_views(res@) == branchlikes_of(spec_lines(refile@)),
{
    let cs = chars_of(refile);
    let lines = lines_of(cs.as_slice());
    let ghost ls = views(lines@);
    let mut out: Vec<String> = Vec::new();
    let mut i: usize = 0;
    assert(ls.take(0) =~= Seq::<Seq<char>>::empty());
    while i < lines.len()
        invariant
            i <= lines@.len(),
            ls == views(lines@),
            string_views(out@) == branchlikes_of(ls.take(i as int)),
        decreases lines@.len() - i,
    {
        assert(ls.take(i as int + 1).drop_last() =~= ls.take(i as int));
        assert(ls.take(i as int + 1).last() == lines@[i as int]@);
        let t = trim_ascii_chars(lines[i].as_slice());
        if t.len() != 0 && !is_blocked_ref_chars(t.as_slice()) {
            let name = ref_short_name_chars(t.as_slice());
            let ghost before = out@;
            out.push(string_of(name.as_slice()));
            assert(string_views(out@) =~= string_views(before).push(name@));
        }
        i = i + 1;
    }
    assert(ls.take(lines@.len() as int) =~= ls);
    out
}

// ---------------------------------------------------------------------------
// Which prefix of a `branch/path` names a branch
// ---------------------------------------------------------------------------

/// The joins of the first `i - 1`, `i - 2`, ..., `0` pieces, empty ones left out.
pub open spec fn prefix_joins(p: Seq<Seq<char>>, i: int) -> Seq<Seq<char>>
    decreases i,
{
    if i <= 0 {
        Seq::empty()
    } else {
        let the = join_with(p.take(i - 1), "/"@);
        if the.len() > 0 {
            seq![the] + prefix_joins(p, i - 1)
        } else {
            prefix_joins(p, i - 1)
        }
    }
}

/// The candidate branch names in a `branch/path`, longest first: every
/// proper prefix made of whole `/`-separated pieces, or the text itself
/// where it has no `/`.
pub open spec fn potentials_of(brath: Seq<char>) -> Seq<Seq<char>> {
    if !brath.contains('/') {
        seq![brath]
    } else {
        let p = split_on(brath, '/');
        prefix_joins(p, p.len() as int)
    }
}

/// Splits a `branch/path` into the branch names it could start with,
/// longest first.
pub fn brath_into_potentials(brath: &str) -> (res: Vec<String>)
    ensures
        string_views(res@) == potentials_of(brath@),
{
    let cs = chars_of(brath);
    if !contains_char(cs.as_slice(), '/') {
        let mut v: Vec<String> = Vec::new();
        v.push(brath.to_owned());
        assert(string_views(v@) =~= seq![brath@]);
        return v;
    }
    let pieces = split_chars(cs.as_slice(), '/');
    let ghost p = views(pieces@);
    let sep = chars_of("/");
    let mut out: Vec<String> = Vec::new();
    let mut i: usize = pieces.len();
    assert(prefix_joins(p, p.len() as int) =~= string_views(out@) + prefix_joins(p, i as int));
    while i > 0
        invariant
            i <= pieces@.len(),
            p == views(pieces@),
            sep@ == "/"@,
            prefix_joins(p, p.len() as int) == string_views(out@) + prefix_joins(p, i as int),
        decreases i,
    {
        let first = vstd::slice::slice_subrange(pieces.as_slice(), 0, i - 1);
        assert(views(first@) =~= p.take(i - 1));
        let the = join_chars(first, sep.as_slice());
        if !the.as_str().is_empty() {
            let ghost before = out@;
            out.push(the);
            assert(string_views(out@) =~= string_views(before).push(the@));
            assert(seq![the@] + prefix_joins(p, i - 1) == prefix_joins(p, i as int));
            assert(string_views(out@) + prefix_joins(p, i - 1) =~= string_views(before) + (seq![
                the@,
            ] + prefix_joins(p, i - 1)));
        }
        i = i - 1;
    }
    assert(prefix_joins(p, 0) =~= Seq::<Seq<char>>::empty());
    assert(string_views(out@) + Seq::<Seq<char>>::empty() =~= string_views(out@));
    out
}

/// The first potential, in order, that is also a branch-like name.
pub open spec fn first_known(potentials: Seq<Seq<char>>, branchlikes: Seq<Seq<char>>) -> Option<
    Seq<char>,
>
    decreases potentials.len(),
{
    if potentials.len() == 0 {
        None
    } else if branchlikes.contains(potentials[0]) {
        Some(potentials[0])
    } else {
        first_known(potentials.drop_first(), branchlikes)
    }
}

pub open spec fn opt_string_view(o: Option<String>) -> Option<Seq<char>> {
    match o {
        Some(s) => Some(s@),
        None => None,
    }
}

/// The first of the potentials that names an existing branch-like.
pub fn resolve_ref(branchlikes: &Vec<String>, potentials: &Vec<String>) -> (res: Option<String>)
    ensures
        opt_string_view(res) == first_known(string_views(potentials@), string_views(branchlikes@)),
{
    let ghost ps = string_views(potentials@);
    let ghost bs = string_views(branchlikes@);
    let mut i: usize = 0;
    assert(ps.skip(0) =~= ps);
    while i < potentials.len()
        invariant
            i <= potentials@.len(),
            ps == string_views(potentials@),
            bs == string_views(branchlikes@),
            first_known(ps, bs) == first_known(ps.skip(i as int), bs),
        decreases potentials@.len() - i,
    {
        let potential = &potentials[i];
        assert(ps.skip(i as int)[0] == potential@);
        assert(ps.skip(i as int).drop_first() =~= ps.skip(i as int + 1));
        let mut j: usize = 0;
        while j < branchlikes.len()
            invariant
                j <= branchlikes@.len(),
                i < potentials@.len(),
                ps == string_views(potentials@),
                bs == string_views(branchlikes@),
                first_known(ps, bs) == first_known(ps.skip(i as int), bs),
                ps.skip(i as int)[0] == potential@,
                forall|k: int| 0 <= k < j ==> bs[k] != potential@,
            decreases branchlikes@.len() - j,
        {
            if *potential == branchlikes[j] {
                assert(bs[j as int] == potential@);
                assert(bs.contains(potential@));
                return Some(potential.clone());
            }
            j = j + 1;
        }
        assert(!bs.contains(potential@));
        i = i + 1;
    }
    assert(ps.skip(i as int).len() == 0);
    None
}

/// Whatever `resolve_ref` answers is one of the potentials and one of the
/// branch-likes; it answers `None` only where the two have nothing in common.
pub proof fn lemma_first_known_is_common(potentials: Seq<Seq<char>>, branchlikes: Seq<Seq<char>>)
    ensures
        first_known(potentials, branchlikes) matches Some(x) ==> potentials.contains(x)
            && branchlikes.contains(x),
        first_known(potentials, branchlikes) is None <==> (forall|x: Seq<char>|
            potentials.contains(x) ==> !branchlikes.contains(x)),
    decreases potentials.len(),
{
    if potentials.len() > 0 {
        lemma_first_known_is_common(potentials.drop_first(), branchlikes);
        assert(potentials[0] == potentials[0]);
        if let Some(x) = first_known(potentials.drop_first(), branchlikes) {
            assert(potentials.drop_first().contains(x));
            let k = choose|k: int| 0 <= k < potentials.drop_first().len() && potentials.drop_first()[k] == x;
            assert(potentials[k + 1] == x);
        }
        assert forall|x: Seq<char>| potentials.contains(x) && x != potentials[0] implies potentials.drop_first().contains(x) by {
            let k = choose|k: int| 0 <= k < potentials.len() && potentials[k] == x;
            assert(potentials.drop_first()[k - 1] == x);
        }
    }
}

/// The last potential, the shortest prefix: what is tried as a commit where
/// no potential names a branch-like.
pub fn commit_candidate(potentials: &Vec<String>) -> (res: Option<String>)
    ensures
        opt_string_view(res) == (if potentials@.len() == 0 {
            None
        } else {
            Some(potentials@.last()@)
        }),
{
    if potentials.len() == 0 {
        None
    } else {
        Some(potentials[potentials.len() - 1].clone())
    }
}

/// Joining `p` is joining its first `i` pieces, a separator, and the rest.
proof fn lemma_join_at(p: Seq<Seq<char>>, i: int, sep: Seq<char>)
    requires
        1 <= i < p.len(),
    ensures
        join_with(p, sep) == join_with(p.take(i), sep) + sep + join_with(p.skip(i), sep),
    decreases p.len(),
{
    if i == p.len() - 1 {
        assert(p.drop_last() =~= p.take(i));
        assert(p.skip(i) =~= seq![p.last()]);
    } else {
        lemma_join_at(p.drop_last(), i, sep);
        assert(p.drop_last().take(i) =~= p.take(i));
        assert(p.skip(i).drop_last() =~= p.drop_last().skip(i));
        assert(p.skip(i).last() == p.last());
    }
}

/// Every element of `prefix_joins(p, i)` joins the first `m` pieces, for
/// some `m` from one up to `i - 1`.
proof fn lemma_prefix_joins_elements(p: Seq<Seq<char>>, i: int)
    requires
        i <= p.len(),
    ensures
        forall|k: int|
            0 <= k < prefix_joins(p, i).len() ==> exists|m: int|
                1 <= m < i && #[trigger] prefix_joins(p, i)[k] == join_with(p.take(m), "/"@),
    decreases i,
{
    if i > 0 {
        lemma_prefix_joins_elements(p, i - 1);
        let the = join_with(p.take(i - 1), "/"@);
        let rest = prefix_joins(p, i - 1);
        if the.len() > 0 {
            assert forall|k: int| 0 <= k < prefix_joins(p, i).len() implies exists|m: int|
                1 <= m < i && #[trigger] prefix_joins(p, i)[k] == join_with(p.take(m), "/"@) by {
                if k == 0 {
                    if i - 1 == 0 {
                        assert(p.take(0) =~= Seq::<Seq<char>>::empty());
                    }
                    assert(prefix_joins(p, i)[0] == join_with(p.take(i - 1), "/"@));
                } else {
                    assert(prefix_joins(p, i)[k] == rest[k - 1]);
                }
            }
        }
    }
}

/// Each candidate branch name, followed by `/`, is how the `branch/path`
/// starts.
pub proof fn lemma_potentials_are_prefixes(brath: Seq<char>)
    requires
        brath.contains('/'),
    ensures
        forall|k: int|
            0 <= k < potentials_of(brath).len() ==> starts_with(
                brath,
                #[trigger] potentials_of(brath)[k].push('/'),
            ),
{
    let p = split_on(brath, '/');
    lemma_split_on_len(brath, '/');
    lemma_join_split(brath, '/');
    assert(seq!['/'] =~= "/"@) by {
        reveal_strlit("/");
    }
    lemma_prefix_joins_elements(p, p.len() as int);
    assert forall|k: int| 0 <= k < potentials_of(brath).len() implies starts_with(
        brath,
        #[trigger] potentials_of(brath)[k].push('/'),
    ) by {
        let m = choose|m: int|
            1 <= m < p.len() && #[trigger] prefix_joins(p, p.len() as int)[k] == join_with(
                p.take(m),
                "/"@,
            );
        lemma_join_at(p, m, "/"@);
        let x = join_with(p.take(m), "/"@);
        assert(brath == x + "/"@ + join_with(p.skip(m), "/"@));
        assert(brath.take(x.push('/').len() as int) =~= x.push('/'));
    }
}

} // verus!
