use vstd::prelude::*;

use crate::text::{
    all_digits, chars_of, is_digit, join_chars, join_with, lemma_split_on_len, parse_usize,
    push_chars, spec_parse_usize, split_chars, split_on, str_eq, string_of, string_views, views,
};

verus! {

broadcast use vstd::string::group_string_axioms;

// ---------------------------------------------------------------------------
// What the URL parser hands back
// ---------------------------------------------------------------------------

/// `Url::parse(input)` succeeds.
pub uninterp spec fn url_parses(input: Seq<char>) -> bool;

/// `host_str()` of the URL that `Url::parse(input)` gives.
pub uninterp spec fn url_host(input: Seq<char>) -> Option<Seq<char>>;

/// `fragment()` of the URL that `Url::parse(input)` gives.
pub uninterp spec fn url_fragment(input: Seq<char>) -> Option<Seq<char>>;

/// `path_segments()` of the URL that `Url::parse(input)` gives, collected.
pub uninterp spec fn url_path_segments(input: Seq<char>) -> Option<Seq<Seq<char>>>;

/// The parts of a parsed URL that a GitHub link is read from, as plain values.
pub struct UrlParts {
    pub host: Option<String>,
    pub fragment: Option<String>,
    pub segments: Option<Vec<String>>,
}

pub struct UrlPartsView {
    pub host: Option<Seq<char>>,
    pub fragment: Option<Seq<char>>,
    pub segments: Option<Seq<Seq<char>>>,
}

pub open spec fn opt_view(o: Option<String>) -> Option<Seq<char>> {
    match o {
        Some(s) => Some(s@),
        None => None,
    }
}

impl View for UrlParts {
    type V = UrlPartsView;

    open spec fn view(&self) -> UrlPartsView {
        UrlPartsView {
            host: opt_view(self.host),
            fragment: opt_view(self.fragment),
            segments: match self.segments {
                Some(v) => Some(string_views(v@)),
                None => None,
            },
        }
    }
}

pub open spec fn opt_parts_view(o: Option<UrlParts>) -> Option<UrlPartsView> {
    match o {
        Some(p) => Some(p@),
        None => None,
    }
}

/// What the URL parser makes of `input`, read through the names above.
pub open spec fn url_parts_of(input: Seq<char>) -> Option<UrlPartsView> {
    if url_parses(input) {
        Some(
            UrlPartsView {
                host: url_host(input),
                fragment: url_fragment(input),
                segments: url_path_segments(input),
            },
        )
    } else {
        None
    }
}

/// Calls `url::Url::parse` and, where it succeeds, reads `host_str`,
/// `fragment` and `path_segments` of the result into plain values. The
/// contract claims only that these are the named results of those calls on
/// `input`; what the WHATWG URL grammar makes of a string is left unsaid.
#[verifier::external_body]
fn parse_url_parts(input: &str) -> (res: Option<UrlParts>)
    ensures
        res is Some <==> url_parses(input@),
        res matches Some(p) ==> {
            &&& p@.host == url_host(input@)
            &&& p@.fragment == url_fragment(input@)
            &&& p@.segments == url_path_segments(input@)
        },
{
    match url::Url::parse(input) {
        Err(_) => None,
        Ok(url) => Some(UrlParts {
            host: url.host_str().map(String::from),
            fragment: url.fragment().map(String::from),
            segments: url.path_segments().map(|s| s.map(String::from).collect()),
        }),
    }
}

// ---------------------------------------------------------------------------
// Reading a GitHub link
// ---------------------------------------------------------------------------

/// Where a link names a repository, and possibly a branch or path and a line.
#[derive(Debug, PartialEq)]
pub struct RepoInfo {
    pub this: String,
    pub repo: String,
    pub brath: Option<String>,
    pub line: Option<usize>,
}

pub struct RepoInfoView {
    pub this: Seq<char>,
    pub repo: Seq<char>,
    pub brath: Option<Seq<char>>,
    pub line: Option<usize>,
}

impl View for RepoInfo {
    type V = RepoInfoView;

    open spec fn view(&self) -> RepoInfoView {
        RepoInfoView {
            this: self.this@,
            repo: self.repo@,
            brath: opt_view(self.brath),
            line: self.line,
        }
    }
}

/// Why a link could not be read.
#[derive(Debug, Clone, Copy, PartialEq, Eq, Structural)]
pub enum RepoError {
    NoHost,
    NotGithubUrl,
    NoOwnerOrRepo,
    NoOwner,
    NoRepo,
}

pub open spec fn result_view(r: Result<RepoInfo, RepoError>) -> Result<RepoInfoView, RepoError> {
    match r {
        Ok(i) => Ok(i@),
        Err(e) => Err(e),
    }
}

pub open spec fn basic_view(this: Seq<char>, repo: Seq<char>) -> RepoInfoView {
    RepoInfoView { this, repo, brath: None, line: None }
}

/// The digits at the start of `s`, up to the first other character.
pub open spec fn leading_digits(s: Seq<char>) -> Seq<char>
    decreases s.len(),
{
    if s.len() > 0 && is_digit(s[0]) {
        seq![s[0]] + leading_digits(s.drop_first())
    } else {
        Seq::<char>::empty()
    }
}

/// The line that a fragment such as `L15` or `L10-L20` points at.
pub open spec fn fragment_line(f: Seq<char>) -> Option<usize> {
    if f.len() > 0 && f[0] == 'L' {
        spec_parse_usize(leading_digits(f.drop_first()))
    } else {
        None
    }
}

pub open spec fn opt_fragment_line(f: Option<Seq<char>>) -> Option<usize> {
    match f {
        Some(f) => fragment_line(f),
        None => None,
    }
}

/// Path segments after which the rest of the path names a branch, tag or commit.
pub open spec fn is_view_kind(s: Seq<char>) -> bool {
    s == "tree"@ || s == "blob"@ || s == "blame"@ || s == "commit"@
}

/// What reading `provided` gives, where `parts` is what the URL parser made of it.
pub open spec fn spec_repo_info(provided: Seq<char>, parts: Option<UrlPartsView>) -> Result<
    RepoInfoView,
    RepoError,
> {
    match parts {
        None => Ok(basic_view(provided, split_on(provided, '/').last())),
        Some(p) => match p.host {
            None => Err(RepoError::NoHost),
            Some(host) => {
                if host != "raw.githubusercontent.com"@ && host != "github.com"@ {
                    Err(RepoError::NotGithubUrl)
                } else {
                    let was_raw = host == "raw.githubusercontent.com"@;
                    match p.segments {
                        None => Err(RepoError::NoOwnerOrRepo),
                        Some(segs) => {
                            if segs.len() == 0 {
                                Err(RepoError::NoOwner)
                            } else if segs.len() == 1 {
                                Err(RepoError::NoRepo)
                            } else if !was_raw && !(segs.len() > 2 && is_view_kind(segs[2])) {
                                Ok(basic_view(provided, segs[1]))
                            } else {
                                let rest = if was_raw { segs.skip(2) } else { segs.skip(3) };
                                Ok(RepoInfoView {
                                    this: if was_raw {
                                        "https://github.com/"@ + segs[0] + seq!['/'] + segs[1]
                                    } else {
                                        provided
                                    },
                                    repo: segs[1],
                                    brath: if rest.len() == 0 {
                                        None
                                    } else {
                                        Some(join_with(rest, seq!['/']))
                                    },
                                    line: opt_fragment_line(p.fragment),
                                })
                            }
                        },
                    }
                }
            },
        },
    }
}

fn leading_digits_of(s: &[char], from: usize) -> (res: Vec<char>)
    requires
        from <= s@.len(),
    ensures
        res@ == leading_digits(s@.skip(from as int)),
{
    let mut out: Vec<char> = Vec::new();
    let mut i: usize = from;
    while i < s.len() && '0' <= s[i] && s[i] <= '9'
        invariant
            from <= i <= s@.len(),
            leading_digits(s@.skip(from as int)) == out@ + leading_digits(s@.skip(i as int)),
        decreases s@.len() - i,
    {
        assert(s@.skip(i as int).drop_first() =~= s@.skip(i as int + 1));
        out.push(s[i]);
        i = i + 1;
    }
    assert(out@ + leading_digits(s@.skip(i as int)) =~= out@);
    out
}

fn line_of_fragment(f: &str) -> (res: Option<usize>)
    ensures
        res == fragment_line(f@),
{
    let cs = chars_of(f);
    if cs.len() == 0 || cs[0] != 'L' {
        return None;
    }
    let digits = leading_digits_of(cs.as_slice(), 1);
    assert(cs@.skip(1) =~= cs@.drop_first());
    parse_usize(digits.as_slice())
}

fn is_view_kind_str(s: &str) -> (res: bool)
    ensures
        res == is_view_kind(s@),
{
    str_eq(s, "tree") || str_eq(s, "blob") || str_eq(s, "blame") || str_eq(s, "commit")
}

impl RepoInfo {
    /// A repository with no branch, path or line.
    pub fn basic(this: &str, repo: &str) -> (res: Self)
        ensures
            res@ == basic_view(this@, repo@),
    {
        RepoInfo { this: this.to_owned(), repo: repo.to_owned(), brath: None, line: None }
    }

    /// A repository with a branch, tag, commit or path in it.
    pub fn brath(this: &str, repo: &str, brath: &str) -> (res: Self)
        ensures
            res@ == (RepoInfoView { this: this@, repo: repo@, brath: Some(brath@), line: None }),
    {
        RepoInfo {
            this: this.to_owned(),
            repo: repo.to_owned(),
            brath: Some(brath.to_owned()),
            line: None,
        }
    }

    /// A repository with a branch or path and a line in it.
    pub fn line(this: &str, repo: &str, brath: &str, line: usize) -> (res: Self)
        ensures
            res@ == (RepoInfoView {
                this: this@,
                repo: repo@,
                brath: Some(brath@),
                line: Some(line),
            }),
    {
        RepoInfo {
            this: this.to_owned(),
            repo: repo.to_owned(),
            brath: Some(brath.to_owned()),
            line: Some(line),
        }
    }

    /// Reads a link, or a bare `owner/repo` or `repo`, given what the URL
    /// parser made of it.
    pub fn from_url_parts(provided_url: &str, parts: Option<UrlParts>) -> (res: Result<
        Self,
        RepoError,
    >)
        ensures
            result_view(res) == spec_repo_info(provided_url@, opt_parts_view(parts)),
    {
        let p = match parts {
            None => {
                let cs = chars_of(provided_url);
                let pieces = split_chars(cs.as_slice(), '/');
                proof {
                    lemma_split_on_len(cs@, '/');
                }
                let last = &pieces[pieces.len() - 1];
                assert(views(pieces@)[pieces@.len() - 1] == last@);
                return Ok(RepoInfo {
                    this: provided_url.to_owned(),
                    repo: string_of(last.as_slice()),
                    brath: None,
                    line: None,
                });
            },
            Some(p) => p,
        };
        let host = match &p.host {
            None => {
                return Err(RepoError::NoHost);
            },
            Some(h) => h,
        };
        let was_raw = if str_eq(host.as_str(), "raw.githubusercontent.com") {
            true
        } else if str_eq(host.as_str(), "github.com") {
            false
        } else {
            return Err(RepoError::NotGithubUrl);
        };
        let line = match &p.fragment {
            None => None,
            Some(f) => line_of_fragment(f.as_str()),
        };
        let segs = match &p.segments {
            None => {
                return Err(RepoError::NoOwnerOrRepo);
            },
            Some(s) => s,
        };
        if segs.len() == 0 {
            return Err(RepoError::NoOwner);
        }
        if segs.len() == 1 {
            return Err(RepoError::NoRepo);
        }
        let owner = &segs[0];
        let repo = &segs[1];
        if !was_raw {
            let kind_ok = segs.len() > 2 && is_view_kind_str(segs[2].as_str());
            if !kind_ok {
                return Ok(RepoInfo {
                    this: provided_url.to_owned(),
                    repo: repo.clone(),
                    brath: None,
                    line: None,
                });
            }
        }
        let start: usize = if was_raw { 2 } else { 3 };
        let mut rest: Vec<Vec<char>> = Vec::new();
        let mut i: usize = start;
        while i < segs.len()
            invariant
                start <= i <= segs@.len(),
                views(rest@) == string_views(segs@).subrange(start as int, i as int),
            decreases segs@.len() - i,
        {
            let piece = chars_of(segs[i].as_str());
            assert(piece@ == string_views(segs@)[i as int]);
            let ghost before = rest@;
            rest.push(piece);
            assert(views(rest@) =~= views(before).push(piece@));
            i = i + 1;
            assert(views(rest@) =~= string_views(segs@).subrange(start as int, i as int));
        }
        assert(string_views(segs@).subrange(start as int, segs@.len() as int)
            =~= string_views(segs@).skip(start as int));
        let brath = if rest.len() == 0 {
            None
        } else {
            let sep: Vec<char> = vec!['/'];
            assert(sep@ =~= seq!['/']);
            Some(join_chars(rest.as_slice(), sep.as_slice()))
        };
        let this = if was_raw {
            let mut t = String::new();
            push_chars(&mut t, chars_of("https://github.com/").as_slice());
            push_chars(&mut t, chars_of(owner.as_str()).as_slice());
            let sep: Vec<char> = vec!['/'];
            assert(sep@ =~= seq!['/']);
            push_chars(&mut t, sep.as_slice());
            push_chars(&mut t, chars_of(repo.as_str()).as_slice());
            assert(t@ =~= "https://github.com/"@ + owner@ + seq!['/'] + repo@);
            t
        } else {
            provided_url.to_owned()
        };
        assert(string_views(segs@)[0] == owner@);
        assert(string_views(segs@)[1] == repo@);
        Ok(RepoInfo { this, repo: repo.clone(), brath, line })
    }

    /// Reads a GitHub link (or a bare `owner/repo` or `repo`) into the
    /// repository it names, the branch, tag, commit or path in it, and the
    /// line its fragment points at.
    pub fn try_from(provided_url: &str) -> (res: Result<Self, RepoError>)
        ensures
            result_view(res) == spec_repo_info(provided_url@, url_parts_of(provided_url@)),
    {
        let parts = parse_url_parts(provided_url);
        assert(opt_parts_view(parts) == url_parts_of(provided_url@));
        Self::from_url_parts(provided_url, parts)
    }
}

proof fn lemma_leading_digits_of_run(d: Seq<char>, t: Seq<char>)
    requires
        all_digits(d),
        t.len() == 0 || !is_digit(t[0]),
    ensures
        leading_digits(d + t) == d,
    decreases d.len(),
{
    if d.len() == 0 {
        assert(d + t =~= t);
    } else {
        assert((d + t).drop_first() =~= d.drop_first() + t);
        assert(d[0] == (d + t)[0]);
        lemma_leading_digits_of_run(d.drop_first(), t);
        assert(seq![d[0]] + d.drop_first() =~= d);
    }
}

/// The line a fragment such as `L10-L20` points at is the number spelled by
/// the digits right after the `L`, up to the first other character.
pub proof fn lemma_fragment_line_reads_digit_run(d: Seq<char>, t: Seq<char>)
    requires
        all_digits(d),
        t.len() == 0 || !is_digit(t[0]),
    ensures
        fragment_line(seq!['L'] + d + t) == spec_parse_usize(d),
{
    let f = seq!['L'] + d + t;
    assert(f.drop_first() =~= d + t);
    lemma_leading_digits_of_run(d, t);
}

/// A GitHub link that is read with a line reads it from its fragment: the
/// digits right after the `L`, up to the first other character; a link that
/// names a branch or path always carries that line.
pub proof fn lemma_link_line_from_fragment(
    provided: Seq<char>,
    parts: UrlPartsView,
    d: Seq<char>,
    t: Seq<char>,
)
    requires
        all_digits(d),
        t.len() == 0 || !is_digit(t[0]),
        parts.fragment == Some(seq!['L'] + d + t),
    ensures
        spec_repo_info(provided, Some(parts)) matches Ok(v) ==> v.line is None || v.line
            == spec_parse_usize(d),
        spec_repo_info(provided, Some(parts)) matches Ok(v) ==> (v.brath is Some ==> v.line
            == spec_parse_usize(d)),
{
    lemma_fragment_line_reads_digit_run(d, t);
}

} // verus!
