use vstd::prelude::*;

use crate::text::{
    chars_of, trim_ws, trim_ws_chars, dec, lemma_dec_reads_back, lemma_parse_usize_dec, lemma_split_on_concat,
    lemma_split_on_len, lemma_split_on_single, lines_of, parse_usize, push_chars,
    spec_lines, spec_parse_usize, split_chars, split_on, string_of, usize_to_chars, views,
};

verus! {

broadcast use vstd::string::group_string_axioms;

// ---------------------------------------------------------------------------
// Diagnostic locations (`path:line:column`)
// ---------------------------------------------------------------------------

/// A place in a file that a diagnostic points at.
#[derive(Debug, PartialEq)]
pub struct DiagInfo {
    pub path: String,
    pub line: usize,
    pub column: usize,
}

pub struct DiagView {
    pub path: Seq<char>,
    pub line: usize,
    pub column: usize,
}

impl View for DiagInfo {
    type V = DiagView;

    open spec fn view(&self) -> DiagView {
        DiagView { path: self.path@, line: self.line, column: self.column }
    }
}

/// Why a line is no diagnostic location.
#[derive(Debug, Clone, Copy, PartialEq, Eq, Structural)]
pub enum DiagError {
    LineMissing,
    LineInvalid,
    ColumnMissing,
    ColumnInvalid,
}

/// What reading `path:line:column` gives: the text up to the first colon is
/// the path, the next two pieces must read as numbers, and any further
/// pieces are ignored.
pub open spec fn spec_diag(s: Seq<char>) -> Result<DiagView, DiagError> {
    let p = split_on(s, ':');
    if p.len() < 2 {
        Err(DiagError::LineMissing)
    } else {
        match spec_parse_usize(p[1]) {
            None => Err(DiagError::LineInvalid),
            Some(line) => {
                if p.len() < 3 {
                    Err(DiagError::ColumnMissing)
                } else {
                    match spec_parse_usize(p[2]) {
                        None => Err(DiagError::ColumnInvalid),
                        Some(column) => Ok(DiagView { path: p[0], line, column }),
                    }
                }
            },
        }
    }
}

pub open spec fn diag_result_view(r: Result<DiagInfo, DiagError>) -> Result<DiagView, DiagError> {
    match r {
        Ok(d) => Ok(d@),
        Err(e) => Err(e),
    }
}

/// How a location is written out: `path:line:column`.
pub open spec fn diag_text(d: DiagView) -> Seq<char> {
    d.path + seq![':'] + dec(d.line as nat) + seq![':'] + dec(d.column as nat)
}

impl DiagInfo {
    /// Reads `path:line:column`.
    pub fn try_from(value: &str) -> (res: Result<Self, DiagError>)
        ensures
            diag_result_view(res) == spec_diag(value@),
    {
        let cs = chars_of(value);
        let pieces = split_chars(cs.as_slice(), ':');
        proof {
            lemma_split_on_len(cs@, ':');
        }
        if pieces.len() < 2 {
            return Err(DiagError::LineMissing);
        }
        assert(views(pieces@)[1] == pieces@[1]@);
        let line = match parse_usize(pieces[1].as_slice()) {
            None => {
                return Err(DiagError::LineInvalid);
            },
            Some(l) => l,
        };
        if pieces.len() < 3 {
            return Err(DiagError::ColumnMissing);
        }
        assert(views(pieces@)[2] == pieces@[2]@);
        let column = match parse_usize(pieces[2].as_slice()) {
            None => {
                return Err(DiagError::ColumnInvalid);
            },
            Some(c) => c,
        };
        assert(views(pieces@)[0] == pieces@[0]@);
        Ok(DiagInfo { path: string_of(pieces[0].as_slice()), line, column })
    }

    /// Writes the location out as `path:line:column`.
    pub fn to_string(&self) -> (res: String)
        ensures
            res@ == diag_text(self@),
    {
        let mut out = String::new();
        push_chars(&mut out, chars_of(self.path.as_str()).as_slice());
        let colon: Vec<char> = vec![':'];
        assert(colon@ =~= seq![':']);
        push_chars(&mut out, colon.as_slice());
        push_chars(&mut out, usize_to_chars(self.line).as_slice());
        push_chars(&mut out, colon.as_slice());
        push_chars(&mut out, usize_to_chars(self.column).as_slice());
        assert(out@ =~= diag_text(self@));
        out
    }
}

/// Reading back a written location gives the location, wherever its path
/// holds no colon.
pub proof fn lemma_diag_round_trip(d: DiagView)
    requires
        !d.path.contains(':'),
    ensures
        spec_diag(diag_text(d)) == Ok::<DiagView, DiagError>(d),
{
    let l = dec(d.line as nat);
    let c = dec(d.column as nat);
    lemma_dec_reads_back(d.line as nat);
    lemma_dec_reads_back(d.column as nat);
    lemma_parse_usize_dec(d.line);
    lemma_parse_usize_dec(d.column);
    assert(diag_text(d) =~= d.path + seq![':'] + (l + seq![':'] + c));
    lemma_split_on_concat(d.path, l + seq![':'] + c, ':');
    lemma_split_on_concat(l, c, ':');
    lemma_split_on_single(d.path, ':');
    lemma_split_on_single(l, ':');
    lemma_split_on_single(c, ':');
    let p = split_on(diag_text(d), ':');
    assert(p =~= seq![d.path, l, c]);
}

/// The lines of a locations file that read as locations, in order.
pub open spec fn locations_of(ls: Seq<Seq<char>>) -> Seq<DiagView>
    decreases ls.len(),
{
    if ls.len() == 0 {
        Seq::empty()
    } else {
        let out = locations_of(ls.drop_last());
        match spec_diag(ls.last()) {
            Ok(d) => out.push(d),
            Err(_) => out,
        }
    }
}

pub open spec fn diag_views(v: Seq<DiagInfo>) -> Seq<DiagView> {
    Seq::new(v.len(), |i: int| v[i]@)
}

/// The locations in a locations file, one per readable line.
pub fn parse_locations(text: &str) -> (res: Vec<DiagInfo>)
    ensures
        diag_views(res@) == locations_of(spec_lines(text@)),
{
    let cs = chars_of(text);
    let lines = lines_of(cs.as_slice());
    let ghost ls = views(lines@);
    let mut out: Vec<DiagInfo> = Vec::new();
    let mut i: usize = 0;
    assert(ls.take(0) =~= Seq::<Seq<char>>::empty());
    while i < lines.len()
        invariant
            i <= lines@.len(),
            ls == views(lines@),
            diag_views(out@) == locations_of(ls.take(i as int)),
        decreases lines@.len() - i,
    {
        assert(ls.take(i as int + 1).drop_last() =~= ls.take(i as int));
        assert(ls.take(i as int + 1).last() == lines@[i as int]@);
        let line = string_of(lines[i].as_slice());
        match DiagInfo::try_from(line.as_str()) {
            Ok(d) => {
                let ghost before = out@;
                out.push(d);
                assert(diag_views(out@) =~= diag_views(before).push(d@));
            },
            Err(_) => {},
        }
        i = i + 1;
    }
    assert(ls.take(lines@.len() as int) =~= ls);
    out
}

// ---------------------------------------------------------------------------
// Moving between locations
// ---------------------------------------------------------------------------

/// Which location to move to.
#[derive(Debug, Clone, Copy, PartialEq, Eq, Structural)]
pub enum Action {
    First,
    Next,
    Prev,
}

/// The remembered position, where it reads as a number below the number of
/// locations.
pub open spec fn spec_current_index(content: Seq<char>, len: usize) -> Option<usize> {
    match spec_parse_usize(trim_ws(content)) {
        Some(i) => if i < len {
            Some(i)
        } else {
            None
        },
        None => None,
    }
}

/// Reads the remembered position out of its file's content.
pub fn parse_current_index(content: &str, len: usize) -> (res: Option<usize>)
    ensures
        res == spec_current_index(content@, len),
{
    let cs = chars_of(content);
    match parse_usize(trim_ws_chars(cs.as_slice())) {
        Some(i) => if i < len {
            Some(i)
        } else {
            None
        },
        None => None,
    }
}

/// The position to move to: with no valid current position, the first;
/// otherwise the next (staying on the last), the previous (staying on the
/// first) or the first.
pub open spec fn spec_targeted_index(action: Action, current: Option<usize>, len: usize) -> int {
    match current {
        None => 0,
        Some(c) => match action {
            Action::Next => {
                let last: int = if len >= 1 { len - 1 } else { 0 };
                if c + 1 < last {
                    c + 1
                } else {
                    last
                }
            },
            Action::Prev => if c >= 1 {
                c - 1
            } else {
                0
            },
            Action::First => 0,
        },
    }
}

/// Picks the location to move to.
pub fn targeted_index(action: Action, current: Option<usize>, len: usize) -> (res: usize)
    requires
        current matches Some(c) ==> c < len,
    ensures
        res == spec_targeted_index(action, current, len),
        len > 0 ==> res < len,
{
    match current {
        None => 0,
        Some(c) => match action {
            Action::Next => {
                let last = if len >= 1 { len - 1 } else { 0 };
                if c + 1 < last {
                    c + 1
                } else {
                    last
                }
            },
            Action::Prev => if c >= 1 {
                c - 1
            } else {
                0
            },
            Action::First => 0,
        },
    }
}

} // verus!
