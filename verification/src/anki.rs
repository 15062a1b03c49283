use vstd::prelude::*;

use crate::text::{
    chars_of, chars_eq, join_chars, join_with, lines_of, spec_lines, trim_ws,
    trim_ws_chars, views,
};

verus! {

broadcast use vstd::string::group_string_axioms;

/// Why a card file is refused.
#[derive(Debug, Clone, Copy, PartialEq, Eq, Structural)]
pub enum AnkiError {
    InvalidDeck,
    InvalidNoteType,
    FieldCount(usize),
}

/// The decks that the check on the first line rejects.
pub open spec fn is_listed_deck(d: Seq<char>) -> bool {
    d == "Once"@ || d == "Freq"@
}

/// The note types that the check on the second line rejects.
pub open spec fn is_listed_note_type(t: Seq<char>) -> bool {
    t == "b"@ || t == "d"@ || t == "f"@ || t == "fb"@ || t == "h"@
}

/// A field with every `"` doubled.
pub open spec fn escape_quotes(s: Seq<char>) -> Seq<char>
    decreases s.len(),
{
    if s.len() == 0 {
        Seq::empty()
    } else if s.last() == '"' {
        escape_quotes(s.drop_last()) + seq!['"', '"']
    } else {
        escape_quotes(s.drop_last()).push(s.last())
    }
}

/// A field as a quoted CSV cell.
pub open spec fn quote_field(s: Seq<char>) -> Seq<char> {
    seq!['"'] + escape_quotes(s) + seq!['"']
}

/// Exactly six fields: the first six, or all of them padded with empty ones.
pub open spec fn six_fields(ls: Seq<Seq<char>>) -> Seq<Seq<char>> {
    if ls.len() >= 6 {
        ls.take(6)
    } else {
        ls + Seq::new((6 - ls.len()) as nat, |i: int| Seq::<char>::empty())
    }
}

/// The trimmed lines of a card file.
pub open spec fn card_lines(contents: Seq<char>) -> Seq<Seq<char>> {
    spec_lines(contents).map_values(|l: Seq<char>| trim_ws(l))
}

/// What a card file gives: refused where its first line is a listed deck,
/// its second a listed note type, or it has four to six lines; otherwise its
/// lines made six, quoted and joined with `|`.
pub open spec fn spec_anki_card(contents: Seq<char>) -> Result<Seq<char>, AnkiError> {
    let ls = card_lines(contents);
    if is_listed_deck(ls[0]) {
        Err(AnkiError::InvalidDeck)
    } else if is_listed_note_type(ls[1]) {
        Err(AnkiError::InvalidNoteType)
    } else if 4 <= ls.len() <= 6 {
        Err(AnkiError::FieldCount(ls.len() as usize))
    } else {
        Ok(join_with(six_fields(ls).map_values(|f: Seq<char>| quote_field(f)), "|"@))
    }
}

/// The card files that the tool reads without failing: a deck line, and a
/// note type line unless the deck is already refused.
pub open spec fn card_readable(contents: Seq<char>) -> bool {
    let ls = spec_lines(contents);
    ls.len() >= 1 && (ls.len() >= 2 || is_listed_deck(trim_ws(ls[0])))
}

pub open spec fn card_result_view(r: Result<String, AnkiError>) -> Result<Seq<char>, AnkiError> {
    match r {
        Ok(s) => Ok(s@),
        Err(e) => Err(e),
    }
}

fn quote(s: &[char]) -> (res: Vec<char>)
    ensures
        res@ == quote_field(s@),
{
    let mut out: Vec<char> = Vec::new();
    out.push('"');
    let mut i: usize = 0;
    while i < s.len()
        invariant
            i <= s@.len(),
            out@ == seq!['"'] + escape_quotes(s@.take(i as int)),
        decreases s@.len() - i,
    {
        assert(s@.take(i as int + 1).drop_last() =~= s@.take(i as int));
        assert(s@.take(i as int + 1).last() == s@[i as int]);
        if s[i] == '"' {
            out.push('"');
            out.push('"');
        } else {
            out.push(s[i]);
        }
        i = i + 1;
        assert(out@ =~= seq!['"'] + escape_quotes(s@.take(i as int)));
    }
    assert(s@.take(s@.len() as int) =~= s@);
    out.push('"');
    assert(out@ =~= quote_field(s@));
    out
}

fn is_any(s: &[char], options: &[&str]) -> (res: bool)
    ensures
        res == exists|k: int| 0 <= k < options@.len() && s@ == options@[k]@,
{
    let mut k: usize = 0;
    while k < options.len()
        invariant
            k <= options@.len(),
            forall|j: int| 0 <= j < k ==> s@ != options@[j]@,
        decreases options@.len() - k,
    {
        let o = chars_of(options[k]);
        if chars_eq(s, o.as_slice()) {
            return true;
        }
        k = k + 1;
    }
    false
}

/// Turns a card file into the `|`-separated line that the importer reads.
pub fn anki_card(contents: &str) -> (res: Result<String, AnkiError>)
    requires
        card_readable(contents@),
    ensures
        card_result_view(res) == spec_anki_card(contents@),
{
    let cs = chars_of(contents);
    let raw = lines_of(cs.as_slice());
    let ghost ls = card_lines(contents@);
    let mut lines: Vec<Vec<char>> = Vec::new();
    let mut i: usize = 0;
    while i < raw.len()
        invariant
            i <= raw@.len(),
            views(raw@) == spec_lines(contents@),
            ls == card_lines(contents@),
            views(lines@) == ls.take(i as int),
        decreases raw@.len() - i,
    {
        let t = trim_ws_chars(raw[i].as_slice());
        let ghost before = lines@;
        lines.push(vstd::slice::slice_to_vec(t));
        assert(views(lines@) =~= views(before).push(t@));
        assert(views(lines@) =~= ls.take(i as int + 1));
        i = i + 1;
    }
    assert(ls.take(raw@.len() as int) =~= ls);
    assert(views(lines@)[0] == lines@[0]@);
    let decks: [&str; 2] = ["Once", "Freq"];
    if is_any(lines[0].as_slice(), decks.as_slice()) {
        proof {
            let k = choose|k: int| 0 <= k < decks@.len() && lines@[0]@ == decks@[k]@;
            assert(k == 0 || k == 1);
        }
        return Err(AnkiError::InvalidDeck);
    }
    assert(!is_listed_deck(ls[0])) by {
        assert(decks@[0]@ == "Once"@ && decks@[1]@ == "Freq"@);
    }
    assert(views(lines@)[1] == lines@[1]@);
    let types: [&str; 5] = ["b", "d", "f", "fb", "h"];
    if is_any(lines[1].as_slice(), types.as_slice()) {
        proof {
            let k = choose|k: int| 0 <= k < types@.len() && lines@[1]@ == types@[k]@;
            assert(0 <= k < 5);
        }
        return Err(AnkiError::InvalidNoteType);
    }
    assert(!is_listed_note_type(ls[1])) by {
        assert(types@[0]@ == "b"@ && types@[1]@ == "d"@ && types@[2]@ == "f"@ && types@[3]@
            == "fb"@ && types@[4]@ == "h"@);
    }
    let n = lines.len();
    if 4 <= n && n <= 6 {
        return Err(AnkiError::FieldCount(n));
    }
    let ghost six = six_fields(ls);
    let mut cells: Vec<Vec<char>> = Vec::new();
    let empty: Vec<char> = Vec::new();
    let mut k: usize = 0;
    while k < 6
        invariant
            k <= 6,
            n == lines@.len(),
            views(lines@) == ls,
            six == six_fields(ls),
            empty@ == Seq::<char>::empty(),
            views(cells@) == six.take(k as int).map_values(|f: Seq<char>| quote_field(f)),
        decreases 6 - k,
    {
        let field: &[char] = if k < n {
            lines[k].as_slice()
        } else {
            empty.as_slice()
        };
        assert(field@ == six[k as int]);
        let q = quote(field);
        let ghost before = cells@;
        cells.push(q);
        assert(views(cells@) =~= views(before).push(q@));
        assert(views(cells@) =~= six.take(k as int + 1).map_values(|f: Seq<char>| quote_field(f)));
        k = k + 1;
    }
    assert(six.take(6) =~= six);
    let bar = chars_of("|");
    Ok(join_chars(cells.as_slice(), bar.as_slice()))
}

/// Whether the tool reads a card file without failing.
pub fn card_file_readable(contents: &str) -> (res: bool)
    ensures
        res == card_readable(contents@),
{
    let cs = chars_of(contents);
    let raw = lines_of(cs.as_slice());
    if raw.len() == 0 {
        return false;
    }
    if raw.len() >= 2 {
        return true;
    }
    assert(views(raw@)[0] == raw@[0]@);
    let first = trim_ws_chars(raw[0].as_slice());
    let decks: [&str; 2] = ["Once", "Freq"];
    let listed = is_any(first, decks.as_slice());
    proof {
        assert(decks@[0]@ == "Once"@ && decks@[1]@ == "Freq"@);
        if listed {
            let k = choose|k: int| 0 <= k < decks@.len() && first@ == decks@[k]@;
            assert(k == 0 || k == 1);
        }
    }
    listed
}

} // verus!
