use vstd::prelude::*;

use crate::text::{
    chars_eq, chars_of, first_piece_chars, lines_of, piece_before, push_char, push_chars,
    second_piece, second_piece_chars, spec_lines, views,
};

verus! {

broadcast use vstd::string::group_string_axioms;

/// What separates a link's name from its address in the link file.
pub open spec fn link_sep() -> Seq<char> {
    " \u{2014} "@
}

/// What the link file becomes: the address already listed on a line (its
/// number, counting from one), or the new contents and whether an entry of
/// that name was overwritten.
#[derive(Debug, PartialEq)]
pub enum LinkOutcome {
    Listed(usize),
    Updated { contents: String, replaced: bool },
}

pub enum LinkOutcomeView {
    Listed(usize),
    Updated { contents: Seq<char>, replaced: bool },
}

impl View for LinkOutcome {
    type V = LinkOutcomeView;

    open spec fn view(&self) -> LinkOutcomeView {
        match self {
            LinkOutcome::Listed(n) => LinkOutcomeView::Listed(*n),
            LinkOutcome::Updated { contents, replaced } => LinkOutcomeView::Updated {
                contents: contents@,
                replaced: *replaced,
            },
        }
    }
}

/// The scan over the link file so far.
pub struct LinkScan {
    pub listed_at: Option<int>,
    pub buf: Seq<char>,
    pub replaced: bool,
}

/// One `name — address` entry.
pub open spec fn entry(name: Seq<char>, url: Seq<char>) -> Seq<char> {
    name + link_sep() + url + seq!['\n']
}

/// The scan comes to a line without a name and an address (where the tool
/// fails) before it stops.
pub open spec fn reaches_unreadable(lines: Seq<Seq<char>>, name: Seq<char>, url: Seq<char>) -> bool {
    exists|i: int|
        0 <= i < lines.len() && scan_links(lines.take(i), name, url).listed_at is None
            && second_piece(#[trigger] lines[i], link_sep()) is None
}

/// Goes over the lines: the entry with the new name gets the new address;
/// a line that already has the new address (under another name) stops the
/// scan at its number; other lines stay.
pub open spec fn scan_links(lines: Seq<Seq<char>>, name: Seq<char>, url: Seq<char>) -> LinkScan
    decreases lines.len(),
{
    if lines.len() == 0 {
        LinkScan { listed_at: None, buf: Seq::empty(), replaced: false }
    } else {
        let st = scan_links(lines.drop_last(), name, url);
        if st.listed_at is Some {
            st
        } else {
            let l = lines.last();
            let n = piece_before(l, link_sep());
            if n == name {
                LinkScan { listed_at: None, buf: st.buf + entry(n, url), replaced: true }
            } else if second_piece(l, link_sep()) == Some(url) {
                LinkScan { listed_at: Some(lines.len() as int), ..st }
            } else {
                LinkScan { buf: st.buf + l + seq!['\n'], ..st }
            }
        }
    }
}

/// What adding `name — url` to a link file gives.
pub open spec fn spec_update_links(text: Seq<char>, name: Seq<char>, url: Seq<char>) -> LinkOutcomeView {
    let st = scan_links(spec_lines(text), name, url);
    match st.listed_at {
        Some(n) => LinkOutcomeView::Listed(n as usize),
        None => LinkOutcomeView::Updated {
            contents: if st.replaced {
                st.buf
            } else {
                st.buf + entry(name, url)
            },
            replaced: st.replaced,
        },
    }
}

/// Adds a named link to a link file, or finds where its address already is;
/// `None` where the scan comes to a line without a name and an address.
pub fn try_update_links(text: &str, new_name: &str, new_url: &str) -> (res: Option<LinkOutcome>)
    ensures
        res is None <==> reaches_unreadable(spec_lines(text@), new_name@, new_url@),
        res matches Some(o) ==> o@ == spec_update_links(text@, new_name@, new_url@),
{
    let cs = chars_of(text);
    let lines = lines_of(cs.as_slice());
    let ghost ls = views(lines@);
    let sep = chars_of(" \u{2014} ");
    let name = chars_of(new_name);
    let url = chars_of(new_url);
    let mut buf = String::new();
    let mut replaced = false;
    let mut i: usize = 0;
    assert(ls.take(0) =~= Seq::<Seq<char>>::empty());
    while i < lines.len()
        invariant
            i <= lines@.len(),
            ls == views(lines@),
            ls == spec_lines(text@),
            sep@ == link_sep(),
            name@ == new_name@,
            url@ == new_url@,
            scan_links(ls.take(i as int), new_name@, new_url@) == (LinkScan {
                listed_at: None,
                buf: buf@,
                replaced,
            }),
            forall|k: int| 0 <= k < i ==> second_piece(#[trigger] ls[k], link_sep()) is Some,
        decreases lines@.len() - i,
    {
        assert(ls.take(i as int + 1).drop_last() =~= ls.take(i as int));
        let line = &lines[i];
        assert(ls.take(i as int + 1).last() == line@);
        assert(ls[i as int] == line@);
        let this_name = first_piece_chars(line.as_slice(), sep.as_slice());
        let this_url = match second_piece_chars(line.as_slice(), sep.as_slice()) {
            Some(u) => u,
            None => {
                assert(scan_links(ls.take(i as int), new_name@, new_url@).listed_at is None);
                return None;
            },
        };
        let ghost before = buf@;
        if chars_eq(this_name.as_slice(), name.as_slice()) {
            replaced = true;
            push_chars(&mut buf, this_name.as_slice());
            push_chars(&mut buf, sep.as_slice());
            push_chars(&mut buf, url.as_slice());
            push_char(&mut buf, '\n');
            assert(buf@ =~= before + entry(this_name@, new_url@));
        } else if chars_eq(this_url.as_slice(), url.as_slice()) {
            assert(scan_links(ls.take(i as int + 1), new_name@, new_url@).listed_at == Some(
                i as int + 1,
            ));
            proof {
                lemma_scan_stops(ls, new_name@, new_url@, i as int + 1);
                assert(ls.take(ls.len() as int) =~= ls);
                assert forall|k: int|
                    0 <= k < ls.len() && scan_links(ls.take(k), new_name@, new_url@).listed_at
                        is None implies second_piece(#[trigger] ls[k], link_sep()) is Some by {
                    if k > i {
                        lemma_scan_stops(ls.take(k), new_name@, new_url@, i as int + 1);
                        assert(ls.take(k).take(i as int + 1) =~= ls.take(i as int + 1));
                    }
                }
            }
            return Some(LinkOutcome::Listed(i + 1));
        } else {
            push_chars(&mut buf, line.as_slice());
            push_char(&mut buf, '\n');
            assert(buf@ =~= before + line@ + seq!['\n']);
        }
        i = i + 1;
    }
    assert(ls.take(lines@.len() as int) =~= ls);
    let ghost scanned = buf@;
    if !replaced {
        push_chars(&mut buf, name.as_slice());
        push_chars(&mut buf, sep.as_slice());
        push_chars(&mut buf, url.as_slice());
        push_char(&mut buf, '\n');
        assert(buf@ =~= scanned + entry(new_name@, new_url@));
    }
    Some(LinkOutcome::Updated { contents: buf, replaced })
}

/// Adds a named link to a link file, or finds where its address already is.
pub fn update_links(text: &str, new_name: &str, new_url: &str) -> (res: LinkOutcome)
    requires
        !reaches_unreadable(spec_lines(text@), new_name@, new_url@),
    ensures
        res@ == spec_update_links(text@, new_name@, new_url@),
{
    try_update_links(text, new_name, new_url).unwrap()
}

/// Once the scan has stopped at a line, longer prefixes stop there too.
proof fn lemma_scan_stops(ls: Seq<Seq<char>>, name: Seq<char>, url: Seq<char>, k: int)
    requires
        0 <= k <= ls.len(),
        scan_links(ls.take(k), name, url).listed_at is Some,
    ensures
        scan_links(ls, name, url) == scan_links(ls.take(k), name, url),
    decreases ls.len() - k,
{
    if k < ls.len() {
        assert(ls.take(k + 1).drop_last() =~= ls.take(k));
        lemma_scan_stops(ls, name, url, k + 1);
    } else {
        assert(ls.take(k) =~= ls);
    }
}

/// What a line of the link file becomes when the new link is added: the
/// entry of the new name gets the new address, every other line stays as it
/// is, on a line of its own.
pub open spec fn rewritten_line(l: Seq<char>, name: Seq<char>, url: Seq<char>) -> Seq<char> {
    if piece_before(l, link_sep()) == name {
        entry(name, url)
    } else {
        l + seq!['\n']
    }
}

proof fn lemma_scan_rewrites_lines(ls: Seq<Seq<char>>, name: Seq<char>, url: Seq<char>)
    requires
        scan_links(ls, name, url).listed_at is None,
    ensures
        scan_links(ls, name, url).buf == ls.map_values(|l: Seq<char>| rewritten_line(l, name, url)).flatten_alt(),
        scan_links(ls, name, url).replaced == exists|i: int|
            0 <= i < ls.len() && piece_before(#[trigger] ls[i], link_sep()) == name,
    decreases ls.len(),
{
    let f = |l: Seq<char>| rewritten_line(l, name, url);
    if ls.len() == 0 {
        assert(ls.map_values(f) =~= Seq::<Seq<char>>::empty());
    } else {
        let st = scan_links(ls.drop_last(), name, url);
        assert(st.listed_at is None);
        lemma_scan_rewrites_lines(ls.drop_last(), name, url);
        let m = ls.map_values(f);
        assert(m.drop_last() =~= ls.drop_last().map_values(f));
        assert(m.last() == f(ls.last()));
        if piece_before(ls.last(), link_sep()) == name {
            assert(piece_before(ls[ls.len() - 1], link_sep()) == name);
        } else {
            assert(second_piece(ls.last(), link_sep()) != Some(url));
            if exists|i: int| 0 <= i < ls.len() && piece_before(#[trigger] ls[i], link_sep()) == name {
                let i = choose|i: int|
                    0 <= i < ls.len() && piece_before(#[trigger] ls[i], link_sep()) == name;
                assert(i < ls.len() - 1);
                assert(ls.drop_last()[i] == ls[i]);
            }
        }
        if exists|i: int|
            0 <= i < ls.drop_last().len() && piece_before(#[trigger] ls.drop_last()[i], link_sep())
                == name {
            let i = choose|i: int|
                0 <= i < ls.drop_last().len() && piece_before(
                    #[trigger] ls.drop_last()[i],
                    link_sep(),
                ) == name;
            assert(ls[i] == ls.drop_last()[i]);
        }
    }
}

/// Adding a link keeps the file's other lines: where no other line already
/// has the address, the new contents are the file's lines in order, each
/// unchanged on a line of its own except the entries with the new name,
/// which get the new address; the new entry is added at the end exactly
/// where no line had the name.
pub proof fn lemma_update_keeps_other_lines(text: Seq<char>, name: Seq<char>, url: Seq<char>)
    ensures
        spec_update_links(text, name, url) matches LinkOutcomeView::Updated { contents, replaced }
            ==> {
            &&& contents == spec_lines(text).map_values(
                |l: Seq<char>| rewritten_line(l, name, url),
            ).flatten() + (if replaced {
                Seq::<char>::empty()
            } else {
                entry(name, url)
            })
            &&& replaced == exists|i: int|
                0 <= i < spec_lines(text).len() && piece_before(
                    #[trigger] spec_lines(text)[i],
                    link_sep(),
                ) == name
        },
{
    let ls = spec_lines(text);
    if scan_links(ls, name, url).listed_at is None {
        lemma_scan_rewrites_lines(ls, name, url);
        ls.map_values(|l: Seq<char>| rewritten_line(l, name, url)).lemma_flatten_and_flatten_alt_are_equivalent();
        if scan_links(ls, name, url).replaced {
            assert(scan_links(ls, name, url).buf + Seq::<char>::empty() =~= scan_links(
                ls,
                name,
                url,
            ).buf);
        }
    }
}

} // verus!
