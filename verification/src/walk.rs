use vstd::prelude::*;
use vstd::relations::{sorted_by, total_ordering};

use crate::text::{chars_of, push_char, push_chars, string_views};

verus! {

broadcast use vstd::string::group_string_axioms;

/// One entry found by the directory walk, in the order the walk found it.
pub struct WalkEntry {
    pub path: String,
    pub depth: usize,
    pub is_dir: bool,
}

/// The order an entry is listed in: shallower first, at one depth files
/// before directories, and otherwise in the order of the walk (`index`).
pub type EntryKey = (usize, usize, usize);

pub open spec fn key_le(a: EntryKey, b: EntryKey) -> bool {
    a.0 < b.0 || (a.0 == b.0 && (a.1 < b.1 || (a.1 == b.1 && a.2 <= b.2)))
}

pub open spec fn key_order() -> spec_fn(EntryKey, EntryKey) -> bool {
    |a: EntryKey, b: EntryKey| key_le(a, b)
}

pub proof fn lemma_key_total()
    ensures
        total_ordering(key_order()),
{
}

pub open spec fn entry_key(e: WalkEntry, index: int) -> EntryKey {
    (e.depth, if e.is_dir { 1usize } else { 0usize }, index as usize)
}

pub open spec fn entry_keys(es: Seq<WalkEntry>) -> Seq<EntryKey> {
    Seq::new(es.len(), |i: int| entry_key(es[i], i))
}

/// How an entry is listed: its path, with a `/` after a directory's.
pub open spec fn entry_line(e: WalkEntry) -> Seq<char> {
    if e.is_dir {
        e.path@.push('/')
    } else {
        e.path@
    }
}

/// The listing: entries ordered by depth, files before directories, and
/// otherwise as the walk found them.
pub open spec fn spec_listing(es: Seq<WalkEntry>) -> Seq<Seq<char>> {
    let order = entry_keys(es).sort_by(key_order());
    Seq::new(order.len(), |i: int| entry_line(es[order[i].2 as int]))
}

/// `slice::sort` on tuples of integers, ordered as `Ord` for tuples orders
/// them (component by component): the same tuples, ascending.
#[verifier::external_body]
fn sort_keys(v: &mut Vec<EntryKey>)
    ensures
        final(v)@.to_multiset() == old(v)@.to_multiset(),
        sorted_by(final(v)@, key_order()),
{
    v.sort();
}

/// Lists the entries of a directory walk, breadth first.
pub fn listing(entries: &Vec<WalkEntry>) -> (res: Vec<String>)
    ensures
        string_views(res@) == spec_listing(entries@),
{
    let mut keys: Vec<EntryKey> = Vec::new();
    let mut i: usize = 0;
    while i < entries.len()
        invariant
            i <= entries@.len(),
            keys@ == entry_keys(entries@).take(i as int),
        decreases entries@.len() - i,
    {
        let d: usize = if entries[i].is_dir { 1 } else { 0 };
        keys.push((entries[i].depth, d, i));
        assert(keys@ =~= entry_keys(entries@).take(i as int + 1));
        i = i + 1;
    }
    assert(entry_keys(entries@).take(entries@.len() as int) =~= entry_keys(entries@));
    let ghost unsorted = keys@;
    sort_keys(&mut keys);
    proof {
        lemma_key_total();
        unsorted.lemma_sort_by_ensures(key_order());
        vstd::seq_lib::lemma_sorted_unique(keys@, unsorted.sort_by(key_order()), key_order());
        assert forall|k: int| 0 <= k < keys@.len() implies keys@[k].2 < entries@.len() by {
            assert(keys@.contains(keys@[k]));
            assert(unsorted.contains(keys@[k]));
            let i = choose|i: int| 0 <= i < unsorted.len() && unsorted[i] == keys@[k];
            assert(unsorted[i].2 == i);
        }
    }
    let mut out: Vec<String> = Vec::new();
    let mut j: usize = 0;
    while j < keys.len()
        invariant
            j <= keys@.len(),
            keys@ == entry_keys(entries@).sort_by(key_order()),
            forall|k: int| 0 <= k < keys@.len() ==> keys@[k].2 < entries@.len(),
            string_views(out@) == Seq::new(j as nat, |k: int| entry_line(entries@[keys@[k].2 as int])),
        decreases keys@.len() - j,
    {
        let e = &entries[keys[j].2];
        let mut line = String::new();
        push_chars(&mut line, chars_of(e.path.as_str()).as_slice());
        if e.is_dir {
            push_char(&mut line, '/');
        }
        assert(line@ == entry_line(entries@[keys@[j as int].2 as int]));
        let ghost before = string_views(out@);
        out.push(line);
        assert(string_views(out@) =~= before.push(line@));
        assert(string_views(out@) =~= Seq::new(j as nat + 1, |k: int| entry_line(entries@[keys@[k].2 as int])));
        j = j + 1;
    }
    out
}

} // verus!
