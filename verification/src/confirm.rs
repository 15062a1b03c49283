use vstd::prelude::*;

use crate::text::{chars_of, contains_char, push_char, push_chars};

verus! {

broadcast use vstd::string::group_string_axioms;

/// One answer on offer, and the key that picks it.
#[derive(Debug, Clone)]
pub struct Alternative {
    pub text: String,
    pub shortcut: Option<char>,
}

pub struct AlternativeView {
    pub text: Seq<char>,
    pub shortcut: Option<char>,
}

impl View for Alternative {
    type V = AlternativeView;

    open spec fn view(&self) -> AlternativeView {
        AlternativeView { text: self.text@, shortcut: self.shortcut }
    }
}

/// The character right after the first `[`, if there is one.
pub open spec fn after_bracket(s: Seq<char>) -> Option<char>
    decreases s.len(),
{
    if s.len() == 0 {
        None
    } else if s[0] == '[' {
        if s.len() > 1 {
            Some(s[1])
        } else {
            None
        }
    } else {
        after_bracket(s.drop_first())
    }
}

/// What reading an alternative gives: where a character follows the first
/// `[`, the whole text with that character as its key; otherwise an empty
/// text with no key, which stands for a line break between alternatives.
pub open spec fn spec_alternative(s: Seq<char>) -> AlternativeView {
    match after_bracket(s) {
        Some(c) => AlternativeView { text: s, shortcut: Some(c) },
        None => AlternativeView { text: Seq::empty(), shortcut: None },
    }
}

impl Alternative {
    /// Reads an alternative such as `[y]es`.
    pub fn from_str(s: &str) -> (res: Self)
        ensures
            res@ == spec_alternative(s@),
    {
        let cs = chars_of(s);
        let mut i: usize = 0;
        assert(cs@.skip(0) =~= cs@);
        while i < cs.len() && cs[i] != '['
            invariant
                i <= cs@.len(),
                after_bracket(cs@) == after_bracket(cs@.skip(i as int)),
            decreases cs@.len() - i,
        {
            assert(cs@.skip(i as int).drop_first() =~= cs@.skip(i as int + 1));
            i = i + 1;
        }
        if i < cs.len() && cs.len() - i > 1 {
            assert(cs@.skip(i as int)[1] == cs@[i + 1]);
            Alternative { text: s.to_owned(), shortcut: Some(cs[i + 1]) }
        } else {
            Alternative { text: String::new(), shortcut: None }
        }
    }
}

/// The prompt so far, whether it ends at a line break, and the keys seen.
pub struct PromptState {
    pub text: Seq<char>,
    pub after_break: bool,
    pub keys: Seq<char>,
}

/// Lays the alternatives out: those with a key are separated by a space,
/// and each alternative without one starts a new line.
pub open spec fn prompt_state(alts: Seq<AlternativeView>) -> PromptState
    decreases alts.len(),
{
    if alts.len() == 0 {
        PromptState { text: Seq::empty(), after_break: true, keys: Seq::empty() }
    } else {
        let st = prompt_state(alts.drop_last());
        let a = alts.last();
        match a.shortcut {
            Some(c) => PromptState {
                text: (if st.after_break {
                    st.text
                } else {
                    st.text.push(' ')
                }) + a.text,
                after_break: false,
                keys: st.keys.push(c),
            },
            None => PromptState { text: st.text.push('\n'), after_break: true, keys: st.keys },
        }
    }
}

pub open spec fn alternative_views(v: Seq<Alternative>) -> Seq<AlternativeView> {
    Seq::new(v.len(), |i: int| v[i]@)
}

/// The text that offers the alternatives, and the keys that answer it.
pub struct Prompt {
    pub text: String,
    pub keys: Vec<char>,
}

/// Lays out the prompt for a list of alternatives.
pub fn build_prompt(alternatives: &Vec<Alternative>) -> (res: Prompt)
    ensures
        res.text@ == prompt_state(alternative_views(alternatives@)).text,
        res.keys@ == prompt_state(alternative_views(alternatives@)).keys,
{
    let ghost alts = alternative_views(alternatives@);
    let mut text = String::new();
    let mut keys: Vec<char> = Vec::new();
    let mut after_break = true;
    let mut i: usize = 0;
    assert(alts.take(0) =~= Seq::<AlternativeView>::empty());
    while i < alternatives.len()
        invariant
            i <= alternatives@.len(),
            alts == alternative_views(alternatives@),
            prompt_state(alts.take(i as int)) == (PromptState {
                text: text@,
                after_break,
                keys: keys@,
            }),
        decreases alternatives@.len() - i,
    {
        assert(alts.take(i as int + 1).drop_last() =~= alts.take(i as int));
        assert(alts.take(i as int + 1).last() == alternatives@[i as int]@);
        let a = &alternatives[i];
        match a.shortcut {
            Some(c) => {
                if !after_break {
                    push_char(&mut text, ' ');
                }
                after_break = false;
                push_chars(&mut text, chars_of(a.text.as_str()).as_slice());
                keys.push(c);
            },
            None => {
                push_char(&mut text, '\n');
                after_break = true;
            },
        }
        i = i + 1;
    }
    assert(alts.take(alternatives@.len() as int) =~= alts);
    Prompt { text, keys }
}

/// Whether a key press answers the prompt.
pub fn accepts(keys: &Vec<char>, key: char) -> (res: bool)
    ensures
        res == keys@.contains(key),
{
    contains_char(keys.as_slice(), key)
}

} // verus!
