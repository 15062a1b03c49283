use vstd::prelude::*;

use crate::text::{chars_of, push_char};

verus! {

broadcast use vstd::string::group_string_axioms;

/// The digit that a key of the left hand's home area stands for; other
/// characters stand for themselves.
pub open spec fn spec_key_digit(c: char) -> char {
    if c == 'f' {
        '1'
    } else if c == 'd' {
        '2'
    } else if c == 's' {
        '3'
    } else if c == 'r' {
        '4'
    } else if c == 'e' {
        '5'
    } else if c == 'w' {
        '6'
    } else if c == 'v' {
        '7'
    } else if c == 'c' {
        '8'
    } else if c == 'x' {
        '9'
    } else if c == 'a' {
        '0'
    } else {
        c
    }
}

/// The digit a key stands for.
pub fn key_digit(c: char) -> (res: char)
    ensures
        res == spec_key_digit(c),
{
    match c {
        'f' => '1',
        'd' => '2',
        's' => '3',
        'r' => '4',
        'e' => '5',
        'w' => '6',
        'v' => '7',
        'c' => '8',
        'x' => '9',
        'a' => '0',
        other => other,
    }
}

/// Turns a number typed with letter keys into digits, character by character.
pub fn letters_to_digits(arg: &str) -> (res: String)
    ensures
        res@ == arg@.map_values(|c: char| spec_key_digit(c)),
{
    let cs = chars_of(arg);
    let mut out = String::new();
    let mut i: usize = 0;
    while i < cs.len()
        invariant
            i <= cs@.len(),
            out@ == cs@.take(i as int).map_values(|c: char| spec_key_digit(c)),
        decreases cs@.len() - i,
    {
        push_char(&mut out, key_digit(cs[i]));
        i = i + 1;
        assert(out@ =~= cs@.take(i as int).map_values(|c: char| spec_key_digit(c)));
    }
    assert(cs@.take(cs@.len() as int) =~= cs@);
    out
}

} // verus!
