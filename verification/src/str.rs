//! An owned string of characters, used for configuration literals and for
//! the spans of the borrowed tree.

use vstd::prelude::*;
use vstd::std_specs::iter::IteratorSpec;

verus! {

broadcast use vstd::string::group_string_axioms;

/// Collects the characters of a string slice into a vector, in order.
pub fn chars_of(s: &str) -> (v: Vec<char>)
    ensures
        v@ == s@,
{
    let mut it = s.chars();
    let mut v: Vec<char> = Vec::new();
    loop
        invariant
            v@ + it.remaining() == s@,
            it.decrease() is Some,
        ensures
            v@ == s@,
        decreases it.decrease()->0,
    {
        match it.next() {
            Some(c) => {
                v.push(c);
            }
            None => {
                proof {
                    assert(v@ =~= s@);
                }
                break ;
            }
        }
    }
    v
}

/// Relies on `String`'s `FromIterator<char>`: collecting characters yields
/// the string of exactly those characters, in order.
#[verifier::external_body]
pub fn string_from_chars(v: &Vec<char>) -> (s: String)
    ensures
        s@ == v@,
{
    v.iter().collect()
}

/// A string held as its sequence of characters.
pub struct Str {
    chars: Vec<char>,
}

impl View for Str {
    type V = Seq<char>;

    closed spec fn view(&self) -> Seq<char> {
        self.chars@
    }
}

impl Str {
    /// Wraps an owned string.
    pub fn owned(owned: String) -> (r: Self)
        ensures
            r@ == owned@,
    {
        Str { chars: chars_of(owned.as_str()) }
    }

    /// Copies a borrowed string slice.
    pub fn borrowed(borrowed: &str) -> (r: Self)
        ensures
            r@ == borrowed@,
    {
        Str { chars: chars_of(borrowed) }
    }

    /// Wraps an already-collected character sequence.
    pub fn from_chars(chars: Vec<char>) -> (r: Self)
        ensures
            r@ == chars@,
    {
        Str { chars }
    }

    /// The number of characters.
    pub fn len(&self) -> (n: usize)
        ensures
            n == self@.len(),
    {
        self.chars.len()
    }

    /// The character at position `i`.
    pub fn char_at(&self, i: usize) -> (c: char)
        requires
            i < self@.len(),
        ensures
            c == self@[i as int],
    {
        self.chars[i]
    }
}

} // verus!
