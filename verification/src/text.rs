//! Walking through a string slice one character at a time.

use std::str::Chars;
use std::str::FromStr;
use vstd::prelude::*;
use vstd::std_specs::iter::IteratorSpec;

verus! {

broadcast use vstd::string::group_string_axioms;

/// `Chars::as_str` of the standard library. Taken on trust: the slice it
/// returns holds exactly the characters that the iterator has yet to hand out,
/// in their order.
pub assume_specification<'a>[ Chars::<'a>::as_str ](chars: &Chars<'a>) -> (rest: &'a str)
    ensures
        rest@ == chars.remaining(),
;

/// `String::push` of the standard library. Taken on trust: the string afterwards
/// is the string before with the character added at its end.
#[verifier::external_body]
pub(crate) fn push_char(text: &mut String, c: char)
    ensures
        final(text)@ == old(text)@.push(c),
{
    text.push(c)
}

/// A parse outcome with the input that is left taken as a sequence of
/// characters.
pub open spec fn outcome<T>(out: Option<(T, &str)>) -> Option<(T, Seq<char>)> {
    match out {
        Some((value, rest)) => Some((value, rest@)),
        None => None,
    }
}

/// The first character of `input` with what follows it; nothing where `input`
/// is empty.
pub open spec fn first_char(input: Seq<char>) -> Option<(char, Seq<char>)> {
    if input.len() > 0 {
        Some((input[0], input.drop_first()))
    } else {
        None
    }
}

/// Takes the first character off `input`. The slice returned starts right
/// behind that character in the same storage.
pub fn split_first(input: &str) -> (out: Option<(char, &str)>)
    ensures
        outcome(out) == first_char(input@),
{
    let mut chars = input.chars();
    match chars.next() {
        Some(c) => Some((c, chars.as_str())),
        None => None,
    }
}

/// `str::parse` of the standard library, with a failure turned into `None`.
/// What comes back is up to the `FromStr` of `T`, so nothing is said of it.
#[verifier::external_body]
pub(crate) fn convert<T: FromStr>(text: &str) -> (value: Option<T>) {
    text.parse::<T>().ok()
}

} // verus!
