//! The primitive parsers as values handed out by functions, for grammars that
//! are written as one expression: `satisfy(..).many()`, `string(..).choice(..)`.
//! The predicate of `satisfy` takes the character by reference here.

use vstd::prelude::*;
use crate::class::{char_is_whitespace, is_among, is_whitespace, whitespace_class};
pub use crate::parser::Parser;
use crate::parser::picks;
use crate::primitive::{at_end, prefixed, trimmed, Any, Char, Eof, Str};
use crate::repeat::{lemma_many_string, lemma_repeats_class};
pub use crate::repeat::{Count, Many, Many1};
pub use crate::sequence::Choice;
use crate::text::{first_char, split_first};
use crate::transform::lemma_mapped;
pub use crate::transform::{AndThen, Mapped};

verus! {

/// The parser that matches any one character.
pub fn any() -> (p: impl Parser<char>)
    ensures
        p.wf(),
        picks(p, Set::full()),
{
    Any
}

/// The parser that matches the end of the input.
pub fn eof() -> (p: impl Parser<()>)
    ensures
        p.wf(),
        forall|input: Seq<char>, out: Option<((), Seq<char>)>| #[trigger]
            p.parses(input, out) ==> out == at_end(input),
{
    Eof
}

/// Matches one character that a predicate accepts.
pub struct Satisfy<F>(pub F);

impl<F: Clone> Clone for Satisfy<F> {
    fn clone(&self) -> (copy: Self)
        ensures
            cloned(self.0, copy.0),
    {
        Satisfy(self.0.clone())
    }
}

/// `f` may be called on every character.
pub open spec fn total<F: Fn(&char) -> bool>(f: F) -> bool {
    forall|c: char| call_requires(f, (&c,))
}

/// Whether matching one character accepted by `f` may end in `out` on `input`:
/// it succeeds with the first character where `f` may say yes to it, and fails
/// on empty input and where `f` may say no.
pub open spec fn satisfies<F: Fn(&char) -> bool>(
    f: F,
    input: Seq<char>,
    out: Option<(char, Seq<char>)>,
) -> bool {
    match out {
        Some((c, rest)) => first_char(input) == Some((c, rest)) && call_ensures(f, (&c,), true),
        None => input.len() == 0 || call_ensures(f, (&input[0],), false),
    }
}

impl<F> Parser<char> for Satisfy<F> where F: Fn(&char) -> bool {
    open spec fn wf(&self) -> bool {
        total(self.0)
    }

    open spec fn parses(&self, input: Seq<char>, out: Option<(char, Seq<char>)>) -> bool {
        satisfies(self.0, input, out)
    }

    fn parse<'a>(&self, input: &'a str) -> (out: Option<(char, &'a str)>) {
        match split_first(input) {
            Some((first, rest)) => {
                if (self.0)(&first) {
                    Some((first, rest))
                } else {
                    None
                }
            },
            None => None,
        }
    }
}

/// The parser that matches one character accepted by `f`.
pub fn satisfy<F>(f: F) -> (p: impl Parser<char>) where F: Fn(&char) -> bool
    ensures
        p.wf() <==> total(f),
        forall|input: Seq<char>, out: Option<(char, Seq<char>)>| #[trigger]
            p.parses(input, out) <==> satisfies(f, input, out),
{
    Satisfy(f)
}

/// The parser that matches the character `c`.
pub fn char(c: char) -> (p: impl Parser<char>)
    ensures
        p.wf(),
        picks(p, set![c]),
{
    Char(c)
}

/// The parser that matches a space.
pub fn space() -> (p: impl Parser<char>)
    ensures
        p.wf(),
        picks(p, set![' ']),
{
    char(' ')
}

/// The parser that matches a line feed.
pub fn newline() -> (p: impl Parser<char>)
    ensures
        p.wf(),
        picks(p, set!['\n']),
{
    char('\n')
}

/// The parser that matches a tab.
pub fn tab() -> (p: impl Parser<char>)
    ensures
        p.wf(),
        picks(p, set!['\t']),
{
    char('\t')
}

/// The parser that matches one character out of `array`.
pub fn one_of<'a>(array: &'a [char]) -> (p: impl Parser<char> + 'a)
    ensures
        p.wf(),
        picks(p, array@.to_set()),
{
    satisfy(
        move |c: &char| -> (b: bool)
            ensures b == array@.contains(*c)
        { is_among(array, *c) },
    )
}

/// The parser that matches one character that is not in `array`.
pub fn none_of<'a>(array: &'a [char]) -> (p: impl Parser<char> + 'a)
    ensures
        p.wf(),
        picks(p, array@.to_set().complement()),
{
    satisfy(
        move |c: &char| -> (b: bool)
            ensures b == !array@.contains(*c)
        { !is_among(array, *c) },
    )
}

/// The parser that matches the string `pattern`.
pub fn string(pattern: &str) -> (p: impl Parser<&str>)
    ensures
        p.wf(),
        forall|input: Seq<char>, out: Option<(&str, Seq<char>)>| #[trigger]
            p.parses(input, out) ==> out == prefixed(pattern, input),
{
    Str(pattern)
}

/// The parser that matches the whitespace at the front of the input, however
/// much there is.
pub fn whitespace() -> (p: impl Parser<()>)
    ensures
        p.wf(),
        forall|input: Seq<char>, out: Option<((), Seq<char>)>| #[trigger]
            p.parses(input, out) ==> out == Some(((), trimmed(input))),
{
    let one = satisfy(
        |c: &char| -> (b: bool)
            ensures b == is_whitespace(*c)
        { char_is_whitespace(*c) },
    );
    let p = one.many().map(|_v: String| -> (u: ()) { () });
    proof {
        assert(picks(one, whitespace_class()));
        lemma_many_string(p.0);
        lemma_mapped(p);
        assert forall|input: Seq<char>, out: Option<((), Seq<char>)>| #[trigger]
            p.parses(input, out) implies out == Some(((), trimmed(input))) by {
            match out {
                Some((value, rest)) => {
                    let v = choose|v: String| #[trigger]
                        p.0.parses(input, Some((v, rest))) && call_ensures(p.1, (v,), value);
                    lemma_repeats_class(one, whitespace_class(), input, v@, rest);
                },
                None => {
                    assert(Parser::<String>::parses(&p.0, input, None));
                },
            }
        }
    }
    p
}

} // verus!
