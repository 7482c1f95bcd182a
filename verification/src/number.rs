//! Signs, numbers and symbols.

use std::str::FromStr;
use vstd::prelude::*;
use vstd::string::StringExecFns;
use crate::class::{digit_class, first_char_in, leading};
use crate::parser::Parser;
use crate::primitive::{digit, prefixed, trimmed, whitespaces, Char, Str};
use crate::repeat::{lemma_many1_string, lemma_repeats_class};
use crate::sequence::{lemma_left, Choice};
use crate::text::{convert, outcome, push_char};
use crate::transform::{lemma_rule, lemma_rule_picks};

verus! {

/// The outcome of matching `pattern` and the whitespace behind it.
pub open spec fn symbol_of<'b>(pattern: &'b str, input: Seq<char>) -> Option<(&'b str, Seq<char>)> {
    match prefixed(pattern, input) {
        Some((value, rest)) => Some((value, trimmed(rest))),
        None => None,
    }
}

/// The parser that matches the string `s` and any whitespace behind it.
pub fn symbol(s: &str) -> (p: impl Parser<&str> + Clone)
    ensures
        p.wf(),
        forall|input: Seq<char>, out: Option<(&str, Seq<char>)>| #[trigger]
            p.parses(input, out) ==> out == symbol_of(s, input),
{
    let p = Str(s).left(whitespaces);
    proof {
        lemma_rule(whitespaces);
        lemma_left(p);
        assert forall|input: Seq<char>, out: Option<(&str, Seq<char>)>| #[trigger]
            p.parses(input, out) implies out == symbol_of(s, input) by {
            match out {
                Some((value, rest)) => {
                    assert(p.parses(input, Some((value, rest))));
                },
                None => {
                    assert(p.parses(input, None));
                },
            }
        }
    }
    p
}

/// Matches a plus or a minus sign.
pub fn sign(s: &str) -> (out: Option<(char, &str)>)
    ensures
        outcome(out) == first_char_in(s@, set!['+', '-']),
{
    Choice(Char('+'), Char('-')).parse(s)
}

/// The decimal digits at the front of `input` and what follows them; nothing
/// where the input does not start with a digit.
pub open spec fn digits_of(input: Seq<char>) -> Option<(Seq<char>, Seq<char>)> {
    let n = leading(input, digit_class());
    if n >= 1 {
        Some((input.take(n as int), input.skip(n as int)))
    } else {
        None
    }
}

/// A text and the input behind it, with the text as a sequence of characters.
pub open spec fn text_outcome(out: Option<(String, &str)>) -> Option<(Seq<char>, Seq<char>)> {
    match out {
        Some((text, rest)) => Some((text@, rest@)),
        None => None,
    }
}

/// Reads the decimal digits at the front of `input`.
pub fn digits(input: &str) -> (out: Option<(String, &str)>)
    ensures
        text_outcome(out) == digits_of(input@),
{
    let p = digit.many1();
    proof {
        lemma_rule_picks(digit, digit_class());
        lemma_many1_string(p);
    }
    let out: Option<(String, &str)> = p.parse(input);
    proof {
        if out is Some {
            lemma_repeats_class(digit, digit_class(), input@, (out->0).0@, (out->0).1@);
        }
    }
    out
}

/// Puts a converted value together with the input left behind its text.
pub fn converted<T>(value: Option<T>, rest: &str) -> (out: Option<(T, &str)>)
    ensures
        out == match value {
            Some(v) => Some((v, rest)),
            None => None,
        },
{
    match value {
        Some(v) => Some((v, rest)),
        None => None,
    }
}

/// Matches one or more decimal digits and converts them by the `FromStr` of
/// `T`. Fails where the input does not start with a digit and where the
/// conversion fails. The input left is what follows the digits.
pub fn decimal<T>(input: &str) -> (out: Option<(T, &str)>) where T: FromStr
    ensures
        digits_of(input@) is None ==> out is None,
        out matches Some((_, rest)) ==> digits_of(input@) matches Some((_, r)) && r == rest@,
{
    match digits(input) {
        Some((text, rest)) => converted(convert::<T>(text.as_str()), rest),
        None => None,
    }
}

/// The text of a number with its sign and what follows it in `input`: an
/// optional sign with any whitespace behind it, a plus sign where there is
/// none, and then one or more decimal digits.
pub open spec fn signed_digits_of(input: Seq<char>) -> Option<(Seq<char>, Seq<char>)> {
    let (sign, body) = match first_char_in(input, set!['+', '-']) {
        Some((c, rest)) => (c, trimmed(rest)),
        None => ('+', input),
    };
    match digits_of(body) {
        Some((text, rest)) => Some((seq![sign] + text, rest)),
        None => None,
    }
}

/// Reads a number with an optional sign off the front of `input` and returns
/// its text, which always starts with a sign.
pub fn signed_digits(input: &str) -> (out: Option<(String, &str)>)
    ensures
        text_outcome(out) == signed_digits_of(input@),
{
    let p = sign.left(whitespaces);
    proof {
        lemma_rule(sign);
        lemma_rule(whitespaces);
        lemma_left(p);
    }
    let (sign_, input) = match p.parse(input) {
        Some(found) => found,
        None => ('+', input),
    };
    match digits(input) {
        Some((digits, input)) => {
            let mut text = String::new();
            push_char(&mut text, sign_);
            text.append(digits.as_str());
            Some((text, input))
        },
        None => None,
    }
}

/// Matches a number with an optional sign and converts its text by the
/// `FromStr` of `T`. Fails where no digit follows the sign and where the
/// conversion fails. The input left is what follows the digits.
pub fn integer<T>(input: &str) -> (out: Option<(T, &str)>) where T: FromStr
    ensures
        signed_digits_of(input@) is None ==> out is None,
        out matches Some((_, rest)) ==> signed_digits_of(input@) matches Some((_, r)) && r
            == rest@,
{
    match signed_digits(input) {
        Some((text, rest)) => converted(convert::<T>(text.as_str()), rest),
        None => None,
    }
}

} // verus!
