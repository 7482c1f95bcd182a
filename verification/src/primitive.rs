//! The parsers that are not built from others.

use vstd::prelude::*;
use crate::class::{
    alphanumeric_class, char_is_alphanumeric, char_is_lowercase, char_is_uppercase,
    char_is_whitespace, digit_class, first_char_in, hex_digit_class, is_alphanumeric, is_among,
    is_digit, is_hex_digit, is_lowercase, is_uppercase, is_whitespace, leading, lemma_leading,
    lowercase_class, uppercase_class, whitespace_class,
};
use crate::parser::{picks, Parser};
use crate::repeat::{lemma_many1_string, lemma_repeats_class};
use crate::text::{first_char, outcome, split_first};
use crate::transform::{lemma_mapped, lemma_rule_picks};

verus! {

/// Matches any one character.
pub struct Any;

impl Clone for Any {
    fn clone(&self) -> (copy: Self)
        ensures
            copy == *self,
    {
        Any
    }
}

impl Parser<char> for Any {
    open spec fn wf(&self) -> bool {
        true
    }

    open spec fn parses(&self, input: Seq<char>, out: Option<(char, Seq<char>)>) -> bool {
        out == first_char(input)
    }

    fn parse<'a>(&self, input: &'a str) -> (out: Option<(char, &'a str)>) {
        split_first(input)
    }
}

/// Matches any one character: fails on empty input and nowhere else.
pub fn any(s: &str) -> (out: Option<(char, &str)>)
    ensures
        outcome(out) == first_char(s@),
{
    Any.parse(s)
}

/// Matches the end of the input.
pub struct Eof;

impl Clone for Eof {
    fn clone(&self) -> (copy: Self)
        ensures
            copy == *self,
    {
        Eof
    }
}

/// The outcome of matching the end of the input.
pub open spec fn at_end(input: Seq<char>) -> Option<((), Seq<char>)> {
    if input.len() == 0 {
        Some(((), input))
    } else {
        None
    }
}

impl Parser<()> for Eof {
    open spec fn wf(&self) -> bool {
        true
    }

    open spec fn parses(&self, input: Seq<char>, out: Option<((), Seq<char>)>) -> bool {
        out == at_end(input)
    }

    fn parse<'a>(&self, input: &'a str) -> (out: Option<((), &'a str)>) {
        if input.is_empty() {
            Some(((), input))
        } else {
            None
        }
    }
}

/// Succeeds on empty input, consuming nothing, and fails on any other.
pub fn eof(s: &str) -> (out: Option<((), &str)>)
    ensures
        outcome(out) == at_end(s@),
{
    Eof.parse(s)
}

/// Matches the empty string.
pub struct Epsilon;

impl Clone for Epsilon {
    fn clone(&self) -> (copy: Self)
        ensures
            copy == *self,
    {
        Epsilon
    }
}

impl Parser<()> for Epsilon {
    open spec fn wf(&self) -> bool {
        true
    }

    open spec fn parses(&self, input: Seq<char>, out: Option<((), Seq<char>)>) -> bool {
        out == Some(((), input))
    }

    fn parse<'a>(&self, input: &'a str) -> (out: Option<((), &'a str)>) {
        Some(((), input))
    }
}

/// Always succeeds and consumes nothing.
pub fn epsilon(s: &str) -> (out: Option<((), &str)>)
    ensures
        outcome(out) == Some(((), s@)),
{
    Epsilon.parse(s)
}

/// Matches one character that a predicate accepts.
pub struct Satisfy<F>(pub F);

impl<F: Clone> Clone for Satisfy<F> {
    fn clone(&self) -> (copy: Self)
        ensures
            cloned(self.0, copy.0),
    {
        Satisfy(self.0.clone())
    }
}

/// Whether matching one character accepted by `f` may end in `out` on `input`:
/// it succeeds with the first character where `f` may say yes to it, and fails
/// on empty input and where `f` may say no.
pub open spec fn satisfies<F: Fn(char) -> bool>(
    f: F,
    input: Seq<char>,
    out: Option<(char, Seq<char>)>,
) -> bool {
    match out {
        Some((c, rest)) => first_char(input) == Some((c, rest)) && call_ensures(f, (c,), true),
        None => input.len() == 0 || call_ensures(f, (input[0],), false),
    }
}

/// `f` may be called on every character.
pub open spec fn total<F: Fn(char) -> bool>(f: F) -> bool {
    forall|c: char| call_requires(f, (c,))
}

impl<F> Parser<char> for Satisfy<F> where F: Fn(char) -> bool {
    open spec fn wf(&self) -> bool {
        total(self.0)
    }

    open spec fn parses(&self, input: Seq<char>, out: Option<(char, Seq<char>)>) -> bool {
        satisfies(self.0, input, out)
    }

    fn parse<'a>(&self, input: &'a str) -> (out: Option<(char, &'a str)>) {
        match split_first(input) {
            Some((first, rest)) => {
                if (self.0)(first) {
                    Some((first, rest))
                } else {
                    None
                }
            },
            None => None,
        }
    }
}

/// The parser that matches one character accepted by `f`.
pub fn satisfy<F>(f: F) -> (p: Satisfy<F>) where F: Fn(char) -> bool
    ensures
        p.0 == f,
{
    Satisfy(f)
}

/// What `wf` and `parses` of a predicate parser stand for.
pub proof fn lemma_satisfy<F: Fn(char) -> bool>(p: Satisfy<F>)
    ensures
        p.wf() <==> total(p.0),
        forall|input: Seq<char>, out: Option<(char, Seq<char>)>| #[trigger]
            p.parses(input, out) <==> satisfies(p.0, input, out),
{
}

/// Matches one given character.
pub struct Char(pub char);

impl Clone for Char {
    fn clone(&self) -> (copy: Self)
        ensures
            copy == *self,
    {
        Char(self.0)
    }
}

impl Parser<char> for Char {
    open spec fn wf(&self) -> bool {
        true
    }

    open spec fn parses(&self, input: Seq<char>, out: Option<(char, Seq<char>)>) -> bool {
        out == first_char_in(input, set![self.0])
    }

    fn parse<'a>(&self, input: &'a str) -> (out: Option<(char, &'a str)>) {
        match split_first(input) {
            Some((first, rest)) => {
                if first == self.0 {
                    Some((first, rest))
                } else {
                    None
                }
            },
            None => None,
        }
    }
}

/// The parser that matches the character `c`.
pub fn char(c: char) -> (p: Char)
    ensures
        p.0 == c,
{
    Char(c)
}

/// Matches the whitespace at the front of the input, however much there is.
pub struct Whitespaces;

impl Clone for Whitespaces {
    fn clone(&self) -> (copy: Self)
        ensures
            copy == *self,
    {
        Whitespaces
    }
}

/// `input` without the whitespace at its front.
pub open spec fn trimmed(input: Seq<char>) -> Seq<char> {
    input.skip(leading(input, whitespace_class()) as int)
}

impl Parser<()> for Whitespaces {
    open spec fn wf(&self) -> bool {
        true
    }

    open spec fn parses(&self, input: Seq<char>, out: Option<((), Seq<char>)>) -> bool {
        out == Some(((), trimmed(input)))
    }

    fn parse<'a>(&self, input: &'a str) -> (out: Option<((), &'a str)>) {
        let mut cur = input;
        loop
            invariant
                trimmed(cur@) == trimmed(input@),
            decreases cur@.len(),
        {
            match split_first(cur) {
                Some((first, rest)) => {
                    if char_is_whitespace(first) {
                        proof {
                            lemma_trimmed_step(cur@);
                        }
                        cur = rest;
                    } else {
                        assert(cur@.skip(0) == cur@);
                        return Some(((), cur));
                    }
                },
                None => {
                    assert(cur@.skip(0) == cur@);
                    return Some(((), cur));
                },
            }
        }
    }
}

/// Trimming an input that starts with a whitespace character is trimming what
/// follows that character.
pub proof fn lemma_trimmed_step(input: Seq<char>)
    requires
        input.len() > 0,
        is_whitespace(input[0]),
    ensures
        trimmed(input) == trimmed(input.drop_first()),
{
    let tail = input.drop_first();
    let n = leading(tail, whitespace_class());
    lemma_leading(tail, whitespace_class());
    assert(leading(input, whitespace_class()) == 1 + n);
    assert(input.skip(1 + n as int) == tail.skip(n as int));
}

/// Consumes the whitespace at the front of the input; never fails.
pub fn whitespaces(s: &str) -> (out: Option<((), &str)>)
    ensures
        outcome(out) == Some(((), trimmed(s@))),
{
    Whitespaces.parse(s)
}

/// Matches a given string.
pub struct Str<'a>(pub &'a str);

impl<'a> Clone for Str<'a> {
    fn clone(&self) -> (copy: Self)
        ensures
            copy == *self,
    {
        Str(self.0)
    }
}

/// The outcome of matching `pattern` at the front of `input`: the pattern and
/// what follows it, where the input starts with it character by character.
pub open spec fn prefixed<'b>(pattern: &'b str, input: Seq<char>) -> Option<(&'b str, Seq<char>)> {
    if pattern@.is_prefix_of(input) {
        Some((pattern, input.skip(pattern@.len() as int)))
    } else {
        None
    }
}

impl<'b> Parser<&'b str> for Str<'b> {
    open spec fn wf(&self) -> bool {
        true
    }

    open spec fn parses(&self, input: Seq<char>, out: Option<(&'b str, Seq<char>)>) -> bool {
        out == prefixed(self.0, input)
    }

    fn parse<'a>(&self, input: &'a str) -> (out: Option<(&'b str, &'a str)>) {
        let mut rest = input;
        let mut pattern = self.0;
        let ghost mut n: int = 0;
        loop
            invariant
                0 <= n <= self.0@.len(),
                n <= input@.len(),
                rest@ == input@.skip(n),
                pattern@ == self.0@.skip(n),
                input@.take(n) == self.0@.take(n),
            decreases pattern@.len(),
        {
            match split_first(pattern) {
                None => {
                    assert(self.0@.take(n) == self.0@);
                    return Some((self.0, rest));
                },
                Some((w, pattern_rest)) => {
                    match split_first(rest) {
                        Some((v, input_rest)) => {
                            if v == w {
                                proof {
                                    assert(input@.take(n + 1) == input@.take(n).push(v));
                                    assert(self.0@.take(n + 1) == self.0@.take(n).push(w));
                                    assert(input_rest@ == input@.skip(n + 1));
                                    assert(pattern_rest@ == self.0@.skip(n + 1));
                                    n = n + 1;
                                }
                                rest = input_rest;
                                pattern = pattern_rest;
                            } else {
                                assert(input@[n] == v && self.0@[n] == w);
                                return None;
                            }
                        },
                        None => {
                            return None;
                        },
                    }
                },
            }
        }
    }
}

/// The parser that matches the string `pattern`.
pub fn string<'a>(pattern: &'a str) -> (p: Str<'a>)
    ensures
        p.0 == pattern,
{
    Str(pattern)
}

/// Matches one whitespace character.
pub fn whitespace(s: &str) -> (out: Option<(char, &str)>)
    ensures
        outcome(out) == first_char_in(s@, whitespace_class()),
{
    let p = satisfy(
        |c: char| -> (b: bool)
            ensures b == is_whitespace(c)
        { char_is_whitespace(c) },
    );
    proof {
        lemma_satisfy(p);
    }
    p.parse(s)
}

/// Where `input` starts with whitespace, that whitespace is consumed; nothing
/// otherwise.
pub open spec fn gap_of(input: Seq<char>) -> Option<((), Seq<char>)> {
    if leading(input, whitespace_class()) >= 1 {
        Some(((), trimmed(input)))
    } else {
        None
    }
}

/// Matches one or more whitespace characters.
pub fn gap(s: &str) -> (out: Option<((), &str)>)
    ensures
        outcome(out) == gap_of(s@),
{
    let p = whitespace.many1().map(|_v: String| -> (u: ()) { () });
    proof {
        lemma_rule_picks(whitespace, whitespace_class());
        lemma_many1_string(p.0);
        lemma_mapped(p);
    }
    let out = p.parse(s);
    proof {
        match out {
            Some((_, rest)) => {
                let v = choose|v: String| #[trigger]
                    p.0.parses(s@, Some((v, rest@))) && call_ensures(p.1, (v,), ());
                lemma_repeats_class(whitespace, whitespace_class(), s@, v@, rest@);
            },
            None => {},
        }
    }
    out
}

/// Matches a line feed.
pub fn newline(s: &str) -> (out: Option<(char, &str)>)
    ensures
        outcome(out) == first_char_in(s@, set!['\n']),
{
    char('\n').parse(s)
}

/// Matches a tab.
pub fn tab(s: &str) -> (out: Option<(char, &str)>)
    ensures
        outcome(out) == first_char_in(s@, set!['\t']),
{
    char('\t').parse(s)
}

/// Matches one uppercase character.
pub fn upper(s: &str) -> (out: Option<(char, &str)>)
    ensures
        outcome(out) == first_char_in(s@, uppercase_class()),
{
    let p = satisfy(
        |c: char| -> (b: bool)
            ensures b == is_uppercase(c)
        { char_is_uppercase(c) },
    );
    proof {
        lemma_satisfy(p);
    }
    p.parse(s)
}

/// Matches one lowercase character.
pub fn lower(s: &str) -> (out: Option<(char, &str)>)
    ensures
        outcome(out) == first_char_in(s@, lowercase_class()),
{
    let p = satisfy(
        |c: char| -> (b: bool)
            ensures b == is_lowercase(c)
        { char_is_lowercase(c) },
    );
    proof {
        lemma_satisfy(p);
    }
    p.parse(s)
}

/// Matches one letter or number.
pub fn alphanumeric(s: &str) -> (out: Option<(char, &str)>)
    ensures
        outcome(out) == first_char_in(s@, alphanumeric_class()),
{
    let p = satisfy(
        |c: char| -> (b: bool)
            ensures b == is_alphanumeric(c)
        { char_is_alphanumeric(c) },
    );
    proof {
        lemma_satisfy(p);
    }
    p.parse(s)
}

/// Matches one decimal digit, `0` to `9`.
pub fn digit(s: &str) -> (out: Option<(char, &str)>)
    ensures
        outcome(out) == first_char_in(s@, digit_class()),
{
    let p = satisfy(
        |c: char| -> (b: bool)
            ensures b == digit_class().contains(c)
        { is_digit(c) },
    );
    proof {
        lemma_satisfy(p);
    }
    p.parse(s)
}

/// Matches one hexadecimal digit: `0` to `9`, `a` to `f` or `A` to `F`.
pub fn hex_digit(s: &str) -> (out: Option<(char, &str)>)
    ensures
        outcome(out) == first_char_in(s@, hex_digit_class()),
{
    let p = satisfy(
        |c: char| -> (b: bool)
            ensures b == hex_digit_class().contains(c)
        { is_hex_digit(c) },
    );
    proof {
        lemma_satisfy(p);
    }
    p.parse(s)
}

/// The parser that matches one character out of `array`.
pub fn one_of<'a>(array: &'a [char]) -> (p: impl Parser<char> + Clone + 'a)
    ensures
        p.wf(),
        picks(p, array@.to_set()),
{
    let p = satisfy(
        move |c: char| -> (b: bool)
            ensures b == array@.contains(c)
        { is_among(array, c) },
    );
    proof {
        lemma_satisfy(p);
    }
    p
}

/// The parser that matches one character that is not in `array`.
pub fn none_of<'a>(array: &'a [char]) -> (p: impl Parser<char> + Clone + 'a)
    ensures
        p.wf(),
        picks(p, array@.to_set().complement()),
{
    let p = satisfy(
        move |c: char| -> (b: bool)
            ensures b == !array@.contains(c)
        { !is_among(array, c) },
    );
    proof {
        lemma_satisfy(p);
    }
    p
}

} // verus!
