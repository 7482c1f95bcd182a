//! Parsers made with functions: changing the value of a parser, choosing the
//! next parser by it, and taking a plain function for a parser.

use std::marker::PhantomData;
use vstd::prelude::*;
use crate::class::first_char_in;
use crate::parser::{picks, Parser};
use crate::text::outcome;

verus! {

/// `f` may be called on every value that `p` can yield.
pub open spec fn takes<A, PA: Parser<A>, B, F: Fn(A) -> B>(p: PA, f: F) -> bool {
    forall|input: Seq<char>, v: A, rest: Seq<char>| #[trigger]
        p.parses(input, Some((v, rest))) ==> call_requires(f, (v,))
}

/// `p` succeeds on `input` leaving `rest`, and `f` may return `value` for the
/// value of `p`.
pub open spec fn maps_to<A, PA: Parser<A>, B, F: Fn(A) -> B>(
    p: PA,
    f: F,
    input: Seq<char>,
    value: B,
    rest: Seq<char>,
) -> bool {
    exists|v: A| #[trigger] p.parses(input, Some((v, rest))) && call_ensures(f, (v,), value)
}

/// Whether `p` with `f` applied to its value may end in `out` on `input`: `p`
/// fails, or it succeeds and `f` may return the value of `out` for the value
/// of `p`.
pub open spec fn maps<A, PA: Parser<A>, B, F: Fn(A) -> B>(
    p: PA,
    f: F,
    input: Seq<char>,
    out: Option<(B, Seq<char>)>,
) -> bool {
    match out {
        Some((value, rest)) => maps_to(p, f, input, value, rest),
        None => p.parses(input, None),
    }
}

/// Applies a function to what a parser yields.
pub struct Mapped<T, P, F>(pub P, pub F, pub PhantomData<T>);

impl<T, P: Clone, F: Clone> Clone for Mapped<T, P, F> {
    fn clone(&self) -> (copy: Self)
        ensures
            cloned(self.0, copy.0),
            cloned(self.1, copy.1),
    {
        Mapped(self.0.clone(), self.1.clone(), PhantomData)
    }
}

impl<A, PA, B, F> Parser<B> for Mapped<A, PA, F> where PA: Parser<A>, F: Fn(A) -> B {
    open spec fn wf(&self) -> bool {
        self.0.wf() && takes(self.0, self.1)
    }

    open spec fn parses(&self, input: Seq<char>, out: Option<(B, Seq<char>)>) -> bool {
        maps(self.0, self.1, input, out)
    }

    fn parse<'a>(&self, input: &'a str) -> (out: Option<(B, &'a str)>) {
        if let Some((res, remaining)) = self.0.parse(input) {
            let ghost v = res;
            let value = (self.1)(res);
            assert(self.0.parses(input@, Some((v, remaining@))) && call_ensures(
                self.1,
                (v,),
                value,
            ));
            Some((value, remaining))
        } else {
            None
        }
    }
}

/// What `wf` and `parses` of a mapped parser stand for.
pub proof fn lemma_mapped<A, PA: Parser<A>, B, F: Fn(A) -> B>(p: Mapped<A, PA, F>)
    ensures
        Parser::<B>::wf(&p) <==> p.0.wf() && takes(p.0, p.1),
        forall|input: Seq<char>, out: Option<(B, Seq<char>)>| #[trigger]
            p.parses(input, out) <==> maps(p.0, p.1, input, out),
{
}

/// `f` may be called on every value that `p` can yield, and every parser that
/// it returns can be run.
pub open spec fn selects<A, PA: Parser<A>, B, PB: Parser<B>, F: Fn(A) -> PB>(
    p: PA,
    f: F,
) -> bool {
    forall|input: Seq<char>, v: A, rest: Seq<char>| #[trigger]
        p.parses(input, Some((v, rest))) ==> call_requires(f, (v,)) && forall|next: PB| #[trigger]
            call_ensures(f, (v,), next) ==> next.wf()
}

/// Whether `p`, followed by the parser that `f` returns for its value, may end
/// in `out` on `input`: `p` fails, or it succeeds and the parser chosen by `f`
/// ends in `out` on what `p` left.
pub open spec fn binds<A, PA: Parser<A>, B, PB: Parser<B>, F: Fn(A) -> PB>(
    p: PA,
    f: F,
    input: Seq<char>,
    out: Option<(B, Seq<char>)>,
) -> bool {
    ||| out is None && p.parses(input, None)
    ||| exists|v: A, mid: Seq<char>, next: PB|
        #![trigger p.parses(input, Some((v, mid))), call_ensures(f, (v,), next)]
        p.parses(input, Some((v, mid))) && call_ensures(f, (v,), next) && next.parses(mid, out)
}

/// Runs a parser and then the parser that a function returns for its value.
pub struct AndThen<T, P, F>(pub P, pub F, pub PhantomData<T>);

impl<T, P: Clone, F: Clone> Clone for AndThen<T, P, F> {
    fn clone(&self) -> (copy: Self)
        ensures
            cloned(self.0, copy.0),
            cloned(self.1, copy.1),
    {
        AndThen(self.0.clone(), self.1.clone(), PhantomData)
    }
}

impl<A, PA, B, PB, F> Parser<B> for AndThen<A, PA, F> where
    PA: Parser<A>,
    PB: Parser<B>,
    F: Fn(A) -> PB,
 {
    open spec fn wf(&self) -> bool {
        self.0.wf() && selects::<A, PA, B, PB, F>(self.0, self.1)
    }

    open spec fn parses(&self, input: Seq<char>, out: Option<(B, Seq<char>)>) -> bool {
        binds::<A, PA, B, PB, F>(self.0, self.1, input, out)
    }

    fn parse<'a>(&self, input: &'a str) -> (out: Option<(B, &'a str)>) {
        if let Some((res, remaining)) = self.0.parse(input) {
            (self.1)(res).parse(remaining)
        } else {
            None
        }
    }
}

/// What `wf` and `parses` of a dependent sequence stand for.
pub proof fn lemma_and_then<A, PA: Parser<A>, B, PB: Parser<B>, F: Fn(A) -> PB>(
    p: AndThen<A, PA, F>,
)
    ensures
        Parser::<B>::wf(&p) <==> p.0.wf() && selects::<A, PA, B, PB, F>(p.0, p.1),
        forall|input: Seq<char>, out: Option<(B, Seq<char>)>| #[trigger]
            p.parses(input, out) <==> binds::<A, PA, B, PB, F>(p.0, p.1, input, out),
{
}

/// `f` may be called on every slice.
pub open spec fn callable<T, F: Fn(&str) -> Option<(T, &str)>>(f: F) -> bool {
    forall|text: &str| call_requires(f, (text,))
}

/// Whether calling `f` on a slice that reads `input` may end in `out`.
pub open spec fn calls<T, F: Fn(&str) -> Option<(T, &str)>>(
    f: F,
    input: Seq<char>,
    out: Option<(T, Seq<char>)>,
) -> bool {
    exists|text: &str, result: Option<(T, &str)>|
        text@ == input && outcome(result) == out && #[trigger] call_ensures(f, (text,), result)
}

/// Takes a function from input to outcome for a parser. A rule of a grammar
/// that refers to itself is written as such a function.
pub struct Function<F>(pub F);

impl<F: Clone> Clone for Function<F> {
    fn clone(&self) -> (copy: Self)
        ensures
            cloned(self.0, copy.0),
    {
        Function(self.0.clone())
    }
}

impl<T, F> Parser<T> for Function<F> where F: Fn(&str) -> Option<(T, &str)> {
    open spec fn wf(&self) -> bool {
        callable(self.0)
    }

    open spec fn parses(&self, input: Seq<char>, out: Option<(T, Seq<char>)>) -> bool {
        calls(self.0, input, out)
    }

    fn parse<'a>(&self, input: &'a str) -> (out: Option<(T, &'a str)>) {
        (self.0)(input)
    }
}

/// The parser that calls `f`.
pub fn function<T, F>(f: F) -> (p: Function<F>) where F: Fn(&str) -> Option<(T, &str)>
    ensures
        p.0 == f,
{
    Function(f)
}

/// What `wf` and `parses` of a wrapped function stand for.
pub proof fn lemma_function<T, F: Fn(&str) -> Option<(T, &str)>>(p: Function<F>)
    ensures
        Parser::<T>::wf(&p) <==> callable(p.0),
        forall|input: Seq<char>, out: Option<(T, Seq<char>)>| #[trigger]
            p.parses(input, out) <==> calls(p.0, input, out),
{
}

/// A function from input to outcome is a parser as it stands.
impl<T, F> Parser<T> for F where F: Fn(&str) -> Option<(T, &str)> {
    open spec fn wf(&self) -> bool {
        callable(*self)
    }

    open spec fn parses(&self, input: Seq<char>, out: Option<(T, Seq<char>)>) -> bool {
        calls(*self, input, out)
    }

    fn parse<'a>(&self, input: &'a str) -> (out: Option<(T, &'a str)>) {
        self(input)
    }
}

/// What `wf` and `parses` stand for where a function is used as a parser.
pub proof fn lemma_rule<T, F: Fn(&str) -> Option<(T, &str)>>(f: F)
    ensures
        Parser::<T>::wf(&f) <==> callable(f),
        forall|input: Seq<char>, out: Option<(T, Seq<char>)>| #[trigger]
            f.parses(input, out) <==> calls(f, input, out),
{
}

/// A function that takes the first character where it belongs to `class`, and
/// fails otherwise, is as a parser a parser of one character of that class.
pub proof fn lemma_rule_picks<F: Fn(&str) -> Option<(char, &str)>>(f: F, class: Set<char>)
    requires
        callable(f),
        forall|text: &str, result: Option<(char, &str)>| #[trigger]
            call_ensures(f, (text,), result) ==> outcome(result) == first_char_in(text@, class),
    ensures
        f.wf(),
        picks(f, class),
{
}

} // verus!
