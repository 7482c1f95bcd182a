//! One parser after another, one parser or another, and looking without
//! consuming.

use std::marker::PhantomData;
use vstd::prelude::*;
use crate::parser::Parser;

verus! {

/// `first` and then `second` succeed from `input`: `first` yields `a`,
/// `second` yields `b` on what `first` left, and `rest` is left in the end.
pub open spec fn both<A, PA: Parser<A>, B, PB: Parser<B>>(
    first: PA,
    second: PB,
    input: Seq<char>,
    a: A,
    b: B,
    rest: Seq<char>,
) -> bool {
    exists|mid: Seq<char>| #[trigger]
        first.parses(input, Some((a, mid))) && second.parses(mid, Some((b, rest)))
}

/// `first` and then `second` do not both succeed from `input`: `first` fails,
/// or it succeeds and `second` fails on what it left.
pub open spec fn neither<A, PA: Parser<A>, B, PB: Parser<B>>(
    first: PA,
    second: PB,
    input: Seq<char>,
) -> bool {
    first.parses(input, None) || exists|a: A, mid: Seq<char>| #[trigger]
        first.parses(input, Some((a, mid))) && second.parses(mid, None)
}

/// Both succeed from `input` with `a` the value of `first`.
pub open spec fn keeps_first<A, PA: Parser<A>, B, PB: Parser<B>>(
    first: PA,
    second: PB,
    input: Seq<char>,
    a: A,
    rest: Seq<char>,
) -> bool {
    exists|b: B| #[trigger] both(first, second, input, a, b, rest)
}

/// Both succeed from `input` with `b` the value of `second`.
pub open spec fn keeps_second<A, PA: Parser<A>, B, PB: Parser<B>>(
    first: PA,
    second: PB,
    input: Seq<char>,
    b: B,
    rest: Seq<char>,
) -> bool {
    exists|a: A| #[trigger] both(first, second, input, a, b, rest)
}

/// Runs two parsers in a row and yields what the first one matched.
pub struct Left<A, PA, B, PB>(pub PA, pub PB, pub PhantomData<(A, B)>);

impl<A, PA: Clone, B, PB: Clone> Clone for Left<A, PA, B, PB> {
    fn clone(&self) -> (copy: Self)
        ensures
            cloned(self.0, copy.0),
            cloned(self.1, copy.1),
    {
        Left(self.0.clone(), self.1.clone(), PhantomData)
    }
}

impl<A, PA, B, PB> Parser<A> for Left<A, PA, B, PB> where PA: Parser<A>, PB: Parser<B> {
    open spec fn wf(&self) -> bool {
        self.0.wf() && self.1.wf()
    }

    open spec fn parses(&self, input: Seq<char>, out: Option<(A, Seq<char>)>) -> bool {
        match out {
            Some((a, rest)) => keeps_first(self.0, self.1, input, a, rest),
            None => neither(self.0, self.1, input),
        }
    }

    fn parse<'a>(&self, input: &'a str) -> (out: Option<(A, &'a str)>) {
        if let Some((a, remaining)) = self.0.parse(input) {
            if let Some((b, remaining)) = self.1.parse(remaining) {
                assert(both(self.0, self.1, input@, a, b, remaining@));
                Some((a, remaining))
            } else {
                None
            }
        } else {
            None
        }
    }
}

/// Runs two parsers in a row and yields what the second one matched.
pub struct Right<A, PA, B, PB>(pub PA, pub PB, pub PhantomData<(A, B)>);

impl<A, PA: Clone, B, PB: Clone> Clone for Right<A, PA, B, PB> {
    fn clone(&self) -> (copy: Self)
        ensures
            cloned(self.0, copy.0),
            cloned(self.1, copy.1),
    {
        Right(self.0.clone(), self.1.clone(), PhantomData)
    }
}

impl<A, PA, B, PB> Parser<B> for Right<A, PA, B, PB> where PA: Parser<A>, PB: Parser<B> {
    open spec fn wf(&self) -> bool {
        self.0.wf() && self.1.wf()
    }

    open spec fn parses(&self, input: Seq<char>, out: Option<(B, Seq<char>)>) -> bool {
        match out {
            Some((b, rest)) => keeps_second(self.0, self.1, input, b, rest),
            None => neither(self.0, self.1, input),
        }
    }

    fn parse<'a>(&self, input: &'a str) -> (out: Option<(B, &'a str)>) {
        if let Some((a, remaining)) = self.0.parse(input) {
            if let Some((b, remaining)) = self.1.parse(remaining) {
                assert(both(self.0, self.1, input@, a, b, remaining@));
                Some((b, remaining))
            } else {
                None
            }
        } else {
            None
        }
    }
}

/// Tries one parser and, where it fails, another on the same input.
pub struct Choice<PA, PB>(pub PA, pub PB);

impl<PA: Clone, PB: Clone> Clone for Choice<PA, PB> {
    fn clone(&self) -> (copy: Self)
        ensures
            cloned(self.0, copy.0),
            cloned(self.1, copy.1),
    {
        Choice(self.0.clone(), self.1.clone())
    }
}

/// Whether trying `first` and then `second` on `input` may end in `out`: a
/// success of `first`, or, `first` having failed, whatever `second` does.
pub open spec fn chooses<T, PA: Parser<T>, PB: Parser<T>>(
    first: PA,
    second: PB,
    input: Seq<char>,
    out: Option<(T, Seq<char>)>,
) -> bool {
    ||| out is Some && first.parses(input, out)
    ||| first.parses(input, None) && second.parses(input, out)
}

impl<T, PA, PB> Parser<T> for Choice<PA, PB> where PA: Parser<T>, PB: Parser<T> {
    open spec fn wf(&self) -> bool {
        self.0.wf() && self.1.wf()
    }

    open spec fn parses(&self, input: Seq<char>, out: Option<(T, Seq<char>)>) -> bool {
        chooses(self.0, self.1, input, out)
    }

    fn parse<'a>(&self, input: &'a str) -> (out: Option<(T, &'a str)>) {
        if let Some((a, remaining)) = self.0.parse(input) {
            Some((a, remaining))
        } else if let Some((b, remaining)) = self.1.parse(input) {
            Some((b, remaining))
        } else {
            None
        }
    }
}

/// Matches what a parser matches without consuming it.
pub struct LookAhead<P>(pub P);

impl<P: Clone> Clone for LookAhead<P> {
    fn clone(&self) -> (copy: Self)
        ensures
            cloned(self.0, copy.0),
    {
        LookAhead(self.0.clone())
    }
}

/// `p` succeeds on `input` with `value`, whatever it leaves.
pub open spec fn finds<T, P: Parser<T>>(p: P, input: Seq<char>, value: T) -> bool {
    exists|rest: Seq<char>| #[trigger] p.parses(input, Some((value, rest)))
}

impl<T, P> Parser<T> for LookAhead<P> where P: Parser<T> {
    open spec fn wf(&self) -> bool {
        self.0.wf()
    }

    open spec fn parses(&self, input: Seq<char>, out: Option<(T, Seq<char>)>) -> bool {
        match out {
            Some((value, rest)) => rest == input && finds(self.0, input, value),
            None => self.0.parses(input, None),
        }
    }

    fn parse<'a>(&self, input: &'a str) -> (out: Option<(T, &'a str)>) {
        if let Some((a, _)) = self.0.parse(input) {
            Some((a, input))
        } else {
            None
        }
    }
}

/// Matches what a parser matches, or nothing where that parser fails.
pub struct Optional<T, P>(pub P, pub PhantomData<T>);

impl<T, P: Clone> Clone for Optional<T, P> {
    fn clone(&self) -> (copy: Self)
        ensures
            cloned(self.0, copy.0),
    {
        Optional(self.0.clone(), PhantomData)
    }
}

/// `p` succeeds on `input` leaving `rest`, whatever its value.
pub open spec fn passes<T, P: Parser<T>>(p: P, input: Seq<char>, rest: Seq<char>) -> bool {
    exists|value: T| #[trigger] p.parses(input, Some((value, rest)))
}

impl<T, P> Parser<()> for Optional<T, P> where P: Parser<T> {
    open spec fn wf(&self) -> bool {
        self.0.wf()
    }

    open spec fn parses(&self, input: Seq<char>, out: Option<((), Seq<char>)>) -> bool {
        match out {
            Some((_, rest)) => passes(self.0, input, rest) || (rest == input && self.0.parses(
                input,
                None,
            )),
            None => false,
        }
    }

    fn parse<'a>(&self, input: &'a str) -> (out: Option<((), &'a str)>)
        ensures
            out is Some,
    {
        if let Some((_, remaining)) = self.0.parse(input) {
            Some(((), remaining))
        } else {
            Some(((), input))
        }
    }
}

/// What `wf` and `parses` of a sequence that keeps the first value stand for.
pub proof fn lemma_left<A, PA: Parser<A>, B, PB: Parser<B>>(p: Left<A, PA, B, PB>)
    ensures
        p.wf() <==> p.0.wf() && p.1.wf(),
        forall|input: Seq<char>| #[trigger] p.parses(input, None) <==> neither(p.0, p.1, input),
        forall|input: Seq<char>, a: A, rest: Seq<char>| #[trigger]
            p.parses(input, Some((a, rest))) <==> keeps_first(p.0, p.1, input, a, rest),
{
}

/// What `wf` and `parses` of a sequence that keeps the second value stand for.
pub proof fn lemma_right<A, PA: Parser<A>, B, PB: Parser<B>>(p: Right<A, PA, B, PB>)
    ensures
        p.wf() <==> p.0.wf() && p.1.wf(),
        forall|input: Seq<char>| #[trigger] p.parses(input, None) <==> neither(p.0, p.1, input),
        forall|input: Seq<char>, b: B, rest: Seq<char>| #[trigger]
            p.parses(input, Some((b, rest))) <==> keeps_second(p.0, p.1, input, b, rest),
{
}

/// What `wf` and `parses` of an alternative stand for.
pub proof fn lemma_choice<T, PA: Parser<T>, PB: Parser<T>>(p: Choice<PA, PB>)
    ensures
        Parser::<T>::wf(&p) <==> p.0.wf() && p.1.wf(),
        forall|input: Seq<char>, out: Option<(T, Seq<char>)>| #[trigger]
            p.parses(input, out) <==> chooses(p.0, p.1, input, out),
{
}

/// What `wf` and `parses` of a lookahead stand for.
pub proof fn lemma_look_ahead<T, P: Parser<T>>(p: LookAhead<P>)
    ensures
        Parser::<T>::wf(&p) <==> p.0.wf(),
        forall|input: Seq<char>| #[trigger]
            Parser::<T>::parses(&p, input, None) <==> p.0.parses(input, None),
        forall|input: Seq<char>, value: T, rest: Seq<char>| #[trigger]
            p.parses(input, Some((value, rest))) <==> rest == input && finds(p.0, input, value),
{
}

/// What `wf` and `parses` of an optional parser stand for.
pub proof fn lemma_optional<T, P: Parser<T>>(p: Optional<T, P>)
    ensures
        p.wf() <==> p.0.wf(),
        forall|input: Seq<char>| !#[trigger] p.parses(input, None),
        forall|input: Seq<char>, rest: Seq<char>| #[trigger]
            p.parses(input, Some(((), rest))) <==> passes(p.0, input, rest) || (rest == input
                && p.0.parses(input, None)),
{
}

} // verus!
