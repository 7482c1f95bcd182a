//! The parsing abstraction.

use std::marker::PhantomData;
use vstd::prelude::*;
use crate::chain::{ChainLeft1, ChainRight1};
use crate::class::first_char_in;
use crate::list::{SeparatedBy, SeparatedEndBy};
use crate::primitive::Whitespaces;
use crate::repeat::{Count, Many, Many1};
use crate::sequence::{Choice, Left, LookAhead, Optional, Right};
use crate::text::outcome;
use crate::transform::{AndThen, Mapped};

verus! {

/// A rule that reads a value of type `T` off the front of an input.
///
/// A parser has no state: all that matters of it is which outcomes it can have
/// on which input. `parses` is that relation. Failure carries no payload, and a
/// parser that fails has consumed nothing, since the caller still holds the
/// input it passed.
pub trait Parser<T> {
    /// Whether the parser can be run at all: every function held inside it
    /// accepts the arguments it will be called with, and every repetition
    /// inside it moves forward each time round.
    spec fn wf(&self) -> bool;

    /// Whether running the parser on `input` may end in `out`: either `None`,
    /// or a value with the input left behind it.
    spec fn parses(&self, input: Seq<char>, out: Option<(T, Seq<char>)>) -> bool;

    /// Runs the parser on `input`.
    fn parse<'a>(&self, input: &'a str) -> (out: Option<(T, &'a str)>)
        requires
            self.wf(),
        ensures
            self.parses(input@, outcome(out)),
    ;

    /// This parser zero or more times.
    fn many(self) -> (p: Many<Self>) where Self: Sized
        ensures
            p.0 == self,
    {
        Many(self)
    }

    /// This parser one or more times.
    fn many1(self) -> (p: Many1<Self>) where Self: Sized
        ensures
            p.0 == self,
    {
        Many1(self)
    }

    /// This parser or, where it fails, `another` on the same input.
    fn choice<P>(self, another: P) -> (p: Choice<Self, P>) where Self: Sized
        ensures
            p.0 == self,
            p.1 == another,
    {
        Choice(self, another)
    }

    /// This parser with `f` applied to its value.
    fn map<B, F>(self, f: F) -> (p: Mapped<T, Self, F>) where Self: Sized, F: Fn(T) -> B
        ensures
            p.0 == self,
            p.1 == f,
    {
        Mapped(self, f, PhantomData)
    }

    /// This parser and then the parser that `f` returns for its value.
    fn and_then<F, PB>(self, f: F) -> (p: AndThen<T, Self, F>) where Self: Sized, F: Fn(T) -> PB
        ensures
            p.0 == self,
            p.1 == f,
    {
        AndThen(self, f, PhantomData)
    }

    /// This parser `n` times.
    fn count(self, n: usize) -> (p: Count<Self>) where Self: Sized
        ensures
            p.0 == self,
            p.1 == n,
    {
        Count(self, n)
    }

    /// This parser and then `another`, with the value of this one.
    fn left<B, PB>(self, another: PB) -> (p: Left<T, Self, B, PB>) where Self: Sized
        ensures
            p.0 == self,
            p.1 == another,
    {
        Left(self, another, PhantomData)
    }

    /// This parser and then `another`, with the value of `another`.
    fn right<B, PB>(self, another: PB) -> (p: Right<T, Self, B, PB>) where Self: Sized
        ensures
            p.0 == self,
            p.1 == another,
    {
        Right(self, another, PhantomData)
    }

    /// `p1`, this parser and `p2` in a row, with the value of this one.
    fn between<A, PA, B, PB>(self, p1: PA, p2: PB) -> (p: Left<
        T,
        Right<A, PA, T, Self>,
        B,
        PB,
    >) where Self: Sized
        ensures
            p.0.0 == p1,
            p.0.1 == self,
            p.1 == p2,
    {
        Left(Right(p1, self, PhantomData), p2, PhantomData)
    }

    /// This parser without consuming what it matches.
    fn look_ahead(self) -> (p: LookAhead<Self>) where Self: Sized
        ensures
            p.0 == self,
    {
        LookAhead(self)
    }

    /// This parser and then any whitespace, with the value of this one.
    fn lexeme(self) -> (p: Left<T, Self, (), Whitespaces>) where Self: Sized
        ensures
            p.0 == self,
    {
        Left(self, Whitespaces, PhantomData)
    }

    /// Zero or more of this parser with `separator` between each two.
    fn separated_by<B, PB>(self, separator: PB) -> (p: SeparatedBy<T, Self, B, PB>) where
        Self: Sized,

        ensures
            p.0 == self,
            p.1 == separator,
    {
        SeparatedBy(self, separator, PhantomData)
    }

    /// This parser where it matches, and nothing where it does not.
    fn optional(self) -> (p: Optional<T, Self>) where Self: Sized
        ensures
            p.0 == self,
    {
        Optional(self, PhantomData)
    }

    /// Zero or more of this parser with `separator` between each two and,
    /// where there is one, behind the last.
    fn separated_end_by<B, PB>(self, separator: PB) -> (p: SeparatedEndBy<
        T,
        Self,
        B,
        PB,
    >) where Self: Sized
        ensures
            p.0 == self,
            p.1 == separator,
    {
        SeparatedEndBy(self, separator, PhantomData)
    }

    /// Zero or more of this parser, each with `separator` behind it.
    fn end_by<B, PB>(self, separator: PB) -> (p: Many<Left<T, Self, B, PB>>) where Self: Sized
        ensures
            p.0.0 == self,
            p.0.1 == separator,
    {
        Many(Left(self, separator, PhantomData))
    }

    /// One or more of this parser, each with `separator` behind it.
    fn end_by1<B, PB>(self, separator: PB) -> (p: Many1<Left<T, Self, B, PB>>) where Self: Sized
        ensures
            p.0.0 == self,
            p.0.1 == separator,
    {
        Many1(Left(self, separator, PhantomData))
    }

    /// One or more of this parser with `operator` between each two, combined
    /// from the left by the functions that `operator` yields.
    fn chain_left1<B, PB>(self, operator: PB) -> (p: ChainLeft1<T, Self, B, PB>) where
        Self: Sized,

        ensures
            p.0 == self,
            p.1 == operator,
    {
        ChainLeft1(self, operator, PhantomData)
    }

    /// One or more of this parser with `operator` between each two, combined
    /// from the right by the functions that `operator` yields.
    fn chain_right1<B, PB>(self, operator: PB) -> (p: ChainRight1<T, Self, B, PB>) where
        Self: Sized,

        ensures
            p.0 == self,
            p.1 == operator,
    {
        ChainRight1(self, operator, PhantomData)
    }
}

/// Every success of `p` leaves strictly less input than it was given.
pub open spec fn advances<T, P: Parser<T>>(p: P) -> bool {
    forall|input: Seq<char>, value: T, rest: Seq<char>| #[trigger]
        p.parses(input, Some((value, rest))) ==> rest.len() < input.len()
}

/// `p` can only succeed on `input`.
pub open spec fn accepts<T, P: Parser<T>>(p: P, input: Seq<char>) -> bool {
    forall|out: Option<(T, Seq<char>)>| #[trigger] p.parses(input, out) ==> out is Some
}

/// `p` can only fail on `input`.
pub open spec fn rejects<T, P: Parser<T>>(p: P, input: Seq<char>) -> bool {
    forall|out: Option<(T, Seq<char>)>| #[trigger] p.parses(input, out) ==> out is None
}

/// `p` has at most one outcome on each input: run twice on the same input, it
/// ends in the same way.
pub open spec fn deterministic<T, P: Parser<T>>(p: P) -> bool {
    forall|input: Seq<char>, a: Option<(T, Seq<char>)>, b: Option<(T, Seq<char>)>|
        #[trigger] p.parses(input, a) && #[trigger] p.parses(input, b) ==> a == b
}

/// `p` matches one character of `class` and nothing else: whatever it does
/// on an input, it takes the first character where that belongs to the class,
/// and fails where it does not or where the input is empty.
pub open spec fn picks<P: Parser<char>>(p: P, class: Set<char>) -> bool {
    forall|input: Seq<char>, out: Option<(char, Seq<char>)>| #[trigger]
        p.parses(input, out) ==> out == first_char_in(input, class)
}

} // verus!
