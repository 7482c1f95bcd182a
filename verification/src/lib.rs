//! Parser combinators over string slices.
//!
//! A parser takes an input slice and either yields a value together with the
//! slice that is left, or fails. Failure has no payload: it means "no match
//! here", and the caller, who still holds the input, is free to try something
//! else on it. Larger parsers are built from smaller ones by the methods of
//! [`Parser`]: repetition, alternation, sequences, lists and chains of
//! operators. A rule of a grammar that refers to itself is written as a
//! function from input to outcome, and every such function is a parser.
//!
//! # What is proved
//!
//! Every parser comes with two things in ghost code. `wf` says when it can be
//! run: the functions inside it accept what they are handed, and what is
//! repeated moves forward. `parses` relates an input to the outcomes that the
//! parser may have on it, with the input and what is left of it taken as
//! sequences of characters. `parse` requires the first and is proved to stay
//! within the second. A parser that holds a function has the outcomes that the
//! function's own contract allows.
//!
//! The relation of each combinator is written out in the module of that
//! combinator. [`laws`] holds what follows from these relations for all
//! parsers, [`determinism`] shows that a parser has one outcome per input where
//! its parts have, and [`progress`] shows from the parts of a parser that it
//! moves forward, which is what a repetition asks of the parser it repeats.
//!
//! # Parsers that hold functions
//!
//! Verus does not look through `wf` and `parses` of a parser whose type holds
//! a function or a closure. Each combinator therefore has a lemma that says what
//! the two stand for (`lemma_many`, `lemma_left`, ...), to be called where such
//! a parser is built.

pub mod chain;
pub mod class;
pub mod determinism;
pub mod laws;
pub mod list;
pub mod number;
pub mod parsec;
pub mod parser;
pub mod primitive;
pub mod progress;
pub mod repeat;
pub mod sequence;
pub mod text;
pub mod transform;

pub use crate::chain::{ChainLeft1, ChainRight1};
pub use crate::list::{SeparatedBy, SeparatedEndBy};
pub use crate::number::{converted, decimal, digits, integer, sign, signed_digits, symbol};
pub use crate::parser::Parser;
pub use crate::primitive::{
    alphanumeric, any, char, digit, eof, epsilon, gap, hex_digit, lower, newline, none_of, one_of,
    satisfy, string, tab, upper, whitespace, whitespaces, Any, Char, Eof, Epsilon, Satisfy, Str,
    Whitespaces,
};
pub use crate::repeat::{Count, Many, Many1};
pub use crate::sequence::{Choice, Left, LookAhead, Optional, Right};
pub use crate::transform::{function, AndThen, Function, Mapped};
