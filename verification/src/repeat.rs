//! Running one parser several times in a row.
//!
//! A repetition of a parser of characters can collect what it reads in a
//! `Vec<char>` or in a `String`; the caller's type decides. The relations here
//! speak of the sequence of items, which is the view of either.

use vstd::prelude::*;
use crate::class::{leading, lemma_leading_is};
use crate::parser::{advances, picks, Parser};
use crate::text::push_char;

verus! {

/// `p` reads `items` one after another: `trail[i]` is the input before
/// `items[i]` and `trail[i + 1]` the input behind it.
pub open spec fn run_of<T, P: Parser<T>>(p: P, trail: Seq<Seq<char>>, items: Seq<T>) -> bool {
    &&& trail.len() == items.len() + 1
    &&& forall|i: int|
        0 <= i < items.len() ==> #[trigger] p.parses(trail[i], Some((items[i], trail[i + 1])))
}

/// `p` reads `items` one after another off `input` and leaves `rest`.
pub open spec fn reads<T, P: Parser<T>>(
    p: P,
    input: Seq<char>,
    items: Seq<T>,
    rest: Seq<char>,
) -> bool {
    exists|trail: Seq<Seq<char>>|
        {
            &&& #[trigger] run_of(p, trail, items)
            &&& trail[0] == input
            &&& trail.last() == rest
        }
}

/// Whether running `p` on `input` until it fails may yield `items` and leave
/// `rest`: `p` reads the items in a row and then fails on `rest`.
pub open spec fn repeats<T, P: Parser<T>>(
    p: P,
    input: Seq<char>,
    items: Seq<T>,
    rest: Seq<char>,
) -> bool {
    reads(p, input, items, rest) && p.parses(rest, None)
}

/// `p` succeeds fewer than `n` times in a row from `input` and then fails.
pub open spec fn falls_short<T, P: Parser<T>>(p: P, input: Seq<char>, n: nat) -> bool {
    exists|items: Seq<T>, rest: Seq<char>| #[trigger]
        reads(p, input, items, rest) && items.len() < n && p.parses(rest, None)
}

/// Where `p` matches one character of `class`, the first `i` items that it
/// reads in a row are the first `i` characters of the input, all of the class,
/// and the input that is left then starts behind them.
proof fn lemma_run_of_class<P: Parser<char>>(
    p: P,
    class: Set<char>,
    trail: Seq<Seq<char>>,
    items: Seq<char>,
    i: int,
)
    requires
        picks(p, class),
        run_of(p, trail, items),
        0 <= i <= items.len(),
    ensures
        i <= trail[0].len(),
        trail[i] == trail[0].skip(i),
        forall|j: int|
            0 <= j < i ==> items[j] == trail[0][j] && class.contains(#[trigger] trail[0][j]),
    decreases i,
{
    if i > 0 {
        lemma_run_of_class(p, class, trail, items, i - 1);
        assert(p.parses(trail[i - 1], Some((items[i - 1], trail[i - 1 + 1]))));
        assert(trail[i - 1].len() > 0);
        assert(trail[0].skip(i - 1).drop_first() == trail[0].skip(i));
    } else {
        assert(trail[0].skip(0) == trail[0]);
    }
}

/// Where `p` matches one character of `class`, running it until it fails takes
/// the leading run of that class off the input.
pub proof fn lemma_repeats_class<P: Parser<char>>(
    p: P,
    class: Set<char>,
    input: Seq<char>,
    items: Seq<char>,
    rest: Seq<char>,
)
    requires
        picks(p, class),
        repeats(p, input, items, rest),
    ensures
        items == input.take(leading(input, class) as int),
        rest == input.skip(leading(input, class) as int),
{
    let trail = choose|trail: Seq<Seq<char>>|
        {
            &&& #[trigger] run_of(p, trail, items)
            &&& trail[0] == input
            &&& trail.last() == rest
        };
    let n = items.len();
    lemma_run_of_class(p, class, trail, items, n as int);
    assert(rest == input.skip(n as int));
    if n < input.len() {
        assert(rest[0] == input[n as int]);
    }
    lemma_leading_is(input, class, n);
    assert(items =~= input.take(n as int));
}

/// A collection that grows by one item at its end: a vector, or a string of
/// characters. A repetition is run in the same way whichever of them collects
/// its items.
pub trait Collect<T>: Sized {
    /// The items collected, in their order.
    spec fn items(&self) -> Seq<T>;

    /// A collection without items.
    fn empty() -> (c: Self)
        ensures
            c.items() == Seq::<T>::empty(),
    ;

    /// Adds `item` at the end.
    fn put(&mut self, item: T)
        ensures
            final(self).items() == old(self).items().push(item),
    ;

    /// Whether nothing has been collected.
    fn is_blank(&self) -> (b: bool)
        ensures
            b == (self.items().len() == 0),
    ;
}

impl<T> Collect<T> for Vec<T> {
    open spec fn items(&self) -> Seq<T> {
        self@
    }

    fn empty() -> (c: Self) {
        Vec::new()
    }

    fn put(&mut self, item: T) {
        self.push(item);
    }

    fn is_blank(&self) -> (b: bool) {
        self.len() == 0
    }
}

impl Collect<char> for String {
    open spec fn items(&self) -> Seq<char> {
        self@
    }

    fn empty() -> (c: Self) {
        String::new()
    }

    fn put(&mut self, item: char) {
        push_char(self, item);
    }

    fn is_blank(&self) -> (b: bool) {
        self.as_str().is_empty()
    }
}

/// Runs `p` on `input` until it fails, and collects what it yields.
pub fn repeat<'a, T, P: Parser<T>, C: Collect<T>>(p: &P, input: &'a str) -> (out: (C, &'a str))
    requires
        p.wf(),
        advances::<T, P>(*p),
    ensures
        repeats::<T, P>(*p, input@, out.0.items(), out.1@),
{
    let mut cur = input;
    let mut target = C::empty();
    let ghost mut trail: Seq<Seq<char>> = seq![input@];

    loop
        invariant
            p.wf(),
            advances::<T, P>(*p),
            run_of::<T, P>(*p, trail, target.items()),
            trail[0] == input@,
            trail.last() == cur@,
        decreases cur@.len(),
    {
        if let Some((a, remaining)) = p.parse(cur) {
            proof {
                trail = trail.push(remaining@);
            }
            cur = remaining;
            target.put(a);
        } else {
            assert(reads::<T, P>(*p, input@, target.items(), cur@));
            return (target, cur);
        }
    }
}

/// Runs `p` on `input` `n` times in a row, and collects what it yields. Fails
/// as soon as `p` fails.
pub fn repeat_times<'a, T, P: Parser<T>, C: Collect<T>>(p: &P, n: usize, input: &'a str) -> (out:
    Option<(C, &'a str)>)
    requires
        p.wf(),
    ensures
        match out {
            Some((target, rest)) => target.items().len() == n && reads::<T, P>(
                *p,
                input@,
                target.items(),
                rest@,
            ),
            None => falls_short::<T, P>(*p, input@, n as nat),
        },
{
    let mut cur = input;
    let mut res = C::empty();
    let ghost mut trail: Seq<Seq<char>> = seq![input@];

    for i in 0..n
        invariant
            p.wf(),
            res.items().len() == i,
            run_of::<T, P>(*p, trail, res.items()),
            trail[0] == input@,
            trail.last() == cur@,
    {
        if let Some((a, remaining)) = p.parse(cur) {
            proof {
                trail = trail.push(remaining@);
            }
            res.put(a);
            cur = remaining;
        } else {
            assert(reads::<T, P>(*p, input@, res.items(), cur@));
            return None;
        }
    }

    assert(reads::<T, P>(*p, input@, res.items(), cur@));
    Some((res, cur))
}

/// Matches a parser zero or more times.
pub struct Many<P>(pub P);

impl<P: Clone> Clone for Many<P> {
    fn clone(&self) -> (copy: Self)
        ensures
            cloned(self.0, copy.0),
    {
        Many(self.0.clone())
    }
}

impl<T, P> Parser<Vec<T>> for Many<P> where P: Parser<T> {
    open spec fn wf(&self) -> bool {
        self.0.wf() && advances::<T, P>(self.0)
    }

    open spec fn parses(&self, input: Seq<char>, out: Option<(Vec<T>, Seq<char>)>) -> bool {
        match out {
            Some((items, rest)) => repeats::<T, P>(self.0, input, items@, rest),
            None => false,
        }
    }

    fn parse<'a>(&self, input: &'a str) -> (out: Option<(Vec<T>, &'a str)>) {
        let (target, rest) = repeat::<T, P, Vec<T>>(&self.0, input);
        Some((target, rest))
    }
}

impl<P> Parser<String> for Many<P> where P: Parser<char> {
    open spec fn wf(&self) -> bool {
        self.0.wf() && advances::<char, P>(self.0)
    }

    open spec fn parses(&self, input: Seq<char>, out: Option<(String, Seq<char>)>) -> bool {
        match out {
            Some((items, rest)) => repeats::<char, P>(self.0, input, items@, rest),
            None => false,
        }
    }

    fn parse<'a>(&self, input: &'a str) -> (out: Option<(String, &'a str)>) {
        let (target, rest) = repeat::<char, P, String>(&self.0, input);
        Some((target, rest))
    }
}

/// Matches a parser one or more times.
pub struct Many1<P>(pub P);

impl<P: Clone> Clone for Many1<P> {
    fn clone(&self) -> (copy: Self)
        ensures
            cloned(self.0, copy.0),
    {
        Many1(self.0.clone())
    }
}

impl<T, P> Parser<Vec<T>> for Many1<P> where P: Parser<T> {
    open spec fn wf(&self) -> bool {
        self.0.wf() && advances::<T, P>(self.0)
    }

    open spec fn parses(&self, input: Seq<char>, out: Option<(Vec<T>, Seq<char>)>) -> bool {
        match out {
            Some((items, rest)) => items@.len() >= 1 && repeats::<T, P>(
                self.0,
                input,
                items@,
                rest,
            ),
            None => self.0.parses(input, None),
        }
    }

    fn parse<'a>(&self, input: &'a str) -> (out: Option<(Vec<T>, &'a str)>) {
        let (target, rest) = repeat::<T, P, Vec<T>>(&self.0, input);
        if target.is_blank() {
            proof {
                assert(target@ =~= Seq::empty());
                lemma_repeats_nothing(self.0, input@, rest@);
            }
            None
        } else {
            Some((target, rest))
        }
    }
}

impl<P> Parser<String> for Many1<P> where P: Parser<char> {
    open spec fn wf(&self) -> bool {
        self.0.wf() && advances::<char, P>(self.0)
    }

    open spec fn parses(&self, input: Seq<char>, out: Option<(String, Seq<char>)>) -> bool {
        match out {
            Some((items, rest)) => items@.len() >= 1 && repeats::<char, P>(
                self.0,
                input,
                items@,
                rest,
            ),
            None => self.0.parses(input, None),
        }
    }

    fn parse<'a>(&self, input: &'a str) -> (out: Option<(String, &'a str)>) {
        let (target, rest) = repeat::<char, P, String>(&self.0, input);
        if target.is_blank() {
            proof {
                assert(target@ =~= Seq::empty());
                lemma_repeats_nothing(self.0, input@, rest@);
            }
            None
        } else {
            Some((target, rest))
        }
    }
}

/// A repetition that yields nothing has read nothing: the parser fails on the
/// input as it stands, and all of the input is left.
pub proof fn lemma_repeats_nothing<T, P: Parser<T>>(p: P, input: Seq<char>, rest: Seq<char>)
    requires
        repeats(p, input, Seq::<T>::empty(), rest),
    ensures
        rest == input,
        p.parses(input, None),
{
}

/// Matches a parser a given number of times.
pub struct Count<P>(pub P, pub usize);

impl<P: Clone> Clone for Count<P> {
    fn clone(&self) -> (copy: Self)
        ensures
            cloned(self.0, copy.0),
            copy.1 == self.1,
    {
        Count(self.0.clone(), self.1)
    }
}

impl<T, P> Parser<Vec<T>> for Count<P> where P: Parser<T> {
    open spec fn wf(&self) -> bool {
        self.0.wf()
    }

    open spec fn parses(&self, input: Seq<char>, out: Option<(Vec<T>, Seq<char>)>) -> bool {
        match out {
            Some((items, rest)) => items@.len() == self.1 && reads::<T, P>(
                self.0,
                input,
                items@,
                rest,
            ),
            None => falls_short::<T, P>(self.0, input, self.1 as nat),
        }
    }

    fn parse<'a>(&self, input: &'a str) -> (out: Option<(Vec<T>, &'a str)>) {
        repeat_times::<T, P, Vec<T>>(&self.0, self.1, input)
    }
}

impl<P> Parser<String> for Count<P> where P: Parser<char> {
    open spec fn wf(&self) -> bool {
        self.0.wf()
    }

    open spec fn parses(&self, input: Seq<char>, out: Option<(String, Seq<char>)>) -> bool {
        match out {
            Some((items, rest)) => items@.len() == self.1 && reads::<char, P>(
                self.0,
                input,
                items@,
                rest,
            ),
            None => falls_short::<char, P>(self.0, input, self.1 as nat),
        }
    }

    fn parse<'a>(&self, input: &'a str) -> (out: Option<(String, &'a str)>) {
        repeat_times::<char, P, String>(&self.0, self.1, input)
    }
}

/// What `wf` and `parses` of a repetition stand for, where the items are
/// collected in a vector.
pub proof fn lemma_many<T, P: Parser<T>>(p: Many<P>)
    ensures
        Parser::<Vec<T>>::wf(&p) <==> p.0.wf() && advances::<T, P>(p.0),
        forall|input: Seq<char>| !#[trigger] Parser::<Vec<T>>::parses(&p, input, None),
        forall|input: Seq<char>, items: Vec<T>, rest: Seq<char>| #[trigger]
            p.parses(input, Some((items, rest))) <==> repeats::<T, P>(p.0, input, items@, rest),
{
}

/// What `wf` and `parses` of a repetition stand for, where the items are
/// collected in a string.
pub proof fn lemma_many_string<P: Parser<char>>(p: Many<P>)
    ensures
        Parser::<String>::wf(&p) <==> p.0.wf() && advances::<char, P>(p.0),
        forall|input: Seq<char>| !#[trigger] Parser::<String>::parses(&p, input, None),
        forall|input: Seq<char>, items: String, rest: Seq<char>| #[trigger]
            p.parses(input, Some((items, rest))) <==> repeats::<char, P>(p.0, input, items@, rest),
{
}

/// What `wf` and `parses` of a repetition of at least one stand for, where the
/// items are collected in a vector.
pub proof fn lemma_many1<T, P: Parser<T>>(p: Many1<P>)
    ensures
        Parser::<Vec<T>>::wf(&p) <==> p.0.wf() && advances::<T, P>(p.0),
        forall|input: Seq<char>| #[trigger]
            Parser::<Vec<T>>::parses(&p, input, None) <==> p.0.parses(input, None),
        forall|input: Seq<char>, items: Vec<T>, rest: Seq<char>| #[trigger]
            p.parses(input, Some((items, rest))) <==> items@.len() >= 1 && repeats::<T, P>(
                p.0,
                input,
                items@,
                rest,
            ),
{
}

/// What `wf` and `parses` of a repetition of at least one stand for, where the
/// items are collected in a string.
pub proof fn lemma_many1_string<P: Parser<char>>(p: Many1<P>)
    ensures
        Parser::<String>::wf(&p) <==> p.0.wf() && advances::<char, P>(p.0),
        forall|input: Seq<char>| #[trigger]
            Parser::<String>::parses(&p, input, None) <==> p.0.parses(input, None),
        forall|input: Seq<char>, items: String, rest: Seq<char>| #[trigger]
            p.parses(input, Some((items, rest))) <==> items@.len() >= 1 && repeats::<char, P>(
                p.0,
                input,
                items@,
                rest,
            ),
{
}

/// What `wf` and `parses` of a counted repetition stand for, where the items
/// are collected in a vector.
pub proof fn lemma_count<T, P: Parser<T>>(p: Count<P>)
    ensures
        Parser::<Vec<T>>::wf(&p) <==> p.0.wf(),
        forall|input: Seq<char>| #[trigger]
            Parser::<Vec<T>>::parses(&p, input, None) <==> falls_short::<T, P>(
                p.0,
                input,
                p.1 as nat,
            ),
        forall|input: Seq<char>, items: Vec<T>, rest: Seq<char>| #[trigger]
            p.parses(input, Some((items, rest))) <==> items@.len() == p.1 && reads::<T, P>(
                p.0,
                input,
                items@,
                rest,
            ),
{
}

/// What `wf` and `parses` of a counted repetition stand for, where the items
/// are collected in a string.
pub proof fn lemma_count_string<P: Parser<char>>(p: Count<P>)
    ensures
        Parser::<String>::wf(&p) <==> p.0.wf(),
        forall|input: Seq<char>| #[trigger]
            Parser::<String>::parses(&p, input, None) <==> falls_short::<char, P>(
                p.0,
                input,
                p.1 as nat,
            ),
        forall|input: Seq<char>, items: String, rest: Seq<char>| #[trigger]
            p.parses(input, Some((items, rest))) <==> items@.len() == p.1 && reads::<char, P>(
                p.0,
                input,
                items@,
                rest,
            ),
{
}

} // verus!
